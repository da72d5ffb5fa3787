//! A stabilizer-circuit simulator on top of the tableau.
use vstd::prelude::*;

use crate::tableau::{
    lemma_cnot_keeps_validity, lemma_initial_valid, lemma_single_qubit_gates_keep_validity, Tableau,
    TableauView, MAX_QUBITS,
};

verus! {

pub struct StabilizerSimulator {
    tableau: Tableau,
}

impl View for StabilizerSimulator {
    type V = TableauView;

    closed spec fn view(&self) -> TableauView {
        self.tableau@
    }
}

impl StabilizerSimulator {
    /// The tableau is consistent and its rows form a symplectic basis.
    pub closed spec fn wf(&self) -> bool {
        &&& self.tableau.wf()
        &&& self.tableau@.valid()
    }

    /// A well-formed simulator holds a valid tableau, so the laws on valid
    /// tableaux (such as `lemma_measurement_repeatable`) apply to its view.
    pub proof fn lemma_view_valid(&self)
        requires
            self.wf(),
        ensures
            self@.valid(),
    {
    }

    /// The seed state of the measurement randomness, if the simulator was
    /// seeded.
    pub closed spec fn seed_state(&self) -> Option<u64> {
        self.tableau.seed_state()
    }

    /// `n` qubits in `|0...0>`.
    pub fn new(n: usize) -> (s: Self)
        requires
            n <= MAX_QUBITS,
            (2 * n + 1) * ((n + 63) / 64) <= usize::MAX,
        ensures
            s.wf(),
            s@ == TableauView::initial(n as nat),
            s.seed_state() is None,
    {
        proof {
            lemma_initial_valid(n as nat);
        }
        StabilizerSimulator { tableau: Tableau::new(n) }
    }

    /// `n` qubits in `|0...0>`, with measurement randomness drawn from a
    /// xorshift stream seeded with `seed`.
    pub fn with_seed(n: usize, seed: u64) -> (s: Self)
        requires
            n <= MAX_QUBITS,
            (2 * n + 1) * ((n + 63) / 64) <= usize::MAX,
        ensures
            s.wf(),
            s@ == TableauView::initial(n as nat),
            s.seed_state() == Some(crate::surface_code::xorshift_seed(seed)),
    {
        proof {
            lemma_initial_valid(n as nat);
        }
        StabilizerSimulator { tableau: Tableau::with_seed(n, seed) }
    }

    pub fn n(&self) -> (n: usize)
        ensures
            n == self@.n,
    {
        self.tableau.num_qubits()
    }

    /// Stabilizer generator `i` (tableau row `n + i`): its sign bit, and per
    /// qubit 0 for I, 1 for X, 2 for Z, 3 for Y.
    pub fn stabilizer_row(&self, i: usize) -> (row: (u8, Vec<u8>))
        requires
            self.wf(),
            i < self@.n,
        ensures
            row.0 == self@.rows[self@.n + i].r,
            row.1@.len() == self@.n,
            forall|q: int|
                0 <= q < self@.n ==> #[trigger] row.1@[q] == (if self@.rows[self@.n + i].x[q] {
                    1u8
                } else {
                    0u8
                }) + (if self@.rows[self@.n + i].z[q] {
                    2u8
                } else {
                    0u8
                }),
    {
        proof {
            self.tableau.lemma_view_shape();
        }
        let n = self.tableau.num_qubits();
        let r = n + i;
        let mut paulis: Vec<u8> = Vec::new();
        for q in 0..n
            invariant
                self.wf(),
                n == self@.n,
                r == n + i,
                i < n,
                paulis@.len() == q,
                forall|k: int|
                    0 <= k < q ==> #[trigger] paulis@[k] == (if self@.rows[r as int].x[k] {
                        1u8
                    } else {
                        0u8
                    }) + (if self@.rows[r as int].z[k] {
                        2u8
                    } else {
                        0u8
                    }),
        {
            let x: u8 = if self.tableau.get_x(r, q) {
                1
            } else {
                0
            };
            let z: u8 = if self.tableau.get_z(r, q) {
                2
            } else {
                0
            };
            paulis.push(x + z);
        }
        (self.tableau.get_r(r), paulis)
    }

    pub fn apply_h(&mut self, qubit: usize)
        requires
            old(self).wf(),
            qubit < old(self)@.n,
        ensures
            final(self).wf(),
            final(self)@ == old(self)@.h(qubit as int),
            final(self).seed_state() == old(self).seed_state(),
    {
        proof {
            lemma_single_qubit_gates_keep_validity(self@, qubit as int);
        }
        self.tableau.apply_h(qubit);
    }

    pub fn apply_s(&mut self, qubit: usize)
        requires
            old(self).wf(),
            qubit < old(self)@.n,
        ensures
            final(self).wf(),
            final(self)@ == old(self)@.s(qubit as int),
            final(self).seed_state() == old(self).seed_state(),
    {
        proof {
            lemma_single_qubit_gates_keep_validity(self@, qubit as int);
        }
        self.tableau.apply_s(qubit);
    }

    /// `S^dagger = S^3`.
    pub fn apply_s_dag(&mut self, qubit: usize)
        requires
            old(self).wf(),
            qubit < old(self)@.n,
        ensures
            final(self).wf(),
            final(self)@ == old(self)@.s(qubit as int).s(qubit as int).s(qubit as int),
            final(self).seed_state() == old(self).seed_state(),
    {
        self.apply_s(qubit);
        self.apply_s(qubit);
        self.apply_s(qubit);
    }

    /// CNOT from `control` to `target`, which must be different qubits.
    pub fn apply_cnot(&mut self, control: usize, target: usize)
        requires
            old(self).wf(),
            control < old(self)@.n,
            target < old(self)@.n,
            control != target,
        ensures
            final(self).wf(),
            final(self)@ == old(self)@.cnot(control as int, target as int),
            final(self).seed_state() == old(self).seed_state(),
    {
        proof {
            lemma_cnot_keeps_validity(self@, control as int, target as int);
        }
        self.tableau.apply_cnot(control, target);
    }

    /// Pauli X on `qubit`: every row with a Z part there flips sign.
    pub fn apply_x(&mut self, qubit: usize)
        requires
            old(self).wf(),
            qubit < old(self)@.n,
        ensures
            final(self).wf(),
            final(self)@ == old(self)@.px(qubit as int),
            final(self).seed_state() == old(self).seed_state(),
    {
        let ghost v0 = self@;
        proof {
            self.tableau.lemma_view_shape();
            lemma_single_qubit_gates_keep_validity(v0, qubit as int);
            assert(v0.px_upto(qubit as int, 0).rows =~= v0.rows);
        }
        let n = self.tableau.num_qubits();
        for i in 0..(2 * n)
            invariant
                self.tableau.wf(),
                n == self@.n,
                qubit < n,
                v0.n == n,
                v0.well_sized(),
                self@ == v0.px_upto(qubit as int, i as int),
                self.seed_state() == old(self).seed_state(),
        {
            let z_val = self.tableau.get_z(i, qubit);
            let r_val = self.tableau.get_r(i);
            let new_r = if z_val {
                r_val ^ 1u8
            } else {
                r_val
            };
            self.tableau.set_r(i, new_r);
            proof {
                assert(self@.rows =~= v0.px_upto(qubit as int, i + 1).rows);
            }
        }
    }

    /// Pauli Z on `qubit`: every row with an X part there flips sign.
    pub fn apply_z(&mut self, qubit: usize)
        requires
            old(self).wf(),
            qubit < old(self)@.n,
        ensures
            final(self).wf(),
            final(self)@ == old(self)@.pz(qubit as int),
            final(self).seed_state() == old(self).seed_state(),
    {
        let ghost v0 = self@;
        proof {
            self.tableau.lemma_view_shape();
            lemma_single_qubit_gates_keep_validity(v0, qubit as int);
            assert(v0.pz_upto(qubit as int, 0).rows =~= v0.rows);
        }
        let n = self.tableau.num_qubits();
        for i in 0..(2 * n)
            invariant
                self.tableau.wf(),
                n == self@.n,
                qubit < n,
                v0.n == n,
                v0.well_sized(),
                self@ == v0.pz_upto(qubit as int, i as int),
                self.seed_state() == old(self).seed_state(),
        {
            let x_val = self.tableau.get_x(i, qubit);
            let r_val = self.tableau.get_r(i);
            let new_r = if x_val {
                r_val ^ 1u8
            } else {
                r_val
            };
            self.tableau.set_r(i, new_r);
            proof {
                assert(self@.rows =~= v0.pz_upto(qubit as int, i + 1).rows);
            }
        }
    }

    /// Pauli Y on `qubit`, up to a global phase: X then Z.
    pub fn apply_y(&mut self, qubit: usize)
        requires
            old(self).wf(),
            qubit < old(self)@.n,
        ensures
            final(self).wf(),
            final(self)@ == old(self)@.py(qubit as int),
            final(self).seed_state() == old(self).seed_state(),
    {
        let ghost v0 = self@;
        proof {
            self.tableau.lemma_view_shape();
            lemma_single_qubit_gates_keep_validity(v0, qubit as int);
            assert(v0.py_upto(qubit as int, 0).rows =~= v0.rows);
        }
        let n = self.tableau.num_qubits();
        for i in 0..(2 * n)
            invariant
                self.tableau.wf(),
                n == self@.n,
                qubit < n,
                v0.n == n,
                v0.well_sized(),
                self@ == v0.py_upto(qubit as int, i as int),
                self.seed_state() == old(self).seed_state(),
        {
            let x_val = self.tableau.get_x(i, qubit);
            let z_val = self.tableau.get_z(i, qubit);
            let r_val = self.tableau.get_r(i);
            let new_r = if x_val != z_val {
                r_val ^ 1u8
            } else {
                r_val
            };
            self.tableau.set_r(i, new_r);
            proof {
                assert(self@.rows =~= v0.py_upto(qubit as int, i + 1).rows);
            }
        }
    }

    /// Measure `qubit` in the Z basis.
    pub fn measure_z(&mut self, qubit: usize) -> (outcome: u8)
        requires
            old(self).wf(),
            qubit < old(self)@.n,
        ensures
            final(self).wf(),
            final(self)@ == old(self)@.measured(qubit as int, outcome),
            old(self)@.pivot(qubit as int) >= 0 ==> outcome <= 1,
            old(self)@.pivot(qubit as int) < 0 ==> outcome == old(self)@.determined_outcome(
                qubit as int,
            ) && final(self).seed_state() == old(self).seed_state(),
    {
        self.tableau.measure(qubit)
    }

    /// Measure `qubit` in the X basis: H, measure Z, H.
    pub fn measure_x(&mut self, qubit: usize) -> (outcome: u8)
        requires
            old(self).wf(),
            qubit < old(self)@.n,
        ensures
            final(self).wf(),
            final(self)@ == old(self)@.h(qubit as int).measured(qubit as int, outcome).h(
                qubit as int,
            ),
            old(self)@.h(qubit as int).pivot(qubit as int) >= 0 ==> outcome <= 1,
            old(self)@.h(qubit as int).pivot(qubit as int) < 0 ==> outcome == old(self)@.h(
                qubit as int,
            ).determined_outcome(qubit as int),
    {
        self.apply_h(qubit);
        let outcome = self.measure_z(qubit);
        self.apply_h(qubit);
        outcome
    }

    /// Measure `qubit` in the Y basis: S^dagger, H, measure Z, H, S.
    pub fn measure_y(&mut self, qubit: usize) -> (outcome: u8)
        requires
            old(self).wf(),
            qubit < old(self)@.n,
        ensures
            final(self).wf(),
            final(self)@ == y_basis(old(self)@, qubit as int).measured(qubit as int, outcome).h(
                qubit as int,
            ).s(qubit as int),
            y_basis(old(self)@, qubit as int).pivot(qubit as int) >= 0 ==> outcome <= 1,
            y_basis(old(self)@, qubit as int).pivot(qubit as int) < 0 ==> outcome == y_basis(
                old(self)@,
                qubit as int,
            ).determined_outcome(qubit as int),
    {
        self.apply_s_dag(qubit);
        self.apply_h(qubit);
        let outcome = self.measure_z(qubit);
        self.apply_h(qubit);
        self.apply_s(qubit);
        outcome
    }
}

/// The tableau rotated so that a Z measurement of `q` reads Y: `S^dagger`
/// then `H`.
pub open spec fn y_basis(v: TableauView, q: int) -> TableauView {
    v.s(q).s(q).s(q).h(q)
}

} // verus!
