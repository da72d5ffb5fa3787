//! Binary symplectic stabilizer tableau (Aaronson and Gottesman), with the
//! bits of each row packed into 64-bit words.
use vstd::prelude::*;

use crate::pauli::{
    anticommutes, flip, g_spec, g_sum, identity_row, lemma_anticommutes_product,
    lemma_anticommutes_self, lemma_anticommutes_sym, lemma_parity_ext, lemma_parity_single, lemma_parity_two,
    lemma_parity_zero,
    lemma_phase_even_iff_commute, phase_sum, product, sym_term, x_row, z_row, PauliRow,
};
use crate::surface_code::Xorshift;

verus! {

/// Largest register the tableau accepts: the phase sum of a row product is
/// accumulated in an `i32`.
pub const MAX_QUBITS: usize = 0x3fff_ffff;

/// The tableau as mathematics: `2n + 1` signed Pauli strings on `n` qubits.
/// Rows `0..n` are the destabilizers, rows `n..2n` the stabilizers, and row
/// `2n` is scratch space for deterministic measurements.
pub struct TableauView {
    pub n: nat,
    pub rows: Seq<PauliRow>,
}

impl TableauView {
    pub open spec fn well_sized(self) -> bool {
        &&& self.rows.len() == 2 * self.n + 1
        &&& forall|i: int| 0 <= i < self.rows.len() ==> (#[trigger] self.rows[i]).well_sized(self.n)
    }

    /// The rows form a symplectic basis: destabilizer `i` anticommutes with
    /// stabilizer `i` and with nothing else among the `2n` rows.
    pub open spec fn valid(self) -> bool {
        &&& self.well_sized()
        &&& forall|i: int, j: int|
            0 <= i < 2 * self.n && 0 <= j < 2 * self.n ==> #[trigger] anticommutes(
                self.rows[i],
                self.rows[j],
                self.n,
            ) == (i == j + self.n || j == i + self.n)
    }

    /// The state `|0...0>`: destabilizers `X_i`, stabilizers `+Z_i`.
    pub open spec fn initial(n: nat) -> TableauView {
        TableauView {
            n,
            rows: Seq::new(
                2 * n + 1,
                |i: int|
                    if i < n {
                        x_row(n, i)
                    } else if i < 2 * n {
                        z_row(n, i - n, 0)
                    } else {
                        identity_row(n)
                    },
            ),
        }
    }

    /// Hadamard on qubit `q`. applied to the rows below `k` (never the scratch row).
    pub open spec fn h_upto(self, q: int, k: int) -> TableauView {
        TableauView {
            n: self.n,
            rows: Seq::new(
                self.rows.len(),
                |i: int|
                    if i < k && i < 2 * self.n {
                        self.rows[i].h(q)
                    } else {
                        self.rows[i]
                    },
            ),
        }
    }

    /// Hadamard on qubit `q`.
    pub open spec fn h(self, q: int) -> TableauView {
        self.h_upto(q, 2 * self.n as int)
    }

    /// Phase gate on qubit `q`. applied to the rows below `k` (never the scratch row).
    pub open spec fn s_upto(self, q: int, k: int) -> TableauView {
        TableauView {
            n: self.n,
            rows: Seq::new(
                self.rows.len(),
                |i: int|
                    if i < k && i < 2 * self.n {
                        self.rows[i].s(q)
                    } else {
                        self.rows[i]
                    },
            ),
        }
    }

    /// Phase gate on qubit `q`.
    pub open spec fn s(self, q: int) -> TableauView {
        self.s_upto(q, 2 * self.n as int)
    }

    /// CNOT from `c` to `t`. applied to the rows below `k` (never the scratch row).
    pub open spec fn cnot_upto(self, c: int, t: int, k: int) -> TableauView {
        TableauView {
            n: self.n,
            rows: Seq::new(
                self.rows.len(),
                |i: int|
                    if i < k && i < 2 * self.n {
                        self.rows[i].cnot(c, t)
                    } else {
                        self.rows[i]
                    },
            ),
        }
    }

    /// CNOT from `c` to `t`.
    pub open spec fn cnot(self, c: int, t: int) -> TableauView {
        self.cnot_upto(c, t, 2 * self.n as int)
    }

    /// Pauli X on qubit `q`. applied to the rows below `k` (never the scratch row).
    pub open spec fn px_upto(self, q: int, k: int) -> TableauView {
        TableauView {
            n: self.n,
            rows: Seq::new(
                self.rows.len(),
                |i: int|
                    if i < k && i < 2 * self.n {
                        self.rows[i].px(q)
                    } else {
                        self.rows[i]
                    },
            ),
        }
    }

    /// Pauli X on qubit `q`.
    pub open spec fn px(self, q: int) -> TableauView {
        self.px_upto(q, 2 * self.n as int)
    }

    /// Pauli Z on qubit `q`. applied to the rows below `k` (never the scratch row).
    pub open spec fn pz_upto(self, q: int, k: int) -> TableauView {
        TableauView {
            n: self.n,
            rows: Seq::new(
                self.rows.len(),
                |i: int|
                    if i < k && i < 2 * self.n {
                        self.rows[i].pz(q)
                    } else {
                        self.rows[i]
                    },
            ),
        }
    }

    /// Pauli Z on qubit `q`.
    pub open spec fn pz(self, q: int) -> TableauView {
        self.pz_upto(q, 2 * self.n as int)
    }

    /// Pauli Y on qubit `q`. applied to the rows below `k` (never the scratch row).
    pub open spec fn py_upto(self, q: int, k: int) -> TableauView {
        TableauView {
            n: self.n,
            rows: Seq::new(
                self.rows.len(),
                |i: int|
                    if i < k && i < 2 * self.n {
                        self.rows[i].py(q)
                    } else {
                        self.rows[i]
                    },
            ),
        }
    }

    /// Pauli Y on qubit `q`.
    pub open spec fn py(self, q: int) -> TableauView {
        self.py_upto(q, 2 * self.n as int)
    }


    /// The first stabilizer row at or after `k` with an X or Y on qubit `q`,
    /// or -1 if there is none.
    pub open spec fn first_x_from(self, q: int, k: int) -> int
        decreases 2 * self.n - k,
    {
        if k >= 2 * self.n || k < 0 {
            -1
        } else if self.rows[k].x[q] {
            k
        } else {
            self.first_x_from(q, k + 1)
        }
    }

    /// The stabilizer that anticommutes with `Z_q` and will be replaced by it
    /// when `q` is measured, or -1 when the outcome is already determined.
    pub open spec fn pivot(self, q: int) -> int {
        self.first_x_from(q, self.n as int)
    }

    /// The tableau after measuring `Z_q` with a random outcome, pivoting on
    /// stabilizer `p`: every other row that anticommutes with `Z_q` is
    /// multiplied by row `p`, row `p` moves to its destabilizer slot, and
    /// `(-1)^outcome Z_q` becomes the new stabilizer.
    pub open spec fn collapse(self, q: int, p: int, outcome: u8) -> TableauView {
        TableauView {
            n: self.n,
            rows: Seq::new(
                self.rows.len(),
                |i: int|
                    if i == p - self.n {
                        self.rows[p]
                    } else if i == p {
                        z_row(self.n, q, outcome)
                    } else if i < 2 * self.n && self.rows[i].x[q] {
                        product(self.rows[i], self.rows[p], self.n)
                    } else {
                        self.rows[i]
                    },
            ),
        }
    }

    /// Product of the stabilizers `n + i`, `i < k`, whose destabilizer has an
    /// X or Y on qubit `q`. When `Z_q` commutes with every stabilizer, the
    /// product over all `i < n` is `+-Z_q`, and its sign is the outcome.
    pub open spec fn det_product(self, q: int, k: nat) -> PauliRow
        decreases k,
    {
        if k == 0 {
            identity_row(self.n)
        } else {
            let acc = self.det_product(q, (k - 1) as nat);
            if self.rows[k - 1].x[q] {
                product(acc, self.rows[k - 1 + self.n], self.n)
            } else {
                acc
            }
        }
    }

    /// The tableau after measuring `Z_q` with the given outcome.
    pub open spec fn measured(self, q: int, outcome: u8) -> TableauView {
        let p = self.pivot(q);
        if p >= 0 {
            self.collapse(q, p, outcome)
        } else {
            TableauView {
                n: self.n,
                rows: self.rows.update(2 * self.n as int, self.det_product(q, self.n)),
            }
        }
    }

    /// The outcome of measuring `Z_q` when it is determined.
    pub open spec fn determined_outcome(self, q: int) -> u8 {
        self.det_product(q, self.n).r
    }


    /// Rows below `k`, other than `p` and its destabilizer `p - n`, that have
    /// an X or Y on qubit `q` are multiplied by row `p`.
    pub open spec fn multiply_by_pivot_upto(self, q: int, p: int, k: int) -> TableauView {
        TableauView {
            n: self.n,
            rows: Seq::new(
                self.rows.len(),
                |i: int|
                    if i < k && i < 2 * self.n && i != p && i != p - self.n && self.rows[i].x[q] {
                        product(self.rows[i], self.rows[p], self.n)
                    } else {
                        self.rows[i]
                    },
            ),
        }
    }

    pub open spec fn replace_row(self, i: int, row: PauliRow) -> TableauView {
        TableauView { n: self.n, rows: self.rows.update(i, row) }
    }

    pub open spec fn set_x(self, row: int, col: int, val: bool) -> TableauView {
        TableauView {
            n: self.n,
            rows: self.rows.update(
                row,
                PauliRow { x: self.rows[row].x.update(col, val), ..self.rows[row] },
            ),
        }
    }

    pub open spec fn set_z(self, row: int, col: int, val: bool) -> TableauView {
        TableauView {
            n: self.n,
            rows: self.rows.update(
                row,
                PauliRow { z: self.rows[row].z.update(col, val), ..self.rows[row] },
            ),
        }
    }

    pub open spec fn set_r(self, row: int, val: u8) -> TableauView {
        TableauView { n: self.n, rows: self.rows.update(row, PauliRow { r: val, ..self.rows[row] }) }
    }

    /// Row `i` becomes the product of rows `i` and `j`.
    pub open spec fn rowsum(self, i: int, j: int) -> TableauView {
        TableauView { n: self.n, rows: self.rows.update(i, product(self.rows[i], self.rows[j], self.n)) }
    }
}


/* ---------------------------------------------------------------------- */
/* Measurement keeps the tableau a symplectic basis                       */
/* ---------------------------------------------------------------------- */

/// `Z_q` anticommutes with a string exactly when the string has an X or Y at `q`.
pub proof fn lemma_anticommutes_z_row(a: PauliRow, n: nat, q: int, r: u8)
    requires
        a.well_sized(n),
        0 <= q < n,
    ensures
        anticommutes(a, z_row(n, q, r), n) == a.x[q],
        anticommutes(z_row(n, q, r), a, n) == a.x[q],
{
    let zq = z_row(n, q, r);
    let f = |k: int| sym_term(a, zq, k);
    assert forall|k: int| 0 <= k < n && k != q implies !#[trigger] f(k) by {}
    lemma_parity_single(f, q, n);
    lemma_anticommutes_sym(a, zq, n);
}

/// Multiplying `a` by a string that commutes with `b` does not change whether
/// `a` commutes with `b`.
proof fn lemma_product_keeps_commutation(a: PauliRow, m: PauliRow, b: PauliRow, n: nat)
    requires
        a.well_sized(n),
        m.well_sized(n),
        !anticommutes(m, b, n),
    ensures
        anticommutes(product(a, m, n), b, n) == anticommutes(a, b, n),
        anticommutes(b, product(a, m, n), n) == anticommutes(a, b, n),
{
    lemma_anticommutes_product(a, m, b, n);
    lemma_anticommutes_sym(product(a, m, n), b, n);
    lemma_anticommutes_sym(a, b, n);
}

/// A random-outcome measurement keeps the rows a symplectic basis.
pub proof fn lemma_collapse_valid(v: TableauView, q: int, p: int, outcome: u8)
    requires
        v.valid(),
        0 <= q < v.n,
        v.n <= p < 2 * v.n,
        v.rows[p].x[q],
    ensures
        v.collapse(q, p, outcome).valid(),
{
    let n = v.n;
    let c = v.collapse(q, p, outcome);
    let rp = v.rows[p];
    assert forall|i: int| 0 <= i < c.rows.len() implies (#[trigger] c.rows[i]).well_sized(n) by {
        if i == p - n || i == p {
        } else if i < 2 * n && v.rows[i].x[q] {
            assert(c.rows[i].x.len() == n);
        }
    }
    lemma_anticommutes_self(rp, n);
    // Every row other than the two pivot slots ends up commuting with `Z_q`,
    // and relates to every unaffected row exactly as before.
    assert forall|i: int, b: PauliRow|
        0 <= i < 2 * n && i != p && i != p - n && b.well_sized(n) && !anticommutes(rp, b, n)
        implies #[trigger] anticommutes(c.rows[i], b, n) == anticommutes(v.rows[i], b, n)
        && anticommutes(b, c.rows[i], n) == anticommutes(v.rows[i], b, n)
        && !c.rows[i].x[q] by {
        lemma_anticommutes_sym(v.rows[i], b, n);
        if v.rows[i].x[q] {
            lemma_product_keeps_commutation(v.rows[i], rp, b, n);
        }
    }
    assert forall|i: int, j: int| 0 <= i < 2 * n && 0 <= j < 2 * n implies #[trigger] anticommutes(
        c.rows[i],
        c.rows[j],
        n,
    ) == (i == j + n || j == i + n) by {
        let ri = v.rows[i];
        let rj = v.rows[j];
        if i == p {
            if j == p {
                lemma_anticommutes_self(c.rows[i], n);
            } else if j == p - n {
                lemma_anticommutes_z_row(rp, n, q, outcome);
            } else {
                assert(anticommutes(rj, rp, n) == false);
                lemma_anticommutes_sym(rj, rp, n);
                lemma_anticommutes_z_row(c.rows[j], n, q, outcome);
            }
        } else if i == p - n {
            if j == p {
                lemma_anticommutes_z_row(rp, n, q, outcome);
            } else if j == p - n {
                lemma_anticommutes_self(rp, n);
            } else {
                assert(anticommutes(rj, rp, n) == false);
                lemma_anticommutes_sym(rj, rp, n);
                assert(anticommutes(c.rows[j], rp, n) == anticommutes(rj, rp, n));
                lemma_anticommutes_sym(c.rows[j], rp, n);
            }
        } else {
            assert(anticommutes(ri, rp, n) == false);
            lemma_anticommutes_sym(ri, rp, n);
            if j == p {
                lemma_anticommutes_z_row(c.rows[i], n, q, outcome);
            } else if j == p - n {
                assert(anticommutes(c.rows[i], rp, n) == anticommutes(ri, rp, n));
            } else {
                assert(anticommutes(rj, rp, n) == false);
                lemma_anticommutes_sym(rj, rp, n);
                // c_i against c_j: first strip row p from c_j, then from c_i.
                assert(anticommutes(rp, c.rows[j], n) == false) by {
                    assert(anticommutes(c.rows[j], rp, n) == anticommutes(rj, rp, n));
                    lemma_anticommutes_sym(c.rows[j], rp, n);
                }
                assert(anticommutes(c.rows[i], c.rows[j], n) == anticommutes(ri, c.rows[j], n));
                assert(anticommutes(c.rows[j], ri, n) == anticommutes(rj, ri, n));
                lemma_anticommutes_sym(c.rows[j], ri, n);
                lemma_anticommutes_sym(rj, ri, n);
            }
        }
    }
}


/// The running product of stabilizers has the right length.
proof fn lemma_det_product_sized(v: TableauView, q: int, k: nat)
    requires
        v.well_sized(),
        k <= v.n,
    ensures
        v.det_product(q, k).well_sized(v.n),
    decreases k,
{
    if k > 0 {
        lemma_det_product_sized(v, q, (k - 1) as nat);
    }
}

/// A product of stabilizers commutes with every stabilizer.
proof fn lemma_det_product_commutes(v: TableauView, q: int, k: nat, s: int)
    requires
        v.valid(),
        k <= v.n,
        v.n <= s < 2 * v.n,
    ensures
        !anticommutes(v.det_product(q, k), v.rows[s], v.n),
    decreases k,
{
    let n = v.n;
    if k == 0 {
        let id = identity_row(n);
        lemma_parity_zero(|c: int| sym_term(id, v.rows[s], c), n);
    } else {
        lemma_det_product_commutes(v, q, (k - 1) as nat, s);
        lemma_det_product_sized(v, q, (k - 1) as nat);
        if v.rows[k - 1].x[q] {
            lemma_anticommutes_product(v.det_product(q, (k - 1) as nat), v.rows[k - 1 + n], v.rows[s], n);
            assert(!anticommutes(v.rows[k - 1 + n], v.rows[s], n));
        }
    }
}


/// What `first_x_from` returns: a stabilizer row at or after `k` with an X or
/// Y on `q` and none before it, or -1 when there is none.
pub proof fn lemma_first_x_from(v: TableauView, q: int, k: int)
    requires
        0 <= k,
    ensures
        v.first_x_from(q, k) == -1 || (k <= v.first_x_from(q, k) < 2 * v.n && v.rows[v.first_x_from(
            q,
            k,
        )].x[q]),
        forall|j: int|
            k <= j < 2 * v.n && (v.first_x_from(q, k) == -1 || j < v.first_x_from(q, k)) ==> !(
            #[trigger] v.rows[j]).x[q],
    decreases 2 * v.n - k,
{
    if k < 2 * v.n && !v.rows[k].x[q] {
        lemma_first_x_from(v, q, k + 1);
    }
}


/* ---------------------------------------------------------------------- */
/* Clifford gates keep the tableau a symplectic basis                     */
/* ---------------------------------------------------------------------- */

/// A gate that changes no X or Z bit keeps every commutation relation.
proof fn lemma_same_bits_same_commutation(a: PauliRow, b: PauliRow, a2: PauliRow, b2: PauliRow, n: nat)
    requires
        a.x == a2.x,
        a.z == a2.z,
        b.x == b2.x,
        b.z == b2.z,
    ensures
        anticommutes(a2, b2, n) == anticommutes(a, b, n),
{
    lemma_parity_ext(|k: int| sym_term(a2, b2, k), |k: int| sym_term(a, b, k), n);
}

/// Conjugating both strings by the same gate keeps their commutation.
proof fn lemma_gate_commutation(a: PauliRow, b: PauliRow, n: nat, gate: int, c: int, t: int)
    requires
        a.well_sized(n),
        b.well_sized(n),
        0 <= c < n,
        0 <= t < n,
        gate == 2 ==> c != t,
    ensures
        gate == 0 ==> anticommutes(a.h(c), b.h(c), n) == anticommutes(a, b, n),
        gate == 1 ==> anticommutes(a.s(c), b.s(c), n) == anticommutes(a, b, n),
        gate == 2 ==> anticommutes(a.cnot(c, t), b.cnot(c, t), n) == anticommutes(a, b, n),
{
    if gate == 0 {
        let (a2, b2) = (a.h(c), b.h(c));
        lemma_parity_ext(|k: int| sym_term(a2, b2, k), |k: int| sym_term(a, b, k), n);
    } else if gate == 1 {
        let (a2, b2) = (a.s(c), b.s(c));
        lemma_parity_ext(|k: int| sym_term(a2, b2, k), |k: int| sym_term(a, b, k), n);
    } else if gate == 2 {
        let (a2, b2) = (a.cnot(c, t), b.cnot(c, t));
        lemma_parity_two(|k: int| sym_term(a2, b2, k), |k: int| sym_term(a, b, k), c, t, n);
    }
}

/// Every single-qubit gate of the simulator maps a valid tableau to a valid
/// tableau: Hadamard and phase permute the Pauli group, and the Pauli gates
/// only flip signs.
pub proof fn lemma_single_qubit_gates_keep_validity(v: TableauView, c: int)
    requires
        v.valid(),
        0 <= c < v.n,
    ensures
        v.h(c).valid(),
        v.s(c).valid(),
        v.px(c).valid(),
        v.pz(c).valid(),
        v.py(c).valid(),
{
    let n = v.n;
    assert forall|i: int, j: int| 0 <= i < 2 * n && 0 <= j < 2 * n implies {
        &&& #[trigger] anticommutes(v.h(c).rows[i], v.h(c).rows[j], n) == anticommutes(v.rows[i], v.rows[j], n)
        &&& anticommutes(v.s(c).rows[i], v.s(c).rows[j], n) == anticommutes(v.rows[i], v.rows[j], n)
        &&& anticommutes(v.px(c).rows[i], v.px(c).rows[j], n) == anticommutes(v.rows[i], v.rows[j], n)
        &&& anticommutes(v.pz(c).rows[i], v.pz(c).rows[j], n) == anticommutes(v.rows[i], v.rows[j], n)
        &&& anticommutes(v.py(c).rows[i], v.py(c).rows[j], n) == anticommutes(v.rows[i], v.rows[j], n)
    } by {
        lemma_gate_commutation(v.rows[i], v.rows[j], n, 0, c, c);
        lemma_gate_commutation(v.rows[i], v.rows[j], n, 1, c, c);
        lemma_same_bits_same_commutation(v.rows[i], v.rows[j], v.px(c).rows[i], v.px(c).rows[j], n);
        lemma_same_bits_same_commutation(v.rows[i], v.rows[j], v.pz(c).rows[i], v.pz(c).rows[j], n);
        lemma_same_bits_same_commutation(v.rows[i], v.rows[j], v.py(c).rows[i], v.py(c).rows[j], n);
    }
    assert forall|i: int| 0 <= i < v.rows.len() implies {
        &&& (#[trigger] v.h(c).rows[i]).well_sized(n)
        &&& v.s(c).rows[i].well_sized(n)
        &&& v.px(c).rows[i].well_sized(n)
        &&& v.pz(c).rows[i].well_sized(n)
        &&& v.py(c).rows[i].well_sized(n)
    } by {}
    assert forall|i: int, j: int| 0 <= i < 2 * n && 0 <= j < 2 * n implies #[trigger] anticommutes(
        v.s(c).rows[i], v.s(c).rows[j], n) == (i == j + n || j == i + n) by {
        assert(anticommutes(v.h(c).rows[i], v.h(c).rows[j], n) == anticommutes(v.rows[i], v.rows[j], n));
    }
    assert forall|i: int, j: int| 0 <= i < 2 * n && 0 <= j < 2 * n implies #[trigger] anticommutes(
        v.px(c).rows[i], v.px(c).rows[j], n) == (i == j + n || j == i + n) by {
        assert(anticommutes(v.h(c).rows[i], v.h(c).rows[j], n) == anticommutes(v.rows[i], v.rows[j], n));
    }
    assert forall|i: int, j: int| 0 <= i < 2 * n && 0 <= j < 2 * n implies #[trigger] anticommutes(
        v.pz(c).rows[i], v.pz(c).rows[j], n) == (i == j + n || j == i + n) by {
        assert(anticommutes(v.h(c).rows[i], v.h(c).rows[j], n) == anticommutes(v.rows[i], v.rows[j], n));
    }
    assert forall|i: int, j: int| 0 <= i < 2 * n && 0 <= j < 2 * n implies #[trigger] anticommutes(
        v.py(c).rows[i], v.py(c).rows[j], n) == (i == j + n || j == i + n) by {
        assert(anticommutes(v.h(c).rows[i], v.h(c).rows[j], n) == anticommutes(v.rows[i], v.rows[j], n));
    }
}

/// A CNOT between two distinct qubits maps a valid tableau to a valid tableau.
pub proof fn lemma_cnot_keeps_validity(v: TableauView, c: int, t: int)
    requires
        v.valid(),
        0 <= c < v.n,
        0 <= t < v.n,
        c != t,
    ensures
        v.cnot(c, t).valid(),
{
    let n = v.n;
    assert forall|i: int, j: int| 0 <= i < 2 * n && 0 <= j < 2 * n implies #[trigger] anticommutes(
        v.cnot(c, t).rows[i], v.cnot(c, t).rows[j], n) == anticommutes(v.rows[i], v.rows[j], n) by {
        lemma_gate_commutation(v.rows[i], v.rows[j], n, 2, c, t);
    }
    assert forall|i: int| 0 <= i < v.rows.len() implies (#[trigger] v.cnot(c, t).rows[i]).well_sized(n) by {}
}

/// The initial tableau is a symplectic basis.
pub proof fn lemma_initial_valid(n: nat)
    ensures
        TableauView::initial(n).valid(),
{
    let v = TableauView::initial(n);
    assert forall|i: int, j: int| 0 <= i < 2 * n && 0 <= j < 2 * n implies #[trigger] anticommutes(
        v.rows[i], v.rows[j], n) == (i == j + n || j == i + n) by {
        let a = v.rows[i];
        let b = v.rows[j];
        let f = |k: int| sym_term(a, b, k);
        if i < n && j >= n && j - n == i {
            assert forall|k: int| 0 <= k < n && k != i implies !#[trigger] f(k) by {}
            lemma_parity_single(f, i, n);
        } else if j < n && i >= n && i - n == j {
            assert forall|k: int| 0 <= k < n && k != j implies !#[trigger] f(k) by {}
            lemma_parity_single(f, j, n);
        } else {
            assert forall|k: int| 0 <= k < n implies !#[trigger] f(k) by {}
            lemma_parity_zero(f, n);
        }
    }
}


/* ---------------------------------------------------------------------- */
/* Laws                                                                   */
/* ---------------------------------------------------------------------- */

proof fn lemma_flip_compose(r: u8, b: bool, c: bool)
    ensures
        flip(flip(r, b), c) == flip(r, b != c),
{
    assert((r ^ 1u8) ^ 1u8 == r) by (bit_vector);
}

proof fn lemma_flip_twice(r: u8, b: bool, c: bool)
    requires
        b == c,
    ensures
        flip(flip(r, b), c) == r,
{
    assert((r ^ 1u8) ^ 1u8 == r) by (bit_vector);
}

/// Hadamard is its own inverse.
pub proof fn lemma_h_involution(v: TableauView, q: int)
    requires
        v.well_sized(),
        0 <= q < v.n,
    ensures
        v.h(q).h(q) == v,
{
    let w = v.h(q).h(q);
    assert forall|i: int| 0 <= i < v.rows.len() implies #[trigger] w.rows[i] == v.rows[i] by {
        if i < 2 * v.n {
            let a = v.rows[i];
            lemma_flip_twice(a.r, a.x[q] && a.z[q], a.z[q] && a.x[q]);
            assert(w.rows[i].x =~= a.x);
            assert(w.rows[i].z =~= a.z);
        }
    }
    assert(w.rows =~= v.rows);
}

/// Four phase gates are the identity, so three of them undo one: `S^dagger`
/// is `S^3`.
pub proof fn lemma_s_order_four(v: TableauView, q: int)
    requires
        v.well_sized(),
        0 <= q < v.n,
    ensures
        v.s(q).s(q).s(q).s(q) == v,
{
    let w = v.s(q).s(q).s(q).s(q);
    assert forall|i: int| 0 <= i < v.rows.len() implies #[trigger] w.rows[i] == v.rows[i] by {
        if i < 2 * v.n {
            let a = v.rows[i];
            let b1 = a.x[q] && a.z[q];
            let b2 = a.x[q] && (a.z[q] != a.x[q]);
            lemma_flip_compose(a.r, b1, b2);
            lemma_flip_compose(flip(a.r, b1 != b2), b1, b2);
            lemma_flip_compose(a.r, b1 != b2, b1 != b2);
            assert(w.rows[i].x =~= a.x);
            assert(w.rows[i].z =~= a.z);
        }
    }
    assert(w.rows =~= v.rows);
}

/// A CNOT between two distinct qubits is its own inverse.
pub proof fn lemma_cnot_involution(v: TableauView, c: int, t: int)
    requires
        v.well_sized(),
        0 <= c < v.n,
        0 <= t < v.n,
        c != t,
    ensures
        v.cnot(c, t).cnot(c, t) == v,
{
    let w = v.cnot(c, t).cnot(c, t);
    assert forall|i: int| 0 <= i < v.rows.len() implies #[trigger] w.rows[i] == v.rows[i] by {
        if i < 2 * v.n {
            let a = v.rows[i];
            let b = a.cnot(c, t);
            lemma_flip_twice(
                a.r,
                a.x[c] && a.z[t] && (a.x[t] == a.z[c]),
                b.x[c] && b.z[t] && (b.x[t] == b.z[c]),
            );
            assert(w.rows[i].x =~= a.x);
            assert(w.rows[i].z =~= a.z);
        }
    }
    assert(w.rows =~= v.rows);
}

/// Each Pauli gate is its own inverse.
pub proof fn lemma_pauli_involutions(v: TableauView, q: int)
    requires
        v.well_sized(),
        0 <= q < v.n,
    ensures
        v.px(q).px(q) == v,
        v.pz(q).pz(q) == v,
        v.py(q).py(q) == v,
{
    assert forall|i: int| 0 <= i < v.rows.len() implies {
        &&& #[trigger] v.px(q).px(q).rows[i] == v.rows[i]
        &&& v.pz(q).pz(q).rows[i] == v.rows[i]
        &&& v.py(q).py(q).rows[i] == v.rows[i]
    } by {
        if i < 2 * v.n {
            let a = v.rows[i];
            lemma_flip_twice(a.r, a.z[q], a.z[q]);
            lemma_flip_twice(a.r, a.x[q], a.x[q]);
            lemma_flip_twice(a.r, a.x[q] != a.z[q], a.x[q] != a.z[q]);
        }
    }
    assert(v.px(q).px(q).rows =~= v.rows);
    assert(v.pz(q).pz(q).rows =~= v.rows);
    assert(v.py(q).py(q).rows =~= v.rows);
}

/// With no stabilizer row at or after `k` carrying an X or Y on `q`, the
/// search comes back empty.
proof fn lemma_first_x_none(v: TableauView, q: int, k: int)
    requires
        0 <= k,
        forall|j: int| k <= j < 2 * v.n ==> !(#[trigger] v.rows[j]).x[q],
    ensures
        v.first_x_from(q, k) == -1,
    decreases 2 * v.n - k,
{
    if k < 2 * v.n {
        lemma_first_x_none(v, q, k + 1);
    }
}

/// The search and the stabilizer product read only the rows below `2n`.
proof fn lemma_scratch_irrelevant(v: TableauView, w: TableauView, q: int, k: nat)
    requires
        v.n == w.n,
        forall|i: int| 0 <= i < 2 * v.n ==> #[trigger] v.rows[i] == w.rows[i],
        k <= v.n,
    ensures
        v.det_product(q, k) == w.det_product(q, k),
    decreases k,
{
    if k > 0 {
        lemma_scratch_irrelevant(v, w, q, (k - 1) as nat);
    }
}

proof fn lemma_first_x_scratch_irrelevant(v: TableauView, w: TableauView, q: int, k: int)
    requires
        v.n == w.n,
        forall|i: int| 0 <= i < 2 * v.n ==> #[trigger] v.rows[i] == w.rows[i],
    ensures
        v.first_x_from(q, k) == w.first_x_from(q, k),
    decreases 2 * v.n - k,
{
    if 0 <= k < 2 * v.n {
        lemma_first_x_scratch_irrelevant(v, w, q, k + 1);
    }
}

/// Multiplying by the identity keeps a string and its sign.
proof fn lemma_g_sum_identity(b: PauliRow, n: nat, k: nat)
    requires
        k <= n,
    ensures
        g_sum(identity_row(n), b, k) == 0,
    decreases k,
{
    if k > 0 {
        lemma_g_sum_identity(b, n, (k - 1) as nat);
    }
}

/// A stabilizer product that picks up exactly one row `j + n`.
proof fn lemma_det_product_single(v: TableauView, q: int, j: int, k: nat)
    requires
        k <= v.n,
        0 <= j < v.n,
        v.rows[j].x[q],
        forall|i: int| 0 <= i < v.n && i != j ==> !(#[trigger] v.rows[i]).x[q],
    ensures
        k <= j ==> v.det_product(q, k) == identity_row(v.n),
        k > j ==> v.det_product(q, k) == product(identity_row(v.n), v.rows[j + v.n], v.n),
    decreases k,
{
    if k > 0 {
        lemma_det_product_single(v, q, j, (k - 1) as nat);
    }
}

/// S applied twice is Z: on a well-sized tableau, applying the phase gate to
/// qubit `q` twice gives the state that applying Pauli `Z` to it gives (for
/// instance `|+>` becomes `|->`).
pub proof fn lemma_tableau_s_twice_is_z(v: TableauView, q: int)
    requires
        v.well_sized(),
        0 <= q < v.n,
    ensures
        v.s(q).s(q) == v.pz(q),
{
    let a = v.s(q).s(q);
    let b = v.pz(q);
    assert forall|i: int| 0 <= i < a.rows.len() implies #[trigger] a.rows[i] == b.rows[i] by {
        if i < 2 * v.n {
            assert(v.rows[i].well_sized(v.n));
            crate::pauli::lemma_s_twice_is_z(v.rows[i], q);
        }
    }
    assert(a.rows =~= b.rows);
}

/// Measurement is repeatable: once `Z_q` has been measured with outcome `o`,
/// its value is determined, and measuring it again gives `o` again.
pub proof fn lemma_measurement_repeatable(v: TableauView, q: int, o: u8)
    requires
        v.valid(),
        0 <= q < v.n,
        v.pivot(q) >= 0 ==> o <= 1,
        v.pivot(q) < 0 ==> o == v.determined_outcome(q),
    ensures
        v.measured(q, o).pivot(q) == -1,
        v.measured(q, o).determined_outcome(q) == o,
{
    let n = v.n;
    let p = v.pivot(q);
    let m = v.measured(q, o);
    if p >= 0 {
        lemma_first_x_from(v, q, n as int);
        assert forall|j: int| n <= j < 2 * n implies !(#[trigger] m.rows[j]).x[q] by {}
        lemma_first_x_none(m, q, n as int);
        let j = p - n;
        assert forall|i: int| 0 <= i < n && i != j implies !(#[trigger] m.rows[i]).x[q] by {}
        lemma_det_product_single(m, q, j, n);
        lemma_g_sum_identity(m.rows[j + n], n, n);
        assert(phase_sum(identity_row(n), m.rows[j + n], n) == 2 * (o as int));
    } else {
        assert forall|i: int| 0 <= i < 2 * n implies #[trigger] m.rows[i] == v.rows[i] by {}
        lemma_first_x_from(v, q, n as int);
        lemma_first_x_scratch_irrelevant(m, v, q, n as int);
        lemma_scratch_irrelevant(m, v, q, n);
    }
}

pub open spec fn word_bit(w: u64, b: int) -> bool {
    (w >> (b as u64)) & 1u64 == 1u64
}

/// `g` of Aaronson and Gottesman: the exponent of `i` acquired when
/// multiplying the single-qubit Pauli `(x1, z1)` by `(x2, z2)`.
fn g(x1: bool, z1: bool, x2: bool, z2: bool) -> (v: i32)
    ensures
        v == g_spec(x1, z1, x2, z2),
{
    let bx2: i32 = if x2 { 1 } else { 0 };
    let bz2: i32 = if z2 { 1 } else { 0 };
    match (x1, z1) {
        (false, false) => 0,
        (true, true) => bz2 - bx2,
        (true, false) => bz2 * (2 * bx2 - 1),
        (false, true) => bx2 * (1 - 2 * bz2),
    }
}

/// A fair coin from the thread-local generator of `rand`.
#[verifier::external_body]
fn random_bit() -> (b: bool) {
    rand::Rng::gen::<bool>(&mut rand::thread_rng())
}

pub struct Tableau {
    pub n: usize,
    words_per_row: usize,
    x: Vec<u64>,
    z: Vec<u64>,
    r: Vec<u8>,
    rng: Xorshift,
    seeded: bool,
}

proof fn lemma_bit_or(w: u64, s: u64, b: u64)
    requires
        s < 64,
        b < 64,
    ensures
        ((w | (1u64 << s)) >> b) & 1u64 == 1u64 <==> (b == s || (w >> b) & 1u64 == 1u64),
{
    assert(((w | (1u64 << s)) >> b) & 1u64 == 1u64 <==> (b == s || (w >> b) & 1u64 == 1u64))
        by (bit_vector)
        requires
            s < 64,
            b < 64,
    ;
}

proof fn lemma_bit_clear(w: u64, s: u64, b: u64)
    requires
        s < 64,
        b < 64,
    ensures
        ((w & !(1u64 << s)) >> b) & 1u64 == 1u64 <==> (b != s && (w >> b) & 1u64 == 1u64),
{
    assert(((w & !(1u64 << s)) >> b) & 1u64 == 1u64 <==> (b != s && (w >> b) & 1u64 == 1u64))
        by (bit_vector)
        requires
            s < 64,
            b < 64,
    ;
}

proof fn lemma_bit_xor(a: u64, c: u64, b: u64)
    requires
        b < 64,
    ensures
        ((a ^ c) >> b) & 1u64 == 1u64 <==> (((a >> b) & 1u64 == 1u64) != ((c >> b) & 1u64
            == 1u64)),
{
    assert(((a ^ c) >> b) & 1u64 == 1u64 <==> (((a >> b) & 1u64 == 1u64) != ((c >> b) & 1u64
        == 1u64))) by (bit_vector)
        requires
            b < 64,
    ;
}

proof fn lemma_bit_zero(b: u64)
    requires
        b < 64,
    ensures
        (0u64 >> b) & 1u64 != 1u64,
{
    assert((0u64 >> b) & 1u64 != 1u64) by (bit_vector);
}

proof fn lemma_bit_single(s: u64, b: u64)
    requires
        s < 64,
        b < 64,
    ensures
        ((0u64 | (1u64 << s)) >> b) & 1u64 == 1u64 <==> b == s,
{
    lemma_bit_or(0u64, s, b);
    lemma_bit_zero(b);
}

/// Word `r * w + c` with `c < w` belongs to row `r` alone.
proof fn lemma_word_index(w: int, r1: int, c1: int, r2: int, c2: int)
    requires
        w > 0,
        r1 >= 0,
        r2 >= 0,
        0 <= c1 < w,
        0 <= c2 < w,
        r1 * w + c1 == r2 * w + c2,
    ensures
        r1 == r2,
        c1 == c2,
{
    if r1 < r2 {
        assert(r1 * w + c1 < r2 * w) by (nonlinear_arith)
            requires
                r1 < r2,
                c1 < w,
                w > 0,
        ;
    } else if r2 < r1 {
        assert(r2 * w + c2 < r1 * w) by (nonlinear_arith)
            requires
                r2 < r1,
                c2 < w,
                w > 0,
        ;
    }
}

proof fn lemma_word_bound(w: int, r: int, c: int, rows: int)
    requires
        w > 0,
        0 <= r < rows,
        0 <= c < w,
    ensures
        0 <= r * w + c < rows * w,
{
    assert(0 <= r * w + c < rows * w) by (nonlinear_arith)
        requires
            w > 0,
            0 <= r < rows,
            0 <= c < w,
    ;
}


/// Setting or clearing one bit of a packed row changes exactly that bit.
proof fn lemma_set_packed_bit(
    old: Seq<u64>,
    new: Seq<u64>,
    w: int,
    num_rows: int,
    n: int,
    row: int,
    col: int,
    val: bool,
)
    requires
        w > 0,
        n <= 64 * w,
        old.len() == num_rows * w,
        0 <= row < num_rows,
        0 <= col < n,
        new == old.update(
            row * w + col / 64,
            if val {
                old[row * w + col / 64] | (1u64 << ((col % 64) as u64))
            } else {
                old[row * w + col / 64] & !(1u64 << ((col % 64) as u64))
            },
        ),
    ensures
        forall|i: int, c: int|
            0 <= i < num_rows && 0 <= c < n ==> #[trigger] word_bit(new[i * w + c / 64], c % 64)
                == if i == row && c == col {
                val
            } else {
                word_bit(old[i * w + c / 64], c % 64)
            },
{
    let idx = row * w + col / 64;
    lemma_word_bound(w, row, col / 64, num_rows);
    assert forall|i: int, c: int| 0 <= i < num_rows && 0 <= c < n implies #[trigger] word_bit(
        new[i * w + c / 64],
        c % 64,
    ) == if i == row && c == col {
        val
    } else {
        word_bit(old[i * w + c / 64], c % 64)
    } by {
        lemma_word_bound(w, i, c / 64, num_rows);
        let k = i * w + c / 64;
        if k == idx {
            lemma_word_index(w, i, c / 64, row, col / 64);
            if val {
                lemma_bit_or(old[idx], (col % 64) as u64, (c % 64) as u64);
            } else {
                lemma_bit_clear(old[idx], (col % 64) as u64, (c % 64) as u64);
            }
        }
    }
}

impl Tableau {
    pub closed spec fn xbit(&self, row: int, col: int) -> bool {
        word_bit(self.x@[row * self.words_per_row + col / 64], col % 64)
    }

    pub closed spec fn zbit(&self, row: int, col: int) -> bool {
        word_bit(self.z@[row * self.words_per_row + col / 64], col % 64)
    }

    /// The packed representation is consistent with `n`.
    pub closed spec fn wf(&self) -> bool {
        &&& self.n <= MAX_QUBITS
        &&& self.words_per_row == (self.n + 63) / 64
        &&& self.x@.len() == (2 * self.n + 1) * self.words_per_row
        &&& self.z@.len() == (2 * self.n + 1) * self.words_per_row
        &&& self.r@.len() == 2 * self.n + 1
        &&& (2 * self.n + 1) * self.words_per_row <= usize::MAX
    }

    /// The measurement randomness: `None` draws from `rand`'s thread-local
    /// generator, `Some` from a seeded xorshift stream.
    pub closed spec fn seed_state(&self) -> Option<u64> {
        if self.seeded {
            Some(self.rng@)
        } else {
            None
        }
    }
}

impl View for Tableau {
    type V = TableauView;

    closed spec fn view(&self) -> TableauView {
        TableauView {
            n: self.n as nat,
            rows: Seq::new(
                (2 * self.n + 1) as nat,
                |i: int|
                    PauliRow {
                        x: Seq::new(self.n as nat, |c: int| self.xbit(i, c)),
                        z: Seq::new(self.n as nat, |c: int| self.zbit(i, c)),
                        r: self.r@[i],
                    },
            ),
        }
    }
}

impl Tableau {
    /// The view has `n` qubits and `2n + 1` rows of length `n`.
    pub proof fn lemma_view_shape(&self)
        requires
            self.wf(),
        ensures
            self@.well_sized(),
            self@.n <= MAX_QUBITS,
    {
    }

    /// Number of qubits.
    pub fn num_qubits(&self) -> (n: usize)
        ensures
            n == self@.n,
    {
        self.n
    }

    proof fn lemma_index(&self, row: int, col: int)
        requires
            self.wf(),
            0 <= row <= 2 * self.n,
            0 <= col < self.n,
        ensures
            0 <= row * self.words_per_row + col / 64 < self.x@.len(),
            0 <= col / 64 < self.words_per_row,
            self.words_per_row > 0,
    {
        lemma_word_bound(self.words_per_row as int, row, col / 64, 2 * self.n + 1);
    }


    pub fn get_x(&self, row: usize, col: usize) -> (b: bool)
        requires
            self.wf(),
            row <= 2 * self@.n,
            col < self@.n,
        ensures
            b == self@.rows[row as int].x[col as int],
    {
        proof {
            self.lemma_index(row as int, col as int);
        }
        let idx = row * self.words_per_row + (col / 64);
        ((self.x[idx] >> ((col % 64) as u64)) & 1u64) == 1u64
    }

    pub fn get_z(&self, row: usize, col: usize) -> (b: bool)
        requires
            self.wf(),
            row <= 2 * self@.n,
            col < self@.n,
        ensures
            b == self@.rows[row as int].z[col as int],
    {
        proof {
            self.lemma_index(row as int, col as int);
        }
        let idx = row * self.words_per_row + (col / 64);
        ((self.z[idx] >> ((col % 64) as u64)) & 1u64) == 1u64
    }

    pub fn set_x(&mut self, row: usize, col: usize, val: bool)
        requires
            old(self).wf(),
            row <= 2 * old(self)@.n,
            col < old(self)@.n,
        ensures
            final(self).wf(),
            final(self)@ == old(self)@.set_x(row as int, col as int, val),
            final(self).seed_state() == old(self).seed_state(),
    {
        proof {
            self.lemma_index(row as int, col as int);
        }
        let idx = row * self.words_per_row + (col / 64);
        let shift = (col % 64) as u64;
        let old_word = self.x[idx];
        let ghost old_words = self.x@;
        let ghost v0 = self@;
        if val {
            self.x.set(idx, old_word | (1u64 << shift));
        } else {
            self.x.set(idx, old_word & !(1u64 << shift));
        }
        proof {
            lemma_set_packed_bit(
                old_words,
                self.x@,
                self.words_per_row as int,
                2 * self.n + 1,
                self.n as int,
                row as int,
                col as int,
                val,
            );
            let e = v0.set_x(row as int, col as int, val);
            assert forall|i: int| 0 <= i < 2 * self.n + 1 implies #[trigger] self@.rows[i] == e.rows[i] by {
                assert(self@.rows[i].x =~= e.rows[i].x);
                assert(self@.rows[i].z =~= e.rows[i].z);
            }
            assert(self@.rows =~= e.rows);
        }
    }

    pub fn set_z(&mut self, row: usize, col: usize, val: bool)
        requires
            old(self).wf(),
            row <= 2 * old(self)@.n,
            col < old(self)@.n,
        ensures
            final(self).wf(),
            final(self)@ == old(self)@.set_z(row as int, col as int, val),
            final(self).seed_state() == old(self).seed_state(),
    {
        proof {
            self.lemma_index(row as int, col as int);
        }
        let idx = row * self.words_per_row + (col / 64);
        let shift = (col % 64) as u64;
        let old_word = self.z[idx];
        let ghost old_words = self.z@;
        let ghost v0 = self@;
        if val {
            self.z.set(idx, old_word | (1u64 << shift));
        } else {
            self.z.set(idx, old_word & !(1u64 << shift));
        }
        proof {
            lemma_set_packed_bit(
                old_words,
                self.z@,
                self.words_per_row as int,
                2 * self.n + 1,
                self.n as int,
                row as int,
                col as int,
                val,
            );
            let e = v0.set_z(row as int, col as int, val);
            assert forall|i: int| 0 <= i < 2 * self.n + 1 implies #[trigger] self@.rows[i] == e.rows[i] by {
                assert(self@.rows[i].x =~= e.rows[i].x);
                assert(self@.rows[i].z =~= e.rows[i].z);
            }
            assert(self@.rows =~= e.rows);
        }
    }

    pub fn get_r(&self, row: usize) -> (r: u8)
        requires
            self.wf(),
            row <= 2 * self@.n,
        ensures
            r == self@.rows[row as int].r,
    {
        self.r[row]
    }

    pub fn set_r(&mut self, row: usize, val: u8)
        requires
            old(self).wf(),
            row <= 2 * old(self)@.n,
        ensures
            final(self).wf(),
            final(self)@ == old(self)@.set_r(row as int, val),
            final(self).seed_state() == old(self).seed_state(),
    {
        let ghost v0 = self@;
        self.r.set(row, val);
        proof {
            let e = v0.set_r(row as int, val);
            assert forall|i: int| 0 <= i < 2 * self.n + 1 implies #[trigger] self@.rows[i] == e.rows[i] by {
                assert(self@.rows[i].x =~= e.rows[i].x);
                assert(self@.rows[i].z =~= e.rows[i].z);
            }
            assert(self@.rows =~= e.rows);
        }
    }


    /// Row `i` becomes the product of rows `i` and `j`.
    ///
    /// The two rows must commute: the product of anticommuting Pauli strings
    /// carries a phase of `i` and is not a row a tableau can hold.
    #[verifier::spinoff_prover]
    #[verifier::rlimit(40)]
    pub fn rowsum(&mut self, i: usize, j: usize)
        requires
            old(self).wf(),
            i <= 2 * old(self)@.n,
            j <= 2 * old(self)@.n,
            phase_sum(old(self)@.rows[i as int], old(self)@.rows[j as int], old(self)@.n) % 2 == 0,
        ensures
            final(self).wf(),
            final(self)@ == old(self)@.rowsum(i as int, j as int),
            final(self).seed_state() == old(self).seed_state(),
    {
        let ghost v0 = self@;
        let n = self.n;
        let mut sum_g: i32 = 0;
        for k in 0..n
            invariant
                self.wf(),
                n == self.n,
                self@ == v0,
                i <= 2 * n,
                j <= 2 * n,
                sum_g == g_sum(v0.rows[i as int], v0.rows[j as int], k as nat),
                -k <= sum_g <= k,
                n <= MAX_QUBITS,
        {
            let x1 = self.get_x(i, k);
            let z1 = self.get_z(i, k);
            let x2 = self.get_x(j, k);
            let z2 = self.get_z(j, k);
            let gv = g(x1, z1, x2, z2);
            proof {
                crate::pauli::lemma_g_mod2(x1, z1, x2, z2);
            }
            sum_g = sum_g + gv;
        }
        let total: i64 = 2 * (self.r[i] as i64) + 2 * (self.r[j] as i64) + (sum_g as i64) + 4 * (
        n as i64 + 1);
        let sum = (total as u64) % 4;
        proof {
            assert(total == phase_sum(v0.rows[i as int], v0.rows[j as int], v0.n) + 4 * (n + 1));
            assert(sum as int == phase_sum(v0.rows[i as int], v0.rows[j as int], v0.n) % 4);
        }
        let new_r: u8 = if sum == 0 {
            0
        } else {
            1
        };
        self.r.set(i, new_r);

        let w = self.words_per_row;
        let ghost x0 = self.x@;
        let ghost z0 = self.z@;
        let ghost wi = (i * w) as int;
        let ghost wj = (j * w) as int;
        proof {
            assert(i * w + w <= (2 * n + 1) * w) by (nonlinear_arith)
                requires
                    i <= 2 * n,
                    w >= 0,
            ;
            assert(j * w + w <= (2 * n + 1) * w) by (nonlinear_arith)
                requires
                    j <= 2 * n,
                    w >= 0,
            ;
        }
        for w_idx in 0..w
            invariant
                self.wf(),
                n == self.n,
                w == self.words_per_row,
                wi == i * w,
                wj == j * w,
                wi + w <= self.x@.len(),
                wj + w <= self.x@.len(),
                x0.len() == self.x@.len(),
                z0.len() == self.z@.len(),
                forall|k: int|
                    0 <= k < self.x@.len() ==> #[trigger] self.x@[k] == if wi <= k < wi + w_idx {
                        x0[k] ^ x0[k - wi + wj]
                    } else {
                        x0[k]
                    },
                forall|k: int|
                    0 <= k < self.z@.len() ==> #[trigger] self.z@[k] == if wi <= k < wi + w_idx {
                        z0[k] ^ z0[k - wi + wj]
                    } else {
                        z0[k]
                    },
                self.r@ == v0.rows.map_values(|row: PauliRow| row.r).update(i as int, new_r),
                self.rng == old(self).rng,
                self.seeded == old(self).seeded,
        {
            proof {
                let kj = wj + w_idx;
                if i != j && wi <= kj < wi + w_idx {
                    lemma_word_index(w as int, j as int, w_idx as int, i as int, kj - wi);
                }
            }
            let a = self.x[i * w + w_idx];
            let b = self.x[j * w + w_idx];
            self.x.set(i * w + w_idx, a ^ b);
            let c = self.z[i * w + w_idx];
            let d = self.z[j * w + w_idx];
            self.z.set(i * w + w_idx, c ^ d);
        }
        proof {
            let e = v0.rowsum(i as int, j as int);
            let wl = w as int;
            assert forall|row: int| 0 <= row < 2 * n + 1 implies #[trigger] self@.rows[row] == e.rows[row] by {
                assert forall|c: int| 0 <= c < n implies self.xbit(row, c) == e.rows[row].x[c]
                    && self.zbit(row, c) == e.rows[row].z[c] by {
                    lemma_word_bound(wl, row, c / 64, 2 * n + 1);
                    lemma_word_bound(wl, j as int, c / 64, 2 * n + 1);
                    let k = row * wl + c / 64;
                    if row == i {
                        lemma_bit_xor(x0[k], x0[j * wl + c / 64], (c % 64) as u64);
                        lemma_bit_xor(z0[k], z0[j * wl + c / 64], (c % 64) as u64);
                    } else {
                        if wi <= k < wi + wl {
                            lemma_word_index(wl, row, c / 64, i as int, k - wi);
                        }
                    }
                }
                assert(self@.rows[row].x =~= e.rows[row].x);
                assert(self@.rows[row].z =~= e.rows[row].z);
            }
            assert(self@.rows =~= e.rows);
        }
    }

    /// Hadamard on `qubit`: swap the X and Z parts of every row.
    pub fn apply_h(&mut self, qubit: usize)
        requires
            old(self).wf(),
            qubit < old(self)@.n,
        ensures
            final(self).wf(),
            final(self)@ == old(self)@.h(qubit as int),
            final(self).seed_state() == old(self).seed_state(),
    {
        let ghost v0 = self@;
        proof {
            self.lemma_view_shape();
        }
        let n = self.n;
        proof {
            assert(v0.h_upto(qubit as int, 0).rows =~= v0.rows);
        }
        for i in 0..(2 * n)
            invariant
                self.wf(),
                n == self.n,
                qubit < n,
                self@ == v0.h_upto(qubit as int, i as int),
                v0.n == n,
                v0.well_sized(),
                self.seed_state() == old(self).seed_state(),
        {
            let ghost vi = self@;
            let x_val = self.get_x(i, qubit);
            let z_val = self.get_z(i, qubit);
            let r_val = self.get_r(i);
            let new_r = if x_val && z_val {
                r_val ^ 1u8
            } else {
                r_val
            };
            self.set_r(i, new_r);
            self.set_x(i, qubit, z_val);
            self.set_z(i, qubit, x_val);
            proof {
                let e = v0.h_upto(qubit as int, i + 1);
                assert(vi.rows[i as int] == v0.rows[i as int]);

                assert(self@.rows =~= e.rows);
            }
        }
        proof {
            assert(self@.rows =~= v0.h(qubit as int).rows);
        }
    }

    /// Phase gate on `qubit`.
    pub fn apply_s(&mut self, qubit: usize)
        requires
            old(self).wf(),
            qubit < old(self)@.n,
        ensures
            final(self).wf(),
            final(self)@ == old(self)@.s(qubit as int),
            final(self).seed_state() == old(self).seed_state(),
    {
        let ghost v0 = self@;
        proof {
            self.lemma_view_shape();
        }
        let n = self.n;
        proof {
            assert(v0.s_upto(qubit as int, 0).rows =~= v0.rows);
        }
        for i in 0..(2 * n)
            invariant
                self.wf(),
                n == self.n,
                qubit < n,
                self@ == v0.s_upto(qubit as int, i as int),
                v0.n == n,
                v0.well_sized(),
                self.seed_state() == old(self).seed_state(),
        {
            let x_val = self.get_x(i, qubit);
            let z_val = self.get_z(i, qubit);
            let r_val = self.get_r(i);
            let new_r = if x_val && z_val {
                r_val ^ 1u8
            } else {
                r_val
            };
            self.set_r(i, new_r);
            self.set_z(i, qubit, z_val != x_val);
            proof {
                let e = v0.s_upto(qubit as int, i + 1);
                assert(self@.rows[i as int].z =~= e.rows[i as int].z);
                assert(self@.rows[i as int].x =~= e.rows[i as int].x);
                assert(self@.rows =~= e.rows);
            }
        }
        proof {
            assert(self@.rows =~= v0.s(qubit as int).rows);
        }
    }

    /// CNOT from `control` to `target`.
    pub fn apply_cnot(&mut self, control: usize, target: usize)
        requires
            old(self).wf(),
            control < old(self)@.n,
            target < old(self)@.n,
        ensures
            final(self).wf(),
            final(self)@ == old(self)@.cnot(control as int, target as int),
            final(self).seed_state() == old(self).seed_state(),
    {
        let ghost v0 = self@;
        proof {
            self.lemma_view_shape();
        }
        let n = self.n;
        proof {
            assert(v0.cnot_upto(control as int, target as int, 0).rows =~= v0.rows);
        }
        for i in 0..(2 * n)
            invariant
                self.wf(),
                n == self.n,
                control < n,
                target < n,
                self@ == v0.cnot_upto(control as int, target as int, i as int),
                v0.n == n,
                v0.well_sized(),
                self.seed_state() == old(self).seed_state(),
        {
            let xc = self.get_x(i, control);
            let zc = self.get_z(i, control);
            let xt = self.get_x(i, target);
            let zt = self.get_z(i, target);
            let r_val = self.get_r(i);
            let new_r = if xc && zt && (xt == zc) {
                r_val ^ 1u8
            } else {
                r_val
            };
            self.set_r(i, new_r);
            self.set_x(i, target, xt != xc);
            self.set_z(i, control, zc != zt);
            proof {
                let e = v0.cnot_upto(control as int, target as int, i + 1);
                assert(self@.rows[i as int].z =~= e.rows[i as int].z);
                assert(self@.rows[i as int].x =~= e.rows[i as int].x);
                assert(self@.rows =~= e.rows);
            }
        }
        proof {
            assert(self@.rows =~= v0.cnot(control as int, target as int).rows);
        }
    }


    /// The first stabilizer row with an X or Y on `qubit`, if any.
    fn find_pivot(&self, qubit: usize) -> (p: Option<usize>)
        requires
            self.wf(),
            qubit < self@.n,
        ensures
            match p {
                Some(p) => p as int == self@.pivot(qubit as int) && self@.n <= p < 2 * self@.n,
                None => self@.pivot(qubit as int) == -1,
            },
    {
        let n = self.n;
        let mut i = n;
        while i < 2 * n
            invariant
                self.wf(),
                n == self.n,
                qubit < n,
                n <= i <= 2 * n,
                self@.pivot(qubit as int) == self@.first_x_from(qubit as int, i as int),
            decreases 2 * n - i,
        {
            if self.get_x(i, qubit) {
                return Some(i);
            }
            i += 1;
        }
        None
    }

    /// Row `dest` becomes a copy of row `src`.
    fn copy_row(&mut self, dest: usize, src: usize)
        requires
            old(self).wf(),
            dest <= 2 * old(self)@.n,
            src <= 2 * old(self)@.n,
        ensures
            final(self).wf(),
            final(self)@ == old(self)@.replace_row(dest as int, old(self)@.rows[src as int]),
            final(self).seed_state() == old(self).seed_state(),
    {
        let ghost v0 = self@;
        let n = self.n;
        let w = self.words_per_row;
        let ghost x0 = self.x@;
        let ghost z0 = self.z@;
        let ghost wd = (dest * w) as int;
        let ghost ws = (src * w) as int;
        proof {
            assert(dest * w + w <= (2 * n + 1) * w) by (nonlinear_arith)
                requires
                    dest <= 2 * n,
                    w >= 0,
            ;
            assert(src * w + w <= (2 * n + 1) * w) by (nonlinear_arith)
                requires
                    src <= 2 * n,
                    w >= 0,
            ;
        }
        for w_idx in 0..w
            invariant
                self.wf(),
                n == self.n,
                w == self.words_per_row,
                wd == dest * w,
                ws == src * w,
                wd + w <= self.x@.len(),
                ws + w <= self.x@.len(),
                x0.len() == self.x@.len(),
                z0.len() == self.z@.len(),
                forall|k: int|
                    0 <= k < self.x@.len() ==> #[trigger] self.x@[k] == if wd <= k < wd + w_idx {
                        x0[k - wd + ws]
                    } else {
                        x0[k]
                    },
                forall|k: int|
                    0 <= k < self.z@.len() ==> #[trigger] self.z@[k] == if wd <= k < wd + w_idx {
                        z0[k - wd + ws]
                    } else {
                        z0[k]
                    },
                self.r@ == old(self).r@,
                self.rng == old(self).rng,
                self.seeded == old(self).seeded,
        {
            proof {
                let ks = ws + w_idx;
                if dest != src && wd <= ks < wd + w_idx {
                    lemma_word_index(w as int, src as int, w_idx as int, dest as int, ks - wd);
                }
            }
            let a = self.x[src * w + w_idx];
            self.x.set(dest * w + w_idx, a);
            let c = self.z[src * w + w_idx];
            self.z.set(dest * w + w_idx, c);
        }
        let rs = self.r[src];
        self.r.set(dest, rs);
        proof {
            let e = v0.replace_row(dest as int, v0.rows[src as int]);
            let wl = w as int;
            assert forall|row: int| 0 <= row < 2 * n + 1 implies #[trigger] self@.rows[row] == e.rows[row] by {
                assert forall|c: int| 0 <= c < n implies self.xbit(row, c) == e.rows[row].x[c]
                    && self.zbit(row, c) == e.rows[row].z[c] by {
                    lemma_word_bound(wl, row, c / 64, 2 * n + 1);
                    lemma_word_bound(wl, src as int, c / 64, 2 * n + 1);
                    let k = row * wl + c / 64;
                    if row != dest {
                        if wd <= k < wd + wl {
                            lemma_word_index(wl, row, c / 64, dest as int, k - wd);
                        }
                    }
                }
                assert(self@.rows[row].x =~= e.rows[row].x);
                assert(self@.rows[row].z =~= e.rows[row].z);
            }
            assert(self@.rows =~= e.rows);
        }
    }

    /// Row `row` becomes the identity with sign `+`.
    fn clear_row(&mut self, row: usize)
        requires
            old(self).wf(),
            row <= 2 * old(self)@.n,
        ensures
            final(self).wf(),
            final(self)@ == old(self)@.replace_row(row as int, identity_row(old(self)@.n)),
            final(self).seed_state() == old(self).seed_state(),
    {
        let ghost v0 = self@;
        let n = self.n;
        let w = self.words_per_row;
        let ghost x0 = self.x@;
        let ghost z0 = self.z@;
        let ghost wd = (row * w) as int;
        proof {
            assert(row * w + w <= (2 * n + 1) * w) by (nonlinear_arith)
                requires
                    row <= 2 * n,
                    w >= 0,
            ;
        }
        for w_idx in 0..w
            invariant
                self.wf(),
                n == self.n,
                w == self.words_per_row,
                wd == row * w,
                wd + w <= self.x@.len(),
                x0.len() == self.x@.len(),
                z0.len() == self.z@.len(),
                forall|k: int|
                    0 <= k < self.x@.len() ==> #[trigger] self.x@[k] == if wd <= k < wd + w_idx {
                        0u64
                    } else {
                        x0[k]
                    },
                forall|k: int|
                    0 <= k < self.z@.len() ==> #[trigger] self.z@[k] == if wd <= k < wd + w_idx {
                        0u64
                    } else {
                        z0[k]
                    },
                self.r@ == old(self).r@,
                self.rng == old(self).rng,
                self.seeded == old(self).seeded,
        {
            self.x.set(row * w + w_idx, 0);
            self.z.set(row * w + w_idx, 0);
        }
        self.r.set(row, 0);
        proof {
            let e = v0.replace_row(row as int, identity_row(n as nat));
            let wl = w as int;
            assert forall|rr: int| 0 <= rr < 2 * n + 1 implies #[trigger] self@.rows[rr] == e.rows[rr] by {
                assert forall|c: int| 0 <= c < n implies self.xbit(rr, c) == e.rows[rr].x[c]
                    && self.zbit(rr, c) == e.rows[rr].z[c] by {
                    lemma_word_bound(wl, rr, c / 64, 2 * n + 1);
                    let k = rr * wl + c / 64;
                    if rr != row {
                        if wd <= k < wd + wl {
                            lemma_word_index(wl, rr, c / 64, row as int, k - wd);
                        }
                    } else {
                        lemma_bit_zero((c % 64) as u64);
                    }
                }
                assert(self@.rows[rr].x =~= e.rows[rr].x);
                assert(self@.rows[rr].z =~= e.rows[rr].z);
            }
            assert(self@.rows =~= e.rows);
        }
    }

    /// Row `row` becomes `(-1)^sign Z_qubit`.
    fn set_row_z(&mut self, row: usize, qubit: usize, sign: u8)
        requires
            old(self).wf(),
            row <= 2 * old(self)@.n,
            qubit < old(self)@.n,
        ensures
            final(self).wf(),
            final(self)@ == old(self)@.replace_row(
                row as int,
                z_row(old(self)@.n, qubit as int, sign),
            ),
            final(self).seed_state() == old(self).seed_state(),
    {
        let ghost v0 = self@;
        proof {
            self.lemma_view_shape();
        }
        let n = self.n;
        proof {
            let e = v0.replace_row(
                row as int,
                PauliRow {
                    x: Seq::new(n as nat, |c: int| if c < 0 { false } else { v0.rows[row as int].x[c] }),
                    z: Seq::new(n as nat, |c: int| if c < 0 { c == qubit } else { v0.rows[row as int].z[c] }),
                    r: v0.rows[row as int].r,
                },
            );
            assert(e.rows[row as int].x =~= v0.rows[row as int].x);
            assert(e.rows[row as int].z =~= v0.rows[row as int].z);
            assert(e.rows =~= v0.rows);
        }
        for col in 0..n
            invariant
                self.wf(),
                n == self.n,
                row <= 2 * n,
                qubit < n,
                v0.n == n,
                v0.well_sized(),
                self.seed_state() == old(self).seed_state(),
                self@ == v0.replace_row(
                    row as int,
                    PauliRow {
                        x: Seq::new(n as nat, |c: int| if c < col { false } else { v0.rows[row as int].x[c] }),
                        z: Seq::new(
                            n as nat,
                            |c: int| if c < col { c == qubit } else { v0.rows[row as int].z[c] },
                        ),
                        r: v0.rows[row as int].r,
                    },
                ),
        {
            self.set_x(row, col, false);
            self.set_z(row, col, col == qubit);
            proof {
                let e = v0.replace_row(
                    row as int,
                    PauliRow {
                        x: Seq::new(n as nat, |c: int| if c < col + 1 { false } else { v0.rows[row as int].x[c] }),
                        z: Seq::new(
                            n as nat,
                            |c: int| if c < col + 1 { c == qubit } else { v0.rows[row as int].z[c] },
                        ),
                        r: v0.rows[row as int].r,
                    },
                );
                assert(self@.rows[row as int].x =~= e.rows[row as int].x);
                assert(self@.rows[row as int].z =~= e.rows[row as int].z);
                assert(self@.rows =~= e.rows);
            }
        }
        self.set_r(row, sign);
        proof {
            let e = v0.replace_row(row as int, z_row(n as nat, qubit as int, sign));
            assert(self@.rows[row as int].x =~= e.rows[row as int].x);
            assert(self@.rows[row as int].z =~= e.rows[row as int].z);
            assert(self@.rows =~= e.rows);
        }
    }

    /// A fresh measurement outcome: from the seeded stream if there is one,
    /// otherwise from `rand`.
    fn draw_outcome(&mut self) -> (outcome: u8)
        ensures
            outcome <= 1,
            match old(self).seed_state() {
                Some(s) => outcome == (crate::surface_code::xorshift_step(s) >> 63u64) as u8
                    && final(self).seed_state() == Some(crate::surface_code::xorshift_step(s)),
                None => final(self).seed_state() is None,
            },
            final(self)@ == old(self)@,
            final(self).wf() == old(self).wf(),
    {
        let ghost v0 = self@;
        let outcome = if self.seeded {
            let v = self.rng.next_u64();
            assert(v >> 63u64 <= 1) by (bit_vector);
            (v >> 63u64) as u8
        } else if random_bit() {
            1
        } else {
            0
        };
        proof {
            assert forall|i: int| 0 <= i < v0.rows.len() implies #[trigger] self@.rows[i] == v0.rows[i] by {
                assert(self@.rows[i].x =~= v0.rows[i].x);
                assert(self@.rows[i].z =~= v0.rows[i].z);
            }
            assert(self@.rows =~= v0.rows);
        }
        outcome
    }

    /// Measure `qubit` in the Z basis and return the outcome, 0 or 1.
    ///
    /// When some stabilizer anticommutes with `Z_qubit` the outcome is a fair
    /// coin and the state collapses onto it; otherwise the outcome is the sign
    /// of the stabilizer product equal to `+-Z_qubit`, and the state is left
    /// unchanged.
    pub fn measure(&mut self, qubit: usize) -> (outcome: u8)
        requires
            old(self).wf(),
            old(self)@.valid(),
            qubit < old(self)@.n,
        ensures
            final(self).wf(),
            final(self)@.valid(),
            final(self)@ == old(self)@.measured(qubit as int, outcome),
            old(self)@.pivot(qubit as int) >= 0 ==> outcome <= 1 && match old(self).seed_state() {
                Some(s) => outcome == (crate::surface_code::xorshift_step(s) >> 63u64) as u8
                    && final(self).seed_state() == Some(crate::surface_code::xorshift_step(s)),
                None => final(self).seed_state() is None,
            },
            old(self)@.pivot(qubit as int) < 0 ==> outcome == old(self)@.determined_outcome(
                qubit as int,
            ) && final(self).seed_state() == old(self).seed_state(),
    {
        let ghost v0 = self@;
        proof {
            self.lemma_view_shape();
        }
        let n = self.n;
        match self.find_pivot(qubit) {
            Some(p) => {
                proof {
                    assert(v0.multiply_by_pivot_upto(qubit as int, p as int, 0).rows =~= v0.rows);
                }
                // Random outcome: clear the X part of every other row at `qubit`.
                for i in 0..(2 * n)
                    invariant
                        self.wf(),
                        n == self.n,
                        qubit < n,
                        n <= p < 2 * n,
                        v0.n == n,
                        v0.valid(),
                        self@ == v0.multiply_by_pivot_upto(qubit as int, p as int, i as int),
                        self.seed_state() == old(self).seed_state(),
                {
                    if i != p && i != p - n && self.get_x(i, qubit) {
                        proof {
                            lemma_phase_even_iff_commute(v0.rows[i as int], v0.rows[p as int], n as nat);
                        }
                        self.rowsum(i, p);
                        proof {
                            assert(self@.rows =~= v0.multiply_by_pivot_upto(
                                qubit as int,
                                p as int,
                                i + 1,
                            ).rows);
                        }
                    } else {
                        proof {
                            assert(self@.rows =~= v0.multiply_by_pivot_upto(
                                qubit as int,
                                p as int,
                                i + 1,
                            ).rows);
                        }
                    }
                }
                let dest_row = p - n;
                self.copy_row(dest_row, p);
                let outcome = self.draw_outcome();
                self.set_row_z(p, qubit, outcome);
                proof {
                    let e = v0.collapse(qubit as int, p as int, outcome);
                    assert(self@.rows =~= e.rows);
                    lemma_first_x_from(v0, qubit as int, n as int);
                    lemma_collapse_valid(v0, qubit as int, p as int, outcome);
                }
                outcome
            },
            None => {
                // Deterministic outcome: accumulate the product of stabilizers
                // in the scratch row.
                let scratch_row = 2 * n;
                self.clear_row(scratch_row);
                proof {
                    assert(v0.det_product(qubit as int, 0) == identity_row(n as nat));
                }
                for i in 0..n
                    invariant
                        self.wf(),
                        n == self.n,
                        qubit < n,
                        scratch_row == 2 * n,
                        v0.n == n,
                        v0.valid(),
                        self@ == v0.replace_row(2 * n as int, v0.det_product(qubit as int, i as nat)),
                        self.seed_state() == old(self).seed_state(),
                {
                    if self.get_x(i, qubit) {
                        proof {
                            lemma_det_product_commutes(v0, qubit as int, i as nat, (i + n) as int);
                            lemma_phase_even_iff_commute(
                                v0.det_product(qubit as int, i as nat),
                                v0.rows[i + n],
                                n as nat,
                            );
                        }
                        self.rowsum(scratch_row, i + n);
                    }
                    proof {
                        assert(self@.rows =~= v0.replace_row(
                            2 * n as int,
                            v0.det_product(qubit as int, (i + 1) as nat),
                        ).rows);
                    }
                }
                let outcome = self.r[scratch_row];
                proof {
                    assert(self@.rows[2 * n as int].r == outcome);
                    assert(v0.pivot(qubit as int) == -1);
                    assert(outcome == v0.determined_outcome(qubit as int));
                    lemma_det_product_sized(v0, qubit as int, n as nat);
                    assert(self@.rows =~= v0.measured(qubit as int, outcome).rows);
                }
                outcome
            },
        }
    }

    /// The tableau of `|0...0>` on `n` qubits, with measurement outcomes drawn
    /// from `rand`'s thread-local generator.
    pub fn new(n: usize) -> (t: Self)
        requires
            n <= MAX_QUBITS,
            (2 * n + 1) * ((n + 63) / 64) <= usize::MAX,
        ensures
            t.wf(),
            t@ == TableauView::initial(n as nat),
            t.seed_state() is None,
    {
        Self::build(n, Xorshift::new(0), false)
    }

    /// The tableau of `|0...0>` on `n` qubits, with measurement outcomes drawn
    /// from a xorshift stream seeded with `seed`, so that a run is
    /// reproducible.
    pub fn with_seed(n: usize, seed: u64) -> (t: Self)
        requires
            n <= MAX_QUBITS,
            (2 * n + 1) * ((n + 63) / 64) <= usize::MAX,
        ensures
            t.wf(),
            t@ == TableauView::initial(n as nat),
            t.seed_state() == Some(crate::surface_code::xorshift_seed(seed)),
    {
        Self::build(n, Xorshift::new(seed), true)
    }

    fn build(n: usize, rng: Xorshift, seeded: bool) -> (t: Self)
        requires
            n <= MAX_QUBITS,
            (2 * n + 1) * ((n + 63) / 64) <= usize::MAX,
        ensures
            t.wf(),
            t@ == TableauView::initial(n as nat),
            t.rng == rng,
            t.seeded == seeded,
    {
        let words_per_row = (n + 63) / 64;
        let num_rows = 2 * n + 1;
        let mut x: Vec<u64> = vec![0u64; num_rows * words_per_row];
        let mut z: Vec<u64> = vec![0u64; num_rows * words_per_row];
        let r: Vec<u8> = vec![0u8; num_rows];
        proof {
            assert forall|k: int| 0 <= k < x@.len() implies x@[k] == 0 by {}
            assert forall|k: int| 0 <= k < z@.len() implies z@[k] == 0 by {}
        }
        let ghost w = words_per_row as int;
        proof {
            assert forall|row: int, col: int|
                0 <= row <= 2 * n && 0 <= col < n implies !#[trigger] word_bit(
                x@[row * w + col / 64],
                col % 64,
) by {
                lemma_word_bound(w, row, col / 64, num_rows as int);
                lemma_bit_zero((col % 64) as u64);
            }
            assert forall|row: int, col: int|
                0 <= row <= 2 * n && 0 <= col < n implies !#[trigger] word_bit(
                z@[row * w + col / 64],
                col % 64,
            ) by {
                lemma_word_bound(w, row, col / 64, num_rows as int);
                lemma_bit_zero((col % 64) as u64);
            }
        }

        // Destabilizers are X_i.
        for i in 0..n
            invariant
                words_per_row == (n + 63) / 64,
                w == words_per_row,
                x@.len() == num_rows * words_per_row,
                num_rows == 2 * n + 1,
                n <= MAX_QUBITS,
                forall|row: int, col: int|
                    0 <= row <= 2 * n && 0 <= col < n ==> #[trigger] word_bit(
                        x@[row * w + col / 64],
                        col % 64,
                    ) == (row < i && row == col),
                forall|row: int, col: int|
                    0 <= row <= 2 * n && 0 <= col < n ==> !#[trigger] word_bit(
                        z@[row * w + col / 64],
                        col % 64,
                    ),
                z@.len() == num_rows * words_per_row,
                num_rows * words_per_row <= usize::MAX,
        {
            proof {
                lemma_word_bound(w, i as int, (i / 64) as int, num_rows as int);
            }
            let idx = i * words_per_row + (i / 64);
            let old_w = x[idx];
            let ghost prev = x@;
            x.set(idx, old_w | (1u64 << ((i % 64) as u64)));
            proof {
                assert forall|row: int, col: int|
                    0 <= row <= 2 * n && 0 <= col < n implies #[trigger] word_bit(
                    x@[row * w + col / 64],
                    col % 64,
                ) == (row < i + 1 && row == col) by {
                    lemma_word_bound(w, row, col / 64, num_rows as int);
                    let k = row * w + col / 64;
                    assert(word_bit(prev[k], col % 64) == (row < i && row == col));
                    if k == idx {
                        lemma_word_index(w, row, col / 64, i as int, (i / 64) as int);
                        lemma_bit_or(old_w, (i % 64) as u64, (col % 64) as u64);
                    } else {
                        assert(x@[k] == prev[k]);
                    }
                }
            }
        }
        // Stabilizers are +Z_i.
        for i in 0..n
            invariant
                words_per_row == (n + 63) / 64,
                w == words_per_row,
                z@.len() == num_rows * words_per_row,
                num_rows == 2 * n + 1,
                n <= MAX_QUBITS,
                forall|row: int, col: int|
                    0 <= row <= 2 * n && 0 <= col < n ==> #[trigger] word_bit(
                        z@[row * w + col / 64],
                        col % 64,
                    ) == (n <= row < n + i && row == col + n),
                num_rows * words_per_row <= usize::MAX,
        {
            let row_i = n + i;
            proof {
                lemma_word_bound(w, row_i as int, (i / 64) as int, num_rows as int);
            }
            let idx = row_i * words_per_row + (i / 64);
            let old_w = z[idx];
            let ghost prev = z@;
            z.set(idx, old_w | (1u64 << ((i % 64) as u64)));
            proof {
                assert forall|row: int, col: int|
                    0 <= row <= 2 * n && 0 <= col < n implies #[trigger] word_bit(
                    z@[row * w + col / 64],
                    col % 64,
                ) == (n <= row < n + i + 1 && row == col + n) by {
                    lemma_word_bound(w, row, col / 64, num_rows as int);
                    let k = row * w + col / 64;
                    assert(word_bit(prev[k], col % 64) == (n <= row < n + i && row == col + n));
                    if k == idx {
                        lemma_word_index(w, row, col / 64, row_i as int, (i / 64) as int);
                        lemma_bit_or(old_w, (i % 64) as u64, (col % 64) as u64);
                    } else {
                        assert(z@[k] == prev[k]);
                    }
                }
            }
        }
        let t = Tableau { n, words_per_row, x, z, r, rng, seeded };
        proof {
            assert forall|k: int| 0 <= k < t.r@.len() implies t.r@[k] == 0 by {}
            let v = t@;
            let e = TableauView::initial(n as nat);
            assert forall|i: int| 0 <= i < v.rows.len() implies #[trigger] v.rows[i] == e.rows[i] by {
                assert(v.rows[i].x =~= e.rows[i].x);
                assert(v.rows[i].z =~= e.rows[i].z);
            }
            assert(v.rows =~= e.rows);
        }
        t
    }
}

} // verus!
