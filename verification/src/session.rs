//! An interactive decoding session: a patch of either code, a list of
//! injected data errors, erasures and measurement errors per round, and the
//! syndrome and correction they lead to.
//!
//! Per round `t`, data error `q` lives at index `q + t * d * d`, and
//! stabilizer `s` at `s + t * num_stabs`. Stabilizers are numbered X
//! plaquettes first, then Z, for the rotated code, and in the code's own
//! order for XZZX.
use crate::lattice::{diagonal_neighbors, lattice_index, MAX_DISTANCE, data_seq};
use crate::surface_code::{rotated_x_stabilizers, rotated_z_stabilizers, RotatedSurfaceCode, XZZXSurfaceCode};
use vstd::prelude::*;

verus! {

/// The distance is supported by the session's code: the rotated code up to
/// the largest distance, XZZX while its qubits fit 128-bit masks.
pub open spec fn supported(d: usize, code_type: usize) -> bool {
    if code_type == 0 {
        d <= MAX_DISTANCE
    } else {
        d * d <= 128
    }
}

/// Stabilizers of either code at distance `d`.
pub open spec fn num_stabs_spec(d: nat) -> nat {
    rotated_x_stabilizers(d).len() + rotated_z_stabilizers(d).len()
}

/// The grid point of stabilizer `idx`.
pub open spec fn stab_point(code_type: usize, d: nat, idx: int) -> (usize, usize) {
    let xs = rotated_x_stabilizers(d);
    let zs = rotated_z_stabilizers(d);
    if code_type == 0 {
        if idx < xs.len() {
            xs[idx]
        } else {
            zs[idx - xs.len()]
        }
    } else {
        (zs + xs)[idx]
    }
}

/// A syndrome term: a data qubit and whether the stabilizer reads its Z
/// error (else its X error).
pub type Term = (usize, bool);

pub open spec fn opt_term(s: Seq<Term>, o: Option<usize>, reads_z: bool) -> Seq<Term> {
    match o {
        Some(q) => s.push((q, reads_z)),
        None => s,
    }
}

/// What stabilizer `idx` reads. A rotated X plaquette reads the Z errors of
/// its diagonal neighbours, a Z plaquette their X errors; an XZZX plaquette
/// reads Z on its NW/SE diagonal and X on its NE/SW one.
pub open spec fn stab_terms(code_type: usize, d: nat, idx: int) -> Seq<Term> {
    let s = stab_point(code_type, d, idx);
    let (sx, sy) = (s.0 as int, s.1 as int);
    if code_type == 0 {
        let reads_z = idx < rotated_x_stabilizers(d).len();
        diagonal_neighbors(d as int, sx, sy).map_values(|q: usize| (q, reads_z))
    } else {
        opt_term(
            opt_term(
                opt_term(opt_term(seq![], lattice_index(d as int, sx - 1, sy - 1), true), lattice_index(d as int, sx + 1, sy - 1), false),
                lattice_index(d as int, sx - 1, sy + 1),
                false,
            ),
            lattice_index(d as int, sx + 1, sy + 1),
            true,
        )
    }
}

/// Parity of the errors the first `k` terms read in the round at offset `off`.
pub open spec fn term_parity(px: Seq<bool>, pz: Seq<bool>, terms: Seq<Term>, off: int, k: nat) -> bool
    decreases k,
{
    if k == 0 {
        false
    } else {
        term_parity(px, pz, terms, off, (k - 1) as nat) != (if terms[k - 1].1 {
            pz[terms[k - 1].0 + off]
        } else {
            px[terms[k - 1].0 + off]
        })
    }
}

/// Parity of everything the terms read over rounds `0..t`: the errors of
/// each round persist into the following ones.
pub open spec fn acc_parity(px: Seq<bool>, pz: Seq<bool>, terms: Seq<Term>, nd: nat, t: nat) -> bool
    decreases t,
{
    if t == 0 {
        false
    } else {
        acc_parity(px, pz, terms, nd, (t - 1) as nat) != term_parity(px, pz, terms, (t - 1) * nd, terms.len())
    }
}

pub struct WasmSession {
    /// 0 for the rotated code, 1 for XZZX.
    pub code_type: usize,
    pub d: usize,
    pub num_rounds: usize,
    pub physical_x: Vec<bool>,
    pub physical_z: Vec<bool>,
    pub physical_erased: Vec<bool>,
    pub measurement_errors: Vec<bool>,
    pub physical_x_u8: Vec<u8>,
    pub physical_z_u8: Vec<u8>,
    pub physical_erased_u8: Vec<u8>,
    pub correction_x: Vec<u8>,
    pub correction_z: Vec<u8>,
    pub syndrome: Vec<u8>,
}

impl WasmSession {
    /// Per-round data tables hold `d * d * num_rounds` entries, per-round
    /// stabilizer tables `num_stabs * num_rounds`.
    pub open spec fn wf(&self) -> bool {
        let nd = self.d * self.d * self.num_rounds;
        let ns = num_stabs_spec(self.d as nat) * self.num_rounds;
        &&& supported(self.d, self.code_type)
        &&& self.physical_x@.len() == nd
        &&& self.physical_z@.len() == nd
        &&& self.physical_erased@.len() == nd
        &&& self.physical_x_u8@.len() == nd
        &&& self.physical_z_u8@.len() == nd
        &&& self.physical_erased_u8@.len() == nd
        &&& self.correction_x@.len() == nd
        &&& self.correction_z@.len() == nd
        &&& self.measurement_errors@.len() == ns
        &&& self.syndrome@.len() == ns
        &&& self.d * self.d * self.num_rounds <= usize::MAX / 16
        &&& num_stabs_spec(self.d as nat) * self.num_rounds <= usize::MAX / 16
    }

    /// A session over one round with no errors.
    pub fn new(d: usize, code_type: usize) -> (s: Self)
        requires
            supported(d, code_type),
        ensures
            s.wf(),
            s.code_type == code_type,
            s.d == d,
            s.num_rounds == 1,
            forall|i: int| 0 <= i < s.physical_x@.len() ==> !(#[trigger] s.physical_x@[i]),
            forall|i: int| 0 <= i < s.physical_z@.len() ==> !(#[trigger] s.physical_z@[i]),
            forall|i: int| 0 <= i < s.physical_erased@.len() ==> !(#[trigger] s.physical_erased@[i]),
            forall|i: int| 0 <= i < s.measurement_errors@.len() ==> !(#[trigger] s.measurement_errors@[i]),
    {
        proof {
            lemma_supported_small(d, code_type);
        }
        let num_data = d * d;
        let num_stabs = stabilizer_total(d, code_type);
        proof {
            assert(d * d * 1 == d * d);
            assert(num_stabs * 1 == num_stabs);
        }
        WasmSession {
            code_type,
            d,
            num_rounds: 1,
            physical_x: vec![false; num_data],
            physical_z: vec![false; num_data],
            physical_erased: vec![false; num_data],
            measurement_errors: vec![false; num_stabs],
            physical_x_u8: vec![0; num_data],
            physical_z_u8: vec![0; num_data],
            physical_erased_u8: vec![0; num_data],
            correction_x: vec![0; num_data],
            correction_z: vec![0; num_data],
            syndrome: vec![0; num_stabs],
        }
    }
}

/// A supported patch is small.
pub proof fn lemma_supported_small(d: usize, code_type: usize)
    requires
        supported(d, code_type),
    ensures
        d <= MAX_DISTANCE,
        d * d <= MAX_DISTANCE * MAX_DISTANCE,
        num_stabs_spec(d as nat) <= 2 * (MAX_DISTANCE + 1) * (MAX_DISTANCE + 1),
{
    if code_type != 0 {
        assert(d <= 11) by (nonlinear_arith)
            requires
                d * d <= 128,
        ;
    }
    assert(d * d <= MAX_DISTANCE * MAX_DISTANCE) by (nonlinear_arith)
        requires
            d <= MAX_DISTANCE,
    ;
    crate::surface_code::lemma_stab_counts(d as nat);
}

/// The number of stabilizers of the session's code.
fn stabilizer_total(d: usize, code_type: usize) -> (n: usize)
    requires
        supported(d, code_type),
    ensures
        n == num_stabs_spec(d as nat),
{
    if code_type == 0 {
        let code = RotatedSurfaceCode::new(d);
        code.x_stabilizers.len() + code.z_stabilizers.len()
    } else {
        let code = XZZXSurfaceCode::new(d);
        code.stabilizers.len()
    }
}

/// `v` resized to `n` entries, new ones set to `fill`.
pub open spec fn resized<T>(v: Seq<T>, n: nat, fill: T) -> Seq<T> {
    if n <= v.len() {
        v.subrange(0, n as int)
    } else {
        v + Seq::new((n - v.len()) as nat, |i: int| fill)
    }
}

/// `v` with entry `i` flipped.
pub open spec fn flip_at(v: Seq<bool>, i: int) -> Seq<bool> {
    v.update(i, !v[i])
}

/// Toggling the same error, erasure or measurement error twice leaves the
/// session's record of it as it was.
pub proof fn lemma_flip_twice(v: Seq<bool>, i: int)
    requires
        0 <= i < v.len(),
    ensures
        flip_at(flip_at(v, i), i) == v,
{
    assert(flip_at(flip_at(v, i), i) =~= v);
}

fn resize_bool(v: &mut Vec<bool>, n: usize)
    ensures
        final(v)@ == resized(old(v)@, n as nat, false),
{
    let ghost before = v@;
    v.resize(n, false);
    proof {
        if n > before.len() {
            assert forall|i: int| before.len() <= i < n implies #[trigger] v@[i] == false by {
                assert(vstd::pervasive::cloned::<bool>(false, v@[i]));
            }
            assert(v@ =~= before + Seq::new((n - before.len()) as nat, |i: int| false)) by {
                assert forall|i: int| 0 <= i < before.len() implies v@[i] == before[i] by {
                    assert(v@.subrange(0, before.len() as int)[i] == before[i]);
                }
            }
        }
    }
}

fn resize_u8(v: &mut Vec<u8>, n: usize)
    ensures
        final(v)@ == resized(old(v)@, n as nat, 0u8),
{
    let ghost before = v@;
    v.resize(n, 0);
    proof {
        if n > before.len() {
            assert forall|i: int| before.len() <= i < n implies #[trigger] v@[i] == 0u8 by {
                assert(vstd::pervasive::cloned::<u8>(0u8, v@[i]));
            }
            assert(v@ =~= before + Seq::new((n - before.len()) as nat, |i: int| 0u8)) by {
                assert forall|i: int| 0 <= i < before.len() implies v@[i] == before[i] by {
                    assert(v@.subrange(0, before.len() as int)[i] == before[i]);
                }
            }
        }
    }
}

/// The byte view of a flag table: 1 for set, 0 for clear.
pub open spec fn as_bytes(v: Seq<bool>) -> Seq<u8> {
    v.map_values(|b: bool| if b { 1u8 } else { 0u8 })
}

fn fill_bytes(bytes: &mut Vec<u8>, flags: &Vec<bool>)
    requires
        old(bytes)@.len() == flags@.len(),
    ensures
        final(bytes)@ == as_bytes(flags@),
{
    for i in 0..flags.len()
        invariant
            bytes@.len() == flags@.len(),
            forall|j: int| 0 <= j < i ==> #[trigger] bytes@[j] == (if flags@[j] { 1u8 } else { 0u8 }),
    {
        let b: u8 = if flags[i] {
            1
        } else {
            0
        };
        bytes.set(i, b);
    }
    proof {
        assert(bytes@ =~= as_bytes(flags@));
    }
}

fn clear_flags(v: &mut Vec<bool>)
    ensures
        final(v)@ == Seq::new(old(v)@.len(), |i: int| false),
{
    let n = v.len();
    for i in 0..n
        invariant
            v@.len() == n,
            n == old(v)@.len(),
            forall|j: int| 0 <= j < i ==> !#[trigger] v@[j],
    {
        v.set(i, false);
    }
    proof {
        assert(v@ =~= Seq::new(v@.len(), |i: int| false));
    }
}

impl WasmSession {
    /// Change the number of rounds, keeping what was recorded for the rounds
    /// that remain and clearing the new ones.
    pub fn set_num_rounds(&mut self, num_rounds: usize)
        requires
            old(self).wf(),
            old(self).d * old(self).d * num_rounds <= usize::MAX / 16,
            num_stabs_spec(old(self).d as nat) * num_rounds <= usize::MAX / 16,
        ensures
            final(self).wf(),
            final(self).num_rounds == num_rounds,
            final(self).d == old(self).d,
            final(self).code_type == old(self).code_type,
            ({
                let nd = (old(self).d * old(self).d * num_rounds) as nat;
                let ns = (num_stabs_spec(old(self).d as nat) * num_rounds) as nat;
                &&& final(self).physical_x@ == resized(old(self).physical_x@, nd, false)
                &&& final(self).physical_z@ == resized(old(self).physical_z@, nd, false)
                &&& final(self).physical_erased@ == resized(old(self).physical_erased@, nd, false)
                &&& final(self).measurement_errors@ == resized(old(self).measurement_errors@, ns, false)
                &&& final(self).correction_x@ == resized(old(self).correction_x@, nd, 0u8)
                &&& final(self).correction_z@ == resized(old(self).correction_z@, nd, 0u8)
                &&& final(self).syndrome@ == resized(old(self).syndrome@, ns, 0u8)
            }),
    {
        proof {
            lemma_supported_small(self.d, self.code_type);
        }
        self.num_rounds = num_rounds;
        let num_data = self.d * self.d * num_rounds;
        let num_stabs = stabilizer_total(self.d, self.code_type) * num_rounds;
        resize_bool(&mut self.physical_x, num_data);
        resize_bool(&mut self.physical_z, num_data);
        resize_bool(&mut self.physical_erased, num_data);
        resize_bool(&mut self.measurement_errors, num_stabs);
        resize_u8(&mut self.physical_x_u8, num_data);
        resize_u8(&mut self.physical_z_u8, num_data);
        resize_u8(&mut self.physical_erased_u8, num_data);
        resize_u8(&mut self.correction_x, num_data);
        resize_u8(&mut self.correction_z, num_data);
        resize_u8(&mut self.syndrome, num_stabs);
    }

    /// Refresh the byte copy of the X errors.
    pub fn refresh_physical_x(&mut self)
        requires
            old(self).wf(),
        ensures
            final(self).physical_x_u8@ == as_bytes(old(self).physical_x@),
            final(self).wf(),
            final(self).physical_x@ == old(self).physical_x@,
    {
        fill_bytes(&mut self.physical_x_u8, &self.physical_x);
    }

    /// Refresh the byte copy of the Z errors.
    pub fn refresh_physical_z(&mut self)
        requires
            old(self).wf(),
        ensures
            final(self).physical_z_u8@ == as_bytes(old(self).physical_z@),
            final(self).wf(),
            final(self).physical_z@ == old(self).physical_z@,
    {
        fill_bytes(&mut self.physical_z_u8, &self.physical_z);
    }

    /// Refresh the byte copy of the erasures.
    pub fn refresh_physical_erased(&mut self)
        requires
            old(self).wf(),
        ensures
            final(self).physical_erased_u8@ == as_bytes(old(self).physical_erased@),
            final(self).wf(),
            final(self).physical_erased@ == old(self).physical_erased@,
    {
        fill_bytes(&mut self.physical_erased_u8, &self.physical_erased);
    }

    /// Flip an X (`error_type == 0`) or Z error on data qubit `q_idx` in round
    /// `t`; out-of-range positions are ignored.
    pub fn toggle_error(&mut self, q_idx: usize, error_type: usize, t: usize)
        requires
            old(self).wf(),
            q_idx + t * (old(self).d * old(self).d) <= usize::MAX,
        ensures
            final(self).wf(),
            ({
                let idx = q_idx + t * (old(self).d * old(self).d);
                &&& final(self).physical_x@ == if idx < old(self).physical_x@.len() && error_type == 0 {
                    flip_at(old(self).physical_x@, idx)
                } else {
                    old(self).physical_x@
                }
                &&& final(self).physical_z@ == if idx < old(self).physical_z@.len() && error_type != 0 {
                    flip_at(old(self).physical_z@, idx)
                } else {
                    old(self).physical_z@
                }
            }),
            final(self).physical_erased@ == old(self).physical_erased@,
            final(self).measurement_errors@ == old(self).measurement_errors@,
            final(self).d == old(self).d,
            final(self).code_type == old(self).code_type,
            final(self).num_rounds == old(self).num_rounds,
    {
        proof {
            lemma_supported_small(self.d, self.code_type);
        }
        let num_data = self.d * self.d;
        let idx = q_idx + t * num_data;
        if idx < self.physical_x.len() {
            if error_type == 0 {
                let v = !self.physical_x[idx];
                self.physical_x.set(idx, v);
            } else {
                let v = !self.physical_z[idx];
                self.physical_z.set(idx, v);
            }
        }
    }

    /// Flip the erasure of data qubit `q_idx` in round `t`.
    pub fn toggle_erasure(&mut self, q_idx: usize, t: usize)
        requires
            old(self).wf(),
            q_idx + t * (old(self).d * old(self).d) <= usize::MAX,
        ensures
            final(self).wf(),
            ({
                let idx = q_idx + t * (old(self).d * old(self).d);
                final(self).physical_erased@ == if idx < old(self).physical_erased@.len() {
                    flip_at(old(self).physical_erased@, idx)
                } else {
                    old(self).physical_erased@
                }
            }),
            final(self).physical_x@ == old(self).physical_x@,
            final(self).physical_z@ == old(self).physical_z@,
            final(self).measurement_errors@ == old(self).measurement_errors@,
            final(self).d == old(self).d,
            final(self).code_type == old(self).code_type,
            final(self).num_rounds == old(self).num_rounds,
    {
        proof {
            lemma_supported_small(self.d, self.code_type);
        }
        let num_data = self.d * self.d;
        let idx = q_idx + t * num_data;
        if idx < self.physical_erased.len() {
            let v = !self.physical_erased[idx];
            self.physical_erased.set(idx, v);
        }
    }

    /// Flip the measurement error of stabilizer `s_idx` in round `t`.
    pub fn toggle_measurement_error(&mut self, s_idx: usize, t: usize)
        requires
            old(self).wf(),
            s_idx + t * num_stabs_spec(old(self).d as nat) <= usize::MAX,
        ensures
            final(self).wf(),
            ({
                let idx = s_idx + t * num_stabs_spec(old(self).d as nat);
                final(self).measurement_errors@ == if idx < old(self).measurement_errors@.len() {
                    flip_at(old(self).measurement_errors@, idx)
                } else {
                    old(self).measurement_errors@
                }
            }),
            final(self).physical_x@ == old(self).physical_x@,
            final(self).physical_z@ == old(self).physical_z@,
            final(self).physical_erased@ == old(self).physical_erased@,
            final(self).d == old(self).d,
            final(self).code_type == old(self).code_type,
            final(self).num_rounds == old(self).num_rounds,
    {
        let num_stabs = stabilizer_total(self.d, self.code_type);
        let idx = s_idx + t * num_stabs;
        if idx < self.measurement_errors.len() {
            let v = !self.measurement_errors[idx];
            self.measurement_errors.set(idx, v);
        }
    }

    /// Clear every injected error.
    pub fn clear_errors(&mut self)
        requires
            old(self).wf(),
        ensures
            final(self).wf(),
            final(self).physical_x@ == Seq::new(old(self).physical_x@.len(), |i: int| false),
            final(self).physical_z@ == Seq::new(old(self).physical_z@.len(), |i: int| false),
            final(self).physical_erased@ == Seq::new(old(self).physical_erased@.len(), |i: int| false),
            final(self).measurement_errors@ == Seq::new(old(self).measurement_errors@.len(), |i: int| false),
            final(self).d == old(self).d,
            final(self).code_type == old(self).code_type,
            final(self).num_rounds == old(self).num_rounds,
    {
        clear_flags(&mut self.physical_x);
        clear_flags(&mut self.physical_z);
        clear_flags(&mut self.physical_erased);
        clear_flags(&mut self.measurement_errors);
    }

    pub fn data_qubit_count(&self) -> (n: usize)
        requires
            self.wf(),
        ensures
            n == self.d * self.d,
    {
        proof {
            lemma_supported_small(self.d, self.code_type);
        }
        self.d * self.d
    }

    pub fn stabilizer_count(&self) -> (n: usize)
        requires
            self.wf(),
        ensures
            n == num_stabs_spec(self.d as nat),
    {
        stabilizer_total(self.d, self.code_type)
    }

    /// 1 for a rotated X plaquette, 0 for a rotated Z plaquette, 2 for any
    /// XZZX plaquette.
    pub fn stabilizer_type(&self, idx: usize) -> (k: usize)
        requires
            self.wf(),
        ensures
            k == if self.code_type == 0 {
                if idx < rotated_x_stabilizers(self.d as nat).len() {
                    1usize
                } else {
                    0usize
                }
            } else {
                2usize
            },
    {
        if self.code_type == 0 {
            let code = RotatedSurfaceCode::new(self.d);
            let num_x = code.x_stabilizers.len();
            if idx < num_x {
                1
            } else {
                0
            }
        } else {
            2
        }
    }

    /// Grid x-coordinate of data qubit `idx`, or 0 past the end.
    pub fn data_qubit_x(&self, idx: usize) -> (x: usize)
        requires
            self.wf(),
        ensures
            x == if idx < self.d * self.d {
                data_seq(self.d as nat, self.d as nat)[idx as int].0
            } else {
                0
            },
    {
        proof {
            lemma_supported_small(self.d, self.code_type);
        }
        let data = crate::lattice::data_points(self.d);
        if idx < data.len() {
            data[idx].0
        } else {
            0
        }
    }

    /// Grid y-coordinate of data qubit `idx`, or 0 past the end.
    pub fn data_qubit_y(&self, idx: usize) -> (y: usize)
        requires
            self.wf(),
        ensures
            y == if idx < self.d * self.d {
                data_seq(self.d as nat, self.d as nat)[idx as int].1
            } else {
                0
            },
    {
        proof {
            lemma_supported_small(self.d, self.code_type);
        }
        let data = crate::lattice::data_points(self.d);
        if idx < data.len() {
            data[idx].1
        } else {
            0
        }
    }

    /// Grid x-coordinate of stabilizer `idx`, or 0 past the end.
    pub fn stabilizer_x(&self, idx: usize) -> (x: usize)
        requires
            self.wf(),
        ensures
            x == if idx < num_stabs_spec(self.d as nat) {
                stab_point(self.code_type, self.d as nat, idx as int).0
            } else {
                0
            },
    {
        let p = self.stabilizer_point(idx);
        p.0
    }

    /// Grid y-coordinate of stabilizer `idx`, or 0 past the end.
    pub fn stabilizer_y(&self, idx: usize) -> (y: usize)
        requires
            self.wf(),
        ensures
            y == if idx < num_stabs_spec(self.d as nat) {
                stab_point(self.code_type, self.d as nat, idx as int).1
            } else {
                0
            },
    {
        let p = self.stabilizer_point(idx);
        p.1
    }

    fn stabilizer_point(&self, idx: usize) -> (p: (usize, usize))
        requires
            self.wf(),
        ensures
            p == if idx < num_stabs_spec(self.d as nat) {
                stab_point(self.code_type, self.d as nat, idx as int)
            } else {
                (0usize, 0usize)
            },
    {
        if self.code_type == 0 {
            let code = RotatedSurfaceCode::new(self.d);
            let num_x = code.x_stabilizers.len();
            if idx < num_x {
                code.x_stabilizers[idx]
            } else if idx < num_x + code.z_stabilizers.len() {
                code.z_stabilizers[idx - num_x]
            } else {
                (0, 0)
            }
        } else {
            let code = XZZXSurfaceCode::new(self.d);
            if idx < code.stabilizers.len() {
                code.stabilizers[idx]
            } else {
                (0, 0)
            }
        }
    }
}

/* ---------------------------------------------------------------------- */
/* Syndrome                                                               */
/* ---------------------------------------------------------------------- */

/// The syndrome byte of stabilizer `idx` in round `t`.
pub open spec fn syndrome_spec(
    code_type: usize,
    d: nat,
    px: Seq<bool>,
    pz: Seq<bool>,
    meas: Seq<bool>,
    idx: int,
    t: nat,
) -> u8 {
    let ns = num_stabs_spec(d);
    if acc_parity(px, pz, stab_terms(code_type, d, idx), d * d, t + 1) != meas[idx + t * ns] {
        1u8
    } else {
        0u8
    }
}

/// Distinct (stabilizer, round) pairs have distinct table positions.
pub proof fn lemma_index_unique(i1: int, t1: int, i2: int, t2: int, n: int)
    requires
        0 <= i1 < n,
        0 <= i2 < n,
        0 <= t1,
        0 <= t2,
        i1 + t1 * n == i2 + t2 * n,
    ensures
        i1 == i2,
        t1 == t2,
{
    if t1 < t2 {
        assert(t1 * n + n <= t2 * n) by (nonlinear_arith)
            requires
                t1 < t2,
                n > 0,
        ;
    } else if t2 < t1 {
        assert(t2 * n + n <= t1 * n) by (nonlinear_arith)
            requires
                t2 < t1,
                n > 0,
        ;
    }
}

pub proof fn lemma_slot_bound(i: int, t: int, n: int, rounds: int)
    requires
        0 <= i < n,
        0 <= t < rounds,
    ensures
        i + t * n < n * rounds,
        0 <= t * n,
{
    assert(t * n + n <= n * rounds) by (nonlinear_arith)
        requires
            t < rounds,
            0 <= i < n,
    ;
    assert(0 <= t * n) by (nonlinear_arith)
        requires
            0 <= t,
            0 <= i < n,
    ;
}

/// `o` holds the rotated code of distance `d`.
pub open spec fn rotated_built(o: Option<RotatedSurfaceCode>, d: usize) -> bool {
    match o {
        Some(c) => c.d == d && c.wf() && c.x_stabilizers@ == rotated_x_stabilizers(d as nat) && c.z_stabilizers@
            == rotated_z_stabilizers(d as nat) && c.data_qubits@ == data_seq(d as nat, d as nat),
        None => false,
    }
}

/// `o` holds the XZZX code of distance `d`.
pub open spec fn xzzx_built(o: Option<XZZXSurfaceCode>, d: usize) -> bool {
    match o {
        Some(c) => c.d == d && c.wf() && c.stabilizers@ == rotated_z_stabilizers(d as nat) + rotated_x_stabilizers(
            d as nat,
        ) && c.data_qubits@ == data_seq(d as nat, d as nat),
        None => false,
    }
}

/// Parity of everything `terms` read over rounds `0..=t`.
fn accumulated(px: &Vec<bool>, pz: &Vec<bool>, terms: &Vec<Term>, nd: usize, t: usize) -> (p: bool)
    requires
        forall|k: int| 0 <= k < terms@.len() ==> (#[trigger] terms@[k]).0 < nd,
        (t + 1) * nd <= px@.len(),
        (t + 1) * nd <= pz@.len(),
        t < usize::MAX,
    ensures
        p == acc_parity(px@, pz@, terms@, nd as nat, (t + 1) as nat),
{
    let lx = px.len();
    let lz = pz.len();
    let mut parity = false;
    for tp in 0..t + 1
        invariant
            forall|k: int| 0 <= k < terms@.len() ==> (#[trigger] terms@[k]).0 < nd,
            (t + 1) * nd <= px@.len(),
            (t + 1) * nd <= pz@.len(),
            lx == px@.len(),
            lz == pz@.len(),
            parity == acc_parity(px@, pz@, terms@, nd as nat, tp as nat),
    {
        proof {
            assert(tp * nd + nd <= (t + 1) * nd) by (nonlinear_arith)
                requires
                    tp < t + 1,
            ;
        }
        let mut round_parity = false;
        for k in 0..terms.len()
            invariant
                forall|k: int| 0 <= k < terms@.len() ==> (#[trigger] terms@[k]).0 < nd,
                tp * nd + nd <= px@.len(),
                tp * nd + nd <= pz@.len(),
                lx == px@.len(),
                lz == pz@.len(),
                round_parity == term_parity(px@, pz@, terms@, tp * nd, k as nat),
        {
            let (q, reads_z) = terms[k];
            let e = if reads_z {
                pz[q + tp * nd]
            } else {
                px[q + tp * nd]
            };
            round_parity = round_parity != e;
        }
        parity = parity != round_parity;
    }
    parity
}

/// The terms of rotated plaquette `idx` (X plaquettes first).
fn rotated_terms(code: &RotatedSurfaceCode, idx: usize) -> (terms: Vec<Term>)
    requires
        code.wf(),
        code.x_stabilizers@ == rotated_x_stabilizers(code.d as nat),
        code.z_stabilizers@ == rotated_z_stabilizers(code.d as nat),
        idx < code.x_stabilizers@.len() + code.z_stabilizers@.len(),
    ensures
        terms@ == stab_terms(0, code.d as nat, idx as int),
        forall|k: int| 0 <= k < terms@.len() ==> (#[trigger] terms@[k]).0 < code.d * code.d,
{
    let num_x = code.x_stabilizers.len();
    let reads_z = idx < num_x;
    let st = if idx < num_x {
        code.x_stabilizers[idx]
    } else {
        code.z_stabilizers[idx - num_x]
    };
    proof {
        if idx < num_x {
            assert(crate::lattice::coords_ok(code.x_stabilizers@, code.d as nat));
            assert(st.0 <= 2 * code.d + 1);
        } else {
            assert(crate::lattice::coords_ok(code.z_stabilizers@, code.d as nat));
            assert(code.z_stabilizers@[idx - num_x] == st);
            assert(st.0 <= 2 * code.d + 1);
        }
    }
    let neighbors = code.get_neighbors(&st);
    let mut terms: Vec<Term> = Vec::new();
    for k in 0..neighbors.len()
        invariant
            terms@ == neighbors@.subrange(0, k as int).map_values(|q: usize| (q, reads_z)),
            forall|j: int| 0 <= j < neighbors@.len() ==> #[trigger] neighbors@[j] < code.d * code.d,
    {
        terms.push((neighbors[k], reads_z));
        proof {
            assert(terms@ =~= neighbors@.subrange(0, k + 1).map_values(|q: usize| (q, reads_z)));
        }
    }
    proof {
        assert(neighbors@.subrange(0, neighbors@.len() as int) =~= neighbors@);
    }
    terms
}

/// The terms of XZZX plaquette `idx`: Z at NW, X at NE, X at SW, Z at SE.
fn xzzx_terms(code: &XZZXSurfaceCode, idx: usize) -> (terms: Vec<Term>)
    requires
        code.wf(),
        code.stabilizers@ == rotated_z_stabilizers(code.d as nat) + rotated_x_stabilizers(code.d as nat),
        idx < code.stabilizers@.len(),
    ensures
        terms@ == stab_terms(1, code.d as nat, idx as int),
        forall|k: int| 0 <= k < terms@.len() ==> (#[trigger] terms@[k]).0 < code.d * code.d,
{
    let (sx, sy) = code.stabilizers[idx];
    proof {
        assert(crate::lattice::coords_ok(code.stabilizers@, code.d as nat));
        assert(code.d <= 11) by (nonlinear_arith)
            requires
                code.d * code.d <= 128,
        ;
    }
    let x = sx as i32;
    let y = sy as i32;
    let mut terms: Vec<Term> = Vec::new();
    if let Some(q) = code.get_neighbor_idx(x - 1, y - 1) {
        terms.push((q, true));
    }
    if let Some(q) = code.get_neighbor_idx(x + 1, y - 1) {
        terms.push((q, false));
    }
    if let Some(q) = code.get_neighbor_idx(x - 1, y + 1) {
        terms.push((q, false));
    }
    if let Some(q) = code.get_neighbor_idx(x + 1, y + 1) {
        terms.push((q, true));
    }
    terms
}

impl WasmSession {
    /// Recompute the syndrome: each stabilizer in each round reads the
    /// parity of the errors on its qubits accumulated up to that round, and
    /// a measurement error flips the reading.
    pub fn compute_syndrome(&mut self)
        requires
            old(self).wf(),
        ensures
            final(self).wf(),
            final(self).code_type == old(self).code_type,
            final(self).d == old(self).d,
            final(self).num_rounds == old(self).num_rounds,
            final(self).physical_x@ == old(self).physical_x@,
            final(self).physical_z@ == old(self).physical_z@,
            final(self).physical_erased@ == old(self).physical_erased@,
            final(self).measurement_errors@ == old(self).measurement_errors@,
            final(self).correction_x@ == old(self).correction_x@,
            final(self).correction_z@ == old(self).correction_z@,
            final(self).physical_x_u8@ == old(self).physical_x_u8@,
            final(self).physical_z_u8@ == old(self).physical_z_u8@,
            final(self).physical_erased_u8@ == old(self).physical_erased_u8@,
            forall|idx: int, t: int|
                0 <= idx < num_stabs_spec(old(self).d as nat) && 0 <= t < old(self).num_rounds
                    ==> #[trigger] final(self).syndrome@[idx + t * num_stabs_spec(old(self).d as nat)] == syndrome_spec(
                    old(self).code_type,
                    old(self).d as nat,
                    old(self).physical_x@,
                    old(self).physical_z@,
                    old(self).measurement_errors@,
                    idx,
                    t as nat,
                ),
    {
        proof {
            lemma_supported_small(self.d, self.code_type);
        }
        let d = self.d;
        let num_rounds = self.num_rounds;
        let num_data = d * d;
        let ns = stabilizer_total(d, self.code_type);
        let ghost px = self.physical_x@;
        let ghost pz = self.physical_z@;
        let ghost meas = self.measurement_errors@;
        let ghost ct = self.code_type;
        let rotated = if self.code_type == 0 {
            Some(RotatedSurfaceCode::new(d))
        } else {
            None
        };
        let xzzx = if self.code_type == 0 {
            None
        } else {
            Some(XZZXSurfaceCode::new(d))
        };
        for t in 0..num_rounds
            invariant
                self.wf(),
                self.code_type == ct,
                self.d == d,
                self.num_rounds == num_rounds,
                num_data == d * d,
                ns == num_stabs_spec(d as nat),
                self.physical_x@ == px,
                self.physical_z@ == pz,
                self.measurement_errors@ == meas,
                self.correction_x@ == old(self).correction_x@,
                self.correction_z@ == old(self).correction_z@,
                self.physical_erased@ == old(self).physical_erased@,
                self.physical_x_u8@ == old(self).physical_x_u8@,
                self.physical_z_u8@ == old(self).physical_z_u8@,
                self.physical_erased_u8@ == old(self).physical_erased_u8@,
                (ct == 0 && rotated_built(rotated, d) && xzzx is None) || (ct != 0 && xzzx_built(xzzx, d)
                    && rotated is None),
                forall|idx: int, t2: int|
                    0 <= idx < ns && 0 <= t2 < t ==> #[trigger] self.syndrome@[idx + t2 * ns] == syndrome_spec(
                        ct,
                        d as nat,
                        px,
                        pz,
                        meas,
                        idx,
                        t2 as nat,
                    ),
        {
            proof {
                assert((t + 1) * num_data <= num_data * num_rounds) by (nonlinear_arith)
                    requires
                        t < num_rounds,
                ;
                assert(num_data * num_rounds == d * d * num_rounds);
            }
            for idx in 0..ns
                invariant
                    self.wf(),
                    self.code_type == ct,
                    self.d == d,
                    self.num_rounds == num_rounds,
                    t < num_rounds,
                    num_data == d * d,
                    (t + 1) * num_data <= self.physical_x@.len(),
                    (t + 1) * num_data <= self.physical_z@.len(),
                    ns == num_stabs_spec(d as nat),
                    self.physical_x@ == px,
                    self.physical_z@ == pz,
                    self.measurement_errors@ == meas,
                    self.correction_x@ == old(self).correction_x@,
                    self.correction_z@ == old(self).correction_z@,
                    self.physical_erased@ == old(self).physical_erased@,
                    self.physical_x_u8@ == old(self).physical_x_u8@,
                    self.physical_z_u8@ == old(self).physical_z_u8@,
                    self.physical_erased_u8@ == old(self).physical_erased_u8@,
                    (ct == 0 && rotated_built(rotated, d) && xzzx is None) || (ct != 0 && xzzx_built(xzzx, d)
                        && rotated is None),
                    forall|i2: int, t2: int|
                        0 <= i2 < ns && 0 <= t2 <= t && (t2 < t || i2 < idx) ==> #[trigger] self.syndrome@[i2 + t2
                            * ns] == syndrome_spec(ct, d as nat, px, pz, meas, i2, t2 as nat),
            {
                let terms = match &rotated {
                    Some(code) => rotated_terms(code, idx),
                    None => match &xzzx {
                        Some(code) => xzzx_terms(code, idx),
                        None => Vec::new(),
                    },
                };
                let parity = accumulated(&self.physical_x, &self.physical_z, &terms, num_data, t);
                proof {
                    lemma_slot_bound(idx as int, t as int, ns as int, num_rounds as int);
                    assert(ns * num_rounds == num_stabs_spec(d as nat) * num_rounds);
                }
                let pos = idx + t * ns;
                let bit = parity != self.measurement_errors[pos];
                let byte: u8 = if bit {
                    1
                } else {
                    0
                };
                let ghost before = self.syndrome@;
                self.syndrome.set(pos, byte);
                proof {
                    assert forall|i2: int, t2: int|
                        0 <= i2 < ns && 0 <= t2 <= t && (t2 < t || i2 < idx + 1) implies #[trigger] self.syndrome@[i2
                            + t2 * ns] == syndrome_spec(ct, d as nat, px, pz, meas, i2, t2 as nat) by {
                        if i2 + t2 * ns == pos {
                            lemma_index_unique(i2, t2, idx as int, t as int, ns as int);
                        } else {
                            lemma_slot_bound(i2, t2, ns as int, num_rounds as int);
                            assert(self.syndrome@[i2 + t2 * ns] == before[i2 + t2 * ns]);
                        }
                    }
                }
            }
        }
    }
}

} // verus!
