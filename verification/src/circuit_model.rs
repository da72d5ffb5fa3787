//! Detector error model for circuit-level noise.
//!
//! A syndrome-extraction round is a list of `Op`. For every elementary fault
//! the circuit admits, the fault is propagated through that list as a Pauli
//! frame, and the detectors it fires and the data error it leaves behind are
//! recorded; that mapping is the decoding graph. Faults are split by Pauli
//! type: Z-stabilizer detectors catch X errors and X-stabilizer detectors
//! catch Z errors, so each part is graph-like on its own.
//!
//! Propagation rules: H swaps x and z, CNOT sends `x_t ^= x_c` and
//! `z_c ^= z_t`, CZ sends an X on either side to a Z on the other, and a
//! Z-basis measurement is flipped exactly when the frame carries x.
use crate::bits::{bit, get_bit, parity, parity_of, single};
use crate::decoder::{valid_correction, Edge, SyndromeGraph};
use crate::surface_code::decode_by_type;
use vstd::prelude::*;

verus! {

#[derive(Clone, Copy, PartialEq, Eq, Debug, Structural)]
pub enum StabKind {
    X,
    Z,
}

/// One instruction of a syndrome-extraction round.
#[derive(Clone, Copy, Debug)]
pub enum Op {
    /// Prepare an ancilla in |0>.
    Reset(usize),
    H(usize),
    Cnot(usize, usize),
    /// Controlled-Z, symmetric; reads a Z leg from an ancilla held in |+>.
    Cz(usize, usize),
    /// Measure an ancilla in Z and reset it. Records one outcome.
    Measure(usize, StabKind, usize),
    /// A location where the hardware may apply a single-qubit Pauli.
    Noise(usize),
}

/// A single-qubit Pauli, as a bitmask: 1 = X, 2 = Z, 3 = Y.
pub type Pauli = u8;

/// Where a fault can occur, and what it does there.
#[derive(Clone, Copy, Debug)]
pub enum Fault {
    /// A Pauli at a `Noise` location: (op index within the round, Pauli).
    Gate(usize, Pauli),
    /// A classical flip of a recorded outcome: (op index within the round).
    Readout(usize),
}

/// Every qubit an op names is below `n`.
pub open spec fn op_in_range(op: Op, n: nat) -> bool {
    match op {
        Op::Reset(q) => q < n,
        Op::H(q) => q < n,
        Op::Cnot(c, t) => c < n && t < n,
        Op::Cz(a, b) => a < n && b < n,
        Op::Measure(q, _, _) => q < n,
        Op::Noise(q) => q < n,
    }
}

/// Every qubit an op names is below `n`, two-qubit gates act on distinct
/// qubits, and every recorded outcome has a slot: X outcomes below `nx`, Z
/// outcomes below `nz`.
pub open spec fn op_ok(op: Op, n: nat, nx: nat, nz: nat) -> bool {
    &&& op_in_range(op, n)
    &&& match op {
        Op::Measure(_, StabKind::X, idx) => idx < nx,
        Op::Measure(_, StabKind::Z, idx) => idx < nz,
        Op::Cnot(c, t) => c != t,
        Op::Cz(a, b) => a != b,
        _ => true,
    }
}

/// `f(0) + f(1) + ... + f(count - 1)`.
pub open spec fn rep(count: nat, f: spec_fn(nat) -> Seq<Op>) -> Seq<Op>
    decreases count,
{
    if count == 0 {
        seq![]
    } else {
        rep((count - 1) as nat, f) + f((count - 1) as nat)
    }
}

pub proof fn lemma_rep_step(count: nat, f: spec_fn(nat) -> Seq<Op>, pre: Seq<Op>)
    ensures
        pre + rep(count + 1, f) =~= (pre + rep(count, f)) + f(count),
{
    assert(rep(count + 1, f) == rep(count, f) + f(count));
}

pub struct CircuitLayout {
    pub program: Vec<Op>,
    pub num_qubits: usize,
    pub num_data: usize,
    pub num_x_stabs: usize,
    pub num_z_stabs: usize,
}

impl CircuitLayout {
    /// Every op is well formed for the layout's sizes, and the sizes are
    /// modest.
    pub open spec fn wf(&self) -> bool {
        &&& forall|i: int|
            0 <= i < self.program@.len() ==> op_ok(
                #[trigger] self.program@[i],
                self.num_qubits as nat,
                self.num_x_stabs as nat,
                self.num_z_stabs as nat,
            )
        &&& self.num_data <= self.num_qubits
        &&& self.num_qubits <= 0x400_0000
        &&& self.num_x_stabs <= 0x400_0000
        &&& self.num_z_stabs <= 0x400_0000
    }
}

/* ---------------------------------------------------------------------- */
/* Pauli frame                                                            */
/* ---------------------------------------------------------------------- */

/// X part of a frame after applying the Pauli `pauli` to qubit `q`.
pub open spec fn apply_x(x: Seq<bool>, q: int, pauli: Pauli) -> Seq<bool> {
    if pauli & 1u8 != 0 {
        x.update(q, !x[q])
    } else {
        x
    }
}

/// Z part of a frame after applying the Pauli `pauli` to qubit `q`.
pub open spec fn apply_z(z: Seq<bool>, q: int, pauli: Pauli) -> Seq<bool> {
    if pauli & 2u8 != 0 {
        z.update(q, !z[q])
    } else {
        z
    }
}

/// A Y is an X and a Z: applying Y to a qubit of a frame gives the frame that
/// applying X and then Z gives.
pub proof fn lemma_y_is_x_then_z(x: Seq<bool>, z: Seq<bool>, q: int)
    ensures
        apply_x(x, q, 3) == apply_x(apply_x(x, q, 1), q, 2),
        apply_z(z, q, 3) == apply_z(apply_z(z, q, 1), q, 2),
{
    lemma_pauli_bits();
}

/// Which of the X and Z bits each Pauli code carries.
pub(crate) proof fn lemma_pauli_bits()
    ensures
        0u8 & 1u8 == 0,
        0u8 & 2u8 == 0,
        1u8 & 1u8 != 0,
        1u8 & 2u8 == 0,
        2u8 & 1u8 == 0,
        2u8 & 2u8 != 0,
        3u8 & 1u8 != 0,
        3u8 & 2u8 != 0,
{
    assert(0u8 & 1u8 == 0 && 0u8 & 2u8 == 0 && 3u8 & 1u8 != 0 && 3u8 & 2u8 != 0 && 1u8 & 2u8 == 0 && 2u8 & 1u8 == 0
        && 1u8 & 1u8 != 0 && 2u8 & 2u8 != 0) by (bit_vector);
}

/// The frame `(x, z)` after one op, and for a measurement its kind, slot and
/// whether the outcome is flipped.
pub open spec fn step_spec(x: Seq<bool>, z: Seq<bool>, op: Op) -> (Seq<bool>, Seq<bool>, Option<
    (StabKind, usize, bool),
>) {
    match op {
        Op::Reset(q) => (x.update(q as int, false), z.update(q as int, false), None),
        Op::H(q) => (x.update(q as int, z[q as int]), z.update(q as int, x[q as int]), None),
        Op::Cnot(c, t) => (
            if x[c as int] {
                x.update(t as int, !x[t as int])
            } else {
                x
            },
            if z[t as int] {
                z.update(c as int, !z[c as int])
            } else {
                z
            },
            None,
        ),
        Op::Cz(a, b) => {
            let z1 = if x[a as int] {
                z.update(b as int, !z[b as int])
            } else {
                z
            };
            (
                x,
                if x[b as int] {
                    z1.update(a as int, !z1[a as int])
                } else {
                    z1
                },
                None,
            )
        },
        Op::Measure(q, kind, idx) => (
            x.update(q as int, false),
            z.update(q as int, false),
            Some((kind, idx, x[q as int])),
        ),
        Op::Noise(_) => (x, z, None),
    }
}

/// Pauli frame over data qubits and ancillas.
///
/// For a Clifford circuit under Pauli noise the frame says which of the
/// noiseless circuit's readings are flipped, which is all a detector needs.
pub struct Frame {
    pub x: Vec<bool>,
    pub z: Vec<bool>,
}

impl Frame {
    pub fn new(n: usize) -> (f: Self)
        ensures
            f.x@ == Seq::new(n as nat, |i: int| false),
            f.z@ == Seq::new(n as nat, |i: int| false),
    {
        let x = vec![false; n];
        let z = vec![false; n];
        proof {
            assert(x@ =~= Seq::new(n as nat, |i: int| false));
            assert(z@ =~= Seq::new(n as nat, |i: int| false));
        }
        Frame { x, z }
    }

    /// Multiply the Pauli `pauli` onto qubit `q`.
    pub fn apply(&mut self, q: usize, pauli: Pauli)
        requires
            q < old(self).x@.len(),
            q < old(self).z@.len(),
        ensures
            final(self).x@ == apply_x(old(self).x@, q as int, pauli),
            final(self).z@ == apply_z(old(self).z@, q as int, pauli),
    {
        if pauli & 1 != 0 {
            let v = !self.x[q];
            self.x.set(q, v);
        }
        if pauli & 2 != 0 {
            let v = !self.z[q];
            self.z.set(q, v);
        }
    }

    /// Walk one op. Returns the kind, slot and flip of a measurement.
    pub fn step(&mut self, op: Op) -> (out: Option<(StabKind, usize, bool)>)
        requires
            op_in_range(op, old(self).x@.len()),
            old(self).x@.len() == old(self).z@.len(),
        ensures
            (final(self).x@, final(self).z@, out) == step_spec(old(self).x@, old(self).z@, op),
    {
        match op {
            Op::Reset(q) => {
                self.x.set(q, false);
                self.z.set(q, false);
                None
            },
            Op::H(q) => {
                let xq = self.x[q];
                let zq = self.z[q];
                self.x.set(q, zq);
                self.z.set(q, xq);
                None
            },
            Op::Cnot(c, t) => {
                // X propagates control -> target, Z propagates target -> control.
                if self.x[c] {
                    let v = !self.x[t];
                    self.x.set(t, v);
                }
                if self.z[t] {
                    let v = !self.z[c];
                    self.z.set(c, v);
                }
                None
            },
            Op::Cz(a, b) => {
                // An X on either side becomes a Z on the other.
                if self.x[a] {
                    let v = !self.z[b];
                    self.z.set(b, v);
                }
                if self.x[b] {
                    let v = !self.z[a];
                    self.z.set(a, v);
                }
                None
            },
            Op::Measure(q, kind, idx) => {
                // A Z-basis measurement is flipped by an X in the frame.
                let flipped = self.x[q];
                self.x.set(q, false);
                self.z.set(q, false);
                Some((kind, idx, flipped))
            },
            Op::Noise(_) => None,
        }
    }
}

/* ---------------------------------------------------------------------- */
/* Propagating one fault                                                  */
/* ---------------------------------------------------------------------- */

/// What one fault does: which measurement outcomes it flips, and the
/// data-qubit Pauli it leaves behind at the end.
pub struct FaultEffect {
    /// Indexed `round * num_stabs + stabilizer`, over every executed round.
    pub flips_x_stab: Vec<bool>,
    pub flips_z_stab: Vec<bool>,
    pub residual_x: u128,
    pub residual_z: u128,
}

/// Frame and recorded flips during propagation: `(x, z, flips_x, flips_z)`.
pub type PropState = (Seq<bool>, Seq<bool>, Seq<bool>, Seq<bool>);

/// Applies a gate fault to the frame just ahead of the op it sits at
/// (position `i` within round `r`); any other fault leaves the frame alone.
pub open spec fn injected(x: Seq<bool>, z: Seq<bool>, op: Op, i: nat, r: nat, fault: Fault, round: nat) -> (
    Seq<bool>,
    Seq<bool>,
) {
    match (fault, op) {
        (Fault::Gate(at, pauli), Op::Noise(q)) => if r == round && at == i {
            (apply_x(x, q as int, pauli), apply_z(z, q as int, pauli))
        } else {
            (x, z)
        },
        _ => (x, z),
    }
}

/// Whether the fault is the readout flip at op `i` of round `r`.
pub open spec fn readout_hit(fault: Fault, i: nat, r: nat, round: nat) -> bool {
    match fault {
        Fault::Readout(at) => r == round && at == i,
        _ => false,
    }
}

/// One op of round `r`, with the fault applied where it sits.
pub open spec fn prop_op(st: PropState, op: Op, i: nat, r: nat, fault: Fault, round: nat, nx: nat, nz: nat) -> PropState {
    let (x1, z1) = injected(st.0, st.1, op, i, r, fault, round);
    let (x2, z2, out) = step_spec(x1, z1, op);
    match out {
        Some((kind, idx, flipped)) => {
            let f = flipped != readout_hit(fault, i, r, round);
            match kind {
                StabKind::X => (x2, z2, st.2.update(r * nx + idx, f), st.3),
                StabKind::Z => (x2, z2, st.2, st.3.update(r * nz + idx, f)),
            }
        },
        None => (x2, z2, st.2, st.3),
    }
}

/// The first `k` ops of round `r`.
pub open spec fn prop_round(
    prog: Seq<Op>,
    st: PropState,
    r: nat,
    k: nat,
    fault: Fault,
    round: nat,
    nx: nat,
    nz: nat,
) -> PropState
    decreases k,
{
    if k == 0 {
        st
    } else {
        prop_op(
            prop_round(prog, st, r, (k - 1) as nat, fault, round, nx, nz),
            prog[k - 1],
            (k - 1) as nat,
            r,
            fault,
            round,
            nx,
            nz,
        )
    }
}

/// The first `rounds` rounds, from `st`.
pub open spec fn prop_rounds(prog: Seq<Op>, st: PropState, rounds: nat, fault: Fault, round: nat, nx: nat, nz: nat) -> PropState
    decreases rounds,
{
    if rounds == 0 {
        st
    } else {
        prop_round(
            prog,
            prop_rounds(prog, st, (rounds - 1) as nat, fault, round, nx, nz),
            (rounds - 1) as nat,
            prog.len(),
            fault,
            round,
            nx,
            nz,
        )
    }
}

/// `m` has bit `i` set exactly when `i < n` and `bits[i]`.
pub open spec fn mask_of(m: u128, bits: Seq<bool>, n: nat) -> bool {
    forall|i: u128| i < 128 ==> #[trigger] bit(m, i) == ((i as nat) < n && bits[i as int])
}

/// The mask of `bits[0..n]`.
pub open spec fn to_mask(bits: Seq<bool>, n: nat) -> u128
    decreases n,
{
    if n == 0 {
        0u128
    } else {
        to_mask(bits, (n - 1) as nat) | if bits[n - 1] {
            1u128 << ((n - 1) as u128)
        } else {
            0u128
        }
    }
}

/// The clean starting state: nothing in the frame, nothing flipped.
pub open spec fn clean_state(nq: nat, fx_len: nat, fz_len: nat) -> PropState {
    (
        Seq::new(nq, |i: int| false),
        Seq::new(nq, |i: int| false),
        Seq::new(fx_len, |i: int| false),
        Seq::new(fz_len, |i: int| false),
    )
}

proof fn lemma_slot(r: nat, idx: nat, n: nat, rounds: nat)
    requires
        r < rounds,
        idx < n,
    ensures
        r * n + idx < rounds * n,
{
    assert(r * n + n <= rounds * n) by (nonlinear_arith)
        requires
            r < rounds,
    ;
}

/// Bits `0..k` of the mask follow `bits`.
pub(crate) fn mask_from(bits: &Vec<bool>, k: usize) -> (m: u128)
    requires
        k <= 128,
        k <= bits@.len(),
    ensures
        mask_of(m, bits@, k as nat),
        m == to_mask(bits@, k as nat),
{
    let mut m: u128 = 0;
    proof {
        assert forall|i: u128| i < 128 implies !#[trigger] bit(0u128, i) by {
            crate::bits::lemma_bit_zero(i);
        }
    }
    for q in 0..k
        invariant
            k <= 128,
            k <= bits@.len(),
            forall|i: u128| i < 128 ==> #[trigger] bit(m, i) == ((i as nat) < q && bits@[i as int]),
            m == to_mask(bits@, q as nat),
    {
        if bits[q] {
            let e = single(q as u32);
            let old_m = m;
            m = m | e;
            proof {
                assert forall|i: u128| i < 128 implies #[trigger] bit(m, i) == ((i as nat) < q + 1 && bits@[i as int]) by {
                    assert(bit(e, i) == (i == q as u128));
                    assert((((old_m >> i) & 1u128 == 1u128) || ((e >> i) & 1u128 == 1u128)) == (((old_m | e) >> i) & 1u128
                        == 1u128)) by (bit_vector);
                    assert(bit(m, i) == (bit(old_m, i) || bit(e, i)));
                    if i == q as u128 {
                        assert(bits@[q as int]);
                    }
                }
            }
        } else {
            let mm = m;
            assert(mm | 0u128 == mm) by (bit_vector);
        }
    }
    m
}

impl CircuitLayout {
    /// Propagate a single fault injected in `round` and report its effect,
    /// over `rounds_total` executed rounds.
    pub fn propagate(&self, fault: Fault, round: usize, rounds_total: usize) -> (effect: FaultEffect)
        requires
            self.wf(),
            self.num_data <= 128,
            rounds_total * self.num_x_stabs <= usize::MAX,
            rounds_total * self.num_z_stabs <= usize::MAX,
        ensures
            ({
                let fin = prop_rounds(
                    self.program@,
                    clean_state(
                        self.num_qubits as nat,
                        (self.num_x_stabs * rounds_total) as nat,
                        (self.num_z_stabs * rounds_total) as nat,
                    ),
                    rounds_total as nat,
                    fault,
                    round as nat,
                    self.num_x_stabs as nat,
                    self.num_z_stabs as nat,
                );
                &&& effect.flips_x_stab@ == fin.2
                &&& effect.flips_z_stab@ == fin.3
                &&& effect.flips_x_stab@.len() == self.num_x_stabs * rounds_total
                &&& effect.flips_z_stab@.len() == self.num_z_stabs * rounds_total
                &&& mask_of(effect.residual_x, fin.0, self.num_data as nat)
                &&& mask_of(effect.residual_z, fin.1, self.num_data as nat)
                &&& effect.residual_x == to_mask(fin.0, self.num_data as nat)
                &&& effect.residual_z == to_mask(fin.1, self.num_data as nat)
            }),
    {
        let nx = self.num_x_stabs;
        let nz = self.num_z_stabs;
        proof {
            assert(nx * rounds_total == rounds_total * nx) by (nonlinear_arith);
            assert(nz * rounds_total == rounds_total * nz) by (nonlinear_arith);
        }
        let mut frame = Frame::new(self.num_qubits);
        let mut flips_x = vec![false; nx * rounds_total];
        let mut flips_z = vec![false; nz * rounds_total];
        let ghost init = clean_state(self.num_qubits as nat, (nx * rounds_total) as nat, (nz * rounds_total) as nat);
        proof {
            assert(flips_x@ =~= init.2);
            assert(flips_z@ =~= init.3);
            assert(nx * rounds_total == rounds_total * nx) by (nonlinear_arith);
            assert(nz * rounds_total == rounds_total * nz) by (nonlinear_arith);
        }
        let plen = self.program.len();
        for r in 0..rounds_total
            invariant
                self.wf(),
                nx == self.num_x_stabs,
                nz == self.num_z_stabs,
                plen == self.program@.len(),
                frame.x@.len() == self.num_qubits,
                frame.z@.len() == self.num_qubits,
                flips_x@.len() == rounds_total * nx,
                flips_z@.len() == rounds_total * nz,
                rounds_total * nx <= usize::MAX,
                rounds_total * nz <= usize::MAX,
                (frame.x@, frame.z@, flips_x@, flips_z@) == prop_rounds(
                    self.program@,
                    init,
                    r as nat,
                    fault,
                    round as nat,
                    nx as nat,
                    nz as nat,
                ),
        {
            let ghost start = (frame.x@, frame.z@, flips_x@, flips_z@);
            for i in 0..plen
                invariant
                    self.wf(),
                    r < rounds_total,
                    nx == self.num_x_stabs,
                    nz == self.num_z_stabs,
                    plen == self.program@.len(),
                    frame.x@.len() == self.num_qubits,
                    frame.z@.len() == self.num_qubits,
                    flips_x@.len() == rounds_total * nx,
                    flips_z@.len() == rounds_total * nz,
                    rounds_total * nx <= usize::MAX,
                    rounds_total * nz <= usize::MAX,
                    (frame.x@, frame.z@, flips_x@, flips_z@) == prop_round(
                        self.program@,
                        start,
                        r as nat,
                        i as nat,
                        fault,
                        round as nat,
                        nx as nat,
                        nz as nat,
                    ),
            {
                let op = self.program[i];
                proof {
                    assert(op_ok(self.program@[i as int], self.num_qubits as nat, nx as nat, nz as nat));
                }
                // A gate fault lands ahead of the op at its location, on the
                // state that op is about to act on.
                if r == round {
                    if let Fault::Gate(at, pauli) = fault {
                        if at == i {
                            if let Op::Noise(q) = op {
                                frame.apply(q, pauli);
                            }
                        }
                    }
                }
                if let Some((kind, idx, flipped0)) = frame.step(op) {
                    let mut flipped = flipped0;
                    if r == round {
                        if let Fault::Readout(at) = fault {
                            if at == i {
                                flipped = !flipped;
                            }
                        }
                    }
                    match kind {
                        StabKind::X => {
                            proof {
                                lemma_slot(r as nat, idx as nat, nx as nat, rounds_total as nat);
                            }
                            flips_x.set(r * nx + idx, flipped);
                        },
                        StabKind::Z => {
                            proof {
                                lemma_slot(r as nat, idx as nat, nz as nat, rounds_total as nat);
                            }
                            flips_z.set(r * nz + idx, flipped);
                        },
                    }
                }
            }
        }
        let residual_x = mask_from(&frame.x, self.num_data);
        let residual_z = mask_from(&frame.z, self.num_data);
        FaultEffect { flips_x_stab: flips_x, flips_z_stab: flips_z, residual_x, residual_z }
    }
}

/// Number of `Noise` ops among the first `k` ops.
pub open spec fn noise_count(prog: Seq<Op>, k: nat) -> nat
    decreases k,
{
    if k == 0 {
        0
    } else {
        noise_count(prog, (k - 1) as nat) + if prog[k - 1] is Noise {
            1nat
        } else {
            0nat
        }
    }
}

/// The faults of the first `k` ops, each with its erasure slot: three Pauli
/// faults at every noise location (slot = how many noise locations precede
/// it), and one readout flip, with no slot, at every measurement.
pub open spec fn locations(prog: Seq<Op>, k: nat) -> Seq<(Fault, Option<usize>)>
    decreases k,
{
    if k == 0 {
        seq![]
    } else {
        let i = (k - 1) as nat;
        let prev = locations(prog, i);
        let slot = noise_count(prog, i) as usize;
        match prog[i as int] {
            Op::Noise(_) => prev + seq![
                (Fault::Gate(i as usize, 1), Some(slot)),
                (Fault::Gate(i as usize, 2), Some(slot)),
                (Fault::Gate(i as usize, 3), Some(slot)),
            ],
            Op::Measure(..) => prev.push((Fault::Readout(i as usize), None)),
            _ => prev,
        }
    }
}

proof fn lemma_noise_count_le(prog: Seq<Op>, k: nat)
    ensures
        noise_count(prog, k) <= k,
    decreases k,
{
    if k > 0 {
        lemma_noise_count_le(prog, (k - 1) as nat);
    }
}

proof fn lemma_locations_len(prog: Seq<Op>, k: nat)
    ensures
        locations(prog, k).len() <= 3 * k,
    decreases k,
{
    if k > 0 {
        lemma_locations_len(prog, (k - 1) as nat);
    }
}

/// Rounds actually executed: a noiseless projection round, the noisy rounds,
/// and a noiseless final round that gives the last noisy round something to
/// be compared against.
pub fn rounds_executed(num_rounds: usize) -> (r: usize)
    requires
        num_rounds <= usize::MAX - 2,
    ensures
        r == num_rounds + 2,
{
    num_rounds + 2
}

/// Detector layers: one per comparison between consecutive rounds.
pub fn detector_layers(num_rounds: usize) -> (r: usize)
    requires
        num_rounds <= usize::MAX - 1,
    ensures
        r == num_rounds + 1,
{
    num_rounds + 1
}

/// The detectors fired by a flip pattern in rounds `1..t`, and in round `t`
/// by stabilizers below `s`: detector `s + (t - 1) * num_stabs` fires when the
/// reading of stabilizer `s` in round `t` differs from round `t - 1`.
pub open spec fn detectors_upto(flips: Seq<bool>, ns: nat, t: nat, s: nat) -> Seq<usize>
    decreases t, s,
{
    if s == 0 {
        if t <= 1 {
            seq![]
        } else {
            detectors_upto(flips, ns, (t - 1) as nat, ns)
        }
    } else {
        let prev = detectors_upto(flips, ns, t, (s - 1) as nat);
        let here = flips[t * ns + (s - 1)];
        let before = flips[(t - 1) * ns + (s - 1)];
        if here != before {
            prev.push(((s - 1) + (t - 1) * ns) as usize)
        } else {
            prev
        }
    }
}

/// All detectors fired over `rounds_total` executed rounds.
pub open spec fn detectors_spec(flips: Seq<bool>, ns: nat, rounds_total: nat) -> Seq<usize> {
    if rounds_total == 0 {
        seq![]
    } else {
        detectors_upto(flips, ns, rounds_total, 0)
    }
}

impl CircuitLayout {
    /// Every elementary fault one round admits, paired with its erasure slot.
    pub fn fault_locations(&self) -> (out: Vec<(Fault, Option<usize>)>)
        requires
            self.program@.len() <= usize::MAX / 4,
        ensures
            out@ == locations(self.program@, self.program@.len()),
    {
        let mut out: Vec<(Fault, Option<usize>)> = Vec::new();
        let mut slot: usize = 0;
        for i in 0..self.program.len()
            invariant
                self.program@.len() <= usize::MAX / 4,
                out@ == locations(self.program@, i as nat),
                slot == noise_count(self.program@, i as nat),
        {
            proof {
                lemma_noise_count_le(self.program@, i as nat);
            }
            match self.program[i] {
                Op::Noise(_) => {
                    let ghost before = out@;
                    out.push((Fault::Gate(i, 1), Some(slot)));
                    out.push((Fault::Gate(i, 2), Some(slot)));
                    out.push((Fault::Gate(i, 3), Some(slot)));
                    proof {
                        assert(out@ =~= before + seq![
                            (Fault::Gate(i, 1), Some(slot)),
                            (Fault::Gate(i, 2), Some(slot)),
                            (Fault::Gate(i, 3), Some(slot)),
                        ]);
                    }
                    slot += 1;
                },
                Op::Measure(..) => out.push((Fault::Readout(i), None)),
                _ => {},
            }
        }
        out
    }

    /// How many noise locations one round has.
    pub fn noise_slots(&self) -> (k: usize)
        ensures
            k == noise_count(self.program@, self.program@.len()),
    {
        let mut k: usize = 0;
        for i in 0..self.program.len()
            invariant
                k == noise_count(self.program@, i as nat),
        {
            proof {
                lemma_noise_count_le(self.program@, i as nat);
            }
            if let Op::Noise(_) = self.program[i] {
                k += 1;
            }
        }
        k
    }
}

/// Detector indices from a measurement flip pattern, in order of round and
/// then stabilizer; detector layers are indexed from the first noisy round.
pub fn detectors(flips: &Vec<bool>, num_stabs: usize, rounds_total: usize) -> (fired: Vec<usize>)
    requires
        rounds_total * num_stabs <= flips@.len(),
    ensures
        fired@ == detectors_spec(flips@, num_stabs as nat, rounds_total as nat),
        forall|k: int| 0 <= k < fired@.len() ==> #[trigger] fired@[k] < num_stabs * (rounds_total - 1),
{
    let mut fired: Vec<usize> = Vec::new();
    let ns = num_stabs;
    let flen = flips.len();
    let mut t: usize = 1;
    while t < rounds_total
        invariant
            1 <= t,
            t <= rounds_total || (rounds_total == 0 && t == 1),
            flen == flips@.len(),
            rounds_total * ns <= flen,
            fired@ == detectors_upto(flips@, ns as nat, t as nat, 0),
            forall|k: int| 0 <= k < fired@.len() ==> #[trigger] fired@[k] < ns * (t - 1),
        decreases rounds_total - t,
    {
        proof {
            assert(t * ns + ns <= rounds_total * ns) by (nonlinear_arith)
                requires
                    t < rounds_total,
            ;
            assert(ns * (t - 1) + ns == ns * t) by (nonlinear_arith);
            assert((t - 1) * ns == ns * (t - 1)) by (nonlinear_arith);
        }
        for s in 0..ns
            invariant
                1 <= t < rounds_total,
                flen == flips@.len(),
                rounds_total * ns <= flen,
                t * ns + ns <= rounds_total * ns,
                ns * (t - 1) + ns == ns * t,
                (t - 1) * ns == ns * (t - 1),
                fired@ == detectors_upto(flips@, ns as nat, t as nat, s as nat),
                forall|k: int| 0 <= k < fired@.len() ==> #[trigger] fired@[k] < ns * t,
        {
            let here = flips[t * ns + s];
            let before = flips[(t - 1) * ns + s];
            if here != before {
                // Detector layers are indexed from the first noisy round.
                fired.push(s + (t - 1) * ns);
            }
        }
        proof {
            assert(detectors_upto(flips@, ns as nat, (t + 1) as nat, 0) == detectors_upto(
                flips@,
                ns as nat,
                t as nat,
                ns as nat,
            ));
        }
        t += 1;
    }
    proof {
        if rounds_total == 0 {
            assert(detectors_upto(flips@, ns as nat, 1, 0) =~= seq![]);
            assert(fired@.len() == 0);
        } else {
            assert(t == rounds_total);
        }
    }
    fired
}

/* ---------------------------------------------------------------------- */
/* Assembling a graph from fault mechanisms                               */
/* ---------------------------------------------------------------------- */

/// One fault mechanism: the detectors it fires, the data correction it
/// implies as (X mask, Z mask), and its erasure site. The CSS graphs carry
/// their single correction in the first mask.
pub type Mechanism = (Vec<usize>, (u128, u128), usize);

/// The node pair a mechanism joins: its two detectors, or its one detector
/// and the boundary `nn`. Mechanisms firing more detectors have none.
pub open spec fn endpoints(nodes: Seq<usize>, nn: nat) -> Option<(usize, usize)> {
    if nodes.len() == 1 {
        Some((nodes[0], nn as usize))
    } else if nodes.len() == 2 {
        Some((nodes[0], nodes[1]))
    } else {
        None
    }
}

/// A mechanism as plain values.
pub type MechView = (Seq<usize>, (u128, u128), usize);

pub open spec fn mech_view(c: Mechanism) -> MechView {
    (c.0@, c.1, c.2)
}

pub open spec fn cands_view(cands: Seq<Mechanism>) -> Seq<MechView> {
    cands.map_values(|c: Mechanism| mech_view(c))
}

pub open spec fn mech_pair(c: MechView, nn: nat) -> Option<(usize, usize)> {
    endpoints(c.0, nn)
}

/// How many of the first `k` mechanisms join the pair `p` with correction `m`.
pub open spec fn count_mech(cands: Seq<MechView>, nn: nat, p: (usize, usize), m: (u128, u128), k: nat) -> nat
    decreases k,
{
    if k == 0 {
        0
    } else {
        count_mech(cands, nn, p, m, (k - 1) as nat) + if mech_pair(cands[k - 1], nn) == Some(p) && cands[k
            - 1].1 == m {
            1nat
        } else {
            0nat
        }
    }
}

/// Lexicographic order on node pairs.
pub open spec fn pair_lt(a: (usize, usize), b: (usize, usize)) -> bool {
    a.0 < b.0 || (a.0 == b.0 && a.1 < b.1)
}

/// Lexicographic order on corrections.
pub open spec fn corr_le(a: (u128, u128), b: (u128, u128)) -> bool {
    a.0 < b.0 || (a.0 == b.0 && a.1 <= b.1)
}

/// `best` is the most frequent correction among the mechanisms joining `p`,
/// ties going to the smaller one.
pub open spec fn is_best(cands: Seq<MechView>, nn: nat, p: (usize, usize), best: (u128, u128)) -> bool {
    let k = cands.len();
    &&& count_mech(cands, nn, p, best, k) > 0
    &&& forall|m: (u128, u128)|
        #[trigger] count_mech(cands, nn, p, m, k) < count_mech(cands, nn, p, best, k) || (count_mech(
            cands,
            nn,
            p,
            m,
            k,
        ) == count_mech(cands, nn, p, best, k) && corr_le(best, m))
}

/// One edge per node pair any mechanism joins, in increasing pair order,
/// each carrying its most likely correction.
pub open spec fn tally_ok(cands: Seq<MechView>, nn: nat, pairs: Seq<(usize, usize)>, best: Seq<(u128, u128)>) -> bool {
    &&& pairs.len() == best.len()
    &&& forall|a: int, b: int| 0 <= a < b < pairs.len() ==> pair_lt(#[trigger] pairs[a], #[trigger] pairs[b])
    &&& forall|k: int| 0 <= k < pairs.len() ==> is_best(cands, nn, #[trigger] pairs[k], best[k])
    &&& forall|i: int|
        0 <= i < cands.len() && (#[trigger] mech_pair(cands[i], nn)) is Some ==> exists|k: int|
            0 <= k < pairs.len() && pairs[k] == mech_pair(cands[i], nn)->0
}

/// The edge of pair `p`.
pub open spec fn edge_of(pairs: Seq<(usize, usize)>, p: (usize, usize)) -> int {
    choose|k: int| 0 <= k < pairs.len() && pairs[k] == p
}

/// The edges that site `s` can produce, among the first `k` mechanisms, in
/// order of first appearance.
pub open spec fn site_ids(cands: Seq<MechView>, nn: nat, pairs: Seq<(usize, usize)>, s: nat, k: nat) -> Seq<usize>
    decreases k,
{
    if k == 0 {
        seq![]
    } else {
        let prev = site_ids(cands, nn, pairs, s, (k - 1) as nat);
        let c = cands[k - 1];
        match mech_pair(c, nn) {
            Some(p) => if c.2 == s {
                let id = edge_of(pairs, p) as usize;
                if prev.contains(id) {
                    prev
                } else {
                    prev.push(id)
                }
            } else {
                prev
            },
            None => prev,
        }
    }
}

proof fn lemma_count_step(cands: Seq<MechView>, nn: nat, p: (usize, usize), m: (u128, u128), k: nat)
    ensures
        count_mech(cands, nn, p, m, k + 1) == count_mech(cands, nn, p, m, k) + if mech_pair(cands[k as int], nn)
            == Some(p) && cands[k as int].1 == m {
            1nat
        } else {
            0nat
        },
{
}

proof fn lemma_count_le(cands: Seq<MechView>, nn: nat, p: (usize, usize), m: (u128, u128), k: nat)
    ensures
        count_mech(cands, nn, p, m, k) <= k,
    decreases k,
{
    if k > 0 {
        lemma_count_le(cands, nn, p, m, (k - 1) as nat);
    }
}

fn endpoints_exec(nodes: &Vec<usize>, nn: usize) -> (r: Option<(usize, usize)>)
    ensures
        r == endpoints(nodes@, nn as nat),
{
    if nodes.len() == 1 {
        Some((nodes[0], nn))
    } else if nodes.len() == 2 {
        Some((nodes[0], nodes[1]))
    } else {
        None
    }
}

fn pair_lt_exec(a: (usize, usize), b: (usize, usize)) -> (r: bool)
    ensures
        r == pair_lt(a, b),
{
    a.0 < b.0 || (a.0 == b.0 && a.1 < b.1)
}

fn pair_eq(a: (usize, usize), b: (usize, usize)) -> (r: bool)
    ensures
        r == (a == b),
{
    a.0 == b.0 && a.1 == b.1
}

fn corr_eq(a: (u128, u128), b: (u128, u128)) -> (r: bool)
    ensures
        r == (a == b),
{
    a.0 == b.0 && a.1 == b.1
}

fn corr_lt_exec(a: (u128, u128), b: (u128, u128)) -> (r: bool)
    ensures
        r == (a.0 < b.0 || (a.0 == b.0 && a.1 < b.1)),
{
    a.0 < b.0 || (a.0 == b.0 && a.1 < b.1)
}

fn contains_usize(v: &Vec<usize>, x: usize) -> (r: bool)
    ensures
        r == v@.contains(x),
{
    for k in 0..v.len()
        invariant
            forall|j: int| 0 <= j < k ==> v@[j] != x,
    {
        if v[k] == x {
            return true;
        }
    }
    false
}

/// A counting entry: node pair, correction, and how many mechanisms have it.
pub type Entry = ((usize, usize), (u128, u128), usize);

/// The entries hold exactly the (pair, correction) combinations seen among
/// the first `k` mechanisms, once each, with their counts.
pub open spec fn entries_ok(cs: Seq<MechView>, nn: nat, k: nat, entries: Seq<Entry>) -> bool {
    &&& forall|e: int|
        0 <= e < entries.len() ==> (#[trigger] entries[e]).2 == count_mech(cs, nn, entries[e].0, entries[e].1, k)
            && entries[e].2 > 0
    &&& forall|e1: int, e2: int|
        0 <= e1 < e2 < entries.len() ==> ((#[trigger] entries[e1]).0, entries[e1].1) != (
        (#[trigger] entries[e2]).0,
        entries[e2].1,
        )
    &&& forall|p: (usize, usize), m: (u128, u128)|
        #[trigger] count_mech(cs, nn, p, m, k) > 0 ==> exists|e: int|
            0 <= e < entries.len() && entries[e].0 == p && entries[e].1 == m
}

pub open spec fn has_entry(entries: Seq<Entry>, p: (usize, usize)) -> bool {
    exists|e: int| 0 <= e < entries.len() && entries[e].0 == p
}

pub open spec fn has_pair(pairs: Seq<(usize, usize)>, p: (usize, usize)) -> bool {
    exists|a: int| 0 <= a < pairs.len() && pairs[a] == p
}

pub open spec fn sorted_pairs(pairs: Seq<(usize, usize)>) -> bool {
    forall|a: int, b: int| 0 <= a < b < pairs.len() ==> pair_lt(#[trigger] pairs[a], #[trigger] pairs[b])
}

/// Every listed pair has an entry, and every pair joined by one of the first
/// `k` mechanisms is listed.
pub open spec fn pairs_ok(cs: Seq<MechView>, nn: nat, k: nat, pairs: Seq<(usize, usize)>, entries: Seq<Entry>) -> bool {
    &&& sorted_pairs(pairs)
    &&& forall|a: int| 0 <= a < pairs.len() ==> has_entry(entries, #[trigger] pairs[a])
    &&& forall|j: int|
        0 <= j < k && (#[trigger] mech_pair(cs[j], nn)) is Some ==> has_pair(pairs, mech_pair(cs[j], nn)->0)
}

/// Count mechanism `i`, which joins `p` with correction `m`.
fn count_mechanism(
    entries: &mut Vec<Entry>,
    p: (usize, usize),
    m: (u128, u128),
    Ghost(cs): Ghost<Seq<MechView>>,
    Ghost(nn): Ghost<nat>,
    Ghost(i): Ghost<nat>,
)
    requires
        i < cs.len(),
        i < usize::MAX,
        entries_ok(cs, nn, i, old(entries)@),
        mech_pair(cs[i as int], nn) == Some(p),
        cs[i as int].1 == m,
    ensures
        entries_ok(cs, nn, i + 1, final(entries)@),
        exists|e: int| 0 <= e < final(entries)@.len() && final(entries)@[e].0 == p && final(entries)@[e].1 == m,
        final(entries)@.len() >= old(entries)@.len(),
        forall|e: int| 0 <= e < old(entries)@.len() ==> (#[trigger] final(entries)@[e]).0 == old(entries)@[e].0,
{
    let ghost old_entries = entries@;
    proof {
        assert forall|pp: (usize, usize), mm: (u128, u128)|
            #[trigger] count_mech(cs, nn, pp, mm, i + 1) == count_mech(cs, nn, pp, mm, i) + if pp == p && mm == m {
                1nat
            } else {
                0nat
            } by {
            lemma_count_step(cs, nn, pp, mm, i);
        }
    }
    let mut e: usize = 0;
    while e < entries.len() && !(pair_eq(entries[e].0, p) && corr_eq(entries[e].1, m))
        invariant
            e <= entries@.len(),
            forall|f: int| 0 <= f < e ==> !((#[trigger] entries@[f]).0 == p && entries@[f].1 == m),
        decreases entries@.len() - e,
    {
        e += 1;
    }
    if e < entries.len() {
        let (ep, em, ec) = entries[e];
        proof {
            lemma_count_le(cs, nn, p, m, i);
        }
        entries.set(e, (ep, em, ec + 1));
        proof {
            assert forall|f: int| 0 <= f < entries@.len() implies (#[trigger] entries@[f]).2 == count_mech(
                cs,
                nn,
                entries@[f].0,
                entries@[f].1,
                i + 1,
            ) && entries@[f].2 > 0 by {
                if f != e {
                    assert(entries@[f] == old_entries[f]);
                    assert(count_mech(cs, nn, entries@[f].0, entries@[f].1, i + 1) == count_mech(
                        cs,
                        nn,
                        entries@[f].0,
                        entries@[f].1,
                        i,
                    ) + if entries@[f].0 == p && entries@[f].1 == m {
                        1nat
                    } else {
                        0nat
                    });
                } else {
                    assert(count_mech(cs, nn, p, m, i + 1) == count_mech(cs, nn, p, m, i) + 1);
                }
            }
            assert forall|e1: int, e2: int|
                0 <= e1 < e2 < entries@.len() implies ((#[trigger] entries@[e1]).0, entries@[e1].1) != (
                (#[trigger] entries@[e2]).0,
                entries@[e2].1,
                ) by {
                assert(old_entries[e1].0 == entries@[e1].0 && old_entries[e1].1 == entries@[e1].1);
                assert(old_entries[e2].0 == entries@[e2].0 && old_entries[e2].1 == entries@[e2].1);
            }
            assert forall|pp: (usize, usize), mm: (u128, u128)|
                #[trigger] count_mech(cs, nn, pp, mm, i + 1) > 0 implies exists|f: int|
                    0 <= f < entries@.len() && entries@[f].0 == pp && entries@[f].1 == mm by {
                if count_mech(cs, nn, pp, mm, i) > 0 {
                    let f = choose|f: int| 0 <= f < old_entries.len() && old_entries[f].0 == pp && old_entries[f].1 == mm;
                    assert(entries@[f].0 == old_entries[f].0 && entries@[f].1 == old_entries[f].1);
                } else {
                    assert(pp == p && mm == m);
                    assert(entries@[e as int].0 == pp && entries@[e as int].1 == mm);
                }
            }
            assert(entries@[e as int].0 == p && entries@[e as int].1 == m);
        }
    } else {
        entries.push((p, m, 1));
        proof {
            assert(count_mech(cs, nn, p, m, i) == 0) by {
                if count_mech(cs, nn, p, m, i) > 0 {
                    let f = choose|f: int| 0 <= f < old_entries.len() && old_entries[f].0 == p && old_entries[f].1 == m;
                    assert(!(old_entries[f].0 == p && old_entries[f].1 == m));
                }
            }
            assert(count_mech(cs, nn, p, m, i + 1) == 1);
            assert forall|f: int| 0 <= f < entries@.len() implies (#[trigger] entries@[f]).2 == count_mech(
                cs,
                nn,
                entries@[f].0,
                entries@[f].1,
                i + 1,
            ) && entries@[f].2 > 0 by {
                if f < old_entries.len() {
                    assert(entries@[f] == old_entries[f]);
                    assert(!(old_entries[f].0 == p && old_entries[f].1 == m));
                    assert(count_mech(cs, nn, entries@[f].0, entries@[f].1, i + 1) == count_mech(
                        cs,
                        nn,
                        entries@[f].0,
                        entries@[f].1,
                        i,
                    ) + if entries@[f].0 == p && entries@[f].1 == m {
                        1nat
                    } else {
                        0nat
                    });
                }
            }
            assert forall|e1: int, e2: int|
                0 <= e1 < e2 < entries@.len() implies ((#[trigger] entries@[e1]).0, entries@[e1].1) != (
                (#[trigger] entries@[e2]).0,
                entries@[e2].1,
                ) by {
                assert(entries@[e1] == old_entries[e1]);
                if e2 < old_entries.len() {
                    assert(entries@[e2] == old_entries[e2]);
                }
            }
            assert forall|pp: (usize, usize), mm: (u128, u128)|
                #[trigger] count_mech(cs, nn, pp, mm, i + 1) > 0 implies exists|f: int|
                    0 <= f < entries@.len() && entries@[f].0 == pp && entries@[f].1 == mm by {
                if count_mech(cs, nn, pp, mm, i) > 0 {
                    let f = choose|f: int| 0 <= f < old_entries.len() && old_entries[f].0 == pp && old_entries[f].1 == mm;
                    assert(entries@[f] == old_entries[f]);
                } else {
                    assert(pp == p && mm == m);
                    assert(entries@[old_entries.len() as int].0 == pp);
                }
            }
            assert(entries@[old_entries.len() as int].0 == p && entries@[old_entries.len() as int].1 == m);
        }
    }
}

/// Add `p` to a sorted list of pairs, if it is not there yet.
fn note_pair(pairs: &mut Vec<(usize, usize)>, p: (usize, usize))
    requires
        sorted_pairs(old(pairs)@),
    ensures
        sorted_pairs(final(pairs)@),
        final(pairs)@.len() <= old(pairs)@.len() + 1,
        forall|q: (usize, usize)| #[trigger] has_pair(final(pairs)@, q) <==> has_pair(old(pairs)@, q) || q == p,
{
    let ghost old_pairs = pairs@;
    let mut a: usize = 0;
    while a < pairs.len() && pair_lt_exec(pairs[a], p)
        invariant
            a <= pairs@.len(),
            forall|b: int| 0 <= b < a ==> pair_lt(#[trigger] pairs@[b], p),
        decreases pairs@.len() - a,
    {
        a += 1;
    }
    if a < pairs.len() && pair_eq(pairs[a], p) {
        proof {
            assert(pairs@[a as int] == p);
        }
    } else {
        pairs.insert(a, p);
        proof {
            assert forall|x: int, y: int| 0 <= x < y < pairs@.len() implies pair_lt(
                #[trigger] pairs@[x],
                #[trigger] pairs@[y],
            ) by {
                if y < a {
                    assert(pairs@[x] == old_pairs[x] && pairs@[y] == old_pairs[y]);
                } else if y == a {
                    assert(pairs@[x] == old_pairs[x]);
                } else if x < a {
                    assert(pairs@[x] == old_pairs[x] && pairs@[y] == old_pairs[y - 1]);
                    assert(!pair_lt(old_pairs[a as int], p));
                    assert(old_pairs[a as int] != p);
                    if y - 1 > a {
                        assert(pair_lt(old_pairs[a as int], old_pairs[y - 1]));
                    }
                } else if x == a {
                    assert(pairs@[y] == old_pairs[y - 1]);
                    assert(!pair_lt(old_pairs[a as int], p));
                    assert(old_pairs[a as int] != p);
                    if y - 1 > a {
                        assert(pair_lt(old_pairs[a as int], old_pairs[y - 1]));
                    }
                } else {
                    assert(pairs@[x] == old_pairs[x - 1] && pairs@[y] == old_pairs[y - 1]);
                }
            }
            assert forall|q: (usize, usize)| #[trigger] has_pair(pairs@, q) <==> has_pair(old_pairs, q) || q == p by {
                if has_pair(old_pairs, q) {
                    let b = choose|b: int| 0 <= b < old_pairs.len() && old_pairs[b] == q;
                    if b < a {
                        assert(pairs@[b] == q);
                    } else {
                        assert(pairs@[b + 1] == q);
                    }
                }
                if q == p {
                    assert(pairs@[a as int] == p);
                }
                if has_pair(pairs@, q) {
                    let c = choose|c: int| 0 <= c < pairs@.len() && pairs@[c] == q;
                    if c < a {
                        assert(old_pairs[c] == q);
                    } else if c > a {
                        assert(old_pairs[c - 1] == q);
                    }
                }
            }
        }
    }
}

proof fn lemma_count_none(cs: Seq<MechView>, nn: nat, i: nat)
    requires
        i < cs.len(),
        mech_pair(cs[i as int], nn) is None,
    ensures
        forall|p: (usize, usize), m: (u128, u128)| #[trigger] count_mech(cs, nn, p, m, i + 1) == count_mech(cs, nn, p, m, i),
{
    assert forall|p: (usize, usize), m: (u128, u128)| #[trigger] count_mech(cs, nn, p, m, i + 1) == count_mech(cs, nn, p, m, i) by {
        lemma_count_step(cs, nn, p, m, i);
    }
}

proof fn lemma_pairs_none(cs: Seq<MechView>, nn: nat, i: nat, pairs: Seq<(usize, usize)>, entries: Seq<Entry>)
    requires
        i < cs.len(),
        mech_pair(cs[i as int], nn) is None,
        pairs_ok(cs, nn, i, pairs, entries),
    ensures
        pairs_ok(cs, nn, i + 1, pairs, entries),
{
    assert forall|j: int|
        0 <= j < i + 1 && (#[trigger] mech_pair(cs[j], nn)) is Some implies has_pair(pairs, mech_pair(cs[j], nn)->0) by {
        if j < i {
        } else {
            assert(j == i);
        }
    }
}

proof fn lemma_entries_none(cs: Seq<MechView>, nn: nat, i: nat, entries: Seq<Entry>)
    requires
        i < cs.len(),
        mech_pair(cs[i as int], nn) is None,
        entries_ok(cs, nn, i, entries),
    ensures
        entries_ok(cs, nn, i + 1, entries),
{
    lemma_count_none(cs, nn, i);
    assert forall|e: int| 0 <= e < entries.len() implies (#[trigger] entries[e]).2 == count_mech(
        cs,
        nn,
        entries[e].0,
        entries[e].1,
        i + 1,
    ) && entries[e].2 > 0 by {}
    assert forall|p: (usize, usize), m: (u128, u128)|
        #[trigger] count_mech(cs, nn, p, m, i + 1) > 0 implies exists|e: int|
            0 <= e < entries.len() && entries[e].0 == p && entries[e].1 == m by {
        assert(count_mech(cs, nn, p, m, i) > 0);
    }
}

/// Count the mechanisms per node pair and correction, keep one edge per
/// pair with its most frequent correction (ties to the smaller), and list
/// per erasure site the edges it can produce.
fn tally(cands: &Vec<Mechanism>, nn: usize, num_sites: usize) -> (res: (
    Vec<(usize, usize)>,
    Vec<(u128, u128)>,
    Vec<Vec<usize>>,
))
    requires
        forall|i: int| 0 <= i < cands@.len() ==> (#[trigger] cands@[i]).2 < num_sites,
    ensures
        tally_ok(cands_view(cands@), nn as nat, res.0@, res.1@),
        res.0@.len() <= cands@.len(),
        res.2@.len() == num_sites,
        forall|s: int|
            0 <= s < num_sites ==> (#[trigger] res.2@[s])@ == site_ids(
                cands_view(cands@),
                nn as nat,
                res.0@,
                s as nat,
                cands@.len(),
            ),
{
    let ghost cs = cands_view(cands@);
    let mut pairs: Vec<(usize, usize)> = Vec::new();
    let mut entries: Vec<Entry> = Vec::new();
    for i in 0..cands.len()
        invariant
            cs == cands_view(cands@),
            entries_ok(cs, nn as nat, i as nat, entries@),
            pairs_ok(cs, nn as nat, i as nat, pairs@, entries@),
            pairs@.len() <= i,
    {
        if let Some(p) = endpoints_exec(&cands[i].0, nn) {
            let m = cands[i].1;
            let ghost old_pairs = pairs@;
            let ghost old_entries = entries@;
            count_mechanism(&mut entries, p, m, Ghost(cs), Ghost(nn as nat), Ghost(i as nat));
            note_pair(&mut pairs, p);
            proof {
                assert forall|a: int| 0 <= a < pairs@.len() implies has_entry(entries@, #[trigger] pairs@[a]) by {
                    assert(has_pair(pairs@, pairs@[a]));
                    if pairs@[a] != p {
                        assert(has_pair(old_pairs, pairs@[a]));
                        let b = choose|b: int| 0 <= b < old_pairs.len() && old_pairs[b] == pairs@[a];
                        assert(has_entry(old_entries, old_pairs[b]));
                        let e = choose|e: int| 0 <= e < old_entries.len() && old_entries[e].0 == old_pairs[b];
                        assert(entries@[e].0 == old_entries[e].0);
                    }
                }
                assert forall|j: int|
                    0 <= j < i + 1 && (#[trigger] mech_pair(cs[j], nn as nat)) is Some implies has_pair(
                        pairs@,
                        mech_pair(cs[j], nn as nat)->0,
                    ) by {
                    if j < i {
                        assert(has_pair(old_pairs, mech_pair(cs[j], nn as nat)->0));
                    }
                }
                assert(sorted_pairs(pairs@));
                assert(pairs_ok(cs, nn as nat, (i + 1) as nat, pairs@, entries@));
            }
        } else {
            proof {
                assert(mech_pair(cs[i as int], nn as nat) is None);
                lemma_pairs_none(cs, nn as nat, i as nat, pairs@, entries@);
                lemma_entries_none(cs, nn as nat, i as nat, entries@);
            }
        }
    }

    // The most frequent correction of each pair.
    let mut best: Vec<(u128, u128)> = Vec::new();
    for k in 0..pairs.len()
        invariant
            cs == cands_view(cands@),
            best@.len() == k,
            entries_ok(cs, nn as nat, cs.len(), entries@),
            pairs_ok(cs, nn as nat, cs.len(), pairs@, entries@),
            forall|j: int| 0 <= j < k ==> is_best(cs, nn as nat, #[trigger] pairs@[j], best@[j]),
    {
        let p = pairs[k];
        let mut have = false;
        let mut bm: (u128, u128) = (0, 0);
        let mut bc: usize = 0;
        for e in 0..entries.len()
            invariant
                p == pairs@[k as int],
                forall|e: int|
                    0 <= e < entries@.len() ==> (#[trigger] entries@[e]).2 == count_mech(
                        cs,
                        nn as nat,
                        entries@[e].0,
                        entries@[e].1,
                        cs.len(),
                    ) && entries@[e].2 > 0,
                have ==> bc == count_mech(cs, nn as nat, p, bm, cs.len()) && bc > 0,
                have <==> exists|f: int| 0 <= f < e && entries@[f].0 == p,
                have ==> forall|f: int|
                    0 <= f < e && (#[trigger] entries@[f]).0 == p ==> entries@[f].2 < bc || (entries@[f].2 == bc
                        && corr_le(bm, entries@[f].1)),
        {
            let (ep, em, ec) = entries[e];
            if pair_eq(ep, p) {
                if !have || ec > bc || (ec == bc && corr_lt_exec(em, bm)) {
                    have = true;
                    bm = em;
                    bc = ec;
                }
            }
        }
        proof {
            assert(has_entry(entries@, pairs@[k as int]));
            let f0 = choose|f: int| 0 <= f < entries@.len() && entries@[f].0 == p;
            assert(have);
            assert forall|m: (u128, u128)|
                #[trigger] count_mech(cs, nn as nat, p, m, cs.len()) < count_mech(cs, nn as nat, p, bm, cs.len()) || (
                count_mech(cs, nn as nat, p, m, cs.len()) == count_mech(cs, nn as nat, p, bm, cs.len()) && corr_le(
                    bm,
                    m,
                )) by {
                if count_mech(cs, nn as nat, p, m, cs.len()) > 0 {
                    let f = choose|f: int| 0 <= f < entries@.len() && entries@[f].0 == p && entries@[f].1 == m;
                    assert(entries@[f].0 == p);
                }
            }
        }
        best.push(bm);
    }

    // Per erasure site, the edges it can produce.
    let mut site_edges: Vec<Vec<usize>> = Vec::new();
    for s in 0..num_sites
        invariant
            site_edges@.len() == s,
            forall|t: int| 0 <= t < s ==> (#[trigger] site_edges@[t])@ == site_ids(cs, nn as nat, pairs@, t as nat, 0),
    {
        site_edges.push(Vec::new());
        proof {
            assert(site_edges@[s as int]@ =~= site_ids(cs, nn as nat, pairs@, s as nat, 0));
        }
    }
    for i in 0..cands.len()
        invariant
            cs == cands_view(cands@),
            forall|i: int| 0 <= i < cs.len() ==> (#[trigger] cs[i]).2 < num_sites,
            site_edges@.len() == num_sites,
            pairs_ok(cs, nn as nat, cs.len(), pairs@, entries@),
            forall|t: int| 0 <= t < num_sites ==> (#[trigger] site_edges@[t])@ == site_ids(cs, nn as nat, pairs@, t as nat, i as nat),
    {
        let site = cands[i].2;
        if let Some(p) = endpoints_exec(&cands[i].0, nn) {
            proof {
                assert(mech_pair(cs[i as int], nn as nat) is Some);
            }
            let mut id: usize = 0;
            while id < pairs.len() && !pair_eq(pairs[id], p)
                invariant
                    id <= pairs@.len(),
                    forall|b: int| 0 <= b < id ==> pairs@[b] != p,
                decreases pairs@.len() - id,
            {
                id += 1;
            }
            proof {
                assert(has_pair(pairs@, p));
                assert(id < pairs@.len());
                let c = edge_of(pairs@, p);
                assert(0 <= c < pairs@.len() && pairs@[c] == p);
                if c < id {
                } else if c > id {
                    assert(pair_lt(pairs@[id as int], pairs@[c]));
                }
                assert(c == id);
            }
            let ghost before = site_edges@;
            let mut lst = site_edges.remove(site);
            if !contains_usize(&lst, id) {
                lst.push(id);
            }
            site_edges.insert(site, lst);
            proof {
                assert forall|t: int| 0 <= t < num_sites implies (#[trigger] site_edges@[t])@ == site_ids(
                    cs,
                    nn as nat,
                    pairs@,
                    t as nat,
                    (i + 1) as nat,
                ) by {
                    if t != site {
                        assert(site_edges@[t] == before[t]);
                    }
                }
            }
        } else {
            proof {
                assert forall|t: int| 0 <= t < num_sites implies (#[trigger] site_edges@[t])@ == site_ids(
                    cs,
                    nn as nat,
                    pairs@,
                    t as nat,
                    (i + 1) as nat,
                ) by {}
            }
        }
    }
    (pairs, best, site_edges)
}

/// Bit `i` is the lowest set bit of `m`.
pub open spec fn lowest_bit(m: u128, i: u128) -> bool {
    i < 128 && bit(m, i) && forall|j: u128| j < i ==> !#[trigger] bit(m, j)
}

/// The representative qubit of a correction mask: its lowest set bit, or
/// none for an empty mask.
pub open spec fn representative_of(r: Option<usize>, m: u128) -> bool {
    if m == 0 {
        r is None
    } else {
        r matches Some(q) && lowest_bit(m, q as u128)
    }
}

/// The node pairs of a list of edges.
pub open spec fn edge_pairs(edges: Seq<Edge>) -> Seq<(usize, usize)> {
    Seq::new(edges.len(), |k: int| (edges[k].u, edges[k].v))
}

/// Index of the lowest set bit of a non-zero mask.
fn lowest_bit_exec(m: u128) -> (r: usize)
    requires
        m != 0,
    ensures
        lowest_bit(m, r as u128),
        r < 128,
{
    let mut i: u32 = 0;
    while i < 128 && !get_bit(m, i)
        invariant
            i <= 128,
            forall|j: u128| j < i ==> !#[trigger] bit(m, j),
        decreases 128 - i,
    {
        i += 1;
    }
    if i == 128 {
        proof {
            crate::bits::lemma_no_bits_zero(m);
        }
    }
    i as usize
}

proof fn lemma_count_witness(cs: Seq<MechView>, nn: nat, p: (usize, usize), m: (u128, u128), k: nat)
    requires
        count_mech(cs, nn, p, m, k) > 0,
    ensures
        exists|i: int| 0 <= i < k && mech_pair(cs[i], nn) == Some(p),
    decreases k,
{
    if k > 0 {
        if count_mech(cs, nn, p, m, (k - 1) as nat) > 0 {
            lemma_count_witness(cs, nn, p, m, (k - 1) as nat);
        } else {
            assert(mech_pair(cs[k - 1], nn) == Some(p));
        }
    }
}

/// Every mechanism's detectors are nodes of the graph.
pub open spec fn mechs_ok(cs: Seq<MechView>, nn: nat, sites: nat) -> bool {
    forall|i: int|
        0 <= i < cs.len() ==> (#[trigger] cs[i]).2 < sites && forall|j: int| 0 <= j < cs[i].0.len() ==> cs[i].0[j] < nn
}

/// The edges of a tally: each node pair becomes edge number `k`.
fn edges_from_pairs(pairs: &Vec<(usize, usize)>, Ghost(cs): Ghost<Seq<MechView>>, nn: usize, Ghost(best): Ghost<
    Seq<(u128, u128)>,
>) -> (edges: Vec<Edge>)
    requires
        tally_ok(cs, nn as nat, pairs@, best),
        forall|i: int|
            0 <= i < cs.len() ==> forall|j: int| 0 <= j < (#[trigger] cs[i]).0.len() ==> cs[i].0[j] < nn,
    ensures
        edge_pairs(edges@) == pairs@,
        forall|k: int| 0 <= k < edges@.len() ==> (#[trigger] edges@[k]).id == k,
        forall|k: int| 0 <= k < edges@.len() ==> (#[trigger] edges@[k]).u <= nn && edges@[k].v <= nn,
{
    let mut edges: Vec<Edge> = Vec::new();
    for k in 0..pairs.len()
        invariant
            tally_ok(cs, nn as nat, pairs@, best),
            forall|i: int|
                0 <= i < cs.len() ==> forall|j: int| 0 <= j < (#[trigger] cs[i]).0.len() ==> cs[i].0[j] < nn,
            edges@.len() == k,
            forall|x: int| 0 <= x < k ==> (#[trigger] edges@[x]).u == pairs@[x].0 && edges@[x].v == pairs@[x].1,
            forall|x: int| 0 <= x < k ==> (#[trigger] edges@[x]).id == x,
            forall|x: int| 0 <= x < k ==> (#[trigger] edges@[x]).u <= nn && edges@[x].v <= nn,
    {
        let (u, v) = pairs[k];
        proof {
            assert(is_best(cs, nn as nat, pairs@[k as int], best[k as int]));
            lemma_count_witness(cs, nn as nat, pairs@[k as int], best[k as int], cs.len());
            let i = choose|i: int| 0 <= i < cs.len() && mech_pair(cs[i], nn as nat) == Some(pairs@[k as int]);
            assert(cs[i].0.len() == 1 || cs[i].0.len() == 2);
            assert(cs[i].0[0] < nn);
            if cs[i].0.len() == 2 {
                assert(cs[i].0[1] < nn);
            }
        }
        edges.push(Edge { u, v, id: k });
    }
    proof {
        assert(edge_pairs(edges@) =~= pairs@);
    }
    edges
}

/// A decoding graph derived from the circuit, with the correction each edge
/// implies. An edge may touch several data qubits: that is the hook error a
/// phenomenological graph cannot express.
pub struct DetectorGraph {
    pub graph: SyndromeGraph,
    /// Data qubits each edge corrects, as a bitmask.
    pub correction: Vec<u128>,
    /// For each erasure site, the edges that become free when it is erased.
    pub site_edges: Vec<Vec<usize>>,
}

impl DetectorGraph {
    /// One edge per node pair the mechanisms join, in increasing pair order,
    /// numbered in order, each with the most frequent correction (ties to the
    /// smaller mask) and that correction's lowest qubit as representative;
    /// and per site the edges its mechanisms produce, in order of first
    /// appearance.
    pub open spec fn assembled_from(&self, cs: Seq<MechView>, nn: nat, sites: nat) -> bool {
        let edges = self.graph.edges@;
        &&& self.graph.num_nodes == nn
        &&& self.graph.edge_to_qubit@.len() == edges.len()
        &&& self.correction@.len() == edges.len()
        &&& forall|k: int|
            0 <= k < edges.len() ==> (#[trigger] edges[k]).id == k && representative_of(
                self.graph.edge_to_qubit@[k],
                self.correction@[k],
            )
        &&& tally_ok(cs, nn, edge_pairs(edges), Seq::new(edges.len(), |k: int| (self.correction@[k], 0u128)))
        &&& self.site_edges@.len() == sites
        &&& forall|s: int|
            0 <= s < sites ==> (#[trigger] self.site_edges@[s])@ == site_ids(cs, nn, edge_pairs(edges), s as nat, cs.len())
    }
}

/// Collect the edges of one graph from its mechanisms, keeping track of which
/// erasure site each came from so a located loss can name the edges it makes
/// free.
fn assemble(candidates: Vec<Mechanism>, num_nodes: usize, num_sites: usize) -> (dg: DetectorGraph)
    requires
        num_nodes < usize::MAX,
        mechs_ok(cands_view(candidates@), num_nodes as nat, num_sites as nat),
        forall|i: int| 0 <= i < candidates@.len() ==> (#[trigger] candidates@[i]).1.1 == 0,
    ensures
        dg.assembled_from(cands_view(candidates@), num_nodes as nat, num_sites as nat),
        dg.graph.well_formed(),
        dg.graph.edges@.len() <= candidates@.len(),
{
    let ghost cs = cands_view(candidates@);
    proof {
        assert forall|i: int| 0 <= i < candidates@.len() implies (#[trigger] candidates@[i]).2 < num_sites by {
            assert(cs[i] == mech_view(candidates@[i]));
        }
    }
    let (pairs, best, site_edges) = tally(&candidates, num_nodes, num_sites);
    let edges = edges_from_pairs(&pairs, Ghost(cs), num_nodes, Ghost(best@));
    let mut correction: Vec<u128> = Vec::new();
    let mut edge_to_qubit: Vec<Option<usize>> = Vec::new();
    for k in 0..best.len()
        invariant
            tally_ok(cs, num_nodes as nat, pairs@, best@),
            forall|i: int| 0 <= i < cs.len() ==> (#[trigger] cs[i]).1.1 == 0,
            correction@.len() == k,
            edge_to_qubit@.len() == k,
            forall|x: int| 0 <= x < k ==> (#[trigger] correction@[x]) == best@[x].0,
            forall|x: int| 0 <= x < k ==> (#[trigger] best@[x]).1 == 0,
            forall|x: int| 0 <= x < k ==> representative_of(#[trigger] edge_to_qubit@[x], correction@[x]),
    {
        let (m, _) = best[k];
        proof {
            assert(is_best(cs, num_nodes as nat, pairs@[k as int], best@[k as int]));
            lemma_count_witness_mask(cs, num_nodes as nat, pairs@[k as int], best@[k as int], cs.len());
            let i = choose|i: int| 0 <= i < cs.len() && cs[i].1 == best@[k as int];
            assert(cs[i].1.1 == 0);
            assert(best@[k as int].1 == 0);
        }
        // The matcher's bookkeeping wants a representative qubit; the real
        // correction is the mask alongside.
        let representative = if m == 0 {
            None
        } else {
            Some(lowest_bit_exec(m))
        };
        correction.push(m);
        edge_to_qubit.push(representative);
        proof {
            assert(correction@[k as int] == best@[k as int].0);
        }
    }
    proof {
        assert(Seq::new(edges@.len(), |k: int| (correction@[k], 0u128)) =~= best@);
    }
    DetectorGraph { graph: SyndromeGraph { num_nodes, edges, edge_to_qubit }, correction, site_edges }
}

proof fn lemma_count_witness_mask(cs: Seq<MechView>, nn: nat, p: (usize, usize), m: (u128, u128), k: nat)
    requires
        count_mech(cs, nn, p, m, k) > 0,
    ensures
        exists|i: int| 0 <= i < k && cs[i].1 == m,
    decreases k,
{
    if k > 0 {
        if count_mech(cs, nn, p, m, (k - 1) as nat) > 0 {
            lemma_count_witness_mask(cs, nn, p, m, (k - 1) as nat);
        } else {
            assert(cs[k - 1].1 == m);
        }
    }
}

/* ---------------------------------------------------------------------- */
/* The model                                                              */
/* ---------------------------------------------------------------------- */

/// The state after propagating `fault`, injected in `round`, through
/// `rounds_total` rounds of the layout's circuit.
pub open spec fn effect_spec(layout: CircuitLayout, fault: Fault, round: nat, rounds_total: nat) -> PropState {
    prop_rounds(
        layout.program@,
        clean_state(
            layout.num_qubits as nat,
            (layout.num_x_stabs * rounds_total) as nat,
            (layout.num_z_stabs * rounds_total) as nat,
        ),
        rounds_total,
        fault,
        round,
        layout.num_x_stabs as nat,
        layout.num_z_stabs as nat,
    )
}

/// Bitwise XOR of two bit sequences.
pub open spec fn bits_xor(a: Seq<bool>, b: Seq<bool>) -> Seq<bool> {
    Seq::new(a.len(), |i: int| a[i] != b[i])
}

/// Component-wise XOR of two propagation states.
pub open spec fn state_xor(a: PropState, b: PropState) -> PropState {
    (bits_xor(a.0, b.0), bits_xor(a.1, b.1), bits_xor(a.2, b.2), bits_xor(a.3, b.3))
}

/// Two states of the same shape: `nq` qubits and `lx`, `lz` recorded outcomes.
pub open spec fn shaped(a: PropState, nq: nat, lx: nat, lz: nat) -> bool {
    a.0.len() == nq && a.1.len() == nq && a.2.len() == lx && a.3.len() == lz
}

proof fn lemma_prop_op_y(
    sy: PropState,
    sx: PropState,
    sz: PropState,
    op: Op,
    i: nat,
    r: nat,
    at: usize,
    round: nat,
    nx: nat,
    nz: nat,
    nq: nat,
    rounds: nat,
)
    requires
        shaped(sx, nq, nx * rounds, nz * rounds),
        shaped(sz, nq, nx * rounds, nz * rounds),
        sy == state_xor(sx, sz),
        op_ok(op, nq, nx, nz),
        r < rounds,
    ensures
        shaped(prop_op(sx, op, i, r, Fault::Gate(at, 1), round, nx, nz), nq, nx * rounds, nz * rounds),
        shaped(prop_op(sz, op, i, r, Fault::Gate(at, 2), round, nx, nz), nq, nx * rounds, nz * rounds),
        prop_op(sy, op, i, r, Fault::Gate(at, 3), round, nx, nz) == state_xor(
            prop_op(sx, op, i, r, Fault::Gate(at, 1), round, nx, nz),
            prop_op(sz, op, i, r, Fault::Gate(at, 2), round, nx, nz),
        ),
{
    lemma_pauli_bits();
    let ax = prop_op(sx, op, i, r, Fault::Gate(at, 1), round, nx, nz);
    let az = prop_op(sz, op, i, r, Fault::Gate(at, 2), round, nx, nz);
    let ay = prop_op(sy, op, i, r, Fault::Gate(at, 3), round, nx, nz);
    match op {
        Op::Measure(q, kind, idx) => {
            match kind {
                StabKind::X => {
                    assert(r * nx + idx < nx * rounds) by (nonlinear_arith)
                        requires
                            r < rounds,
                            idx < nx,
                    ;
                },
                StabKind::Z => {
                    assert(r * nz + idx < nz * rounds) by (nonlinear_arith)
                        requires
                            r < rounds,
                            idx < nz,
                    ;
                },
            }
        },
        _ => {},
    }
    assert(ay.0 =~= state_xor(ax, az).0);
    assert(ay.1 =~= state_xor(ax, az).1);
    assert(ay.2 =~= state_xor(ax, az).2);
    assert(ay.3 =~= state_xor(ax, az).3);
}

proof fn lemma_prop_round_y(
    prog: Seq<Op>,
    sy: PropState,
    sx: PropState,
    sz: PropState,
    r: nat,
    k: nat,
    at: usize,
    round: nat,
    nx: nat,
    nz: nat,
    nq: nat,
    rounds: nat,
)
    requires
        k <= prog.len(),
        forall|j: int| 0 <= j < prog.len() ==> op_ok(#[trigger] prog[j], nq, nx, nz),
        shaped(sx, nq, nx * rounds, nz * rounds),
        shaped(sz, nq, nx * rounds, nz * rounds),
        sy == state_xor(sx, sz),
        r < rounds,
    ensures
        shaped(prop_round(prog, sx, r, k, Fault::Gate(at, 1), round, nx, nz), nq, nx * rounds, nz * rounds),
        shaped(prop_round(prog, sz, r, k, Fault::Gate(at, 2), round, nx, nz), nq, nx * rounds, nz * rounds),
        prop_round(prog, sy, r, k, Fault::Gate(at, 3), round, nx, nz) == state_xor(
            prop_round(prog, sx, r, k, Fault::Gate(at, 1), round, nx, nz),
            prop_round(prog, sz, r, k, Fault::Gate(at, 2), round, nx, nz),
        ),
    decreases k,
{
    if k > 0 {
        lemma_prop_round_y(prog, sy, sx, sz, r, (k - 1) as nat, at, round, nx, nz, nq, rounds);
        lemma_prop_op_y(
            prop_round(prog, sy, r, (k - 1) as nat, Fault::Gate(at, 3), round, nx, nz),
            prop_round(prog, sx, r, (k - 1) as nat, Fault::Gate(at, 1), round, nx, nz),
            prop_round(prog, sz, r, (k - 1) as nat, Fault::Gate(at, 2), round, nx, nz),
            prog[k - 1],
            (k - 1) as nat,
            r,
            at,
            round,
            nx,
            nz,
            nq,
            rounds,
        );
    }
}

proof fn lemma_prop_rounds_y(
    prog: Seq<Op>,
    sy: PropState,
    sx: PropState,
    sz: PropState,
    k: nat,
    at: usize,
    round: nat,
    nx: nat,
    nz: nat,
    nq: nat,
    rounds: nat,
)
    requires
        k <= rounds,
        forall|j: int| 0 <= j < prog.len() ==> op_ok(#[trigger] prog[j], nq, nx, nz),
        shaped(sx, nq, nx * rounds, nz * rounds),
        shaped(sz, nq, nx * rounds, nz * rounds),
        sy == state_xor(sx, sz),
    ensures
        shaped(prop_rounds(prog, sx, k, Fault::Gate(at, 1), round, nx, nz), nq, nx * rounds, nz * rounds),
        shaped(prop_rounds(prog, sz, k, Fault::Gate(at, 2), round, nx, nz), nq, nx * rounds, nz * rounds),
        prop_rounds(prog, sy, k, Fault::Gate(at, 3), round, nx, nz) == state_xor(
            prop_rounds(prog, sx, k, Fault::Gate(at, 1), round, nx, nz),
            prop_rounds(prog, sz, k, Fault::Gate(at, 2), round, nx, nz),
        ),
    decreases k,
{
    if k > 0 {
        lemma_prop_rounds_y(prog, sy, sx, sz, (k - 1) as nat, at, round, nx, nz, nq, rounds);
        lemma_prop_round_y(
            prog,
            prop_rounds(prog, sy, (k - 1) as nat, Fault::Gate(at, 3), round, nx, nz),
            prop_rounds(prog, sx, (k - 1) as nat, Fault::Gate(at, 1), round, nx, nz),
            prop_rounds(prog, sz, (k - 1) as nat, Fault::Gate(at, 2), round, nx, nz),
            (k - 1) as nat,
            prog.len(),
            at,
            round,
            nx,
            nz,
            nq,
            rounds,
        );
    }
}

/// A Y fault is an X fault and a Z fault together: what propagating a Y at a
/// noise location does to the frame and to every recorded outcome is the XOR
/// of what the X and the Z there do.
pub proof fn lemma_y_fault_composes(layout: CircuitLayout, at: usize, round: nat, rounds_total: nat)
    requires
        layout.wf(),
    ensures
        effect_spec(layout, Fault::Gate(at, 3), round, rounds_total) == state_xor(
            effect_spec(layout, Fault::Gate(at, 1), round, rounds_total),
            effect_spec(layout, Fault::Gate(at, 2), round, rounds_total),
        ),
{
    let nq = layout.num_qubits as nat;
    let nx = layout.num_x_stabs as nat;
    let nz = layout.num_z_stabs as nat;
    let c = clean_state(nq, (nx * rounds_total) as nat, (nz * rounds_total) as nat);
    assert(c.0 =~= state_xor(c, c).0);
    assert(c.1 =~= state_xor(c, c).1);
    assert(c.2 =~= state_xor(c, c).2);
    assert(c.3 =~= state_xor(c, c).3);
    assert(c == state_xor(c, c));
    lemma_prop_rounds_y(layout.program@, c, c, c, rounds_total, at, round, nx, nz, nq, rounds_total);
}

/// The erasure site of a fault slot in a noisy round; readout flips share a
/// sentinel site, `sites`, that no erasure names.
pub open spec fn site_of(slot: Option<usize>, round: nat, noise_slots: nat, sites: nat) -> usize {
    match slot {
        Some(k) => ((round - 1) * noise_slots + k) as usize,
        None => sites as usize,
    }
}

/// The mechanism one fault contributes to one graph of the CSS model, if it
/// fires one or two detectors there: X errors show up in the Z-stabilizer
/// detectors, Z errors in the X-stabilizer ones.
pub open spec fn css_mech(
    layout: CircuitLayout,
    rounds_total: nat,
    noise_slots: nat,
    sites: nat,
    round: nat,
    loc: (Fault, Option<usize>),
    for_x: bool,
) -> Option<MechView> {
    let eff = effect_spec(layout, loc.0, round, rounds_total);
    let d = if for_x {
        detectors_spec(eff.3, layout.num_z_stabs as nat, rounds_total)
    } else {
        detectors_spec(eff.2, layout.num_x_stabs as nat, rounds_total)
    };
    let corr = if for_x {
        to_mask(eff.0, layout.num_data as nat)
    } else {
        to_mask(eff.1, layout.num_data as nat)
    };
    if 1 <= d.len() <= 2 {
        Some((d, (corr, 0u128), site_of(loc.1, round, noise_slots, sites)))
    } else {
        None
    }
}

/// The CSS mechanisms of the first `k` fault locations of `round`.
pub open spec fn css_round(
    layout: CircuitLayout,
    rounds_total: nat,
    noise_slots: nat,
    sites: nat,
    round: nat,
    for_x: bool,
    k: nat,
) -> Seq<MechView>
    decreases k,
{
    if k == 0 {
        seq![]
    } else {
        let prev = css_round(layout, rounds_total, noise_slots, sites, round, for_x, (k - 1) as nat);
        let loc = locations(layout.program@, layout.program@.len())[k - 1];
        match css_mech(layout, rounds_total, noise_slots, sites, round, loc, for_x) {
            Some(m) => prev.push(m),
            None => prev,
        }
    }
}

proof fn lemma_css_round_step(
    layout: CircuitLayout,
    rounds_total: nat,
    noise_slots: nat,
    sites: nat,
    round: nat,
    for_x: bool,
    k: nat,
)
    ensures
        css_round(layout, rounds_total, noise_slots, sites, round, for_x, k + 1) == match css_mech(
            layout,
            rounds_total,
            noise_slots,
            sites,
            round,
            locations(layout.program@, layout.program@.len())[k as int],
            for_x,
        ) {
            Some(m) => css_round(layout, rounds_total, noise_slots, sites, round, for_x, k).push(m),
            None => css_round(layout, rounds_total, noise_slots, sites, round, for_x, k),
        },
{
}

/// The CSS mechanisms of noisy rounds `1..=rounds`.
pub open spec fn css_mechs(
    layout: CircuitLayout,
    rounds_total: nat,
    noise_slots: nat,
    sites: nat,
    for_x: bool,
    rounds: nat,
) -> Seq<MechView>
    decreases rounds,
{
    if rounds == 0 {
        seq![]
    } else {
        css_mechs(layout, rounds_total, noise_slots, sites, for_x, (rounds - 1) as nat) + css_round(
            layout,
            rounds_total,
            noise_slots,
            sites,
            rounds,
            for_x,
            locations(layout.program@, layout.program@.len()).len(),
        )
    }
}

/// The layout and round count are small enough for the model's tables.
pub open spec fn model_fits(layout: CircuitLayout, num_rounds: nat) -> bool {
    (num_rounds + 2) * (layout.program@.len() + layout.num_qubits + layout.num_x_stabs + layout.num_z_stabs + 1)
        <= usize::MAX / 8
}

proof fn lemma_model_fits(layout: CircuitLayout, num_rounds: nat)
    requires
        model_fits(layout, num_rounds),
    ensures
        (num_rounds + 2) * layout.num_x_stabs <= usize::MAX / 8,
        (num_rounds + 2) * layout.num_z_stabs <= usize::MAX / 8,
        (num_rounds + 1) * layout.num_x_stabs <= usize::MAX / 8,
        (num_rounds + 1) * layout.num_z_stabs <= usize::MAX / 8,
        num_rounds * layout.program@.len() <= usize::MAX / 8,
        (num_rounds + 2) * layout.program@.len() <= usize::MAX / 8,
        layout.program@.len() <= usize::MAX / 8,
        num_rounds <= usize::MAX / 8,
{
    let n = (layout.program@.len() + layout.num_qubits + layout.num_x_stabs + layout.num_z_stabs + 1);
    assert((num_rounds + 2) * layout.num_x_stabs <= (num_rounds + 2) * n) by (nonlinear_arith)
        requires
            layout.num_x_stabs <= n,
    ;
    assert((num_rounds + 2) * layout.num_z_stabs <= (num_rounds + 2) * n) by (nonlinear_arith)
        requires
            layout.num_z_stabs <= n,
    ;
    assert((num_rounds + 1) * layout.num_x_stabs <= (num_rounds + 2) * layout.num_x_stabs) by (nonlinear_arith);
    assert((num_rounds + 1) * layout.num_z_stabs <= (num_rounds + 2) * layout.num_z_stabs) by (nonlinear_arith);
    assert((num_rounds + 2) * layout.program@.len() <= (num_rounds + 2) * n) by (nonlinear_arith)
        requires
            layout.program@.len() <= n,
    ;
    assert(num_rounds * layout.program@.len() <= (num_rounds + 2) * layout.program@.len()) by (nonlinear_arith);
    assert(layout.program@.len() <= (num_rounds + 2) * layout.program@.len()) by (nonlinear_arith);
    assert(num_rounds <= (num_rounds + 2) * n) by (nonlinear_arith)
        requires
            n >= 1,
    ;
}

/// What the locations of a program are made of: gate faults at noise ops,
/// with slots below the noise count, and readout flips at measurements.
proof fn lemma_locations_props(prog: Seq<Op>, k: nat)
    requires
        k <= prog.len(),
    ensures
        forall|j: int|
            0 <= j < locations(prog, k).len() ==> match #[trigger] locations(prog, k)[j].1 {
                Some(sl) => sl < noise_count(prog, k),
                None => true,
            },
    decreases k,
{
    if k > 0 {
        lemma_locations_props(prog, (k - 1) as nat);
        let i = (k - 1) as nat;
        let prev = locations(prog, i);
        assert forall|j: int|
            0 <= j < locations(prog, k).len() implies match #[trigger] locations(prog, k)[j].1 {
                Some(sl) => sl < noise_count(prog, k),
                None => true,
            } by {
            if j < prev.len() {
                assert(locations(prog, k)[j] == prev[j]);
            }
        }
    }
}

/// The model for one (code, round count).
pub struct CircuitModel {
    /// Detectors are Z-stabilizer measurements; edges correct X errors.
    pub for_x_errors: DetectorGraph,
    /// Detectors are X-stabilizer measurements; edges correct Z errors.
    pub for_z_errors: DetectorGraph,
    pub num_rounds: usize,
    /// Noise locations per round; erasure sites are indexed
    /// `(round - 1) * noise_slots + slot`.
    pub noise_slots: usize,
    /// Total erasure sites across the noisy rounds.
    pub erasure_sites: usize,
}

/// Build the CSS model by enumerating every fault the circuit admits in the
/// noisy rounds.
pub fn build(layout: &CircuitLayout, num_rounds: usize) -> (model: CircuitModel)
    requires
        layout.wf(),
        layout.num_data <= 128,
        model_fits(*layout, num_rounds as nat),
    ensures
        ({
            let rt = (num_rounds + 2) as nat;
            let ns = noise_count(layout.program@, layout.program@.len());
            let es = (ns * num_rounds) as nat;
            &&& model.num_rounds == num_rounds
            &&& model.noise_slots == ns
            &&& model.erasure_sites == es
            &&& model.for_x_errors.assembled_from(
                css_mechs(*layout, rt, ns, es, true, num_rounds as nat),
                (layout.num_z_stabs * (num_rounds + 1)) as nat,
                (es + 1) as nat,
            )
            &&& model.for_z_errors.assembled_from(
                css_mechs(*layout, rt, ns, es, false, num_rounds as nat),
                (layout.num_x_stabs * (num_rounds + 1)) as nat,
                (es + 1) as nat,
            )
        }),
        model.for_x_errors.graph.well_formed(),
        model.for_z_errors.graph.well_formed(),
        model.for_x_errors.graph.num_nodes <= usize::MAX / 8,
        model.for_z_errors.graph.num_nodes <= usize::MAX / 8,
        model.for_x_errors.graph.edges@.len() <= usize::MAX / 2,
        model.for_z_errors.graph.edges@.len() <= usize::MAX / 2,
{
    proof {
        lemma_model_fits(*layout, num_rounds as nat);
    }
    let rounds_total = rounds_executed(num_rounds);
    let layers = detector_layers(num_rounds);
    let nx = layout.num_x_stabs;
    let nz = layout.num_z_stabs;
    proof {
        assert(nx * layers == layers * nx) by (nonlinear_arith);
        assert(nz * layers == layers * nz) by (nonlinear_arith);
        assert(rounds_total * nx == (num_rounds + 2) * nx);
    }
    let num_x_nodes = nx * layers;
    let num_z_nodes = nz * layers;
    let noise_slots = layout.noise_slots();
    proof {
        lemma_noise_count_le(layout.program@, layout.program@.len());
        assert(noise_slots * num_rounds <= num_rounds * layout.program@.len()) by (nonlinear_arith)
            requires
                noise_slots <= layout.program@.len(),
        ;
    }
    let erasure_sites = noise_slots * num_rounds;
    let ghost rt = rounds_total as nat;
    let ghost ns = noise_slots as nat;
    let ghost es = erasure_sites as nat;
    let ghost locs = locations(layout.program@, layout.program@.len());
    proof {
        lemma_locations_props(layout.program@, layout.program@.len());
        lemma_locations_len(layout.program@, layout.program@.len());
    }

    let mut for_x: Vec<Mechanism> = Vec::new();
    let mut for_z: Vec<Mechanism> = Vec::new();

    // The first and last rounds are noiseless, so faults are enumerated only
    // in the rounds that carry noise.
    for round in 1..rounds_total - 1
        invariant
            layout.wf(),
            layout.num_data <= 128,
            rounds_total == num_rounds + 2,
            rt == rounds_total,
            nx == layout.num_x_stabs,
            nz == layout.num_z_stabs,
            rounds_total * nx <= usize::MAX / 8,
            rounds_total * nz <= usize::MAX / 8,
            num_x_nodes == nx * (num_rounds + 1),
            num_z_nodes == nz * (num_rounds + 1),
            noise_slots == ns,
            ns == noise_count(layout.program@, layout.program@.len()),
            erasure_sites == es,
            es == ns * num_rounds,
            locs == locations(layout.program@, layout.program@.len()),
            locs.len() <= 3 * layout.program@.len(),
            layout.program@.len() <= usize::MAX / 8,
            forall|j: int|
                0 <= j < locs.len() ==> match #[trigger] locs[j].1 {
                    Some(sl) => sl < ns,
                    None => true,
                },
            cands_view(for_x@) == css_mechs(*layout, rt, ns, es, true, (round - 1) as nat),
            cands_view(for_z@) == css_mechs(*layout, rt, ns, es, false, (round - 1) as nat),
            mechs_ok(cands_view(for_x@), num_z_nodes as nat, (es + 1) as nat),
            mechs_ok(cands_view(for_z@), num_x_nodes as nat, (es + 1) as nat),
            forall|i: int| 0 <= i < for_x@.len() ==> (#[trigger] for_x@[i]).1.1 == 0,
            forall|i: int| 0 <= i < for_z@.len() ==> (#[trigger] for_z@[i]).1.1 == 0,
            for_x@.len() <= 3 * layout.program@.len() * (round - 1),
            for_z@.len() <= 3 * layout.program@.len() * (round - 1),
    {
        let locations_here = layout.fault_locations();
        let ghost x0 = for_x@;
        let ghost z0 = for_z@;
        proof {
            assert(round - 1 < num_rounds + 1);
            assert(es <= ns * num_rounds);
        }
        for k in 0..locations_here.len()
            invariant
                layout.wf(),
                layout.num_data <= 128,
                1 <= round < rounds_total - 1,
                rounds_total == num_rounds + 2,
                rt == rounds_total,
                nx == layout.num_x_stabs,
                nz == layout.num_z_stabs,
                rounds_total * nx <= usize::MAX / 8,
                rounds_total * nz <= usize::MAX / 8,
                num_x_nodes == nx * (num_rounds + 1),
                num_z_nodes == nz * (num_rounds + 1),
                noise_slots == ns,
                erasure_sites == es,
                es == ns * num_rounds,
                locations_here@ == locs,
                locs == locations(layout.program@, layout.program@.len()),
                forall|j: int|
                    0 <= j < locs.len() ==> match #[trigger] locs[j].1 {
                        Some(sl) => sl < ns,
                        None => true,
                    },
                cands_view(for_x@) == cands_view(x0) + css_round(*layout, rt, ns, es, round as nat, true, k as nat),
                cands_view(for_z@) == cands_view(z0) + css_round(*layout, rt, ns, es, round as nat, false, k as nat),
                mechs_ok(cands_view(for_x@), num_z_nodes as nat, (es + 1) as nat),
                mechs_ok(cands_view(for_z@), num_x_nodes as nat, (es + 1) as nat),
                forall|i: int| 0 <= i < for_x@.len() ==> (#[trigger] for_x@[i]).1.1 == 0,
                forall|i: int| 0 <= i < for_z@.len() ==> (#[trigger] for_z@[i]).1.1 == 0,
                for_x@.len() <= x0.len() + k,
                for_z@.len() <= z0.len() + k,
        {
            let (fault, slot) = locations_here[k];
            let effect = layout.propagate(fault, round, rounds_total);
            let ghost eff = effect_spec(*layout, fault, round as nat, rt);
            proof {
                assert(locs[k as int] == (fault, slot));
                assert(effect.flips_z_stab@ == eff.3);
                assert(effect.flips_x_stab@ == eff.2);
                assert(effect.residual_x == to_mask(eff.0, layout.num_data as nat));
                assert(effect.residual_z == to_mask(eff.1, layout.num_data as nat));
            }
            // Readout flips are not erasures, so they belong to no site.
            let site = match slot {
                Some(sl) => {
                    proof {
                        assert(match locs[k as int].1 {
                            Some(sl) => sl < ns,
                            None => true,
                        });
                        assert((round - 1) * ns + ns <= num_rounds * ns) by (nonlinear_arith)
                            requires
                                round - 1 < num_rounds,
                        ;
                        assert(num_rounds * ns == ns * num_rounds) by (nonlinear_arith);
                    }
                    (round - 1) * noise_slots + sl
                },
                None => erasure_sites,
            };
            proof {
                assert(site == site_of(locs[k as int].1, round as nat, ns, es));
                assert(site < es + 1);
                assert(nz * rounds_total == rounds_total * nz) by (nonlinear_arith);
                assert(nx * rounds_total == rounds_total * nx) by (nonlinear_arith);
                assert(nz * (rounds_total - 1) == nz * (num_rounds + 1));
                assert(nx * (rounds_total - 1) == nx * (num_rounds + 1));
            }

            // X errors show up in Z-stabilizer detectors.
            let dz = detectors(&effect.flips_z_stab, nz, rounds_total);
            let ghost xb = for_x@;
            if dz.len() != 0 && dz.len() <= 2 {
                for_x.push((dz, (effect.residual_x, 0), site));
            }
            proof {
                assert(cands_view(xb + seq![(dz, (effect.residual_x, 0u128), site)]) =~= cands_view(xb).push(
                    (dz@, (effect.residual_x, 0u128), site),
                ));
                lemma_css_round_step(*layout, rt, ns, es, round as nat, true, k as nat);
                if dz@.len() != 0 && dz@.len() <= 2 {
                    assert(css_mech(*layout, rt, ns, es, round as nat, locs[k as int], true) == Some(
                        (dz@, (effect.residual_x, 0u128), site),
                    ));
                    assert(for_x@ =~= xb + seq![(dz, (effect.residual_x, 0u128), site)]);
                    assert(locations(layout.program@, layout.program@.len())[k as int] == locs[k as int]);
                    assert(css_round(*layout, rt, ns, es, round as nat, true, (k + 1) as nat) == css_round(
                        *layout,
                        rt,
                        ns,
                        es,
                        round as nat,
                        true,
                        k as nat,
                    ).push((dz@, (effect.residual_x, 0u128), site)));
                    assert(cands_view(x0) + css_round(*layout, rt, ns, es, round as nat, true, (k + 1) as nat)
                        =~= (cands_view(x0) + css_round(*layout, rt, ns, es, round as nat, true, k as nat)).push(
                        (dz@, (effect.residual_x, 0u128), site),
                    ));
                    assert forall|i: int| 0 <= i < cands_view(for_x@).len() implies (#[trigger] cands_view(for_x@)[i]).2
                        < es + 1 && forall|j: int|
                        0 <= j < cands_view(for_x@)[i].0.len() ==> cands_view(for_x@)[i].0[j] < num_z_nodes by {
                        if i < xb.len() {
                            assert(cands_view(for_x@)[i] == cands_view(xb)[i]);
                        }
                    }
                }
            }

            // Z errors show up in X-stabilizer detectors.
            let dx = detectors(&effect.flips_x_stab, nx, rounds_total);
            let ghost zb = for_z@;
            if dx.len() != 0 && dx.len() <= 2 {
                for_z.push((dx, (effect.residual_z, 0), site));
            }
            proof {
                assert(cands_view(zb + seq![(dx, (effect.residual_z, 0u128), site)]) =~= cands_view(zb).push(
                    (dx@, (effect.residual_z, 0u128), site),
                ));
                lemma_css_round_step(*layout, rt, ns, es, round as nat, false, k as nat);
                if dx@.len() != 0 && dx@.len() <= 2 {
                    assert(css_mech(*layout, rt, ns, es, round as nat, locs[k as int], false) == Some(
                        (dx@, (effect.residual_z, 0u128), site),
                    ));
                    assert(for_z@ =~= zb + seq![(dx, (effect.residual_z, 0u128), site)]);
                    assert(locations(layout.program@, layout.program@.len())[k as int] == locs[k as int]);
                    assert(css_round(*layout, rt, ns, es, round as nat, false, (k + 1) as nat) == css_round(
                        *layout,
                        rt,
                        ns,
                        es,
                        round as nat,
                        false,
                        k as nat,
                    ).push((dx@, (effect.residual_z, 0u128), site)));
                    assert(cands_view(z0) + css_round(*layout, rt, ns, es, round as nat, false, (k + 1) as nat)
                        =~= (cands_view(z0) + css_round(*layout, rt, ns, es, round as nat, false, k as nat)).push(
                        (dx@, (effect.residual_z, 0u128), site),
                    ));
                    assert forall|i: int| 0 <= i < cands_view(for_z@).len() implies (#[trigger] cands_view(for_z@)[i]).2
                        < es + 1 && forall|j: int|
                        0 <= j < cands_view(for_z@)[i].0.len() ==> cands_view(for_z@)[i].0[j] < num_x_nodes by {
                        if i < zb.len() {
                            assert(cands_view(for_z@)[i] == cands_view(zb)[i]);
                        }
                    }
                }
            }
        }
        proof {
            assert(3 * layout.program@.len() * (round - 1) + 3 * layout.program@.len() == 3 * layout.program@.len()
                * round) by (nonlinear_arith);
        }
    }
    proof {
        assert(3 * layout.program@.len() * num_rounds <= usize::MAX / 2) by (nonlinear_arith)
            requires
                num_rounds * layout.program@.len() <= usize::MAX / 8,
        ;
        assert(num_z_nodes <= usize::MAX / 8);
        assert(num_x_nodes <= usize::MAX / 8);
    }
    CircuitModel {
        for_x_errors: assemble(for_x, num_z_nodes, erasure_sites + 1),
        for_z_errors: assemble(for_z, num_x_nodes, erasure_sites + 1),
        num_rounds,
        noise_slots,
        erasure_sites,
    }
}

/* ---------------------------------------------------------------------- */
/* Non-CSS codes: one graph, two error families                           */
/* ---------------------------------------------------------------------- */

/// A decoding graph for a code whose stabilizers are not separable into X
/// and Z checks: one node set carrying both edge families, each edge naming
/// the X part and the Z part of the correction it implies.
pub struct CombinedGraph {
    pub graph: SyndromeGraph,
    pub correction_x: Vec<u128>,
    pub correction_z: Vec<u128>,
    /// For each erasure site, the edges that become free when it is erased.
    pub site_edges: Vec<Vec<usize>>,
}

/// The representative qubit of a combined correction: the lowest qubit of
/// the X part, else of the Z part, else none.
pub open spec fn representative_combined(r: Option<usize>, cx: u128, cz: u128) -> bool {
    if cx != 0 {
        r matches Some(q) && lowest_bit(cx, q as u128)
    } else if cz != 0 {
        r matches Some(q) && lowest_bit(cz, q as u128)
    } else {
        r is None
    }
}

impl CombinedGraph {
    /// As `DetectorGraph::assembled_from`, with the correction a pair.
    pub open spec fn assembled_from(&self, cs: Seq<MechView>, nn: nat, sites: nat) -> bool {
        let edges = self.graph.edges@;
        &&& self.graph.num_nodes == nn
        &&& self.graph.edge_to_qubit@.len() == edges.len()
        &&& self.correction_x@.len() == edges.len()
        &&& self.correction_z@.len() == edges.len()
        &&& forall|k: int|
            0 <= k < edges.len() ==> (#[trigger] edges[k]).id == k && representative_combined(
                self.graph.edge_to_qubit@[k],
                self.correction_x@[k],
                self.correction_z@[k],
            )
        &&& tally_ok(
            cs,
            nn,
            edge_pairs(edges),
            Seq::new(edges.len(), |k: int| (self.correction_x@[k], self.correction_z@[k])),
        )
        &&& self.site_edges@.len() == sites
        &&& forall|s: int|
            0 <= s < sites ==> (#[trigger] self.site_edges@[s])@ == site_ids(cs, nn, edge_pairs(edges), s as nat, cs.len())
    }
}

pub struct CombinedModel {
    pub graph: CombinedGraph,
    pub num_rounds: usize,
    pub noise_slots: usize,
    pub erasure_sites: usize,
}

/// Collect the edges of a combined graph. Two mechanisms firing the same
/// detectors are distinct if they leave different Paulis; one edge per pair
/// keeps the most frequent.
fn assemble_combined(candidates: Vec<Mechanism>, num_nodes: usize, num_sites: usize) -> (cg: CombinedGraph)
    requires
        num_nodes < usize::MAX,
        mechs_ok(cands_view(candidates@), num_nodes as nat, num_sites as nat),
    ensures
        cg.assembled_from(cands_view(candidates@), num_nodes as nat, num_sites as nat),
        cg.graph.well_formed(),
        cg.graph.edges@.len() <= candidates@.len(),
{
    let ghost cs = cands_view(candidates@);
    proof {
        assert forall|i: int| 0 <= i < candidates@.len() implies (#[trigger] candidates@[i]).2 < num_sites by {
            assert(cs[i] == mech_view(candidates@[i]));
        }
    }
    let (pairs, best, site_edges) = tally(&candidates, num_nodes, num_sites);
    let edges = edges_from_pairs(&pairs, Ghost(cs), num_nodes, Ghost(best@));
    let mut correction_x: Vec<u128> = Vec::new();
    let mut correction_z: Vec<u128> = Vec::new();
    let mut edge_to_qubit: Vec<Option<usize>> = Vec::new();
    for k in 0..best.len()
        invariant
            correction_x@.len() == k,
            correction_z@.len() == k,
            edge_to_qubit@.len() == k,
            forall|x: int| 0 <= x < k ==> (#[trigger] correction_x@[x]) == best@[x].0,
            forall|x: int| 0 <= x < k ==> (#[trigger] correction_z@[x]) == best@[x].1,
            forall|x: int|
                0 <= x < k ==> representative_combined(#[trigger] edge_to_qubit@[x], correction_x@[x], correction_z@[x]),
    {
        let (cx, cz) = best[k];
        let representative = if cx != 0 {
            Some(lowest_bit_exec(cx))
        } else if cz != 0 {
            Some(lowest_bit_exec(cz))
        } else {
            None
        };
        correction_x.push(cx);
        correction_z.push(cz);
        edge_to_qubit.push(representative);
        proof {
            assert(correction_x@[k as int] == cx && correction_z@[k as int] == cz);
        }
    }
    proof {
        assert(Seq::new(edges@.len(), |k: int| (correction_x@[k], correction_z@[k])) =~= best@);
    }
    CombinedGraph { graph: SyndromeGraph { num_nodes, edges, edge_to_qubit }, correction_x, correction_z, site_edges }
}

/// The mechanism one fault contributes to the combined graph, if it fires
/// one or two detectors. Y faults are skipped: a Y is X then Z, and the
/// matcher reconstructs it from their two graph-like edges.
pub open spec fn combined_mech(
    layout: CircuitLayout,
    rounds_total: nat,
    noise_slots: nat,
    sites: nat,
    round: nat,
    loc: (Fault, Option<usize>),
) -> Option<MechView> {
    if loc.0 matches Fault::Gate(_, p) && p == 3 {
        None
    } else {
        let eff = effect_spec(layout, loc.0, round, rounds_total);
        let d = detectors_spec(eff.3, layout.num_z_stabs as nat, rounds_total);
        if 1 <= d.len() <= 2 {
            Some(
                (
                    d,
                    (to_mask(eff.0, layout.num_data as nat), to_mask(eff.1, layout.num_data as nat)),
                    site_of(loc.1, round, noise_slots, sites),
                ),
            )
        } else {
            None
        }
    }
}

pub open spec fn combined_round(
    layout: CircuitLayout,
    rounds_total: nat,
    noise_slots: nat,
    sites: nat,
    round: nat,
    k: nat,
) -> Seq<MechView>
    decreases k,
{
    if k == 0 {
        seq![]
    } else {
        let prev = combined_round(layout, rounds_total, noise_slots, sites, round, (k - 1) as nat);
        let loc = locations(layout.program@, layout.program@.len())[k - 1];
        match combined_mech(layout, rounds_total, noise_slots, sites, round, loc) {
            Some(m) => prev.push(m),
            None => prev,
        }
    }
}

pub open spec fn combined_mechs(layout: CircuitLayout, rounds_total: nat, noise_slots: nat, sites: nat, rounds: nat) -> Seq<
    MechView,
>
    decreases rounds,
{
    if rounds == 0 {
        seq![]
    } else {
        combined_mechs(layout, rounds_total, noise_slots, sites, (rounds - 1) as nat) + combined_round(
            layout,
            rounds_total,
            noise_slots,
            sites,
            rounds,
            locations(layout.program@, layout.program@.len()).len(),
        )
    }
}

proof fn lemma_combined_round_step(
    layout: CircuitLayout,
    rounds_total: nat,
    noise_slots: nat,
    sites: nat,
    round: nat,
    k: nat,
)
    ensures
        combined_round(layout, rounds_total, noise_slots, sites, round, k + 1) == match combined_mech(
            layout,
            rounds_total,
            noise_slots,
            sites,
            round,
            locations(layout.program@, layout.program@.len())[k as int],
        ) {
            Some(m) => combined_round(layout, rounds_total, noise_slots, sites, round, k).push(m),
            None => combined_round(layout, rounds_total, noise_slots, sites, round, k),
        },
{
}

/// Build the detector error model for a non-CSS code, whose single
/// stabilizer family is carried in the Z slot.
pub fn build_combined(layout: &CircuitLayout, num_rounds: usize) -> (model: CombinedModel)
    requires
        layout.wf(),
        layout.num_data <= 128,
        model_fits(*layout, num_rounds as nat),
    ensures
        ({
            let rt = (num_rounds + 2) as nat;
            let ns = noise_count(layout.program@, layout.program@.len());
            let es = (ns * num_rounds) as nat;
            &&& model.num_rounds == num_rounds
            &&& model.noise_slots == ns
            &&& model.erasure_sites == es
            &&& model.graph.assembled_from(
                combined_mechs(*layout, rt, ns, es, num_rounds as nat),
                (layout.num_z_stabs * (num_rounds + 1)) as nat,
                (es + 1) as nat,
            )
        }),
        model.graph.graph.well_formed(),
        model.graph.graph.num_nodes <= usize::MAX / 8,
        model.graph.graph.edges@.len() <= usize::MAX / 2,
{
    proof {
        lemma_model_fits(*layout, num_rounds as nat);
    }
    let rounds_total = rounds_executed(num_rounds);
    let layers = detector_layers(num_rounds);
    let nx = layout.num_x_stabs;
    let nz = layout.num_z_stabs;
    proof {
        assert(nz * layers == layers * nz) by (nonlinear_arith);
    }
    let num_nodes = nz * layers;
    let noise_slots = layout.noise_slots();
    proof {
        lemma_noise_count_le(layout.program@, layout.program@.len());
        assert(noise_slots * num_rounds <= num_rounds * layout.program@.len()) by (nonlinear_arith)
            requires
                noise_slots <= layout.program@.len(),
        ;
    }
    let erasure_sites = noise_slots * num_rounds;
    let ghost rt = rounds_total as nat;
    let ghost ns = noise_slots as nat;
    let ghost es = erasure_sites as nat;
    let ghost locs = locations(layout.program@, layout.program@.len());
    proof {
        lemma_locations_props(layout.program@, layout.program@.len());
        lemma_locations_len(layout.program@, layout.program@.len());
    }
    let mut candidates: Vec<Mechanism> = Vec::new();
    for round in 1..rounds_total - 1
        invariant
            layout.wf(),
            layout.num_data <= 128,
            rounds_total == num_rounds + 2,
            rt == rounds_total,
            nx == layout.num_x_stabs,
            nz == layout.num_z_stabs,
            rounds_total * nx <= usize::MAX / 8,
            rounds_total * nz <= usize::MAX / 8,
            num_nodes == nz * (num_rounds + 1),
            noise_slots == ns,
            ns == noise_count(layout.program@, layout.program@.len()),
            erasure_sites == es,
            es == ns * num_rounds,
            locs == locations(layout.program@, layout.program@.len()),
            locs.len() <= 3 * layout.program@.len(),
            layout.program@.len() <= usize::MAX / 8,
            forall|j: int|
                0 <= j < locs.len() ==> match #[trigger] locs[j].1 {
                    Some(sl) => sl < ns,
                    None => true,
                },
            cands_view(candidates@) == combined_mechs(*layout, rt, ns, es, (round - 1) as nat),
            mechs_ok(cands_view(candidates@), num_nodes as nat, (es + 1) as nat),
            candidates@.len() <= 3 * layout.program@.len() * (round - 1),
    {
        let locations_here = layout.fault_locations();
        let ghost c0 = candidates@;
        for k in 0..locations_here.len()
            invariant
                layout.wf(),
                layout.num_data <= 128,
                1 <= round < rounds_total - 1,
                rounds_total == num_rounds + 2,
                rt == rounds_total,
                nx == layout.num_x_stabs,
                nz == layout.num_z_stabs,
                rounds_total * nx <= usize::MAX / 8,
                rounds_total * nz <= usize::MAX / 8,
                num_nodes == nz * (num_rounds + 1),
                noise_slots == ns,
                erasure_sites == es,
                es == ns * num_rounds,
                locations_here@ == locs,
                locs == locations(layout.program@, layout.program@.len()),
                forall|j: int|
                    0 <= j < locs.len() ==> match #[trigger] locs[j].1 {
                        Some(sl) => sl < ns,
                        None => true,
                    },
                cands_view(candidates@) == cands_view(c0) + combined_round(*layout, rt, ns, es, round as nat, k as nat),
                mechs_ok(cands_view(candidates@), num_nodes as nat, (es + 1) as nat),
                candidates@.len() <= c0.len() + k,
        {
            let (fault, slot) = locations_here[k];
            let ghost before = candidates@;
            proof {
                lemma_combined_round_step(*layout, rt, ns, es, round as nat, k as nat);
                assert(locs[k as int] == (fault, slot));
            }
            let skip = match fault {
                Fault::Gate(_, p) => p == 3,
                Fault::Readout(_) => false,
            };
            if skip {
                proof {
                    assert(combined_mech(*layout, rt, ns, es, round as nat, locs[k as int]) is None);
                }
            } else {
                let effect = layout.propagate(fault, round, rounds_total);
                let ghost eff = effect_spec(*layout, fault, round as nat, rt);
                let site = match slot {
                    Some(sl) => {
                        proof {
                            assert(match locs[k as int].1 {
                                Some(sl) => sl < ns,
                                None => true,
                            });
                            assert((round - 1) * ns + ns <= num_rounds * ns) by (nonlinear_arith)
                                requires
                                    round - 1 < num_rounds,
                            ;
                            assert(num_rounds * ns == ns * num_rounds) by (nonlinear_arith);
                        }
                        (round - 1) * noise_slots + sl
                    },
                    None => erasure_sites,
                };
                proof {
                    assert(effect.flips_z_stab@ == eff.3);
                    assert(nz * rounds_total == rounds_total * nz) by (nonlinear_arith);
                    assert(nz * (rounds_total - 1) == nz * (num_rounds + 1));
                    assert(site == site_of(locs[k as int].1, round as nat, ns, es));
                }
                let d = detectors(&effect.flips_z_stab, nz, rounds_total);
                if d.len() != 0 && d.len() <= 2 {
                    candidates.push((d, (effect.residual_x, effect.residual_z), site));
                    proof {
                        let mv = (d@, (effect.residual_x, effect.residual_z), site);
                        assert(combined_mech(*layout, rt, ns, es, round as nat, locs[k as int]) == Some(mv));
                        assert(cands_view(candidates@) =~= cands_view(before).push(mv));
                        assert(cands_view(c0) + combined_round(*layout, rt, ns, es, round as nat, (k + 1) as nat)
                            =~= (cands_view(c0) + combined_round(*layout, rt, ns, es, round as nat, k as nat)).push(mv));
                        assert forall|i: int| 0 <= i < cands_view(candidates@).len() implies (#[trigger] cands_view(
                            candidates@,
                        )[i]).2 < es + 1 && forall|j: int|
                            0 <= j < cands_view(candidates@)[i].0.len() ==> cands_view(candidates@)[i].0[j]
                                < num_nodes by {
                            if i < before.len() {
                                assert(cands_view(candidates@)[i] == cands_view(before)[i]);
                            }
                        }
                    }
                } else {
                    proof {
                        assert(combined_mech(*layout, rt, ns, es, round as nat, locs[k as int]) is None);
                    }
                }
            }
        }
        proof {
            assert(3 * layout.program@.len() * (round - 1) + 3 * layout.program@.len() == 3 * layout.program@.len()
                * round) by (nonlinear_arith);
        }
    }
    proof {
        assert(3 * layout.program@.len() * num_rounds <= usize::MAX / 2) by (nonlinear_arith)
            requires
                num_rounds * layout.program@.len() <= usize::MAX / 8,
        ;
    }
    CombinedModel {
        graph: assemble_combined(candidates, num_nodes, erasure_sites + 1),
        num_rounds,
        noise_slots,
        erasure_sites,
    }
}

/* ---------------------------------------------------------------------- */
/* Using the models                                                       */
/* ---------------------------------------------------------------------- */

/// XOR of the masks of the listed edges.
pub open spec fn xor_masks(masks: Seq<u128>, chosen: Seq<usize>) -> u128
    decreases chosen.len(),
{
    if chosen.len() == 0 {
        0u128
    } else {
        xor_masks(masks, chosen.drop_last()) ^ masks[chosen.last() as int]
    }
}

fn fold_masks(masks: &Vec<u128>, chosen: &Vec<usize>) -> (m: u128)
    requires
        forall|k: int| 0 <= k < chosen@.len() ==> #[trigger] chosen@[k] < masks@.len(),
    ensures
        m == xor_masks(masks@, chosen@),
{
    let mut m: u128 = 0;
    for k in 0..chosen.len()
        invariant
            forall|k: int| 0 <= k < chosen@.len() ==> #[trigger] chosen@[k] < masks@.len(),
            m == xor_masks(masks@, chosen@.subrange(0, k as int)),
    {
        proof {
            assert(chosen@.subrange(0, k + 1).drop_last() =~= chosen@.subrange(0, k as int));
        }
        m = m ^ masks[chosen[k]];
    }
    proof {
        assert(chosen@.subrange(0, chosen@.len() as int) =~= chosen@);
    }
    m
}

/// What a decoder of the given type promises of the edges it picks: they
/// exist; for the greedy and the matching decoder every node they flip is a
/// defect, and when every defect is joined to the boundary they flip exactly
/// the defects.
pub open spec fn decoder_ok(graph: SyndromeGraph, defects: Seq<bool>, decoder_type: usize, c: Seq<usize>) -> bool {
    &&& valid_correction(graph.edges@, c)
    &&& decoder_type == 1 || decoder_type == 2 ==> forall|node: int|
        0 <= node < graph.num_nodes && #[trigger] crate::decoder::flipped(graph.edges@, c, node) ==> defects[node]
    &&& crate::decoder::no_defects(defects, graph.num_nodes as int) ==> c.len() == 0
    &&& decoder_type == 1 || decoder_type == 2 ==> (crate::decoder::defects_joined(graph, defects)
        ==> crate::decoder::explains_defects(graph, defects, c))
}

/// Decode one graph and collect the data-qubit correction it implies.
pub fn correction_for(dg: &DetectorGraph, defects: &[bool], decoder_type: usize, erased: &[bool]) -> (m: u128)
    requires
        dg.graph.decodable(),
        defects@.len() >= dg.graph.num_nodes,
        dg.correction@.len() == dg.graph.edges@.len(),
    ensures
        exists|c: Seq<usize>| decoder_ok(dg.graph, defects@, decoder_type, c) && m == xor_masks(dg.correction@, c),
{
    let chosen = decode_by_type(&dg.graph, defects, decoder_type, erased);
    let m = fold_masks(&dg.correction, &chosen);
    proof {
        assert(decoder_ok(dg.graph, defects@, decoder_type, chosen@));
    }
    m
}

/// Decode a combined graph and collect the (X, Z) correction it implies.
pub fn correction_for_combined(cg: &CombinedGraph, defects: &[bool], decoder_type: usize, erased: &[bool]) -> (m: (
    u128,
    u128,
))
    requires
        cg.graph.decodable(),
        defects@.len() >= cg.graph.num_nodes,
        cg.correction_x@.len() == cg.graph.edges@.len(),
        cg.correction_z@.len() == cg.graph.edges@.len(),
    ensures
        exists|c: Seq<usize>|
            decoder_ok(cg.graph, defects@, decoder_type, c) && m.0 == xor_masks(cg.correction_x@, c) && m.1
                == xor_masks(cg.correction_z@, c),
{
    let chosen = decode_by_type(&cg.graph, defects, decoder_type, erased);
    let mx = fold_masks(&cg.correction_x, &chosen);
    let mz = fold_masks(&cg.correction_z, &chosen);
    proof {
        assert(decoder_ok(cg.graph, defects@, decoder_type, chosen@));
    }
    (mx, mz)
}

/// A defect vector of `n` nodes with the listed ones set.
fn defects_from(fired: &Vec<usize>, n: usize) -> (defects: Vec<bool>)
    requires
        forall|k: int| 0 <= k < fired@.len() ==> #[trigger] fired@[k] < n,
    ensures
        defects@.len() == n,
        forall|x: int| 0 <= x < n ==> #[trigger] defects@[x] == fired@.contains(x as usize),
{
    let mut defects = vec![false; n];
    for k in 0..fired.len()
        invariant
            defects@.len() == n,
            forall|k: int| 0 <= k < fired@.len() ==> #[trigger] fired@[k] < n,
            forall|x: int| 0 <= x < n ==> #[trigger] defects@[x] == fired@.subrange(0, k as int).contains(x as usize),
    {
        defects.set(fired[k], true);
        proof {
            let old_s = fired@.subrange(0, k as int);
            let new_s = fired@.subrange(0, k + 1);
            assert(new_s =~= old_s.push(fired@[k as int]));
            assert forall|x: int| 0 <= x < n implies #[trigger] defects@[x] == new_s.contains(x as usize) by {
                if x == fired@[k as int] {
                    assert(new_s[k as int] == x as usize);
                } else {
                    if old_s.contains(x as usize) {
                        let i = choose|i: int| 0 <= i < old_s.len() && old_s[i] == x as usize;
                        assert(new_s[i] == x as usize);
                    }
                    if new_s.contains(x as usize) {
                        let i = choose|i: int| 0 <= i < new_s.len() && new_s[i] == x as usize;
                        assert(i < k);
                        assert(old_s[i] == x as usize);
                    }
                }
            }
        }
    }
    proof {
        assert(fired@.subrange(0, fired@.len() as int) =~= fired@);
    }
    defects
}

/// The defect vector of `n` nodes in which exactly the `fired` ones are set.
pub open spec fn fired_defects(fired: Seq<usize>, n: nat) -> Seq<bool> {
    Seq::new(n, |x: int| fired.contains(x as usize))
}

/// `m` is a mask that decoding `fired` on `dg` can give: the corrections of
/// edges the decoder may answer.
pub open spec fn decoded_mask(dg: DetectorGraph, fired: Seq<usize>, decoder_type: usize, m: u128) -> bool {
    exists|c: Seq<usize>|
        decoder_ok(dg.graph, fired_defects(fired, dg.graph.num_nodes as nat), decoder_type, c) && m == xor_masks(
            dg.correction@,
            c,
        )
}

/// `m` (X part, Z part) is what the decoder may answer for the `k`-th fault
/// location placed in noisy round `round`.
pub open spec fn fault_answer_ok(
    layout: CircuitLayout,
    model: CircuitModel,
    rounds_total: nat,
    decoder_type: usize,
    round: nat,
    k: int,
    m: (u128, u128),
) -> bool {
    let eff = effect_spec(layout, locations(layout.program@, layout.program@.len())[k].0, round, rounds_total);
    &&& decoded_mask(
        model.for_x_errors,
        detectors_spec(eff.3, layout.num_z_stabs as nat, rounds_total),
        decoder_type,
        m.0,
    )
    &&& decoded_mask(
        model.for_z_errors,
        detectors_spec(eff.2, layout.num_x_stabs as nat, rounds_total),
        decoder_type,
        m.1,
    )
}

/// The `k`-th fault location in noisy round `round`, corrected by `m`, leaves
/// a residual that anticommutes with a logical operator.
pub open spec fn fault_fails(
    layout: CircuitLayout,
    rounds_total: nat,
    round: nat,
    k: int,
    m: (u128, u128),
    lx: u128,
    lz: u128,
) -> bool {
    let eff = effect_spec(layout, locations(layout.program@, layout.program@.len())[k].0, round, rounds_total);
    let nd = layout.num_data as nat;
    crate::bits::parity((to_mask(eff.0, nd) ^ m.0) & lz) || crate::bits::parity((to_mask(eff.1, nd) ^ m.1) & lx)
}

/// Failures among the first `k` locations of `round`, under the answers `ans`.
pub open spec fn fails_round(
    layout: CircuitLayout,
    rounds_total: nat,
    round: nat,
    ans: spec_fn(nat, int) -> (u128, u128),
    lx: u128,
    lz: u128,
    k: nat,
) -> nat
    decreases k,
{
    if k == 0 {
        0
    } else {
        fails_round(layout, rounds_total, round, ans, lx, lz, (k - 1) as nat) + if fault_fails(
            layout,
            rounds_total,
            round,
            k - 1,
            ans(round, k - 1),
            lx,
            lz,
        ) {
            1nat
        } else {
            0nat
        }
    }
}

/// The same over noisy rounds `1..=rounds`.
pub open spec fn fails_total(
    layout: CircuitLayout,
    rounds_total: nat,
    ans: spec_fn(nat, int) -> (u128, u128),
    lx: u128,
    lz: u128,
    rounds: nat,
) -> nat
    decreases rounds,
{
    if rounds == 0 {
        0
    } else {
        fails_total(layout, rounds_total, ans, lx, lz, (rounds - 1) as nat) + fails_round(
            layout,
            rounds_total,
            rounds,
            ans,
            lx,
            lz,
            locations(layout.program@, layout.program@.len()).len(),
        )
    }
}

proof fn lemma_fails_round_frame(
    layout: CircuitLayout,
    rounds_total: nat,
    round: nat,
    a: spec_fn(nat, int) -> (u128, u128),
    b: spec_fn(nat, int) -> (u128, u128),
    lx: u128,
    lz: u128,
    k: nat,
)
    requires
        forall|kk: int| 0 <= kk < k ==> #[trigger] a(round, kk) == b(round, kk),
    ensures
        fails_round(layout, rounds_total, round, a, lx, lz, k) == fails_round(layout, rounds_total, round, b, lx, lz, k),
    decreases k,
{
    if k > 0 {
        lemma_fails_round_frame(layout, rounds_total, round, a, b, lx, lz, (k - 1) as nat);
    }
}

proof fn lemma_fails_total_frame(
    layout: CircuitLayout,
    rounds_total: nat,
    a: spec_fn(nat, int) -> (u128, u128),
    b: spec_fn(nat, int) -> (u128, u128),
    lx: u128,
    lz: u128,
    rounds: nat,
    skip: nat,
)
    requires
        forall|rr: nat, kk: int| 1 <= rr <= rounds && rr != skip ==> #[trigger] a(rr, kk) == b(rr, kk),
        skip > rounds,
    ensures
        fails_total(layout, rounds_total, a, lx, lz, rounds) == fails_total(layout, rounds_total, b, lx, lz, rounds),
    decreases rounds,
{
    if rounds > 0 {
        lemma_fails_total_frame(layout, rounds_total, a, b, lx, lz, (rounds - 1) as nat, skip);
        lemma_fails_round_frame(
            layout,
            rounds_total,
            rounds,
            a,
            b,
            lx,
            lz,
            locations(layout.program@, layout.program@.len()).len(),
        );
    }
}

/// Exhaustively check that every single fault the circuit admits is
/// corrected: propagate it, decode its detectors against the model, apply
/// the correction, and see whether the residual anticommutes with a logical
/// operator (`logical_x_support` and `logical_z_support` are the qubit masks
/// whose parity against the residual detects each). Returns how many faults
/// were tested and how many failed.
pub fn single_fault_failures(
    layout: &CircuitLayout,
    model: &CircuitModel,
    num_rounds: usize,
    decoder_type: usize,
    logical_x_support: u128,
    logical_z_support: u128,
) -> (r: (usize, usize))
    requires
        layout.wf(),
        layout.num_data <= 128,
        model_fits(*layout, num_rounds as nat),
        model.for_x_errors.graph.decodable(),
        model.for_z_errors.graph.decodable(),
        model.for_x_errors.graph.num_nodes >= layout.num_z_stabs * (num_rounds + 1),
        model.for_z_errors.graph.num_nodes >= layout.num_x_stabs * (num_rounds + 1),
        model.for_x_errors.correction@.len() == model.for_x_errors.graph.edges@.len(),
        model.for_z_errors.correction@.len() == model.for_z_errors.graph.edges@.len(),
    ensures
        r.0 == num_rounds * locations(layout.program@, layout.program@.len()).len(),
        r.1 <= r.0,
        exists|ans: spec_fn(nat, int) -> (u128, u128)|
            {
                &&& forall|round: nat, k: int|
                    1 <= round <= num_rounds && 0 <= k < locations(layout.program@, layout.program@.len()).len()
                        ==> #[trigger] fault_answer_ok(
                        *layout,
                        *model,
                        (num_rounds + 2) as nat,
                        decoder_type,
                        round,
                        k,
                        ans(round, k),
                    )
                &&& r.1 == #[trigger] fails_total(
                    *layout,
                    (num_rounds + 2) as nat,
                    ans,
                    logical_x_support,
                    logical_z_support,
                    num_rounds as nat,
                )
            },
{
    proof {
        lemma_model_fits(*layout, num_rounds as nat);
        lemma_locations_len(layout.program@, layout.program@.len());
    }
    let rounds_total = rounds_executed(num_rounds);
    let ghost mut ans: spec_fn(nat, int) -> (u128, u128) = |r: nat, k: int| (0u128, 0u128);
    let nx = layout.num_x_stabs;
    let nz = layout.num_z_stabs;
    let ghost nloc = locations(layout.program@, layout.program@.len()).len();
    let mut tested: usize = 0;
    let mut failures: usize = 0;
    proof {
        assert(0 * nloc == 0);
    }
    for round in 1..rounds_total - 1
        invariant
            layout.wf(),
            layout.num_data <= 128,
            rounds_total == num_rounds + 2,
            nx == layout.num_x_stabs,
            nz == layout.num_z_stabs,
            rounds_total * nx <= usize::MAX / 8,
            rounds_total * nz <= usize::MAX / 8,
            layout.program@.len() <= usize::MAX / 8,
            num_rounds * layout.program@.len() <= usize::MAX / 8,
            nloc == locations(layout.program@, layout.program@.len()).len(),
            nloc <= 3 * layout.program@.len(),
            model.for_x_errors.graph.decodable(),
            model.for_z_errors.graph.decodable(),
            model.for_x_errors.graph.num_nodes >= nz * (num_rounds + 1),
            model.for_z_errors.graph.num_nodes >= nx * (num_rounds + 1),
            model.for_x_errors.correction@.len() == model.for_x_errors.graph.edges@.len(),
            model.for_z_errors.correction@.len() == model.for_z_errors.graph.edges@.len(),
            tested == (round - 1) * nloc,
            failures <= tested,
            forall|rr: nat, kk: int|
                1 <= rr < round && 0 <= kk < nloc ==> #[trigger] fault_answer_ok(
                    *layout,
                    *model,
                    rounds_total as nat,
                    decoder_type,
                    rr,
                    kk,
                    ans(rr, kk),
                ),
            failures == fails_total(*layout, rounds_total as nat, ans, logical_x_support, logical_z_support, (round - 1) as nat),
    {
        let locations_here = layout.fault_locations();
        proof {
            assert((round - 1) * nloc + nloc <= num_rounds * (3 * layout.program@.len())) by (nonlinear_arith)
                requires
                    round - 1 < num_rounds,
                    nloc <= 3 * layout.program@.len(),
            ;
            assert(num_rounds * (3 * layout.program@.len()) == 3 * (num_rounds * layout.program@.len()))
                by (nonlinear_arith);
        }
        for k in 0..locations_here.len()
            invariant
                layout.wf(),
                layout.num_data <= 128,
                1 <= round < rounds_total - 1,
                rounds_total == num_rounds + 2,
                nx == layout.num_x_stabs,
                nz == layout.num_z_stabs,
                rounds_total * nx <= usize::MAX / 8,
                rounds_total * nz <= usize::MAX / 8,
                locations_here@.len() == nloc,
                (round - 1) * nloc + nloc <= usize::MAX / 2,
                model.for_x_errors.graph.decodable(),
                model.for_z_errors.graph.decodable(),
                model.for_x_errors.graph.num_nodes >= nz * (num_rounds + 1),
                model.for_z_errors.graph.num_nodes >= nx * (num_rounds + 1),
                model.for_x_errors.correction@.len() == model.for_x_errors.graph.edges@.len(),
                model.for_z_errors.correction@.len() == model.for_z_errors.graph.edges@.len(),
                tested == (round - 1) * nloc + k,
                failures <= tested,
                locations_here@ == locations(layout.program@, layout.program@.len()),
                forall|rr: nat, kk: int|
                    (1 <= rr < round && 0 <= kk < nloc) || (rr == round && 0 <= kk < k) ==> #[trigger] fault_answer_ok(
                        *layout,
                        *model,
                        rounds_total as nat,
                        decoder_type,
                        rr,
                        kk,
                        ans(rr, kk),
                    ),
                failures == fails_total(*layout, rounds_total as nat, ans, logical_x_support, logical_z_support, (round - 1) as nat)
                    + fails_round(*layout, rounds_total as nat, round as nat, ans, logical_x_support, logical_z_support, k as nat),
        {
            let (fault, _) = locations_here[k];
            let effect = layout.propagate(fault, round, rounds_total);
            tested += 1;
            proof {
                assert(nz * rounds_total == rounds_total * nz) by (nonlinear_arith);
                assert(nx * rounds_total == rounds_total * nx) by (nonlinear_arith);
            }
            let dz = detectors(&effect.flips_z_stab, nz, rounds_total);
            let dx = detectors(&effect.flips_x_stab, nx, rounds_total);

            // X errors, decoded on the Z-stabilizer detectors.
            let defects_z = defects_from(&dz, model.for_x_errors.graph.num_nodes);
            let none_x = vec![false; model.for_x_errors.graph.edges.len()];
            let mx = correction_for(&model.for_x_errors, &defects_z, decoder_type, &none_x);
            let residual_x = effect.residual_x ^ mx;

            // Z errors, decoded on the X-stabilizer detectors.
            let defects_x = defects_from(&dx, model.for_z_errors.graph.num_nodes);
            let none_z = vec![false; model.for_z_errors.graph.edges.len()];
            let mz = correction_for(&model.for_z_errors, &defects_x, decoder_type, &none_z);
            let residual_z = effect.residual_z ^ mz;

            let logical_x = parity_of(residual_x & logical_z_support);
            let logical_z = parity_of(residual_z & logical_x_support);
            let ghost prev = ans;
            proof {
                let rr0 = round as nat;
                let kk0 = k as int;
                ans = |rr: nat, kk: int| if rr == rr0 && kk == kk0 { (mx, mz) } else { prev(rr, kk) };
                assert(defects_z@ =~= fired_defects(dz@, model.for_x_errors.graph.num_nodes as nat));
                assert(defects_x@ =~= fired_defects(dx@, model.for_z_errors.graph.num_nodes as nat));
                assert(fault_answer_ok(*layout, *model, rounds_total as nat, decoder_type, rr0, kk0, ans(rr0, kk0)));
                assert(fault_fails(*layout, rounds_total as nat, rr0, kk0, ans(rr0, kk0), logical_x_support, logical_z_support)
                    == (logical_x || logical_z));
                lemma_fails_round_frame(*layout, rounds_total as nat, rr0, prev, ans, logical_x_support, logical_z_support, k as nat);
                lemma_fails_total_frame(*layout, rounds_total as nat, prev, ans, logical_x_support, logical_z_support, (round - 1) as nat, rr0);
            }
            if logical_x || logical_z {
                failures += 1;
            }
        }
        proof {
            assert((round - 1) * nloc + nloc == round * nloc) by (nonlinear_arith);
        }
    }
    proof {
        assert(tested == num_rounds * nloc);
        assert(failures == fails_total(*layout, (num_rounds + 2) as nat, ans, logical_x_support, logical_z_support, num_rounds as nat));
    }
    (tested, failures)
}

/// `m` (X part, Z part) is what the decoder may answer on the combined graph
/// for the `k`-th fault location placed in noisy round `round`.
pub open spec fn combined_answer_ok(
    layout: CircuitLayout,
    model: CombinedModel,
    rounds_total: nat,
    decoder_type: usize,
    round: nat,
    k: int,
    m: (u128, u128),
) -> bool {
    let eff = effect_spec(layout, locations(layout.program@, layout.program@.len())[k].0, round, rounds_total);
    let fired = detectors_spec(eff.3, layout.num_z_stabs as nat, rounds_total);
    exists|c: Seq<usize>|
        decoder_ok(model.graph.graph, fired_defects(fired, model.graph.graph.num_nodes as nat), decoder_type, c)
            && m.0 == xor_masks(model.graph.correction_x@, c) && m.1 == xor_masks(model.graph.correction_z@, c)
}

/// The residual `(x, z)` the `k`-th fault location of `round` leaves once
/// corrected by `m`.
pub open spec fn corrected_residual(layout: CircuitLayout, rounds_total: nat, round: nat, k: int, m: (u128, u128)) -> (
    u128,
    u128,
) {
    let eff = effect_spec(layout, locations(layout.program@, layout.program@.len())[k].0, round, rounds_total);
    let nd = layout.num_data as nat;
    (to_mask(eff.0, nd) ^ m.0, to_mask(eff.1, nd) ^ m.1)
}

/// `o` is a decoder answer for the `k`-th fault location of `round` together
/// with what `is_logical` said of the residual it leaves.
pub open spec fn combined_outcome_ok<F: Fn(u128, u128) -> bool>(
    is_logical: &F,
    layout: CircuitLayout,
    model: CombinedModel,
    rounds_total: nat,
    decoder_type: usize,
    round: nat,
    k: int,
    o: (u128, u128, bool),
) -> bool {
    &&& combined_answer_ok(layout, model, rounds_total, decoder_type, round, k, (o.0, o.1))
    &&& is_logical.ensures(corrected_residual(layout, rounds_total, round, k, (o.0, o.1)), o.2)
}

/// How many of the first `k` locations of `round` are marked in `out`.
pub open spec fn marked_round(out: spec_fn(nat, int) -> (u128, u128, bool), round: nat, k: nat) -> nat
    decreases k,
{
    if k == 0 {
        0
    } else {
        marked_round(out, round, (k - 1) as nat) + if out(round, k - 1).2 {
            1nat
        } else {
            0nat
        }
    }
}

/// The same over rounds `1..=rounds`, with `per_round` locations each.
pub open spec fn marked_total(out: spec_fn(nat, int) -> (u128, u128, bool), per_round: nat, rounds: nat) -> nat
    decreases rounds,
{
    if rounds == 0 {
        0
    } else {
        marked_total(out, per_round, (rounds - 1) as nat) + marked_round(out, rounds, per_round)
    }
}

proof fn lemma_marked_round_frame(a: spec_fn(nat, int) -> (u128, u128, bool), b: spec_fn(nat, int) -> (u128, u128, bool), round: nat, k: nat)
    requires
        forall|kk: int| 0 <= kk < k ==> #[trigger] a(round, kk) == b(round, kk),
    ensures
        marked_round(a, round, k) == marked_round(b, round, k),
    decreases k,
{
    if k > 0 {
        lemma_marked_round_frame(a, b, round, (k - 1) as nat);
    }
}

proof fn lemma_marked_total_frame(a: spec_fn(nat, int) -> (u128, u128, bool), b: spec_fn(nat, int) -> (u128, u128, bool), per_round: nat, rounds: nat, skip: nat)
    requires
        forall|rr: nat, kk: int| 1 <= rr <= rounds && rr != skip ==> #[trigger] a(rr, kk) == b(rr, kk),
        skip > rounds,
    ensures
        marked_total(a, per_round, rounds) == marked_total(b, per_round, rounds),
    decreases rounds,
{
    if rounds > 0 {
        lemma_marked_total_frame(a, b, per_round, (rounds - 1) as nat, skip);
        lemma_marked_round_frame(a, b, rounds, per_round);
    }
}

/// Exhaustively check every single fault against a combined model;
/// `is_logical` asks the code whether a residual is a logical operator.
/// Returns how many faults were tested and how many failed.
#[verifier::spinoff_prover]
pub fn single_fault_failures_combined<F: Fn(u128, u128) -> bool>(
    layout: &CircuitLayout,
    model: &CombinedModel,
    num_rounds: usize,
    decoder_type: usize,
    is_logical: &F,
) -> (r: (usize, usize))
    requires
        layout.wf(),
        layout.num_data <= 128,
        model_fits(*layout, num_rounds as nat),
        model.graph.graph.decodable(),
        model.graph.graph.num_nodes >= layout.num_z_stabs * (num_rounds + 1),
        model.graph.correction_x@.len() == model.graph.graph.edges@.len(),
        model.graph.correction_z@.len() == model.graph.graph.edges@.len(),
        forall|x: u128, z: u128| #[trigger] is_logical.requires((x, z)),
    ensures
        r.0 == num_rounds * locations(layout.program@, layout.program@.len()).len(),
        r.1 <= r.0,
        exists|out: spec_fn(nat, int) -> (u128, u128, bool)|
            {
                &&& forall|round: nat, k: int|
                    1 <= round <= num_rounds && 0 <= k < locations(layout.program@, layout.program@.len()).len()
                        ==> #[trigger] combined_outcome_ok(is_logical, *layout, *model, (num_rounds + 2) as nat, decoder_type, round, k, out(round, k))
                &&& r.1 == #[trigger] marked_total(
                    out,
                    locations(layout.program@, layout.program@.len()).len(),
                    num_rounds as nat,
                )
            },
{
    proof {
        lemma_model_fits(*layout, num_rounds as nat);
        lemma_locations_len(layout.program@, layout.program@.len());
    }
    let rounds_total = rounds_executed(num_rounds);
    let ghost mut out: spec_fn(nat, int) -> (u128, u128, bool) = |r: nat, k: int| (0u128, 0u128, false);
    let nz = layout.num_z_stabs;
    let ghost nloc = locations(layout.program@, layout.program@.len()).len();
    let mut tested: usize = 0;
    let mut failures: usize = 0;
    let none = vec![false; model.graph.graph.edges.len()];
    proof {
        assert(0 * nloc == 0);
    }
    for round in 1..rounds_total - 1
        invariant
            layout.wf(),
            layout.num_data <= 128,
            rounds_total == num_rounds + 2,
            nz == layout.num_z_stabs,
            rounds_total * layout.num_x_stabs <= usize::MAX / 8,
            rounds_total * nz <= usize::MAX / 8,
            layout.program@.len() <= usize::MAX / 8,
            num_rounds * layout.program@.len() <= usize::MAX / 8,
            nloc == locations(layout.program@, layout.program@.len()).len(),
            nloc <= 3 * layout.program@.len(),
            model.graph.graph.decodable(),
            model.graph.graph.num_nodes >= nz * (num_rounds + 1),
            model.graph.correction_x@.len() == model.graph.graph.edges@.len(),
            model.graph.correction_z@.len() == model.graph.graph.edges@.len(),
            forall|x: u128, z: u128| #[trigger] is_logical.requires((x, z)),
            tested == (round - 1) * nloc,
            failures <= tested,
            forall|rr: nat, kk: int|
                1 <= rr < round && 0 <= kk < nloc ==> #[trigger] combined_outcome_ok(is_logical, *layout, *model, rounds_total as nat, decoder_type, rr, kk, out(rr, kk)),
            failures == marked_total(out, nloc, (round - 1) as nat),
    {
        let locations_here = layout.fault_locations();
        proof {
            assert((round - 1) * nloc + nloc <= num_rounds * (3 * layout.program@.len())) by (nonlinear_arith)
                requires
                    round - 1 < num_rounds,
                    nloc <= 3 * layout.program@.len(),
            ;
            assert(num_rounds * (3 * layout.program@.len()) == 3 * (num_rounds * layout.program@.len()))
                by (nonlinear_arith);
        }
        for k in 0..locations_here.len()
            invariant
                layout.wf(),
                layout.num_data <= 128,
                1 <= round < rounds_total - 1,
                rounds_total == num_rounds + 2,
                nz == layout.num_z_stabs,
                rounds_total * layout.num_x_stabs <= usize::MAX / 8,
                rounds_total * nz <= usize::MAX / 8,
                locations_here@.len() == nloc,
                (round - 1) * nloc + nloc <= usize::MAX / 2,
                model.graph.graph.decodable(),
                model.graph.graph.num_nodes >= nz * (num_rounds + 1),
                model.graph.correction_x@.len() == model.graph.graph.edges@.len(),
                model.graph.correction_z@.len() == model.graph.graph.edges@.len(),
                forall|x: u128, z: u128| #[trigger] is_logical.requires((x, z)),
                tested == (round - 1) * nloc + k,
                failures <= tested,
                locations_here@ == locations(layout.program@, layout.program@.len()),
                forall|rr: nat, kk: int|
                    (1 <= rr < round && 0 <= kk < nloc) || (rr == round && 0 <= kk < k) ==> #[trigger] combined_outcome_ok(is_logical, *layout, *model, rounds_total as nat, decoder_type, rr, kk, out(rr, kk)),
                failures == marked_total(out, nloc, (round - 1) as nat) + marked_round(out, round as nat, k as nat),
        {
            let (fault, _) = locations_here[k];
            let effect = layout.propagate(fault, round, rounds_total);
            tested += 1;
            proof {
                assert(nz * rounds_total == rounds_total * nz) by (nonlinear_arith);
            }
            let d = detectors(&effect.flips_z_stab, nz, rounds_total);
            let defects = defects_from(&d, model.graph.graph.num_nodes);
            let (cx, cz) = correction_for_combined(&model.graph, &defects, decoder_type, &none);
            let bad = is_logical(effect.residual_x ^ cx, effect.residual_z ^ cz);
            let ghost prev_out = out;
            proof {
                let rr0 = round as nat;
                let kk0 = k as int;
                out = |rr: nat, kk: int| if rr == rr0 && kk == kk0 { (cx, cz, bad) } else { prev_out(rr, kk) };
                assert(defects@ =~= fired_defects(d@, model.graph.graph.num_nodes as nat));
                assert(combined_answer_ok(*layout, *model, rounds_total as nat, decoder_type, rr0, kk0, (out(rr0, kk0).0, out(rr0, kk0).1)));
                assert(corrected_residual(*layout, rounds_total as nat, rr0, kk0, (out(rr0, kk0).0, out(rr0, kk0).1)) == (effect.residual_x ^ cx, effect.residual_z ^ cz));
                lemma_marked_round_frame(prev_out, out, rr0, k as nat);
                lemma_marked_total_frame(prev_out, out, nloc, (round - 1) as nat, rr0);
                assert forall|rr: nat, kk: int|
                    (1 <= rr < round && 0 <= kk < nloc) || (rr == round && 0 <= kk < k + 1) implies #[trigger] combined_outcome_ok(is_logical, *layout, *model, rounds_total as nat, decoder_type, rr, kk, out(rr, kk)) by {
                    if !(rr == rr0 && kk == kk0) {
                        assert(out(rr, kk) == prev_out(rr, kk));
                        assert(combined_outcome_ok(is_logical, *layout, *model, rounds_total as nat, decoder_type, rr, kk, prev_out(rr, kk)));
                    } else {
                        assert(combined_outcome_ok(is_logical, *layout, *model, rounds_total as nat, decoder_type, rr0, kk0, (cx, cz, bad)));
                    }
                }
            }
            if bad {
                failures += 1;
            }
        }
        proof {
            assert((round - 1) * nloc + nloc == round * nloc) by (nonlinear_arith);
            assert forall|rr: nat, kk: int| 1 <= rr < round + 1 && 0 <= kk < nloc implies #[trigger] combined_outcome_ok(is_logical, *layout, *model, rounds_total as nat, decoder_type, rr, kk, out(rr, kk)) by {
                assert((1 <= rr < round && 0 <= kk < nloc) || (rr == round && 0 <= kk < locations_here@.len()));
            }
        }
    }
    proof {
        assert(tested == num_rounds * nloc);
        assert(rounds_total as nat == (num_rounds + 2) as nat);
        let w = out;
        assert(failures == marked_total(w, locations(layout.program@, layout.program@.len()).len(), num_rounds as nat));
        assert forall|rr: nat, kk: int|
            1 <= rr <= num_rounds && 0 <= kk < locations(layout.program@, layout.program@.len()).len() implies #[trigger] combined_outcome_ok(is_logical, *layout, *model, (num_rounds + 2) as nat, decoder_type, rr, kk, w(rr, kk)) by {
            assert(combined_outcome_ok(is_logical, *layout, *model, rounds_total as nat, decoder_type, rr, kk, out(rr, kk)));
        }
    }
    (tested, failures)
}

/* ---------------------------------------------------------------------- */
/* Statistics                                                             */
/* ---------------------------------------------------------------------- */

/// The node pairs the mechanisms join.
pub open spec fn mech_pairs(cs: Seq<MechView>, nn: nat) -> Set<(usize, usize)> {
    Set::new(|p: (usize, usize)| exists|i: int| 0 <= i < cs.len() && mech_pair(cs[i], nn) == Some(p))
}

/// A tally has exactly one edge per node pair the mechanisms join.
pub proof fn lemma_edge_count(cs: Seq<MechView>, nn: nat, pairs: Seq<(usize, usize)>, best: Seq<(u128, u128)>)
    requires
        tally_ok(cs, nn, pairs, best),
    ensures
        pairs.len() == mech_pairs(cs, nn).len(),
{
    assert(pairs.no_duplicates()) by {
        assert forall|i: int, j: int| 0 <= i < pairs.len() && 0 <= j < pairs.len() && i != j implies pairs[i]
            != pairs[j] by {
            if i < j {
                assert(pair_lt(pairs[i], pairs[j]));
            } else {
                assert(pair_lt(pairs[j], pairs[i]));
            }
        }
    }
    pairs.unique_seq_to_set();
    assert(pairs.to_set() =~= mech_pairs(cs, nn)) by {
        assert forall|p: (usize, usize)| pairs.to_set().contains(p) implies mech_pairs(cs, nn).contains(p) by {
            let k = choose|k: int| 0 <= k < pairs.len() && pairs[k] == p;
            assert(is_best(cs, nn, pairs[k], best[k]));
            lemma_count_witness(cs, nn, p, best[k], cs.len());
        }
        assert forall|p: (usize, usize)| mech_pairs(cs, nn).contains(p) implies pairs.to_set().contains(p) by {
            let i = choose|i: int| 0 <= i < cs.len() && mech_pair(cs[i], nn) == Some(p);
            assert(mech_pair(cs[i], nn) is Some);
            let k = choose|k: int| 0 <= k < pairs.len() && pairs[k] == mech_pair(cs[i], nn)->0;
            assert(pairs[k] == p);
        }
    }
}

/// A detector count's bucket: the count itself, or 4 for four or more.
pub open spec fn bucket_of(n: nat) -> nat {
    if n < 4 {
        n
    } else {
        4
    }
}

/// How many detectors a fault fires in one family's graph.
pub open spec fn fault_detector_count(layout: CircuitLayout, rounds_total: nat, round: nat, fault: Fault, for_x: bool) -> nat {
    let eff = effect_spec(layout, fault, round, rounds_total);
    if for_x {
        detectors_spec(eff.3, layout.num_z_stabs as nat, rounds_total).len()
    } else {
        detectors_spec(eff.2, layout.num_x_stabs as nat, rounds_total).len()
    }
}

/// Faults among the first `k` locations of `round` whose detector count
/// falls into bucket `b` (Y faults left out when `skip_y`).
pub open spec fn bucket_round(
    layout: CircuitLayout,
    rounds_total: nat,
    round: nat,
    for_x: bool,
    skip_y: bool,
    b: nat,
    k: nat,
) -> nat
    decreases k,
{
    if k == 0 {
        0
    } else {
        let loc = locations(layout.program@, layout.program@.len())[k - 1];
        let skipped = skip_y && (loc.0 matches Fault::Gate(_, p) && p == 3);
        bucket_round(layout, rounds_total, round, for_x, skip_y, b, (k - 1) as nat) + if !skipped && bucket_of(
            fault_detector_count(layout, rounds_total, round, loc.0, for_x),
        ) == b {
            1nat
        } else {
            0nat
        }
    }
}

/// The same over noisy rounds `1..=rounds`.
pub open spec fn bucket_total(layout: CircuitLayout, rounds_total: nat, for_x: bool, skip_y: bool, b: nat, rounds: nat) -> nat
    decreases rounds,
{
    if rounds == 0 {
        0
    } else {
        bucket_total(layout, rounds_total, for_x, skip_y, b, (rounds - 1) as nat) + bucket_round(
            layout,
            rounds_total,
            rounds,
            for_x,
            skip_y,
            b,
            locations(layout.program@, layout.program@.len()).len(),
        )
    }
}

/// How many faults fall into each detector-count bucket, per graph.
/// Anything landing above two is a fault the graph cannot express.
pub struct ModelStats {
    pub x_buckets: [usize; 5],
    pub z_buckets: [usize; 5],
    pub x_edges: usize,
    pub z_edges: usize,
}

/// Count, over noisy rounds and fault locations, the faults in each bucket
/// (`counts[b]` for bucket `b`), for one family.
fn count_buckets(layout: &CircuitLayout, num_rounds: usize, for_x: bool, skip_y: bool) -> (counts: Vec<usize>)
    requires
        layout.wf(),
        layout.num_data <= 128,
        model_fits(*layout, num_rounds as nat),
    ensures
        counts@.len() == 5,
        forall|b: int|
            0 <= b < 5 ==> #[trigger] counts@[b] == bucket_total(
                *layout,
                (num_rounds + 2) as nat,
                for_x,
                skip_y,
                b as nat,
                num_rounds as nat,
            ),
{
    proof {
        lemma_model_fits(*layout, num_rounds as nat);
        lemma_locations_len(layout.program@, layout.program@.len());
    }
    let rounds_total = rounds_executed(num_rounds);
    let nx = layout.num_x_stabs;
    let nz = layout.num_z_stabs;
    let ghost rt = rounds_total as nat;
    let ghost locs = locations(layout.program@, layout.program@.len());
    let ghost nloc = locs.len();
    let mut counts: Vec<usize> = vec![0; 5];
    proof {
        assert(0 * nloc == 0);
    }
    for round in 1..rounds_total - 1
        invariant
            layout.wf(),
            layout.num_data <= 128,
            rounds_total == num_rounds + 2,
            rt == rounds_total,
            nx == layout.num_x_stabs,
            nz == layout.num_z_stabs,
            rounds_total * nx <= usize::MAX / 8,
            rounds_total * nz <= usize::MAX / 8,
            layout.program@.len() <= usize::MAX / 8,
            num_rounds * layout.program@.len() <= usize::MAX / 8,
            locs == locations(layout.program@, layout.program@.len()),
            nloc == locs.len(),
            nloc <= 3 * layout.program@.len(),
            counts@.len() == 5,
            forall|b: int|
                0 <= b < 5 ==> #[trigger] counts@[b] == bucket_total(*layout, rt, for_x, skip_y, b as nat, (round - 1) as nat),
            forall|b: int| 0 <= b < 5 ==> #[trigger] counts@[b] <= (round - 1) * nloc,
    {
        let locations_here = layout.fault_locations();
        let ghost c0 = counts@;
        proof {
            assert((round - 1) * nloc + nloc <= num_rounds * (3 * layout.program@.len())) by (nonlinear_arith)
                requires
                    round - 1 < num_rounds,
                    nloc <= 3 * layout.program@.len(),
            ;
            assert(num_rounds * (3 * layout.program@.len()) == 3 * (num_rounds * layout.program@.len()))
                by (nonlinear_arith);
        }
        for k in 0..locations_here.len()
            invariant
                layout.wf(),
                layout.num_data <= 128,
                1 <= round < rounds_total - 1,
                rounds_total == num_rounds + 2,
                rt == rounds_total,
                nx == layout.num_x_stabs,
                nz == layout.num_z_stabs,
                rounds_total * nx <= usize::MAX / 8,
                rounds_total * nz <= usize::MAX / 8,
                locations_here@ == locs,
                locs == locations(layout.program@, layout.program@.len()),
                nloc == locs.len(),
                (round - 1) * nloc + nloc <= usize::MAX / 2,
                counts@.len() == 5,
                forall|b: int|
                    0 <= b < 5 ==> #[trigger] counts@[b] == c0[b] + bucket_round(
                        *layout,
                        rt,
                        round as nat,
                        for_x,
                        skip_y,
                        b as nat,
                        k as nat,
                    ),
                forall|b: int| 0 <= b < 5 ==> #[trigger] counts@[b] <= (round - 1) * nloc + k,
        {
            let (fault, _) = locations_here[k];
            let ghost before = counts@;
            let skipped = skip_y && match fault {
                Fault::Gate(_, p) => p == 3,
                Fault::Readout(_) => false,
            };
            if !skipped {
                let effect = layout.propagate(fault, round, rounds_total);
                proof {
                    assert(nz * rounds_total == rounds_total * nz) by (nonlinear_arith);
                    assert(nx * rounds_total == rounds_total * nx) by (nonlinear_arith);
                }
                let d = if for_x {
                    detectors(&effect.flips_z_stab, nz, rounds_total)
                } else {
                    detectors(&effect.flips_x_stab, nx, rounds_total)
                };
                let b = if d.len() < 4 {
                    d.len()
                } else {
                    4
                };
                proof {
                    assert(locs[k as int] == (fault, locs[k as int].1));
                    assert(b == bucket_of(fault_detector_count(*layout, rt, round as nat, fault, for_x)));
                }
                let c = counts[b];
                counts.set(b, c + 1);
            }
            proof {
                assert forall|bb: int| 0 <= bb < 5 implies #[trigger] counts@[bb] == c0[bb] + bucket_round(
                    *layout,
                    rt,
                    round as nat,
                    for_x,
                    skip_y,
                    bb as nat,
                    (k + 1) as nat,
                ) by {
                    assert(locations(layout.program@, layout.program@.len())[k as int] == locs[k as int]);
                }
            }
        }
        proof {
            assert((round - 1) * nloc + nloc == round * nloc) by (nonlinear_arith);
        }
    }
    counts
}

/// Same enumeration as `build`, reporting where the faults land.
pub fn stats(layout: &CircuitLayout, num_rounds: usize) -> (st: ModelStats)
    requires
        layout.wf(),
        layout.num_data <= 128,
        model_fits(*layout, num_rounds as nat),
    ensures
        forall|b: int|
            0 <= b < 5 ==> #[trigger] st.x_buckets@[b] == bucket_total(
                *layout,
                (num_rounds + 2) as nat,
                true,
                false,
                b as nat,
                num_rounds as nat,
            ),
        forall|b: int|
            0 <= b < 5 ==> #[trigger] st.z_buckets@[b] == bucket_total(
                *layout,
                (num_rounds + 2) as nat,
                false,
                false,
                b as nat,
                num_rounds as nat,
            ),
        ({
            let rt = (num_rounds + 2) as nat;
            let ns = noise_count(layout.program@, layout.program@.len());
            let es = (ns * num_rounds) as nat;
            &&& st.x_edges == mech_pairs(
                css_mechs(*layout, rt, ns, es, true, num_rounds as nat),
                (layout.num_z_stabs * (num_rounds + 1)) as nat,
            ).len()
            &&& st.z_edges == mech_pairs(
                css_mechs(*layout, rt, ns, es, false, num_rounds as nat),
                (layout.num_x_stabs * (num_rounds + 1)) as nat,
            ).len()
        }),
{
    let cx = count_buckets(layout, num_rounds, true, false);
    let cz = count_buckets(layout, num_rounds, false, false);
    let model = build(layout, num_rounds);
    let ghost rt = (num_rounds + 2) as nat;
    let ghost ns = noise_count(layout.program@, layout.program@.len());
    let ghost es = (ns * num_rounds) as nat;
    proof {
        let gx = model.for_x_errors;
        lemma_edge_count(
            css_mechs(*layout, rt, ns, es, true, num_rounds as nat),
            (layout.num_z_stabs * (num_rounds + 1)) as nat,
            edge_pairs(gx.graph.edges@),
            Seq::new(gx.graph.edges@.len(), |k: int| (gx.correction@[k], 0u128)),
        );
        let gz = model.for_z_errors;
        lemma_edge_count(
            css_mechs(*layout, rt, ns, es, false, num_rounds as nat),
            (layout.num_x_stabs * (num_rounds + 1)) as nat,
            edge_pairs(gz.graph.edges@),
            Seq::new(gz.graph.edges@.len(), |k: int| (gz.correction@[k], 0u128)),
        );
    }
    let st = ModelStats {
        x_buckets: [cx[0], cx[1], cx[2], cx[3], cx[4]],
        z_buckets: [cz[0], cz[1], cz[2], cz[3], cz[4]],
        x_edges: model.for_x_errors.graph.edges.len(),
        z_edges: model.for_z_errors.graph.edges.len(),
    };
    proof {
        assert forall|b: int| 0 <= b < 5 implies #[trigger] st.x_buckets@[b] == cx@[b] by {
            assert(st.x_buckets@ =~= seq![cx@[0], cx@[1], cx@[2], cx@[3], cx@[4]]);
        }
        assert forall|b: int| 0 <= b < 5 implies #[trigger] st.z_buckets@[b] == cz@[b] by {
            assert(st.z_buckets@ =~= seq![cz@[0], cz@[1], cz@[2], cz@[3], cz@[4]]);
        }
    }
    st
}

/// How many faults land in each detector-count bucket for a combined graph
/// (Y faults excluded, as in `build_combined`), and how many edges it has.
pub fn stats_combined(layout: &CircuitLayout, num_rounds: usize) -> (r: ([usize; 5], usize))
    requires
        layout.wf(),
        layout.num_data <= 128,
        model_fits(*layout, num_rounds as nat),
    ensures
        forall|b: int|
            0 <= b < 5 ==> #[trigger] r.0@[b] == bucket_total(
                *layout,
                (num_rounds + 2) as nat,
                true,
                true,
                b as nat,
                num_rounds as nat,
            ),
        ({
            let rt = (num_rounds + 2) as nat;
            let ns = noise_count(layout.program@, layout.program@.len());
            let es = (ns * num_rounds) as nat;
            r.1 == mech_pairs(
                combined_mechs(*layout, rt, ns, es, num_rounds as nat),
                (layout.num_z_stabs * (num_rounds + 1)) as nat,
            ).len()
        }),
{
    let c = count_buckets(layout, num_rounds, true, true);
    let model = build_combined(layout, num_rounds);
    let ghost rt = (num_rounds + 2) as nat;
    let ghost ns = noise_count(layout.program@, layout.program@.len());
    let ghost es = (ns * num_rounds) as nat;
    proof {
        let g = model.graph;
        lemma_edge_count(
            combined_mechs(*layout, rt, ns, es, num_rounds as nat),
            (layout.num_z_stabs * (num_rounds + 1)) as nat,
            edge_pairs(g.graph.edges@),
            Seq::new(g.graph.edges@.len(), |k: int| (g.correction_x@[k], g.correction_z@[k])),
        );
    }
    let buckets = [c[0], c[1], c[2], c[3], c[4]];
    proof {
        assert forall|b: int| 0 <= b < 5 implies #[trigger] buckets@[b] == c@[b] by {
            assert(buckets@ =~= seq![c@[0], c@[1], c@[2], c@[3], c@[4]]);
        }
    }
    (buckets, model.graph.graph.edges.len())
}

} // verus!
