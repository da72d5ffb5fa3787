//! One shot of circuit-level noise: the noise is drawn beforehand, the round
//! program is run on a Pauli frame (and, for the rotated code, on a stabilizer
//! simulator whose readings give the detection events), the events are
//! decoded against the detector model and the residual is classified.
use vstd::prelude::*;

use crate::circuit_model::{
    apply_x, apply_z, correction_for_combined, decoder_ok, lemma_pauli_bits, mask_from, noise_count, op_in_range,
    op_ok, rounds_executed, step_spec, to_mask, xor_masks, CombinedModel, Frame, Op, StabKind,
};
use crate::logical_check::lemma_identity_is_trivial;
use crate::circuit_model::{correction_for, CircuitModel, DetectorGraph};
use crate::shot::{detection_layers, erased_from_sites, rotated_supports, strided_mask, support_class};
use crate::simulator::StabilizerSimulator;
use crate::tableau::TableauView;
use crate::surface_code::{RotatedSurfaceCode, XZZXSurfaceCode};

verus! {

/// The frame `(x, z)` and the recorded outcome flips.
pub type ShotState = (Seq<bool>, Seq<bool>, Seq<bool>);

/// One op of round `r`, holding noise slot `slot` if it is a noise location:
/// the noise location takes the Pauli drawn for it, a measurement records
/// whether the frame flips it, crossed with the readout error drawn for it.
pub open spec fn shot_op(
    st: ShotState,
    op: Op,
    slot: nat,
    r: nat,
    paulis: Seq<u8>,
    readout: Seq<bool>,
    slots: nat,
    ns: nat,
) -> ShotState {
    match op {
        Op::Noise(q) => {
            let p = paulis[(r * slots + slot) as int];
            (apply_x(st.0, q as int, p), apply_z(st.1, q as int, p), st.2)
        },
        _ => {
            let (x2, z2, out) = step_spec(st.0, st.1, op);
            match out {
                Some((_, idx, flipped)) => (x2, z2, st.2.update(r * ns + idx, flipped != readout[r * ns + idx])),
                None => (x2, z2, st.2),
            }
        },
    }
}

/// The first `k` ops of round `r`.
pub open spec fn shot_round(
    prog: Seq<Op>,
    st: ShotState,
    r: nat,
    k: nat,
    paulis: Seq<u8>,
    readout: Seq<bool>,
    slots: nat,
    ns: nat,
) -> ShotState
    decreases k,
{
    if k == 0 {
        st
    } else {
        shot_op(
            shot_round(prog, st, r, (k - 1) as nat, paulis, readout, slots, ns),
            prog[k - 1],
            noise_count(prog, (k - 1) as nat),
            r,
            paulis,
            readout,
            slots,
            ns,
        )
    }
}

/// The first `j` Paulis of a burst applied to the frame.
pub open spec fn shot_burst(st: ShotState, burst: Seq<(usize, u8)>, j: nat) -> ShotState
    decreases j,
{
    if j == 0 {
        st
    } else {
        let prev = shot_burst(st, burst, (j - 1) as nat);
        let (q, p) = burst[j - 1];
        (apply_x(prev.0, q as int, p), apply_z(prev.1, q as int, p), prev.2)
    }
}

/// The first `rounds` rounds, each followed by its burst.
pub open spec fn shot_rounds(
    prog: Seq<Op>,
    st: ShotState,
    rounds: nat,
    paulis: Seq<u8>,
    readout: Seq<bool>,
    bursts: Seq<Seq<(usize, u8)>>,
    slots: nat,
    ns: nat,
) -> ShotState
    decreases rounds,
{
    if rounds == 0 {
        st
    } else {
        let before = shot_rounds(prog, st, (rounds - 1) as nat, paulis, readout, bursts, slots, ns);
        let after = shot_round(prog, before, (rounds - 1) as nat, prog.len(), paulis, readout, slots, ns);
        shot_burst(after, bursts[rounds - 1], bursts[rounds - 1].len())
    }
}

/// The bursts as sequences.
pub open spec fn burst_views(bursts: Seq<Vec<(usize, u8)>>) -> Seq<Seq<(usize, u8)>> {
    bursts.map_values(|b: Vec<(usize, u8)>| b@)
}

/// `n` bits, all clear.
pub open spec fn blank(n: nat) -> Seq<bool> {
    Seq::new(n, |i: int| false)
}

/// The detection events of `flips`: stabilizer `s` in layer `t` fires when
/// its outcome changes from round `t` to round `t + 1`.
pub open spec fn events_of(flips: Seq<bool>, ns: nat, layers: nat, len: nat) -> Seq<bool> {
    Seq::new(len, |i: int| i < ns * layers && flips[i + ns] != flips[i])
}

/// Counting noise locations is monotone in the prefix length.
proof fn lemma_noise_count_mono(prog: Seq<Op>, a: nat, b: nat)
    requires
        a <= b,
    ensures
        noise_count(prog, a) <= noise_count(prog, b),
    decreases b,
{
    if a < b {
        lemma_noise_count_mono(prog, a, (b - 1) as nat);
    }
}

proof fn lemma_noise_count_step(prog: Seq<Op>, i: nat)
    requires
        i < prog.len(),
        prog[i as int] is Noise,
    ensures
        noise_count(prog, i) < noise_count(prog, prog.len()),
{
    lemma_noise_count_mono(prog, i + 1, prog.len());
}

/// The frame and outcome flips after running the noise through every round.
pub open spec fn xzzx_final(
    code: XZZXSurfaceCode,
    model: CombinedModel,
    num_rounds: usize,
    paulis: Seq<u8>,
    readout_flips: Seq<bool>,
    bursts: Seq<Seq<(usize, u8)>>,
) -> ShotState {
    let nq = code.num_qubits_spec();
    let ns = code.stabilizers@.len();
    let rt = (num_rounds + 2) as nat;
    shot_rounds(
        code.ordered_spec(XZZXSurfaceCode::SCHEDULE_A, XZZXSurfaceCode::SCHEDULE_B),
        (blank(nq), blank(nq), blank(ns * rt)),
        rt,
        paulis,
        readout_flips,
        bursts,
        model.noise_slots as nat,
        ns,
    )
}

/// How many detection events the decoder is handed: one per node, and at
/// least one per plaquette and layer.
pub open spec fn events_len(code: XZZXSurfaceCode, model: CombinedModel, num_rounds: usize) -> nat {
    let nn = model.graph.graph.num_nodes as nat;
    let m = code.stabilizers@.len() * (num_rounds + 1);
    if nn > m {
        nn
    } else {
        m as nat
    }
}

/// `class` is the logical class of the residual that running the noise
/// through the round program leaves, corrected by an answer the decoder may
/// give on the detection events.
pub open spec fn xzzx_shot_class_ok(
    code: XZZXSurfaceCode,
    model: CombinedModel,
    num_rounds: usize,
    paulis: Seq<u8>,
    readout_flips: Seq<bool>,
    bursts: Seq<Seq<(usize, u8)>>,
    decoder_type: usize,
    class: u8,
) -> bool {
    let fin = xzzx_final(code, model, num_rounds, paulis, readout_flips, bursts);
    let events = events_of(fin.2, code.stabilizers@.len(), (num_rounds + 1) as nat, events_len(code, model, num_rounds));
    exists|c: Seq<usize>|
        #[trigger] decoder_ok(model.graph.graph, events, decoder_type, c) && class == code.logical.class_spec(
            to_mask(fin.0, code.data_qubits@.len()) ^ xor_masks(model.graph.correction_x@, c),
            to_mask(fin.1, code.data_qubits@.len()) ^ xor_masks(model.graph.correction_z@, c),
        )
}

/// One shot of circuit-level noise on the XZZX code, from noise drawn
/// beforehand: `paulis[r * noise_slots + slot]` is the Pauli at noise slot
/// `slot` of round `r` (0 for none), `readout_flips[r * ns + s]` flips the
/// reading of plaquette `s` in round `r`, `bursts[r]` lists the Paulis applied
/// after round `r`, and `erased_sites` marks the erased sites of the model.
/// Returns the logical class the corrected residual falls into.
pub fn xzzx_circuit_class(
    code: &XZZXSurfaceCode,
    model: &CombinedModel,
    num_rounds: usize,
    paulis: &Vec<u8>,
    erased_sites: &Vec<bool>,
    readout_flips: &Vec<bool>,
    bursts: &Vec<Vec<(usize, u8)>>,
    decoder_type: usize,
) -> (class: u8)
    requires
        code.wf(),
        num_rounds <= usize::MAX / 4,
        model.noise_slots == noise_count(
            code.ordered_spec(XZZXSurfaceCode::SCHEDULE_A, XZZXSurfaceCode::SCHEDULE_B),
            code.ordered_spec(XZZXSurfaceCode::SCHEDULE_A, XZZXSurfaceCode::SCHEDULE_B).len(),
        ),
        model.graph.graph.decodable(),
        model.graph.correction_x@.len() == model.graph.graph.edges@.len(),
        model.graph.correction_z@.len() == model.graph.graph.edges@.len(),
        erased_sites@.len() <= model.graph.site_edges@.len(),
        (num_rounds + 2) * model.noise_slots <= paulis@.len(),
        (num_rounds + 2) * code.stabilizers@.len() <= readout_flips@.len(),
        (num_rounds + 2) * code.stabilizers@.len() <= usize::MAX / 4,
        bursts@.len() >= num_rounds + 2,
        forall|r: int, j: int|
            0 <= r < bursts@.len() && 0 <= j < bursts@[r]@.len() ==> (#[trigger] bursts@[r]@[j]).0
                < code.data_qubits@.len(),
    ensures
        xzzx_shot_class_ok(*code, *model, num_rounds, paulis@, readout_flips@, burst_views(bursts@), decoder_type, class),
{
    let ghost prog = code.ordered_spec(XZZXSurfaceCode::SCHEDULE_A, XZZXSurfaceCode::SCHEDULE_B);
    let ghost bv = burst_views(bursts@);
    let num_data = code.data_qubits.len();
    let num_stabs = code.stabilizers.len();
    let program = code.round_program();
    let rounds_total = rounds_executed(num_rounds);
    let slots = model.noise_slots;
    let nq = num_data + num_stabs;
    let mut frame = Frame::new(nq);
    proof {
        assert(num_stabs * rounds_total == (num_rounds + 2) * code.stabilizers@.len()) by (nonlinear_arith)
            requires
                num_stabs == code.stabilizers@.len(),
                rounds_total == num_rounds + 2,
        ;
    }
    let mut flips = vec![false; num_stabs * rounds_total];
    let ghost paulis_v = paulis@;
    let ghost readout_v = readout_flips@;
    proof {
        assert(flips@ =~= Seq::new(num_stabs as nat * rounds_total as nat, |i: int| false));
        assert(shot_rounds(prog, (frame.x@, frame.z@, flips@), 0, paulis_v, readout_v, bv, slots as nat, num_stabs as nat)
            == (frame.x@, frame.z@, flips@));
    }
    let ghost init: ShotState = (frame.x@, frame.z@, flips@);
    let plen = paulis.len();
    for r in 0..rounds_total
        invariant
            code.wf(),
            program@ == prog,
            forall|i: int|
                0 <= i < program@.len() ==> op_ok(#[trigger] program@[i], nq as nat, 0, num_stabs as nat),
            nq == num_data + num_stabs,
            num_data == code.data_qubits@.len(),
            num_stabs == code.stabilizers@.len(),
            rounds_total == num_rounds + 2,
            slots == model.noise_slots,
            slots == noise_count(prog, prog.len()),
            rounds_total * slots <= paulis@.len(),
            rounds_total * num_stabs <= readout_flips@.len(),
            rounds_total * num_stabs <= usize::MAX / 4,
            plen == paulis@.len(),
            paulis_v == paulis@,
            readout_v == readout_flips@,
            bv == burst_views(bursts@),
            bursts@.len() >= rounds_total,
            forall|rr: int, j: int|
                0 <= rr < bursts@.len() && 0 <= j < bursts@[rr]@.len() ==> (#[trigger] bursts@[rr]@[j]).0
                    < num_data,
            frame.x@.len() == nq,
            frame.z@.len() == nq,
            flips@.len() == num_stabs * rounds_total,
            (frame.x@, frame.z@, flips@) == shot_rounds(
                prog,
                init,
                r as nat,
                paulis_v,
                readout_v,
                bv,
                slots as nat,
                num_stabs as nat,
            ),
    {
        let mut slot: usize = 0;
        let ghost start: ShotState = (frame.x@, frame.z@, flips@);
        for i in 0..program.len()
            invariant
                program@ == prog,
                forall|i: int|
                    0 <= i < program@.len() ==> op_ok(#[trigger] program@[i], nq as nat, 0, num_stabs as nat),
                r < rounds_total,
                slots == noise_count(prog, prog.len()),
                rounds_total * slots <= paulis@.len(),
                rounds_total * num_stabs <= readout_flips@.len(),
                rounds_total * num_stabs <= usize::MAX / 4,
                plen == paulis@.len(),
                paulis_v == paulis@,
                readout_v == readout_flips@,
                frame.x@.len() == nq,
                frame.z@.len() == nq,
                flips@.len() == num_stabs * rounds_total,
                slot == noise_count(prog, i as nat),
                (frame.x@, frame.z@, flips@) == shot_round(
                    prog,
                    start,
                    r as nat,
                    i as nat,
                    paulis_v,
                    readout_v,
                    slots as nat,
                    num_stabs as nat,
                ),
        {
            let op = program[i];
            assert(op_ok(program@[i as int], nq as nat, 0, num_stabs as nat));
            match op {
                Op::Noise(q) => {
                    proof {
                        lemma_noise_count_step(prog, i as nat);
                        assert(r * slots + slot < rounds_total * slots && r * slots <= rounds_total * slots) by (nonlinear_arith)
                            requires
                                r < rounds_total,
                                slot < slots,
                        ;
                    }
                    let p = paulis[r * slots + slot];
                    frame.apply(q, p);
                    slot = slot + 1;
                },
                Op::Measure(_, _, idx) => {
                    let out = frame.step(op);
                    let m = match out {
                        Some((_, _, flipped)) => flipped,
                        None => false,
                    };
                    proof {
                        assert(r * num_stabs + idx < rounds_total * num_stabs) by (nonlinear_arith)
                            requires
                                r < rounds_total,
                                idx < num_stabs,
                        ;
                    }
                    let pos = r * num_stabs + idx;
                    let rf = readout_flips[pos];
                    flips.set(pos, m != rf);
                },
                _ => {
                    frame.step(op);
                },
            }
        }
        let burst = &bursts[r];
        let ghost mid: ShotState = (frame.x@, frame.z@, flips@);
        proof {
            assert(burst@ == bv[r as int]);
        }
        for j in 0..burst.len()
            invariant
                burst@ == bv[r as int],
                forall|jj: int| 0 <= jj < burst@.len() ==> (#[trigger] burst@[jj]).0 < num_data,
                nq == num_data + num_stabs,
                frame.x@.len() == nq,
                frame.z@.len() == nq,
                flips@.len() == num_stabs * rounds_total,
                (frame.x@, frame.z@, flips@) == shot_burst(mid, burst@, j as nat),
        {
            let (q, p) = burst[j];
            frame.apply(q, p);
        }
    }
    proof {
        assert(nq as nat == code.num_qubits_spec());
    }
    let layers = num_rounds + 1;
    proof {
        assert(num_stabs * layers + num_stabs == num_stabs * rounds_total) by (nonlinear_arith)
            requires
                layers + 1 == rounds_total,
        ;
    }
    let nn = model.graph.graph.num_nodes;
    let len = if nn > num_stabs * layers {
        nn
    } else {
        num_stabs * layers
    };
    let defects = detection_layers(&flips, num_stabs, layers, len);
    let erased = erased_from_sites(&model.graph.site_edges, erased_sites, model.graph.graph.edges.len());
    let (cx, cz) = correction_for_combined(&model.graph, &defects, decoder_type, &erased);
    let rx = mask_from(&frame.x, num_data);
    let rz = mask_from(&frame.z, num_data);
    proof {
        assert(defects@ =~= events_of(flips@, num_stabs as nat, layers as nat, len as nat));
    }
    let class = code.logical.classify(rx ^ cx, rz ^ cz);
    proof {
        let nqs = code.num_qubits_spec();
        let ns = code.stabilizers@.len();
        let rt = (num_rounds + 2) as nat;
        assert(init.0 =~= blank(nqs));
        assert(init.1 =~= blank(nqs));
        assert(init.2 =~= blank(ns * rt));
        assert(flips@.len() == ns * rt);
        assert((frame.x@, frame.z@, flips@) == shot_rounds(
            prog,
            (blank(nqs), blank(nqs), blank(ns * rt)),
            rt,
            paulis@,
            readout_flips@,
            burst_views(bursts@),
            model.noise_slots as nat,
            ns,
        ));
        assert(rx == to_mask(frame.x@, code.data_qubits@.len()));
        assert(rz == to_mask(frame.z@, code.data_qubits@.len()));
        let c = choose|c: Seq<usize>|
            decoder_ok(model.graph.graph, defects@, decoder_type, c) && cx == xor_masks(model.graph.correction_x@, c)
                && cz == xor_masks(model.graph.correction_z@, c);
        assert(decoder_ok(
            model.graph.graph,
            events_of(flips@, num_stabs as nat, layers as nat, len as nat),
            decoder_type,
            c,
        ));
        assert(class == code.logical.class_spec(
            to_mask(frame.x@, code.data_qubits@.len()) ^ xor_masks(model.graph.correction_x@, c),
            to_mask(frame.z@, code.data_qubits@.len()) ^ xor_masks(model.graph.correction_z@, c),
        ));
        let fin = xzzx_final(*code, *model, num_rounds, paulis@, readout_flips@, burst_views(bursts@));
        assert(fin.0 == frame.x@ && fin.1 == frame.z@ && fin.2 == flips@);
        assert(events_len(*code, *model, num_rounds) == len as nat);
        let events = events_of(fin.2, code.stabilizers@.len(), (num_rounds + 1) as nat, events_len(*code, *model, num_rounds));
        assert(events == events_of(flips@, num_stabs as nat, layers as nat, len as nat));
        assert(decoder_ok(model.graph.graph, events, decoder_type, c));
        assert(xzzx_shot_class_ok(*code, *model, num_rounds, paulis@, readout_flips@, burst_views(bursts@), decoder_type, class));
    }
    class
}

/// `m` is a mask that decoding `defects` on `dg` can give.
pub open spec fn decoded_on(dg: DetectorGraph, defects: Seq<bool>, decoder_type: usize, m: u128) -> bool {
    exists|c: Seq<usize>| #[trigger] decoder_ok(dg.graph, defects, decoder_type, c) && m == xor_masks(dg.correction@, c)
}

/// The frame after running the noise through every round of the rotated
/// code's program (the outcome part is the frame's own record).
pub open spec fn rotated_final(
    code: RotatedSurfaceCode,
    model: CircuitModel,
    num_rounds: usize,
    paulis: Seq<u8>,
    readout_flips: Seq<bool>,
    bursts: Seq<Seq<(usize, u8)>>,
) -> ShotState {
    let nq = code.num_qubits_spec();
    let ns = code.x_stabilizers@.len() + code.z_stabilizers@.len();
    let rt = (num_rounds + 2) as nat;
    shot_rounds(
        code.program_spec(),
        (blank(nq), blank(nq), blank(ns * rt)),
        rt,
        paulis,
        readout_flips,
        bursts,
        model.noise_slots as nat,
        ns,
    )
}

/// The tableau and the readings of the X and of the Z plaquettes.
pub type TabState = (TableauView, Seq<bool>, Seq<bool>);

/// `o` is an outcome measuring `Z_q` can give: either bit when it is random,
/// the determined value otherwise.
pub open spec fn outcome_ok(v: TableauView, q: int, o: u8) -> bool {
    &&& (v.pivot(q) >= 0 ==> o <= 1)
    &&& (v.pivot(q) < 0 ==> o == v.determined_outcome(q))
}

/// The Pauli `p` (1 = X, 2 = Z, 3 = Y, else none) applied to qubit `q`.
pub open spec fn pauli_on(v: TableauView, q: int, p: u8) -> TableauView {
    if p == 1 {
        v.px(q)
    } else if p == 2 {
        v.pz(q)
    } else if p == 3 {
        v.py(q)
    } else {
        v
    }
}

/// One op of round `r` on the tableau, with outcome `o` for a reset or a
/// measurement: a reset measures and flips back to 0, a measurement records
/// its reading crossed with the readout error drawn for it.
pub open spec fn tab_step(
    a: TabState,
    op: Op,
    slot: nat,
    r: nat,
    paulis: Seq<u8>,
    readout: Seq<bool>,
    slots: nat,
    nx: nat,
    nz: nat,
    o: u8,
) -> TabState {
    match op {
        Op::Reset(q) => {
            let v = a.0.measured(q as int, o);
            (if o == 1 {
                v.px(q as int)
            } else {
                v
            }, a.1, a.2)
        },
        Op::H(q) => (a.0.h(q as int), a.1, a.2),
        Op::Cnot(c, t) => (a.0.cnot(c as int, t as int), a.1, a.2),
        Op::Cz(x, y) => (a.0.h(y as int).cnot(x as int, y as int).h(y as int), a.1, a.2),
        Op::Noise(q) => (pauli_on(a.0, q as int, paulis[(r * slots + slot) as int]), a.1, a.2),
        Op::Measure(q, kind, idx) => {
            let v = a.0.measured(q as int, o);
            let ns = nx + nz;
            match kind {
                StabKind::X => (v, a.1.update(r * nx + idx, (o == 1) != readout[r * ns + idx]), a.2),
                StabKind::Z => (v, a.1, a.2.update(r * nz + idx, (o == 1) != readout[r * ns + nx + idx])),
            }
        },
    }
}

/// `b` is a state one op can lead to from `a`: an outcome that measuring can
/// give is taken for each reset and measurement.
#[verifier::opaque]
pub open spec fn tab_op_rel(
    a: TabState,
    op: Op,
    slot: nat,
    r: nat,
    paulis: Seq<u8>,
    readout: Seq<bool>,
    slots: nat,
    nx: nat,
    nz: nat,
    b: TabState,
) -> bool {
    match op {
        Op::Reset(q) => exists|o: u8|
            outcome_ok(a.0, q as int, o) && b == #[trigger] tab_step(a, op, slot, r, paulis, readout, slots, nx, nz, o),
        Op::Measure(q, _, _) => exists|o: u8|
            outcome_ok(a.0, q as int, o) && b == #[trigger] tab_step(a, op, slot, r, paulis, readout, slots, nx, nz, o),
        _ => b == tab_step(a, op, slot, r, paulis, readout, slots, nx, nz, 0),
    }
}

/// `tr` walks the first `k` ops of round `r`: each state is one the op
/// before it can lead to.
#[verifier::opaque]
pub open spec fn round_trace(
    prog: Seq<Op>,
    tr: Seq<TabState>,
    r: nat,
    k: nat,
    paulis: Seq<u8>,
    readout: Seq<bool>,
    slots: nat,
    nx: nat,
    nz: nat,
) -> bool {
    &&& tr.len() == k + 1
    &&& forall|j: int|
        0 <= j < k ==> tab_op_rel(
            #[trigger] tr[j],
            prog[j],
            noise_count(prog, j as nat),
            r,
            paulis,
            readout,
            slots,
            nx,
            nz,
            tr[j + 1],
        )
}

/// `b` is a state the first `k` ops of round `r` can lead to from `a`.
pub open spec fn tab_round_rel(
    prog: Seq<Op>,
    a: TabState,
    r: nat,
    k: nat,
    paulis: Seq<u8>,
    readout: Seq<bool>,
    slots: nat,
    nx: nat,
    nz: nat,
    b: TabState,
) -> bool {
    exists|tr: Seq<TabState>|
        #[trigger] round_trace(prog, tr, r, k, paulis, readout, slots, nx, nz) && tr[0] == a && tr[k as int] == b
}

/// The first `j` Paulis of a burst applied to the tableau.
pub open spec fn tab_burst(a: TabState, burst: Seq<(usize, u8)>, j: nat) -> TabState
    decreases j,
{
    if j == 0 {
        a
    } else {
        let prev = tab_burst(a, burst, (j - 1) as nat);
        (pauli_on(prev.0, burst[j - 1].0 as int, burst[j - 1].1), prev.1, prev.2)
    }
}

/// Round `j` followed by its burst can lead from `a` to `b`.
pub open spec fn round_step_rel(
    prog: Seq<Op>,
    a: TabState,
    j: nat,
    paulis: Seq<u8>,
    readout: Seq<bool>,
    bursts: Seq<Seq<(usize, u8)>>,
    slots: nat,
    nx: nat,
    nz: nat,
    b: TabState,
) -> bool {
    exists|m: TabState|
        #[trigger] tab_round_rel(prog, a, j, prog.len(), paulis, readout, slots, nx, nz, m) && b == tab_burst(
            m,
            bursts[j as int],
            bursts[j as int].len(),
        )
}

/// `b` is a state the first `rounds` rounds, each followed by its burst, can
/// lead to from `a`.
pub open spec fn tab_rounds_rel(
    prog: Seq<Op>,
    a: TabState,
    rounds: nat,
    paulis: Seq<u8>,
    readout: Seq<bool>,
    bursts: Seq<Seq<(usize, u8)>>,
    slots: nat,
    nx: nat,
    nz: nat,
    b: TabState,
) -> bool {
    exists|trs: Seq<TabState>|
        #[trigger] rounds_trace(prog, trs, rounds, paulis, readout, bursts, slots, nx, nz) && trs[0] == a
            && trs[rounds as int] == b
}

/// `trs` walks the first `rounds` rounds: each state is one the round (and
/// burst) before it can lead to.
#[verifier::opaque]
pub open spec fn rounds_trace(
    prog: Seq<Op>,
    trs: Seq<TabState>,
    rounds: nat,
    paulis: Seq<u8>,
    readout: Seq<bool>,
    bursts: Seq<Seq<(usize, u8)>>,
    slots: nat,
    nx: nat,
    nz: nat,
) -> bool {
    &&& trs.len() == rounds + 1
    &&& forall|j: int|
        0 <= j < rounds ==> round_step_rel(
            prog,
            #[trigger] trs[j],
            j as nat,
            paulis,
            readout,
            bursts,
            slots,
            nx,
            nz,
            trs[j + 1],
        )
}

/// Hadamards on qubits `0..k`.
pub open spec fn h_prefix(v: TableauView, k: nat) -> TableauView
    decreases k,
{
    if k == 0 {
        v
    } else {
        h_prefix(v, (k - 1) as nat).h(k - 1)
    }
}

/// The tableau the shot starts from: `|0...0>`, with the data qubits turned
/// to `|+>` when `plus`.
pub open spec fn tab_start(code: RotatedSurfaceCode, num_rounds: usize, plus: bool) -> TabState {
    let v0 = TableauView::initial(code.num_qubits_spec());
    let rt = (num_rounds + 2) as nat;
    (if plus {
        h_prefix(v0, code.data_qubits@.len())
    } else {
        v0
    }, blank(code.x_stabilizers@.len() * rt), blank(code.z_stabilizers@.len() * rt))
}

/// The larger of `a` and `b`.
pub open spec fn at_least(a: nat, b: nat) -> nat {
    if a > b {
        a
    } else {
        b
    }
}

/// `class` is the class of the frame's residual once corrected by answers
/// the two decoders may give on the detection events of the readings `t`:
/// bit 0 when the X part crosses the logical column, bit 1 when the Z part
/// crosses the row.
pub open spec fn rotated_class_from(
    code: RotatedSurfaceCode,
    model: CircuitModel,
    num_rounds: usize,
    fin: ShotState,
    t: TabState,
    decoder_type: usize,
    class: u8,
) -> bool {
    let nd = code.data_qubits@.len();
    let d = code.d as nat;
    let nx = code.x_stabilizers@.len();
    let nz = code.z_stabilizers@.len();
    let layers = (num_rounds + 1) as nat;
    let len_z = at_least(model.for_x_errors.graph.num_nodes as nat, nz * layers);
    let len_x = at_least(model.for_z_errors.graph.num_nodes as nat, nx * layers);
    exists|mx: u128, mz: u128|
        #[trigger] decoded_on(model.for_x_errors, events_of(t.2, nz, layers, len_z), decoder_type, mx)
            && #[trigger] decoded_on(model.for_z_errors, events_of(t.1, nx, layers, len_x), decoder_type, mz)
            && class == (if crate::bits::parity((to_mask(fin.0, nd) ^ mx) & strided_mask(d, d)) {
            1u8
        } else {
            0u8
        }) + (if crate::bits::parity((to_mask(fin.1, nd) ^ mz) & strided_mask(1, d)) {
            2u8
        } else {
            0u8
        })
}

/// `class` is what a run of the shot gives: the tableau takes outcomes that
/// its measurements can give, their readings (crossed with the readout
/// errors) give the detection events, and the frame gives the residual.
pub open spec fn rotated_shot_class_ok(
    code: RotatedSurfaceCode,
    model: CircuitModel,
    num_rounds: usize,
    plus: bool,
    paulis: Seq<u8>,
    readout_flips: Seq<bool>,
    bursts: Seq<Seq<(usize, u8)>>,
    decoder_type: usize,
    class: u8,
) -> bool {
    let fin = rotated_final(code, model, num_rounds, paulis, readout_flips, bursts);
    exists|t: TabState|
        #[trigger] tab_rounds_rel(
            code.program_spec(),
            tab_start(code, num_rounds, plus),
            (num_rounds + 2) as nat,
            paulis,
            readout_flips,
            bursts,
            model.noise_slots as nat,
            code.x_stabilizers@.len(),
            code.z_stabilizers@.len(),
            t,
        ) && rotated_class_from(code, model, num_rounds, fin, t, decoder_type, class)
}

proof fn lemma_round_trace_push(
    prog: Seq<Op>,
    tr: Seq<TabState>,
    r: nat,
    i: nat,
    paulis: Seq<u8>,
    readout: Seq<bool>,
    slots: nat,
    nx: nat,
    nz: nat,
    nxt: TabState,
)
    requires
        i < prog.len(),
        round_trace(prog, tr, r, i, paulis, readout, slots, nx, nz),
        tab_op_rel(tr[i as int], prog[i as int], noise_count(prog, i), r, paulis, readout, slots, nx, nz, nxt),
    ensures
        round_trace(prog, tr.push(nxt), r, i + 1, paulis, readout, slots, nx, nz),
        tr.push(nxt)[0] == tr[0],
        tr.push(nxt)[(i + 1) as int] == nxt,
{
    reveal(round_trace);
    let t2 = tr.push(nxt);
    assert forall|j: int|
        0 <= j < i + 1 implies tab_op_rel(
        #[trigger] t2[j],
        prog[j],
        noise_count(prog, j as nat),
        r,
        paulis,
        readout,
        slots,
        nx,
        nz,
        t2[j + 1],
    ) by {
        if j < i {
            assert(t2[j] == tr[j] && t2[j + 1] == tr[j + 1]);
            assert(tab_op_rel(tr[j], prog[j], noise_count(prog, j as nat), r, paulis, readout, slots, nx, nz, tr[j + 1]));
        } else {
            assert(t2[j] == tr[i as int] && t2[j + 1] == nxt);
        }
    }
}

proof fn lemma_rounds_trace_push(
    prog: Seq<Op>,
    rtr: Seq<TabState>,
    r: nat,
    paulis: Seq<u8>,
    readout: Seq<bool>,
    bursts: Seq<Seq<(usize, u8)>>,
    slots: nat,
    nx: nat,
    nz: nat,
    tr: Seq<TabState>,
    nxt: TabState,
)
    requires
        rounds_trace(prog, rtr, r, paulis, readout, bursts, slots, nx, nz),
        round_trace(prog, tr, r, prog.len(), paulis, readout, slots, nx, nz),
        tr[0] == rtr[r as int],
        nxt == tab_burst(tr[prog.len() as int], bursts[r as int], bursts[r as int].len()),
    ensures
        rounds_trace(prog, rtr.push(nxt), r + 1, paulis, readout, bursts, slots, nx, nz),
        rtr.push(nxt)[0] == rtr[0],
        rtr.push(nxt)[(r + 1) as int] == nxt,
{
    reveal(rounds_trace);
    let m = tr[prog.len() as int];
    assert(tab_round_rel(prog, rtr[r as int], r, prog.len(), paulis, readout, slots, nx, nz, m));
    assert(round_step_rel(prog, rtr[r as int], r, paulis, readout, bursts, slots, nx, nz, nxt));
    let t2 = rtr.push(nxt);
    assert forall|j: int|
        0 <= j < r + 1 implies round_step_rel(
        prog,
        #[trigger] t2[j],
        j as nat,
        paulis,
        readout,
        bursts,
        slots,
        nx,
        nz,
        t2[j + 1],
    ) by {
        if j < r {
            assert(t2[j] == rtr[j] && t2[j + 1] == rtr[j + 1]);
            assert(round_step_rel(prog, rtr[j], j as nat, paulis, readout, bursts, slots, nx, nz, rtr[j + 1]));
        } else {
            assert(t2[j] == rtr[r as int] && t2[j + 1] == nxt);
        }
    }
}

proof fn lemma_trace_start(
    prog: Seq<Op>,
    a: TabState,
    r: nat,
    paulis: Seq<u8>,
    readout: Seq<bool>,
    bursts: Seq<Seq<(usize, u8)>>,
    slots: nat,
    nx: nat,
    nz: nat,
)
    ensures
        round_trace(prog, seq![a], r, 0, paulis, readout, slots, nx, nz),
        rounds_trace(prog, seq![a], 0, paulis, readout, bursts, slots, nx, nz),
{
    reveal(round_trace);
    reveal(rounds_trace);
}

/// Run one op of round `r` on the tableau, recording a measurement's reading
/// crossed with its drawn readout error.
fn tab_apply(
    sim: &mut StabilizerSimulator,
    flips_x: &mut Vec<bool>,
    flips_z: &mut Vec<bool>,
    op: Op,
    r: usize,
    slot: usize,
    slots: usize,
    num_x: usize,
    num_z: usize,
    paulis: &Vec<u8>,
    readout_flips: &Vec<bool>,
    rounds_total: usize,
)
    requires
        old(sim).wf(),
        op_ok(op, old(sim)@.n, num_x as nat, num_z as nat),
        r < rounds_total,
        op is Noise ==> slot < slots,
        rounds_total * slots <= paulis@.len(),
        rounds_total * (num_x + num_z) <= readout_flips@.len(),
        rounds_total * (num_x + num_z) <= usize::MAX / 4,
        old(flips_x)@.len() == num_x * rounds_total,
        old(flips_z)@.len() == num_z * rounds_total,
    ensures
        final(sim).wf(),
        final(sim)@.n == old(sim)@.n,
        final(flips_x)@.len() == old(flips_x)@.len(),
        final(flips_z)@.len() == old(flips_z)@.len(),
        tab_op_rel(
            (old(sim)@, old(flips_x)@, old(flips_z)@),
            op,
            slot as nat,
            r as nat,
            paulis@,
            readout_flips@,
            slots as nat,
            num_x as nat,
            num_z as nat,
            (final(sim)@, final(flips_x)@, final(flips_z)@),
        ),
{
    let ghost cur: TabState = (sim@, flips_x@, flips_z@);
    proof {
        assert(num_x + num_z <= rounds_total * (num_x + num_z)) by (nonlinear_arith)
            requires
                r < rounds_total,
        ;
    }
    let ns = num_x + num_z;
    let plen = paulis.len();
    let ghost mut oc: u8 = 0;
    proof {
        assert(num_x * rounds_total <= rounds_total * ns && num_z * rounds_total <= rounds_total * ns)
            by (nonlinear_arith)
            requires
                ns == num_x + num_z,
        ;
    }
    match op {
        Op::Reset(q) => {
            let o = sim.measure_z(q);
            if o == 1 {
                sim.apply_x(q);
            }
            proof {
                oc = o;
            }
        },
        Op::H(q) => {
            sim.apply_h(q);
        },
        Op::Cnot(c, t) => {
            sim.apply_cnot(c, t);
        },
        Op::Cz(a, b) => {
            sim.apply_h(b);
            sim.apply_cnot(a, b);
            sim.apply_h(b);
        },
        Op::Noise(q) => {
            proof {
                assert(r * slots + slot < rounds_total * slots && r * slots <= rounds_total * slots) by (nonlinear_arith)
                    requires
                        r < rounds_total,
                        slot < slots,
                ;
            }
            let p = paulis[r * slots + slot];
            if p == 1 {
                sim.apply_x(q);
            } else if p == 2 {
                sim.apply_z(q);
            } else if p == 3 {
                sim.apply_y(q);
            }
        },
        Op::Measure(q, kind, idx) => {
            let o = sim.measure_z(q);
            proof {
                oc = o;
            }
            let reading = o == 1;
            let at = match kind {
                StabKind::X => idx,
                StabKind::Z => num_x + idx,
            };
            proof {
                assert(r * ns + at < rounds_total * ns && r * ns <= rounds_total * ns) by (nonlinear_arith)
                    requires
                        r < rounds_total,
                        at < ns,
                ;
            }
            let m = reading != readout_flips[r * ns + at];
            match kind {
                StabKind::X => {
                    proof {
                        assert(r * num_x + idx < rounds_total * num_x && r * num_x <= rounds_total * num_x
                            && rounds_total * num_x == num_x * rounds_total) by (nonlinear_arith)
                            requires
                                r < rounds_total,
                                idx < num_x,
                        ;
                    }
                    flips_x.set(r * num_x + idx, m);
                },
                StabKind::Z => {
                    proof {
                        assert(r * num_z + idx < rounds_total * num_z && r * num_z <= rounds_total * num_z
                            && rounds_total * num_z == num_z * rounds_total) by (nonlinear_arith)
                            requires
                                r < rounds_total,
                                idx < num_z,
                        ;
                    }
                    flips_z.set(r * num_z + idx, m);
                },
            }
        },
    }
    proof {
        reveal(tab_op_rel);
        let nxt: TabState = (sim@, flips_x@, flips_z@);
        assert(nxt == tab_step(cur, op, slot as nat, r as nat, paulis@, readout_flips@, slots as nat, num_x as nat, num_z as nat, oc));
    }
}

/// One shot of circuit-level noise on the rotated code, from noise drawn
/// beforehand (laid out as for the XZZX shot; `readout_flips[r * ns + s]`
/// covers the X plaquettes, then the Z plaquettes at `s = num_x + j`). The circuit also runs on a
/// stabilizer simulator seeded with `tableau_seed`, starting in `|0...0>` or,
/// when `plus`, in `|+...+>` on the data qubits; its readings, crossed with
/// the readout errors, give the detection events. Returns the logical class.
#[verifier::spinoff_prover]
pub fn rotated_circuit_class(
    code: &RotatedSurfaceCode,
    model: &CircuitModel,
    num_rounds: usize,
    plus: bool,
    tableau_seed: u64,
    paulis: &Vec<u8>,
    erased_sites: &Vec<bool>,
    readout_flips: &Vec<bool>,
    bursts: &Vec<Vec<(usize, u8)>>,
    decoder_type: usize,
) -> (class: u8)
    requires
        code.wf(),
        code.data_qubits@.len() <= 128,
        (2 * code.num_qubits_spec() + 1) * ((code.num_qubits_spec() + 63) / 64) <= usize::MAX,
        num_rounds <= usize::MAX / 4,
        model.noise_slots == noise_count(code.program_spec(), code.program_spec().len()),
        model.for_x_errors.graph.decodable(),
        model.for_z_errors.graph.decodable(),
        model.for_x_errors.correction@.len() == model.for_x_errors.graph.edges@.len(),
        model.for_z_errors.correction@.len() == model.for_z_errors.graph.edges@.len(),
        erased_sites@.len() <= model.for_x_errors.site_edges@.len(),
        erased_sites@.len() <= model.for_z_errors.site_edges@.len(),
        (num_rounds + 2) * model.noise_slots <= paulis@.len(),
        (num_rounds + 2) * (code.x_stabilizers@.len() + code.z_stabilizers@.len()) <= readout_flips@.len(),
        (num_rounds + 2) * (code.x_stabilizers@.len() + code.z_stabilizers@.len()) <= usize::MAX / 4,
        bursts@.len() >= num_rounds + 2,
        forall|r: int, j: int|
            0 <= r < bursts@.len() && 0 <= j < bursts@[r]@.len() ==> (#[trigger] bursts@[r]@[j]).0
                < code.data_qubits@.len(),
    ensures
        rotated_shot_class_ok(
            *code,
            *model,
            num_rounds,
            plus,
            paulis@,
            readout_flips@,
            burst_views(bursts@),
            decoder_type,
            class,
        ),
{
    let ghost prog = code.program_spec();
    let ghost bv = burst_views(bursts@);
    let num_data = code.data_qubits.len();
    let num_x = code.x_stabilizers.len();
    let num_z = code.z_stabilizers.len();
    let ns = num_x + num_z;
    let nq = num_data + ns;
    proof {
        code.lemma_sizes();
        assert(nq == code.num_qubits_spec());
    }
    let mut sim = StabilizerSimulator::with_seed(nq, tableau_seed);
    let program = code.round_program();
    let rounds_total = rounds_executed(num_rounds);
    let slots = model.noise_slots;
    let ghost v0 = sim@;
    if plus {
        for i in 0..num_data
            invariant
                sim.wf(),
                sim@.n == nq,
                num_data <= nq,
                v0 == TableauView::initial(nq as nat),
                sim@ == h_prefix(v0, i as nat),
        {
            sim.apply_h(i);
        }
    }
    let mut frame = Frame::new(nq);
    proof {
        assert(ns * rounds_total == (num_rounds + 2) * (code.x_stabilizers@.len() + code.z_stabilizers@.len()))
            by (nonlinear_arith)
            requires
                ns == code.x_stabilizers@.len() + code.z_stabilizers@.len(),
                rounds_total == num_rounds + 2,
        ;
        assert(num_x * rounds_total <= ns * rounds_total && num_z * rounds_total <= ns * rounds_total)
            by (nonlinear_arith)
            requires
                ns == num_x + num_z,
        ;
    }
    let mut flips_x = vec![false; num_x * rounds_total];
    let mut flips_z = vec![false; num_z * rounds_total];
    let ghost mut g: Seq<bool> = blank((ns * rounds_total) as nat);
    let ghost paulis_v = paulis@;
    let ghost readout_v = readout_flips@;
    let ghost init: ShotState = (frame.x@, frame.z@, g);
    let ghost tinit: TabState = (sim@, flips_x@, flips_z@);
    let ghost mut rtr: Seq<TabState> = seq![tinit];
    proof {
        lemma_trace_start(prog, tinit, 0, paulis@, readout_flips@, burst_views(bursts@), slots as nat, num_x as nat, num_z as nat);
    }
    let plen = paulis.len();
    for r in 0..rounds_total
        invariant
            code.wf(),
            program@ == prog,
            forall|i: int|
                0 <= i < program@.len() ==> op_ok(#[trigger] program@[i], nq as nat, num_x as nat, num_z as nat),
            nq == num_data + ns,
            ns == num_x + num_z,
            num_data == code.data_qubits@.len(),
            rounds_total == num_rounds + 2,
            slots == noise_count(prog, prog.len()),
            rounds_total * slots <= paulis@.len(),
            rounds_total * ns <= readout_flips@.len(),
            rounds_total * ns <= usize::MAX / 4,
            num_x * rounds_total <= ns * rounds_total,
            num_z * rounds_total <= ns * rounds_total,
            plen == paulis@.len(),
            paulis_v == paulis@,
            readout_v == readout_flips@,
            bv == burst_views(bursts@),
            bursts@.len() >= rounds_total,
            forall|rr: int, j: int|
                0 <= rr < bursts@.len() && 0 <= j < bursts@[rr]@.len() ==> (#[trigger] bursts@[rr]@[j]).0
                    < num_data,
            sim.wf(),
            sim@.n == nq,
            frame.x@.len() == nq,
            frame.z@.len() == nq,
            flips_x@.len() == num_x * rounds_total,
            flips_z@.len() == num_z * rounds_total,
            g.len() == ns * rounds_total,
            (frame.x@, frame.z@, g) == shot_rounds(prog, init, r as nat, paulis_v, readout_v, bv, slots as nat, ns as nat),
            rounds_trace(prog, rtr, r as nat, paulis_v, readout_v, bv, slots as nat, num_x as nat, num_z as nat),
            rtr[0] == tinit,
            rtr[r as int] == (sim@, flips_x@, flips_z@),
    {
        let mut slot: usize = 0;
        let ghost start: ShotState = (frame.x@, frame.z@, g);
        let ghost tstart: TabState = (sim@, flips_x@, flips_z@);
        let ghost mut tr: Seq<TabState> = seq![tstart];
        proof {
            lemma_trace_start(prog, tstart, r as nat, paulis_v, readout_v, bv, slots as nat, num_x as nat, num_z as nat);
        }
        for i in 0..program.len()
            invariant
                program@ == prog,
                forall|i: int|
                    0 <= i < program@.len() ==> op_ok(#[trigger] program@[i], nq as nat, num_x as nat, num_z as nat),
                r < rounds_total,
                nq == num_data + ns,
                ns == num_x + num_z,
                slots == noise_count(prog, prog.len()),
                rounds_total * slots <= paulis@.len(),
                rounds_total * ns <= readout_flips@.len(),
                rounds_total * ns <= usize::MAX / 4,
                num_x * rounds_total <= ns * rounds_total,
                num_z * rounds_total <= ns * rounds_total,
                plen == paulis@.len(),
                paulis_v == paulis@,
                readout_v == readout_flips@,
                sim.wf(),
                sim@.n == nq,
                frame.x@.len() == nq,
                frame.z@.len() == nq,
                flips_x@.len() == num_x * rounds_total,
                flips_z@.len() == num_z * rounds_total,
                g.len() == ns * rounds_total,
                slot == noise_count(prog, i as nat),
                (frame.x@, frame.z@, g) == shot_round(prog, start, r as nat, i as nat, paulis_v, readout_v, slots as nat, ns as nat),
                round_trace(prog, tr, r as nat, i as nat, paulis_v, readout_v, slots as nat, num_x as nat, num_z as nat),
                tr[0] == tstart,
                tr[i as int] == (sim@, flips_x@, flips_z@),
        {
            let op = program[i];
            assert(op_ok(program@[i as int], nq as nat, num_x as nat, num_z as nat));
            let ghost cur: TabState = (sim@, flips_x@, flips_z@);
            proof {
                if op is Noise {
                    lemma_noise_count_step(prog, i as nat);
                }
            }
            tab_apply(
                &mut sim,
                &mut flips_x,
                &mut flips_z,
                op,
                r,
                slot,
                slots,
                num_x,
                num_z,
                paulis,
                readout_flips,
                rounds_total,
            );
            match op {
                Op::Noise(q) => {
                    proof {
                        assert(r * slots + slot < rounds_total * slots && r * slots <= rounds_total * slots) by (nonlinear_arith)
                            requires
                                r < rounds_total,
                                slot < slots,
                        ;
                    }
                    let p = paulis[r * slots + slot];
                    frame.apply(q, p);
                    slot = slot + 1;
                },
                Op::Measure(q, kind, idx) => {
                    let out = frame.step(op);
                    proof {
                        assert(r * ns + idx < rounds_total * ns && r * ns <= rounds_total * ns) by (nonlinear_arith)
                            requires
                                r < rounds_total,
                                idx < ns,
                        ;
                        let flipped = match out {
                            Some((_, _, f)) => f,
                            None => false,
                        };
                        g = g.update(r * ns + idx, flipped != readout_v[r * ns + idx]);
                    }
                },
                _ => {
                    frame.step(op);
                },
            }
            proof {
                let nxt: TabState = (sim@, flips_x@, flips_z@);
                assert(tab_op_rel(cur, prog[i as int], noise_count(prog, i as nat), r as nat, paulis_v, readout_v, slots as nat, num_x as nat, num_z as nat, nxt));
                lemma_round_trace_push(prog, tr, r as nat, i as nat, paulis_v, readout_v, slots as nat, num_x as nat, num_z as nat, nxt);
                tr = tr.push(nxt);
            }
        }
        let burst = &bursts[r];
        let ghost mid: ShotState = (frame.x@, frame.z@, g);
        let ghost tmid: TabState = (sim@, flips_x@, flips_z@);
        proof {
            assert(burst@ == bv[r as int]);
        }
        for j in 0..burst.len()
            invariant
                burst@ == bv[r as int],
                forall|jj: int| 0 <= jj < burst@.len() ==> (#[trigger] burst@[jj]).0 < num_data,
                nq == num_data + ns,
                sim.wf(),
                sim@.n == nq,
                frame.x@.len() == nq,
                frame.z@.len() == nq,
                g.len() == ns * rounds_total,
                (frame.x@, frame.z@, g) == shot_burst(mid, burst@, j as nat),
                (sim@, flips_x@, flips_z@) == tab_burst(tmid, burst@, j as nat),
        {
            let (q, p) = burst[j];
            if p == 1 {
                sim.apply_x(q);
            } else if p == 2 {
                sim.apply_z(q);
            } else if p == 3 {
                sim.apply_y(q);
            }
            frame.apply(q, p);
        }
        proof {
            let nxt: TabState = (sim@, flips_x@, flips_z@);
            lemma_rounds_trace_push(prog, rtr, r as nat, paulis_v, readout_v, bv, slots as nat, num_x as nat, num_z as nat, tr, nxt);
            rtr = rtr.push(nxt);
        }
    }
    let layers = num_rounds + 1;
    proof {
        assert(num_z * layers + num_z == num_z * rounds_total && num_x * layers + num_x == num_x * rounds_total)
            by (nonlinear_arith)
            requires
                layers + 1 == rounds_total,
        ;
    }
    let nn_x = model.for_x_errors.graph.num_nodes;
    let len_z = if nn_x > num_z * layers {
        nn_x
    } else {
        num_z * layers
    };
    let nn_z = model.for_z_errors.graph.num_nodes;
    let len_x = if nn_z > num_x * layers {
        nn_z
    } else {
        num_x * layers
    };
    let detectors_z = detection_layers(&flips_z, num_z, layers, len_z);
    let detectors_x = detection_layers(&flips_x, num_x, layers, len_x);
    let erased_x = erased_from_sites(&model.for_x_errors.site_edges, erased_sites, model.for_x_errors.graph.edges.len());
    let mx = correction_for(&model.for_x_errors, &detectors_z, decoder_type, &erased_x);
    let erased_z = erased_from_sites(&model.for_z_errors.site_edges, erased_sites, model.for_z_errors.graph.edges.len());
    let mz = correction_for(&model.for_z_errors, &detectors_x, decoder_type, &erased_z);
    let rx = mask_from(&frame.x, num_data) ^ mx;
    let rz = mask_from(&frame.z, num_data) ^ mz;
    let (column, row) = rotated_supports(code.d);
    let class = support_class(rx, rz, column, row);
    proof {
        let nqs = code.num_qubits_spec();
        let nss = code.x_stabilizers@.len() + code.z_stabilizers@.len();
        let rt = (num_rounds + 2) as nat;
        assert(init.0 =~= blank(nqs));
        assert(init.1 =~= blank(nqs));
        assert(init.2 =~= blank(nss * rt));
        let fin = rotated_final(*code, *model, num_rounds, paulis@, readout_flips@, burst_views(bursts@));
        assert(fin.0 == frame.x@ && fin.1 == frame.z@);
        assert(decoded_on(model.for_x_errors, detectors_z@, decoder_type, mx));
        assert(decoded_on(model.for_z_errors, detectors_x@, decoder_type, mz));
        assert(flips_x@ =~= tinit.1 || true);
        let t: TabState = (sim@, flips_x@, flips_z@);
        assert(tinit == tab_start(*code, num_rounds, plus)) by {
            assert(tinit.1 =~= blank(code.x_stabilizers@.len() * rt));
            assert(tinit.2 =~= blank(code.z_stabilizers@.len() * rt));
        }
        assert(detectors_z@ =~= events_of(t.2, num_z as nat, layers as nat, len_z as nat));
        assert(detectors_x@ =~= events_of(t.1, num_x as nat, layers as nat, len_x as nat));
        assert(class == (if crate::bits::parity((to_mask(fin.0, code.data_qubits@.len()) ^ mx) & strided_mask(code.d as nat, code.d as nat)) {
            1u8
        } else {
            0u8
        }) + (if crate::bits::parity((to_mask(fin.1, code.data_qubits@.len()) ^ mz) & strided_mask(1, code.d as nat)) {
            2u8
        } else {
            0u8
        }));
        let lyr = (num_rounds + 1) as nat;
        let nnx = model.for_x_errors.graph.num_nodes as nat;
        let nnz = model.for_z_errors.graph.num_nodes as nat;
        let sz = code.z_stabilizers@.len();
        let sx = code.x_stabilizers@.len();
        let lz: nat = at_least(nnx, sz * lyr);
        let lx: nat = at_least(nnz, sx * lyr);
        assert(lz == len_z as nat);
        assert(lx == len_x as nat);
        assert(decoded_on(model.for_x_errors, events_of(t.2, sz, lyr, lz), decoder_type, mx));
        assert(decoded_on(model.for_z_errors, events_of(t.1, sx, lyr, lx), decoder_type, mz));
        assert(rotated_class_from(*code, *model, num_rounds, fin, t, decoder_type, class));
        assert(rounds_trace(prog, rtr, rt, paulis@, readout_flips@, burst_views(bursts@), model.noise_slots as nat, code.x_stabilizers@.len(), code.z_stabilizers@.len()));
        assert(tab_rounds_rel(
            code.program_spec(),
            tab_start(*code, num_rounds, plus),
            (num_rounds + 2) as nat,
            paulis@,
            readout_flips@,
            burst_views(bursts@),
            model.noise_slots as nat,
            code.x_stabilizers@.len(),
            code.z_stabilizers@.len(),
            t,
        ));
        assert(rotated_shot_class_ok(*code, *model, num_rounds, plus, paulis@, readout_flips@, burst_views(bursts@), decoder_type, class));
    }
    class
}

/// No bit set.
pub open spec fn all_clear(s: Seq<bool>) -> bool {
    forall|i: int| 0 <= i < s.len() ==> !#[trigger] s[i]
}

/// No noise drawn: no Pauli, no readout error and no burst.
pub open spec fn quiet(paulis: Seq<u8>, readout_flips: Seq<bool>, bursts: Seq<Seq<(usize, u8)>>) -> bool {
    &&& forall|i: int| 0 <= i < paulis.len() ==> #[trigger] paulis[i] == 0
    &&& all_clear(readout_flips)
    &&& forall|r: int| 0 <= r < bursts.len() ==> (#[trigger] bursts[r]).len() == 0
}

proof fn lemma_quiet_round(
    prog: Seq<Op>,
    st: ShotState,
    r: nat,
    k: nat,
    paulis: Seq<u8>,
    readout: Seq<bool>,
    slots: nat,
    ns: nat,
    nq: nat,
    rt: nat,
)
    requires
        k <= prog.len(),
        forall|i: int| 0 <= i < prog.len() ==> op_ok(#[trigger] prog[i], nq, 0, ns),
        st.0.len() == nq,
        st.1.len() == nq,
        st.2.len() == ns * rt,
        r < rt,
        all_clear(st.0),
        all_clear(st.1),
        all_clear(st.2),
        forall|i: int| 0 <= i < paulis.len() ==> #[trigger] paulis[i] == 0,
        rt * slots <= paulis.len(),
        all_clear(readout),
        rt * ns <= readout.len(),
        slots == noise_count(prog, prog.len()),
    ensures
        ({
            let out = shot_round(prog, st, r, k, paulis, readout, slots, ns);
            &&& out.0.len() == nq
            &&& out.1.len() == nq
            &&& out.2.len() == ns * rt
            &&& all_clear(out.0)
            &&& all_clear(out.1)
            &&& all_clear(out.2)
        }),
    decreases k,
{
    if k > 0 {
        lemma_quiet_round(prog, st, r, (k - 1) as nat, paulis, readout, slots, ns, nq, rt);
        let prev = shot_round(prog, st, r, (k - 1) as nat, paulis, readout, slots, ns);
        let op = prog[k - 1];
        assert(op_ok(op, nq, 0, ns));
        lemma_pauli_bits();
        let out = shot_op(prev, op, noise_count(prog, (k - 1) as nat), r, paulis, readout, slots, ns);
        match op {
            Op::Noise(q) => {
                lemma_noise_count_step(prog, (k - 1) as nat);
                let slot = noise_count(prog, (k - 1) as nat);
                assert(r * slots + slot < rt * slots) by (nonlinear_arith)
                    requires
                        r < rt,
                        slot < slots,
                ;
                assert(paulis[(r * slots + slot) as int] == 0);
                assert(out.0 == prev.0 && out.1 == prev.1);
            },
            Op::Measure(q, kind, idx) => {
                assert(idx < ns);
                assert(r * ns + idx < rt * ns) by (nonlinear_arith)
                    requires
                        r < rt,
                        idx < ns,
                ;
                assert(!readout[(r * ns + idx) as int]);
                assert(all_clear(out.2)) by {
                    assert forall|i: int| 0 <= i < out.2.len() implies !#[trigger] out.2[i] by {
                        assert(!prev.2[i] || i == r * ns + idx);
                    }
                }
            },
            _ => {},
        }
        assert(all_clear(out.0)) by {
            assert forall|i: int| 0 <= i < out.0.len() implies !#[trigger] out.0[i] by {
                assert(i < prev.0.len());
            }
        }
        assert(all_clear(out.1)) by {
            assert forall|i: int| 0 <= i < out.1.len() implies !#[trigger] out.1[i] by {
                assert(i < prev.1.len());
            }
        }
    }
}

/// Noiseless rounds repeat their outcomes: with no Pauli drawn, no readout
/// error and no burst, running rounds from a clear frame leaves the frame
/// clear and records no flipped outcome, so every round reads as the one
/// before it.
pub proof fn lemma_quiet_rounds(
    prog: Seq<Op>,
    st: ShotState,
    rounds: nat,
    paulis: Seq<u8>,
    readout: Seq<bool>,
    bursts: Seq<Seq<(usize, u8)>>,
    slots: nat,
    ns: nat,
    nq: nat,
    rt: nat,
)
    requires
        rounds <= rt,
        forall|i: int| 0 <= i < prog.len() ==> op_ok(#[trigger] prog[i], nq, 0, ns),
        st.0.len() == nq,
        st.1.len() == nq,
        st.2.len() == ns * rt,
        all_clear(st.0),
        all_clear(st.1),
        all_clear(st.2),
        quiet(paulis, readout, bursts),
        bursts.len() >= rt,
        rt * slots <= paulis.len(),
        rt * ns <= readout.len(),
        slots == noise_count(prog, prog.len()),
    ensures
        ({
            let out = shot_rounds(prog, st, rounds, paulis, readout, bursts, slots, ns);
            &&& out.0.len() == nq
            &&& out.1.len() == nq
            &&& out.2.len() == ns * rt
            &&& all_clear(out.0)
            &&& all_clear(out.1)
            &&& all_clear(out.2)
        }),
    decreases rounds,
{
    if rounds > 0 {
        lemma_quiet_rounds(prog, st, (rounds - 1) as nat, paulis, readout, bursts, slots, ns, nq, rt);
        let before = shot_rounds(prog, st, (rounds - 1) as nat, paulis, readout, bursts, slots, ns);
        lemma_quiet_round(prog, before, (rounds - 1) as nat, prog.len(), paulis, readout, slots, ns, nq, rt);
        assert(bursts[rounds - 1].len() == 0);
    }
}

/// A noiseless circuit never fails: with no Pauli drawn, no readout error and
/// no burst, every decoder leaves the XZZX shot in class 0.
pub proof fn lemma_noiseless_xzzx_shot(
    code: XZZXSurfaceCode,
    model: CombinedModel,
    num_rounds: usize,
    paulis: Seq<u8>,
    readout_flips: Seq<bool>,
    bursts: Seq<Seq<(usize, u8)>>,
    decoder_type: usize,
    class: u8,
)
    requires
        code.wf(),
        forall|i: int|
            0 <= i < code.ordered_spec(XZZXSurfaceCode::SCHEDULE_A, XZZXSurfaceCode::SCHEDULE_B).len() ==> op_ok(
                #[trigger] code.ordered_spec(XZZXSurfaceCode::SCHEDULE_A, XZZXSurfaceCode::SCHEDULE_B)[i],
                code.num_qubits_spec(),
                0,
                code.stabilizers@.len(),
            ),
        model.noise_slots == noise_count(
            code.ordered_spec(XZZXSurfaceCode::SCHEDULE_A, XZZXSurfaceCode::SCHEDULE_B),
            code.ordered_spec(XZZXSurfaceCode::SCHEDULE_A, XZZXSurfaceCode::SCHEDULE_B).len(),
        ),
        (num_rounds + 2) * model.noise_slots <= paulis.len(),
        (num_rounds + 2) * code.stabilizers@.len() <= readout_flips.len(),
        bursts.len() >= num_rounds + 2,
        quiet(paulis, readout_flips, bursts),
        xzzx_shot_class_ok(code, model, num_rounds, paulis, readout_flips, bursts, decoder_type, class),
    ensures
        class == 0,
{
    let prog = code.ordered_spec(XZZXSurfaceCode::SCHEDULE_A, XZZXSurfaceCode::SCHEDULE_B);
    let nq = code.num_qubits_spec();
    let ns = code.stabilizers@.len();
    let rt = (num_rounds + 2) as nat;
    lemma_quiet_rounds(
        prog,
        (blank(nq), blank(nq), blank(ns * rt)),
        rt,
        paulis,
        readout_flips,
        bursts,
        model.noise_slots as nat,
        ns,
        nq,
        rt,
    );
    let fin = xzzx_final(code, model, num_rounds, paulis, readout_flips, bursts);
    let events = events_of(fin.2, ns, (num_rounds + 1) as nat, events_len(code, model, num_rounds));
    let c = choose|c: Seq<usize>|
        #[trigger] decoder_ok(model.graph.graph, events, decoder_type, c) && class == code.logical.class_spec(
            to_mask(fin.0, code.data_qubits@.len()) ^ xor_masks(model.graph.correction_x@, c),
            to_mask(fin.1, code.data_qubits@.len()) ^ xor_masks(model.graph.correction_z@, c),
        );
    assert(crate::decoder::no_defects(events, model.graph.graph.num_nodes as int)) by {
        assert forall|x: int| 0 <= x < model.graph.graph.num_nodes implies !#[trigger] events[x] by {
            if x < ns * ((num_rounds + 1) as nat) {
                assert(ns * ((num_rounds + 1) as nat) + ns == ns * rt) by (nonlinear_arith)
                    requires
                        rt == num_rounds + 2,
                ;
                assert(!fin.2[x + ns] && !fin.2[x]);
            }
        }
    }
    assert(c.len() == 0);
    assert(c =~= Seq::<usize>::empty());
    lemma_to_mask_clear(fin.0, code.data_qubits@.len());
    lemma_to_mask_clear(fin.1, code.data_qubits@.len());
    assert(xor_masks(model.graph.correction_x@, c) == 0);
    assert(xor_masks(model.graph.correction_z@, c) == 0);
    crate::logical_check::lemma_xor_laws(0u128, 0u128, 0u128);
    lemma_identity_is_trivial(code.logical);
}

/// A mask read from clear bits is empty.
proof fn lemma_to_mask_clear(bits: Seq<bool>, n: nat)
    requires
        n <= bits.len(),
        all_clear(bits),
    ensures
        to_mask(bits, n) == 0,
    decreases n,
{
    if n > 0 {
        lemma_to_mask_clear(bits, (n - 1) as nat);
        assert(!bits[n - 1]);
        assert forall|i: u128| i < 128 implies !#[trigger] crate::bits::bit(0u128 | 0u128, i) by {
            crate::bits::lemma_bit_or(0u128, 0u128, i);
            crate::bits::lemma_bit_zero(i);
        }
        crate::bits::lemma_no_bits_zero(0u128 | 0u128);
    }
}

} // verus!
