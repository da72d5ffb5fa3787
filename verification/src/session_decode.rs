//! Decoding a session: detection events from the syndrome, one decoder run
//! per error family, the corrections written back round by round, and the
//! logical check on what is left.
use crate::circuit_model::{mask_from, to_mask};
use crate::decoder::{flipped, valid_correction, Edge, SyndromeGraph};
use crate::lattice::{combined_flags, combined_spatial, data_seq, layers_between, spatial_edges, temporal_edges, graph_fits};
use crate::logical_check::{logical_pair_found, LogicalCheck};
use crate::session::{
    acc_parity, lemma_index_unique, lemma_slot_bound, lemma_supported_small, num_stabs_spec, opt_term, stab_point,
    stab_terms, syndrome_spec, term_parity, Term, WasmSession,
};
use crate::surface_code::{
    decode_by_type, rotated_x_stabilizers, rotated_z_stabilizers, xzzx_op, xzzx_ops, RotatedSurfaceCode,
    XZZXSurfaceCode,
};
use vstd::prelude::*;

verus! {

/// Whether stabilizer slot `idx` fired in round `t`: its reading differs
/// from the one in the round before (before round 0 every reading is 0).
pub open spec fn detection(syn: Seq<u8>, idx: int, ns: int, t: int) -> bool {
    (syn[idx + t * ns] == 1) != (t > 0 && syn[idx + (t - 1) * ns] == 1)
}

/// `defects` holds the detection events of the `count` stabilizers that
/// start at slot `offset`, node `s + t * count` for stabilizer `s` in round `t`.
pub open spec fn defects_ok(defects: Seq<bool>, syn: Seq<u8>, offset: int, count: int, ns: int, rounds: int) -> bool {
    &&& defects.len() == count * rounds
    &&& forall|s: int, t: int|
        0 <= s < count && 0 <= t < rounds ==> #[trigger] defects[s + t * count] == detection(syn, offset + s, ns, t)
}

/// A decoder's answer on a graph: edges of the graph, nothing when there is
/// no defect; for the greedy and the matching decoder, flipping only
/// defects, and exactly the defects when each is joined to the boundary.
pub open spec fn chosen_ok(edges: Seq<Edge>, num_nodes: nat, defects: Seq<bool>, decoder_type: usize, c: Seq<usize>) -> bool {
    &&& valid_correction(edges, c)
    &&& decoder_type == 1 || decoder_type == 2 ==> forall|node: int|
        0 <= node < num_nodes && #[trigger] flipped(edges, c, node) ==> defects[node]
    &&& crate::decoder::no_defects(defects, num_nodes as int) ==> c.len() == 0
    &&& (decoder_type == 1 || decoder_type == 2) && (forall|v: int|
        0 <= v < num_nodes && #[trigger] defects[v] ==> crate::decoder::joined(edges, v, num_nodes as int, num_nodes))
        ==> forall|node: int| 0 <= node < num_nodes ==> #[trigger] flipped(edges, c, node) == defects[node]
}

/// The round an edge lies in: that of its first endpoint.
pub open spec fn layer_of(e: Edge, per_round: int) -> int {
    e.u as int / per_round
}

/// The data-error slot that correcting edge `e` touches, if it stands for
/// a data qubit in one of the rounds.
pub open spec fn edge_slot(edges: Seq<Edge>, map: Seq<Option<usize>>, per_round: int, nd: int, rounds: int, e: int) -> Option<int> {
    match map[e] {
        Some(q) => {
            let tl = layer_of(edges[e], per_round);
            if tl < rounds {
                Some(q + tl * nd)
            } else {
                None
            }
        },
        None => None,
    }
}

/// Whether the data qubit behind edge `e`, in the edge's round, is erased.
pub open spec fn edge_erased(edges: Seq<Edge>, map: Seq<Option<usize>>, erased: Seq<bool>, per_round: int, nd: int, e: int) -> bool {
    match map[e] {
        Some(q) => {
            let idx = q + layer_of(edges[e], per_round) * nd;
            idx < erased.len() && erased[idx]
        },
        None => false,
    }
}

/// Whether an odd number of the first `n` chosen edges of family `fam`
/// touch slot `i`.
pub open spec fn flips_at(
    edges: Seq<Edge>,
    map: Seq<Option<usize>>,
    family: Seq<bool>,
    fam: bool,
    per_round: int,
    nd: int,
    rounds: int,
    chosen: Seq<usize>,
    n: nat,
    i: int,
) -> bool
    decreases n,
{
    if n == 0 {
        false
    } else {
        let e = chosen[n - 1] as int;
        flips_at(edges, map, family, fam, per_round, nd, rounds, chosen, (n - 1) as nat, i) != (family[e] == fam
            && edge_slot(edges, map, per_round, nd, rounds, e) == Some(i))
    }
}

/// 1 where `flips_at` holds for every chosen edge, else 0.
pub open spec fn correction_table(
    edges: Seq<Edge>,
    map: Seq<Option<usize>>,
    family: Seq<bool>,
    fam: bool,
    per_round: int,
    nd: int,
    rounds: int,
    chosen: Seq<usize>,
) -> Seq<u8> {
    Seq::new(
        (nd * rounds) as nat,
        |i: int|
            if flips_at(edges, map, family, fam, per_round, nd, rounds, chosen, chosen.len(), i) {
                1u8
            } else {
                0u8
            },
    )
}

/// What is left on qubit `q` after rounds `0..t`: each round's error
/// XORed with that round's correction, accumulated.
pub open spec fn residual(p: Seq<bool>, c: Seq<u8>, nd: int, q: int, t: nat) -> bool
    decreases t,
{
    if t == 0 {
        false
    } else {
        residual(p, c, nd, q, (t - 1) as nat) != (p[q + (t - 1) * nd] != (c[q + (t - 1) * nd] != 0))
    }
}

/// The residual of every qubit after all rounds.
pub open spec fn residuals(p: Seq<bool>, c: Seq<u8>, nd: int, rounds: nat) -> Seq<bool> {
    Seq::new(nd as nat, |q: int| residual(p, c, nd, q, rounds))
}

/// Parity of `acc[step * k]` for `k < n`.
pub open spec fn strided_parity(acc: Seq<bool>, step: int, n: nat) -> bool
    decreases n,
{
    if n == 0 {
        false
    } else {
        strided_parity(acc, step, (n - 1) as nat) != acc[step * (n - 1)]
    }
}

/// An edge in round `t` has its first endpoint among that round's nodes.
pub proof fn lemma_layer_bound(u: int, per_round: int, rounds: int)
    requires
        0 <= u < per_round * rounds,
        0 <= per_round,
    ensures
        per_round > 0,
        0 <= u / per_round < rounds,
{
    if per_round == 0 {
        assert(per_round * rounds == 0) by (nonlinear_arith)
            requires
                per_round == 0,
        ;
    }
    vstd::arithmetic::div_mod::lemma_fundamental_div_mod(u, per_round);
    assert(0 <= u / per_round < rounds) by (nonlinear_arith)
        requires
            u == per_round * (u / per_round) + u % per_round,
            0 <= u % per_round < per_round,
            0 <= u < per_round * rounds,
            per_round > 0,
    ;
}

/// The detection events of `count` stabilizers starting at slot `offset`.
pub fn detection_events(syndrome: &Vec<u8>, offset: usize, count: usize, ns: usize, rounds: usize) -> (defects: Vec<
    bool,
>)
    requires
        offset + count <= ns,
        ns * rounds <= syndrome@.len(),
        ns * rounds <= usize::MAX / 8,
    ensures
        defects_ok(defects@, syndrome@, offset as int, count as int, ns as int, rounds as int),
{
    proof {
        assert(count * rounds <= ns * rounds) by (nonlinear_arith)
            requires
                count <= ns,
        ;
    }
    let total = count * rounds;
    let mut defects = vec![false; total];
    for t in 0..rounds
        invariant
            offset + count <= ns,
            ns * rounds <= syndrome@.len(),
            ns * rounds <= usize::MAX / 8,
            total == count * rounds,
            defects@.len() == total,
            forall|s: int, t2: int|
                0 <= s < count && 0 <= t2 < t ==> #[trigger] defects@[s + t2 * count] == detection(
                    syndrome@,
                    offset + s,
                    ns as int,
                    t2,
                ),
    {
        for s in 0..count
            invariant
                offset + count <= ns,
                ns * rounds <= syndrome@.len(),
                ns * rounds <= usize::MAX / 8,
                total == count * rounds,
                defects@.len() == total,
                t < rounds,
                forall|s2: int, t2: int|
                    0 <= s2 < count && 0 <= t2 <= t && (t2 < t || s2 < s) ==> #[trigger] defects@[s2 + t2 * count]
                        == detection(syndrome@, offset + s2, ns as int, t2),
        {
            proof {
                lemma_slot_bound((offset + s) as int, t as int, ns as int, rounds as int);
                lemma_slot_bound(s as int, t as int, count as int, rounds as int);
                if t > 0 {
                    lemma_slot_bound((offset + s) as int, t - 1, ns as int, rounds as int);
                }
            }
            let outcome = syndrome[offset + s + t * ns] == 1;
            let prev_outcome = if t == 0 {
                false
            } else {
                syndrome[offset + s + (t - 1) * ns] == 1
            };
            let pos = s + t * count;
            let ghost before = defects@;
            defects.set(pos, outcome != prev_outcome);
            proof {
                assert forall|s2: int, t2: int|
                    0 <= s2 < count && 0 <= t2 <= t && (t2 < t || s2 < s + 1) implies #[trigger] defects@[s2 + t2
                        * count] == detection(syndrome@, offset + s2, ns as int, t2) by {
                    if s2 + t2 * count == pos {
                        lemma_index_unique(s2, t2, s as int, t as int, count as int);
                    } else {
                        lemma_slot_bound(s2, t2, count as int, rounds as int);
                        assert(defects@[s2 + t2 * count] == before[s2 + t2 * count]);
                    }
                }
            }
        }
    }
    defects
}

/// Graph facts the session's bookkeeping relies on: each edge has a qubit
/// entry, a first endpoint among the rounds' nodes, and a qubit index
/// below `nd`.
pub open spec fn graph_layout_ok(g: SyndromeGraph, per_round: int, nd: int, rounds: int) -> bool {
    &&& g.edge_to_qubit@.len() == g.edges@.len()
    &&& forall|k: int| 0 <= k < g.edges@.len() ==> (#[trigger] g.edges@[k]).u < per_round * rounds
    &&& forall|k: int|
        0 <= k < g.edge_to_qubit@.len() ==> (#[trigger] g.edge_to_qubit@[k] matches Some(q) ==> q < nd)
}

/// Per edge, whether its data qubit is erased in the edge's round.
pub fn erased_edges_of(graph: &SyndromeGraph, erased: &Vec<bool>, per_round: usize, nd: usize, rounds: usize) -> (out:
    Vec<bool>)
    requires
        graph_layout_ok(*graph, per_round as int, nd as int, rounds as int),
        nd * rounds <= usize::MAX / 8,
    ensures
        out@.len() == graph.edges@.len(),
        forall|k: int|
            0 <= k < out@.len() ==> #[trigger] out@[k] == edge_erased(
                graph.edges@,
                graph.edge_to_qubit@,
                erased@,
                per_round as int,
                nd as int,
                k,
            ),
{
    let n = graph.edges.len();
    let mut out = vec![false; n];
    for k in 0..n
        invariant
            n == graph.edges@.len(),
            out@.len() == n,
            graph_layout_ok(*graph, per_round as int, nd as int, rounds as int),
            nd * rounds <= usize::MAX / 8,
            forall|j: int|
                0 <= j < n ==> #[trigger] out@[j] == (j < k && edge_erased(
                    graph.edges@,
                    graph.edge_to_qubit@,
                    erased@,
                    per_round as int,
                    nd as int,
                    j,
                )),
    {
        let entry = graph.edge_to_qubit[k];
        if let Some(q) = entry {
            let u = graph.edges[k].u;
            proof {
                lemma_layer_bound(u as int, per_round as int, rounds as int);
            }
            let tl = u / per_round;
            proof {
                lemma_slot_bound(q as int, tl as int, nd as int, rounds as int);
            }
            let idx = q + tl * nd;
            if idx < erased.len() && erased[idx] {
                out.set(k, true);
            }
        }
    }
    out
}

/// Toggle, in `target`, the slot of every chosen edge of family `fam`.
pub fn apply_chosen(
    target: &mut Vec<u8>,
    graph: &SyndromeGraph,
    family: &Vec<bool>,
    fam: bool,
    chosen: &Vec<usize>,
    per_round: usize,
    nd: usize,
    rounds: usize,
)
    requires
        graph_layout_ok(*graph, per_round as int, nd as int, rounds as int),
        family@.len() == graph.edges@.len(),
        valid_correction(graph.edges@, chosen@),
        nd * rounds <= usize::MAX / 8,
        old(target)@.len() == nd * rounds,
        forall|i: int| 0 <= i < old(target)@.len() ==> #[trigger] old(target)@[i] <= 1,
    ensures
        final(target)@.len() == old(target)@.len(),
        forall|i: int|
            0 <= i < final(target)@.len() ==> #[trigger] final(target)@[i] == if (old(target)@[i] == 1) != flips_at(
                graph.edges@,
                graph.edge_to_qubit@,
                family@,
                fam,
                per_round as int,
                nd as int,
                rounds as int,
                chosen@,
                chosen@.len(),
                i,
            ) {
                1u8
            } else {
                0u8
            },
{
    let ghost start = target@;
    for j in 0..chosen.len()
        invariant
            graph_layout_ok(*graph, per_round as int, nd as int, rounds as int),
            family@.len() == graph.edges@.len(),
            valid_correction(graph.edges@, chosen@),
            nd * rounds <= usize::MAX / 8,
            target@.len() == start.len(),
            start.len() == nd * rounds,
            forall|i: int| 0 <= i < start.len() ==> #[trigger] start[i] <= 1,
            forall|i: int|
                0 <= i < target@.len() ==> #[trigger] target@[i] == if (start[i] == 1) != flips_at(
                    graph.edges@,
                    graph.edge_to_qubit@,
                    family@,
                    fam,
                    per_round as int,
                    nd as int,
                    rounds as int,
                    chosen@,
                    j as nat,
                    i,
                ) {
                    1u8
                } else {
                    0u8
                },
    {
        let e = chosen[j];
        proof {
            assert(chosen@[j as int] < graph.edges@.len());
        }
        let entry = graph.edge_to_qubit[e];
        let ghost slot = edge_slot(graph.edges@, graph.edge_to_qubit@, per_round as int, nd as int, rounds as int, e as int);
        let ghost before = target@;
        if let Some(q) = entry {
            let u = graph.edges[e].u;
            proof {
                lemma_layer_bound(u as int, per_round as int, rounds as int);
            }
            let t_layer = u / per_round;
            if t_layer < rounds && family[e] == fam {
                proof {
                    lemma_slot_bound(q as int, t_layer as int, nd as int, rounds as int);
                }
                let idx = q + t_layer * nd;
                let v = target[idx];
                proof {
                    assert(v <= 1);
                    assert(v <= 1 ==> (v ^ 1u8) == (if v == 1 { 0u8 } else { 1u8 })) by (bit_vector);
                }
                target.set(idx, v ^ 1);
                proof {
                    assert(slot == Some(idx as int));
                }
            }
        }
        proof {
            assert forall|i: int| 0 <= i < target@.len() implies #[trigger] target@[i] == if (start[i] == 1)
                != flips_at(
                graph.edges@,
                graph.edge_to_qubit@,
                family@,
                fam,
                per_round as int,
                nd as int,
                rounds as int,
                chosen@,
                (j + 1) as nat,
                i,
            ) {
                1u8
            } else {
                0u8
            } by {
                assert(before[i] == if (start[i] == 1) != flips_at(
                    graph.edges@,
                    graph.edge_to_qubit@,
                    family@,
                    fam,
                    per_round as int,
                    nd as int,
                    rounds as int,
                    chosen@,
                    j as nat,
                    i,
                ) {
                    1u8
                } else {
                    0u8
                });
            }
        }
    }
}

/// What is left on each data qubit after all rounds of errors and corrections.
pub fn accumulate(p: &Vec<bool>, c: &Vec<u8>, nd: usize, rounds: usize) -> (acc: Vec<bool>)
    requires
        p@.len() == nd * rounds,
        c@.len() == nd * rounds,
        nd * rounds <= usize::MAX / 8,
    ensures
        acc@ == residuals(p@, c@, nd as int, rounds as nat),
{
    let mut acc = vec![false; nd];
    for t in 0..rounds
        invariant
            p@.len() == nd * rounds,
            c@.len() == nd * rounds,
            nd * rounds <= usize::MAX / 8,
            acc@.len() == nd,
            forall|q: int| 0 <= q < nd ==> #[trigger] acc@[q] == residual(p@, c@, nd as int, q, t as nat),
    {
        for q in 0..nd
            invariant
                p@.len() == nd * rounds,
                c@.len() == nd * rounds,
                nd * rounds <= usize::MAX / 8,
                acc@.len() == nd,
                t < rounds,
                forall|q2: int|
                    0 <= q2 < nd ==> #[trigger] acc@[q2] == residual(
                        p@,
                        c@,
                        nd as int,
                        q2,
                        if q2 < q {
                            (t + 1) as nat
                        } else {
                            t as nat
                        },
                    ),
        {
            proof {
                lemma_slot_bound(q as int, t as int, nd as int, rounds as int);
            }
            let idx = q + t * nd;
            let v = acc[q] != (p[idx] != (c[idx] != 0));
            acc.set(q, v);
        }
    }
    proof {
        assert(acc@ =~= residuals(p@, c@, nd as int, rounds as nat));
    }
    acc
}

/// Parity of `acc[step * k]` for `k < n`.
pub fn strided_parity_exec(acc: &Vec<bool>, step: usize, n: usize) -> (b: bool)
    requires
        n == 0 || step * (n - 1) < acc@.len(),
    ensures
        b == strided_parity(acc@, step as int, n as nat),
{
    let mut b = false;
    let alen = acc.len();
    for k in 0..n
        invariant
            n == 0 || step * (n - 1) < acc@.len(),
            alen == acc@.len(),
            b == strided_parity(acc@, step as int, k as nat),
    {
        proof {
            assert(step * k <= step * (n - 1)) by (nonlinear_arith)
                requires
                    k < n,
            ;
            assert(step * k < alen);
        }
        b = b != acc[step * k];
    }
    b
}

/// Edges numbered in order from `(u, v, qubit)` triples.
pub open spec fn edges_of(triples: Seq<(usize, usize, Option<usize>)>) -> Seq<Edge> {
    Seq::new(triples.len(), |k: int| Edge { u: triples[k].0, v: triples[k].1, id: k as usize })
}

/// The qubit entries of `(u, v, qubit)` triples.
pub open spec fn qubits_of(triples: Seq<(usize, usize, Option<usize>)>) -> Seq<Option<usize>> {
    Seq::new(triples.len(), |k: int| triples[k].2)
}

/// Every edge in the family `true`.
pub open spec fn all_true(n: nat) -> Seq<bool> {
    Seq::new(n, |i: int| true)
}

/// The rotated code's decoding graph of one family over `rounds` rounds:
/// Z plaquettes (X errors) or X plaquettes (Z errors).
pub open spec fn rotated_graph(d: nat, rounds: int, z_type: bool) -> Seq<(usize, usize, Option<usize>)> {
    let stabs = if z_type {
        rotated_z_stabilizers(d)
    } else {
        rotated_x_stabilizers(d)
    };
    spatial_edges(stabs, data_seq(d, d), 0, (stabs.len() * rounds) as nat, rounds as nat) + temporal_edges(
        stabs.len(),
        (rounds - 1) as nat,
    )
}

/// The XZZX stabilizers in the code's order.
pub open spec fn xzzx_stabs(d: nat) -> Seq<(usize, usize)> {
    rotated_z_stabilizers(d) + rotated_x_stabilizers(d)
}

/// The XZZX graph carrying both error families.
pub open spec fn xzzx_graph(d: nat, rounds: int) -> Seq<(usize, usize, Option<usize>)> {
    let stabs = xzzx_stabs(d);
    combined_spatial(stabs, data_seq(d, d), (stabs.len() * rounds) as nat, rounds as nat) + temporal_edges(
        stabs.len(),
        layers_between(rounds as nat),
    )
}

/// Per edge of `xzzx_graph`, whether correcting it means applying X.
pub open spec fn xzzx_family(d: nat, rounds: int) -> Seq<bool> {
    let stabs = xzzx_stabs(d);
    combined_flags(stabs, data_seq(d, d), (stabs.len() * rounds) as nat, rounds as nat) + Seq::new(
        temporal_edges(stabs.len(), layers_between(rounds as nat)).len(),
        |i: int| false,
    )
}

/// A logical check as the XZZX code builds it: a Pauli is logical exactly
/// when it is not a product of the plaquettes, and its logical pair is
/// valid or absent.
pub open spec fn xzzx_check_ok(check: LogicalCheck, d: nat) -> bool {
    let stabs = xzzx_stabs(d);
    &&& check.wf()
    &&& forall|i: int|
        0 <= i < stabs.len() ==> !check.is_logical_spec(
            #[trigger] xzzx_op(d as int, stabs[i]).0,
            xzzx_op(d as int, stabs[i]).1,
        )
    &&& logical_pair_found(xzzx_ops(d as int, stabs), check, check.lx(), check.lz()) || (check.lx() == (
        0u128,
        0u128,
    ) && check.lz() == (0u128, 0u128))
    &&& forall|x: u128, z: u128|
        #[trigger] check.is_logical_spec(x, z) == !crate::logical_check::in_group(xzzx_ops(d as int, stabs), (x, z))
}

/// The outcome of decoding a rotated-code session: defects `dz`, `dx` of
/// the Z and X plaquettes, decoder answers `cz`, `cx` on the two graphs,
/// the corrections they write, and `r` = 1 when what is left flips the
/// left column (logical X) or the top row (logical Z).
pub open spec fn rotated_decoded(
    s: WasmSession,
    decoder_type: usize,
    dz: Seq<bool>,
    dx: Seq<bool>,
    cz: Seq<usize>,
    cx: Seq<usize>,
    r: u8,
    class: u8,
) -> bool {
    let d = s.d as nat;
    let rounds = s.num_rounds as int;
    let nd = (d * d) as int;
    let nx = rotated_x_stabilizers(d).len() as int;
    let nz = rotated_z_stabilizers(d).len() as int;
    let gz = rotated_graph(d, rounds, true);
    let gx = rotated_graph(d, rounds, false);
    &&& defects_ok(dz, s.syndrome@, nx, nz, nx + nz, rounds)
    &&& defects_ok(dx, s.syndrome@, 0, nx, nx + nz, rounds)
    &&& chosen_ok(edges_of(gz), (nz * rounds) as nat, dz, decoder_type, cz)
    &&& chosen_ok(edges_of(gx), (nx * rounds) as nat, dx, decoder_type, cx)
    &&& s.correction_x@ == correction_table(edges_of(gz), qubits_of(gz), all_true(gz.len()), true, nz, nd, rounds, cz)
    &&& s.correction_z@ == correction_table(edges_of(gx), qubits_of(gx), all_true(gx.len()), true, nx, nd, rounds, cx)
    &&& r == if strided_parity(residuals(s.physical_x@, s.correction_x@, nd, rounds as nat), d as int, d)
        || strided_parity(residuals(s.physical_z@, s.correction_z@, nd, rounds as nat), 1, d) {
        1u8
    } else {
        0u8
    }
    &&& class == class_bits(
        strided_parity(residuals(s.physical_x@, s.correction_x@, nd, rounds as nat), d as int, d),
        strided_parity(residuals(s.physical_z@, s.correction_z@, nd, rounds as nat), 1, d),
    )
}

/// The logical class as bits: 1 for a logical X, 2 for a logical Z.
pub open spec fn class_bits(logical_x: bool, logical_z: bool) -> u8 {
    ((if logical_x {
        1u8
    } else {
        0u8
    }) + (if logical_z {
        2u8
    } else {
        0u8
    })) as u8
}

/// The outcome of decoding an XZZX session: defects `dd` of all
/// plaquettes, one decoder answer `c` on the combined graph, the X and Z
/// corrections it writes, and `r` = 1 when what is left is not in the
/// stabilizer group according to the code's logical check.
pub open spec fn xzzx_decoded(
    s: WasmSession,
    decoder_type: usize,
    dd: Seq<bool>,
    c: Seq<usize>,
    check: LogicalCheck,
    r: u8,
    class: u8,
) -> bool {
    let d = s.d as nat;
    let rounds = s.num_rounds as int;
    let nd = (d * d) as int;
    let ns = xzzx_stabs(d).len() as int;
    let g = xzzx_graph(d, rounds);
    let fam = xzzx_family(d, rounds);
    &&& defects_ok(dd, s.syndrome@, 0, ns, ns, rounds)
    &&& chosen_ok(edges_of(g), (ns * rounds) as nat, dd, decoder_type, c)
    &&& s.correction_x@ == correction_table(edges_of(g), qubits_of(g), fam, true, ns, nd, rounds, c)
    &&& s.correction_z@ == correction_table(edges_of(g), qubits_of(g), fam, false, ns, nd, rounds, c)
    &&& xzzx_check_ok(check, d)
    &&& r == if check.is_logical_spec(
        to_mask(residuals(s.physical_x@, s.correction_x@, nd, rounds as nat), nd as nat),
        to_mask(residuals(s.physical_z@, s.correction_z@, nd, rounds as nat), nd as nat),
    ) {
        1u8
    } else {
        0u8
    }
    &&& class == check.class_spec(
        to_mask(residuals(s.physical_x@, s.correction_x@, nd, rounds as nat), nd as nat),
        to_mask(residuals(s.physical_z@, s.correction_z@, nd, rounds as nat), nd as nat),
    )
}

/// A family's graph fits in memory when the session's tables do.
proof fn lemma_graph_fits(nf: nat, ns: nat, nd: nat, rounds: nat)
    requires
        nf <= ns,
        ns * rounds <= usize::MAX / 16,
        nd * rounds <= usize::MAX / 16,
        rounds >= 1 || ns <= usize::MAX / 16,
    ensures
        graph_fits(nf, nd, rounds),
{
    assert((nf + 2 * nd) * rounds + nf <= usize::MAX / 4) by (nonlinear_arith)
        requires
            nf <= ns,
            ns * rounds <= usize::MAX / 16,
            nd * rounds <= usize::MAX / 16,
            rounds >= 1 || ns <= usize::MAX / 16,
    ;
}

/// The graph built from `triples` is the one `edges_of` and `qubits_of` describe.
proof fn lemma_graph_is(g: SyndromeGraph, triples: Seq<(usize, usize, Option<usize>)>)
    requires
        crate::lattice::edges_match(g.edges@, g.edge_to_qubit@, triples),
    ensures
        g.edges@ == edges_of(triples),
        g.edge_to_qubit@ == qubits_of(triples),
{
    assert(g.edges@ =~= edges_of(triples));
    assert forall|k: int| 0 <= k < triples.len() implies #[trigger] g.edge_to_qubit@[k] == triples[k].2 by {
        assert(g.edges@[k].id == k);
    }
    assert(g.edge_to_qubit@ =~= qubits_of(triples));
}

/// What decoding keeps of a session: the code, its size and injected
/// errors, with the syndrome recomputed from them.
pub open spec fn decoded(pre: WasmSession, post: WasmSession) -> bool {
    &&& post.wf()
    &&& post.code_type == pre.code_type
    &&& post.d == pre.d
    &&& post.num_rounds == pre.num_rounds
    &&& post.physical_x@ == pre.physical_x@
    &&& post.physical_z@ == pre.physical_z@
    &&& post.physical_erased@ == pre.physical_erased@
    &&& post.measurement_errors@ == pre.measurement_errors@
    &&& forall|idx: int, t: int|
        0 <= idx < num_stabs_spec(pre.d as nat) && 0 <= t < pre.num_rounds ==> #[trigger] post.syndrome@[idx + t
            * num_stabs_spec(pre.d as nat)] == syndrome_spec(
            pre.code_type,
            pre.d as nat,
            pre.physical_x@,
            pre.physical_z@,
            pre.measurement_errors@,
            idx,
            t as nat,
        )
}

/// Set every entry to 0.
fn zero_fill(v: &mut Vec<u8>)
    ensures
        final(v)@.len() == old(v)@.len(),
        forall|i: int| 0 <= i < final(v)@.len() ==> #[trigger] final(v)@[i] == 0,
{
    let n = v.len();
    for i in 0..n
        invariant
            v@.len() == n,
            forall|j: int| 0 <= j < i ==> #[trigger] v@[j] == 0,
    {
        v.set(i, 0);
    }
}

impl WasmSession {
    /// Decode the session's errors with the chosen decoder (1 greedy, 2
    /// minimum-weight matching, anything else Union-Find): recompute the
    /// syndrome, turn it into detection events, decode, write the
    /// corrections per round, and return 1 when the errors left over after
    /// correction amount to a logical error, else 0.
    pub fn decode(&mut self, decoder_type: usize) -> (r: u8)
        requires
            old(self).wf(),
            old(self).code_type == 0 ==> old(self).num_rounds >= 1,
        ensures
            decoded(*old(self), *final(self)),
            old(self).code_type == 0 ==> exists|dz: Seq<bool>, dx: Seq<bool>, cz: Seq<usize>, cx: Seq<usize>, class: u8|
                #[trigger] rotated_decoded(*final(self), decoder_type, dz, dx, cz, cx, r, class),
            old(self).code_type != 0 ==> exists|dd: Seq<bool>, c: Seq<usize>, check: LogicalCheck, class: u8|
                #[trigger] xzzx_decoded(*final(self), decoder_type, dd, c, check, r, class),
    {
        self.decode_both(decoder_type).0
    }

    /// The same decoding, returning the logical class of what is left: bit 0
    /// for a logical X, bit 1 for a logical Z, 0 when the correction
    /// succeeded.
    pub fn decode_class(&mut self, decoder_type: usize) -> (class: u8)
        requires
            old(self).wf(),
            old(self).code_type == 0 ==> old(self).num_rounds >= 1,
        ensures
            decoded(*old(self), *final(self)),
            old(self).code_type == 0 ==> exists|dz: Seq<bool>, dx: Seq<bool>, cz: Seq<usize>, cx: Seq<usize>, r: u8|
                #[trigger] rotated_decoded(*final(self), decoder_type, dz, dx, cz, cx, r, class),
            old(self).code_type != 0 ==> exists|dd: Seq<bool>, c: Seq<usize>, check: LogicalCheck, r: u8|
                #[trigger] xzzx_decoded(*final(self), decoder_type, dd, c, check, r, class),
    {
        self.decode_both(decoder_type).1
    }

    fn decode_both(&mut self, decoder_type: usize) -> (res: (u8, u8))
        requires
            old(self).wf(),
            old(self).code_type == 0 ==> old(self).num_rounds >= 1,
        ensures
            decoded(*old(self), *final(self)),
            old(self).code_type == 0 ==> exists|dz: Seq<bool>, dx: Seq<bool>, cz: Seq<usize>, cx: Seq<usize>|
                #[trigger] rotated_decoded(*final(self), decoder_type, dz, dx, cz, cx, res.0, res.1),
            old(self).code_type != 0 ==> exists|dd: Seq<bool>, c: Seq<usize>, check: LogicalCheck|
                #[trigger] xzzx_decoded(*final(self), decoder_type, dd, c, check, res.0, res.1),
    {
        zero_fill(&mut self.correction_x);
        zero_fill(&mut self.correction_z);
        self.compute_syndrome();
        if self.code_type == 0 {
            self.decode_rotated(decoder_type)
        } else {
            self.decode_xzzx(decoder_type)
        }
    }

    /// Both families of the rotated code, on the current syndrome.
    fn decode_rotated(&mut self, decoder_type: usize) -> (res: (u8, u8))
        requires
            old(self).wf(),
            old(self).code_type == 0,
            old(self).num_rounds >= 1,
            forall|i: int| 0 <= i < old(self).correction_x@.len() ==> #[trigger] old(self).correction_x@[i] == 0,
            forall|i: int| 0 <= i < old(self).correction_z@.len() ==> #[trigger] old(self).correction_z@[i] == 0,
        ensures
            final(self).wf(),
            final(self).code_type == old(self).code_type,
            final(self).d == old(self).d,
            final(self).num_rounds == old(self).num_rounds,
            final(self).physical_x@ == old(self).physical_x@,
            final(self).physical_z@ == old(self).physical_z@,
            final(self).physical_erased@ == old(self).physical_erased@,
            final(self).measurement_errors@ == old(self).measurement_errors@,
            final(self).syndrome@ == old(self).syndrome@,
            exists|dz: Seq<bool>, dx: Seq<bool>, cz: Seq<usize>, cx: Seq<usize>|
                #[trigger] rotated_decoded(*final(self), decoder_type, dz, dx, cz, cx, res.0, res.1),
    {
        proof {
            lemma_supported_small(self.d, self.code_type);
            crate::surface_code::lemma_stab_counts(self.d as nat);
        }
        let d = self.d;
        let num_rounds = self.num_rounds;
        let num_data = d * d;
        let code = RotatedSurfaceCode::new(d);
        let num_x = code.x_stabilizers.len();
        let num_z = code.z_stabilizers.len();
        let num_stabs = num_x + num_z;
        proof {
            lemma_graph_fits(num_z as nat, num_stabs as nat, num_data as nat, num_rounds as nat);
            lemma_graph_fits(num_x as nat, num_stabs as nat, num_data as nat, num_rounds as nat);
            assert(num_data * num_rounds == d * d * num_rounds);
        }
        // Z plaquettes: X errors.
        let graph_z = code.build_syndrome_graph(num_rounds, true);
        let defects_z = detection_events(&self.syndrome, num_x, num_z, num_stabs, num_rounds);
        let erased_z = erased_edges_of(&graph_z, &self.physical_erased, num_z, num_data, num_rounds);
        let chosen_z = decode_by_type(&graph_z, &defects_z, decoder_type, &erased_z);
        let family_z = vec![true; graph_z.edges.len()];
        apply_chosen(&mut self.correction_x, &graph_z, &family_z, true, &chosen_z, num_z, num_data, num_rounds);
        // X plaquettes: Z errors.
        let graph_x = code.build_syndrome_graph(num_rounds, false);
        let defects_x = detection_events(&self.syndrome, 0, num_x, num_stabs, num_rounds);
        let erased_x = erased_edges_of(&graph_x, &self.physical_erased, num_x, num_data, num_rounds);
        let chosen_x = decode_by_type(&graph_x, &defects_x, decoder_type, &erased_x);
        let family_x = vec![true; graph_x.edges.len()];
        apply_chosen(&mut self.correction_z, &graph_x, &family_x, true, &chosen_x, num_x, num_data, num_rounds);
        // What is left after all rounds, read along the logical operators.
        let accumulated_x = accumulate(&self.physical_x, &self.correction_x, num_data, num_rounds);
        let accumulated_z = accumulate(&self.physical_z, &self.correction_z, num_data, num_rounds);
        proof {
            assert(d == 0 || d * (d - 1) < num_data) by (nonlinear_arith)
                requires
                    num_data == d * d,
            ;
            assert(d == 0 || 1 * (d - 1) < num_data) by (nonlinear_arith)
                requires
                    num_data == d * d,
            ;
        }
        let logical_x = strided_parity_exec(&accumulated_x, d, d);
        let logical_z = strided_parity_exec(&accumulated_z, 1, d);
        let r: u8 = if logical_x || logical_z {
            1
        } else {
            0
        };
        let class: u8 = (if logical_x {
            1u8
        } else {
            0u8
        }) + (if logical_z {
            2u8
        } else {
            0u8
        });
        proof {
            let gz = rotated_graph(d as nat, num_rounds as int, true);
            let gx = rotated_graph(d as nat, num_rounds as int, false);
            lemma_graph_is(graph_z, gz);
            lemma_graph_is(graph_x, gx);
            assert(family_z@ =~= all_true(gz.len()));
            assert(family_x@ =~= all_true(gx.len()));
            assert(self.correction_x@ =~= correction_table(
                edges_of(gz),
                qubits_of(gz),
                all_true(gz.len()),
                true,
                num_z as int,
                num_data as int,
                num_rounds as int,
                chosen_z@,
            ));
            assert(self.correction_z@ =~= correction_table(
                edges_of(gx),
                qubits_of(gx),
                all_true(gx.len()),
                true,
                num_x as int,
                num_data as int,
                num_rounds as int,
                chosen_x@,
            ));
        }
        let res = (r, class);
        proof {
            assert(rotated_decoded(*self, decoder_type, defects_z@, defects_x@, chosen_z@, chosen_x@, res.0, res.1));
        }
        res
    }

    /// The combined XZZX graph, on the current syndrome.
    fn decode_xzzx(&mut self, decoder_type: usize) -> (res: (u8, u8))
        requires
            old(self).wf(),
            old(self).code_type != 0,
            forall|i: int| 0 <= i < old(self).correction_x@.len() ==> #[trigger] old(self).correction_x@[i] == 0,
            forall|i: int| 0 <= i < old(self).correction_z@.len() ==> #[trigger] old(self).correction_z@[i] == 0,
        ensures
            final(self).wf(),
            final(self).code_type == old(self).code_type,
            final(self).d == old(self).d,
            final(self).num_rounds == old(self).num_rounds,
            final(self).physical_x@ == old(self).physical_x@,
            final(self).physical_z@ == old(self).physical_z@,
            final(self).physical_erased@ == old(self).physical_erased@,
            final(self).measurement_errors@ == old(self).measurement_errors@,
            final(self).syndrome@ == old(self).syndrome@,
            exists|dd: Seq<bool>, c: Seq<usize>, check: LogicalCheck|
                #[trigger] xzzx_decoded(*final(self), decoder_type, dd, c, check, res.0, res.1),
    {
        proof {
            lemma_supported_small(self.d, self.code_type);
        }
        let d = self.d;
        let num_rounds = self.num_rounds;
        let num_data = d * d;
        let code = XZZXSurfaceCode::new(d);
        let num_stabs = code.stabilizers.len();
        proof {
            lemma_graph_fits(num_stabs as nat, num_stabs as nat, num_data as nat, num_rounds as nat);
            assert(num_data * num_rounds == d * d * num_rounds);
        }
        let (graph, edge_is_x) = code.build_combined_graph(num_rounds);
        proof {
            crate::lattice::lemma_flags_len(
                code.stabilizers@,
                code.data_qubits@,
                graph.num_nodes as nat,
                num_rounds as nat,
            );
        }
        let defects = detection_events(&self.syndrome, 0, num_stabs, num_stabs, num_rounds);
        let erased = erased_edges_of(&graph, &self.physical_erased, num_stabs, num_data, num_rounds);
        let chosen = decode_by_type(&graph, &defects, decoder_type, &erased);
        apply_chosen(&mut self.correction_x, &graph, &edge_is_x, true, &chosen, num_stabs, num_data, num_rounds);
        apply_chosen(&mut self.correction_z, &graph, &edge_is_x, false, &chosen, num_stabs, num_data, num_rounds);
        let accumulated_x = accumulate(&self.physical_x, &self.correction_x, num_data, num_rounds);
        let accumulated_z = accumulate(&self.physical_z, &self.correction_z, num_data, num_rounds);
        let rx = mask_from(&accumulated_x, num_data);
        let rz = mask_from(&accumulated_z, num_data);
        let r: u8 = if code.logical.is_logical(rx, rz) {
            1
        } else {
            0
        };
        let class = code.logical.classify(rx, rz);
        proof {
            let g = xzzx_graph(d as nat, num_rounds as int);
            lemma_graph_is(graph, g);
            assert(self.correction_x@ =~= correction_table(
                edges_of(g),
                qubits_of(g),
                xzzx_family(d as nat, num_rounds as int),
                true,
                num_stabs as int,
                num_data as int,
                num_rounds as int,
                chosen@,
            ));
            assert(self.correction_z@ =~= correction_table(
                edges_of(g),
                qubits_of(g),
                xzzx_family(d as nat, num_rounds as int),
                false,
                num_stabs as int,
                num_data as int,
                num_rounds as int,
                chosen@,
            ));
        }
        let res = (r, class);
        proof {
            assert(xzzx_decoded(*self, decoder_type, defects@, chosen@, code.logical, res.0, res.1));
        }
        res
    }
}

/// Every reading of the syndrome is 0.
pub open spec fn quiet(syn: Seq<u8>) -> bool {
    forall|i: int| 0 <= i < syn.len() ==> #[trigger] syn[i] == 0
}

/// A quiet syndrome has no detection events.
proof fn lemma_quiet_defects(defects: Seq<bool>, syn: Seq<u8>, offset: int, count: int, ns: int, rounds: int)
    requires
        defects_ok(defects, syn, offset, count, ns, rounds),
        quiet(syn),
        0 <= offset,
        0 <= count,
        offset + count <= ns,
        0 <= rounds,
        syn.len() == ns * rounds,
    ensures
        crate::decoder::no_defects(defects, count * rounds),
{
    assert forall|x: int| 0 <= x < count * rounds implies !#[trigger] defects[x] by {
        if count > 0 {
            vstd::arithmetic::div_mod::lemma_fundamental_div_mod(x, count);
            let s = x % count;
            let t = x / count;
            assert(x == s + t * count) by (nonlinear_arith)
                requires
                    x == count * (x / count) + x % count,
                    s == x % count,
                    t == x / count,
            ;
            assert(0 <= t < rounds) by (nonlinear_arith)
                requires
                    0 <= x < count * rounds,
                    x == s + t * count,
                    0 <= s < count,
            ;
            assert(defects[s + t * count] == detection(syn, offset + s, ns, t));
            lemma_slot_bound(offset + s, t, ns, rounds);
            if t > 0 {
                lemma_slot_bound(offset + s, t - 1, ns, rounds);
            }
        } else {
            assert(count * rounds == 0) by (nonlinear_arith)
                requires
                    count == 0,
            ;
        }
    }
}

/// With no chosen edge, the correction table is all zeros.
proof fn lemma_empty_table(
    edges: Seq<Edge>,
    map: Seq<Option<usize>>,
    family: Seq<bool>,
    fam: bool,
    per_round: int,
    nd: int,
    rounds: int,
    chosen: Seq<usize>,
)
    requires
        chosen.len() == 0,
        nd * rounds >= 0,
    ensures
        correction_table(edges, map, family, fam, per_round, nd, rounds, chosen) == Seq::new(
            (nd * rounds) as nat,
            |i: int| 0u8,
        ),
{
    assert(correction_table(edges, map, family, fam, per_round, nd, rounds, chosen) =~= Seq::new(
        (nd * rounds) as nat,
        |i: int| 0u8,
    ));
}

/// Decoding a rotated-code session whose syndrome is quiet chooses no edge
/// and writes no correction.
pub proof fn lemma_rotated_quiet_decodes_to_nothing(
    s: WasmSession,
    decoder_type: usize,
    dz: Seq<bool>,
    dx: Seq<bool>,
    cz: Seq<usize>,
    cx: Seq<usize>,
    r: u8,
    class: u8,
)
    requires
        s.wf(),
        s.code_type == 0,
        rotated_decoded(s, decoder_type, dz, dx, cz, cx, r, class),
        quiet(s.syndrome@),
    ensures
        cz.len() == 0,
        cx.len() == 0,
        forall|i: int| 0 <= i < s.correction_x@.len() ==> #[trigger] s.correction_x@[i] == 0,
        forall|i: int| 0 <= i < s.correction_z@.len() ==> #[trigger] s.correction_z@[i] == 0,
{
    let d = s.d as nat;
    let rounds = s.num_rounds as int;
    let nd = (d * d) as int;
    let nx = rotated_x_stabilizers(d).len() as int;
    let nz = rotated_z_stabilizers(d).len() as int;
    assert(num_stabs_spec(d) == nx + nz);
    lemma_quiet_defects(dz, s.syndrome@, nx, nz, nx + nz, rounds);
    lemma_quiet_defects(dx, s.syndrome@, 0, nx, nx + nz, rounds);
    assert(nd * rounds >= 0) by (nonlinear_arith)
        requires
            nd >= 0,
            rounds >= 0,
    ;
    let gz = rotated_graph(d, rounds, true);
    let gx = rotated_graph(d, rounds, false);
    lemma_empty_table(edges_of(gz), qubits_of(gz), all_true(gz.len()), true, nz, nd, rounds, cz);
    lemma_empty_table(edges_of(gx), qubits_of(gx), all_true(gx.len()), true, nx, nd, rounds, cx);
}

/// Decoding an XZZX session whose syndrome is quiet chooses no edge and
/// writes no correction.
pub proof fn lemma_xzzx_quiet_decodes_to_nothing(
    s: WasmSession,
    decoder_type: usize,
    dd: Seq<bool>,
    c: Seq<usize>,
    check: LogicalCheck,
    r: u8,
    class: u8,
)
    requires
        s.wf(),
        s.code_type != 0,
        xzzx_decoded(s, decoder_type, dd, c, check, r, class),
        quiet(s.syndrome@),
    ensures
        c.len() == 0,
        forall|i: int| 0 <= i < s.correction_x@.len() ==> #[trigger] s.correction_x@[i] == 0,
        forall|i: int| 0 <= i < s.correction_z@.len() ==> #[trigger] s.correction_z@[i] == 0,
{
    let d = s.d as nat;
    let rounds = s.num_rounds as int;
    let nd = (d * d) as int;
    let ns = xzzx_stabs(d).len() as int;
    assert(num_stabs_spec(d) == ns);
    lemma_quiet_defects(dd, s.syndrome@, 0, ns, ns, rounds);
    assert(nd * rounds >= 0) by (nonlinear_arith)
        requires
            nd >= 0,
            rounds >= 0,
    ;
    let g = xzzx_graph(d, rounds);
    lemma_empty_table(edges_of(g), qubits_of(g), xzzx_family(d, rounds), true, ns, nd, rounds, c);
    lemma_empty_table(edges_of(g), qubits_of(g), xzzx_family(d, rounds), false, ns, nd, rounds, c);
}

/// No data error in any round and no measurement error is injected.
pub open spec fn no_injected_errors(s: WasmSession) -> bool {
    &&& forall|i: int| 0 <= i < s.physical_x@.len() ==> !#[trigger] s.physical_x@[i]
    &&& forall|i: int| 0 <= i < s.physical_z@.len() ==> !#[trigger] s.physical_z@[i]
    &&& forall|i: int| 0 <= i < s.measurement_errors@.len() ==> !#[trigger] s.measurement_errors@[i]
}

/// A qubit numbered by `lattice_index` lies in the patch.
proof fn lemma_index_in_patch(d: int, qx: int, qy: int)
    requires
        0 <= d <= crate::lattice::MAX_DISTANCE,
    ensures
        crate::lattice::lattice_index(d, qx, qy) matches Some(q) ==> q < d * d,
{
    if 1 <= qx < 2 * d && 1 <= qy < 2 * d {
        crate::lattice::lemma_lattice_index_bound(d, qx, qy);
        assert(d * d <= crate::lattice::MAX_DISTANCE * crate::lattice::MAX_DISTANCE) by (nonlinear_arith)
            requires
                0 <= d <= crate::lattice::MAX_DISTANCE,
        ;
    }
}

/// Every term a plaquette reads names a data qubit of the patch.
proof fn lemma_terms_in_patch(code_type: usize, d: nat, idx: int)
    requires
        d <= crate::lattice::MAX_DISTANCE,
    ensures
        forall|k: int|
            0 <= k < stab_terms(code_type, d, idx).len() ==> (#[trigger] stab_terms(code_type, d, idx)[k]).0 < d * d,
{
    let p = stab_point(code_type, d, idx);
    let (sx, sy) = (p.0 as int, p.1 as int);
    let di = d as int;
    lemma_index_in_patch(di, sx - 1, sy - 1);
    lemma_index_in_patch(di, sx - 1, sy + 1);
    lemma_index_in_patch(di, sx + 1, sy - 1);
    lemma_index_in_patch(di, sx + 1, sy + 1);
    let terms = stab_terms(code_type, d, idx);
    if code_type == 0 {
        let n = crate::lattice::diagonal_neighbors(di, sx, sy);
        assert forall|k: int| 0 <= k < n.len() implies #[trigger] n[k] < d * d by {
            let a = crate::lattice::opt_push(seq![], crate::lattice::lattice_index(di, sx - 1, sy - 1));
            let b = crate::lattice::opt_push(a, crate::lattice::lattice_index(di, sx - 1, sy + 1));
            let c = crate::lattice::opt_push(b, crate::lattice::lattice_index(di, sx + 1, sy - 1));
            assert(forall|j: int| 0 <= j < a.len() ==> #[trigger] a[j] < d * d);
            assert(forall|j: int| 0 <= j < b.len() ==> #[trigger] b[j] < d * d);
            assert(forall|j: int| 0 <= j < c.len() ==> #[trigger] c[j] < d * d);
        }
    } else {
        let a = opt_term(seq![], crate::lattice::lattice_index(di, sx - 1, sy - 1), true);
        let b = opt_term(a, crate::lattice::lattice_index(di, sx + 1, sy - 1), false);
        let c = opt_term(b, crate::lattice::lattice_index(di, sx - 1, sy + 1), false);
        assert(forall|j: int| 0 <= j < a.len() ==> (#[trigger] a[j]).0 < d * d);
        assert(forall|j: int| 0 <= j < b.len() ==> (#[trigger] b[j]).0 < d * d);
        assert(forall|j: int| 0 <= j < c.len() ==> (#[trigger] c[j]).0 < d * d);
    }
}

/// Terms over error-free rounds read even parity.
proof fn lemma_term_parity_clean(px: Seq<bool>, pz: Seq<bool>, terms: Seq<Term>, off: int, k: nat, nd: int, total: int)
    requires
        k <= terms.len(),
        0 <= off,
        off + nd <= total,
        total <= px.len(),
        total <= pz.len(),
        forall|i: int| 0 <= i < total ==> !#[trigger] px[i] && !pz[i],
        forall|j: int| 0 <= j < terms.len() ==> (#[trigger] terms[j]).0 < nd,
    ensures
        !term_parity(px, pz, terms, off, k),
    decreases k,
{
    if k > 0 {
        lemma_term_parity_clean(px, pz, terms, off, (k - 1) as nat, nd, total);
        let q = terms[k - 1].0 as int;
        assert(!px[q + off] && !pz[q + off]);
    }
}

/// Accumulated over error-free rounds, the parity stays even.
proof fn lemma_acc_parity_clean(px: Seq<bool>, pz: Seq<bool>, terms: Seq<Term>, nd: nat, t: nat, rounds: nat)
    requires
        t <= rounds,
        nd * rounds <= px.len(),
        nd * rounds <= pz.len(),
        forall|i: int| 0 <= i < nd * rounds ==> !#[trigger] px[i] && !pz[i],
        forall|j: int| 0 <= j < terms.len() ==> (#[trigger] terms[j]).0 < nd,
    ensures
        !acc_parity(px, pz, terms, nd, t),
    decreases t,
{
    if t > 0 {
        lemma_acc_parity_clean(px, pz, terms, nd, (t - 1) as nat, rounds);
        assert((t - 1) * nd + nd <= nd * rounds) by (nonlinear_arith)
            requires
                t <= rounds,
                t >= 1,
        ;
        assert(0 <= (t - 1) * nd) by (nonlinear_arith)
            requires
                t >= 1,
        ;
        lemma_term_parity_clean(px, pz, terms, (t - 1) * nd, terms.len(), nd as int, (nd * rounds) as int);
    }
}

/// With no injected error, every reading of the recomputed syndrome is 0.
proof fn lemma_clean_quiet(pre: WasmSession, post: WasmSession)
    requires
        pre.wf(),
        no_injected_errors(pre),
        decoded(pre, post),
    ensures
        quiet(post.syndrome@),
{
    let d = pre.d as nat;
    let ns = num_stabs_spec(d) as int;
    let rounds = pre.num_rounds as int;
    let nd = d * d;
    lemma_supported_small(pre.d, pre.code_type);
    assert forall|i: int| 0 <= i < post.syndrome@.len() implies #[trigger] post.syndrome@[i] == 0 by {
        if ns > 0 {
            vstd::arithmetic::div_mod::lemma_fundamental_div_mod(i, ns);
            let idx = i % ns;
            let t = i / ns;
            assert(i == idx + t * ns) by (nonlinear_arith)
                requires
                    i == ns * (i / ns) + i % ns,
                    idx == i % ns,
                    t == i / ns,
            ;
            assert(0 <= t < rounds) by (nonlinear_arith)
                requires
                    0 <= i < ns * rounds,
                    i == idx + t * ns,
                    0 <= idx < ns,
            ;
            lemma_terms_in_patch(pre.code_type, d, idx);
            lemma_acc_parity_clean(
                pre.physical_x@,
                pre.physical_z@,
                stab_terms(pre.code_type, d, idx),
                nd,
                (t + 1) as nat,
                rounds as nat,
            );
            assert(post.syndrome@[idx + t * ns] == syndrome_spec(
                pre.code_type,
                d,
                pre.physical_x@,
                pre.physical_z@,
                pre.measurement_errors@,
                idx,
                t as nat,
            ));
            assert(!pre.measurement_errors@[idx + t * ns]);
        } else {
            assert(ns * rounds == 0) by (nonlinear_arith)
                requires
                    ns == 0,
            ;
        }
    }
}

/// Errors that were never there leave nothing behind.
proof fn lemma_residual_clean(p: Seq<bool>, c: Seq<u8>, nd: int, q: int, t: nat, rounds: int)
    requires
        0 <= q < nd,
        t <= rounds,
        p.len() == nd * rounds,
        c.len() == nd * rounds,
        forall|i: int| 0 <= i < p.len() ==> !#[trigger] p[i],
        forall|i: int| 0 <= i < c.len() ==> #[trigger] c[i] == 0,
    ensures
        !residual(p, c, nd, q, t),
    decreases t,
{
    if t > 0 {
        lemma_residual_clean(p, c, nd, q, (t - 1) as nat, rounds);
        lemma_slot_bound(q, t - 1, nd, rounds);
    }
}

/// Parity over entries that are all clear is even.
proof fn lemma_strided_clean(acc: Seq<bool>, step: int, n: nat)
    requires
        n == 0 || 0 <= step * (n - 1) < acc.len(),
        0 <= step,
        forall|i: int| 0 <= i < acc.len() ==> !#[trigger] acc[i],
    ensures
        !strided_parity(acc, step, n),
    decreases n,
{
    if n > 0 {
        if n > 1 {
            assert(step * (n - 2) <= step * (n - 1)) by (nonlinear_arith)
                requires
                    n >= 2,
                    step >= 0,
            ;
            assert(0 <= step * (n - 2)) by (nonlinear_arith)
                requires
                    n >= 2,
                    step >= 0,
            ;
        }
        lemma_strided_clean(acc, step, (n - 1) as nat);
    }
}

/// The mask of bits that are all clear is 0.
proof fn lemma_mask_clean(bits: Seq<bool>, n: nat)
    requires
        forall|i: int| 0 <= i < n ==> !#[trigger] bits[i],
    ensures
        to_mask(bits, n) == 0,
    decreases n,
{
    if n > 0 {
        lemma_mask_clean(bits, (n - 1) as nat);
        assert forall|i: u128| i < 128 implies !#[trigger] crate::bits::bit(0u128 | 0u128, i) by {
            crate::bits::lemma_bit_or(0, 0, i);
            crate::bits::lemma_bit_zero(i);
        }
        crate::bits::lemma_no_bits_zero(0u128 | 0u128);
    }
}

/// A rotated-code session with no injected error reads a quiet syndrome,
/// and decoding it writes no correction and reports no logical error.
pub proof fn lemma_rotated_clean_session(
    pre: WasmSession,
    post: WasmSession,
    decoder_type: usize,
    dz: Seq<bool>,
    dx: Seq<bool>,
    cz: Seq<usize>,
    cx: Seq<usize>,
    r: u8,
    class: u8,
)
    requires
        pre.wf(),
        pre.code_type == 0,
        no_injected_errors(pre),
        decoded(pre, post),
        rotated_decoded(post, decoder_type, dz, dx, cz, cx, r, class),
    ensures
        quiet(post.syndrome@),
        forall|i: int| 0 <= i < post.correction_x@.len() ==> #[trigger] post.correction_x@[i] == 0,
        forall|i: int| 0 <= i < post.correction_z@.len() ==> #[trigger] post.correction_z@[i] == 0,
        r == 0,
        class == 0,
{
    lemma_clean_quiet(pre, post);
    lemma_rotated_quiet_decodes_to_nothing(post, decoder_type, dz, dx, cz, cx, r, class);
    let d = post.d as int;
    let nd = d * d;
    let rounds = post.num_rounds as int;
    let accx = residuals(post.physical_x@, post.correction_x@, nd, rounds as nat);
    let accz = residuals(post.physical_z@, post.correction_z@, nd, rounds as nat);
    assert forall|q: int| 0 <= q < accx.len() implies !#[trigger] accx[q] by {
        lemma_residual_clean(post.physical_x@, post.correction_x@, nd, q, rounds as nat, rounds);
    }
    assert forall|q: int| 0 <= q < accz.len() implies !#[trigger] accz[q] by {
        lemma_residual_clean(post.physical_z@, post.correction_z@, nd, q, rounds as nat, rounds);
    }
    if d > 0 {
        assert(d * (d - 1) < nd) by (nonlinear_arith)
            requires
                nd == d * d,
                d > 0,
        ;
        assert(1 * (d - 1) < nd) by (nonlinear_arith)
            requires
                nd == d * d,
                d > 0,
        ;
        assert(0 <= d * (d - 1)) by (nonlinear_arith)
            requires
                d > 0,
        ;
    }
    lemma_strided_clean(accx, d, d as nat);
    lemma_strided_clean(accz, 1, d as nat);
}

/// An XZZX session with no injected error reads a quiet syndrome, and
/// decoding it writes no correction and reports no logical error.
pub proof fn lemma_xzzx_clean_session(
    pre: WasmSession,
    post: WasmSession,
    decoder_type: usize,
    dd: Seq<bool>,
    c: Seq<usize>,
    check: LogicalCheck,
    r: u8,
    class: u8,
)
    requires
        pre.wf(),
        pre.code_type != 0,
        no_injected_errors(pre),
        decoded(pre, post),
        xzzx_decoded(post, decoder_type, dd, c, check, r, class),
    ensures
        quiet(post.syndrome@),
        forall|i: int| 0 <= i < post.correction_x@.len() ==> #[trigger] post.correction_x@[i] == 0,
        forall|i: int| 0 <= i < post.correction_z@.len() ==> #[trigger] post.correction_z@[i] == 0,
        r == 0,
        class == 0,
{
    lemma_clean_quiet(pre, post);
    lemma_xzzx_quiet_decodes_to_nothing(post, decoder_type, dd, c, check, r, class);
    let d = post.d as int;
    let nd = d * d;
    let rounds = post.num_rounds as int;
    let accx = residuals(post.physical_x@, post.correction_x@, nd, rounds as nat);
    let accz = residuals(post.physical_z@, post.correction_z@, nd, rounds as nat);
    assert forall|q: int| 0 <= q < nd implies !#[trigger] accx[q] by {
        lemma_residual_clean(post.physical_x@, post.correction_x@, nd, q, rounds as nat, rounds);
    }
    assert forall|q: int| 0 <= q < nd implies !#[trigger] accz[q] by {
        lemma_residual_clean(post.physical_z@, post.correction_z@, nd, q, rounds as nat, rounds);
    }
    lemma_mask_clean(accx, nd as nat);
    lemma_mask_clean(accz, nd as nat);
    crate::logical_check::lemma_identity_is_trivial(check);
}

} // verus!
