//! Geometry shared by the rotated and XZZX patches.
//!
//! A distance-`d` patch puts data qubits at the odd points `(2x + 1, 2y + 1)`
//! of a `2d x 2d` grid, numbered `x + d * y`, and stabilizers at even points.
//! A stabilizer touches the data qubits diagonally adjacent to it.
use crate::decoder::{Edge, SyndromeGraph};
use vstd::prelude::*;

verus! {

/// Largest supported distance: coordinates are handled as `i32` and qubit
/// counts must fit comfortably in a `usize`.
pub const MAX_DISTANCE: usize = 0xfff;

/// The data qubit at grid point `(qx, qy)`, if there is one.
pub open spec fn lattice_index(d: int, qx: int, qy: int) -> Option<usize> {
    if 1 <= qx < 2 * d && 1 <= qy < 2 * d {
        Some(((qx - 1) / 2 + d * ((qy - 1) / 2)) as usize)
    } else {
        None
    }
}

/// The qubit numbered by `lattice_index` lies in the patch.
pub proof fn lemma_lattice_index_bound(d: int, qx: int, qy: int)
    requires
        0 <= d <= MAX_DISTANCE,
        1 <= qx < 2 * d,
        1 <= qy < 2 * d,
    ensures
        0 <= (qx - 1) / 2 + d * ((qy - 1) / 2) < d * d,
{
    let a = (qx - 1) / 2;
    let b = (qy - 1) / 2;
    assert(0 <= a < d);
    assert(0 <= b < d);
    assert(0 <= d * b <= d * (d - 1)) by (nonlinear_arith)
        requires
            0 <= b < d,
    ;
    assert(d * (d - 1) + d == d * d) by (nonlinear_arith);
}

/// `lattice_index`, computed with the patch's `i32` coordinates.
pub fn lattice_index_exec(d: usize, qx: i32, qy: i32) -> (r: Option<usize>)
    requires
        d <= MAX_DISTANCE,
    ensures
        r == lattice_index(d as int, qx as int, qy as int),
        r matches Some(q) ==> q < d * d,
{
    let two_d = (2 * d) as i32;
    if qx >= 1 && qx < two_d && qy >= 1 && qy < two_d {
        let x_idx = (qx - 1) as usize / 2;
        let y_idx = (qy - 1) as usize / 2;
        proof {
            lemma_lattice_index_bound(d as int, qx as int, qy as int);
            assert(d * y_idx <= d * d) by (nonlinear_arith)
                requires
                    y_idx < d,
            ;
            assert(d * d <= MAX_DISTANCE * MAX_DISTANCE) by (nonlinear_arith)
                requires
                    d <= MAX_DISTANCE,
            ;
        }
        Some(x_idx + d * y_idx)
    } else {
        None
    }
}

/// One row of the data-qubit grid: `(2x + 1, 2y + 1)` for `x < k`.
pub open spec fn data_row(y: nat, k: nat) -> Seq<(usize, usize)>
    decreases k,
{
    if k == 0 {
        seq![]
    } else {
        data_row(y, (k - 1) as nat).push(((2 * (k - 1) + 1) as usize, (2 * y + 1) as usize))
    }
}

/// The data qubits of a distance-`d` patch, the first `rows` rows of them.
pub open spec fn data_seq(d: nat, rows: nat) -> Seq<(usize, usize)>
    decreases rows,
{
    if rows == 0 {
        seq![]
    } else {
        data_seq(d, (rows - 1) as nat) + data_row((rows - 1) as nat, d)
    }
}

proof fn lemma_data_row_len(y: nat, k: nat)
    ensures
        data_row(y, k).len() == k,
    decreases k,
{
    if k > 0 {
        lemma_data_row_len(y, (k - 1) as nat);
    }
}

/// The data qubits, row by row.
pub fn data_points(d: usize) -> (pts: Vec<(usize, usize)>)
    requires
        d <= MAX_DISTANCE,
    ensures
        pts@ == data_seq(d as nat, d as nat),
        pts@.len() == d * d,
        coords_ok(pts@, d as nat),
{
    let mut pts: Vec<(usize, usize)> = Vec::new();
    let mut y: usize = 0;
    while y < d
        invariant
            y <= d <= MAX_DISTANCE,
            pts@ == data_seq(d as nat, y as nat),
            pts@.len() == d * y,
            coords_ok(pts@, d as nat),
        decreases d - y,
    {
        let ghost start = pts@;
        let mut x: usize = 0;
        while x < d
            invariant
                x <= d <= MAX_DISTANCE,
                y < d,
                pts@ == start + data_row(y as nat, x as nat),
                coords_ok(pts@, d as nat),
            decreases d - x,
        {
            proof {
                assert(start + data_row(y as nat, (x + 1) as nat) =~= (start + data_row(y as nat, x as nat)).push(
                    ((2 * x + 1) as usize, (2 * y + 1) as usize),
                ));
            }
            pts.push((2 * x + 1, 2 * y + 1));
            x += 1;
        }
        proof {
            lemma_data_row_len(y as nat, d as nat);
            assert(d * (y + 1) == d * y + d) by (nonlinear_arith);
        }
        y += 1;
    }
    pts
}

/// Every point lies within the `2d x 2d` grid.
pub open spec fn coords_ok(pts: Seq<(usize, usize)>, d: nat) -> bool {
    forall|i: int| 0 <= i < pts.len() ==> (#[trigger] pts[i]).0 <= 2 * d + 1 && pts[i].1 <= 2 * d + 1
}

/// The first `k` points of grid row `y` (a doubled coordinate `2y`), at
/// doubled x-coordinates `2 * (x_lo + a)`, kept when the sum of the halved
/// coordinates has parity `par`.
pub open spec fn grid_row(x_lo: nat, k: nat, y: nat, par: nat) -> Seq<(usize, usize)>
    decreases k,
{
    if k == 0 {
        seq![]
    } else {
        let prev = grid_row(x_lo, (k - 1) as nat, y, par);
        let x = 2 * (x_lo + k - 1);
        if ((x + 2 * y) / 2) % 2 == par {
            prev.push((x as usize, (2 * y) as usize))
        } else {
            prev
        }
    }
}

/// Rows `y_lo .. y_lo + rows` of such a grid.
pub open spec fn grid(x_lo: nat, x_cnt: nat, y_lo: nat, rows: nat, par: nat) -> Seq<(usize, usize)>
    decreases rows,
{
    if rows == 0 {
        seq![]
    } else {
        grid(x_lo, x_cnt, y_lo, (rows - 1) as nat, par) + grid_row(x_lo, x_cnt, (y_lo + rows - 1) as nat, par)
    }
}

pub proof fn lemma_grid_len(x_lo: nat, x_cnt: nat, y_lo: nat, rows: nat, par: nat)
    ensures
        grid(x_lo, x_cnt, y_lo, rows, par).len() <= x_cnt * rows,
    decreases rows,
{
    if rows > 0 {
        lemma_grid_len(x_lo, x_cnt, y_lo, (rows - 1) as nat, par);
        lemma_grid_row_len(x_lo, x_cnt, (y_lo + rows - 1) as nat, par);
        assert(x_cnt * (rows - 1) + x_cnt == x_cnt * rows) by (nonlinear_arith);
    }
}

proof fn lemma_grid_row_len(x_lo: nat, k: nat, y: nat, par: nat)
    ensures
        grid_row(x_lo, k, y, par).len() <= k,
    decreases k,
{
    if k > 0 {
        lemma_grid_row_len(x_lo, (k - 1) as nat, y, par);
    }
}

/// The stabilizer points of a grid, row by row.
pub fn grid_points(x_lo: usize, x_cnt: usize, y_lo: usize, y_cnt: usize, par: usize) -> (pts: Vec<(usize, usize)>)
    requires
        x_lo + x_cnt <= MAX_DISTANCE + 1,
        y_lo + y_cnt <= MAX_DISTANCE + 1,
    ensures
        pts@ == grid(x_lo as nat, x_cnt as nat, y_lo as nat, y_cnt as nat, par as nat),
        forall|i: int|
            0 <= i < pts@.len() ==> (#[trigger] pts@[i]).0 < 2 * (x_lo + x_cnt) && pts@[i].1 < 2 * (y_lo
                + y_cnt),
        pts@.len() <= x_cnt * y_cnt,
{
    let mut pts: Vec<(usize, usize)> = Vec::new();
    let mut b: usize = 0;
    while b < y_cnt
        invariant
            x_lo + x_cnt <= MAX_DISTANCE + 1,
            y_lo + y_cnt <= MAX_DISTANCE + 1,
            b <= y_cnt,
            pts@ == grid(x_lo as nat, x_cnt as nat, y_lo as nat, b as nat, par as nat),
            forall|i: int|
                0 <= i < pts@.len() ==> (#[trigger] pts@[i]).0 < 2 * (x_lo + x_cnt) && pts@[i].1 < 2 * (y_lo
                    + b),
            pts@.len() <= x_cnt * b,
        decreases y_cnt - b,
    {
        let ghost start = pts@;
        let y = 2 * (y_lo + b);
        let mut a: usize = 0;
        while a < x_cnt
            invariant
                x_lo + x_cnt <= MAX_DISTANCE + 1,
                y_lo + y_cnt <= MAX_DISTANCE + 1,
                b < y_cnt,
                y == 2 * (y_lo + b),
                a <= x_cnt,
                pts@ == start + grid_row(x_lo as nat, a as nat, (y_lo + b) as nat, par as nat),
                forall|i: int|
                    0 <= i < pts@.len() ==> (#[trigger] pts@[i]).0 < 2 * (x_lo + x_cnt) && pts@[i].1 < 2 * (
                    y_lo + b + 1),
                pts@.len() <= start.len() + a,
            decreases x_cnt - a,
        {
            let x = 2 * (x_lo + a);
            if ((x + y) / 2) % 2 == par {
                proof {
                    assert(start + grid_row(x_lo as nat, (a + 1) as nat, (y_lo + b) as nat, par as nat) =~= (start
                        + grid_row(x_lo as nat, a as nat, (y_lo + b) as nat, par as nat)).push((x, y)));
                }
                pts.push((x, y));
            } else {
                proof {
                    assert(start + grid_row(x_lo as nat, (a + 1) as nat, (y_lo + b) as nat, par as nat) =~= start
                        + grid_row(x_lo as nat, a as nat, (y_lo + b) as nat, par as nat));
                }
            }
            a += 1;
        }
        proof {
            assert(x_cnt * (b + 1) == x_cnt * b + x_cnt) by (nonlinear_arith);
        }
        b += 1;
    }
    pts
}

/// Whether stabilizer `s` is joined to data qubit `q` by a graph edge of the
/// given kind: 0 for either diagonal (the rotated code), 1 for the anti-diagonal
/// (XZZX, X errors), 2 for the main diagonal (XZZX, Z errors).
pub open spec fn touches(kind: u8, s: (usize, usize), q: (usize, usize)) -> bool {
    let (sx, sy) = (s.0 as int, s.1 as int);
    let (qx, qy) = (q.0 as int, q.1 as int);
    if kind == 0 {
        (sx - qx == 1 || qx - sx == 1) && (sy - qy == 1 || qy - sy == 1)
    } else if kind == 1 {
        (qx == sx + 1 && qy == sy - 1) || (qx == sx - 1 && qy == sy + 1)
    } else {
        (qx == sx - 1 && qy == sy - 1) || (qx == sx + 1 && qy == sy + 1)
    }
}

/// Indices below `k` of the stabilizers touching `q`, in increasing order.
pub open spec fn touching(stabs: Seq<(usize, usize)>, q: (usize, usize), kind: u8, k: nat) -> Seq<usize>
    decreases k,
{
    if k == 0 {
        seq![]
    } else {
        let prev = touching(stabs, q, kind, (k - 1) as nat);
        if touches(kind, stabs[k - 1], q) {
            prev.push((k - 1) as usize)
        } else {
            prev
        }
    }
}

/// The stabilizers touching `q`.
pub fn touching_exec(stabs: &Vec<(usize, usize)>, q: (usize, usize), kind: u8) -> (r: Vec<usize>)
    requires
        q.0 < usize::MAX,
        q.1 < usize::MAX,
        forall|i: int| 0 <= i < stabs@.len() ==> (#[trigger] stabs@[i]).0 < usize::MAX && stabs@[i].1 < usize::MAX,
    ensures
        r@ == touching(stabs@, q, kind, stabs@.len() as nat),
        forall|i: int| 0 <= i < r@.len() ==> #[trigger] r@[i] < stabs@.len(),
{
    let mut r: Vec<usize> = Vec::new();
    for s in 0..stabs.len()
        invariant
            q.0 < usize::MAX,
            q.1 < usize::MAX,
            forall|i: int| 0 <= i < stabs@.len() ==> (#[trigger] stabs@[i]).0 < usize::MAX && stabs@[i].1 < usize::MAX,
            r@ == touching(stabs@, q, kind, s as nat),
            forall|i: int| 0 <= i < r@.len() ==> #[trigger] r@[i] < s,
    {
        let (sx, sy) = stabs[s];
        let (qx, qy) = q;
        let hit = if kind == 0 {
            (sx == qx + 1 || qx == sx + 1) && (sy == qy + 1 || qy == sy + 1)
        } else if kind == 1 {
            (qx == sx + 1 && qy + 1 == sy) || (qx + 1 == sx && qy == sy + 1)
        } else {
            (qx + 1 == sx && qy + 1 == sy) || (qx == sx + 1 && qy == sy + 1)
        };
        if hit {
            r.push(s);
        }
    }
    r
}

/// The spatial edge a data qubit contributes in round `t`: between the two
/// stabilizers it touches, or from the one it touches to the boundary.
/// Entries are `(u, v, qubit)`.
pub open spec fn qubit_edge(
    stabs: Seq<(usize, usize)>,
    q: (usize, usize),
    qi: nat,
    kind: u8,
    t: nat,
    num_nodes: nat,
) -> Seq<(usize, usize, Option<usize>)> {
    let c = touching(stabs, q, kind, stabs.len());
    let base = t * stabs.len();
    if c.len() == 2 {
        seq![((c[0] + base) as usize, (c[1] + base) as usize, Some(qi as usize))]
    } else if c.len() == 1 {
        seq![((c[0] + base) as usize, num_nodes as usize, Some(qi as usize))]
    } else {
        seq![]
    }
}

/// Spatial edges of round `t` for the first `k` data qubits.
pub open spec fn round_edges(
    stabs: Seq<(usize, usize)>,
    data: Seq<(usize, usize)>,
    kind: u8,
    t: nat,
    num_nodes: nat,
    k: nat,
) -> Seq<(usize, usize, Option<usize>)>
    decreases k,
{
    if k == 0 {
        seq![]
    } else {
        round_edges(stabs, data, kind, t, num_nodes, (k - 1) as nat) + qubit_edge(
            stabs,
            data[k - 1],
            (k - 1) as nat,
            kind,
            t,
            num_nodes,
        )
    }
}

/// Spatial edges of the first `rounds` rounds.
pub open spec fn spatial_edges(
    stabs: Seq<(usize, usize)>,
    data: Seq<(usize, usize)>,
    kind: u8,
    num_nodes: nat,
    rounds: nat,
) -> Seq<(usize, usize, Option<usize>)>
    decreases rounds,
{
    if rounds == 0 {
        seq![]
    } else {
        spatial_edges(stabs, data, kind, num_nodes, (rounds - 1) as nat) + round_edges(
            stabs,
            data,
            kind,
            (rounds - 1) as nat,
            num_nodes,
            data.len(),
        )
    }
}

/// Timelike edges joining each stabilizer to itself one round later, for
/// the first `layers` pairs of consecutive rounds.
pub open spec fn temporal_edges(num_stabs: nat, layers: nat) -> Seq<(usize, usize, Option<usize>)>
    decreases layers,
{
    if layers == 0 {
        seq![]
    } else {
        temporal_edges(num_stabs, (layers - 1) as nat) + temporal_layer(num_stabs, (layers - 1) as nat, num_stabs)
    }
}

pub open spec fn temporal_layer(num_stabs: nat, t: nat, k: nat) -> Seq<(usize, usize, Option<usize>)>
    decreases k,
{
    if k == 0 {
        seq![]
    } else {
        temporal_layer(num_stabs, t, (k - 1) as nat).push(
            (((k - 1) + t * num_stabs) as usize, ((k - 1) + (t + 1) * num_stabs) as usize, None),
        )
    }
}

/// The graph's edges are exactly `spec`, numbered in order.
pub open spec fn edges_match(
    edges: Seq<Edge>,
    edge_to_qubit: Seq<Option<usize>>,
    spec: Seq<(usize, usize, Option<usize>)>,
) -> bool {
    &&& edges.len() == spec.len()
    &&& edge_to_qubit.len() == spec.len()
    &&& forall|k: int|
        0 <= k < spec.len() ==> (#[trigger] edges[k]).u == spec[k].0 && edges[k].v == spec[k].1 && edges[k].id
            == k && edge_to_qubit[k] == spec[k].2
}

/// Every coordinate is small enough for the neighbour arithmetic.
pub open spec fn points_bounded(pts: Seq<(usize, usize)>) -> bool {
    forall|i: int|
        0 <= i < pts.len() ==> (#[trigger] pts[i]).0 <= 2 * MAX_DISTANCE + 1 && pts[i].1 <= 2 * MAX_DISTANCE + 1
}

pub proof fn lemma_coords_bounded(pts: Seq<(usize, usize)>, d: nat)
    requires
        d <= MAX_DISTANCE,
        coords_ok(pts, d),
    ensures
        points_bounded(pts),
{
    assert forall|i: int| 0 <= i < pts.len() implies (#[trigger] pts[i]).0 <= 2 * MAX_DISTANCE + 1 && pts[i].1
        <= 2 * MAX_DISTANCE + 1 by {
        assert(pts[i].0 <= 2 * d + 1);
    }
}

/// Push the qubit of an optional neighbour.
pub open spec fn opt_push(s: Seq<usize>, o: Option<usize>) -> Seq<usize> {
    match o {
        Some(q) => s.push(q),
        None => s,
    }
}

/// The data qubits diagonally adjacent to the point `(sx, sy)`, in the order
/// north-west, south-west, north-east, south-east.
pub open spec fn diagonal_neighbors(d: int, sx: int, sy: int) -> Seq<usize> {
    opt_push(
        opt_push(
            opt_push(opt_push(seq![], lattice_index(d, sx - 1, sy - 1)), lattice_index(d, sx - 1, sy + 1)),
            lattice_index(d, sx + 1, sy - 1),
        ),
        lattice_index(d, sx + 1, sy + 1),
    )
}

/// `diagonal_neighbors`, computed.
pub fn diagonal_neighbors_exec(d: usize, sx: usize, sy: usize) -> (r: Vec<usize>)
    requires
        d <= MAX_DISTANCE,
        sx < i32::MAX,
        sy < i32::MAX,
    ensures
        r@ == diagonal_neighbors(d as int, sx as int, sy as int),
        forall|i: int| 0 <= i < r@.len() ==> #[trigger] r@[i] < d * d,
{
    let mut neighbors: Vec<usize> = Vec::new();
    let x = sx as i32;
    let y = sy as i32;
    if let Some(idx) = lattice_index_exec(d, x - 1, y - 1) {
        neighbors.push(idx);
    }
    if let Some(idx) = lattice_index_exec(d, x - 1, y + 1) {
        neighbors.push(idx);
    }
    if let Some(idx) = lattice_index_exec(d, x + 1, y - 1) {
        neighbors.push(idx);
    }
    if let Some(idx) = lattice_index_exec(d, x + 1, y + 1) {
        neighbors.push(idx);
    }
    neighbors
}

/// A graph over `rounds` copies of `ns` stabilizers with up to two edges per
/// data qubit per round fits in memory (each edge takes several words).
pub open spec fn graph_fits(ns: nat, nd: nat, rounds: nat) -> bool {
    (ns + 2 * nd) * rounds + ns <= usize::MAX / 4
}

proof fn lemma_node_bound(c: nat, ns: nat, t: nat, rounds: nat)
    requires
        c < ns,
        t < rounds,
    ensures
        c + t * ns < ns * rounds,
        t * ns + ns <= ns * rounds,
{
    lemma_round_bound(ns, t, rounds);
}

proof fn lemma_round_bound(ns: nat, t: nat, rounds: nat)
    requires
        t < rounds,
    ensures
        t * ns + ns <= ns * rounds,
{
    assert(t * ns + ns <= ns * rounds) by (nonlinear_arith)
        requires
            t < rounds,
    ;
}

proof fn lemma_fits_nodes(ns: nat, nd: nat, rounds: nat)
    requires
        graph_fits(ns, nd, rounds),
    ensures
        ns * rounds <= usize::MAX / 4,
        nd * rounds <= usize::MAX / 4,
{
    assert(ns * rounds <= (ns + 2 * nd) * rounds && nd * rounds <= (ns + 2 * nd) * rounds) by (nonlinear_arith);
}

/// Append the spatial edges of round `t` (of one kind) to a graph under
/// construction.
fn push_round(
    stabs: &Vec<(usize, usize)>,
    data: &Vec<(usize, usize)>,
    kind: u8,
    t: usize,
    rounds: usize,
    edges: &mut Vec<Edge>,
    edge_to_qubit: &mut Vec<Option<usize>>,
)
    requires
        points_bounded(stabs@),
        points_bounded(data@),
        t < rounds,
        graph_fits(stabs@.len() as nat, data@.len() as nat, rounds as nat),
        old(edges)@.len() == old(edge_to_qubit)@.len(),
        forall|k: int| 0 <= k < old(edges)@.len() ==> (#[trigger] old(edges)@[k]).id == k,
        old(edges)@.len() + data@.len() <= usize::MAX / 4,
    ensures
        final(edges)@.len() == final(edge_to_qubit)@.len(),
        final(edges)@.len() <= old(edges)@.len() + data@.len(),
        final(edges)@.len() - old(edges)@.len() == round_edges(
            stabs@,
            data@,
            kind,
            t as nat,
            (stabs@.len() * rounds) as nat,
            data@.len() as nat,
        ).len(),
        edges_match(
            final(edges)@,
            final(edge_to_qubit)@,
            edges_spec_of(old(edges)@, old(edge_to_qubit)@) + round_edges(
                stabs@,
                data@,
                kind,
                t as nat,
                (stabs@.len() * rounds) as nat,
                data@.len() as nat,
            ),
        ),
        forall|k: int|
            0 <= k < final(edges)@.len() ==> (#[trigger] final(edges)@[k]).u < stabs@.len() * rounds
                && final(edges)@[k].v <= stabs@.len() * rounds || k < old(edges)@.len(),
        forall|k: int|
            old(edges)@.len() <= k < final(edge_to_qubit)@.len() ==> (#[trigger] final(edge_to_qubit)@[k] matches Some(
                q,
            ) ==> q < data@.len()),
        forall|k: int| 0 <= k < old(edge_to_qubit)@.len() ==> #[trigger] final(edge_to_qubit)@[k] == old(edge_to_qubit)@[k],
{
    let ns = stabs.len();
    proof {
        lemma_fits_nodes(ns as nat, data@.len() as nat, rounds as nat);
    }
    let nn = ns * rounds;
    let ghost pre = edges_spec_of(edges@, edge_to_qubit@);
    proof {
        lemma_round_bound(ns as nat, t as nat, rounds as nat);
        assert(pre =~= edges_spec_of(old(edges)@, old(edge_to_qubit)@));
        lemma_edges_spec_of(edges@, edge_to_qubit@);
    }
    let start = edges.len();
    for qi in 0..data.len()
        invariant
            ns == stabs@.len(),
            nn == ns * rounds,
            nn <= usize::MAX / 4,
            t < rounds,
            t * ns + ns <= nn,
            points_bounded(stabs@),
            points_bounded(data@),
            start == old(edges)@.len(),
            start + data@.len() <= usize::MAX / 4,
            edges@.len() == edge_to_qubit@.len(),
            edges@.len() <= start + qi,
            edges_match(
                edges@,
                edge_to_qubit@,
                pre + round_edges(stabs@, data@, kind, t as nat, nn as nat, qi as nat),
            ),
            pre.len() == start,
            forall|k: int|
                0 <= k < edges@.len() ==> (#[trigger] edges@[k]).u < nn && edges@[k].v <= nn || k < start,
    {
        let q = data[qi];
        let c = touching_exec(stabs, q, kind);
        let ghost before = pre + round_edges(stabs@, data@, kind, t as nat, nn as nat, qi as nat);
        proof {
            assert(round_edges(stabs@, data@, kind, t as nat, nn as nat, (qi + 1) as nat) == round_edges(
                stabs@,
                data@,
                kind,
                t as nat,
                nn as nat,
                qi as nat,
            ) + qubit_edge(stabs@, data@[qi as int], qi as nat, kind, t as nat, nn as nat));
        }
        if c.len() == 2 {
            proof {
                lemma_node_bound(c@[0] as nat, ns as nat, t as nat, rounds as nat);
                lemma_node_bound(c@[1] as nat, ns as nat, t as nat, rounds as nat);
            }
            let id = edges.len();
            edges.push(Edge { u: c[0] + t * ns, v: c[1] + t * ns, id });
            edge_to_qubit.push(Some(qi));
            proof {
                assert(before + qubit_edge(stabs@, data@[qi as int], qi as nat, kind, t as nat, nn as nat) =~= before.push(
                    ((c@[0] + t * ns) as usize, (c@[1] + t * ns) as usize, Some(qi)),
                ));
            }
        } else if c.len() == 1 {
            proof {
                lemma_node_bound(c@[0] as nat, ns as nat, t as nat, rounds as nat);
            }
            let id = edges.len();
            edges.push(Edge { u: c[0] + t * ns, v: nn, id });
            edge_to_qubit.push(Some(qi));
            proof {
                assert(before + qubit_edge(stabs@, data@[qi as int], qi as nat, kind, t as nat, nn as nat) =~= before.push(
                    ((c@[0] + t * ns) as usize, nn, Some(qi)),
                ));
            }
        } else {
            proof {
                assert(before + qubit_edge(stabs@, data@[qi as int], qi as nat, kind, t as nat, nn as nat) =~= before);
            }
        }
    }
    proof {
        let re = round_edges(stabs@, data@, kind, t as nat, nn as nat, data@.len() as nat);
        lemma_round_edges_qubits(stabs@, data@, kind, t as nat, nn as nat, data@.len() as nat);
        assert forall|k: int| start <= k < edge_to_qubit@.len() implies (#[trigger] edge_to_qubit@[k] matches Some(
            q,
        ) ==> q < data@.len()) by {
            assert(edges@[k].id == k);
            assert(edge_to_qubit@[k] == (pre + re)[k].2);
            assert((pre + re)[k] == re[k - start]);
            assert(qubit_below(re[k - start].2, data@.len()));
        }
        assert forall|k: int| 0 <= k < start implies #[trigger] edge_to_qubit@[k] == old(edge_to_qubit)@[k] by {
            assert(edges@[k].id == k);
            assert(edge_to_qubit@[k] == (pre + re)[k].2);
        }
    }
}

/// An optional qubit index is absent or below `n`.
pub open spec fn qubit_below(q: Option<usize>, n: nat) -> bool {
    q matches Some(i) ==> i < n
}

proof fn lemma_round_edges_qubits(
    stabs: Seq<(usize, usize)>,
    data: Seq<(usize, usize)>,
    kind: u8,
    t: nat,
    nn: nat,
    k: nat,
)
    requires
        k <= data.len(),
        data.len() <= usize::MAX,
    ensures
        forall|i: int|
            0 <= i < round_edges(stabs, data, kind, t, nn, k).len() ==> qubit_below(
                #[trigger] round_edges(stabs, data, kind, t, nn, k)[i].2,
                k,
            ),
    decreases k,
{
    if k > 0 {
        lemma_round_edges_qubits(stabs, data, kind, t, nn, (k - 1) as nat);
        let prev = round_edges(stabs, data, kind, t, nn, (k - 1) as nat);
        let last = qubit_edge(stabs, data[k - 1], (k - 1) as nat, kind, t, nn);
        assert forall|i: int| 0 <= i < (prev + last).len() implies qubit_below(#[trigger] (prev + last)[i].2, k) by {
            if i < prev.len() {
                assert((prev + last)[i] == prev[i]);
                assert(qubit_below(prev[i].2, (k - 1) as nat));
            } else {
                assert((prev + last)[i] == last[i - prev.len()]);
            }
        }
    }
}

/// The `(u, v, qubit)` triples of a graph's edges.
pub open spec fn edges_spec_of(edges: Seq<Edge>, edge_to_qubit: Seq<Option<usize>>) -> Seq<
    (usize, usize, Option<usize>),
> {
    Seq::new(edges.len(), |k: int| (edges[k].u, edges[k].v, edge_to_qubit[k]))
}

proof fn lemma_edges_spec_of(edges: Seq<Edge>, edge_to_qubit: Seq<Option<usize>>)
    requires
        edges.len() == edge_to_qubit.len(),
        forall|k: int| 0 <= k < edges.len() ==> (#[trigger] edges[k]).id == k,
    ensures
        edges_match(edges, edge_to_qubit, edges_spec_of(edges, edge_to_qubit)),
{
}

/// Append the timelike edges of the first `layers` pairs of rounds.
fn push_temporal(
    ns: usize,
    layers: usize,
    rounds: usize,
    edges: &mut Vec<Edge>,
    edge_to_qubit: &mut Vec<Option<usize>>,
)
    requires
        layers < rounds || layers == 0,
        ns * rounds <= usize::MAX / 4,
        old(edges)@.len() == old(edge_to_qubit)@.len(),
        forall|k: int| 0 <= k < old(edges)@.len() ==> (#[trigger] old(edges)@[k]).id == k,
        old(edges)@.len() + ns * layers <= usize::MAX / 4,
    ensures
        final(edges)@.len() == final(edge_to_qubit)@.len(),
        final(edges)@.len() == old(edges)@.len() + ns * layers,
        edges_match(
            final(edges)@,
            final(edge_to_qubit)@,
            edges_spec_of(old(edges)@, old(edge_to_qubit)@) + temporal_edges(ns as nat, layers as nat),
        ),
        forall|k: int|
            0 <= k < final(edges)@.len() ==> (#[trigger] final(edges)@[k]).u < ns * rounds && final(edges)@[k].v
                < ns * rounds || k < old(edges)@.len(),
        forall|k: int|
            old(edges)@.len() <= k < final(edge_to_qubit)@.len() ==> #[trigger] final(edge_to_qubit)@[k] is None,
        forall|k: int| 0 <= k < old(edge_to_qubit)@.len() ==> #[trigger] final(edge_to_qubit)@[k] == old(edge_to_qubit)@[k],
{
    let ghost pre = edges_spec_of(edges@, edge_to_qubit@);
    proof {
        lemma_edges_spec_of(edges@, edge_to_qubit@);
        assert(ns * 0 == 0);
        assert(pre + temporal_edges(ns as nat, 0) =~= pre);
    }
    let start = edges.len();
    for t in 0..layers
        invariant
            layers < rounds || layers == 0,
            ns * rounds <= usize::MAX / 4,
            start == old(edges)@.len(),
            start + ns * layers <= usize::MAX / 4,
            pre.len() == start,
            edges@.len() == edge_to_qubit@.len(),
            edges@.len() == start + ns * t,
            edges_match(edges@, edge_to_qubit@, pre + temporal_edges(ns as nat, t as nat)),
            forall|k: int|
                0 <= k < edges@.len() ==> (#[trigger] edges@[k]).u < ns * rounds && edges@[k].v < ns * rounds
                    || k < start,
            forall|k: int| start <= k < edge_to_qubit@.len() ==> #[trigger] edge_to_qubit@[k] is None,
            forall|k: int| 0 <= k < start ==> #[trigger] edge_to_qubit@[k] == old(edge_to_qubit)@[k],
    {
        let ghost layer_start = edges@.len();
        proof {
            lemma_round_bound(ns as nat, (t + 1) as nat, rounds as nat);
            assert(ns * t + ns == ns * (t + 1)) by (nonlinear_arith);
            assert(ns * (t + 1) <= ns * layers) by (nonlinear_arith)
                requires
                    t < layers,
            ;
            assert(t * ns == ns * t) by (nonlinear_arith);
        }
        for s in 0..ns
            invariant
                t < layers,
                layers < rounds,
                ns * rounds <= usize::MAX / 4,
                (t + 1) * ns + ns <= ns * rounds,
                t * ns == ns * t,
                start + ns * layers <= usize::MAX / 4,
                ns * t + ns == ns * (t + 1),
                ns * (t + 1) <= ns * layers,
                pre.len() == start,
                layer_start == start + ns * t,
                edges@.len() == edge_to_qubit@.len(),
                edges@.len() == layer_start + s,
                edges_match(
                    edges@,
                    edge_to_qubit@,
                    pre + temporal_edges(ns as nat, t as nat) + temporal_layer(ns as nat, t as nat, s as nat),
                ),
                forall|k: int|
                    0 <= k < edges@.len() ==> (#[trigger] edges@[k]).u < ns * rounds && edges@[k].v < ns * rounds
                        || k < start,
                forall|k: int| start <= k < edge_to_qubit@.len() ==> #[trigger] edge_to_qubit@[k] is None,
                forall|k: int| 0 <= k < start ==> #[trigger] edge_to_qubit@[k] == old(edge_to_qubit)@[k],
        {
            let id = edges.len();
            proof {
                assert(s + (t + 1) * ns < ns * rounds);
            }
            edges.push(Edge { u: s + t * ns, v: s + (t + 1) * ns, id });
            edge_to_qubit.push(None);
            proof {
                assert(pre + temporal_edges(ns as nat, t as nat) + temporal_layer(ns as nat, t as nat, (s + 1) as nat)
                    =~= (pre + temporal_edges(ns as nat, t as nat) + temporal_layer(ns as nat, t as nat, s as nat)).push(
                    ((s + t * ns) as usize, (s + (t + 1) * ns) as usize, None),
                ));
            }
        }
        proof {
            assert(pre + temporal_edges(ns as nat, (t + 1) as nat) =~= pre + temporal_edges(ns as nat, t as nat)
                + temporal_layer(ns as nat, t as nat, ns as nat));
        }
    }
}

/// The spacetime decoding graph of one kind: spatial edges for every round,
/// then timelike edges between consecutive rounds. The boundary node is
/// `stabs.len() * rounds`.
pub fn build_graph(stabs: &Vec<(usize, usize)>, data: &Vec<(usize, usize)>, kind: u8, rounds: usize) -> (g:
    SyndromeGraph)
    requires
        rounds >= 1,
        points_bounded(stabs@),
        points_bounded(data@),
        graph_fits(stabs@.len() as nat, data@.len() as nat, rounds as nat),
    ensures
        g.num_nodes == stabs@.len() * rounds,
        edges_match(
            g.edges@,
            g.edge_to_qubit@,
            spatial_edges(stabs@, data@, kind, (stabs@.len() * rounds) as nat, rounds as nat) + temporal_edges(
                stabs@.len() as nat,
                (rounds - 1) as nat,
            ),
        ),
        g.well_formed(),
        g.num_nodes <= usize::MAX / 4,
        g.edges@.len() <= usize::MAX / 4,
        forall|k: int| 0 <= k < g.edges@.len() ==> (#[trigger] g.edges@[k]).u < g.num_nodes,
        forall|k: int| 0 <= k < g.edge_to_qubit@.len() ==> (#[trigger] g.edge_to_qubit@[k] matches Some(q) ==> q < data@.len()),
{
    let ns = stabs.len();
    proof {
        lemma_fits_nodes(ns as nat, data@.len() as nat, rounds as nat);
    }
    let nn = ns * rounds;
    let mut edges: Vec<Edge> = Vec::new();
    let mut edge_to_qubit: Vec<Option<usize>> = Vec::new();
    proof {
        assert(edges_spec_of(edges@, edge_to_qubit@) =~= seq![]);
    }
    for t in 0..rounds
        invariant
            ns == stabs@.len(),
            nn == ns * rounds,
            nn <= usize::MAX / 4,
            points_bounded(stabs@),
            points_bounded(data@),
            graph_fits(ns as nat, data@.len() as nat, rounds as nat),
            edges@.len() == edge_to_qubit@.len(),
            edges@.len() <= data@.len() * t,
            edges_match(edges@, edge_to_qubit@, spatial_edges(stabs@, data@, kind, nn as nat, t as nat)),
            forall|k: int| 0 <= k < edges@.len() ==> (#[trigger] edges@[k]).u < nn && edges@[k].v <= nn,
            forall|k: int| 0 <= k < edge_to_qubit@.len() ==> (#[trigger] edge_to_qubit@[k] matches Some(q) ==> q < data@.len()),
    {
        proof {
            assert(data@.len() * t + data@.len() == data@.len() * (t + 1)) by (nonlinear_arith);
            assert(data@.len() * (t + 1) <= (ns + 2 * data@.len()) * rounds) by (nonlinear_arith)
                requires
                    t < rounds,
            ;
            assert(edges_spec_of(edges@, edge_to_qubit@) =~= spatial_edges(stabs@, data@, kind, nn as nat, t as nat));
        }
        push_round(stabs, data, kind, t, rounds, &mut edges, &mut edge_to_qubit);
    }
    let ghost spatial = spatial_edges(stabs@, data@, kind, nn as nat, rounds as nat);
    proof {
        assert(edges_spec_of(edges@, edge_to_qubit@) =~= spatial);
        assert(data@.len() * rounds + ns * (rounds - 1) <= usize::MAX / 4) by (nonlinear_arith)
            requires
                (ns + 2 * data@.len()) * rounds + ns <= usize::MAX / 4,
                rounds >= 1,
        ;
    }
    push_temporal(ns, rounds - 1, rounds, &mut edges, &mut edge_to_qubit);
    SyndromeGraph { num_nodes: nn, edges, edge_to_qubit }
}

/// Spatial edges of both XZZX families, round by round: in each round the
/// X-error edges (anti-diagonal) then the Z-error edges (diagonal).
pub open spec fn combined_spatial(
    stabs: Seq<(usize, usize)>,
    data: Seq<(usize, usize)>,
    num_nodes: nat,
    rounds: nat,
) -> Seq<(usize, usize, Option<usize>)>
    decreases rounds,
{
    if rounds == 0 {
        seq![]
    } else {
        let t = (rounds - 1) as nat;
        combined_spatial(stabs, data, num_nodes, t) + round_edges(stabs, data, 1, t, num_nodes, data.len())
            + round_edges(stabs, data, 2, t, num_nodes, data.len())
    }
}

/// Per edge of `combined_spatial`, whether it belongs to the X-error family.
pub open spec fn combined_flags(
    stabs: Seq<(usize, usize)>,
    data: Seq<(usize, usize)>,
    num_nodes: nat,
    rounds: nat,
) -> Seq<bool>
    decreases rounds,
{
    if rounds == 0 {
        seq![]
    } else {
        let t = (rounds - 1) as nat;
        combined_flags(stabs, data, num_nodes, t) + Seq::new(
            round_edges(stabs, data, 1, t, num_nodes, data.len()).len(),
            |i: int| true,
        ) + Seq::new(round_edges(stabs, data, 2, t, num_nodes, data.len()).len(), |i: int| false)
    }
}

/// `rounds - 1`, or zero.
pub open spec fn layers_between(rounds: nat) -> nat {
    if rounds >= 1 {
        (rounds - 1) as nat
    } else {
        0
    }
}

/// One graph carrying both XZZX error families over the same nodes, and per
/// edge whether correcting it means applying X. Timelike edges come once,
/// flagged `false`.
pub fn build_combined(stabs: &Vec<(usize, usize)>, data: &Vec<(usize, usize)>, rounds: usize) -> (res: (
    SyndromeGraph,
    Vec<bool>,
))
    requires
        points_bounded(stabs@),
        points_bounded(data@),
        graph_fits(stabs@.len() as nat, data@.len() as nat, rounds as nat),
    ensures
        res.0.num_nodes == stabs@.len() * rounds,
        edges_match(
            res.0.edges@,
            res.0.edge_to_qubit@,
            combined_spatial(stabs@, data@, (stabs@.len() * rounds) as nat, rounds as nat) + temporal_edges(
                stabs@.len() as nat,
                layers_between(rounds as nat),
            ),
        ),
        res.1@ == combined_flags(stabs@, data@, (stabs@.len() * rounds) as nat, rounds as nat) + Seq::new(
            temporal_edges(stabs@.len() as nat, layers_between(rounds as nat)).len(),
            |i: int| false,
        ),
        res.0.well_formed(),
        res.0.num_nodes <= usize::MAX / 4,
        res.0.edges@.len() <= usize::MAX / 4,
        forall|k: int| 0 <= k < res.0.edges@.len() ==> (#[trigger] res.0.edges@[k]).u < res.0.num_nodes,
        forall|k: int|
            0 <= k < res.0.edge_to_qubit@.len() ==> (#[trigger] res.0.edge_to_qubit@[k] matches Some(q) ==> q < data@.len()),
{
    let ns = stabs.len();
    proof {
        lemma_fits_nodes(ns as nat, data@.len() as nat, rounds as nat);
    }
    let nn = ns * rounds;
    let mut edges: Vec<Edge> = Vec::new();
    let mut edge_to_qubit: Vec<Option<usize>> = Vec::new();
    let mut edge_is_x: Vec<bool> = Vec::new();
    proof {
        assert(edges_spec_of(edges@, edge_to_qubit@) =~= seq![]);
    }
    for t in 0..rounds
        invariant
            ns == stabs@.len(),
            nn == ns * rounds,
            nn <= usize::MAX / 4,
            points_bounded(stabs@),
            points_bounded(data@),
            graph_fits(ns as nat, data@.len() as nat, rounds as nat),
            edges@.len() == edge_to_qubit@.len(),
            edges@.len() <= 2 * data@.len() * t,
            edges_match(edges@, edge_to_qubit@, combined_spatial(stabs@, data@, nn as nat, t as nat)),
            edge_is_x@ == combined_flags(stabs@, data@, nn as nat, t as nat),
            forall|k: int| 0 <= k < edges@.len() ==> (#[trigger] edges@[k]).u < nn && edges@[k].v <= nn,
            forall|k: int| 0 <= k < edge_to_qubit@.len() ==> (#[trigger] edge_to_qubit@[k] matches Some(q) ==> q < data@.len()),
    {
        proof {
            assert(2 * data@.len() * t + 2 * data@.len() == 2 * data@.len() * (t + 1)) by (nonlinear_arith);
            assert(2 * data@.len() * (t + 1) <= (ns + 2 * data@.len()) * rounds) by (nonlinear_arith)
                requires
                    t < rounds,
            ;
            assert(edges_spec_of(edges@, edge_to_qubit@) =~= combined_spatial(stabs@, data@, nn as nat, t as nat));
            crate::lattice::lemma_flags_len(stabs@, data@, nn as nat, t as nat);
        }
        let ghost base = combined_spatial(stabs@, data@, nn as nat, t as nat);
        let ghost flags0 = edge_is_x@;
        let before_x = edges.len();
        push_round(stabs, data, 1, t, rounds, &mut edges, &mut edge_to_qubit);
        let after_x = edges.len();
        let mut k = before_x;
        while k < after_x
            invariant
                before_x <= k <= after_x,
                edge_is_x@ == flags0 + Seq::new((k - before_x) as nat, |i: int| true),
            decreases after_x - k,
        {
            edge_is_x.push(true);
            proof {
                assert(flags0 + Seq::new((k + 1 - before_x) as nat, |i: int| true) =~= (flags0 + Seq::new(
                    (k - before_x) as nat,
                    |i: int| true,
                )).push(true));
            }
            k += 1;
        }
        let ghost flags1 = edge_is_x@;
        proof {
            assert(edges_spec_of(edges@, edge_to_qubit@) =~= base + round_edges(
                stabs@,
                data@,
                1,
                t as nat,
                nn as nat,
                data@.len() as nat,
            ));
        }
        push_round(stabs, data, 2, t, rounds, &mut edges, &mut edge_to_qubit);
        let after_z = edges.len();
        let mut k = after_x;
        while k < after_z
            invariant
                after_x <= k <= after_z,
                edge_is_x@ == flags1 + Seq::new((k - after_x) as nat, |i: int| false),
            decreases after_z - k,
        {
            edge_is_x.push(false);
            proof {
                assert(flags1 + Seq::new((k + 1 - after_x) as nat, |i: int| false) =~= (flags1 + Seq::new(
                    (k - after_x) as nat,
                    |i: int| false,
                )).push(false));
            }
            k += 1;
        }
        proof {
            assert(base + round_edges(stabs@, data@, 1, t as nat, nn as nat, data@.len() as nat) + round_edges(
                stabs@,
                data@,
                2,
                t as nat,
                nn as nat,
                data@.len() as nat,
            ) =~= combined_spatial(stabs@, data@, nn as nat, (t + 1) as nat));
            assert(edge_is_x@ =~= combined_flags(stabs@, data@, nn as nat, (t + 1) as nat));
        }
    }
    let layers = if rounds >= 1 {
        rounds - 1
    } else {
        0
    };
    proof {
        assert(edges_spec_of(edges@, edge_to_qubit@) =~= combined_spatial(
            stabs@,
            data@,
            nn as nat,
            rounds as nat,
        ));
        assert(2 * data@.len() * rounds + ns * layers <= usize::MAX / 4) by (nonlinear_arith)
            requires
                (ns + 2 * data@.len()) * rounds + ns <= usize::MAX / 4,
                layers <= rounds,
        ;
    }
    let ghost flags_spatial = edge_is_x@;
    let before_t = edges.len();
    push_temporal(ns, layers, rounds, &mut edges, &mut edge_to_qubit);
    let after_t = edges.len();
    let mut k = before_t;
    while k < after_t
        invariant
            before_t <= k <= after_t,
            edge_is_x@ == flags_spatial + Seq::new((k - before_t) as nat, |i: int| false),
        decreases after_t - k,
    {
        edge_is_x.push(false);
        proof {
            assert(flags_spatial + Seq::new((k + 1 - before_t) as nat, |i: int| false) =~= (flags_spatial
                + Seq::new((k - before_t) as nat, |i: int| false)).push(false));
        }
        k += 1;
    }
    proof {
        assert(after_t - before_t == temporal_edges(ns as nat, layers as nat).len());
    }
    (SyndromeGraph { num_nodes: nn, edges, edge_to_qubit }, edge_is_x)
}

pub proof fn lemma_flags_len(stabs: Seq<(usize, usize)>, data: Seq<(usize, usize)>, nn: nat, t: nat)
    ensures
        combined_flags(stabs, data, nn, t).len() == combined_spatial(stabs, data, nn, t).len(),
    decreases t,
{
    if t > 0 {
        lemma_flags_len(stabs, data, nn, (t - 1) as nat);
    }
}

} // verus!
