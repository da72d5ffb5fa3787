//! Bookkeeping of one circuit-level Monte Carlo shot, between the sampled
//! readings and the decoder: detection events, erased edges and the logical
//! class of what is left.
use crate::bits::{parity, parity_of};
use vstd::prelude::*;

verus! {

/// Detection events from readings stored round after round, `ns` per
/// round: node `i` fires when its reading differs from the one a round
/// later. Nodes past `ns * layers` never fire.
pub fn detection_layers(flips: &Vec<bool>, ns: usize, layers: usize, len: usize) -> (defects: Vec<bool>)
    requires
        ns * layers + ns <= flips@.len(),
        ns * layers <= len,
    ensures
        defects@.len() == len,
        forall|i: int| 0 <= i < len ==> #[trigger] defects@[i] == (i < ns * layers && flips@[i + ns] != flips@[i]),
{
    let mut defects = vec![false; len];
    let total = ns * layers;
    let flen = flips.len();
    for i in 0..total
        invariant
            flen == flips@.len(),
            total == ns * layers,
            total + ns <= flips@.len(),
            total <= len,
            defects@.len() == len,
            forall|j: int| 0 <= j < len ==> #[trigger] defects@[j] == (j < i && flips@[j + ns] != flips@[j]),
    {
        let fired = flips[i + ns] != flips[i];
        defects.set(i, fired);
    }
    defects
}

/// Edge `e` belongs to an erased site among the first `k`.
pub open spec fn erased_through(site_edges: Seq<Seq<usize>>, erased_sites: Seq<bool>, k: int, e: int) -> bool {
    exists|s: int| 0 <= s < k && #[trigger] erased_sites[s] && site_edges[s].contains(e as usize)
}

/// Per edge, whether some erased site can produce it: those edges cost the
/// decoder nothing.
pub fn erased_from_sites(site_edges: &Vec<Vec<usize>>, erased_sites: &Vec<bool>, n: usize) -> (out: Vec<bool>)
    requires
        erased_sites@.len() <= site_edges@.len(),
    ensures
        out@.len() == n,
        forall|e: int|
            0 <= e < n ==> #[trigger] out@[e] == erased_through(
                site_edges@.map_values(|v: Vec<usize>| v@),
                erased_sites@,
                erased_sites@.len() as int,
                e,
            ),
{
    let ghost views = site_edges@.map_values(|v: Vec<usize>| v@);
    let mut out = vec![false; n];
    for site in 0..erased_sites.len()
        invariant
            erased_sites@.len() <= site_edges@.len(),
            views == site_edges@.map_values(|v: Vec<usize>| v@),
            out@.len() == n,
            forall|e: int| 0 <= e < n ==> #[trigger] out@[e] == erased_through(views, erased_sites@, site as int, e),
    {
        let ghost before = out@;
        if erased_sites[site] {
            let list = &site_edges[site];
            assert(views[site as int] == list@);
            for k in 0..list.len()
                invariant
                    views[site as int] == list@,
                    erased_sites@[site as int],
                    out@.len() == n,
                    forall|e: int|
                        0 <= e < n ==> #[trigger] out@[e] == (before[e] || list@.subrange(0, k as int).contains(
                            e as usize,
                        )),
            {
                let edge = list[k];
                if edge < n {
                    out.set(edge, true);
                }
                proof {
                    assert forall|e: int| 0 <= e < n implies #[trigger] out@[e] == (before[e] || list@.subrange(
                        0,
                        k + 1,
                    ).contains(e as usize)) by {
                        let sub = list@.subrange(0, k + 1);
                        if list@.subrange(0, k as int).contains(e as usize) {
                            let j = choose|j: int| 0 <= j < k && list@.subrange(0, k as int)[j] == e as usize;
                            assert(sub[j] == e as usize);
                        }
                        if sub.contains(e as usize) {
                            let j = choose|j: int| 0 <= j < k + 1 && sub[j] == e as usize;
                            if j < k {
                                assert(list@.subrange(0, k as int)[j] == e as usize);
                            }
                        }
                        if e == edge {
                            assert(sub[k as int] == e as usize);
                        }
                    }
                }
            }
            proof {
                assert(list@.subrange(0, list@.len() as int) =~= list@);
                assert forall|e: int| 0 <= e < n implies #[trigger] out@[e] == erased_through(
                    views,
                    erased_sites@,
                    site + 1,
                    e,
                ) by {
                    if out@[e] && !before[e] {
                        assert(erased_sites@[site as int] && views[site as int].contains(e as usize));
                    }
                    if erased_through(views, erased_sites@, site + 1, e) && !erased_through(
                        views,
                        erased_sites@,
                        site as int,
                        e,
                    ) {
                        let s = choose|s: int|
                            0 <= s < site + 1 && #[trigger] erased_sites@[s] && views[s].contains(e as usize);
                        assert(s == site);
                    }
                }
            }
        } else {
            proof {
                assert forall|e: int| 0 <= e < n implies #[trigger] out@[e] == erased_through(
                    views,
                    erased_sites@,
                    site + 1,
                    e,
                ) by {
                    if erased_through(views, erased_sites@, site + 1, e) {
                        let s = choose|s: int|
                            0 <= s < site + 1 && #[trigger] erased_sites@[s] && views[s].contains(e as usize);
                        assert(s != site);
                    }
                }
            }
        }
    }
    out
}

/// The class of a residual `(rx, rz)` against fixed logical supports: bit 0
/// when the X part crosses `column` an odd number of times, bit 1 when the
/// Z part crosses `row` an odd number of times.
pub fn support_class(rx: u128, rz: u128, column: u128, row: u128) -> (c: u8)
    ensures
        c == (if parity(rx & column) {
            1u8
        } else {
            0u8
        }) + (if parity(rz & row) {
            2u8
        } else {
            0u8
        }),
{
    let bx: u8 = if parity_of(rx & column) {
        1
    } else {
        0
    };
    let bz: u8 = if parity_of(rz & row) {
        2
    } else {
        0
    };
    bx + bz
}

/// Bits `i * step` for `i < k`.
pub open spec fn strided_mask(step: nat, k: nat) -> u128
    decreases k,
{
    if k == 0 {
        0u128
    } else {
        strided_mask(step, (k - 1) as nat) | (1u128 << (((k - 1) * step) as u128))
    }
}

/// The supports the rotated code reads its logical class against: the left
/// column (bits `i * d`) and the top row (bits `i`), for `i < d`.
pub fn rotated_supports(d: usize) -> (r: (u128, u128))
    requires
        d * d <= 128,
    ensures
        r.0 == strided_mask(d as nat, d as nat),
        r.1 == strided_mask(1, d as nat),
{
    let mut column: u128 = 0;
    let mut row: u128 = 0;
    for i in 0..d
        invariant
            d * d <= 128,
            column == strided_mask(d as nat, i as nat),
            row == strided_mask(1, i as nat),
    {
        proof {
            assert(i * d < 128) by (nonlinear_arith)
                requires
                    i < d,
                    d * d <= 128,
            ;
            assert(i < 128) by (nonlinear_arith)
                requires
                    i < d,
                    d * d <= 128,
            ;
        }
        column = column | (1u128 << ((i * d) as u128));
        row = row | (1u128 << (i as u128));
        proof {
            assert(i * 1 == i);
        }
    }
    (column, row)
}

} // verus!
