//! Exact minimum-weight perfect matching (Edmonds' blossom), with hard
//! ceilings.
//!
//! The algorithm contracts odd cycles into blossoms, searches over them and
//! expands them again. Every table is sized from `n` when the search starts
//! and never grows: the vertex and blossom tables hold `2n + 1` entries, the
//! edge tables `(2n + 1)²`, each blossom at most `2n + 4` members and the
//! queue `4(2n + 1)` vertices. Every loop carries an explicit bound, and the
//! whole search a budget of work. Any violated guard sets `failed`, after
//! which every operation does nothing and the search returns `None`; so does
//! an arithmetic overflow of the dual variables.
//!
//! A returned matching is always checked to be perfect.
use std::collections::VecDeque;
use vstd::prelude::*;

verus! {

/// Ceiling on vertices.
pub const MAX_VERTICES: usize = 512;

/// Larger than any dual adjustment the search makes.
const INF: i64 = 0x1fff_ffff_ffff_ffff;

/// A perfect matching of `0..n`: every vertex has a partner other than
/// itself, whose partner it is.
pub open spec fn is_perfect_matching(mate: Seq<usize>, n: nat) -> bool {
    &&& mate.len() == n
    &&& forall|i: int| 0 <= i < n ==> (#[trigger] mate[i]) < n && mate[i] != i && mate[mate[i] as int] == i
}

/// `cost` has at least `n` rows of at least `n` entries.
pub open spec fn square_at_least(cost: Seq<Vec<i64>>, n: nat) -> bool {
    &&& cost.len() >= n
    &&& forall|i: int| 0 <= i < n ==> (#[trigger] cost[i])@.len() >= n
}

/// The sizes the search accepts: even, non-zero, at most `MAX_VERTICES`.
pub open spec fn searchable(n: nat) -> bool {
    0 < n && n % 2 == 0 && n <= MAX_VERTICES
}

struct Blossom {
    n: usize,
    /// `2n + 1`: vertices `1..=n`, blossoms `n+1..=2n`, and 0 for "none".
    m: usize,
    n_x: usize,
    /// Edge tables, `m * m`, row-major.
    eu: Vec<usize>,
    ev: Vec<usize>,
    ew: Vec<i64>,
    lab: Vec<i64>,
    mate: Vec<usize>,
    slack: Vec<usize>,
    st: Vec<usize>,
    pa: Vec<usize>,
    /// `m * (n + 1)`, row-major.
    flower_from: Vec<usize>,
    s: Vec<i32>,
    vis: Vec<usize>,
    /// Members of each blossom, `fcap` slots per blossom.
    flower: Vec<usize>,
    flower_len: Vec<usize>,
    fcap: usize,
    /// The search queue, never longer than `qcap`.
    q: VecDeque<usize>,
    qcap: usize,
    stamp: usize,
    failed: bool,
    why: &'static str,
    work: usize,
    work_cap: usize,
}

/// `v / 2`, rounded toward zero.
spec fn half_toward_zero(v: int) -> int {
    if v >= 0 {
        v / 2
    } else {
        -((-v) / 2)
    }
}

/// Row-major cell `(i, j)` of a table with `w` columns lies inside it.
proof fn lemma_cell(i: int, j: int, w: int, rows: int)
    requires
        0 <= i < rows,
        0 <= j < w,
    ensures
        0 <= i * w + j < rows * w,
        0 <= i * w,
{
    assert(i * w + w <= rows * w) by (nonlinear_arith)
        requires
            0 <= i < rows,
            0 <= j < w,
    ;
    assert(0 <= i * w) by (nonlinear_arith)
        requires
            0 <= i,
            0 <= j < w,
    ;
}

impl Blossom {
    /// Table sizes and counters.
    spec fn sizes_ok(&self) -> bool {
        &&& 1 <= self.n <= MAX_VERTICES
        &&& self.m == 2 * self.n + 1
        &&& self.n <= self.n_x < self.m
        &&& self.fcap == 2 * self.n + 4
        &&& self.qcap == 4 * self.m
        &&& self.eu@.len() == self.m * self.m
        &&& self.ev@.len() == self.m * self.m
        &&& self.ew@.len() == self.m * self.m
        &&& self.lab@.len() == self.m
        &&& self.mate@.len() == self.m
        &&& self.slack@.len() == self.m
        &&& self.st@.len() == self.m
        &&& self.pa@.len() == self.m
        &&& self.s@.len() == self.m
        &&& self.vis@.len() == self.m
        &&& self.flower_from@.len() == self.m * (self.n + 1)
        &&& self.flower@.len() == self.m * self.fcap
        &&& self.flower_len@.len() == self.m
        &&& self.q@.len() <= self.qcap
        &&& self.work_cap == 4000 * (self.n + 2) * (self.n + 2)
        &&& self.work <= self.work_cap + 1
        &&& (self.work > self.work_cap ==> self.failed)
        &&& (self.failed <==> self.why@.len() > 0)
    }

    /// Every stored index points inside the tables.
    spec fn entries_ok(&self) -> bool {
        &&& forall|i: int| 0 <= i < self.eu@.len() ==> #[trigger] self.eu@[i] <= self.n
        &&& forall|i: int| 0 <= i < self.ev@.len() ==> #[trigger] self.ev@[i] <= self.n
        &&& forall|i: int| 0 <= i < self.mate@.len() ==> #[trigger] self.mate@[i] <= self.n
        &&& forall|i: int| 0 <= i < self.slack@.len() ==> #[trigger] self.slack@[i] <= self.n
        &&& forall|i: int| 0 <= i < self.pa@.len() ==> #[trigger] self.pa@[i] <= self.n
        &&& forall|i: int| 0 <= i < self.st@.len() ==> #[trigger] self.st@[i] < self.m
        &&& forall|i: int| 0 <= i < self.flower_from@.len() ==> #[trigger] self.flower_from@[i] < self.m
        &&& forall|i: int| 0 <= i < self.flower@.len() ==> #[trigger] self.flower@[i] < self.m
        &&& forall|i: int| 0 <= i < self.flower_len@.len() ==> #[trigger] self.flower_len@[i] <= self.fcap
        &&& forall|i: int| 0 <= i < self.q@.len() ==> #[trigger] self.q@[i] <= self.n
    }

    /// Slack of the edge stored at `(u, v)` under the current duals.
    spec fn e_delta_spec(&self, u: int, v: int) -> int {
        let k = u * self.m + v;
        let a = self.eu@[k] as int;
        let b = self.ev@[k] as int;
        self.lab@[a] + self.lab@[b] - 2 * self.ew@[a * self.m + b]
    }

    /// `post` is `self` after appending `x` to the queue: a failure when it
    /// is full.
    spec fn queue_pushed(&self, post: Blossom, x: usize) -> bool {
        if self.q@.len() >= self.qcap {
            post == (Blossom { failed: true, why: post.why, ..*self })
        } else {
            &&& post == (Blossom { q: post.q, ..*self })
            &&& post.q@ == self.q@.push(x)
        }
    }

    /// Slot `p` holds the first occurrence of `x` among the members of
    /// blossom `b`.
    spec fn first_pos(&self, b: int, x: usize, p: int) -> bool {
        &&& 0 <= p < self.flower_len@[b]
        &&& self.member(b, p) == x
        &&& forall|q: int| 0 <= q < p ==> #[trigger] self.member(b, q) != x
    }

    /// Member `i` of blossom `b`.
    spec fn member(&self, b: int, i: int) -> usize {
        self.flower@[b * self.fcap + i]
    }

    /// The members of blossom `b` in `post` are those of `self` with slots
    /// `1..len` reversed; every other slot is kept.
    spec fn tail_reversed(&self, post: Blossom, b: int) -> bool {
        let len = self.flower_len@[b];
        let base = b * self.fcap;
        &&& post.flower@.len() == self.flower@.len()
        &&& forall|j: int|
            0 <= j < self.flower@.len() ==> #[trigger] post.flower@[j] == if base + 1 <= j < base + len {
                self.flower@[2 * base + len - j]
            } else {
                self.flower@[j]
            }
    }

    /// The members of blossom `b` in `post` are those of `self` turned left
    /// by `k`; every other slot is kept.
    spec fn rotated(&self, post: Blossom, b: int, k: int) -> bool {
        let len = self.flower_len@[b];
        let base = b * self.fcap;
        &&& post.flower@.len() == self.flower@.len()
        &&& forall|j: int|
            0 <= j < self.flower@.len() ==> #[trigger] post.flower@[j] == if base <= j < base + len {
                self.flower@[base + if j - base + k < len {
                    j - base + k
                } else {
                    j - base + k - len
                }]
            } else {
                self.flower@[j]
            }
    }

    /// The witness that `set_slack` leaves for `x` after scanning vertices
    /// `1..=k`, starting from none.
    spec fn slack_after(&self, x: int, k: int) -> usize
        decreases k,
    {
        if k <= 0 {
            0
        } else {
            let prev = self.slack_after(x, k - 1);
            let stu = self.st@[k] as int;
            if self.ew@[k * self.m + x] > 0 && stu != x && self.s@[stu] == 0 && (prev == 0
                || self.e_delta_spec(k, x) < self.e_delta_spec(prev as int, x)) {
                k as usize
            } else {
                prev
            }
        }
    }

    /// The bound that blossom or vertex `x` puts on the next dual step: half
    /// the dual of an outer blossom, the slack towards an unlabelled vertex,
    /// or half the slack between two outer vertices.
    spec fn dual_bound(&self, x: int) -> Option<int> {
        if self.n < x && self.st@[x] == x && self.s@[x] == 1 {
            Some(half_toward_zero(self.lab@[x] as int))
        } else if self.st@[x] == x && self.slack@[x] != 0 && self.s@[x] == -1 {
            Some(self.e_delta_spec(self.slack@[x] as int, x))
        } else if self.st@[x] == x && self.slack@[x] != 0 && self.s@[x] == 0 {
            Some(half_toward_zero(self.e_delta_spec(self.slack@[x] as int, x)))
        } else {
            None
        }
    }

    /// `post` differs from `self` at most in the partners, the blossom
    /// members, the work done and the failure.
    spec fn only_rematched(&self, post: Blossom) -> bool {
        post == (Blossom {
            mate: post.mate,
            flower: post.flower,
            work: post.work,
            failed: post.failed,
            why: post.why,
            ..*self
        })
    }

    /// Slot `b` holds a blossom just made: outer-free label, zero dual, and
    /// the partner `ml` of the cycle's base.
    spec fn holds_new_blossom(&self, b: int, ml: usize) -> bool {
        &&& self.n < b <= self.n_x
        &&& self.mate@[b] == ml
        &&& self.lab@[b] == 0
        &&& self.s@[b] == 0
    }

    /// One step up an alternating tree: to the blossom of the partner, then
    /// to the blossom of that one's tree parent; 0 past a root.
    spec fn up(&self, x: int) -> int {
        if x == 0 {
            0
        } else {
            let w = self.st@[self.mate@[x] as int] as int;
            if w == 0 {
                0
            } else {
                self.st@[self.pa@[w] as int] as int
            }
        }
    }

    /// Where `k` steps up from `x` lead.
    spec fn walk(&self, x: int, k: nat) -> int
        decreases k,
    {
        if k == 0 {
            x
        } else {
            self.up(self.walk(x, (k - 1) as nat))
        }
    }

    spec fn wf(&self) -> bool {
        self.sizes_ok() && self.entries_ok()
    }

    /// What every operation keeps: the sizes, and a budget and a failure
    /// that only move forward.
    spec fn kept(&self, post: Blossom) -> bool {
        &&& post.n == self.n
        &&& post.m == self.m
        &&& post.fcap == self.fcap
        &&& post.qcap == self.qcap
        &&& post.work_cap == self.work_cap
        &&& self.n_x <= post.n_x
        &&& self.work <= post.work
        &&& (self.failed ==> post.failed)
    }

    /// Work left before the budget runs out.
    spec fn fuel(&self) -> int {
        self.work_cap + 1 - self.work
    }

    proof fn lemma_caps(&self)
        requires
            self.sizes_ok(),
        ensures
            self.m <= 2 * MAX_VERTICES + 1,
            self.m * self.m <= 0x200000,
            self.m * (self.n + 1) <= 0x200000,
            self.m * self.fcap <= 0x200000,
            self.work_cap <= 0x4000_0000,
    {
        assert(self.m * self.m <= 0x200000) by (nonlinear_arith)
            requires
                self.m <= 2 * MAX_VERTICES + 1,
        ;
        assert(self.m * (self.n + 1) <= 0x200000) by (nonlinear_arith)
            requires
                self.m <= 2 * MAX_VERTICES + 1,
                self.n <= MAX_VERTICES,
        ;
        assert(self.m * self.fcap <= 0x200000) by (nonlinear_arith)
            requires
                self.m <= 2 * MAX_VERTICES + 1,
                self.fcap <= 2 * MAX_VERTICES + 4,
        ;
        assert(4000 * (self.n + 2) * (self.n + 2) <= 0x4000_0000) by (nonlinear_arith)
            requires
                self.n <= MAX_VERTICES,
        ;
    }

    /// A fresh search over the complete graph on `n` vertices with edge
    /// weights `weights[u][v]` (diagonal ignored).
    fn new(n: usize, weights: &Vec<Vec<i64>>) -> (b: Self)
        requires
            1 <= n <= MAX_VERTICES,
            square_at_least(weights@, n as nat),
        ensures
            b.wf(),
            b.n == n,
            !b.failed,
            b.work == 0,
    {
        let m = n * 2 + 1;
        let fcap = 2 * n + 4;
        proof {
            reveal_strlit("");
            assert(m * m <= 0x200000) by (nonlinear_arith)
                requires
                    m == n * 2 + 1,
                    n <= MAX_VERTICES,
            ;
            assert(m * (n + 1) <= 0x200000) by (nonlinear_arith)
                requires
                    m == n * 2 + 1,
                    n <= MAX_VERTICES,
            ;
            assert(m * fcap <= 0x200000) by (nonlinear_arith)
                requires
                    m == n * 2 + 1,
                    fcap == 2 * n + 4,
                    n <= MAX_VERTICES,
            ;
            assert(4000 * (n + 2) * (n + 2) <= 0x4000_0000) by (nonlinear_arith)
                requires
                    n <= MAX_VERTICES,
            ;
        }
        let mut eu: Vec<usize> = vec![0; m * m];
        let mut ev: Vec<usize> = vec![0; m * m];
        let mut ew: Vec<i64> = vec![0; m * m];
        for u in 1..n + 1
            invariant
                1 <= n <= MAX_VERTICES,
                m == 2 * n + 1,
                m * m <= 0x200000,
                square_at_least(weights@, n as nat),
                eu@.len() == m * m,
                ev@.len() == m * m,
                ew@.len() == m * m,
                forall|i: int| 0 <= i < eu@.len() ==> #[trigger] eu@[i] <= n,
                forall|i: int| 0 <= i < ev@.len() ==> #[trigger] ev@[i] <= n,
        {
            for v in 1..n + 1
                invariant
                    1 <= u <= n <= MAX_VERTICES,
                    m == 2 * n + 1,
                    m * m <= 0x200000,
                    square_at_least(weights@, n as nat),
                    eu@.len() == m * m,
                    ev@.len() == m * m,
                    ew@.len() == m * m,
                    forall|i: int| 0 <= i < eu@.len() ==> #[trigger] eu@[i] <= n,
                    forall|i: int| 0 <= i < ev@.len() ==> #[trigger] ev@[i] <= n,
            {
                proof {
                    lemma_cell(u as int, v as int, m as int, m as int);
                }
                let k = u * m + v;
                eu.set(k, u);
                ev.set(k, v);
                let w = if u == v {
                    0
                } else {
                    let row = &weights[u - 1];
                    assert(row@.len() >= n);
                    row[v - 1]
                };
                ew.set(k, w);
            }
        }
        Blossom {
            n,
            m,
            n_x: n,
            eu,
            ev,
            ew,
            lab: vec![0; m],
            mate: vec![0; m],
            slack: vec![0; m],
            st: vec![0; m],
            pa: vec![0; m],
            flower_from: vec![0; m * (n + 1)],
            s: vec![0; m],
            vis: vec![0; m],
            flower: vec![0; m * fcap],
            flower_len: vec![0; m],
            fcap,
            q: VecDeque::new(),
            qcap: m * 4,
            stamp: 0,
            failed: false,
            why: "",
            work: 0,
            work_cap: 4000 * (n + 2) * (n + 2),
        }
    }

    /// Record the first guard that tripped.
    fn fail(&mut self, why: &'static str)
        requires
            old(self).wf(),
            why@.len() > 0,
        ensures
            final(self).wf(),
            old(self).kept(*final(self)),
            final(self).flower_len@ == old(self).flower_len@,
            final(self).failed,
            final(self).work == old(self).work,
            *final(self) == (Blossom { failed: true, why: final(self).why, ..*old(self) }),
            old(self).failed ==> *final(self) == *old(self),
    {
        if !self.failed {
            self.failed = true;
            self.why = why;
        }
    }

    /// Charge one unit of work; false once the budget is gone.
    fn tick(&mut self) -> (ok: bool)
        requires
            old(self).wf(),
        ensures
            final(self).wf(),
            old(self).kept(*final(self)),
            final(self).flower_len@ == old(self).flower_len@,
            ok == !final(self).failed,
            ok ==> final(self).work == old(self).work + 1,
            *final(self) == (Blossom {
                work: final(self).work,
                failed: final(self).failed,
                why: final(self).why,
                ..*old(self)
            }),
    {
        proof {
            self.lemma_caps();
        }
        if self.work <= self.work_cap {
            self.work = self.work + 1;
        }
        if self.work > self.work_cap && !self.failed {
            proof {
                reveal_strlit("work budget");
            }
            self.failed = true;
            self.why = "work budget";
        }
        !self.failed
    }

    /// Append to blossom `b` without ever growing past its capacity.
    fn push_flower(&mut self, b: usize, value: usize)
        requires
            old(self).wf(),
            b < old(self).m,
            value < old(self).m,
        ensures
            final(self).wf(),
            old(self).kept(*final(self)),
            old(self).flower_len@[b as int] >= old(self).fcap ==> *final(self) == (Blossom {
                failed: true,
                why: final(self).why,
                ..*old(self)
            }),
            old(self).flower_len@[b as int] < old(self).fcap ==> {
                let len = old(self).flower_len@[b as int];
                &&& *final(self) == (Blossom {
                    flower: final(self).flower,
                    flower_len: final(self).flower_len,
                    ..*old(self)
                })
                &&& final(self).flower@ == old(self).flower@.update(b * old(self).fcap + len, value)
                &&& final(self).flower_len@ == old(self).flower_len@.update(b as int, (len + 1) as usize)
            },
    {
        let len = self.flower_len[b];
        if len >= self.fcap {
            proof {
                reveal_strlit("flower capacity");
            }
            self.fail("flower capacity");
            return;
        }
        proof {
            self.lemma_caps();
            lemma_cell(b as int, len as int, self.fcap as int, self.m as int);
        }
        self.flower.set(b * self.fcap + len, value);
        self.flower_len.set(b, len + 1);
    }

    /// Member `i` of blossom `b`.
    fn flower_at(&self, b: usize, i: usize) -> (y: usize)
        requires
            self.wf(),
            b < self.m,
            i < self.fcap,
        ensures
            y < self.m,
            y == self.flower@[b * self.fcap + i],
    {
        proof {
            self.lemma_caps();
            lemma_cell(b as int, i as int, self.fcap as int, self.m as int);
        }
        self.flower[b * self.fcap + i]
    }

    fn set_flower_at(&mut self, b: usize, i: usize, value: usize)
        requires
            old(self).wf(),
            b < old(self).m,
            i < old(self).fcap,
            value < old(self).m,
        ensures
            final(self).wf(),
            old(self).kept(*final(self)),
            final(self).flower_len@ == old(self).flower_len@,
            final(self).work == old(self).work,
            final(self).failed == old(self).failed,
            *final(self) == (Blossom { flower: final(self).flower, ..*old(self) }),
            final(self).flower@ == old(self).flower@.update(b * old(self).fcap + i, value),
    {
        proof {
            self.lemma_caps();
            lemma_cell(b as int, i as int, self.fcap as int, self.m as int);
        }
        self.flower.set(b * self.fcap + i, value);
    }

    fn push_q(&mut self, x: usize)
        requires
            old(self).wf(),
            x <= old(self).n,
        ensures
            final(self).wf(),
            old(self).kept(*final(self)),
            final(self).flower_len@ == old(self).flower_len@,
            old(self).queue_pushed(*final(self), x),
    {
        if self.q.len() >= self.qcap {
            proof {
                reveal_strlit("queue capacity");
            }
            self.fail("queue capacity");
            return;
        }
        proof {
            self.lemma_caps();
        }
        self.q.push_back(x);
    }

    fn pop_q(&mut self) -> (x: Option<usize>)
        requires
            old(self).wf(),
        ensures
            final(self).wf(),
            old(self).kept(*final(self)),
            final(self).flower_len@ == old(self).flower_len@,
            final(self).work == old(self).work,
            final(self).failed == old(self).failed,
            x matches Some(v) ==> v <= old(self).n,
            x is None <==> old(self).q@.len() == 0,
            x is None ==> *final(self) == (Blossom { q: final(self).q, ..*old(self) }) && final(self).q@ == old(
                self,
            ).q@,
            x matches Some(v) ==> {
                &&& v == old(self).q@[0]
                &&& *final(self) == (Blossom { q: final(self).q, ..*old(self) })
                &&& final(self).q@ == old(self).q@.drop_first()
            },
    {
        let ghost before = self.q@;
        let x = self.q.pop_front();
        proof {
            if x is Some {
                assert(self.q@ =~= before.drop_first());
            }
        }
        x
    }

    fn clear_q(&mut self)
        requires
            old(self).wf(),
        ensures
            final(self).wf(),
            old(self).kept(*final(self)),
            final(self).flower_len@ == old(self).flower_len@,
            final(self).work == old(self).work,
            final(self).failed == old(self).failed,
            final(self).q@.len() == 0,
            *final(self) == (Blossom { q: final(self).q, ..*old(self) }),
    {
        self.q.clear();
    }

    /// The slack of edge `(u, v)` in the current duals.
    fn e_delta(&self, u: usize, v: usize) -> (d: i128)
        requires
            self.wf(),
            u < self.m,
            v < self.m,
        ensures
            -0x10_0000_0000_0000_0000 < d < 0x10_0000_0000_0000_0000,
            d == self.e_delta_spec(u as int, v as int),
    {
        proof {
            self.lemma_caps();
            lemma_cell(u as int, v as int, self.m as int, self.m as int);
        }
        let k = u * self.m + v;
        let a = self.eu[k];
        let b = self.ev[k];
        proof {
            lemma_cell(a as int, b as int, self.m as int, self.m as int);
        }
        self.lab[a] as i128 + self.lab[b] as i128 - self.ew[a * self.m + b] as i128 * 2
    }

    fn edge_u(&self, u: usize, v: usize) -> (r: usize)
        requires
            self.wf(),
            u < self.m,
            v < self.m,
        ensures
            r <= self.n,
            r == self.eu@[u * self.m + v],
    {
        proof {
            self.lemma_caps();
            lemma_cell(u as int, v as int, self.m as int, self.m as int);
        }
        self.eu[u * self.m + v]
    }

    fn edge_v(&self, u: usize, v: usize) -> (r: usize)
        requires
            self.wf(),
            u < self.m,
            v < self.m,
        ensures
            r <= self.n,
            r == self.ev@[u * self.m + v],
    {
        proof {
            self.lemma_caps();
            lemma_cell(u as int, v as int, self.m as int, self.m as int);
        }
        self.ev[u * self.m + v]
    }

    fn edge_w(&self, u: usize, v: usize) -> (r: i64)
        requires
            self.wf(),
            u < self.m,
            v < self.m,
        ensures
            r == self.ew@[u * self.m + v],
    {
        proof {
            self.lemma_caps();
            lemma_cell(u as int, v as int, self.m as int, self.m as int);
        }
        self.ew[u * self.m + v]
    }

    fn origin_in(&self, b: usize, x: usize) -> (r: usize)
        requires
            self.wf(),
            b < self.m,
            x <= self.n,
        ensures
            r < self.m,
            r == self.flower_from@[b * (self.n + 1) + x],
    {
        proof {
            self.lemma_caps();
            lemma_cell(b as int, x as int, (self.n + 1) as int, self.m as int);
        }
        self.flower_from[b * (self.n + 1) + x]
    }

    fn set_origin_in(&mut self, b: usize, x: usize, value: usize)
        requires
            old(self).wf(),
            b < old(self).m,
            x <= old(self).n,
            value < old(self).m,
        ensures
            final(self).wf(),
            old(self).kept(*final(self)),
            final(self).flower_len@ == old(self).flower_len@,
            final(self).work == old(self).work,
            final(self).failed == old(self).failed,
            *final(self) == (Blossom { flower_from: final(self).flower_from, ..*old(self) }),
            final(self).flower_from@ == old(self).flower_from@.update(b * (old(self).n + 1) + x, value),
    {
        proof {
            self.lemma_caps();
            lemma_cell(b as int, x as int, (self.n + 1) as int, self.m as int);
        }
        self.flower_from.set(b * (self.n + 1) + x, value);
    }

    fn update_slack(&mut self, u: usize, x: usize)
        requires
            old(self).wf(),
            u <= old(self).n,
            x < old(self).m,
        ensures
            final(self).wf(),
            old(self).kept(*final(self)),
            final(self).flower_len@ == old(self).flower_len@,
            final(self).work == old(self).work,
            final(self).failed == old(self).failed,
            *final(self) == (Blossom { slack: final(self).slack, ..*old(self) }),
            final(self).slack@ == if old(self).slack@[x as int] == 0 || old(self).e_delta_spec(u as int, x as int)
                < old(self).e_delta_spec(old(self).slack@[x as int] as int, x as int) {
                old(self).slack@.update(x as int, u)
            } else {
                old(self).slack@
            },
    {
        let sx = self.slack[x];
        if sx == 0 || self.e_delta(u, x) < self.e_delta(sx, x) {
            self.slack.set(x, u);
        }
    }

    fn set_slack(&mut self, x: usize)
        requires
            old(self).wf(),
            x < old(self).m,
        ensures
            final(self).wf(),
            old(self).kept(*final(self)),
            final(self).flower_len@ == old(self).flower_len@,
            final(self).work == old(self).work,
            final(self).failed == old(self).failed,
            *final(self) == (Blossom { slack: final(self).slack, ..*old(self) }),
            final(self).slack@ == old(self).slack@.update(x as int, old(self).slack_after(x as int, old(self).n as int)),
    {
        self.slack.set(x, 0);
        let n = self.n;
        for u in 1..n + 1
            invariant
                self.wf(),
                old(self).kept(*self),
                self.flower_len@ == old(self).flower_len@,
                self.work == old(self).work,
                self.failed == old(self).failed,
                n == self.n,
                x < self.m,
                old(self).wf(),
                *self == (Blossom { slack: self.slack, ..*old(self) }),
                self.slack@ == old(self).slack@.update(x as int, old(self).slack_after(x as int, u - 1)),
        {
            let ghost mid = *self;
            let ghost prev = old(self).slack_after(x as int, u - 1);
            proof {
                assert(mid.slack@[x as int] == prev);
                assert(mid.e_delta_spec(u as int, x as int) == old(self).e_delta_spec(u as int, x as int));
                assert(mid.e_delta_spec(prev as int, x as int) == old(self).e_delta_spec(prev as int, x as int));
            }
            let stu = self.st[u];
            if self.edge_w(u, x) > 0 && stu != x && self.s[stu] == 0 {
                self.update_slack(u, x);
            }
            proof {
                assert(self.slack@ =~= old(self).slack@.update(x as int, old(self).slack_after(x as int, u as int)));
            }
        }
    }

    /// Queue vertex `x`, or every vertex inside blossom `x`.
    fn q_push(&mut self, x: usize)
        requires
            old(self).wf(),
            x < old(self).m,
        ensures
            final(self).wf(),
            old(self).kept(*final(self)),
            final(self).flower_len@ == old(self).flower_len@,
            old(self).failed ==> *final(self) == *old(self),
            !old(self).failed && x <= old(self).n ==> old(self).queue_pushed(*final(self), x),
            *final(self) == (Blossom {
                q: final(self).q,
                work: final(self).work,
                failed: final(self).failed,
                why: final(self).why,
                ..*old(self)
            }),
            old(self).q@.len() <= final(self).q@.len(),
        decreases old(self).fuel(),
    {
        if self.failed {
            return;
        }
        if x <= self.n {
            self.push_q(x);
        } else {
            let len = self.flower_len[x];
            for i in 0..len
                invariant
                    self.wf(),
                    old(self).kept(*self),
                    self.flower_len@ == old(self).flower_len@,
                    len <= self.fcap,
                    x < self.m,
                    *self == (Blossom {
                        q: self.q,
                        work: self.work,
                        failed: self.failed,
                        why: self.why,
                        ..*old(self)
                    }),
                    old(self).q@.len() <= self.q@.len(),
                    !old(self).failed,
                    x > old(self).n,
            {
                if !self.tick() {
                    return;
                }
                let y = self.flower_at(x, i);
                self.q_push(y);
            }
        }
    }

    /// Mark `x`, and everything inside it, as belonging to blossom `b`.
    fn set_st(&mut self, x: usize, b: usize)
        requires
            old(self).wf(),
            x < old(self).m,
            b < old(self).m,
        ensures
            final(self).wf(),
            old(self).kept(*final(self)),
            final(self).flower_len@ == old(self).flower_len@,
            old(self).failed ==> *final(self) == *old(self),
            *final(self) == (Blossom {
                st: final(self).st,
                work: final(self).work,
                failed: final(self).failed,
                why: final(self).why,
                ..*old(self)
            }),
            !old(self).failed ==> final(self).st@[x as int] == b,
            forall|j: int|
                0 <= j < old(self).st@.len() ==> #[trigger] final(self).st@[j] == old(self).st@[j]
                    || final(self).st@[j] == b,
            !final(self).failed && x > old(self).n ==> forall|i: int|
                0 <= i < old(self).flower_len@[x as int] ==> final(self).st@[old(self).member(x as int, i) as int]
                    == b,
        decreases old(self).fuel(),
    {
        if self.failed {
            return;
        }
        self.st.set(x, b);
        if x > self.n {
            let len = self.flower_len[x];
            for i in 0..len
                invariant
                    self.wf(),
                    old(self).kept(*self),
                    self.flower_len@ == old(self).flower_len@,
                    len <= self.fcap,
                    len == old(self).flower_len@[x as int],
                    x < self.m,
                    b < self.m,
                    *self == (Blossom {
                        st: self.st,
                        work: self.work,
                        failed: self.failed,
                        why: self.why,
                        ..*old(self)
                    }),
                    self.st@[x as int] == b,
                    forall|j: int|
                        0 <= j < old(self).st@.len() ==> #[trigger] self.st@[j] == old(self).st@[j] || self.st@[j]
                            == b,
                    !self.failed ==> forall|k: int|
                        0 <= k < i ==> self.st@[old(self).member(x as int, k) as int] == b,
                    !old(self).failed,
                    old(self).wf(),
            {
                let ghost head = *self;
                if !self.tick() {
                    return;
                }
                let y = self.flower_at(x, i);
                let ghost mid = *self;
                proof {
                    assert(mid.st == head.st);
                    assert(!head.failed);
                }
                self.set_st(y, b);
                proof {
                    assert(y == old(self).member(x as int, i as int));
                    assert forall|j: int| 0 <= j < old(self).st@.len() implies #[trigger] self.st@[j] == old(self).st@[j]
                        || self.st@[j] == b by {
                        assert(mid.st@[j] == old(self).st@[j] || mid.st@[j] == b);
                    }
                    if !self.failed {
                        assert forall|k: int| 0 <= k < i + 1 implies self.st@[old(self).member(x as int, k) as int]
                            == b by {
                            let z = old(self).member(x as int, k) as int;
                            lemma_cell(x as int, k, old(self).fcap as int, old(self).m as int);
                            assert(0 <= z < old(self).st@.len());
                            if k < i {
                                assert(mid.st@[z] == b);
                            }
                        }
                    }
                }
            }
        }
    }

    /// Position of `xr` in blossom `b`, turning the cycle so that the path
    /// to it from the base has even length.
    fn get_pr(&mut self, b: usize, xr: usize) -> (pr: usize)
        requires
            old(self).wf(),
            b < old(self).m,
        ensures
            final(self).wf(),
            old(self).kept(*final(self)),
            final(self).work == old(self).work,
            pr <= final(self).flower_len@[b as int],
            final(self).flower_len@ == old(self).flower_len@,
            forall|p: int| #[trigger]
                old(self).first_pos(b as int, xr, p) ==> if p % 2 == 0 {
                    pr == p && *final(self) == *old(self)
                } else {
                    &&& pr == old(self).flower_len@[b as int] - p
                    &&& *final(self) == (Blossom { flower: final(self).flower, ..*old(self) })
                    &&& old(self).tail_reversed(*final(self), b as int)
                },
            (forall|p: int| 0 <= p < old(self).flower_len@[b as int] ==> #[trigger] old(self).member(b as int, p) != xr)
                ==> pr == 0 && *final(self) == (Blossom { failed: true, why: final(self).why, ..*old(self) }),
            *final(self) == (Blossom {
                flower: final(self).flower,
                failed: final(self).failed,
                why: final(self).why,
                ..*old(self)
            }),
    {
        let len = self.flower_len[b];
        let mut found: Option<usize> = None;
        let mut i: usize = 0;
        while i < len
            invariant
                self.wf(),
                old(self).wf(),
                *self == *old(self),
                len == self.flower_len@[b as int],
                len <= self.fcap,
                b < self.m,
                i <= len,
                found matches Some(p) ==> p < len && p == i && old(self).member(b as int, p as int) == xr,
                forall|q: int| 0 <= q < i ==> #[trigger] old(self).member(b as int, q) != xr,
            ensures
                found is None ==> i == len,
                found matches Some(p) ==> p < len && old(self).first_pos(b as int, xr, p as int),
            decreases len - i,
        {
            if self.flower_at(b, i) == xr {
                found = Some(i);
                break;
            }
            i = i + 1;
        }
        match found {
            Some(pr) => {
                if pr % 2 == 1 {
                    // Reverse members 1..len.
                    let mut lo: usize = 1;
                    let mut hi: usize = len - 1;
                    let ghost base = b * self.fcap;
                    proof {
                        self.lemma_caps();
                        lemma_cell(b as int, 0, self.fcap as int, self.m as int);
                        assert(b * self.fcap + self.fcap <= self.m * self.fcap) by (nonlinear_arith)
                            requires
                                b < self.m,
                        ;
                    }
                    while lo < hi
                        invariant
                            self.wf(),
                            old(self).wf(),
                            old(self).kept(*self),
                            self.work == old(self).work,
                            self.flower_len@ == old(self).flower_len@,
                            len == self.flower_len@[b as int],
                            len <= self.fcap,
                            b < self.m,
                            1 <= lo <= hi + 1,
                            hi < len,
                            lo + hi == len,
                            base == b * old(self).fcap,
                            0 <= base,
                            base + len <= old(self).flower@.len(),
                            *self == (Blossom { flower: self.flower, ..*old(self) }),
                            self.flower@.len() == old(self).flower@.len(),
                            forall|j: int|
                                0 <= j < old(self).flower@.len() ==> #[trigger] self.flower@[j] == if (base + 1 <= j
                                    < base + lo) || (base + hi < j < base + len) {
                                    old(self).flower@[2 * base + len - j]
                                } else {
                                    old(self).flower@[j]
                                },
                        decreases hi + 1 - lo,
                    {
                        let a = self.flower_at(b, lo);
                        let c = self.flower_at(b, hi);
                        self.set_flower_at(b, lo, c);
                        self.set_flower_at(b, hi, a);
                        lo = lo + 1;
                        hi = hi - 1;
                    }
                    len - pr
                } else {
                    pr
                }
            },
            None => {
                proof {
                    reveal_strlit("get_pr: not in blossom");
                }
                self.fail("get_pr: not in blossom");
                0
            },
        }
    }

    /// Rotate the members of blossom `b` left by `k`.
    fn rotate_flower(&mut self, b: usize, k: usize)
        requires
            old(self).wf(),
            b < old(self).m,
            k <= old(self).flower_len@[b as int],
        ensures
            final(self).wf(),
            old(self).kept(*final(self)),
            final(self).work == old(self).work,
            final(self).failed == old(self).failed,
            final(self).flower_len@ == old(self).flower_len@,
            *final(self) == (Blossom { flower: final(self).flower, ..*old(self) }),
            old(self).rotated(*final(self), b as int, k as int),
    {
        let len = self.flower_len[b];
        let mut tmp: Vec<usize> = Vec::new();
        let ghost base = b * self.fcap;
        proof {
            self.lemma_caps();
            lemma_cell(b as int, 0, self.fcap as int, self.m as int);
            assert(b * self.fcap + self.fcap <= self.m * self.fcap) by (nonlinear_arith)
                requires
                    b < self.m,
            ;
        }
        for i in 0..len
            invariant
                self.wf(),
                old(self).wf(),
                *self == *old(self),
                len == self.flower_len@[b as int],
                len <= self.fcap,
                b < self.m,
                k <= len,
                tmp@.len() == i,
                forall|j: int| 0 <= j < tmp@.len() ==> #[trigger] tmp@[j] < self.m,
                forall|j: int|
                    0 <= j < tmp@.len() ==> #[trigger] tmp@[j] == old(self).member(
                        b as int,
                        if j + k < len {
                            j + k
                        } else {
                            j + k - len
                        },
                    ),
        {
            let src = if i + k < len {
                i + k
            } else {
                i + k - len
            };
            let y = self.flower_at(b, src);
            tmp.push(y);
        }
        for i in 0..len
            invariant
                self.wf(),
                old(self).kept(*self),
                self.work == old(self).work,
                self.failed == old(self).failed,
                self.flower_len@ == old(self).flower_len@,
                len == self.flower_len@[b as int],
                len <= self.fcap,
                b < self.m,
                tmp@.len() == len,
                forall|j: int| 0 <= j < tmp@.len() ==> #[trigger] tmp@[j] < self.m,
                old(self).wf(),
                k <= len,
                base == b * old(self).fcap,
                0 <= base,
                base + len <= old(self).flower@.len(),
                *self == (Blossom { flower: self.flower, ..*old(self) }),
                self.flower@.len() == old(self).flower@.len(),
                forall|j: int|
                    0 <= j < tmp@.len() ==> #[trigger] tmp@[j] == old(self).member(
                        b as int,
                        if j + k < len {
                            j + k
                        } else {
                            j + k - len
                        },
                    ),
                forall|j: int|
                    0 <= j < old(self).flower@.len() ==> #[trigger] self.flower@[j] == if base <= j < base + i {
                        tmp@[j - base]
                    } else {
                        old(self).flower@[j]
                    },
        {
            let y = tmp[i];
            self.set_flower_at(b, i, y);
        }
    }

    /// Match `u` to `v` along edge `(u, v)`, rematching inside `u` if it is
    /// a blossom.
    fn set_match(&mut self, u: usize, v: usize)
        requires
            old(self).wf(),
            u < old(self).m,
            v < old(self).m,
        ensures
            final(self).wf(),
            old(self).kept(*final(self)),
            final(self).flower_len@ == old(self).flower_len@,
            old(self).only_rematched(*final(self)),
            old(self).failed ==> *final(self) == *old(self),
            !final(self).failed && u <= old(self).n ==> final(self).flower == old(self).flower && final(self).mate@
                == old(self).mate@.update(u as int, old(self).ev@[u * old(self).m + v]),
        decreases old(self).fuel(),
    {
        if self.failed || !self.tick() {
            return;
        }
        let ghost entry = self.work;
        let mv = self.edge_v(u, v);
        self.mate.set(u, mv);
        if u > self.n {
            let eu = self.edge_u(u, v);
            let xr = self.origin_in(u, eu);
            if xr == 0 {
                proof {
                    reveal_strlit("set_match: no flower_from");
                }
                self.fail("set_match: no flower_from");
                return;
            }
            let pr = self.get_pr(u, xr);
            if self.failed || pr > self.flower_len[u] {
                proof {
                    reveal_strlit("set_match: bad pr");
                }
                self.fail("set_match: bad pr");
                return;
            }
            let len = self.flower_len[u];
            for i in 0..pr
                invariant
                    self.wf(),
                    old(self).kept(*self),
                    self.work >= entry,
                    entry == old(self).work + 1,
                    self.flower_len@ == old(self).flower_len@,
                    len == self.flower_len@[u as int],
                    pr <= len,
                    len <= self.fcap,
                    u < self.m,
                    old(self).only_rematched(*self),
                    !old(self).failed,
            {
                let j = if i % 2 == 0 {
                    i + 1
                } else {
                    i - 1
                };
                if j >= len {
                    proof {
                        reveal_strlit("set_match: odd blossom walk");
                    }
                    self.fail("set_match: odd blossom walk");
                    return;
                }
                let a = self.flower_at(u, i);
                let b = self.flower_at(u, j);
                self.set_match(a, b);
            }
            self.set_match(xr, v);
            self.rotate_flower(u, pr);
        }
    }

    /// Flip the alternating path that ends in edge `(u, v)`.
    fn augment(&mut self, u0: usize, v0: usize)
        requires
            old(self).wf(),
            u0 < old(self).m,
            v0 < old(self).m,
        ensures
            final(self).wf(),
            old(self).kept(*final(self)),
            final(self).flower_len@ == old(self).flower_len@,
            old(self).only_rematched(*final(self)),
            old(self).failed ==> *final(self) == *old(self),
            !old(self).failed && u0 <= old(self).n && old(self).st@[old(self).mate@[u0 as int] as int] == 0
                ==> final(self).failed || (final(self).flower == old(self).flower && final(self).mate@ == old(
                self,
            ).mate@.update(u0 as int, old(self).ev@[u0 * old(self).m + v0])),
    {
        let mut u = u0;
        let mut v = v0;
        let bound = 8 * self.n + 32;
        let mut k: usize = 0;
        while k <= bound
            invariant
                self.wf(),
                old(self).wf(),
                old(self).kept(*self),
                self.flower_len@ == old(self).flower_len@,
                u < self.m,
                v < self.m,
                bound == 8 * self.n + 32,
                old(self).only_rematched(*self),
                old(self).failed ==> *self == *old(self),
                k == 0 ==> *self == *old(self) && u == u0 && v == v0,
                k > 0 ==> !(!old(self).failed && old(self).st@[old(self).mate@[u0 as int] as int] == 0),
            decreases bound + 1 - k,
        {
            if self.failed {
                return;
            }
            let xnv = self.st[self.mate[u]];
            self.set_match(u, v);
            if xnv == 0 {
                return;
            }
            let pa_x = self.st[self.pa[xnv]];
            self.set_match(xnv, pa_x);
            u = pa_x;
            v = xnv;
            k = k + 1;
        }
        proof {
            reveal_strlit("augment: too many steps");
        }
        self.fail("augment: too many steps");
    }

    /// The first blossom both alternating paths, from `u` and from `v`,
    /// reach; 0 when they reach different roots.
    fn get_lca(&mut self, u0: usize, v0: usize) -> (r: usize)
        requires
            old(self).wf(),
            u0 < old(self).m,
            v0 < old(self).m,
        ensures
            final(self).wf(),
            old(self).kept(*final(self)),
            final(self).flower_len@ == old(self).flower_len@,
            r < final(self).m,
            *final(self) == (Blossom {
                vis: final(self).vis,
                stamp: final(self).stamp,
                failed: final(self).failed,
                why: final(self).why,
                ..*old(self)
            }),
            old(self).stamp == usize::MAX ==> r == 0 && final(self).failed,
            old(self).stamp < usize::MAX ==> final(self).stamp == old(self).stamp + 1,
            r != 0 ==> final(self).vis@[r as int] == final(self).stamp && ((exists|k: nat|
                old(self).walk(u0 as int, k) == r) || (exists|k: nat| old(self).walk(v0 as int, k) == r)),
            r == 0 && !final(self).failed ==> (exists|k: nat| old(self).walk(u0 as int, k) == 0) && (exists|k: nat|
                old(self).walk(v0 as int, k) == 0),
            u0 == v0 && u0 != 0 && old(self).stamp < usize::MAX ==> r == u0,
    {
        if self.stamp == usize::MAX {
            proof {
                reveal_strlit("get_lca: stamp overflow");
            }
            self.fail("get_lca: stamp overflow");
            return 0;
        }
        self.stamp = self.stamp + 1;
        let t = self.stamp;
        let mut u = u0;
        let mut v = v0;
        let bound = 4 * self.n + 8;
        let mut k: usize = 0;
        let ghost mut ku: nat = 0;
        let ghost mut kv: nat = 0;
        let ghost mut swapped: bool = false;
        while k <= bound
            invariant
                self.wf(),
                old(self).wf(),
                old(self).kept(*self),
                self.flower_len@ == old(self).flower_len@,
                u < self.m,
                v < self.m,
                bound == 4 * self.n + 8,
                old(self).stamp < usize::MAX,
                t == old(self).stamp + 1,
                *self == (Blossom {
                    vis: self.vis,
                    stamp: self.stamp,
                    failed: self.failed,
                    why: self.why,
                    ..*old(self)
                }),
                self.stamp == t,
                !swapped ==> u == old(self).walk(u0 as int, ku) && v == old(self).walk(v0 as int, kv),
                swapped ==> u == old(self).walk(v0 as int, kv) && v == old(self).walk(u0 as int, ku),
                k == 0 ==> u == u0 && v == v0,
                u0 == v0 && u0 != 0 && k == 1 ==> u == u0 && self.vis@[u0 as int] == t,
                u0 == v0 && u0 != 0 ==> k <= 1,
            decreases bound + 1 - k,
        {
            if u == 0 && v == 0 {
                return 0;
            }
            let ghost u_before = u;
            if u != 0 {
                if self.vis[u] == t {
                    return u;
                }
                self.vis.set(u, t);
                u = self.st[self.mate[u]];
                if u != 0 {
                    u = self.st[self.pa[u]];
                }
                proof {
                    assert(u == old(self).up(u_before as int));
                    if swapped {
                        kv = kv + 1;
                    } else {
                        ku = ku + 1;
                    }
                }
            }
            let w = u;
            u = v;
            v = w;
            proof {
                swapped = !swapped;
            }
            k = k + 1;
        }
        proof {
            reveal_strlit("get_lca: too many steps");
        }
        self.fail("get_lca: too many steps");
        0
    }

    /// Walk from `start` up to `lca`, adding each matched pair to blossom `b`.
    fn walk_into(&mut self, b: usize, start: usize, lca: usize) -> (ok: bool)
        requires
            old(self).wf(),
            b < old(self).m,
            start < old(self).m,
        ensures
            final(self).wf(),
            old(self).kept(*final(self)),
            ok == !final(self).failed,
            *final(self) == (Blossom {
                flower: final(self).flower,
                flower_len: final(self).flower_len,
                q: final(self).q,
                work: final(self).work,
                failed: final(self).failed,
                why: final(self).why,
                ..*old(self)
            }),
    {
        let mut x = start;
        let mut steps: usize = 0;
        let limit = 2 * self.n + 4;
        while x != lca
            invariant
                self.wf(),
                old(self).kept(*self),
                b < self.m,
                x < self.m,
                limit == 2 * self.n + 4,
                steps <= limit,
                *self == (Blossom {
                    flower: self.flower,
                    flower_len: self.flower_len,
                    q: self.q,
                    work: self.work,
                    failed: self.failed,
                    why: self.why,
                    ..*old(self)
                }),
            decreases limit - steps,
        {
            if steps + 1 > limit || self.failed {
                proof {
                    reveal_strlit("add_blossom: walk to the common ancestor");
                }
                self.fail("add_blossom: walk to the common ancestor");
                return false;
            }
            steps = steps + 1;
            let y = self.st[self.mate[x]];
            self.push_flower(b, x);
            self.push_flower(b, y);
            let p = self.st[self.pa[y]];
            self.q_push(y);
            x = p;
        }
        !self.failed
    }

    /// Contract the odd cycle through `u`, `lca` and `v` into a new blossom.
    fn add_blossom(&mut self, u: usize, lca: usize, v: usize)
        requires
            old(self).wf(),
            u < old(self).m,
            lca < old(self).m,
            v < old(self).m,
        ensures
            final(self).wf(),
            old(self).kept(*final(self)),
            !final(self).failed ==> exists|nb: int|
                #[trigger] final(self).holds_new_blossom(nb, old(self).mate@[lca as int]) && final(self).st@[nb] == nb
                    && (nb == old(self).n_x + 1 || old(self).st@[nb] == 0),
    {
        let mut b = self.n + 1;
        while b <= self.n_x && self.st[b] != 0
            invariant
                self.wf(),
                self.n + 1 <= b <= self.n_x + 1,
                *self == *old(self),
            decreases self.n_x + 1 - b,
        {
            b = b + 1;
        }
        if b > self.n_x {
            if self.n_x + 1 >= self.m {
                proof {
                    reveal_strlit("add_blossom: out of blossom slots");
                }
                self.fail("add_blossom: out of blossom slots");
                return;
            }
            self.n_x = self.n_x + 1;
            b = self.n_x;
        }
        self.lab.set(b, 0);
        self.s.set(b, 0);
        let ml = self.mate[lca];
        self.mate.set(b, ml);
        self.flower_len.set(b, 0);
        self.push_flower(b, lca);
        let ghost fresh = b == old(self).n_x + 1 || old(self).st@[b as int] == 0;
        proof {
            assert(fresh);
        }

        if !self.walk_into(b, u, lca) {
            return;
        }
        let len = self.flower_len[b];
        if len > 1 {
            let mut lo: usize = 1;
            let mut hi: usize = len - 1;
            while lo < hi
                invariant
                    ml == old(self).mate@[lca as int],
                    fresh,
                    fresh == (b == old(self).n_x + 1 || old(self).st@[b as int] == 0),
                    self.holds_new_blossom(b as int, ml),
                    self.wf(),
                    old(self).kept(*self),
                    len <= self.fcap,
                    b < self.m,
                    1 <= lo <= hi + 1,
                    hi < len,
                decreases hi + 1 - lo,
            {
                let a = self.flower_at(b, lo);
                let c = self.flower_at(b, hi);
                self.set_flower_at(b, lo, c);
                self.set_flower_at(b, hi, a);
                lo = lo + 1;
                hi = hi - 1;
            }
        }
        if !self.walk_into(b, v, lca) {
            return;
        }

        self.set_st(b, b);
        let n_x = self.n_x;
        proof {
            self.lemma_caps();
        }
        for x in 1..n_x + 1
            invariant
                ml == old(self).mate@[lca as int],
                fresh,
                fresh == (b == old(self).n_x + 1 || old(self).st@[b as int] == 0),
                self.holds_new_blossom(b as int, ml),
                self.failed || self.st@[b as int] == b,
                self.wf(),
                old(self).kept(*self),
                n_x <= self.n_x,
                b < self.m,
        {
            proof {
                self.lemma_caps();
                lemma_cell(b as int, x as int, self.m as int, self.m as int);
                lemma_cell(x as int, b as int, self.m as int, self.m as int);
            }
            let m = self.m;
            self.ew.set(b * m + x, 0);
            self.ew.set(x * m + b, 0);
        }
        let n = self.n;
        for x in 1..n + 1
            invariant
                ml == old(self).mate@[lca as int],
                fresh,
                fresh == (b == old(self).n_x + 1 || old(self).st@[b as int] == 0),
                self.holds_new_blossom(b as int, ml),
                self.failed || self.st@[b as int] == b,
                self.wf(),
                old(self).kept(*self),
                n == self.n,
                n_x <= self.n_x,
                b < self.m,
        {
            self.set_origin_in(b, x, 0);
        }
        let len = self.flower_len[b];
        for i in 0..len
            invariant
                ml == old(self).mate@[lca as int],
                fresh,
                fresh == (b == old(self).n_x + 1 || old(self).st@[b as int] == 0),
                self.holds_new_blossom(b as int, ml),
                self.failed || self.st@[b as int] == b,
                self.wf(),
                old(self).kept(*self),
                n == self.n,
                n_x <= self.n_x,
                b < self.m,
                len <= self.fcap,
        {
            let xs = self.flower_at(b, i);
            for x in 1..n_x + 1
                invariant
                    ml == old(self).mate@[lca as int],
                    fresh,
                    fresh == (b == old(self).n_x + 1 || old(self).st@[b as int] == 0),
                    self.holds_new_blossom(b as int, ml),
                    self.failed || self.st@[b as int] == b,
                    self.wf(),
                    old(self).kept(*self),
                    n_x <= self.n_x,
                    b < self.m,
                    xs < self.m,
            {
                if self.edge_w(b, x) == 0 || self.e_delta(xs, x) < self.e_delta(b, x) {
                    self.copy_edge(b, x, xs, x);
                    self.copy_edge(x, b, x, xs);
                }
            }
            for x in 1..n + 1
                invariant
                    ml == old(self).mate@[lca as int],
                    fresh,
                    fresh == (b == old(self).n_x + 1 || old(self).st@[b as int] == 0),
                    self.holds_new_blossom(b as int, ml),
                    self.failed || self.st@[b as int] == b,
                    self.wf(),
                    old(self).kept(*self),
                    n == self.n,
                    n_x <= self.n_x,
                    b < self.m,
                    xs < self.m,
            {
                if self.origin_in(xs, x) != 0 {
                    self.set_origin_in(b, x, xs);
                }
            }
        }
        self.set_slack(b);
        proof {
            if !self.failed {
                assert(self.holds_new_blossom(b as int, old(self).mate@[lca as int]) && self.st@[b as int] == b && (b
                    == old(self).n_x + 1 || old(self).st@[b as int] == 0));
            }
        }
    }

    /// Copy edge entry `(fu, fv)` into `(tu, tv)`.
    fn copy_edge(&mut self, tu: usize, tv: usize, fu: usize, fv: usize)
        requires
            old(self).wf(),
            tu < old(self).m,
            tv < old(self).m,
            fu < old(self).m,
            fv < old(self).m,
        ensures
            final(self).wf(),
            old(self).kept(*final(self)),
            final(self).flower_len@ == old(self).flower_len@,
            final(self).work == old(self).work,
            final(self).failed == old(self).failed,
            *final(self) == (Blossom { eu: final(self).eu, ev: final(self).ev, ew: final(self).ew, ..*old(self) }),
            final(self).eu@ == old(self).eu@.update(tu * old(self).m + tv, old(self).eu@[fu * old(self).m + fv]),
            final(self).ev@ == old(self).ev@.update(tu * old(self).m + tv, old(self).ev@[fu * old(self).m + fv]),
            final(self).ew@ == old(self).ew@.update(tu * old(self).m + tv, old(self).ew@[fu * old(self).m + fv]),
    {
        proof {
            self.lemma_caps();
            lemma_cell(tu as int, tv as int, self.m as int, self.m as int);
            lemma_cell(fu as int, fv as int, self.m as int, self.m as int);
        }
        let m = self.m;
        let to = tu * m + tv;
        let from = fu * m + fv;
        let a = self.eu[from];
        let c = self.ev[from];
        let w = self.ew[from];
        self.eu.set(to, a);
        self.ev.set(to, c);
        self.ew.set(to, w);
    }

    /// Undo blossom `b`, which has reached a zero dual.
    fn expand_blossom(&mut self, b: usize)
        requires
            old(self).wf(),
            b < old(self).m,
        ensures
            final(self).wf(),
            old(self).kept(*final(self)),
            final(self).flower_len@ == old(self).flower_len@,
            final(self).failed || final(self).st@[b as int] == 0,
    {
        let len = self.flower_len[b];
        for i in 0..len
            invariant
                self.wf(),
                old(self).kept(*self),
                self.flower_len@ == old(self).flower_len@,
                b < self.m,
                len <= self.fcap,
        {
            let y = self.flower_at(b, i);
            self.set_st(y, y);
        }
        let anchor = self.edge_u(b, self.pa[b]);
        let xr = self.origin_in(b, anchor);
        if xr == 0 {
            proof {
                reveal_strlit("expand: no flower_from");
            }
            self.fail("expand: no flower_from");
            return;
        }
        let pr = self.get_pr(b, xr);
        let len = self.flower_len[b];
        if self.failed || pr >= len {
            proof {
                reveal_strlit("expand: bad pr");
            }
            self.fail("expand: bad pr");
            return;
        }
        let mut i: usize = 0;
        while i + 1 < pr + 1 && i + 1 < len && i < pr
            invariant
                self.wf(),
                old(self).kept(*self),
                self.flower_len@ == old(self).flower_len@,
                b < self.m,
                len <= self.fcap,
                pr < len,
                i <= len,
                xr < self.m,
            decreases len - i,
        {
            let xs = self.flower_at(b, i);
            let xns = self.flower_at(b, i + 1);
            let pe = self.edge_u(xns, xs);
            self.pa.set(xs, pe);
            self.s.set(xs, 1);
            self.s.set(xns, 0);
            self.slack.set(xs, 0);
            self.set_slack(xns);
            self.q_push(xns);
            i = i + 2;
        }
        self.s.set(xr, 1);
        let pb = self.pa[b];
        self.pa.set(xr, pb);
        for i in pr + 1..len
            invariant
                self.wf(),
                old(self).kept(*self),
                self.flower_len@ == old(self).flower_len@,
                b < self.m,
                len <= self.fcap,
        {
            let xs = self.flower_at(b, i);
            self.s.set(xs, -1);
            self.set_slack(xs);
        }
        self.st.set(b, 0);
    }

    /// Handle a tight edge found between `a` and `b` (possibly inside
    /// blossoms): grow the tree, augment, or contract. True after an
    /// augmentation.
    fn on_found_edge(&mut self, a: usize, b: usize) -> (augmented: bool)
        requires
            old(self).wf(),
            a < old(self).m,
            b < old(self).m,
        ensures
            final(self).wf(),
            old(self).kept(*final(self)),
            augmented ==> !final(self).failed && old(self).s@[old(self).st@[b as int] as int] == 0,
            ({
                let v = old(self).st@[b as int] as int;
                let nu = old(self).st@[old(self).mate@[v] as int] as int;
                &&& old(self).s@[v] == 1 ==> !augmented && *final(self) == *old(self)
                &&& old(self).s@[v] == -1 ==> {
                    &&& !augmented
                    &&& final(self).pa@[v] == old(self).eu@[a * old(self).m + b]
                    &&& final(self).s@[nu] == 0
                    &&& nu != v ==> final(self).s@[v] == 1
                }
            }),
    {
        let u = self.st[a];
        let v = self.st[b];
        if self.s[v] == -1 {
            let pe = self.edge_u(a, b);
            self.pa.set(v, pe);
            self.s.set(v, 1);
            let nu = self.st[self.mate[v]];
            self.slack.set(v, 0);
            self.slack.set(nu, 0);
            self.s.set(nu, 0);
            self.q_push(nu);
        } else if self.s[v] == 0 {
            let lca = self.get_lca(u, v);
            if self.failed {
                return false;
            }
            if lca == 0 {
                self.augment(u, v);
                self.augment(v, u);
                return !self.failed;
            }
            self.add_blossom(u, lca, v);
        }
        false
    }

    /// `lab[i] + delta`, failing when it leaves the range of `i64`.
    fn shift_lab(&mut self, i: usize, delta: i128)
        requires
            old(self).wf(),
            i < old(self).m,
            -0x4000_0000_0000_0000_0000_0000_0000_0000 < delta < 0x4000_0000_0000_0000_0000_0000_0000_0000,
        ensures
            final(self).wf(),
            old(self).kept(*final(self)),
            final(self).flower_len@ == old(self).flower_len@,
            final(self).work == old(self).work,
            ({
                let nv = old(self).lab@[i as int] + delta;
                if i64::MIN <= nv <= i64::MAX {
                    &&& *final(self) == (Blossom { lab: final(self).lab, ..*old(self) })
                    &&& final(self).lab@ == old(self).lab@.update(i as int, nv as i64)
                } else {
                    *final(self) == (Blossom { failed: true, why: final(self).why, ..*old(self) })
                }
            }),
    {
        let nv = self.lab[i] as i128 + delta;
        if nv < i64::MIN as i128 || nv > i64::MAX as i128 {
            proof {
                reveal_strlit("dual overflow");
            }
            self.fail("dual overflow");
            return;
        }
        self.lab.set(i, nv as i64);
    }

    /// Drain the queue, following tight edges. Some(true) after an
    /// augmentation, Some(false) to stop the phase, None to go on to the
    /// dual adjustment.
    fn drain_queue(&mut self) -> (r: Option<bool>)
        requires
            old(self).wf(),
        ensures
            final(self).wf(),
            old(self).kept(*final(self)),
            r is None ==> final(self).q@.len() == 0,
            r == Some(false) ==> final(self).failed,
            r == Some(true) ==> !final(self).failed,
    {
        loop
            invariant
                self.wf(),
                old(self).kept(*self),
            decreases self.fuel(),
        {
            let popped = self.pop_q();
            let u = match popped {
                Some(u) => u,
                None => {
                    return None;
                },
            };
            let ghost before = self.work;
            if !self.tick() {
                return Some(false);
            }
            if self.s[self.st[u]] != 1 {
                let n = self.n;
                for v in 1..n + 1
                    invariant
                        self.wf(),
                        old(self).kept(*self),
                        self.work >= before + 1,
                        n == self.n,
                        u <= self.n,
                {
                    if self.edge_w(u, v) > 0 && self.st[u] != self.st[v] {
                        if self.e_delta(u, v) == 0 {
                            if self.on_found_edge(u, v) {
                                return Some(true);
                            }
                            if self.failed {
                                return Some(false);
                            }
                        } else {
                            let sv = self.st[v];
                            self.update_slack(u, sv);
                        }
                    }
                }
            }
        }
    }

    /// The dual adjustment of one pass: the largest step that keeps every
    /// slack non-negative, or None when nothing bounds it.
    fn dual_step(&self) -> (d: Option<i128>)
        requires
            self.wf(),
        ensures
            d matches Some(v) ==> -0x1000_0000_0000_0000_0000_0000_0000_0000 < v < INF,
            forall|x: int|
                1 <= x <= self.n_x ==> (#[trigger] self.dual_bound(x) matches Some(c) ==> (d matches Some(v) ==> v
                    <= c) && (d is None ==> c >= INF)),
            d matches Some(v) ==> exists|x: int| 1 <= x <= self.n_x && #[trigger] self.dual_bound(x) == Some(v as int),
    {
        let mut d: i128 = INF as i128;
        let n = self.n;
        let n_x = self.n_x;
        for b in n + 1..n_x + 1
            invariant
                self.wf(),
                n == self.n,
                n_x == self.n_x,
                -0x1000_0000_0000_0000_0000_0000_0000_0000 < d <= INF,
                forall|y: int|
                    n < y < b && #[trigger] self.st@[y] == y && self.s@[y] == 1 ==> d <= half_toward_zero(
                        self.lab@[y] as int,
                    ),
                d == INF || exists|y: int| 1 <= y <= n_x && #[trigger] self.dual_bound(y) == Some(d as int),
        {
            if self.st[b] == b && self.s[b] == 1 {
                let half = (self.lab[b] / 2) as i128;
                proof {
                    assert(half == half_toward_zero(self.lab@[b as int] as int));
                    assert(self.dual_bound(b as int) == Some(half as int));
                }
                if half < d {
                    d = half;
                }
            }
        }
        for x in 1..n_x + 1
            invariant
                self.wf(),
                n == self.n,
                n_x == self.n_x,
                -0x1000_0000_0000_0000_0000_0000_0000_0000 < d <= INF,
                forall|y: int|
                    n < y <= n_x && #[trigger] self.st@[y] == y && self.s@[y] == 1 ==> d <= half_toward_zero(
                        self.lab@[y] as int,
                    ),
                forall|y: int| 1 <= y < x ==> (#[trigger] self.dual_bound(y) matches Some(c) ==> d <= c),
                d == INF || exists|y: int| 1 <= y <= n_x && #[trigger] self.dual_bound(y) == Some(d as int),
        {
            let sx = self.slack[x];
            if self.st[x] == x && sx != 0 {
                if self.s[x] == -1 {
                    let e = self.e_delta(sx, x);
                    proof {
                        assert(self.dual_bound(x as int) == Some(e as int));
                    }
                    if e < d {
                        d = e;
                    }
                } else if self.s[x] == 0 {
                    let e = self.e_delta(sx, x) / 2;
                    proof {
                        assert(e == half_toward_zero(self.e_delta_spec(sx as int, x as int)));
                        assert(self.dual_bound(x as int) == Some(e as int));
                    }
                    if e < d {
                        d = e;
                    }
                }
            }
        }
        if d >= INF as i128 {
            None
        } else {
            Some(d)
        }
    }

    /// One phase of the search: grow alternating trees from every exposed
    /// vertex until an augmenting path is found. True after augmenting.
    fn matching(&mut self) -> (augmented: bool)
        requires
            old(self).wf(),
        ensures
            final(self).wf(),
            old(self).kept(*final(self)),
            old(self).failed ==> !augmented && *final(self) == *old(self),
            augmented ==> !final(self).failed,
            (forall|x: int| 1 <= x <= old(self).n_x && #[trigger] old(self).st@[x] == x ==> old(self).mate@[x] != 0)
                ==> !augmented,
    {
        if self.failed {
            return false;
        }
        let n_x = self.n_x;
        for x in 0..n_x + 1
            invariant
                self.wf(),
                old(self).kept(*self),
                n_x <= self.n_x,
                n_x == old(self).n_x,
                self.st == old(self).st,
                self.mate == old(self).mate,
        {
            self.s.set(x, -1);
            self.slack.set(x, 0);
        }
        self.clear_q();
        for x in 1..n_x + 1
            invariant
                self.wf(),
                old(self).kept(*self),
                n_x <= self.n_x,
                n_x == old(self).n_x,
                self.st == old(self).st,
                self.mate == old(self).mate,
                (forall|y: int| 1 <= y <= old(self).n_x && #[trigger] old(self).st@[y] == y ==> old(self).mate@[y]
                    != 0) ==> self.q@.len() == 0,
        {
            if self.st[x] == x && self.mate[x] == 0 {
                self.pa.set(x, 0);
                self.s.set(x, 0);
                self.q_push(x);
            }
        }
        if self.q.len() == 0 || self.failed {
            return false;
        }
        let passes = 4 * self.n + 16;
        let mut pass: usize = 0;
        while pass <= passes
            invariant
                !old(self).failed,
                !(forall|y: int| 1 <= y <= old(self).n_x && #[trigger] old(self).st@[y] == y ==> old(self).mate@[y] != 0),
                self.wf(),
                old(self).kept(*self),
                passes == 4 * self.n + 16,
            decreases passes + 1 - pass,
        {
            match self.drain_queue() {
                Some(r) => {
                    return r;
                },
                None => {},
            }
            let d = match self.dual_step() {
                Some(d) => d,
                None => {
                    return false;
                },
            };
            let n = self.n;
            for u in 1..n + 1
                invariant
                    !old(self).failed,
                    !(forall|y: int| 1 <= y <= old(self).n_x && #[trigger] old(self).st@[y] == y ==> old(self).mate@[y] != 0),
                    self.wf(),
                    old(self).kept(*self),
                    n == self.n,
                    -0x1000_0000_0000_0000_0000_0000_0000_0000 < d < INF,
            {
                let su = self.s[self.st[u]];
                if su == 0 {
                    if self.lab[u] as i128 <= d {
                        return false;
                    }
                    self.shift_lab(u, -d);
                } else if su == 1 {
                    self.shift_lab(u, d);
                }
            }
            let n_x = self.n_x;
            for b in n + 1..n_x + 1
                invariant
                    !old(self).failed,
                    !(forall|y: int| 1 <= y <= old(self).n_x && #[trigger] old(self).st@[y] == y ==> old(self).mate@[y] != 0),
                    self.wf(),
                    old(self).kept(*self),
                    n == self.n,
                    n_x <= self.n_x,
                    -0x1000_0000_0000_0000_0000_0000_0000_0000 < d < INF,
            {
                if self.st[b] == b {
                    if self.s[b] == 0 {
                        self.shift_lab(b, d * 2);
                    } else if self.s[b] == 1 {
                        self.shift_lab(b, -(d * 2));
                    }
                }
            }
            if self.failed {
                return false;
            }
            self.clear_q();
            for x in 1..n_x + 1
                invariant
                    !old(self).failed,
                    !(forall|y: int| 1 <= y <= old(self).n_x && #[trigger] old(self).st@[y] == y ==> old(self).mate@[y] != 0),
                    self.wf(),
                    old(self).kept(*self),
                    n_x <= self.n_x,
            {
                let sl = self.slack[x];
                if self.st[x] == x && sl != 0 && self.st[sl] != x && self.e_delta(sl, x) == 0 {
                    if self.on_found_edge(sl, x) {
                        return true;
                    }
                    if self.failed {
                        return false;
                    }
                }
            }
            let n_x = self.n_x;
            for b in n + 1..n_x + 1
                invariant
                    !old(self).failed,
                    !(forall|y: int| 1 <= y <= old(self).n_x && #[trigger] old(self).st@[y] == y ==> old(self).mate@[y] != 0),
                    self.wf(),
                    old(self).kept(*self),
                    n_x <= self.n_x,
            {
                if self.st[b] == b && self.s[b] == 1 && self.lab[b] == 0 {
                    self.expand_blossom(b);
                    if self.failed {
                        return false;
                    }
                }
            }
            pass = pass + 1;
        }
        proof {
            reveal_strlit("matching: too many passes");
        }
        self.fail("matching: too many passes");
        false
    }

    /// Run phases until none augments, then read off the matching if it is
    /// perfect.
    fn solve(&mut self) -> (r: Option<Vec<usize>>)
        requires
            old(self).wf(),
        ensures
            final(self).wf(),
            r matches Some(v) ==> is_perfect_matching(v@, old(self).n as nat),
            r is None <==> final(self).failed,
            r matches Some(v) ==> forall|i: int|
                0 <= i < v@.len() ==> #[trigger] v@[i] == final(self).mate@[i + 1] - 1,
    {
        let n = self.n;
        for x in 0..n + 1
            invariant
                self.wf(),
                n == self.n,
        {
            self.mate.set(x, 0);
            self.st.set(x, x);
        }
        let mut w_max: i64 = 0;
        for u in 1..n + 1
            invariant
                self.wf(),
                n == self.n,
        {
            for v in 1..n + 1
                invariant
                    self.wf(),
                    n == self.n,
                    1 <= u <= n,
            {
                self.set_origin_in(u, v, if u == v {
                    u
                } else {
                    0
                });
                let w = self.edge_w(u, v);
                if w > w_max {
                    w_max = w;
                }
            }
        }
        for u in 1..n + 1
            invariant
                self.wf(),
                n == self.n,
        {
            self.lab.set(u, w_max);
        }
        let mut rounds: usize = 0;
        while rounds <= n
            invariant
                self.wf(),
                n == self.n,
            decreases n + 1 - rounds,
        {
            if !self.matching() {
                break;
            }
            rounds = rounds + 1;
        }
        if rounds > n {
            proof {
                reveal_strlit("solve: too many augmentations");
            }
            self.fail("solve: too many augmentations");
        }
        if self.failed {
            return None;
        }
        // Only a genuine perfect matching is worth returning.
        for u in 1..n + 1
            invariant
                self.wf(),
                n == self.n,
                !self.failed,
                forall|w: int|
                    1 <= w < u ==> {
                        let mw = #[trigger] self.mate@[w];
                        1 <= mw <= n && mw != w && self.mate@[mw as int] == w
                    },
        {
            let mu = self.mate[u];
            if mu == 0 || mu > n || mu == u || self.mate[mu] != u {
                proof {
                    reveal_strlit("incomplete matching");
                }
                self.fail("incomplete matching");
                return None;
            }
        }
        let mut out: Vec<usize> = Vec::new();
        for u in 1..n + 1
            invariant
                self.wf(),
                n == self.n,
                !self.failed,
                forall|w: int|
                    1 <= w <= n ==> {
                        let mw = #[trigger] self.mate@[w];
                        1 <= mw <= n && mw != w && self.mate@[mw as int] == w
                    },
                out@.len() == u - 1,
                forall|k: int| 0 <= k < out@.len() ==> #[trigger] out@[k] == self.mate@[k + 1] - 1,
        {
            out.push(self.mate[u] - 1);
        }
        proof {
            assert forall|i: int| 0 <= i < n implies (#[trigger] out@[i]) < n && out@[i] != i && out@[out@[i] as int]
                == i by {
                let w = i + 1;
                let mw = self.mate@[w];
                assert(1 <= mw <= n && mw != w && self.mate@[mw as int] == w);
                assert(out@[mw - 1] == self.mate@[mw as int] - 1);
            }
        }
        Some(out)
    }
}

/// The largest of 0 and the first `j` entries of `row`.
spec fn row_top(row: Seq<i64>, j: int) -> int
    decreases j,
{
    if j <= 0 {
        0
    } else {
        let before = row_top(row, j - 1);
        if row[j - 1] > before {
            row[j - 1] as int
        } else {
            before
        }
    }
}

/// The largest of 0 and the entries of the first `i` rows of the `n` by `n`
/// block.
spec fn block_top(cost: Seq<Vec<i64>>, i: int, n: int) -> int
    decreases i,
{
    if i <= 0 {
        0
    } else {
        let before = block_top(cost, i - 1, n);
        let here = row_top(cost[i - 1]@, n);
        if here > before {
            here
        } else {
            before
        }
    }
}

/// The largest entry of the `n` by `n` block, or 0 if all are negative.
fn top_weight(n: usize, cost: &[Vec<i64>]) -> (top: i64)
    requires
        square_at_least(cost@, n as nat),
    ensures
        top >= 0,
        forall|i: int, j: int| 0 <= i < n && 0 <= j < n ==> (#[trigger] cost@[i]@[j]) <= top,
        top == block_top(cost@, n as int, n as int),
{
    let mut top: i64 = 0;
    for i in 0..n
        invariant
            square_at_least(cost@, n as nat),
            top >= 0,
            forall|a: int, b: int| 0 <= a < i && 0 <= b < n ==> (#[trigger] cost@[a]@[b]) <= top,
            top == block_top(cost@, i as int, n as int),
    {
        let row = &cost[i];
        assert(row@.len() >= n);
        let ghost before: int = top as int;
        let mut rtop: i64 = 0;
        for j in 0..n
            invariant
                square_at_least(cost@, n as nat),
                row@ == cost@[i as int]@,
                row@.len() >= n,
                top >= 0,
                before == block_top(cost@, i as int, n as int),
                rtop == row_top(row@, j as int),
                top == if rtop > before {
                    rtop as int
                } else {
                    before
                },
                forall|a: int, b: int|
                    (0 <= a < i && 0 <= b < n) || (a == i && 0 <= b < j) ==> (#[trigger] cost@[a]@[b]) <= top,
        {
            let w = row[j];
            if w > rtop {
                rtop = w;
            }
            if w > top {
                top = w;
            }
        }
    }
    top
}

/// What `flipped_weights` makes of entry `(i, j)` under the ceiling `top`.
spec fn flipped_entry(cost: Seq<Vec<i64>>, top: int, i: int, j: int) -> int {
    if i == j {
        0
    } else {
        top - cost[i]@[j] + 1
    }
}

/// Maximise `top - w + 1` instead of minimising `w`: every perfect matching
/// has the same number of edges, so the orderings mirror each other. None
/// when a flipped weight leaves the range of `i64`.
fn flipped_weights(n: usize, cost: &[Vec<i64>]) -> (f: Option<Vec<Vec<i64>>>)
    requires
        square_at_least(cost@, n as nat),
    ensures
        f matches Some(rows) ==> square_at_least(rows@, n as nat),
        ({
            let top = block_top(cost@, n as int, n as int);
            &&& f is None <==> exists|i: int, j: int|
                0 <= i < n && 0 <= j < n && #[trigger] flipped_entry(cost@, top, i, j) > i64::MAX
            &&& f matches Some(rows) ==> rows@.len() == n && forall|i: int, j: int|
                0 <= i < n && 0 <= j < n ==> #[trigger] rows@[i]@[j] == flipped_entry(cost@, top, i, j)
        }),
{
    let top = top_weight(n, cost);
    let mut rows: Vec<Vec<i64>> = Vec::new();
    for i in 0..n
        invariant
            square_at_least(cost@, n as nat),
            rows@.len() == i,
            forall|k: int| 0 <= k < i ==> (#[trigger] rows@[k])@.len() == n,
            top >= 0,
            top == block_top(cost@, n as int, n as int),
            forall|a: int, b: int| 0 <= a < n && 0 <= b < n ==> (#[trigger] cost@[a]@[b]) <= top,
            forall|a: int, b: int|
                0 <= a < i && 0 <= b < n ==> #[trigger] flipped_entry(cost@, top as int, a, b) <= i64::MAX,
            forall|a: int, b: int|
                0 <= a < i && 0 <= b < n ==> #[trigger] rows@[a]@[b] == flipped_entry(cost@, top as int, a, b),
    {
        let row = &cost[i];
        assert(row@.len() >= n);
        let mut out: Vec<i64> = Vec::new();
        for j in 0..n
            invariant
                row@.len() >= n,
                out@.len() == j,
                row@ == cost@[i as int]@,
                top >= 0,
                top == block_top(cost@, n as int, n as int),
                0 <= i < n,
                square_at_least(cost@, n as nat),
                forall|a: int, b: int| 0 <= a < n && 0 <= b < n ==> (#[trigger] cost@[a]@[b]) <= top,
                forall|b: int| 0 <= b < j ==> #[trigger] flipped_entry(cost@, top as int, i as int, b) <= i64::MAX,
                forall|b: int| 0 <= b < j ==> #[trigger] out@[b] == flipped_entry(cost@, top as int, i as int, b),
        {
            if i == j {
                out.push(0);
            } else {
                let w = row[j];
                proof {
                    assert(cost@[i as int]@[j as int] <= top);
                }
                match top.checked_sub(w) {
                    Some(diff) => match diff.checked_add(1) {
                        Some(v) => out.push(v),
                        None => {
                            proof {
                                assert(flipped_entry(cost@, top as int, i as int, j as int) > i64::MAX);
                            }
                            return None;
                        },
                    },
                    None => {
                        proof {
                            assert(flipped_entry(cost@, top as int, i as int, j as int) > i64::MAX);
                        }
                        return None;
                    },
                }
            }
        }
        let ghost prev = rows@;
        rows.push(out);
        proof {
            assert forall|a: int, b: int| 0 <= a < i + 1 && 0 <= b < n implies #[trigger] rows@[a]@[b]
                == flipped_entry(cost@, top as int, a, b) by {
                if a < i {
                    assert(rows@[a] == prev[a]);
                }
            }
        }
    }
    Some(rows)
}

/// Minimum-weight perfect matching on a complete graph of `n` vertices.
///
/// `cost[i][j]` is the weight of pairing `i` with `j`; `n` must be even.
/// Returns the partner of each vertex, or `None` if any internal ceiling was
/// reached — in which case the caller should keep whatever matching it
/// already had.
pub fn min_weight_perfect_matching(n: usize, cost: &[Vec<i64>]) -> (r: Option<Vec<usize>>)
    requires
        searchable(n as nat) ==> square_at_least(cost@, n as nat),
    ensures
        n == 0 ==> (r matches Some(v) && v@.len() == 0),
        n % 2 == 1 || n > MAX_VERTICES ==> r is None,
        r matches Some(v) ==> is_perfect_matching(v@, n as nat),
{
    min_weight_perfect_matching_diagnostic(n, cost).0
}

/// Same, but reporting which ceiling stopped it. For tests and diagnosis.
pub fn min_weight_perfect_matching_diagnostic(n: usize, cost: &[Vec<i64>]) -> (r: (Option<Vec<usize>>, &'static str))
    requires
        searchable(n as nat) ==> square_at_least(cost@, n as nat),
    ensures
        n == 0 ==> (r.0 matches Some(v) && v@.len() == 0 && r.1@ == ""@),
        n % 2 == 1 || n > MAX_VERTICES ==> r.0 is None && r.1@ == "unsupported size"@,
        r.0 matches Some(v) ==> is_perfect_matching(v@, n as nat),
        r.0 is None <==> r.1@.len() > 0,
{
    if n == 0 {
        proof {
            reveal_strlit("");
        }
        return (Some(Vec::new()), "");
    }
    if n % 2 != 0 || n > MAX_VERTICES {
        proof {
            reveal_strlit("unsupported size");
        }
        return (None, "unsupported size");
    }
    match flipped_weights(n, cost) {
        Some(flipped) => solve_with_reason(n, &flipped),
        None => {
            proof {
                reveal_strlit("weight overflow");
            }
            (None, "weight overflow")
        },
    }
}

fn solve_with_reason(n: usize, flipped: &Vec<Vec<i64>>) -> (r: (Option<Vec<usize>>, &'static str))
    requires
        1 <= n <= MAX_VERTICES,
        square_at_least(flipped@, n as nat),
    ensures
        r.0 matches Some(v) ==> is_perfect_matching(v@, n as nat),
        r.0 is None <==> r.1@.len() > 0,
{
    let mut b = Blossom::new(n, flipped);
    let out = b.solve();
    (out, b.why)
}

} // verus!
