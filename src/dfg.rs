use vstd::prelude::*;

use crate::projection::{log_in_range, EventLogActivityProjection, LogView};
use crate::ratio::Ratio;

verus! {

/// `x`, capped at the largest `u64`.
pub open spec fn sat(x: int) -> int {
    if x > u64::MAX {
        u64::MAX as int
    } else {
        x
    }
}

/// How often `v` directly follows `u` in `t`.
pub open spec fn pair_count(t: Seq<usize>, u: int, v: int) -> nat
    decreases t.len(),
{
    if t.len() < 2 {
        0
    } else {
        pair_count(t.drop_last(), u, v) + if t[t.len() - 2] == u && t[t.len() - 1] == v {
            1nat
        } else {
            0nat
        }
    }
}

/// How often `v` directly follows `u` in the log, counted with multiplicity.
pub open spec fn df_weight(log: LogView, u: int, v: int) -> int
    decreases log.len(),
{
    if log.len() == 0 {
        0
    } else {
        df_weight(log.drop_last(), u, v) + log.last().1 * pair_count(log.last().0, u, v)
    }
}

/// Largest weight among the first `k` edges leaving `u`.
pub open spec fn out_max(m: Seq<Seq<u64>>, u: int, k: int) -> int
    decreases k,
{
    if k <= 0 {
        0
    } else {
        let p = out_max(m, u, k - 1);
        if m[u][k - 1] > p {
            m[u][k - 1] as int
        } else {
            p
        }
    }
}

/// Largest weight among the edges from the first `k` activities into `v`.
pub open spec fn in_max(m: Seq<Seq<u64>>, v: int, k: int) -> int
    decreases k,
{
    if k <= 0 {
        0
    } else {
        let p = in_max(m, v, k - 1);
        if m[k - 1][v] > p {
            m[k - 1][v] as int
        } else {
            p
        }
    }
}

/// Sum of the first `k` weights of row `u`.
pub open spec fn row_sum(m: Seq<Seq<u64>>, u: int, k: int) -> int
    decreases k,
{
    if k <= 0 {
        0
    } else {
        row_sum(m, u, k - 1) + m[u][k - 1]
    }
}

/// Sum of all weights of the first `r` rows.
pub open spec fn total_weight(m: Seq<Seq<u64>>, r: int) -> int
    decreases r,
{
    if r <= 0 {
        0
    } else {
        total_weight(m, r - 1) + row_sum(m, r - 1, m[r - 1].len() as int)
    }
}

/// Number of edges among the first `k` cells of row `u`.
pub open spec fn row_edges(m: Seq<Seq<u64>>, u: int, k: int) -> int
    decreases k,
{
    if k <= 0 {
        0
    } else {
        row_edges(m, u, k - 1) + if m[u][k - 1] > 0 {
            1int
        } else {
            0int
        }
    }
}

/// Number of edges in the first `r` rows.
pub open spec fn total_edges(m: Seq<Seq<u64>>, r: int) -> int
    decreases r,
{
    if r <= 0 {
        0
    } else {
        total_edges(m, r - 1) + row_edges(m, r - 1, m[r - 1].len() as int)
    }
}

/// Whether the filter keeps an edge of weight `w` whose endpoints have the
/// strongest outgoing and incoming weights `o` and `i`.
pub open spec fn keeps(w: int, abs: int, rel: Ratio, o: int, i: int) -> bool {
    w > 0 && w >= abs && rel.admits_spec(w, if o > i { o } else { i })
}

/// `ceil(rel * sum / cnt)`, and 0 for a graph without edges.
pub open spec fn scaled_mean_ceil(rel: Ratio, sum: int, cnt: int) -> int {
    if cnt <= 0 {
        0
    } else {
        let a = rel.num * sum;
        let b = rel.den * cnt;
        if a % b == 0 {
            a / b
        } else {
            a / b + 1
        }
    }
}

/// The weights of the directly-follows graph of `log` over `n` activities.
pub open spec fn dfg_of(log: LogView, n: nat) -> Seq<Seq<u64>> {
    Seq::new(n, |u: int| Seq::new(n, |v: int| sat(df_weight(log, u, v)) as u64))
}

/// The weights that the filter keeps of the graph `m` over `n` activities.
pub open spec fn filtered_of(m: Seq<Seq<u64>>, n: nat, abs: u64, rel: Ratio) -> Seq<Seq<u64>> {
    Seq::new(
        n,
        |u: int|
            Seq::new(
                n,
                |v: int|
                    if keeps(m[u][v] as int, abs as int, rel, out_max(m, u, n as int), in_max(m, v, n as int)) {
                        m[u][v]
                    } else {
                        0u64
                    },
            ),
    )
}

/// The stronger of the heaviest edge leaving `u` and the heaviest entering `v`.
pub open spec fn endpoint_max(m: Seq<Seq<u64>>, n: nat, u: int, v: int) -> int {
    let o = out_max(m, u, n as int);
    let i = in_max(m, v, n as int);
    if o > i {
        o
    } else {
        i
    }
}

/// Every edge the filter keeps reaches both thresholds, and is heavier than
/// every edge it drops whose endpoints have the same strongest weight.
pub proof fn lemma_filter_correct(m: Seq<Seq<u64>>, n: nat, abs: u64, rel: Ratio, u1: int, v1: int, u2: int, v2: int)
    requires
        rel.wf(),
        0 <= u1 < n && 0 <= v1 < n && 0 <= u2 < n && 0 <= v2 < n,
        m.len() == n,
        forall|x: int| 0 <= x < n ==> (#[trigger] m[x]).len() == n,
        filtered_of(m, n, abs, rel)[u1][v1] > 0,
    ensures
        filtered_of(m, n, abs, rel)[u1][v1] == m[u1][v1],
        m[u1][v1] >= abs,
        rel.admits_spec(m[u1][v1] as int, endpoint_max(m, n, u1, v1)),
        m[u2][v2] > 0 && filtered_of(m, n, abs, rel)[u2][v2] == 0 && endpoint_max(m, n, u1, v1) == endpoint_max(
            m,
            n,
            u2,
            v2,
        ) ==> m[u2][v2] < m[u1][v1],
{
    let big = endpoint_max(m, n, u1, v1);
    let w1 = m[u1][v1] as int;
    let w2 = m[u2][v2] as int;
    if w2 > 0 && filtered_of(m, n, abs, rel)[u2][v2] == 0 && big == endpoint_max(m, n, u2, v2) && w2 >= w1 {
        assert(w2 * rel.den >= w1 * rel.den) by (nonlinear_arith)
            requires w2 >= w1, rel.den > 0;
        assert(rel.admits_spec(w2, big));
    }
}

/// The directly-follows graph: `edges[u][v]` is how often `v` directly follows
/// `u` (capped at the largest `u64`); zero means there is no edge.
pub struct ActivityProjectionDFG {
    pub edges: Vec<Vec<u64>>,
}

impl ActivityProjectionDFG {
    pub open spec fn view(&self) -> Seq<Seq<u64>> {
        self.edges@.map_values(|r: Vec<u64>| r@)
    }

    /// A square matrix over `n` activities.
    pub open spec fn wf(&self, n: nat) -> bool {
        square_rows(self.edges@, n)
    }

    pub open spec fn weight(&self, u: int, v: int) -> int {
        self.edges@[u]@[v] as int
    }

    /// The graph of the given projection.
    pub fn from_event_log_projection(proj: &EventLogActivityProjection) -> (r: Self)
        requires
            proj.wf(),
        ensures
            r.wf(proj.activities@.len()),
            forall|u: int, v: int|
                0 <= u < proj.activities@.len() && 0 <= v < proj.activities@.len() ==> #[trigger] r.weight(u, v)
                    == sat(df_weight(proj.log(), u, v)),
            r.view() == dfg_of(proj.log(), proj.activities@.len()),
    {
        let n = proj.activities.len();
        let mut edges = zero_matrix(n);
        let ghost log = proj.log();
        let mut i: usize = 0;
        while i < proj.traces.len()
            invariant
                log == proj.log(),
                log_in_range(log, n as nat),
                n == proj.activities@.len(),
                i <= log.len(),
                square_rows(edges@, n as nat),
                forall|u: int, v: int|
                    0 <= u < n && 0 <= v < n ==> #[trigger] edges@[u]@[v] == sat(
                        df_weight(log.subrange(0, i as int), u, v),
                    ),
            decreases log.len() - i,
        {
            let t = &proj.traces[i].0;
            let w = proj.traces[i].1;
            let ghost before = log.subrange(0, i as int);
            assert(log.subrange(0, i + 1).drop_last() == before);
            assert(forall|b: int| 0 <= b < t@.len() ==> t@[b] == log[i as int].0[b]);
            let ghost first = t@.subrange(0, if 1 <= t@.len() { 1int } else { t@.len() as int });
            assert forall|u: int, v: int| #![trigger pair_count(first, u, v)] true implies pair_count(first, u, v)
                == 0 by {
                assert(first.len() < 2);
            };
            assert forall|u: int, v: int| 0 <= u < n && 0 <= v < n implies #[trigger] edges@[u]@[v] == sat(
                df_weight(before, u, v) + w * pair_count(first, u, v),
            ) by {
                assert(pair_count(first, u, v) == 0);
                assert(w * 0 == 0);
            };
            let mut j: usize = 1;
            while j < t.len()
                invariant
                    1 <= j,
                    t@ == log[i as int].0,
                    w == log[i as int].1,
                    i < log.len(),
                    log_in_range(log, n as nat),
                    square_rows(edges@, n as nat),
                    forall|u: int, v: int|
                        0 <= u < n && 0 <= v < n ==> #[trigger] edges@[u]@[v] == sat(
                            df_weight(before, u, v) + w * pair_count(
                                t@.subrange(0, if j <= t@.len() { j as int } else { t@.len() as int }),
                                u,
                                v,
                            ),
                        ),
                decreases t@.len() - j,
            {
                let a = t[j - 1];
                let b = t[j];
                assert(log[i as int].0[j - 1] < n);
                assert(log[i as int].0[j as int] < n);
                let ghost pre = edges@;
                let cur = edges[a][b];
                set_cell(&mut edges, a, b, cur.saturating_add(w));
                proof {
                    let s0 = t@.subrange(0, j as int);
                    let s1 = t@.subrange(0, j + 1);
                    assert(s1.drop_last() == s0);
                    assert forall|u: int, v: int| 0 <= u < n && 0 <= v < n implies #[trigger] edges@[u]@[v] == sat(
                        df_weight(before, u, v) + w * pair_count(s1, u, v),
                    ) by {
                        let d = df_weight(before, u, v);
                        let p = pair_count(s0, u, v);
                        lemma_df_weight_nonneg(before, u, v);
                        assert(w * p >= 0) by (nonlinear_arith) requires w >= 0, p >= 0;
                        if u == a && v == b {
                            assert(pair_count(s1, u, v) == p + 1);
                            assert(w * (p + 1) == w * p + w) by (nonlinear_arith);
                        } else {
                            assert(pair_count(s1, u, v) == p);
                            assert(edges@[u]@[v] == pre[u]@[v]);
                        }
                    };
                }
                j += 1;
            }
            proof {
                let full = if j <= t@.len() { j as int } else { t@.len() as int };
                if t@.len() < 2 {
                    assert forall|u: int, v: int| 0 <= u < n && 0 <= v < n implies pair_count(t@, u, v) == 0
                        && pair_count(t@.subrange(0, full), u, v) == 0 by {
                        assert(t@.subrange(0, full).len() < 2);
                    };
                } else {
                    assert(t@.subrange(0, full) == t@);
                }
                assert forall|u: int, v: int| 0 <= u < n && 0 <= v < n implies #[trigger] edges@[u]@[v] == sat(
                    df_weight(log.subrange(0, i + 1), u, v),
                ) by {
                    assert(log.subrange(0, i + 1).last() == log[i as int]);
                };
            }
            i += 1;
        }
        assert(log.subrange(0, log.len() as int) == log);
        let r = ActivityProjectionDFG { edges };
        assert(r.view() =~= dfg_of(log, n as nat)) by {
            assert forall|u: int| 0 <= u < n implies r.view()[u] =~= dfg_of(log, n as nat)[u] by {
                assert(edges@[u]@.len() == n);
                assert forall|v: int| 0 <= v < n implies r.view()[u][v] == dfg_of(log, n as nat)[u][v] by {
                    assert(edges@[u]@[v] == sat(df_weight(log, u, v)));
                };
            };
        };
        r
    }

    /// Sum of all edge weights (capped) and number of edges (capped).
    pub fn weight_sum_and_edge_count(&self, n: usize) -> (r: (u64, u64))
        requires
            self.wf(n as nat),
        ensures
            r.0 == sat(total_weight(self.view(), n as int)),
            r.1 == sat(total_edges(self.view(), n as int)),
    {
        let ghost m = self.view();
        let mut sum: u64 = 0;
        let mut cnt: u64 = 0;
        let mut u: usize = 0;
        while u < n
            invariant
                m == self.view(),
                square_rows(self.edges@, n as nat),
                u <= n,
                sum == sat(total_weight(m, u as int)),
                cnt == sat(total_edges(m, u as int)),
            decreases n - u,
        {
            let row = &self.edges[u];
            assert(self.edges@[u as int]@.len() == n);
            assert(row@ == m[u as int]);
            let mut v: usize = 0;
            while v < n
                invariant
                    m == self.view(),
                    square_rows(self.edges@, n as nat),
                    u < n,
                    row@ == m[u as int],
                    row@.len() == n,
                    v <= n,
                    sum == sat(total_weight(m, u as int) + row_sum(m, u as int, v as int)),
                    cnt == sat(total_edges(m, u as int) + row_edges(m, u as int, v as int)),
                    total_weight(m, u as int) >= 0,
                    total_edges(m, u as int) >= 0,
                    row_sum(m, u as int, v as int) >= 0,
                    row_edges(m, u as int, v as int) >= 0,
                decreases n - v,
            {
                sum = sum.saturating_add(row[v]);
                if row[v] > 0 {
                    cnt = cnt.saturating_add(1);
                }
                v += 1;
            }
            u += 1;
        }
        (sum, cnt)
    }

    /// `ceil(rel * mean edge weight)`, the weight an edge needs to count in
    /// log repair; 0 for a graph without edges.
    pub fn repair_threshold(&self, n: usize, rel: Ratio) -> (r: u128)
        requires
            self.wf(n as nat),
            rel.wf(),
        ensures
            r == scaled_mean_ceil(
                rel,
                sat(total_weight(self.view(), n as int)),
                sat(total_edges(self.view(), n as int)),
            ),
    {
        let (sum, cnt) = self.weight_sum_and_edge_count(n);
        if cnt == 0 {
            return 0;
        }
        proof {
            lemma_u64_product_fits(rel.num as int, sum as int);
            lemma_u64_product_fits(rel.den as int, cnt as int);
        }
        let a = (rel.num as u128) * (sum as u128);
        let b = (rel.den as u128) * (cnt as u128);
        proof {
            assert(b > 0) by (nonlinear_arith) requires rel.den > 0, cnt > 0, b == rel.den * cnt;
        }
        let q = a / b;
        if a % b == 0 {
            q
        } else {
            proof {
                assert(q <= a) by (nonlinear_arith) requires q == a / b, b > 0, a >= 0;
            }
            q + 1
        }
    }

    /// Keeps the edges whose weight reaches `abs` and reaches `rel` times the
    /// stronger of the heaviest edge leaving their source and the heaviest
    /// edge entering their target. The input is left as it is.
    pub fn filter(&self, n: usize, abs: u64, rel: Ratio) -> (r: Self)
        requires
            self.wf(n as nat),
        ensures
            r.wf(n as nat),
            forall|u: int, v: int|
                0 <= u < n && 0 <= v < n ==> #[trigger] r.weight(u, v) == if keeps(
                    self.weight(u, v),
                    abs as int,
                    rel,
                    out_max(self.view(), u, n as int),
                    in_max(self.view(), v, n as int),
                ) {
                    self.weight(u, v)
                } else {
                    0
                },
            r.view() == filtered_of(self.view(), n as nat, abs, rel),
    {
        let ghost m = self.view();
        let outs = self.out_maxes(n);
        let ins = self.in_maxes(n);
        let mut edges: Vec<Vec<u64>> = Vec::new();
        let mut u: usize = 0;
        while u < n
            invariant
                m == self.view(),
                square_rows(self.edges@, n as nat),
                u <= n,
                outs@.len() == n,
                ins@.len() == n,
                forall|x: int| 0 <= x < n ==> outs@[x] == out_max(m, x, n as int),
                forall|x: int| 0 <= x < n ==> ins@[x] == in_max(m, x, n as int),
                edges@.len() == u,
                forall|x: int| 0 <= x < u ==> (#[trigger] edges@[x])@.len() == n,
                forall|x: int, y: int|
                    0 <= x < u && 0 <= y < n ==> #[trigger] edges@[x]@[y] == if keeps(
                        m[x][y] as int,
                        abs as int,
                        rel,
                        out_max(m, x, n as int),
                        in_max(m, y, n as int),
                    ) {
                        m[x][y]
                    } else {
                        0
                    },
            decreases n - u,
        {
            let row = &self.edges[u];
            assert(self.edges@[u as int]@.len() == n);
            assert(row@ == m[u as int]);
            let mut kept: Vec<u64> = Vec::new();
            let mut v: usize = 0;
            while v < n
                invariant
                    u < n,
                    square_rows(self.edges@, n as nat),
                    row@ == m[u as int],
                    row@.len() == n,
                    outs@.len() == n,
                    ins@.len() == n,
                    forall|x: int| 0 <= x < n ==> outs@[x] == out_max(m, x, n as int),
                    forall|x: int| 0 <= x < n ==> ins@[x] == in_max(m, x, n as int),
                    v <= n,
                    kept@.len() == v,
                    forall|y: int|
                        0 <= y < v ==> #[trigger] kept@[y] == if keeps(
                            m[u as int][y] as int,
                            abs as int,
                            rel,
                            out_max(m, u as int, n as int),
                            in_max(m, y, n as int),
                        ) {
                            m[u as int][y]
                        } else {
                            0
                        },
                decreases n - v,
            {
                let w = row[v];
                let big = if outs[u] > ins[v] {
                    outs[u]
                } else {
                    ins[v]
                };
                if w > 0 && w >= abs && rel.admits(w, big) {
                    kept.push(w);
                } else {
                    kept.push(0);
                }
                v += 1;
            }
            edges.push(kept);
            u += 1;
        }
        let r = ActivityProjectionDFG { edges };
        assert(r.view().len() == n);
        assert(r.view() =~= filtered_of(m, n as nat, abs, rel)) by {
            assert forall|u: int| 0 <= u < n implies r.view()[u] =~= filtered_of(m, n as nat, abs, rel)[u] by {
                assert(edges@[u]@.len() == n);
            };
        };
        r
    }

    /// For each activity, the heaviest edge leaving it.
    fn out_maxes(&self, n: usize) -> (r: Vec<u64>)
        requires
            self.wf(n as nat),
        ensures
            r@.len() == n,
            forall|x: int| 0 <= x < n ==> r@[x] == out_max(self.view(), x, n as int),
    {
        let ghost m = self.view();
        let mut r: Vec<u64> = Vec::new();
        let mut u: usize = 0;
        while u < n
            invariant
                m == self.view(),
                square_rows(self.edges@, n as nat),
                u <= n,
                r@.len() == u,
                forall|x: int| 0 <= x < u ==> r@[x] == out_max(m, x, n as int),
            decreases n - u,
        {
            let row = &self.edges[u];
            assert(self.edges@[u as int]@.len() == n);
            assert(row@ == m[u as int]);
            let mut best: u64 = 0;
            let mut v: usize = 0;
            while v < n
                invariant
                    u < n,
                    square_rows(self.edges@, n as nat),
                    row@ == m[u as int],
                    row@.len() == n,
                    v <= n,
                    best == out_max(m, u as int, v as int),
                decreases n - v,
            {
                if row[v] > best {
                    best = row[v];
                }
                v += 1;
            }
            r.push(best);
            u += 1;
        }
        r
    }

    /// For each activity, the heaviest edge entering it.
    fn in_maxes(&self, n: usize) -> (r: Vec<u64>)
        requires
            self.wf(n as nat),
        ensures
            r@.len() == n,
            forall|x: int| 0 <= x < n ==> r@[x] == in_max(self.view(), x, n as int),
    {
        let ghost m = self.view();
        let mut r: Vec<u64> = Vec::new();
        let mut v: usize = 0;
        while v < n
            invariant
                m == self.view(),
                square_rows(self.edges@, n as nat),
                v <= n,
                r@.len() == v,
                forall|x: int| 0 <= x < v ==> r@[x] == in_max(m, x, n as int),
            decreases n - v,
        {
            let mut best: u64 = 0;
            let mut u: usize = 0;
            while u < n
                invariant
                    m == self.view(),
                    square_rows(self.edges@, n as nat),
                    v < n,
                    u <= n,
                    best == in_max(m, v as int, u as int),
                decreases n - u,
            {
                let w = self.edges[u][v];
                assert(w == m[u as int][v as int]);
                if w > best {
                    best = w;
                }
                u += 1;
            }
            r.push(best);
            v += 1;
        }
        r
    }
}

/// `e` has `n` rows of `n` cells each.
pub open spec fn square_rows(e: Seq<Vec<u64>>, n: nat) -> bool {
    e.len() == n && forall|x: int| 0 <= x < n ==> (#[trigger] e[x])@.len() == n
}

/// An `n` by `n` matrix of zeros.
fn zero_matrix(n: usize) -> (r: Vec<Vec<u64>>)
    ensures
        square_rows(r@, n as nat),
        forall|u: int, v: int| 0 <= u < n && 0 <= v < n ==> #[trigger] r@[u]@[v] == 0,
{
    let mut r: Vec<Vec<u64>> = Vec::new();
    let mut u: usize = 0;
    while u < n
        invariant
            u <= n,
            r@.len() == u,
            forall|x: int| 0 <= x < u ==> (#[trigger] r@[x])@.len() == n,
            forall|x: int, y: int| 0 <= x < u && 0 <= y < n ==> #[trigger] r@[x]@[y] == 0,
        decreases n - u,
    {
        r.push(vec![0u64; n]);
        u += 1;
    }
    r
}

/// Writes `x` into cell `(a, b)`, leaving every other cell as it was.
fn set_cell(m: &mut Vec<Vec<u64>>, a: usize, b: usize, x: u64)
    requires
        a < old(m)@.len(),
        b < old(m)@[a as int]@.len(),
    ensures
        final(m)@.len() == old(m)@.len(),
        forall|u: int| 0 <= u < old(m)@.len() ==> (#[trigger] final(m)@[u])@.len() == old(m)@[u]@.len(),
        forall|u: int, v: int|
            0 <= u < old(m)@.len() && 0 <= v < old(m)@[u]@.len() ==> #[trigger] final(m)@[u]@[v] == if u == a && v
                == b {
                x
            } else {
                old(m)@[u]@[v]
            },
{
    let mut row: Vec<u64> = Vec::new();
    std::mem::swap(&mut row, &mut m[a]);
    row.set(b, x);
    std::mem::swap(&mut row, &mut m[a]);
}

pub proof fn lemma_df_weight_nonneg(log: LogView, u: int, v: int)
    ensures
        df_weight(log, u, v) >= 0,
    decreases log.len(),
{
    if log.len() > 0 {
        lemma_df_weight_nonneg(log.drop_last(), u, v);
        let w = log.last().1;
        let p = pair_count(log.last().0, u, v);
        assert(w * p >= 0) by (nonlinear_arith) requires w >= 0, p >= 0;
    }
}

proof fn lemma_u64_product_fits(a: int, b: int)
    requires
        0 <= a <= u64::MAX,
        0 <= b <= u64::MAX,
    ensures
        0 <= a * b <= u64::MAX * u64::MAX,
{
    assert(0 <= a * b <= u64::MAX * u64::MAX) by (nonlinear_arith)
        requires 0 <= a <= u64::MAX, 0 <= b <= u64::MAX;
}

} // verus!
