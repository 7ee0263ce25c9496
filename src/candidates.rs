use vstd::prelude::*;

use crate::dfg::ActivityProjectionDFG;

verus! {

/// A place candidate `(A, B)` seen as two sequences of activity indices.
pub type CandidateView = (Seq<usize>, Seq<usize>);

pub open spec fn cand_view(c: (Vec<usize>, Vec<usize>)) -> CandidateView {
    (c.0@, c.1@)
}

pub open spec fn edge(m: Seq<Seq<u64>>, a: int, b: int) -> bool {
    m[a][b] > 0
}

/// Every activity of `xs` is directly followed by every activity of `ys`.
pub open spec fn all_follow(m: Seq<Seq<u64>>, xs: Seq<usize>, ys: Seq<usize>) -> bool {
    forall|i: int, j: int| 0 <= i < xs.len() && 0 <= j < ys.len() ==> edge(m, xs[i] as int, ys[j] as int)
}

/// No activity of `xs` directly follows one of `xs` (itself included).
pub open spec fn unrelated(m: Seq<Seq<u64>>, xs: Seq<usize>) -> bool {
    forall|i: int, j: int| 0 <= i < xs.len() && 0 <= j < xs.len() ==> !edge(m, xs[i] as int, xs[j] as int)
}

pub open spec fn disjoint(xs: Seq<usize>, ys: Seq<usize>) -> bool {
    forall|i: int, j: int| 0 <= i < xs.len() && 0 <= j < ys.len() ==> xs[i] != ys[j]
}

pub open spec fn increasing(xs: Seq<usize>) -> bool {
    forall|i: int, j: int| 0 <= i < j < xs.len() ==> xs[i] < xs[j]
}

pub open spec fn below(xs: Seq<usize>, n: int) -> bool {
    forall|i: int| 0 <= i < xs.len() ==> xs[i] < n
}

/// `(xs, ys)` is a place candidate of the graph `m` over `n` activities:
/// both sides non-empty, sorted, disjoint, each side free of edges within
/// itself, and every activity of `xs` directly followed by every one of `ys`.
pub open spec fn is_candidate(m: Seq<Seq<u64>>, n: int, xs: Seq<usize>, ys: Seq<usize>) -> bool {
    &&& xs.len() > 0
    &&& ys.len() > 0
    &&& below(xs, n)
    &&& below(ys, n)
    &&& increasing(xs)
    &&& increasing(ys)
    &&& all_follow(m, xs, ys)
    &&& unrelated(m, xs)
    &&& unrelated(m, ys)
    &&& disjoint(xs, ys)
}

pub open spec fn all_candidates(m: Seq<Seq<u64>>, n: int, cs: Seq<(Vec<usize>, Vec<usize>)>) -> bool {
    forall|i: int| 0 <= i < cs.len() ==> is_candidate(m, n, #[trigger] cs[i].0@, cs[i].1@)
}

fn copy_vec(v: &Vec<usize>) -> (r: Vec<usize>)
    ensures
        r@ == v@,
{
    let mut r: Vec<usize> = Vec::new();
    let mut i: usize = 0;
    while i < v.len()
        invariant
            i <= v@.len(),
            r@ == v@.subrange(0, i as int),
        decreases v@.len() - i,
    {
        r.push(v[i]);
        assert(v@.subrange(0, i + 1) == v@.subrange(0, i as int).push(v@[i as int]));
        i += 1;
    }
    assert(v@.subrange(0, v@.len() as int) == v@);
    r
}

impl ActivityProjectionDFG {
    fn has_edge(&self, n: usize, a: usize, b: usize) -> (r: bool)
        requires
            self.wf(n as nat),
            a < n,
            b < n,
        ensures
            r == edge(self.view(), a as int, b as int),
    {
        assert(self.edges@[a as int]@.len() == n);
        self.edges[a][b] > 0
    }

    /// Whether `k` can join `side` while `other` stays on the far side (see `joinable`).
    fn can_join(&self, n: usize, side: &Vec<usize>, other: &Vec<usize>, k: usize, forward: bool) -> (r: bool)
        requires
            self.wf(n as nat),
            below(side@, n as int),
            below(other@, n as int),
            k < n,
        ensures
            r == joinable(self.view(), side@, other@, k, forward),
    {
        let ghost m = self.view();
        if self.has_edge(n, k, k) {
            return false;
        }
        let mut i: usize = 0;
        while i < side.len()
            invariant
                m == self.view(),
                self.wf(n as nat),
                below(side@, n as int),
                k < n,
                i <= side@.len(),
                forall|q: int|
                    0 <= q < i ==> side@[q] != k && !edge(m, side@[q] as int, k as int) && !edge(
                        m,
                        k as int,
                        side@[q] as int,
                    ),
            decreases side@.len() - i,
        {
            let x = side[i];
            if x == k || self.has_edge(n, x, k) || self.has_edge(n, k, x) {
                return false;
            }
            i += 1;
        }
        let mut j: usize = 0;
        while j < other.len()
            invariant
                m == self.view(),
                self.wf(n as nat),
                below(other@, n as int),
                k < n,
                j <= other@.len(),
                forall|q: int| 0 <= q < j ==> other@[q] != k && if forward {
                    edge(m, k as int, other@[q] as int)
                } else {
                    edge(m, other@[q] as int, k as int)
                },
            decreases other@.len() - j,
        {
            let y = other[j];
            if y == k {
                return false;
            }
            let linked = if forward {
                self.has_edge(n, k, y)
            } else {
                self.has_edge(n, y, k)
            };
            if !linked {
                return false;
            }
            j += 1;
        }
        true
    }

    /// Grows the candidate `(a, b)` by activities from `next` on, each added
    /// behind the last one of its side, and appends every candidate reached:
    /// each candidate that extends `(a, b)` by such activities ends up listed.
    fn grow(
        &self,
        n: usize,
        a: &mut Vec<usize>,
        b: &mut Vec<usize>,
        next: usize,
        out: &mut Vec<(Vec<usize>, Vec<usize>)>,
    )
        requires
            self.wf(n as nat),
            is_candidate(self.view(), n as int, old(a)@, old(b)@),
            next <= n,
            all_candidates(self.view(), n as int, old(out)@),
        ensures
            final(a)@ == old(a)@,
            final(b)@ == old(b)@,
            all_candidates(self.view(), n as int, final(out)@),
            final(out)@.len() >= old(out)@.len(),
            forall|i: int| 0 <= i < old(out)@.len() ==> final(out)@[i] == old(out)@[i],
            forall|xs: Seq<usize>, ys: Seq<usize>|
                #![trigger is_candidate(self.view(), n as int, xs, ys)]
                is_candidate(self.view(), n as int, xs, ys) && extends(old(a)@, old(b)@, next as int, xs, ys) && (xs, ys)
                    != (old(a)@, old(b)@) ==> listed(final(out)@, xs, ys),
        decreases n - next,
    {
        let ghost m = self.view();
        let ghost a0 = a@;
        let ghost b0 = b@;
        let ghost out0 = out@;
        let mut k: usize = next;
        while k < n
            invariant
                m == self.view(),
                self.wf(n as nat),
                a@ == a0,
                b@ == b0,
                is_candidate(m, n as int, a0, b0),
                next <= k <= n,
                all_candidates(m, n as int, out@),
                out@.len() >= out0.len(),
                forall|i: int| 0 <= i < out0.len() ==> out@[i] == out0[i],
                forall|xs: Seq<usize>, ys: Seq<usize>|
                    #![trigger is_candidate(m, n as int, xs, ys)]
                    is_candidate(m, n as int, xs, ys) && extends(a0, b0, next as int, xs, ys) && (xs, ys) != (a0, b0)
                        && first_extra_below(a0, b0, xs, ys, k as int) ==> listed(out@, xs, ys),
            decreases n - k,
        {
            let ghost out_start = out@;
            let la = a[a.len() - 1];
            let join_a = k > la && self.can_join(n, a, b, k, true);
            if join_a {
                a.push(k);
                proof {
                    let xs = a@;
                    assert(xs == a0.push(k));
                    assert forall|i: int| 0 <= i < a0.len() implies a0[i] <= la by {
                        if i < a0.len() - 1 {
                            assert(a0[i] < a0[a0.len() - 1]);
                        }
                    };
                    assert(is_candidate(m, n as int, xs, b0));
                }
                let ca = copy_vec(a);
                let cb = copy_vec(b);
                let ghost before = out@;
                out.push((ca, cb));
                assert(out@ == before.push((ca, cb)));
                let ghost pushed = out@;
                self.grow(n, a, b, k + 1, out);
                a.pop();
                assert(a@ == a0);
                proof {
                    assert(out@[before.len() as int] == pushed[before.len() as int]);
                    assert(cand_view(out@[before.len() as int]) == (a0.push(k), b0));
                }
            }
            let ghost out_mid = out@;
            let lb = b[b.len() - 1];
            let join_b = k > lb && self.can_join(n, b, a, k, false);
            if join_b {
                b.push(k);
                proof {
                    let ys = b@;
                    assert(ys == b0.push(k));
                    assert forall|i: int| 0 <= i < b0.len() implies b0[i] <= lb by {
                        if i < b0.len() - 1 {
                            assert(b0[i] < b0[b0.len() - 1]);
                        }
                    };
                    assert(is_candidate(m, n as int, a0, ys));
                }
                let ca = copy_vec(a);
                let cb = copy_vec(b);
                let ghost before = out@;
                out.push((ca, cb));
                assert(out@ == before.push((ca, cb)));
                let ghost pushed = out@;
                self.grow(n, a, b, k + 1, out);
                b.pop();
                assert(b@ == b0);
                proof {
                    assert(out@[before.len() as int] == pushed[before.len() as int]);
                    assert(cand_view(out@[before.len() as int]) == (a0, b0.push(k)));
                }
            }
            proof {
                assert forall|xs: Seq<usize>, ys: Seq<usize>|
                    #![trigger is_candidate(m, n as int, xs, ys)]
                    is_candidate(m, n as int, xs, ys) && extends(a0, b0, next as int, xs, ys) && (xs, ys) != (a0, b0)
                        && first_extra_below(a0, b0, xs, ys, k + 1) implies listed(out@, xs, ys) by {
                    if first_extra_below(a0, b0, xs, ys, k as int) {
                        lemma_listed_kept(out_start, out@, xs, ys);
                    } else if xs.len() > a0.len() && xs[a0.len() as int] == k {
                        lemma_extension_joins(m, n as int, a0, b0, next as int, xs, ys, k as int, true);
                        assert(join_a);
                        if (xs, ys) != (a0.push(k), b0) {
                            lemma_extends_step(a0, b0, next as int, xs, ys, k as int, true);
                        }
                        lemma_listed_kept(out_mid, out@, xs, ys);
                    } else {
                        assert(ys.len() > b0.len() && ys[b0.len() as int] == k);
                        lemma_extension_joins(m, n as int, a0, b0, next as int, xs, ys, k as int, false);
                        assert(join_b);
                        if (xs, ys) != (a0, b0.push(k)) {
                            lemma_extends_step(a0, b0, next as int, xs, ys, k as int, false);
                        }
                    }
                };
            }
            k += 1;
        }
        proof {
            assert forall|xs: Seq<usize>, ys: Seq<usize>|
                #![trigger is_candidate(m, n as int, xs, ys)]
                is_candidate(m, n as int, xs, ys) && extends(a0, b0, next as int, xs, ys) && (xs, ys) != (a0, b0)
                    implies first_extra_below(a0, b0, xs, ys, n as int) by {
                if xs.len() == a0.len() && ys.len() == b0.len() {
                    assert(xs == xs.subrange(0, a0.len() as int));
                    assert(ys == ys.subrange(0, b0.len() as int));
                }
            };
        }
    }
}

/// `k` may join `side` while `other` stays on the far side: `k` is new to
/// both, has no edge with `side` (nor onto itself), and is linked to every
/// activity of `other` in the direction `forward` gives (from `k` when
/// `forward`, into `k` otherwise).
pub open spec fn joinable(m: Seq<Seq<u64>>, side: Seq<usize>, other: Seq<usize>, k: usize, forward: bool) -> bool {
    &&& !edge(m, k as int, k as int)
    &&& forall|i: int|
        0 <= i < side.len() ==> side[i] != k && !edge(m, side[i] as int, k as int) && !edge(m, k as int, side[i] as int)
    &&& forall|j: int| 0 <= j < other.len() ==> other[j] != k && if forward {
        edge(m, k as int, other[j] as int)
    } else {
        edge(m, other[j] as int, k as int)
    }
}

/// `(xs, ys)` is listed in `cs`.
pub open spec fn listed(cs: Seq<(Vec<usize>, Vec<usize>)>, xs: Seq<usize>, ys: Seq<usize>) -> bool {
    exists|i: int| 0 <= i < cs.len() && cand_view(#[trigger] cs[i]) == (xs, ys)
}

/// `(xs, ys)` starts with `(a, b)` and everything beyond is at least `next`.
pub open spec fn extends(a: Seq<usize>, b: Seq<usize>, next: int, xs: Seq<usize>, ys: Seq<usize>) -> bool {
    &&& a.len() <= xs.len()
    &&& b.len() <= ys.len()
    &&& xs.subrange(0, a.len() as int) == a
    &&& ys.subrange(0, b.len() as int) == b
    &&& forall|i: int| a.len() <= i < xs.len() ==> xs[i] >= next
    &&& forall|j: int| b.len() <= j < ys.len() ==> ys[j] >= next
}

/// The first activity beyond `(a, b)` on one of the two sides is below `k`.
pub open spec fn first_extra_below(a: Seq<usize>, b: Seq<usize>, xs: Seq<usize>, ys: Seq<usize>, k: int) -> bool {
    (xs.len() > a.len() && xs[a.len() as int] < k) || (ys.len() > b.len() && ys[b.len() as int] < k)
}

proof fn lemma_listed_kept(
    old_cs: Seq<(Vec<usize>, Vec<usize>)>,
    cs: Seq<(Vec<usize>, Vec<usize>)>,
    xs: Seq<usize>,
    ys: Seq<usize>,
)
    requires
        listed(old_cs, xs, ys),
        old_cs.len() <= cs.len(),
        forall|i: int| 0 <= i < old_cs.len() ==> cs[i] == old_cs[i],
    ensures
        listed(cs, xs, ys),
{
    let i = choose|i: int| 0 <= i < old_cs.len() && cand_view(#[trigger] old_cs[i]) == (xs, ys);
    assert(cs[i] == old_cs[i]);
}

/// When the first activity beyond `(a, b)` in a candidate is `k`, on the
/// input side when `in_a`, then `k` may join that side.
proof fn lemma_extension_joins(
    m: Seq<Seq<u64>>,
    n: int,
    a: Seq<usize>,
    b: Seq<usize>,
    next: int,
    xs: Seq<usize>,
    ys: Seq<usize>,
    k: int,
    in_a: bool,
)
    requires
        is_candidate(m, n, xs, ys),
        is_candidate(m, n, a, b),
        extends(a, b, next, xs, ys),
        in_a ==> xs.len() > a.len() && xs[a.len() as int] == k,
        !in_a ==> ys.len() > b.len() && ys[b.len() as int] == k,
    ensures
        in_a ==> k > a[a.len() - 1] && joinable(m, a, b, k as usize, true),
        !in_a ==> k > b[b.len() - 1] && joinable(m, b, a, k as usize, false),
{
    assert forall|i: int| 0 <= i < a.len() implies a[i] == xs[i] by {
        assert(xs.subrange(0, a.len() as int)[i] == xs[i]);
    };
    assert forall|j: int| 0 <= j < b.len() implies b[j] == ys[j] by {
        assert(ys.subrange(0, b.len() as int)[j] == ys[j]);
    };
    let p = a.len() as int;
    let q = b.len() as int;
    if in_a {
        assert(xs[p - 1] < xs[p]);
        assert(!edge(m, xs[p] as int, xs[p] as int));
        assert forall|j: int| 0 <= j < b.len() implies b[j] != k && edge(m, k, b[j] as int) by {
            assert(ys[j] == b[j]);
            assert(xs[p] != ys[j]);
            assert(edge(m, xs[p] as int, ys[j] as int));
        };
        assert forall|i: int| 0 <= i < a.len() implies a[i] != k && !edge(m, a[i] as int, k) && !edge(m, k, a[i] as int) by {
            assert(xs[i] < xs[p]);
            assert(!edge(m, xs[i] as int, xs[p] as int));
            assert(!edge(m, xs[p] as int, xs[i] as int));
        };
    } else {
        assert(ys[q - 1] < ys[q]);
        assert(!edge(m, ys[q] as int, ys[q] as int));
        assert forall|i: int| 0 <= i < a.len() implies a[i] != k && edge(m, a[i] as int, k) by {
            assert(xs[i] == a[i]);
            assert(xs[i] != ys[q]);
            assert(edge(m, xs[i] as int, ys[q] as int));
        };
        assert forall|j: int| 0 <= j < b.len() implies b[j] != k && !edge(m, b[j] as int, k) && !edge(m, k, b[j] as int) by {
            assert(ys[j] < ys[q]);
            assert(!edge(m, ys[j] as int, ys[q] as int));
            assert(!edge(m, ys[q] as int, ys[j] as int));
        };
    }
}

/// A candidate whose first activity beyond `(a, b)` is `k` (on the input
/// side when `in_a`) extends `(a, b)` with `k` added, by activities above `k`.
proof fn lemma_extends_step(a: Seq<usize>, b: Seq<usize>, next: int, xs: Seq<usize>, ys: Seq<usize>, k: int, in_a: bool)
    requires
        increasing(xs),
        increasing(ys),
        disjoint(xs, ys),
        extends(a, b, next, xs, ys),
        !first_extra_below(a, b, xs, ys, k),
        in_a ==> xs.len() > a.len() && xs[a.len() as int] == k,
        !in_a ==> ys.len() > b.len() && ys[b.len() as int] == k,
    ensures
        in_a ==> extends(a.push(k as usize), b, k + 1, xs, ys),
        !in_a ==> extends(a, b.push(k as usize), k + 1, xs, ys),
{
    let p = a.len() as int;
    let q = b.len() as int;
    if in_a {
        assert(xs.subrange(0, p + 1) =~= a.push(k as usize)) by {
            assert forall|i: int| 0 <= i < p implies xs.subrange(0, p + 1)[i] == a[i] by {
                assert(xs.subrange(0, p)[i] == xs[i]);
            };
        };
        assert forall|j: int| q <= j < ys.len() implies ys[j] >= k + 1 by {
            assert(ys[q] >= k);
            assert(ys[q] != xs[p]);
            if j > q {
                assert(ys[q] < ys[j]);
            }
        };
        assert forall|i: int| p + 1 <= i < xs.len() implies xs[i] >= k + 1 by {
            assert(xs[p] < xs[i]);
        };
    } else {
        assert(ys.subrange(0, q + 1) =~= b.push(k as usize)) by {
            assert forall|j: int| 0 <= j < q implies ys.subrange(0, q + 1)[j] == b[j] by {
                assert(ys.subrange(0, q)[j] == ys[j]);
            };
        };
        assert forall|i: int| p <= i < xs.len() implies xs[i] >= k + 1 by {
            assert(xs[p] >= k);
            assert(xs[p] != ys[q]);
            if i > p {
                assert(xs[p] < xs[i]);
            }
        };
        assert forall|j: int| q + 1 <= j < ys.len() implies ys[j] >= k + 1 by {
            assert(ys[q] < ys[j]);
        };
    }
}

/// Enumerates the place candidates of the graph over `n` activities: each
/// pair `({a}, {b})` that is a candidate, grown by activities above its two
/// seeds while it stays a candidate. Every candidate of the graph is listed.
pub fn build_candidates(dfg: &ActivityProjectionDFG, n: usize) -> (r: Vec<(Vec<usize>, Vec<usize>)>)
    requires
        dfg.wf(n as nat),
    ensures
        all_candidates(dfg.view(), n as int, r@),
        forall|xs: Seq<usize>, ys: Seq<usize>|
            #![trigger is_candidate(dfg.view(), n as int, xs, ys)]
            is_candidate(dfg.view(), n as int, xs, ys) ==> listed(r@, xs, ys),
{
    let ghost m = dfg.view();
    let mut out: Vec<(Vec<usize>, Vec<usize>)> = Vec::new();
    let mut x: usize = 0;
    while x < n
        invariant
            m == dfg.view(),
            dfg.wf(n as nat),
            x <= n,
            all_candidates(m, n as int, out@),
            forall|xs: Seq<usize>, ys: Seq<usize>|
                #![trigger is_candidate(m, n as int, xs, ys)]
                is_candidate(m, n as int, xs, ys) && xs[0] < x ==> listed(out@, xs, ys),
        decreases n - x,
    {
        let mut y: usize = 0;
        while y < n
            invariant
                m == dfg.view(),
                dfg.wf(n as nat),
                x < n,
                y <= n,
                all_candidates(m, n as int, out@),
                forall|xs: Seq<usize>, ys: Seq<usize>|
                    #![trigger is_candidate(m, n as int, xs, ys)]
                    is_candidate(m, n as int, xs, ys) && (xs[0] < x || (xs[0] == x && ys[0] < y)) ==> listed(
                        out@,
                        xs,
                        ys,
                    ),
            decreases n - y,
        {
            let ghost out_start = out@;
            if x != y && dfg.has_edge(n, x, y) && !dfg.has_edge(n, x, x) && !dfg.has_edge(n, y, y) {
                let mut a: Vec<usize> = Vec::new();
                a.push(x);
                let mut b: Vec<usize> = Vec::new();
                b.push(y);
                assert(a@ == seq![x]);
                assert(b@ == seq![y]);
                assert(is_candidate(m, n as int, a@, b@));
                let ghost before = out@;
                out.push((copy_vec(&a), copy_vec(&b)));
                let ghost at = before.len() as int;
                assert(cand_view(out@[at]) == (seq![x], seq![y]));
                let start = if x < y {
                    x + 1
                } else {
                    y + 1
                };
                let ghost mid = out@;
                dfg.grow(n, &mut a, &mut b, start, &mut out);
                assert(cand_view(out@[at]) == (seq![x], seq![y]));
                assert forall|xs: Seq<usize>, ys: Seq<usize>|
                    #![trigger is_candidate(m, n as int, xs, ys)]
                    is_candidate(m, n as int, xs, ys) && (xs[0] < x || (xs[0] == x && ys[0] < y + 1)) implies listed(
                        out@,
                        xs,
                        ys,
                    ) by {
                    if xs[0] < x || ys[0] < y {
                        lemma_listed_kept(out_start, out@, xs, ys);
                    } else if (xs, ys) == (seq![x], seq![y]) {
                        assert(cand_view(out@[at]) == (xs, ys));
                    } else {
                        lemma_extends_seeds(xs, ys, start as int);
                    }
                };
            } else {
                assert forall|xs: Seq<usize>, ys: Seq<usize>|
                    #![trigger is_candidate(m, n as int, xs, ys)]
                    is_candidate(m, n as int, xs, ys) && (xs[0] < x || (xs[0] == x && ys[0] < y + 1)) implies listed(
                        out@,
                        xs,
                        ys,
                    ) by {
                    if xs[0] == x && ys[0] == y {
                        assert(edge(m, xs[0] as int, ys[0] as int));
                        assert(!edge(m, xs[0] as int, xs[0] as int));
                        assert(!edge(m, ys[0] as int, ys[0] as int));
                        assert(xs[0] != ys[0]);
                    }
                };
            }
            y += 1;
        }
        assert forall|xs: Seq<usize>, ys: Seq<usize>|
            #![trigger is_candidate(m, n as int, xs, ys)]
            is_candidate(m, n as int, xs, ys) && xs[0] < x + 1 implies listed(out@, xs, ys) by {
            assert(ys[0] < n);
        };
        x += 1;
    }
    assert forall|xs: Seq<usize>, ys: Seq<usize>|
        #![trigger is_candidate(m, n as int, xs, ys)]
        is_candidate(m, n as int, xs, ys) implies listed(out@, xs, ys) by {
        assert(xs[0] < n);
    };
    out
}

/// A candidate extends its two first activities by activities above the
/// smaller of them.
proof fn lemma_extends_seeds(xs: Seq<usize>, ys: Seq<usize>, start: int)
    requires
        xs.len() > 0,
        ys.len() > 0,
        increasing(xs),
        increasing(ys),
        start == (if xs[0] < ys[0] {
            xs[0] + 1
        } else {
            ys[0] + 1
        }),
    ensures
        extends(seq![xs[0]], seq![ys[0]], start, xs, ys),
{
    assert(xs.subrange(0, 1) =~= seq![xs[0]]);
    assert(ys.subrange(0, 1) =~= seq![ys[0]]);
    assert forall|i: int| 1 <= i < xs.len() implies xs[i] >= start by {
        assert(xs[0] < xs[i]);
    };
    assert forall|j: int| 1 <= j < ys.len() implies ys[j] >= start by {
        assert(ys[0] < ys[j]);
    };
}

} // verus!
