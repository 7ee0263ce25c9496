use vstd::prelude::*;

use crate::candidates::{cand_view, CandidateView};
use crate::dfg::sat;
use crate::projection::{EventLogActivityProjection, LogView};
use crate::ratio::{lemma_admits_lower, Ratio};

verus! {

/// What replaying a trace on the single place `(xs, ys)` gives: the tokens
/// left, the tokens produced (occurrences of `xs`), the tokens asked for
/// (occurrences of `ys`) and the requests that found a token.
pub struct ReplayStats {
    pub tokens: nat,
    pub produced: nat,
    pub consumed: nat,
    pub hits: nat,
}

/// Replays `t` on the place `(xs, ys)`, starting without tokens. An
/// occurrence of `ys` takes a token when there is one, and counts as a miss
/// otherwise; an occurrence of `xs` puts a token.
pub open spec fn replay(t: Seq<usize>, xs: Seq<usize>, ys: Seq<usize>) -> ReplayStats
    decreases t.len(),
{
    if t.len() == 0 {
        ReplayStats { tokens: 0, produced: 0, consumed: 0, hits: 0 }
    } else {
        let s = replay(t.drop_last(), xs, ys);
        let x = t.last();
        let s1 = if ys.contains(x) {
            if s.tokens > 0 {
                ReplayStats { tokens: (s.tokens - 1) as nat, consumed: s.consumed + 1, hits: s.hits + 1, ..s }
            } else {
                ReplayStats { consumed: s.consumed + 1, ..s }
            }
        } else {
            s
        };
        if xs.contains(x) {
            ReplayStats { tokens: s1.tokens + 1, produced: s1.produced + 1, ..s1 }
        } else {
            s1
        }
    }
}

/// Which weighted total of the replay `log_total` sums.
pub enum Tally {
    Produced,
    Consumed,
    Hits,
    FittingTraces,
    Traces,
}

/// The part of trace `p` in a tally: its weight times the count, for the
/// fitting traces its weight when no request missed, for traces its weight.
pub open spec fn tally_term(p: (Seq<usize>, u64), xs: Seq<usize>, ys: Seq<usize>, k: Tally) -> int {
    let s = replay(p.0, xs, ys);
    match k {
        Tally::Produced => p.1 * s.produced,
        Tally::Consumed => p.1 * s.consumed,
        Tally::Hits => p.1 * s.hits,
        Tally::FittingTraces => if s.hits == s.consumed {
            p.1 as int
        } else {
            0
        },
        Tally::Traces => p.1 as int,
    }
}

pub open spec fn log_total(log: LogView, xs: Seq<usize>, ys: Seq<usize>, k: Tally) -> int
    decreases log.len(),
{
    if log.len() == 0 {
        0
    } else {
        log_total(log.drop_last(), xs, ys, k) + tally_term(log.last(), xs, ys, k)
    }
}

pub open spec fn min_int(a: int, b: int) -> int {
    if a < b {
        a
    } else {
        b
    }
}

pub open spec fn max_int(a: int, b: int) -> int {
    if a < b {
        b
    } else {
        a
    }
}

/// The three thresholds of pruning.
#[derive(Clone, Copy, Debug)]
pub struct PruneThresholds {
    pub balance: Ratio,
    pub fitness: Ratio,
    pub replay: Ratio,
}

/// The candidate `(xs, ys)` passes the thresholds on `log` (totals capped at
/// the largest `u64`): balance `min(P, C) / max(P, C)` of produced and
/// consumed tokens, fitness `hits / C`, and replay, the weighted share of
/// traces in which no request misses.
pub open spec fn passes(log: LogView, xs: Seq<usize>, ys: Seq<usize>, th: PruneThresholds) -> bool {
    let p = sat(log_total(log, xs, ys, Tally::Produced));
    let c = sat(log_total(log, xs, ys, Tally::Consumed));
    let h = sat(log_total(log, xs, ys, Tally::Hits));
    let f = sat(log_total(log, xs, ys, Tally::FittingTraces));
    let w = sat(log_total(log, xs, ys, Tally::Traces));
    &&& th.balance.admits_spec(min_int(p, c), max_int(p, c))
    &&& th.fitness.admits_spec(h, c)
    &&& th.replay.admits_spec(f, w)
}

/// Lowering the balance, fitness and replay thresholds keeps every
/// candidate that passed the stricter ones.
pub proof fn lemma_lower_thresholds_keep_passing(
    log: LogView,
    xs: Seq<usize>,
    ys: Seq<usize>,
    lo: PruneThresholds,
    hi: PruneThresholds,
)
    requires
        lo.balance.wf() && lo.fitness.wf() && lo.replay.wf(),
        hi.balance.wf() && hi.fitness.wf() && hi.replay.wf(),
        lo.balance.at_most(hi.balance),
        lo.fitness.at_most(hi.fitness),
        lo.replay.at_most(hi.replay),
        passes(log, xs, ys, hi),
    ensures
        passes(log, xs, ys, lo),
{
    lemma_log_total_nonneg(log, xs, ys, Tally::Produced);
    lemma_log_total_nonneg(log, xs, ys, Tally::Consumed);
    lemma_log_total_nonneg(log, xs, ys, Tally::Hits);
    lemma_log_total_nonneg(log, xs, ys, Tally::FittingTraces);
    lemma_log_total_nonneg(log, xs, ys, Tally::Traces);
    let p = sat(log_total(log, xs, ys, Tally::Produced));
    let c = sat(log_total(log, xs, ys, Tally::Consumed));
    let h = sat(log_total(log, xs, ys, Tally::Hits));
    let f = sat(log_total(log, xs, ys, Tally::FittingTraces));
    let w = sat(log_total(log, xs, ys, Tally::Traces));
    lemma_admits_lower(lo.balance, hi.balance, min_int(p, c), max_int(p, c));
    lemma_admits_lower(lo.fitness, hi.fitness, h, c);
    lemma_admits_lower(lo.replay, hi.replay, f, w);
}

/// Lowering the thresholds keeps every candidate that survived the stricter
/// ones among the survivors (before maximal candidates are chosen).
pub proof fn lemma_lower_thresholds_keep_survivors(
    log: LogView,
    cs: Seq<CandidateView>,
    lo: PruneThresholds,
    hi: PruneThresholds,
    k: int,
)
    requires
        lo.balance.wf() && lo.fitness.wf() && lo.replay.wf(),
        hi.balance.wf() && hi.fitness.wf() && hi.replay.wf(),
        lo.balance.at_most(hi.balance),
        lo.fitness.at_most(hi.fitness),
        lo.replay.at_most(hi.replay),
        k <= cs.len(),
    ensures
        forall|i: int|
            0 <= i < surviving(log, cs, hi, k).len() ==> surviving(log, cs, lo, k).contains(
                #[trigger] surviving(log, cs, hi, k)[i],
            ),
    decreases k,
{
    if k > 0 {
        lemma_lower_thresholds_keep_survivors(log, cs, lo, hi, k - 1);
        let ph = surviving(log, cs, hi, k - 1);
        let pl = surviving(log, cs, lo, k - 1);
        let qh = surviving(log, cs, hi, k);
        let ql = surviving(log, cs, lo, k);
        if passes(log, cs[k - 1].0, cs[k - 1].1, hi) {
            lemma_lower_thresholds_keep_passing(log, cs[k - 1].0, cs[k - 1].1, lo, hi);
        }
        assert forall|i: int| 0 <= i < qh.len() implies ql.contains(#[trigger] qh[i]) by {
            if i < ph.len() {
                assert(qh[i] == ph[i]);
                let j = choose|j: int| 0 <= j < pl.len() && pl[j] == ph[i];
                assert(ql[j] == pl[j]);
            } else {
                assert(qh[i] == cs[k - 1]);
                assert(ql[ql.len() - 1] == cs[k - 1]);
            }
        };
    }
}

/// With the balance threshold at one, a candidate that passes produces as
/// many tokens as it consumes (totals capped at the largest `u64`).
pub proof fn lemma_full_balance(log: LogView, xs: Seq<usize>, ys: Seq<usize>, th: PruneThresholds)
    requires
        th.balance.den > 0,
        th.balance.num == th.balance.den,
        passes(log, xs, ys, th),
    ensures
        sat(log_total(log, xs, ys, Tally::Produced)) == sat(log_total(log, xs, ys, Tally::Consumed)),
{
    let p = sat(log_total(log, xs, ys, Tally::Produced));
    let c = sat(log_total(log, xs, ys, Tally::Consumed));
    let lo = min_int(p, c);
    let hi = max_int(p, c);
    let d = th.balance.den as int;
    assert(lo * d >= d * hi);
    assert(lo >= hi) by (nonlinear_arith)
        requires lo * d >= d * hi, d > 0;
}

/// Every candidate that pruning selects passes the thresholds.
pub proof fn lemma_selected_pass(log: LogView, cs: Seq<CandidateView>, th: PruneThresholds)
    ensures
        forall|i: int|
            0 <= i < selected(log, cs, th).len() ==> passes(
                log,
                (#[trigger] selected(log, cs, th)[i]).0,
                selected(log, cs, th)[i].1,
                th,
            ),
{
    lemma_surviving_pass(log, cs, th, cs.len() as int);
    let s = surviving(log, cs, th, cs.len() as int);
    lemma_undominated_within(s, s.len() as int);
    assert forall|i: int| 0 <= i < selected(log, cs, th).len() implies passes(
        log,
        (#[trigger] selected(log, cs, th)[i]).0,
        selected(log, cs, th)[i].1,
        th,
    ) by {
        let x = selected(log, cs, th)[i];
        let j = choose|j: int| 0 <= j < s.len() && s[j] == x;
    };
}

proof fn lemma_surviving_pass(log: LogView, cs: Seq<CandidateView>, th: PruneThresholds, k: int)
    requires
        k <= cs.len(),
    ensures
        forall|i: int|
            0 <= i < surviving(log, cs, th, k).len() ==> passes(
                log,
                (#[trigger] surviving(log, cs, th, k)[i]).0,
                surviving(log, cs, th, k)[i].1,
                th,
            ),
    decreases k,
{
    if k > 0 {
        lemma_surviving_pass(log, cs, th, k - 1);
        let p = surviving(log, cs, th, k - 1);
        let q = surviving(log, cs, th, k);
        assert forall|i: int| 0 <= i < q.len() implies passes(log, (#[trigger] q[i]).0, q[i].1, th) by {
            if i < p.len() {
                assert(q[i] == p[i]);
            }
        };
    }
}

proof fn lemma_undominated_within(cs: Seq<CandidateView>, k: int)
    requires
        k <= cs.len(),
    ensures
        forall|i: int|
            0 <= i < undominated(cs, k).len() ==> exists|j: int| 0 <= j < cs.len() && cs[j] == #[trigger] undominated(cs, k)[i],
    decreases k,
{
    if k > 0 {
        lemma_undominated_within(cs, k - 1);
        let p = undominated(cs, k - 1);
        let q = undominated(cs, k);
        assert forall|i: int| 0 <= i < q.len() implies exists|j: int| 0 <= j < cs.len() && cs[j] == #[trigger] q[i] by {
            if i < p.len() {
                assert(q[i] == p[i]);
                let j = choose|j: int| 0 <= j < cs.len() && cs[j] == p[i];
            } else {
                assert(cs[k - 1] == q[i]);
            }
        };
    }
}

/// Every activity of `xs` is in `ys`.
pub open spec fn subset(xs: Seq<usize>, ys: Seq<usize>) -> bool {
    forall|i: int| 0 <= i < xs.len() ==> ys.contains(#[trigger] xs[i])
}

/// `d` contains `c` on both sides and differs from it.
pub open spec fn strictly_contains(d: CandidateView, c: CandidateView) -> bool {
    subset(c.0, d.0) && subset(c.1, d.1) && d != c
}

/// Some candidate of `cs` strictly contains `c`.
pub open spec fn dominated(cs: Seq<CandidateView>, c: CandidateView) -> bool {
    exists|j: int| 0 <= j < cs.len() && strictly_contains(cs[j], c)
}

/// The candidates among the first `k` of `cs` that pass the thresholds.
pub open spec fn surviving(log: LogView, cs: Seq<CandidateView>, th: PruneThresholds, k: int) -> Seq<
    CandidateView,
>
    decreases k,
{
    if k <= 0 {
        seq![]
    } else {
        let p = surviving(log, cs, th, k - 1);
        if passes(log, cs[k - 1].0, cs[k - 1].1, th) {
            p.push(cs[k - 1])
        } else {
            p
        }
    }
}

/// The first `k` of `cs` that no candidate of `cs` strictly contains.
pub open spec fn undominated(cs: Seq<CandidateView>, k: int) -> Seq<CandidateView>
    decreases k,
{
    if k <= 0 {
        seq![]
    } else {
        let p = undominated(cs, k - 1);
        if dominated(cs, cs[k - 1]) {
            p
        } else {
            p.push(cs[k - 1])
        }
    }
}

/// What pruning selects: the maximal ones among the candidates that pass.
pub open spec fn selected(log: LogView, cs: Seq<CandidateView>, th: PruneThresholds) -> Seq<CandidateView> {
    let s = surviving(log, cs, th, cs.len() as int);
    undominated(s, s.len() as int)
}

pub open spec fn views(cs: Seq<(Vec<usize>, Vec<usize>)>) -> Seq<CandidateView> {
    cs.map_values(|c: (Vec<usize>, Vec<usize>)| cand_view(c))
}

fn contains(v: &Vec<usize>, x: usize) -> (r: bool)
    ensures
        r == v@.contains(x),
{
    let mut i: usize = 0;
    while i < v.len()
        invariant
            i <= v@.len(),
            forall|q: int| 0 <= q < i ==> v@[q] != x,
        decreases v@.len() - i,
    {
        if v[i] == x {
            assert(v@[i as int] == x);
            return true;
        }
        i += 1;
    }
    false
}

/// The replay of `t` on the place `(xs, ys)`.
fn trace_stats(t: &Vec<usize>, xs: &Vec<usize>, ys: &Vec<usize>) -> (r: (usize, usize, usize, usize))
    ensures
        r.0 == replay(t@, xs@, ys@).tokens,
        r.1 == replay(t@, xs@, ys@).produced,
        r.2 == replay(t@, xs@, ys@).consumed,
        r.3 == replay(t@, xs@, ys@).hits,
{
    let mut tok: usize = 0;
    let mut prod: usize = 0;
    let mut cons: usize = 0;
    let mut hits: usize = 0;
    let mut j: usize = 0;
    while j < t.len()
        invariant
            j <= t@.len(),
            tok <= j,
            prod <= j,
            cons <= j,
            hits <= j,
            tok == replay(t@.subrange(0, j as int), xs@, ys@).tokens,
            prod == replay(t@.subrange(0, j as int), xs@, ys@).produced,
            cons == replay(t@.subrange(0, j as int), xs@, ys@).consumed,
            hits == replay(t@.subrange(0, j as int), xs@, ys@).hits,
        decreases t@.len() - j,
    {
        let x = t[j];
        assert(t@.subrange(0, j + 1).drop_last() == t@.subrange(0, j as int));
        assert(t@.subrange(0, j + 1).last() == x);
        if contains(ys, x) {
            cons += 1;
            if tok > 0 {
                tok -= 1;
                hits += 1;
            }
        }
        if contains(xs, x) {
            tok += 1;
            prod += 1;
        }
        j += 1;
    }
    assert(t@.subrange(0, t@.len() as int) == t@);
    (tok, prod, cons, hits)
}

/// `w * c`, capped at the largest `u64`.
fn capped_product(w: u64, c: usize) -> (r: u64)
    ensures
        r == sat(w * c),
{
    proof {
        let a = w as int;
        let b = c as int;
        assert(b <= u64::MAX);
        assert(a * b <= u64::MAX * u64::MAX) by (nonlinear_arith)
            requires 0 <= a <= u64::MAX, 0 <= b <= u64::MAX;
    }
    let p = (w as u128) * (c as u128);
    if p > 0xffff_ffff_ffff_ffffu128 {
        0xffff_ffff_ffff_ffffu64
    } else {
        p as u64
    }
}

proof fn lemma_log_total_nonneg(log: LogView, xs: Seq<usize>, ys: Seq<usize>, k: Tally)
    ensures
        log_total(log, xs, ys, k) >= 0,
    decreases log.len(),
{
    if log.len() > 0 {
        lemma_log_total_nonneg(log.drop_last(), xs, ys, k);
        lemma_term_nonneg(log.last(), xs, ys, k);
    }
}

proof fn lemma_term_nonneg(p: (Seq<usize>, u64), xs: Seq<usize>, ys: Seq<usize>, k: Tally)
    ensures
        tally_term(p, xs, ys, k) >= 0,
{
    let s = replay(p.0, xs, ys);
    let w = p.1 as int;
    assert(w * s.produced >= 0 && w * s.consumed >= 0 && w * s.hits >= 0) by (nonlinear_arith)
        requires w >= 0, s.produced >= 0, s.consumed >= 0, s.hits >= 0;
}

/// The capped weighted totals of the replay of `(xs, ys)` on the log, in
/// the order produced, consumed, hits, fitting traces, traces.
fn replay_totals(proj: &EventLogActivityProjection, xs: &Vec<usize>, ys: &Vec<usize>) -> (r: (
    u64,
    u64,
    u64,
    u64,
    u64,
))
    ensures
        r.0 == sat(log_total(proj.log(), xs@, ys@, Tally::Produced)),
        r.1 == sat(log_total(proj.log(), xs@, ys@, Tally::Consumed)),
        r.2 == sat(log_total(proj.log(), xs@, ys@, Tally::Hits)),
        r.3 == sat(log_total(proj.log(), xs@, ys@, Tally::FittingTraces)),
        r.4 == sat(log_total(proj.log(), xs@, ys@, Tally::Traces)),
{
    let ghost log = proj.log();
    let mut p: u64 = 0;
    let mut c: u64 = 0;
    let mut h: u64 = 0;
    let mut f: u64 = 0;
    let mut w: u64 = 0;
    let mut i: usize = 0;
    while i < proj.traces.len()
        invariant
            log == proj.log(),
            i <= log.len(),
            p == sat(log_total(log.subrange(0, i as int), xs@, ys@, Tally::Produced)),
            c == sat(log_total(log.subrange(0, i as int), xs@, ys@, Tally::Consumed)),
            h == sat(log_total(log.subrange(0, i as int), xs@, ys@, Tally::Hits)),
            f == sat(log_total(log.subrange(0, i as int), xs@, ys@, Tally::FittingTraces)),
            w == sat(log_total(log.subrange(0, i as int), xs@, ys@, Tally::Traces)),
        decreases log.len() - i,
    {
        let t = &proj.traces[i].0;
        let tw = proj.traces[i].1;
        let s = trace_stats(t, xs, ys);
        let ghost pre = log.subrange(0, i as int);
        let ghost cur = log.subrange(0, i + 1);
        proof {
            assert(cur.drop_last() == pre);
            assert(cur.last() == log[i as int]);
            assert(log[i as int].0 == t@);
            lemma_log_total_nonneg(pre, xs@, ys@, Tally::Produced);
            lemma_log_total_nonneg(pre, xs@, ys@, Tally::Consumed);
            lemma_log_total_nonneg(pre, xs@, ys@, Tally::Hits);
            lemma_log_total_nonneg(pre, xs@, ys@, Tally::FittingTraces);
            lemma_log_total_nonneg(pre, xs@, ys@, Tally::Traces);
            lemma_term_nonneg(log[i as int], xs@, ys@, Tally::Produced);
            lemma_term_nonneg(log[i as int], xs@, ys@, Tally::Consumed);
            lemma_term_nonneg(log[i as int], xs@, ys@, Tally::Hits);
        }
        p = p.saturating_add(capped_product(tw, s.1));
        c = c.saturating_add(capped_product(tw, s.2));
        h = h.saturating_add(capped_product(tw, s.3));
        if s.2 == s.3 {
            f = f.saturating_add(tw);
        }
        w = w.saturating_add(tw);
        i += 1;
    }
    assert(log.subrange(0, log.len() as int) == log);
    (p, c, h, f, w)
}

/// Whether the candidate `(xs, ys)` passes the three thresholds on the log.
pub fn passes_thresholds(proj: &EventLogActivityProjection, xs: &Vec<usize>, ys: &Vec<usize>, th: PruneThresholds) -> (r:
    bool)
    ensures
        r == passes(proj.log(), xs@, ys@, th),
{
    let (p, c, h, f, w) = replay_totals(proj, xs, ys);
    let lo = if p < c {
        p
    } else {
        c
    };
    let hi = if p < c {
        c
    } else {
        p
    };
    th.balance.admits(lo, hi) && th.fitness.admits(h, c) && th.replay.admits(f, w)
}

fn is_subset(xs: &Vec<usize>, ys: &Vec<usize>) -> (r: bool)
    ensures
        r == subset(xs@, ys@),
{
    let mut i: usize = 0;
    while i < xs.len()
        invariant
            i <= xs@.len(),
            forall|q: int| 0 <= q < i ==> ys@.contains(#[trigger] xs@[q]),
        decreases xs@.len() - i,
    {
        if !contains(ys, xs[i]) {
            return false;
        }
        i += 1;
    }
    true
}

fn same_seq(xs: &Vec<usize>, ys: &Vec<usize>) -> (r: bool)
    ensures
        r == (xs@ == ys@),
{
    if xs.len() != ys.len() {
        return false;
    }
    let mut i: usize = 0;
    while i < xs.len()
        invariant
            xs@.len() == ys@.len(),
            i <= xs@.len(),
            forall|q: int| 0 <= q < i ==> xs@[q] == ys@[q],
        decreases xs@.len() - i,
    {
        if xs[i] != ys[i] {
            return false;
        }
        i += 1;
    }
    assert(xs@ =~= ys@);
    true
}

/// Whether some candidate of `cs` strictly contains `cs[k]`.
fn is_dominated(cs: &Vec<(Vec<usize>, Vec<usize>)>, k: usize) -> (r: bool)
    requires
        k < cs@.len(),
    ensures
        r == dominated(views(cs@), cand_view(cs@[k as int])),
{
    let ghost vs = views(cs@);
    let c = &cs[k];
    let mut j: usize = 0;
    while j < cs.len()
        invariant
            vs == views(cs@),
            c == cs@[k as int],
            j <= cs@.len(),
            forall|q: int| 0 <= q < j ==> !strictly_contains(vs[q], cand_view(*c)),
        decreases cs@.len() - j,
    {
        let d = &cs[j];
        assert(vs[j as int] == cand_view(*d));
        if is_subset(&c.0, &d.0) && is_subset(&c.1, &d.1) && !(same_seq(&c.0, &d.0) && same_seq(&c.1, &d.1)) {
            assert(strictly_contains(vs[j as int], cand_view(*c)));
            return true;
        }
        j += 1;
    }
    false
}

fn copy_candidate(c: &(Vec<usize>, Vec<usize>)) -> (r: (Vec<usize>, Vec<usize>))
    ensures
        cand_view(r) == cand_view(*c),
{
    let mut a: Vec<usize> = Vec::new();
    let mut i: usize = 0;
    while i < c.0.len()
        invariant
            i <= c.0@.len(),
            a@ == c.0@.subrange(0, i as int),
        decreases c.0@.len() - i,
    {
        a.push(c.0[i]);
        assert(c.0@.subrange(0, i + 1) == c.0@.subrange(0, i as int).push(c.0@[i as int]));
        i += 1;
    }
    let mut b: Vec<usize> = Vec::new();
    let mut j: usize = 0;
    while j < c.1.len()
        invariant
            j <= c.1@.len(),
            b@ == c.1@.subrange(0, j as int),
        decreases c.1@.len() - j,
    {
        b.push(c.1[j]);
        assert(c.1@.subrange(0, j + 1) == c.1@.subrange(0, j as int).push(c.1@[j as int]));
        j += 1;
    }
    assert(c.0@.subrange(0, c.0@.len() as int) == c.0@);
    assert(c.1@.subrange(0, c.1@.len() as int) == c.1@);
    (a, b)
}

/// Keeps the candidates that pass the balance, fitness and replay
/// thresholds on the log, then of those the maximal ones: a candidate goes
/// when another survivor contains it on both sides. The order is kept.
pub fn prune_candidates(
    cnds: &Vec<(Vec<usize>, Vec<usize>)>,
    th: PruneThresholds,
    proj: &EventLogActivityProjection,
) -> (r: Vec<(Vec<usize>, Vec<usize>)>)
    ensures
        views(r@) == selected(proj.log(), views(cnds@), th),
{
    let ghost cs = views(cnds@);
    let mut surv: Vec<(Vec<usize>, Vec<usize>)> = Vec::new();
    let mut i: usize = 0;
    while i < cnds.len()
        invariant
            cs == views(cnds@),
            i <= cnds@.len(),
            views(surv@) == surviving(proj.log(), cs, th, i as int),
        decreases cnds@.len() - i,
    {
        let ghost before = surv@;
        if passes_thresholds(proj, &cnds[i].0, &cnds[i].1, th) {
            let c = copy_candidate(&cnds[i]);
            surv.push(c);
            assert(views(surv@) =~= views(before).push(cs[i as int]));
        }
        i += 1;
    }
    let ghost sv = views(surv@);
    let mut r: Vec<(Vec<usize>, Vec<usize>)> = Vec::new();
    let mut k: usize = 0;
    while k < surv.len()
        invariant
            sv == views(surv@),
            k <= surv@.len(),
            views(r@) == undominated(sv, k as int),
        decreases surv@.len() - k,
    {
        let ghost before = r@;
        if !is_dominated(&surv, k) {
            let c = copy_candidate(&surv[k]);
            r.push(c);
            assert(views(r@) =~= views(before).push(sv[k as int]));
        }
        k += 1;
    }
    r
}

} // verus!
