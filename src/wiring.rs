use vstd::prelude::*;

use crate::candidates::CandidateView;
use crate::dfg::{df_weight, lemma_df_weight_nonneg, pair_count};
use crate::petri::{arc_transition, net_arcs, net_transitions, side_arcs, touches, is_silent_name, ArcType, PetriNet};
use crate::projection::{framed, is_first_index, reserved, with_name, LogView, END_EVENT, SILENT_ACT_PREFIX, START_EVENT};
use crate::repair::{lemma_pair_index_range, pair_index, repaired_log, repaired_trace, silent_name, silent_names};

verus! {

/// `x` names an activity that is neither the start nor the end one.
pub open spec fn plain(names: Seq<Seq<char>>, x: usize) -> bool {
    x < names.len() && !reserved(names[x as int])
}

/// The trace starts with `s`, ends with `e`, and holds only plain activities between.
pub open spec fn trace_framed(t: Seq<usize>, names: Seq<Seq<char>>, s: usize, e: usize) -> bool {
    &&& t.len() >= 2
    &&& t[0] == s
    &&& t[t.len() - 1] == e
    &&& forall|j: int| 0 < j < t.len() - 1 ==> plain(names, #[trigger] t[j])
}

/// Every trace of the log is framed by `s` and `e`.
pub open spec fn log_framed(log: LogView, names: Seq<Seq<char>>, s: usize, e: usize) -> bool {
    forall|i: int| 0 <= i < log.len() ==> trace_framed(#[trigger] log[i].0, names, s, e)
}

/// Every arc of the net ends at a transition of the net.
pub open spec fn arcs_reach_transitions(net: PetriNet) -> bool {
    forall|j: int| 0 <= j < net.arcs@.len() ==> has_transition(net, arc_transition(#[trigger] net.arcs@[j]))
}

/// The net has a transition with id `x`.
pub open spec fn has_transition(net: PetriNet, x: usize) -> bool {
    exists|i: int| 0 <= i < net.transitions@.len() && (#[trigger] net.transitions@[i]).id == x
}

/// The arc joins the place of candidate `cs[p]` with an activity of the
/// candidate's matching side other than the framing one.
pub open spec fn arc_from_side(cs: Seq<CandidateView>, s: usize, e: usize, a: ArcType) -> bool {
    match a {
        ArcType::TransitionToPlace { transition, place } => place < cs.len() && cs[place as int].0.contains(transition)
            && transition != s,
        ArcType::PlaceToTransition { place, transition } => place < cs.len() && cs[place as int].1.contains(transition)
            && transition != e,
    }
}

pub proof fn lemma_silent_not_reserved(k: nat)
    ensures
        !reserved(silent_name(k)),
{
    reveal_strlit("__START");
    reveal_strlit("__END");
    reveal_strlit("__silent_");
    assert(silent_name(k)[2] == 's');
    assert(START_EVENT@[2] == 'S');
    assert(END_EVENT@[2] == 'E');
}

pub proof fn lemma_start_end_differ()
    ensures
        START_EVENT@ != END_EVENT@,
{
    reveal_strlit("__START");
    reveal_strlit("__END");
    assert(START_EVENT@[2] != END_EVENT@[2]);
}

/// Framing a log whose traces hold only plain activities frames it by `s` and `e`.
pub proof fn lemma_framing(log: LogView, names: Seq<Seq<char>>, s: usize, e: usize)
    requires
        forall|i: int, j: int| 0 <= i < log.len() && 0 <= j < log[i].0.len() ==> plain(names, #[trigger] log[i].0[j]),
        is_first_index(with_name(with_name(names, START_EVENT@), END_EVENT@), START_EVENT@, s as int),
        is_first_index(with_name(with_name(names, START_EVENT@), END_EVENT@), END_EVENT@, e as int),
    ensures
        log_framed(framed(log, s, e), with_name(with_name(names, START_EVENT@), END_EVENT@), s, e),
{
    let n1 = with_name(with_name(names, START_EVENT@), END_EVENT@);
    assert forall|x: int| 0 <= x < names.len() implies n1[x] == names[x] by {
        assert(with_name(names, START_EVENT@)[x] == names[x]);
    };
    assert forall|i: int| 0 <= i < framed(log, s, e).len() implies trace_framed(#[trigger] framed(log, s, e)[i].0, n1, s, e) by {
        let t = log[i].0;
        let f = framed(log, s, e)[i].0;
        assert(f == seq![s] + t + seq![e]);
        assert forall|j: int| 0 < j < f.len() - 1 implies plain(n1, #[trigger] f[j]) by {
            assert(f[j] == t[j - 1]);
            assert(plain(names, log[i].0[j - 1]));
        };
    };
}

proof fn lemma_repaired_shape(t: Seq<usize>, ps: Seq<(usize, usize)>, base: int, m: Seq<Seq<char>>)
    requires
        t.len() >= 1,
        forall|j: int| 0 < j < t.len() - 1 ==> plain(m, #[trigger] t[j]),
        forall|x: usize| base <= x < base + ps.len() ==> #[trigger] plain(m, x),
        0 <= base,
        base + ps.len() <= usize::MAX,
    ensures
        repaired_trace(t, ps, base).len() >= 1,
        repaired_trace(t, ps, base)[0] == t[0],
        repaired_trace(t, ps, base).last() == t.last(),
        forall|i: int|
            0 < i < repaired_trace(t, ps, base).len() - 1 ==> plain(m, #[trigger] repaired_trace(t, ps, base)[i]),
    decreases t.len(),
{
    if t.len() >= 2 {
        let t1 = t.drop_last();
        lemma_repaired_shape(t1, ps, base, m);
        let r1 = repaired_trace(t1, ps, base);
        let r = repaired_trace(t, ps, base);
        let k = pair_index(ps, t[t.len() - 2], t[t.len() - 1]);
        lemma_pair_index_range(ps, t[t.len() - 2], t[t.len() - 1]);
        if t1.len() == 1 {
            assert(r1 == t1);
        }
        assert forall|i: int| 0 < i < r.len() - 1 implies plain(m, #[trigger] r[i]) by {
            if i < r1.len() - 1 {
                assert(r[i] == r1[i]);
            } else if i == r1.len() - 1 {
                assert(r[i] == r1.last());
                assert(r1.last() == t[t.len() - 2]);
            } else {
                assert(k >= 0);
                assert(r[i] == (base + k) as usize);
            }
        };
    }
}

/// A repair pass keeps every trace framed by `s` and `e`.
pub proof fn lemma_repair_framed(log: LogView, names: Seq<Seq<char>>, ps: Seq<(usize, usize)>, s: usize, e: usize)
    requires
        log_framed(log, names, s, e),
        s != e,
        names.len() + ps.len() <= usize::MAX,
    ensures
        log_framed(
            repaired_log(log, ps, names.len() as int),
            names + silent_names(names.len() as int, ps.len() as int),
            s,
            e,
        ),
{
    let m = names + silent_names(names.len() as int, ps.len() as int);
    let base = names.len() as int;
    assert forall|x: usize| base <= x < base + ps.len() implies #[trigger] plain(m, x) by {
        assert(m[x as int] == silent_name(x as nat));
        lemma_silent_not_reserved(x as nat);
    };
    assert forall|i: int| 0 <= i < log.len() implies trace_framed(
        #[trigger] repaired_log(log, ps, base)[i].0,
        m,
        s,
        e,
    ) by {
        let t = log[i].0;
        assert(trace_framed(t, names, s, e));
        assert forall|j: int| 0 < j < t.len() - 1 implies plain(m, #[trigger] t[j]) by {
            assert(plain(names, t[j]));
            assert(m[t[j] as int] == names[t[j] as int]);
        };
        lemma_repaired_shape(t, ps, base, m);
        let r = repaired_trace(t, ps, base);
        assert(repaired_log(log, ps, base)[i].0 == r);
        if r.len() == 1 {
            assert(r[0] == r.last());
        }
    };
}

proof fn lemma_pair_witness(t: Seq<usize>, u: int, v: int)
    requires
        pair_count(t, u, v) > 0,
    ensures
        exists|j: int| 0 <= j < t.len() - 1 && #[trigger] t[j] == u && t[j + 1] == v,
    decreases t.len(),
{
    let t1 = t.drop_last();
    if t[t.len() - 2] == u && t[t.len() - 1] == v {
        assert(t[t.len() - 2] == u && t[t.len() - 2 + 1] == v);
    } else {
        lemma_pair_witness(t1, u, v);
        let j = choose|j: int| 0 <= j < t1.len() - 1 && #[trigger] t1[j] == u && t1[j + 1] == v;
        assert(t[j] == u && t[j + 1] == v);
    }
}

proof fn lemma_df_witness(log: LogView, u: int, v: int)
    requires
        df_weight(log, u, v) > 0,
    ensures
        exists|i: int| 0 <= i < log.len() && pair_count(#[trigger] log[i].0, u, v) > 0,
    decreases log.len(),
{
    let l1 = log.drop_last();
    let w = log.last().1 as int;
    let p = pair_count(log.last().0, u, v) as int;
    if p > 0 {
        assert(pair_count(log[log.len() - 1].0, u, v) > 0);
    } else {
        assert(w * p == 0) by (nonlinear_arith) requires p == 0;
        lemma_df_witness(l1, u, v);
        let i = choose|i: int| 0 <= i < l1.len() && pair_count(#[trigger] l1[i].0, u, v) > 0;
        assert(log[i] == l1[i]);
    }
}

/// In a framed log an edge leaves the start or a plain activity, and enters
/// the end or a plain activity.
pub proof fn lemma_edge_ends(log: LogView, names: Seq<Seq<char>>, s: usize, e: usize, u: usize, v: usize)
    requires
        log_framed(log, names, s, e),
        df_weight(log, u as int, v as int) > 0,
    ensures
        u == s || plain(names, u),
        v == e || plain(names, v),
{
    lemma_df_witness(log, u as int, v as int);
    let i = choose|i: int| 0 <= i < log.len() && pair_count(#[trigger] log[i].0, u as int, v as int) > 0;
    let t = log[i].0;
    assert(trace_framed(t, names, s, e));
    lemma_pair_witness(t, u as int, v as int);
    let j = choose|j: int| 0 <= j < t.len() - 1 && #[trigger] t[j] == u && t[j + 1] == v;
    if j > 0 {
        assert(plain(names, t[j]));
    }
    if j + 1 < t.len() - 1 {
        assert(plain(names, t[j + 1]));
    }
}

proof fn lemma_side_arcs_origin(xs: Seq<usize>, p: int, skip: usize, into_place: bool)
    ensures
        forall|j: int|
            0 <= j < side_arcs(xs, p, skip, into_place).len() ==> {
                let a = #[trigger] side_arcs(xs, p, skip, into_place)[j];
                if into_place {
                    a is TransitionToPlace && a->TransitionToPlace_place == p as usize && xs.contains(
                        a->TransitionToPlace_transition,
                    ) && a->TransitionToPlace_transition != skip
                } else {
                    a is PlaceToTransition && a->PlaceToTransition_place == p as usize && xs.contains(
                        a->PlaceToTransition_transition,
                    ) && a->PlaceToTransition_transition != skip
                }
            },
    decreases xs.len(),
{
    if xs.len() > 0 {
        let x1 = xs.drop_last();
        lemma_side_arcs_origin(x1, p, skip, into_place);
        let r1 = side_arcs(x1, p, skip, into_place);
        let r = side_arcs(xs, p, skip, into_place);
        assert forall|j: int| 0 <= j < r.len() implies {
            let a = #[trigger] r[j];
            if into_place {
                a is TransitionToPlace && a->TransitionToPlace_place == p as usize && xs.contains(
                    a->TransitionToPlace_transition,
                ) && a->TransitionToPlace_transition != skip
            } else {
                a is PlaceToTransition && a->PlaceToTransition_place == p as usize && xs.contains(
                    a->PlaceToTransition_transition,
                ) && a->PlaceToTransition_transition != skip
            }
        } by {
            if j < r1.len() {
                assert(r[j] == r1[j]);
                if into_place {
                    let x = r1[j]->TransitionToPlace_transition;
                    let q = choose|q: int| 0 <= q < x1.len() && x1[q] == x;
                    assert(xs[q] == x);
                } else {
                    let x = r1[j]->PlaceToTransition_transition;
                    let q = choose|q: int| 0 <= q < x1.len() && x1[q] == x;
                    assert(xs[q] == x);
                }
            } else {
                assert(xs[xs.len() - 1] == xs.last());
            }
        };
    }
}

/// Every arc of an assembled net joins a candidate's place with an activity
/// of the matching side other than the framing one.
pub proof fn lemma_arcs_origin(cs: Seq<CandidateView>, s: usize, e: usize, k: int)
    requires
        0 <= k <= cs.len() <= usize::MAX,
    ensures
        forall|j: int| 0 <= j < net_arcs(cs, s, e, k).len() ==> arc_from_side(cs, s, e, #[trigger] net_arcs(cs, s, e, k)[j]),
    decreases k,
{
    if k > 0 {
        lemma_arcs_origin(cs, s, e, k - 1);
        let pre = net_arcs(cs, s, e, k - 1);
        let a_in = side_arcs(cs[k - 1].0, k - 1, s, true);
        let a_out = side_arcs(cs[k - 1].1, k - 1, e, false);
        lemma_side_arcs_origin(cs[k - 1].0, k - 1, s, true);
        lemma_side_arcs_origin(cs[k - 1].1, k - 1, e, false);
        let all = net_arcs(cs, s, e, k);
        assert(all == pre + a_in + a_out);
        assert forall|j: int| 0 <= j < all.len() implies arc_from_side(cs, s, e, #[trigger] all[j]) by {
            if j < pre.len() {
                assert(all[j] == pre[j]);
            } else if j < pre.len() + a_in.len() {
                assert(all[j] == a_in[j - pre.len()]);
            } else {
                assert(all[j] == a_out[j - pre.len() - a_in.len()]);
            }
        };
    }
}

/// Activity `x` has a transition labelled with its name.
pub open spec fn labelled_transition(net: PetriNet, names: Seq<Seq<char>>, x: int) -> bool {
    exists|i: int|
        0 <= i < net.transitions@.len() && (#[trigger] net.transitions@[i]).id == x && net.transitions@[i].label.is_some()
            && net.transitions@[i].label->Some_0@ == names[x]
}

/// A plain activity whose name is not silent has a labelled transition.
pub proof fn lemma_labelled_present(names: Seq<Seq<char>>, arcs: Seq<ArcType>, x: int, k: int)
    requires
        0 <= x < k <= names.len() <= usize::MAX,
        !reserved(names[x]),
        !is_silent_name(names[x]),
    ensures
        exists|i: int|
            0 <= i < net_transitions(names, arcs, k).len() && (#[trigger] net_transitions(names, arcs, k)[i]) == (
                x as usize,
                Some(names[x]),
            ),
    decreases k,
{
    let p = net_transitions(names, arcs, k - 1);
    let q = net_transitions(names, arcs, k);
    if x == k - 1 {
        assert(q[p.len() as int] == (x as usize, Some(names[x])));
    } else {
        lemma_labelled_present(names, arcs, x, k - 1);
        let i = choose|i: int| 0 <= i < p.len() && (#[trigger] p[i]) == (x as usize, Some(names[x]));
        assert(q[i] == p[i]);
    }
}

/// A plain activity that some arc touches has a transition.
pub proof fn lemma_transition_present(names: Seq<Seq<char>>, arcs: Seq<ArcType>, x: int, k: int)
    requires
        0 <= x < k <= names.len() <= usize::MAX,
        !reserved(names[x]),
        touches(arcs, x),
    ensures
        exists|i: int| 0 <= i < net_transitions(names, arcs, k).len() && (#[trigger] net_transitions(names, arcs, k)[i]).0 == x,
    decreases k,
{
    let p = net_transitions(names, arcs, k - 1);
    let q = net_transitions(names, arcs, k);
    if x == k - 1 {
        assert(q[p.len() as int].0 == x);
    } else {
        lemma_transition_present(names, arcs, x, k - 1);
        let i = choose|i: int| 0 <= i < p.len() && (#[trigger] p[i]).0 == x;
        assert(q[i] == p[i]);
    }
}

} // verus!
