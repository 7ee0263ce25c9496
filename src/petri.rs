use vstd::prelude::*;

use crate::candidates::CandidateView;
use crate::projection::{END_EVENT, SILENT_ACT_PREFIX, START_EVENT};

verus! {

/// A transition; `id` is the index of the activity it stands for, and a
/// transition without a label is silent.
pub struct Transition {
    pub id: usize,
    pub label: Option<String>,
}

/// A directed arc between a transition and a place (places are numbered).
pub enum ArcType {
    TransitionToPlace { transition: usize, place: usize },
    PlaceToTransition { place: usize, transition: usize },
}

/// A labelled Petri net with places `0 .. places`. A marking lists pairs of
/// a place and its token count; a place that is not listed holds none.
pub struct PetriNet {
    pub transitions: Vec<Transition>,
    pub places: usize,
    pub arcs: Vec<ArcType>,
    pub initial_marking: Vec<(usize, u64)>,
    pub final_marking: Vec<(usize, u64)>,
}

pub open spec fn label_view(l: Option<String>) -> Option<Seq<char>> {
    match l {
        Some(s) => Some(s@),
        None => None,
    }
}

pub open spec fn transition_view(t: Transition) -> (usize, Option<Seq<char>>) {
    (t.id, label_view(t.label))
}

pub open spec fn arc_transition(a: ArcType) -> usize {
    match a {
        ArcType::TransitionToPlace { transition, .. } => transition,
        ArcType::PlaceToTransition { transition, .. } => transition,
    }
}

pub open spec fn arc_place(a: ArcType) -> usize {
    match a {
        ArcType::TransitionToPlace { place, .. } => place,
        ArcType::PlaceToTransition { place, .. } => place,
    }
}

/// The name begins with the silent prefix.
pub open spec fn is_silent_name(nm: Seq<char>) -> bool {
    SILENT_ACT_PREFIX@.len() <= nm.len() && nm.subrange(0, SILENT_ACT_PREFIX@.len() as int) == SILENT_ACT_PREFIX@
}

/// Some arc of `arcs` has transition `t` at one end.
pub open spec fn touches(arcs: Seq<ArcType>, t: int) -> bool {
    exists|i: int| 0 <= i < arcs.len() && arc_transition(arcs[i]) == t
}

/// Some arc of `arcs` has place `p` at one end.
pub open spec fn place_has_arc(arcs: Seq<ArcType>, p: int) -> bool {
    exists|i: int| 0 <= i < arcs.len() && arc_place(arcs[i]) == p
}

pub open spec fn marks_place(m: Seq<(usize, u64)>, p: int) -> bool {
    exists|i: int| 0 <= i < m.len() && m[i].0 == p
}

/// The arcs between place `p` and the activities of `xs` other than `skip`:
/// into the place when `into_place`, out of it otherwise.
pub open spec fn side_arcs(xs: Seq<usize>, p: int, skip: usize, into_place: bool) -> Seq<ArcType>
    decreases xs.len(),
{
    if xs.len() == 0 {
        seq![]
    } else {
        let r = side_arcs(xs.drop_last(), p, skip, into_place);
        if xs.last() == skip {
            r
        } else if into_place {
            r.push(ArcType::TransitionToPlace { transition: xs.last(), place: p as usize })
        } else {
            r.push(ArcType::PlaceToTransition { place: p as usize, transition: xs.last() })
        }
    }
}

/// The arcs of the places of the first `k` candidates, place by place.
pub open spec fn net_arcs(cs: Seq<CandidateView>, s: usize, e: usize, k: int) -> Seq<ArcType>
    decreases k,
{
    if k <= 0 {
        seq![]
    } else {
        net_arcs(cs, s, e, k - 1) + side_arcs(cs[k - 1].0, k - 1, s, true) + side_arcs(cs[k - 1].1, k - 1, e, false)
    }
}

pub open spec fn occurrences(xs: Seq<usize>, x: usize) -> nat
    decreases xs.len(),
{
    if xs.len() == 0 {
        0
    } else {
        occurrences(xs.drop_last(), x) + if xs.last() == x {
            1nat
        } else {
            0nat
        }
    }
}

pub open spec fn side(c: CandidateView, inputs: bool) -> Seq<usize> {
    if inputs {
        c.0
    } else {
        c.1
    }
}

/// The marking that puts, on the place of each of the first `k` candidates
/// whose chosen side holds `x`, as many tokens as `x` occurs there.
pub open spec fn marking_of(cs: Seq<CandidateView>, x: usize, inputs: bool, k: int) -> Seq<(usize, u64)>
    decreases k,
{
    if k <= 0 {
        seq![]
    } else {
        let m = marking_of(cs, x, inputs, k - 1);
        let sd = side(cs[k - 1], inputs);
        if sd.contains(x) {
            m.push(((k - 1) as usize, occurrences(sd, x) as u64))
        } else {
            m
        }
    }
}

/// How many of the first `k` candidates hold `x` on the chosen side.
pub open spec fn count_holding(cs: Seq<CandidateView>, x: usize, inputs: bool, k: int) -> nat
    decreases k,
{
    if k <= 0 {
        0
    } else {
        count_holding(cs, x, inputs, k - 1) + if side(cs[k - 1], inputs).contains(x) {
            1nat
        } else {
            0nat
        }
    }
}

/// The transitions of the first `k` activities: none for the start and end
/// activities, none for a silent activity that no arc touches, and else one
/// labelled with the name unless the name is silent.
pub open spec fn net_transitions(names: Seq<Seq<char>>, arcs: Seq<ArcType>, k: int) -> Seq<
    (usize, Option<Seq<char>>),
>
    decreases k,
{
    if k <= 0 {
        seq![]
    } else {
        let p = net_transitions(names, arcs, k - 1);
        let nm = names[k - 1];
        if nm == START_EVENT@ || nm == END_EVENT@ || (is_silent_name(nm) && !touches(arcs, k - 1)) {
            p
        } else {
            p.push(
                (
                    (k - 1) as usize,
                    if is_silent_name(nm) {
                        None
                    } else {
                        Some(nm)
                    },
                ),
            )
        }
    }
}

impl PetriNet {
    pub open spec fn transitions_view(&self) -> Seq<(usize, Option<Seq<char>>)> {
        self.transitions@.map_values(|t: Transition| transition_view(t))
    }

    /// The net built from the activity names `names`, the start and end
    /// activities `s` and `e`, and the selected candidates `cs`.
    pub open spec fn is_assembled(&self, names: Seq<Seq<char>>, s: usize, e: usize, cs: Seq<CandidateView>) -> bool {
        &&& self.places == cs.len()
        &&& self.arcs@ == net_arcs(cs, s, e, cs.len() as int)
        &&& self.initial_marking@ == marking_of(cs, s, true, cs.len() as int)
        &&& self.final_marking@ == marking_of(cs, e, false, cs.len() as int)
        &&& self.transitions_view() == net_transitions(names, self.arcs@, names.len() as int)
    }

    /// Every place has an arc or holds tokens in the initial or final marking.
    pub open spec fn places_used(&self) -> bool {
        forall|p: int|
            0 <= p < self.places ==> place_has_arc(self.arcs@, p) || marks_place(self.initial_marking@, p)
                || marks_place(self.final_marking@, p)
    }

    /// Every silent transition has an arc.
    pub open spec fn no_isolated_silent(&self) -> bool {
        forall|i: int|
            0 <= i < self.transitions@.len() ==> (#[trigger] self.transitions@[i]).label.is_some() || touches(
                self.arcs@,
                self.transitions@[i].id as int,
            )
    }
}

/// Relies on `str::starts_with`: whether `p` is a prefix of `s`.
#[verifier::external_body]
fn has_prefix(s: &str, p: &str) -> (r: bool)
    ensures
        r == (p@.len() <= s@.len() && s@.subrange(0, p@.len() as int) == p@),
{
    s.starts_with(p)
}

proof fn lemma_side_arcs_has(xs: Seq<usize>, p: int, skip: usize, into_place: bool, j: int)
    requires
        0 <= j < xs.len(),
        xs[j] != skip,
    ensures
        exists|i: int|
            0 <= i < side_arcs(xs, p, skip, into_place).len() && arc_place(side_arcs(xs, p, skip, into_place)[i])
                == p as usize,
    decreases xs.len(),
{
    let r = side_arcs(xs.drop_last(), p, skip, into_place);
    if j == xs.len() - 1 {
        let full = side_arcs(xs, p, skip, into_place);
        assert(arc_place(full[full.len() - 1]) == p as usize);
    } else {
        lemma_side_arcs_has(xs.drop_last(), p, skip, into_place, j);
        let i = choose|i: int| 0 <= i < r.len() && arc_place(r[i]) == p as usize;
        assert(side_arcs(xs, p, skip, into_place)[i] == r[i]);
    }
}

proof fn lemma_net_arcs_prefix(cs: Seq<CandidateView>, s: usize, e: usize, k: int, k2: int)
    requires
        0 <= k <= k2,
    ensures
        net_arcs(cs, s, e, k).len() <= net_arcs(cs, s, e, k2).len(),
        forall|i: int| 0 <= i < net_arcs(cs, s, e, k).len() ==> net_arcs(cs, s, e, k2)[i] == net_arcs(cs, s, e, k)[i],
    decreases k2 - k,
{
    if k < k2 {
        lemma_net_arcs_prefix(cs, s, e, k, k2 - 1);
    }
}

proof fn lemma_marking_prefix(cs: Seq<CandidateView>, x: usize, inputs: bool, k: int, k2: int)
    requires
        0 <= k <= k2,
    ensures
        marking_of(cs, x, inputs, k).len() <= marking_of(cs, x, inputs, k2).len(),
        forall|i: int|
            0 <= i < marking_of(cs, x, inputs, k).len() ==> marking_of(cs, x, inputs, k2)[i] == marking_of(
                cs,
                x,
                inputs,
                k,
            )[i],
    decreases k2 - k,
{
    if k < k2 {
        lemma_marking_prefix(cs, x, inputs, k, k2 - 1);
    }
}

/// The number of places that a marking built this way lists is the number
/// of candidates holding the activity on the chosen side.
pub proof fn lemma_marking_size(cs: Seq<CandidateView>, x: usize, inputs: bool, k: int)
    ensures
        marking_of(cs, x, inputs, k).len() == count_holding(cs, x, inputs, k),
    decreases k,
{
    if k > 0 {
        lemma_marking_size(cs, x, inputs, k - 1);
    }
}

/// Every place of an assembled net has an arc or tokens in a marking, as
/// each candidate has an activity on its input side.
pub proof fn lemma_places_used(cs: Seq<CandidateView>, s: usize, e: usize, p: int)
    requires
        0 <= p < cs.len() <= usize::MAX,
        cs[p].0.len() > 0,
    ensures
        place_has_arc(net_arcs(cs, s, e, cs.len() as int), p) || marks_place(marking_of(cs, s, true, cs.len() as int), p),
{
    let a = cs[p].0[0];
    lemma_net_arcs_prefix(cs, s, e, p + 1, cs.len() as int);
    lemma_marking_prefix(cs, s, true, p + 1, cs.len() as int);
    if a == s {
        assert(cs[p].0.contains(s));
        assert(side(cs[p], true) == cs[p].0);
        let m = marking_of(cs, s, true, p + 1);
        assert(m == marking_of(cs, s, true, p).push((p as usize, occurrences(cs[p].0, s) as u64)));
        assert(m[m.len() - 1].0 == p);
        assert(marking_of(cs, s, true, cs.len() as int)[m.len() - 1] == m[m.len() - 1]);
    } else {
        lemma_side_arcs_has(cs[p].0, p, s, true, 0);
        let sa = side_arcs(cs[p].0, p, s, true);
        let i = choose|i: int| 0 <= i < sa.len() && arc_place(sa[i]) == p as usize;
        let pre = net_arcs(cs, s, e, p);
        let upto = net_arcs(cs, s, e, p + 1);
        assert(upto == pre + sa + side_arcs(cs[p].1, p, e, false));
        assert(upto[pre.len() + i] == sa[i]);
        assert(net_arcs(cs, s, e, cs.len() as int)[pre.len() + i] == sa[i]);
    }
}

fn push_side_arcs(arcs: &mut Vec<ArcType>, xs: &Vec<usize>, p: usize, skip: usize, into_place: bool)
    ensures
        final(arcs)@ == old(arcs)@ + side_arcs(xs@, p as int, skip, into_place),
{
    let ghost a0 = arcs@;
    let mut j: usize = 0;
    while j < xs.len()
        invariant
            j <= xs@.len(),
            arcs@ == a0 + side_arcs(xs@.subrange(0, j as int), p as int, skip, into_place),
        decreases xs@.len() - j,
    {
        let ghost sub = xs@.subrange(0, j + 1);
        assert(sub.drop_last() == xs@.subrange(0, j as int));
        let x = xs[j];
        if x != skip {
            if into_place {
                arcs.push(ArcType::TransitionToPlace { transition: x, place: p });
            } else {
                arcs.push(ArcType::PlaceToTransition { place: p, transition: x });
            }
        }
        j += 1;
    }
    assert(xs@.subrange(0, xs@.len() as int) == xs@);
}

fn count_in(xs: &Vec<usize>, x: usize) -> (r: u64)
    ensures
        r == occurrences(xs@, x),
{
    let mut c: usize = 0;
    let mut j: usize = 0;
    while j < xs.len()
        invariant
            j <= xs@.len(),
            c <= j,
            c == occurrences(xs@.subrange(0, j as int), x),
        decreases xs@.len() - j,
    {
        assert(xs@.subrange(0, j + 1).drop_last() == xs@.subrange(0, j as int));
        if xs[j] == x {
            c += 1;
        }
        j += 1;
    }
    assert(xs@.subrange(0, xs@.len() as int) == xs@);
    assert(c <= u64::MAX);
    c as u64
}

fn arcs_touch(arcs: &Vec<ArcType>, t: usize) -> (r: bool)
    ensures
        r == touches(arcs@, t as int),
{
    let mut i: usize = 0;
    while i < arcs.len()
        invariant
            i <= arcs@.len(),
            forall|q: int| 0 <= q < i ==> arc_transition(arcs@[q]) != t,
        decreases arcs@.len() - i,
    {
        let hit = match &arcs[i] {
            ArcType::TransitionToPlace { transition, .. } => *transition == t,
            ArcType::PlaceToTransition { transition, .. } => *transition == t,
        };
        if hit {
            assert(arc_transition(arcs@[i as int]) == t);
            return true;
        }
        i += 1;
    }
    false
}

/// Builds the net: one place per selected candidate `(A, B)`, with an arc
/// from each activity of `A` other than `start` into it and from it to each
/// activity of `B` other than `end`; a token on it initially for each
/// `start` in `A` and finally for each `end` in `B`; then a transition for
/// each activity but the start and end ones, silent when its name has the
/// silent prefix, with the silent ones that no arc touches left out.
pub fn build_net(names: &Vec<String>, start: usize, end: usize, sel: &Vec<(Vec<usize>, Vec<usize>)>) -> (r: PetriNet)
    ensures
        r.is_assembled(
            names@.map_values(|s: String| s@),
            start,
            end,
            sel@.map_values(|c: (Vec<usize>, Vec<usize>)| (c.0@, c.1@)),
        ),
{
    let ghost cs = sel@.map_values(|c: (Vec<usize>, Vec<usize>)| (c.0@, c.1@));
    let ghost nms = names@.map_values(|s: String| s@);
    let mut arcs: Vec<ArcType> = Vec::new();
    let mut im: Vec<(usize, u64)> = Vec::new();
    let mut fm: Vec<(usize, u64)> = Vec::new();
    let mut p: usize = 0;
    while p < sel.len()
        invariant
            cs == sel@.map_values(|c: (Vec<usize>, Vec<usize>)| (c.0@, c.1@)),
            p <= sel@.len(),
            arcs@ == net_arcs(cs, start, end, p as int),
            im@ == marking_of(cs, start, true, p as int),
            fm@ == marking_of(cs, end, false, p as int),
        decreases sel@.len() - p,
    {
        let a = &sel[p].0;
        let b = &sel[p].1;
        assert(cs[p as int] == (a@, b@));
        push_side_arcs(&mut arcs, a, p, start, true);
        push_side_arcs(&mut arcs, b, p, end, false);
        let ci = count_in(a, start);
        if ci > 0 {
            assert(a@.contains(start)) by {
                if !a@.contains(start) {
                    lemma_absent_no_occurrence(a@, start);
                }
            };
            im.push((p, ci));
        } else {
            proof {
                lemma_occurrence_of_member(a@, start);
            }
        }
        let co = count_in(b, end);
        if co > 0 {
            assert(b@.contains(end)) by {
                if !b@.contains(end) {
                    lemma_absent_no_occurrence(b@, end);
                }
            };
            fm.push((p, co));
        } else {
            proof {
                lemma_occurrence_of_member(b@, end);
            }
        }
        p += 1;
    }
    let mut transitions: Vec<Transition> = Vec::new();
    let ghost av = arcs@;
    let mut k: usize = 0;
    while k < names.len()
        invariant
            nms == names@.map_values(|s: String| s@),
            av == arcs@,
            k <= names@.len(),
            transitions@.map_values(|t: Transition| transition_view(t)) == net_transitions(nms, av, k as int),
        decreases names@.len() - k,
    {
        let nm = &names[k];
        assert(nms[k as int] == nm@);
        let is_start = *nm == START_EVENT.to_owned();
        let is_end = *nm == END_EVENT.to_owned();
        let ghost before = transitions@;
        if !is_start && !is_end {
            let silent = has_prefix(nm.as_str(), SILENT_ACT_PREFIX);
            if !silent {
                transitions.push(Transition { id: k, label: Some(nm.clone()) });
                assert(transitions@.map_values(|t: Transition| transition_view(t)) =~= before.map_values(
                    |t: Transition| transition_view(t),
                ).push((k, Some(nm@))));
            } else if arcs_touch(&arcs, k) {
                transitions.push(Transition { id: k, label: None });
                assert(transitions@.map_values(|t: Transition| transition_view(t)) =~= before.map_values(
                    |t: Transition| transition_view(t),
                ).push((k, None)));
            }
        }
        k += 1;
    }
    PetriNet { transitions, places: sel.len(), arcs, initial_marking: im, final_marking: fm }
}

proof fn lemma_absent_no_occurrence(xs: Seq<usize>, x: usize)
    requires
        !xs.contains(x),
    ensures
        occurrences(xs, x) == 0,
    decreases xs.len(),
{
    if xs.len() > 0 {
        assert(!xs.drop_last().contains(x)) by {
            if xs.drop_last().contains(x) {
                let i = choose|i: int| 0 <= i < xs.drop_last().len() && xs.drop_last()[i] == x;
                assert(xs[i] == x);
            }
        };
        lemma_absent_no_occurrence(xs.drop_last(), x);
        assert(xs.last() != x) by {
            if xs.last() == x {
                assert(xs[xs.len() - 1] == x);
            }
        };
    }
}

proof fn lemma_occurrence_of_member(xs: Seq<usize>, x: usize)
    ensures
        xs.contains(x) ==> occurrences(xs, x) > 0,
    decreases xs.len(),
{
    if xs.len() > 0 && xs.contains(x) {
        if xs.last() != x {
            let i = choose|i: int| 0 <= i < xs.len() && xs[i] == x;
            assert(xs.drop_last()[i] == x);
            lemma_occurrence_of_member(xs.drop_last(), x);
        }
    }
}

} // verus!
