use vstd::prelude::*;

use crate::candidates::{all_candidates, build_candidates, cand_view, edge, is_candidate, listed, CandidateView};
use crate::dfg::{df_weight, lemma_df_weight_nonneg, dfg_of, filtered_of, sat, scaled_mean_ceil, total_edges, total_weight, ActivityProjectionDFG};
use crate::petri::{
    build_net, count_holding, is_silent_name, lemma_marking_size, lemma_places_used, net_transitions, touches, transition_view,
    arc_transition, ArcType, PetriNet,
};
use crate::order::{lemma_strictly_sorted_unique, sort_candidates, strictly_sorted};
use crate::projection::{
    add_start_end_acts_proj, framed, is_first_index, with_name, EventLogActivityProjection, LogView, END_EVENT,
    SILENT_ACT_PREFIX, START_EVENT,
};
use crate::pruning::{lemma_full_balance, lemma_selected_pass, log_total, Tally, prune_candidates, selected, surviving, undominated, views, PruneThresholds};
use crate::ratio::Ratio;
use crate::projection::reserved;
use crate::wiring::{has_transition, labelled_transition, lemma_labelled_present, log_framed, 
    arc_from_side, arcs_reach_transitions, lemma_arcs_origin, lemma_edge_ends, lemma_framing, lemma_repair_framed,
    lemma_start_end_differ, lemma_transition_present,
};
use crate::repair::{
    add_artificial_acts_for_loops, add_artificial_acts_for_skips, marked_pairs, repaired_projection, silent_name,
    silent_names,
};

verus! {

/// Settings of discovery. The balance, fitness and replay thresholds and the
/// relative cleaning threshold are fractions in `[0, 1]`; the two repair
/// factors scale the mean edge weight of the graph.
#[derive(Clone, Copy, Debug)]
pub struct AlphaPPPConfig {
    pub balance_thresh: Ratio,
    pub fitness_thresh: Ratio,
    pub replay_thresh: Ratio,
    pub log_repair_skip_df_thresh_rel: Ratio,
    pub log_repair_loop_df_thresh_rel: Ratio,
    pub absolute_df_clean_thresh: u64,
    pub relative_df_clean_thresh: Ratio,
}

impl AlphaPPPConfig {
    pub open spec fn is_valid(&self) -> bool {
        &&& self.balance_thresh.is_unit()
        &&& self.fitness_thresh.is_unit()
        &&& self.replay_thresh.is_unit()
        &&& self.relative_df_clean_thresh.is_unit()
        &&& self.log_repair_skip_df_thresh_rel.wf()
        &&& self.log_repair_loop_df_thresh_rel.wf()
    }

    /// Checks the thresholds' ranges.
    pub fn check(&self) -> (r: bool)
        ensures
            r == self.is_valid(),
    {
        self.balance_thresh.den > 0 && self.balance_thresh.num <= self.balance_thresh.den && self.fitness_thresh.den
            > 0 && self.fitness_thresh.num <= self.fitness_thresh.den && self.replay_thresh.den > 0
            && self.replay_thresh.num <= self.replay_thresh.den && self.relative_df_clean_thresh.den > 0
            && self.relative_df_clean_thresh.num <= self.relative_df_clean_thresh.den
            && self.log_repair_skip_df_thresh_rel.den > 0 && self.log_repair_loop_df_thresh_rel.den > 0
    }

    pub open spec fn thresholds(&self) -> PruneThresholds {
        PruneThresholds { balance: self.balance_thresh, fitness: self.fitness_thresh, replay: self.replay_thresh }
    }
}

/// Why discovery could not run.
#[derive(Clone, Copy, Debug, PartialEq, Eq, Structural)]
pub enum DiscoveryError {
    /// No trace, or no directly-follows edge once traces are framed.
    EmptyLog,
    /// A threshold lies outside its range.
    InvalidConfig,
    /// A trace holds an index with no activity, or the start or end activity.
    InconsistentProjection,
}

/// What discovery produces: the net, with the repaired projection, the
/// start and end activities, and the candidates built and selected.
pub struct Discovery {
    pub net: PetriNet,
    pub repaired: EventLogActivityProjection,
    pub start_idx: usize,
    pub end_idx: usize,
    pub added_for_loops: Vec<String>,
    pub added_for_skips: Vec<String>,
    pub candidates: Vec<(Vec<usize>, Vec<usize>)>,
    pub selected: Vec<(Vec<usize>, Vec<usize>)>,
}

/// `ceil(rel * mean edge weight)` of the framed log's graph.
pub open spec fn repair_threshold_of(names: Seq<Seq<char>>, log: LogView, rel: Ratio) -> int {
    let m1 = dfg_of(log, names.len());
    scaled_mean_ceil(rel, sat(total_weight(m1, names.len() as int)), sat(total_edges(m1, names.len() as int)))
}

/// The names and traces after loop repair of the framed names and log.
pub open spec fn looped_input(names: Seq<Seq<char>>, log: LogView, cfg: AlphaPPPConfig) -> (
    Seq<Seq<char>>,
    LogView,
) {
    let n1 = names.len();
    let thr_loop = repair_threshold_of(names, log, cfg.log_repair_loop_df_thresh_rel);
    repaired_projection(names, log, marked_pairs(true, dfg_of(log, n1), n1 as int, thr_loop, n1 as int))
}

/// The names and traces after loop repair and then skip repair of the
/// framed names `names` and log `log`; both thresholds come from the mean
/// edge weight of the framed log's graph.
pub open spec fn repaired_input(names: Seq<Seq<char>>, log: LogView, cfg: AlphaPPPConfig) -> (
    Seq<Seq<char>>,
    LogView,
) {
    let looped = looped_input(names, log, cfg);
    let n2 = looped.0.len();
    let thr_skip = repair_threshold_of(names, log, cfg.log_repair_skip_df_thresh_rel);
    repaired_projection(looped.0, looped.1, marked_pairs(false, dfg_of(looped.1, n2), n2 as int, thr_skip, n2 as int))
}

/// The graph that candidates are built on: the repaired log's graph, filtered.
pub open spec fn cleaned_graph(names: Seq<Seq<char>>, log: LogView, cfg: AlphaPPPConfig) -> Seq<Seq<u64>> {
    filtered_of(dfg_of(log, names.len()), names.len(), cfg.absolute_df_clean_thresh, cfg.relative_df_clean_thresh)
}

/// Whether the framed log has no directly-follows edge.
pub open spec fn no_edges(names: Seq<Seq<char>>, log: LogView) -> bool {
    total_edges(dfg_of(log, names.len()), names.len() as int) == 0
}

/// The full outcome on the input: the start and end activities are the first
/// of their names in the framed names; the projection is the framed one
/// after loop and skip repair, and the added names are those each pass
/// appended; the candidates are exactly those of the
/// cleaned graph, each once, in lexicographic order; the
/// selection is what pruning keeps of them; the net is assembled from it.
pub open spec fn discovered(
    d: Discovery,
    names: Seq<Seq<char>>,
    log: LogView,
    cfg: AlphaPPPConfig,
) -> bool {
    let names1 = with_name(with_name(names, START_EVENT@), END_EVENT@);
    let log1 = framed(log, d.start_idx, d.end_idx);
    let looped = looped_input(names1, log1, cfg);
    let rep = repaired_input(names1, log1, cfg);
    let g = cleaned_graph(rep.0, rep.1, cfg);
    let n3 = rep.0.len() as int;
    &&& is_first_index(names1, START_EVENT@, d.start_idx as int)
    &&& d_added_names(d.added_for_loops@) == looped.0.subrange(names1.len() as int, looped.0.len() as int)
    &&& d_added_names(d.added_for_skips@) == rep.0.subrange(looped.0.len() as int, rep.0.len() as int)
    &&& is_first_index(names1, END_EVENT@, d.end_idx as int)
    &&& d.repaired.names() == rep.0
    &&& d.repaired.log() == rep.1
    &&& all_candidates(g, n3, d.candidates@)
    &&& strictly_sorted(views(d.candidates@))
    &&& forall|xs: Seq<usize>, ys: Seq<usize>|
        #![trigger is_candidate(g, n3, xs, ys)]
        is_candidate(g, n3, xs, ys) ==> listed(d.candidates@, xs, ys)
    &&& views(d.selected@) == selected(rep.1, views(d.candidates@), cfg.thresholds())
    &&& d.net.is_assembled(rep.0, d.start_idx, d.end_idx, views(d.selected@))
}

/// No two activities share a name.
pub open spec fn distinct_names(names: Seq<Seq<char>>) -> bool {
    forall|i: int, j: int| 0 <= i < names.len() && 0 <= j < names.len() && i != j ==> names[i] != names[j]
}

/// Two activities share a name only when it is silent, the start or the end.
pub open spec fn plain_names_distinct(names: Seq<Seq<char>>) -> bool {
    forall|i: int, j: int|
        0 <= i < names.len() && 0 <= j < names.len() && i != j && names[i] == names[j] ==> is_silent_name(names[i])
            || names[i] == START_EVENT@ || names[i] == END_EVENT@
}

/// Every labelled transition carries the name of its activity, which is
/// neither the start nor the end, and no other activity has that name.
pub open spec fn labels_name_one_activity(net: PetriNet, names: Seq<Seq<char>>) -> bool {
    forall|i: int|
        0 <= i < net.transitions@.len() && (#[trigger] net.transitions@[i]).label.is_some() ==> {
            let l = net.transitions@[i].label->Some_0@;
            let id = net.transitions@[i].id as int;
            &&& 0 <= id < names.len()
            &&& names[id] == l
            &&& l != START_EVENT@
            &&& l != END_EVENT@
            &&& forall|j: int| 0 <= j < names.len() && names[j] == l ==> j == id
        }
}

proof fn lemma_with_name_plain(names: Seq<Seq<char>>, name: Seq<char>)
    requires
        plain_names_distinct(names),
        name == START_EVENT@ || name == END_EVENT@,
    ensures
        plain_names_distinct(with_name(names, name)),
{
}

proof fn lemma_silent_name_is_silent(k: nat)
    ensures
        is_silent_name(silent_name(k)),
{
    assert(silent_name(k).subrange(0, SILENT_ACT_PREFIX@.len() as int) =~= SILENT_ACT_PREFIX@);
}

proof fn lemma_silent_suffix_plain(names: Seq<Seq<char>>, base: int, cnt: int)
    requires
        plain_names_distinct(names),
        0 <= base,
        0 <= cnt,
    ensures
        plain_names_distinct(names + silent_names(base, cnt)),
{
    let all = names + silent_names(base, cnt);
    assert forall|i: int, j: int|
        0 <= i < all.len() && 0 <= j < all.len() && i != j && all[i] == all[j] implies is_silent_name(all[i])
            || all[i] == START_EVENT@ || all[i] == END_EVENT@ by {
        if i >= names.len() {
            lemma_silent_name_is_silent((base + i - names.len()) as nat);
        } else if j >= names.len() {
            lemma_silent_name_is_silent((base + j - names.len()) as nat);
        } else {
            assert(all[i] == names[i] && all[j] == names[j]);
        }
    };
}

proof fn lemma_labels_from_names(names: Seq<Seq<char>>, arcs: Seq<ArcType>, k: int)
    requires
        k <= names.len() <= usize::MAX,
    ensures
        forall|i: int|
            0 <= i < net_transitions(names, arcs, k).len() && (#[trigger] net_transitions(names, arcs, k)[i]).1.is_some()
                ==> {
                let t = net_transitions(names, arcs, k)[i];
                &&& 0 <= t.0 < k
                &&& names[t.0 as int] == t.1->Some_0
                &&& t.1->Some_0 != START_EVENT@
                &&& t.1->Some_0 != END_EVENT@
                &&& !is_silent_name(t.1->Some_0)
            },
    decreases k,
{
    if k > 0 {
        lemma_labels_from_names(names, arcs, k - 1);
        let p = net_transitions(names, arcs, k - 1);
        let q = net_transitions(names, arcs, k);
        assert forall|i: int| 0 <= i < q.len() && (#[trigger] q[i]).1.is_some() implies {
            let t = q[i];
            &&& 0 <= t.0 < k
            &&& names[t.0 as int] == t.1->Some_0
            &&& t.1->Some_0 != START_EVENT@
            &&& t.1->Some_0 != END_EVENT@
            &&& !is_silent_name(t.1->Some_0)
        } by {
            if i < p.len() {
                assert(q[i] == p[i]);
            }
        };
    }
}

/// Discovery is deterministic: two outcomes on the same projection and
/// configuration agree on the start and end activities, the repaired
/// projection, the candidates, the selection and the whole net.
pub proof fn lemma_discovery_deterministic(
    names: Seq<Seq<char>>,
    log: LogView,
    cfg: AlphaPPPConfig,
    d1: Discovery,
    d2: Discovery,
)
    requires
        discovered(d1, names, log, cfg),
        discovered(d2, names, log, cfg),
    ensures
        d1.start_idx == d2.start_idx,
        d1.end_idx == d2.end_idx,
        d1.repaired.names() == d2.repaired.names(),
        d1.repaired.log() == d2.repaired.log(),
        views(d1.candidates@) == views(d2.candidates@),
        views(d1.selected@) == views(d2.selected@),
        d1.net.places == d2.net.places,
        d1.net.arcs@ == d2.net.arcs@,
        d1.net.initial_marking@ == d2.net.initial_marking@,
        d1.net.final_marking@ == d2.net.final_marking@,
        d1.net.transitions_view() == d2.net.transitions_view(),
{
    let names1 = with_name(with_name(names, START_EVENT@), END_EVENT@);
    lemma_first_index_unique(names1, START_EVENT@, d1.start_idx as int, d2.start_idx as int);
    lemma_first_index_unique(names1, END_EVENT@, d1.end_idx as int, d2.end_idx as int);
    let rep = repaired_input(names1, framed(log, d1.start_idx, d1.end_idx), cfg);
    let g = cleaned_graph(rep.0, rep.1, cfg);
    let n3 = rep.0.len() as int;
    let v1 = views(d1.candidates@);
    let v2 = views(d2.candidates@);
    assert forall|x: CandidateView| v1.contains(x) == v2.contains(x) by {
        if v1.contains(x) {
            let i = choose|i: int| 0 <= i < v1.len() && v1[i] == x;
            assert(v1[i] == cand_view(d1.candidates@[i]));
            assert(is_candidate(g, n3, d1.candidates@[i].0@, d1.candidates@[i].1@));
            let j = choose|j: int| 0 <= j < d2.candidates@.len() && cand_view(#[trigger] d2.candidates@[j]) == x;
            assert(v2[j] == cand_view(d2.candidates@[j]));
        }
        if v2.contains(x) {
            let i = choose|i: int| 0 <= i < v2.len() && v2[i] == x;
            assert(v2[i] == cand_view(d2.candidates@[i]));
            assert(is_candidate(g, n3, d2.candidates@[i].0@, d2.candidates@[i].1@));
            let j = choose|j: int| 0 <= j < d1.candidates@.len() && cand_view(#[trigger] d1.candidates@[j]) == x;
            assert(v1[j] == cand_view(d1.candidates@[j]));
        }
    };
    lemma_strictly_sorted_unique(v1, v2);
}

proof fn lemma_first_index_unique(names: Seq<Seq<char>>, name: Seq<char>, i: int, j: int)
    requires
        is_first_index(names, name, i),
        is_first_index(names, name, j),
    ensures
        i == j,
{
}

/// Discovers a Petri net from the projection: frames every trace with the
/// start and end activities, repairs loops and then skips, filters the
/// directly-follows graph, builds and prunes place candidates and assembles
/// the net. Fails on an inconsistent projection, then on an invalid
/// configuration, then on a log without edges.
pub fn alphappp_discover_petri_net(log_proj: &EventLogActivityProjection, config: &AlphaPPPConfig) -> (r: Result<
    Discovery,
    DiscoveryError,
>)
    ensures
        match r {
            Err(DiscoveryError::InconsistentProjection) => !log_proj.consistent(),
            Err(DiscoveryError::InvalidConfig) => log_proj.consistent() && !config.is_valid(),
            Err(DiscoveryError::EmptyLog) => log_proj.consistent() && config.is_valid() && exists|s: usize, e: usize|
                is_first_index(with_name(with_name(log_proj.names(), START_EVENT@), END_EVENT@), START_EVENT@, s as int)
                    && is_first_index(with_name(with_name(log_proj.names(), START_EVENT@), END_EVENT@), END_EVENT@, e as int)
                    && no_edges(
                    with_name(with_name(log_proj.names(), START_EVENT@), END_EVENT@),
                    framed(log_proj.log(), s, e),
                ),
            Ok(d) => log_proj.consistent() && config.is_valid() && !no_edges(
                with_name(with_name(log_proj.names(), START_EVENT@), END_EVENT@),
                framed(log_proj.log(), d.start_idx, d.end_idx),
            ) && discovered(d, log_proj.names(), log_proj.log(), *config) && (distinct_names(log_proj.names())
                ==> labels_name_one_activity(d.net, d.repaired.names())) && d.net.places_used()
                && arcs_reach_transitions(d.net) && (forall|x: int|
                0 <= x < log_proj.names().len() && !reserved(log_proj.names()[x]) && !is_silent_name(
                    log_proj.names()[x],
                ) ==> #[trigger] labelled_transition(d.net, log_proj.names(), x)) && (config.balance_thresh.num
                == config.balance_thresh.den ==> forall|i: int|
                0 <= i < d.selected@.len() ==> sat(
                    log_total(d.repaired.log(), (#[trigger] d.selected@[i]).0@, d.selected@[i].1@, Tally::Produced),
                ) == sat(log_total(d.repaired.log(), d.selected@[i].0@, d.selected@[i].1@, Tally::Consumed)))
                && d.net.no_isolated_silent() && d.net.initial_marking@.len() == count_holding(
                views(d.selected@),
                d.start_idx,
                true,
                d.selected@.len() as int,
            ) && d.net.final_marking@.len() == count_holding(
                views(d.selected@),
                d.end_idx,
                false,
                d.selected@.len() as int,
            ),
        },
{
    if !log_proj.is_consistent() {
        return Err(DiscoveryError::InconsistentProjection);
    }
    if !config.check() {
        return Err(DiscoveryError::InvalidConfig);
    }
    let mut proj = log_proj.duplicate();
    assert(proj.activities@.len() == proj.names().len());
    assert(log_proj.activities@.len() == log_proj.names().len());
    assert(proj.wf());
    let ghost log0 = proj.log();
    let (s, e) = add_start_end_acts_proj(&mut proj);
    let n1 = proj.activities.len();
    let dfg = ActivityProjectionDFG::from_event_log_projection(&proj);
    let (_sum, cnt) = dfg.weight_sum_and_edge_count(n1);
    if cnt == 0 {
        return Err(DiscoveryError::EmptyLog);
    }
    let thr_loop = dfg.repair_threshold(n1, config.log_repair_loop_df_thresh_rel);
    let thr_skip = dfg.repair_threshold(n1, config.log_repair_skip_df_thresh_rel);
    let (proj2, added_for_loops) = add_artificial_acts_for_loops(&proj, thr_loop);
    let (proj3, added_for_skips) = add_artificial_acts_for_skips(&proj2, thr_skip);
    let n3 = proj3.activities.len();
    let dfg3 = ActivityProjectionDFG::from_event_log_projection(&proj3);
    let clean = dfg3.filter(n3, config.absolute_df_clean_thresh, config.relative_df_clean_thresh);
    let built = build_candidates(&clean, n3);
    let candidates = sort_candidates(built);
    proof {
        let g = clean.view();
        let bv = views(built@);
        let cv = views(candidates@);
        assert forall|i: int| 0 <= i < candidates@.len() implies is_candidate(
            g,
            n3 as int,
            #[trigger] candidates@[i].0@,
            candidates@[i].1@,
        ) by {
            assert(cv[i] == cand_view(candidates@[i]));
            assert(cv.contains(cv[i]));
            let j = choose|j: int| 0 <= j < bv.len() && bv[j] == cv[i];
            assert(bv[j] == cand_view(built@[j]));
        };
        assert forall|xs: Seq<usize>, ys: Seq<usize>|
            #![trigger is_candidate(g, n3 as int, xs, ys)]
            is_candidate(g, n3 as int, xs, ys) implies listed(candidates@, xs, ys) by {
            let j = choose|j: int| 0 <= j < built@.len() && cand_view(#[trigger] built@[j]) == (xs, ys);
            assert(bv[j] == cand_view(built@[j]));
            assert(bv.contains((xs, ys)));
            let i = choose|i: int| 0 <= i < cv.len() && cv[i] == (xs, ys);
            assert(cv[i] == cand_view(candidates@[i]));
        };
    }
    let th = PruneThresholds {
        balance: config.balance_thresh,
        fitness: config.fitness_thresh,
        replay: config.replay_thresh,
    };
    let selected = prune_candidates(&candidates, th, &proj3);
    let net = build_net(&proj3.activities, s, e, &selected);
    proof {
        let n0 = log_proj.names();
        let nm1 = proj.names();
        let nm2 = proj2.names();
        let nm3 = proj3.names();
        assert(nm2.len() == proj2.activities@.len());
        assert(nm3.len() == proj3.activities@.len());
        assert(d_added_names(added_for_loops@) =~= nm2.subrange(nm1.len() as int, nm2.len() as int));
        assert(d_added_names(added_for_skips@) =~= nm3.subrange(nm2.len() as int, nm3.len() as int));
        lemma_framing(log0, n0, s, e);
        lemma_start_end_differ();
        let ps1 = marked_pairs(true, dfg_of(proj.log(), nm1.len()), nm1.len() as int, thr_loop as int, nm1.len() as int);
        lemma_repair_framed(proj.log(), nm1, ps1, s, e);
        let ps2 = marked_pairs(false, dfg_of(proj2.log(), nm2.len()), nm2.len() as int, thr_skip as int, nm2.len() as int);
        lemma_repair_framed(proj2.log(), nm2, ps2, s, e);
        let cs = views(selected@);
        assert(cs == selected@.map_values(|c: (Vec<usize>, Vec<usize>)| (c.0@, c.1@)));
        assert(cs.len() == selected@.len());
        let g = clean.view();
        lemma_selected_are_candidates(proj3.log(), views(candidates@), th, g, n3 as int);
        lemma_arcs_origin(cs, s, e, cs.len() as int);
        assert forall|x: int|
            0 <= x < n0.len() && !reserved(n0[x]) && !is_silent_name(n0[x]) implies #[trigger] labelled_transition(
            net,
            n0,
            x,
        ) by {
            assert(nm1[x] == n0[x]) by {
                assert(with_name(n0, START_EVENT@)[x] == n0[x]);
            };
            assert(nm3[x] == nm1[x]) by {
                assert(nm2[x] == nm1[x]);
            };
            lemma_labelled_present(nm3, net.arcs@, x, nm3.len() as int);
            let i = choose|i: int|
                0 <= i < net_transitions(nm3, net.arcs@, nm3.len() as int).len() && (#[trigger] net_transitions(
                    nm3,
                    net.arcs@,
                    nm3.len() as int,
                )[i]) == (x as usize, Some(nm3[x]));
            assert(net.transitions_view()[i] == transition_view(net.transitions@[i]));
        };
        if config.balance_thresh.num == config.balance_thresh.den {
            let sl = crate::pruning::selected(proj3.log(), views(candidates@), th);
            lemma_selected_pass(proj3.log(), views(candidates@), th);
            assert forall|i: int| 0 <= i < selected@.len() implies sat(
                log_total(proj3.log(), (#[trigger] selected@[i]).0@, selected@[i].1@, Tally::Produced),
            ) == sat(log_total(proj3.log(), selected@[i].0@, selected@[i].1@, Tally::Consumed)) by {
                assert(views(selected@)[i] == cand_view(selected@[i]));
                assert(sl[i] == views(selected@)[i]);
                lemma_full_balance(proj3.log(), selected@[i].0@, selected@[i].1@, th);
            };
        }
        lemma_arcs_reach(net, nm3, proj3.log(), cs, g, s, e, config.absolute_df_clean_thresh, config.relative_df_clean_thresh);
    }
    proof {
        let cs = views(selected@);
        assert(cs == selected@.map_values(|c: (Vec<usize>, Vec<usize>)| (c.0@, c.1@)));
        lemma_selected_are_candidates(proj3.log(), views(candidates@), th, clean.view(), n3 as int);
        assert forall|p: int| 0 <= p < net.places implies crate::petri::place_has_arc(net.arcs@, p)
            || crate::petri::marks_place(net.initial_marking@, p) || crate::petri::marks_place(
            net.final_marking@,
            p,
        ) by {
            assert(is_candidate(clean.view(), n3 as int, cs[p].0, cs[p].1));
            lemma_places_used(cs, s, e, p);
        };
        lemma_marking_size(cs, s, true, cs.len() as int);
        lemma_marking_size(cs, e, false, cs.len() as int);
        lemma_transitions_attached(proj3.names(), net.arcs@, proj3.names().len() as int);
        if distinct_names(log_proj.names()) {
            let n0 = log_proj.names();
            lemma_with_name_plain(n0, START_EVENT@);
            lemma_with_name_plain(with_name(n0, START_EVENT@), END_EVENT@);
            let n1 = proj.names();
            let n2 = proj2.names();
            lemma_silent_suffix_plain(n1, n1.len() as int, n2.len() - n1.len());
            assert(n2 =~= n1 + silent_names(n1.len() as int, n2.len() - n1.len()));
            let n3 = proj3.names();
            assert(n3.len() == proj3.activities@.len());
            lemma_silent_suffix_plain(n2, n2.len() as int, n3.len() - n2.len());
            assert(n3 =~= n2 + silent_names(n2.len() as int, n3.len() - n2.len()));
            lemma_labels_from_names(n3, net.arcs@, n3.len() as int);
            assert forall|i: int| 0 <= i < net.transitions@.len() && (#[trigger] net.transitions@[i]).label.is_some() implies {
                let l = net.transitions@[i].label->Some_0@;
                let id = net.transitions@[i].id as int;
                &&& 0 <= id < n3.len()
                &&& n3[id] == l
                &&& l != START_EVENT@
                &&& l != END_EVENT@
                &&& forall|j: int| 0 <= j < n3.len() && n3[j] == l ==> j == id
            } by {
                assert(net.transitions_view()[i] == transition_view(net.transitions@[i]));
            };
        }
        assert forall|i: int| 0 <= i < net.transitions@.len() implies (#[trigger] net.transitions@[i]).label.is_some()
            || touches(net.arcs@, net.transitions@[i].id as int) by {
            assert(net.transitions_view()[i] == transition_view(net.transitions@[i]));
        };
    }
    Ok(
        Discovery {
            net,
            repaired: proj3,
            start_idx: s,
            end_idx: e,
            added_for_loops,
            added_for_skips,
            candidates,
            selected,
        },
    )
}

/// In a net assembled from candidates of the cleaned graph of a framed log,
/// every arc ends at a transition of the net.
proof fn lemma_arcs_reach(
    net: PetriNet,
    nm3: Seq<Seq<char>>,
    log: LogView,
    cs: Seq<CandidateView>,
    g: Seq<Seq<u64>>,
    s: usize,
    e: usize,
    abs: u64,
    rel: Ratio,
)
    requires
        net.is_assembled(nm3, s, e, cs),
        forall|p: int| 0 <= p < cs.len() ==> is_candidate(g, nm3.len() as int, #[trigger] cs[p].0, cs[p].1),
        g == filtered_of(dfg_of(log, nm3.len()), nm3.len(), abs, rel),
        log_framed(log, nm3, s, e),
        nm3.len() <= usize::MAX,
        cs.len() <= usize::MAX,
    ensures
        arcs_reach_transitions(net),
{
    let n3 = nm3.len();
    lemma_arcs_origin(cs, s, e, cs.len() as int);
    assert forall|j: int| 0 <= j < net.arcs@.len() implies has_transition(
        net,
        arc_transition(#[trigger] net.arcs@[j]),
    ) by {
        let a = net.arcs@[j];
        assert(arc_from_side(cs, s, e, a));
        let x = arc_transition(a);
        match a {
            ArcType::TransitionToPlace { transition, place } => {
                let p = place as int;
                assert(is_candidate(g, n3 as int, cs[p].0, cs[p].1));
                let q = choose|q: int| 0 <= q < cs[p].0.len() && cs[p].0[q] == transition;
                let y = cs[p].1[0];
                assert(edge(g, cs[p].0[q] as int, y as int));
                lemma_clean_edge_in_log(log, n3, abs, rel, x, y);
                lemma_edge_ends(log, nm3, s, e, x, y);
            },
            ArcType::PlaceToTransition { place, transition } => {
                let p = place as int;
                assert(is_candidate(g, n3 as int, cs[p].0, cs[p].1));
                let q = choose|q: int| 0 <= q < cs[p].1.len() && cs[p].1[q] == transition;
                let u = cs[p].0[0];
                assert(edge(g, u as int, cs[p].1[q] as int));
                lemma_clean_edge_in_log(log, n3, abs, rel, u, x);
                lemma_edge_ends(log, nm3, s, e, u, x);
            },
        }
        assert(!reserved(nm3[x as int]));
        assert(touches(net.arcs@, x as int));
        lemma_transition_present(nm3, net.arcs@, x as int, n3 as int);
        let i = choose|i: int|
            0 <= i < net_transitions(nm3, net.arcs@, n3 as int).len() && (#[trigger] net_transitions(
                nm3,
                net.arcs@,
                n3 as int,
            )[i]).0 == x;
        assert(net.transitions_view()[i] == transition_view(net.transitions@[i]));
        assert(net.transitions@[i].id == x);
    };
}

pub open spec fn d_added_names(a: Seq<String>) -> Seq<Seq<char>> {
    a.map_values(|x: String| x@)
}

/// An edge of the cleaned graph of a log is an edge of the log.
proof fn lemma_clean_edge_in_log(log: LogView, n: nat, abs: u64, rel: Ratio, x: usize, y: usize)
    requires
        x < n,
        y < n,
        filtered_of(dfg_of(log, n), n, abs, rel)[x as int][y as int] > 0,
    ensures
        df_weight(log, x as int, y as int) > 0,
{
    lemma_df_weight_nonneg(log, x as int, y as int);
    assert(dfg_of(log, n)[x as int][y as int] > 0);
}

/// Each transition that an assembled net keeps is labelled or has an arc.
proof fn lemma_transitions_attached(names: Seq<Seq<char>>, arcs: Seq<ArcType>, k: int)
    ensures
        forall|i: int|
            0 <= i < net_transitions(names, arcs, k).len() ==> (#[trigger] net_transitions(names, arcs, k)[i]).1.is_some()
                || touches(arcs, net_transitions(names, arcs, k)[i].0 as int),
    decreases k,
{
    if k > 0 {
        lemma_transitions_attached(names, arcs, k - 1);
        let p = net_transitions(names, arcs, k - 1);
        let q = net_transitions(names, arcs, k);
        assert forall|i: int| 0 <= i < q.len() implies (#[trigger] q[i]).1.is_some() || touches(arcs, q[i].0 as int) by {
            if i < p.len() {
                assert(q[i] == p[i]);
            }
        };
    }
}

/// Every candidate that pruning keeps is one of the candidates it was given.
proof fn lemma_selected_are_candidates(
    log: LogView,
    cs: Seq<CandidateView>,
    th: PruneThresholds,
    g: Seq<Seq<u64>>,
    n: int,
)
    requires
        forall|i: int| 0 <= i < cs.len() ==> is_candidate(g, n, #[trigger] cs[i].0, cs[i].1),
    ensures
        forall|i: int|
            0 <= i < selected(log, cs, th).len() ==> is_candidate(
                g,
                n,
                #[trigger] selected(log, cs, th)[i].0,
                selected(log, cs, th)[i].1,
            ),
{
    lemma_surviving_from(log, cs, th, g, n, cs.len() as int);
    let s = surviving(log, cs, th, cs.len() as int);
    lemma_undominated_from(s, g, n, s.len() as int);
}

proof fn lemma_surviving_from(log: LogView, cs: Seq<CandidateView>, th: PruneThresholds, g: Seq<Seq<u64>>, n: int, k: int)
    requires
        forall|i: int| 0 <= i < cs.len() ==> is_candidate(g, n, #[trigger] cs[i].0, cs[i].1),
        k <= cs.len(),
    ensures
        forall|i: int|
            0 <= i < surviving(log, cs, th, k).len() ==> is_candidate(
                g,
                n,
                #[trigger] surviving(log, cs, th, k)[i].0,
                surviving(log, cs, th, k)[i].1,
            ),
    decreases k,
{
    if k > 0 {
        lemma_surviving_from(log, cs, th, g, n, k - 1);
        let p = surviving(log, cs, th, k - 1);
        let q = surviving(log, cs, th, k);
        assert forall|i: int| 0 <= i < q.len() implies is_candidate(g, n, #[trigger] q[i].0, q[i].1) by {
            if i < p.len() {
                assert(q[i] == p[i]);
            } else {
                assert(q[i] == cs[k - 1]);
            }
        };
    }
}

proof fn lemma_undominated_from(cs: Seq<CandidateView>, g: Seq<Seq<u64>>, n: int, k: int)
    requires
        forall|i: int| 0 <= i < cs.len() ==> is_candidate(g, n, #[trigger] cs[i].0, cs[i].1),
        k <= cs.len(),
    ensures
        forall|i: int|
            0 <= i < undominated(cs, k).len() ==> is_candidate(
                g,
                n,
                #[trigger] undominated(cs, k)[i].0,
                undominated(cs, k)[i].1,
            ),
    decreases k,
{
    if k > 0 {
        lemma_undominated_from(cs, g, n, k - 1);
        let p = undominated(cs, k - 1);
        let q = undominated(cs, k);
        assert forall|i: int| 0 <= i < q.len() implies is_candidate(g, n, #[trigger] q[i].0, q[i].1) by {
            if i < p.len() {
                assert(q[i] == p[i]);
            } else {
                assert(q[i] == cs[k - 1]);
            }
        };
    }
}

} // verus!
