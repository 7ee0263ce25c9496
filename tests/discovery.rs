use pm_rust::candidates::build_candidates;
use pm_rust::dfg::ActivityProjectionDFG;
use pm_rust::discovery::{alphappp_discover_petri_net, AlphaPPPConfig, Discovery, DiscoveryError};
use pm_rust::order::sort_candidates;
use pm_rust::petri::{build_net, ArcType};
use pm_rust::projection::{add_start_end_acts_proj, cnds_to_names, EventLogActivityProjection, END_EVENT, START_EVENT};
use pm_rust::pruning::{passes_thresholds, prune_candidates, PruneThresholds};
use pm_rust::ratio::Ratio;
use pm_rust::repair::{add_artificial_acts_for_loops, add_artificial_acts_for_skips};

fn r(num: u64, den: u64) -> Ratio {
    Ratio { num, den }
}

fn projection(acts: &[&str], traces: &[(&[&str], u64)]) -> EventLogActivityProjection {
    let activities: Vec<String> = acts.iter().map(|a| a.to_string()).collect();
    let traces = traces
        .iter()
        .map(|(t, w)| {
            let idx = t.iter().map(|a| acts.iter().position(|b| b == a).unwrap()).collect();
            (idx, *w)
        })
        .collect();
    EventLogActivityProjection { activities, traces }
}

fn config() -> AlphaPPPConfig {
    AlphaPPPConfig {
        balance_thresh: r(1, 2),
        fitness_thresh: r(1, 2),
        replay_thresh: r(1, 2),
        log_repair_skip_df_thresh_rel: r(1, 2),
        log_repair_loop_df_thresh_rel: r(1, 2),
        absolute_df_clean_thresh: 1,
        relative_df_clean_thresh: r(0, 1),
    }
}

/// The selected places by names, each side sorted, the whole list sorted.
fn selected_names(d: &Discovery) -> Vec<(Vec<String>, Vec<String>)> {
    let mut out: Vec<(Vec<String>, Vec<String>)> = cnds_to_names(&d.repaired, &d.selected)
        .into_iter()
        .map(|(mut a, mut b)| {
            a.sort();
            b.sort();
            (a, b)
        })
        .collect();
    out.sort();
    out
}

fn place(a: &[&str], b: &[&str]) -> (Vec<String>, Vec<String>) {
    (a.iter().map(|s| s.to_string()).collect(), b.iter().map(|s| s.to_string()).collect())
}

fn labels(d: &Discovery) -> Vec<Option<String>> {
    let mut l: Vec<Option<String>> = d.net.transitions.iter().map(|t| t.label.clone()).collect();
    l.sort();
    l
}

fn is_silent(d: &Discovery, name: &str) -> bool {
    name.starts_with(pm_rust::projection::SILENT_ACT_PREFIX) && d.repaired.activities.iter().any(|a| a == name)
}

#[test]
fn sequence_gives_chain_of_places() {
    let p = projection(&["A", "B", "C"], &[(&["A", "B", "C"], 1)]);
    let d = alphappp_discover_petri_net(&p, &config()).unwrap();
    assert!(d.added_for_loops.is_empty());
    assert!(d.added_for_skips.is_empty());
    assert_eq!(
        labels(&d),
        vec![Some("A".to_string()), Some("B".to_string()), Some("C".to_string())]
    );
    assert_eq!(
        selected_names(&d),
        vec![
            place(&["A"], &["B"]),
            place(&["B"], &["C"]),
            place(&["C"], &[END_EVENT]),
            place(&[START_EVENT], &["A"]),
        ]
    );
    assert_eq!(d.net.places, 4);
    assert_eq!(d.net.initial_marking.len(), 1);
    assert_eq!(d.net.final_marking.len(), 1);
    let start_place = d.net.initial_marking[0].0;
    assert_eq!(d.net.initial_marking[0].1, 1);
    let a_idx = 0usize;
    assert!(d.net.arcs.iter().any(|arc| matches!(arc,
        ArcType::PlaceToTransition { place, transition } if *place == start_place && *transition == a_idx)));
    let end_place = d.net.final_marking[0].0;
    let c_idx = 2usize;
    assert!(d.net.arcs.iter().any(|arc| matches!(arc,
        ArcType::TransitionToPlace { transition, place } if *place == end_place && *transition == c_idx)));
    // A->B and B->C places: one arc in, one arc out each; plus the arcs of the start and end places
    assert_eq!(d.net.arcs.len(), 6);
}

#[test]
fn choice_split_and_join_share_places() {
    let p = projection(&["A", "B", "C", "D"], &[(&["A", "B", "D"], 1), (&["A", "C", "D"], 1)]);
    let d = alphappp_discover_petri_net(&p, &config()).unwrap();
    assert_eq!(
        selected_names(&d),
        vec![
            place(&["A"], &["B", "C"]),
            place(&["B", "C"], &["D"]),
            place(&["D"], &[END_EVENT]),
            place(&[START_EVENT], &["A"]),
        ]
    );
    assert_eq!(d.net.places, 4);
}

#[test]
fn optional_activity_gets_silent_bypass() {
    let p = projection(&["A", "B", "C"], &[(&["A", "B", "C"], 1), (&["A", "C"], 1)]);
    let d = alphappp_discover_petri_net(&p, &config()).unwrap();
    assert!(d.added_for_loops.is_empty());
    assert_eq!(d.added_for_skips.len(), 1);
    let tau = d.added_for_skips[0].clone();
    assert!(is_silent(&d, &tau));
    assert_eq!(tau, "__silent_5");
    // the silent transition stays, unlabelled, between A and C
    assert_eq!(labels(&d), vec![None, Some("A".to_string()), Some("B".to_string()), Some("C".to_string())]);
    let sel = selected_names(&d);
    assert!(sel.contains(&place(&["A"], &["B", tau.as_str()])));
    assert!(sel.contains(&place(&["B", tau.as_str()], &["C"])));
}

#[test]
fn loop_gets_silent_back_edge() {
    let p = projection(&["A", "B", "C"], &[(&["A", "B", "A", "B", "C"], 1)]);
    let d = alphappp_discover_petri_net(&p, &config()).unwrap();
    assert_eq!(d.added_for_loops.len(), 1);
    assert!(d.added_for_skips.is_empty());
    let tau = d.added_for_loops[0].clone();
    assert!(is_silent(&d, &tau));
    // the repaired trace closes the loop through the silent activity
    let names: Vec<String> = d.repaired.traces[0].0.iter().map(|i| d.repaired.activities[*i].clone()).collect();
    assert_eq!(names, vec![START_EVENT, "A", "B", tau.as_str(), "A", "B", "C", END_EVENT]);
    assert!(labels(&d).contains(&None));
    let sel = selected_names(&d);
    assert!(sel.contains(&place(&[START_EVENT, tau.as_str()], &["A"])));
    assert!(sel.contains(&place(&["B"], &["C", tau.as_str()])));
}

#[test]
fn all_edges_filtered_gives_empty_net() {
    let p = projection(&["A", "B", "C"], &[(&["A", "B", "C"], 1)]);
    let mut c = config();
    c.absolute_df_clean_thresh = 100;
    let d = alphappp_discover_petri_net(&p, &c).unwrap();
    assert!(d.candidates.is_empty());
    assert!(d.selected.is_empty());
    assert_eq!(d.net.places, 0);
    assert!(d.net.arcs.is_empty());
    assert!(d.net.initial_marking.is_empty());
    assert!(d.net.final_marking.is_empty());
    // no silent transition without arcs survives
    assert!(d.net.transitions.iter().all(|t| t.label.is_some()));
}

#[test]
fn full_balance_keeps_only_balanced_places() {
    let p = projection(&["A", "B", "C"], &[(&["A", "B"], 2), (&["A", "C"], 1)]);
    let mut c = config();
    c.balance_thresh = r(1, 1);
    let mut q = p.duplicate();
    add_start_end_acts_proj(&mut q);
    let th = PruneThresholds { balance: r(1, 1), fitness: r(0, 1), replay: r(0, 1) };
    // A produces 3 tokens, B consumes 2
    assert!(!passes_thresholds(&q, &vec![0], &vec![1], th));
    assert!(passes_thresholds(&q, &vec![0], &vec![1, 2], th));
    let d = alphappp_discover_petri_net(&p, &c).unwrap();
    let sel = selected_names(&d);
    assert!(sel.contains(&place(&["A"], &["B", "C"])));
    assert!(!sel.contains(&place(&["A"], &["B"])));
}

#[test]
fn errors_are_reported() {
    let bad = EventLogActivityProjection { activities: vec!["A".to_string()], traces: vec![(vec![0, 3], 1)] };
    assert!(matches!(
        alphappp_discover_petri_net(&bad, &config()),
        Err(DiscoveryError::InconsistentProjection)
    ));
    let p = projection(&["A"], &[(&["A"], 1)]);
    let mut c = config();
    c.fitness_thresh = r(3, 2);
    assert!(matches!(alphappp_discover_petri_net(&p, &c), Err(DiscoveryError::InvalidConfig)));
    let mut c2 = config();
    c2.log_repair_loop_df_thresh_rel = r(1, 0);
    assert!(matches!(alphappp_discover_petri_net(&p, &c2), Err(DiscoveryError::InvalidConfig)));
    // the start and end activities may only frame traces
    let framed_end = projection(&[END_EVENT, "A"], &[(&[END_EVENT, "A"], 1)]);
    assert!(matches!(
        alphappp_discover_petri_net(&framed_end, &config()),
        Err(DiscoveryError::InconsistentProjection)
    ));
    let framed_start = projection(&["A", START_EVENT], &[(&["A", START_EVENT], 1)]);
    assert!(matches!(
        alphappp_discover_petri_net(&framed_start, &config()),
        Err(DiscoveryError::InconsistentProjection)
    ));
    // present but unused reserved activities are fine
    let unused = projection(&[END_EVENT, "A", START_EVENT], &[(&["A"], 1)]);
    assert!(alphappp_discover_petri_net(&unused, &config()).is_ok());
    let empty = projection(&["A"], &[]);
    assert!(matches!(alphappp_discover_petri_net(&empty, &config()), Err(DiscoveryError::EmptyLog)));
    let weightless = projection(&["A"], &[(&["A"], 0)]);
    assert!(matches!(alphappp_discover_petri_net(&weightless, &config()), Err(DiscoveryError::EmptyLog)));
}

#[test]
fn start_end_framing() {
    let mut p = projection(&["A", "B"], &[(&["A", "B"], 3), (&[], 1)]);
    let (s, e) = add_start_end_acts_proj(&mut p);
    assert_eq!((s, e), (2, 3));
    assert_eq!(p.activities, vec!["A", "B", START_EVENT, END_EVENT]);
    assert_eq!(p.traces, vec![(vec![2, 0, 1, 3], 3), (vec![2, 3], 1)]);
    // present names are reused
    let mut q = projection(&[END_EVENT, "A", START_EVENT], &[(&["A"], 1)]);
    let (s2, e2) = add_start_end_acts_proj(&mut q);
    assert_eq!((s2, e2), (2, 0));
    assert_eq!(q.activities.len(), 3);
}

#[test]
fn dfg_weights_count_multiplicity() {
    let p = projection(&["A", "B"], &[(&["A", "B", "A", "B"], 2), (&["B", "B"], 5)]);
    let g = ActivityProjectionDFG::from_event_log_projection(&p);
    assert_eq!(g.edges, vec![vec![0, 4], vec![2, 5]]);
    assert_eq!(g.weight_sum_and_edge_count(2), (11, 3));
    // ceil(1/2 * 11 / 3) = ceil(1.833..) = 2
    assert_eq!(g.repair_threshold(2, r(1, 2)), 2);
    assert_eq!(g.repair_threshold(2, r(3, 1)), 11);
    let empty = ActivityProjectionDFG { edges: vec![vec![0]] };
    assert_eq!(empty.repair_threshold(1, r(1, 1)), 0);
}

#[test]
fn filter_applies_both_thresholds() {
    let g = ActivityProjectionDFG { edges: vec![vec![0, 10, 2], vec![0, 0, 4], vec![1, 0, 0]] };
    let f = g.filter(3, 2, r(1, 2));
    // 0->1 (10) kept; 0->2 (2): max(10, 4) = 10, 2 < 5, dropped;
    // 1->2 (4): max(4, 4) = 4, kept; 2->0 (1) below the absolute threshold
    assert_eq!(f.edges, vec![vec![0, 10, 0], vec![0, 0, 4], vec![0, 0, 0]]);
    let ties = g.filter(3, 1, r(1, 1));
    assert_eq!(ties.edges, vec![vec![0, 10, 0], vec![0, 0, 4], vec![1, 0, 0]]);
    // the input is left as it is
    assert_eq!(g.edges[0][2], 2);
}

#[test]
fn candidates_respect_the_graph() {
    // 0 -> 1, 0 -> 2, 1 -> 3, 2 -> 3
    let g = ActivityProjectionDFG {
        edges: vec![vec![0, 1, 1, 0], vec![0, 0, 0, 1], vec![0, 0, 0, 1], vec![0, 0, 0, 0]],
    };
    let mut c = build_candidates(&g, 4);
    c.sort();
    assert_eq!(
        c,
        vec![
            (vec![0], vec![1]),
            (vec![0], vec![1, 2]),
            (vec![0], vec![2]),
            (vec![1], vec![3]),
            (vec![1, 2], vec![3]),
            (vec![2], vec![3]),
        ]
    );
    // a self-loop keeps an activity out of every candidate
    let s = ActivityProjectionDFG { edges: vec![vec![1, 1], vec![0, 0]] };
    assert!(build_candidates(&s, 2).is_empty());
}

#[test]
fn pruning_drops_contained_candidates() {
    let p = projection(&["A", "B", "C"], &[(&["A", "B"], 1), (&["A", "C"], 1)]);
    let th = PruneThresholds { balance: r(0, 1), fitness: r(0, 1), replay: r(0, 1) };
    let cands = vec![(vec![0], vec![1]), (vec![0], vec![1, 2]), (vec![0], vec![2])];
    assert_eq!(prune_candidates(&cands, th, &p), vec![(vec![0], vec![1, 2])]);
    // fitness: C is asked for without a token in the first trace
    let th2 = PruneThresholds { balance: r(0, 1), fitness: r(1, 1), replay: r(0, 1) };
    let late = vec![(vec![1], vec![2])];
    assert!(prune_candidates(&late, th2, &p).is_empty());
    // replay: half of the traces fit
    assert!(passes_thresholds(&p, &vec![1], &vec![2], PruneThresholds { balance: r(0, 1), fitness: r(0, 1), replay: r(0, 1) }));
    assert!(!passes_thresholds(&p, &vec![1], &vec![2], PruneThresholds { balance: r(0, 1), fitness: r(0, 1), replay: r(2, 3) }));
    assert!(passes_thresholds(&p, &vec![1], &vec![2], PruneThresholds { balance: r(0, 1), fitness: r(0, 1), replay: r(1, 2) }));
}

#[test]
fn repairs_insert_named_silent_activities() {
    let p = projection(&["A", "B"], &[(&["A", "A", "B"], 1)]);
    let (q, added) = add_artificial_acts_for_loops(&p, 1);
    assert_eq!(added, vec!["__silent_2".to_string()]);
    assert_eq!(q.activities, vec!["A", "B", "__silent_2"]);
    assert_eq!(q.traces, vec![(vec![0, 2, 0, 1], 1)]);
    let (q2, added2) = add_artificial_acts_for_loops(&p, 2);
    assert!(added2.is_empty());
    assert_eq!(q2.traces, p.traces);
    let s = projection(&["A", "B", "C"], &[(&["A", "B", "C"], 1), (&["A", "C"], 3)]);
    let (t, added3) = add_artificial_acts_for_skips(&s, 3);
    assert_eq!(added3, vec!["__silent_3".to_string()]);
    assert_eq!(t.traces, vec![(vec![0, 1, 2], 1), (vec![0, 3, 2], 3)]);
    let (_, none) = add_artificial_acts_for_skips(&s, 4);
    assert!(none.is_empty());
}

#[test]
fn net_assembly_wires_places() {
    let names = vec!["A".to_string(), "__silent_1".to_string(), "__silent_2".to_string(), START_EVENT.to_string(), END_EVENT.to_string()];
    let sel = vec![(vec![3], vec![0]), (vec![0], vec![1, 4])];
    let net = build_net(&names, 3, 4, &sel);
    assert_eq!(net.places, 2);
    assert_eq!(net.initial_marking, vec![(0, 1)]);
    assert_eq!(net.final_marking, vec![(1, 1)]);
    assert_eq!(net.arcs.len(), 3);
    // the silent activity 2 has no arc and is left out; 1 stays unlabelled
    let ids: Vec<(usize, Option<String>)> = net.transitions.iter().map(|t| (t.id, t.label.clone())).collect();
    assert_eq!(ids, vec![(0, Some("A".to_string())), (1, None)]);
}

#[test]
fn candidate_names() {
    let p = projection(&["A", "B", "C"], &[]);
    let names = cnds_to_names(&p, &vec![(vec![0, 2], vec![1])]);
    assert_eq!(names, vec![(vec!["A".to_string(), "C".to_string()], vec!["B".to_string()])]);
}

#[test]
fn discovery_is_deterministic() {
    let p = projection(&["A", "B", "C", "D"], &[(&["A", "B", "C", "D"], 2), (&["A", "C", "B", "D"], 1)]);
    let d1 = alphappp_discover_petri_net(&p, &config()).unwrap();
    let d2 = alphappp_discover_petri_net(&p, &config()).unwrap();
    assert_eq!(d1.selected, d2.selected);
    assert_eq!(d1.net.places, d2.net.places);
    assert_eq!(d1.net.arcs.len(), d2.net.arcs.len());
    assert_eq!(d1.repaired.traces, d2.repaired.traces);
}

#[test]
fn candidates_sort_lexicographically_once_each() {
    let c = vec![
        (vec![1, 2], vec![3]),
        (vec![0], vec![2]),
        (vec![1], vec![3]),
        (vec![0], vec![1, 2]),
        (vec![0], vec![1]),
        (vec![0], vec![1]),
    ];
    assert_eq!(
        sort_candidates(c),
        vec![
            (vec![0], vec![1]),
            (vec![0], vec![1, 2]),
            (vec![0], vec![2]),
            (vec![1], vec![3]),
            (vec![1, 2], vec![3]),
        ]
    );
    assert!(sort_candidates(vec![]).is_empty());
}

#[test]
fn discovered_candidates_are_sorted() {
    let p = projection(&["A", "B", "C", "D"], &[(&["A", "B", "D"], 1), (&["A", "C", "D"], 1)]);
    let d = alphappp_discover_petri_net(&p, &config()).unwrap();
    let mut s = d.candidates.clone();
    s.sort();
    assert_eq!(s, d.candidates);
    let mut sel = d.selected.clone();
    sel.sort();
    assert_eq!(sel, d.selected);
}

fn check_net_invariants(d: &Discovery) {
    let net = &d.net;
    for p in 0..net.places {
        let has_arc = net.arcs.iter().any(|a| match a {
            ArcType::TransitionToPlace { place, .. } => *place == p,
            ArcType::PlaceToTransition { place, .. } => *place == p,
        });
        let marked = net.initial_marking.iter().any(|(q, _)| *q == p) || net.final_marking.iter().any(|(q, _)| *q == p);
        assert!(has_arc || marked);
    }
    for t in &net.transitions {
        let touched = net.arcs.iter().any(|a| match a {
            ArcType::TransitionToPlace { transition, .. } => *transition == t.id,
            ArcType::PlaceToTransition { transition, .. } => *transition == t.id,
        });
        assert!(t.label.is_some() || touched);
        if let Some(l) = &t.label {
            assert_eq!(&d.repaired.activities[t.id], l);
            assert_ne!(l, START_EVENT);
            assert_ne!(l, END_EVENT);
            assert_eq!(d.repaired.activities.iter().filter(|a| *a == l).count(), 1);
        }
    }
    for a in &net.arcs {
        let x = match a {
            ArcType::TransitionToPlace { transition, .. } => *transition,
            ArcType::PlaceToTransition { transition, .. } => *transition,
        };
        assert!(net.transitions.iter().any(|t| t.id == x));
    }
    let with_start = d.selected.iter().filter(|(a, _)| a.contains(&d.start_idx)).count();
    let with_end = d.selected.iter().filter(|(_, b)| b.contains(&d.end_idx)).count();
    assert_eq!(net.initial_marking.len(), with_start);
    assert_eq!(net.final_marking.len(), with_end);
}

#[test]
fn net_invariants_hold_on_examples() {
    let logs: Vec<EventLogActivityProjection> = vec![
        projection(&["A", "B", "C"], &[(&["A", "B", "C"], 1)]),
        projection(&["A", "B", "C", "D"], &[(&["A", "B", "D"], 1), (&["A", "C", "D"], 1)]),
        projection(&["A", "B", "C"], &[(&["A", "B", "C"], 1), (&["A", "C"], 1)]),
        projection(&["A", "B", "C"], &[(&["A", "B", "A", "B", "C"], 1)]),
        projection(&["A", "B", "C", "D"], &[(&["A", "B", "C", "D"], 3), (&["A", "C", "B", "D"], 2), (&["A", "D"], 1)]),
    ];
    for p in &logs {
        let d = alphappp_discover_petri_net(p, &config()).unwrap();
        check_net_invariants(&d);
        let mut strict = config();
        strict.absolute_df_clean_thresh = 2;
        let d2 = alphappp_discover_petri_net(p, &strict).unwrap();
        check_net_invariants(&d2);
    }
}

#[test]
fn lower_thresholds_keep_passing_candidates() {
    let p = projection(&["A", "B", "C"], &[(&["A", "B"], 3), (&["A", "C"], 1), (&["C"], 1)]);
    let strict = PruneThresholds { balance: r(3, 4), fitness: r(1, 1), replay: r(1, 1) };
    let loose = PruneThresholds { balance: r(1, 2), fitness: r(1, 2), replay: r(1, 2) };
    let cands = vec![(vec![0], vec![1]), (vec![0], vec![1, 2]), (vec![0], vec![2])];
    for (a, b) in &cands {
        if passes_thresholds(&p, a, b, strict) {
            assert!(passes_thresholds(&p, a, b, loose));
        }
    }
    // A -> B passes the strict setting; A -> {B, C} only the loose one, where
    // it then contains A -> B, so the selection changes
    assert!(passes_thresholds(&p, &vec![0], &vec![1], strict));
    assert!(!passes_thresholds(&p, &vec![0], &vec![1, 2], strict));
    assert!(passes_thresholds(&p, &vec![0], &vec![1, 2], loose));
    assert_eq!(prune_candidates(&cands, strict, &p), vec![(vec![0], vec![1])]);
    assert_eq!(prune_candidates(&cands, loose, &p), vec![(vec![0], vec![1, 2])]);
}

#[test]
fn filter_keeps_heavier_edges_of_same_endpoint_max() {
    // every edge here has endpoint max 10
    let g = ActivityProjectionDFG { edges: vec![vec![0, 10, 6, 4], vec![0, 0, 0, 0], vec![0, 0, 0, 0], vec![0, 0, 0, 0]] };
    let f = g.filter(4, 1, r(1, 2));
    assert_eq!(f.edges[0], vec![0, 10, 6, 0]);
}

#[test]
fn silent_names_count_in_decimal() {
    let acts = ["A", "B", "C", "D", "E", "F", "G", "H", "I", "J", "K", "L"];
    let p = projection(&acts, &[(&["L", "L"], 1)]);
    let (q, added) = add_artificial_acts_for_loops(&p, 1);
    assert_eq!(added, vec!["__silent_12".to_string()]);
    assert_eq!(q.traces, vec![(vec![11, 12, 11], 1)]);
}

#[test]
fn added_names_are_reported_per_pass() {
    let p = projection(&["A", "B", "C"], &[(&["A", "B", "A", "B", "C"], 1), (&["A", "C"], 1)]);
    let d = alphappp_discover_petri_net(&p, &config()).unwrap();
    let n = d.repaired.activities.len();
    let all: Vec<String> = d.added_for_loops.iter().chain(d.added_for_skips.iter()).cloned().collect();
    assert_eq!(all.as_slice(), &d.repaired.activities[n - all.len()..]);
    check_net_invariants(&d);
}
