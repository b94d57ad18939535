//! The bug-fix candidate pipeline on hand-built histories: seeding from a
//! descendant pass, the message filter, and the generation-distance filter.

use three_way_merge_finder::find_bug_fix::BugFixFinder;
use three_way_merge_finder::history::CommitInfo;
use three_way_merge_finder::history::HistoryGraph;
use three_way_merge_finder::ids::CommitId;

fn id(b: u8) -> CommitId {
    CommitId { bytes: vec![b; 20] }
}

fn commit(me: u8, parents: &[u8], summary: &str) -> CommitInfo {
    CommitInfo {
        id: id(me),
        parents: parents.iter().map(|p| id(*p)).collect(),
        summary: summary.as_bytes().to_vec(),
        timestamp: me as i64,
    }
}

/// A linear history 1 <- 2 <- 3 whose tip fixes a bug.
fn fixes_graph() -> HistoryGraph {
    HistoryGraph::new(vec![
        commit(1, &[], "root work"),
        commit(2, &[1], "add feature"),
        commit(3, &[2], "fix null pointer"),
    ])
    .unwrap()
}

#[test]
fn pipeline_seeds_with_descendants() {
    let bff = BugFixFinder::from_graph(fixes_graph(), &id(1));
    assert_eq!(bff.collect(), vec![id(2), id(3)]);
}

#[test]
fn message_filter_keeps_only_fix_summaries() {
    let mut bff = BugFixFinder::from_graph(fixes_graph(), &id(1));
    bff.msg_contains(vec![]);
    assert_eq!(bff.collect(), vec![id(3)]);
}

#[test]
fn message_filter_ignores_the_supplied_matchers() {
    // The matcher-list parameter is accepted and ignored: the built-in
    // keyword list applies whatever is supplied.
    let mut with_empty = BugFixFinder::from_graph(fixes_graph(), &id(1));
    with_empty.msg_contains(vec![]);
    let mut with_matchers = BugFixFinder::from_graph(fixes_graph(), &id(1));
    with_matchers.msg_contains(vec![b"feature".to_vec()]);
    assert_eq!(with_empty.collect(), with_matchers.collect());
}

#[test]
fn message_filter_is_idempotent_on_a_concrete_history() {
    let mut once = BugFixFinder::from_graph(fixes_graph(), &id(1));
    once.msg_contains(vec![]);
    let mut twice = BugFixFinder::from_graph(fixes_graph(), &id(1));
    twice.msg_contains(vec![]);
    twice.msg_contains(vec![]);
    assert_eq!(once.collect(), twice.collect());
}

#[test]
fn linear_fix_scenario() {
    // A linear history origin <- side <- merge commit, where the tip's
    // summary is "fix null pointer": the message filter retains the tip;
    // the generation filter with a bound of one retains it as the direct
    // child of its parent; a bound of zero excludes it.
    let graph = fixes_graph();
    let mut bff = BugFixFinder::from_graph(graph, &id(2));
    bff.msg_contains(vec![]);
    assert_eq!(bff.fixes, vec![id(3)]);
    bff.within_n_generations(&id(2), 1);
    assert_eq!(bff.fixes, vec![id(3)]);
    bff.within_n_generations(&id(2), 0);
    assert_eq!(bff.collect(), vec![]);
}

#[test]
fn generation_filter_with_zero_distance_excludes_everything() {
    let mut bff = BugFixFinder::from_graph(fixes_graph(), &id(1));
    bff.within_n_generations(&id(1), 0);
    assert_eq!(bff.collect(), vec![]);
}

#[test]
fn generation_filter_with_large_distance_keeps_all_descendants() {
    let graph = fixes_graph();
    let all = graph.descendants(&id(1));
    let mut bff = BugFixFinder::from_graph(graph, &id(1));
    bff.within_n_generations(&id(1), 100);
    assert_eq!(bff.collect(), all);
}

#[test]
fn generation_filter_bounds_the_distance() {
    let mut bff = BugFixFinder::from_graph(fixes_graph(), &id(1));
    bff.within_n_generations(&id(1), 1);
    assert_eq!(bff.collect(), vec![id(2)]);
}
