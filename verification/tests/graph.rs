//! The history graph: validation, descendant propagation and the bounded
//! generation search, on hand-built histories.

use three_way_merge_finder::CoreError;
use three_way_merge_finder::history::CommitInfo;
use three_way_merge_finder::history::HistoryGraph;
use three_way_merge_finder::ids::CommitId;

fn id(b: u8) -> CommitId {
    CommitId { bytes: vec![b; 20] }
}

fn commit(me: u8, parents: &[u8], summary: &str) -> CommitInfo {
    CommitInfo {
        id: id(me),
        parents: parents.iter().map(|p| id(*p)).collect(),
        summary: summary.as_bytes().to_vec(),
        timestamp: me as i64,
    }
}

/// A linear history: 1 <- 2 <- 3, parents first.
fn linear() -> HistoryGraph {
    HistoryGraph::new(vec![
        commit(1, &[], "root"),
        commit(2, &[1], "middle"),
        commit(3, &[2], "tip"),
    ])
    .unwrap()
}

/// A diamond: 1 <- 2, 1 <- 3, merge 4 with parents [2, 3], then a child 5.
fn diamond() -> HistoryGraph {
    HistoryGraph::new(vec![
        commit(1, &[], "root"),
        commit(2, &[1], "left"),
        commit(3, &[1], "right"),
        commit(4, &[2, 3], "merge"),
        commit(5, &[4], "after"),
    ])
    .unwrap()
}

#[test]
fn validation_rejects_repeated_identifiers() {
    let r = HistoryGraph::new(vec![commit(1, &[], "a"), commit(1, &[], "b")]);
    assert_eq!(r.err().unwrap(), CoreError::TraversalError);
}

#[test]
fn validation_rejects_parent_after_child() {
    let r = HistoryGraph::new(vec![commit(2, &[1], "child first"), commit(1, &[], "parent last")]);
    assert_eq!(r.err().unwrap(), CoreError::TraversalError);
}

#[test]
fn validation_rejects_self_parent() {
    let r = HistoryGraph::new(vec![commit(1, &[1], "own parent")]);
    assert_eq!(r.err().unwrap(), CoreError::TraversalError);
}

#[test]
fn validation_accepts_boundary_parents() {
    // A parent that occurs nowhere in the history is a traversal boundary,
    // not a fault.
    let g = HistoryGraph::new(vec![commit(2, &[9], "start"), commit(3, &[2], "next")]).unwrap();
    assert_eq!(g.len(), 2);
}

#[test]
fn descendants_of_linear_history() {
    let g = linear();
    let d = g.descendants(&id(1));
    assert_eq!(d, vec![id(2), id(3)]);
    let d2 = g.descendants(&id(2));
    assert_eq!(d2, vec![id(3)]);
}

#[test]
fn tip_has_no_descendants() {
    let g = linear();
    assert_eq!(g.descendants(&id(3)), vec![]);
}

#[test]
fn unreferenced_ancestor_has_no_descendants() {
    let g = linear();
    assert_eq!(g.descendants(&id(42)), vec![]);
}

#[test]
fn ancestor_is_never_its_own_descendant() {
    let g = diamond();
    for b in 1..=5u8 {
        let d = g.descendants(&id(b));
        assert!(!d.contains(&id(b)));
    }
}

#[test]
fn descendants_cross_merges_and_branches() {
    let g = diamond();
    assert_eq!(g.descendants(&id(1)), vec![id(2), id(3), id(4), id(5)]);
    assert_eq!(g.descendants(&id(3)), vec![id(4), id(5)]);
    assert_eq!(g.descendants(&id(4)), vec![id(5)]);
}

#[test]
fn zero_generations_admit_nothing() {
    let g = linear();
    assert!(!g.within_generations_from(&id(1), &id(2), 0));
    assert!(!g.within_generations_from(&id(1), &id(1), 0));
}

#[test]
fn one_generation_admits_the_direct_child() {
    let g = linear();
    assert!(g.within_generations_from(&id(1), &id(2), 1));
    assert!(!g.within_generations_from(&id(1), &id(3), 1));
    assert!(g.within_generations_from(&id(1), &id(3), 2));
}

#[test]
fn generation_search_follows_either_merge_parent() {
    let g = diamond();
    // 5 reaches 1 through 4 and either side of the diamond.
    assert!(g.within_generations_from(&id(1), &id(5), 3));
    assert!(!g.within_generations_from(&id(1), &id(5), 2));
    // 5 reaches 3 (the second parent of the merge) in two hops.
    assert!(g.within_generations_from(&id(3), &id(5), 2));
}

#[test]
fn generation_search_ignores_unrelated_commits() {
    let g = diamond();
    assert!(!g.within_generations_from(&id(2), &id(3), 5));
    assert!(!g.within_generations_from(&id(5), &id(1), 5));
}
