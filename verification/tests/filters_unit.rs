//! The small decision helpers of the overlap filters, and the graph-based
//! generation bound, on concrete values.

use three_way_merge_finder::git_utils::LineRecord;
use three_way_merge_finder::git_utils::blame_overlap;
use three_way_merge_finder::git_utils::content_origin;
use three_way_merge_finder::git_utils::line_overlap_decision;
use three_way_merge_finder::text::file_overlap_decision;
use three_way_merge_finder::git_utils::within_n_generations;
use three_way_merge_finder::history::CommitInfo;
use three_way_merge_finder::history::HistoryGraph;
use three_way_merge_finder::ids::CommitId;

#[test]
fn only_added_and_removed_lines_are_content() {
    assert!(content_origin(b'+'));
    assert!(content_origin(b'-'));
    assert!(!content_origin(b' '));
    assert!(!content_origin(b'='));
    assert!(!content_origin(b'>'));
    assert!(!content_origin(b'<'));
    assert!(!content_origin(b'F'));
    assert!(!content_origin(b'H'));
    assert!(!content_origin(b'B'));
}

#[test]
fn blame_on_the_boundary_is_no_overlap() {
    // A hunk reaching the boundary of the blamed range means the line was
    // untouched inside the range; only a hunk strictly inside it counts.
    assert!(!blame_overlap(&Some(true)));
    assert!(blame_overlap(&Some(false)));
    assert!(!blame_overlap(&None));
}

#[test]
fn generation_bound_on_a_chain() {
    let id = |b: u8| CommitId { bytes: vec![b; 20] };
    let commit = |me: u8, parents: &[u8]| CommitInfo {
        id: id(me),
        parents: parents.iter().map(|p| id(*p)).collect(),
        summary: b"work".to_vec(),
        timestamp: me as i64,
    };
    let g = HistoryGraph::new(vec![
        commit(1, &[]),
        commit(2, &[1]),
        commit(3, &[2]),
        commit(4, &[3]),
    ])
    .unwrap();
    assert!(!within_n_generations(&g, &id(1), &id(4), 0));
    assert!(!within_n_generations(&g, &id(1), &id(4), 2));
    assert!(within_n_generations(&g, &id(1), &id(4), 3));
    assert!(within_n_generations(&g, &id(1), &id(4), 30));
    assert!(within_n_generations(&g, &id(3), &id(4), 1));
}

#[test]
fn line_overlap_decision_on_concrete_outcomes() {
    let rec = |origin: u8, line: Option<u32>, path: Option<&str>| LineRecord {
        path: path.map(|p| p.as_bytes().to_vec()),
        old_lineno: line,
        origin,
    };
    let records = vec![
        rec(b'-', Some(1), Some("a.java")),
        rec(b'-', Some(2), Some("a.java")),
        rec(b' ', Some(3), Some("a.java")),
        rec(b'-', Some(4), Some("a.java")),
    ];
    // A boundary blame on the first line does not decide: the later line
    // blamed inside the range still counts.  A context line never counts,
    // whatever its blame outcome.
    let blames = vec![Some(true), None, Some(false), Some(false)];
    assert!(line_overlap_decision(&records, &vec![], &blames));
    let all_boundary = vec![Some(true), None, Some(false), Some(true)];
    assert!(!line_overlap_decision(&records, &vec![], &all_boundary));
    // The extension filter excludes the overlapping line's file.
    assert!(!line_overlap_decision(&records, &vec![b".rs".to_vec()], &blames));
    assert!(line_overlap_decision(&records, &vec![b".java".to_vec()], &blames));
}

#[test]
fn file_overlap_decision_on_concrete_lists() {
    let files1 = vec![b"a.java".to_vec(), b"b.rs".to_vec()];
    let files2 = vec![b"b.rs".to_vec(), b"c.java".to_vec()];
    assert!(file_overlap_decision(&files1, &files2, &vec![]));
    assert!(!file_overlap_decision(&files1, &files2, &vec![b".java".to_vec()]));
    assert!(file_overlap_decision(&files1, &files2, &vec![b".rs".to_vec()]));
}
