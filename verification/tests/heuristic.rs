//! The summary keyword heuristic on concrete summaries.

use three_way_merge_finder::find_bug_fix::potential_bug_fix_summary;

fn is_fix(summary: &str) -> bool {
    potential_bug_fix_summary(&summary.as_bytes().to_vec())
}

#[test]
fn each_keyword_hits() {
    assert!(is_fix("error"));
    assert!(is_fix("bug"));
    assert!(is_fix("fix"));
    assert!(is_fix("issue"));
    assert!(is_fix("mistake"));
    assert!(is_fix("incorrect"));
    assert!(is_fix("fault"));
    assert!(is_fix("defect"));
    assert!(is_fix("flaw"));
    assert!(is_fix("conflict"));
}

#[test]
fn matching_ignores_ascii_case() {
    assert!(is_fix("FIX the build"));
    assert!(is_fix("Hotfix for the parser"));
    assert!(is_fix("BUG: crash on empty input"));
    assert!(is_fix("Resolve CONFLICT in loader"));
    assert!(is_fix("InCorReCt rounding"));
}

#[test]
fn keyword_inside_longer_words_hits() {
    assert!(is_fix("bugfix release"));
    assert!(is_fix("fixes #42"));
    assert!(is_fix("fixed the build"));
    assert!(is_fix("segfault on startup"));
    assert!(is_fix("defects galore"));
}

#[test]
fn unrelated_summaries_do_not_hit() {
    assert!(!is_fix(""));
    assert!(!is_fix("add new feature"));
    assert!(!is_fix("update documentation"));
    assert!(!is_fix("merge branch into main"));
    assert!(!is_fix("refactor module layout"));
}

#[test]
fn type_is_no_keyword() {
    assert!(!is_fix("add type annotations"));
    assert!(!is_fix("prototype of the new engine"));
}

#[test]
fn fix_null_pointer_is_a_candidate() {
    assert!(is_fix("fix null pointer"));
}
