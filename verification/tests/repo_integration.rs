//! End-to-end runs against real repositories built on the spot: the
//! descendant pass, merge detection, and the filter pipeline, through the
//! same library calls the command-line front end uses.

use three_way_merge_finder::CoreError;
use three_way_merge_finder::find_bug_fix::BugFixFinder;
use three_way_merge_finder::git_utils::changed_same_line;
use three_way_merge_finder::git_utils::create_revwalk;
use three_way_merge_finder::git_utils::get_descendants;
use three_way_merge_finder::ids::CommitId;
use three_way_merge_finder::merge::ThreeWayMerge;
use three_way_merge_finder::merge::find_merges;

fn sig_at(seconds: i64) -> git2::Signature<'static> {
    git2::Signature::new("dev", "dev@example.com", &git2::Time::new(seconds, 0)).unwrap()
}

fn tree_with(repo: &git2::Repository, files: &[(&str, &str)]) -> git2::Oid {
    let mut builder = repo.treebuilder(None).unwrap();
    for (name, content) in files {
        let blob = repo.blob(content.as_bytes()).unwrap();
        builder.insert(*name, blob, 0o100644).unwrap();
    }
    builder.write().unwrap()
}

fn add_commit(
    repo: &git2::Repository,
    parents: &[git2::Oid],
    msg: &str,
    tree: git2::Oid,
    seconds: i64,
) -> git2::Oid {
    let tree = repo.find_tree(tree).unwrap();
    let parent_commits: Vec<git2::Commit> =
        parents.iter().map(|p| repo.find_commit(*p).unwrap()).collect();
    let parent_refs: Vec<&git2::Commit> = parent_commits.iter().collect();
    let s = sig_at(seconds);
    repo.commit(None, &s, &s, msg, &tree, &parent_refs).unwrap()
}

fn set_head(repo: &git2::Repository, tip: git2::Oid) {
    repo.reference("refs/heads/main", tip, true, "test head").unwrap();
    repo.set_head("refs/heads/main").unwrap();
}

fn cid(oid: git2::Oid) -> CommitId {
    CommitId { bytes: oid.as_bytes().to_vec() }
}

#[test]
fn linear_history_descendants_and_fix_search() {
    let repo = git2::Repository::init("/tmp/twmf_itrepo_linear").unwrap();
    let t0 = tree_with(&repo, &[("f.txt", "one\ntwo\n")]);
    let o = add_commit(&repo, &[], "begin work", t0, 1_600_000_000);
    let t1 = tree_with(&repo, &[("f.txt", "one\ntwo\nthree\n")]);
    let a = add_commit(&repo, &[o], "extend the file", t1, 1_600_000_010);
    let t2 = tree_with(&repo, &[("f.txt", "one\n2\nthree\n")]);
    let m = add_commit(&repo, &[a], "fix null pointer", t2, 1_600_000_020);
    set_head(&repo, m);

    let descendants = get_descendants(&repo, cid(o)).unwrap();
    assert_eq!(descendants, vec![cid(a), cid(m)]);
    assert_eq!(get_descendants(&repo, cid(m)).unwrap(), vec![]);

    // The tip fixes a bug: the message filter keeps it, a generation bound
    // of one keeps it as the direct child, and a bound of zero drops it.
    let mut bff = BugFixFinder::find(&repo, &a.to_string()).unwrap();
    assert_eq!(bff.fixes, vec![cid(m)]);
    bff.msg_contains(vec![]);
    assert_eq!(bff.fixes, vec![cid(m)]);
    bff.within_n_generations(&cid(a), 1);
    assert_eq!(bff.fixes, vec![cid(m)]);
    bff.within_n_generations(&cid(a), 0);
    assert_eq!(bff.collect(), vec![]);
}

#[test]
fn malformed_ancestor_text_fails_before_any_traversal() {
    let repo = git2::Repository::init("/tmp/twmf_itrepo_malformed").unwrap();
    let t0 = tree_with(&repo, &[("f.txt", "x\n")]);
    let o = add_commit(&repo, &[], "only commit", t0, 1_600_000_000);
    set_head(&repo, o);
    let r = BugFixFinder::find(&repo, "not-a-commit-id");
    assert!(matches!(r, Err(CoreError::Malformed)));
}

#[test]
fn merge_detection_skips_disjoint_histories() {
    let repo = git2::Repository::init("/tmp/twmf_itrepo_merges").unwrap();
    // One root with a child, and a second, unrelated root.
    let t_r1 = tree_with(&repo, &[("shared.java", "base\n")]);
    let r1 = add_commit(&repo, &[], "first root", t_r1, 1_600_000_000);
    let t_c1 = tree_with(&repo, &[("shared.java", "base\nmore\n")]);
    let c1 = add_commit(&repo, &[r1], "grow first root", t_c1, 1_600_000_010);
    let t_r2 = tree_with(&repo, &[("other.txt", "elsewhere\n")]);
    let r2 = add_commit(&repo, &[], "second root", t_r2, 1_600_000_005);
    // A merge whose parents share no history at all.
    let t_x = tree_with(&repo, &[("shared.java", "base\nmore\n"), ("other.txt", "elsewhere\n")]);
    let x = add_commit(&repo, &[c1, r2], "join histories", t_x, 1_600_000_020);
    // A genuine three-way merge on top of it.
    let t_ya = tree_with(&repo, &[("shared.java", "ya\n"), ("other.txt", "elsewhere\n")]);
    let ya = add_commit(&repo, &[x], "side one", t_ya, 1_600_000_030);
    let t_yb = tree_with(&repo, &[("shared.java", "yb\n"), ("other.txt", "elsewhere\n")]);
    let yb = add_commit(&repo, &[x], "side two", t_yb, 1_600_000_040);
    let t_z = tree_with(&repo, &[("shared.java", "ya yb\n"), ("other.txt", "elsewhere\n")]);
    let z = add_commit(&repo, &[ya, yb], "merge the sides", t_z, 1_600_000_050);
    set_head(&repo, z);

    // The disjoint merge has no common ancestor and is dropped; the scan
    // still finds the genuine merge, with the join commit as its origin.
    let walk = create_revwalk(&repo).unwrap();
    let quads = find_merges(&repo, walk, None).unwrap();
    assert_eq!(quads.len(), 1);
    let quad = &quads[0];
    assert_eq!(quad.m, cid(z));
    assert_eq!(quad.a, cid(ya));
    assert_eq!(quad.b, cid(yb));
    assert_eq!(quad.o, cid(x));
    assert!(quad.has_distinct_o());

    // The time bound keeps only merges strictly before it.
    let walk = create_revwalk(&repo).unwrap();
    assert_eq!(find_merges(&repo, walk, Some(1_600_000_050)).unwrap().len(), 0);
    let walk = create_revwalk(&repo).unwrap();
    assert_eq!(find_merges(&repo, walk, Some(1_600_000_051)).unwrap().len(), 1);

    // Both sides changed the same java file relative to the origin.
    assert!(quad.a_b_change_same_file(&repo, &vec![b".java".to_vec()]).unwrap());
    assert!(!quad.a_b_change_same_file(&repo, &vec![b".rs".to_vec()]).unwrap());
    let both = quad.files_changed_in_both_branches(&repo).unwrap();
    assert_eq!(both, vec![b"shared.java".to_vec()]);
    let considered = quad.files_to_consider(&repo).unwrap();
    assert_eq!(considered, vec![b"shared.java".to_vec()]);
    assert_eq!(quad.time(&repo).unwrap(), 1_600_000_050);
}

#[test]
fn file_overlap_filter_excludes_merge_candidates() {
    let repo = git2::Repository::init("/tmp/twmf_itrepo_overlap").unwrap();
    let t_o = tree_with(&repo, &[("f.java", "1\n2\n3\n")]);
    let o = add_commit(&repo, &[], "origin", t_o, 1_600_000_000);
    let t_a = tree_with(&repo, &[("f.java", "1\nchanged\n3\n")]);
    let a = add_commit(&repo, &[o], "fix conflict in f", t_a, 1_600_000_010);
    let t_b = tree_with(&repo, &[("f.java", "1\n2\n3\n"), ("g.java", "new\n")]);
    let b = add_commit(&repo, &[o], "fix flaw in g", t_b, 1_600_000_020);
    let t_m = tree_with(&repo, &[("f.java", "1\nchanged\n3\n"), ("g.java", "new\n")]);
    let m = add_commit(&repo, &[a, b], "fix both sides", t_m, 1_600_000_030);
    set_head(&repo, m);

    let mut bff = BugFixFinder::find(&repo, &o.to_string()).unwrap();
    bff.msg_contains(vec![]);
    assert_eq!(bff.fixes.len(), 3);
    // Only candidates with exactly one parent whose diff touches the given
    // file survive: the merge commit is excluded whatever it changed.
    bff.changed_files(&repo, vec![b"f.java".to_vec()]);
    assert_eq!(bff.collect(), vec![cid(a)]);
}

#[test]
fn line_overlap_filter_respects_the_blame_boundary() {
    let repo = git2::Repository::init("/tmp/twmf_itrepo_blame").unwrap();
    let t_o = tree_with(&repo, &[("code.java", "alpha\nbeta\ngamma\n")]);
    let o = add_commit(&repo, &[], "origin", t_o, 1_600_000_000);
    let t_a = tree_with(&repo, &[("code.java", "alpha\nBETA\ngamma\n")]);
    let a = add_commit(&repo, &[o], "rework beta", t_a, 1_600_000_010);
    let m = add_commit(&repo, &[a], "checkpoint", t_a, 1_600_000_020);
    // One descendant touches the line changed between origin and merge;
    // the other touches only lines unchanged since the origin.
    let t_d1 = tree_with(&repo, &[("code.java", "alpha\nBETA2\ngamma\n")]);
    let d1 = add_commit(&repo, &[m], "fix beta handling", t_d1, 1_600_000_030);
    let t_d2 = tree_with(&repo, &[("code.java", "ALPHA\nBETA\nGAMMA\n")]);
    let d2 = add_commit(&repo, &[m], "fix alpha and gamma", t_d2, 1_600_000_040);
    let t_h = tree_with(&repo, &[("code.java", "ALPHA\nBETA2\nGAMMA\n")]);
    let h = add_commit(&repo, &[d1, d2], "combine branches", t_h, 1_600_000_050);
    set_head(&repo, h);

    let twm = ThreeWayMerge { o: cid(o), a: cid(a), b: cid(a), m: cid(m) };

    let mut bff = BugFixFinder::find(&repo, &m.to_string()).unwrap();
    bff.msg_contains(vec![]);
    assert_eq!(bff.fixes.len(), 2);
    // A line blamed on the boundary counts as unchanged within the range:
    // the candidate touching only such lines is excluded, after every one
    // of its lines has been checked; the candidate touching a line changed
    // inside the range is kept; the merge of the two has two parents and
    // never qualifies.
    bff.changed_same_line_in_ext(&repo, &twm, &vec![]);
    assert_eq!(bff.collect(), vec![cid(d1)]);

    // With an extension filter that matches nothing, nothing survives.
    let mut bff = BugFixFinder::find(&repo, &m.to_string()).unwrap();
    bff.changed_same_line_in_ext(&repo, &twm, &vec![b".rs".to_vec()]);
    assert_eq!(bff.collect(), vec![]);

    // The underlying line test agrees: the first fix overlaps a line that
    // changed inside the blamed range, the second does not.
    assert!(changed_same_line(&repo, &cid(o), &cid(m), &cid(m), &cid(d1), &vec![]).unwrap());
    assert!(!changed_same_line(&repo, &cid(o), &cid(m), &cid(m), &cid(d2), &vec![]).unwrap());
}
