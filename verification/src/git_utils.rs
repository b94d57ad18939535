//! The boundary to the underlying version-control library, and the graph
//! operations built directly on it.
//!
//! Every call into git2 stands in a small trusted wrapper whose contract
//! Verus believes; everything the wrappers hand back flows into verified
//! code as plain values — identifiers, parent lists, file paths, diff line
//! records — so the analyses that run on them are proved, whatever the
//! repository on disk holds.

use vstd::prelude::*;

use crate::CoreError;
use crate::history::CommitInfo;
use crate::history::HistoryGraph;
use crate::history::within_generations;
use crate::ids::CommitId;
use crate::text::dedup_list;
use crate::text::file_overlap_decision;
use crate::text::path_passes_ext;
use crate::text::path_passes_ext_exec;

verus! {

#[verifier::external_type_specification]
#[verifier::external_body]
pub struct ExRepository(git2::Repository);

#[verifier::external_type_specification]
#[verifier::external_body]
pub struct ExRevwalk<'a>(git2::Revwalk<'a>);

#[verifier::external_type_specification]
#[verifier::external_body]
pub struct ExDiff<'a>(git2::Diff<'a>);

#[verifier::external_type_specification]
#[verifier::external_body]
pub struct ExGitError(git2::Error);

#[verifier::external_type_specification]
#[verifier::external_body]
pub struct ExOid(git2::Oid);

/// One line of a tree-to-tree diff: the path of the old side of the file,
/// the line number on the old side when the line has one, and the raw
/// one-byte origin marker of the line.
#[derive(Debug)]
pub struct LineRecord {
    pub path: Option<Vec<u8>>,
    pub old_lineno: Option<u32>,
    pub origin: u8,
}

/// Relies on git2::Repository::revwalk, Revwalk::push_head and
/// Revwalk::set_sorting: a walk over every commit reachable from the
/// repository head, in topological order with children before parents.
#[verifier::external_body]
pub fn create_revwalk<'a>(repo: &'a git2::Repository) -> Result<git2::Revwalk<'a>, git2::Error> {
    let mut revwalk = repo.revwalk()?;
    revwalk.push_head()?;
    revwalk.set_sorting(git2::Sort::TOPOLOGICAL)?;
    Ok(revwalk)
}

/// Relies on git2::Revwalk as an iterator over object ids, and on
/// Oid::as_bytes: the raw ids of the walked commits, in the walk's order.
#[verifier::external_body]
pub(crate) fn collect_walk_ids(revwalk: git2::Revwalk) -> (r: Option<Vec<CommitId>>) {
    let mut ids: Vec<CommitId> = Vec::new();
    for oid in revwalk {
        ids.push(CommitId { bytes: oid.ok()?.as_bytes().to_vec() });
    }
    Some(ids)
}

/// Relies on git2::Repository::revwalk with TOPOLOGICAL and REVERSE
/// sorting: the ids of every commit reachable from the repository head, in
/// an order with parents before children.
#[verifier::external_body]
fn walk_ids_parents_first(repo: &git2::Repository) -> (r: Option<Vec<CommitId>>) {
    let mut revwalk = repo.revwalk().ok()?;
    revwalk.push_head().ok()?;
    let mut sorting = git2::Sort::TOPOLOGICAL;
    sorting.insert(git2::Sort::REVERSE);
    revwalk.set_sorting(sorting).ok()?;
    collect_walk_ids(revwalk)
}

/// Relies on git2::Repository::find_commit, Commit::parent_id,
/// Commit::summary_bytes and Commit::time: the recorded parents, one-line
/// summary and epoch timestamp of the commit with the given id.
#[verifier::external_body]
pub(crate) fn lookup_commit(repo: &git2::Repository, id: &CommitId) -> (r: Option<CommitInfo>)
    ensures
        r matches Some(c) ==> c.id@ == id@,
{
    let oid = git2::Oid::from_bytes(&id.bytes).ok()?;
    let commit = repo.find_commit(oid).ok()?;
    let mut parents: Vec<CommitId> = Vec::new();
    for i in 0..commit.parent_count() {
        parents.push(CommitId { bytes: commit.parent_id(i).ok()?.as_bytes().to_vec() });
    }
    Some(CommitInfo {
        id: CommitId { bytes: id.bytes.clone() },
        parents,
        summary: commit.summary_bytes().unwrap_or(&[]).to_vec(),
        timestamp: commit.time().seconds(),
    })
}

/// Relies on git2::Repository::merge_base: the lowest common ancestor of
/// the two commits, when the repository holds one.
#[verifier::external_body]
pub(crate) fn merge_base_ids(repo: &git2::Repository, a: &CommitId, b: &CommitId) -> (r: Option<
    CommitId,
>) {
    let a = git2::Oid::from_bytes(&a.bytes).ok()?;
    let b = git2::Oid::from_bytes(&b.bytes).ok()?;
    let base = repo.merge_base(a, b).ok()?;
    Some(CommitId { bytes: base.as_bytes().to_vec() })
}

/// Relies on git2::Repository::diff_tree_to_tree over the trees of the two
/// commits, with the minimal and ignore-whitespace options set.
#[verifier::external_body]
fn diff_commits<'a>(repo: &'a git2::Repository, old: &CommitId, new: &CommitId) -> (r: Option<
    git2::Diff<'a>,
>) {
    let mut diffoptions = git2::DiffOptions::new();
    diffoptions.minimal(true).ignore_whitespace(true);
    let old = repo.find_commit(git2::Oid::from_bytes(&old.bytes).ok()?).ok()?;
    let old_tree = old.tree().ok()?;
    let new = repo.find_commit(git2::Oid::from_bytes(&new.bytes).ok()?).ok()?;
    let new_tree = new.tree().ok()?;
    repo.diff_tree_to_tree(Some(&old_tree), Some(&new_tree), Some(&mut diffoptions)).ok()
}

/// Relies on git2::Diff::deltas and DiffFile::path_bytes: the old-side and
/// new-side paths of every file the diff touches, possibly repeated.
#[verifier::external_body]
fn delta_paths(diff: &git2::Diff) -> (r: Vec<Vec<u8>>) {
    let mut paths: Vec<Vec<u8>> = Vec::new();
    for delta in diff.deltas() {
        if let Some(p) = delta.old_file().path_bytes() {
            paths.push(p.to_vec());
        }
        if let Some(p) = delta.new_file().path_bytes() {
            paths.push(p.to_vec());
        }
    }
    paths
}

/// Relies on git2::Diff::foreach with a line callback, DiffLine::origin and
/// DiffLine::old_lineno: one record per diff line, in the diff's order.
#[verifier::external_body]
fn diff_line_records(diff: &git2::Diff) -> (r: Option<Vec<LineRecord>>) {
    let mut records: Vec<LineRecord> = Vec::new();
    let mut line_cb = |delta: git2::DiffDelta, _: Option<git2::DiffHunk>, line: git2::DiffLine| {
        records.push(LineRecord {
            path: delta.old_file().path_bytes().map(|p| p.to_vec()),
            old_lineno: line.old_lineno(),
            origin: line.origin() as u8,
        });
        true
    };
    diff.foreach(&mut |_, _| true, None, None, Some(&mut line_cb)).ok()?;
    Some(records)
}

/// Relies on git2::Repository::blame_file over the range from `oldest` to
/// `newest` with copies tracked in the same file, Blame::get_line and
/// BlameHunk::is_boundary: whether the hunk blamed for the given old-side
/// line reaches the boundary of the range, or `None` when there is no hunk.
#[verifier::external_body]
fn blame_line_boundary(
    repo: &git2::Repository,
    path: &Vec<u8>,
    oldest: &CommitId,
    newest: &CommitId,
    line: u32,
) -> (r: Option<bool>) {
    let mut opts = git2::BlameOptions::new();
    opts.track_copies_same_file(true).oldest_commit(
        git2::Oid::from_bytes(&oldest.bytes).ok()?,
    ).newest_commit(git2::Oid::from_bytes(&newest.bytes).ok()?);
    let path = std::path::Path::new(std::str::from_utf8(path).ok()?);
    let blames = repo.blame_file(path, Some(&mut opts)).ok()?;
    let hunk = blames.get_line(line as usize)?;
    Some(hunk.is_boundary())
}

/// True for the origin markers of genuinely added or removed content
/// lines.  Context lines, binary content and end-of-file markers carry
/// other markers and fail this test.
pub open spec fn is_content_origin(origin: u8) -> bool {
    origin == 43 || origin == 45
}

/// True for the origin markers of genuinely added or removed content lines.
pub fn content_origin(origin: u8) -> (r: bool)
    ensures
        r == is_content_origin(origin),
{
    origin == 43 || origin == 45
}

/// True when a blame outcome shows a line changed strictly inside the
/// blamed range: a hunk was found and it does not reach the boundary.  A
/// line blamed on the boundary counts as unchanged within the range.
pub open spec fn blame_shows_change(b: Option<bool>) -> bool {
    b == Some(false)
}

/// True when a blame outcome shows a line changed strictly inside the
/// blamed range.
pub fn blame_overlap(b: &Option<bool>) -> (r: bool)
    ensures
        r == blame_shows_change(*b),
{
    match b {
        Some(is_boundary) => !*is_boundary,
        None => false,
    }
}

/// The distinct paths touched between two commits, from the old and new
/// sides of every file of their tree diff.
pub fn changed_filenames(repo: &git2::Repository, old: &CommitId, new: &CommitId) -> (r: Result<
    Vec<Vec<u8>>,
    CoreError,
>)
    ensures
        r matches Ok(files) ==> forall|i: int, j: int|
            0 <= i < j < files.deep_view().len() ==> files.deep_view()[i] != files.deep_view()[j],
        r matches Err(e) ==> e == CoreError::NotFound,
{
    match diff_commits(repo, old, new) {
        None => Err(CoreError::NotFound),
        Some(diff) => {
            let paths = delta_paths(&diff);
            Ok(dedup_list(&paths))
        },
    }
}

/// True when the two changes touch at least one file in common, after
/// keeping only files that pass the extension filter.  An empty extension
/// list places no restriction.  The decision over the two file lists the
/// diffs hand back is fixed exactly by `file_overlap_decision`; a failing
/// diff surfaces as `NotFound`.
pub fn changed_same_file(
    repo: &git2::Repository,
    commit1_old: &CommitId,
    commit1_new: &CommitId,
    commit2_old: &CommitId,
    commit2_new: &CommitId,
    only_extensions: &Vec<Vec<u8>>,
) -> (r: Result<bool, CoreError>)
    ensures
        r matches Err(e) ==> e == CoreError::NotFound,
{
    let files1 = match changed_filenames(repo, commit1_old, commit1_new) {
        Ok(f) => f,
        Err(e) => {
            return Err(e);
        },
    };
    let files2 = match changed_filenames(repo, commit2_old, commit2_new) {
        Ok(f) => f,
        Err(e) => {
            return Err(e);
        },
    };
    Ok(file_overlap_decision(&files1, &files2, only_extensions))
}

/// True when a diff line is consulted for blame at all: a genuinely added
/// or removed content line, with an old-side line number, in a file whose
/// path passes the extension filter.
pub open spec fn line_considered(rec: LineRecord, exts: Seq<Seq<u8>>) -> bool {
    is_content_origin(rec.origin) && rec.old_lineno is Some && (rec.path matches Some(p)
        && path_passes_ext(p@, exts))
}

/// True when a diff line is consulted for blame at all.
pub fn line_considered_exec(rec: &LineRecord, exts: &Vec<Vec<u8>>) -> (r: bool)
    ensures
        r == line_considered(*rec, exts.deep_view()),
{
    if !content_origin(rec.origin) {
        return false;
    }
    if rec.old_lineno.is_none() {
        return false;
    }
    match &rec.path {
        Some(p) => path_passes_ext_exec(p, exts),
        None => false,
    }
}

/// True when some consulted line's blame outcome shows a change strictly
/// inside the blamed range: the exact decision of the line-overlap test,
/// over the diff lines and the blame outcomes paired with them.
pub open spec fn some_line_overlaps(
    records: Seq<LineRecord>,
    exts: Seq<Seq<u8>>,
    blames: Seq<Option<bool>>,
) -> bool {
    exists|i: int|
        0 <= i < records.len() && i < blames.len() && line_considered(#[trigger] records[i], exts)
            && blame_shows_change(blames[i])
}

/// True when some consulted line's blame outcome shows a change strictly
/// inside the blamed range.  A line blamed on the boundary never counts:
/// the search goes on with the remaining lines.
pub fn line_overlap_decision(
    records: &Vec<LineRecord>,
    exts: &Vec<Vec<u8>>,
    blames: &Vec<Option<bool>>,
) -> (r: bool)
    ensures
        r == some_line_overlaps(records@, exts.deep_view(), blames@),
{
    let n = if records.len() < blames.len() {
        records.len()
    } else {
        blames.len()
    };
    let mut i: usize = 0;
    while i < n
        invariant
            n <= records@.len(),
            n <= blames@.len(),
            n == records@.len() || n == blames@.len(),
            0 <= i <= n,
            forall|t: int|
                0 <= t < i ==> !(line_considered(#[trigger] records@[t], exts.deep_view())
                    && blame_shows_change(blames@[t])),
        decreases n - i,
    {
        let considered = line_considered_exec(&records[i], exts);
        let hit = blame_overlap(&blames[i]);
        if considered && hit {
            proof {
                assert(line_considered(records@[i as int], exts.deep_view())
                    && blame_shows_change(blames@[i as int]));
            }
            return true;
        }
        i = i + 1;
    }
    proof {
        if some_line_overlaps(records@, exts.deep_view(), blames@) {
            let t = choose|t: int|
                0 <= t < records@.len() && t < blames@.len() && line_considered(
                    #[trigger] records@[t],
                    exts.deep_view(),
                ) && blame_shows_change(blames@[t]);
            assert(t < n);
        }
    }
    false
}

/// True when the change from `commit_old` to `commit_new` touches a content
/// line that blame over the range from `blame_oldest` to `blame_newest`
/// attributes to a commit strictly inside the range.  A line blamed on the
/// boundary is treated as no overlap and the search goes on with the next
/// line.  Only lines in files passing the extension filter are considered;
/// the decision over the collected lines and their blame outcomes is fixed
/// exactly by `line_overlap_decision`.  A failing diff surfaces as
/// `NotFound`.
pub fn changed_same_line(
    repo: &git2::Repository,
    blame_oldest: &CommitId,
    blame_newest: &CommitId,
    commit_old: &CommitId,
    commit_new: &CommitId,
    only_extensions: &Vec<Vec<u8>>,
) -> (r: Result<bool, CoreError>)
    ensures
        r matches Err(e) ==> e == CoreError::NotFound,
{
    let diff = match diff_commits(repo, commit_old, commit_new) {
        None => {
            return Err(CoreError::NotFound);
        },
        Some(d) => d,
    };
    let records = match diff_line_records(&diff) {
        None => {
            return Err(CoreError::NotFound);
        },
        Some(r) => r,
    };
    let n = records.len();
    let mut blames: Vec<Option<bool>> = Vec::new();
    let mut i: usize = 0;
    while i < n
        invariant
            n == records@.len(),
            0 <= i <= n,
            blames@.len() == i,
            !some_line_overlaps(records@, only_extensions.deep_view(), blames@),
        decreases n - i,
    {
        let ghost pre = blames@;
        let considered = line_considered_exec(&records[i], only_extensions);
        let mut b: Option<bool> = None;
        if considered {
            if let Some(p) = &records[i].path {
                if let Some(l) = records[i].old_lineno {
                    b = blame_line_boundary(repo, p, blame_oldest, blame_newest, l);
                }
            }
        }
        if considered && blame_overlap(&b) {
            return Ok(true);
        }
        blames.push(b);
        proof {
            assert(!some_line_overlaps(records@, only_extensions.deep_view(), blames@)) by {
                if some_line_overlaps(records@, only_extensions.deep_view(), blames@) {
                    let t = choose|t: int|
                        0 <= t < records@.len() && t < blames@.len() && line_considered(
                            #[trigger] records@[t],
                            only_extensions.deep_view(),
                        ) && blame_shows_change(blames@[t]);
                    if t < pre.len() {
                        assert(blames@[t] == pre[t]);
                        assert(some_line_overlaps(records@, only_extensions.deep_view(), pre));
                    } else {
                        assert(blames@[t] == b);
                    }
                }
            }
        }
        i = i + 1;
    }
    Ok(line_overlap_decision(&records, only_extensions, &blames))
}

/// True when `child` reaches `root` by following one to `n` parent hops in
/// the history: a direct child is within one generation, and a bound of
/// zero admits nothing.
pub fn within_n_generations(
    graph: &HistoryGraph,
    root: &CommitId,
    child: &CommitId,
    n: u32,
) -> (r: bool)
    requires
        graph.wf(),
    ensures
        r == within_generations(graph@, root@, child@, n as nat),
{
    graph.within_generations_from(root, child, n)
}

/// The full history reachable from the repository head, as a checked graph
/// with parents before children.
pub fn load_history(repo: &git2::Repository) -> (r: Result<HistoryGraph, CoreError>)
    ensures
        r matches Ok(h) ==> h.wf(),
        r matches Err(e) ==> e == CoreError::TraversalError || e == CoreError::NotFound,
{
    let ids = match walk_ids_parents_first(repo) {
        None => {
            return Err(CoreError::TraversalError);
        },
        Some(ids) => ids,
    };
    let mut commits: Vec<CommitInfo> = Vec::new();
    let n = ids.len();
    let mut i: usize = 0;
    while i < n
        invariant
            n == ids@.len(),
            0 <= i <= n,
        decreases n - i,
    {
        match lookup_commit(repo, &ids[i]) {
            None => {
                return Err(CoreError::NotFound);
            },
            Some(c) => {
                commits.push(c);
            },
        }
        i = i + 1;
    }
    HistoryGraph::new(commits)
}

/// Every descendant of `ancestor` reachable from the repository head.  The
/// ancestor itself is never in the result; an ancestor with no reachable
/// descendants, or unreachable from head, gives the empty list.
pub fn get_descendants(repo: &git2::Repository, ancestor: CommitId) -> (r: Result<
    Vec<CommitId>,
    CoreError,
>)
    ensures
        r matches Ok(v) ==> !v.deep_view().contains(ancestor@) && v.deep_view().no_duplicates(),
        r matches Err(e) ==> e == CoreError::TraversalError || e == CoreError::NotFound,
{
    let graph = match load_history(repo) {
        Ok(g) => g,
        Err(e) => {
            return Err(e);
        },
    };
    Ok(graph.descendants(&ancestor))
}

} // verus!
