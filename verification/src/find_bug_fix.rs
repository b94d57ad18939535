//! Finding bug-fixing commits: a keyword heuristic over commit summaries,
//! and a pipeline of filters that narrows the descendants of a commit down
//! to plausible fixes.

use vstd::prelude::*;

use crate::CoreError;
use crate::git_utils::changed_filenames;
use crate::git_utils::changed_same_line;
use crate::git_utils::load_history;
use crate::history::CommitNode;
use crate::history::HistoryGraph;
use crate::history::descendant_seq;
use crate::history::graph_wf;
use crate::history::lemma_descendant_within_bound;
use crate::history::lemma_id_lookup;
use crate::history::node_in;
use crate::history::parents_of_id;
use crate::history::summary_of_id;
use crate::history::within_generations;
use crate::ids::CommitId;
use crate::ids::hex_decoded;
use crate::ids::valid_hex_id;
use crate::merge::ThreeWayMerge;
use crate::text::contains_ci;
use crate::text::contains_ci_exec;
use crate::text::lists_intersect;
use crate::text::lists_intersect_exec;
use crate::text::subsequence_of;
use crate::text::lemma_subsequence_extend;
use crate::text::lemma_subsequence_extend_both;
use vstd::string::StringSliceAdditionalSpecFns;

verus! {

/// The fixed keyword list of the summary heuristic, in lower case.
pub open spec fn keyword_list() -> Seq<Seq<u8>> {
    seq![
        seq![101u8, 114, 114, 111, 114],
        seq![98u8, 117, 103],
        seq![102u8, 105, 120],
        seq![105u8, 115, 115, 117, 101],
        seq![109u8, 105, 115, 116, 97, 107, 101],
        seq![105u8, 110, 99, 111, 114, 114, 101, 99, 116],
        seq![102u8, 97, 117, 108, 116],
        seq![100u8, 101, 102, 101, 99, 116],
        seq![102u8, 108, 97, 119],
        seq![99u8, 111, 110, 102, 108, 105, 99, 116],
    ]
}

/// True when the summary holds one of the fixed keywords, ignoring ASCII
/// case: a single hit classifies the commit as a bug-fix candidate.
pub open spec fn is_fix_summary(s: Seq<u8>) -> bool {
    exists|k: int| 0 <= k < keyword_list().len() && contains_ci(s, #[trigger] keyword_list()[k])
}

/// The fixed keyword list as vectors: error, bug, fix, issue, mistake,
/// incorrect, fault, defect, flaw, conflict.
fn keyword_vecs() -> (r: Vec<Vec<u8>>)
    ensures
        r.deep_view() == keyword_list(),
{
    let mut out: Vec<Vec<u8>> = Vec::new();
    let mut w: Vec<u8> = Vec::new();
    w.push(101);
    w.push(114);
    w.push(114);
    w.push(111);
    w.push(114);
    proof {
        assert(w@ =~= keyword_list()[0]);
    }
    out.push(w);
    let mut w: Vec<u8> = Vec::new();
    w.push(98);
    w.push(117);
    w.push(103);
    proof {
        assert(w@ =~= keyword_list()[1]);
    }
    out.push(w);
    let mut w: Vec<u8> = Vec::new();
    w.push(102);
    w.push(105);
    w.push(120);
    proof {
        assert(w@ =~= keyword_list()[2]);
    }
    out.push(w);
    let mut w: Vec<u8> = Vec::new();
    w.push(105);
    w.push(115);
    w.push(115);
    w.push(117);
    w.push(101);
    proof {
        assert(w@ =~= keyword_list()[3]);
    }
    out.push(w);
    let mut w: Vec<u8> = Vec::new();
    w.push(109);
    w.push(105);
    w.push(115);
    w.push(116);
    w.push(97);
    w.push(107);
    w.push(101);
    proof {
        assert(w@ =~= keyword_list()[4]);
    }
    out.push(w);
    let mut w: Vec<u8> = Vec::new();
    w.push(105);
    w.push(110);
    w.push(99);
    w.push(111);
    w.push(114);
    w.push(114);
    w.push(101);
    w.push(99);
    w.push(116);
    proof {
        assert(w@ =~= keyword_list()[5]);
    }
    out.push(w);
    let mut w: Vec<u8> = Vec::new();
    w.push(102);
    w.push(97);
    w.push(117);
    w.push(108);
    w.push(116);
    proof {
        assert(w@ =~= keyword_list()[6]);
    }
    out.push(w);
    let mut w: Vec<u8> = Vec::new();
    w.push(100);
    w.push(101);
    w.push(102);
    w.push(101);
    w.push(99);
    w.push(116);
    proof {
        assert(w@ =~= keyword_list()[7]);
    }
    out.push(w);
    let mut w: Vec<u8> = Vec::new();
    w.push(102);
    w.push(108);
    w.push(97);
    w.push(119);
    proof {
        assert(w@ =~= keyword_list()[8]);
    }
    out.push(w);
    let mut w: Vec<u8> = Vec::new();
    w.push(99);
    w.push(111);
    w.push(110);
    w.push(102);
    w.push(108);
    w.push(105);
    w.push(99);
    w.push(116);
    proof {
        assert(w@ =~= keyword_list()[9]);
    }
    out.push(w);
    proof {
        assert(out.deep_view() =~~= keyword_list());
    }
    out
}
/// True when the summary holds one of the fixed keywords, ignoring ASCII
/// case.
pub fn potential_bug_fix_summary(summary: &Vec<u8>) -> (r: bool)
    ensures
        r == is_fix_summary(summary@),
{
    let keywords = keyword_vecs();
    let n = keywords.len();
    let mut k: usize = 0;
    while k < n
        invariant
            keywords.deep_view() == keyword_list(),
            n == keywords@.len(),
            0 <= k <= n,
            forall|t: int| 0 <= t < k ==> !contains_ci(summary@, #[trigger] keyword_list()[t]),
        decreases n - k,
    {
        let hit = contains_ci_exec(summary, &keywords[k]);
        proof {
            assert(keywords.deep_view()[k as int] == keywords@[k as int]@);
        }
        if hit {
            proof {
                assert(contains_ci(summary@, keyword_list()[k as int]));
            }
            return true;
        }
        k = k + 1;
    }
    proof {
        if is_fix_summary(summary@) {
            let t = choose|t: int|
                0 <= t < keyword_list().len() && contains_ci(summary@, #[trigger] keyword_list()[t]);
        }
    }
    false
}

/// True when the message filter keeps a candidate: the candidate stands in
/// the history and its summary matches the built-in keyword list.
pub open spec fn msg_keeps(g: Seq<CommitNode>, id: Seq<u8>) -> bool {
    node_in(g, id) && is_fix_summary(summary_of_id(g, id))
}

/// What the message filter leaves of a candidate list.
pub open spec fn msg_filtered(g: Seq<CommitNode>, fixes: Seq<Seq<u8>>) -> Seq<Seq<u8>> {
    fixes.filter(|id: Seq<u8>| msg_keeps(g, id))
}

/// What the generation-distance filter leaves of a candidate list.
pub open spec fn gen_filtered(
    g: Seq<CommitNode>,
    root: Seq<u8>,
    fixes: Seq<Seq<u8>>,
    n: nat,
) -> Seq<Seq<u8>> {
    fixes.filter(|id: Seq<u8>| within_generations(g, root, id, n))
}

/// Filtering a list whose members all satisfy the predicate returns it
/// unchanged.
proof fn lemma_filter_of_satisfying(s: Seq<Seq<u8>>, p: spec_fn(Seq<u8>) -> bool)
    requires
        forall|i: int| 0 <= i < s.len() ==> p(#[trigger] s[i]),
    ensures
        s.filter(p) == s,
    decreases s.len(),
{
    reveal(Seq::filter);
    if s.len() > 0 {
        assert(forall|i: int| 0 <= i < s.drop_last().len() ==> p(#[trigger] s.drop_last()[i]));
        lemma_filter_of_satisfying(s.drop_last(), p);
        assert(p(s.last()));
        assert(s.filter(p) =~= s.drop_last().push(s.last()));
        assert(s.drop_last().push(s.last()) =~= s);
    } else {
        assert(s.filter(p) =~= s);
    }
}

/// Filtering a list none of whose members satisfies the predicate leaves
/// nothing.
proof fn lemma_filter_of_none(s: Seq<Seq<u8>>, p: spec_fn(Seq<u8>) -> bool)
    requires
        forall|i: int| 0 <= i < s.len() ==> !p(#[trigger] s[i]),
    ensures
        s.filter(p) == Seq::<Seq<u8>>::empty(),
    decreases s.len(),
{
    reveal(Seq::filter);
    if s.len() > 0 {
        assert(forall|i: int| 0 <= i < s.drop_last().len() ==> !p(#[trigger] s.drop_last()[i]));
        lemma_filter_of_none(s.drop_last(), p);
        assert(!p(s.last()));
    }
}

/// Re-applying the message filter to its own output changes nothing: the
/// filter is idempotent.
pub proof fn lemma_msg_filter_idempotent(g: Seq<CommitNode>, fixes: Seq<Seq<u8>>)
    ensures
        msg_filtered(g, msg_filtered(g, fixes)) == msg_filtered(g, fixes),
{
    let p = |id: Seq<u8>| msg_keeps(g, id);
    let once = fixes.filter(p);
    assert forall|i: int| 0 <= i < once.len() implies p(#[trigger] once[i]) by {
        fixes.lemma_filter_pred(p, i);
    }
    lemma_filter_of_satisfying(once, p);
}

/// A generation bound of zero retains nothing.
pub proof fn lemma_generation_filter_zero(g: Seq<CommitNode>, root: Seq<u8>, fixes: Seq<Seq<u8>>)
    ensures
        gen_filtered(g, root, fixes, 0) == Seq::<Seq<u8>>::empty(),
{
    let p = |id: Seq<u8>| within_generations(g, root, id, 0);
    assert(forall|i: int| 0 <= i < fixes.len() ==> !p(#[trigger] fixes[i]));
    lemma_filter_of_none(fixes, p);
}

/// With a bound at least the size of the history, the generation filter
/// keeps every candidate drawn from the root's descendant set: a large
/// enough bound filters nothing beyond the descendant set itself.
pub proof fn lemma_generation_filter_large(
    g: Seq<CommitNode>,
    root: Seq<u8>,
    fixes: Seq<Seq<u8>>,
    n: nat,
)
    requires
        graph_wf(g),
        n >= g.len(),
        forall|t: int|
            0 <= t < fixes.len() ==> crate::history::descendant_ids(g, root).contains(
                #[trigger] fixes[t],
            ),
    ensures
        gen_filtered(g, root, fixes, n) == fixes,
{
    let p = |id: Seq<u8>| within_generations(g, root, id, n);
    assert forall|t: int| 0 <= t < fixes.len() implies p(#[trigger] fixes[t]) by {
        lemma_descendant_within_bound(g, root, fixes[t], n);
    }
    lemma_filter_of_satisfying(fixes, p);
}

/// True when the file-overlap filter keeps a candidate, given the file
/// list its diff handed back: the candidate has exactly one parent, its
/// diff succeeded, and some changed file also stands in the reference set.
pub open spec fn file_keep(
    g: Seq<CommitNode>,
    id: Seq<u8>,
    diff: Option<Seq<Seq<u8>>>,
    changes: Seq<Seq<u8>>,
) -> bool {
    parents_of_id(g, id).len() == 1 && (diff matches Some(files) && lists_intersect(
        changes,
        files,
    ))
}

/// What the file-overlap filter leaves of a candidate list, given the file
/// list each candidate's diff handed back.
pub open spec fn file_filtered(
    g: Seq<CommitNode>,
    fixes: Seq<Seq<u8>>,
    diffs: Seq<Option<Seq<Seq<u8>>>>,
    changes: Seq<Seq<u8>>,
) -> Seq<Seq<u8>>
    decreases fixes.len(),
{
    if fixes.len() == 0 {
        Seq::empty()
    } else {
        let rest = file_filtered(g, fixes.drop_last(), diffs.drop_last(), changes);
        if diffs.len() == fixes.len() && file_keep(g, fixes.last(), diffs.last(), changes) {
            rest.push(fixes.last())
        } else {
            rest
        }
    }
}

/// True when the line-overlap filter keeps a candidate, given the outcome
/// of the line test over its diff: the candidate has exactly one parent and
/// the test found an overlapping line.
pub open spec fn line_keep(g: Seq<CommitNode>, id: Seq<u8>, overlap: Option<bool>) -> bool {
    parents_of_id(g, id).len() == 1 && overlap == Some(true)
}

/// What the line-overlap filter leaves of a candidate list, given the
/// outcome of the line test for each candidate.
pub open spec fn line_filtered(
    g: Seq<CommitNode>,
    fixes: Seq<Seq<u8>>,
    overlaps: Seq<Option<bool>>,
) -> Seq<Seq<u8>>
    decreases fixes.len(),
{
    if fixes.len() == 0 {
        Seq::empty()
    } else {
        let rest = line_filtered(g, fixes.drop_last(), overlaps.drop_last());
        if overlaps.len() == fixes.len() && line_keep(g, fixes.last(), overlaps.last()) {
            rest.push(fixes.last())
        } else {
            rest
        }
    }
}

/// The file-overlap filter's output is a subsequence of its input, and
/// every survivor stands in the input with exactly one parent.
pub proof fn lemma_file_filtered_props(
    g: Seq<CommitNode>,
    fixes: Seq<Seq<u8>>,
    diffs: Seq<Option<Seq<Seq<u8>>>>,
    changes: Seq<Seq<u8>>,
)
    ensures
        subsequence_of(file_filtered(g, fixes, diffs, changes), fixes),
        forall|t: int|
            0 <= t < file_filtered(g, fixes, diffs, changes).len() ==> fixes.contains(
                #[trigger] file_filtered(g, fixes, diffs, changes)[t],
            ) && parents_of_id(g, file_filtered(g, fixes, diffs, changes)[t]).len() == 1,
    decreases fixes.len(),
{
    if fixes.len() > 0 {
        lemma_file_filtered_props(g, fixes.drop_last(), diffs.drop_last(), changes);
        let rest = file_filtered(g, fixes.drop_last(), diffs.drop_last(), changes);
        let all = file_filtered(g, fixes, diffs, changes);
        assert(fixes =~= fixes.drop_last().push(fixes.last()));
        if diffs.len() == fixes.len() && file_keep(g, fixes.last(), diffs.last(), changes) {
            lemma_subsequence_extend_both(rest, fixes.drop_last(), fixes.last());
        } else {
            lemma_subsequence_extend(rest, fixes.drop_last(), fixes.last());
        }
        assert forall|t: int| 0 <= t < all.len() implies fixes.contains(#[trigger] all[t])
            && parents_of_id(g, all[t]).len() == 1 by {
            if t < rest.len() {
                assert(all[t] == rest[t]);
                assert(fixes.drop_last().contains(rest[t]));
                let j = choose|j: int|
                    0 <= j < fixes.drop_last().len() && fixes.drop_last()[j] == rest[t];
                assert(fixes[j] == all[t]);
            } else {
                assert(all[t] == fixes.last());
                assert(fixes[fixes.len() - 1] == all[t]);
                assert(file_keep(g, fixes.last(), diffs.last(), changes));
            }
        }
    }
}

/// The line-overlap filter's output is a subsequence of its input, and
/// every survivor stands in the input with exactly one parent.
pub proof fn lemma_line_filtered_props(
    g: Seq<CommitNode>,
    fixes: Seq<Seq<u8>>,
    overlaps: Seq<Option<bool>>,
)
    ensures
        subsequence_of(line_filtered(g, fixes, overlaps), fixes),
        forall|t: int|
            0 <= t < line_filtered(g, fixes, overlaps).len() ==> fixes.contains(
                #[trigger] line_filtered(g, fixes, overlaps)[t],
            ) && parents_of_id(g, line_filtered(g, fixes, overlaps)[t]).len() == 1,
    decreases fixes.len(),
{
    if fixes.len() > 0 {
        lemma_line_filtered_props(g, fixes.drop_last(), overlaps.drop_last());
        let rest = line_filtered(g, fixes.drop_last(), overlaps.drop_last());
        let all = line_filtered(g, fixes, overlaps);
        assert(fixes =~= fixes.drop_last().push(fixes.last()));
        if overlaps.len() == fixes.len() && line_keep(g, fixes.last(), overlaps.last()) {
            lemma_subsequence_extend_both(rest, fixes.drop_last(), fixes.last());
        } else {
            lemma_subsequence_extend(rest, fixes.drop_last(), fixes.last());
        }
        assert forall|t: int| 0 <= t < all.len() implies fixes.contains(#[trigger] all[t])
            && parents_of_id(g, all[t]).len() == 1 by {
            if t < rest.len() {
                assert(all[t] == rest[t]);
                assert(fixes.drop_last().contains(rest[t]));
                let j = choose|j: int|
                    0 <= j < fixes.drop_last().len() && fixes.drop_last()[j] == rest[t];
                assert(fixes[j] == all[t]);
            } else {
                assert(all[t] == fixes.last());
                assert(fixes[fixes.len() - 1] == all[t]);
                assert(line_keep(g, fixes.last(), overlaps.last()));
            }
        }
    }
}

/// Keeps each candidate the file-overlap test accepts, given the file list
/// its diff handed back: the exact per-candidate decision of the filter.
pub fn apply_file_overlap(
    graph: &HistoryGraph,
    fixes: &Vec<CommitId>,
    diffs: &Vec<Option<Vec<Vec<u8>>>>,
    changes: &Vec<Vec<u8>>,
) -> (r: Vec<CommitId>)
    requires
        graph.wf(),
        fixes@.len() == diffs@.len(),
    ensures
        r.deep_view() == file_filtered(
            graph@,
            fixes.deep_view(),
            diffs.deep_view(),
            changes.deep_view(),
        ),
{
    let ghost g = graph@;
    let ghost fv = fixes.deep_view();
    let ghost dv = diffs.deep_view();
    let ghost cv = changes.deep_view();
    let n = fixes.len();
    let mut out: Vec<CommitId> = Vec::new();
    let mut i: usize = 0;
    while i < n
        invariant
            graph.wf(),
            g == graph@,
            fv == fixes.deep_view(),
            dv == diffs.deep_view(),
            cv == changes.deep_view(),
            n == fv.len(),
            n == dv.len(),
            0 <= i <= n,
            out.deep_view() == file_filtered(g, fv.subrange(0, i as int), dv.subrange(0, i as int), cv),
        decreases n - i,
    {
        let ghost pre = out.deep_view();
        proof {
            assert(fixes.deep_view()[i as int] == fixes@[i as int]@);
            assert(dv[i as int] == (match diffs@[i as int] {
                Some(files) => Some(files.deep_view()),
                None => None,
            }));
        }
        let keep = match graph.index_of(&fixes[i]) {
            None => false,
            Some(j) => {
                proof {
                    lemma_id_lookup(g, j as int);
                }
                if graph.parent_count_at(j) == 1 {
                    match &diffs[i] {
                        Some(files) => lists_intersect_exec(changes, files),
                        None => false,
                    }
                } else {
                    false
                }
            },
        };
        proof {
            assert(keep == file_keep(g, fv[i as int], dv[i as int], cv));
        }
        if keep {
            out.push(fixes[i].duplicate());
            proof {
                assert(out.deep_view() =~= pre.push(fv[i as int]));
            }
        }
        proof {
            let sub1 = fv.subrange(0, i as int + 1);
            let dub1 = dv.subrange(0, i as int + 1);
            assert(sub1.drop_last() =~= fv.subrange(0, i as int));
            assert(dub1.drop_last() =~= dv.subrange(0, i as int));
            assert(sub1.last() == fv[i as int]);
            assert(dub1.last() == dv[i as int]);
            assert(out.deep_view() == file_filtered(g, sub1, dub1, cv));
        }
        i = i + 1;
    }
    proof {
        assert(fv.subrange(0, n as int) =~= fv);
        assert(dv.subrange(0, n as int) =~= dv);
    }
    out
}

/// Keeps each candidate the line-overlap test accepts, given the outcome
/// of the test over its diff: the exact per-candidate decision of the
/// filter.
pub fn apply_line_overlap(
    graph: &HistoryGraph,
    fixes: &Vec<CommitId>,
    overlaps: &Vec<Option<bool>>,
) -> (r: Vec<CommitId>)
    requires
        graph.wf(),
        fixes@.len() == overlaps@.len(),
    ensures
        r.deep_view() == line_filtered(graph@, fixes.deep_view(), overlaps@),
{
    let ghost g = graph@;
    let ghost fv = fixes.deep_view();
    let ghost ov = overlaps@;
    let n = fixes.len();
    let mut out: Vec<CommitId> = Vec::new();
    let mut i: usize = 0;
    while i < n
        invariant
            graph.wf(),
            g == graph@,
            fv == fixes.deep_view(),
            ov == overlaps@,
            n == fv.len(),
            n == ov.len(),
            0 <= i <= n,
            out.deep_view() == line_filtered(g, fv.subrange(0, i as int), ov.subrange(0, i as int)),
        decreases n - i,
    {
        let ghost pre = out.deep_view();
        proof {
            assert(fixes.deep_view()[i as int] == fixes@[i as int]@);
        }
        let keep = match graph.index_of(&fixes[i]) {
            None => false,
            Some(j) => {
                proof {
                    lemma_id_lookup(g, j as int);
                }
                if graph.parent_count_at(j) == 1 {
                    match overlaps[i] {
                        Some(b) => b,
                        None => false,
                    }
                } else {
                    false
                }
            },
        };
        proof {
            assert(keep == line_keep(g, fv[i as int], ov[i as int]));
        }
        if keep {
            out.push(fixes[i].duplicate());
            proof {
                assert(out.deep_view() =~= pre.push(fv[i as int]));
            }
        }
        proof {
            let sub1 = fv.subrange(0, i as int + 1);
            let oub1 = ov.subrange(0, i as int + 1);
            assert(sub1.drop_last() =~= fv.subrange(0, i as int));
            assert(oub1.drop_last() =~= ov.subrange(0, i as int));
            assert(sub1.last() == fv[i as int]);
            assert(oub1.last() == ov[i as int]);
            assert(out.deep_view() == line_filtered(g, sub1, oub1));
        }
        i = i + 1;
    }
    proof {
        assert(fv.subrange(0, n as int) =~= fv);
        assert(ov.subrange(0, n as int) =~= ov);
    }
    out
}

/// The candidate pipeline: the commit history it was built over, and the
/// candidates that survive the filters applied so far.
#[derive(Debug)]
pub struct BugFixFinder {
    /// The history the candidates are judged against.
    pub graph: HistoryGraph,
    /// The surviving candidates, in the descendant pass's order.
    pub fixes: Vec<CommitId>,
}

impl BugFixFinder {
    /// A pipeline is well-formed when its history is.
    pub open spec fn wf(&self) -> bool {
        self.graph.wf()
    }

    /// Seeds the candidate list with every descendant of `ancestor` in the
    /// given history.
    pub fn from_graph(graph: HistoryGraph, ancestor: &CommitId) -> (r: BugFixFinder)
        requires
            graph.wf(),
        ensures
            r.wf(),
            r.graph@ == graph@,
            r.fixes.deep_view() == descendant_seq(graph@, ancestor@),
            !r.fixes.deep_view().contains(ancestor@),
    {
        let fixes = graph.descendants(ancestor);
        BugFixFinder { graph, fixes }
    }

    /// Loads the history reachable from the repository head and seeds the
    /// candidates with the descendants of the commit the hex text names.
    /// Text that is not a syntactically valid identifier fails as malformed
    /// before any traversal starts.
    pub fn find(repo: &git2::Repository, ancestor_str: &str) -> (r: Result<BugFixFinder, CoreError>)
        ensures
            !valid_hex_id(ancestor_str.spec_bytes()) ==> (r matches Err(e) && e
                == CoreError::Malformed),
            valid_hex_id(ancestor_str.spec_bytes()) ==> (r matches Err(e) ==> (e
                == CoreError::NotFound || e == CoreError::TraversalError)),
            r matches Ok(f) ==> f.wf() && valid_hex_id(ancestor_str.spec_bytes())
                && f.fixes.deep_view() == descendant_seq(
                f.graph@,
                hex_decoded(ancestor_str.spec_bytes()),
            ) && !f.fixes.deep_view().contains(hex_decoded(ancestor_str.spec_bytes())),
    {
        let ancestor = match CommitId::from_hex(ancestor_str) {
            Ok(id) => id,
            Err(e) => {
                return Err(e);
            },
        };
        let graph = match load_history(repo) {
            Ok(g) => g,
            Err(e) => {
                return Err(e);
            },
        };
        Ok(Self::from_graph(graph, &ancestor))
    }

    /// Consumes the pipeline and hands out the surviving candidates.
    pub fn collect(self) -> (r: Vec<CommitId>)
        ensures
            r.deep_view() == self.fixes.deep_view(),
    {
        self.fixes
    }

    /// Message filter: keeps the candidates whose summary matches the
    /// built-in keyword list.  The supplied matcher list is accepted and
    /// ignored — the built-in list always applies, and the contract states
    /// exactly that.
    pub fn msg_contains(&mut self, _matchers: Vec<Vec<u8>>)
        requires
            old(self).wf(),
        ensures
            final(self).wf(),
            final(self).graph@ == old(self).graph@,
            final(self).fixes.deep_view() == msg_filtered(
                old(self).graph@,
                old(self).fixes.deep_view(),
            ),
    {
        let ghost g = self.graph@;
        let ghost fixes0 = self.fixes.deep_view();
        let ghost pred = |id: Seq<u8>| msg_keeps(g, id);
        let n = self.fixes.len();
        let mut kept: Vec<CommitId> = Vec::new();
        let mut i: usize = 0;
        while i < n
            invariant
                self.graph.wf(),
                g == self.graph@,
                fixes0 == self.fixes.deep_view(),
                pred == (|id: Seq<u8>| msg_keeps(g, id)),
                n == fixes0.len(),
                0 <= i <= n,
                kept.deep_view() == fixes0.subrange(0, i as int).filter(pred),
            decreases n - i,
        {
            let ghost pre = kept.deep_view();
            proof {
                assert(self.fixes.deep_view()[i as int] == self.fixes@[i as int]@);
            }
            let keep = match self.graph.index_of(&self.fixes[i]) {
                None => false,
                Some(j) => {
                    proof {
                        lemma_id_lookup(g, j as int);
                    }
                    potential_bug_fix_summary(self.graph.summary_at(j))
                },
            };
            proof {
                assert(keep == msg_keeps(g, fixes0[i as int]));
            }
            if keep {
                kept.push(self.fixes[i].duplicate());
                proof {
                    assert(kept.deep_view() =~= pre.push(fixes0[i as int]));
                }
            }
            proof {
                reveal_with_fuel(Seq::filter, 2);
                let sub1 = fixes0.subrange(0, i as int + 1);
                assert(sub1.drop_last() =~= fixes0.subrange(0, i as int));
                assert(sub1.last() == fixes0[i as int]);
                assert(kept.deep_view() == sub1.filter(pred));
            }
            i = i + 1;
        }
        proof {
            assert(fixes0.subrange(0, n as int) =~= fixes0);
        }
        self.fixes = kept;
    }

    /// Generation-distance filter: keeps the candidates that reach `commit`
    /// within at most `fix_distance` parent hops.  A distance of one keeps
    /// the direct children; a distance of zero keeps nothing.
    pub fn within_n_generations(&mut self, commit: &CommitId, fix_distance: u32)
        requires
            old(self).wf(),
        ensures
            final(self).wf(),
            final(self).graph@ == old(self).graph@,
            final(self).fixes.deep_view() == gen_filtered(
                old(self).graph@,
                commit@,
                old(self).fixes.deep_view(),
                fix_distance as nat,
            ),
    {
        let ghost g = self.graph@;
        let ghost fixes0 = self.fixes.deep_view();
        let ghost pred = |id: Seq<u8>| within_generations(g, commit@, id, fix_distance as nat);
        let n = self.fixes.len();
        let mut kept: Vec<CommitId> = Vec::new();
        let mut i: usize = 0;
        while i < n
            invariant
                self.graph.wf(),
                g == self.graph@,
                fixes0 == self.fixes.deep_view(),
                pred == (|id: Seq<u8>| within_generations(g, commit@, id, fix_distance as nat)),
                n == fixes0.len(),
                0 <= i <= n,
                kept.deep_view() == fixes0.subrange(0, i as int).filter(pred),
            decreases n - i,
        {
            let ghost pre = kept.deep_view();
            proof {
                assert(self.fixes.deep_view()[i as int] == self.fixes@[i as int]@);
            }
            let keep = self.graph.within_generations_from(commit, &self.fixes[i], fix_distance);
            if keep {
                kept.push(self.fixes[i].duplicate());
                proof {
                    assert(kept.deep_view() =~= pre.push(fixes0[i as int]));
                }
            }
            proof {
                reveal_with_fuel(Seq::filter, 2);
                let sub1 = fixes0.subrange(0, i as int + 1);
                assert(sub1.drop_last() =~= fixes0.subrange(0, i as int));
                assert(sub1.last() == fixes0[i as int]);
                assert(kept.deep_view() == sub1.filter(pred));
            }
            i = i + 1;
        }
        proof {
            assert(fixes0.subrange(0, n as int) =~= fixes0);
        }
        self.fixes = kept;
    }

    /// File-overlap filter: keeps only candidates with exactly one parent
    /// whose diff against that parent touches at least one of the given
    /// files.  A merge commit, a candidate outside the history, or one
    /// whose diff fails, is excluded.  The survivors are the subsequence of
    /// the candidates that `apply_file_overlap` fixes for the file lists
    /// the diffs handed back.
    pub fn changed_files(&mut self, repo: &git2::Repository, merge_changes: Vec<Vec<u8>>)
        requires
            old(self).wf(),
        ensures
            final(self).wf(),
            final(self).graph@ == old(self).graph@,
            subsequence_of(final(self).fixes.deep_view(), old(self).fixes.deep_view()),
            forall|t: int|
                0 <= t < final(self).fixes.deep_view().len() ==> old(
                    self,
                ).fixes.deep_view().contains(#[trigger] final(self).fixes.deep_view()[t]),
            forall|t: int|
                0 <= t < final(self).fixes.deep_view().len() ==> parents_of_id(
                    old(self).graph@,
                    #[trigger] final(self).fixes.deep_view()[t],
                ).len() == 1,
    {
        let ghost g = self.graph@;
        let ghost fixes0 = self.fixes.deep_view();
        let n = self.fixes.len();
        let mut diffs: Vec<Option<Vec<Vec<u8>>>> = Vec::new();
        let mut i: usize = 0;
        while i < n
            invariant
                self.graph.wf(),
                g == self.graph@,
                fixes0 == self.fixes.deep_view(),
                n == fixes0.len(),
                0 <= i <= n,
                diffs@.len() == i,
            decreases n - i,
        {
            let d = match self.graph.index_of(&self.fixes[i]) {
                None => None,
                Some(j) => {
                    if self.graph.parent_count_at(j) == 1 {
                        let parent = self.graph.parent_at(j, 0).duplicate();
                        match changed_filenames(repo, &parent, &self.fixes[i]) {
                            Ok(files) => Some(files),
                            Err(_) => None,
                        }
                    } else {
                        None
                    }
                },
            };
            diffs.push(d);
            i = i + 1;
        }
        let kept = apply_file_overlap(&self.graph, &self.fixes, &diffs, &merge_changes);
        proof {
            lemma_file_filtered_props(g, fixes0, diffs.deep_view(), merge_changes.deep_view());
        }
        self.fixes = kept;
    }

    /// Line-overlap filter: keeps only candidates with exactly one parent
    /// whose diff against that parent changes a content line that blame
    /// over the quadruple's origin-to-merge range attributes to a commit
    /// strictly inside the range.  A merge commit, a candidate outside the
    /// history, a failing diff, or a candidate whose changed lines all
    /// blame to the boundary, is excluded.  Only lines in files ending in
    /// one of the given extensions are considered; an empty extension list
    /// considers every file.  The survivors are the subsequence of the
    /// candidates that `apply_line_overlap` fixes for the outcomes the
    /// line test handed back.
    pub fn changed_same_line_in_ext(
        &mut self,
        repo: &git2::Repository,
        twm: &ThreeWayMerge,
        only_extensions: &Vec<Vec<u8>>,
    )
        requires
            old(self).wf(),
        ensures
            final(self).wf(),
            final(self).graph@ == old(self).graph@,
            subsequence_of(final(self).fixes.deep_view(), old(self).fixes.deep_view()),
            forall|t: int|
                0 <= t < final(self).fixes.deep_view().len() ==> old(
                    self,
                ).fixes.deep_view().contains(#[trigger] final(self).fixes.deep_view()[t]),
            forall|t: int|
                0 <= t < final(self).fixes.deep_view().len() ==> parents_of_id(
                    old(self).graph@,
                    #[trigger] final(self).fixes.deep_view()[t],
                ).len() == 1,
    {
        let ghost g = self.graph@;
        let ghost fixes0 = self.fixes.deep_view();
        let n = self.fixes.len();
        let mut overlaps: Vec<Option<bool>> = Vec::new();
        let mut i: usize = 0;
        while i < n
            invariant
                self.graph.wf(),
                g == self.graph@,
                fixes0 == self.fixes.deep_view(),
                n == fixes0.len(),
                0 <= i <= n,
                overlaps@.len() == i,
            decreases n - i,
        {
            let o = match self.graph.index_of(&self.fixes[i]) {
                None => None,
                Some(j) => {
                    if self.graph.parent_count_at(j) == 1 {
                        let parent = self.graph.parent_at(j, 0).duplicate();
                        match changed_same_line(
                            repo,
                            &twm.o,
                            &twm.m,
                            &parent,
                            &self.fixes[i],
                            only_extensions,
                        ) {
                            Ok(b) => Some(b),
                            Err(_) => None,
                        }
                    } else {
                        None
                    }
                },
            };
            overlaps.push(o);
            i = i + 1;
        }
        let kept = apply_line_overlap(&self.graph, &self.fixes, &overlaps);
        proof {
            lemma_line_filtered_props(g, fixes0, overlaps@);
        }
        self.fixes = kept;
    }
}

} // verus!
