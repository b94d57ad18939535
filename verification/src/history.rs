//! The in-memory model of a commit history: a sequence of commits in
//! parents-before-children topological order, and the graph analyses that
//! run over it — descendant propagation and bounded ancestor search.

use vstd::prelude::*;

use crate::CoreError;
use crate::ids::CommitId;
use crate::ids::bytes_equal;

verus! {

/// The mathematical value of one commit: its identifier, the identifiers of
/// its parents in their recorded order, its one-line summary, and its
/// timestamp in seconds since the epoch.
pub ghost struct CommitNode {
    pub id: Seq<u8>,
    pub parents: Seq<Seq<u8>>,
    pub summary: Seq<u8>,
    pub timestamp: int,
}

/// One commit of the history: identifier, parent identifiers in recorded
/// order, one-line summary, and timestamp in seconds since the epoch.
#[derive(Debug)]
pub struct CommitInfo {
    pub id: CommitId,
    pub parents: Vec<CommitId>,
    pub summary: Vec<u8>,
    pub timestamp: i64,
}

impl View for CommitInfo {
    type V = CommitNode;

    open spec fn view(&self) -> CommitNode {
        CommitNode {
            id: self.id@,
            parents: self.parents.deep_view(),
            summary: self.summary@,
            timestamp: self.timestamp as int,
        }
    }
}

impl DeepView for CommitInfo {
    type V = CommitNode;

    open spec fn deep_view(&self) -> CommitNode {
        self.view()
    }
}

/// The identifiers of the commits of `g`, in order.
pub open spec fn ids_of(g: Seq<CommitNode>) -> Seq<Seq<u8>> {
    g.map_values(|c: CommitNode| c.id)
}

/// A well-formed history: identifiers are distinct, and every parent that
/// occurs in the history at all occurs strictly earlier than its child, so
/// the order is topological with parents before children.
pub open spec fn graph_wf(g: Seq<CommitNode>) -> bool {
    &&& forall|i: int, j: int|
        0 <= i < g.len() && 0 <= j < g.len() && i != j ==> (#[trigger] g[i].id) != (
        #[trigger] g[j].id)
    &&& forall|i: int, j: int, k: int|
        0 <= i < g.len() && 0 <= j < g.len() && 0 <= k < g[i].parents.len() && (#[trigger] g[j].id)
            == (#[trigger] g[i].parents[k]) ==> j < i
}

/// A commit history reachable from a repository head, in an order with
/// parents before children, with distinct identifiers.
#[derive(Debug)]
pub struct HistoryGraph {
    commits: Vec<CommitInfo>,
}

impl View for HistoryGraph {
    type V = Seq<CommitNode>;

    closed spec fn view(&self) -> Seq<CommitNode> {
        self.commits.deep_view()
    }
}

impl HistoryGraph {
    /// Well-formedness of the underlying order.
    pub open spec fn wf(&self) -> bool {
        graph_wf(self@)
    }

    /// The number of commits.
    pub fn len(&self) -> (r: usize)
        ensures
            r == self@.len(),
    {
        self.commits.len()
    }

    /// Builds a history from commits listed with parents before children.
    /// The order is checked: a repeated identifier, or a parent that occurs
    /// at or after its child, is a traversal the analysis cannot use.
    pub fn new(commits: Vec<CommitInfo>) -> (r: Result<HistoryGraph, CoreError>)
        ensures
            r matches Ok(h) ==> h@ == commits.deep_view() && graph_wf(commits.deep_view()),
            r matches Err(e) ==> e == CoreError::TraversalError && !graph_wf(commits.deep_view()),
    {
        let ghost g = commits.deep_view();
        let n = commits.len();
        let mut i: usize = 0;
        while i < n
            invariant
                g == commits.deep_view(),
                n == g.len(),
                0 <= i <= n,
                forall|s: int, t: int|
                    0 <= s < i && s < t < g.len() ==> (#[trigger] g[s].id) != (#[trigger] g[t].id),
                forall|s: int, t: int, k: int|
                    0 <= s < i && s <= t < g.len() && 0 <= k < g[s].parents.len() ==> (
                    #[trigger] g[t].id) != (#[trigger] g[s].parents[k]),
            decreases n - i,
        {
            let mut j: usize = i + 1;
            while j < n
                invariant
                    g == commits.deep_view(),
                    n == g.len(),
                    0 <= i < n,
                    i + 1 <= j <= n,
                    forall|t: int| i < t < j ==> (#[trigger] g[t].id) != g[i as int].id,
                decreases n - j,
            {
                let same = bytes_equal(&commits[i].id.bytes, &commits[j].id.bytes);
                proof {
                    assert(g[i as int].id == commits@[i as int].id@);
                    assert(g[j as int].id == commits@[j as int].id@);
                }
                if same {
                    proof {
                        assert(!graph_wf(g));
                    }
                    return Err(CoreError::TraversalError);
                }
                j = j + 1;
            }
            let parent_count = commits[i].parents.len();
            let mut k: usize = 0;
            while k < parent_count
                invariant
                    g == commits.deep_view(),
                    n == g.len(),
                    0 <= i < n,
                    parent_count == g[i as int].parents.len(),
                    0 <= k <= parent_count,
                    forall|t: int, kk: int|
                        i <= t < g.len() && 0 <= kk < k ==> (#[trigger] g[t].id) != (
                        #[trigger] g[i as int].parents[kk]),
                decreases parent_count - k,
            {
                let mut t: usize = i;
                while t < n
                    invariant
                        g == commits.deep_view(),
                        n == g.len(),
                        0 <= i < n,
                        0 <= k < g[i as int].parents.len(),
                        i <= t <= n,
                        forall|s: int|
                            i <= s < t ==> (#[trigger] g[s].id) != g[i as int].parents[k as int],
                    decreases n - t,
                {
                    let same = bytes_equal(&commits[t].id.bytes, &commits[i].parents[k].bytes);
                    proof {
                        assert(g[t as int].id == commits@[t as int].id@);
                        assert(g[i as int].parents[k as int] == commits@[i as int].parents@[
                            k as int]@);
                    }
                    if same {
                        proof {
                            assert(g[t as int].id == g[i as int].parents[k as int]);
                            assert(!graph_wf(g));
                        }
                        return Err(CoreError::TraversalError);
                    }
                    t = t + 1;
                }
                k = k + 1;
            }
            i = i + 1;
        }
        proof {
            assert(graph_wf(g));
        }
        Ok(HistoryGraph { commits })
    }

    /// The position of the commit with the given identifier, if any.
    pub fn index_of(&self, id: &CommitId) -> (r: Option<usize>)
        ensures
            r matches Some(j) ==> 0 <= j < self@.len() && self@[j as int].id == id@,
            r is None ==> !node_in(self@, id@),
    {
        let n = self.commits.len();
        let mut j: usize = 0;
        while j < n
            invariant
                n == self@.len(),
                0 <= j <= n,
                forall|t: int| 0 <= t < j ==> (#[trigger] self@[t].id) != id@,
            decreases n - j,
        {
            let same = bytes_equal(&self.commits[j].id.bytes, &id.bytes);
            proof {
                assert(self@[j as int].id == self.commits@[j as int].id@);
            }
            if same {
                return Some(j);
            }
            j = j + 1;
        }
        proof {
            if node_in(self@, id@) {
                let t = choose|t: int| 0 <= t < self@.len() && self@[t].id == id@;
            }
        }
        None
    }
}

/// True when a commit with the given identifier occurs in the history.
pub open spec fn node_in(g: Seq<CommitNode>, id: Seq<u8>) -> bool {
    exists|j: int| 0 <= j < g.len() && (#[trigger] g[j].id) == id
}

/// The parent identifiers of the commit with the given identifier, or the
/// empty sequence when no such commit occurs.
pub open spec fn parents_of_id(g: Seq<CommitNode>, id: Seq<u8>) -> Seq<Seq<u8>> {
    if node_in(g, id) {
        g[choose|j: int| 0 <= j < g.len() && (#[trigger] g[j].id) == id].parents
    } else {
        Seq::empty()
    }
}

/// True when some parent of the commit at position `i` already lies in `s`.
pub open spec fn step_hits(g: Seq<CommitNode>, s: Set<Seq<u8>>, i: int) -> bool {
    exists|k: int| 0 <= k < g[i].parents.len() && s.contains(#[trigger] g[i].parents[k])
}

/// The propagation set after the first `i` commits of the order have been
/// scanned: the ancestor itself, plus every commit among the first `i` with
/// a parent already in the set when it was reached.
pub open spec fn desc_set_upto(g: Seq<CommitNode>, anc: Seq<u8>, i: int) -> Set<Seq<u8>>
    decreases i,
{
    if i <= 0 {
        Set::empty().insert(anc)
    } else {
        let s = desc_set_upto(g, anc, i - 1);
        if step_hits(g, s, i - 1) {
            s.insert(g[i - 1].id)
        } else {
            s
        }
    }
}

/// The descendants of `anc` among the commits of `g`: what one forward pass
/// over the parents-before-children order propagates, without `anc` itself.
pub open spec fn descendant_ids(g: Seq<CommitNode>, anc: Seq<u8>) -> Set<Seq<u8>> {
    desc_set_upto(g, anc, g.len() as int).remove(anc)
}

/// The descendants of `anc` in the order the pass reaches them.
pub open spec fn descendant_seq(g: Seq<CommitNode>, anc: Seq<u8>) -> Seq<Seq<u8>> {
    ids_of(g).filter(|id: Seq<u8>| descendant_ids(g, anc).contains(id))
}

/// The propagation set only grows as the pass advances.
pub proof fn lemma_desc_upto_monotone(g: Seq<CommitNode>, anc: Seq<u8>, i: int, j: int)
    requires
        0 <= i <= j,
    ensures
        forall|x: Seq<u8>|
            desc_set_upto(g, anc, i).contains(x) ==> desc_set_upto(g, anc, j).contains(x),
    decreases j - i,
{
    if i < j {
        lemma_desc_upto_monotone(g, anc, i, j - 1);
    }
}

/// Every member of the propagation set other than the ancestor stands in the
/// history, was reached with a parent already in the set, and stands after
/// every occurrence of the ancestor.
pub proof fn lemma_desc_member(g: Seq<CommitNode>, anc: Seq<u8>, m: int, x: Seq<u8>)
    requires
        graph_wf(g),
        0 <= m <= g.len(),
        desc_set_upto(g, anc, m).contains(x),
        x != anc,
    ensures
        exists|j: int|
            0 <= j < m && (#[trigger] g[j].id) == x && step_hits(g, desc_set_upto(g, anc, j), j)
                && (forall|ia: int| 0 <= ia < g.len() && g[ia].id == anc ==> ia < j),
    decreases m,
{
    if m <= 0 {
        assert(false);
    } else if desc_set_upto(g, anc, m - 1).contains(x) {
        lemma_desc_member(g, anc, m - 1, x);
        let j = choose|j: int|
            0 <= j < m - 1 && (#[trigger] g[j].id) == x && step_hits(g, desc_set_upto(g, anc, j), j)
                && (forall|ia: int| 0 <= ia < g.len() && g[ia].id == anc ==> ia < j);
        assert(0 <= j < m && g[j].id == x && step_hits(g, desc_set_upto(g, anc, j), j) && (
        forall|ia: int| 0 <= ia < g.len() && g[ia].id == anc ==> ia < j));
    } else {
        assert(step_hits(g, desc_set_upto(g, anc, m - 1), m - 1));
        assert(x == g[m - 1].id);
        let k = choose|k: int|
            0 <= k < g[m - 1].parents.len() && desc_set_upto(g, anc, m - 1).contains(
                #[trigger] g[m - 1].parents[k],
            );
        let p = g[m - 1].parents[k];
        assert forall|ia: int| 0 <= ia < g.len() && g[ia].id == anc implies ia < m - 1 by {
            if p == anc {
                assert(g[ia].id == g[m - 1].parents[k]);
            } else {
                lemma_desc_member(g, anc, m - 1, p);
                let jp = choose|jp: int|
                    0 <= jp < m - 1 && (#[trigger] g[jp].id) == p && step_hits(
                        g,
                        desc_set_upto(g, anc, jp),
                        jp,
                    ) && (forall|ib: int| 0 <= ib < g.len() && g[ib].id == anc ==> ib < jp);
                assert(ia < jp);
            }
        }
        assert(0 <= m - 1 < m && g[m - 1].id == x && step_hits(g, desc_set_upto(g, anc, m - 1), m - 1)
            && (forall|ia: int| 0 <= ia < g.len() && g[ia].id == anc ==> ia < m - 1));
    }
}

/// At the position of the ancestor itself the pass never fires: no parent of
/// the ancestor can already lie in the propagation set.
pub proof fn lemma_no_rejoin(g: Seq<CommitNode>, anc: Seq<u8>, i: int)
    requires
        graph_wf(g),
        0 <= i < g.len(),
        g[i].id == anc,
    ensures
        !step_hits(g, desc_set_upto(g, anc, i), i),
{
    if step_hits(g, desc_set_upto(g, anc, i), i) {
        let k = choose|k: int|
            0 <= k < g[i].parents.len() && desc_set_upto(g, anc, i).contains(
                #[trigger] g[i].parents[k],
            );
        let p = g[i].parents[k];
        if p == anc {
            assert(g[i].id == g[i].parents[k]);
        } else {
            lemma_desc_member(g, anc, i, p);
            let jp = choose|jp: int|
                0 <= jp < i && (#[trigger] g[jp].id) == p && step_hits(
                    g,
                    desc_set_upto(g, anc, jp),
                    jp,
                ) && (forall|ib: int| 0 <= ib < g.len() && g[ib].id == anc ==> ib < jp);
            assert(i < jp);
        }
    }
}

/// The pass fires at position `i` exactly when the commit there is a
/// descendant of the ancestor.
pub proof fn lemma_step_iff_descendant(g: Seq<CommitNode>, anc: Seq<u8>, i: int)
    requires
        graph_wf(g),
        0 <= i < g.len(),
    ensures
        step_hits(g, desc_set_upto(g, anc, i), i) <==> descendant_ids(g, anc).contains(g[i].id),
{
    let n = g.len() as int;
    if step_hits(g, desc_set_upto(g, anc, i), i) {
        assert(desc_set_upto(g, anc, i + 1).contains(g[i].id));
        lemma_desc_upto_monotone(g, anc, i + 1, n);
        if g[i].id == anc {
            lemma_no_rejoin(g, anc, i);
        }
        assert(descendant_ids(g, anc).contains(g[i].id));
    }
    if descendant_ids(g, anc).contains(g[i].id) {
        lemma_desc_member(g, anc, n, g[i].id);
        let j = choose|j: int|
            0 <= j < n && (#[trigger] g[j].id) == g[i].id && step_hits(g, desc_set_upto(g, anc, j), j)
                && (forall|ia: int| 0 <= ia < g.len() && g[ia].id == anc ==> ia < j);
        assert(j == i);
    }
}

/// The ancestor never counts among its own descendants.
pub proof fn lemma_ancestor_not_descendant(g: Seq<CommitNode>, anc: Seq<u8>)
    ensures
        !descendant_ids(g, anc).contains(anc),
{
}

/// An ancestor that no commit of the history names as a parent has no
/// descendants at all.
pub proof fn lemma_no_direct_children_no_descendants(g: Seq<CommitNode>, anc: Seq<u8>)
    requires
        forall|i: int, k: int|
            0 <= i < g.len() && 0 <= k < g[i].parents.len() ==> (#[trigger] g[i].parents[k]) != anc,
    ensures
        descendant_ids(g, anc) == Set::<Seq<u8>>::empty(),
{
    lemma_childless_upto(g, anc, g.len() as int);
    assert(descendant_ids(g, anc) =~= Set::<Seq<u8>>::empty());
}

/// Helper for the childless case: the propagation set never grows past the
/// ancestor itself.
proof fn lemma_childless_upto(g: Seq<CommitNode>, anc: Seq<u8>, m: int)
    requires
        0 <= m <= g.len(),
        forall|i: int, k: int|
            0 <= i < g.len() && 0 <= k < g[i].parents.len() ==> (#[trigger] g[i].parents[k]) != anc,
    ensures
        desc_set_upto(g, anc, m) =~= Set::empty().insert(anc),
    decreases m,
{
    if m > 0 {
        lemma_childless_upto(g, anc, m - 1);
        if step_hits(g, desc_set_upto(g, anc, m - 1), m - 1) {
            let k = choose|k: int|
                0 <= k < g[m - 1].parents.len() && desc_set_upto(g, anc, m - 1).contains(
                    #[trigger] g[m - 1].parents[k],
                );
            assert(g[m - 1].parents[k] == anc);
        }
    }
}

/// Whatever a filter keeps was in the list it filtered.
proof fn lemma_filter_membership(s: Seq<Seq<u8>>, p: spec_fn(Seq<u8>) -> bool)
    ensures
        forall|x: Seq<u8>| #[trigger] s.filter(p).contains(x) ==> s.contains(x),
    decreases s.len(),
{
    reveal(Seq::filter);
    if s.len() > 0 {
        lemma_filter_membership(s.drop_last(), p);
        assert forall|x: Seq<u8>| #[trigger] s.filter(p).contains(x) implies s.contains(x) by {
            if s.filter(p).contains(x) {
                if x == s.last() {
                    assert(s[s.len() - 1] == x);
                } else {
                    assert(s.drop_last().filter(p).contains(x));
                    assert(s.drop_last().contains(x));
                    let t = choose|t: int|
                        0 <= t < s.drop_last().len() && s.drop_last()[t] == x;
                    assert(s[t] == x);
                }
            }
        }
    }
}

/// Filtering a list without duplicates leaves a list without duplicates.
proof fn lemma_filter_no_duplicates(s: Seq<Seq<u8>>, p: spec_fn(Seq<u8>) -> bool)
    requires
        s.no_duplicates(),
    ensures
        s.filter(p).no_duplicates(),
    decreases s.len(),
{
    reveal(Seq::filter);
    if s.len() > 0 {
        assert(s.drop_last().no_duplicates());
        lemma_filter_no_duplicates(s.drop_last(), p);
        if p(s.last()) {
            assert(!s.drop_last().contains(s.last())) by {
                if s.drop_last().contains(s.last()) {
                    let t = choose|t: int|
                        0 <= t < s.drop_last().len() && s.drop_last()[t] == s.last();
                    assert(s[t] == s[s.len() - 1]);
                }
            }
            lemma_filter_membership(s.drop_last(), p);
            assert(!s.drop_last().filter(p).contains(s.last()));
            assert(s.filter(p) == s.drop_last().filter(p).push(s.last()));
        }
    }
}

/// In a well-formed history the identifier list has no duplicates, and
/// neither has any filtered selection from it — a descendant list is a set.
pub proof fn lemma_descendant_seq_distinct(g: Seq<CommitNode>, anc: Seq<u8>)
    requires
        graph_wf(g),
    ensures
        descendant_seq(g, anc).no_duplicates(),
{
    assert(ids_of(g).no_duplicates()) by {
        assert forall|i: int, j: int|
            0 <= i < ids_of(g).len() && 0 <= j < ids_of(g).len() && i != j implies ids_of(g)[i]
            != ids_of(g)[j] by {
            assert(ids_of(g)[i] == g[i].id);
            assert(ids_of(g)[j] == g[j].id);
        }
    }
    lemma_filter_no_duplicates(ids_of(g), |id: Seq<u8>| descendant_ids(g, anc).contains(id));
}

/// True when `v` holds an identifier with the given bytes.
pub fn ids_contain(v: &Vec<CommitId>, x: &CommitId) -> (r: bool)
    ensures
        r == v.deep_view().contains(x@),
{
    let n = v.len();
    let mut i: usize = 0;
    while i < n
        invariant
            n == v@.len(),
            0 <= i <= n,
            forall|t: int| 0 <= t < i ==> v.deep_view()[t] != x@,
        decreases n - i,
    {
        let same = bytes_equal(&v[i].bytes, &x.bytes);
        proof {
            assert(v.deep_view()[i as int] == v@[i as int]@);
        }
        if same {
            proof {
                assert(v.deep_view()[i as int] == x@);
            }
            return true;
        }
        i = i + 1;
    }
    proof {
        if v.deep_view().contains(x@) {
            let t = choose|t: int| 0 <= t < v.deep_view().len() && v.deep_view()[t] == x@;
        }
    }
    false
}

impl HistoryGraph {
    /// Every commit reachable from the head that descends from `ancestor`,
    /// in the order of the underlying pass.  The ancestor itself is never in
    /// the result.
    pub fn descendants(&self, ancestor: &CommitId) -> (r: Vec<CommitId>)
        requires
            self.wf(),
        ensures
            r.deep_view() == descendant_seq(self@, ancestor@),
            forall|x: Seq<u8>|
                #[trigger] r.deep_view().contains(x) == descendant_ids(self@, ancestor@).contains(x),
            !r.deep_view().contains(ancestor@),
            r.deep_view().no_duplicates(),
    {
        proof {
            lemma_descendant_seq_distinct(self@, ancestor@);
        }
        let ghost g = self@;
        let ghost anc = ancestor@;
        let ghost pred = |id: Seq<u8>| descendant_ids(g, anc).contains(id);
        let n = self.commits.len();
        let mut out: Vec<CommitId> = Vec::new();
        let mut i: usize = 0;
        while i < n
            invariant
                self.wf(),
                g == self@,
                anc == ancestor@,
                pred == (|id: Seq<u8>| descendant_ids(g, anc).contains(id)),
                n == g.len(),
                0 <= i <= n,
                forall|x: Seq<u8>|
                    #[trigger] desc_set_upto(g, anc, i as int).contains(x) == (x == anc
                        || out.deep_view().contains(x)),
                !out.deep_view().contains(anc),
                out.deep_view() == ids_of(g).subrange(0, i as int).filter(pred),
            decreases n - i,
        {
            let ghost pre = out.deep_view();
            let hit = any_parent_found(&self.commits[i].parents, ancestor, &out);
            proof {
                assert(self.commits@[i as int]@ == g[i as int]);
                assert(self.commits@[i as int].parents.deep_view() == g[i as int].parents);
                assert(hit == step_hits(g, desc_set_upto(g, anc, i as int), i as int)) by {
                    let s = desc_set_upto(g, anc, i as int);
                    if hit {
                        let gi = g[i as int];
                        let k = choose|k: int|
                            0 <= k < gi.parents.len() && ((#[trigger] gi.parents[k]) == anc
                                || pre.contains(gi.parents[k]));
                        assert(s.contains(g[i as int].parents[k]));
                    }
                    if step_hits(g, s, i as int) {
                        let k = choose|k: int|
                            0 <= k < g[i as int].parents.len() && s.contains(
                                #[trigger] g[i as int].parents[k],
                            );
                        assert(g[i as int].parents[k] == anc || pre.contains(
                            g[i as int].parents[k],
                        ));
                    }
                }
                lemma_step_iff_descendant(g, anc, i as int);
            }
            if hit {
                out.push(self.commits[i].id.duplicate());
                proof {
                    assert(out.deep_view() =~= pre.push(g[i as int].id));
                    assert(g[i as int].id != anc);
                    assert forall|x: Seq<u8>| #[trigger]
                        desc_set_upto(g, anc, i as int + 1).contains(x) == (x == anc
                            || out.deep_view().contains(x)) by {
                        assert(desc_set_upto(g, anc, i as int + 1) == desc_set_upto(
                            g,
                            anc,
                            i as int,
                        ).insert(g[i as int].id));
                        if out.deep_view().contains(x) {
                            let t = choose|t: int|
                                0 <= t < out.deep_view().len() && out.deep_view()[t] == x;
                            if t < pre.len() {
                                assert(pre.contains(x));
                            }
                        }
                        if pre.contains(x) {
                            let t = choose|t: int| 0 <= t < pre.len() && pre[t] == x;
                            assert(out.deep_view()[t] == x);
                        }
                        if x == g[i as int].id {
                            assert(out.deep_view()[pre.len() as int] == x);
                        }
                    }
                    assert(!out.deep_view().contains(anc)) by {
                        if out.deep_view().contains(anc) {
                            let t = choose|t: int|
                                0 <= t < out.deep_view().len() && out.deep_view()[t] == anc;
                            if t < pre.len() {
                                assert(pre.contains(anc));
                            }
                        }
                    }
                }
            } else {
                proof {
                    assert(desc_set_upto(g, anc, i as int + 1) == desc_set_upto(g, anc, i as int));
                }
            }
            proof {
                reveal_with_fuel(Seq::filter, 2);
                let sub1 = ids_of(g).subrange(0, i as int + 1);
                assert(sub1.drop_last() =~= ids_of(g).subrange(0, i as int));
                assert(sub1.last() == ids_of(g)[i as int]);
                assert(ids_of(g)[i as int] == g[i as int].id);
                assert(sub1.filter(pred) == if pred(g[i as int].id) {
                    sub1.drop_last().filter(pred).push(g[i as int].id)
                } else {
                    sub1.drop_last().filter(pred)
                });
                assert(out.deep_view() == sub1.filter(pred));
            }
            i = i + 1;
        }
        proof {
            assert(ids_of(g).subrange(0, n as int) =~= ids_of(g));
            assert(out.deep_view() == descendant_seq(g, anc));
            assert forall|x: Seq<u8>| #[trigger]
                out.deep_view().contains(x) == descendant_ids(g, anc).contains(x) by {
                assert(desc_set_upto(g, anc, n as int).contains(x) == (x == anc
                    || out.deep_view().contains(x)));
                if out.deep_view().contains(x) {
                    assert(x != anc);
                    assert(desc_set_upto(g, anc, n as int).contains(x));
                }
                if descendant_ids(g, anc).contains(x) {
                    assert(desc_set_upto(g, anc, n as int).contains(x) && x != anc);
                }
            }
        }
        out
    }
}

/// True when some listed parent equals the ancestor or already lies in the
/// collected descendants.
fn any_parent_found(parents: &Vec<CommitId>, ancestor: &CommitId, found: &Vec<CommitId>) -> (r:
    bool)
    ensures
        r == exists|k: int|
            0 <= k < parents.deep_view().len() && ((#[trigger] parents.deep_view()[k]) == ancestor@
                || found.deep_view().contains(parents.deep_view()[k])),
{
    let n = parents.len();
    let mut k: usize = 0;
    while k < n
        invariant
            n == parents@.len(),
            0 <= k <= n,
            forall|t: int|
                0 <= t < k ==> !((#[trigger] parents.deep_view()[t]) == ancestor@
                    || found.deep_view().contains(parents.deep_view()[t])),
        decreases n - k,
    {
        let is_anc = bytes_equal(&parents[k].bytes, &ancestor.bytes);
        proof {
            assert(parents.deep_view()[k as int] == parents@[k as int]@);
        }
        if is_anc {
            return true;
        }
        let in_found = ids_contain(found, &parents[k]);
        if in_found {
            return true;
        }
        k = k + 1;
    }
    false
}


/// True when `c` reaches `root` by following one to `n` parent hops.  A
/// commit that does not occur in the history has no parents to follow.
pub open spec fn within_generations(g: Seq<CommitNode>, root: Seq<u8>, c: Seq<u8>, n: nat) -> bool
    decreases n,
{
    if n == 0 {
        false
    } else {
        exists|k: int|
            0 <= k < parents_of_id(g, c).len() && ((#[trigger] parents_of_id(g, c)[k]) == root
                || within_generations(g, root, parents_of_id(g, c)[k], (n - 1) as nat))
    }
}

/// A commit within `n1` hops is within any larger bound as well.
pub proof fn lemma_within_monotone(
    g: Seq<CommitNode>,
    root: Seq<u8>,
    c: Seq<u8>,
    n1: nat,
    n2: nat,
)
    requires
        n1 <= n2,
        within_generations(g, root, c, n1),
    ensures
        within_generations(g, root, c, n2),
    decreases n1,
{
    let ps = parents_of_id(g, c);
    let k = choose|k: int|
        0 <= k < ps.len() && ((#[trigger] ps[k]) == root || within_generations(
            g,
            root,
            ps[k],
            (n1 - 1) as nat,
        ));
    if ps[k] == root {
        assert(0 <= k < parents_of_id(g, c).len() && (#[trigger] parents_of_id(g, c)[k]) == root);
    } else {
        lemma_within_monotone(g, root, ps[k], (n1 - 1) as nat, (n2 - 1) as nat);
        assert(0 <= k < parents_of_id(g, c).len() && within_generations(
            g,
            root,
            #[trigger] parents_of_id(g, c)[k],
            (n2 - 1) as nat,
        ));
    }
}

/// Every descendant reached after scanning `m` commits lies within `m`
/// parent hops of the ancestor.
pub proof fn lemma_descendant_within(g: Seq<CommitNode>, anc: Seq<u8>, x: Seq<u8>, m: int)
    requires
        graph_wf(g),
        0 <= m <= g.len(),
        desc_set_upto(g, anc, m).contains(x),
        x != anc,
    ensures
        within_generations(g, anc, x, m as nat),
    decreases m,
{
    if m <= 0 {
        assert(false);
    } else if desc_set_upto(g, anc, m - 1).contains(x) {
        lemma_descendant_within(g, anc, x, m - 1);
        lemma_within_monotone(g, anc, x, (m - 1) as nat, m as nat);
    } else {
        assert(step_hits(g, desc_set_upto(g, anc, m - 1), m - 1));
        assert(x == g[m - 1].id);
        let k = choose|k: int|
            0 <= k < g[m - 1].parents.len() && desc_set_upto(g, anc, m - 1).contains(
                #[trigger] g[m - 1].parents[k],
            );
        let p = g[m - 1].parents[k];
        assert(node_in(g, x)) by {
            assert(g[m - 1].id == x);
        }
        let jj = choose|j: int| 0 <= j < g.len() && (#[trigger] g[j].id) == x;
        assert(jj == m - 1);
        assert(parents_of_id(g, x) == g[m - 1].parents);
        if p == anc {
            assert(0 <= k < parents_of_id(g, x).len() && (#[trigger] parents_of_id(g, x)[k])
                == anc);
        } else {
            lemma_descendant_within(g, anc, p, m - 1);
            assert(0 <= k < parents_of_id(g, x).len() && within_generations(
                g,
                anc,
                #[trigger] parents_of_id(g, x)[k],
                (m - 1) as nat,
            ));
        }
        assert(within_generations(g, anc, x, m as nat));
    }
}

/// With a bound at least the size of the history, every descendant of the
/// ancestor passes the generation test: a large enough bound filters nothing
/// out of a descendant set.
pub proof fn lemma_descendant_within_bound(g: Seq<CommitNode>, anc: Seq<u8>, x: Seq<u8>, n: nat)
    requires
        graph_wf(g),
        descendant_ids(g, anc).contains(x),
        n >= g.len(),
    ensures
        within_generations(g, anc, x, n),
{
    lemma_descendant_within(g, anc, x, g.len() as int);
    lemma_within_monotone(g, anc, x, g.len() as nat, n);
}

impl HistoryGraph {
    /// True when `child` reaches `root` by following one to `n` parent
    /// hops; a bound of zero retains nothing, a bound of one the direct
    /// children.
    pub fn within_generations_from(&self, root: &CommitId, child: &CommitId, n: u32) -> (r: bool)
        requires
            self.wf(),
        ensures
            r == within_generations(self@, root@, child@, n as nat),
        decreases n,
    {
        if n == 0 {
            return false;
        }
        let j = match self.index_of(child) {
            None => {
                proof {
                    assert(parents_of_id(self@, child@) =~= Seq::<Seq<u8>>::empty());
                }
                return false;
            },
            Some(j) => j,
        };
        proof {
            assert(node_in(self@, child@)) by {
                assert(self@[j as int].id == child@);
            }
            let jj = choose|t: int| 0 <= t < self@.len() && (#[trigger] self@[t].id) == child@;
            assert(jj == j as int);
            assert(parents_of_id(self@, child@) == self@[j as int].parents);
            assert(self.commits@[j as int].parents.deep_view() == self@[j as int].parents);
        }
        let parents = &self.commits[j].parents;
        let m = parents.len();
        let mut k: usize = 0;
        while k < m
            invariant
                self.wf(),
                1 <= n,
                m == parents@.len(),
                parents.deep_view() == parents_of_id(self@, child@),
                0 <= k <= m,
                forall|t: int|
                    0 <= t < k ==> !((#[trigger] parents.deep_view()[t]) == root@
                        || within_generations(
                        self@,
                        root@,
                        parents.deep_view()[t],
                        (n - 1) as nat,
                    )),
            decreases m - k,
        {
            let is_root = bytes_equal(&parents[k].bytes, &root.bytes);
            proof {
                assert(parents.deep_view()[k as int] == parents@[k as int]@);
            }
            if is_root {
                proof {
                    assert(0 <= k < parents_of_id(self@, child@).len() && (
                    #[trigger] parents_of_id(self@, child@)[k as int]) == root@);
                }
                return true;
            }
            if self.within_generations_from(root, &parents[k], n - 1) {
                proof {
                    assert(0 <= k < parents_of_id(self@, child@).len() && within_generations(
                        self@,
                        root@,
                        #[trigger] parents_of_id(self@, child@)[k as int],
                        (n - 1) as nat,
                    ));
                }
                return true;
            }
            k = k + 1;
        }
        proof {
            if within_generations(self@, root@, child@, n as nat) {
                let k = choose|k: int|
                    0 <= k < parents_of_id(self@, child@).len() && ((#[trigger] parents_of_id(
                        self@,
                        child@,
                    )[k]) == root@ || within_generations(
                        self@,
                        root@,
                        parents_of_id(self@, child@)[k],
                        (n - 1) as nat,
                    ));
            }
        }
        false
    }
}


/// The one-line summary of the commit with the given identifier, or the
/// empty string when no such commit occurs.
pub open spec fn summary_of_id(g: Seq<CommitNode>, id: Seq<u8>) -> Seq<u8> {
    if node_in(g, id) {
        g[choose|j: int| 0 <= j < g.len() && (#[trigger] g[j].id) == id].summary
    } else {
        Seq::empty()
    }
}

/// In a well-formed history the commit at position `j` is the one the
/// identifier-based lookups name: its summary and parents are what
/// `summary_of_id` and `parents_of_id` denote.
pub proof fn lemma_id_lookup(g: Seq<CommitNode>, j: int)
    requires
        graph_wf(g),
        0 <= j < g.len(),
    ensures
        node_in(g, g[j].id),
        summary_of_id(g, g[j].id) == g[j].summary,
        parents_of_id(g, g[j].id) == g[j].parents,
{
    assert(node_in(g, g[j].id));
    let t = choose|t: int| 0 <= t < g.len() && (#[trigger] g[t].id) == g[j].id;
    assert(t == j);
}

impl HistoryGraph {
    /// The summary of the commit at the given position.
    pub fn summary_at(&self, j: usize) -> (r: &Vec<u8>)
        requires
            j < self@.len(),
        ensures
            r@ == self@[j as int].summary,
    {
        proof {
            assert(self@[j as int] == self.commits@[j as int]@);
        }
        &self.commits[j].summary
    }

    /// The number of parents of the commit at the given position.
    pub fn parent_count_at(&self, j: usize) -> (r: usize)
        requires
            j < self@.len(),
        ensures
            r == self@[j as int].parents.len(),
    {
        proof {
            assert(self@[j as int] == self.commits@[j as int]@);
        }
        self.commits[j].parents.len()
    }

    /// The parent at position `k` of the commit at position `j`.
    pub fn parent_at(&self, j: usize, k: usize) -> (r: &CommitId)
        requires
            j < self@.len(),
            k < self@[j as int].parents.len(),
        ensures
            r@ == self@[j as int].parents[k as int],
    {
        proof {
            assert(self@[j as int] == self.commits@[j as int]@);
            assert(self.commits@[j as int].parents.deep_view()[k as int]
                == self.commits@[j as int].parents@[k as int]@);
        }
        &self.commits[j].parents[k]
    }
}


} // verus!
