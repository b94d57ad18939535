//! Detecting three-way merges: commits with exactly two parents, paired
//! with the lowest common ancestor of those parents.

use vstd::prelude::*;

use crate::CoreError;
use crate::git_utils::changed_filenames;
use crate::git_utils::changed_same_file;
use crate::git_utils::collect_walk_ids;
use crate::git_utils::lookup_commit;
use crate::git_utils::merge_base_ids;
use crate::history::CommitInfo;
use crate::history::CommitNode;
use crate::ids::CommitId;
use crate::ids::bytes_equal;
use crate::ids::hex_decoded;
use crate::ids::hex_encoded;
use crate::ids::valid_hex_id;
use crate::text::intersect_lists;
use vstd::string::StringSliceAdditionalSpecFns;

verus! {

/// The mathematical value of a three-way merge quadruple: the identifiers
/// of the common ancestor, the two sides in their recorded order, and the
/// merge commit.
pub ghost struct MergeView {
    pub o: Seq<u8>,
    pub a: Seq<u8>,
    pub b: Seq<u8>,
    pub m: Seq<u8>,
}

/// The four commits of a three-way merge: the common ancestor `o`, the
/// first parent `a` (the side merged into), the second parent `b` (the side
/// merged in), and the merge commit `m`.
#[derive(Debug)]
pub struct ThreeWayMerge {
    /// The original base commit.
    pub o: CommitId,
    /// The first parent.
    pub a: CommitId,
    /// The second parent.
    pub b: CommitId,
    /// The merge commit.
    pub m: CommitId,
}

impl View for ThreeWayMerge {
    type V = MergeView;

    open spec fn view(&self) -> MergeView {
        MergeView { o: self.o@, a: self.a@, b: self.b@, m: self.m@ }
    }
}

impl DeepView for ThreeWayMerge {
    type V = MergeView;

    open spec fn deep_view(&self) -> MergeView {
        self.view()
    }
}

/// True when the commit qualifies as a merge to detect: exactly two
/// parents, and strictly earlier than the bound when one is given.
pub open spec fn merge_candidate(c: CommitNode, before: Option<i64>) -> bool {
    c.parents.len() == 2 && (before matches Some(t) ==> c.timestamp < t)
}

/// True when the quadruple comes from a qualifying merge commit of the
/// history: its merge commit stands there with exactly the quadruple's two
/// sides as parents, in that order.
pub open spec fn quad_from(g: Seq<CommitNode>, q: MergeView, before: Option<i64>) -> bool {
    exists|i: int|
        0 <= i < g.len() && merge_candidate(#[trigger] g[i], before) && g[i].id == q.m
            && g[i].parents[0] == q.a && g[i].parents[1] == q.b
}

impl ThreeWayMerge {
    /// Builds the quadruple for a merge commit from the outcome of the
    /// lowest-common-ancestor query over its two parents: the origin is
    /// exactly the ancestor the query returned, and no quadruple exists
    /// when the query found none.
    pub fn assemble(commit: &CommitInfo, lca: Option<CommitId>) -> (r: Option<ThreeWayMerge>)
        requires
            commit@.parents.len() == 2,
        ensures
            r matches Some(q) ==> (lca matches Some(o) && q@.o == o@ && q@.a == commit@.parents[0]
                && q@.b == commit@.parents[1] && q@.m == commit@.id),
            r is None <==> lca is None,
    {
        match lca {
            None => None,
            Some(o) => {
                proof {
                    assert(commit.parents.deep_view()[0] == commit.parents@[0]@);
                    assert(commit.parents.deep_view()[1] == commit.parents@[1]@);
                }
                Some(
                    ThreeWayMerge {
                        o,
                        a: commit.parents[0].duplicate(),
                        b: commit.parents[1].duplicate(),
                        m: commit.id.duplicate(),
                    },
                )
            },
        }
    }

    /// True when the origin differs from both sides.  A quadruple whose
    /// origin equals a side is a fast-forward of that side, not a genuine
    /// three-way divergence.
    pub fn has_distinct_o(&self) -> (r: bool)
        ensures
            r == (self@.o != self@.a && self@.o != self@.b),
    {
        let oa = bytes_equal(&self.o.bytes, &self.a.bytes);
        let ob = bytes_equal(&self.o.bytes, &self.b.bytes);
        !oa && !ob
    }
}

/// The quadruples that the first `i` commits of the scan yield, given the
/// outcome of the lowest-common-ancestor query for each commit: one
/// quadruple per qualifying merge whose query found an ancestor, in scan
/// order, with exactly that ancestor as its origin.
pub open spec fn quads_upto(
    g: Seq<CommitNode>,
    lcas: Seq<Option<Seq<u8>>>,
    before: Option<i64>,
    i: int,
) -> Seq<MergeView>
    decreases i,
{
    if i <= 0 {
        Seq::empty()
    } else {
        let rest = quads_upto(g, lcas, before, i - 1);
        match lcas[i - 1] {
            Some(o) => if merge_candidate(g[i - 1], before) {
                rest.push(
                    MergeView {
                        o: o,
                        a: g[i - 1].parents[0],
                        b: g[i - 1].parents[1],
                        m: g[i - 1].id,
                    },
                )
            } else {
                rest
            },
            None => rest,
        }
    }
}

/// The quadruples a full scan yields, given the ancestor-query outcomes.
pub open spec fn quads_of(
    g: Seq<CommitNode>,
    lcas: Seq<Option<Seq<u8>>>,
    before: Option<i64>,
) -> Seq<MergeView> {
    quads_upto(g, lcas, before, g.len() as int)
}

/// Every quadruple of a scan comes from a qualifying merge commit.
proof fn lemma_quads_sound(
    g: Seq<CommitNode>,
    lcas: Seq<Option<Seq<u8>>>,
    before: Option<i64>,
    i: int,
)
    requires
        0 <= i <= g.len(),
    ensures
        forall|t: int|
            0 <= t < quads_upto(g, lcas, before, i).len() ==> quad_from(
                g,
                #[trigger] quads_upto(g, lcas, before, i)[t],
                before,
            ),
    decreases i,
{
    if i > 0 {
        lemma_quads_sound(g, lcas, before, i - 1);
        let rest = quads_upto(g, lcas, before, i - 1);
        let all = quads_upto(g, lcas, before, i);
        assert forall|t: int| 0 <= t < all.len() implies quad_from(g, #[trigger] all[t], before) by {
            if t < rest.len() {
                assert(all[t] == rest[t]);
            } else {
                let prev = g[i - 1];
                assert(merge_candidate(prev, before));
                assert(all[t].m == prev.id && all[t].a == prev.parents[0] && all[t].b
                    == prev.parents[1]);
            }
        }
    }
}

/// Builds the quadruple list from the commits of a scan and the outcome of
/// the lowest-common-ancestor query for each: exactly one quadruple per
/// commit with two parents, within the time bound, whose query found an
/// ancestor — in scan order, with that ancestor as the origin.  A commit
/// whose query found none yields nothing, and the rest of the scan is
/// unaffected.
pub fn assemble_merges(
    commits: &Vec<CommitInfo>,
    lcas: &Vec<Option<CommitId>>,
    before: Option<i64>,
) -> (r: Vec<ThreeWayMerge>)
    requires
        commits@.len() == lcas@.len(),
    ensures
        r.deep_view() == quads_of(commits.deep_view(), lcas.deep_view(), before),
{
    let ghost g = commits.deep_view();
    let ghost lv = lcas.deep_view();
    let n = commits.len();
    let mut out: Vec<ThreeWayMerge> = Vec::new();
    let mut i: usize = 0;
    while i < n
        invariant
            g == commits.deep_view(),
            lv == lcas.deep_view(),
            n == g.len(),
            n == lv.len(),
            0 <= i <= n,
            out.deep_view() == quads_upto(g, lv, before, i as int),
        decreases n - i,
    {
        let ghost pre = out.deep_view();
        let is_merge = commits[i].parents.len() == 2;
        let time_ok = match before {
            Some(t) => commits[i].timestamp < t,
            None => true,
        };
        proof {
            assert(g[i as int] == commits@[i as int]@);
            assert(lv[i as int] == (match lcas@[i as int] {
                Some(id) => Some(id@),
                None => None,
            }));
        }
        if is_merge && time_ok {
            let lca = match &lcas[i] {
                Some(id) => Some(id.duplicate()),
                None => None,
            };
            match ThreeWayMerge::assemble(&commits[i], lca) {
                Some(q) => {
                    let ghost qv = q@;
                    out.push(q);
                    proof {
                        assert(out.deep_view() =~= pre.push(qv));
                        assert(merge_candidate(g[i as int], before));
                        assert(lv[i as int] matches Some(o) && qv == MergeView {
                            o,
                            a: g[i as int].parents[0],
                            b: g[i as int].parents[1],
                            m: g[i as int].id,
                        });
                    }
                },
                None => {
                },
            }
        }
        proof {
            assert(out.deep_view() == quads_upto(g, lv, before, i as int + 1));
        }
        i = i + 1;
    }
    out
}

/// Scans commits in the given order, querying the lowest common ancestor
/// of each qualifying merge's two parents, and returns the quadruples that
/// `assemble_merges` fixes for those outcomes.  A merge whose parents
/// share no history is dropped and the scan goes on: one malformed merge
/// never fails the batch.
pub fn detect_merges(
    repo: &git2::Repository,
    commits: &Vec<CommitInfo>,
    before: Option<i64>,
) -> (r: Vec<ThreeWayMerge>)
    ensures
        forall|t: int|
            0 <= t < r.deep_view().len() ==> quad_from(
                commits.deep_view(),
                #[trigger] r.deep_view()[t],
                before,
            ),
{
    let ghost g = commits.deep_view();
    let n = commits.len();
    let mut lcas: Vec<Option<CommitId>> = Vec::new();
    let mut i: usize = 0;
    while i < n
        invariant
            n == commits@.len(),
            0 <= i <= n,
            lcas@.len() == i,
        decreases n - i,
    {
        let is_merge = commits[i].parents.len() == 2;
        let time_ok = match before {
            Some(t) => commits[i].timestamp < t,
            None => true,
        };
        let lca = if is_merge && time_ok {
            merge_base_ids(repo, &commits[i].parents[0], &commits[i].parents[1])
        } else {
            None
        };
        lcas.push(lca);
        i = i + 1;
    }
    let out = assemble_merges(commits, &lcas, before);
    proof {
        lemma_quads_sound(g, lcas.deep_view(), before, g.len() as int);
    }
    out
}

/// Walks the given traversal once and collects the three-way merge
/// quadruple of every merge commit with exactly two parents, keeping only
/// commits strictly before the bound when one is given.  The exact relation
/// between the collected quadruples and the walked commits is stated by
/// `detect_merges`, which this function applies to the commits the walk
/// hands back.
pub fn find_merges(
    repo: &git2::Repository,
    revwalk: git2::Revwalk,
    before: Option<i64>,
) -> (r: Result<Vec<ThreeWayMerge>, CoreError>)
    ensures
        r matches Err(e) ==> e == CoreError::TraversalError || e == CoreError::NotFound,
{
    let ids = match collect_walk_ids(revwalk) {
        None => {
            return Err(CoreError::TraversalError);
        },
        Some(ids) => ids,
    };
    let mut commits: Vec<CommitInfo> = Vec::new();
    let n = ids.len();
    let mut i: usize = 0;
    while i < n
        invariant
            n == ids@.len(),
            0 <= i <= n,
        decreases n - i,
    {
        match lookup_commit(repo, &ids[i]) {
            None => {
                return Err(CoreError::NotFound);
            },
            Some(c) => {
                commits.push(c);
            },
        }
        i = i + 1;
    }
    Ok(detect_merges(repo, &commits, before))
}

/// The comma-separated text of a quadruple: the origin, first side, second
/// side and merge identifiers in lower-case hex, in that order.
pub open spec fn csv_quad_bytes(q: MergeView) -> Seq<u8> {
    hex_encoded(q.o) + seq![44u8] + hex_encoded(q.a) + seq![44u8] + hex_encoded(q.b) + seq![44u8]
        + hex_encoded(q.m)
}

/// Relies on String::from_utf8: bytes below 128 are single-byte code
/// points, so the text holds exactly the given bytes as characters.
#[verifier::external_body]
fn string_from_ascii(bytes: Vec<u8>) -> (r: String)
    requires
        forall|i: int| 0 <= i < bytes@.len() ==> bytes@[i] < 128,
    ensures
        r@ == bytes@.map_values(|b: u8| b as char),
{
    match String::from_utf8(bytes) {
        Ok(s) => s,
        Err(_) => String::new(),
    }
}

impl ThreeWayMerge {
    /// One comma-separated line naming the four commits in hex, in the
    /// order origin, first side, second side, merge.
    pub fn to_csv_line(&self) -> (r: String)
        ensures
            r@ == csv_quad_bytes(self@).map_values(|b: u8| b as char),
    {
        let mut bytes = self.o.to_hex_bytes();
        let mut rest = self.a.to_hex_bytes();
        bytes.push(44);
        bytes.append(&mut rest);
        bytes.push(44);
        let mut rest = self.b.to_hex_bytes();
        bytes.append(&mut rest);
        bytes.push(44);
        let mut rest = self.m.to_hex_bytes();
        bytes.append(&mut rest);
        proof {
            assert(bytes@ =~= csv_quad_bytes(self@));
            lemma_hex_ascii(self@.o);
            lemma_hex_ascii(self@.a);
            lemma_hex_ascii(self@.b);
            lemma_hex_ascii(self@.m);
            assert(forall|i: int| 0 <= i < bytes@.len() ==> bytes@[i] < 128);
        }
        string_from_ascii(bytes)
    }

    /// Parses a quadruple from the hex texts of its four commits.  Each
    /// text must be a syntactically valid identifier of one to forty hex
    /// digits; anything else fails as malformed before any repository work
    /// starts.
    pub fn from_oid_str(o_str: &str, a_str: &str, b_str: &str, m_str: &str) -> (r: Result<
        ThreeWayMerge,
        CoreError,
    >)
        ensures
            (valid_hex_id(o_str.spec_bytes()) && valid_hex_id(a_str.spec_bytes()) && valid_hex_id(
                b_str.spec_bytes(),
            ) && valid_hex_id(m_str.spec_bytes())) ==> (r matches Ok(q) && q@.o == hex_decoded(
                o_str.spec_bytes(),
            ) && q@.a == hex_decoded(a_str.spec_bytes()) && q@.b == hex_decoded(b_str.spec_bytes())
                && q@.m == hex_decoded(m_str.spec_bytes())),
            !(valid_hex_id(o_str.spec_bytes()) && valid_hex_id(a_str.spec_bytes()) && valid_hex_id(
                b_str.spec_bytes(),
            ) && valid_hex_id(m_str.spec_bytes())) ==> (r matches Err(e) && e
                == CoreError::Malformed),
    {
        let o = match CommitId::from_hex(o_str) {
            Ok(id) => id,
            Err(e) => {
                return Err(e);
            },
        };
        let a = match CommitId::from_hex(a_str) {
            Ok(id) => id,
            Err(e) => {
                return Err(e);
            },
        };
        let b = match CommitId::from_hex(b_str) {
            Ok(id) => id,
            Err(e) => {
                return Err(e);
            },
        };
        let m = match CommitId::from_hex(m_str) {
            Ok(id) => id,
            Err(e) => {
                return Err(e);
            },
        };
        Ok(ThreeWayMerge { o, a, b, m })
    }

    /// The distinct files changed between the origin and the merge commit.
    pub fn files_to_consider(&self, repo: &git2::Repository) -> (r: Result<Vec<Vec<u8>>, CoreError>)
        ensures
            r matches Ok(files) ==> forall|i: int, j: int|
                0 <= i < j < files.deep_view().len() ==> files.deep_view()[i]
                    != files.deep_view()[j],
    {
        changed_filenames(repo, &self.o, &self.m)
    }

    /// The timestamp of the merge commit, in seconds since the epoch.  A
    /// merge commit that does not resolve surfaces as `NotFound`.
    pub fn time(&self, repo: &git2::Repository) -> (r: Result<i64, CoreError>)
        ensures
            r matches Err(e) ==> e == CoreError::NotFound,
    {
        match lookup_commit(repo, &self.m) {
            None => Err(CoreError::NotFound),
            Some(c) => Ok(c.timestamp),
        }
    }

    /// True when the two sides changed at least one common file passing the
    /// extension filter, relative to the origin.
    pub fn a_b_change_same_file(
        &self,
        repo: &git2::Repository,
        only_extensions: &Vec<Vec<u8>>,
    ) -> (r: Result<bool, CoreError>)
        ensures
            r matches Err(e) ==> e == CoreError::NotFound,
    {
        changed_same_file(repo, &self.o, &self.a, &self.o, &self.b, only_extensions)
    }

    /// The files changed both from the origin to the first side and from
    /// the origin to the second side, without duplicates.
    pub fn files_changed_in_both_branches(&self, repo: &git2::Repository) -> (r: Result<
        Vec<Vec<u8>>,
        CoreError,
    >)
        ensures
            r matches Ok(files) ==> forall|i: int, j: int|
                0 <= i < j < files.deep_view().len() ==> files.deep_view()[i]
                    != files.deep_view()[j],
    {
        let o_to_a = match changed_filenames(repo, &self.o, &self.a) {
            Ok(f) => f,
            Err(e) => {
                return Err(e);
            },
        };
        let o_to_b = match changed_filenames(repo, &self.o, &self.b) {
            Ok(f) => f,
            Err(e) => {
                return Err(e);
            },
        };
        Ok(intersect_lists(&o_to_a, &o_to_b))
    }
}

/// Hex text is ASCII: every byte of an encoded identifier is below 128.
proof fn lemma_hex_ascii(id: Seq<u8>)
    ensures
        forall|i: int| 0 <= i < hex_encoded(id).len() ==> hex_encoded(id)[i] < 128,
{
    assert forall|i: int| 0 <= i < hex_encoded(id).len() implies hex_encoded(id)[i] < 128 by {
        assert(hex_encoded(id)[i] == if i % 2 == 0 {
            crate::ids::hex_digit_char(id[i / 2] as int / 16)
        } else {
            crate::ids::hex_digit_char(id[i / 2] as int % 16)
        });
    }
}

} // verus!
