//! The tag index and the progressive-narrowing search.
//!
//! A [`State`] owns every stored [`Page`], a tag index mapping each
//! tag to the set of page ids carrying it, and the path maps that
//! connect a page id with the file it came from.  All of it is kept
//! consistent by `insert` and `remove`; searches only read.

use vstd::prelude::*;

use crate::page::Page;
use crate::text::push_tag;
use crate::PageId;

verus! {

/// One stored document together with its identity and the canonical
/// path of the file it was parsed from.  Keeping the page, the id and
/// the path in a single record makes the two path maps (path to id,
/// id to path) a single component that cannot drift apart.
struct Doc {
    id: u32,
    page: Page,
    path: String,
}

/// One entry of the tag index: the ids of every page carrying `tag`,
/// in ascending order.  A bucket outlives its last page: removing all
/// pages with a tag leaves an empty bucket behind, which behaves like
/// an unknown tag in every search.
struct Bucket {
    tag: String,
    ids: Vec<u32>,
}

/// The store: every page, the tag index, and the derived list of all
/// live ids.  Single-threaded; `sync::SyncState` adds locking.
pub struct State {
    docs: Vec<Doc>,
    buckets: Vec<Bucket>,
    all_pages: Vec<u32>,
    next_page_id: u32,
}

/// How a narrowing search classified its result: nothing matched,
/// exactly one page matched, or several did.
#[derive(Debug, PartialEq, Eq, Clone)]
pub enum MatchType {
    NoMatch,
    One(PageId),
    Many(Vec<PageId>),
}

/// The narrowing facets of a search result: each tag that could
/// narrow the result further, with the number of reported pages
/// carrying it.
pub type NarrowingTagsSet = Vec<(String, usize)>;

/// The full answer of a narrowing search: the classification, the
/// query tags that were used, the query tags that were rejected, and
/// the facet counts for further narrowing.
#[derive(Debug, PartialEq, Eq)]
pub struct Match {
    pub type_: MatchType,
    pub matching_tags: Vec<String>,
    pub unmatched_tags: Vec<String>,
    pub narrowing_tags: NarrowingTagsSet,
}

/// The stricter outcome used for exact-duplicate detection.
#[derive(Debug, PartialEq, Eq, Clone)]
pub enum LookupOutcome {
    NoMatch,
    One(PageId),
    Many,
}

/// Why a single-target lookup failed: no candidate at all, or more
/// than one where exactly one was required.
#[derive(Debug, PartialEq, Eq, Clone, Copy)]
pub enum LookupError {
    NotFound,
    Ambiguous,
}

impl Match {
    /// Nothing matched.
    pub fn is_none(&self) -> (b: bool)
        ensures
            b == (self.type_ is NoMatch),
    {
        matches!(self.type_, MatchType::NoMatch)
    }

    /// Exactly one page matched.
    pub fn is_one(&self) -> (b: bool)
        ensures
            b == (self.type_ is One),
    {
        matches!(self.type_, MatchType::One(_))
    }

    /// Several pages matched.
    pub fn is_many(&self) -> (b: bool)
        ensures
            b == (self.type_ is Many),
    {
        matches!(self.type_, MatchType::Many(_))
    }

    /// Some query tag was rejected.
    pub fn has_unmatched_tags(&self) -> (b: bool)
        ensures
            b == (self.unmatched_tags@.len() != 0),
    {
        !self.unmatched_tags.is_empty()
    }

    /// The URL that repeats exactly the tags the search used, with a
    /// trailing slash when an exact match was not preferred.
    pub fn to_precise_url(&self, prefer_exact: bool) -> (r: String)
        ensures
            r@ == seq!['/'] + crate::text::join_slash_spec(self.matching_tags.deep_view()) + (
            if !prefer_exact {
                seq!['/']
            } else {
                Seq::<char>::empty()
            }),
    {
        crate::text::tags_url(&self.matching_tags, !prefer_exact)
    }
}

/// `s` is strictly increasing.
pub open spec fn sorted_strict(s: Seq<u32>) -> bool {
    forall|i: int, j: int| 0 <= i < j < s.len() ==> s[i] < s[j]
}

/// Between two states, the page under id `x` is untouched: live in
/// one exactly when live in the other, with the same page and path.
pub open spec fn keeps_doc(a: State, b: State, x: u32) -> bool {
    &&& (b.has_id(x) <==> a.has_id(x))
    &&& (a.has_id(x) ==> b.page_at(x) == a.page_at(x) && b.path_at(x) == a.path_at(x))
}

/// Hard ceiling on the number of ids a search reports.  When the true
/// match count exceeds it, the excess is dropped after ordering by
/// ascending id, so the truncation is reproducible.
pub const MAX_RESULTS: usize = 1000;

/// The elements of `a` that also occur in `b`, in `a`'s order.
pub open spec fn inter_ids(a: Seq<u32>, b: Seq<u32>) -> Seq<u32> {
    a.filter(|x: u32| b.contains(x))
}

/// One step of the narrowing walk.  The accumulator holds the tags
/// used so far, the tags rejected so far, and the candidate set
/// (`None` until the first tag narrows it).  An unknown tag, or one
/// whose intersection would be empty, is rejected and changes
/// nothing; any other tag replaces the candidate set by the
/// intersection.
pub open spec fn narrow_step(
    s: State,
    acc: (Seq<Seq<char>>, Seq<Seq<char>>, Option<Seq<u32>>),
    t: Seq<char>,
) -> (Seq<Seq<char>>, Seq<Seq<char>>, Option<Seq<u32>>) {
    if !s.tag_known(t) {
        (acc.0, acc.1.push(t), acc.2)
    } else {
        let base = match acc.2 {
            Option::Some(c) => c,
            Option::None => s.ids(),
        };
        let n = inter_ids(base, s.bucket_ids(t));
        if n.len() == 0 {
            (acc.0, acc.1.push(t), acc.2)
        } else {
            (acc.0.push(t), acc.1, Option::Some(n))
        }
    }
}

/// The narrowing walk over the first `k` query tags, in query order.
pub open spec fn narrow_prefix(s: State, tags: Seq<Seq<char>>, k: int) -> (
    Seq<Seq<char>>,
    Seq<Seq<char>>,
    Option<Seq<u32>>,
)
    decreases k,
{
    if k <= 0 {
        (Seq::empty(), Seq::empty(), Option::None)
    } else {
        narrow_step(s, narrow_prefix(s, tags, k - 1), tags[k - 1])
    }
}

/// The narrowing walk over the whole query.
pub open spec fn narrow(s: State, tags: Seq<Seq<char>>) -> (
    Seq<Seq<char>>,
    Seq<Seq<char>>,
    Option<Seq<u32>>,
) {
    narrow_prefix(s, tags, tags.len() as int)
}

/// The reported ids: the candidate set (or every live id when no tag
/// narrowed), capped at `MAX_RESULTS`.
pub open spec fn cap_results(s: State, cand: Option<Seq<u32>>) -> Seq<u32> {
    let base = match cand {
        Option::Some(c) => c,
        Option::None => s.ids(),
    };
    if base.len() <= MAX_RESULTS { base } else { base.take(MAX_RESULTS as int) }
}

/// Every tag of the page lies in the query: an exact or
/// over-specified match needing no further narrowing.
pub open spec fn tags_subset(page_tags: Seq<Seq<char>>, query: Seq<Seq<char>>) -> bool {
    forall|i: int| 0 <= i < page_tags.len() ==> query.contains(page_tags[i])
}

/// The first id, in result order, whose page's tag set is contained
/// in the query.
pub open spec fn first_exact(s: State, rids: Seq<u32>, query: Seq<Seq<char>>) -> Option<u32>
    decreases rids.len(),
{
    if rids.len() == 0 {
        Option::None
    } else if tags_subset(s.page_tags(rids[0]), query) {
        Option::Some(rids[0])
    } else {
        first_exact(s, rids.drop_first(), query)
    }
}

/// What the classification of a search result must look like: no id,
/// one id, or many — with `prefer_exact` resolving many to the first
/// exact-subset match when one exists.
pub open spec fn match_type_ok(
    s: State,
    rids: Seq<u32>,
    query: Seq<Seq<char>>,
    prefer_exact: bool,
    t: MatchType,
) -> bool {
    if rids.len() == 0 {
        t is NoMatch
    } else if rids.len() == 1 {
        t matches MatchType::One(p) && p.0 == rids[0]
    } else if prefer_exact {
        match first_exact(s, rids, query) {
            Option::Some(x) => t matches MatchType::One(p) && p.0 == x,
            Option::None => t matches MatchType::Many(v) && page_id_values(v@) == rids,
        }
    } else {
        t matches MatchType::Many(v) && page_id_values(v@) == rids
    }
}

/// The strict narrowing walk over the first `k` query tags.  Unlike
/// `narrow_prefix`, an unknown tag or an empty intersection aborts
/// the whole walk (`None`); otherwise the candidate set after the
/// prefix is returned.
pub open spec fn exact_prefix(s: State, tags: Seq<Seq<char>>, k: int) -> Option<Option<Seq<u32>>>
    decreases k,
{
    if k <= 0 {
        Option::Some(Option::None)
    } else {
        match exact_prefix(s, tags, k - 1) {
            Option::None => Option::None,
            Option::Some(cand) => {
                let t = tags[k - 1];
                if !s.tag_known(t) {
                    Option::None
                } else {
                    let base = match cand {
                        Option::Some(c) => c,
                        Option::None => s.ids(),
                    };
                    let n = inter_ids(base, s.bucket_ids(t));
                    if n.len() == 0 {
                        Option::None
                    } else {
                        Option::Some(Option::Some(n))
                    }
                }
            },
        }
    }
}

/// The outcome of the strict lookup: aborted walks and empty results
/// give `NoMatch`; otherwise the candidate count decides.
pub open spec fn lookup_exact_spec(s: State, tags: Seq<Seq<char>>) -> LookupOutcome {
    match exact_prefix(s, tags, tags.len() as int) {
        Option::None => LookupOutcome::NoMatch,
        Option::Some(cand) => {
            let base = match cand {
                Option::Some(c) => c,
                Option::None => s.ids(),
            };
            if base.len() == 0 {
                LookupOutcome::NoMatch
            } else if base.len() == 1 {
                LookupOutcome::One(PageId(base[0]))
            } else {
                LookupOutcome::Many
            }
        },
    }
}

/// Once the strict walk aborts, it stays aborted.
proof fn lemma_exact_abort(s: State, tags: Seq<Seq<char>>, k: int, m: int)
    requires
        0 <= k <= m,
        exact_prefix(s, tags, k) is None,
    ensures
        exact_prefix(s, tags, m) is None,
    decreases m,
{
    if m > k {
        lemma_exact_abort(s, tags, k, m - 1);
    }
}

/// Everything `find_best_match` promises about its answer: the used
/// and rejected tags and the candidate set follow the narrowing walk,
/// the facet counts are those of the capped result, and the
/// classification obeys `match_type_ok`.
pub open spec fn find_best_match_post(
    s: State,
    query: Seq<Seq<char>>,
    prefer_exact: bool,
    m: Match,
) -> bool {
    let nar = narrow(s, query);
    let rids = cap_results(s, nar.2);
    &&& m.matching_tags.deep_view() == nar.0
    &&& m.unmatched_tags.deep_view() == nar.1
    &&& facets_view(m.narrowing_tags@) == narrowing_facets(s, rids, nar.0)
    &&& match_type_ok(s, rids, query, prefer_exact, m.type_)
}

/// Two search answers agree in everything observable: the used and
/// rejected tag lists, the facet counts, and the classification with
/// its payload.
pub open spec fn match_views_equal(a: Match, b: Match) -> bool {
    &&& a.matching_tags.deep_view() == b.matching_tags.deep_view()
    &&& a.unmatched_tags.deep_view() == b.unmatched_tags.deep_view()
    &&& facets_view(a.narrowing_tags@) == facets_view(b.narrowing_tags@)
    &&& match (a.type_, b.type_) {
        (MatchType::NoMatch, MatchType::NoMatch) => true,
        (MatchType::One(p), MatchType::One(q)) => p == q,
        (MatchType::Many(v), MatchType::Many(w)) => page_id_values(v@) == page_id_values(w@),
        _ => false,
    }
}

/// Searching is idempotent and reproducible: two calls with the same
/// tag list, the same preference and no intervening mutation yield
/// identical answers — including the ordering and truncation of a
/// result that exceeds the cap, which is why repeated over-wide
/// queries page through the same ids.
pub proof fn lemma_find_best_match_deterministic(
    s: State,
    query: Seq<Seq<char>>,
    prefer_exact: bool,
    m1: Match,
    m2: Match,
)
    requires
        find_best_match_post(s, query, prefer_exact, m1),
        find_best_match_post(s, query, prefer_exact, m2),
    ensures
        match_views_equal(m1, m2),
{
    let nar = narrow(s, query);
    let rids = cap_results(s, nar.2);
    if rids.len() == 0 {
        assert(m1.type_ is NoMatch && m2.type_ is NoMatch);
    } else if rids.len() == 1 {
    } else if prefer_exact {
        match first_exact(s, rids, query) {
            Option::Some(x) => {},
            Option::None => {},
        }
    }
}

/// The ids a search reports are strictly ascending: the documented,
/// deterministic order that keeps truncation at the cap stable
/// across repeated identical queries.
pub proof fn lemma_results_ascending(s: State, tags: Seq<Seq<char>>)
    requires
        s.wf(),
    ensures
        sorted_strict(cap_results(s, narrow(s, tags).2)),
{
    lemma_narrow_props(s, tags, tags.len() as int);
    let cand = narrow(s, tags).2;
    let base = match cand {
        Option::Some(c) => c,
        Option::None => s.ids(),
    };
    assert(sorted_strict(base));
    let rids = cap_results(s, cand);
    assert forall|i: int, j: int| 0 <= i < j < rids.len() implies rids[i] < rids[j] by {
        assert(rids[i] == base[i] && rids[j] == base[j]);
    }
}

/// When an exact-subset match is found, it is one of the reported
/// ids and its tag set lies inside the query.
pub proof fn lemma_first_exact_contains(s: State, rids: Seq<u32>, query: Seq<Seq<char>>)
    ensures
        first_exact(s, rids, query) matches Some(x) ==> rids.contains(x) && tags_subset(
            s.page_tags(x),
            query,
        ),
    decreases rids.len(),
{
    if rids.len() > 0 {
        if tags_subset(s.page_tags(rids[0]), query) {
            assert(rids.contains(rids[0]));
        } else {
            lemma_first_exact_contains(s, rids.drop_first(), query);
            match first_exact(s, rids, query) {
                Option::Some(x) => {
                    assert(rids.drop_first().contains(x));
                    let w = choose|w: int|
                        0 <= w < rids.drop_first().len() && rids.drop_first()[w] == x;
                    assert(rids[w + 1] == x);
                },
                Option::None => {},
            }
        }
    }
}

/// Every id a search reports is live.
pub proof fn lemma_results_live(s: State, tags: Seq<Seq<char>>)
    requires
        s.wf(),
    ensures
        forall|x: u32| #[trigger]
            cap_results(s, narrow(s, tags).2).contains(x) ==> s.has_id(x),
{
    lemma_narrow_props(s, tags, tags.len() as int);
    let cand = narrow(s, tags).2;
    let base = match cand {
        Option::Some(c) => c,
        Option::None => s.ids(),
    };
    let rids = cap_results(s, cand);
    assert forall|x: u32| #[trigger] rids.contains(x) implies s.has_id(x) by {
        let w = choose|w: int| 0 <= w < rids.len() && rids[w] == x;
        assert(base[w] == x);
        assert(base.contains(x));
    }
}

/// A tag unknown to the index is always rejected into the unmatched
/// list; it never touches the used tags or the candidate set, so it
/// can never reduce the result.
pub proof fn lemma_unknown_tag_rejected(
    s: State,
    acc: (Seq<Seq<char>>, Seq<Seq<char>>, Option<Seq<u32>>),
    t: Seq<char>,
)
    requires
        !s.tag_known(t),
    ensures
        narrow_step(s, acc, t) == (acc.0, acc.1.push(t), acc.2),
{
}

/// The narrowing walk over a prefix reads only that prefix of the
/// query.
proof fn lemma_narrow_prefix_congruence(s: State, q1: Seq<Seq<char>>, q2: Seq<Seq<char>>, j: int)
    requires
        0 <= j <= q1.len(),
        j <= q2.len(),
        forall|i: int| 0 <= i < j ==> q1[i] == q2[i],
    ensures
        narrow_prefix(s, q1, j) == narrow_prefix(s, q2, j),
    decreases j,
{
    if j > 0 {
        lemma_narrow_prefix_congruence(s, q1, q2, j - 1);
    }
}

/// After the walk passes an unknown tag, the used tags and the
/// candidate set evolve exactly as if the tag had not been in the
/// query, and the rejected list carries it at the position the walk
/// reached it.
proof fn lemma_unknown_tag_skip(s: State, q: Seq<Seq<char>>, k: int, j: int)
    requires
        0 <= k < q.len(),
        !s.tag_known(q[k]),
        k + 1 <= j <= q.len(),
    ensures
        ({
            let a1 = narrow_prefix(s, q, j);
            let a2 = narrow_prefix(s, q.remove(k), j - 1);
            let pos = narrow_prefix(s, q, k).1.len() as int;
            &&& a1.0 == a2.0
            &&& a1.2 == a2.2
            &&& a1.1 == a2.1.insert(pos, q[k])
            &&& pos <= a2.1.len()
        }),
    decreases j,
{
    let q2 = q.remove(k);
    let pos = narrow_prefix(s, q, k).1.len() as int;
    if j == k + 1 {
        lemma_narrow_prefix_congruence(s, q, q2, k);
        let a = narrow_prefix(s, q, k);
        assert(narrow_prefix(s, q, j) == narrow_step(s, a, q[k]));
        assert(narrow_step(s, a, q[k]) == (a.0, a.1.push(q[k]), a.2));
        assert(a.1.push(q[k]) =~= a.1.insert(pos, q[k]));
    } else {
        lemma_unknown_tag_skip(s, q, k, j - 1);
        let a1 = narrow_prefix(s, q, j - 1);
        let a2 = narrow_prefix(s, q2, j - 2);
        let u = q[j - 1];
        assert(q2[j - 2] == u);
        assert(narrow_prefix(s, q, j) == narrow_step(s, a1, u));
        assert(narrow_prefix(s, q2, j - 1) == narrow_step(s, a2, u));
        // a rejected tag lands at the end of both rejected lists,
        // after the inserted one
        assert(a1.1.push(u) =~= a2.1.push(u).insert(pos, q[k])) by {
            assert(a1.1 == a2.1.insert(pos, q[k]));
            assert(a1.1.len() == a2.1.len() + 1);
            assert forall|w: int| 0 <= w < a1.1.push(u).len() implies a1.1.push(u)[w]
                == a2.1.push(u).insert(pos, q[k])[w] by {
                if w < a1.1.len() {
                    assert(a1.1.push(u)[w] == a1.1[w]);
                    assert(a1.1[w] == a2.1.insert(pos, q[k])[w]);
                    if w < pos {
                        assert(a2.1.insert(pos, q[k])[w] == a2.1[w]);
                        assert(a2.1.push(u).insert(pos, q[k])[w] == a2.1.push(u)[w]);
                    } else if w == pos {
                        assert(a2.1.insert(pos, q[k])[w] == q[k]);
                        assert(a2.1.push(u).insert(pos, q[k])[w] == q[k]);
                    } else {
                        assert(a2.1.insert(pos, q[k])[w] == a2.1[w - 1]);
                        assert(a2.1.push(u).insert(pos, q[k])[w] == a2.1.push(u)[w - 1]);
                    }
                } else {
                    assert(a1.1.push(u)[w] == u);
                    assert(w > pos);
                    assert(a2.1.push(u).insert(pos, q[k])[w] == a2.1.push(u)[w - 1]);
                    assert(a2.1.push(u)[w - 1] == u);
                }
            }
        }
    }
}

/// A query tag no live page carries does not change which pages are
/// exact-subset matches.
proof fn lemma_first_exact_uncarried(s: State, rids: Seq<u32>, q: Seq<Seq<char>>, k: int)
    requires
        s.wf(),
        0 <= k < q.len(),
        !s.tag_known(q[k]),
        forall|i: int| 0 <= i < rids.len() ==> s.has_id(#[trigger] rids[i]),
    ensures
        first_exact(s, rids, q) == first_exact(s, rids, q.remove(k)),
    decreases rids.len(),
{
    if rids.len() > 0 {
        let pt = s.page_tags(rids[0]);
        assert(!pt.contains(q[k])) by {
            if pt.contains(q[k]) {
                assert(rids.contains(rids[0])) by {
                    assert(rids[0] == rids[0]);
                }
                assert(s.carries(rids[0], q[k]));
            }
        }
        assert(tags_subset(pt, q) == tags_subset(pt, q.remove(k))) by {
            if tags_subset(pt, q) {
                assert forall|i: int| 0 <= i < pt.len() implies q.remove(k).contains(pt[i]) by {
                    assert(q.contains(pt[i]));
                    let w = choose|w: int| 0 <= w < q.len() && q[w] == pt[i];
                    assert(w != k);
                    if w < k {
                        assert(q.remove(k)[w] == pt[i]);
                    } else {
                        assert(q.remove(k)[w - 1] == pt[i]);
                    }
                }
            }
            if tags_subset(pt, q.remove(k)) {
                assert forall|i: int| 0 <= i < pt.len() implies q.contains(pt[i]) by {
                    assert(q.remove(k).contains(pt[i]));
                    let w = choose|w: int|
                        0 <= w < q.remove(k).len() && q.remove(k)[w] == pt[i];
                    if w < k {
                        assert(q[w] == pt[i]);
                    } else {
                        assert(q[w + 1] == pt[i]);
                    }
                }
            }
        }
        assert forall|i: int| 0 <= i < rids.drop_first().len() implies s.has_id(
            #[trigger] rids.drop_first()[i],
        ) by {
            assert(rids.drop_first()[i] == rids[i + 1]);
        }
        lemma_first_exact_uncarried(s, rids.drop_first(), q, k);
    }
}

/// The full unknown-tag law: a query tag without an index entry is
/// rejected into the unmatched list at the position the walk reached
/// it, and everything else — the used tags, the reported ids, the
/// facet counts and the classification — equals the answer to the
/// query with that tag removed.
pub proof fn lemma_unknown_tag_removed(
    s: State,
    q: Seq<Seq<char>>,
    k: int,
    prefer_exact: bool,
    m1: Match,
    m2: Match,
)
    requires
        s.wf(),
        0 <= k < q.len(),
        !s.tag_known(q[k]),
        find_best_match_post(s, q, prefer_exact, m1),
        find_best_match_post(s, q.remove(k), prefer_exact, m2),
    ensures
        m1.matching_tags.deep_view() == m2.matching_tags.deep_view(),
        m1.unmatched_tags.deep_view() == m2.unmatched_tags.deep_view().insert(
            narrow_prefix(s, q, k).1.len() as int,
            q[k],
        ),
        m1.unmatched_tags.deep_view().contains(q[k]),
        facets_view(m1.narrowing_tags@) == facets_view(m2.narrowing_tags@),
        match (m1.type_, m2.type_) {
            (MatchType::NoMatch, MatchType::NoMatch) => true,
            (MatchType::One(p), MatchType::One(r)) => p == r,
            (MatchType::Many(v), MatchType::Many(w)) => page_id_values(v@) == page_id_values(w@),
            _ => false,
        },
{
    let q2 = q.remove(k);
    lemma_unknown_tag_skip(s, q, k, q.len() as int);
    let n1 = narrow(s, q);
    let n2 = narrow(s, q2);
    assert(n1.0 == n2.0 && n1.2 == n2.2);
    let rids = cap_results(s, n1.2);
    assert(cap_results(s, n2.2) == rids);
    let pos = narrow_prefix(s, q, k).1.len() as int;
    assert(m1.unmatched_tags.deep_view()[pos] == q[k]) by {
        assert(pos <= m2.unmatched_tags.deep_view().len());
    }
    lemma_results_live(s, q);
    assert forall|i: int| 0 <= i < rids.len() implies s.has_id(#[trigger] rids[i]) by {
        assert(rids.contains(rids[i]));
    }
    lemma_first_exact_uncarried(s, rids, q, k);
    if rids.len() == 0 {
    } else if rids.len() == 1 {
    } else if prefer_exact {
        match first_exact(s, rids, q) {
            Option::Some(x) => {},
            Option::None => {},
        }
    }
}

/// An empty query against a store of two or more pages reports the
/// whole store, subject to the cap, with no used and no rejected
/// tags.  A store of exactly one page answers the same query with a
/// unique match instead, so it stays outside this statement; so does
/// `prefer_exact`, under which a page without tags would resolve the
/// ambiguity.
pub proof fn lemma_empty_query(s: State, m: Match)
    requires
        s.wf(),
        s.ids().len() >= 2,
        find_best_match_post(s, Seq::empty(), false, m),
    ensures
        m.type_ matches MatchType::Many(v) && page_id_values(v@) == cap_results(
            s,
            Option::None,
        ),
        m.matching_tags.deep_view() == Seq::<Seq<char>>::empty(),
        m.unmatched_tags.deep_view() == Seq::<Seq<char>>::empty(),
{
    let q = Seq::<Seq<char>>::empty();
    assert(narrow(s, q) == narrow_prefix(s, q, 0));
    let rids = cap_results(s, narrow(s, q).2);
    assert(rids.len() >= 2);
}

/// Increment the counter for `t` in an association list of facet
/// counts, appending a fresh entry when `t` has none.  A counter that
/// has reached the machine limit stays there.
pub open spec fn bump_facets(f: Seq<(Seq<char>, usize)>, t: Seq<char>) -> Seq<(Seq<char>, usize)>
    decreases f.len(),
{
    if f.len() == 0 {
        seq![(t, 1usize)]
    } else if f[0].0 == t {
        seq![(f[0].0, if f[0].1 < usize::MAX { (f[0].1 + 1) as usize } else { f[0].1 })]
            + f.drop_first()
    } else {
        seq![f[0]] + bump_facets(f.drop_first(), t)
    }
}

/// Fold the first `j` tags of one page into the facet counts,
/// skipping the tags the query already used.
pub open spec fn page_facets(
    f: Seq<(Seq<char>, usize)>,
    tags: Seq<Seq<char>>,
    matched: Seq<Seq<char>>,
    j: int,
) -> Seq<(Seq<char>, usize)>
    decreases j,
{
    if j <= 0 {
        f
    } else {
        let g = page_facets(f, tags, matched, j - 1);
        if matched.contains(tags[j - 1]) {
            g
        } else {
            bump_facets(g, tags[j - 1])
        }
    }
}

/// Facet counts over the first `k` reported pages.
pub open spec fn facets_prefix(
    s: State,
    rids: Seq<u32>,
    matched: Seq<Seq<char>>,
    k: int,
) -> Seq<(Seq<char>, usize)>
    decreases k,
{
    if k <= 0 {
        Seq::empty()
    } else {
        let f = facets_prefix(s, rids, matched, k - 1);
        let tags = s.page_tags(rids[k - 1]);
        page_facets(f, tags, matched, tags.len() as int)
    }
}

/// The narrowing facets of a search: for every page reported and
/// every tag on it that the query did not use, how many reported
/// pages carry that tag.
pub open spec fn narrowing_facets(s: State, rids: Seq<u32>, matched: Seq<Seq<char>>) -> Seq<
    (Seq<char>, usize),
> {
    facets_prefix(s, rids, matched, rids.len() as int)
}

/// The raw ids behind a list of page handles, in order.
pub open spec fn page_id_values(v: Seq<PageId>) -> Seq<u32> {
    v.map_values(|p: PageId| p.0)
}

/// The count recorded for `t` in a facet list, when some entry
/// carries it.
pub open spec fn facet_of(f: Seq<(Seq<char>, usize)>, t: Seq<char>) -> Option<usize>
    decreases f.len(),
{
    if f.len() == 0 {
        Option::None
    } else if f[0].0 == t {
        Option::Some(f[0].1)
    } else {
        facet_of(f.drop_first(), t)
    }
}

/// How many of the first `k` listed pages carry tag `t`.
pub open spec fn count_carrying(s: State, rids: Seq<u32>, t: Seq<char>, k: int) -> nat
    decreases k,
{
    if k <= 0 {
        0nat
    } else {
        count_carrying(s, rids, t, k - 1) + (if s.page_tags(rids[k - 1]).contains(t) {
            1nat
        } else {
            0nat
        })
    }
}

/// Every count in the facet list is below `m`.
pub open spec fn counts_below(f: Seq<(Seq<char>, usize)>, m: int) -> bool {
    forall|k: int| 0 <= k < f.len() ==> f[k].1 < m
}

/// The tags of `ts` are pairwise distinct.
pub open spec fn distinct_tags(ts: Seq<Seq<char>>) -> bool {
    forall|i: int, j: int| 0 <= i < j < ts.len() ==> ts[i] != ts[j]
}

/// A recorded count is below any bound the whole list is below.
proof fn lemma_facet_of_bound(f: Seq<(Seq<char>, usize)>, t: Seq<char>, m: int)
    requires
        counts_below(f, m),
    ensures
        facet_of(f, t) matches Some(c) ==> c < m,
    decreases f.len(),
{
    if f.len() > 0 && f[0].0 != t {
        assert(counts_below(f.drop_first(), m)) by {
            assert forall|k: int| 0 <= k < f.drop_first().len() implies f.drop_first()[k].1
                < m by {
                assert(f.drop_first()[k] == f[k + 1]);
            }
        }
        lemma_facet_of_bound(f.drop_first(), t, m);
    }
}

/// Bumping adjusts exactly the entry it names: the named tag's count
/// rises by one (from one, for a fresh entry), every other lookup is
/// untouched, and every bound on the counts rises by at most one.
proof fn lemma_bump_assoc(f: Seq<(Seq<char>, usize)>, tag: Seq<char>, t: Seq<char>)
    requires
        facet_of(f, tag) matches Some(c) ==> c < usize::MAX,
    ensures
        facet_of(bump_facets(f, tag), t) == (if t == tag {
            match facet_of(f, t) {
                Option::Some(c) => Option::Some((c + 1) as usize),
                Option::None => Option::Some(1usize),
            }
        } else {
            facet_of(f, t)
        }),
    decreases f.len(),
{
    let out = bump_facets(f, tag);
    if f.len() == 0 {
        assert(out == seq![(tag, 1usize)]);
        assert(out[0] == (tag, 1usize));
        assert(out.drop_first() =~= Seq::<(Seq<char>, usize)>::empty());
        if t == tag {
            assert(facet_of(out, t) == Option::Some(1usize));
        } else {
            assert(facet_of(out, t) == facet_of(out.drop_first(), t));
        }
    } else if f[0].0 == tag {
        assert(f[0].1 < usize::MAX);
        assert(out == seq![(f[0].0, (f[0].1 + 1) as usize)] + f.drop_first());
        assert(out[0] == (f[0].0, (f[0].1 + 1) as usize));
        assert(out.drop_first() =~= f.drop_first());
    } else {
        lemma_bump_assoc(f.drop_first(), tag, t);
        assert(out == seq![f[0]] + bump_facets(f.drop_first(), tag));
        assert(out[0] == f[0]);
        assert(out.drop_first() =~= bump_facets(f.drop_first(), tag));
    }
}

/// Bumping keeps every count below one more than any bound the list
/// was below.
proof fn lemma_bump_bound(f: Seq<(Seq<char>, usize)>, tag: Seq<char>, m: int)
    requires
        counts_below(f, m),
        m >= 1,
    ensures
        counts_below(bump_facets(f, tag), m + 1),
    decreases f.len(),
{
    let out = bump_facets(f, tag);
    if f.len() == 0 {
        assert(out == seq![(tag, 1usize)]);
        assert(out[0] == (tag, 1usize));
    } else {
        assert(counts_below(f.drop_first(), m)) by {
            assert forall|k: int| 0 <= k < f.drop_first().len() implies f.drop_first()[k].1
                < m by {
                assert(f.drop_first()[k] == f[k + 1]);
            }
        }
        if f[0].0 == tag {
            assert forall|k: int| 0 <= k < out.len() implies out[k].1 < m + 1 by {
                if k > 0 {
                    assert(out[k] == f.drop_first()[k - 1]);
                }
            }
        } else {
            lemma_bump_bound(f.drop_first(), tag, m);
            assert forall|k: int| 0 <= k < out.len() implies out[k].1 < m + 1 by {
                if k > 0 {
                    assert(out[k] == bump_facets(f.drop_first(), tag)[k - 1]);
                }
            }
        }
    }
}

/// Folding one page whose tags are distinct adds exactly one to the
/// count of each of its unused tags, and leaves every other lookup
/// untouched.
proof fn lemma_page_facets_assoc(
    f: Seq<(Seq<char>, usize)>,
    tags: Seq<Seq<char>>,
    matched: Seq<Seq<char>>,
    j: int,
    t: Seq<char>,
    m: int,
)
    requires
        0 <= j <= tags.len(),
        distinct_tags(tags),
        counts_below(f, m),
        1 <= m < usize::MAX as int,
    ensures
        counts_below(page_facets(f, tags, matched, j), m + 1),
        facet_of(page_facets(f, tags, matched, j), t) == (if !matched.contains(t)
            && tags.take(j).contains(t) {
            match facet_of(f, t) {
                Option::Some(c) => Option::Some((c + 1) as usize),
                Option::None => Option::Some(1usize),
            }
        } else {
            facet_of(f, t)
        }),
    decreases j, 1int,
{
    if j <= 0 {
        assert(!tags.take(j).contains(t)) by {
            assert(tags.take(0).len() == 0);
        }
    } else {
        lemma_page_facets_assoc(f, tags, matched, j - 1, t, m);
        let g = page_facets(f, tags, matched, j - 1);
        let tj = tags[j - 1];
        assert(tags.take(j).contains(tj)) by {
            assert(tags.take(j)[j - 1] == tj);
        }
        // a distinct tag list never revisits `tj`
        assert(!tags.take(j - 1).contains(tj)) by {
            if tags.take(j - 1).contains(tj) {
                let w = choose|w: int|
                    0 <= w < tags.take(j - 1).len() && #[trigger] tags.take(j - 1)[w] == tj;
                assert(tags[w] == tags[j - 1]);
            }
        }
        assert forall|x: Seq<char>| x != tj implies (tags.take(j).contains(x) == tags.take(
            j - 1,
        ).contains(x)) by {
            if tags.take(j).contains(x) {
                let w = choose|w: int|
                    0 <= w < tags.take(j).len() && #[trigger] tags.take(j)[w] == x;
                if w < j - 1 {
                    assert(tags.take(j - 1)[w] == x);
                }
            } else if tags.take(j - 1).contains(x) {
                let w = choose|w: int|
                    0 <= w < tags.take(j - 1).len() && #[trigger] tags.take(j - 1)[w] == x;
                assert(tags.take(j)[w] == x);
            }
        }
        if matched.contains(tj) {
            assert(page_facets(f, tags, matched, j) == g);
        } else {
            lemma_page_facets_assoc(f, tags, matched, j - 1, tj, m);
            assert(facet_of(g, tj) == facet_of(f, tj));
            lemma_facet_of_bound(f, tj, m);
            lemma_bump_assoc(g, tj, t);
            lemma_bump_bound(g, tj, m + 1);
            assert(counts_below(page_facets(f, tags, matched, j), m + 1)) by {
                lemma_page_bound_tight(f, tags, matched, j, m);
            }
        }
    }
}

/// Folding one page raises every bound on the counts by at most one,
/// however many of its tags are new.
proof fn lemma_page_bound_tight(
    f: Seq<(Seq<char>, usize)>,
    tags: Seq<Seq<char>>,
    matched: Seq<Seq<char>>,
    j: int,
    m: int,
)
    requires
        0 <= j <= tags.len(),
        distinct_tags(tags),
        counts_below(f, m),
        1 <= m < usize::MAX as int,
    ensures
        counts_below(page_facets(f, tags, matched, j), m + 1),
    decreases j, 0int,
{
    if j > 0 {
        lemma_page_bound_tight(f, tags, matched, j - 1, m);
        let g = page_facets(f, tags, matched, j - 1);
        let tj = tags[j - 1];
        if !matched.contains(tj) {
            // the entry for `tj` still carries its count from `f`,
            // because a distinct tag list never revisited it
            assert(!tags.take(j - 1).contains(tj)) by {
                if tags.take(j - 1).contains(tj) {
                    let w = choose|w: int|
                        0 <= w < tags.take(j - 1).len() && #[trigger] tags.take(j - 1)[w] == tj;
                    assert(tags[w] == tags[j - 1]);
                }
            }
            lemma_page_facets_assoc(f, tags, matched, j - 1, tj, m);
            assert(facet_of(g, tj) == facet_of(f, tj));
            lemma_facet_of_bound(f, tj, m);
            lemma_bump_assoc(g, tj, tj);
            lemma_bump_count_stays(g, tj, m);
        }
    }
}

/// Bumping an entry whose count is below `m - 1`, in a list bounded
/// by `m`, keeps the list bounded by `m`.
proof fn lemma_bump_count_stays(f: Seq<(Seq<char>, usize)>, tag: Seq<char>, m: int)
    requires
        counts_below(f, m + 1),
        facet_of(f, tag) matches Some(c) ==> c < m,
        facet_of(f, tag) is None ==> m >= 1,
        m < usize::MAX as int,
    ensures
        counts_below(bump_facets(f, tag), m + 1),
    decreases f.len(),
{
    let out = bump_facets(f, tag);
    if f.len() == 0 {
        assert(out == seq![(tag, 1usize)]);
        assert(out[0] == (tag, 1usize));
    } else {
        assert(counts_below(f.drop_first(), m + 1)) by {
            assert forall|k: int| 0 <= k < f.drop_first().len() implies f.drop_first()[k].1 < m
                + 1 by {
                assert(f.drop_first()[k] == f[k + 1]);
            }
        }
        if f[0].0 == tag {
            assert(out == seq![(f[0].0, (f[0].1 + 1) as usize)] + f.drop_first());
            assert forall|k: int| 0 <= k < out.len() implies out[k].1 < m + 1 by {
                if k > 0 {
                    assert(out[k] == f.drop_first()[k - 1]);
                }
            }
        } else {
            lemma_bump_count_stays(f.drop_first(), tag, m);
            assert(out == seq![f[0]] + bump_facets(f.drop_first(), tag));
            assert forall|k: int| 0 <= k < out.len() implies out[k].1 < m + 1 by {
                if k > 0 {
                    assert(out[k] == bump_facets(f.drop_first(), tag)[k - 1]);
                }
            }
        }
    }
}

/// Over the first `k` reported pages, the facet list records, for
/// every tag the query did not use, exactly the number of those
/// pages carrying it — and nothing for used tags or tags no page
/// carries.
proof fn lemma_facets_prefix_assoc(
    s: State,
    rids: Seq<u32>,
    matched: Seq<Seq<char>>,
    k: int,
    t: Seq<char>,
)
    requires
        0 <= k <= rids.len(),
        rids.len() < usize::MAX as int,
        forall|i: int| 0 <= i < rids.len() ==> distinct_tags(s.page_tags(#[trigger] rids[i])),
    ensures
        counts_below(facets_prefix(s, rids, matched, k), k + 1),
        count_carrying(s, rids, t, k) <= k,
        facet_of(facets_prefix(s, rids, matched, k), t) == (if !matched.contains(t)
            && count_carrying(s, rids, t, k) > 0 {
            Option::Some(count_carrying(s, rids, t, k) as usize)
        } else {
            Option::None
        }),
    decreases k,
{
    if k > 0 {
        lemma_facets_prefix_assoc(s, rids, matched, k - 1, t);
        let f = facets_prefix(s, rids, matched, k - 1);
        let ptags = s.page_tags(rids[k - 1]);
        assert(ptags.take(ptags.len() as int) =~= ptags);
        lemma_page_facets_assoc(f, ptags, matched, ptags.len() as int, t, k);
    }
}

/// The law of the narrowing facets: for a result list of pages that
/// carry no duplicate tags, the facet list maps each tag the query
/// did not use to exactly the number of reported pages carrying it;
/// a used tag, or one no reported page carries, has no entry.
pub proof fn lemma_facets_count_pages(
    s: State,
    rids: Seq<u32>,
    matched: Seq<Seq<char>>,
    t: Seq<char>,
)
    requires
        rids.len() < usize::MAX as int,
        forall|i: int| 0 <= i < rids.len() ==> distinct_tags(s.page_tags(#[trigger] rids[i])),
    ensures
        facet_of(narrowing_facets(s, rids, matched), t) == (if !matched.contains(t)
            && count_carrying(s, rids, t, rids.len() as int) > 0 {
            Option::Some(count_carrying(s, rids, t, rids.len() as int) as usize)
        } else {
            Option::None
        }),
{
    lemma_facets_prefix_assoc(s, rids, matched, rids.len() as int, t);
}

/// The view of an association list of facet counts.
pub open spec fn facets_view(v: Seq<(String, usize)>) -> Seq<(Seq<char>, usize)> {
    v.map_values(|p: (String, usize)| (p.0@, p.1))
}

/// An intersection keeps exactly the shared elements, and keeps the
/// first list's ascending order.
pub proof fn lemma_inter_props(a: Seq<u32>, b: Seq<u32>)
    ensures
        forall|x: u32| #[trigger] inter_ids(a, b).contains(x) <==> (a.contains(x) && b.contains(x)),
        sorted_strict(a) ==> sorted_strict(inter_ids(a, b)),
    decreases a.len(),
{
    reveal(Seq::filter);
    let pred = |x: u32| b.contains(x);
    let out = inter_ids(a, b);
    if a.len() == 0 {
        assert(forall|x: u32| !a.contains(x));
        assert(forall|x: u32| !out.contains(x));
    } else {
        let d = a.drop_last();
        let sub = inter_ids(d, b);
        lemma_inter_props(d, b);
        assert forall|x: u32| #[trigger] out.contains(x) implies (a.contains(x) && b.contains(
            x,
        )) by {
            let w = choose|w: int| 0 <= w < out.len() && out[w] == x;
            if pred(a.last()) && w == out.len() - 1 {
                assert(x == a.last());
                assert(a.contains(a.last())) by {
                    assert(a[a.len() - 1] == a.last());
                }
            } else {
                assert(sub[w] == x);
                assert(sub.contains(x));
                let v = choose|v: int| 0 <= v < d.len() && d[v] == x;
                assert(a[v] == x);
            }
        }
        assert forall|x: u32| a.contains(x) && b.contains(x) implies #[trigger] out.contains(
            x,
        ) by {
            let w = choose|w: int| 0 <= w < a.len() && a[w] == x;
            if w == a.len() - 1 {
                assert(pred(a.last()));
                assert(out.last() == x);
            } else {
                assert(d[w] == x);
                assert(d.contains(x));
                assert(sub.contains(x));
                let v = choose|v: int| 0 <= v < sub.len() && sub[v] == x;
                assert(out[v] == x);
            }
        }
        if sorted_strict(a) {
            assert(sorted_strict(d));
            assert(sorted_strict(sub));
            if pred(a.last()) {
                assert forall|i: int, j: int| 0 <= i < j < out.len() implies out[i] < out[j] by {
                    if j == out.len() - 1 {
                        assert(out[i] == sub[i]);
                        assert(sub.contains(sub[i]));
                        assert(d.contains(sub[i]));
                        let v = choose|v: int| 0 <= v < d.len() && d[v] == sub[i];
                        assert(a[v] < a[a.len() - 1]);
                    } else {
                        assert(out[i] == sub[i] && out[j] == sub[j]);
                    }
                }
            }
        }
    }
}

/// Along the narrowing walk the candidate set, once defined, is a
/// non-empty ascending list of live ids.
pub proof fn lemma_narrow_props(s: State, tags: Seq<Seq<char>>, k: int)
    requires
        s.wf(),
    ensures
        narrow_prefix(s, tags, k).2 matches Some(c) ==> c.len() > 0 && sorted_strict(c) && (forall|
            x: u32,
        |
            c.contains(x) ==> s.has_id(x)),
    decreases k,
{
    if k > 0 {
        lemma_narrow_props(s, tags, k - 1);
        let acc = narrow_prefix(s, tags, k - 1);
        let t = tags[k - 1];
        if s.tag_known(t) {
            let base = match acc.2 {
                Option::Some(c) => c,
                Option::None => s.ids(),
            };
            lemma_inter_props(base, s.bucket_ids(t));
            assert forall|x: u32| inter_ids(base, s.bucket_ids(t)).contains(x) implies s.has_id(
                x,
            ) by {
                assert(base.contains(x));
            }
        }
    }
}

/// When no entry carries `t`, bumping appends a fresh entry.
proof fn lemma_bump_absent(f: Seq<(Seq<char>, usize)>, t: Seq<char>)
    requires
        forall|k: int| 0 <= k < f.len() ==> f[k].0 != t,
    ensures
        bump_facets(f, t) == f.push((t, 1usize)),
    decreases f.len(),
{
    if f.len() == 0 {
        assert(bump_facets(f, t) =~= f.push((t, 1usize)));
    } else {
        assert(f[0].0 != t);
        lemma_bump_absent(f.drop_first(), t);
        assert(bump_facets(f, t) =~= f.push((t, 1usize)));
    }
}

/// When the first entry for `t` stands at index `i`, bumping updates
/// that entry in place.
proof fn lemma_bump_at(f: Seq<(Seq<char>, usize)>, i: int, t: Seq<char>)
    requires
        0 <= i < f.len(),
        f[i].0 == t,
        forall|k: int| 0 <= k < i ==> f[k].0 != t,
    ensures
        bump_facets(f, t) == f.update(
            i,
            (t, if f[i].1 < usize::MAX { (f[i].1 + 1) as usize } else { f[i].1 }),
        ),
    decreases i,
{
    if i == 0 {
        assert(bump_facets(f, t) =~= f.update(
            0,
            (t, if f[0].1 < usize::MAX { (f[0].1 + 1) as usize } else { f[0].1 }),
        ));
    } else {
        assert(f[0].0 != t);
        let d = f.drop_first();
        lemma_bump_at(d, i - 1, t);
        assert(bump_facets(f, t) =~= f.update(
            i,
            (t, if f[i].1 < usize::MAX { (f[i].1 + 1) as usize } else { f[i].1 }),
        ));
    }
}

/// `v@.contains(x)`, decided by a scan.
fn contains_id(v: &Vec<u32>, x: u32) -> (b: bool)
    ensures
        b == v@.contains(x),
{
    let n = v.len();
    let mut i: usize = 0;
    while i < n
        invariant
            n == v@.len(),
            i <= n,
            forall|k: int| 0 <= k < i ==> v@[k] != x,
        decreases n - i,
    {
        if v[i] == x {
            return true;
        }
        i += 1;
    }
    false
}

/// A plain copy of a list of ids.
fn copy_ids(v: &Vec<u32>) -> (r: Vec<u32>)
    ensures
        r@ == v@,
{
    let n = v.len();
    let mut r: Vec<u32> = Vec::new();
    let mut i: usize = 0;
    while i < n
        invariant
            n == v@.len(),
            i <= n,
            r@ == v@.take(i as int),
        decreases n - i,
    {
        r.push(v[i]);
        proof {
            assert(r@ =~= v@.take(i + 1));
        }
        i += 1;
    }
    proof {
        assert(v@.take(n as int) =~= v@);
    }
    r
}

/// Whether some entry of `v` has the same characters as `s`.
fn contains_string(v: &Vec<String>, s: &String) -> (b: bool)
    ensures
        b == v.deep_view().contains(s@),
{
    let n = v.len();
    let mut i: usize = 0;
    while i < n
        invariant
            n == v@.len(),
            i <= n,
            forall|k: int| 0 <= k < i ==> v@[k]@ != s@,
        decreases n - i,
    {
        if v[i] == *s {
            proof {
                assert(v.deep_view()[i as int] == s@);
            }
            return true;
        }
        i += 1;
    }
    proof {
        if v.deep_view().contains(s@) {
            let w = choose|w: int| 0 <= w < v.deep_view().len() && v.deep_view()[w] == s@;
            assert(v@[w]@ == s@);
        }
    }
    false
}

/// Whether every tag of `ptags` occurs in `query`.
fn tags_all_in(ptags: &Vec<String>, query: &Vec<String>) -> (b: bool)
    ensures
        b == tags_subset(ptags.deep_view(), query.deep_view()),
{
    let n = ptags.len();
    let mut j: usize = 0;
    while j < n
        invariant
            n == ptags@.len(),
            j <= n,
            forall|k: int| 0 <= k < j ==> query.deep_view().contains(ptags.deep_view()[k]),
        decreases n - j,
    {
        if !contains_string(query, &ptags[j]) {
            proof {
                assert(ptags.deep_view()[j as int] == ptags@[j as int]@);
            }
            return false;
        }
        proof {
            assert(ptags.deep_view()[j as int] == ptags@[j as int]@);
        }
        j += 1;
    }
    true
}

/// Count one more page carrying `tag` in the facet list: bump its
/// entry, or open a fresh entry at the end.
fn bump(f: &mut Vec<(String, usize)>, tag: &String)
    ensures
        facets_view(final(f)@) == bump_facets(facets_view(old(f)@), tag@),
{
    let n = f.len();
    let mut i: usize = 0;
    while i < n
        invariant
            *f == *old(f),
            n == f@.len(),
            i <= n,
            forall|k: int| 0 <= k < i ==> f@[k].0@ != tag@,
        decreases n - i,
    {
        if f[i].0 == *tag {
            let c = f[i].1;
            let ghost pre = facets_view(f@);
            if c < usize::MAX {
                f[i].1 = c + 1;
            }
            proof {
                assert forall|k: int| 0 <= k < i implies pre[k].0 != tag@ by {
                    assert(pre[k] == (old(f)@[k].0@, old(f)@[k].1));
                }
                assert(pre[i as int] == (tag@, c));
                lemma_bump_at(pre, i as int, tag@);
                assert(facets_view(f@) =~= bump_facets(pre, tag@));
            }
            return ;
        }
        i += 1;
    }
    f.push((tag.clone(), 1));
    proof {
        let pre = facets_view(old(f)@);
        assert forall|k: int| 0 <= k < pre.len() implies pre[k].0 != tag@ by {
            assert(pre[k] == (old(f)@[k].0@, old(f)@[k].1));
        }
        lemma_bump_absent(pre, tag@);
        assert(facets_view(f@) =~= pre.push((tag@, 1usize)));
    }
}

/// Wrap raw ids in their handle type, keeping the order.
fn to_page_ids(rids: &Vec<u32>) -> (v: Vec<PageId>)
    ensures
        page_id_values(v@) == rids@,
{
    let n = rids.len();
    let mut v: Vec<PageId> = Vec::new();
    let mut i: usize = 0;
    while i < n
        invariant
            n == rids@.len(),
            i <= n,
            v@.len() == i,
            forall|j: int| 0 <= j < i ==> v@[j].0 == rids@[j],
        decreases n - i,
    {
        v.push(PageId(rids[i]));
        i += 1;
    }
    proof {
        assert(page_id_values(v@) =~= rids@);
    }
    v
}

/// The view of an optional candidate list.
pub open spec fn cand_view(c: Option<Vec<u32>>) -> Option<Seq<u32>> {
    match c {
        Option::Some(v) => Option::Some(v@),
        Option::None => Option::None,
    }
}

/// The intersection of two id lists, in the first list's order.
fn intersect(a: &Vec<u32>, b: &Vec<u32>) -> (r: Vec<u32>)
    ensures
        r@ == inter_ids(a@, b@),
{
    let n = a.len();
    let mut r: Vec<u32> = Vec::new();
    let mut i: usize = 0;
    while i < n
        invariant
            n == a@.len(),
            i <= n,
            r@ == inter_ids(a@.take(i as int), b@),
        decreases n - i,
    {
        let x = a[i];
        let keep = contains_id(b, x);
        proof {
            assert(a@.take(i + 1).drop_last() =~= a@.take(i as int));
            assert(a@.take(i + 1).last() == x);
            reveal_with_fuel(Seq::filter, 2);
        }
        if keep {
            r.push(x);
        }
        i += 1;
    }
    proof {
        assert(a@.take(n as int) =~= a@);
    }
    r
}


impl State {
    /// The ids of all live pages, in insertion order (which is also
    /// ascending id order).
    pub closed spec fn ids(self) -> Seq<u32> {
        self.docs@.map_values(|d: Doc| d.id)
    }

    /// The id the next insertion will take.
    pub closed spec fn next_id(self) -> u32 {
        self.next_page_id
    }

    pub open spec fn has_id(self, id: u32) -> bool {
        self.ids().contains(id)
    }

    /// The page stored under a live id.
    pub closed spec fn page_at(self, id: u32) -> Page {
        self.docs@[self.ids().index_of(id)].page
    }

    /// The canonical path stored under a live id.
    pub closed spec fn path_at(self, id: u32) -> Seq<char> {
        self.docs@[self.ids().index_of(id)].path@
    }

    /// Whether some page lives at `path`.
    pub closed spec fn has_path(self, path: Seq<char>) -> bool {
        exists|i: int| 0 <= i < self.docs@.len() && self.docs@[i].path@ == path
    }

    /// The id of the page living at `path`.
    pub closed spec fn id_at_path(self, path: Seq<char>) -> u32 {
        self.docs@[choose|i: int| 0 <= i < self.docs@.len() && self.docs@[i].path@ == path].id
    }

    /// Whether `t` has an entry in the tag index (even an empty one).
    pub closed spec fn tag_known(self, t: Seq<char>) -> bool {
        exists|i: int| 0 <= i < self.buckets@.len() && self.buckets@[i].tag@ == t
    }

    /// Index of the bucket for `t`, meaningful only when `tag_known`.
    spec fn bucket_idx(self, t: Seq<char>) -> int {
        choose|i: int| 0 <= i < self.buckets@.len() && self.buckets@[i].tag@ == t
    }

    /// The ids carrying tag `t`, ascending; empty when `t` is unknown.
    pub closed spec fn bucket_ids(self, t: Seq<char>) -> Seq<u32> {
        if self.tag_known(t) {
            self.buckets@[self.bucket_idx(t)].ids@
        } else {
            Seq::empty()
        }
    }

    /// The tags of the page stored under a live id.
    pub open spec fn page_tags(self, id: u32) -> Seq<Seq<char>> {
        self.page_at(id).tags.deep_view()
    }

    /// A live page `id` carries tag `t`.
    pub open spec fn carries(self, id: u32, t: Seq<char>) -> bool {
        self.has_id(id) && self.page_tags(id).contains(t)
    }

    /// The index invariant: a page id stands in a tag's bucket exactly
    /// when that page is live and carries the tag.
    pub closed spec fn inv_index(self) -> bool {
        &&& forall|bi: int, id: u32|
            0 <= bi < self.buckets@.len() && #[trigger] self.buckets@[bi].ids@.contains(id)
                ==> self.carries(id, self.buckets@[bi].tag@)
        &&& forall|id: u32, t: Seq<char>|
            #[trigger] self.carries(id, t) ==> self.tag_known(t) && self.bucket_ids(t).contains(id)
    }

    /// The path invariant: the path-to-id and id-to-path views are
    /// mutual inverses; no two live pages share a path.
    pub closed spec fn inv_paths(self) -> bool {
        forall|i: int, j: int|
            0 <= i < j < self.docs@.len() ==> self.docs@[i].path@ != self.docs@[j].path@
    }

    /// The id list invariant: `all_pages` is exactly the set of keys
    /// of the document map.
    pub closed spec fn inv_all_pages(self) -> bool {
        self.all_pages@ == self.ids()
    }

    /// Structural facts: ids ascending and below `next_page_id`,
    /// bucket tags distinct, bucket contents ascending.
    pub closed spec fn inv_structure(self) -> bool {
        &&& sorted_strict(self.ids())
        &&& forall|i: int| 0 <= i < self.docs@.len() ==> (#[trigger] self.docs@[i].id) < self.next_page_id
        &&& forall|i: int, j: int|
            0 <= i < j < self.buckets@.len() ==> self.buckets@[i].tag@ != self.buckets@[j].tag@
        &&& forall|i: int| 0 <= i < self.buckets@.len() ==> sorted_strict(#[trigger] self.buckets@[i].ids@)
    }

    /// Well-formedness: everything `insert` and `remove` preserve.
    pub open spec fn wf(self) -> bool {
        &&& self.inv_index()
        &&& self.inv_paths()
        &&& self.inv_all_pages()
        &&& self.inv_structure()
    }

    /// The bucket tags are pairwise distinct and every bucket's id
    /// list is ascending.
    spec fn buckets_ok(self) -> bool {
        &&& forall|i: int, j: int|
            0 <= i < j < self.buckets@.len() ==> self.buckets@[i].tag@ != self.buckets@[j].tag@
        &&& forall|i: int| 0 <= i < self.buckets@.len() ==> sorted_strict(#[trigger] self.buckets@[i].ids@)
    }

    /// Every id stored in any bucket is at most `id`.
    spec fn buckets_below(self, id: u32) -> bool {
        forall|i: int, k: int|
            0 <= i < self.buckets@.len() && 0 <= k < self.buckets@[i].ids@.len()
                ==> #[trigger] self.buckets@[i].ids@[k] <= id
    }

    /// With distinct bucket tags, the bucket at index `i` is the one
    /// `bucket_ids` speaks of for its tag.
    proof fn lemma_bucket_at(self, i: int)
        requires
            forall|p: int, q: int|
                0 <= p < q < self.buckets@.len() ==> self.buckets@[p].tag@ != self.buckets@[q].tag@,
            0 <= i < self.buckets@.len(),
        ensures
            self.tag_known(self.buckets@[i].tag@),
            self.bucket_idx(self.buckets@[i].tag@) == i,
            self.bucket_ids(self.buckets@[i].tag@) == self.buckets@[i].ids@,
    {
        let t = self.buckets@[i].tag@;
        assert(self.tag_known(t));
        let j = self.bucket_idx(t);
        assert(0 <= j < self.buckets@.len() && self.buckets@[j].tag@ == t);
        if i < j {
            assert(self.buckets@[i].tag@ != self.buckets@[j].tag@);
            assert(false);
        } else if j < i {
            assert(self.buckets@[j].tag@ != self.buckets@[i].tag@);
            assert(false);
        }
    }

    /// With ascending ids, the doc at index `i` is the one `page_at`
    /// and `path_at` speak of for its id.
    proof fn lemma_doc_at(self, i: int)
        requires
            sorted_strict(self.ids()),
            0 <= i < self.docs@.len(),
        ensures
            self.has_id(self.docs@[i].id),
            self.ids().index_of(self.docs@[i].id) == i,
            self.page_at(self.docs@[i].id) == self.docs@[i].page,
            self.path_at(self.docs@[i].id) == self.docs@[i].path@,
    {
        let id = self.docs@[i].id;
        assert(self.ids()[i] == id);
        assert(self.ids().contains(id));
        let j = self.ids().index_of(id);
        assert(0 <= j < self.ids().len() && self.ids()[j] == id);
        if i < j {
            assert(self.ids()[i] < self.ids()[j]);
            assert(false);
        } else if j < i {
            assert(self.ids()[j] < self.ids()[i]);
            assert(false);
        }
    }

    /// Add `id` to the bucket for `tag`, creating the bucket if the
    /// tag is new; a no-op if the bucket already holds `id`.
    fn add_tag(&mut self, tag: &String, id: u32)
        requires
            old(self).buckets_ok(),
            old(self).buckets_below(id),
        ensures
            final(self).docs == old(self).docs,
            final(self).all_pages == old(self).all_pages,
            final(self).next_page_id == old(self).next_page_id,
            final(self).buckets_ok(),
            final(self).buckets_below(id),
            final(self).tag_known(tag@),
            forall|t: Seq<char>| t != tag@ ==> final(self).bucket_ids(t) == old(self).bucket_ids(t),
            forall|t: Seq<char>| t != tag@ ==> (final(self).tag_known(t) <==> old(self).tag_known(t)),
            final(self).bucket_ids(tag@) == (if old(self).bucket_ids(tag@).contains(id) {
                old(self).bucket_ids(tag@)
            } else {
                old(self).bucket_ids(tag@).push(id)
            }),
    {
        let n = self.buckets.len();
        let mut j: usize = 0;
        while j < n
            invariant
                *self == *old(self),
                old(self).buckets_ok(),
                old(self).buckets_below(id),
                n == self.buckets@.len(),
                j <= n,
                forall|k: int| 0 <= k < j ==> self.buckets@[k].tag@ != tag@,
            decreases n - j,
        {
            if self.buckets[j].tag == *tag {
                proof {
                    self.lemma_bucket_at(j as int);
                }
                let blen = self.buckets[j].ids.len();
                if blen > 0 && self.buckets[j].ids[blen - 1] == id {
                    // the page lists the tag twice; the bucket already
                    // holds the id
                    proof {
                        assert(old(self).bucket_ids(tag@).contains(id));
                        assert(self.buckets_ok());
                        assert(self.buckets_below(id));
                    }
                } else {
                    proof {
                        // under ascending order with a ceiling of `id`,
                        // only the last element could equal `id`
                        if old(self).bucket_ids(tag@).contains(id) {
                            let ghost b = self.buckets@[j as int].ids@;
                            let k = choose|k: int| 0 <= k < b.len() && b[k] == id;
                            if k < b.len() - 1 {
                                assert(b[k] < b[b.len() - 1]);
                                assert(b[b.len() - 1] <= id);
                                assert(false);
                            }
                            assert(false);
                        }
                    }
                    self.buckets[j].ids.push(id);
                    proof {
                        assert forall|t: Seq<char>| t != tag@ implies final(self).bucket_ids(t)
                            == old(self).bucket_ids(t) && (final(self).tag_known(t)
                            <==> old(self).tag_known(t)) by {
                            if old(self).tag_known(t) {
                                let w = old(self).bucket_idx(t);
                                old(self).lemma_bucket_at(w);
                                assert(self.buckets@[w].tag@ == t);
                                self.lemma_bucket_at(w);
                            } else if self.tag_known(t) {
                                let w = self.bucket_idx(t);
                                assert(0 <= w < self.buckets@.len() && self.buckets@[w].tag@ == t);
                                assert(old(self).buckets@[w].tag@ == t);
                                assert(false);
                            }
                        }
                        self.lemma_bucket_at(j as int);
                        let ghost b = old(self).buckets@[j as int].ids@;
                        let ghost c = self.buckets@[j as int].ids@;
                        assert(c == b.push(id));
                        assert(self.buckets_below(id)) by {
                            assert forall|bi: int, kk: int|
                                0 <= bi < self.buckets@.len() && 0 <= kk
                                    < self.buckets@[bi].ids@.len()
                                    implies #[trigger] self.buckets@[bi].ids@[kk] <= id by {
                                if bi == j as int {
                                    if kk < b.len() {
                                        assert(old(self).buckets@[j as int].ids@[kk] <= id);
                                        assert(c[kk] == b[kk]);
                                    } else {
                                        assert(c[kk] == id);
                                    }
                                } else {
                                    assert(self.buckets@[bi] == old(self).buckets@[bi]);
                                    assert(old(self).buckets@[bi].ids@[kk] <= id);
                                }
                            }
                        }
                        assert(self.buckets_ok()) by {
                            assert forall|kk: int| 0 <= kk < b.len() implies b[kk] < id by {
                                if b[kk] == id {
                                    assert(b.contains(id));
                                    assert(old(self).bucket_ids(tag@).contains(id));
                                }
                            }
                            assert(sorted_strict(c));
                            assert forall|bi: int|
                                0 <= bi < self.buckets@.len() implies sorted_strict(
                                #[trigger] self.buckets@[bi].ids@,
                            ) by {
                                if bi != j as int {
                                    assert(self.buckets@[bi] == old(self).buckets@[bi]);
                                    assert(sorted_strict(old(self).buckets@[bi].ids@));
                                }
                            }
                            assert forall|p: int, q: int|
                                0 <= p < q < self.buckets@.len()
                                    implies self.buckets@[p].tag@ != self.buckets@[q].tag@ by {
                                assert(self.buckets@[p].tag@ == old(self).buckets@[p].tag@);
                                assert(self.buckets@[q].tag@ == old(self).buckets@[q].tag@);
                            }
                        }
                    }
                }
                return ;
            }
            j += 1;
        }
        // the tag is new: append a fresh bucket holding only `id`
        let mut ids: Vec<u32> = Vec::new();
        ids.push(id);
        self.buckets.push(Bucket { tag: tag.clone(), ids });
        proof {
            let m = self.buckets@.len() - 1;
            assert(self.buckets@[m].tag@ == tag@);
            assert(self.buckets@[m].ids@ =~= seq![id]);
            assert(self.buckets_below(id)) by {
                assert forall|bi: int, kk: int|
                    0 <= bi < self.buckets@.len() && 0 <= kk < self.buckets@[bi].ids@.len()
                        implies #[trigger] self.buckets@[bi].ids@[kk] <= id by {
                    if bi < m {
                        assert(self.buckets@[bi] == old(self).buckets@[bi]);
                        assert(old(self).buckets@[bi].ids@[kk] <= id);
                    } else {
                        assert(self.buckets@[m].ids@[kk] == id);
                    }
                }
            }
            assert(self.buckets_ok()) by {
                assert forall|bi: int|
                    0 <= bi < self.buckets@.len() implies sorted_strict(
                    #[trigger] self.buckets@[bi].ids@,
                ) by {
                    if bi < m {
                        assert(self.buckets@[bi] == old(self).buckets@[bi]);
                        assert(sorted_strict(old(self).buckets@[bi].ids@));
                    }
                }
                assert forall|p: int, q: int|
                    0 <= p < q < self.buckets@.len() implies self.buckets@[p].tag@
                    != self.buckets@[q].tag@ by {
                    if q < m {
                        assert(self.buckets@[p].tag@ == old(self).buckets@[p].tag@);
                        assert(self.buckets@[q].tag@ == old(self).buckets@[q].tag@);
                    } else {
                        assert(self.buckets@[p].tag@ == old(self).buckets@[p].tag@);
                        assert(self.buckets@[p].tag@ != tag@);
                    }
                }
            }
            assert forall|t: Seq<char>| t != tag@ implies final(self).bucket_ids(t)
                == old(self).bucket_ids(t) && (final(self).tag_known(t) <==> old(self).tag_known(
                t,
            )) by {
                if old(self).tag_known(t) {
                    let w = old(self).bucket_idx(t);
                    old(self).lemma_bucket_at(w);
                    assert(self.buckets@[w].tag@ == t);
                    self.lemma_bucket_at(w);
                } else if self.tag_known(t) {
                    let w = self.bucket_idx(t);
                    assert(0 <= w < self.buckets@.len() && self.buckets@[w].tag@ == t);
                    assert(w != m);
                    assert(old(self).buckets@[w].tag@ == t);
                    assert(false);
                }
            }
            assert(!old(self).tag_known(tag@));
            assert(!old(self).bucket_ids(tag@).contains(id));
            self.lemma_bucket_at(m);
            assert(self.bucket_ids(tag@) =~= old(self).bucket_ids(tag@).push(id));
        }
    }

    /// Two states with the same bucket vector agree on the whole tag
    /// index view.
    proof fn lemma_buckets_frame(self, other: State)
        requires
            self.buckets == other.buckets,
            forall|p: int, q: int|
                0 <= p < q < self.buckets@.len() ==> self.buckets@[p].tag@ != self.buckets@[q].tag@,
        ensures
            forall|t: Seq<char>| self.tag_known(t) <==> other.tag_known(t),
            forall|t: Seq<char>| self.bucket_ids(t) == other.bucket_ids(t),
    {
        assert forall|t: Seq<char>| (self.tag_known(t) <==> other.tag_known(t))
            && self.bucket_ids(t) == other.bucket_ids(t) by {
            if self.tag_known(t) {
                let w = self.bucket_idx(t);
                assert(0 <= w < self.buckets@.len() && self.buckets@[w].tag@ == t);
                self.lemma_bucket_at(w);
                other.lemma_bucket_at(w);
            } else if other.tag_known(t) {
                let w = other.bucket_idx(t);
                assert(0 <= w < other.buckets@.len() && other.buckets@[w].tag@ == t);
                assert(self.tag_known(t));
            }
        }
    }

    /// After appending a fresh doc whose tags were merged into the
    /// buckets, the whole well-formedness invariant holds again.
    proof fn lemma_insert_wf(self, pre: State, id: u32, path: Seq<char>)
        requires
            pre.wf(),
            id == pre.next_page_id,
            id < u32::MAX,
            !pre.has_path(path),
            self.docs@.len() == pre.docs@.len() + 1,
            self.docs@.drop_last() == pre.docs@,
            self.docs@.last().id == id,
            self.docs@.last().path@ == path,
            self.all_pages@ == pre.all_pages@.push(id),
            self.next_page_id == id + 1,
            self.buckets_ok(),
            self.buckets_below(id),
            forall|t: Seq<char>| !pre.bucket_ids(t).contains(id),
            forall|t: Seq<char>|
                self.tag_known(t) <==> (pre.tag_known(t)
                    || self.docs@.last().page.tags.deep_view().contains(t)),
            forall|t: Seq<char>|
                self.bucket_ids(t) == (if self.docs@.last().page.tags.deep_view().contains(t) {
                    pre.bucket_ids(t).push(id)
                } else {
                    pre.bucket_ids(t)
                }),
        ensures
            self.wf(),
            self.ids() == pre.ids().push(id),
            self.page_at(id) == self.docs@.last().page,
            self.path_at(id) == path,
            forall|x: u32|
                x != id && pre.has_id(x) ==> self.has_id(x) && self.page_at(x) == pre.page_at(x)
                    && self.path_at(x) == pre.path_at(x),
            forall|p: Seq<char>| self.has_path(p) <==> (pre.has_path(p) || p == path),
    {
        let deep = self.docs@.last().page.tags.deep_view();
        let m = pre.docs@.len() as int;
        assert(forall|i: int| 0 <= i < m ==> self.docs@[i] == pre.docs@[i]);
        assert(self.ids() =~= pre.ids().push(id));
        assert(forall|i: int| 0 <= i < m ==> pre.ids()[i] == pre.docs@[i].id);
        // ids stay strictly ascending: every old id is below the new one
        assert(sorted_strict(self.ids())) by {
            assert(forall|i: int| 0 <= i < m ==> pre.ids()[i] < id);
        }
        assert(self.inv_structure());
        assert(self.inv_paths()) by {
            assert forall|i: int, j: int|
                0 <= i < j < self.docs@.len() implies self.docs@[i].path@ != self.docs@[j].path@ by {
                if j == m {
                    if self.docs@[i].path@ == path {
                        assert(pre.has_path(path));
                    }
                }
            }
        }
        assert(self.inv_all_pages()) by {
            assert(self.all_pages@ =~= self.ids());
        }
        // lookups: the new doc, and every old doc, resolve as before
        self.lemma_doc_at(m);
        assert forall|x: u32| x != id && pre.has_id(x) implies self.has_id(x) && self.page_at(x)
            == pre.page_at(x) && self.path_at(x) == pre.path_at(x) by {
            let w = pre.ids().index_of(x);
            pre.lemma_doc_at(w);
            self.lemma_doc_at(w);
        }
        assert forall|p: Seq<char>| self.has_path(p) <==> (pre.has_path(p) || p == path) by {
            if self.has_path(p) {
                let v = choose|v: int| 0 <= v < self.docs@.len() && self.docs@[v].path@ == p;
                if v < m {
                    assert(pre.docs@[v].path@ == p);
                }
            }
            if pre.has_path(p) {
                let v = choose|v: int| 0 <= v < pre.docs@.len() && pre.docs@[v].path@ == p;
                assert(self.docs@[v].path@ == p);
            }
            if p == path {
                assert(self.docs@[m].path@ == p);
            }
        }
        assert(self.inv_index()) by {
            assert forall|bi: int, x: u32|
                0 <= bi < self.buckets@.len() && #[trigger] self.buckets@[bi].ids@.contains(x)
                    implies self.carries(x, self.buckets@[bi].tag@) by {
                let t = self.buckets@[bi].tag@;
                self.lemma_bucket_at(bi);
                assert(self.bucket_ids(t).contains(x));
                if x == id {
                    if !deep.contains(t) {
                        assert(pre.bucket_ids(t).contains(id));
                        assert(false);
                    }
                    assert(self.carries(id, t));
                } else {
                    assert(pre.bucket_ids(t).contains(x)) by {
                        if deep.contains(t) {
                            let w = choose|w: int|
                                0 <= w < self.bucket_ids(t).len() && self.bucket_ids(t)[w] == x;
                            assert(pre.bucket_ids(t).push(id)[w] == x);
                            assert(w < pre.bucket_ids(t).len());
                        }
                    }
                    assert(pre.tag_known(t));
                    let w = pre.bucket_idx(t);
                    pre.lemma_bucket_at(w);
                    assert(pre.buckets@[w].ids@.contains(x));
                    assert(pre.carries(x, t));
                    assert(self.carries(x, t));
                }
            }
            assert forall|x: u32, t: Seq<char>| #[trigger]
                self.carries(x, t) implies self.tag_known(t) && self.bucket_ids(t).contains(
                x,
            ) by {
                if x == id {
                    assert(self.page_at(id) == self.docs@.last().page);
                    assert(deep.contains(t));
                    assert(self.bucket_ids(t) == pre.bucket_ids(t).push(id));
                    assert(self.bucket_ids(t).last() == id);
                } else {
                    assert(self.has_id(x));
                    let w = choose|w: int| 0 <= w < self.ids().len() && self.ids()[w] == x;
                    assert(w < m);
                    assert(pre.ids()[w] == x);
                    assert(pre.has_id(x));
                    assert(self.page_at(x) == pre.page_at(x));
                    assert(pre.carries(x, t));
                    assert(pre.bucket_ids(t).contains(x));
                    if deep.contains(t) {
                        let v = choose|v: int|
                            0 <= v < pre.bucket_ids(t).len() && pre.bucket_ids(t)[v] == x;
                        assert(self.bucket_ids(t)[v] == x);
                    }
                    assert(self.bucket_ids(t).contains(x));
                }
            }
        }
        self.lemma_doc_at(m);
    }

    /// The id list of the bucket for `tag`, when the tag is known.
    fn lookup_bucket(&self, tag: &String) -> (r: Option<&Vec<u32>>)
        requires
            self.wf(),
        ensures
            r is Some <==> self.tag_known(tag@),
            r matches Some(v) ==> v@ == self.bucket_ids(tag@),
    {
        let n = self.buckets.len();
        let mut j: usize = 0;
        while j < n
            invariant
                self.wf(),
                n == self.buckets@.len(),
                j <= n,
                forall|k: int| 0 <= k < j ==> self.buckets@[k].tag@ != tag@,
            decreases n - j,
        {
            if self.buckets[j].tag == *tag {
                proof {
                    self.lemma_bucket_at(j as int);
                }
                return Some(&self.buckets[j].ids);
            }
            j += 1;
        }
        proof {
            assert(!self.tag_known(tag@));
        }
        None
    }

    /// The page stored under a live id.
    fn page_ref(&self, id: u32) -> (p: &Page)
        requires
            self.wf(),
            self.has_id(id),
        ensures
            *p == self.page_at(id),
    {
        let ghost w = self.ids().index_of(id);
        proof {
            assert(0 <= w < self.ids().len() && self.ids()[w] == id);
            self.lemma_doc_at(w);
        }
        let n = self.docs.len();
        let mut i: usize = 0;
        while self.docs[i].id != id
            invariant
                self.wf(),
                n == self.docs@.len(),
                0 <= w < self.docs@.len(),
                self.docs@[w].id == id,
                i <= w,
                forall|k: int| 0 <= k < i ==> self.docs@[k].id != id,
            decreases w - i,
        {
            proof {
                assert(i < w);
            }
            i += 1;
        }
        proof {
            assert(i == w) by {
                if i < w {
                    assert(self.ids()[i as int] == id);
                    assert(self.ids()[w] == id);
                    assert(false);
                }
            }
        }
        &self.docs[i].page
    }

    /// The first reported page, in result order, whose whole tag set
    /// lies inside the query.
    fn find_first_exact(&self, rids: &Vec<u32>, query: &Vec<String>) -> (r: Option<u32>)
        requires
            self.wf(),
            forall|k: int| 0 <= k < rids@.len() ==> self.has_id(#[trigger] rids@[k]),
        ensures
            r == first_exact(*self, rids@, query.deep_view()),
    {
        let ghost q = query.deep_view();
        let n = rids.len();
        let mut i: usize = 0;
        proof {
            assert(rids@.skip(0) =~= rids@);
        }
        while i < n
            invariant
                self.wf(),
                q == query.deep_view(),
                n == rids@.len(),
                i <= n,
                forall|k: int| 0 <= k < rids@.len() ==> self.has_id(#[trigger] rids@[k]),
                first_exact(*self, rids@, q) == first_exact(*self, rids@.skip(i as int), q),
            decreases n - i,
        {
            let id = rids[i];
            let page = self.page_ref(id);
            proof {
                assert(rids@.skip(i as int)[0] == id);
                assert(self.page_tags(id) == page.tags.deep_view());
            }
            if tags_all_in(&page.tags, query) {
                return Some(id);
            }
            proof {
                assert(rids@.skip(i as int).drop_first() =~= rids@.skip(i + 1));
            }
            i += 1;
        }
        proof {
            assert(rids@.skip(n as int).len() == 0);
        }
        None
    }

    /// Resolve an ordered tag list to zero, one or many pages.  The
    /// input order encodes descending importance: each tag in turn
    /// narrows the candidate set to its intersection with the tag's
    /// bucket, while unknown tags and tags that would empty the set
    /// are rejected into `unmatched_tags`.  The surviving candidates
    /// are reported in ascending id order, capped at `MAX_RESULTS`,
    /// with facet counts for every tag that could narrow further.
    /// With `prefer_exact`, an ambiguous result resolves to the first
    /// page whose tag set needs no narrowing, when one exists.
    pub fn find_best_match(&self, tags: Vec<String>, prefer_exact: bool) -> (m: Match)
        requires
            self.wf(),
        ensures
            find_best_match_post(*self, tags.deep_view(), prefer_exact, m),
    {
        let ghost q = tags.deep_view();
        let n = tags.len();
        let mut matching_tags: Vec<String> = Vec::new();
        let mut unmatched_tags: Vec<String> = Vec::new();
        let mut cand: Option<Vec<u32>> = None;
        let mut k: usize = 0;
        proof {
            assert(matching_tags.deep_view() =~= narrow_prefix(*self, q, 0).0);
            assert(unmatched_tags.deep_view() =~= narrow_prefix(*self, q, 0).1);
        }
        while k < n
            invariant
                self.wf(),
                q == tags.deep_view(),
                n == tags@.len(),
                k <= n,
                matching_tags.deep_view() == narrow_prefix(*self, q, k as int).0,
                unmatched_tags.deep_view() == narrow_prefix(*self, q, k as int).1,
                cand_view(cand) == narrow_prefix(*self, q, k as int).2,
            decreases n - k,
        {
            let ghost acc = narrow_prefix(*self, q, k as int);
            let t = &tags[k];
            proof {
                assert(q[k as int] == tags@[k as int]@);
                assert(narrow_prefix(*self, q, k + 1) == narrow_step(*self, acc, q[k as int]));
            }
            match self.lookup_bucket(t) {
                None => {
                    push_tag(&mut unmatched_tags, t);
                }
                Some(bucket) => {
                    let inter = match &cand {
                        Some(c) => intersect(c, bucket),
                        None => intersect(&self.all_pages, bucket),
                    };
                    proof {
                        assert(self.all_pages@ == self.ids());
                    }
                    if inter.len() == 0 {
                        push_tag(&mut unmatched_tags, t);
                    } else {
                        push_tag(&mut matching_tags, t);
                        cand = Some(inter);
                    }
                }
            }
            k += 1;
        }
        let ghost nar = narrow(*self, q);
        proof {
            assert(nar == narrow_prefix(*self, q, n as int));
            lemma_narrow_props(*self, q, n as int);
        }
        let mut rids: Vec<u32> = match cand {
            Some(c) => c,
            None => copy_ids(&self.all_pages),
        };
        proof {
            assert(self.all_pages@ == self.ids());
            assert forall|j: int| 0 <= j < rids@.len() implies self.has_id(#[trigger] rids@[j]) by {
                if nar.2 is Some {
                    assert(rids@.contains(rids@[j]));
                } else {
                    assert(self.ids()[j] == rids@[j]);
                    assert(self.ids().contains(rids@[j]));
                }
            }
        }
        if rids.len() > MAX_RESULTS {
            rids.truncate(MAX_RESULTS);
            proof {
                assert(rids@ == cap_results(*self, nar.2));
            }
        }
        proof {
            assert(rids@ == cap_results(*self, nar.2));
            assert forall|j: int| 0 <= j < rids@.len() implies self.has_id(#[trigger] rids@[j]) by {
            }
        }
        let ghost matched = nar.0;
        let mut narrowing_tags: Vec<(String, usize)> = Vec::new();
        let rn = rids.len();
        let mut x: usize = 0;
        proof {
            assert(facets_view(narrowing_tags@) =~= facets_prefix(*self, rids@, matched, 0));
        }
        while x < rn
            invariant
                self.wf(),
                rn == rids@.len(),
                x <= rn,
                forall|j: int| 0 <= j < rids@.len() ==> self.has_id(#[trigger] rids@[j]),
                matched == matching_tags.deep_view(),
                facets_view(narrowing_tags@) == facets_prefix(*self, rids@, matched, x as int),
            decreases rn - x,
        {
            let page = self.page_ref(rids[x]);
            let ghost ptags = page.tags.deep_view();
            proof {
                assert(self.page_tags(rids@[x as int]) == ptags);
            }
            let pn = page.tags.len();
            let ghost f0 = facets_view(narrowing_tags@);
            let mut y: usize = 0;
            while y < pn
                invariant
                    self.wf(),
                    pn == page.tags@.len(),
                    y <= pn,
                    ptags == page.tags.deep_view(),
                    matched == matching_tags.deep_view(),
                    facets_view(narrowing_tags@) == page_facets(f0, ptags, matched, y as int),
                decreases pn - y,
            {
                let tg = &page.tags[y];
                proof {
                    assert(ptags[y as int] == page.tags@[y as int]@);
                    assert(page_facets(f0, ptags, matched, y + 1) == (if matched.contains(
                        ptags[y as int],
                    ) {
                        page_facets(f0, ptags, matched, y as int)
                    } else {
                        bump_facets(page_facets(f0, ptags, matched, y as int), ptags[y as int])
                    }));
                }
                if !contains_string(&matching_tags, tg) {
                    bump(&mut narrowing_tags, tg);
                }
                y += 1;
            }
            proof {
                assert(facets_view(narrowing_tags@) == page_facets(
                    f0,
                    ptags,
                    matched,
                    ptags.len() as int,
                ));
                assert(facets_prefix(*self, rids@, matched, x + 1) == page_facets(
                    facets_prefix(*self, rids@, matched, x as int),
                    self.page_tags(rids@[x as int]),
                    matched,
                    self.page_tags(rids@[x as int]).len() as int,
                ));
            }
            x += 1;
        }
        let rlen = rids.len();
        let type_: MatchType = if rlen == 0 {
            MatchType::NoMatch
        } else if rlen == 1 {
            MatchType::One(PageId(rids[0]))
        } else if prefer_exact {
            match self.find_first_exact(&rids, &tags) {
                Some(idv) => MatchType::One(PageId(idv)),
                None => MatchType::Many(to_page_ids(&rids)),
            }
        } else {
            MatchType::Many(to_page_ids(&rids))
        };
        Match { type_, matching_tags, unmatched_tags, narrowing_tags }
    }

    /// Insert a freshly parsed page under a canonical path that no
    /// live page holds.  The page takes the next identity; the id is
    /// added to the bucket of every tag the page carries; both path
    /// directions are registered.
    pub fn insert(&mut self, page: Page, path: &str) -> (r: PageId)
        requires
            old(self).wf(),
            old(self).next_id() < u32::MAX,
            !old(self).has_path(path@),
        ensures
            final(self).wf(),
            r.0 == old(self).next_id(),
            final(self).next_id() == old(self).next_id() + 1,
            final(self).ids() == old(self).ids().push(r.0),
            final(self).has_id(r.0),
            final(self).page_at(r.0) == page,
            final(self).path_at(r.0) == path@,
            forall|x: u32|
                x != r.0 && old(self).has_id(x) ==> final(self).has_id(x) && final(self).page_at(x)
                    == old(self).page_at(x) && final(self).path_at(x) == old(self).path_at(x),
            forall|t: Seq<char>|
                final(self).bucket_ids(t) == (if page.tags.deep_view().contains(t) {
                    old(self).bucket_ids(t).push(r.0)
                } else {
                    old(self).bucket_ids(t)
                }),
            forall|t: Seq<char>|
                final(self).tag_known(t) <==> (old(self).tag_known(t)
                    || page.tags.deep_view().contains(t)),
            forall|p: Seq<char>|
                final(self).has_path(p) <==> (old(self).has_path(p) || p == path@),
    {
        let id = self.next_page_id;
        self.next_page_id = id + 1;
        self.all_pages.push(id);
        proof {
            // no bucket holds the fresh id yet
            assert forall|t: Seq<char>| !old(self).bucket_ids(t).contains(id) by {
                if old(self).bucket_ids(t).contains(id) {
                    assert(old(self).carries(id, t));
                    let w = old(self).ids().index_of(id);
                    assert(old(self).ids()[w] == id);
                    assert(old(self).docs@[w].id < id);
                }
            }
            assert(self.buckets_below(id)) by {
                assert forall|i: int, k: int|
                    0 <= i < self.buckets@.len() && 0 <= k < self.buckets@[i].ids@.len()
                        implies #[trigger] self.buckets@[i].ids@[k] <= id by {
                    let x = self.buckets@[i].ids@[k];
                    assert(self.buckets@[i].ids@.contains(x));
                    old(self).lemma_bucket_at(i);
                    assert(old(self).carries(x, self.buckets@[i].tag@));
                    let w = old(self).ids().index_of(x);
                    assert(old(self).docs@[w].id < id);
                }
            }
        }
        let ghost deep = page.tags.deep_view();
        let n = page.tags.len();
        let mut k: usize = 0;
        while k < n
            invariant
                k <= n,
                n == page.tags@.len(),
                deep == page.tags.deep_view(),
                forall|t: Seq<char>| !old(self).bucket_ids(t).contains(id),
                self.docs == old(self).docs,
                self.all_pages@ == old(self).all_pages@.push(id),
                self.next_page_id == id + 1,
                self.buckets_ok(),
                self.buckets_below(id),
                forall|t: Seq<char>|
                    self.tag_known(t) <==> (old(self).tag_known(t) || deep.take(k as int).contains(
                        t,
                    )),
                forall|t: Seq<char>|
                    self.bucket_ids(t) == (if deep.take(k as int).contains(t) {
                        old(self).bucket_ids(t).push(id)
                    } else {
                        old(self).bucket_ids(t)
                    }),
            decreases n - k,
        {
            let ghost pre = *self;
            self.add_tag(&page.tags[k], id);
            proof {
                let tk = deep[k as int];
                assert(page.tags@[k as int].deep_view() == tk);
                assert(deep.take(k + 1) =~= deep.take(k as int).push(tk));
                assert forall|t: Seq<char>|
                    self.bucket_ids(t) == (if deep.take(k + 1).contains(t) {
                        old(self).bucket_ids(t).push(id)
                    } else {
                        old(self).bucket_ids(t)
                    }) && (self.tag_known(t) <==> (old(self).tag_known(t) || deep.take(
                    k + 1,
                ).contains(t))) by {
                    if t == tk {
                        if deep.take(k as int).contains(t) {
                            assert(pre.bucket_ids(t) == old(self).bucket_ids(t).push(id));
                            assert(pre.bucket_ids(t)[pre.bucket_ids(t).len() - 1] == id);
                            assert(pre.bucket_ids(t).contains(id));
                        } else {
                            assert(pre.bucket_ids(t) == old(self).bucket_ids(t));
                            assert(!pre.bucket_ids(t).contains(id));
                        }
                        assert(deep.take(k + 1).contains(t)) by {
                            assert(deep.take(k + 1)[k as int] == tk);
                        }
                    } else {
                        assert(self.bucket_ids(t) == pre.bucket_ids(t));
                        assert(deep.take(k + 1).contains(t) == deep.take(k as int).contains(t)) by {
                            if deep.take(k + 1).contains(t) {
                                let w = choose|w: int|
                                    0 <= w < deep.take(k + 1).len() && #[trigger] deep.take(
                                        k + 1,
                                    )[w] == t;
                                assert(deep.take(k as int)[w] == t);
                            } else if deep.take(k as int).contains(t) {
                                let w = choose|w: int|
                                    0 <= w < deep.take(k as int).len() && #[trigger] deep.take(
                                        k as int,
                                    )[w] == t;
                                assert(deep.take(k + 1)[w] == t);
                            }
                        }
                    }
                }
            }
            k += 1;
        }
        proof {
            assert(deep.take(n as int) =~= deep);
        }
        let ghost prepush = *self;
        let doc = Doc { id, page, path: String::from_str(path) };
        self.docs.push(doc);
        proof {
            assert(self.docs@.drop_last() =~= old(self).docs@);
            self.lemma_buckets_frame(prepush);
            self.lemma_insert_wf(*old(self), id, path@);
            assert(self.ids()[self.ids().len() - 1] == id);
            assert(self.has_id(id));
        }
        PageId(id)
    }

    /// Take `id` out of the bucket for `tag`, if both exist.  The
    /// bucket itself stays behind even when it becomes empty.
    fn remove_tag(&mut self, tag: &String, id: u32)
        requires
            old(self).buckets_ok(),
        ensures
            final(self).docs == old(self).docs,
            final(self).all_pages == old(self).all_pages,
            final(self).next_page_id == old(self).next_page_id,
            final(self).buckets_ok(),
            forall|t: Seq<char>| final(self).tag_known(t) <==> old(self).tag_known(t),
            forall|t: Seq<char>| t != tag@ ==> final(self).bucket_ids(t) == old(self).bucket_ids(t),
            forall|x: u32|
                final(self).bucket_ids(tag@).contains(x) <==> (old(self).bucket_ids(
                    tag@,
                ).contains(x) && x != id),
    {
        let n = self.buckets.len();
        let mut j: usize = 0;
        while j < n
            invariant
                *self == *old(self),
                old(self).buckets_ok(),
                n == self.buckets@.len(),
                j <= n,
                forall|k: int| 0 <= k < j ==> self.buckets@[k].tag@ != tag@,
            decreases n - j,
        {
            if self.buckets[j].tag == *tag {
                proof {
                    self.lemma_bucket_at(j as int);
                }
                let m = self.buckets[j].ids.len();
                let mut p: usize = 0;
                while p < m
                    invariant
                        *self == *old(self),
                        old(self).buckets_ok(),
                        0 <= j < self.buckets@.len(),
                        self.buckets@[j as int].tag@ == tag@,
                        m == self.buckets@[j as int].ids@.len(),
                        p <= m,
                        forall|k: int| 0 <= k < p ==> self.buckets@[j as int].ids@[k] != id,
                    decreases m - p,
                {
                    if self.buckets[j].ids[p] == id {
                        let ghost b = self.buckets@[j as int].ids@;
                        self.buckets[j].ids.remove(p);
                        proof {
                            let c = self.buckets@[j as int].ids@;
                            assert(c == b.remove(p as int));
                            // removing one entry of an ascending list
                            // keeps it ascending and drops exactly `id`
                            assert(sorted_strict(c)) by {
                                assert forall|x: int, y: int| 0 <= x < y < c.len() implies c[x]
                                    < c[y] by {
                                    assert(c[x] == if x < p { b[x] } else { b[x + 1] });
                                    assert(c[y] == if y < p { b[y] } else { b[y + 1] });
                                }
                            }
                            assert forall|x: u32| c.contains(x) <==> (b.contains(x) && x != id) by {
                                if c.contains(x) {
                                    let w = choose|w: int| 0 <= w < c.len() && c[w] == x;
                                    assert(c[w] == if w < p { b[w] } else { b[w + 1] });
                                    if w < p {
                                        assert(b[w] == x && b[w] < b[p as int]);
                                    } else {
                                        assert(b[w + 1] == x && b[p as int] < b[w + 1]);
                                    }
                                    assert(b.contains(x));
                                }
                                if b.contains(x) && x != id {
                                    let w = choose|w: int| 0 <= w < b.len() && b[w] == x;
                                    if w < p {
                                        assert(c[w] == x);
                                    } else if w > p {
                                        assert(c[w - 1] == x);
                                    }
                                    assert(c.contains(x));
                                }
                            }
                            assert(self.buckets_ok()) by {
                                assert forall|bi: int|
                                    0 <= bi < self.buckets@.len() implies sorted_strict(
                                    #[trigger] self.buckets@[bi].ids@,
                                ) by {
                                    if bi != j as int {
                                        assert(self.buckets@[bi] == old(self).buckets@[bi]);
                                        assert(sorted_strict(old(self).buckets@[bi].ids@));
                                    }
                                }
                                assert forall|px: int, qx: int|
                                    0 <= px < qx < self.buckets@.len()
                                        implies self.buckets@[px].tag@ != self.buckets@[qx].tag@ by {
                                    assert(self.buckets@[px].tag@ == old(self).buckets@[px].tag@);
                                    assert(self.buckets@[qx].tag@ == old(self).buckets@[qx].tag@);
                                }
                            }
                            assert forall|t: Seq<char>| (self.tag_known(t) <==> old(
                                self,
                            ).tag_known(t)) && (t != tag@ ==> self.bucket_ids(t) == old(
                                self,
                            ).bucket_ids(t)) by {
                                if old(self).tag_known(t) {
                                    let w = old(self).bucket_idx(t);
                                    old(self).lemma_bucket_at(w);
                                    assert(self.buckets@[w].tag@ == t);
                                    self.lemma_bucket_at(w);
                                    assert(w == j as int <==> t == tag@);
                                } else if self.tag_known(t) {
                                    let w = self.bucket_idx(t);
                                    assert(0 <= w < self.buckets@.len() && self.buckets@[w].tag@
                                        == t);
                                    assert(old(self).buckets@[w].tag@ == t);
                                    assert(false);
                                }
                            }
                            self.lemma_bucket_at(j as int);
                        }
                        return ;
                    }
                    p += 1;
                }
                // `id` is not in this bucket; nothing changes
                proof {
                    assert forall|x: u32| !(self.buckets@[j as int].ids@.contains(x) && x
                        == id) by {
                        if self.buckets@[j as int].ids@.contains(x) && x == id {
                            let w = choose|w: int|
                                0 <= w < self.buckets@[j as int].ids@.len()
                                    && self.buckets@[j as int].ids@[w] == x;
                            assert(self.buckets@[j as int].ids@[w] != id);
                        }
                    }
                }
                return ;
            }
            j += 1;
        }
        // the tag has no bucket at all; nothing changes
        proof {
            assert(!self.tag_known(tag@));
        }
    }

    /// The two path directions are mutual inverses: following a live
    /// id to its path and back gives the id, and following a mapped
    /// path to its id and back gives the path.
    pub proof fn lemma_path_maps_inverse(self)
        requires
            self.wf(),
        ensures
            forall|id: u32| #[trigger]
                self.has_id(id) ==> self.has_path(self.path_at(id)) && self.id_at_path(
                    self.path_at(id),
                ) == id,
            forall|p: Seq<char>| #[trigger]
                self.has_path(p) ==> self.has_id(self.id_at_path(p)) && self.path_at(
                    self.id_at_path(p),
                ) == p,
    {
        assert forall|id: u32| #[trigger]
            self.has_id(id) implies self.has_path(self.path_at(id)) && self.id_at_path(
            self.path_at(id),
        ) == id by {
            let w = self.ids().index_of(id);
            assert(0 <= w < self.ids().len() && self.ids()[w] == id);
            self.lemma_doc_at(w);
            assert(self.docs@[w].path@ == self.path_at(id));
            assert(self.has_path(self.path_at(id)));
            let v = choose|v: int|
                0 <= v < self.docs@.len() && self.docs@[v].path@ == self.path_at(id);
            assert(v == w) by {
                if v != w {
                    assert(self.docs@[v].path@ != self.docs@[w].path@);
                }
            }
        }
        assert forall|p: Seq<char>| #[trigger]
            self.has_path(p) implies self.has_id(self.id_at_path(p)) && self.path_at(
            self.id_at_path(p),
        ) == p by {
            let v = choose|v: int| 0 <= v < self.docs@.len() && self.docs@[v].path@ == p;
            self.lemma_doc_at(v);
            assert(self.id_at_path(p) == self.docs@[v].id);
        }
    }

    /// The page stored under `id`, for display by a caller.
    pub fn page(&self, id: PageId) -> (r: Option<&Page>)
        requires
            self.wf(),
        ensures
            r is Some <==> self.has_id(id.0),
            r matches Some(p) ==> *p == self.page_at(id.0),
    {
        let n = self.docs.len();
        let mut i: usize = 0;
        while i < n
            invariant
                self.wf(),
                n == self.docs@.len(),
                i <= n,
                forall|k: int| 0 <= k < i ==> self.docs@[k].id != id.0,
            decreases n - i,
        {
            if self.docs[i].id == id.0 {
                proof {
                    self.lemma_doc_at(i as int);
                }
                return Some(&self.docs[i].page);
            }
            i += 1;
        }
        proof {
            if self.has_id(id.0) {
                let w = choose|w: int| 0 <= w < self.ids().len() && self.ids()[w] == id.0;
                assert(self.docs@[w].id == id.0);
            }
        }
        None
    }

    /// The canonical path of the file the page under `id` came from.
    pub fn path_of(&self, id: PageId) -> (r: Option<&String>)
        requires
            self.wf(),
        ensures
            r is Some <==> self.has_id(id.0),
            r matches Some(p) ==> p@ == self.path_at(id.0),
    {
        let n = self.docs.len();
        let mut i: usize = 0;
        while i < n
            invariant
                self.wf(),
                n == self.docs@.len(),
                i <= n,
                forall|k: int| 0 <= k < i ==> self.docs@[k].id != id.0,
            decreases n - i,
        {
            if self.docs[i].id == id.0 {
                proof {
                    self.lemma_doc_at(i as int);
                }
                return Some(&self.docs[i].path);
            }
            i += 1;
        }
        proof {
            if self.has_id(id.0) {
                let w = choose|w: int| 0 <= w < self.ids().len() && self.ids()[w] == id.0;
                assert(self.docs@[w].id == id.0);
            }
        }
        None
    }

    /// The index invariant, readable from outside: a page id stands
    /// in a tag's bucket exactly when that page is live and carries
    /// the tag, and a tag without an index entry has an empty bucket.
    /// This is what lets a caller derive concrete search results —
    /// e.g. that narrowing by two tags reaches exactly the pages
    /// carrying both.
    pub proof fn lemma_index_consistent(self)
        requires
            self.wf(),
        ensures
            forall|id: u32, t: Seq<char>|
                #![trigger self.bucket_ids(t).contains(id)]
                self.bucket_ids(t).contains(id) <==> self.carries(id, t),
            forall|t: Seq<char>| !self.tag_known(t) ==> self.bucket_ids(t) == Seq::<u32>::empty(),
    {
        assert forall|id: u32, t: Seq<char>|
            #![trigger self.bucket_ids(t).contains(id)]
            self.bucket_ids(t).contains(id) <==> self.carries(id, t) by {
            if self.bucket_ids(t).contains(id) {
                assert(self.tag_known(t));
                let w = self.bucket_idx(t);
                self.lemma_bucket_at(w);
                assert(self.buckets@[w].ids@.contains(id));
                assert(self.carries(id, t));
            }
        }
    }

    /// The orderings, readable from outside: the live ids ascend
    /// strictly, and every bucket lists its ids in strictly ascending
    /// order — so neither ever holds a duplicate.
    pub proof fn lemma_index_ordered(self)
        requires
            self.wf(),
        ensures
            sorted_strict(self.ids()),
            forall|t: Seq<char>| sorted_strict(#[trigger] self.bucket_ids(t)),
    {
        assert forall|t: Seq<char>| sorted_strict(#[trigger] self.bucket_ids(t)) by {
            if self.tag_known(t) {
                let w = self.bucket_idx(t);
                self.lemma_bucket_at(w);
                assert(sorted_strict(self.buckets@[w].ids@));
            }
        }
    }

    /// The id of the page living at `path`, if any.
    pub fn id_at(&self, path: &str) -> (r: Option<PageId>)
        requires
            self.wf(),
        ensures
            r is Some <==> self.has_path(path@),
            r matches Some(p) ==> self.has_id(p.0) && self.path_at(p.0) == path@ && p.0
                == self.id_at_path(path@),
    {
        let n = self.docs.len();
        let mut i: usize = 0;
        while i < n
            invariant
                self.wf(),
                n == self.docs@.len(),
                i <= n,
                forall|k: int| 0 <= k < i ==> self.docs@[k].path@ != path@,
            decreases n - i,
        {
            if crate::text::str_eq(self.docs[i].path.as_str(), path) {
                proof {
                    self.lemma_doc_at(i as int);
                    let w = choose|w: int|
                        0 <= w < self.docs@.len() && self.docs@[w].path@ == path@;
                    assert(self.docs@[w].path@ == self.docs@[i as int].path@);
                    assert(w == i as int);
                }
                return Some(PageId(self.docs[i].id));
            }
            i += 1;
        }
        proof {
            assert(!self.has_path(path@));
        }
        None
    }

    /// Replay of a filesystem "create" or "modify" at `path`: the
    /// stale record at that path, if one is indexed, is removed, and
    /// the freshly parsed page is inserted.  Replacement therefore
    /// always assigns a new identity.  Returns `false` (and changes
    /// nothing) only when the id space is exhausted.
    pub fn apply_create(&mut self, page: Page, path: &str) -> (ok: bool)
        requires
            old(self).wf(),
        ensures
            final(self).wf(),
            ok == (old(self).next_id() < u32::MAX),
            !ok ==> *final(self) == *old(self),
            ok ==> final(self).next_id() == old(self).next_id() + 1,
            ok ==> final(self).has_id(old(self).next_id()) && final(self).page_at(
                old(self).next_id(),
            ) == page && final(self).path_at(old(self).next_id()) == path@,
            ok ==> forall|p: Seq<char>|
                final(self).has_path(p) <==> (old(self).has_path(p) || p == path@),
            ok && old(self).has_path(path@) ==> final(self).ids().len() == old(self).ids().len()
                && !final(self).has_id(old(self).id_at_path(path@)),
            ok && !old(self).has_path(path@) ==> final(self).ids().len() == old(self).ids().len()
                + 1,
            ok ==> forall|x: u32|
                x != old(self).next_id() && (!old(self).has_path(path@) || x != old(
                    self,
                ).id_at_path(path@)) ==> keeps_doc(*old(self), *final(self), x),
    {
        if self.next_page_id == u32::MAX {
            return false;
        }
        match self.id_at(path) {
            Some(pid) => {
                proof {
                    assert(pid.0 == old(self).id_at_path(path@));
                    assert(old(self).path_at(pid.0) == path@);
                }
                self.remove(pid);
                proof {
                    assert(!self.has_path(path@));
                    assert(self.ids().len() == old(self).ids().len() - 1) by {
                        let w = old(self).ids().index_of(pid.0);
                        assert(0 <= w < old(self).ids().len() && old(self).ids()[w] == pid.0);
                    }
                }
            }
            None => {}
        }
        self.insert(page, path);
        true
    }

    /// Replay of a filesystem "remove" at `path`: the record indexed
    /// there is removed; with nothing indexed there, nothing changes.
    pub fn apply_remove(&mut self, path: &str)
        requires
            old(self).wf(),
        ensures
            final(self).wf(),
            final(self).next_id() == old(self).next_id(),
            !final(self).has_path(path@),
            !old(self).has_path(path@) ==> *final(self) == *old(self),
            forall|p: Seq<char>|
                final(self).has_path(p) <==> (old(self).has_path(p) && p != path@),
            old(self).has_path(path@) ==> !final(self).has_id(old(self).id_at_path(path@)),
            forall|x: u32|
                (!old(self).has_path(path@) || x != old(self).id_at_path(path@)) ==> keeps_doc(
                    *old(self),
                    *final(self),
                    x,
                ),
    {
        match self.id_at(path) {
            Some(pid) => {
                proof {
                    assert(old(self).path_at(pid.0) == path@);
                }
                self.remove(pid);
            }
            None => {}
        }
    }

    /// Replay of a filesystem rename from `src` to `dst`: whatever is
    /// indexed at either path is removed, and the freshly parsed page
    /// now at `dst` is inserted.  Returns `false` (and changes
    /// nothing) only when the id space is exhausted.
    pub fn apply_rename(&mut self, src: &str, dst: &str, page: Page) -> (ok: bool)
        requires
            old(self).wf(),
        ensures
            final(self).wf(),
            ok == (old(self).next_id() < u32::MAX),
            !ok ==> *final(self) == *old(self),
            ok ==> final(self).next_id() == old(self).next_id() + 1,
            ok ==> final(self).has_id(old(self).next_id()) && final(self).page_at(
                old(self).next_id(),
            ) == page && final(self).path_at(old(self).next_id()) == dst@,
            ok && src@ != dst@ ==> !final(self).has_path(src@),
            ok ==> forall|p: Seq<char>|
                final(self).has_path(p) <==> (p == dst@ || (old(self).has_path(p) && p != src@
                    && p != dst@)),
            ok && old(self).has_path(dst@) ==> !final(self).has_id(old(self).id_at_path(dst@)),
            ok && old(self).has_path(src@) ==> !final(self).has_id(old(self).id_at_path(src@)),
            ok ==> final(self).ids().len() == old(self).ids().len() + 1 - (if old(self).has_path(
                dst@,
            ) {
                1int
            } else {
                0int
            }) - (if old(self).has_path(src@) && src@ != dst@ {
                1int
            } else {
                0int
            }),
            ok ==> forall|x: u32|
                x != old(self).next_id() && (!old(self).has_path(dst@) || x != old(
                    self,
                ).id_at_path(dst@)) && (!old(self).has_path(src@) || x != old(self).id_at_path(
                    src@,
                )) ==> keeps_doc(*old(self), *final(self), x),
    {
        if self.next_page_id == u32::MAX {
            return false;
        }
        let ghost s0 = *self;
        proof {
            s0.lemma_path_maps_inverse();
        }
        match self.id_at(dst) {
            Some(pid) => {
                proof {
                    assert(old(self).path_at(pid.0) == dst@);
                }
                self.remove(pid);
                proof {
                    assert(!self.has_path(dst@));
                }
            }
            None => {}
        }
        let ghost s1 = *self;
        let ghost removed_d: Option<u32> = if s0.has_path(dst@) {
            Some(s0.id_at_path(dst@))
        } else {
            None
        };
        proof {
            s1.lemma_path_maps_inverse();
            // a surviving path still maps to the same record
            if src@ != dst@ && s0.has_path(src@) {
                assert(s1.has_path(src@));
                let y = s1.id_at_path(src@);
                assert(s1.has_id(y) && s1.path_at(y) == src@);
                assert(s0.has_id(y) && s0.path_at(y) == src@);
                assert(s0.id_at_path(src@) == y);
            }
        }
        match self.id_at(src) {
            Some(pid) => {
                proof {
                    assert(s1.path_at(pid.0) == src@);
                    assert(pid.0 == s0.id_at_path(src@));
                }
                self.remove(pid);
            }
            None => {}
        }
        let ghost s2 = *self;
        let ghost removed_s: Option<u32> = if s1.has_path(src@) {
            Some(s1.id_at_path(src@))
        } else {
            None
        };
        let new_id = self.insert(page, dst);
        proof {
            let fresh = s0.next_id();
            assert(new_id.0 == fresh);
            // ids removed along the way stay out: they are old ids,
            // distinct from the fresh one
            assert forall|x: u32| x != fresh implies (self.has_id(x) <==> s2.has_id(x)) by {
                if self.has_id(x) {
                    let w = choose|w: int| 0 <= w < self.ids().len() && self.ids()[w] == x;
                    assert(self.ids()[w] == s2.ids().push(fresh)[w]);
                    if w < s2.ids().len() {
                        assert(s2.ids()[w] == x);
                    }
                }
                if s2.has_id(x) {
                    let w = choose|w: int| 0 <= w < s2.ids().len() && s2.ids()[w] == x;
                    assert(self.ids()[w] == x);
                }
            }
            match removed_d {
                Some(d) => {
                    assert(d < fresh);
                    assert(!s1.has_id(d));
                    assert(!s2.has_id(d)) by {
                        if s1.has_path(src@) {
                            assert(s2.has_id(d) ==> s1.has_id(d));
                        }
                    }
                    assert(!self.has_id(d));
                },
                None => {},
            }
            match removed_s {
                Some(sid) => {
                    assert(sid < fresh);
                    assert(!s2.has_id(sid));
                    assert(!self.has_id(sid));
                    // the record at src was the same one seen from the
                    // start, unless the dst removal already took it
                    if src@ != dst@ && s0.has_path(src@) {
                        assert(sid == s0.id_at_path(src@));
                    }
                },
                None => {},
            }
            // sizes: one or two records out, one in
            assert(self.ids().len() == s2.ids().len() + 1);
            if src@ == dst@ {
                assert(!s1.has_path(src@));
            }
            // every untouched record survives with its page and path
            assert forall|x: u32|
                x != fresh && (!s0.has_path(dst@) || x != s0.id_at_path(dst@)) && (!s0.has_path(
                    src@,
                ) || x != s0.id_at_path(src@)) implies keeps_doc(s0, *self, x) by {
                assert(keeps_doc(s0, s1, x)) by {
                    match removed_d {
                        Some(d) => {
                            assert(x != d);
                        },
                        None => {},
                    }
                }
                assert(keeps_doc(s1, s2, x)) by {
                    match removed_s {
                        Some(sid) => {
                            assert(x != sid) by {
                                if src@ != dst@ && s0.has_path(src@) {
                                    assert(sid == s0.id_at_path(src@));
                                } else {
                                    assert(src@ == dst@ || !s0.has_path(src@));
                                    if s1.has_path(src@) {
                                        if src@ == dst@ {
                                            assert(!s1.has_path(dst@));
                                            assert(false);
                                        } else {
                                            assert(!s0.has_path(src@));
                                            assert(s1.has_path(src@) ==> s0.has_path(src@));
                                            assert(false);
                                        }
                                    }
                                }
                            }
                        },
                        None => {},
                    }
                }
                assert(keeps_doc(s2, *self, x)) by {
                    assert(self.has_id(x) <==> s2.has_id(x));
                }
            }
        }
        true
    }

    /// The strict lookup used for exact-duplicate detection: any
    /// unknown tag or any empty intersection gives `NoMatch` at once;
    /// an empty query matches all pages.
    pub fn lookup_exact(&self, tags: Vec<String>) -> (r: LookupOutcome)
        requires
            self.wf(),
        ensures
            r == lookup_exact_spec(*self, tags.deep_view()),
    {
        let ghost q = tags.deep_view();
        let n = tags.len();
        let mut cand: Option<Vec<u32>> = None;
        let mut k: usize = 0;
        while k < n
            invariant
                self.wf(),
                q == tags.deep_view(),
                n == tags@.len(),
                k <= n,
                exact_prefix(*self, q, k as int) == Option::Some(cand_view(cand)),
            decreases n - k,
        {
            let t = &tags[k];
            proof {
                assert(q[k as int] == tags@[k as int]@);
            }
            match self.lookup_bucket(t) {
                None => {
                    proof {
                        lemma_exact_abort(*self, q, k + 1, n as int);
                    }
                    return LookupOutcome::NoMatch;
                }
                Some(bucket) => {
                    let inter = match &cand {
                        Some(c) => intersect(c, bucket),
                        None => intersect(&self.all_pages, bucket),
                    };
                    proof {
                        assert(self.all_pages@ == self.ids());
                    }
                    if inter.len() == 0 {
                        proof {
                            lemma_exact_abort(*self, q, k + 1, n as int);
                        }
                        return LookupOutcome::NoMatch;
                    }
                    cand = Some(inter);
                }
            }
            k += 1;
        }
        match &cand {
            None => {
                proof {
                    assert(self.all_pages@ == self.ids());
                }
                let m = self.all_pages.len();
                if m == 0 {
                    LookupOutcome::NoMatch
                } else if m == 1 {
                    LookupOutcome::One(PageId(self.all_pages[0]))
                } else {
                    LookupOutcome::Many
                }
            }
            Some(c) => {
                let m = c.len();
                if m == 0 {
                    LookupOutcome::NoMatch
                } else if m == 1 {
                    LookupOutcome::One(PageId(c[0]))
                } else {
                    LookupOutcome::Many
                }
            }
        }
    }

    /// Resolve a query that must name a single page: built on the
    /// narrowing search with exact matches preferred.  `Ambiguous`
    /// when several pages remain, `NotFound` when none does.
    pub fn lookup(&self, tags: Vec<String>) -> (r: Result<PageId, LookupError>)
        requires
            self.wf(),
        ensures
            ({
                let nar = narrow(*self, tags.deep_view());
                let rids = cap_results(*self, nar.2);
                match r {
                    Ok(p) => if rids.len() == 1 {
                        p.0 == rids[0]
                    } else {
                        rids.len() > 1 && first_exact(*self, rids, tags.deep_view())
                            == Option::Some(p.0)
                    },
                    Err(e) => match e {
                        LookupError::NotFound => rids.len() == 0,
                        LookupError::Ambiguous => rids.len() > 1 && first_exact(
                            *self,
                            rids,
                            tags.deep_view(),
                        ) is None,
                    },
                }
            }),
    {
        let m = self.find_best_match(tags, true);
        match m.type_ {
            MatchType::Many(_) => Err(LookupError::Ambiguous),
            MatchType::One(id) => Ok(id),
            MatchType::NoMatch => Err(LookupError::NotFound),
        }
    }

    /// Remove a live page: it leaves the document map, every tag
    /// bucket it was indexed under, the id list and both path
    /// directions, with nothing left behind.  Callers may only remove
    /// ids they previously observed.
    pub fn remove(&mut self, page_id: PageId)
        requires
            old(self).wf(),
            old(self).has_id(page_id.0),
        ensures
            final(self).wf(),
            final(self).next_id() == old(self).next_id(),
            final(self).ids().len() == old(self).ids().len() - 1,
            !final(self).has_id(page_id.0),
            forall|x: u32| x != page_id.0 ==> (final(self).has_id(x) <==> old(self).has_id(x)),
            forall|x: u32|
                x != page_id.0 && old(self).has_id(x) ==> final(self).page_at(x) == old(
                    self,
                ).page_at(x) && final(self).path_at(x) == old(self).path_at(x),
            forall|t: Seq<char>| final(self).tag_known(t) <==> old(self).tag_known(t),
            forall|t: Seq<char>| !final(self).bucket_ids(t).contains(page_id.0),
            forall|t: Seq<char>, x: u32|
                x != page_id.0 ==> (final(self).bucket_ids(t).contains(x) <==> old(
                    self,
                ).bucket_ids(t).contains(x)),
            !final(self).has_path(old(self).path_at(page_id.0)),
            forall|p: Seq<char>|
                p != old(self).path_at(page_id.0) ==> (final(self).has_path(p) <==> old(
                    self,
                ).has_path(p)),
    {
        let id = page_id.0;
        let ghost w = old(self).ids().index_of(id);
        proof {
            assert(0 <= w < old(self).ids().len() && old(self).ids()[w] == id);
            old(self).lemma_doc_at(w);
        }
        let n_docs = self.docs.len();
        let mut i: usize = 0;
        while self.docs[i].id != id
            invariant
                *self == *old(self),
                n_docs == self.docs@.len(),
                0 <= w < self.docs@.len(),
                self.docs@[w].id == id,
                i <= w,
                forall|k: int| 0 <= k < i ==> self.docs@[k].id != id,
            decreases w - i,
        {
            proof {
                assert(i < w);
            }
            i += 1;
        }
        proof {
            assert(i == w) by {
                if i < w {
                    assert(self.docs@[i as int].id == id);
                    assert(old(self).ids()[i as int] == id);
                    assert(old(self).ids()[w] == id);
                    assert(false);
                }
            }
        }
        let doc = self.docs.remove(i);
        self.all_pages.remove(i);
        let ghost mid = *self;
        proof {
            assert(self.ids() =~= old(self).ids().remove(w));
            assert(self.all_pages@ == old(self).all_pages@.remove(w));
            assert(self.inv_all_pages()) by {
                assert(self.all_pages@ =~= self.ids());
            }
            assert(sorted_strict(self.ids())) by {
                assert forall|x: int, y: int|
                    0 <= x < y < self.ids().len() implies self.ids()[x] < self.ids()[y] by {
                    assert(self.ids()[x] == if x < w {
                        old(self).ids()[x]
                    } else {
                        old(self).ids()[x + 1]
                    });
                    assert(self.ids()[y] == if y < w {
                        old(self).ids()[y]
                    } else {
                        old(self).ids()[y + 1]
                    });
                }
            }
            self.lemma_buckets_frame(*old(self));
        }
        let ghost deep = doc.page.tags.deep_view();
        let n = doc.page.tags.len();
        let mut k: usize = 0;
        while k < n
            invariant
                k <= n,
                n == doc.page.tags@.len(),
                deep == doc.page.tags.deep_view(),
                self.docs == mid.docs,
                self.all_pages == mid.all_pages,
                self.next_page_id == mid.next_page_id,
                self.buckets_ok(),
                forall|t: Seq<char>| self.tag_known(t) <==> old(self).tag_known(t),
                forall|t: Seq<char>, x: u32|
                    #![trigger self.bucket_ids(t).contains(x)]
                    self.bucket_ids(t).contains(x) <==> (old(self).bucket_ids(t).contains(x) && !(x
                        == id && deep.take(k as int).contains(t))),
            decreases n - k,
        {
            let ghost pre = *self;
            self.remove_tag(&doc.page.tags[k], id);
            proof {
                let tk = deep[k as int];
                assert(doc.page.tags@[k as int].deep_view() == tk);
                assert(deep.take(k + 1) =~= deep.take(k as int).push(tk));
                assert forall|t: Seq<char>, x: u32|
                    #![trigger self.bucket_ids(t).contains(x)]
                    self.bucket_ids(t).contains(x) <==> (old(self).bucket_ids(t).contains(x) && !(x
                        == id && deep.take(k + 1).contains(t))) by {
                    assert(deep.take(k + 1).contains(t) <==> (deep.take(k as int).contains(t) || t
                        == tk)) by {
                        if deep.take(k + 1).contains(t) {
                            let v = choose|v: int|
                                0 <= v < deep.take(k + 1).len() && #[trigger] deep.take(k + 1)[v]
                                    == t;
                            if v < k {
                                assert(deep.take(k as int)[v] == t);
                            }
                        } else {
                            if deep.take(k as int).contains(t) {
                                let v = choose|v: int|
                                    0 <= v < deep.take(k as int).len() && #[trigger] deep.take(
                                        k as int,
                                    )[v] == t;
                                assert(deep.take(k + 1)[v] == t);
                            }
                            assert(deep.take(k + 1)[k as int] == tk);
                        }
                    }
                    if t == tk {
                        assert(self.bucket_ids(t).contains(x) <==> (pre.bucket_ids(t).contains(x)
                            && x != id));
                    } else {
                        assert(self.bucket_ids(t) == pre.bucket_ids(t));
                    }
                }
            }
            k += 1;
        }
        proof {
            assert(deep.take(n as int) =~= deep);
            self.lemma_remove_wf(*old(self), mid, id, w, deep);
        }
    }

    /// After taking one doc out of the document map and its id out of
    /// every bucket of its tags, the whole invariant holds again.
    proof fn lemma_remove_wf(self, pre: State, mid: State, id: u32, w: int, deep: Seq<Seq<char>>)
        requires
            pre.wf(),
            0 <= w < pre.docs@.len(),
            pre.docs@[w].id == id,
            deep == pre.docs@[w].page.tags.deep_view(),
            self.docs@ == pre.docs@.remove(w),
            self.all_pages@ == pre.all_pages@.remove(w),
            self.next_page_id == pre.next_page_id,
            self.buckets_ok(),
            sorted_strict(self.ids()),
            self.inv_all_pages(),
            self.ids() == pre.ids().remove(w),
            forall|t: Seq<char>| self.tag_known(t) <==> pre.tag_known(t),
            forall|t: Seq<char>, x: u32|
                #![trigger self.bucket_ids(t).contains(x)]
                self.bucket_ids(t).contains(x) <==> (pre.bucket_ids(t).contains(x) && !(x == id
                    && deep.contains(t))),
        ensures
            self.wf(),
            !self.has_id(id),
            forall|x: u32| x != id ==> (self.has_id(x) <==> pre.has_id(x)),
            forall|x: u32|
                x != id && pre.has_id(x) ==> self.page_at(x) == pre.page_at(x) && self.path_at(x)
                    == pre.path_at(x),
            forall|t: Seq<char>| !self.bucket_ids(t).contains(id),
            forall|t: Seq<char>, x: u32|
                x != id ==> (self.bucket_ids(t).contains(x) <==> pre.bucket_ids(t).contains(x)),
            !self.has_path(pre.path_at(id)),
            forall|p: Seq<char>| p != pre.path_at(id) ==> (self.has_path(p) <==> pre.has_path(p)),
    {
        pre.lemma_doc_at(w);
        assert(pre.ids().index_of(id) == w);
        // ids: the one occurrence of `id` is gone, everything else stays
        assert(!self.has_id(id)) by {
            if self.has_id(id) {
                let v = choose|v: int| 0 <= v < self.ids().len() && self.ids()[v] == id;
                assert(self.ids()[v] == if v < w { pre.ids()[v] } else { pre.ids()[v + 1] });
                if v < w {
                    assert(pre.ids()[v] < pre.ids()[w]);
                } else {
                    assert(pre.ids()[w] < pre.ids()[v + 1]);
                }
                assert(false);
            }
        }
        assert forall|x: u32| x != id implies (self.has_id(x) <==> pre.has_id(x)) by {
            if self.has_id(x) {
                let v = choose|v: int| 0 <= v < self.ids().len() && self.ids()[v] == x;
                assert(pre.ids()[if v < w { v } else { v + 1 }] == x);
            } else if pre.has_id(x) {
                let v = choose|v: int| 0 <= v < pre.ids().len() && pre.ids()[v] == x;
                assert(v != w);
                assert(self.ids()[if v < w { v } else { v - 1 }] == x);
            }
        }
        assert forall|x: u32| x != id && pre.has_id(x) implies self.page_at(x) == pre.page_at(x)
            && self.path_at(x) == pre.path_at(x) by {
            let v = pre.ids().index_of(x);
            pre.lemma_doc_at(v);
            assert(v != w);
            let u: int = if v < w {
                v
            } else {
                v - 1
            };
            assert(self.docs@[u] == pre.docs@[v]);
            self.lemma_doc_at(u);
        }
        // paths: only the removed doc held its path
        assert(!self.has_path(pre.path_at(id))) by {
            if self.has_path(pre.path_at(id)) {
                let v = choose|v: int|
                    0 <= v < self.docs@.len() && self.docs@[v].path@ == pre.path_at(id);
                let u: int = if v < w {
                    v
                } else {
                    v + 1
                };
                assert(pre.docs@[u].path@ == pre.docs@[w].path@);
                assert(u != w);
                assert(false);
            }
        }
        assert forall|p: Seq<char>| p != pre.path_at(id) implies (self.has_path(p)
            <==> pre.has_path(p)) by {
            if self.has_path(p) {
                let v = choose|v: int| 0 <= v < self.docs@.len() && self.docs@[v].path@ == p;
                assert(pre.docs@[if v < w { v } else { v + 1 }].path@ == p);
            } else if pre.has_path(p) {
                let v = choose|v: int| 0 <= v < pre.docs@.len() && pre.docs@[v].path@ == p;
                assert(v != w);
                assert(self.docs@[if v < w { v } else { v - 1 }].path@ == p);
            }
        }
        assert(self.inv_paths()) by {
            assert forall|x: int, y: int|
                0 <= x < y < self.docs@.len() implies self.docs@[x].path@ != self.docs@[y].path@ by {
                let px: int = if x < w {
                    x
                } else {
                    x + 1
                };
                let py: int = if y < w {
                    y
                } else {
                    y + 1
                };
                assert(self.docs@[x] == pre.docs@[px]);
                assert(self.docs@[y] == pre.docs@[py]);
            }
        }
        assert(self.inv_structure()) by {
            assert forall|v: int| 0 <= v < self.docs@.len() implies (#[trigger] self.docs@[v].id)
                < self.next_page_id by {
                assert(self.docs@[v] == pre.docs@[if v < w {
                    v
                } else {
                    v + 1
                }]);
            }
        }
        // the no-leak fact: no bucket mentions the removed id
        assert forall|t: Seq<char>| !self.bucket_ids(t).contains(id) by {
            if self.bucket_ids(t).contains(id) {
                assert(pre.bucket_ids(t).contains(id) && !deep.contains(t));
                assert(pre.tag_known(t));
                let b = pre.bucket_idx(t);
                pre.lemma_bucket_at(b);
                assert(pre.buckets@[b].ids@.contains(id));
                assert(pre.carries(id, t));
                assert(false);
            }
        }
        assert(self.inv_index()) by {
            assert forall|bi: int, x: u32|
                0 <= bi < self.buckets@.len() && #[trigger] self.buckets@[bi].ids@.contains(x)
                    implies self.carries(x, self.buckets@[bi].tag@) by {
                let t = self.buckets@[bi].tag@;
                self.lemma_bucket_at(bi);
                assert(self.bucket_ids(t).contains(x));
                assert(pre.bucket_ids(t).contains(x));
                assert(pre.tag_known(t));
                let b = pre.bucket_idx(t);
                pre.lemma_bucket_at(b);
                assert(pre.carries(x, t));
                assert(x != id);
                assert(self.page_at(x) == pre.page_at(x));
            }
            assert forall|x: u32, t: Seq<char>| #[trigger]
                self.carries(x, t) implies self.tag_known(t) && self.bucket_ids(t).contains(
                x,
            ) by {
                assert(x != id);
                assert(pre.has_id(x));
                assert(self.page_at(x) == pre.page_at(x));
                assert(pre.carries(x, t));
                assert(pre.bucket_ids(t).contains(x));
            }
        }
    }

    pub fn new() -> (s: State)
        ensures
            s.wf(),
            s.ids() == Seq::<u32>::empty(),
            s.next_id() == 0,
            forall|t: Seq<char>| !s.tag_known(t),
            forall|p: Seq<char>| !s.has_path(p),
    {
        let s = State { docs: Vec::new(), buckets: Vec::new(), all_pages: Vec::new(), next_page_id: 0 };
        proof {
            assert(s.ids() =~= Seq::<u32>::empty());
        }
        s
    }
}

} // verus!
