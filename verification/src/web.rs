//! The decisions behind the request handlers, separated from the
//! transport: what a GET of a tag path shows or redirects to, and
//! whether a create or an update may commit.  An HTTP layer only has
//! to perform the outcome it is handed.

use vstd::prelude::*;

use crate::data::{
    cap_results, first_exact, lookup_exact_spec, narrow, page_id_values, LookupOutcome, MatchType,
    State,
};
use crate::text::{join_slash_spec, url_to_tags, url_to_tags_spec};
use crate::PageId;

verus! {

/// What a GET of a tag path resolves to.
pub enum GetOutcome {
    /// Some query tags were rejected: redirect to the URL of exactly
    /// the tags that were used.
    RedirectToPrecise(String),
    /// A unique match addressed by fewer tags than it carries:
    /// redirect to its full canonical URL.
    RedirectToFull(PageId, String),
    /// A unique, fully addressed match: render it.
    ShowPage(PageId),
    /// Several matches: render the index over them.
    ShowIndex(Vec<PageId>),
    /// Nothing matched.
    NotFound,
}

/// Why an update at a tag path may not commit: the path names
/// nothing, it names several documents, or the new content's exact
/// tag set already belongs to a different document.
#[derive(Debug, PartialEq, Eq, Clone, Copy)]
pub enum PutError {
    NotFound,
    Ambiguous,
    Conflict,
}

/// The id a search settles on when it is to show a single page: the
/// only candidate, or under `prefer_exact` the first exact-subset
/// match among several.
pub open spec fn single_result(
    s: State,
    rids: Seq<u32>,
    query: Seq<Seq<char>>,
    prefer_exact: bool,
) -> Option<u32> {
    if rids.len() == 1 {
        Option::Some(rids[0])
    } else if rids.len() > 1 && prefer_exact {
        first_exact(s, rids, query)
    } else {
        Option::None
    }
}

impl State {
    /// Decide a GET of `url`: split it into tags, search, and either
    /// redirect (imprecise or under-specified queries), show the one
    /// page, show an index, or report nothing.
    pub fn route_get(&self, url: &str) -> (r: GetOutcome)
        requires
            self.wf(),
        ensures
            ({
                let q = url_to_tags_spec(url@);
                let nar = narrow(*self, q.0);
                let rids = cap_results(*self, nar.2);
                let one = single_result(*self, rids, q.0, q.1);
                match r {
                    GetOutcome::RedirectToPrecise(u) => nar.1.len() != 0 && u@ == seq!['/']
                        + join_slash_spec(nar.0) + (if !q.1 {
                        seq!['/']
                    } else {
                        Seq::<char>::empty()
                    }),
                    GetOutcome::RedirectToFull(p, u) => nar.1.len() == 0 && one == Option::Some(
                        p.0,
                    ) && nar.0.len() < self.page_at(p.0).tags@.len() && u@ == seq!['/']
                        + join_slash_spec(self.page_at(p.0).tags.deep_view()) + (if !q.1 {
                        seq!['/']
                    } else {
                        Seq::<char>::empty()
                    }),
                    GetOutcome::ShowPage(p) => nar.1.len() == 0 && one == Option::Some(p.0)
                        && nar.0.len() >= self.page_at(p.0).tags@.len(),
                    GetOutcome::ShowIndex(v) => nar.1.len() == 0 && rids.len() > 1 && one
                        is None && page_id_values(v@) == rids,
                    GetOutcome::NotFound => nar.1.len() == 0 && rids.len() == 0,
                }
            }),
    {
        let (tags, prefer_exact) = url_to_tags(url);
        proof {
            let q0 = url_to_tags_spec(url@).0;
            crate::data::lemma_results_live(*self, q0);
            crate::data::lemma_first_exact_contains(
                *self,
                cap_results(*self, narrow(*self, q0).2),
                q0,
            );
        }
        let m = self.find_best_match(tags, prefer_exact);
        if m.has_unmatched_tags() {
            let u = m.to_precise_url(prefer_exact);
            return GetOutcome::RedirectToPrecise(u);
        }
        match m.type_ {
            MatchType::One(id) => {
                let page = match self.page(id) {
                    Some(p) => p,
                    None => {
                        // a reported id is always live
                        proof {
                            let q0 = url_to_tags_spec(url@).0;
                            let rids = cap_results(*self, narrow(*self, q0).2);
                            if rids.len() == 1 {
                                assert(id.0 == rids[0]);
                                assert(rids.contains(rids[0]));
                            } else {
                                assert(first_exact(*self, rids, q0) == Option::Some(id.0));
                            }
                            assert(rids.contains(id.0));
                            assert(self.has_id(id.0));
                            assert(false);
                        }
                        return GetOutcome::NotFound;
                    },
                };
                if m.matching_tags.len() < page.tags.len() {
                    let u = page.to_full_url(prefer_exact);
                    GetOutcome::RedirectToFull(id, u)
                } else {
                    GetOutcome::ShowPage(id)
                }
            },
            MatchType::Many(ids) => GetOutcome::ShowIndex(ids),
            MatchType::NoMatch => GetOutcome::NotFound,
        }
    }

    /// Decide whether the single document addressed by `url_tags`
    /// may be replaced by content carrying `new_tags`: the target
    /// must resolve uniquely, and no other stored document may
    /// already answer to the new exact tag set.
    pub fn check_replace(&self, url_tags: Vec<String>, new_tags: Vec<String>) -> (r: Result<
        PageId,
        PutError,
    >)
        requires
            self.wf(),
        ensures
            ({
                let q = url_tags.deep_view();
                let nar = narrow(*self, q);
                let rids = cap_results(*self, nar.2);
                let target = single_result(*self, rids, q, true);
                let dup = lookup_exact_spec(*self, new_tags.deep_view());
                match r {
                    Ok(p) => target == Option::Some(p.0) && (dup is NoMatch || dup
                        == LookupOutcome::One(p)),
                    Err(e) => match e {
                        PutError::NotFound => rids.len() == 0,
                        PutError::Ambiguous => rids.len() > 1 && first_exact(*self, rids, q)
                            is None,
                        PutError::Conflict => match target {
                            Option::Some(t) => dup is Many || (dup matches LookupOutcome::One(p)
                                && p.0 != t),
                            Option::None => false,
                        },
                    },
                }
            }),
    {
        let target = match self.lookup(url_tags) {
            Ok(id) => id,
            Err(crate::data::LookupError::NotFound) => {
                return Err(PutError::NotFound);
            },
            Err(crate::data::LookupError::Ambiguous) => {
                return Err(PutError::Ambiguous);
            },
        };
        match self.lookup_exact(new_tags) {
            LookupOutcome::Many => Err(PutError::Conflict),
            LookupOutcome::One(id) => {
                if id.0 != target.0 {
                    Err(PutError::Conflict)
                } else {
                    Ok(target)
                }
            },
            LookupOutcome::NoMatch => Ok(target),
        }
    }

    /// Whether a brand-new document with exactly these tags may be
    /// created: only when no stored document already answers to that
    /// exact tag set.
    pub fn check_new_page(&self, tags: Vec<String>) -> (ok: bool)
        requires
            self.wf(),
        ensures
            ok == (lookup_exact_spec(*self, tags.deep_view()) is NoMatch),
    {
        matches!(self.lookup_exact(tags), LookupOutcome::NoMatch)
    }
}

} // verus!
