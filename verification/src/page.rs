//! The value type for a single stored document: its title, rendered
//! body, raw source text and tag list — with the URL and filename
//! derivations that belong to it.

use vstd::prelude::*;
use vstd::string::{StrSliceExecFns, StringExecFns};

use crate::text::{join_slash_spec, tags_url};

verus! {

/// Whether the character counts as alphanumeric for filename
/// derivation.
pub uninterp spec fn char_alphanumeric(c: char) -> bool;

/// Relies on `char::is_alphanumeric`: a fixed classification of the
/// character alone.
#[verifier::external_body]
pub(crate) fn is_alphanumeric_char(c: char) -> (b: bool)
    ensures
        b == char_alphanumeric(c),
{
    c.is_alphanumeric()
}

/// The lowercase expansion of one character (possibly several
/// characters long).
pub uninterp spec fn char_lower(c: char) -> Seq<char>;

/// Relies on `char::to_lowercase`: the result depends on the
/// character alone.
#[verifier::external_body]
fn lower_char(c: char) -> (r: String)
    ensures
        r@ == char_lower(c),
{
    c.to_lowercase().to_string()
}

/// One step of filename derivation: an alphanumeric character is
/// lowercased and appended; a run of anything else collapses into a
/// single `_`.  The flag records whether the walk stands inside such
/// a run.
pub open spec fn filename_step(acc: (Seq<char>, bool), c: char) -> (Seq<char>, bool) {
    if char_alphanumeric(c) {
        (acc.0 + char_lower(c), false)
    } else if !acc.1 {
        (acc.0.push('_'), true)
    } else {
        acc
    }
}

/// Filename derivation over the first `k` characters of the title.
/// The walk starts inside a break, so leading separators are
/// swallowed.
pub open spec fn filename_prefix(title: Seq<char>, k: int) -> (Seq<char>, bool)
    decreases k,
{
    if k <= 0 {
        (Seq::empty(), true)
    } else {
        filename_step(filename_prefix(title, k - 1), title[k - 1])
    }
}

/// The filesystem-safe base name derived from a title: lowercased
/// alphanumeric runs, with every run of other characters collapsed
/// into one `_`.
pub open spec fn suggested_filename_spec(title: Seq<char>) -> Seq<char> {
    filename_prefix(title, title.len() as int).0
}

/// One document, immutable once parsed.  `tags` is the set of
/// lowercase tags that address the document; the order in which they
/// are stored carries no meaning.
#[derive(Debug, Clone)]
pub struct Page {
    pub title: String,
    pub html: String,
    pub md: String,
    pub tags: Vec<String>,
}

impl Page {
    /// Parse raw Markdown into a page: tags scanned from `#tag`
    /// markers outside code spans, deduplicated and ascending; the
    /// rendered HTML; and the title from the first top-level heading,
    /// falling back first to the opening portion of the text and then
    /// to the tags joined with `/`.
    pub fn from_markdown(markdown: String) -> (p: Page)
        ensures
            ({
                let w = crate::markdown::walk(crate::markdown::md_events(markdown@));
                let t = if w.3.len() == 0 {
                    w.4
                } else {
                    crate::markdown::trim_spec(w.3)
                };
                &&& p.md@ == markdown@
                &&& p.html@ == crate::markdown::html_of(markdown@)
                &&& crate::markdown::lex_sorted_strict(p.tags.deep_view())
                &&& (forall|x: Seq<char>| p.tags.deep_view().contains(x) <==> w.0.contains(x))
                &&& p.title@ == (if t.len() == 0 {
                    join_slash_spec(p.tags.deep_view())
                } else {
                    t
                })
            }),
    {
        let (tags, html, title) = crate::markdown::parse_markdown(markdown.as_str());
        let title = if title.as_str().is_empty() {
            crate::text::join_slash(&tags)
        } else {
            title
        };
        Page { html, md: markdown, title, tags }
    }

    /// The URL addressing this page by all its tags.
    pub fn url(&self) -> (r: String)
        ensures
            r@ == seq!['/'] + join_slash_spec(self.tags.deep_view()),
    {
        let r = tags_url(&self.tags, false);
        proof {
            assert(r@ =~= seq!['/'] + join_slash_spec(self.tags.deep_view()));
        }
        r
    }

    /// The URL addressing this page by all its tags, with a trailing
    /// slash when an exact match is not preferred.
    pub fn to_full_url(&self, prefer_exact: bool) -> (r: String)
        ensures
            r@ == seq!['/'] + join_slash_spec(self.tags.deep_view()) + (if !prefer_exact {
                seq!['/']
            } else {
                Seq::<char>::empty()
            }),
    {
        tags_url(&self.tags, !prefer_exact)
    }

    /// A filesystem-safe base name for this page, derived from its
    /// title.
    pub fn suggested_filename(&self) -> (r: String)
        ensures
            r@ == suggested_filename_spec(self.title@),
    {
        let mut in_break = true;
        let mut filename = String::new();
        let title = self.title.as_str();
        let n = title.unicode_len();
        let mut i: usize = 0;
        while i < n
            invariant
                title@ == self.title@,
                n == title@.len(),
                i <= n,
                (filename@, in_break) == filename_prefix(self.title@, i as int),
            decreases n - i,
        {
            let c = title.get_char(i);
            if is_alphanumeric_char(c) {
                let low = lower_char(c);
                filename.append(low.as_str());
                in_break = false;
            } else {
                if !in_break {
                    in_break = true;
                    filename.append("_");
                    proof {
                        reveal_strlit("_");
                        assert(filename@ =~= filename_prefix(self.title@, i + 1).0);
                    }
                }
            }
            i += 1;
        }
        filename
    }
}

} // verus!
