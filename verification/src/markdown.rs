//! Parsing a document's raw Markdown: extracting its `#tag` markers
//! (outside code spans), rendering the body to HTML, and deriving a
//! title from the first top-level heading with a fallback to the
//! first portion of the text.
//!
//! The Markdown grammar itself is the parser crate's business; this
//! module works on the event stream it yields and on plain text.

use pulldown_cmark::{Event, Parser, Tag, TagEnd};
use vstd::prelude::*;
use vstd::string::{StrSliceExecFns, StringExecFns};

use crate::page::{char_alphanumeric, is_alphanumeric_char};
use crate::text::push_tag;

verus! {

/// One event of the Markdown parse, reduced to what tag and title
/// extraction need: text nodes, code-block boundaries, and heading
/// boundaries with their level.  Inline code arrives as its own
/// event kind in the parser and is dropped here, so its text never
/// reaches the tag scan.
pub enum MdEvent {
    Text(String),
    CodeStart,
    CodeEnd,
    HeaderStart(u32),
    HeaderEnd(u32),
    Other,
}

/// The event stream the Markdown parser yields for a text.
pub uninterp spec fn md_events(s: Seq<char>) -> Seq<MdEvent>;

/// Relies on `pulldown_cmark::Parser`: the event stream depends on
/// the text alone.  Code blocks and headings keep their boundaries;
/// every other structural event carries nothing this module reads.
#[verifier::external_body]
fn parse_events(md: &str) -> (r: Vec<MdEvent>)
    ensures
        r@ == md_events(md@),
{
    Parser::new(md)
        .map(|e| match e {
            Event::Text(t) => MdEvent::Text(t.into_string()),
            Event::Start(Tag::CodeBlock(_)) => MdEvent::CodeStart,
            Event::End(TagEnd::CodeBlock) => MdEvent::CodeEnd,
            Event::Start(Tag::Heading { level, .. }) => MdEvent::HeaderStart(level as u32),
            Event::End(TagEnd::Heading(level)) => MdEvent::HeaderEnd(level as u32),
            _ => MdEvent::Other,
        })
        .collect()
}

/// The rendered HTML for a text.
pub uninterp spec fn html_of(s: Seq<char>) -> Seq<char>;

/// Relies on `pulldown_cmark::html::push_html`: the rendering
/// depends on the text alone.
#[verifier::external_body]
fn render_html(md: &str) -> (r: String)
    ensures
        r@ == html_of(md@),
{
    let mut buf = String::new();
    pulldown_cmark::html::push_html(&mut buf, pulldown_cmark::Parser::new(md));
    buf
}

/// The lowercase form of a string.
pub uninterp spec fn lower_of(s: Seq<char>) -> Seq<char>;

/// Relies on `str::to_lowercase`: the result depends on the
/// characters alone.
#[verifier::external_body]
fn lowercase(s: &str) -> (r: String)
    ensures
        r@ == lower_of(s@),
{
    s.to_lowercase()
}

/// Whether the character is whitespace in Unicode's sense.
pub uninterp spec fn char_whitespace(c: char) -> bool;

/// Relies on `char::is_whitespace`: a fixed classification of the
/// character alone.
#[verifier::external_body]
fn is_whitespace_char(c: char) -> (b: bool)
    ensures
        b == char_whitespace(c),
{
    c.is_whitespace()
}

/// A character that may stand inside a tag: alphanumeric or `_`.
pub open spec fn word_char(c: char) -> bool {
    char_alphanumeric(c) || c == '_'
}

/// Close the tag run being collected, if it is non-empty: the tag is
/// its lowercase form.
pub open spec fn scan_close(tags: Seq<Seq<char>>, run: Seq<char>) -> Seq<Seq<char>> {
    if run.len() > 0 {
        tags.push(lower_of(run))
    } else {
        tags
    }
}

/// One character of the `#tag` scan.  `Some(run)` means a `#` was
/// seen and `run` collected since; a word character extends the run,
/// `#` closes it and opens a new one, anything else closes it.
pub open spec fn scan_step(acc: (Seq<Seq<char>>, Option<Seq<char>>), c: char) -> (
    Seq<Seq<char>>,
    Option<Seq<char>>,
) {
    match acc.1 {
        Option::Some(run) => {
            if word_char(c) {
                (acc.0, Option::Some(run.push(c)))
            } else if c == '#' {
                (scan_close(acc.0, run), Option::Some(Seq::empty()))
            } else {
                (scan_close(acc.0, run), Option::None)
            }
        },
        Option::None => {
            if c == '#' {
                (acc.0, Option::Some(Seq::empty()))
            } else {
                (acc.0, Option::None)
            }
        },
    }
}

/// The scan state after the first `k` characters of a text chunk.
pub open spec fn scan_prefix(s: Seq<char>, tags0: Seq<Seq<char>>, k: int) -> (
    Seq<Seq<char>>,
    Option<Seq<char>>,
)
    decreases k,
{
    if k <= 0 {
        (tags0, Option::None)
    } else {
        scan_step(scan_prefix(s, tags0, k - 1), s[k - 1])
    }
}

/// All tags of one text chunk, appended in order of appearance to
/// those already found.
pub open spec fn scan_text(tags0: Seq<Seq<char>>, s: Seq<char>) -> Seq<Seq<char>> {
    let acc = scan_prefix(s, tags0, s.len() as int);
    match acc.1 {
        Option::Some(run) => scan_close(acc.0, run),
        Option::None => acc.0,
    }
}

/// Scan one text chunk for `#tag` markers, appending each tag found,
/// lowercased, to `tags`.
fn scan_hashtags(tags: &mut Vec<String>, text: &str)
    ensures
        final(tags).deep_view() == scan_text(old(tags).deep_view(), text@),
{
    let ghost t0 = old(tags).deep_view();
    let n = text.unicode_len();
    let mut i: usize = 0;
    let mut run_start: usize = 0;
    let mut in_run = false;
    while i < n
        invariant
            n == text@.len(),
            i <= n,
            in_run ==> run_start <= i,
            (tags.deep_view(), if in_run {
                Option::Some(text@.subrange(run_start as int, i as int))
            } else {
                Option::<Seq<char>>::None
            }) == scan_prefix(text@, t0, i as int),
        decreases n - i,
    {
        let c = text.get_char(i);
        if in_run {
            if is_alphanumeric_char(c) || c == '_' {
                proof {
                    assert(text@.subrange(run_start as int, i + 1) =~= text@.subrange(
                        run_start as int,
                        i as int,
                    ).push(c));
                }
            } else {
                if i > run_start {
                    let tag = lowercase(text.substring_char(run_start, i));
                    push_tag(tags, &tag);
                }
                if c == '#' {
                    run_start = i + 1;
                    proof {
                        assert(text@.subrange(i + 1, i + 1) =~= Seq::<char>::empty());
                    }
                } else {
                    in_run = false;
                }
            }
        } else {
            if c == '#' {
                in_run = true;
                run_start = i + 1;
                proof {
                    assert(text@.subrange(i + 1, i + 1) =~= Seq::<char>::empty());
                }
            }
        }
        i += 1;
    }
    if in_run {
        if n > run_start {
            let tag = lowercase(text.substring_char(run_start, n));
            push_tag(tags, &tag);
        }
    }
}

/// Code-point order on character sequences: the order `#tag` lists
/// are kept in.
pub open spec fn lex_lt(a: Seq<char>, b: Seq<char>) -> bool
    decreases a.len(),
{
    if b.len() == 0 {
        false
    } else if a.len() == 0 {
        true
    } else if (a[0] as u32) < (b[0] as u32) {
        true
    } else if (b[0] as u32) < (a[0] as u32) {
        false
    } else {
        lex_lt(a.drop_first(), b.drop_first())
    }
}

/// The order is total: two sequences compare one way, the other way,
/// or are equal.
pub proof fn lemma_lex_trichotomy(a: Seq<char>, b: Seq<char>)
    ensures
        lex_lt(a, b) || lex_lt(b, a) || a == b,
    decreases a.len(),
{
    if b.len() == 0 && a.len() == 0 {
        assert(a =~= b);
    } else if a.len() > 0 && b.len() > 0 {
        if (a[0] as u32) == (b[0] as u32) {
            vstd::utf8::char_u32_cast(a[0], a[0] as u32);
            vstd::utf8::char_u32_cast(b[0], b[0] as u32);
            assert(a[0] == b[0]);
            lemma_lex_trichotomy(a.drop_first(), b.drop_first());
            if a.drop_first() == b.drop_first() {
                assert(a.drop_first().len() == a.len() - 1);
                assert(b.drop_first().len() == b.len() - 1);
                assert(a.len() == b.len());
                assert forall|k: int| 0 <= k < a.len() implies a[k] == b[k] by {
                    if k > 0 {
                        assert(a[k] == a.drop_first()[k - 1]);
                        assert(b[k] == b.drop_first()[k - 1]);
                    }
                }
                assert(a =~= b);
            }
        }
    }
}

/// The order is strict: a sequence below another is not above it and
/// differs from it.
pub proof fn lemma_lex_asym(a: Seq<char>, b: Seq<char>)
    requires
        lex_lt(a, b),
    ensures
        !lex_lt(b, a),
        a != b,
    decreases a.len(),
{
    if a.len() > 0 && b.len() > 0 && (a[0] as u32) == (b[0] as u32) {
        lemma_lex_asym(a.drop_first(), b.drop_first());
    }
}

/// The order is transitive.
pub proof fn lemma_lex_trans(a: Seq<char>, b: Seq<char>, c: Seq<char>)
    requires
        lex_lt(a, b),
        lex_lt(b, c),
    ensures
        lex_lt(a, c),
    decreases a.len(),
{
    if a.len() > 0 && b.len() > 0 && c.len() > 0 && (a[0] as u32) == (b[0] as u32) && (b[0] as u32)
        == (c[0] as u32) {
        lemma_lex_trans(a.drop_first(), b.drop_first(), c.drop_first());
    }
}

/// Strictly ascending in code-point order: sorted with no
/// duplicates.
pub open spec fn lex_sorted_strict(ts: Seq<Seq<char>>) -> bool {
    forall|i: int, j: int| 0 <= i < j < ts.len() ==> lex_lt(ts[i], ts[j])
}

/// Whether `a` orders strictly below `b`.
fn str_lex_lt(a: &str, b: &str) -> (r: bool)
    ensures
        r == lex_lt(a@, b@),
{
    let n = a.unicode_len();
    let m = b.unicode_len();
    let mut i: usize = 0;
    proof {
        assert(a@.skip(0) =~= a@);
        assert(b@.skip(0) =~= b@);
    }
    while i < n && i < m
        invariant
            n == a@.len(),
            m == b@.len(),
            i <= n,
            i <= m,
            lex_lt(a@, b@) == lex_lt(a@.skip(i as int), b@.skip(i as int)),
        decreases n - i,
    {
        let ca = a.get_char(i);
        let cb = b.get_char(i);
        proof {
            assert(a@.skip(i as int)[0] == ca);
            assert(b@.skip(i as int)[0] == cb);
            assert(a@.skip(i as int).drop_first() =~= a@.skip(i + 1));
            assert(b@.skip(i as int).drop_first() =~= b@.skip(i + 1));
        }
        if (ca as u32) < (cb as u32) {
            return true;
        }
        if (cb as u32) < (ca as u32) {
            return false;
        }
        i += 1;
    }
    proof {
        assert(a@.skip(i as int).len() == n - i);
        assert(b@.skip(i as int).len() == m - i);
    }
    i < m
}

/// Put one tag into an ascending duplicate-free list, keeping it
/// ascending and duplicate-free; a tag already present is dropped.
fn insert_sorted_unique(v: &mut Vec<String>, t: &String)
    requires
        lex_sorted_strict(old(v).deep_view()),
    ensures
        lex_sorted_strict(final(v).deep_view()),
        forall|x: Seq<char>|
            final(v).deep_view().contains(x) <==> (old(v).deep_view().contains(x) || x == t@),
{
    let ghost pre = v.deep_view();
    let n = v.len();
    let mut j: usize = 0;
    while j < n && str_lex_lt(v[j].as_str(), t.as_str())
        invariant
            pre == v.deep_view(),
            n == v@.len(),
            j <= n,
            forall|k: int| 0 <= k < j ==> lex_lt(pre[k], t@),
        decreases n - j,
    {
        proof {
            assert(pre[j as int] == v@[j as int]@);
        }
        j += 1;
    }
    if j < n && crate::text::str_eq(v[j].as_str(), t.as_str()) {
        // already listed
        proof {
            assert(pre[j as int] == t@);
            assert(pre.contains(t@));
        }
        return ;
    }
    proof {
        if j < n {
            assert(pre[j as int] == v@[j as int]@);
            assert(!lex_lt(pre[j as int], t@) && pre[j as int] != t@);
            lemma_lex_trichotomy(pre[j as int], t@);
            assert(lex_lt(t@, pre[j as int]));
        }
    }
    v.insert(j, t.clone());
    proof {
        assert forall|k: int| 0 <= k < v@.len() implies v.deep_view()[k] == (if k < j {
            pre[k]
        } else if k == j {
            t@
        } else {
            pre[k - 1]
        }) by {
            assert(v.deep_view()[k] == v@[k]@);
        }
        let d = v.deep_view();
        assert(lex_sorted_strict(d)) by {
            assert forall|p: int, q: int| 0 <= p < q < d.len() implies lex_lt(d[p], d[q]) by {
                let jj = j as int;
                if q < jj {
                    assert(lex_lt(pre[p], pre[q]));
                } else if p < jj && q == jj {
                    assert(lex_lt(pre[p], t@));
                } else if p < jj && q > jj {
                    assert(lex_lt(pre[p], pre[q - 1])) by {
                        if p < q - 1 {
                        } else {
                            assert(p == q - 1);
                            assert(lex_lt(pre[p], t@));
                            assert(lex_lt(t@, pre[jj]));
                            assert(pre[jj] == pre[q - 1]);
                        }
                    }
                    if p == q - 1 {
                        lemma_lex_trans(pre[p], t@, pre[jj]);
                    }
                } else if p == jj {
                    assert(lex_lt(t@, pre[jj]));
                    if q - 1 > jj {
                        lemma_lex_trans(t@, pre[jj], pre[q - 1]);
                    }
                } else {
                    assert(lex_lt(pre[p - 1], pre[q - 1]));
                }
            }
        }
        assert forall|x: Seq<char>| d.contains(x) <==> (pre.contains(x) || x == t@) by {
            if d.contains(x) {
                let w = choose|w: int| 0 <= w < d.len() && d[w] == x;
                if w < j as int {
                    assert(pre[w] == x);
                } else if w > j as int {
                    assert(pre[w - 1] == x);
                }
            }
            if pre.contains(x) {
                let w = choose|w: int| 0 <= w < pre.len() && pre[w] == x;
                if w < j as int {
                    assert(d[w] == x);
                } else {
                    assert(d[w + 1] == x);
                }
            }
            if x == t@ {
                assert(d[j as int] == x);
            }
        }
    }
}

/// How many characters of the text feed the fallback title.
pub const BACKUP_TITLE_MAX: usize = 100;

/// One event folded into the parse state: the tags found so far, the
/// number of open code blocks, the number of open title headings,
/// the title text, and the fallback text.  Tags are scanned only
/// outside code blocks; the title collects the text of the first
/// top-level heading; the fallback collects the first
/// `BACKUP_TITLE_MAX` characters of all text.  Unbalanced end events
/// are ignored rather than driving a counter below zero.
pub open spec fn walk_step(acc: (Seq<Seq<char>>, nat, nat, Seq<char>, Seq<char>), e: MdEvent) -> (
    Seq<Seq<char>>,
    nat,
    nat,
    Seq<char>,
    Seq<char>,
) {
    match e {
        MdEvent::Text(t) => {
            let tags = if acc.1 == 0 {
                scan_text(acc.0, t@)
            } else {
                acc.0
            };
            let backup = if acc.4.len() < BACKUP_TITLE_MAX {
                if t@.len() <= BACKUP_TITLE_MAX - acc.4.len() {
                    acc.4 + t@
                } else {
                    acc.4 + t@.take(BACKUP_TITLE_MAX - acc.4.len())
                }
            } else {
                acc.4
            };
            let title = if acc.2 > 0 {
                acc.3 + t@
            } else {
                acc.3
            };
            (tags, acc.1, acc.2, title, backup)
        },
        MdEvent::CodeStart => (acc.0, acc.1 + 1, acc.2, acc.3, acc.4),
        MdEvent::CodeEnd => (
            acc.0,
            if acc.1 > 0 {
                (acc.1 - 1) as nat
            } else {
                0
            },
            acc.2,
            acc.3,
            acc.4,
        ),
        MdEvent::HeaderStart(l) => if l == 1 && acc.3.len() == 0 {
            (acc.0, acc.1, acc.2 + 1, acc.3, acc.4)
        } else {
            acc
        },
        MdEvent::HeaderEnd(l) => if l == 1 && acc.2 > 0 {
            (acc.0, acc.1, (acc.2 - 1) as nat, acc.3, acc.4)
        } else {
            acc
        },
        MdEvent::Other => acc,
    }
}

/// The parse state after the first `k` events.
pub open spec fn walk_prefix(es: Seq<MdEvent>, k: int) -> (
    Seq<Seq<char>>,
    nat,
    nat,
    Seq<char>,
    Seq<char>,
)
    decreases k,
{
    if k <= 0 {
        (Seq::empty(), 0nat, 0nat, Seq::empty(), Seq::empty())
    } else {
        walk_step(walk_prefix(es, k - 1), es[k - 1])
    }
}

/// The parse state after the whole event stream.
pub open spec fn walk(es: Seq<MdEvent>) -> (Seq<Seq<char>>, nat, nat, Seq<char>, Seq<char>) {
    walk_prefix(es, es.len() as int)
}

/// Fold the event stream: the tags in order of appearance, the title
/// text, and the fallback text.
fn walk_events(events: &Vec<MdEvent>) -> (r: (Vec<String>, String, String))
    ensures
        ({
            let w = walk(events@);
            &&& r.0.deep_view() == w.0
            &&& r.1@ == w.3
            &&& r.2@ == w.4
        }),
{
    let mut tags: Vec<String> = Vec::new();
    let mut code_level: usize = 0;
    let mut in_title: usize = 0;
    let mut title = String::new();
    let mut backup = String::new();
    let mut blen: usize = 0;
    let n = events.len();
    let mut x: usize = 0;
    proof {
        assert(tags.deep_view() =~= Seq::<Seq<char>>::empty());
    }
    while x < n
        invariant
            n == events@.len(),
            x <= n,
            blen == backup@.len(),
            blen <= BACKUP_TITLE_MAX,
            code_level <= x,
            in_title <= x,
            (tags.deep_view(), code_level as nat, in_title as nat, title@, backup@) == walk_prefix(
                events@,
                x as int,
            ),
        decreases n - x,
    {
        let ghost acc = walk_prefix(events@, x as int);
        proof {
            assert(walk_prefix(events@, x + 1) == walk_step(acc, events@[x as int]));
        }
        match &events[x] {
            MdEvent::Text(t) => {
                if code_level == 0 {
                    scan_hashtags(&mut tags, t.as_str());
                }
                if blen < BACKUP_TITLE_MAX {
                    let tlen = t.as_str().unicode_len();
                    let room = BACKUP_TITLE_MAX - blen;
                    let k = if tlen <= room {
                        tlen
                    } else {
                        room
                    };
                    backup.append(t.as_str().substring_char(0, k));
                    blen = blen + k;
                    proof {
                        if tlen <= room {
                            assert(t@.subrange(0, k as int) =~= t@);
                        } else {
                            assert(t@.subrange(0, k as int) =~= t@.take(
                                BACKUP_TITLE_MAX - acc.4.len(),
                            ));
                        }
                    }
                }
                if in_title > 0 {
                    title.append(t.as_str());
                }
            },
            MdEvent::CodeStart => {
                code_level = code_level + 1;
            },
            MdEvent::CodeEnd => {
                if code_level > 0 {
                    code_level = code_level - 1;
                }
            },
            MdEvent::HeaderStart(l) => {
                if *l == 1 && title.as_str().is_empty() {
                    in_title = in_title + 1;
                }
            },
            MdEvent::HeaderEnd(l) => {
                if *l == 1 && in_title > 0 {
                    in_title = in_title - 1;
                }
            },
            MdEvent::Other => {},
        }
        x += 1;
    }
    (tags, title, backup)
}

/// Parse raw Markdown into its deduplicated, ascending tag list, its
/// rendered HTML, and its title — the trimmed text of the first
/// top-level heading, or the first portion of the text when there is
/// none.
pub fn parse_markdown(md: &str) -> (r: (Vec<String>, String, String))
    ensures
        ({
            let w = walk(md_events(md@));
            &&& lex_sorted_strict(r.0.deep_view())
            &&& (forall|x: Seq<char>| r.0.deep_view().contains(x) <==> w.0.contains(x))
            &&& r.1@ == html_of(md@)
            &&& r.2@ == (if w.3.len() == 0 {
                w.4
            } else {
                trim_spec(w.3)
            })
        }),
{
    let events = parse_events(md);
    let (raw_tags, title, backup) = walk_events(&events);
    let ghost found = raw_tags.deep_view();
    let mut tags: Vec<String> = Vec::new();
    let rn = raw_tags.len();
    let mut i: usize = 0;
    proof {
        assert(tags.deep_view() =~= Seq::<Seq<char>>::empty());
    }
    while i < rn
        invariant
            found == raw_tags.deep_view(),
            rn == raw_tags@.len(),
            i <= rn,
            lex_sorted_strict(tags.deep_view()),
            forall|x: Seq<char>|
                tags.deep_view().contains(x) <==> found.take(i as int).contains(x),
        decreases rn - i,
    {
        let ghost pre = tags.deep_view();
        insert_sorted_unique(&mut tags, &raw_tags[i]);
        proof {
            let ti = found[i as int];
            assert(raw_tags@[i as int]@ == ti);
            assert forall|x: Seq<char>|
                tags.deep_view().contains(x) <==> found.take(i + 1).contains(x) by {
                assert(tags.deep_view().contains(x) <==> (pre.contains(x) || x == ti));
                if found.take(i + 1).contains(x) {
                    let w = choose|w: int|
                        0 <= w < found.take(i + 1).len() && #[trigger] found.take(i + 1)[w] == x;
                    if w < i {
                        assert(found.take(i as int)[w] == x);
                    }
                } else {
                    if found.take(i as int).contains(x) {
                        let w = choose|w: int|
                            0 <= w < found.take(i as int).len() && #[trigger] found.take(
                                i as int,
                            )[w] == x;
                        assert(found.take(i + 1)[w] == x);
                    }
                    assert(found.take(i + 1)[i as int] == ti);
                    assert(x != ti);
                }
            }
        }
        i += 1;
    }
    proof {
        assert(found.take(rn as int) =~= found);
    }
    let html = render_html(md);
    let title = if title.as_str().is_empty() {
        backup
    } else {
        trim(title.as_str())
    };
    (tags, html, title)
}

/// The leading whitespace of `s` stripped.
pub open spec fn ltrim_spec(s: Seq<char>) -> Seq<char>
    decreases s.len(),
{
    if s.len() > 0 && char_whitespace(s[0]) {
        ltrim_spec(s.drop_first())
    } else {
        s
    }
}

/// The trailing whitespace of `s` stripped.
pub open spec fn rtrim_spec(s: Seq<char>) -> Seq<char>
    decreases s.len(),
{
    if s.len() > 0 && char_whitespace(s.last()) {
        rtrim_spec(s.drop_last())
    } else {
        s
    }
}

/// `s` with whitespace stripped from both ends.
pub open spec fn trim_spec(s: Seq<char>) -> Seq<char> {
    rtrim_spec(ltrim_spec(s))
}

/// Strip whitespace from both ends.
fn trim(s: &str) -> (r: String)
    ensures
        r@ == trim_spec(s@),
{
    let n = s.unicode_len();
    let mut a: usize = 0;
    proof {
        assert(s@.skip(0) =~= s@);
    }
    while a < n && is_whitespace_char(s.get_char(a))
        invariant
            n == s@.len(),
            a <= n,
            ltrim_spec(s@) == ltrim_spec(s@.skip(a as int)),
        decreases n - a,
    {
        proof {
            assert(s@.skip(a as int)[0] == s@[a as int]);
            assert(s@.skip(a as int).drop_first() =~= s@.skip(a + 1));
        }
        a += 1;
    }
    proof {
        if a < n {
            assert(s@.skip(a as int)[0] == s@[a as int]);
        }
        assert(ltrim_spec(s@) == s@.skip(a as int));
    }
    let mut b: usize = n;
    proof {
        assert(s@.subrange(a as int, b as int) =~= s@.skip(a as int));
    }
    while b > a && is_whitespace_char(s.get_char(b - 1))
        invariant
            n == s@.len(),
            a <= b <= n,
            rtrim_spec(s@.skip(a as int)) == rtrim_spec(s@.subrange(a as int, b as int)),
        decreases b,
    {
        proof {
            assert(s@.subrange(a as int, b as int).last() == s@[b - 1]);
            assert(s@.subrange(a as int, b as int).drop_last() =~= s@.subrange(a as int, b - 1));
        }
        b -= 1;
    }
    proof {
        if b > a {
            assert(s@.subrange(a as int, b as int).last() == s@[b - 1]);
        }
        assert(rtrim_spec(s@.subrange(a as int, b as int)) == s@.subrange(a as int, b as int));
    }
    String::from_str(s.substring_char(a, b))
}

} // verus!
