//! Small verified string helpers shared by the URL and filename
//! builders.

use vstd::prelude::*;
use vstd::string::{StrSliceExecFns, StringExecFns};

verus! {

/// The characters of `ts` joined by a single `/` between parts.
pub open spec fn join_slash_spec(ts: Seq<Seq<char>>) -> Seq<char>
    decreases ts.len(),
{
    if ts.len() == 0 {
        Seq::empty()
    } else if ts.len() == 1 {
        ts[0]
    } else {
        ts[0] + seq!['/'] + join_slash_spec(ts.drop_first())
    }
}

/// Appending one part extends the join by a separator and the part.
pub proof fn lemma_join_snoc(ts: Seq<Seq<char>>, t: Seq<char>)
    ensures
        join_slash_spec(ts.push(t)) == if ts.len() == 0 {
            t
        } else {
            join_slash_spec(ts) + seq!['/'] + t
        },
    decreases ts.len(),
{
    if ts.len() == 0 {
        assert(ts.push(t)[0] == t);
        assert(join_slash_spec(ts.push(t)) == t);
    } else {
        let u = ts.push(t);
        assert(u.len() >= 2);
        assert(u[0] == ts[0]);
        assert(u.drop_first() =~= ts.drop_first().push(t));
        lemma_join_snoc(ts.drop_first(), t);
        if ts.len() == 1 {
            assert(ts.drop_first().len() == 0);
            assert(join_slash_spec(u) == ts[0] + seq!['/'] + t);
            assert(join_slash_spec(ts) == ts[0]);
        } else {
            assert(join_slash_spec(u) == u[0] + seq!['/'] + join_slash_spec(u.drop_first()));
            assert(join_slash_spec(ts) + seq!['/'] + t =~= ts[0] + seq!['/'] + (join_slash_spec(
                ts.drop_first(),
            ) + seq!['/'] + t));
        }
    }
}

/// Append a tag, stated over the deep view.
pub(crate) fn push_tag(v: &mut Vec<String>, t: &String)
    ensures
        final(v).deep_view() == old(v).deep_view().push(t@),
{
    let ghost pre = v.deep_view();
    v.push(t.clone());
    proof {
        assert forall|j: int| 0 <= j < v@.len() implies v.deep_view()[j] == pre.push(t@)[j] by {
            assert(v.deep_view()[j] == v@[j]@);
            if j < pre.len() {
                assert(pre[j] == old(v)@[j]@);
            }
        }
        assert(v.deep_view() =~= pre.push(t@));
    }
}

/// One step of splitting on `/`: a slash closes the current segment,
/// any other character extends it.
pub open spec fn split_step(acc: (Seq<Seq<char>>, Seq<char>), c: char) -> (
    Seq<Seq<char>>,
    Seq<char>,
) {
    if c == '/' {
        (acc.0.push(acc.1), Seq::empty())
    } else {
        (acc.0, acc.1.push(c))
    }
}

/// The split state after the first `k` characters: the closed
/// segments, and the still-open one.
pub open spec fn split_prefix(s: Seq<char>, k: int) -> (Seq<Seq<char>>, Seq<char>)
    decreases k,
{
    if k <= 0 {
        (Seq::empty(), Seq::empty())
    } else {
        split_step(split_prefix(s, k - 1), s[k - 1])
    }
}

/// `s` split on `/`: always at least one segment, and one more
/// segment per slash.
pub open spec fn split_slash_spec(s: Seq<char>) -> Seq<Seq<char>> {
    let acc = split_prefix(s, s.len() as int);
    acc.0.push(acc.1)
}

/// A request path turned into a tag query: the segments after the
/// leading slash, with a trailing empty segment dropped and recorded
/// as "do not prefer an exact match".
pub open spec fn url_to_tags_spec(url: Seq<char>) -> (Seq<Seq<char>>, bool) {
    let parts = split_slash_spec(url).drop_first();
    if parts.len() > 0 && parts.last() == Seq::<char>::empty() {
        (parts.drop_last(), false)
    } else {
        (parts, true)
    }
}

/// Split a request path into the tag list it addresses and whether
/// an exact match is preferred (no trailing slash).
pub fn url_to_tags(url: &str) -> (r: (Vec<String>, bool))
    ensures
        r.0.deep_view() == url_to_tags_spec(url@).0,
        r.1 == url_to_tags_spec(url@).1,
{
    let n = url.unicode_len();
    let mut parts: Vec<String> = Vec::new();
    let mut start: usize = 0;
    let mut i: usize = 0;
    proof {
        assert(parts.deep_view() =~= split_prefix(url@, 0).0);
        assert(url@.subrange(0, 0) =~= split_prefix(url@, 0).1);
    }
    while i < n
        invariant
            n == url@.len(),
            0 <= start <= i <= n,
            parts.deep_view() == split_prefix(url@, i as int).0,
            url@.subrange(start as int, i as int) == split_prefix(url@, i as int).1,
        decreases n - i,
    {
        let c = url.get_char(i);
        if c == '/' {
            let seg = String::from_str(url.substring_char(start, i));
            push_tag(&mut parts, &seg);
            start = i + 1;
            proof {
                assert(url@.subrange(start as int, i + 1) =~= Seq::<char>::empty());
            }
        } else {
            proof {
                assert(url@.subrange(start as int, i + 1) =~= url@.subrange(
                    start as int,
                    i as int,
                ).push(c));
            }
        }
        i += 1;
    }
    let last = String::from_str(url.substring_char(start, n));
    push_tag(&mut parts, &last);
    proof {
        assert(parts.deep_view() == split_slash_spec(url@));
    }
    // drop the segment before the leading slash
    let ghost full = parts.deep_view();
    parts.remove(0);
    proof {
        assert forall|j: int| 0 <= j < parts@.len() implies parts.deep_view()[j]
            == full.drop_first()[j] by {
            assert(parts.deep_view()[j] == parts@[j]@);
        }
        assert(parts.deep_view() =~= full.drop_first());
    }
    let m = parts.len();
    if m > 0 && parts[m - 1].as_str().is_empty() {
        let ghost before = parts.deep_view();
        proof {
            assert(before.last() =~= Seq::<char>::empty());
        }
        parts.pop();
        proof {
            assert forall|j: int| 0 <= j < parts@.len() implies parts.deep_view()[j]
                == before.drop_last()[j] by {
                assert(parts.deep_view()[j] == parts@[j]@);
                assert(before[j] == parts@[j]@);
            }
            assert(parts.deep_view() =~= before.drop_last());
        }
        (parts, false)
    } else {
        proof {
            if parts.deep_view().len() > 0 {
                assert(parts.deep_view().last() == parts@[m - 1]@);
            }
        }
        (parts, true)
    }
}

/// Whether the path names a content file: it ends in `.md`.
pub fn has_md_extension(path: &str) -> (b: bool)
    ensures
        b == (path@.len() >= 3 && path@.subrange(path@.len() - 3, path@.len() as int)
            == ".md"@),
{
    let n = path.unicode_len();
    if n < 3 {
        return false;
    }
    let tail = path.substring_char(n - 3, n);
    let r = str_eq(tail, ".md");
    proof {
        assert(tail@ == path@.subrange(path@.len() - 3, path@.len() as int));
    }
    r
}

/// The destination and temporary paths that the atomic writer probes:
/// the stem with `attempts` collision-avoiding underscores appended,
/// as a content file and as its temporary sibling in the same
/// directory.
pub fn probe_paths(data_dir: &str, stem: &str, attempts: usize) -> (r: (String, String))
    ensures
        ({
            let base = data_dir@ + seq!['/'] + stem@ + Seq::new(attempts as nat, |i: int| '_');
            r.0@ == base + ".md"@ && r.1@ == base + ".tmp"@
        }),
{
    let ghost base = data_dir@ + seq!['/'] + stem@ + Seq::new(attempts as nat, |i: int| '_');
    let mut b = String::from_str(data_dir);
    b.append("/");
    proof {
        reveal_strlit("/");
        assert("/"@ =~= seq!['/']);
    }
    b.append(stem);
    let mut k: usize = 0;
    while k < attempts
        invariant
            k <= attempts,
            b@ == data_dir@ + seq!['/'] + stem@ + Seq::new(k as nat, |i: int| '_'),
        decreases attempts - k,
    {
        b.append("_");
        proof {
            reveal_strlit("_");
            assert(b@ =~= data_dir@ + seq!['/'] + stem@ + Seq::new((k + 1) as nat, |i: int| '_'));
        }
        k += 1;
    }
    proof {
        assert(b@ == base);
    }
    let mut dst = b.clone();
    dst.append(".md");
    let mut tmp = b;
    tmp.append(".tmp");
    (dst, tmp)
}

/// Character-for-character equality of two string slices.
pub fn str_eq(a: &str, b: &str) -> (r: bool)
    ensures
        r == (a@ == b@),
{
    let n = a.unicode_len();
    let m = b.unicode_len();
    if n != m {
        return false;
    }
    let mut i: usize = 0;
    while i < n
        invariant
            n == a@.len(),
            n == b@.len(),
            i <= n,
            forall|k: int| 0 <= k < i ==> a@[k] == b@[k],
        decreases n - i,
    {
        if a.get_char(i) != b.get_char(i) {
            return false;
        }
        i += 1;
    }
    proof {
        assert(a@ =~= b@);
    }
    true
}

/// Join a list of parts with `/` between them.
pub fn join_slash(parts: &Vec<String>) -> (r: String)
    ensures
        r@ == join_slash_spec(parts.deep_view()),
{
    let ghost d = parts.deep_view();
    let mut r = String::new();
    let n = parts.len();
    let mut i: usize = 0;
    proof {
        assert(d.take(0) =~= Seq::<Seq<char>>::empty());
    }
    while i < n
        invariant
            d == parts.deep_view(),
            n == parts@.len(),
            i <= n,
            r@ == join_slash_spec(d.take(i as int)),
        decreases n - i,
    {
        proof {
            reveal_strlit("/");
            assert(d[i as int] == parts@[i as int]@);
            assert(d.take(i + 1) =~= d.take(i as int).push(d[i as int]));
            lemma_join_snoc(d.take(i as int), d[i as int]);
        }
        if i > 0 {
            r.append("/");
        }
        r.append(parts[i].as_str());
        proof {
            assert("/"@ =~= seq!['/']);
            if i == 0 {
                assert(d.take(0).len() == 0);
            }
        }
        i += 1;
    }
    proof {
        assert(d.take(n as int) =~= d);
    }
    r
}

/// `"/"` followed by the parts joined with `/`, and a trailing `/`
/// when asked for.
pub fn tags_url(parts: &Vec<String>, trailing_slash: bool) -> (r: String)
    ensures
        r@ == seq!['/'] + join_slash_spec(parts.deep_view()) + (if trailing_slash {
            seq!['/']
        } else {
            Seq::<char>::empty()
        }),
{
    let mut r = String::from_str("/");
    proof {
        reveal_strlit("/");
        assert("/"@ =~= seq!['/']);
    }
    r.append(join_slash(parts).as_str());
    if trailing_slash {
        r.append("/");
        proof {
            assert(r@ =~= seq!['/'] + join_slash_spec(parts.deep_view()) + seq!['/']);
        }
    } else {
        proof {
            assert(r@ =~= seq!['/'] + join_slash_spec(parts.deep_view())
                + Seq::<char>::empty());
        }
    }
    r
}

} // verus!
