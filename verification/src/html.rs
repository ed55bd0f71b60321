//! Raw HTML in markdown: tag names, attributes and comments.

use vstd::prelude::*;

use crate::text::{
    ascii_lower, ascii_lower_vec, chars_of, find_chars, find_from, is_whitespace, unicode_whitespace,
};

verus! {

/// `s` without its leading white space.
pub open spec fn trim_start_ws(s: Seq<char>) -> Seq<char>
    decreases s.len(),
{
    if s.len() > 0 && unicode_whitespace(s[0]) {
        trim_start_ws(s.drop_first())
    } else {
        s
    }
}

/// `s` without leading and trailing white space (`str::trim`).
pub open spec fn trim_ws(s: Seq<char>) -> Seq<char> {
    crate::render::trim_end_text(trim_start_ws(s))
}

/// `s` without the `<` and `/` characters it starts with.
pub open spec fn skip_angle(s: Seq<char>) -> Seq<char>
    decreases s.len(),
{
    if s.len() > 0 && (s[0] == '<' || s[0] == '/') {
        skip_angle(s.drop_first())
    } else {
        s
    }
}

pub open spec fn ascii_alnum(c: char) -> bool {
    ('a' <= c <= 'z') || ('A' <= c <= 'Z') || ('0' <= c <= '9')
}

/// The ASCII letters and digits that `s` starts with.
pub open spec fn alnum_prefix(s: Seq<char>) -> Seq<char>
    decreases s.len(),
{
    if s.len() > 0 && ascii_alnum(s[0]) {
        seq![s[0]] + alnum_prefix(s.drop_first())
    } else {
        Seq::empty()
    }
}

/// The lowercase name of an HTML tag (`<a href=..>` and `</a>` both name `a`).
pub open spec fn tag_name(t: Seq<char>) -> Seq<char> {
    ascii_lower(alnum_prefix(skip_angle(t)))
}

/// White space in the ASCII sense (`u8::is_ascii_whitespace`).
pub open spec fn ascii_ws(c: char) -> bool {
    c == ' ' || c == '\t' || c == '\n' || c == '\x0C' || c == '\r'
}

/// The characters of `s` before the first one that satisfies `stop`.
pub open spec fn until(s: Seq<char>, stop: spec_fn(char) -> bool) -> Seq<char>
    decreases s.len(),
{
    if s.len() == 0 || stop(s[0]) {
        Seq::empty()
    } else {
        seq![s[0]] + until(s.drop_first(), stop)
    }
}

/// The value of attribute `name` in `tag`, searching from `from` in the lowercased tag:
/// an occurrence of the name after white space, then `=`, then a quoted value or one
/// that ends at white space or `>`. No value if the text after `=` is empty.
pub open spec fn attr_from(tag: Seq<char>, name: Seq<char>, from: nat) -> Option<Seq<char>>
    decreases tag.len() + 1 - from,
{
    let lower = ascii_lower(tag);
    match find_from(lower, name, from) {
        None => None,
        Some(at) => {
            let next = at + name.len();
            let before_ok = at > 0 && ascii_ws(lower[at - 1]);
            let rest = trim_start_ws(tag.skip(next as int));
            if name.len() == 0 || next > tag.len() {
                None
            } else if !before_ok || !(rest.len() > 0 && rest[0] == '=') {
                proof {
                    crate::text::lemma_find_from(lower, name, from);
                }
                attr_from(tag, name, next as nat)
            } else {
                let v = trim_start_ws(rest.drop_first());
                if v.len() == 0 {
                    None
                } else if v[0] == '"' || v[0] == '\'' {
                    let q = v[0];
                    Some(until(v.drop_first(), |c: char| c == q))
                } else {
                    Some(until(v, |c: char| unicode_whitespace(c) || c == '>'))
                }
            }
        },
    }
}

proof fn lemma_trim_start_ws_len(s: Seq<char>)
    ensures
        trim_start_ws(s).len() <= s.len(),
        trim_start_ws(s) == s.skip(s.len() - trim_start_ws(s).len()),
    decreases s.len(),
{
    if s.len() > 0 && unicode_whitespace(s[0]) {
        lemma_trim_start_ws_len(s.drop_first());
        assert(s.drop_first().skip(s.drop_first().len() - trim_start_ws(s.drop_first()).len())
            == s.skip(s.len() - trim_start_ws(s).len()));
    } else {
        assert(s.skip(0) == s);
    }
}

/// Index in `v` where its text from `i` on starts after leading white space.
fn skip_ws(v: &Vec<char>, i: usize) -> (r: usize)
    requires
        i <= v@.len(),
    ensures
        i <= r <= v@.len(),
        v@.skip(r as int) == trim_start_ws(v@.skip(i as int)),
{
    let mut k = i;
    while k < v.len() && is_whitespace(v[k])
        invariant
            i <= k <= v@.len(),
            trim_start_ws(v@.skip(i as int)) == trim_start_ws(v@.skip(k as int)),
        decreases v@.len() - k,
    {
        assert(v@.skip(k as int).drop_first() == v@.skip(k + 1));
        k += 1;
    }
    if k < v.len() {
        assert(v@.skip(k as int)[0] == v@[k as int]);
    }
    k
}

/// The value of attribute `name` (nonempty) in an HTML tag.
pub fn attr(tag: &str, name: &str) -> (r: Option<String>)
    requires
        name@.len() > 0,
    ensures
        match r {
            Some(s) => attr_from(tag@, name@, 0) == Some(s@),
            None => attr_from(tag@, name@, 0) is None,
        },
{
    let t = chars_of(tag);
    let lower = ascii_lower_vec(&t);
    let q = chars_of(name);
    let mut from: usize = 0;
    loop
        invariant
            t@ == tag@,
            q@ == name@,
            q@.len() > 0,
            lower@ == ascii_lower(t@),
            attr_from(tag@, name@, 0) == attr_from(tag@, name@, from as nat),
        decreases t@.len() + 1 - from,
    {
        let at = match find_chars(&lower, &q, from) {
            Some(p) => p,
            None => {
                return None;
            },
        };
        proof {
            crate::text::lemma_find_from(lower@, q@, from as nat);
        }
        let next = at + q.len();
        let before_ok = at > 0 && {
            let c = lower[at - 1];
            c == ' ' || c == '\t' || c == '\n' || c == '\x0C' || c == '\r'
        };
        let r = skip_ws(&t, next);
        let eq = r < t.len() && t[r] == '=';
        proof {
            if r < t@.len() {
                assert(t@.skip(r as int)[0] == t@[r as int]);
            }
        }
        if !before_ok || !eq {
            from = next;
        } else {
            proof {
                assert(t@.skip(r as int).drop_first() == t@.skip(r + 1));
            }
            let v0 = skip_ws(&t, r + 1);
            if v0 == t.len() {
                return None;
            }
            assert(t@.skip(v0 as int)[0] == t@[v0 as int]);
            let first = t[v0];
            let mut out = String::new();
            if first == '"' || first == '\'' {
                let mut k = v0 + 1;
                assert(t@.skip(v0 as int).drop_first() == t@.skip(k as int));
                while k < t.len() && t[k] != first
                    invariant
                        v0 < k <= t@.len(),
                        until(t@.skip(v0 + 1), |c: char| c == first) == out@ + until(t@.skip(k as int), |c: char| c == first),
                    decreases t@.len() - k,
                {
                    assert(t@.skip(k as int)[0] == t@[k as int]);
                    assert(t@.skip(k as int).drop_first() == t@.skip(k + 1));
                    crate::text::push_char_to(&mut out, t[k]);
                    k += 1;
                }
                if k < t.len() {
                    assert(t@.skip(k as int)[0] == t@[k as int]);
                }
                return Some(out);
            } else {
                let mut k = v0;
                while k < t.len() && !is_whitespace(t[k]) && t[k] != '>'
                    invariant
                        v0 <= k <= t@.len(),
                        until(t@.skip(v0 as int), |c: char| unicode_whitespace(c) || c == '>') == out@ + until(
                            t@.skip(k as int),
                            |c: char| unicode_whitespace(c) || c == '>',
                        ),
                    decreases t@.len() - k,
                {
                    assert(t@.skip(k as int)[0] == t@[k as int]);
                    assert(t@.skip(k as int).drop_first() == t@.skip(k + 1));
                    crate::text::push_char_to(&mut out, t[k]);
                    k += 1;
                }
                if k < t.len() {
                    assert(t@.skip(k as int)[0] == t@[k as int]);
                }
                return Some(out);
            }
        }
    }
}

/// The lowercase tag name of a trimmed HTML tag.
pub fn tag_name_of(t: &Vec<char>) -> (r: String)
    ensures
        r@ == tag_name(t@),
{
    let mut i: usize = 0;
    assert(t@.skip(0) == t@);
    while i < t.len() && (t[i] == '<' || t[i] == '/')
        invariant
            i <= t@.len(),
            skip_angle(t@) == skip_angle(t@.skip(i as int)),
        decreases t@.len() - i,
    {
        assert(t@.skip(i as int).drop_first() == t@.skip(i + 1));
        i += 1;
    }
    if i < t.len() {
        assert(t@.skip(i as int)[0] == t@[i as int]);
    }
    assert(skip_angle(t@.skip(i as int)) == t@.skip(i as int));
    let start = i;
    let mut name: Vec<char> = Vec::new();
    while i < t.len() && (('a' <= t[i] && t[i] <= 'z') || ('A' <= t[i] && t[i] <= 'Z') || ('0' <= t[i] && t[i] <= '9'))
        invariant
            start <= i <= t@.len(),
            alnum_prefix(t@.skip(start as int)) == name@ + alnum_prefix(t@.skip(i as int)),
        decreases t@.len() - i,
    {
        assert(t@.skip(i as int)[0] == t@[i as int]);
        assert(t@.skip(i as int).drop_first() == t@.skip(i + 1));
        name.push(t[i]);
        i += 1;
    }
    if i < t.len() {
        assert(t@.skip(i as int)[0] == t@[i as int]);
    }
    let lower = ascii_lower_vec(&name);
    crate::text::string_of(&lower)
}

/// The visible part of a line of an HTML block, given whether a comment is open at its
/// start, and whether one is open at its end.
pub open spec fn strip_comments(rest: Seq<char>, in_comment: bool) -> (Seq<char>, bool)
    decreases rest.len(),
{
    if in_comment {
        match find_from(rest, "-->"@, 0) {
            Some(p) => if p + 3 <= rest.len() {
                strip_comments(rest.skip(p + 3 as int), false)
            } else {
                (Seq::empty(), true)
            },
            None => (Seq::empty(), true),
        }
    } else {
        match find_from(rest, "<!--"@, 0) {
            Some(p) => if p + 4 <= rest.len() {
                let r = strip_comments(rest.skip(p + 4 as int), true);
                (rest.take(p as int) + r.0, r.1)
            } else {
                (rest, false)
            },
            None => (rest, false),
        }
    }
}

/// Strips the HTML comments of one line (see `strip_comments`).
pub fn strip_line(line: &Vec<char>, in_comment: bool) -> (r: (Vec<char>, bool))
    ensures
        (r.0@, r.1) == strip_comments(line@, in_comment),
{
    proof {
        reveal_strlit("-->");
        reveal_strlit("<!--");
    }
    let close = chars_of("-->");
    let open = chars_of("<!--");
    let mut visible: Vec<char> = Vec::new();
    let mut from: usize = 0;
    let mut inside = in_comment;
    let ghost goal = strip_comments(line@, in_comment);
    assert(line@.skip(0) == line@);
    loop
        invariant
            from <= line@.len(),
            close@ == "-->"@,
            open@ == "<!--"@,
            close@.len() == 3,
            open@.len() == 4,
            goal == strip_comments(line@, in_comment),
            goal == ({
                let r = strip_comments(line@.skip(from as int), inside);
                (visible@ + r.0, r.1)
            }),
        decreases line@.len() - from,
    {
        let ghost rest = line@.skip(from as int);
        let len = line.len();
        if inside {
            let found = find_chars(line, &close, from);
            assert(found == match find_from(line@, close@, from as nat) {
                Some(p) => Some(p as usize),
                None => None::<usize>,
            });
            match found {
                Some(p) => {
                    proof {
                        crate::text::lemma_find_from(line@, close@, from as nat);
                        lemma_find_shift(line@, close@, from as nat);
                    }
                    let ghost fp = find_from(line@, close@, from as nat);
                    assert(fp is Some);
                    assert(crate::text::occurs_at(line@, close@, fp->0 as int));
                    assert(fp->0 + 3 <= line@.len());
                    assert(fp->0 as usize == p);
                    assert(fp->0 == p);
                    assert(p >= from && p + 3 <= line@.len());
                    assert(rest.skip(p - from + 3) == line@.skip(p + 3));
                    from = p + 3;
                    inside = false;
                },
                None => {
                    proof {
                        lemma_find_shift(line@, close@, from as nat);
                    }
                    return (visible, true);
                },
            }
        } else {
            let found = find_chars(line, &open, from);
            assert(found == match find_from(line@, open@, from as nat) {
                Some(p) => Some(p as usize),
                None => None::<usize>,
            });
            match found {
                Some(p) => {
                    proof {
                        crate::text::lemma_find_from(line@, open@, from as nat);
                        lemma_find_shift(line@, open@, from as nat);
                    }
                    let ghost fp = find_from(line@, open@, from as nat);
                    assert(fp is Some);
                    assert(crate::text::occurs_at(line@, open@, fp->0 as int));
                    assert(fp->0 + 4 <= line@.len());
                    assert(fp->0 as usize == p);
                    assert(fp->0 == p);
                    assert(p >= from && p + 4 <= line@.len());
                    let ghost before = visible@;
                    let mut k = from;
                    while k < p
                        invariant
                            from <= k <= p <= line@.len(),
                            visible@ == before + line@.subrange(from as int, k as int),
                        decreases p - k,
                    {
                        visible.push(line[k]);
                        assert(line@.subrange(from as int, k + 1) == line@.subrange(from as int, k as int).push(line@[k as int]));
                        k += 1;
                    }
                    assert(rest.take(p - from) == line@.subrange(from as int, p as int));
                    assert(rest.skip(p - from + 4) == line@.skip(p + 4));
                    from = p + 4;
                    inside = true;
                },
                None => {
                    proof {
                        lemma_find_shift(line@, open@, from as nat);
                    }
                    let ghost before = visible@;
                    let mut k = from;
                    while k < line.len()
                        invariant
                            from <= k <= line@.len(),
                            visible@ == before + line@.subrange(from as int, k as int),
                        decreases line@.len() - k,
                    {
                        visible.push(line[k]);
                        assert(line@.subrange(from as int, k + 1) == line@.subrange(from as int, k as int).push(line@[k as int]));
                        k += 1;
                    }
                    assert(line@.subrange(from as int, k as int) == rest);
                    return (visible, false);
                },
            }
        }
    }
}

/// Searching from `i` finds what searching the text from `i` on finds, shifted by `i`.
proof fn lemma_find_shift(hay: Seq<char>, q: Seq<char>, i: nat)
    requires
        i <= hay.len(),
    ensures
        match find_from(hay, q, i) {
            Some(p) => find_from(hay.skip(i as int), q, 0) == Some((p - i) as nat),
            None => find_from(hay.skip(i as int), q, 0) is None,
        },
{
    let h = hay.skip(i as int);
    crate::text::lemma_find_from(hay, q, i);
    crate::text::lemma_find_from(h, q, 0);
    assert forall|k: int| 0 <= k implies (occurs_at_eq(hay, q, i as int, k)) by {
        if 0 <= k && k + q.len() <= h.len() {
            assert(h.subrange(k, k + q.len()) == hay.subrange(i + k, i + k + q.len()));
        }
    }
    match find_from(hay, q, i) {
        Some(p) => {
            assert(occurs_at_eq(hay, q, i as int, p - i));
            match find_from(h, q, 0) {
                Some(p2) => {
                    assert(occurs_at_eq(hay, q, i as int, p2 as int));
                },
                None => {},
            }
        },
        None => {
            match find_from(h, q, 0) {
                Some(p2) => {
                    assert(occurs_at_eq(hay, q, i as int, p2 as int));
                },
                None => {},
            }
        },
    }
}

spec fn occurs_at_eq(hay: Seq<char>, q: Seq<char>, i: int, k: int) -> bool {
    crate::text::occurs_at(hay.skip(i), q, k) == crate::text::occurs_at(hay, q, i + k)
}

} // verus!
