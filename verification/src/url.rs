//! Link targets: relative paths resolved to percent-encoded `file://` URLs.

use vstd::prelude::*;

use crate::text::{push_char_to, push_str};

verus! {

/// The UTF-8 encoding of a character.
pub open spec fn utf8(c: char) -> Seq<u8> {
    let x = c as u32 as int;
    if x < 0x80 {
        seq![x as u8]
    } else if x < 0x800 {
        seq![(0xC0 + x / 64) as u8, (0x80 + x % 64) as u8]
    } else if x < 0x10000 {
        seq![(0xE0 + x / 4096) as u8, (0x80 + (x / 64) % 64) as u8, (0x80 + x % 64) as u8]
    } else {
        seq![
            (0xF0 + x / 262144) as u8,
            (0x80 + (x / 4096) % 64) as u8,
            (0x80 + (x / 64) % 64) as u8,
            (0x80 + x % 64) as u8,
        ]
    }
}

/// A byte that stays as it is in a path: an ASCII letter or digit, or one of `/-_.~`.
pub open spec fn path_safe(b: u8) -> bool {
    (48 <= b <= 57) || (65 <= b <= 90) || (97 <= b <= 122) || b == 47 || b == 45 || b == 95 || b == 46
        || b == 126
}

pub open spec fn hex_digit(d: int) -> char {
    if d < 10 { (48 + d) as char } else { (55 + d) as char }
}

/// A byte of a path in a URL: itself if it is safe, else `%` and two uppercase hex digits.
pub open spec fn escaped_byte(b: u8) -> Seq<char> {
    if path_safe(b) {
        seq![b as char]
    } else {
        seq!['%', hex_digit((b / 16) as int), hex_digit((b % 16) as int)]
    }
}

pub open spec fn escaped_bytes(bs: Seq<u8>) -> Seq<char>
    decreases bs.len(),
{
    if bs.len() == 0 {
        Seq::empty()
    } else {
        escaped_bytes(bs.drop_last()) + escaped_byte(bs.last())
    }
}

/// A path percent-encoded byte by byte over its UTF-8 encoding.
pub open spec fn percent_encoded(p: Seq<char>) -> Seq<char>
    decreases p.len(),
{
    if p.len() == 0 {
        Seq::empty()
    } else {
        percent_encoded(p.drop_last()) + escaped_bytes(utf8(p.last()))
    }
}

/// The UTF-8 encoding of a text.
pub open spec fn utf8_text(p: Seq<char>) -> Seq<u8>
    decreases p.len(),
{
    if p.len() == 0 {
        Seq::empty()
    } else {
        utf8_text(p.drop_last()) + utf8(p.last())
    }
}

/// The value of a hex digit (either case); 0 for any other character.
pub open spec fn hex_value(c: char) -> int {
    if '0' <= c && c <= '9' {
        c as int - 48
    } else if 'A' <= c && c <= 'F' {
        c as int - 55
    } else if 'a' <= c && c <= 'f' {
        c as int - 87
    } else {
        0
    }
}

/// Percent-decoding: `%` and two hex digits give the byte they spell, any other
/// character its code (taken as a byte).
pub open spec fn percent_decoded(s: Seq<char>) -> Seq<u8>
    decreases s.len(),
{
    if s.len() == 0 {
        Seq::empty()
    } else if s[0] == '%' && s.len() >= 3 {
        seq![(16 * hex_value(s[1]) + hex_value(s[2])) as u8] + percent_decoded(s.skip(3))
    } else {
        seq![s[0] as u8] + percent_decoded(s.skip(1))
    }
}

proof fn lemma_escaped_concat(a: Seq<u8>, b: Seq<u8>)
    ensures
        escaped_bytes(a + b) == escaped_bytes(a) + escaped_bytes(b),
    decreases b.len(),
{
    if b.len() == 0 {
        assert(a + b =~= a);
    } else {
        lemma_escaped_concat(a, b.drop_last());
        assert((a + b).drop_last() =~= a + b.drop_last());
        assert((a + b).last() == b.last());
    }
}

proof fn lemma_encoded_bytes(p: Seq<char>)
    ensures
        percent_encoded(p) == escaped_bytes(utf8_text(p)),
    decreases p.len(),
{
    if p.len() > 0 {
        lemma_encoded_bytes(p.drop_last());
        lemma_escaped_concat(utf8_text(p.drop_last()), utf8(p.last()));
    }
}

proof fn lemma_hex_digit(d: int)
    requires
        0 <= d < 16,
    ensures
        hex_value(hex_digit(d)) == d,
        hex_digit(d) != '%',
{
}

proof fn lemma_decode_byte(b: u8, rest: Seq<char>)
    ensures
        percent_decoded(escaped_byte(b) + rest) == seq![b] + percent_decoded(rest),
{
    let e = escaped_byte(b);
    let s = e + rest;
    if path_safe(b) {
        assert(s[0] == b as char);
        assert(s[0] != '%');
        assert(s.skip(1) =~= rest);
        assert((b as char) as u8 == b);
    } else {
        lemma_hex_digit((b / 16) as int);
        lemma_hex_digit((b % 16) as int);
        assert(s[0] == '%' && s[1] == hex_digit((b / 16) as int) && s[2] == hex_digit((b % 16) as int));
        assert(s.skip(3) =~= rest);
        assert(16 * ((b / 16) as int) + (b % 16) as int == b);
    }
}

proof fn lemma_decode_escaped(bs: Seq<u8>, rest: Seq<char>)
    ensures
        percent_decoded(escaped_bytes(bs) + rest) == bs + percent_decoded(rest),
    decreases bs.len(),
{
    if bs.len() == 0 {
        assert(escaped_bytes(bs) + rest =~= rest);
        assert(bs + percent_decoded(rest) =~= percent_decoded(rest));
    } else {
        let b = bs[0];
        let tail = bs.drop_first();
        assert(bs =~= seq![b] + tail);
        lemma_escaped_concat(seq![b], tail);
        assert(seq![b].drop_last() =~= Seq::<u8>::empty());
        assert(seq![b].last() == b);
        assert(escaped_bytes(seq![b].drop_last()) == Seq::<char>::empty());
        assert(escaped_bytes(seq![b]) == escaped_bytes(seq![b].drop_last()) + escaped_byte(b));
        assert(escaped_bytes(seq![b]) =~= escaped_byte(b));
        lemma_decode_escaped(tail, rest);
        assert(escaped_bytes(bs) + rest =~= escaped_byte(b) + (escaped_bytes(tail) + rest));
        lemma_decode_byte(b, escaped_bytes(tail) + rest);
        assert(seq![b] + (tail + percent_decoded(rest)) =~= bs + percent_decoded(rest));
    }
}

/// Percent-decoding an encoded path gives back the path's UTF-8 bytes.
pub proof fn lemma_percent_roundtrip(p: Seq<char>)
    ensures
        percent_decoded(percent_encoded(p)) == utf8_text(p),
{
    lemma_encoded_bytes(p);
    lemma_decode_escaped(utf8_text(p), Seq::empty());
    assert(escaped_bytes(utf8_text(p)) + Seq::<char>::empty() =~= escaped_bytes(utf8_text(p)));
    assert(utf8_text(p) + percent_decoded(Seq::<char>::empty()) =~= utf8_text(p));
}

fn push_escaped(out: &mut String, b: u8)
    ensures
        final(out)@ == old(out)@ + escaped_byte(b),
{
    if (48 <= b && b <= 57) || (65 <= b && b <= 90) || (97 <= b && b <= 122) || b == 47 || b == 45
        || b == 95 || b == 46 || b == 126 {
        push_char_to(out, b as char);
        assert(seq![b as char] == escaped_byte(b));
    } else {
        let hi = b / 16;
        let lo = b % 16;
        push_char_to(out, '%');
        push_char_to(out, if hi < 10 { (48 + hi) as char } else { (55 + hi) as char });
        push_char_to(out, if lo < 10 { (48 + lo) as char } else { (55 + lo) as char });
        assert(seq!['%', hex_digit((b / 16) as int), hex_digit((b % 16) as int)] == escaped_byte(b));
        assert(old(out)@.push('%').push(hex_digit((b / 16) as int)).push(hex_digit((b % 16) as int)) == old(out)@ + seq![
            '%',
            hex_digit((b / 16) as int),
            hex_digit((b % 16) as int),
        ]);
    }
}

/// The UTF-8 bytes of `c`.
fn utf8_bytes(c: char) -> (r: Vec<u8>)
    ensures
        r@ == utf8(c),
{
    let x = c as u32;
    let mut v: Vec<u8> = Vec::new();
    if x < 0x80 {
        v.push(x as u8);
    } else if x < 0x800 {
        v.push((0xC0 + x / 64) as u8);
        v.push((0x80 + x % 64) as u8);
    } else if x < 0x10000 {
        v.push((0xE0 + x / 4096) as u8);
        v.push((0x80 + (x / 64) % 64) as u8);
        v.push((0x80 + x % 64) as u8);
    } else {
        assert(x <= 0x10FFFF);
        v.push((0xF0 + x / 262144) as u8);
        v.push((0x80 + (x / 4096) % 64) as u8);
        v.push((0x80 + (x / 64) % 64) as u8);
        v.push((0x80 + x % 64) as u8);
    }
    assert(v@ == utf8(c));
    v
}

/// Percent-encodes a path for a `file://` URL.
pub fn percent_encode_path(p: &str) -> (r: String)
    ensures
        r@ == percent_encoded(p@),
{
    let v = crate::text::chars_of(p);
    let mut out = String::new();
    let mut i: usize = 0;
    while i < v.len()
        invariant
            i <= v@.len(),
            v@ == p@,
            out@ == percent_encoded(v@.take(i as int)),
        decreases v@.len() - i,
    {
        assert(v@.take(i + 1).drop_last() == v@.take(i as int));
        let bytes = utf8_bytes(v[i]);
        let ghost before = out@;
        let mut j: usize = 0;
        while j < bytes.len()
            invariant
                j <= bytes@.len(),
                out@ == before + escaped_bytes(bytes@.take(j as int)),
            decreases bytes@.len() - j,
        {
            assert(bytes@.take(j + 1).drop_last() == bytes@.take(j as int));
            push_escaped(&mut out, bytes[j]);
            j += 1;
        }
        assert(bytes@.take(j as int) == bytes@);
        i += 1;
    }
    assert(v@.take(i as int) == v@);
    out
}

/// An ASCII letter or digit, or one of `+-.`: the characters of a URL scheme.
pub open spec fn scheme_char(c: char) -> bool {
    ('a' <= c <= 'z') || ('A' <= c <= 'Z') || ('0' <= c <= '9') || c == '+' || c == '-' || c == '.'
}

/// Index of the first `c` in `s` at or after `i`.
pub open spec fn index_of(s: Seq<char>, c: char, i: int) -> Option<int>
    decreases s.len() - i,
{
    if i < 0 || i >= s.len() {
        None
    } else if s[i] == c {
        Some(i)
    } else {
        index_of(s, c, i + 1)
    }
}

/// Index of the first `#` or `?` in `s` at or after `i`.
pub open spec fn query_or_fragment(s: Seq<char>, i: int) -> Option<int>
    decreases s.len() - i,
{
    if i < 0 || i >= s.len() {
        None
    } else if s[i] == '#' || s[i] == '?' {
        Some(i)
    } else {
        query_or_fragment(s, i + 1)
    }
}

/// The URL starts with a scheme: at least two scheme characters before its first colon.
pub open spec fn has_scheme(url: Seq<char>) -> bool {
    match index_of(url, ':', 0) {
        Some(k) => k > 1 && forall|i: int| 0 <= i < k ==> scheme_char(#[trigger] url[i]),
        None => false,
    }
}

pub open spec fn starts_with(s: Seq<char>, p: Seq<char>) -> bool {
    p.len() <= s.len() && s.take(p.len() as int) == p
}

/// `base` joined with a relative `path`, as a path: a separator in between unless `base`
/// is empty or already ends with one.
pub open spec fn joined(base: Seq<char>, path: Seq<char>) -> Seq<char> {
    if base.len() > 0 && base.last() != '/' {
        base + seq!['/'] + path
    } else {
        base + path
    }
}

/// A link target as a URL: targets with a scheme, fragments and protocol-relative
/// targets stay as they are, and so does everything without a base directory; other
/// paths become `file://` URLs, relative ones resolved against the base directory.
pub open spec fn resolved(url: Seq<char>, base: Option<Seq<char>>) -> Seq<char> {
    if has_scheme(url) || starts_with(url, "#"@) || starts_with(url, "//"@) {
        url
    } else {
        match base {
            None => url,
            Some(b) => {
                let cut = match query_or_fragment(url, 0) {
                    Some(k) => k,
                    None => url.len() as int,
                };
                let path = url.take(cut);
                let full = if starts_with(path, "/"@) { path } else { joined(b, path) };
                "file://"@ + percent_encoded(full) + url.skip(cut)
            },
        }
    }
}

fn starts_with_exec(v: &Vec<char>, p: &str) -> (r: bool)
    ensures
        r == starts_with(v@, p@),
{
    let q = crate::text::chars_of(p);
    if q.len() > v.len() {
        return false;
    }
    let mut i: usize = 0;
    while i < q.len()
        invariant
            i <= q@.len() <= v@.len(),
            q@ == p@,
            forall|j: int| 0 <= j < i ==> v@[j] == q@[j],
        decreases q@.len() - i,
    {
        if v[i] != q[i] {
            assert(v@.take(q@.len() as int)[i as int] != p@[i as int]);
            return false;
        }
        i += 1;
    }
    assert(v@.take(q@.len() as int) == q@);
    true
}

fn has_scheme_exec(v: &Vec<char>) -> (r: bool)
    ensures
        r == has_scheme(v@),
{
    let mut k: usize = 0;
    let mut ok = true;
    while k < v.len() && v[k] != ':'
        invariant
            k <= v@.len(),
            index_of(v@, ':', 0) == index_of(v@, ':', k as int),
            ok <==> forall|i: int| 0 <= i < k ==> scheme_char(#[trigger] v@[i]),
        decreases v@.len() - k,
    {
        let c = v[k];
        if !(('a' <= c && c <= 'z') || ('A' <= c && c <= 'Z') || ('0' <= c && c <= '9') || c == '+'
            || c == '-' || c == '.') {
            ok = false;
        }
        k += 1;
    }
    k < v.len() && k > 1 && ok
}

/// Resolves a link target against the base directory (see `resolved`).
pub fn resolve_url(url: &str, base: &Option<String>) -> (r: String)
    ensures
        r@ == resolved(
            url@,
            match base {
                Some(b) => Some(b@),
                None => None,
            },
        ),
{
    proof {
        reveal_strlit("#");
        reveal_strlit("//");
        reveal_strlit("/");
        reveal_strlit("file://");
    }
    let v = crate::text::chars_of(url);
    if has_scheme_exec(&v) || starts_with_exec(&v, "#") || starts_with_exec(&v, "//") {
        return url.to_owned();
    }
    let b = match base {
        Some(b) => b,
        None => {
            return url.to_owned();
        },
    };
    let mut cut: usize = 0;
    while cut < v.len() && v[cut] != '#' && v[cut] != '?'
        invariant
            cut <= v@.len(),
            query_or_fragment(v@, 0) == query_or_fragment(v@, cut as int),
        decreases v@.len() - cut,
    {
        cut += 1;
    }
    let mut full = String::new();
    assert("/"@ =~= seq!['/']);
    if cut > 0 && v[0] == '/' {
        crate::text::push_chars(&mut full, &v, 0, cut);
        assert(v@.take(cut as int).take(1) =~= "/"@);
        assert(v@.subrange(0, cut as int) == v@.take(cut as int));
    } else {
        if cut > 0 {
            assert(v@.take(cut as int).take(1)[0] != "/"@[0]);
        }
        push_str(&mut full, b.as_str());
        let bv = crate::text::chars_of(b.as_str());
        if bv.len() > 0 && bv[bv.len() - 1] != '/' {
            push_char_to(&mut full, '/');
        }
        crate::text::push_chars(&mut full, &v, 0, cut);
        assert(v@.subrange(0, cut as int) == v@.take(cut as int));
        assert(full@ == joined(b@, v@.take(cut as int)));
    }
    assert(cut == match query_or_fragment(v@, 0) {
        Some(k) => k,
        None => v@.len() as int,
    });
    assert(full@ == if starts_with(v@.take(cut as int), "/"@) {
        v@.take(cut as int)
    } else {
        joined(b@, v@.take(cut as int))
    });
    let mut out = String::new();
    push_str(&mut out, "file://");
    let enc = percent_encode_path(full.as_str());
    push_str(&mut out, enc.as_str());
    crate::text::push_chars(&mut out, &v, cut, v.len());
    assert(v@.subrange(cut as int, v@.len() as int) == v@.skip(cut as int));
    out
}

} // verus!
