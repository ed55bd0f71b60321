//! Character-level string helpers with exact specifications.

use vstd::prelude::*;

verus! {

/// Appends one character to a string (`String::push`).
#[verifier::external_body]
pub(crate) fn push_char_to(s: &mut String, c: char)
    ensures
        final(s)@ == old(s)@.push(c),
{
    s.push(c);
}

/// Whether `c` has the Unicode `Uppercase` property (`char::is_uppercase`).
pub uninterp spec fn unicode_uppercase(c: char) -> bool;

/// Whether `c` has the Unicode `White_Space` property (`char::is_whitespace`).
pub uninterp spec fn unicode_whitespace(c: char) -> bool;

/// `char::is_uppercase`: the result is the Unicode `Uppercase` property of `c`;
/// among ASCII characters exactly `A`..=`Z` have it.
#[verifier::external_body]
pub(crate) fn is_uppercase(c: char) -> (r: bool)
    ensures
        r == unicode_uppercase(c),
        (c as u32) < 128 ==> (r <==> ('A' <= c && c <= 'Z')),
{
    c.is_uppercase()
}

/// `char::is_whitespace`: the result is the Unicode `White_Space` property of `c`;
/// among ASCII characters exactly tab, line feed, vertical tab, form feed,
/// carriage return and space have it.
#[verifier::external_body]
pub(crate) fn is_whitespace(c: char) -> (r: bool)
    ensures
        r == unicode_whitespace(c),
        (c as u32) < 128 ==> (r <==> (c == ' ' || ('\t' <= c && c <= '\r'))),
{
    c.is_whitespace()
}

/// The characters of a string slice, in order.
pub fn chars_of(s: &str) -> (r: Vec<char>)
    ensures
        r@ == s@,
{
    let mut r: Vec<char> = Vec::new();
    for c in it: s.chars()
        invariant
            r@ == it.seq().take(it.index()),
            it.seq() == s@,
    {
        r.push(c);
    }
    r
}

/// Appends the characters `v[from..to]` to `out`.
pub fn push_chars(out: &mut String, v: &Vec<char>, from: usize, to: usize)
    requires
        from <= to <= v@.len(),
    ensures
        final(out)@ == old(out)@ + v@.subrange(from as int, to as int),
{
    let mut i = from;
    while i < to
        invariant
            from <= i <= to <= v@.len(),
            out@ == old(out)@ + v@.subrange(from as int, i as int),
        decreases to - i,
    {
        push_char_to(out, v[i]);
        assert(v@.subrange(from as int, i + 1) == v@.subrange(from as int, i as int).push(v@[i as int]));
        i += 1;
    }
}

/// A string holding exactly the given characters.
pub fn string_of(v: &Vec<char>) -> (r: String)
    ensures
        r@ == v@,
{
    let mut r = String::new();
    push_chars(&mut r, v, 0, v.len());
    assert(v@.subrange(0, v@.len() as int) == v@);
    r
}

/// Appends a string slice.
pub fn push_str(out: &mut String, s: &str)
    ensures
        final(out)@ == old(out)@ + s@,
{
    out.append(s);
}

/// `n` copies of `c`.
pub open spec fn repeat(c: char, n: nat) -> Seq<char> {
    Seq::new(n, |_i: int| c)
}

/// Appends `n` copies of `c`.
pub fn push_repeat(out: &mut String, c: char, n: usize)
    ensures
        final(out)@ == old(out)@ + repeat(c, n as nat),
{
    let mut i: usize = 0;
    while i < n
        invariant
            i <= n,
            out@ == old(out)@ + repeat(c, i as nat),
        decreases n - i,
    {
        push_char_to(out, c);
        assert(repeat(c, (i + 1) as nat) == repeat(c, i as nat).push(c));
        i += 1;
    }
}

/// The ASCII digit for `d < 10`.
pub open spec fn digit(d: nat) -> char {
    (d + 48) as char
}

/// Decimal representation of `n`, without leading zeros.
pub open spec fn decimal(n: nat) -> Seq<char>
    decreases n,
{
    if n < 10 {
        seq![digit(n)]
    } else {
        decimal(n / 10).push(digit(n % 10))
    }
}

fn digit_char(d: u128) -> (c: char)
    requires
        d < 10,
    ensures
        c == digit(d as nat),
{
    if d == 0 { '0' }
    else if d == 1 { '1' }
    else if d == 2 { '2' }
    else if d == 3 { '3' }
    else if d == 4 { '4' }
    else if d == 5 { '5' }
    else if d == 6 { '6' }
    else if d == 7 { '7' }
    else if d == 8 { '8' }
    else { '9' }
}

/// Appends the decimal representation of `n`.
pub fn push_decimal(out: &mut String, n: u128)
    ensures
        final(out)@ == old(out)@ + decimal(n as nat),
    decreases n,
{
    if n >= 10 {
        push_decimal(out, n / 10);
    }
    push_char_to(out, digit_char(n % 10));
}

/// The decimal representation of `n` as a string.
pub fn decimal_string(n: u128) -> (r: String)
    ensures
        r@ == decimal(n as nat),
{
    let mut r = String::new();
    push_decimal(&mut r, n);
    r
}

/// ASCII lowercase of one character; others are unchanged.
pub open spec fn lower_char(c: char) -> char {
    if 'A' <= c && c <= 'Z' {
        ((c as u32) + 32) as char
    } else {
        c
    }
}

/// ASCII lowercase of a character sequence (`str::to_ascii_lowercase`).
pub open spec fn ascii_lower(s: Seq<char>) -> Seq<char> {
    s.map_values(|c: char| lower_char(c))
}

pub fn lower_char_exec(c: char) -> (r: char)
    ensures
        r == lower_char(c),
{
    if 'A' <= c && c <= 'Z' {
        let b = (c as u8) + 32;
        b as char
    } else {
        c
    }
}

/// ASCII-lowercased copy of `v`.
pub fn ascii_lower_vec(v: &Vec<char>) -> (r: Vec<char>)
    ensures
        r@ == ascii_lower(v@),
{
    let mut r: Vec<char> = Vec::new();
    let mut i: usize = 0;
    while i < v.len()
        invariant
            i <= v@.len(),
            r@ == ascii_lower(v@.take(i as int)),
        decreases v@.len() - i,
    {
        r.push(lower_char_exec(v[i]));
        assert(ascii_lower(v@.take(i + 1)) == ascii_lower(v@.take(i as int)).push(lower_char(v@[i as int])));
        i += 1;
    }
    assert(v@.take(v@.len() as int) == v@);
    r
}

/// `q` occurs in `hay` at position `i`.
pub open spec fn occurs_at(hay: Seq<char>, q: Seq<char>, i: int) -> bool {
    0 <= i && i + q.len() <= hay.len() && hay.subrange(i, i + q.len()) == q
}

/// The first position `>= i` where `q` occurs in `hay` (`str::find` from `i`).
pub open spec fn find_from(hay: Seq<char>, q: Seq<char>, i: nat) -> Option<nat>
    decreases hay.len() + 1 - i,
{
    if i + q.len() > hay.len() {
        None
    } else if occurs_at(hay, q, i as int) {
        Some(i)
    } else {
        find_from(hay, q, i + 1)
    }
}

/// `find_from` returns a match and there is none before it.
pub proof fn lemma_find_from(hay: Seq<char>, q: Seq<char>, i: nat)
    ensures
        match find_from(hay, q, i) {
            Some(p) => p >= i && occurs_at(hay, q, p as int)
                && forall|k: int| i <= k < p ==> !occurs_at(hay, q, k),
            None => forall|k: int| i <= k ==> !occurs_at(hay, q, k),
        },
    decreases hay.len() + 1 - i,
{
    if i + q.len() > hay.len() {
    } else if occurs_at(hay, q, i as int) {
    } else {
        lemma_find_from(hay, q, i + 1);
    }
}

fn occurs_at_exec(hay: &Vec<char>, q: &Vec<char>, i: usize) -> (r: bool)
    requires
        i + q@.len() <= hay@.len(),
    ensures
        r == occurs_at(hay@, q@, i as int),
{
    let n = hay.len();
    let mut j: usize = 0;
    while j < q.len()
        invariant
            n == hay@.len(),
            i + q@.len() <= hay@.len(),
            j <= q@.len(),
            forall|k: int| 0 <= k < j ==> hay@[i + k] == q@[k],
        decreases q@.len() - j,
    {
        if hay[i + j] != q[j] {
            assert(hay@.subrange(i as int, i + q@.len())[j as int] != q@[j as int]);
            return false;
        }
        j += 1;
    }
    assert(hay@.subrange(i as int, i + q@.len()) == q@);
    true
}

/// First occurrence of `q` in `hay` at or after `from`.
pub fn find_chars(hay: &Vec<char>, q: &Vec<char>, from: usize) -> (r: Option<usize>)
    ensures
        r == (match find_from(hay@, q@, from as nat) {
            Some(p) => Some(p as usize),
            None => None::<usize>,
        }),
{
    if q.len() > hay.len() || from > hay.len() - q.len() {
        return None;
    }
    let last = hay.len() - q.len();
    let mut i = from;
    while i <= last
        invariant
            from <= i,
            last + q@.len() == hay@.len(),
            find_from(hay@, q@, from as nat) == find_from(hay@, q@, i as nat),
        decreases last + 1 - i,
    {
        if occurs_at_exec(hay, q, i) {
            return Some(i);
        }
        if i == last {
            assert(find_from(hay@, q@, (i + 1) as nat) == None::<nat>);
            return None;
        }
        i += 1;
    }
    None
}

} // verus!
