//! Recognizing, stripping and highlighting around ANSI escape sequences
//! (CSI and OSC), and case-smart search in plain text.

use vstd::prelude::*;

use crate::style::{
    color_code, join_codes, line_output, link_of, link_switch, osc_close, osc_open, plain_style, sgr, sgr_codes,
    sgr_reset, span_output, spans_output, style_switch, Color, ColorMode, Style,
};
use crate::text::{
    ascii_lower, ascii_lower_vec, chars_of, find_chars, find_from, is_uppercase, push_chars,
    push_str, string_of, unicode_uppercase,
};

verus! {

/// A CSI sequence ends with a character from `@` to `~`.
pub open spec fn is_csi_final(c: char) -> bool {
    '@' <= c && c <= '~'
}

/// Index of the first CSI final character at or after `j`.
pub open spec fn csi_final_from(s: Seq<char>, j: int) -> Option<int>
    decreases s.len() - j,
{
    if j < 0 || j >= s.len() {
        None
    } else if is_csi_final(s[j]) {
        Some(j)
    } else {
        csi_final_from(s, j + 1)
    }
}

/// Length of an OSC sequence whose payload is scanned from `j`: it ends at BEL or
/// at ESC `\`; unterminated, it runs to the end.
pub open spec fn osc_len_from(s: Seq<char>, j: int) -> int
    decreases s.len() - j,
{
    if j < 0 || j >= s.len() {
        s.len() as int
    } else if s[j] == '\x07' {
        j + 1
    } else if s[j] == '\x1b' && j + 1 < s.len() && s[j + 1] == '\\' {
        j + 2
    } else {
        osc_len_from(s, j + 1)
    }
}

/// Length of the CSI or OSC escape sequence at the start of `s`, if any: a lone
/// ESC counts as one character, an unterminated CSI sequence as none. Lengths count
/// characters, as the text is read here, where a byte-wise reading would count bytes;
/// the sequences end at the same character either way.
pub open spec fn escape_len(s: Seq<char>) -> Option<int> {
    if s.len() == 0 || s[0] != '\x1b' {
        None
    } else if s.len() >= 2 && s[1] == '[' {
        match csi_final_from(s, 2) {
            Some(k) => Some(k + 1),
            None => None,
        }
    } else if s.len() >= 2 && s[1] == ']' {
        Some(osc_len_from(s, 2))
    } else {
        Some(1)
    }
}

pub proof fn lemma_csi_final_from(s: Seq<char>, j: int)
    ensures
        csi_final_from(s, j) matches Some(k) ==> j <= k < s.len() && 0 <= k,
    decreases s.len() - j,
{
    if !(j < 0 || j >= s.len()) && !is_csi_final(s[j]) {
        lemma_csi_final_from(s, j + 1);
    }
}

pub proof fn lemma_osc_len_from(s: Seq<char>, j: int)
    requires
        j >= 0,
    ensures
        j < osc_len_from(s, j) <= s.len() || (j >= s.len() && osc_len_from(s, j) == s.len()),
    decreases s.len() - j,
{
    if j < s.len() && s[j] != '\x07' && !(s[j] == '\x1b' && j + 1 < s.len() && s[j + 1] == '\\') {
        lemma_osc_len_from(s, j + 1);
    }
}

/// An escape sequence is at least one character long and lies within `s`.
pub proof fn lemma_escape_len_bounds(s: Seq<char>)
    ensures
        escape_len(s) matches Some(n) ==> 1 <= n <= s.len(),
{
    lemma_csi_final_from(s, 2);
    lemma_osc_len_from(s, 2);
}

/// `s` with every CSI and OSC escape sequence removed.
pub open spec fn stripped(s: Seq<char>) -> Seq<char>
    decreases s.len(),
{
    if s.len() == 0 {
        Seq::empty()
    } else {
        match escape_len(s) {
            Some(n) => if 1 <= n <= s.len() {
                stripped(s.skip(n))
            } else {
                Seq::empty()
            },
            None => seq![s[0]] + stripped(s.skip(1)),
        }
    }
}

/// Length of the escape sequence at `v[i..]`, as `escape_len` of that suffix.
fn escape_len_at(v: &Vec<char>, i: usize) -> (r: Option<usize>)
    requires
        i <= v@.len(),
    ensures
        match escape_len(v@.skip(i as int)) {
            Some(n) => r == Some(n as usize),
            None => r is None,
        },
{
    let ghost s = v@.skip(i as int);
    let n = v.len();
    if i >= n || v[i] != '\x1b' {
        return None;
    }
    assert(s[0] == v@[i as int]);
    assert(i + 1 < n ==> s[1] == v@[i + 1]);
    if i + 1 < n && v[i + 1] == '[' {
        let mut k = i + 2;
        while k < n
            invariant
                i + 2 <= k <= n,
                n == v@.len(),
                s == v@.skip(i as int),
                csi_final_from(s, 2) == csi_final_from(s, k - i),
                s.len() >= 2 && s[0] == '\x1b' && s[1] == '[',
            decreases n - k,
        {
            assert(s[(k - i) as int] == v@[k as int]);
            if '@' <= v[k] && v[k] <= '~' {
                assert(csi_final_from(s, (k - i) as int) == Some((k - i) as int));
                return Some(k - i + 1);
            }
            k += 1;
        }
        assert(csi_final_from(s, (k - i) as int) == None::<int>);
        return None;
    }
    if i + 1 < n && v[i + 1] == ']' {
        let mut j = i + 2;
        while j < n
            invariant
                i + 2 <= j <= n,
                n == v@.len(),
                s == v@.skip(i as int),
                osc_len_from(s, 2) == osc_len_from(s, j - i),
                s.len() >= 2 && s[0] == '\x1b' && s[1] == ']',
            decreases n - j,
        {
            assert(s[(j - i) as int] == v@[j as int]);
            if v[j] == '\x07' {
                assert(osc_len_from(s, (j - i) as int) == j - i + 1);
                return Some(j - i + 1);
            }
            if v[j] == '\x1b' && j + 1 < n && v[j + 1] == '\\' {
                assert(s[(j + 1 - i) as int] == v@[j + 1]);
                assert(osc_len_from(s, (j - i) as int) == j - i + 2);
                return Some(j - i + 2);
            }
            j += 1;
        }
        assert(osc_len_from(s, (j - i) as int) == n - i);
        return Some(n - i);
    }
    Some(1)
}

/// The characters of `v[i..]` with escape sequences removed.
fn strip_from(v: &Vec<char>, out: &mut String)
    ensures
        final(out)@ == old(out)@ + stripped(v@),
{
    let n = v.len();
    let mut i: usize = 0;
    assert(v@.skip(0) == v@);
    while i < n
        invariant
            i <= n,
            n == v@.len(),
            old(out)@ + stripped(v@) == out@ + stripped(v@.skip(i as int)),
        decreases n - i,
    {
        let ghost s = v@.skip(i as int);
        proof {
            lemma_escape_len_bounds(s);
        }
        match escape_len_at(v, i) {
            Some(len) => {
                assert(s.skip(len as int) == v@.skip(i + len));
                i += len;
            },
            None => {
                push_chars(out, v, i, i + 1);
                assert(v@.subrange(i as int, i + 1) == seq![s[0]]);
                assert(s.skip(1) == v@.skip(i + 1));
                i += 1;
            },
        }
    }
    assert(v@.skip(n as int) == Seq::<char>::empty());
}

/// Text without escape characters is its own stripped text.
pub proof fn lemma_stripped_plain(s: Seq<char>)
    requires
        !s.contains('\x1b'),
    ensures
        stripped(s) == s,
    decreases s.len(),
{
    if s.len() > 0 {
        assert(s[0] != '\x1b');
        assert(!s.skip(1).contains('\x1b')) by {
            if s.skip(1).contains('\x1b') {
                let k = choose|k: int| 0 <= k < s.skip(1).len() && s.skip(1)[k] == '\x1b';
                assert(s[k + 1] == '\x1b');
            }
        }
        lemma_stripped_plain(s.skip(1));
        assert(seq![s[0]] + s.skip(1) =~= s);
    }
}

/// No character of `t` from `j` on ends a CSI sequence.
pub open spec fn no_final_from(t: Seq<char>, j: int) -> bool {
    forall|k: int| j <= k < t.len() ==> !is_csi_final(#[trigger] t[k])
}

proof fn lemma_csi_none(t: Seq<char>, j: int)
    requires
        0 <= j,
    ensures
        csi_final_from(t, j) is None <==> no_final_from(t, j),
    decreases t.len() - j,
{
    if j < t.len() && !is_csi_final(t[j]) {
        lemma_csi_none(t, j + 1);
        assert forall|k: int| j + 1 <= k < t.len() && no_final_from(t, j + 1) implies !is_csi_final(#[trigger] t[k]) by {}
    }
}

/// Every escape character of `t` starts a CSI sequence that never ends.
pub open spec fn inert(t: Seq<char>) -> bool {
    forall|i: int|
        0 <= i < t.len() && #[trigger] t[i] == '\x1b' ==> i + 1 < t.len() && t[i + 1] == '[' && no_final_from(t, i + 2)
}

proof fn lemma_inert_stripped_id(t: Seq<char>)
    requires
        inert(t),
    ensures
        stripped(t) == t,
    decreases t.len(),
{
    if t.len() > 0 {
        let u = t.skip(1);
        assert forall|i: int| 0 <= i < u.len() && #[trigger] u[i] == '\x1b' implies i + 1 < u.len() && u[i + 1] == '['
            && no_final_from(u, i + 2) by {
            assert(t[i + 1] == '\x1b');
            assert forall|k: int| i + 2 <= k < u.len() implies !is_csi_final(#[trigger] u[k]) by {
                assert(u[k] == t[k + 1]);
            }
        }
        lemma_inert_stripped_id(u);
        if t[0] == '\x1b' {
            lemma_csi_none(t, 2);
        }
        assert(escape_len(t) is None);
        assert(seq![t[0]] + u =~= t);
    }
}

proof fn lemma_stripped_no_final(s: Seq<char>)
    requires
        no_final_from(s, 0),
    ensures
        no_final_from(stripped(s), 0),
    decreases s.len(),
{
    if s.len() > 0 {
        lemma_escape_len_bounds(s);
        match escape_len(s) {
            Some(n) => {
                assert forall|k: int| 0 <= k < s.skip(n).len() implies !is_csi_final(#[trigger] s.skip(n)[k]) by {
                    assert(s.skip(n)[k] == s[k + n]);
                }
                lemma_stripped_no_final(s.skip(n));
            },
            None => {
                assert forall|k: int| 0 <= k < s.skip(1).len() implies !is_csi_final(#[trigger] s.skip(1)[k]) by {
                    assert(s.skip(1)[k] == s[k + 1]);
                }
                lemma_stripped_no_final(s.skip(1));
                let o = stripped(s);
                assert(o == seq![s[0]] + stripped(s.skip(1)));
                assert forall|k: int| 0 <= k < o.len() implies !is_csi_final(#[trigger] o[k]) by {
                    if k > 0 {
                        assert(o[k] == stripped(s.skip(1))[k - 1]);
                    }
                }
            },
        }
    }
}

proof fn lemma_stripped_inert(s: Seq<char>)
    ensures
        inert(stripped(s)),
    decreases s.len(),
{
    if s.len() > 0 {
        lemma_escape_len_bounds(s);
        match escape_len(s) {
            Some(n) => {
                lemma_stripped_inert(s.skip(n));
            },
            None => {
                let o = stripped(s);
                if s[0] == '\x1b' {
                    assert(s.len() >= 2 && s[1] == '[');
                    assert(csi_final_from(s, 2) is None);
                    lemma_csi_none(s, 2);
                    let s2 = s.skip(2);
                    assert forall|k: int| 0 <= k < s2.len() implies !is_csi_final(#[trigger] s2[k]) by {
                        assert(s2[k] == s[k + 2]);
                    }
                    lemma_stripped_no_final(s2);
                    lemma_stripped_inert(s2);
                    let x = stripped(s2);
                    assert(s.skip(1)[0] == '[');
                    assert(s.skip(1).skip(1) =~= s2);
                    assert(escape_len(s.skip(1)) is None);
                    assert(stripped(s.skip(1)) == seq!['['] + x);
                    assert(o == seq!['\x1b'] + (seq!['['] + x));
                    assert forall|i: int| 0 <= i < o.len() && #[trigger] o[i] == '\x1b' implies i + 1 < o.len() && o[i + 1]
                        == '[' && no_final_from(o, i + 2) by {
                        if i == 0 {
                            assert forall|k: int| 2 <= k < o.len() implies !is_csi_final(#[trigger] o[k]) by {
                                assert(o[k] == x[k - 2]);
                            }
                        } else {
                            assert(i >= 2);
                            assert(x[i - 2] == '\x1b');
                            assert(o[i + 1] == x[i - 1]);
                            assert forall|k: int| i + 2 <= k < o.len() implies !is_csi_final(#[trigger] o[k]) by {
                                assert(o[k] == x[k - 2]);
                            }
                        }
                    }
                } else {
                    lemma_stripped_inert(s.skip(1));
                    let x = stripped(s.skip(1));
                    assert(o == seq![s[0]] + x);
                    assert forall|i: int| 0 <= i < o.len() && #[trigger] o[i] == '\x1b' implies i + 1 < o.len() && o[i + 1]
                        == '[' && no_final_from(o, i + 2) by {
                        assert(i >= 1);
                        assert(x[i - 1] == '\x1b');
                        assert(o[i + 1] == x[i]);
                        assert forall|k: int| i + 2 <= k < o.len() implies !is_csi_final(#[trigger] o[k]) by {
                            assert(o[k] == x[k - 1]);
                        }
                    }
                }
            },
        }
    }
}

/// Stripping twice strips no more than once.
pub proof fn lemma_strip_idempotent(s: Seq<char>)
    ensures
        stripped(stripped(s)) == stripped(s),
{
    lemma_stripped_inert(s);
    lemma_inert_stripped_id(stripped(s));
}


/// Characters that may stand in the parameters of a CSI sequence: digits and `;`.
pub open spec fn csi_params(s: Seq<char>) -> bool {
    forall|k: int| 0 <= k < s.len() ==> '0' <= #[trigger] s[k] && s[k] <= ';'
}

proof fn lemma_params_concat(a: Seq<char>, b: Seq<char>)
    requires
        csi_params(a),
        csi_params(b),
    ensures
        csi_params(a + b),
{
    assert forall|k: int| 0 <= k < (a + b).len() implies '0' <= #[trigger] (a + b)[k] && (a + b)[k] <= ';' by {
        if k < a.len() {
            assert((a + b)[k] == a[k]);
        } else {
            assert((a + b)[k] == b[k - a.len()]);
        }
    }
}

proof fn lemma_decimal_params(n: nat)
    ensures
        csi_params(crate::text::decimal(n)),
    decreases n,
{
    if n >= 10 {
        lemma_decimal_params(n / 10);
        let d = crate::text::decimal(n / 10);
        assert(crate::text::decimal(n) == d.push(crate::text::digit(n % 10)));
        assert forall|k: int| 0 <= k < d.push(crate::text::digit(n % 10)).len() implies '0' <= #[trigger] d.push(
            crate::text::digit(n % 10),
        )[k] && d.push(crate::text::digit(n % 10))[k] <= ';' by {
            if k < d.len() {
                assert(d.push(crate::text::digit(n % 10))[k] == d[k]);
            }
        }
    }
}

proof fn lemma_color_params(mode: ColorMode, c: Color, bg: bool)
    ensures
        csi_params(color_code(mode, c, bg)),
{
    reveal_strlit(";5;");
    reveal_strlit(";2;");
    let base: nat = if bg { 40 } else { 30 };
    lemma_decimal_params(base + 8);
    assert(csi_params(";5;"@));
    assert(csi_params(";2;"@));
    assert(csi_params(seq![';']));
    match c {
        Color::Ansi(n) => {
            if n < 8 {
                lemma_decimal_params((base + n) as nat);
            } else if n < 16 {
                lemma_decimal_params((base + 60 + n - 8) as nat);
            } else {
                lemma_decimal_params(n as nat);
                lemma_params_concat(crate::text::decimal(base + 8), ";5;"@);
                lemma_params_concat(crate::text::decimal(base + 8) + ";5;"@, crate::text::decimal(n as nat));
            }
        },
        Color::Rgb(r, g, b) => {
            match mode {
                ColorMode::TrueColor => {
                    lemma_decimal_params(r as nat);
                    lemma_decimal_params(g as nat);
                    lemma_decimal_params(b as nat);
                    let s1 = crate::text::decimal(base + 8) + ";2;"@;
                    lemma_params_concat(crate::text::decimal(base + 8), ";2;"@);
                    let s2 = s1 + crate::text::decimal(r as nat);
                    lemma_params_concat(s1, crate::text::decimal(r as nat));
                    let s3 = s2 + seq![';'];
                    lemma_params_concat(s2, seq![';']);
                    let s4 = s3 + crate::text::decimal(g as nat);
                    lemma_params_concat(s3, crate::text::decimal(g as nat));
                    let s5 = s4 + seq![';'];
                    lemma_params_concat(s4, seq![';']);
                    lemma_params_concat(s5, crate::text::decimal(b as nat));
                },
                _ => {
                    lemma_decimal_params(crate::style::palette_index(r, g, b) as nat);
                    lemma_params_concat(crate::text::decimal(base + 8), ";5;"@);
                    lemma_params_concat(
                        crate::text::decimal(base + 8) + ";5;"@,
                        crate::text::decimal(crate::style::palette_index(r, g, b) as nat),
                    );
                },
            }
        },
    }
}

/// Every code of `cs` has only CSI parameter characters.
pub open spec fn all_params(cs: Seq<Seq<char>>) -> bool {
    forall|i: int| 0 <= i < cs.len() ==> csi_params(#[trigger] cs[i])
}

proof fn lemma_all_params_concat(a: Seq<Seq<char>>, b: Seq<Seq<char>>)
    requires
        all_params(a),
        all_params(b),
    ensures
        all_params(a + b),
{
    assert forall|i: int| 0 <= i < (a + b).len() implies csi_params(#[trigger] (a + b)[i]) by {
        if i < a.len() {
            assert((a + b)[i] == a[i]);
        } else {
            assert((a + b)[i] == b[i - a.len()]);
        }
    }
}

proof fn lemma_join_params(cs: Seq<Seq<char>>)
    requires
        all_params(cs),
    ensures
        csi_params(join_codes(cs)),
    decreases cs.len(),
{
    if cs.len() == 1 {
        assert(csi_params(cs[0]));
    } else if cs.len() > 1 {
        assert forall|i: int| 0 <= i < cs.drop_last().len() implies csi_params(#[trigger] cs.drop_last()[i]) by {
            assert(cs.drop_last()[i] == cs[i]);
        }
        lemma_join_params(cs.drop_last());
        assert(csi_params(cs.last()));
        assert(csi_params(seq![';']));
        lemma_params_concat(join_codes(cs.drop_last()), seq![';']);
        lemma_params_concat(join_codes(cs.drop_last()) + seq![';'], cs.last());
    }
}

proof fn lemma_sgr_params(mode: ColorMode, st: Style)
    ensures
        csi_params(join_codes(sgr_codes(mode, st))),
{
    assert forall|c: char| '0' <= c && c <= ';' implies all_params(#[trigger] seq![seq![c]]) by {
        assert(csi_params(seq![c]));
    }
    let e = Seq::<Seq<char>>::empty();
    assert(all_params(e));
    let p1 = if st.bold { seq![seq!['1']] } else { e };
    let p2 = if st.dim { seq![seq!['2']] } else { e };
    let p3 = if st.italic { seq![seq!['3']] } else { e };
    let p4 = if st.underline { seq![seq!['4']] } else { e };
    let p5 = if st.strike { seq![seq!['9']] } else { e };
    let p6 = match st.fg {
        Some(c) => seq![color_code(mode, c, false)],
        None => e,
    };
    let p7 = match st.bg {
        Some(c) => seq![color_code(mode, c, true)],
        None => e,
    };
    assert(all_params(seq![seq!['1']]));
    assert(all_params(seq![seq!['2']]));
    assert(all_params(seq![seq!['3']]));
    assert(all_params(seq![seq!['4']]));
    assert(all_params(seq![seq!['9']]));
    if let Some(c) = st.fg {
        lemma_color_params(mode, c, false);
        assert(all_params(seq![color_code(mode, c, false)]));
    }
    if let Some(c) = st.bg {
        lemma_color_params(mode, c, true);
        assert(all_params(seq![color_code(mode, c, true)]));
    }
    lemma_all_params_concat(p1, p2);
    lemma_all_params_concat(p1 + p2, p3);
    lemma_all_params_concat(p1 + p2 + p3, p4);
    lemma_all_params_concat(p1 + p2 + p3 + p4, p5);
    lemma_all_params_concat(p1 + p2 + p3 + p4 + p5, p6);
    lemma_all_params_concat(p1 + p2 + p3 + p4 + p5 + p6, p7);
    assert(sgr_codes(mode, st) == p1 + p2 + p3 + p4 + p5 + p6 + p7);
    lemma_join_params(sgr_codes(mode, st));
}

proof fn lemma_csi_scan(s: Seq<char>, j: int, k: int)
    requires
        0 <= j <= k < s.len(),
        forall|m: int| j <= m < k ==> !is_csi_final(#[trigger] s[m]),
        is_csi_final(s[k]),
    ensures
        csi_final_from(s, j) == Some(k),
    decreases k - j,
{
    if j < k {
        lemma_csi_scan(s, j + 1, k);
    }
}

proof fn lemma_osc_scan(s: Seq<char>, j: int, k: int)
    requires
        0 <= j <= k,
        k + 1 < s.len(),
        forall|m: int| j <= m < k ==> #[trigger] s[m] != '\x07' && s[m] != '\x1b',
        s[k] == '\x1b',
        s[k + 1] == '\\',
    ensures
        osc_len_from(s, j) == k + 2,
    decreases k - j,
{
    if j < k {
        lemma_osc_scan(s, j + 1, k);
    }
}

/// A CSI sequence with parameters `p` and final `m` strips away, whatever follows.
proof fn lemma_csi_gone(p: Seq<char>, rest: Seq<char>)
    requires
        csi_params(p),
    ensures
        stripped(("\x1b["@ + p + seq!['m']) + rest) == stripped(rest),
{
    reveal_strlit("\x1b[");
    let e = "\x1b["@ + p + seq!['m'];
    let s = e + rest;
    assert(s[0] == '\x1b' && s[1] == '[');
    assert forall|m: int| 2 <= m < 2 + p.len() implies !is_csi_final(#[trigger] s[m]) by {
        assert(s[m] == p[m - 2]);
    }
    let f: int = 2 + p.len() as int;
    assert(s[f] == 'm');
    lemma_csi_scan(s, 2, f);
    assert(escape_len(s) == Some(e.len() as int));
    lemma_stripped_escape(e, rest);
}

/// A hyperlink opening to a URL without ESC or BEL strips away, whatever follows.
proof fn lemma_osc_gone(url: Seq<char>, rest: Seq<char>)
    requires
        !url.contains('\x1b'),
        !url.contains('\x07'),
    ensures
        stripped(osc_open(url) + rest) == stripped(rest),
{
    reveal_strlit("\x1b]8;;");
    reveal_strlit("\x1b\\");
    let e = osc_open(url);
    let s = e + rest;
    assert(s[0] == '\x1b' && s[1] == ']');
    let k: int = 5 + url.len() as int;
    assert forall|m: int| 2 <= m < k implies #[trigger] s[m] != '\x07' && s[m] != '\x1b' by {
        if m >= 5 {
            assert(s[m] == url[m - 5]);
        }
    }
    assert(s[k] == '\x1b' && s[k + 1] == '\\');
    lemma_osc_scan(s, 2, k);
    assert(escape_len(s) == Some(e.len() as int));
    lemma_stripped_escape(e, rest);
}

proof fn lemma_close_gone(rest: Seq<char>)
    ensures
        stripped(osc_close() + rest) == stripped(rest),
{
    reveal_strlit("\x1b]8;;\x1b\\");
    reveal_strlit("\x1b]8;;");
    reveal_strlit("\x1b\\");
    assert(osc_close() =~= osc_open(Seq::empty()));
    lemma_osc_gone(Seq::empty(), rest);
}

proof fn lemma_reset_gone(rest: Seq<char>)
    ensures
        stripped(sgr_reset() + rest) == stripped(rest),
{
    reveal_strlit("\x1b[0m");
    reveal_strlit("\x1b[");
    assert(csi_params(seq!['0']));
    assert(sgr_reset() =~= "\x1b["@ + seq!['0'] + seq!['m']);
    lemma_csi_gone(seq!['0'], rest);
}

/// Text without ESC comes through stripping as it is.
proof fn lemma_text_through(t: Seq<char>, rest: Seq<char>)
    requires
        !t.contains('\x1b'),
    ensures
        stripped(t + rest) == t + stripped(rest),
    decreases t.len(),
{
    if t.len() == 0 {
        assert(t + rest =~= rest);
        assert(t + stripped(rest) =~= stripped(rest));
    } else {
        assert(t[0] != '\x1b');
        let u = t.skip(1);
        assert(!u.contains('\x1b')) by {
            if u.contains('\x1b') {
                let k = choose|k: int| 0 <= k < u.len() && u[k] == '\x1b';
                assert(t[k + 1] == '\x1b');
            }
        }
        lemma_text_through(u, rest);
        assert(t + rest =~= seq![t[0]] + (u + rest));
        lemma_stripped_visible(t[0], u + rest);
        assert(seq![t[0]] + (u + stripped(rest)) =~= t + stripped(rest));
    }
}

/// What switching style and link writes strips away, whatever follows.
proof fn lemma_switch_gone(
    mode: ColorMode,
    links: Seq<Seq<char>>,
    cur: Style,
    cur_link: u32,
    link: u32,
    st: Style,
    rest: Seq<char>,
)
    requires
        forall|i: int| 0 <= i < links.len() ==> !(#[trigger] links[i]).contains('\x1b') && !links[i].contains('\x07'),
        link <= links.len(),
    ensures
        stripped(link_switch(links, cur_link, link) + style_switch(mode, cur, st).0 + rest) == stripped(rest),
{
    let bare = Style { link: 0, ..st };
    let sw = style_switch(mode, cur, st).0;
    assert(stripped(sw + rest) == stripped(rest)) by {
        if mode != ColorMode::NoColor && bare != cur {
            let g = sgr(mode, bare);
            assert(stripped(g + rest) == stripped(rest)) by {
                if bare != plain_style() {
                    lemma_sgr_params(mode, bare);
                    lemma_csi_gone(join_codes(sgr_codes(mode, bare)), rest);
                } else {
                    assert(g + rest =~= rest);
                }
            }
            if cur != plain_style() {
                lemma_reset_gone(g + rest);
                assert(sw + rest =~= sgr_reset() + (g + rest));
            } else {
                assert(sw + rest =~= g + rest);
            }
        } else {
            assert(sw + rest =~= rest);
        }
    }
    let ls = link_switch(links, cur_link, link);
    if link != cur_link {
        let op = if link != 0 { osc_open(links[link - 1]) } else { Seq::empty() };
        assert(stripped(op + (sw + rest)) == stripped(sw + rest)) by {
            if link != 0 {
                lemma_osc_gone(links[link - 1], sw + rest);
            } else {
                assert(op + (sw + rest) =~= sw + rest);
            }
        }
        if cur_link != 0 {
            lemma_close_gone(op + (sw + rest));
            assert(ls + sw + rest =~= osc_close() + (op + (sw + rest)));
        } else {
            assert(ls + sw + rest =~= op + (sw + rest));
        }
    } else {
        assert(ls + sw + rest =~= sw + rest);
    }
}

/// The conditions under which a line's output strips to its text: no ESC in the
/// texts, no ESC or BEL in the link targets, and every link a span is written with known.
pub open spec fn strippable(hyperlinks: bool, links: Seq<Seq<char>>, spans: Seq<(Seq<char>, Style)>) -> bool {
    &&& forall|i: int| 0 <= i < spans.len() ==> !(#[trigger] spans[i]).0.contains('\x1b')
    &&& forall|i: int| 0 <= i < links.len() ==> !(#[trigger] links[i]).contains('\x1b') && !links[i].contains('\x07')
    &&& hyperlinks ==> forall|i: int|
        0 <= i < spans.len() && (#[trigger] spans[i]).0.len() > 0 ==> spans[i].1.link <= links.len()
}

proof fn lemma_spans_output_stripped(
    mode: ColorMode,
    hyperlinks: bool,
    links: Seq<Seq<char>>,
    spans: Seq<(Seq<char>, Style)>,
    rest: Seq<char>,
)
    requires
        strippable(hyperlinks, links, spans),
    ensures
        stripped(spans_output(mode, hyperlinks, links, spans).0 + rest) == crate::wrap::line_text(spans) + stripped(rest),
    decreases spans.len(),
{
    if spans.len() == 0 {
        assert(spans_output(mode, hyperlinks, links, spans).0 + rest =~= rest);
        assert(crate::wrap::line_text(spans) + stripped(rest) =~= stripped(rest));
    } else {
        let dl = spans.drop_last();
        assert(strippable(hyperlinks, links, dl)) by {
            assert forall|i: int| 0 <= i < dl.len() implies !(#[trigger] dl[i]).0.contains('\x1b') by {
                assert(dl[i] == spans[i]);
            }
            if hyperlinks {
                assert forall|i: int| 0 <= i < dl.len() && (#[trigger] dl[i]).0.len() > 0 implies dl[i].1.link <= links.len() by {
                    assert(dl[i] == spans[i]);
                }
            }
        }
        let prev = spans_output(mode, hyperlinks, links, dl);
        let t = spans.last().0;
        let st = spans.last().1;
        assert(spans.last() == spans[spans.len() - 1]);
        let step = span_output(mode, hyperlinks, links, prev.1, prev.2, t, st);
        let r2 = step.0 + rest;
        lemma_spans_output_stripped(mode, hyperlinks, links, dl, r2);
        assert(spans_output(mode, hyperlinks, links, spans).0 + rest =~= prev.0 + r2);
        assert(stripped(r2) == t + stripped(rest)) by {
            if t.len() == 0 {
                assert(r2 =~= rest);
                assert(t + stripped(rest) =~= stripped(rest));
            } else {
                let link = link_of(hyperlinks, st);
                lemma_text_through(t, rest);
                lemma_switch_gone(mode, links, prev.1, prev.2, link, st, t + rest);
                assert(r2 =~= link_switch(links, prev.2, link) + style_switch(mode, prev.1, st).0 + (t + rest));
            }
        }
        assert(crate::wrap::line_text(spans) == crate::wrap::line_text(dl) + t);
        assert(crate::wrap::line_text(dl) + (t + stripped(rest)) =~= crate::wrap::line_text(spans) + stripped(rest));
    }
}

/// A written line strips to its spans' text and a line feed, where the texts hold no
/// ESC, the link targets no ESC or BEL, and every link a span is written with is known.
pub proof fn lemma_line_output_stripped(
    mode: ColorMode,
    hyperlinks: bool,
    links: Seq<Seq<char>>,
    spans: Seq<(Seq<char>, Style)>,
)
    requires
        strippable(hyperlinks, links, spans),
    ensures
        stripped(line_output(mode, hyperlinks, links, spans)) == crate::wrap::line_text(spans) + seq!['\n'],
{
    let r = spans_output(mode, hyperlinks, links, spans);
    let reset = if r.1 != plain_style() { sgr_reset() } else { Seq::empty() };
    let close = if r.2 != 0 { osc_close() } else { Seq::empty() };
    let nl = seq!['\n'];
    assert(stripped(nl) == nl) by {
        assert(!nl.contains('\x1b'));
        lemma_text_through(nl, Seq::empty());
        assert(nl + Seq::<char>::empty() =~= nl);
        assert(stripped(Seq::<char>::empty()) == Seq::<char>::empty());
    }
    assert(stripped(close + nl) == nl) by {
        if r.2 != 0 {
            lemma_close_gone(nl);
        } else {
            assert(close + nl =~= nl);
        }
    }
    assert(stripped(reset + (close + nl)) == nl) by {
        if r.1 != plain_style() {
            lemma_reset_gone(close + nl);
        } else {
            assert(reset + (close + nl) =~= close + nl);
        }
    }
    lemma_spans_output_stripped(mode, hyperlinks, links, spans, reset + (close + nl));
    assert(line_output(mode, hyperlinks, links, spans) =~= r.0 + (reset + (close + nl)));
}


/// `s` with every CSI and OSC escape sequence removed.
pub fn strip_ansi(s: &str) -> (r: String)
    ensures
        r@ == stripped(s@),
{
    let v = chars_of(s);
    let mut out = String::new();
    strip_from(&v, &mut out);
    out
}

/// Whether `q` contains an uppercase letter.
pub open spec fn has_upper(q: Seq<char>) -> bool {
    exists|i: int| 0 <= i < q.len() && unicode_uppercase(#[trigger] q[i])
}

/// Position of the first match of `q` in `hay`: exact when `q` has an uppercase
/// letter, ASCII case-insensitive otherwise ("smart case"). Positions count characters,
/// not UTF-8 bytes as `str::find` does: this library reads text as characters throughout,
/// and the search highlighting that uses these positions walks the line by characters.
pub open spec fn find_in(hay: Seq<char>, q: Seq<char>) -> Option<nat> {
    if has_upper(q) {
        find_from(hay, q, 0)
    } else {
        find_from(ascii_lower(hay), ascii_lower(q), 0)
    }
}

fn has_upper_exec(q: &Vec<char>) -> (r: bool)
    ensures
        r == has_upper(q@),
{
    let mut i: usize = 0;
    while i < q.len()
        invariant
            i <= q@.len(),
            forall|k: int| 0 <= k < i ==> !unicode_uppercase(#[trigger] q@[k]),
        decreases q@.len() - i,
    {
        if is_uppercase(q[i]) {
            return true;
        }
        i += 1;
    }
    false
}

/// `find_in` over character vectors, searching `hay[from..]`; the result is
/// relative to `from`.
fn find_in_from(hay: &Vec<char>, q: &Vec<char>, from: usize) -> (r: Option<usize>)
    requires
        from <= hay@.len(),
    ensures
        r == (match find_in(hay@.skip(from as int), q@) {
            Some(p) => Some(p as usize),
            None => None::<usize>,
        }),
{
    let tail = slice_from(hay, from);
    if has_upper_exec(q) {
        find_chars(&tail, q, 0)
    } else {
        let lh = ascii_lower_vec(&tail);
        let lq = ascii_lower_vec(q);
        find_chars(&lh, &lq, 0)
    }
}

fn slice_from(v: &Vec<char>, from: usize) -> (r: Vec<char>)
    requires
        from <= v@.len(),
    ensures
        r@ == v@.skip(from as int),
{
    let mut r: Vec<char> = Vec::new();
    let mut i = from;
    while i < v.len()
        invariant
            from <= i <= v@.len(),
            r@ == v@.subrange(from as int, i as int),
        decreases v@.len() - i,
    {
        r.push(v[i]);
        assert(v@.subrange(from as int, i + 1) == v@.subrange(from as int, i as int).push(v@[i as int]));
        i += 1;
    }
    assert(v@.subrange(from as int, v@.len() as int) == v@.skip(from as int));
    r
}

/// Position of the first match of `q` in `hay` ("smart case"), counted in characters
/// (see `find_in`); the pager only asks whether there is one.
pub fn find_in_str(hay: &str, q: &str) -> (r: Option<usize>)
    ensures
        r == (match find_in(hay@, q@) {
            Some(p) => Some(p as usize),
            None => None::<usize>,
        }),
{
    let h = chars_of(hay);
    let qv = chars_of(q);
    assert(h@.skip(0) == h@);
    find_in_from(&h, &qv, 0)
}

/// `q` matches `hay` at position `k`, letter for letter: exactly where `q` has an
/// uppercase letter, and without regard to ASCII case otherwise.
pub open spec fn smart_match_at(hay: Seq<char>, q: Seq<char>, k: int) -> bool {
    &&& 0 <= k
    &&& k + q.len() <= hay.len()
    &&& forall|j: int|
        0 <= j < q.len() ==> if has_upper(q) {
            #[trigger] hay[k + j] == q[j]
        } else {
            crate::text::lower_char(#[trigger] hay[k + j]) == crate::text::lower_char(q[j])
        }
}

proof fn lemma_occurs_exact(hay: Seq<char>, q: Seq<char>, k: int)
    requires
        has_upper(q),
    ensures
        crate::text::occurs_at(hay, q, k) == smart_match_at(hay, q, k),
{
    if 0 <= k && k + q.len() <= hay.len() {
        if smart_match_at(hay, q, k) {
            assert(hay.subrange(k, k + q.len()) =~= q) by {
                assert forall|j: int| 0 <= j < q.len() implies hay.subrange(k, k + q.len())[j] == q[j] by {
                    assert(hay[k + j] == q[j]);
                }
            }
        }
        if crate::text::occurs_at(hay, q, k) {
            assert forall|j: int| 0 <= j < q.len() implies #[trigger] hay[k + j] == q[j] by {
                assert(hay.subrange(k, k + q.len())[j] == hay[k + j]);
            }
        }
    }
}

proof fn lemma_occurs_folded(hay: Seq<char>, q: Seq<char>, k: int)
    requires
        !has_upper(q),
    ensures
        crate::text::occurs_at(ascii_lower(hay), ascii_lower(q), k) == smart_match_at(hay, q, k),
{
    let lh = ascii_lower(hay);
    let lq = ascii_lower(q);
    if 0 <= k && k + q.len() <= hay.len() {
        if smart_match_at(hay, q, k) {
            assert(lh.subrange(k, k + q.len()) =~= lq) by {
                assert forall|j: int| 0 <= j < q.len() implies lh.subrange(k, k + q.len())[j] == lq[j] by {
                    assert(crate::text::lower_char(hay[k + j]) == crate::text::lower_char(q[j]));
                }
            }
        }
        if crate::text::occurs_at(lh, lq, k) {
            assert forall|j: int| 0 <= j < q.len() implies crate::text::lower_char(#[trigger] hay[k + j])
                == crate::text::lower_char(q[j]) by {
                assert(lh.subrange(k, k + q.len())[j] == lh[k + j]);
                assert(lq[j] == crate::text::lower_char(q[j]));
            }
        }
    }
}

/// Smart-case search finds the first match: `find_in` gives the least position where
/// `q` matches `hay` (exactly when `q` has an uppercase letter, without regard to ASCII
/// case otherwise), and none where it matches nowhere.
pub proof fn lemma_find_in_smart_case(hay: Seq<char>, q: Seq<char>)
    ensures
        match find_in(hay, q) {
            Some(p) => smart_match_at(hay, q, p as int) && forall|k: int| 0 <= k < p ==> !smart_match_at(hay, q, k),
            None => forall|k: int| !smart_match_at(hay, q, k),
        },
{
    if has_upper(q) {
        crate::text::lemma_find_from(hay, q, 0);
        assert forall|k: int| crate::text::occurs_at(hay, q, k) == smart_match_at(hay, q, k) by {
            lemma_occurs_exact(hay, q, k);
        }
    } else {
        crate::text::lemma_find_from(ascii_lower(hay), ascii_lower(q), 0);
        assert forall|k: int| crate::text::occurs_at(ascii_lower(hay), ascii_lower(q), k) == smart_match_at(hay, q, k) by {
            lemma_occurs_folded(hay, q, k);
        }
    }
}

/// A query without uppercase letters finds the same in a text as in its ASCII
/// lowercase copy: the search ignores the text's case.
pub proof fn lemma_find_in_ignores_case(hay: Seq<char>, q: Seq<char>)
    requires
        !has_upper(q),
    ensures
        find_in(hay, q) == find_in(ascii_lower(hay), q),
{
    let lh = ascii_lower(hay);
    assert(ascii_lower(lh) =~= lh) by {
        assert forall|i: int| 0 <= i < lh.len() implies ascii_lower(lh)[i] == lh[i] by {
            let c = hay[i];
            if 'A' <= c && c <= 'Z' {
                assert(crate::text::lower_char(c) as u32 == c as u32 + 32);
            }
        }
    }
}

/// A query that matches nowhere leaves the line as it is.
pub proof fn lemma_highlight_no_match(line: Seq<char>, plain: Seq<char>, q: Seq<char>)
    requires
        find_in(plain, q) is None,
    ensures
        highlighted(line, plain, q) == line,
{
    assert(plain.skip(0) =~= plain);
}

/// A match of `find_in` lies within the searched text.
pub proof fn lemma_find_in_bounds(hay: Seq<char>, q: Seq<char>)
    ensures
        find_in(hay, q) matches Some(p) ==> p + q.len() <= hay.len(),
{
    if has_upper(q) {
        crate::text::lemma_find_from(hay, q, 0);
    } else {
        crate::text::lemma_find_from(ascii_lower(hay), ascii_lower(q), 0);
    }
}

/// Starting positions of the successive matches of `q` in `plain`, searching from
/// `from`; after a match the search resumes past it (at least one character on).
pub open spec fn match_starts(plain: Seq<char>, q: Seq<char>, from: int) -> Seq<int>
    decreases plain.len() + 1 - from,
{
    if from < 0 || from > plain.len() {
        Seq::empty()
    } else {
        match find_in(plain.skip(from), q) {
            Some(p) => {
                let start = from + p;
                let next = start + (if q.len() > 1 { q.len() as int } else { 1int });
                if next >= plain.len() {
                    seq![start]
                } else {
                    seq![start] + match_starts(plain, q, next)
                }
            },
            None => Seq::empty(),
        }
    }
}

/// Reverse video on.
pub open spec fn rev_on() -> Seq<char> {
    "\x1b[7m"@
}

/// Reverse video off.
pub open spec fn rev_off() -> Seq<char> {
    "\x1b[27m"@
}

/// Output of highlighting `line[i..]`, where `pos` counts the visible characters
/// before `i`, `ri` is the next match and `inside` tells whether a match is open.
/// Escape sequences are copied (and reverse video re-enabled after them inside a
/// match); visible characters open a match at its start and close it at its end.
pub open spec fn highlight_from(
    line: Seq<char>,
    i: int,
    starts: Seq<int>,
    qlen: int,
    pos: int,
    ri: int,
    inside: bool,
) -> Seq<char>
    decreases line.len() - i,
{
    if i < 0 || i >= line.len() {
        if inside { rev_off() } else { Seq::empty() }
    } else {
        match escape_len(line.skip(i)) {
            Some(n) => if 1 <= n <= line.len() - i {
                line.subrange(i, i + n) + (if inside { rev_on() } else { Seq::empty() })
                    + highlight_from(line, i + n, starts, qlen, pos, ri, inside)
            } else {
                Seq::empty()
            },
            None => {
                let open = !inside && 0 <= ri < starts.len() && pos == starts[ri];
                let inside1 = inside || open;
                let close = inside1 && 0 <= ri < starts.len() && pos + 1 >= starts[ri] + qlen;
                (if open { rev_on() } else { Seq::empty() }) + seq![line[i]]
                    + (if close { rev_off() } else { Seq::empty() })
                    + highlight_from(line, i + 1, starts, qlen, pos + 1,
                        if close { ri + 1 } else { ri }, inside1 && !close)
            },
        }
    }
}

/// `line` with every match of `q` in `plain` (the line without escapes) shown in
/// reverse video; the line itself when there is no match.
pub open spec fn highlighted(line: Seq<char>, plain: Seq<char>, q: Seq<char>) -> Seq<char> {
    let starts = match_starts(plain, q, 0);
    if starts.len() == 0 {
        line
    } else {
        highlight_from(line, 0, starts, q.len() as int, 0, 0, false)
    }
}

fn match_start_list(pv: &Vec<char>, qv: &Vec<char>) -> (r: Vec<usize>)
    ensures
        r@.map_values(|x: usize| x as int) == match_starts(pv@, qv@, 0),
        forall|k: int| 0 <= k < r@.len() ==> #[trigger] r@[k] + qv@.len() <= pv@.len(),
{
    let ghost total = match_starts(pv@, qv@, 0);
    let n = pv.len();
    let qlen = qv.len();
    let step: usize = if qlen > 1 { qlen } else { 1 };
    let mut starts: Vec<usize> = Vec::new();
    let mut from: usize = 0;
    loop
        invariant_except_break
            from <= n,
            n == pv@.len(),
            qlen == qv@.len(),
            step == (if qlen > 1 { qlen } else { 1 }),
            total == starts@.map_values(|x: usize| x as int) + match_starts(pv@, qv@, from as int),
            forall|k: int| 0 <= k < starts@.len() ==> #[trigger] starts@[k] + qv@.len() <= pv@.len(),
        ensures
            total == starts@.map_values(|x: usize| x as int),
            forall|k: int| 0 <= k < starts@.len() ==> #[trigger] starts@[k] + qv@.len() <= pv@.len(),
        decreases n + 1 - from,
    {
        proof {
            lemma_find_in_bounds(pv@.skip(from as int), qv@);
        }
        let ghost before = starts@.map_values(|x: usize| x as int);
        match find_in_from(pv, qv, from) {
            None => {
                assert(match_starts(pv@, qv@, from as int) == Seq::<int>::empty());
                assert(total == before);
                break;
            },
            Some(p) => {
                let start = from + p;
                starts.push(start);
                assert(starts@.map_values(|x: usize| x as int) == before.push(start as int));
                if n - start <= step {
                    assert(total == before + seq![start as int]);
                    break;
                }
                assert(match_starts(pv@, qv@, from as int) == seq![start as int] + match_starts(pv@, qv@, (start + step) as int));
                from = start + step;
            },
        }
    }
    starts
}

/// Wraps every match of `q` in reverse video. `plain` is `line` with escapes removed;
/// escape sequences inside a match are followed by a re-enable of reverse video.
pub fn highlight(line: &str, plain: &str, q: &str) -> (r: String)
    ensures
        r@ == highlighted(line@, plain@, q@),
{
    let pv = chars_of(plain);
    let qv = chars_of(q);
    let starts = match_start_list(&pv, &qv);
    if starts.len() == 0 {
        return line.to_owned();
    }
    let ghost st = starts@.map_values(|x: usize| x as int);
    let qlen = qv.len();
    let lv = chars_of(line);
    let n = lv.len();
    let pn = pv.len();
    let sn = starts.len();
    let ghost total = highlight_from(lv@, 0, st, qlen as int, 0, 0, false);
    let mut out = String::new();
    let mut pos: usize = 0;
    let mut ri: usize = 0;
    let mut inside = false;
    let mut i: usize = 0;
    while i < n
        invariant
            i <= n,
            n == lv@.len(),
            pn == pv@.len(),
            sn == starts@.len(),
            pos <= i,
            ri <= starts@.len(),
            inside ==> ri < starts@.len(),
            qlen == qv@.len(),
            st == starts@.map_values(|x: usize| x as int),
            forall|k: int| 0 <= k < starts@.len() ==> #[trigger] starts@[k] + qv@.len() <= pv@.len(),
            total == out@ + highlight_from(lv@, i as int, st, qlen as int, pos as int, ri as int, inside),
        decreases n - i,
    {
        proof {
            lemma_escape_len_bounds(lv@.skip(i as int));
        }
        match escape_len_at(&lv, i) {
            Some(len) => {
                push_chars(&mut out, &lv, i, i + len);
                if inside {
                    push_str(&mut out, "\x1b[7m");
                }
                i += len;
            },
            None => {
                let open = !inside && ri < starts.len() && pos == starts[ri];
                if open {
                    push_str(&mut out, "\x1b[7m");
                    inside = true;
                }
                push_chars(&mut out, &lv, i, i + 1);
                assert(lv@.subrange(i as int, i + 1) == seq![lv@[i as int]]);
                i += 1;
                pos += 1;
                if inside && pos >= starts[ri] + qlen {
                    push_str(&mut out, "\x1b[27m");
                    inside = false;
                    ri += 1;
                }
            },
        }
    }
    if inside {
        push_str(&mut out, "\x1b[27m");
    }
    out
}

/// The stripping scan over `s` meets no CSI introducer (ESC `[`) that lacks its final
/// character.
pub open spec fn csi_closed(s: Seq<char>) -> bool
    decreases s.len(),
{
    if s.len() == 0 {
        true
    } else {
        match escape_len(s) {
            Some(n) => if 1 <= n <= s.len() {
                csi_closed(s.skip(n))
            } else {
                true
            },
            None => s[0] != '\x1b' && csi_closed(s.skip(1)),
        }
    }
}

/// An OSC terminator (BEL, or ESC `\`) starts at `p`.
pub open spec fn osc_term_at(s: Seq<char>, p: int) -> bool {
    s[p] == '\x07' || (s[p] == '\x1b' && p + 1 < s.len() && s[p + 1] == '\\')
}

/// The end of the OSC sequence whose payload is scanned from `j`, where a terminator
/// ends it; `None` where it runs to the end of `s`.
pub open spec fn osc_end(s: Seq<char>, j: int) -> Option<int>
    decreases s.len() - j,
{
    if j < 0 || j >= s.len() {
        None
    } else if s[j] == '\x07' {
        Some(j + 1)
    } else if s[j] == '\x1b' && j + 1 < s.len() && s[j + 1] == '\\' {
        Some(j + 2)
    } else {
        osc_end(s, j + 1)
    }
}

proof fn lemma_osc_end(s: Seq<char>, j: int)
    requires
        0 <= j,
    ensures
        osc_len_from(s, j) == match osc_end(s, j) {
            Some(k) => k,
            None => s.len() as int,
        },
        osc_end(s, j) matches Some(k) ==> j < k <= s.len(),
        osc_end(s, j) is None <==> forall|p: int| j <= p < s.len() ==> !#[trigger] osc_term_at(s, p),
    decreases s.len() - j,
{
    if j < s.len() {
        lemma_osc_end(s, j + 1);
        if osc_term_at(s, j) {
        } else {
            assert forall|p: int| j <= p < s.len() && (forall|p2: int| j + 1 <= p2 < s.len() ==> !#[trigger] osc_term_at(s, p2))
                implies !#[trigger] osc_term_at(s, p) by {
                if p > j {
                    assert(!osc_term_at(s, p));
                }
            }
        }
    }
}

proof fn lemma_osc_end_prefix(s1: Seq<char>, s2: Seq<char>, j: int, k: int)
    requires
        0 <= j,
        osc_end(s1, j) == Some(k),
        k <= s1.len(),
        k <= s2.len(),
        s1.take(k) == s2.take(k),
    ensures
        osc_end(s2, j) == Some(k),
    decreases s1.len() - j,
{
    lemma_osc_end(s1, j);
    assert(s1[j] == s1.take(k)[j]);
    assert(s2[j] == s2.take(k)[j]);
    if s1[j] == '\x07' {
    } else if s1[j] == '\x1b' && j + 1 < s1.len() && s1[j + 1] == '\\' {
        assert(s1[j + 1] == s1.take(k)[j + 1]);
        assert(s2[j + 1] == s2.take(k)[j + 1]);
    } else {
        lemma_osc_end(s1, j + 1);
        if s2[j] == '\x1b' {
            assert(s1[j + 1] == s1.take(k)[j + 1]);
            assert(s2[j + 1] == s2.take(k)[j + 1]);
        }
        lemma_osc_end_prefix(s1, s2, j + 1, k);
    }
}

proof fn lemma_csi_prefix(s1: Seq<char>, s2: Seq<char>, j: int, k: int)
    requires
        0 <= j,
        csi_final_from(s1, j) == Some(k),
        k < s1.len(),
        k < s2.len(),
        s1.take(k + 1) == s2.take(k + 1),
    ensures
        csi_final_from(s2, j) == Some(k),
    decreases s1.len() - j,
{
    lemma_csi_final_from(s1, j);
    assert(s1[j] == s1.take(k + 1)[j]);
    assert(s2[j] == s2.take(k + 1)[j]);
    if !is_csi_final(s1[j]) {
        lemma_csi_prefix(s1, s2, j + 1, k);
    }
}

proof fn lemma_stripped_escape(sub: Seq<char>, rest: Seq<char>)
    requires
        sub.len() >= 1,
        escape_len(sub + rest) == Some(sub.len() as int),
    ensures
        stripped(sub + rest) == stripped(rest),
{
    assert((sub + rest).skip(sub.len() as int) =~= rest);
}

proof fn lemma_stripped_visible(c: char, rest: Seq<char>)
    requires
        c != '\x1b',
    ensures
        stripped(seq![c] + rest) == seq![c] + stripped(rest),
{
    assert((seq![c] + rest).skip(1) =~= rest);
    assert((seq![c] + rest)[0] == c);
}

proof fn lemma_stripped_rev(rest: Seq<char>)
    ensures
        stripped(rev_on() + rest) == stripped(rest),
        stripped(rev_off() + rest) == stripped(rest),
{
    reveal_strlit("\x1b[7m");
    reveal_strlit("\x1b[27m");
    let a = rev_on() + rest;
    assert(a[0] == '\x1b' && a[1] == '[' && a[2] == '7' && a[3] == 'm');
    assert(csi_final_from(a, 3) == Some(3int));
    assert(csi_final_from(a, 2) == Some(3int));
    lemma_stripped_escape(rev_on(), rest);
    let b = rev_off() + rest;
    assert(b[0] == '\x1b' && b[1] == '[' && b[2] == '2' && b[3] == '7' && b[4] == 'm');
    assert(csi_final_from(b, 4) == Some(4int));
    assert(csi_final_from(b, 3) == Some(4int));
    assert(csi_final_from(b, 2) == Some(4int));
    lemma_stripped_escape(rev_off(), rest);
}

/// What highlighting puts first: an escape character, or the line's character at `i`
/// when that is visible there.
proof fn lemma_highlight_first(
    line: Seq<char>,
    i: int,
    starts: Seq<int>,
    qlen: int,
    pos: int,
    ri: int,
    inside: bool,
)
    requires
        0 <= i <= line.len(),
    ensures
        ({
            let h = highlight_from(line, i, starts, qlen, pos, ri, inside);
            h.len() == 0 || h[0] == '\x1b' || (i < line.len() && h[0] == line[i] && escape_len(line.skip(i)) is None)
        }),
{
    reveal_strlit("\x1b[7m");
    reveal_strlit("\x1b[27m");
    lemma_escape_len_bounds(line.skip(i));
    if i < line.len() {
        match escape_len(line.skip(i)) {
            Some(n) => {
                assert(line.skip(i)[0] == '\x1b');
                assert(line.subrange(i, i + n)[0] == line[i]);
            },
            None => {},
        }
    }
}

/// The rest of the line scanned as an OSC payload from `j` holds no terminator.
proof fn lemma_rev_codes_no_osc_end(a: Seq<char>, j: int)
    requires
        2 <= j,
        osc_end(a, j) is None,
    ensures
        osc_end(a + rev_on() + rev_off(), j) is None,
{
    reveal_strlit("\x1b[7m");
    reveal_strlit("\x1b[27m");
    let s = a + rev_on() + rev_off();
    lemma_osc_end(a, j);
    lemma_osc_end(s, j);
    assert forall|p: int| j <= p < s.len() implies !#[trigger] osc_term_at(s, p) by {
        if p < a.len() {
            assert(s[p] == a[p]);
            if p + 1 < a.len() {
                assert(s[p + 1] == a[p + 1]);
                assert(!osc_term_at(a, p));
            } else {
                assert(!osc_term_at(a, p));
                assert(s[p + 1] == '\x1b');
            }
        } else {
            let q = p - a.len();
            assert(s[p] == (rev_on() + rev_off())[q]);
        }
    }
}

/// Highlighting from `i` on changes nothing of what stripping leaves of the line there.
proof fn lemma_highlight_from_stripped(
    line: Seq<char>,
    i: int,
    starts: Seq<int>,
    qlen: int,
    pos: int,
    ri: int,
    inside: bool,
)
    requires
        0 <= i <= line.len(),
        csi_closed(line.skip(i)),
    ensures
        stripped(highlight_from(line, i, starts, qlen, pos, ri, inside)) == stripped(line.skip(i)),
    decreases line.len() - i,
{
    let s = line.skip(i);
    let h = highlight_from(line, i, starts, qlen, pos, ri, inside);
    if i >= line.len() {
        assert(s.len() == 0);
        lemma_stripped_rev(Seq::empty());
        assert(rev_off() + Seq::<char>::empty() == rev_off());
    } else {
        lemma_escape_len_bounds(s);
        match escape_len(s) {
            Some(n) => {
                assert(s.skip(n) =~= line.skip(i + n));
                lemma_highlight_from_stripped(line, i + n, starts, qlen, pos, ri, inside);
                let sub = line.subrange(i, i + n);
                assert(sub =~= s.take(n));
                let rest = highlight_from(line, i + n, starts, qlen, pos, ri, inside);
                let y = (if inside { rev_on() } else { Seq::empty() }) + rest;
                assert(h =~= sub + y);
                lemma_stripped_rev(rest);
                assert(stripped(y) == stripped(rest)) by {
                    if !inside {
                        assert(y =~= rest);
                    }
                }
                let t = sub + y;
                assert(t.take(n) =~= s.take(n));
                if s.len() >= 2 && s[1] == '[' {
                    let k = csi_final_from(s, 2)->0;
                    lemma_csi_final_from(s, 2);
                    assert(t[0] == s[0] && t[1] == s[1]);
                    lemma_csi_prefix(s, t, 2, k);
                    lemma_stripped_escape(sub, y);
                } else if s.len() >= 2 && s[1] == ']' {
                    lemma_osc_end(s, 2);
                    assert(t[0] == s[0] && t[1] == s[1]);
                    match osc_end(s, 2) {
                        Some(k) => {
                            lemma_osc_end_prefix(s, t, 2, k);
                            lemma_osc_end(t, 2);
                            lemma_stripped_escape(sub, y);
                        },
                        None => {
                            assert(n == s.len());
                            assert(sub =~= s);
                            assert(stripped(s) == stripped(s.skip(n)));
                            if inside {
                                assert(rest == rev_off());
                                assert(t =~= s + rev_on() + rev_off());
                                lemma_rev_codes_no_osc_end(s, 2);
                                lemma_osc_end(t, 2);
                                assert(t.skip(t.len() as int) =~= Seq::<char>::empty());
                                assert(s.skip(n) =~= Seq::<char>::empty());
                            } else {
                                assert(rest == Seq::<char>::empty());
                                assert(t =~= s);
                            }
                        },
                    }
                } else {
                    assert(n == 1);
                    lemma_highlight_first(line, i + 1, starts, qlen, pos, ri, inside);
                    reveal_strlit("\x1b[7m");
                    if y.len() > 0 {
                        if inside {
                            assert(y[0] == '\x1b');
                        } else {
                            assert(y =~= rest);
                            if rest[0] != '\x1b' {
                                assert(rest[0] == line[i + 1]);
                                assert(s[1] == line[i + 1]);
                            }
                        }
                        assert(t[1] == y[0]);
                    } else {
                        assert(t =~= sub);
                    }
                    assert(t[0] == '\x1b');
                    lemma_stripped_escape(sub, y);
                }
            },
            None => {
                let c = line[i];
                assert(s[0] == c);
                assert(c != '\x1b');
                assert(s.skip(1) =~= line.skip(i + 1));
                let open = !inside && 0 <= ri < starts.len() && pos == starts[ri];
                let inside1 = inside || open;
                let close = inside1 && 0 <= ri < starts.len() && pos + 1 >= starts[ri] + qlen;
                let rest = highlight_from(line, i + 1, starts, qlen, pos + 1,
                    if close { ri + 1 } else { ri }, inside1 && !close);
                lemma_highlight_from_stripped(line, i + 1, starts, qlen, pos + 1,
                    if close { ri + 1 } else { ri }, inside1 && !close);
                let z = (if close { rev_off() } else { Seq::empty() }) + rest;
                lemma_stripped_rev(rest);
                assert(stripped(z) == stripped(rest)) by {
                    if !close {
                        assert(z =~= rest);
                    }
                }
                lemma_stripped_visible(c, z);
                let w = seq![c] + z;
                lemma_stripped_rev(w);
                assert(h =~= (if open { rev_on() } else { Seq::empty() }) + w);
                assert(stripped(h) == stripped(w)) by {
                    if !open {
                        assert(h =~= w);
                    }
                }
            },
        }
    }
}

/// Search highlighting changes no visible text: stripping the escape sequences from a
/// highlighted line gives what stripping them from the line gives. This holds of every
/// line in which stripping meets no CSI introducer without its final character.
pub proof fn lemma_highlight_keeps_text(line: Seq<char>, q: Seq<char>)
    requires
        csi_closed(line),
    ensures
        stripped(highlighted(line, stripped(line), q)) == stripped(line),
{
    assert(line.skip(0) =~= line);
    let starts = match_starts(stripped(line), q, 0);
    if starts.len() > 0 {
        lemma_highlight_from_stripped(line, 0, starts, q.len() as int, 0, 0, false);
    }
}

} // verus!
