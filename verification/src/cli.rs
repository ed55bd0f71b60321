//! The command line's decisions: colors, hyperlinks, width and paging, from the
//! options and what the environment and the terminal report.

use vstd::prelude::*;

use crate::pager::{text_lines, Doc};
use crate::style::ColorMode;
use crate::text::chars_of;

verus! {

/// When to do something: decided from the terminal, always, or never.
#[derive(Clone, Copy, PartialEq, Eq, Debug, Structural)]
pub enum When {
    Auto,
    Always,
    Never,
}

/// The colors a terminal takes: truecolor where `COLORTERM` says so, 256 colors otherwise.
pub open spec fn detected_mode(colorterm: Option<Seq<char>>) -> ColorMode {
    match colorterm {
        Some(v) => if v == "truecolor"@ || v == "24bit"@ {
            ColorMode::TrueColor
        } else {
            ColorMode::Ansi256
        },
        None => ColorMode::Ansi256,
    }
}

pub fn detect_color_mode(colorterm: Option<&str>) -> (r: ColorMode)
    ensures
        r == detected_mode(
            match colorterm {
                Some(v) => Some(v@),
                None => None,
            },
        ),
{
    match colorterm {
        Some(v) => {
            let cv = chars_of(v);
            if crate::highlight::eq_str(&cv, "truecolor") || crate::highlight::eq_str(&cv, "24bit") {
                ColorMode::TrueColor
            } else {
                ColorMode::Ansi256
            }
        },
        None => ColorMode::Ansi256,
    }
}

/// Colors are used always, never, or by default when output is a terminal and
/// `NO_COLOR` is not set (nonempty).
pub open spec fn chosen_mode(when: When, stdout_tty: bool, no_color_env: bool, detected: ColorMode) -> ColorMode {
    match when {
        When::Always => detected,
        When::Never => ColorMode::NoColor,
        When::Auto => if stdout_tty && !no_color_env {
            detected
        } else {
            ColorMode::NoColor
        },
    }
}

pub fn color_mode(when: When, stdout_tty: bool, no_color_env: bool, detected: ColorMode) -> (r: ColorMode)
    ensures
        r == chosen_mode(when, stdout_tty, no_color_env, detected),
{
    match when {
        When::Always => detected,
        When::Never => ColorMode::NoColor,
        When::Auto => if stdout_tty && !no_color_env {
            detected
        } else {
            ColorMode::NoColor
        },
    }
}

/// Hyperlinks are written always, never, or by default to a terminal whose `TERM` is
/// neither `dumb` nor `linux`.
pub open spec fn hyperlinks_wanted(when: When, stdout_tty: bool, term: Option<Seq<char>>) -> bool {
    match when {
        When::Always => true,
        When::Never => false,
        When::Auto => stdout_tty && match term {
            Some(t) => t != "dumb"@ && t != "linux"@,
            None => true,
        },
    }
}

pub fn use_hyperlinks(when: When, stdout_tty: bool, term: Option<&str>) -> (r: bool)
    ensures
        r == hyperlinks_wanted(
            when,
            stdout_tty,
            match term {
                Some(t) => Some(t@),
                None => None,
            },
        ),
{
    match when {
        When::Always => true,
        When::Never => false,
        When::Auto => stdout_tty && match term {
            Some(t) => {
                let tv = chars_of(t);
                !crate::highlight::eq_str(&tv, "dumb") && !crate::highlight::eq_str(&tv, "linux")
            },
            None => true,
        },
    }
}

/// The render width: the one asked for, else the terminal's, else 80; at least 20.
pub open spec fn width_of(arg: Option<usize>, term_cols: Option<u16>) -> int {
    let w: int = match arg {
        Some(w) => w as int,
        None => match term_cols {
            Some(c) => c as int,
            None => 80,
        },
    };
    if w < 20 { 20 } else { w }
}

pub fn render_width(arg: Option<usize>, term_cols: Option<u16>) -> (r: usize)
    ensures
        r == width_of(arg, term_cols),
{
    let w = match arg {
        Some(w) => w,
        None => match term_cols {
            Some(c) => c as usize,
            None => 80,
        },
    };
    if w < 20 { 20 } else { w }
}

/// The value of a decimal number as `u8::from_str` reads it: an optional `+`, then one or
/// more digits; `None` for anything else or for a value over 255.
pub open spec fn parsed_u8(s: Seq<char>) -> Option<int> {
    let d = unsigned_part(s);
    if d.len() == 0 || !all_digits(d) {
        None
    } else if digits_value(d) > 255 {
        None
    } else {
        Some(digits_value(d))
    }
}

/// `s` without a leading `+`.
pub open spec fn unsigned_part(s: Seq<char>) -> Seq<char> {
    if s.len() > 0 && s[0] == '+' { s.skip(1) } else { s }
}

pub open spec fn all_digits(d: Seq<char>) -> bool {
    forall|i: int| 0 <= i < d.len() ==> '0' <= #[trigger] d[i] <= '9'
}

/// The value of a string of decimal digits.
pub open spec fn digits_value(d: Seq<char>) -> int
    decreases d.len(),
{
    if d.len() == 0 {
        0
    } else {
        digits_value(d.drop_last()) * 10 + (d.last() as int - '0' as int)
    }
}

proof fn lemma_digits_value_grows(d: Seq<char>, k: int)
    requires
        0 <= k <= d.len(),
        forall|i: int| 0 <= i < d.len() ==> '0' <= #[trigger] d[i] <= '9',
    ensures
        digits_value(d.take(k)) <= digits_value(d),
        digits_value(d) >= 0,
    decreases d.len(),
{
    if d.len() > 0 {
        if k < d.len() {
            assert(d.drop_last().take(k) == d.take(k));
            lemma_digits_value_grows(d.drop_last(), k);
        } else {
            assert(d.take(k) == d);
            lemma_digits_value_grows(d.drop_last(), 0);
        }
    } else {
        assert(d.take(k) == d);
    }
}

/// The part of `s` after its last `;` (all of it without one).
pub open spec fn after_last_semicolon(s: Seq<char>) -> Seq<char>
    decreases s.len(),
{
    if s.len() == 0 {
        s
    } else if s.last() == ';' {
        Seq::empty()
    } else {
        after_last_semicolon(s.drop_last()).push(s.last())
    }
}

/// `COLORFGBG` is "fg;bg"; a background of 7 or 15 means a light terminal.
pub open spec fn light_background(colorfgbg: Option<Seq<char>>) -> bool {
    match colorfgbg {
        Some(v) => match parsed_u8(after_last_semicolon(v)) {
            Some(bg) => bg == 7 || bg == 15,
            None => false,
        },
        None => false,
    }
}

fn parse_u8(s: &Vec<char>) -> (r: Option<u8>)
    ensures
        r matches Some(b) ==> parsed_u8(s@) == Some(b as int),
        r is None ==> parsed_u8(s@) is None,
{
    let start: usize = if s.len() > 0 && s[0] == '+' { 1 } else { 0 };
    let ghost d = unsigned_part(s@);
    assert(d == s@.skip(start as int));
    if start == s.len() {
        return None;
    }
    let mut v: u32 = 0;
    let mut i = start;
    while i < s.len()
        invariant
            start <= i <= s@.len(),
            d == s@.skip(start as int),
            d == unsigned_part(s@),
            d.len() > 0,
            forall|j: int| start <= j < i ==> '0' <= #[trigger] s@[j] <= '9',
            v == digits_value(d.take(i - start)),
            v <= 255,
        decreases s@.len() - i,
    {
        let c = s[i];
        if c < '0' || c > '9' {
            assert(d[i - start] == c);
            assert(!('0' <= d[i - start] <= '9'));
            assert(!all_digits(d));
            return None;
        }
        assert(d.take(i - start + 1).drop_last() == d.take(i - start));
        assert(d.take(i - start + 1).last() == c);
        let digit = (c as u32) - ('0' as u32);
        let next = v * 10 + digit;
        if next > 255 {
            proof {
                let t = d.take(i - start + 1);
                assert(t.drop_last() == d.take(i - start));
                assert(t.last() == c);
                assert(digits_value(t) == digits_value(d.take(i - start)) * 10 + (c as int - '0' as int));
                assert(digits_value(t) == next);
                if all_digits(d) {
                    lemma_digits_value_grows(d, i - start + 1);
                    assert(digits_value(d) > 255);
                }
            }
            return None;
        }
        v = next;
        i += 1;
    }
    assert(d.take(i - start) == d);
    assert forall|j: int| 0 <= j < d.len() implies '0' <= #[trigger] d[j] <= '9' by {
        assert(d[j] == s@[start + j]);
    }
    assert(all_digits(d));
    Some(v as u8)
}

pub fn is_light_terminal(colorfgbg: Option<&str>) -> (r: bool)
    ensures
        r == light_background(
            match colorfgbg {
                Some(v) => Some(v@),
                None => None,
            },
        ),
{
    let v = match colorfgbg {
        Some(v) => chars_of(v),
        None => {
            return false;
        },
    };
    let mut k = v.len();
    let mut tail: Vec<char> = Vec::new();
    assert(v@.take(k as int) == v@);
    while k > 0 && v[k - 1] != ';'
        invariant
            k <= v@.len(),
            after_last_semicolon(v@) == after_last_semicolon(v@.take(k as int)) + tail@,
        decreases k,
    {
        let ghost before = tail@;
        assert(v@.take(k as int).drop_last() == v@.take(k - 1));
        tail.insert(0, v[k - 1]);
        assert(after_last_semicolon(v@.take(k as int)) == after_last_semicolon(v@.take(k - 1)).push(v@[k - 1]));
        assert(after_last_semicolon(v@.take(k - 1)).push(v@[k - 1]) + before
            == after_last_semicolon(v@.take(k - 1)) + tail@);
        k -= 1;
    }
    assert(after_last_semicolon(v@.take(k as int)) == Seq::<char>::empty());
    assert(Seq::<char>::empty() + tail@ == tail@);
    match parse_u8(&tail) {
        Some(bg) => bg == 7 || bg == 15,
        None => false,
    }
}

/// Output goes through the pager when it is a terminal and paging is not turned off:
/// always, or by default when the output has at least as many lines as the terminal.
pub open spec fn paging_wanted(
    stdout_tty: bool,
    paging: When,
    no_pager: bool,
    term_rows: Option<u16>,
    output: Seq<char>,
) -> bool {
    stdout_tty && if no_pager || paging == When::Never {
        false
    } else if paging == When::Always {
        true
    } else {
        match term_rows {
            Some(h) => text_lines(output).len() >= h,
            None => false,
        }
    }
}

pub fn should_page(stdout_tty: bool, paging: When, no_pager: bool, term_rows: Option<u16>, output: &str) -> (r: bool)
    ensures
        r == paging_wanted(stdout_tty, paging, no_pager, term_rows, output@),
{
    if !stdout_tty || no_pager || paging == When::Never {
        return false;
    }
    if paging == When::Always {
        return true;
    }
    match term_rows {
        Some(h) => {
            let doc = Doc::new(output);
            proof {
                assert(doc.line_texts().len() == doc.lines@.len());
            }
            doc.lines.len() >= h as usize
        },
        None => false,
    }
}

} // verus!
