//! Syntax highlighting for fenced code blocks (syntect + bat's grammar/theme collection).
//! The syntax set is only loaded if a document actually has a tagged code block.

use vstd::prelude::*;

use syntect::easy::HighlightLines;
use syntect::highlighting::Theme;
use syntect::parsing::SyntaxSet;
use two_face::theme::LazyThemeSet;

use crate::pager::{newline_from, text_lines};
use crate::style::{char_cols, char_width, plain_style, span_views, str_width, unicode_str_width, Color, Span, Style};
use crate::text::{
    ascii_lower, ascii_lower_vec, chars_of, is_whitespace, push_char_to, push_chars, push_str,
    repeat, unicode_whitespace,
};

verus! {

pub const DEFAULT_DARK_THEME: &'static str = "Monokai Extended";

pub const DEFAULT_LIGHT_THEME: &'static str = "Monokai Extended Light";

const TAB_WIDTH: usize = 4;

#[verifier::external_type_specification]
#[verifier::external_body]
pub struct ExTheme(Theme);

#[verifier::external_type_specification]
#[verifier::external_body]
pub struct ExSyntaxSet(SyntaxSet);

/// Whether two-face's embedded theme collection has a theme of this name.
pub uninterp spec fn embedded_theme(name: Seq<char>) -> bool;

/// The names of two-face's embedded themes (`LazyThemeSet::theme_names` on
/// `two_face::theme::extra`). They are the keys of the set's `BTreeMap`, so each comes
/// once, and they are exactly the names that `LazyThemeSet::get` finds a theme for.
#[verifier::external_body]
fn embedded_theme_names() -> (r: Vec<String>)
    ensures
        forall|i: int| 0 <= i < r@.len() ==> embedded_theme(#[trigger] r@[i]@),
        forall|s: Seq<char>| #[trigger] embedded_theme(s) ==> exists|i: int| 0 <= i < r@.len() && r@[i]@ == s,
        forall|i: int, j: int| 0 <= i < j < r@.len() ==> r@[i]@ != r@[j]@,
{
    LazyThemeSet::from(two_face::theme::extra()).theme_names().map(str::to_owned).collect()
}

/// The default background and foreground colors (RGBA) of two-face's embedded theme
/// `name`.
pub uninterp spec fn theme_default_colors(name: Seq<char>) -> (Option<(u8, u8, u8, u8)>, Option<(u8, u8, u8, u8)>);

/// The theme of two-face's embedded collection with the given name, if any
/// (`LazyThemeSet::get` on `two_face::theme::extra`, cloned), with its default
/// background and foreground colors as RGBA (`Theme::settings`). The collection is fixed
/// data, so whether there is one, and its colors, depend on the name alone.
#[verifier::external_body]
fn theme_by_name(name: &str) -> (r: Option<(Theme, Option<(u8, u8, u8, u8)>, Option<(u8, u8, u8, u8)>)>)
    ensures
        r is Some <==> embedded_theme(name@),
        r matches Some(t) ==> (t.1, t.2) == theme_default_colors(name@),
{
    LazyThemeSet::from(two_face::theme::extra()).get(name).map(|t| {
        let s = &t.settings;
        let rgba = |c: syntect::highlighting::Color| (c.r, c.g, c.b, c.a);
        (t.clone(), s.background.map(rgba), s.foreground.map(rgba))
    })
}

/// two-face's embedded syntax collection, for lines that keep their line feed
/// (`two_face::syntax::extra_newlines`).
#[verifier::external_body]
fn newline_syntaxes() -> SyntaxSet {
    two_face::syntax::extra_newlines()
}

/// The texts of highlighted pieces, one after another.
pub open spec fn pieces_text(pieces: Seq<((u8, u8, u8, u8), u8, Seq<char>)>) -> Seq<char>
    decreases pieces.len(),
{
    if pieces.len() == 0 {
        Seq::empty()
    } else {
        pieces_text(pieces.drop_last()) + pieces.last().2
    }
}

/// A highlighted piece: foreground RGBA, font-style bits and text.
pub type Piece = ((u8, u8, u8, u8), u8, String);

/// The views of a block's highlighted lines: each line's pieces, or none.
pub open spec fn runs_view(v: Seq<Option<Vec<Piece>>>) -> Seq<Option<Seq<((u8, u8, u8, u8), u8, Seq<char>)>>> {
    v.map_values(
        |o: Option<Vec<Piece>>|
            match o {
                Some(p) => Some(pieces_view(p@)),
                None => None,
            },
    )
}

/// syntect's highlighting of `lines`, fed in order to one `HighlightLines` for
/// two-face's embedded theme `theme` and the syntax of the embedded newline syntaxes that
/// `SyntaxSet::find_syntax_by_token` finds for `token`: each line's pieces, or none where
/// `highlight_line` fails; none at all where no syntax has that token.
pub uninterp spec fn syntect_by_token(theme: Seq<char>, token: Seq<char>, lines: Seq<Seq<char>>) -> Option<
    Seq<Option<Seq<((u8, u8, u8, u8), u8, Seq<char>)>>>,
>;

/// As `syntect_by_token`, with the syntax that `SyntaxSet::find_syntax_by_extension`
/// finds for `ext`.
pub uninterp spec fn syntect_by_extension(theme: Seq<char>, ext: Seq<char>, lines: Seq<Seq<char>>) -> Option<
    Seq<Option<Seq<((u8, u8, u8, u8), u8, Seq<char>)>>>,
>;

/// What a highlighting of `lines` reports of each line: one result per line, and the
/// pieces' texts, one after another, make the line.
pub open spec fn runs_fit(runs: Seq<Option<Seq<((u8, u8, u8, u8), u8, Seq<char>)>>>, lines: Seq<Seq<char>>) -> bool {
    &&& runs.len() == lines.len()
    &&& forall|i: int| 0 <= i < runs.len() ==> (#[trigger] runs[i] matches Some(p) ==> pieces_text(p) == lines[i])
}

/// Highlights `lines` with the highlighter's theme and the syntax that
/// `SyntaxSet::find_syntax_by_token` finds for `token`: `HighlightLines::new`, then
/// `highlight_line` on each line in order, each piece taken as foreground RGBA,
/// font-style bits and text. A `Highlighter` holds the embedded theme of its name and,
/// once loaded, the embedded newline syntaxes (its fields are private and set only from
/// `theme_by_name` and `newline_syntaxes`), so the result depends on the theme's name,
/// the token and the lines alone. syntect's pieces of a line are consecutive slices of it
/// up to its end.
#[verifier::external_body]
fn syntect_lines_by_token(h: &Highlighter, token: &str, lines: &Vec<String>) -> (r: Option<Vec<Option<Vec<Piece>>>>)
    requires
        h.syntaxes is Some,
    ensures
        (match r {
            Some(v) => Some(runs_view(v@)),
            None => None,
        }) == syntect_by_token(h.theme_name@, token@, lines@.map_values(|x: String| x@)),
        r matches Some(v) ==> runs_fit(runs_view(v@), lines@.map_values(|x: String| x@)),
{
    let ss = h.syntaxes.as_ref()?;
    let mut hl = HighlightLines::new(ss.find_syntax_by_token(token)?, &h.theme);
    Some(lines.iter().map(|l| hl.highlight_line(l, ss).ok().map(|v| v.into_iter().map(|(st, t)| {
        let f = st.foreground;
        ((f.r, f.g, f.b, f.a), st.font_style.bits(), t.to_owned())
    }).collect())).collect())
}

/// As `syntect_lines_by_token`, with the syntax that `SyntaxSet::find_syntax_by_extension`
/// finds for `ext`.
#[verifier::external_body]
fn syntect_lines_by_extension(h: &Highlighter, ext: &str, lines: &Vec<String>) -> (r: Option<Vec<Option<Vec<Piece>>>>)
    requires
        h.syntaxes is Some,
    ensures
        (match r {
            Some(v) => Some(runs_view(v@)),
            None => None,
        }) == syntect_by_extension(h.theme_name@, ext@, lines@.map_values(|x: String| x@)),
        r matches Some(v) ==> runs_fit(runs_view(v@), lines@.map_values(|x: String| x@)),
{
    let ss = h.syntaxes.as_ref()?;
    let mut hl = HighlightLines::new(ss.find_syntax_by_extension(ext)?, &h.theme);
    Some(lines.iter().map(|l| hl.highlight_line(l, ss).ok().map(|v| v.into_iter().map(|(st, t)| {
        let f = st.foreground;
        ((f.r, f.g, f.b, f.a), st.font_style.bits(), t.to_owned())
    }).collect())).collect())
}

/// Names of the available code themes: each embedded theme's name, once.
pub fn theme_names() -> (r: Vec<String>)
    ensures
        forall|i: int| 0 <= i < r@.len() ==> embedded_theme(#[trigger] r@[i]@),
        forall|s: Seq<char>| #[trigger] embedded_theme(s) ==> exists|i: int| 0 <= i < r@.len() && r@[i]@ == s,
        forall|i: int, j: int| 0 <= i < j < r@.len() ==> r@[i]@ != r@[j]@,
{
    embedded_theme_names()
}

/// A theme color as a terminal color: alpha 0 encodes a palette index in the red
/// channel, alpha 1 the terminal's default color.
pub open spec fn color_of(c: (u8, u8, u8, u8)) -> Option<Color> {
    if c.3 == 0 {
        Some(Color::Ansi(c.0))
    } else if c.3 == 1 {
        None
    } else {
        Some(Color::Rgb(c.0, c.1, c.2))
    }
}

pub fn convert(c: (u8, u8, u8, u8)) -> (r: Option<Color>)
    ensures
        r == color_of(c),
{
    if c.3 == 0 {
        Some(Color::Ansi(c.0))
    } else if c.3 == 1 {
        None
    } else {
        Some(Color::Rgb(c.0, c.1, c.2))
    }
}

/// The style of a highlighted piece: its foreground color, and bold, underline
/// and italic from font-style bits 1, 2 and 4.
pub open spec fn piece_style(fg: (u8, u8, u8, u8), bits: u8) -> Style {
    Style {
        fg: color_of(fg),
        bold: bits & 1 != 0,
        underline: bits & 2 != 0,
        italic: bits & 4 != 0,
        ..plain_style()
    }
}

pub fn to_style(fg: (u8, u8, u8, u8), bits: u8) -> (r: Style)
    ensures
        r == piece_style(fg, bits),
{
    Style {
        fg: convert(fg),
        bold: bits & 1 != 0,
        underline: bits & 2 != 0,
        italic: bits & 4 != 0,
        ..Style::default()
    }
}

/// `a + b`, at most `usize::MAX`.
pub open spec fn add_sat(a: int, b: int) -> int {
    if a + b > usize::MAX { usize::MAX as int } else { a + b }
}

/// Tabs of `s` expanded to the next multiple of four columns, counting from
/// column `col`, and the column reached.
pub open spec fn expand_chars(s: Seq<char>, col: int) -> (Seq<char>, int)
    decreases s.len(),
{
    if s.len() == 0 {
        (Seq::empty(), col)
    } else {
        let p = expand_chars(s.drop_last(), col);
        let c = s.last();
        if c == '\t' {
            let n = 4 - p.1 % 4;
            (p.0 + repeat(' ', n as nat), add_sat(p.1, n))
        } else {
            (p.0.push(c), add_sat(p.1, char_cols(c) as int))
        }
    }
}

/// Expands tabs given the starting column: the text and the new column. A text
/// without tabs is kept and measured as a whole.
pub open spec fn expanded(s: Seq<char>, col: int) -> (Seq<char>, int) {
    if !s.contains('\t') {
        (s, add_sat(col, unicode_str_width(s) as int))
    } else {
        expand_chars(s, col)
    }
}

/// Expands tabs given the starting column; returns the text and the new column.
pub fn expand_tabs(s: &str, col: usize) -> (r: (String, usize))
    ensures
        (r.0@, r.1 as int) == expanded(s@, col as int),
{
    let v = chars_of(s);
    let mut has_tab = false;
    let mut i: usize = 0;
    while i < v.len()
        invariant
            i <= v@.len(),
            has_tab == (exists|k: int| 0 <= k < i && v@[k] == '\t'),
        decreases v@.len() - i,
    {
        if v[i] == '\t' {
            has_tab = true;
        }
        i += 1;
    }
    if !has_tab {
        assert(!s@.contains('\t'));
        return (s.to_owned(), col.saturating_add(str_width(s)));
    }
    assert(s@.contains('\t')) by {
        let k = choose|k: int| 0 <= k < i && v@[k] == '\t';
        assert(s@[k] == '\t');
    }
    let mut out = String::new();
    let mut c = col;
    let mut j: usize = 0;
    while j < v.len()
        invariant
            j <= v@.len(),
            v@ == s@,
            (out@, c as int) == expand_chars(v@.take(j as int), col as int),
        decreases v@.len() - j,
    {
        assert(v@.take(j + 1).drop_last() == v@.take(j as int));
        let ch = v[j];
        if ch == '\t' {
            let n = TAB_WIDTH - c % TAB_WIDTH;
            crate::text::push_repeat(&mut out, ' ', n);
            c = c.saturating_add(n);
        } else {
            push_char_to(&mut out, ch);
            c = c.saturating_add(char_width(ch));
        }
        j += 1;
    }
    assert(v@.take(j as int) == s@);
    (out, c)
}

/// Separators between the words of a code block's info string.
pub open spec fn is_lang_sep(c: char) -> bool {
    c == ',' || c == '{' || c == '}' || unicode_whitespace(c)
}

/// First index at or after `i` that is not a separator.
pub open spec fn skip_seps(s: Seq<char>, i: int) -> int
    decreases s.len() - i,
{
    if i < 0 || i >= s.len() {
        s.len() as int
    } else if is_lang_sep(s[i]) {
        skip_seps(s, i + 1)
    } else {
        i
    }
}

/// First index at or after `i` that is a separator.
pub open spec fn token_end(s: Seq<char>, i: int) -> int
    decreases s.len() - i,
{
    if i < 0 || i >= s.len() {
        s.len() as int
    } else if is_lang_sep(s[i]) {
        i
    } else {
        token_end(s, i + 1)
    }
}

/// The first word of an info string.
pub open spec fn first_token(s: Seq<char>) -> Seq<char> {
    let a = skip_seps(s, 0);
    s.subrange(a, token_end(s, a))
}

/// `t` without leading dots.
pub open spec fn trim_dots(t: Seq<char>) -> Seq<char>
    decreases t.len(),
{
    if t.len() > 0 && t[0] == '.' {
        trim_dots(t.skip(1))
    } else {
        t
    }
}

/// The syntax name for a lowercased language alias; empty for plain text.
pub open spec fn lang_alias(l: Seq<char>) -> Option<Seq<char>> {
    if l == "shell"@ || l == "console"@ || l == "shell-session"@ || l == "zsh"@ || l == "sh"@ {
        Some("bash"@)
    } else if l == "c++"@ {
        Some("cpp"@)
    } else if l == "golang"@ {
        Some("go"@)
    } else if l == "jsonc"@ || l == "json5"@ {
        Some("json"@)
    } else if l == "text"@ || l == "txt"@ || l == "plain"@ || l == "plaintext"@ || l == "output"@ {
        Some(Seq::empty())
    } else if l == "py3"@ || l == "python3"@ {
        Some("py"@)
    } else if l == "ps1"@ || l == "pwsh"@ {
        Some("powershell"@)
    } else {
        None
    }
}

/// The language named by a code block's info string: its first word without
/// leading dots, with common aliases mapped to syntax names.
pub open spec fn normalized_lang(info: Seq<char>) -> Seq<char> {
    let tok = trim_dots(first_token(info));
    match lang_alias(ascii_lower(tok)) {
        Some(a) => a,
        None => tok,
    }
}

proof fn lemma_token_end_all(s: Seq<char>, i: int)
    requires
        0 <= i <= s.len(),
        forall|k: int| 0 <= k < s.len() ==> !is_lang_sep(#[trigger] s[k]),
    ensures
        token_end(s, i) == s.len(),
    decreases s.len() - i,
{
    if i < s.len() {
        lemma_token_end_all(s, i + 1);
    }
}

/// A word that can name a language on its own: not empty, no separator in it, and no
/// leading dot.
pub open spec fn lang_word(t: Seq<char>) -> bool {
    &&& t.len() > 0
    &&& t[0] != '.'
    &&& forall|k: int| 0 <= k < t.len() ==> !is_lang_sep(#[trigger] t[k])
}

proof fn lemma_lang_word(t: Seq<char>)
    requires
        lang_word(t),
    ensures
        first_token(t) == t,
        trim_dots(t) == t,
{
    lemma_token_end_all(t, 0);
    assert(skip_seps(t, 0) == 0);
    assert(t.subrange(0, t.len() as int) =~= t);
}

/// The shell names, in any ASCII case, name the Bash syntax: `sh`, `shell`, `zsh`,
/// `console` and `shell-session` all normalize to `bash`.
pub proof fn lemma_shell_names_are_bash(t: Seq<char>)
    requires
        lang_word(t),
        ascii_lower(t) == "sh"@ || ascii_lower(t) == "shell"@ || ascii_lower(t) == "zsh"@ || ascii_lower(t)
            == "console"@ || ascii_lower(t) == "shell-session"@,
    ensures
        normalized_lang(t) == "bash"@,
{
    lemma_lang_word(t);
}

/// Only the plain-text names leave a block unhighlighted: a language word normalizes to
/// nothing exactly when, in ASCII lowercase, it is `text`, `txt`, `plain`, `plaintext` or
/// `output`.
pub proof fn lemma_plain_names(t: Seq<char>)
    requires
        lang_word(t),
    ensures
        normalized_lang(t).len() == 0 <==> (ascii_lower(t) == "text"@ || ascii_lower(t) == "txt"@ || ascii_lower(t)
            == "plain"@ || ascii_lower(t) == "plaintext"@ || ascii_lower(t) == "output"@),
{
    lemma_lang_word(t);
    reveal_strlit("shell");
    reveal_strlit("console");
    reveal_strlit("shell-session");
    reveal_strlit("zsh");
    reveal_strlit("sh");
    reveal_strlit("c++");
    reveal_strlit("golang");
    reveal_strlit("jsonc");
    reveal_strlit("json5");
    reveal_strlit("text");
    reveal_strlit("txt");
    reveal_strlit("plain");
    reveal_strlit("plaintext");
    reveal_strlit("output");
    reveal_strlit("py3");
    reveal_strlit("python3");
    reveal_strlit("ps1");
    reveal_strlit("pwsh");
    reveal_strlit("bash");
    reveal_strlit("cpp");
    reveal_strlit("go");
    reveal_strlit("json");
    reveal_strlit("py");
    reveal_strlit("powershell");
    let l = ascii_lower(t);
    assert(l.len() == t.len());
    if l == "text"@ {
        assert(l.len() != "shell"@.len());
        assert(l.len() != "console"@.len());
        assert(l.len() != "shell-session"@.len());
        assert(l.len() != "zsh"@.len());
        assert(l.len() != "sh"@.len());
        assert(l.len() != "c++"@.len());
        assert(l.len() != "golang"@.len());
        assert(l.len() != "jsonc"@.len());
        assert(l.len() != "json5"@.len());
    }
    if l == "txt"@ {
        assert(l.len() != "shell"@.len());
        assert(l.len() != "console"@.len());
        assert(l.len() != "shell-session"@.len());
        assert(l[0] != "zsh"@[0]);
        assert(l.len() != "sh"@.len());
        assert(l[0] != "c++"@[0]);
        assert(l.len() != "golang"@.len());
        assert(l.len() != "jsonc"@.len());
        assert(l.len() != "json5"@.len());
    }
    if l == "plain"@ {
        assert(l[0] != "shell"@[0]);
        assert(l.len() != "console"@.len());
        assert(l.len() != "shell-session"@.len());
        assert(l.len() != "zsh"@.len());
        assert(l.len() != "sh"@.len());
        assert(l.len() != "c++"@.len());
        assert(l.len() != "golang"@.len());
        assert(l[0] != "jsonc"@[0]);
        assert(l[0] != "json5"@[0]);
    }
    if l == "plaintext"@ {
        assert(l.len() != "shell"@.len());
        assert(l.len() != "console"@.len());
        assert(l.len() != "shell-session"@.len());
        assert(l.len() != "zsh"@.len());
        assert(l.len() != "sh"@.len());
        assert(l.len() != "c++"@.len());
        assert(l.len() != "golang"@.len());
        assert(l.len() != "jsonc"@.len());
        assert(l.len() != "json5"@.len());
    }
    if l == "output"@ {
        assert(l.len() != "shell"@.len());
        assert(l.len() != "console"@.len());
        assert(l.len() != "shell-session"@.len());
        assert(l.len() != "zsh"@.len());
        assert(l.len() != "sh"@.len());
        assert(l.len() != "c++"@.len());
        assert(l[0] != "golang"@[0]);
        assert(l.len() != "jsonc"@.len());
        assert(l.len() != "json5"@.len());
    }
}

fn is_lang_sep_exec(c: char) -> (r: bool)
    ensures
        r == is_lang_sep(c),
{
    c == ',' || c == '{' || c == '}' || is_whitespace(c)
}

pub(crate) fn eq_str(v: &Vec<char>, s: &str) -> (r: bool)
    ensures
        r == (v@ == s@),
{
    let w = chars_of(s);
    if v.len() != w.len() {
        return false;
    }
    let mut i: usize = 0;
    while i < v.len()
        invariant
            i <= v@.len(),
            v@.len() == w@.len(),
            w@ == s@,
            forall|k: int| 0 <= k < i ==> v@[k] == w@[k],
        decreases v@.len() - i,
    {
        if v[i] != w[i] {
            return false;
        }
        i += 1;
    }
    assert(v@ == w@);
    true
}

fn alias_exec(l: &Vec<char>) -> (r: Option<&'static str>)
    ensures
        match lang_alias(l@) {
            Some(a) => r matches Some(x) && x@ == a,
            None => r is None,
        },
{
    if eq_str(l, "shell") || eq_str(l, "console") || eq_str(l, "shell-session") || eq_str(l, "zsh") || eq_str(l, "sh") {
        Some("bash")
    } else if eq_str(l, "c++") {
        Some("cpp")
    } else if eq_str(l, "golang") {
        Some("go")
    } else if eq_str(l, "jsonc") || eq_str(l, "json5") {
        Some("json")
    } else if eq_str(l, "text") || eq_str(l, "txt") || eq_str(l, "plain") || eq_str(l, "plaintext") || eq_str(l, "output") {
        proof {
            reveal_strlit("");
        }
        Some("")
    } else if eq_str(l, "py3") || eq_str(l, "python3") {
        Some("py")
    } else if eq_str(l, "ps1") || eq_str(l, "pwsh") {
        Some("powershell")
    } else {
        None
    }
}

/// The language named by a code block's info string.
pub fn normalize_lang(info: &str) -> (r: String)
    ensures
        r@ == normalized_lang(info@),
{
    let v = chars_of(info);
    let n = v.len();
    let mut a: usize = 0;
    while a < n && is_lang_sep_exec(v[a])
        invariant
            a <= n,
            n == v@.len(),
            skip_seps(v@, 0) == skip_seps(v@, a as int),
        decreases n - a,
    {
        a += 1;
    }
    let mut b = a;
    while b < n && !is_lang_sep_exec(v[b])
        invariant
            a <= b <= n,
            n == v@.len(),
            token_end(v@, a as int) == token_end(v@, b as int),
        decreases n - b,
    {
        b += 1;
    }
    let mut d = a;
    let ghost tok = v@.subrange(a as int, b as int);
    while d < b && v[d] == '.'
        invariant
            a <= d <= b <= n,
            n == v@.len(),
            tok == v@.subrange(a as int, b as int),
            trim_dots(tok) == trim_dots(v@.subrange(d as int, b as int)),
        decreases b - d,
    {
        assert(v@.subrange(d as int, b as int).skip(1) == v@.subrange(d + 1, b as int));
        d += 1;
    }
    let mut t: Vec<char> = Vec::new();
    let mut i = d;
    while i < b
        invariant
            d <= i <= b <= n,
            n == v@.len(),
            t@ == v@.subrange(d as int, i as int),
        decreases b - i,
    {
        t.push(v[i]);
        assert(v@.subrange(d as int, i + 1) == v@.subrange(d as int, i as int).push(v@[i as int]));
        i += 1;
    }
    let lower = ascii_lower_vec(&t);
    match alias_exec(&lower) {
        Some(x) => x.to_owned(),
        None => crate::text::string_of(&t),
    }
}

/// The lines of `s` each with its line feed kept (the last may lack one).
pub open spec fn lines_with_endings(s: Seq<char>) -> Seq<Seq<char>>
    decreases s.len(),
{
    if s.len() == 0 {
        Seq::empty()
    } else {
        match newline_from(s, 0) {
            Some(k) => if 0 <= k < s.len() {
                seq![s.take(k + 1)] + lines_with_endings(s.skip(k + 1))
            } else {
                Seq::empty()
            },
            None => seq![s],
        }
    }
}

/// `s` without trailing line feeds and carriage returns.
pub open spec fn trim_newlines(s: Seq<char>) -> Seq<char>
    decreases s.len(),
{
    if s.len() > 0 && (s.last() == '\n' || s.last() == '\r') {
        trim_newlines(s.drop_last())
    } else {
        s
    }
}

/// Splits `s` after each line feed.
pub fn split_lines_with_endings(s: &str) -> (r: Vec<String>)
    ensures
        r@.map_values(|x: String| x@) == lines_with_endings(s@),
{
    let v = chars_of(s);
    let n = v.len();
    let mut out: Vec<String> = Vec::new();
    let mut start: usize = 0;
    assert(v@.skip(0) == v@);
    while start < n
        invariant
            start <= n,
            n == v@.len(),
            lines_with_endings(v@) == out@.map_values(|x: String| x@) + lines_with_endings(v@.skip(start as int)),
        decreases n - start,
    {
        let ghost rest = v@.skip(start as int);
        let mut k = start;
        while k < n && v[k] != '\n'
            invariant
                start <= k <= n,
                n == v@.len(),
                rest == v@.skip(start as int),
                newline_from(rest, 0) == newline_from(rest, (k - start) as int),
            decreases n - k,
        {
            k += 1;
        }
        let end = if k < n { k + 1 } else { n };
        let mut line = String::new();
        push_chars(&mut line, &v, start, end);
        let ghost before = out@.map_values(|x: String| x@);
        proof {
            if k < n {
                assert(newline_from(rest, (k - start) as int) == Some((k - start) as int));
                assert(rest.take((k - start) + 1) == v@.subrange(start as int, end as int));
                assert(rest.skip((k - start) + 1) == v@.skip(end as int));
            } else {
                assert(newline_from(rest, (k - start) as int) == None::<int>);
                assert(rest == v@.subrange(start as int, end as int));
                assert(v@.skip(n as int) == Seq::<char>::empty());
            }
        }
        out.push(line);
        assert(out@.map_values(|x: String| x@) == before.push(v@.subrange(start as int, end as int)));
        start = end;
    }
    assert(lines_with_endings(v@.skip(start as int)) == Seq::<Seq<char>>::empty());
    out
}

/// `s` without trailing line feeds and carriage returns.
pub fn trim_line_end(s: &str) -> (r: String)
    ensures
        r@ == trim_newlines(s@),
{
    let v = chars_of(s);
    let mut e = v.len();
    assert(v@.take(e as int) == v@);
    while e > 0 && (v[e - 1] == '\n' || v[e - 1] == '\r')
        invariant
            e <= v@.len(),
            trim_newlines(v@) == trim_newlines(v@.take(e as int)),
        decreases e,
    {
        assert(v@.take(e as int).drop_last() == v@.take(e - 1));
        e -= 1;
    }
    let mut out = String::new();
    push_chars(&mut out, &v, 0, e);
    assert(v@.subrange(0, e as int) == v@.take(e as int));
    out
}

/// Spans for the styled pieces of one highlighted line: line endings dropped,
/// empty pieces skipped, tabs expanded with the column carried from piece to piece.
pub open spec fn pieces_spans(pieces: Seq<((u8, u8, u8, u8), u8, Seq<char>)>) -> (Seq<(Seq<char>, Style)>, int)
    decreases pieces.len(),
{
    if pieces.len() == 0 {
        (Seq::empty(), 0)
    } else {
        let p = pieces_spans(pieces.drop_last());
        let last = pieces.last();
        let text = trim_newlines(last.2);
        if text.len() == 0 {
            p
        } else {
            let e = expanded(text, p.1);
            (p.0.push((e.0, piece_style(last.0, last.1))), e.1)
        }
    }
}

proof fn lemma_pieces_links(pieces: Seq<((u8, u8, u8, u8), u8, Seq<char>)>)
    ensures
        forall|i: int| 0 <= i < pieces_spans(pieces).0.len() ==> (#[trigger] pieces_spans(pieces).0[i]).1.link == 0,
    decreases pieces.len(),
{
    if pieces.len() > 0 {
        lemma_pieces_links(pieces.drop_last());
    }
}

/// The views of highlighted pieces.
pub open spec fn pieces_view(v: Seq<((u8, u8, u8, u8), u8, String)>) -> Seq<((u8, u8, u8, u8), u8, Seq<char>)> {
    v.map_values(|p: ((u8, u8, u8, u8), u8, String)| (p.0, p.1, p.2@))
}

/// Spans for the styled pieces of one highlighted line.
pub fn pieces_to_spans(pieces: &Vec<((u8, u8, u8, u8), u8, String)>) -> (r: Vec<Span>)
    ensures
        span_views(r@) == pieces_spans(pieces_view(pieces@)).0,
{
    let ghost pv = pieces_view(pieces@);
    let mut spans: Vec<Span> = Vec::new();
    let mut col: usize = 0;
    let mut i: usize = 0;
    while i < pieces.len()
        invariant
            i <= pieces@.len(),
            pv == pieces_view(pieces@),
            (span_views(spans@), col as int) == pieces_spans(pv.take(i as int)),
        decreases pieces@.len() - i,
    {
        assert(pv.take(i + 1).drop_last() == pv.take(i as int));
        let p = &pieces[i];
        let text = trim_line_end(p.2.as_str());
        if !text.as_str().is_empty() {
            let (t, c) = expand_tabs(text.as_str(), col);
            col = c;
            let ghost before = span_views(spans@);
            spans.push(Span { text: t, style: to_style(p.0, p.1) });
            assert(span_views(spans@) == before.push((t@, piece_style(p.0, p.1))));
        }
        i += 1;
    }
    assert(pv.take(i as int) == pv);
    spans
}

/// A source line of code without tabs or carriage returns.
pub open spec fn simple_code_line(l: Seq<char>) -> bool {
    !l.contains('\t') && !l.contains('\r')
}

/// `hl` is a highlighting of `code`: a line for each of its lines, and each line
/// without tabs or carriage returns keeps its text, without its line feed.
pub open spec fn highlighted_code(code: Seq<char>, hl: Seq<Seq<(Seq<char>, Style)>>) -> bool {
    &&& hl.len() == lines_with_endings(code).len()
    &&& forall|i: int|
        0 <= i < hl.len() && simple_code_line(lines_with_endings(code)[i])
            ==> #[trigger] crate::wrap::line_text(hl[i]) == trim_newlines(lines_with_endings(code)[i])
}

proof fn lemma_trim_keeps(x: Seq<char>)
    requires
        x.len() == 0 || (x.last() != '\n' && x.last() != '\r'),
    ensures
        trim_newlines(x) == x,
{
}

proof fn lemma_trim_prefix(x: Seq<char>)
    ensures
        trim_newlines(x).len() <= x.len(),
        trim_newlines(x) == x.take(trim_newlines(x).len() as int),
    decreases x.len(),
{
    if x.len() > 0 && (x.last() == '\n' || x.last() == '\r') {
        lemma_trim_prefix(x.drop_last());
        assert(x.drop_last().take(trim_newlines(x).len() as int) == x.take(trim_newlines(x).len() as int));
    } else {
        assert(x.take(x.len() as int) == x);
    }
}

proof fn lemma_trim_concat(a: Seq<char>, b: Seq<char>)
    requires
        trim_newlines(b).len() > 0,
    ensures
        trim_newlines(a + b) == a + trim_newlines(b),
    decreases b.len(),
{
    if b.len() > 0 && (b.last() == '\n' || b.last() == '\r') {
        assert((a + b).drop_last() == a + b.drop_last());
        assert((a + b).last() == b.last());
        lemma_trim_concat(a, b.drop_last());
    } else {
        if b.len() > 0 {
            assert((a + b).last() == b.last());
        }
    }
}

/// Highlighted pieces of a line with a line feed at most at its end and no tab or
/// carriage return give spans whose text is the line without its line feed.
proof fn lemma_pieces_text(pieces: Seq<((u8, u8, u8, u8), u8, Seq<char>)>)
    requires
        simple_code_line(pieces_text(pieces)),
        forall|j: int| 0 <= j < pieces_text(pieces).len() - 1 ==> #[trigger] pieces_text(pieces)[j] != '\n',
    ensures
        crate::wrap::line_text(pieces_spans(pieces).0) == trim_newlines(pieces_text(pieces)),
    decreases pieces.len(),
{
    if pieces.len() == 0 {
        assert(crate::wrap::line_text(Seq::<(Seq<char>, Style)>::empty()) == Seq::<char>::empty());
    } else {
        let pre = pieces.drop_last();
        let last = pieces.last();
        let a = pieces_text(pre);
        let t = pieces_text(pieces);
        assert(t == a + last.2);
        assert forall|j: int| 0 <= j < a.len() implies a[j] == #[trigger] t[j] by {}
        assert(!a.contains('\t')) by {
            if a.contains('\t') {
                let j = choose|j: int| 0 <= j < a.len() && a[j] == '\t';
                assert(t[j] == '\t');
            }
        }
        assert(!a.contains('\r')) by {
            if a.contains('\r') {
                let j = choose|j: int| 0 <= j < a.len() && a[j] == '\r';
                assert(t[j] == '\r');
            }
        }
        if last.2.len() == 0 {
            assert(t == a);
            lemma_pieces_text(pre);
        } else {
            assert forall|j: int| 0 <= j < a.len() implies #[trigger] a[j] != '\n' by {
                assert(a[j] == t[j]);
            }
            assert forall|j: int| 0 <= j < a.len() - 1 implies #[trigger] a[j] != '\n' by {
                assert(a[j] == t[j]);
            }
            lemma_pieces_text(pre);
            if a.len() > 0 {
                assert(a.last() == a[a.len() - 1]);
            }
            lemma_trim_keeps(a);
            let tt = trim_newlines(last.2);
            lemma_trim_prefix(last.2);
            if tt.len() == 0 {
                // the last piece is a lone line feed
                assert(last.2.len() == 1) by {
                    if last.2.len() > 1 {
                        assert(t[a.len() as int] == last.2[0]);
                        assert(last.2[0] != '\n');
                        assert(last.2[0] != '\r') by {
                            assert(t[a.len() as int] == last.2[0]);
                        }
                        assert(trim_newlines(last.2).len() > 0) by {
                            lemma_trim_nonempty(last.2);
                        }
                    }
                }
                assert(last.2 == seq![last.2[0]]);
                assert(last.2[0] == '\n' || last.2[0] == '\r') by {
                    if !(last.2[0] == '\n' || last.2[0] == '\r') {
                        lemma_trim_keeps(last.2);
                    }
                }
                assert(t.drop_last() == a);
                assert(t.last() == last.2[0]);
                assert(trim_newlines(t) == trim_newlines(a));
            } else {
                lemma_trim_concat(a, last.2);
                assert(!tt.contains('\t')) by {
                    if tt.contains('\t') {
                        let j = choose|j: int| 0 <= j < tt.len() && tt[j] == '\t';
                        assert(tt[j] == last.2[j]);
                        assert(t[a.len() + j] == '\t');
                    }
                }
                let p = pieces_spans(pre);
                assert(expanded(tt, p.1).0 == tt);
                assert(pieces_spans(pieces).0 == p.0.push((tt, piece_style(last.0, last.1))));
                assert(pieces_spans(pieces).0.drop_last() == p.0);
            }
        }
    }
}

proof fn lemma_no_newline_before(s: Seq<char>, i: int)
    requires
        0 <= i,
    ensures
        newline_from(s, i) matches Some(k) ==> forall|j: int| i <= j < k ==> #[trigger] s[j] != '\n',
    decreases s.len() - i,
{
    if i < s.len() && s[i] != '\n' {
        lemma_no_newline_before(s, i + 1);
    }
}

/// `str::lines` and the lines with their endings agree: as many lines, a line feed
/// only at the end of a line with its ending, and the same text for a line without
/// tabs or carriage returns.
proof fn lemma_lines_match(s: Seq<char>)
    ensures
        text_lines(s).len() == lines_with_endings(s).len(),
        forall|i: int|
            0 <= i < text_lines(s).len() && simple_code_line(lines_with_endings(s)[i])
                ==> #[trigger] text_lines(s)[i] == trim_newlines(lines_with_endings(s)[i]),
        forall|i: int, j: int|
            0 <= i < lines_with_endings(s).len() && 0 <= j < lines_with_endings(s)[i].len() - 1
                ==> #[trigger] lines_with_endings(s)[i][j] != '\n',
    decreases s.len(),
{
    if s.len() > 0 {
        crate::pager::lemma_newline_from(s, 0);
        lemma_no_newline_before(s, 0);
        match newline_from(s, 0) {
            Some(k) => {
                let seg = s.take(k);
                let rest = s.skip(k + 1);
                lemma_lines_match(rest);
                let tl = text_lines(s);
                let lw = lines_with_endings(s);
                assert(tl == seq![crate::pager::trim_cr(seg)] + text_lines(rest));
                assert(lw == seq![s.take(k + 1)] + lines_with_endings(rest));
                assert(s.take(k + 1) == seg.push('\n'));
                assert forall|i: int|
                    0 <= i < tl.len() && simple_code_line(lw[i]) implies #[trigger] tl[i] == trim_newlines(lw[i]) by {
                    if i == 0 {
                        assert(lw[0] == seg.push('\n'));
                        if seg.len() > 0 {
                            assert(seg.last() == lw[0][seg.len() - 1]);
                            assert(seg.last() != '\r');
                            assert(seg.last() != '\n');
                        }
                        assert(crate::pager::trim_cr(seg) == seg);
                        assert(seg.push('\n').drop_last() == seg);
                        lemma_trim_keeps(seg);
                    } else {
                        assert(tl[i] == text_lines(rest)[i - 1]);
                        assert(lw[i] == lines_with_endings(rest)[i - 1]);
                    }
                }
                assert forall|i: int, j: int| 0 <= i < lw.len() && 0 <= j < lw[i].len() - 1 implies #[trigger] lw[i][j]
                    != '\n' by {
                    if i == 0 {
                        assert(lw[0][j] == s[j]);
                    } else {
                        assert(lw[i] == lines_with_endings(rest)[i - 1]);
                    }
                }
            },
            None => {
                assert(text_lines(s) == seq![s]);
                assert(lines_with_endings(s) == seq![s]);
                if s.len() > 0 && simple_code_line(s) {
                    assert(s.last() == s[s.len() - 1]);
                    lemma_trim_keeps(s);
                }
            },
        }
    }
}

/// A text whose first character is no line feed or carriage return keeps it when trimmed.
proof fn lemma_trim_nonempty(x: Seq<char>)
    requires
        x.len() > 0,
        x[0] != '\n' && x[0] != '\r',
    ensures
        trim_newlines(x).len() > 0,
    decreases x.len(),
{
    if x.last() == '\n' || x.last() == '\r' {
        assert(x.len() > 1);
        assert(x.drop_last()[0] == x[0]);
        lemma_trim_nonempty(x.drop_last());
    }
}

/// The fallback rendering of a line of code: one span, tabs expanded.
pub open spec fn plain_code_line(line: Seq<char>, base: Style) -> Seq<(Seq<char>, Style)> {
    seq![(expanded(line, 0).0, base)]
}

/// The fallback rendering of a source line without tabs or carriage returns is its
/// text without its line feed.
proof fn lemma_plain_line_text(l: Seq<char>, base: Style)
    requires
        simple_code_line(l),
    ensures
        crate::wrap::line_text(plain_code_line(trim_newlines(l), base)) == trim_newlines(l),
{
    lemma_trim_prefix(l);
    let t = trim_newlines(l);
    assert(!t.contains('\t')) by {
        if t.contains('\t') {
            let j = choose|j: int| 0 <= j < t.len() && t[j] == '\t';
            assert(t[j] == l[j]);
        }
    }
    let line = plain_code_line(t, base);
    assert(line.drop_last().len() == 0);
    assert(crate::wrap::line_text(line.drop_last()) == Seq::<char>::empty());
    assert(Seq::<char>::empty() + t == t);
}

/// Plain lines of `code` are a highlighting of it.
proof fn lemma_plain_highlighted(code: Seq<char>, base: Style)
    ensures
        highlighted_code(code, text_lines(code).map_values(|l: Seq<char>| plain_code_line(l, base))),
{
    lemma_lines_match(code);
    let pl = text_lines(code).map_values(|l: Seq<char>| plain_code_line(l, base));
    assert forall|i: int|
        0 <= i < pl.len() && simple_code_line(lines_with_endings(code)[i]) implies #[trigger] crate::wrap::line_text(
        pl[i],
    ) == trim_newlines(lines_with_endings(code)[i]) by {
        lemma_plain_line_text(lines_with_endings(code)[i], base);
        assert(text_lines(code)[i] == trim_newlines(lines_with_endings(code)[i]));
    }
}

/// Loads code themes and grammars and highlights code blocks.
pub struct Highlighter {
    theme: Theme,
    theme_name: String,
    syntaxes: Option<SyntaxSet>,
    background: Option<Color>,
    foreground: Option<Color>,
}

/// A theme color, where there is one, as a terminal color.
pub open spec fn color_opt(c: Option<(u8, u8, u8, u8)>) -> Option<Color> {
    match c {
        Some(c) => color_of(c),
        None => None,
    }
}

/// The lines of a highlighted block: each line's pieces as spans, or its text in the
/// `base` style where it failed to highlight.
pub open spec fn highlighted_lines(
    runs: Seq<Option<Seq<((u8, u8, u8, u8), u8, Seq<char>)>>>,
    lines: Seq<Seq<char>>,
    base: Style,
) -> Seq<Seq<(Seq<char>, Style)>> {
    Seq::new(
        lines.len(),
        |i: int|
            match runs[i] {
                Some(p) => pieces_spans(p).0,
                None => plain_code_line(trim_newlines(lines[i]), base),
            },
    )
}

impl Highlighter {
    /// The theme's default background color.
    pub closed spec fn background_color(&self) -> Option<Color> {
        self.background
    }

    /// The theme's default foreground color.
    pub closed spec fn foreground_color(&self) -> Option<Color> {
        self.foreground
    }

    /// The name of the highlighter's theme.
    pub closed spec fn theme_named(&self) -> Seq<char> {
        self.theme_name@
    }

    /// The lines that highlighting `code` in `lang` gives: for a language that no syntax
    /// is found for (by token, else by lowercase extension), or none, the lines of `code`
    /// in the theme's foreground color; otherwise syntect's pieces of each line, where it
    /// highlights that line.
    pub closed spec fn highlighting(&self, lang: Seq<char>, code: Seq<char>) -> Seq<Seq<(Seq<char>, Style)>> {
        let base = Style { fg: self.foreground, ..plain_style() };
        let plain = text_lines(code).map_values(|l: Seq<char>| plain_code_line(l, base));
        let norm = normalized_lang(lang);
        let lines = lines_with_endings(code);
        if norm.len() == 0 {
            plain
        } else {
            match syntect_by_token(self.theme_name@, norm, lines) {
                Some(runs) => highlighted_lines(runs, lines, base),
                None => match syntect_by_extension(self.theme_name@, crate::text::ascii_lower(norm), lines) {
                    Some(runs) => highlighted_lines(runs, lines, base),
                    None => plain,
                },
            }
        }
    }

    /// A highlighter for the named theme of the embedded collection, with the theme's
    /// default colors.
    pub fn new(theme_name: &str) -> (r: Result<Highlighter, String>)
        ensures
            r is Ok <==> embedded_theme(theme_name@),
            r matches Err(e) ==> e@ == "unknown theme '"@ + theme_name@ + "' (see --list-themes)"@,
            r matches Ok(h) ==> {
                &&& h.theme_named() == theme_name@
                &&& h.background_color() == color_opt(theme_default_colors(theme_name@).0)
                &&& h.foreground_color() == color_opt(theme_default_colors(theme_name@).1)
            },
    {
        Self::with_theme(theme_by_name(theme_name), theme_name)
    }

    /// A highlighter for a looked-up theme and its colors; for none, the "unknown theme"
    /// error.
    fn with_theme(
        theme: Option<(Theme, Option<(u8, u8, u8, u8)>, Option<(u8, u8, u8, u8)>)>,
        theme_name: &str,
    ) -> (r: Result<Highlighter, String>)
        ensures
            r is Ok <==> theme is Some,
            r matches Err(e) ==> e@ == "unknown theme '"@ + theme_name@ + "' (see --list-themes)"@,
            r matches Ok(h) ==> theme matches Some(t) && h.theme_name@ == theme_name@ && h.background == color_opt(t.1)
                && h.foreground == color_opt(t.2) && h.syntaxes is None,
    {
        match theme {
            Some((theme, bg, fg)) => {
                let background = match bg {
                    Some(c) => convert(c),
                    None => None,
                };
                let foreground = match fg {
                    Some(c) => convert(c),
                    None => None,
                };
                Ok(Highlighter { theme, theme_name: theme_name.to_owned(), syntaxes: None, background, foreground })
            },
            None => {
                let mut e = String::new();
                push_str(&mut e, "unknown theme '");
                push_str(&mut e, theme_name);
                push_str(&mut e, "' (see --list-themes)");
                Err(e)
            },
        }
    }

    pub fn background(&self) -> (r: Option<Color>)
        ensures
            r == self.background_color(),
    {
        self.background
    }

    pub fn foreground(&self) -> (r: Option<Color>)
        ensures
            r == self.foreground_color(),
    {
        self.foreground
    }

    fn plain_lines(code: &str, base: Style) -> (r: Vec<Vec<Span>>)
        ensures
            r@.map_values(|l: Vec<Span>| span_views(l@))
                == text_lines(code@).map_values(|l: Seq<char>| plain_code_line(l, base)),
            forall|i: int, j: int|
                0 <= i < r@.len() && 0 <= j < r@[i]@.len() ==> (#[trigger] r@[i]@[j]).style == base,
    {
        let doc = crate::pager::Doc::new(code);
        let mut out: Vec<Vec<Span>> = Vec::new();
        let mut i: usize = 0;
        while i < doc.lines.len()
            invariant
                i <= doc.lines@.len(),
                doc.line_texts() == text_lines(code@),
                out@.map_values(|l: Vec<Span>| span_views(l@))
                    == doc.line_texts().take(i as int).map_values(|l: Seq<char>| plain_code_line(l, base)),
                forall|a: int, b: int|
                    0 <= a < out@.len() && 0 <= b < out@[a]@.len() ==> (#[trigger] out@[a]@[b]).style == base,
            decreases doc.lines@.len() - i,
        {
            let (t, _) = expand_tabs(doc.lines[i].as_str(), 0);
            let ghost before = out@.map_values(|l: Vec<Span>| span_views(l@));
            let mut line: Vec<Span> = Vec::new();
            line.push(Span { text: t, style: base });
            assert(span_views(line@) == plain_code_line(doc.line_texts()[i as int], base));
            out.push(line);
            assert(out@.map_values(|l: Vec<Span>| span_views(l@)) == before.push(span_views(line@)));
            assert(doc.line_texts().take(i + 1) == doc.line_texts().take(i as int).push(doc.line_texts()[i as int]));
            assert(doc.line_texts().take(i + 1).map_values(|l: Seq<char>| plain_code_line(l, base))
                == doc.line_texts().take(i as int).map_values(|l: Seq<char>| plain_code_line(l, base)).push(
                    plain_code_line(doc.line_texts()[i as int], base)));
            i += 1;
        }
        assert(doc.line_texts().take(i as int) == doc.line_texts());
        out
    }

    /// Returns one span list per source line (tabs expanded, line endings stripped):
    /// `highlighting(lang, code)`. Code in no known language gets one span per line in
    /// the theme's foreground color; otherwise each line is highlighted, falling back to
    /// that plain span for a line that fails to highlight.
    pub fn highlight(&mut self, lang: &str, code: &str) -> (r: Vec<Vec<Span>>)
        ensures
            final(self).background_color() == old(self).background_color(),
            final(self).foreground_color() == old(self).foreground_color(),
            final(self).theme_named() == old(self).theme_named(),
            final(self).highlighting(lang@, code@) == old(self).highlighting(lang@, code@),
            r@.map_values(|l: Vec<Span>| span_views(l@)) == old(self).highlighting(lang@, code@),
            forall|i: int, j: int|
                0 <= i < r@.len() && 0 <= j < r@[i]@.len() ==> (#[trigger] r@[i]@[j]).style.link == 0,
            highlighted_code(code@, r@.map_values(|l: Vec<Span>| span_views(l@))),
    {
        let base = Style { fg: self.foreground, ..Style::default() };
        let lang = normalize_lang(lang);
        proof {
            lemma_lines_match(code@);
            lemma_plain_highlighted(code@, base);
        }
        if lang.as_str().is_empty() {
            return Self::plain_lines(code, base);
        }
        if self.syntaxes.is_none() {
            self.syntaxes = Some(newline_syntaxes());
        }
        let lines = split_lines_with_endings(code);
        let ghost lv = lines@.map_values(|x: String| x@);
        let runs = match syntect_lines_by_token(self, lang.as_str(), &lines) {
            Some(v) => v,
            None => {
                let cv = chars_of(lang.as_str());
                let lower = crate::text::string_of(&ascii_lower_vec(&cv));
                match syntect_lines_by_extension(self, lower.as_str(), &lines) {
                    Some(v) => v,
                    None => {
                        return Self::plain_lines(code, base);
                    },
                }
            },
        };
        let ghost rv = runs_view(runs@);
        assert(rv.len() == lv.len());
        let mut out: Vec<Vec<Span>> = Vec::new();
        let mut i: usize = 0;
        while i < lines.len()
            invariant
                i <= lines@.len(),
                lv == lines@.map_values(|x: String| x@),
                lv == lines_with_endings(code@),
                rv == runs_view(runs@),
                runs_fit(rv, lv),
                out@.len() == i,
                base.link == 0,
                out@.map_values(|l: Vec<Span>| span_views(l@)) == highlighted_lines(rv, lv, base).take(i as int),
                forall|a: int|
                    0 <= a < i && simple_code_line(lv[a]) ==> #[trigger] crate::wrap::line_text(
                        span_views(out@[a]@),
                    ) == trim_newlines(lv[a]),
                forall|a: int, j: int|
                    0 <= a < lv.len() && 0 <= j < lv[a].len() - 1 ==> #[trigger] lv[a][j] != '\n',
                forall|a: int, b: int|
                    0 <= a < out@.len() && 0 <= b < out@[a]@.len() ==> (#[trigger] out@[a]@[b]).style.link == 0,
            decreases lines@.len() - i,
        {
            let l = lines[i].as_str();
            proof {
                assert(lv[i as int] == lines[i as int]@);
                assert(rv[i as int] == (match runs@[i as int] {
                    Some(p) => Some(pieces_view(p@)),
                    None => None,
                }));
            }
            let spans = match &runs[i] {
                Some(pieces) => {
                    let sp = pieces_to_spans(pieces);
                    proof {
                        let l = lv[i as int];
                        assert(rv[i as int] == Some(pieces_view(pieces@)));
                        assert(pieces_text(pieces_view(pieces@)) == l);
                        if simple_code_line(l) {
                            assert forall|j: int| 0 <= j < l.len() - 1 implies #[trigger] l[j] != '\n' by {
                                assert(lv[i as int][j] != '\n');
                            }
                            lemma_pieces_text(pieces_view(pieces@));
                        }
                        lemma_pieces_links(pieces_view(pieces@));
                        assert forall|b: int| 0 <= b < sp@.len() implies (#[trigger] sp@[b]).style.link == 0 by {
                            assert(span_views(sp@)[b].1 == sp@[b].style);
                        }
                        assert(span_views(sp@) == highlighted_lines(rv, lv, base)[i as int]);
                    }
                    sp
                },
                None => {
                    let text = trim_line_end(l);
                    let (t, _) = expand_tabs(text.as_str(), 0);
                    let mut one: Vec<Span> = Vec::new();
                    one.push(Span { text: t, style: base });
                    proof {
                        let l = lv[i as int];
                        assert(rv[i as int] is None);
                        assert(span_views(one@) == plain_code_line(trim_newlines(l), base));
                        if simple_code_line(l) {
                            lemma_plain_line_text(l, base);
                        }
                        assert(span_views(one@) == highlighted_lines(rv, lv, base)[i as int]);
                    }
                    one
                },
            };
            let ghost before = out@;
            let ghost sv = span_views(spans@);
            out.push(spans);
            proof {
                assert forall|a: int|
                    0 <= a < i + 1 && simple_code_line(lv[a]) implies #[trigger] crate::wrap::line_text(
                    span_views(out@[a]@),
                ) == trim_newlines(lv[a]) by {
                    if a < i {
                        assert(out@[a] == before[a]);
                    }
                }
                assert(out@.map_values(|l: Vec<Span>| span_views(l@)) == before.map_values(
                    |l: Vec<Span>| span_views(l@),
                ).push(sv));
                assert(highlighted_lines(rv, lv, base).take(i + 1) == highlighted_lines(rv, lv, base).take(
                    i as int,
                ).push(highlighted_lines(rv, lv, base)[i as int]));
            }
            i += 1;
        }
        let ghost mv = out@.map_values(|l: Vec<Span>| span_views(l@));
        assert(highlighted_lines(rv, lv, base).take(i as int) == highlighted_lines(rv, lv, base));
        assert(mv.len() == lv.len());
        assert forall|a: int|
            0 <= a < mv.len() && simple_code_line(lv[a]) implies crate::wrap::line_text(#[trigger] mv[a]) == trim_newlines(
            lv[a],
        ) by {
            assert(mv[a] == span_views(out@[a]@));
        }
        assert(highlighted_code(code@, mv));
        out
    }
}

} // verus!
