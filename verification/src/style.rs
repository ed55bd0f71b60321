//! Styled text spans and their serialization as ANSI SGR and OSC 8 escape sequences.

use vstd::prelude::*;

use crate::text::{decimal, push_char_to, push_decimal, push_str, string_of};

verus! {

/// A terminal color.
#[derive(Clone, Copy, PartialEq, Eq, Debug, Structural)]
pub enum Color {
    /// One of the 256 palette colors (0-15 follow the user's terminal theme).
    Ansi(u8),
    Rgb(u8, u8, u8),
}

/// How colors are written out.
#[derive(Clone, Copy, PartialEq, Eq, Debug, Structural)]
pub enum ColorMode {
    NoColor,
    Ansi256,
    TrueColor,
}

/// Text attributes of a span.
#[derive(Clone, Copy, PartialEq, Eq, Debug, Structural)]
pub struct Style {
    pub fg: Option<Color>,
    pub bg: Option<Color>,
    pub bold: bool,
    pub dim: bool,
    pub italic: bool,
    pub underline: bool,
    pub strike: bool,
    /// 1-based index into the link table; 0 means "not a link".
    pub link: u32,
}

/// The style with no attribute set.
pub open spec fn plain_style() -> Style {
    Style {
        fg: None,
        bg: None,
        bold: false,
        dim: false,
        italic: false,
        underline: false,
        strike: false,
        link: 0,
    }
}

impl Default for Style {
    fn default() -> (r: Style)
        ensures
            r == plain_style(),
    {
        Style {
            fg: None,
            bg: None,
            bold: false,
            dim: false,
            italic: false,
            underline: false,
            strike: false,
            link: 0,
        }
    }
}

/// `top` layered over `base`: colors set in `top` win, boolean attributes are
/// combined, and a nonzero link in `top` replaces the link of `base`.
pub open spec fn patched(base: Style, top: Style) -> Style {
    Style {
        fg: if top.fg is Some { top.fg } else { base.fg },
        bg: if top.bg is Some { top.bg } else { base.bg },
        bold: base.bold || top.bold,
        dim: base.dim || top.dim,
        italic: base.italic || top.italic,
        underline: base.underline || top.underline,
        strike: base.strike || top.strike,
        link: if top.link != 0 { top.link } else { base.link },
    }
}

impl Style {
    pub fn fg(c: Color) -> (r: Style)
        ensures
            r == (Style { fg: Some(c), ..plain_style() }),
    {
        Style { fg: Some(c), ..Style::default() }
    }

    pub fn bold(self) -> (r: Style)
        ensures
            r == (Style { bold: true, ..self }),
    {
        Style { bold: true, ..self }
    }

    pub fn dim(self) -> (r: Style)
        ensures
            r == (Style { dim: true, ..self }),
    {
        Style { dim: true, ..self }
    }

    pub fn italic(self) -> (r: Style)
        ensures
            r == (Style { italic: true, ..self }),
    {
        Style { italic: true, ..self }
    }

    pub fn on(self, bg: Color) -> (r: Style)
        ensures
            r == (Style { bg: Some(bg), ..self }),
    {
        Style { bg: Some(bg), ..self }
    }

    /// Layers `top` over `self`: set attributes/colors in `top` win.
    pub fn patch(self, top: Style) -> (r: Style)
        ensures
            r == patched(self, top),
    {
        Style {
            fg: if top.fg.is_some() { top.fg } else { self.fg },
            bg: if top.bg.is_some() { top.bg } else { self.bg },
            bold: self.bold || top.bold,
            dim: self.dim || top.dim,
            italic: self.italic || top.italic,
            underline: self.underline || top.underline,
            strike: self.strike || top.strike,
            link: if top.link != 0 { top.link } else { self.link },
        }
    }

    /// The same style, not a link.
    pub fn without_link(self) -> (r: Style)
        ensures
            r == (Style { link: 0, ..self }),
    {
        Style { link: 0, ..self }
    }
}

/// Layering the plain style over a style, or a style over the plain style,
/// leaves it unchanged.
pub proof fn lemma_patch_identity(s: Style)
    ensures
        patched(s, plain_style()) == s,
        patched(plain_style(), s) == s,
{
}

/// Layering is associative: patching with `b` then `c` equals patching with
/// `b` already patched by `c`.
pub proof fn lemma_patch_associative(a: Style, b: Style, c: Style)
    ensures
        patched(patched(a, b), c) == patched(a, patched(b, c)),
{
}

/// Layering a style over itself changes nothing.
pub proof fn lemma_patch_idempotent(s: Style)
    ensures
        patched(s, s) == s,
{
}

/// A run of text in one style.
#[derive(Clone, Debug)]
pub struct Span {
    pub text: String,
    pub style: Style,
}

/// The text and style of each span.
pub open spec fn span_views(spans: Seq<Span>) -> Seq<(Seq<char>, Style)> {
    spans.map_values(|sp: Span| (sp.text@, sp.style))
}

impl Span {
    pub fn new(text: &str, style: Style) -> (r: Span)
        ensures
            r.text@ == text@,
            r.style == style,
    {
        Span { text: text.to_owned(), style }
    }

    pub fn plain(text: &str) -> (r: Span)
        ensures
            r.text@ == text@,
            r.style == plain_style(),
    {
        Span { text: text.to_owned(), style: Style::default() }
    }

    /// A copy of this span.
    pub fn duplicate(&self) -> (r: Span)
        ensures
            r.text@ == self.text@,
            r.style == self.style,
    {
        Span { text: self.text.as_str().to_owned(), style: self.style }
    }
}

/// The display width of a character in terminal columns, `None` for control
/// characters, as given by the Unicode East Asian Width tables.
pub uninterp spec fn unicode_char_width(c: char) -> Option<usize>;

/// The display width of a string in terminal columns, as given by the Unicode
/// width tables applied to the whole string (emoji sequences, joiners and
/// variation selectors included).
pub uninterp spec fn unicode_str_width(s: Seq<char>) -> usize;

/// `UnicodeWidthChar::width`: `None` for the control characters below U+0020 and
/// from U+007F to U+009F, one column for printable ASCII, otherwise a table value
/// of at most three columns.
#[verifier::external_body]
fn unicode_width_of_char(c: char) -> (r: Option<usize>)
    ensures
        r == unicode_char_width(c),
        (' ' <= c && c <= '~') ==> r == Some(1usize),
        (c < ' ' || ('\x7f' <= c && c < '\u{a0}')) ==> r is None,
        r matches Some(n) ==> n <= 3,
{
    unicode_width::UnicodeWidthChar::width(c)
}

/// `UnicodeWidthStr::width`: the empty string has width zero, and a string made
/// only of characters up to U+00A0 with no carriage return counts one column per
/// character.
#[verifier::external_body]
fn unicode_width_of_str(s: &str) -> (r: usize)
    ensures
        r == unicode_str_width(s@),
        s@.len() == 0 ==> r == 0,
        (forall|i: int| 0 <= i < s@.len() ==> (s@[i] as u32) <= 0xa0 && s@[i] != '\r')
            ==> r == s@.len(),
{
    unicode_width::UnicodeWidthStr::width(s)
}

/// Width of a character as the layout code counts it: control characters take none.
pub open spec fn char_cols(c: char) -> nat {
    match unicode_char_width(c) {
        Some(n) => n as nat,
        None => 0,
    }
}

pub fn str_width(s: &str) -> (r: usize)
    ensures
        r == unicode_str_width(s@),
        s@.len() == 0 ==> r == 0,
        (forall|i: int| 0 <= i < s@.len() ==> (s@[i] as u32) <= 0xa0 && s@[i] != '\r')
            ==> r == s@.len(),
{
    unicode_width_of_str(s)
}

pub fn char_width(c: char) -> (r: usize)
    ensures
        r == char_cols(c),
        r <= 3,
        (' ' <= c && c <= '~') ==> r == 1,
        c < ' ' ==> r == 0,
{
    match unicode_width_of_char(c) {
        Some(n) => n,
        None => 0,
    }
}

/// Sum of the widths of the spans' texts.
pub open spec fn spans_cols(spans: Seq<(Seq<char>, Style)>) -> int
    decreases spans.len(),
{
    if spans.len() == 0 {
        0
    } else {
        spans_cols(spans.drop_last()) + unicode_str_width(spans.last().0)
    }
}

/// Widths add up over spans put one after another.
pub proof fn lemma_spans_cols_concat(a: Seq<(Seq<char>, Style)>, b: Seq<(Seq<char>, Style)>)
    ensures
        spans_cols(a + b) == spans_cols(a) + spans_cols(b),
    decreases b.len(),
{
    if b.len() == 0 {
        assert(a + b =~= a);
    } else {
        lemma_spans_cols_concat(a, b.drop_last());
        assert((a + b).drop_last() =~= a + b.drop_last());
        assert((a + b).last() == b.last());
    }
}

pub fn spans_width(spans: &[Span]) -> (r: usize)
    requires
        spans_cols(span_views(spans@)) <= usize::MAX,
    ensures
        r == spans_cols(span_views(spans@)),
{
    let mut total: usize = 0;
    let mut i: usize = 0;
    while i < spans.len()
        invariant
            i <= spans@.len(),
            spans_cols(span_views(spans@)) <= usize::MAX,
            total == spans_cols(span_views(spans@).take(i as int)),
        decreases spans@.len() - i,
    {
        proof {
            assert(span_views(spans@).take(i + 1).drop_last() == span_views(spans@).take(i as int));
            lemma_spans_cols_prefix(span_views(spans@), i + 1);
        }
        total = total + str_width(spans[i].text.as_str());
        i += 1;
    }
    assert(span_views(spans@).take(i as int) == span_views(spans@));
    total
}

/// The width of a prefix of spans is at most the width of all of them.
pub proof fn lemma_spans_cols_prefix(spans: Seq<(Seq<char>, Style)>, k: int)
    requires
        0 <= k <= spans.len(),
    ensures
        spans_cols(spans.take(k)) <= spans_cols(spans),
    decreases spans.len(),
{
    if k < spans.len() {
        assert(spans.drop_last().take(k) == spans.take(k));
        lemma_spans_cols_prefix(spans.drop_last(), k);
    } else {
        assert(spans.take(k) == spans);
    }
}

/// The escape sequence that ends a hyperlink.
pub open spec fn osc_close() -> Seq<char> {
    "\x1b]8;;\x1b\\"@
}

/// The escape sequence that starts a hyperlink to `url`.
pub open spec fn osc_open(url: Seq<char>) -> Seq<char> {
    "\x1b]8;;"@ + url + "\x1b\\"@
}

/// The SGR sequence that resets all attributes.
pub open spec fn sgr_reset() -> Seq<char> {
    "\x1b[0m"@
}

/// Cube level (0..=5) of one RGB channel in the 6x6x6 palette.
pub open spec fn cube_level(v: u8) -> int {
    if v < 48 {
        0
    } else if v < 115 {
        1
    } else {
        (v - 35) / 40
    }
}

/// Nearest entry of the 256-color palette: the grey ramp for grey colors,
/// the color cube otherwise.
pub open spec fn palette_index(r: u8, g: u8, b: u8) -> int {
    if r == g && g == b {
        if r < 8 {
            16
        } else if r >= 249 {
            231
        } else {
            232 + (r - 8) * 24 / 241
        }
    } else {
        16 + 36 * cube_level(r) + 6 * cube_level(g) + cube_level(b)
    }
}

fn cube_level_exec(v: u8) -> (r: u8)
    ensures
        r == cube_level(v),
        r <= 5,
{
    if v < 48 {
        0
    } else if v < 115 {
        1
    } else {
        (v - 35) / 40
    }
}

fn rgb_to_256(r: u8, g: u8, b: u8) -> (res: u8)
    ensures
        res == palette_index(r, g, b),
{
    if r == g && g == b {
        if r < 8 {
            return 16;
        } else if r >= 249 {
            return 231;
        } else {
            let k = ((r as u16 - 8) * 24 / 241) as u8;
            assert((r - 8) * 24 / 241 <= 23) by (nonlinear_arith)
                requires 8 <= r < 249;
            return 232 + k;
        }
    }
    let qr = cube_level_exec(r);
    let qg = cube_level_exec(g);
    let qb = cube_level_exec(b);
    16 + 36 * qr + 6 * qg + qb
}

/// Parameter text of the SGR code for a foreground (`bg` false) or background color.
pub open spec fn color_code(mode: ColorMode, c: Color, bg: bool) -> Seq<char> {
    let base: nat = if bg { 40 } else { 30 };
    match c {
        Color::Ansi(n) => if n < 8 {
            decimal((base + n) as nat)
        } else if n < 16 {
            decimal((base + 60 + n - 8) as nat)
        } else {
            decimal(base + 8) + ";5;"@ + decimal(n as nat)
        },
        Color::Rgb(r, g, b) => match mode {
            ColorMode::TrueColor => decimal(base + 8) + ";2;"@ + decimal(r as nat) + seq![';']
                + decimal(g as nat) + seq![';'] + decimal(b as nat),
            _ => decimal(base + 8) + ";5;"@ + decimal(palette_index(r, g, b) as nat),
        },
    }
}

/// The SGR parameters for a style, in order: bold, dim, italic, underline,
/// strikethrough, foreground, background.
pub open spec fn sgr_codes(mode: ColorMode, st: Style) -> Seq<Seq<char>> {
    (if st.bold { seq![seq!['1']] } else { Seq::empty() })
    + (if st.dim { seq![seq!['2']] } else { Seq::empty() })
    + (if st.italic { seq![seq!['3']] } else { Seq::empty() })
    + (if st.underline { seq![seq!['4']] } else { Seq::empty() })
    + (if st.strike { seq![seq!['9']] } else { Seq::empty() })
    + (match st.fg { Some(c) => seq![color_code(mode, c, false)], None => Seq::empty() })
    + (match st.bg { Some(c) => seq![color_code(mode, c, true)], None => Seq::empty() })
}

/// Codes separated by `;`.
pub open spec fn join_codes(codes: Seq<Seq<char>>) -> Seq<char>
    decreases codes.len(),
{
    if codes.len() == 0 {
        Seq::empty()
    } else if codes.len() == 1 {
        codes[0]
    } else {
        join_codes(codes.drop_last()) + seq![';'] + codes.last()
    }
}

/// The SGR sequence that selects `st`; nothing for the plain style.
pub open spec fn sgr(mode: ColorMode, st: Style) -> Seq<char> {
    if st == plain_style() {
        Seq::empty()
    } else {
        "\x1b["@ + join_codes(sgr_codes(mode, st)) + seq!['m']
    }
}

/// The link target id a span is written with: none without hyperlinks.
pub open spec fn link_of(hyperlinks: bool, st: Style) -> u32 {
    if hyperlinks { st.link } else { 0 }
}

/// Escape sequences that switch the open hyperlink from `cur_link` to `link`.
pub open spec fn link_switch(links: Seq<Seq<char>>, cur_link: u32, link: u32) -> Seq<char> {
    if link != cur_link {
        (if cur_link != 0 { osc_close() } else { Seq::empty() })
        + (if link != 0 { osc_open(links[link - 1]) } else { Seq::empty() })
    } else {
        Seq::empty()
    }
}

/// Escape sequences that switch the current style to `st` (links aside), and the
/// style in effect afterwards; nothing without colors or when it is already in effect.
pub open spec fn style_switch(mode: ColorMode, cur: Style, st: Style) -> (Seq<char>, Style) {
    let bare = Style { link: 0, ..st };
    if mode != ColorMode::NoColor && bare != cur {
        ((if cur != plain_style() { sgr_reset() } else { Seq::empty() }) + sgr(mode, bare), bare)
    } else {
        (Seq::empty(), cur)
    }
}

/// What writing one span emits, and the (style, link) state after it, given the
/// state before it. Empty spans emit nothing.
pub open spec fn span_output(
    mode: ColorMode,
    hyperlinks: bool,
    links: Seq<Seq<char>>,
    cur: Style,
    cur_link: u32,
    text: Seq<char>,
    st: Style,
) -> (Seq<char>, Style, u32) {
    if text.len() == 0 {
        (Seq::empty(), cur, cur_link)
    } else {
        let link = link_of(hyperlinks, st);
        let sw = style_switch(mode, cur, st);
        (link_switch(links, cur_link, link) + sw.0 + text, sw.1, link)
    }
}

/// Output and final state after writing a sequence of spans.
pub open spec fn spans_output(
    mode: ColorMode,
    hyperlinks: bool,
    links: Seq<Seq<char>>,
    spans: Seq<(Seq<char>, Style)>,
) -> (Seq<char>, Style, u32)
    decreases spans.len(),
{
    if spans.len() == 0 {
        (Seq::empty(), plain_style(), 0)
    } else {
        let prev = spans_output(mode, hyperlinks, links, spans.drop_last());
        let step = span_output(mode, hyperlinks, links, prev.1, prev.2, spans.last().0, spans.last().1);
        (prev.0 + step.0, step.1, step.2)
    }
}

/// A full output line: the spans, then a reset of any open style and link, then a newline.
pub open spec fn line_output(
    mode: ColorMode,
    hyperlinks: bool,
    links: Seq<Seq<char>>,
    spans: Seq<(Seq<char>, Style)>,
) -> Seq<char> {
    let r = spans_output(mode, hyperlinks, links, spans);
    r.0 + (if r.1 != plain_style() { sgr_reset() } else { Seq::empty() })
        + (if r.2 != 0 { osc_close() } else { Seq::empty() }) + seq!['\n']
}

fn code_of(c: char) -> (r: String)
    ensures
        r@ == seq![c],
{
    let mut s = String::new();
    push_char_to(&mut s, c);
    assert(Seq::<char>::empty().push(c) == seq![c]);
    s
}

fn push_code(codes: &mut Vec<String>, s: String)
    ensures
        final(codes)@.map_values(|x: String| x@) == old(codes)@.map_values(|x: String| x@).push(s@),
{
    codes.push(s);
    assert(codes@.map_values(|x: String| x@) == old(codes)@.map_values(|x: String| x@).push(s@));
}

/// Serializes lines of spans into a terminal byte stream.
pub struct Writer {
    pub mode: ColorMode,
    pub hyperlinks: bool,
    pub links: Vec<String>,
}

impl Writer {
    /// The link targets, by 1-based link id.
    pub open spec fn link_targets(&self) -> Seq<Seq<char>> {
        self.links@.map_values(|u: String| u@)
    }

    /// Every nonempty span that is written as a link refers to a known target.
    pub open spec fn links_known(&self, spans: Seq<(Seq<char>, Style)>) -> bool {
        self.hyperlinks ==> forall|i: int|
            0 <= i < spans.len() && spans[i].0.len() > 0 ==> #[trigger] spans[i].1.link <= self.links@.len()
    }

    /// Registers a link target and returns its id (the new number of targets).
    pub fn add_link(&mut self, url: String) -> (id: u32)
        ensures
            final(self).mode == old(self).mode,
            final(self).hyperlinks == old(self).hyperlinks,
            final(self).links@ == old(self).links@.push(url),
            id == final(self).links@.len() as u32,
    {
        self.links.push(url);
        self.links.len() as u32
    }

    fn color_code(&self, c: Color, bg: bool) -> (r: String)
        ensures
            r@ == color_code(self.mode, c, bg),
    {
        let base: u128 = if bg { 40 } else { 30 };
        let mut out = String::new();
        match c {
            Color::Ansi(n) => {
                if n < 8 {
                    push_decimal(&mut out, base + n as u128);
                } else if n < 16 {
                    push_decimal(&mut out, base + 60 + n as u128 - 8);
                } else {
                    push_decimal(&mut out, base + 8);
                    push_str(&mut out, ";5;");
                    push_decimal(&mut out, n as u128);
                }
            },
            Color::Rgb(r, g, b) => {
                push_decimal(&mut out, base + 8);
                match self.mode {
                    ColorMode::TrueColor => {
                        push_str(&mut out, ";2;");
                        push_decimal(&mut out, r as u128);
                        push_char_to(&mut out, ';');
                        push_decimal(&mut out, g as u128);
                        push_char_to(&mut out, ';');
                        push_decimal(&mut out, b as u128);
                    },
                    _ => {
                        push_str(&mut out, ";5;");
                        push_decimal(&mut out, rgb_to_256(r, g, b) as u128);
                    },
                }
            },
        }
        out
    }

    fn sgr_code_list(&self, st: Style) -> (r: Vec<String>)
        ensures
            r@.map_values(|s: String| s@) == sgr_codes(self.mode, st),
    {
        let mut codes: Vec<String> = Vec::new();
        assert(codes@.map_values(|s: String| s@) == Seq::<Seq<char>>::empty());
        if st.bold {
            push_code(&mut codes, code_of('1'));
        }
        let ghost c1 = codes@.map_values(|s: String| s@);
        assert(c1 == (if st.bold { seq![seq!['1']] } else { Seq::<Seq<char>>::empty() }));
        if st.dim {
            push_code(&mut codes, code_of('2'));
        }
        let ghost c2 = codes@.map_values(|s: String| s@);
        assert(c2 == c1 + (if st.dim { seq![seq!['2']] } else { Seq::<Seq<char>>::empty() }));
        if st.italic {
            push_code(&mut codes, code_of('3'));
        }
        let ghost c3 = codes@.map_values(|s: String| s@);
        assert(c3 == c2 + (if st.italic { seq![seq!['3']] } else { Seq::<Seq<char>>::empty() }));
        if st.underline {
            push_code(&mut codes, code_of('4'));
        }
        let ghost c4 = codes@.map_values(|s: String| s@);
        assert(c4 == c3 + (if st.underline { seq![seq!['4']] } else { Seq::<Seq<char>>::empty() }));
        if st.strike {
            push_code(&mut codes, code_of('9'));
        }
        let ghost c5 = codes@.map_values(|s: String| s@);
        assert(c5 == c4 + (if st.strike { seq![seq!['9']] } else { Seq::<Seq<char>>::empty() }));
        match st.fg {
            Some(c) => push_code(&mut codes, self.color_code(c, false)),
            None => {},
        }
        let ghost c6 = codes@.map_values(|s: String| s@);
        assert(c6 == c5 + (match st.fg { Some(c) => seq![color_code(self.mode, c, false)], None => Seq::<Seq<char>>::empty() }));
        match st.bg {
            Some(c) => push_code(&mut codes, self.color_code(c, true)),
            None => {},
        }
        let ghost c7 = codes@.map_values(|s: String| s@);
        assert(c7 == c6 + (match st.bg { Some(c) => seq![color_code(self.mode, c, true)], None => Seq::<Seq<char>>::empty() }));
        codes
    }

    fn sgr(&self, out: &mut String, st: Style)
        ensures
            final(out)@ == old(out)@ + sgr(self.mode, st),
    {
        if st == Style::default() {
            return;
        }
        push_str(out, "\x1b[");
        let codes = self.sgr_code_list(st);
        let ghost cv = codes@.map_values(|s: String| s@);
        let ghost start = out@;
        let mut i: usize = 0;
        while i < codes.len()
            invariant
                i <= codes@.len(),
                cv == codes@.map_values(|s: String| s@),
                out@ == start + join_codes(cv.take(i as int)),
            decreases codes@.len() - i,
        {
            if i > 0 {
                push_char_to(out, ';');
            }
            push_str(out, codes[i].as_str());
            proof {
                assert(cv.take(i + 1).drop_last() == cv.take(i as int));
                if i == 0 {
                    assert(join_codes(cv.take(0)) == Seq::<char>::empty());
                    assert(join_codes(cv.take(1)) == cv[0]);
                }
            }
            i += 1;
        }
        assert(cv.take(i as int) == cv);
        push_char_to(out, 'm');
    }

    fn write_link_switch(&self, out: &mut String, cur_link: u32, link: u32)
        requires
            link <= self.links@.len(),
        ensures
            final(out)@ == old(out)@ + link_switch(self.link_targets(), cur_link, link),
    {
        if link != cur_link {
            if cur_link != 0 {
                push_str(out, "\x1b]8;;\x1b\\");
            }
            let ghost mid = out@;
            if link != 0 {
                let url = &self.links[(link - 1) as usize];
                push_str(out, "\x1b]8;;");
                push_str(out, url.as_str());
                push_str(out, "\x1b\\");
                assert(out@ == mid + osc_open(self.link_targets()[link - 1]));
            }
        }
    }

    fn write_style_switch(&self, out: &mut String, cur: Style, st: Style) -> (r: Style)
        ensures
            final(out)@ == old(out)@ + style_switch(self.mode, cur, st).0,
            r == style_switch(self.mode, cur, st).1,
    {
        if !matches!(self.mode, ColorMode::NoColor) {
            let bare = st.without_link();
            if bare != cur {
                if cur != Style::default() {
                    push_str(out, "\x1b[0m");
                }
                self.sgr(out, bare);
                return bare;
            }
        }
        cur
    }

    fn write_span(&self, out: &mut String, cur: &mut Style, cur_link: &mut u32, span: &Span)
        requires
            self.hyperlinks && span.text@.len() > 0 ==> span.style.link <= self.links@.len(),
        ensures
            ({
                let r = span_output(self.mode, self.hyperlinks, self.link_targets(), *old(cur),
                    *old(cur_link), span.text@, span.style);
                final(out)@ == old(out)@ + r.0 && *final(cur) == r.1 && *final(cur_link) == r.2
            }),
    {
        if span.text.as_str().is_empty() {
            return;
        }
        let link = if self.hyperlinks { span.style.link } else { 0 };
        self.write_link_switch(out, *cur_link, link);
        *cur_link = link;
        *cur = self.write_style_switch(out, *cur, span.style);
        push_str(out, span.text.as_str());
    }

    pub fn write_line(&self, out: &mut String, spans: &[Span])
        requires
            self.links_known(span_views(spans@)),
        ensures
            final(out)@ == old(out)@ + line_output(self.mode, self.hyperlinks, self.link_targets(), span_views(spans@)),
    {
        let ghost views = span_views(spans@);
        let ghost links = self.link_targets();
        let mut cur = Style::default();
        let mut cur_link: u32 = 0;
        let mut i: usize = 0;
        while i < spans.len()
            invariant
                i <= spans@.len(),
                views == span_views(spans@),
                links == self.link_targets(),
                self.links_known(views),
                ({
                    let r = spans_output(self.mode, self.hyperlinks, links, views.take(i as int));
                    out@ == old(out)@ + r.0 && cur == r.1 && cur_link == r.2
                }),
            decreases spans@.len() - i,
        {
            assert(views.take(i + 1).drop_last() == views.take(i as int));
            assert(views[i as int] == (spans@[i as int].text@, spans@[i as int].style));
            assert(views[i as int].0.len() > 0 ==> views[i as int].1.link <= self.links@.len() || !self.hyperlinks);
            self.write_span(out, &mut cur, &mut cur_link, &spans[i]);
            i += 1;
        }
        assert(views.take(i as int) == views);
        if cur != Style::default() {
            push_str(out, "\x1b[0m");
        }
        if cur_link != 0 {
            push_str(out, "\x1b]8;;\x1b\\");
        }
        push_char_to(out, '\n');
    }
}

proof fn lemma_plain_spans_output(links: Seq<Seq<char>>, spans: Seq<(Seq<char>, Style)>)
    ensures
        ({
            let r = spans_output(ColorMode::NoColor, false, links, spans);
            r.0 == crate::wrap::line_text(spans) && r.1 == plain_style() && r.2 == 0
        }),
    decreases spans.len(),
{
    if spans.len() > 0 {
        lemma_plain_spans_output(links, spans.drop_last());
        let prev = spans_output(ColorMode::NoColor, false, links, spans.drop_last());
        let last = spans.last();
        if last.0.len() == 0 {
            assert(crate::wrap::line_text(spans) =~= crate::wrap::line_text(spans.drop_last()) + last.0);
        }
    }
}

/// Without colors and hyperlinks, writing a line writes exactly its text and a line feed.
pub proof fn lemma_plain_line_output(links: Seq<Seq<char>>, spans: Seq<(Seq<char>, Style)>)
    ensures
        line_output(ColorMode::NoColor, false, links, spans) == crate::wrap::line_text(spans).push('\n'),
{
    lemma_plain_spans_output(links, spans);
    let r = spans_output(ColorMode::NoColor, false, links, spans);
    assert(line_output(ColorMode::NoColor, false, links, spans) =~= r.0 + seq!['\n']);
}

} // verus!
