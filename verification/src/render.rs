//! Markdown events to styled terminal lines.

use vstd::prelude::*;

use crate::fit::{fit_columns, Fitter};
use crate::highlight::Highlighter;
use crate::markdown::{markdown_events, parser_bits, Align, CodeKind, LinkKind, MdEvent, MdTag, MdTagEnd, QuoteKind};
use crate::style::{
    line_output, patched, plain_style, span_views, spans_cols, unicode_str_width, Color, ColorMode, Span, Style, Writer,
};
use crate::text::{is_whitespace, push_repeat, push_str, repeat, unicode_whitespace};
use crate::url::resolved;
use crate::pager::{strings_view, text_lines};
use crate::wrap::{Line, LineView};

verus! {

/// What to render for: the terminal's width and abilities, the code theme and the
/// directory that relative links are resolved against.
pub struct Config {
    pub width: usize,
    pub mode: ColorMode,
    pub hyperlinks: bool,
    pub light: bool,
    pub theme: String,
    /// Directory used to resolve relative link targets into file:// URLs.
    pub base_dir: Option<String>,
}

/// The styles of the document's elements.
#[derive(Clone, Copy)]
pub struct Palette {
    pub h1: Style,
    pub h2: Style,
    pub h3: Style,
    pub h4: Style,
    pub h5: Style,
    pub h6: Style,
    pub rule: Style,
    pub link: Style,
    pub code: Style,
    pub quote: Style,
    pub marker: Style,
    pub dim: Style,
    pub border: Style,
    pub footnote: Style,
    pub checked: Style,
}

pub open spec fn fg_ansi(n: u8) -> Style {
    Style { fg: Some(Color::Ansi(n)), ..plain_style() }
}

/// The palette for dark or light terminal backgrounds.
pub open spec fn palette(light: bool) -> Palette {
    let code_fg = if light { Color::Rgb(0xb3, 0x1d, 0x28) } else { Color::Rgb(0xff, 0xa6, 0x57) };
    let code_bg = if light { Color::Rgb(0xee, 0xee, 0xee) } else { Color::Rgb(0x30, 0x30, 0x30) };
    Palette {
        h1: Style { bold: true, ..fg_ansi(13) },
        h2: Style { bold: true, ..fg_ansi(14) },
        h3: Style { bold: true, ..fg_ansi(12) },
        h4: Style { bold: true, ..fg_ansi(10) },
        h5: Style { bold: true, ..fg_ansi(11) },
        h6: Style { bold: true, dim: true, ..plain_style() },
        rule: fg_ansi(8),
        link: Style { underline: true, ..fg_ansi(if light { 4 } else { 12 }) },
        code: Style { bg: Some(code_bg), ..Style { fg: Some(code_fg), ..plain_style() } },
        quote: fg_ansi(8),
        marker: fg_ansi(if light { 5 } else { 13 }),
        dim: Style { dim: true, ..plain_style() },
        border: fg_ansi(8),
        footnote: fg_ansi(6),
        checked: fg_ansi(10),
    }
}

impl Palette {
    pub fn new(light: bool) -> (r: Palette)
        ensures
            r == palette(light),
    {
        let a = |n: u8| -> (s: Style)
            ensures
                s == fg_ansi(n),
            { Style::fg(Color::Ansi(n)) };
        let (code_fg, code_bg) = if light {
            (Color::Rgb(0xb3, 0x1d, 0x28), Color::Rgb(0xee, 0xee, 0xee))
        } else {
            (Color::Rgb(0xff, 0xa6, 0x57), Color::Rgb(0x30, 0x30, 0x30))
        };
        Palette {
            h1: a(13).bold(),
            h2: a(14).bold(),
            h3: a(12).bold(),
            h4: a(10).bold(),
            h5: a(11).bold(),
            h6: Style::default().bold().dim(),
            rule: a(8),
            link: Style { underline: true, ..a(if light { 4 } else { 12 }) },
            code: Style::fg(code_fg).on(code_bg),
            quote: a(8),
            marker: a(if light { 5 } else { 13 }),
            dim: Style::default().dim(),
            border: a(8),
            footnote: a(6),
            checked: a(10),
        }
    }

    /// The style of a heading, by index 0 to 5 (level minus one).
    pub open spec fn heading_spec(&self, idx: int) -> Style {
        if idx == 0 {
            self.h1
        } else if idx == 1 {
            self.h2
        } else if idx == 2 {
            self.h3
        } else if idx == 3 {
            self.h4
        } else if idx == 4 {
            self.h5
        } else {
            self.h6
        }
    }

    pub fn heading(&self, idx: usize) -> (r: Style)
        ensures
            r == self.heading_spec(idx as int),
    {
        if idx == 0 {
            self.h1
        } else if idx == 1 {
            self.h2
        } else if idx == 2 {
            self.h3
        } else if idx == 3 {
            self.h4
        } else if idx == 4 {
            self.h5
        } else {
            self.h6
        }
    }

    /// No style of the palette is a link.
    pub open spec fn no_links(&self) -> bool {
        &&& self.h1.link == 0 && self.h2.link == 0 && self.h3.link == 0
        &&& self.h4.link == 0 && self.h5.link == 0 && self.h6.link == 0
        &&& self.rule.link == 0 && self.link.link == 0 && self.code.link == 0
        &&& self.quote.link == 0 && self.marker.link == 0 && self.dim.link == 0
        &&& self.border.link == 0 && self.footnote.link == 0 && self.checked.link == 0
    }
}

/// A block that prefixes the lines inside it.
pub enum Container {
    /// A block quote: a bar in its style.
    Quote(Style),
    /// List item, footnote or definition body: a marker on the first line, indent afterwards.
    Item { marker: Vec<Span>, width: usize },
}

/// What a container puts in front of a line (of a blank line, if `blank`); `used` tells
/// whether an item's marker has been shown already.
pub open spec fn container_view(c: Container, used: bool, blank: bool) -> LineView {
    match c {
        Container::Quote(st) => seq![("│ "@, st)],
        Container::Item { marker, width } => if !blank && !used {
            span_views(marker@)
        } else {
            seq![(repeat(' ', width as nat), plain_style())]
        },
    }
}

/// The prefixes of the first `k` containers, outermost first.
pub open spec fn prefix_raw(cs: Seq<Container>, used: Seq<bool>, blank: bool, k: int) -> LineView
    decreases k,
{
    if k <= 0 {
        Seq::empty()
    } else {
        prefix_raw(cs, used, blank, k - 1) + container_view(cs[k - 1], used[k - 1], blank)
    }
}

/// Every character of `s` is white space.
pub open spec fn is_blank_text(s: Seq<char>) -> bool {
    forall|i: int| 0 <= i < s.len() ==> unicode_whitespace(#[trigger] s[i])
}

/// `s` without its trailing white space.
pub open spec fn trim_end_text(s: Seq<char>) -> Seq<char>
    decreases s.len(),
{
    if s.len() > 0 && unicode_whitespace(s.last()) {
        trim_end_text(s.drop_last())
    } else {
        s
    }
}

/// A line without its trailing blank spans.
pub open spec fn drop_blank_tail(p: LineView) -> LineView
    decreases p.len(),
{
    if p.len() > 0 && is_blank_text(p.last().0) {
        drop_blank_tail(p.drop_last())
    } else {
        p
    }
}

/// The prefix of a blank line: no trailing white space.
pub open spec fn blank_prefix(p: LineView) -> LineView {
    let q = drop_blank_tail(p);
    if q.len() > 0 {
        q.update(q.len() - 1, (trim_end_text(q.last().0), q.last().1))
    } else {
        q
    }
}

/// Every span's link refers to one of the first `n` link targets.
pub open spec fn spans_ok(spans: Seq<Span>, n: int) -> bool {
    forall|i: int| 0 <= i < spans.len() ==> (#[trigger] spans[i]).style.link <= n
}

pub open spec fn view_ok(line: LineView, n: int) -> bool {
    forall|i: int| 0 <= i < line.len() ==> (#[trigger] line[i]).1.link <= n
}

pub open spec fn container_ok(c: Container, n: int) -> bool {
    match c {
        Container::Quote(st) => st.link <= n,
        Container::Item { marker, .. } => spans_ok(marker@, n),
    }
}

/// A list being rendered: the next item number of an ordered list, whether the list is
/// tight, and the width of its markers.
pub struct ListState {
    pub next: Option<u64>,
    pub tight: bool,
    pub width: usize,
}

/// A table being collected: column alignments, rows of cells, and how many rows are head rows.
pub struct TableState {
    pub aligns: Vec<Align>,
    pub rows: Vec<Vec<Vec<Span>>>,
    pub head_rows: usize,
}

pub open spec fn rows_ok(rows: Seq<Vec<Vec<Span>>>, n: int) -> bool {
    forall|r: int, c: int|
        0 <= r < rows.len() && 0 <= c < rows[r]@.len() ==> spans_ok((#[trigger] rows[r]@[c])@, n)
}

/// An open link: its target id and URL, where its text starts among the inline spans, and
/// whether the URL is shown after the text.
pub struct LinkInfo {
    pub id: u32,
    pub url: String,
    pub start: usize,
    pub show_url: bool,
}

/// Renders a markdown event stream to terminal text.
pub struct Renderer {
    cfg: Config,
    pal: Palette,
    w: Writer,
    out: String,
    containers: Vec<Container>,
    /// Per container: whether an item's marker has been shown.
    used: Vec<bool>,
    lists: Vec<ListState>,
    inline: Vec<Span>,
    styles: Vec<Style>,
    pending_blank: bool,
    wrote_any: bool,
    code: Option<(String, String)>,
    html: Option<String>,
    table: Option<TableState>,
    heading: Option<u8>,
    links: Vec<LinkInfo>,
    html_tags: Vec<String>,
    footnotes: Vec<String>,
    highlighter: Option<Highlighter>,
    skip_depth: usize,
}

/// Total number of characters of the spans.
pub open spec fn text_len(views: LineView) -> int
    decreases views.len(),
{
    if views.len() == 0 {
        0
    } else {
        text_len(views.drop_last()) + views.last().0.len()
    }
}

proof fn lemma_text_len(views: LineView)
    ensures
        crate::wrap::styled_chars(views).len() == text_len(views),
        text_len(views) >= 0,
    decreases views.len(),
{
    if views.len() > 0 {
        lemma_text_len(views.drop_last());
    }
}

proof fn lemma_text_len_prefix(views: LineView, k: int)
    requires
        0 <= k <= views.len(),
    ensures
        text_len(views.take(k)) <= text_len(views),
    decreases views.len(),
{
    if k < views.len() {
        assert(views.drop_last().take(k) == views.take(k));
        lemma_text_len_prefix(views.drop_last(), k);
    } else {
        assert(views.take(k) == views);
    }
}

/// The number of characters of all spans, if it is small enough for the wrappers'
/// counters.
fn wrap_room(spans: &Vec<Span>) -> (r: Option<usize>)
    ensures
        r matches Some(n) ==> n == text_len(span_views(spans@)) && 4 * n + 8 <= usize::MAX,
        r is None ==> 4 * text_len(span_views(spans@)) + 8 > usize::MAX,
{
    let ghost views = span_views(spans@);
    let mut total: usize = 0;
    let mut i: usize = 0;
    while i < spans.len()
        invariant
            i <= spans@.len(),
            views == span_views(spans@),
            total == text_len(views.take(i as int)),
            4 * total + 8 <= usize::MAX,
        decreases spans@.len() - i,
    {
        assert(views.take(i + 1).drop_last() == views.take(i as int));
        let n = spans[i].text.as_str().unicode_len();
        if n > (usize::MAX - 8) / 4 || total > (usize::MAX - 8) / 4 - n {
            proof {
                lemma_text_len_prefix(views, i + 1);
            }
            return None;
        }
        total = total + n;
        i += 1;
    }
    assert(views.take(i as int) == views);
    Some(total)
}

/// The display width of the spans, if it fits with the room the character wrapper needs.
/// Whether the character wrapper's counters have room for the spans.
pub open spec fn hard_fits(spans: LineView) -> bool {
    spans_cols(spans) + 3 * text_len(spans) <= usize::MAX
}

proof fn lemma_cols_prefix(views: LineView, k: int)
    requires
        0 <= k <= views.len(),
    ensures
        spans_cols(views.take(k)) + 3 * text_len(views.take(k)) <= spans_cols(views) + 3 * text_len(views),
    decreases views.len(),
{
    if k < views.len() {
        assert(views.drop_last().take(k) == views.take(k));
        lemma_cols_prefix(views.drop_last(), k);
    } else {
        assert(views.take(k) == views);
    }
}

fn hard_room(spans: &Vec<Span>) -> (r: bool)
    ensures
        r == hard_fits(span_views(spans@)),
        r ==> spans_cols(span_views(spans@)) + 3 * crate::wrap::styled_chars(span_views(spans@)).len()
            <= usize::MAX,
{
    let ghost views = span_views(spans@);
    proof {
        lemma_text_len(views);
    }
    let mut total: usize = 0;
    let mut i: usize = 0;
    while i < spans.len()
        invariant
            i <= spans@.len(),
            views == span_views(spans@),
            total == spans_cols(views.take(i as int)) + 3 * text_len(views.take(i as int)),
        decreases spans@.len() - i,
    {
        assert(views.take(i + 1).drop_last() == views.take(i as int));
        let w = crate::style::str_width(spans[i].text.as_str());
        let n = spans[i].text.as_str().unicode_len();
        if n > usize::MAX / 3 || w > usize::MAX - 3 * n || total > usize::MAX - 3 * n - w {
            proof {
                lemma_cols_prefix(views, i + 1);
                lemma_text_len(views.take(i + 1));
            }
            return false;
        }
        total = total + w + 3 * n;
        i += 1;
    }
    assert(views.take(i as int) == views);
    true
}

/// A copy of a line.
fn dup_spans(v: &Vec<Span>) -> (r: Vec<Span>)
    ensures
        span_views(r@) == span_views(v@),
        forall|i: int| 0 <= i < r@.len() ==> (#[trigger] r@[i]).style == v@[i].style,
        r@.len() == v@.len(),
{
    let mut out: Vec<Span> = Vec::new();
    let mut i: usize = 0;
    while i < v.len()
        invariant
            i <= v@.len(),
            out@.len() == i,
            forall|j: int| 0 <= j < i ==> (#[trigger] out@[j]).text@ == v@[j].text@ && out@[j].style == v@[j].style,
        decreases v@.len() - i,
    {
        out.push(v[i].duplicate());
        i += 1;
    }
    assert(span_views(out@) == span_views(v@));
    out
}

/// Whether every character of `s` is white space.
fn blank_text(s: &str) -> (r: bool)
    ensures
        r == is_blank_text(s@),
{
    let v = crate::text::chars_of(s);
    let mut i: usize = 0;
    while i < v.len()
        invariant
            i <= v@.len(),
            v@ == s@,
            forall|j: int| 0 <= j < i ==> unicode_whitespace(#[trigger] v@[j]),
        decreases v@.len() - i,
    {
        if !is_whitespace(v[i]) {
            return false;
        }
        i += 1;
    }
    true
}

/// `s` without its trailing white space.
fn trimmed_end(s: &str) -> (r: String)
    ensures
        r@ == trim_end_text(s@),
{
    let v = crate::text::chars_of(s);
    let mut k = v.len();
    assert(v@.take(k as int) == v@);
    while k > 0 && is_whitespace(v[k - 1])
        invariant
            k <= v@.len(),
            v@ == s@,
            trim_end_text(s@) == trim_end_text(v@.take(k as int)),
        decreases k,
    {
        assert(v@.take(k as int).drop_last() == v@.take(k - 1));
        k -= 1;
    }
    let mut out = String::new();
    crate::text::push_chars(&mut out, &v, 0, k);
    assert(v@.subrange(0, k as int) == v@.take(k as int));
    out
}

/// Columns the prefixes of the first `k` containers take.
pub open spec fn prefix_cols(cs: Seq<Container>, k: int) -> int
    decreases k,
{
    if k <= 0 {
        0
    } else {
        prefix_cols(cs, k - 1) + match cs[k - 1] {
            Container::Quote(_) => 2int,
            Container::Item { width, .. } => width as int,
        }
    }
}

pub open spec fn sat_cols(n: int) -> int {
    if n > usize::MAX { usize::MAX as int } else { n }
}

/// The width left for content: the terminal width less the prefixes, at least 10.
pub open spec fn avail_of(width: int, prefix: int) -> int {
    let p = sat_cols(prefix);
    let a = if width > p { width - p } else { 0 };
    if a < 10 { 10 } else { a }
}

/// Lines written one after another inside the containers: the first with the markers
/// not yet shown, the others indented.
pub open spec fn lines_output(
    mode: ColorMode,
    hyperlinks: bool,
    links: Seq<Seq<char>>,
    cs: Seq<Container>,
    used: Seq<bool>,
    lines: Seq<LineView>,
) -> Seq<char>
    decreases lines.len(),
{
    if lines.len() == 0 {
        Seq::empty()
    } else {
        let k = lines.len() - 1;
        let u = if k == 0 { used } else { Seq::new(used.len(), |i: int| true) };
        lines_output(mode, hyperlinks, links, cs, used, lines.drop_last())
            + line_output(mode, hyperlinks, links, prefix_raw(cs, u, false, cs.len() as int) + lines[k])
    }
}

/// Every span of the line is blank.
pub open spec fn all_blank(line: LineView) -> bool {
    forall|i: int| 0 <= i < line.len() ==> is_blank_text(#[trigger] line[i].0)
}

/// The lines a paragraph's spans take at width `avail`: the word wrap, or the spans as
/// one line where they are too long for the wrapper's counters.
pub open spec fn paragraph_lines(spans: LineView, avail: int) -> Seq<LineView> {
    if 4 * text_len(spans) + 8 <= usize::MAX {
        crate::wrap::wrapped(spans, avail)
    } else {
        seq![spans]
    }
}

/// Scans a list's events from `j` at nesting `depth` below it: whether the list is tight
/// (no item starts with a paragraph) and how many items it has.
pub open spec fn list_scan(ev: Seq<MdEvent>, j: int, depth: int) -> (bool, int)
    decreases ev.len() - j,
{
    if j < 0 || j >= ev.len() {
        (true, 0)
    } else {
        match ev[j] {
            MdEvent::Start(MdTag::List(_)) => list_scan(ev, j + 1, depth + 1),
            MdEvent::End(MdTagEnd::List) => if depth <= 0 {
                (true, 0)
            } else {
                list_scan(ev, j + 1, depth - 1)
            },
            MdEvent::Start(MdTag::Item) => if depth == 0 {
                let r = list_scan(ev, j + 1, depth);
                let para = j + 1 < ev.len() && ev[j + 1] matches MdEvent::Start(MdTag::Paragraph);
                (r.0 && !para, r.1 + 1)
            } else {
                list_scan(ev, j + 1, depth)
            },
            _ => list_scan(ev, j + 1, depth),
        }
    }
}

proof fn lemma_list_scan_count(ev: Seq<MdEvent>, j: int, depth: int)
    requires
        0 <= j,
    ensures
        0 <= list_scan(ev, j, depth).1 <= ev.len() - j || (j >= ev.len() && list_scan(ev, j, depth).1 == 0),
    decreases ev.len() - j,
{
    if j < ev.len() {
        lemma_list_scan_count(ev, j + 1, depth + 1);
        lemma_list_scan_count(ev, j + 1, depth - 1);
        lemma_list_scan_count(ev, j + 1, depth);
    }
}

/// Looks ahead from a list's start event at `i`: whether it is tight and how many items it has.
pub fn list_info(events: &Vec<MdEvent>, i: usize) -> (r: (bool, usize))
    requires
        i < events@.len(),
    ensures
        r.0 == list_scan(events@, i + 1, 0).0,
        r.1 == list_scan(events@, i + 1, 0).1,
{
    let mut depth: usize = 0;
    let mut count: usize = 0;
    let mut tight = true;
    let n = events.len();
    let mut j = i + 1;
    let ghost goal = list_scan(events@, i + 1, 0);
    proof {
        lemma_list_scan_count(events@, i + 1, 0);
    }
    while j < events.len()
        invariant
            i < j <= events@.len(),
            goal == list_scan(events@, i + 1, 0),
            count <= j - i - 1,
            depth <= j - i - 1,
            goal.0 == (tight && list_scan(events@, j as int, depth as int).0),
            goal.1 == count + list_scan(events@, j as int, depth as int).1,
        decreases events@.len() - j,
    {
        match &events[j] {
            MdEvent::Start(MdTag::List(_)) => {
                depth += 1;
            },
            MdEvent::End(MdTagEnd::List) => {
                if depth == 0 {
                    assert(list_scan(events@, j as int, 0) == (true, 0int));
                    return (tight, count);
                }
                depth -= 1;
            },
            MdEvent::Start(MdTag::Item) => {
                if depth == 0 {
                    count += 1;
                    if j + 1 < events.len() {
                        if let MdEvent::Start(MdTag::Paragraph) = &events[j + 1] {
                            tight = false;
                        }
                    }
                }
            },
            _ => {},
        }
        j += 1;
    }
    (tight, count)
}

/// `v` without leading and trailing white space.
fn trim_chars(v: &Vec<char>) -> (r: Vec<char>)
    ensures
        r@ == crate::html::trim_ws(v@),
{
    let mut a: usize = 0;
    assert(v@.skip(0) == v@);
    while a < v.len() && is_whitespace(v[a])
        invariant
            a <= v@.len(),
            crate::html::trim_start_ws(v@) == crate::html::trim_start_ws(v@.skip(a as int)),
        decreases v@.len() - a,
    {
        assert(v@.skip(a as int).drop_first() == v@.skip(a + 1));
        a += 1;
    }
    if a < v.len() {
        assert(v@.skip(a as int)[0] == v@[a as int]);
    }
    let ghost st = v@.skip(a as int);
    assert(crate::html::trim_start_ws(v@) == st);
    let mut b = v.len();
    assert(st.take(st.len() as int) == st);
    while b > a && is_whitespace(v[b - 1])
        invariant
            a <= b <= v@.len(),
            st == v@.skip(a as int),
            trim_end_text(st) == trim_end_text(st.take(b - a)),
        decreases b,
    {
        assert(st.take(b - a).drop_last() == st.take(b - a - 1));
        b -= 1;
    }
    let mut out: Vec<char> = Vec::new();
    let mut k = a;
    while k < b
        invariant
            a <= k <= b <= v@.len(),
            out@ == v@.subrange(a as int, k as int),
        decreases b - k,
    {
        out.push(v[k]);
        k += 1;
    }
    assert(out@ == st.take(b - a));
    out
}

/// `v` starts with the characters of `p`.
fn has_prefix(v: &Vec<char>, p: &str) -> (r: bool)
    ensures
        r == crate::url::starts_with(v@, p@),
{
    let q = crate::text::chars_of(p);
    if q.len() > v.len() {
        return false;
    }
    let mut i: usize = 0;
    while i < q.len()
        invariant
            i <= q@.len() <= v@.len(),
            q@ == p@,
            forall|j: int| 0 <= j < i ==> v@[j] == q@[j],
        decreases q@.len() - i,
    {
        if v[i] != q[i] {
            assert(v@.take(q@.len() as int)[i as int] != p@[i as int]);
            return false;
        }
        i += 1;
    }
    assert(v@.take(q@.len() as int) == q@);
    true
}

/// `v` ends with the characters of `p`.
/// `s` ends with `p`.
pub open spec fn ends_with(s: Seq<char>, p: Seq<char>) -> bool {
    p.len() <= s.len() && s.skip(s.len() - p.len()) == p
}

fn has_suffix(v: &Vec<char>, p: &str) -> (r: bool)
    ensures
        r == ends_with(v@, p@),
{
    let q = crate::text::chars_of(p);
    if q.len() > v.len() {
        return false;
    }
    let vn = v.len();
    let off = vn - q.len();
    let mut i: usize = 0;
    while i < q.len()
        invariant
            i <= q@.len() <= v@.len(),
            off == v@.len() - q@.len(),
            v@.len() <= usize::MAX,
            q@ == p@,
            forall|j: int| 0 <= j < i ==> v@[off + j] == q@[j],
        decreases q@.len() - i,
    {
        if v[off + i] != q[i] {
            assert(v@.skip(off as int)[i as int] != p@[i as int]);
            return false;
        }
        i += 1;
    }
    assert(v@.skip(off as int) == q@);
    true
}

/// The language shown on a code block: the info string up to its first comma or space,
/// without surrounding braces and dots.
pub open spec fn code_label_spec(info: Seq<char>) -> Seq<char> {
    let first = crate::html::until(info, |c: char| c == ',' || c == ' ');
    trim_braces(first)
}

pub open spec fn brace_or_dot(c: char) -> bool {
    c == '{' || c == '}' || c == '.'
}

/// `s` without leading and trailing `{`, `}` and `.`.
pub open spec fn trim_braces(s: Seq<char>) -> Seq<char>
    decreases s.len(),
{
    if s.len() > 0 && brace_or_dot(s[0]) {
        trim_braces(s.drop_first())
    } else if s.len() > 0 && brace_or_dot(s.last()) {
        trim_braces(s.drop_last())
    } else {
        s
    }
}

fn code_label(info: &str) -> (r: String)
    ensures
        r@ == code_label_spec(info@),
{
    let v = crate::text::chars_of(info);
    let mut e: usize = 0;
    assert(v@.skip(0) == v@);
    while e < v.len() && v[e] != ',' && v[e] != ' '
        invariant
            e <= v@.len(),
            crate::html::until(v@, |c: char| c == ',' || c == ' ') == v@.take(e as int) + crate::html::until(
                v@.skip(e as int),
                |c: char| c == ',' || c == ' ',
            ),
        decreases v@.len() - e,
    {
        assert(v@.skip(e as int)[0] == v@[e as int]);
        assert(v@.skip(e as int).drop_first() == v@.skip(e + 1));
        assert(v@.take(e + 1) == v@.take(e as int).push(v@[e as int]));
        e += 1;
    }
    if e < v.len() {
        assert(v@.skip(e as int)[0] == v@[e as int]);
    }
    assert(crate::html::until(v@, |c: char| c == ',' || c == ' ') == v@.take(e as int));
    let mut a: usize = 0;
    let mut b: usize = e;
    while a < b && (v[a] == '{' || v[a] == '}' || v[a] == '.' || v[b - 1] == '{' || v[b - 1] == '}' || v[b - 1] == '.')
        invariant
            a <= b <= e <= v@.len(),
            trim_braces(v@.take(e as int)) == trim_braces(v@.subrange(a as int, b as int)),
        decreases b - a,
    {
        if v[a] == '{' || v[a] == '}' || v[a] == '.' {
            assert(v@.subrange(a as int, b as int).drop_first() == v@.subrange(a + 1, b as int));
            a += 1;
        } else {
            assert(v@.subrange(a as int, b as int).drop_last() == v@.subrange(a as int, b - 1));
            b -= 1;
        }
    }
    let mut out = String::new();
    crate::text::push_chars(&mut out, &v, a, b);
    out
}

/// The display width of spans, saturating at `usize::MAX`.
fn cols_sat(spans: &Vec<Span>) -> (r: usize)
    ensures
        r == sat_cols(spans_cols(span_views(spans@))),
{
    let ghost views = span_views(spans@);
    let mut total: usize = 0;
    let mut i: usize = 0;
    while i < spans.len()
        invariant
            i <= spans@.len(),
            views == span_views(spans@),
            total == sat_cols(spans_cols(views.take(i as int))),
            spans_cols(views.take(i as int)) >= 0,
        decreases spans@.len() - i,
    {
        assert(views.take(i + 1).drop_last() == views.take(i as int));
        let w = crate::style::str_width(spans[i].text.as_str());
        total = total.saturating_add(w);
        i += 1;
    }
    assert(views.take(i as int) == views);
    total
}

/// The word wrap of a cell's spans at `width` (the spans as one line where they are too
/// long for the wrapper's counters): at least one line, with the spans' links.
fn wrap_lines(spans: &Vec<Span>, width: usize, n: Ghost<int>) -> (r: Vec<Line>)
    requires
        spans_ok(spans@, n@),
    ensures
        crate::wrap::line_views(r@) == paragraph_lines(span_views(spans@), width as int),
        r@.len() >= 1,
        forall|i: int| 0 <= i < r@.len() ==> spans_ok(#[trigger] r@[i]@, n@),
{
    let ghost v = span_views(spans@);
    let lines: Vec<Line> = match wrap_room(spans) {
        Some(_) => {
            proof {
                lemma_text_len(v);
            }
            crate::wrap::wrap(spans.as_slice(), width)
        },
        None => {
            let mut one: Vec<Line> = Vec::new();
            one.push(dup_spans(spans));
            assert(crate::wrap::line_views(one@) =~= seq![v]);
            return one;
        },
    };
    let ghost lv = crate::wrap::line_views(lines@);
    proof {
        let pr = |st: Style| st.link <= n@;
        assert forall|i: int| 0 <= i < v.len() implies pr(#[trigger] v[i].1) by {
            assert(v[i].1 == spans@[i].style);
        }
        crate::wrap::lemma_wrapped_styles(v, width as int, pr);
        assert forall|i: int| 0 <= i < lines@.len() implies spans_ok(#[trigger] lines@[i]@, n@) by {
            assert(lv[i] == span_views(lines@[i]@));
            assert forall|j: int| 0 <= j < lines@[i]@.len() implies (#[trigger] lines@[i]@[j]).style.link <= n@ by {
                assert(span_views(lines@[i]@)[j].1 == lines@[i]@[j].style);
            }
        }
    }
    lines
}

/// A table border line: `l`, then each column's width plus two of `fill`, separated by `m`,
/// then `r`.
fn border_line(widths: &Vec<usize>, l: &str, m: &str, r: &str, fill: char, st: Style) -> (line: Vec<Span>)
    ensures
        line@.len() == 1,
        line@[0].style == st,
        span_views(line@) == seq![(l@ + border_body(widths@, widths@.len() as int, m@, r@, fill), st)],
{
    let mut s = String::new();
    push_str(&mut s, l);
    let mut i: usize = 0;
    while i < widths.len()
        invariant
            i <= widths@.len(),
            s@ == l@ + border_body(widths@, i as int, m@, r@, fill),
        decreases widths@.len() - i,
    {
        push_repeat(&mut s, fill, widths[i].saturating_add(2));
        if i + 1 == widths.len() {
            push_str(&mut s, r);
        } else {
            push_str(&mut s, m);
        }
        i += 1;
        assert(s@ =~= l@ + border_body(widths@, i as int, m@, r@, fill));
    }
    let ghost sv = s@;
    let mut line: Vec<Span> = Vec::new();
    line.push(Span { text: s, style: st });
    assert(span_views(line@) =~= seq![(sv, st)]);
    line
}

/// The columns of a border after its left end: for each of the first `k` columns its
/// width plus two of `fill`, then `m` between columns or `r` after the last.
pub open spec fn border_body(widths: Seq<usize>, k: int, m: Seq<char>, r: Seq<char>, fill: char) -> Seq<char>
    decreases k,
{
    if k <= 0 {
        Seq::empty()
    } else {
        let w = widths[k - 1] + 2;
        border_body(widths, k - 1, m, r, fill) + repeat(fill, (if w > usize::MAX { usize::MAX as int } else { w }) as nat)
            + if k == widths.len() {
            r
        } else {
            m
        }
    }
}

/// The marker of an ordered list item: `n.` right-aligned in `width - 1` columns, then a space.
pub open spec fn ordered_marker(n: u64, width: int) -> Seq<char> {
    let num = crate::text::decimal(n as nat).push('.');
    let pad = if width - 1 > num.len() { width - 1 - num.len() } else { 0 };
    repeat(' ', pad as nat) + num + seq![' ']
}

/// The bullet of an unordered list item at nesting `depth`.
pub open spec fn bullet(depth: int) -> Seq<char> {
    let d = depth % 4;
    if d == 0 {
        "• "@
    } else if d == 1 {
        "◦ "@
    } else if d == 2 {
        "▪ "@
    } else {
        "▫ "@
    }
}

fn ordered_marker_exec(n: u64, width: usize) -> (r: String)
    ensures
        r@ == ordered_marker(n, width as int),
{
    let mut num = crate::text::decimal_string(n as u128);
    crate::text::push_char_to(&mut num, '.');
    let len = num.as_str().unicode_len();
    let pad = if width >= 1 && width - 1 > len { width - 1 - len } else { 0 };
    let mut out = String::new();
    push_repeat(&mut out, ' ', pad);
    push_str(&mut out, num.as_str());
    crate::text::push_char_to(&mut out, ' ');
    out
}

fn bullet_exec(depth: usize) -> (r: &'static str)
    ensures
        r@ == bullet(depth as int),
{
    let d = depth % 4;
    if d == 0 {
        "• "
    } else if d == 1 {
        "◦ "
    } else if d == 2 {
        "▪ "
    } else {
        "▫ "
    }
}

/// The color number of an alert's title and bar.
pub open spec fn alert_color(k: QuoteKind) -> u8 {
    match k {
        QuoteKind::Note => 12,
        QuoteKind::Tip => 10,
        QuoteKind::Important => 13,
        QuoteKind::Warning => 11,
        QuoteKind::Caution => 9,
    }
}

/// The title of an alert.
pub open spec fn alert_title(k: QuoteKind) -> Seq<char> {
    match k {
        QuoteKind::Note => "ⓘ Note"@,
        QuoteKind::Tip => "✱ Tip"@,
        QuoteKind::Important => "❢ Important"@,
        QuoteKind::Warning => "⚠ Warning"@,
        QuoteKind::Caution => "⊘ Caution"@,
    }
}

/// An item container with a marker of one span, of `text` in `st`, and `width` columns.
pub open spec fn is_item(c: Container, text: Seq<char>, st: Style, width: int) -> bool {
    c matches Container::Item { marker, width: w } && span_views(marker@) == seq![(text, st)] && w == width
}

/// The marker of the next item of a list at nesting `depth`.
pub open spec fn item_marker(l: ListState, depth: int) -> Seq<char> {
    match l.next {
        Some(n) => ordered_marker(n, l.width as int),
        None => bullet(depth),
    }
}

/// The number of footnote `label` among the labels `fs`, looking from index `k`: its
/// place counted from one, or one past the end where it is not there.
pub open spec fn footnote_no(fs: Seq<String>, label: Seq<char>, k: int) -> int
    decreases fs.len() - k,
{
    if k < 0 || k >= fs.len() {
        fs.len() + 1int
    } else if fs[k]@ == label {
        k + 1
    } else {
        footnote_no(fs, label, k + 1)
    }
}

/// The marker of footnote number `n`.
pub open spec fn footnote_marker(n: int) -> Seq<char> {
    seq!['['] + crate::text::decimal(n as nat) + "] "@
}

pub open spec fn sat_u64(n: int) -> int {
    if n > u64::MAX { u64::MAX as int } else { n }
}

/// Width of the markers of a list: its last number, a dot and a space, or a bullet's two
/// columns.
pub open spec fn list_width(start: Option<u64>, count: int) -> int {
    match start {
        Some(s) => {
            let last = sat_u64(s + (if count > 0 { (count - 1) as u64 } else { 0u64 }));
            let digits = crate::text::decimal(last as nat).len() + 2;
            if digits > usize::MAX { usize::MAX as int } else { digits as int }
        },
        None => 2,
    }
}

/// The target of a link written as `kind` to `dest`.
pub open spec fn link_url(kind: LinkKind, dest: Seq<char>, base: Option<Seq<char>>) -> Seq<char> {
    if kind is Email {
        "mailto:"@ + dest
    } else {
        resolved(dest, base)
    }
}

/// The language of a code block.
pub open spec fn code_lang(k: CodeKind) -> Seq<char> {
    match k {
        CodeKind::Fenced(l) => l@,
        CodeKind::Indented => Seq::empty(),
    }
}

/// The text of the spans from the `k`th on.
pub open spec fn text_from(spans: LineView, k: int) -> Seq<char> {
    if 0 <= k <= spans.len() {
        crate::wrap::line_text(spans.skip(k))
    } else {
        Seq::empty()
    }
}

/// The spans `v` after closing a link with target `id` to `url` whose text starts at
/// span `start`, `top` being the style around it: an image gets its closing bracket,
/// then ` <url>` follows where the URL is shown and the link's text is not the URL
/// itself.
pub open spec fn closed_link(
    v: LineView,
    id: u32,
    url: Seq<char>,
    start: int,
    show: bool,
    top: Style,
    dim: Style,
    image: bool,
) -> LineView {
    let v1 = if image {
        v.push(("]"@, patched(patched(top, dim), Style { link: id, ..plain_style() })))
    } else {
        v
    };
    if show && text_from(v1, start) != url {
        v1.push((" <"@ + url + ">"@, patched(top, dim)))
    } else {
        v1
    }
}

/// The style that an inline HTML formatting tag named `name` sets, for the tags that
/// format; `code` is the style of code.
pub open spec fn html_format(name: Seq<char>, code: Style) -> Option<Style> {
    if name == "b"@ || name == "strong"@ {
        Some(Style { bold: true, ..plain_style() })
    } else if name == "i"@ || name == "em"@ || name == "cite"@ || name == "var"@ {
        Some(Style { italic: true, ..plain_style() })
    } else if name == "s"@ || name == "del"@ || name == "strike"@ {
        Some(Style { strike: true, ..plain_style() })
    } else if name == "u"@ || name == "ins"@ {
        Some(Style { underline: true, ..plain_style() })
    } else if name == "code"@ || name == "kbd"@ || name == "tt"@ || name == "samp"@ {
        Some(code)
    } else if name == "mark"@ {
        Some(Style { fg: Some(Color::Ansi(0)), bg: Some(Color::Ansi(11)), ..plain_style() })
    } else if name == "sup"@ || name == "sub"@ || name == "span"@ || name == "small"@ || name == "abbr"@ || name
        == "font"@ {
        Some(plain_style())
    } else {
        None
    }
}

/// The style of a formatting tag (see `html_format`).
fn format_style(nv: &Vec<char>, code: Style) -> (r: Option<Style>)
    ensures
        r == html_format(nv@, code),
{
    let is = |s: &str| -> (r: bool)
        ensures
            r == (nv@ == s@),
        { crate::highlight::eq_str(nv, s) };
    if is("b") || is("strong") {
        Some(Style::default().bold())
    } else if is("i") || is("em") || is("cite") || is("var") {
        Some(Style::default().italic())
    } else if is("s") || is("del") || is("strike") {
        Some(Style { strike: true, ..Style::default() })
    } else if is("u") || is("ins") {
        Some(Style { underline: true, ..Style::default() })
    } else if is("code") || is("kbd") || is("tt") || is("samp") {
        Some(code)
    } else if is("mark") {
        Some(Style::fg(Color::Ansi(0)).on(Color::Ansi(11)))
    } else if is("sup") || is("sub") || is("span") || is("small") || is("abbr") || is("font") {
        Some(Style::default())
    } else {
        None
    }
}

/// The rows that `spans` take broken by characters at `width` columns (as one row where
/// they are too long for the wrapper's counters), each after `indent` spaces.
pub open spec fn hard_rows(spans: LineView, width: int, indent: int) -> Seq<LineView> {
    let pad = seq![(repeat(' ', indent as nat), plain_style())];
    if hard_fits(spans) {
        crate::wrap::hard_wrapped(spans, width).map_values(|row: (LineView, int)| pad + row.0)
    } else {
        seq![pad + spans]
    }
}

/// Writing `a` then `b` inside the containers writes `a + b`: `b` starts with the markers
/// shown once `a` has a line.
pub proof fn lemma_lines_output_concat(
    mode: ColorMode,
    hyperlinks: bool,
    links: Seq<Seq<char>>,
    cs: Seq<Container>,
    used: Seq<bool>,
    a: Seq<LineView>,
    b: Seq<LineView>,
)
    ensures
        lines_output(mode, hyperlinks, links, cs, used, a + b) == lines_output(mode, hyperlinks, links, cs, used, a)
            + lines_output(
            mode,
            hyperlinks,
            links,
            cs,
            if a.len() == 0 {
                used
            } else {
                Seq::new(used.len(), |i: int| true)
            },
            b,
        ),
    decreases b.len(),
{
    let u2 = if a.len() == 0 { used } else { Seq::new(used.len(), |i: int| true) };
    if b.len() == 0 {
        assert(a + b =~= a);
        assert(lines_output(mode, hyperlinks, links, cs, u2, b) =~= Seq::<char>::empty());
        assert(lines_output(mode, hyperlinks, links, cs, used, a) + Seq::<char>::empty() =~= lines_output(
            mode,
            hyperlinks,
            links,
            cs,
            used,
            a,
        ));
    } else {
        lemma_lines_output_concat(mode, hyperlinks, links, cs, used, a, b.drop_last());
        assert((a + b).drop_last() =~= a + b.drop_last());
        assert((a + b)[a.len() + b.len() - 1] == b[b.len() - 1]);
        let k = a.len() + b.len() - 1;
        let u = if k == 0 { used } else { Seq::new(used.len(), |i: int| true) };
        let kb = b.len() - 1;
        let ub = if kb == 0 { u2 } else { Seq::new(u2.len(), |i: int| true) };
        assert(u =~= ub);
        let p = lines_output(mode, hyperlinks, links, cs, used, a);
        let q = lines_output(mode, hyperlinks, links, cs, u2, b.drop_last());
        let l = line_output(mode, hyperlinks, links, prefix_raw(cs, u, false, cs.len() as int) + b[kb]);
        assert(p + q + l =~= p + (q + l));
    }
}

/// The nonblank lines of an HTML block, from line `k` on, without their comments (a
/// comment being open at line `k` if `in_comment`).
pub open spec fn html_kept(lines: Seq<Seq<char>>, k: int, in_comment: bool) -> Seq<Seq<char>>
    decreases lines.len() - k,
{
    if k < 0 || k >= lines.len() {
        Seq::empty()
    } else {
        let (vis, ic) = crate::html::strip_comments(lines[k], in_comment);
        let rest = html_kept(lines, k + 1, ic);
        if is_blank_text(vis) {
            rest
        } else {
            seq![vis] + rest
        }
    }
}

/// The rows of lines shown in style `st`, each broken by characters at `width` columns
/// after `indent` spaces.
pub open spec fn block_rows(lines: Seq<Seq<char>>, width: int, st: Style, indent: int) -> Seq<LineView>
    decreases lines.len(),
{
    if lines.len() == 0 {
        Seq::empty()
    } else {
        block_rows(lines.drop_last(), width, st, indent) + hard_rows(seq![(lines.last(), st)], width, indent)
    }
}

/// The rows of a highlighted line on the code band: broken by characters at `inner`
/// columns (as one row where they are too long for the wrapper's counters), each after a
/// space and followed by the padding to the band's width, in `fill`.
pub open spec fn band_rows(spans: LineView, inner: int, fill: Style) -> Seq<LineView> {
    let lead = seq![(" "@, fill)];
    if hard_fits(spans) {
        crate::wrap::hard_wrapped(spans, inner).map_values(
            |row: (LineView, int)|
                {
                    let p = inner - (if row.1 < inner { row.1 } else { inner }) + 1;
                    let p2 = if p > usize::MAX { usize::MAX as int } else { p };
                    lead + row.0 + seq![(repeat(' ', p2 as nat), fill)]
                },
        )
    } else {
        seq![lead + spans]
    }
}

/// A code block's text without its final line feed.
pub open spec fn code_body(code: Seq<char>) -> Seq<char> {
    if code.len() > 0 && code.last() == '\n' {
        code.drop_last()
    } else {
        code
    }
}

/// How far a code block without colors is indented: a quarter of the width, at most four.
pub open spec fn code_indent(avail: int) -> int {
    if avail / 4 < 4 {
        avail / 4
    } else {
        4
    }
}

/// The spans of a line on a background `bg`.
pub open spec fn with_bg(line: LineView, bg: Option<Color>) -> LineView {
    line.map_values(|p: (Seq<char>, Style)| (p.0, Style { bg, ..p.1 }))
}

/// The header of a code band `avail` columns wide: the language `label` at the right,
/// dimmed and italic in `fg`, where it fits.
pub open spec fn code_header(label: Seq<char>, avail: int, fill: Style, fg: Option<Color>) -> LineView {
    let lw = unicode_str_width(label) as int;
    if lw > 0 && lw < avail - 1 {
        seq![
            (repeat(' ', (avail - lw - 1) as nat), fill),
            (label, Style { fg, dim: true, italic: true, ..fill }),
            (" "@, fill),
        ]
    } else {
        seq![(repeat(' ', avail as nat), fill)]
    }
}

/// The rows of highlighted lines on the code band.
pub open spec fn band_block(hl: Seq<LineView>, inner: int, fill: Style, bg: Option<Color>) -> Seq<LineView>
    decreases hl.len(),
{
    if hl.len() == 0 {
        Seq::empty()
    } else {
        band_block(hl.drop_last(), inner, fill, bg) + band_rows(with_bg(hl.last(), bg), inner, fill)
    }
}

/// The alignment of column `c` (unset past the table's alignments).
pub open spec fn align_at(aligns: Seq<Align>, c: int) -> Align {
    if 0 <= c < aligns.len() {
        aligns[c]
    } else {
        Align::Unset
    }
}

/// `n + 1`, saturating at `usize::MAX`.
pub open spec fn sat_inc(n: int) -> int {
    if n + 1 > usize::MAX {
        usize::MAX as int
    } else {
        n + 1
    }
}

/// A cell's part of a table line: its content aligned in `w` columns with a space on
/// each side, then the border.
pub open spec fn cell_part(content: LineView, w: int, align: Align, bst: Style) -> LineView {
    let cw = sat_cols(spans_cols(content));
    let pad = if w > cw { w - cw } else { 0 };
    let lp = match align {
        Align::Right => pad,
        Align::Center => pad / 2,
        _ => 0,
    };
    let rp = match align {
        Align::Right => 0,
        Align::Center => pad - pad / 2,
        _ => pad,
    };
    seq![(repeat(' ', sat_inc(lp) as nat), plain_style())] + content + seq![
        (repeat(' ', sat_inc(rp) as nat), plain_style()),
        ("│"@, bst),
    ]
}

/// A table cell's part of a line is a blank run, the content, a blank run and the
/// border. The two blank runs hold one space each beyond the cell's padding (its width
/// less the content's), which goes all before the content in a right-aligned column,
/// all after it in a left-aligned or unaligned one, and is split evenly in a centered
/// one: the left share is half of it, rounded down, and the right one is no more than
/// one space larger.
pub proof fn lemma_cell_padding(content: LineView, w: int, align: Align, bst: Style)
    requires
        0 <= w < usize::MAX,
    ensures
        ({
            let cw = sat_cols(spans_cols(content));
            let pad = if w > cw { w - cw } else { 0 };
            let part = cell_part(content, w, align, bst);
            let lp = part[0].0.len() - 1;
            let rp = part[part.len() - 2].0.len() - 1;
            &&& part == seq![(repeat(' ', (lp + 1) as nat), plain_style())] + content + seq![
                (repeat(' ', (rp + 1) as nat), plain_style()),
                ("│"@, bst),
            ]
            &&& lp >= 0 && rp >= 0
            &&& lp + rp == pad
            &&& align is Right ==> rp == 0
            &&& (align is Left || align is Unset) ==> lp == 0
            &&& align is Center ==> lp == pad / 2 && lp <= rp <= lp + 1
        }),
{
    lemma_spans_cols_nonneg(content);
    let cw = sat_cols(spans_cols(content));
    let pad = if w > cw { w - cw } else { 0 };
    assert(0 <= pad <= w);
    let lp: int = match align {
        Align::Right => pad,
        Align::Center => pad / 2,
        _ => 0,
    };
    let rp: int = match align {
        Align::Right => 0,
        Align::Center => pad - pad / 2,
        _ => pad,
    };
    assert(sat_inc(lp) == lp + 1);
    assert(sat_inc(rp) == rp + 1);
    let part = cell_part(content, w, align, bst);
    let left = seq![(repeat(' ', (lp + 1) as nat), plain_style())];
    let right = seq![(repeat(' ', (rp + 1) as nat), plain_style()), ("│"@, bst)];
    assert(part =~= left + content + right);
    assert(part[0] == left[0]);
    assert(part[part.len() - 2] == right[0]);
    assert(repeat(' ', (lp + 1) as nat).len() == lp + 1);
    assert(repeat(' ', (rp + 1) as nat).len() == rp + 1);
}

/// A line's width is never negative.
proof fn lemma_spans_cols_nonneg(spans: LineView)
    ensures
        spans_cols(spans) >= 0,
    decreases spans.len(),
{
    if spans.len() > 0 {
        lemma_spans_cols_nonneg(spans.drop_last());
    }
}

/// Line `li` of a cell's lines, empty below its last.
pub open spec fn line_at(lines: Seq<LineView>, li: int) -> LineView {
    if 0 <= li < lines.len() {
        lines[li]
    } else {
        Seq::empty()
    }
}

/// Line `li` of a table row whose cells have the lines `cells`, over its first `k` columns.
pub open spec fn table_line(
    cells: Seq<Seq<LineView>>,
    widths: Seq<usize>,
    aligns: Seq<Align>,
    bst: Style,
    li: int,
    k: int,
) -> LineView
    decreases k,
{
    if k <= 0 {
        seq![("│"@, bst)]
    } else {
        table_line(cells, widths, aligns, bst, li, k - 1) + cell_part(
            line_at(cells[k - 1], li),
            widths[k - 1] as int,
            align_at(aligns, k - 1),
            bst,
        )
    }
}

/// The height of a table row: its tallest cell among the first `k`, at least one line.
pub open spec fn row_height(cells: Seq<Seq<LineView>>, k: int) -> int
    decreases k,
{
    if k <= 0 {
        1
    } else {
        let h = row_height(cells, k - 1);
        if cells[k - 1].len() > h {
            cells[k - 1].len() as int
        } else {
            h
        }
    }
}

/// The lines of the cells of row `r` in columns of `widths`: each cell wrapped at its
/// column's width (a missing cell is empty).
pub open spec fn row_cells(t: TableState, r: int, widths: Seq<usize>) -> Seq<Seq<LineView>> {
    Seq::new(
        widths.len(),
        |c: int|
            paragraph_lines(
                if c < t.rows@[r]@.len() {
                    span_views(t.rows@[r]@[c]@)
                } else {
                    Seq::empty()
                },
                widths[c] as int,
            ),
    )
}

/// The lines of row `r` of a table with columns of `widths`.
pub open spec fn row_lines(t: TableState, r: int, widths: Seq<usize>, bst: Style) -> Seq<LineView> {
    let cells = row_cells(t, r, widths);
    Seq::new(
        row_height(cells, widths.len() as int) as nat,
        |li: int| table_line(cells, widths, t.aligns@, bst, li, widths.len() as int),
    )
}

/// A border line of a table with columns of `widths`.
pub open spec fn border(widths: Seq<usize>, l: Seq<char>, m: Seq<char>, r: Seq<char>, fill: char, bst: Style) -> LineView {
    seq![(l + border_body(widths, widths.len() as int, m, r, fill), bst)]
}

/// The lines of a table's first `k` rows in columns of `widths`: its top border, then each
/// row after the line separating it from the one before (double under the head).
pub open spec fn grid_rows(t: TableState, widths: Seq<usize>, bst: Style, k: int) -> Seq<LineView>
    decreases k,
{
    if k <= 0 {
        seq![border(widths, "┌"@, "┬"@, "┐"@, '─', bst)]
    } else {
        let r = k - 1;
        let sep = if r == t.head_rows && r > 0 {
            seq![border(widths, "╞"@, "╪"@, "╡"@, '═', bst)]
        } else if r > 0 {
            seq![border(widths, "├"@, "┼"@, "┤"@, '─', bst)]
        } else {
            Seq::empty()
        };
        grid_rows(t, widths, bst, k - 1) + sep + row_lines(t, r, widths, bst)
    }
}

/// All lines of a table drawn in columns of `widths`, its bottom border included.
pub open spec fn grid(t: TableState, widths: Seq<usize>, bst: Style) -> Seq<LineView> {
    grid_rows(t, widths, bst, t.rows@.len() as int) + seq![border(widths, "└"@, "┴"@, "┘"@, '─', bst)]
}

/// The number of columns of a table's first `k` rows and its alignments: the most
/// cells a row has, or alignments given.
pub open spec fn table_cols(t: TableState, k: int) -> int
    decreases k,
{
    if k <= 0 {
        t.aligns@.len() as int
    } else {
        let m = table_cols(t, k - 1);
        if t.rows@[k - 1]@.len() > m {
            t.rows@[k - 1]@.len() as int
        } else {
            m
        }
    }
}

/// The view of the cell in column `c` of row `r` (empty where the row is shorter).
pub open spec fn cell_at(t: TableState, r: int, c: int) -> LineView {
    if 0 <= r < t.rows@.len() && 0 <= c < t.rows@[r]@.len() {
        span_views(t.rows@[r]@[c]@)
    } else {
        Seq::empty()
    }
}

/// The widest head cell among the first `k` columns, for the stacked layout's keys.
pub open spec fn head_width(t: TableState, k: int) -> int
    decreases k,
{
    if k <= 0 {
        0
    } else {
        let m = head_width(t, k - 1);
        let w = if k - 1 < t.rows@[0]@.len() { sat_cols(spans_cols(cell_at(t, 0, k - 1))) } else { 0 };
        if w > m {
            w
        } else {
            m
        }
    }
}

/// The width of the keys of the stacked layout: the widest head cell, at most a third
/// of the width.
pub open spec fn key_width(t: TableState, ncols: int, avail: int) -> int {
    let heads = t.head_rows > 0 && t.rows@.len() > 0;
    let k = if heads { head_width(t, ncols) } else { 0 };
    if k > avail / 3 {
        avail / 3
    } else {
        k
    }
}

/// A line in bold.
pub open spec fn bold_line(l: LineView) -> LineView {
    l.map_values(|p: (Seq<char>, Style)| (p.0, Style { bold: true, ..p.1 }))
}

/// Line `i` of a field of the stacked layout: the key's line in bold, padded to `key_w`
/// columns, the bar, then the value's line.
pub open spec fn stacked_line(key: Seq<LineView>, val: Seq<LineView>, key_w: int, bst: Style, i: int) -> LineView {
    let kw = if i < key.len() { sat_cols(spans_cols(key[i])) } else { 0 };
    let pad = if key_w > kw { key_w - kw } else { 0 };
    (if i < key.len() { bold_line(key[i]) } else { Seq::empty() }) + seq![
        (repeat(' ', (pad + 1) as nat), plain_style()),
        ("│ "@, bst),
    ] + (if i < val.len() { val[i] } else { Seq::empty() })
}

/// The lines of column `c` of row `r` in the stacked layout: the head cell as the key,
/// the row's cell as the value, each wrapped at its width.
pub open spec fn stacked_field(t: TableState, r: int, c: int, key_w: int, avail: int, bst: Style) -> Seq<LineView> {
    let heads = t.head_rows > 0 && t.rows@.len() > 0;
    let key = paragraph_lines(
        if heads { cell_at(t, 0, c) } else { Seq::empty() },
        if key_w < 1 { 1 } else { key_w },
    );
    let vw = if avail > key_w + 3 { avail - (key_w + 3) } else { 0 };
    let val = paragraph_lines(cell_at(t, r, c), if vw < 1 { 1 } else { vw });
    let count = if key.len() > val.len() { key.len() } else { val.len() };
    Seq::new(count, |i: int| stacked_line(key, val, key_w, bst, i))
}

/// The lines of row `r` in the stacked layout, over its first `k` columns.
pub open spec fn stacked_record(t: TableState, r: int, key_w: int, avail: int, bst: Style, k: int) -> Seq<LineView>
    decreases k,
{
    if k <= 0 {
        Seq::empty()
    } else {
        stacked_record(t, r, key_w, avail, bst, k - 1) + stacked_field(t, r, k - 1, key_w, avail, bst)
    }
}

/// The stacked layout of a table's body rows before row `k`: one record per row, a rule
/// between records.
pub open spec fn stacked_rows(t: TableState, ncols: int, key_w: int, avail: int, bst: Style, k: int) -> Seq<LineView>
    decreases k,
{
    if k <= t.head_rows {
        Seq::empty()
    } else {
        let r = k - 1;
        stacked_rows(t, ncols, key_w, avail, bst, k - 1) + (if r > t.head_rows {
            seq![seq![(repeat('─', avail as nat), bst)]]
        } else {
            Seq::empty()
        }) + stacked_record(t, r, key_w, avail, bst, ncols)
    }
}

/// The measured words of the cell in column `c` of row `r`.
pub open spec fn cell_words(t: TableState, r: int, c: int) -> Seq<Seq<usize>> {
    crate::table::measured(crate::wrap::line_text(cell_at(t, r, c)))
}

/// The widest word of a cell's first `k` segments, counting at most 24 columns.
pub open spec fn capped_words(cell: Seq<Seq<usize>>, k: int) -> int
    decreases k,
{
    if k <= 0 {
        0
    } else {
        crate::fit::max_int(capped_words(cell, k - 1), crate::fit::min_int(crate::fit::longest(cell[k - 1]), 24))
    }
}

/// The natural width of column `c` over the first `k` rows: its widest cell, at least 1.
pub open spec fn col_natural(t: TableState, c: int, k: int) -> int
    decreases k,
{
    if k <= 0 {
        1
    } else {
        crate::fit::max_int(col_natural(t, c, k - 1), crate::fit::cell_cols(cell_words(t, k - 1, c)))
    }
}

/// The least width of column `c` over the first `k` rows: its widest word (counting at
/// most 24 columns), at least 1.
pub open spec fn col_minimum(t: TableState, c: int, k: int) -> int
    decreases k,
{
    if k <= 0 {
        1
    } else {
        let cw = cell_words(t, k - 1, c);
        crate::fit::max_int(col_minimum(t, c, k - 1), capped_words(cw, cw.len() as int))
    }
}

/// The natural widths of a table's `ncols` columns.
pub open spec fn naturals(t: TableState, ncols: int) -> Seq<usize> {
    Seq::new(ncols as nat, |c: int| col_natural(t, c, t.rows@.len() as int) as usize)
}

/// The least widths of a table's `ncols` columns.
pub open spec fn minimums(t: TableState, ncols: int) -> Seq<usize> {
    Seq::new(ncols as nat, |c: int| col_minimum(t, c, t.rows@.len() as int) as usize)
}

/// The least widths of the first `k` columns, each counting at most 12, added up.
pub open spec fn small_sum(mins: Seq<usize>, k: int) -> int
    decreases k,
{
    if k <= 0 {
        0
    } else {
        small_sum(mins, k - 1) + crate::fit::min_int(mins[k - 1] as int, 12)
    }
}

/// The columns that the borders of a table with `ncols` columns take (saturating).
pub open spec fn frame_cols(ncols: int) -> int {
    if ncols <= (usize::MAX - 1) / 3 {
        3 * ncols + 1
    } else {
        usize::MAX as int
    }
}

/// The columns left for the cells of a table with `ncols` columns in `avail` columns.
pub open spec fn cell_space(ncols: int, avail: int) -> int {
    if avail > frame_cols(ncols) {
        avail - frame_cols(ncols)
    } else {
        0
    }
}

/// Whether a table is written as records: its natural widths do not fit the space left,
/// and either its words do not fit or it is narrower than four columns per column.
pub open spec fn stacks(t: TableState, ncols: int, avail: int) -> bool {
    let space = cell_space(ncols, avail);
    let narrow = if ncols <= usize::MAX / 4 { 4 * ncols } else { usize::MAX as int };
    &&& crate::fit::sum_of(naturals(t, ncols)) > space
    &&& (small_sum(minimums(t, ncols), ncols) > space || space < narrow)
}

/// Widths as `fit_columns` chooses them for `space` columns (see its contract).
pub open spec fn fitted(natural: Seq<usize>, minimum: Seq<usize>, space: int, r: Seq<usize>) -> bool {
    let mins = crate::fit::column_mins(natural, minimum);
    &&& crate::fit::sum_of(natural) <= space ==> r == natural
    &&& crate::fit::sum_of(natural) > space && crate::fit::sum_of(mins) >= space ==> r == crate::fit::scaled_mins(mins, space)
    &&& crate::fit::sum_of(natural) > space && crate::fit::sum_of(mins) < space ==> {
        &&& r.len() == natural.len()
        &&& crate::fit::sum_of(r) == space
        &&& forall|c: int| 0 <= c < natural.len() ==> mins[c] <= #[trigger] r[c] <= natural[c]
    }
}

/// Measures a table's cells, and each of its `ncols` columns' natural and least widths.
fn measure_table(t: &TableState, ncols: usize) -> (r: (Vec<Vec<crate::table::CellWords>>, Vec<usize>, Vec<usize>))
    ensures
        r.0@.len() == t.rows@.len(),
        crate::fit::rows_have(r.0@, ncols as int),
        r.1@ == naturals(*t, ncols as int),
        r.2@ == minimums(*t, ncols as int),
        forall|j: int| 0 <= j < ncols ==> 1 <= #[trigger] r.1@[j],
        forall|j: int| 0 <= j < ncols ==> 1 <= #[trigger] r.2@[j],
{
    let empty: Vec<Span> = Vec::new();
    let mut measured: Vec<Vec<crate::table::CellWords>> = Vec::new();
    let mut natural: Vec<usize> = Vec::new();
    let mut minimum: Vec<usize> = Vec::new();
    let mut c: usize = 0;
    while c < ncols
        invariant
            c <= ncols,
            natural@.len() == c,
            minimum@.len() == c,
            forall|j: int| 0 <= j < c ==> natural@[j] == col_natural(*t, j, 0),
            forall|j: int| 0 <= j < c ==> minimum@[j] == col_minimum(*t, j, 0),
        decreases ncols - c,
    {
        natural.push(1);
        minimum.push(1);
        c += 1;
    }
    let mut r: usize = 0;
    while r < t.rows.len()
        invariant
            r <= t.rows@.len(),
            measured@.len() == r,
            natural@.len() == ncols,
            minimum@.len() == ncols,
            empty@.len() == 0,
            crate::fit::rows_have(measured@, ncols as int),
            forall|j: int| 0 <= j < ncols ==> natural@[j] == col_natural(*t, j, r as int),
            forall|j: int| 0 <= j < ncols ==> minimum@[j] == col_minimum(*t, j, r as int),
        decreases t.rows@.len() - r,
    {
        let mut row: Vec<crate::table::CellWords> = Vec::new();
        let mut c: usize = 0;
        while c < ncols
            invariant
                r < t.rows@.len(),
                c <= ncols,
                row@.len() == c,
                natural@.len() == ncols,
                minimum@.len() == ncols,
                empty@.len() == 0,
                forall|j: int| 0 <= j < c ==> natural@[j] == col_natural(*t, j, r + 1),
                forall|j: int| 0 <= j < c ==> minimum@[j] == col_minimum(*t, j, r + 1),
                forall|j: int| c <= j < ncols ==> natural@[j] == col_natural(*t, j, r as int),
                forall|j: int| c <= j < ncols ==> minimum@[j] == col_minimum(*t, j, r as int),
            decreases ncols - c,
        {
            let cell = if c < t.rows[r].len() {
                crate::table::measure_cell(t.rows[r][c].as_slice())
            } else {
                assert(span_views(empty@) =~= Seq::<(Seq<char>, Style)>::empty());
                crate::table::measure_cell(empty.as_slice())
            };
            let ghost cv = crate::table::cell_view(cell);
            assert(cv == cell_words(*t, r as int, c as int));
            let ghost nat0 = natural@;
            let ghost min0 = minimum@;
            let mut k: usize = 0;
            proof {
                assert(cv.take(0) =~= Seq::<Seq<usize>>::empty());
            }
            while k < cell.len()
                invariant
                    c < ncols,
                    k <= cell@.len(),
                    cv == crate::table::cell_view(cell),
                    natural@.len() == ncols,
                    minimum@.len() == ncols,
                    nat0.len() == ncols,
                    min0.len() == ncols,
                    natural@[c as int] == crate::fit::max_int(nat0[c as int] as int, crate::fit::cell_cols(cv.take(k as int))),
                    minimum@[c as int] == crate::fit::max_int(min0[c as int] as int, capped_words(cv, k as int)),
                    forall|j: int| 0 <= j < ncols && j != c ==> natural@[j] == nat0[j],
                    forall|j: int| 0 <= j < ncols && j != c ==> minimum@[j] == min0[j],
                decreases cell@.len() - k,
            {
                let w = crate::fit::seg_width(&cell[k]);
                assert(cv[k as int] == cell@[k as int]@);
                assert(cv.take(k + 1).drop_last() =~= cv.take(k as int));
                assert(cv.take(k + 1).last() == cv[k as int]);
                if w > natural[c] {
                    natural.set(c, w);
                }
                let mut longest: usize = 0;
                let mut q: usize = 0;
                while q < cell[k].len()
                    invariant
                        k < cell@.len(),
                        q <= cell@[k as int]@.len(),
                        longest == crate::fit::longest(cell@[k as int]@.take(q as int)),
                    decreases cell@[k as int]@.len() - q,
                {
                    assert(cell@[k as int]@.take(q + 1).drop_last() =~= cell@[k as int]@.take(q as int));
                    if cell[k][q] > longest {
                        longest = cell[k][q];
                    }
                    q += 1;
                }
                assert(cell@[k as int]@.take(q as int) =~= cell@[k as int]@);
                let capped = if longest < 24 { longest } else { 24 };
                if capped > minimum[c] {
                    minimum.set(c, capped);
                }
                k += 1;
            }
            assert(cv.take(k as int) =~= cv);
            assert(nat0[c as int] == col_natural(*t, c as int, r as int));
            assert(min0[c as int] == col_minimum(*t, c as int, r as int));
            assert(cv.len() == k);
            assert(natural@[c as int] == col_natural(*t, c as int, r + 1));
            assert(minimum@[c as int] == col_minimum(*t, c as int, r + 1));
            row.push(cell);
            proof {
                assert forall|j: int| 0 <= j < c + 1 implies #[trigger] natural@[j] == col_natural(*t, j, r + 1) by {
                    if j < c {
                        assert(nat0[j] == col_natural(*t, j, r + 1));
                    }
                }
                assert forall|j: int| 0 <= j < c + 1 implies #[trigger] minimum@[j] == col_minimum(*t, j, r + 1) by {
                    if j < c {
                        assert(min0[j] == col_minimum(*t, j, r + 1));
                    }
                }
                assert forall|j: int| c + 1 <= j < ncols implies #[trigger] natural@[j] == col_natural(*t, j, r as int) by {
                    assert(nat0[j] == col_natural(*t, j, r as int));
                }
                assert forall|j: int| c + 1 <= j < ncols implies #[trigger] minimum@[j] == col_minimum(*t, j, r as int) by {
                    assert(min0[j] == col_minimum(*t, j, r as int));
                }
            }
            c += 1;
        }
        measured.push(row);
        proof {
            assert forall|rr: int| 0 <= rr < measured@.len() implies #[trigger] measured@[rr]@.len() == ncols by {}
        }
        r += 1;
    }
    proof {
        assert(natural@ =~= naturals(*t, ncols as int));
        assert(minimum@ =~= minimums(*t, ncols as int));
        assert forall|j: int| 0 <= j < ncols implies 1 <= #[trigger] natural@[j] by {
            lemma_col_at_least_one(*t, j, t.rows@.len() as int);
            assert(natural@[j] == col_natural(*t, j, t.rows@.len() as int));
        }
        assert forall|j: int| 0 <= j < ncols implies 1 <= #[trigger] minimum@[j] by {
            lemma_col_at_least_one(*t, j, t.rows@.len() as int);
            assert(minimum@[j] == col_minimum(*t, j, t.rows@.len() as int));
        }
    }
    (measured, natural, minimum)
}

proof fn lemma_col_at_least_one(t: TableState, c: int, k: int)
    ensures
        col_natural(t, c, k) >= 1,
        col_minimum(t, c, k) >= 1,
    decreases k,
{
    if k > 0 {
        lemma_col_at_least_one(t, c, k - 1);
    }
}

/// Output made of whole lines.
pub open spec fn whole_lines(out: Seq<char>) -> bool {
    out.len() == 0 || out.last() == '\n'
}

impl Renderer {
    spec fn nlinks(&self) -> int {
        self.w.links@.len() as int
    }

    spec fn wf(&self) -> bool {
        let n = self.nlinks();
        &&& self.styles@.len() >= 1
        &&& forall|i: int| 0 <= i < self.styles@.len() ==> (#[trigger] self.styles@[i]).link <= n
        &&& spans_ok(self.inline@, n)
        &&& forall|i: int| 0 <= i < self.containers@.len() ==> container_ok(#[trigger] self.containers@[i], n)
        &&& self.used@.len() == self.containers@.len()
        &&& (self.table matches Some(t) ==> rows_ok(t.rows@, n))
        &&& self.pal.no_links()
        &&& self.w.mode == self.cfg.mode
        &&& self.w.hyperlinks == self.cfg.hyperlinks
        &&& forall|i: int| 0 <= i < self.links@.len() ==> (#[trigger] self.links@[i]).id <= n
        &&& whole_lines(self.out@)
    }

    fn color(&self) -> (r: bool)
        ensures
            r == (self.cfg.mode != ColorMode::NoColor),
    {
        self.cfg.mode != ColorMode::NoColor
    }

    /// The style in effect.
    fn style(&self) -> (r: Style)
        requires
            self.wf(),
        ensures
            r == self.styles@.last(),
            r.link <= self.nlinks(),
    {
        self.styles[self.styles.len() - 1]
    }

    fn push_style(&mut self, s: Style)
        requires
            old(self).wf(),
            s.link <= old(self).nlinks(),
        ensures
            final(self).wf(),
            final(self).styles@ == old(self).styles@.push(crate::style::patched(old(self).styles@.last(), s)),
            final(self).only_styles_changed(*old(self)),
    {
        let top = self.style().patch(s);
        self.styles.push(top);
    }

    fn pop_style(&mut self)
        requires
            old(self).wf(),
        ensures
            final(self).wf(),
            final(self).styles@ == if old(self).styles@.len() > 1 {
                old(self).styles@.drop_last()
            } else {
                old(self).styles@
            },
            final(self).only_styles_changed(*old(self)),
    {
        if self.styles.len() > 1 {
            self.styles.pop();
        }
    }

    /// Appends text in the current style, merging it into the last span when that has
    /// the same style.
    fn text(&mut self, t: &str)
        requires
            old(self).wf(),
        ensures
            final(self).wf(),
            span_views(final(self).inline@) == crate::wrap::push_str_line(
                span_views(old(self).inline@),
                t@,
                old(self).styles@.last(),
            ),
            final(self).only_inline_changed(*old(self)),
    {
        let style = self.style();
        let n = self.inline.len();
        if n > 0 && self.inline[n - 1].style == style {
            let mut last = self.inline.pop().unwrap();
            push_str(&mut last.text, t);
            self.inline.push(last);
            assert(span_views(self.inline@) == crate::wrap::push_str_line(span_views(old(self).inline@), t@, style));
        } else {
            self.inline.push(Span::new(t, style));
            assert(span_views(self.inline@) == crate::wrap::push_str_line(span_views(old(self).inline@), t@, style));
        }
    }

    /// Width of the prefixes of all containers (saturating).
    fn prefix_width(&self) -> (r: usize)
        ensures
            r == sat_cols(prefix_cols(self.containers@, self.containers@.len() as int)),
    {
        let mut total: usize = 0;
        let mut i: usize = 0;
        while i < self.containers.len()
            invariant
                i <= self.containers@.len(),
                total == sat_cols(prefix_cols(self.containers@, i as int)),
                prefix_cols(self.containers@, i as int) >= 0,
            decreases self.containers@.len() - i,
        {
            let w = match &self.containers[i] {
                Container::Quote(_) => 2,
                Container::Item { width, .. } => *width,
            };
            total = total.saturating_add(w);
            i += 1;
        }
        total
    }

    /// Width left for content inside the containers: never less than 10.
    fn avail(&self) -> (r: usize)
        ensures
            r == avail_of(self.cfg.width as int, prefix_cols(self.containers@, self.containers@.len() as int)),
            r >= 10,
    {
        let p = self.prefix_width();
        let a = self.cfg.width.saturating_sub(p);
        if a < 10 { 10 } else { a }
    }

    /// The spans in front of a line (of a blank line, if `blank`, where nothing trails);
    /// writing a nonblank line shows each item's marker, so that later lines are indented.
    fn prefix(&mut self, blank: bool) -> (p: Vec<Span>)
        requires
            old(self).wf(),
        ensures
            final(self).wf(),
            spans_ok(p@, final(self).nlinks()),
            span_views(p@) == if blank {
                blank_prefix(prefix_raw(old(self).containers@, old(self).used@, true, old(self).containers@.len() as int))
            } else {
                prefix_raw(old(self).containers@, old(self).used@, false, old(self).containers@.len() as int)
            },
            final(self).used@ == if blank { old(self).used@ } else { Seq::new(old(self).used@.len(), |i: int| true) },
            final(self).only_used_changed(*old(self)),
    {
        let ghost n = self.nlinks();
        let ghost cs = self.containers@;
        let ghost used0 = self.used@;
        let mut p: Vec<Span> = Vec::new();
        let mut i: usize = 0;
        while i < self.containers.len()
            invariant
                self.wf(),
                n == self.nlinks(),
                cs == self.containers@,
                i <= cs.len(),
                spans_ok(p@, n),
                span_views(p@) == prefix_raw(cs, used0, blank, i as int),
                forall|j: int| i <= j < cs.len() ==> self.used@[j] == used0[j],
                forall|j: int| 0 <= j < i ==> self.used@[j] == if blank { used0[j] } else { true },
                self.only_used_changed(*old(self)),
            decreases cs.len() - i,
        {
            let ghost before = span_views(p@);
            assert(container_ok(cs[i as int], n));
            match &self.containers[i] {
                Container::Quote(st) => {
                    p.push(Span::new("│ ", *st));
                },
                Container::Item { marker, width } => {
                    if !blank && !self.used[i] {
                        let mut m = dup_spans(marker);
                        p.append(&mut m);
                        assert(span_views(p@) == before + span_views(marker@));
                    } else {
                        let mut pad = String::new();
                        push_repeat(&mut pad, ' ', *width);
                        p.push(Span { text: pad, style: Style::default() });
                    }
                },
            }
            if !blank {
                self.used.set(i, true);
            }
            assert(span_views(p@) == prefix_raw(cs, used0, blank, i + 1));
            i += 1;
        }
        assert(self.used@ == if blank { used0 } else { Seq::new(used0.len(), |i: int| true) });
        if blank {
            let ghost raw = span_views(p@);
            while p.len() > 0 && blank_text(p[p.len() - 1].text.as_str())
                invariant
                    spans_ok(p@, n),
                    drop_blank_tail(raw) == drop_blank_tail(span_views(p@)),
                decreases p@.len(),
            {
                assert(span_views(p@).drop_last() == span_views(p@.drop_last()));
                p.pop();
            }
            assert(drop_blank_tail(span_views(p@)) == span_views(p@));
            let k = p.len();
            if k > 0 {
                let last = p.pop().unwrap();
                let t = trimmed_end(last.text.as_str());
                p.push(Span { text: t, style: last.style });
                assert(span_views(p@) == blank_prefix(raw));
            }
        }
        p
    }

    /// Writes a line: the containers' prefix, then `content`.
    fn emit(&mut self, content: Vec<Span>)
        requires
            old(self).wf(),
            spans_ok(content@, old(self).nlinks()),
        ensures
            final(self).wf(),
            final(self).out@ == old(self).out@ + line_output(
                old(self).cfg.mode,
                old(self).cfg.hyperlinks,
                old(self).w.link_targets(),
                prefix_raw(old(self).containers@, old(self).used@, false, old(self).containers@.len() as int)
                    + span_views(content@),
            ),
            final(self).used@ == Seq::new(old(self).used@.len(), |i: int| true),
            final(self).wrote_any,
            final(self).only_output_changed(*old(self)),
    {
        let mut line = self.prefix(false);
        let ghost pv = span_views(line@);
        let ghost cv = span_views(content@);
        let mut content = content;
        line.append(&mut content);
        assert(span_views(line@) =~= pv + cv);
        self.w.write_line(&mut self.out, &line);
        self.wrote_any = true;
    }

    /// Writes a blank line inside the containers.
    fn emit_blank(&mut self)
        requires
            old(self).wf(),
        ensures
            final(self).wf(),
            final(self).out@ == old(self).out@ + line_output(
                old(self).cfg.mode,
                old(self).cfg.hyperlinks,
                old(self).w.link_targets(),
                blank_prefix(prefix_raw(old(self).containers@, old(self).used@, true, old(self).containers@.len() as int)),
            ),
            final(self).used@ == old(self).used@,
            final(self).wrote_any == old(self).wrote_any,
            final(self).only_output_changed(*old(self)),
    {
        let line = self.prefix(true);
        self.w.write_line(&mut self.out, &line);
    }

    /// Writes the pending inline spans as wrapped lines, unless they are all blank.
    fn flush_inline(&mut self)
        requires
            old(self).wf(),
        ensures
            final(self).wf(),
            final(self).inline@.len() == 0,
            ({
                let o = old(self);
                let v = span_views(o.inline@);
                if v.len() == 0 || all_blank(v) {
                    &&& final(self).out == o.out
                    &&& final(self).used == o.used
                    &&& final(self).wrote_any == o.wrote_any
                } else {
                    let avail = avail_of(o.cfg.width as int, prefix_cols(o.containers@, o.containers@.len() as int));
                    let lines = paragraph_lines(v, avail);
                    &&& final(self).out@ == o.out@ + lines_output(o.cfg.mode, o.cfg.hyperlinks, o.w.link_targets(), o.containers@, o.used@, lines)
                    &&& final(self).used@ == Seq::new(o.used@.len(), |i: int| true)
                    &&& final(self).wrote_any
                }
            }),
            final(self).only_flush_changed(*old(self)),
    {
        if self.inline.len() == 0 {
            return;
        }
        let mut spans: Vec<Span> = Vec::new();
        std::mem::swap(&mut spans, &mut self.inline);
        let ghost v = span_views(spans@);
        let ghost n = self.nlinks();
        let mut blank = true;
        let mut i: usize = 0;
        while i < spans.len()
            invariant
                i <= spans@.len(),
                v == span_views(spans@),
                blank <==> forall|j: int| 0 <= j < i ==> is_blank_text(#[trigger] v[j].0),
            decreases spans@.len() - i,
        {
            assert(v[i as int].0 == spans@[i as int].text@);
            if !blank_text(spans[i].text.as_str()) {
                blank = false;
            }
            i += 1;
        }
        if blank {
            return;
        }
        let avail = self.avail();
        let ghost o = *old(self);
        proof {
            lemma_text_len(v);
        }
        let lines: Vec<Line> = match wrap_room(&spans) {
            Some(_) => crate::wrap::wrap(spans.as_slice(), avail),
            None => {
                let mut one: Vec<Line> = Vec::new();
                one.push(spans);
                assert(crate::wrap::line_views(one@) == seq![v]);
                one
            },
        };
        let ghost lv = crate::wrap::line_views(lines@);
        assert(lv == paragraph_lines(v, avail as int));
        proof {
            let pr = |st: Style| st.link <= n;
            assert(crate::wrap::all_styles(v, pr));
            crate::wrap::lemma_wrapped_styles(v, avail as int, pr);
        }
        let mut k: usize = 0;
        while k < lines.len()
            invariant
                self.wf(),
                n == self.nlinks(),
                self.inline@.len() == 0,
                lv == crate::wrap::line_views(lines@),
                lv == paragraph_lines(v, avail as int),
                forall|j: int| 0 <= j < lv.len() ==> view_ok(#[trigger] lv[j], n),
                k <= lv.len(),
                self.out@ == o.out@ + lines_output(o.cfg.mode, o.cfg.hyperlinks, o.w.link_targets(), o.containers@, o.used@, lv.take(k as int)),
                k > 0 ==> self.used@ == Seq::new(o.used@.len(), |i: int| true),
                k == 0 ==> self.used == o.used && self.wrote_any == o.wrote_any,
                k > 0 ==> self.wrote_any,
                self.cfg == o.cfg,
                self.pal == o.pal,
                self.w == o.w,
                self.containers == o.containers,
                self.lists == o.lists,
                self.styles == o.styles,
                self.pending_blank == o.pending_blank,
                self.code == o.code,
                self.html == o.html,
                self.table == o.table,
                self.heading == o.heading,
                self.links == o.links,
                self.html_tags == o.html_tags,
                self.footnotes == o.footnotes,
                self.highlighter == o.highlighter,
                self.skip_depth == o.skip_depth,
            decreases lv.len() - k,
        {
            let line = dup_spans(&lines[k]);
            assert(span_views(line@) == lv[k as int]);
            assert(view_ok(lv[k as int], n));
            assert(spans_ok(line@, n)) by {
                assert forall|j: int| 0 <= j < line@.len() implies (#[trigger] line@[j]).style.link <= n by {
                    assert(span_views(line@)[j].1 == line@[j].style);
                }
            }
            let ghost before = self.out@;
            let ghost used_before = self.used@;
            self.emit(line);
            assert(lv.take(k + 1).drop_last() == lv.take(k as int));
            assert(used_before == if k == 0 { o.used@ } else { Seq::new(o.used@.len(), |i: int| true) });
            k += 1;
        }
        assert(lv.take(k as int) == lv);
    }

    /// Everything but the output, the shown markers, whether anything was written and
    /// the inline spans is as in `o`.
    spec fn only_flush_changed(&self, o: Renderer) -> bool {
        &&& self.cfg == o.cfg
        &&& self.pal == o.pal
        &&& self.w == o.w
        &&& self.containers == o.containers
        &&& self.lists == o.lists
        &&& self.styles == o.styles
        &&& self.pending_blank == o.pending_blank
        &&& self.code == o.code
        &&& self.html == o.html
        &&& self.table == o.table
        &&& self.heading == o.heading
        &&& self.links == o.links
        &&& self.html_tags == o.html_tags
        &&& self.footnotes == o.footnotes
        &&& self.highlighter == o.highlighter
        &&& self.skip_depth == o.skip_depth
    }

    /// Starts a block: pending inline text is written, and a blank line separates the
    /// block from what was written before, if a block ended since.
    fn start_block(&mut self)
        requires
            old(self).wf(),
        ensures
            final(self).wf(),
            !final(self).pending_blank,
            final(self).inline@.len() == 0,
            final(self).stable(*old(self)),
            final(self).only_flow_changed(*old(self)),
            final(self).out@ == old(self).block_started_out(),
            final(self).used@ == old(self).flushed_used(),
            final(self).wrote_any == old(self).flushed_wrote(),
    {
        self.flush_inline();
        if self.pending_blank && self.wrote_any {
            self.emit_blank();
        }
        self.pending_blank = false;
    }

    /// Ends a block: pending inline text is written, and the next block is separated
    /// by a blank line.
    fn end_block(&mut self)
        requires
            old(self).wf(),
        ensures
            final(self).wf(),
            final(self).pending_blank,
            final(self).inline@.len() == 0,
            final(self).stable(*old(self)),
            final(self).only_flow_changed(*old(self)),
            final(self).out@ == old(self).flushed_out(),
            final(self).used@ == old(self).flushed_used(),
            final(self).wrote_any == old(self).flushed_wrote(),
    {
        self.flush_inline();
        self.pending_blank = true;
    }

    /// What every step that only writes keeps: the configuration, the palette, the link
    /// targets, the containers, the lists, the styles, the open links and heading, the
    /// footnotes and the collected table, code and HTML.
    spec fn stable(&self, o: Renderer) -> bool {
        &&& self.cfg == o.cfg
        &&& self.pal == o.pal
        &&& self.w == o.w
        &&& self.heading == o.heading
        &&& self.footnotes == o.footnotes
        &&& self.containers == o.containers
        &&& self.used@.len() == o.used@.len()
        &&& self.lists == o.lists
        &&& self.styles == o.styles
        &&& self.code == o.code
        &&& self.html == o.html
        &&& self.table == o.table
        &&& self.links == o.links
        &&& self.html_tags == o.html_tags
        &&& self.skip_depth == o.skip_depth
    }

    /// The number of a footnote label: its place among the labels seen so far, a new
    /// label being added at the end.
    fn footnote_number(&mut self, label: &str) -> (r: usize)
        requires
            old(self).wf(),
        ensures
            final(self).wf(),
            final(self).footnotes@.len() <= old(self).footnotes@.len() + 1,
            1 <= r <= final(self).footnotes@.len(),
            final(self).footnotes@[r - 1]@ == label@,
            forall|k: int| 0 <= k < r - 1 ==> (#[trigger] final(self).footnotes@[k])@ != label@,
            forall|k: int| 0 <= k < old(self).footnotes@.len() ==> (#[trigger] final(self).footnotes@[k]) == old(self).footnotes@[k],
            r == footnote_no(old(self).footnotes@, label@, 0),
            r <= old(self).footnotes@.len() ==> final(self).footnotes == old(self).footnotes,
            r > old(self).footnotes@.len() ==> final(self).footnotes@.drop_last() == old(self).footnotes@,
            final(self).cfg == old(self).cfg,
            final(self).pal == old(self).pal,
            final(self).w == old(self).w,
            final(self).out == old(self).out,
            final(self).containers == old(self).containers,
            final(self).used == old(self).used,
            final(self).lists == old(self).lists,
            final(self).inline == old(self).inline,
            final(self).styles == old(self).styles,
            final(self).pending_blank == old(self).pending_blank,
            final(self).wrote_any == old(self).wrote_any,
            final(self).code == old(self).code,
            final(self).html == old(self).html,
            final(self).table == old(self).table,
            final(self).heading == old(self).heading,
            final(self).links == old(self).links,
            final(self).html_tags == old(self).html_tags,
            final(self).highlighter == old(self).highlighter,
            final(self).skip_depth == old(self).skip_depth,
    {
        let mut k: usize = 0;
        while k < self.footnotes.len()
            invariant
                self.wf(),
                self.footnotes == old(self).footnotes,
                k <= self.footnotes@.len(),
                forall|j: int| 0 <= j < k ==> (#[trigger] self.footnotes@[j])@ != label@,
                footnote_no(self.footnotes@, label@, 0) == footnote_no(self.footnotes@, label@, k as int),
            decreases self.footnotes@.len() - k,
        {
            let v = crate::text::chars_of(self.footnotes[k].as_str());
            if crate::highlight::eq_str(&v, label) {
                return k + 1;
            }
            k += 1;
        }
        self.footnotes.push(label.to_owned());
        self.footnotes.len()
    }

    /// Opens a link to `url`: its text is styled with `st` and carries the link's id.
    fn start_link(&mut self, url: String, show_url: bool, st: Style)
        requires
            old(self).wf(),
            st.link == 0,
        ensures
            final(self).wf(),
            final(self).nlinks() == old(self).nlinks() + 1,
            final(self).w.links@.len() == old(self).w.links@.len() + 1,
            final(self).w.links@.drop_last() == old(self).w.links@,
            final(self).w.links@.last()@ == url@,
            final(self).w.mode == old(self).w.mode,
            final(self).w.hyperlinks == old(self).w.hyperlinks,
            final(self).links@.len() == old(self).links@.len() + 1,
            final(self).links@.drop_last() == old(self).links@,
            final(self).links@.last().id == (old(self).nlinks() + 1) as u32,
            final(self).links@.last().url@ == url@,
            final(self).links@.last().start == old(self).inline@.len(),
            final(self).links@.last().show_url == show_url,
            final(self).styles@ == old(self).styles@.push(
                patched(old(self).styles@.last(), Style { link: (old(self).nlinks() + 1) as u32, ..st }),
            ),
            final(self).cfg == old(self).cfg,
            final(self).pal == old(self).pal,
            final(self).out == old(self).out,
            final(self).containers == old(self).containers,
            final(self).used == old(self).used,
            final(self).lists == old(self).lists,
            final(self).inline == old(self).inline,
            final(self).pending_blank == old(self).pending_blank,
            final(self).wrote_any == old(self).wrote_any,
            final(self).code == old(self).code,
            final(self).html == old(self).html,
            final(self).table == old(self).table,
            final(self).heading == old(self).heading,
            final(self).html_tags == old(self).html_tags,
            final(self).footnotes == old(self).footnotes,
            final(self).highlighter == old(self).highlighter,
            final(self).skip_depth == old(self).skip_depth,
    {
        let id = self.w.add_link(url.as_str().to_owned());
        proof {
            if self.w.links@.len() > u32::MAX {
                assert(id <= u32::MAX);
            }
        }
        let start = self.inline.len();
        self.links.push(LinkInfo { id, url, start, show_url });
        self.push_style(Style { link: id, ..st });
    }

    /// Closes the innermost link: an image gets its closing bracket, and a link whose
    /// URL is shown gets ` <url>` unless its text already is the URL.
    fn end_link(&mut self, image: bool)
        requires
            old(self).wf(),
        ensures
            final(self).wf(),
            old(self).ended(*final(self), if image { MdTagEnd::Image } else { MdTagEnd::Link }),
            final(self).containers == old(self).containers,
            final(self).lists == old(self).lists,
            final(self).used == old(self).used,
            final(self).wrote_any == old(self).wrote_any,
            final(self).table == old(self).table,
            final(self).highlighter == old(self).highlighter,
    {
        self.pop_style();
        let ghost mid = *self;
        let info = match self.links.pop() {
            Some(info) => info,
            None => {
                return;
            },
        };
        assert(info == old(self).links@.last());
        if image {
            let link = Style { link: info.id, ..Style::default() };
            let st = self.style().patch(self.pal.dim).patch(link);
            self.inline.push(Span::new("]", st));
        }
        let ghost v1 = span_views(self.inline@);
        assert(v1 == if image {
            span_views(old(self).inline@).push((
                "]"@,
                patched(patched(old(self).popped_styles().last(), self.pal.dim), Style { link: info.id, ..plain_style() }),
            ))
        } else {
            span_views(old(self).inline@)
        });
        if info.show_url {
            let mut text = String::new();
            let n = self.inline.len();
            if info.start <= n {
                let mut i = info.start;
                while i < n
                    invariant
                        self.wf(),
                        n == self.inline@.len(),
                        v1 == span_views(self.inline@),
                        info.start <= i <= n,
                        text@ == crate::wrap::line_text(v1.subrange(info.start as int, i as int)),
                    decreases n - i,
                {
                    assert(v1.subrange(info.start as int, i + 1).drop_last() =~= v1.subrange(info.start as int, i as int));
                    push_str(&mut text, self.inline[i].text.as_str());
                    i += 1;
                }
                assert(v1.subrange(info.start as int, i as int) =~= v1.skip(info.start as int));
            }
            assert(text@ == text_from(v1, info.start as int));
            let tv = crate::text::chars_of(text.as_str());
            if !crate::highlight::eq_str(&tv, info.url.as_str()) {
                let st = self.style().patch(self.pal.dim);
                let mut shown = String::new();
                push_str(&mut shown, " <");
                push_str(&mut shown, info.url.as_str());
                push_str(&mut shown, ">");
                self.inline.push(Span { text: shown, style: st });
                assert(span_views(self.inline@) =~= v1.push((" <"@ + info.url@ + ">"@, patched(old(self).popped_styles().last(), self.pal.dim))));
            }
        }
    }

    /// Inline HTML: formatting tags style the text up to their closing tag, `<br>`
    /// breaks the line, `<a href>` and `<img>` become links, comments vanish and any
    /// other tag is shown dimmed.
    #[verifier::spinoff_prover]
    #[verifier::rlimit(40)]
    fn inline_html(&mut self, html: &str)
        requires
            old(self).wf(),
        ensures
            final(self).wf(),
            old(self).html_done(*final(self), html@),
    {
        proof {
            reveal_strlit("href");
        }
        let hv = crate::text::chars_of(html);
        let t = trim_chars(&hv);
        if has_prefix(&t, "<!--") {
            return;
        }
        let closing = has_prefix(&t, "</");
        let name = crate::html::tag_name_of(&t);
        let nv = crate::text::chars_of(name.as_str());
        let ts = crate::text::string_of(&t);
        if crate::highlight::eq_str(&nv, "br") {
            self.text("\n");
            return;
        }
        let is_a = crate::highlight::eq_str(&nv, "a");
        let href = if is_a && !closing {
            crate::html::attr(ts.as_str(), "href")
        } else {
            None
        };
        let fmt = match format_style(&nv, self.pal.code) {
            Some(st) => Some(st),
            None => if is_a && !closing && href.is_none() {
                Some(Style::default())
            } else {
                None
            },
        };
        assert(ts@ == t@);
        match fmt {
            Some(st) => {
                self.html_format_tag(name, closing, &t, st);
            },
            None => {
                if is_a && !closing {
                    match href {
                        Some(h) => {
                            let ghost nm = name;
                            self.html_link_open(name, h);
                            assert(self.html_tags@ == old(self).html_tags@.push(nm));
                            assert(self.html_tags@.drop_last() =~= old(self).html_tags@);
                        },
                        None => {},
                    }
                } else if is_a {
                    self.html_link_close();
                } else if crate::highlight::eq_str(&nv, "img") {
                    self.html_image(ts.as_str());
                } else {
                    let st = self.style().patch(self.pal.dim);
                    let ghost before = span_views(self.inline@);
                    self.inline.push(Span::new(html, st));
                    assert(span_views(self.inline@) =~= before.push((html@, st)));
                }
            },
        }
    }

    /// A formatting tag named `name` (trimmed text `t`) with style `st`: an opening tag
    /// sets the style, the matching closing tag restores the one before.
    fn html_format_tag(&mut self, name: String, closing: bool, t: &Vec<char>, st: Style)
        requires
            old(self).wf(),
            st.link == 0,
        ensures
            final(self).wf(),
            if closing {
                if old(self).html_tags@.len() > 0 && old(self).html_tags@.last()@ == name@ {
                    &&& final(self).html_tags@ == old(self).html_tags@.drop_last()
                    &&& final(self).styles@ == old(self).popped_styles()
                    &&& *final(self) == (Renderer { html_tags: final(self).html_tags, styles: final(self).styles, ..*old(self) })
                } else {
                    *final(self) == *old(self)
                }
            } else if ends_with(t@, "/>"@) {
                *final(self) == *old(self)
            } else {
                &&& final(self).html_tags@.len() == old(self).html_tags@.len() + 1
                &&& final(self).html_tags@.drop_last() == old(self).html_tags@
                &&& final(self).html_tags@.last() == name
                &&& final(self).styles@ == old(self).styles@.push(patched(old(self).styles@.last(), st))
                &&& *final(self) == (Renderer { html_tags: final(self).html_tags, styles: final(self).styles, ..*old(self) })
            },
    {
        if closing {
            let n = self.html_tags.len();
            if n > 0 {
                let lv = crate::text::chars_of(self.html_tags[n - 1].as_str());
                if crate::highlight::eq_str(&lv, name.as_str()) {
                    self.html_tags.pop();
                    self.pop_style();
                }
            }
        } else if !has_suffix(t, "/>") {
            self.html_tags.push(name);
            self.push_style(st);
        }
    }

    /// `<a href>`: a link to the resolved `href`, whose URL is shown where there are no
    /// hyperlinks, unless it is a fragment.
    fn html_link_open(&mut self, name: String, href: String)
        requires
            old(self).wf(),
        ensures
            final(self).wf(),
            old(self).link_opened(
                *final(self),
                resolved(href@, old(self).base()),
                !old(self).cfg.hyperlinks && !crate::url::starts_with(href@, "#"@),
            ),
            final(self).styles@ == old(self).styles@.push(
                patched(old(self).styles@.last(), Style { link: (old(self).nlinks() + 1) as u32, ..old(self).pal.link }),
            ),
            final(self).html_tags@ == old(self).html_tags@.push(name),
            *final(self) == (Renderer {
                html_tags: final(self).html_tags,
                styles: final(self).styles,
                links: final(self).links,
                w: final(self).w,
                ..*old(self)
            }),
    {
        let url = crate::url::resolve_url(href.as_str(), &self.cfg.base_dir);
        let hrefv = crate::text::chars_of(href.as_str());
        let show = !self.cfg.hyperlinks && !has_prefix(&hrefv, "#");
        let st = self.pal.link;
        self.start_link(url, show, st);
        self.html_tags.push(name);
    }

    /// `</a>`: closes the link that `<a href>` opened.
    fn html_link_close(&mut self)
        requires
            old(self).wf(),
        ensures
            final(self).wf(),
            if old(self).html_tags@.len() > 0 && old(self).html_tags@.last()@ == "a"@ {
                &&& final(self).html_tags@ == old(self).html_tags@.drop_last()
                &&& old(self).ended(Renderer { html_tags: old(self).html_tags, ..*final(self) }, MdTagEnd::Link)
            } else {
                *final(self) == *old(self)
            },
    {
        let n = self.html_tags.len();
        if n > 0 {
            let lv = crate::text::chars_of(self.html_tags[n - 1].as_str());
            if crate::highlight::eq_str(&lv, "a") {
                self.html_tags.pop();
                self.end_link(false);
            }
        }
    }

    /// `<img>` (trimmed text `ts`): an image link to its resolved `src`, showing its `alt`.
    #[verifier::spinoff_prover]
    #[verifier::rlimit(60)]
    fn html_image(&mut self, ts: &str)
        requires
            old(self).wf(),
        ensures
            final(self).wf(),
            ({
                let o = old(self);
                let url = match crate::html::attr_from(ts@, "src"@, 0) {
                    Some(src) => resolved(src, o.base()),
                    None => Seq::empty(),
                };
                let alt = match crate::html::attr_from(ts@, "alt"@, 0) {
                    Some(a) => a,
                    None => Seq::empty(),
                };
                let top = o.styles@.last();
                let iv = span_views(o.inline@);
                let id = (o.nlinks() + 1) as u32;
                let inner = patched(top, Style { link: id, italic: true, ..o.pal.link });
                let v = crate::wrap::push_str_line(iv.push(("[image: "@, patched(inner, o.pal.dim))), alt, inner);
                &&& span_views(final(self).inline@) == closed_link(v, id, url, iv.len() as int, !o.cfg.hyperlinks, top, o.pal.dim, true)
                &&& final(self).w.links@.len() == o.w.links@.len() + 1
                &&& final(self).w.links@.drop_last() == o.w.links@
                &&& final(self).w.links@.last()@ == url
                &&& final(self).links@ == o.links@
                &&& final(self).styles@ == o.styles@
                &&& *final(self) == (Renderer {
                    inline: final(self).inline,
                    w: final(self).w,
                    links: final(self).links,
                    styles: final(self).styles,
                    ..*o
                })
            }),
    {
        proof {
            reveal_strlit("src");
            reveal_strlit("alt");
        }
        let url = match crate::html::attr(ts, "src") {
            Some(src) => crate::url::resolve_url(src.as_str(), &self.cfg.base_dir),
            None => String::new(),
        };
        let alt = match crate::html::attr(ts, "alt") {
            Some(a) => a,
            None => String::new(),
        };
        let show = !self.cfg.hyperlinks;
        let st = Style { italic: true, ..self.pal.link };
        self.start_link(url, show, st);
        let label = self.style().patch(self.pal.dim);
        let ghost before = span_views(self.inline@);
        self.inline.push(Span::new("[image: ", label));
        assert(span_views(self.inline@) =~= before.push(("[image: "@, label)));
        self.text(alt.as_str());
        let ghost s4 = *self;
        self.end_link(true);
        proof {
            let o = old(self);
            let id = (o.nlinks() + 1) as u32;
            let inner = patched(o.styles@.last(), Style { link: id, italic: true, ..o.pal.link });
            assert(s4.styles@ == o.styles@.push(inner));
            assert(s4.popped_styles() == o.styles@);
            assert(span_views(s4.inline@) == crate::wrap::push_str_line(
                span_views(o.inline@).push(("[image: "@, patched(inner, o.pal.dim))),
                alt@,
                inner,
            ));
        }
    }

    /// Writes `spans` character-wrapped at `width` columns (as one line where they are
    /// too long for the wrapper's counters), each row after `indent` spaces.
    fn emit_hard_wrapped(&mut self, spans: Vec<Span>, width: usize, indent: usize)
        requires
            old(self).wf(),
            spans_ok(spans@, old(self).nlinks()),
        ensures
            final(self).wf(),
            final(self).stable(*old(self)),
            final(self).inline == old(self).inline,
            final(self).pending_blank == old(self).pending_blank,
            old(self).emitted(*final(self), hard_rows(span_views(spans@), width as int, indent as int)),
    {
        let ghost n = self.nlinks();
        let ghost sv = span_views(spans@);
        let ghost pad_view = seq![(repeat(' ', indent as nat), plain_style())];
        if !hard_room(&spans) {
            let mut l: Vec<Span> = Vec::new();
            let mut pad = String::new();
            push_repeat(&mut pad, ' ', indent);
            assert(pad@ =~= repeat(' ', indent as nat));
            l.push(Span { text: pad, style: Style::default() });
            let mut spans = spans;
            l.append(&mut spans);
            assert(span_views(l@) =~= pad_view + sv);
            self.emit(l);
            proof {
                self.lemma_emitted_one(*old(self), pad_view + sv);
            }
            return;
        }
        let rows = crate::wrap::hard_wrap(spans.as_slice(), width);
        let ghost rv = crate::wrap::measured_views(rows@);
        let ghost all = hard_rows(sv, width as int, indent as int);
        proof {
            let pr = |st: Style| st.link <= n;
            assert forall|i: int| 0 <= i < span_views(spans@).len() implies pr(#[trigger] span_views(spans@)[i].1) by {
                assert(span_views(spans@)[i].1 == spans@[i].style);
            }
            crate::wrap::lemma_hard_wrapped_styles(span_views(spans@), width as int, pr);
            assert(all.take(0) =~= Seq::<LineView>::empty());
        }
        let mut k: usize = 0;
        while k < rows.len()
            invariant
                self.wf(),
                self.stable(*old(self)),
                self.inline == old(self).inline,
                self.pending_blank == old(self).pending_blank,
                n == old(self).nlinks(),
                rv == crate::wrap::measured_views(rows@),
                rv == crate::wrap::hard_wrapped(span_views(spans@), width as int),
                all == hard_rows(sv, width as int, indent as int),
                hard_fits(sv),
                sv == span_views(spans@),
                pad_view == seq![(repeat(' ', indent as nat), plain_style())],
                all.len() == rows@.len(),
                k <= rows@.len(),
                forall|i: int| 0 <= i < rv.len() ==> crate::wrap::all_styles(#[trigger] rv[i].0, |st: Style| st.link <= n),
                old(self).emitted(*self, all.take(k as int)),
            decreases rows@.len() - k,
        {
            let mut l: Vec<Span> = Vec::new();
            let mut pad = String::new();
            push_repeat(&mut pad, ' ', indent);
            assert(pad@ =~= repeat(' ', indent as nat));
            let ps = Style::default();
            let ghost pv = pad@;
            l.push(Span { text: pad, style: ps });
            assert(l@[0].text@ == pv && l@[0].style == plain_style());
            let mut row = dup_spans(&rows[k].0);
            assert(span_views(row@) == rv[k as int].0);
            assert forall|j: int| 0 <= j < row@.len() implies (#[trigger] row@[j]).style.link <= n by {
                assert(span_views(row@)[j].1 == row@[j].style);
            }
            let ghost rowv = span_views(row@);
            let ghost l0 = l@;
            let ghost r0 = row@;
            assert(span_views(l0) =~= pad_view);
            l.append(&mut row);
            assert(l@ == l0 + r0);
            assert(span_views(l@) =~= span_views(l0) + span_views(r0));
            assert(span_views(l@) =~= pad_view + rowv);
            assert(hard_fits(sv));
            assert(all[k as int] == pad_view + crate::wrap::hard_wrapped(sv, width as int)[k as int].0);
            assert(all[k as int] == pad_view + rowv);
            let ghost mid = *self;
            self.emit(l);
            proof {
                self.lemma_emitted_step(*old(self), mid, all, k as int);
            }
            k += 1;
        }
        assert(all.take(k as int) =~= all);
    }

    /// An HTML block: its comments are dropped and its other nonblank lines shown
    /// dimmed, wrapped by characters.
    fn render_html_block(&mut self, html: &str)
        requires
            old(self).wf(),
        ensures
            final(self).wf(),
            final(self).stable(*old(self)),
            final(self).inline == old(self).inline,
            ({
                let kept = html_kept(text_lines(html@), 0, false);
                &&& old(self).emitted(*final(self), block_rows(kept, old(self).avail_spec(), old(self).pal.dim, 0))
                &&& final(self).pending_blank == (old(self).pending_blank || kept.len() > 0)
            }),
    {
        let doc = crate::pager::Doc::new(html);
        let ghost lines = text_lines(html@);
        let ghost goal = html_kept(lines, 0, false);
        let mut in_comment = false;
        let mut kept: Vec<String> = Vec::new();
        let mut i: usize = 0;
        while i < doc.lines.len()
            invariant
                i <= doc.lines@.len(),
                doc.line_texts() == lines,
                strings_view(kept@) + html_kept(lines, i as int, in_comment) == goal,
            decreases doc.lines@.len() - i,
        {
            let lv = crate::text::chars_of(doc.lines[i].as_str());
            assert(lv@ == lines[i as int]);
            let ghost before = strings_view(kept@);
            let (vis, ic) = crate::html::strip_line(&lv, in_comment);
            in_comment = ic;
            let vs = crate::text::string_of(&vis);
            if !blank_text(vs.as_str()) {
                kept.push(vs);
                assert(strings_view(kept@) =~= before.push(vis@));
                assert(before.push(vis@) + html_kept(lines, i + 1, ic) =~= before + (seq![vis@] + html_kept(
                    lines,
                    i + 1,
                    ic,
                )));
            }
            i += 1;
        }
        assert(html_kept(lines, i as int, in_comment) =~= Seq::<Seq<char>>::empty());
        assert(strings_view(kept@) =~= goal);
        let ghost o = *self;
        if kept.len() == 0 {
            proof {
                assert(block_rows(goal, o.avail_spec(), o.pal.dim, 0) =~= Seq::<LineView>::empty());
                assert(lines_output(o.cfg.mode, o.cfg.hyperlinks, o.w.link_targets(), o.containers@, o.used@, Seq::empty())
                    =~= Seq::<char>::empty());
                assert(self.out@ =~= o.out@ + Seq::<char>::empty());
            }
            return;
        }
        let avail = self.avail();
        let st = self.pal.dim;
        let mut k: usize = 0;
        proof {
            assert(goal.take(0) =~= Seq::<Seq<char>>::empty());
            assert(lines_output(o.cfg.mode, o.cfg.hyperlinks, o.w.link_targets(), o.containers@, o.used@, Seq::empty())
                =~= Seq::<char>::empty());
            assert(self.out@ =~= o.out@ + Seq::<char>::empty());
        }
        while k < kept.len()
            invariant
                self.wf(),
                self.stable(o),
                self.inline == o.inline,
                self.pending_blank == o.pending_blank,
                o == *old(self),
                st == o.pal.dim,
                avail == o.avail_spec(),
                strings_view(kept@) == goal,
                k <= kept@.len(),
                o.emitted(*self, block_rows(goal.take(k as int), avail as int, st, 0)),
            decreases kept@.len() - k,
        {
            let mut spans: Vec<Span> = Vec::new();
            spans.push(Span::new(kept[k].as_str(), st));
            assert(span_views(spans@) =~= seq![(goal[k as int], st)]);
            let ghost mid = *self;
            self.emit_hard_wrapped(spans, avail, 0);
            proof {
                let a = block_rows(goal.take(k as int), avail as int, st, 0);
                let b = hard_rows(seq![(goal[k as int], st)], avail as int, 0);
                self.lemma_emitted_concat(o, mid, a, b);
                assert(goal.take(k + 1).drop_last() =~= goal.take(k as int));
                assert(block_rows(goal.take(k + 1), avail as int, st, 0) == a + b);
            }
            k += 1;
        }
        assert(goal.take(k as int) =~= goal);
        self.pending_blank = true;
    }

    /// A code block: highlighted on a background band with the language at the top
    /// right, or, without colors, indented by up to four columns; lines are wrapped by
    /// characters.
    fn render_code(&mut self, lang: &str, code: &str)
        requires
            old(self).wf(),
        ensures
            final(self).wf(),
            final(self).stable(*old(self)),
            final(self).inline == old(self).inline,
            final(self).pending_blank == old(self).pending_blank,
            match old(self).highlighter {
                None => old(self).emitted(*final(self), old(self).plain_code_rows(code@)),
                Some(h) => old(self).band_written(
                    *final(self),
                    lang@,
                    h,
                    h.highlighting(lang@, code_body(code@)),
                    code_body(code@),
                ),
            },
    {
        let cv = crate::text::chars_of(code);
        let mut body = String::new();
        if cv.len() > 0 && cv[cv.len() - 1] == '\n' {
            crate::text::push_chars(&mut body, &cv, 0, cv.len() - 1);
        } else {
            crate::text::push_chars(&mut body, &cv, 0, cv.len());
        }
        assert(body@ == code_body(code@));
        let mut hl_slot: Option<Highlighter> = None;
        std::mem::swap(&mut hl_slot, &mut self.highlighter);
        let ghost mid = *self;
        match hl_slot {
            Some(h) => {
                self.render_code_band(h, lang, body.as_str());
                proof {
                    assert(mid.band_written(*self, lang@, h, h.highlighting(lang@, body@), body@));
                    assert(old(self).band_written(*self, lang@, h, h.highlighting(lang@, body@), code_body(code@)));
                }
            },
            None => self.render_code_plain(body.as_str()),
        }
    }

    /// A code block without colors: its lines (`body`) indented, wrapped by characters.
    fn render_code_plain(&mut self, body: &str)
        requires
            old(self).wf(),
        ensures
            final(self).wf(),
            final(self).stable(*old(self)),
            final(self).inline == old(self).inline,
            final(self).pending_blank == old(self).pending_blank,
            old(self).emitted(
                *final(self),
                block_rows(
                    text_lines(body@),
                    old(self).avail_spec() - code_indent(old(self).avail_spec()),
                    plain_style(),
                    code_indent(old(self).avail_spec()),
                ),
            ),
    {
        let ghost o = *self;
        let avail = self.avail();
        let indent = if avail / 4 < 4 { avail / 4 } else { 4 };
        let doc = crate::pager::Doc::new(body);
        let ghost lines = text_lines(body@);
        proof {
            assert(lines_output(o.cfg.mode, o.cfg.hyperlinks, o.w.link_targets(), o.containers@, o.used@, Seq::empty())
                =~= Seq::<char>::empty());
            assert(self.out@ =~= o.out@ + Seq::<char>::empty());
            assert(lines.take(0) =~= Seq::<Seq<char>>::empty());
        }
        let mut i: usize = 0;
        while i < doc.lines.len()
            invariant
                self.wf(),
                self.stable(*old(self)),
                self.inline == old(self).inline,
                self.pending_blank == old(self).pending_blank,
                o == *old(self),
                indent <= avail,
                avail == o.avail_spec(),
                indent == code_indent(avail as int),
                doc.line_texts() == lines,
                i <= lines.len(),
                o.emitted(*self, block_rows(lines.take(i as int), avail - indent, plain_style(), indent as int)),
            decreases doc.lines@.len() - i,
        {
            let mut spans: Vec<Span> = Vec::new();
            spans.push(Span::plain(doc.lines[i].as_str()));
            assert(span_views(spans@) =~= seq![(lines[i as int], plain_style())]);
            let ghost mid = *self;
            self.emit_hard_wrapped(spans, avail - indent, indent);
            proof {
                let a = block_rows(lines.take(i as int), avail - indent, plain_style(), indent as int);
                let b = hard_rows(seq![(lines[i as int], plain_style())], avail - indent, indent as int);
                self.lemma_emitted_concat(o, mid, a, b);
                assert(lines.take(i + 1).drop_last() =~= lines.take(i as int));
                assert(block_rows(lines.take(i + 1), avail - indent, plain_style(), indent as int) == a + b);
            }
            i += 1;
        }
        assert(lines.take(i as int) =~= lines);
    }

    /// A code block on the band of highlighter `hl` (taken out of the renderer, and put
    /// back after highlighting `body` in `lang`).
    #[verifier::spinoff_prover]
    #[verifier::rlimit(80)]
    fn render_code_band(&mut self, hl: Highlighter, lang: &str, body: &str)
        requires
            old(self).wf(),
        ensures
            final(self).wf(),
            final(self).stable(*old(self)),
            final(self).inline == old(self).inline,
            final(self).pending_blank == old(self).pending_blank,
            old(self).band_written(*final(self), lang@, hl, hl.highlighting(lang@, body@), body@),
    {
        let ghost o = *self;
        let avail = self.avail();
        let mut hl = hl;
        let ghost h0 = hl;
        let bg = hl.background();
        let fill = Style { bg, ..Style::default() };
        let lines = hl.highlight(lang, body);
        let fg = hl.foreground();
        self.highlighter = Some(hl);
        let ghost hlv = lines@.map_values(|l: Vec<Span>| span_views(l@));
        assert(crate::highlight::highlighted_code(body@, hlv));
        assert(hlv == h0.highlighting(lang@, body@));
        let inner = if avail >= 3 { avail - 2 } else { 1 };
        let label = code_label(lang);
        let ghost lv = label@;
        let label_w = crate::style::str_width(label.as_str());
        let mut header: Vec<Span> = Vec::new();
        if label_w > 0 && label_w < avail - 1 {
            let mut pad = String::new();
            push_repeat(&mut pad, ' ', avail - label_w - 1);
            let ghost pv = pad@;
            header.push(Span { text: pad, style: fill });
            let st = Style { fg, dim: true, italic: true, ..fill };
            header.push(Span { text: label, style: st });
            header.push(Span::new(" ", fill));
            assert(span_views(header@) =~= seq![(pv, fill), (lv, st), (" "@, fill)]);
        } else {
            let mut pad = String::new();
            push_repeat(&mut pad, ' ', avail);
            let ghost pv = pad@;
            header.push(Span { text: pad, style: fill });
            assert(span_views(header@) =~= seq![(pv, fill)]);
        }
        let ghost hv = span_views(header@);
        assert(hv == code_header(code_label_spec(lang@), avail as int, fill, fg));
        self.emit(header);
        proof {
            self.lemma_emitted_one(o, hv);
            assert(hlv.take(0) =~= Seq::<LineView>::empty());
            assert(seq![hv] + band_block(hlv.take(0), inner as int, fill, bg) =~= seq![hv]);
        }
        let mut i: usize = 0;
        while i < lines.len()
            invariant
                self.wf(),
                self.stable(*old(self)),
                self.inline == old(self).inline,
                self.pending_blank == old(self).pending_blank,
                o == *old(self),
                fill.link == 0,
                fill == (Style { bg, ..plain_style() }),
                inner >= 1,
                hlv == lines@.map_values(|l: Vec<Span>| span_views(l@)),
                i <= lines@.len(),
                forall|a: int, b: int|
                    0 <= a < lines@.len() && 0 <= b < lines@[a]@.len() ==> (#[trigger] lines@[a]@[b]).style.link == 0,
                o.emitted(*self, seq![hv] + band_block(hlv.take(i as int), inner as int, fill, bg)),
            decreases lines@.len() - i,
        {
            let mut spans: Vec<Span> = Vec::new();
            let mut j: usize = 0;
            while j < lines[i].len()
                invariant
                    i < lines@.len(),
                    j <= lines@[i as int]@.len(),
                    spans@.len() == j,
                    forall|a: int, b: int|
                        0 <= a < lines@.len() && 0 <= b < lines@[a]@.len() ==> (#[trigger] lines@[a]@[b]).style.link == 0,
                    forall|b: int| 0 <= b < j ==> (#[trigger] spans@[b]).style.link == 0,
                    span_views(spans@) == with_bg(span_views(lines@[i as int]@), bg).take(j as int),
                decreases lines@[i as int]@.len() - j,
            {
                let sp = &lines[i][j];
                let ghost before = span_views(spans@);
                spans.push(Span { text: sp.text.as_str().to_owned(), style: Style { bg, ..sp.style } });
                assert(span_views(spans@) =~= before.push((sp.text@, Style { bg, ..sp.style })));
                assert(with_bg(span_views(lines@[i as int]@), bg).take(j + 1) =~= before.push(
                    (sp.text@, Style { bg, ..sp.style }),
                ));
                j += 1;
            }
            assert(with_bg(span_views(lines@[i as int]@), bg).take(j as int) =~= with_bg(span_views(lines@[i as int]@), bg));
            assert(hlv[i as int] == span_views(lines@[i as int]@));
            let ghost mid = *self;
            self.emit_code_rows(spans, inner, fill);
            proof {
                let a = seq![hv] + band_block(hlv.take(i as int), inner as int, fill, bg);
                let b = band_rows(with_bg(hlv[i as int], bg), inner as int, fill);
                self.lemma_emitted_concat(o, mid, a, b);
                assert(hlv.take(i + 1).drop_last() =~= hlv.take(i as int));
                assert(band_block(hlv.take(i + 1), inner as int, fill, bg) == band_block(hlv.take(i as int), inner as int, fill, bg) + b);
                assert(a + b =~= seq![hv] + band_block(hlv.take(i + 1), inner as int, fill, bg));
            }
            i += 1;
        }
        let mut pad = String::new();
        push_repeat(&mut pad, ' ', avail);
        let ghost pv = pad@;
        let mut last: Vec<Span> = Vec::new();
        last.push(Span { text: pad, style: fill });
        assert(span_views(last@) =~= seq![(repeat(' ', avail as nat), fill)]);
        let ghost mid = *self;
        self.emit(last);
        proof {
            let a = seq![hv] + band_block(hlv, inner as int, fill, bg);
            assert(hlv.take(i as int) =~= hlv);
            let b = seq![seq![(repeat(' ', avail as nat), fill)]];
            self.lemma_emitted_one(mid, b[0]);
            self.lemma_emitted_concat(o, mid, a, b);
            assert(o.band_written(*self, lang@, h0, hlv, body@));
        }
    }

    /// One highlighted line on the code band: character-wrapped at `inner` columns, each
    /// row between a space and the padding to the band's width.
    fn emit_code_rows(&mut self, spans: Vec<Span>, inner: usize, fill: Style)
        requires
            old(self).wf(),
            fill.link == 0,
            inner >= 1,
            forall|b: int| 0 <= b < spans@.len() ==> (#[trigger] spans@[b]).style.link == 0,
        ensures
            final(self).wf(),
            final(self).stable(*old(self)),
            final(self).inline == old(self).inline,
            final(self).pending_blank == old(self).pending_blank,
            old(self).emitted(*final(self), band_rows(span_views(spans@), inner as int, fill)),
    {
        let ghost n = self.nlinks();
        let ghost sv = span_views(spans@);
        let ghost lead = seq![(" "@, fill)];
        if !hard_room(&spans) {
            let mut l: Vec<Span> = Vec::new();
            l.push(Span::new(" ", fill));
            let mut spans = spans;
            l.append(&mut spans);
            assert(span_views(l@) =~= lead + sv);
            self.emit(l);
            proof {
                self.lemma_emitted_one(*old(self), lead + sv);
            }
            return;
        }
        let rows = crate::wrap::hard_wrap(spans.as_slice(), inner);
        let ghost rv = crate::wrap::measured_views(rows@);
        let ghost all = band_rows(sv, inner as int, fill);
        proof {
            let pr = |st: Style| st.link == 0;
            assert forall|i: int| 0 <= i < span_views(spans@).len() implies pr(#[trigger] span_views(spans@)[i].1) by {
                assert(span_views(spans@)[i].1 == spans@[i].style);
            }
            crate::wrap::lemma_hard_wrapped_styles(span_views(spans@), inner as int, pr);
            assert(all.take(0) =~= Seq::<LineView>::empty());
            assert(lines_output(
                self.cfg.mode,
                self.cfg.hyperlinks,
                self.w.link_targets(),
                self.containers@,
                self.used@,
                Seq::empty(),
            ) =~= Seq::<char>::empty());
            assert(self.out@ =~= self.out@ + Seq::<char>::empty());
        }
        let mut k: usize = 0;
        while k < rows.len()
            invariant
                self.wf(),
                self.stable(*old(self)),
                self.inline == old(self).inline,
                self.pending_blank == old(self).pending_blank,
                fill.link == 0,
                rv == crate::wrap::measured_views(rows@),
                rv == crate::wrap::hard_wrapped(span_views(spans@), inner as int),
                forall|i: int| 0 <= i < rv.len() ==> crate::wrap::all_styles(#[trigger] rv[i].0, |st: Style| st.link == 0),
                all == band_rows(sv, inner as int, fill),
                hard_fits(sv),
                sv == span_views(spans@),
                lead == seq![(" "@, fill)],
                all.len() == rows@.len(),
                k <= rows@.len(),
                old(self).emitted(*self, all.take(k as int)),
            decreases rows@.len() - k,
        {
            let mut l: Vec<Span> = Vec::new();
            l.push(Span::new(" ", fill));
            let mut row = dup_spans(&rows[k].0);
            assert(span_views(row@) == rv[k as int].0);
            assert forall|j: int| 0 <= j < row@.len() implies (#[trigger] row@[j]).style.link == 0 by {
                assert(span_views(row@)[j].1 == row@[j].style);
            }
            let ghost l0 = l@;
            let ghost r0 = row@;
            l.append(&mut row);
            assert(span_views(l@) =~= lead + rv[k as int].0);
            let w = rows[k].1;
            let used = if w < inner { w } else { inner };
            let mut pad = String::new();
            push_repeat(&mut pad, ' ', (inner - used).saturating_add(1));
            let ghost pv = pad@;
            let ghost l1 = span_views(l@);
            l.push(Span { text: pad, style: fill });
            assert(span_views(l@) =~= l1.push((pv, fill)));
            assert(all[k as int] == span_views(l@));
            let ghost mid = *self;
            self.emit(l);
            proof {
                self.lemma_emitted_step(*old(self), mid, all, k as int);
            }
            k += 1;
        }
        assert(all.take(k as int) =~= all);
    }

    /// A table: columns fitted into the width left, cells wrapped, a double line under the
    /// head, lines between rows; stacked records where even the fitted table cannot fit.
    fn render_table<G: Fn(&Fitter) -> Vec<usize>>(&mut self, t: TableState, greedy: &G)
        requires
            old(self).wf(),
            rows_ok(t.rows@, old(self).nlinks()),
            forall|f: &Fitter| #[trigger] greedy.requires((f,)),
        ensures
            final(self).wf(),
            final(self).stable(*old(self)),
            final(self).inline == old(self).inline,
            final(self).pending_blank == old(self).pending_blank,
            old(self).table_drawn(*final(self), t),
    {
        let ghost n = self.nlinks();
        let ghost o = *self;
        let mut ncols: usize = t.aligns.len();
        let mut r: usize = 0;
        while r < t.rows.len()
            invariant
                r <= t.rows@.len(),
                ncols == table_cols(t, r as int),
            decreases t.rows@.len() - r,
        {
            if t.rows[r].len() > ncols {
                ncols = t.rows[r].len();
            }
            r += 1;
        }
        if ncols == 0 {
            proof {
                reveal(Renderer::table_drawn);
                assert(lines_output(o.cfg.mode, o.cfg.hyperlinks, o.w.link_targets(), o.containers@, o.used@, Seq::empty())
                    =~= Seq::<char>::empty());
                assert(self.out@ =~= o.out@ + Seq::<char>::empty());
            }
            return;
        }
        let avail = self.avail();
        let (measured, natural, minimum) = measure_table(&t, ncols);
        let frame = if ncols <= (usize::MAX - 1) / 3 { 3 * ncols + 1 } else { usize::MAX };
        let space = avail.saturating_sub(frame);
        let narrow = if ncols <= usize::MAX / 4 { 4 * ncols } else { usize::MAX };
        let mut small: u128 = 0;
        let mut c: usize = 0;
        while c < ncols
            invariant
                c <= ncols,
                minimum@.len() == ncols,
                small <= c * 12,
                small == small_sum(minimum@, c as int),
            decreases ncols - c,
        {
            let m = if minimum[c] < 12 { minimum[c] } else { 12 };
            small = small + m as u128;
            c += 1;
        }
        let words_fit = small <= space as u128;
        assert(space == cell_space(ncols as int, avail as int));
        proof {
            reveal(Renderer::table_drawn);
        }
        if crate::fit::sum_wide(natural.as_slice()) > space as u128 && (!words_fit || space < narrow) {
            assert(stacks(t, ncols as int, avail as int));
            self.render_table_stacked(t, ncols);
            return;
        }
        assert(!stacks(t, ncols as int, avail as int));
        let widths = crate::fit::fit_columns(measured.as_slice(), natural.as_slice(), minimum.as_slice(), space, greedy);
        assert(widths@.len() == ncols);
        self.draw_grid(&t, &widths);
        assert(o.grid_drawn(*self, t, widths@) && fitted(
            naturals(t, ncols as int),
            minimums(t, ncols as int),
            cell_space(ncols as int, avail as int),
            widths@,
        ));
    }

    /// Draws a table in columns of `widths`: borders around and between the rows, a double
    /// line under the head, each cell wrapped at its column's width and aligned.
    #[verifier::spinoff_prover]
    #[verifier::rlimit(60)]
    fn draw_grid(&mut self, t: &TableState, widths: &Vec<usize>)
        requires
            old(self).wf(),
            rows_ok(t.rows@, old(self).nlinks()),
        ensures
            final(self).wf(),
            final(self).stable(*old(self)),
            final(self).inline == old(self).inline,
            final(self).pending_blank == old(self).pending_blank,
            old(self).emitted(*final(self), grid(*t, widths@, old(self).pal.border)),
    {
        let ghost n = self.nlinks();
        let ghost o = *self;
        let ncols = widths.len();
        let empty: Vec<Span> = Vec::new();
        let bst = self.pal.border;
        let top = border_line(widths, "┌", "┬", "┐", '─', bst);
        assert(span_views(top@) == border(widths@, "┌"@, "┬"@, "┐"@, '─', bst));
        self.emit(top);
        proof {
            self.lemma_emitted_one(o, border(widths@, "┌"@, "┬"@, "┐"@, '─', bst));
        }
        let mut r: usize = 0;
        while r < t.rows.len()
            invariant
                self.wf(),
                self.stable(o),
                self.inline == o.inline,
                self.pending_blank == o.pending_blank,
                o == *old(self),
                n == o.nlinks(),
                rows_ok(t.rows@, n),
                ncols == widths@.len(),
                bst == o.pal.border,
                bst.link == 0,
                empty@.len() == 0,
                r <= t.rows@.len(),
                o.emitted(*self, grid_rows(*t, widths@, bst, r as int)),
            decreases t.rows@.len() - r,
        {
            let ghost g0 = grid_rows(*t, widths@, bst, r as int);
            let ghost sep = if r == t.head_rows && r > 0 {
                seq![border(widths@, "╞"@, "╪"@, "╡"@, '═', bst)]
            } else if r > 0 {
                seq![border(widths@, "├"@, "┼"@, "┤"@, '─', bst)]
            } else {
                Seq::<LineView>::empty()
            };
            let ghost before = *self;
            if r == t.head_rows && r > 0 {
                let l = border_line(widths, "╞", "╪", "╡", '═', bst);
                self.emit(l);
                proof {
                    self.lemma_emitted_one(before, sep[0]);
                    assert(sep =~= seq![sep[0]]);
                    self.lemma_emitted_concat(o, before, g0, sep);
                }
            } else if r > 0 {
                let l = border_line(widths, "├", "┼", "┤", '─', bst);
                self.emit(l);
                proof {
                    self.lemma_emitted_one(before, sep[0]);
                    assert(sep =~= seq![sep[0]]);
                    self.lemma_emitted_concat(o, before, g0, sep);
                }
            } else {
                assert(g0 + sep =~= g0);
            }
            let ghost cells = row_cells(*t, r as int, widths@);
            let mut wrapped: Vec<Vec<Line>> = Vec::new();
            let mut height: usize = 1;
            let mut c: usize = 0;
            while c < ncols
                invariant
                    r < t.rows@.len(),
                    rows_ok(t.rows@, n),
                    ncols == widths@.len(),
                    cells == row_cells(*t, r as int, widths@),
                    empty@.len() == 0,
                    c <= ncols,
                    wrapped@.len() == c,
                    height == row_height(cells, c as int),
                    forall|j: int| 0 <= j < c ==> crate::wrap::line_views((#[trigger] wrapped@[j])@) == cells[j],
                    forall|j: int| 0 <= j < c ==> (#[trigger] wrapped@[j])@.len() <= height,
                    forall|j: int, k: int| 0 <= j < c && 0 <= k < wrapped@[j]@.len() ==> spans_ok((#[trigger] wrapped@[j]@[k])@, n),
                decreases ncols - c,
            {
                let lines = if c < t.rows[r].len() {
                    assert(spans_ok(t.rows@[r as int]@[c as int]@, n));
                    wrap_lines(&t.rows[r][c], widths[c], Ghost(n))
                } else {
                    wrap_lines(&empty, widths[c], Ghost(n))
                };
                assert(crate::wrap::line_views(lines@) == cells[c as int]);
                if lines.len() > height {
                    height = lines.len();
                }
                wrapped.push(lines);
                c += 1;
            }
            let ghost body = row_lines(*t, r as int, widths@, bst);
            assert(body.len() == height);
            proof {
                assert(body.take(0) =~= Seq::<LineView>::empty());
                assert(g0 + sep + body.take(0) =~= g0 + sep);
            }
            let mut li: usize = 0;
            while li < height
                invariant
                    self.wf(),
                    self.stable(o),
                    self.inline == o.inline,
                    self.pending_blank == o.pending_blank,
                    o == *old(self),
                    n == o.nlinks(),
                    ncols == widths@.len(),
                    wrapped@.len() == ncols,
                    bst == o.pal.border,
                    bst.link == 0,
                    cells == row_cells(*t, r as int, widths@),
                    body == row_lines(*t, r as int, widths@, bst),
                    body.len() == height,
                    li <= height,
                    forall|j: int| 0 <= j < ncols ==> crate::wrap::line_views((#[trigger] wrapped@[j])@) == cells[j],
                    forall|j: int, k: int| 0 <= j < ncols && 0 <= k < wrapped@[j]@.len() ==> spans_ok((#[trigger] wrapped@[j]@[k])@, n),
                    o.emitted(*self, g0 + sep + body.take(li as int)),
                decreases height - li,
            {
                let mut line: Vec<Span> = Vec::new();
                line.push(Span::new("│", bst));
                assert(span_views(line@) =~= table_line(cells, widths@, t.aligns@, bst, li as int, 0));
                let mut c: usize = 0;
                while c < ncols
                    invariant
                        widths@.len() == ncols,
                        wrapped@.len() == ncols,
                        c <= ncols,
                        bst.link == 0,
                        spans_ok(line@, n),
                        n >= 0,
                        forall|j: int| 0 <= j < ncols ==> crate::wrap::line_views((#[trigger] wrapped@[j])@) == cells[j],
                        forall|j: int, k: int| 0 <= j < ncols && 0 <= k < wrapped@[j]@.len() ==> spans_ok((#[trigger] wrapped@[j]@[k])@, n),
                        span_views(line@) == table_line(cells, widths@, t.aligns@, bst, li as int, c as int),
                    decreases ncols - c,
                {
                    let ghost before_line = span_views(line@);
                    let mut content = if li < wrapped[c].len() {
                        proof {
                            assert(crate::wrap::line_views(wrapped@[c as int]@)[li as int] == span_views(
                                wrapped@[c as int]@[li as int]@,
                            ));
                        }
                        dup_spans(&wrapped[c][li])
                    } else {
                        Vec::new()
                    };
                    let ghost cv = span_views(content@);
                    assert(cv == line_at(cells[c as int], li as int));
                    let cw = cols_sat(&content);
                    let pad = widths[c].saturating_sub(cw);
                    let align = if c < t.aligns.len() { t.aligns[c] } else { Align::Unset };
                    let (lp, rp) = match align {
                        Align::Right => (pad, 0),
                        Align::Center => (pad / 2, pad - pad / 2),
                        _ => (0, pad),
                    };
                    let mut left = String::new();
                    push_repeat(&mut left, ' ', lp.saturating_add(1));
                    let ghost lv = left@;
                    line.push(Span { text: left, style: Style::default() });
                    let ghost l1 = line@;
                    let ghost c1 = content@;
                    line.append(&mut content);
                    assert(line@ == l1 + c1);
                    let mut right = String::new();
                    push_repeat(&mut right, ' ', rp.saturating_add(1));
                    let ghost rv = right@;
                    line.push(Span { text: right, style: Style::default() });
                    line.push(Span::new("│", bst));
                    assert(span_views(line@) =~= before_line + seq![(lv, plain_style())] + cv + seq![
                        (rv, plain_style()),
                        ("│"@, bst),
                    ]);
                    assert(span_views(line@) =~= table_line(cells, widths@, t.aligns@, bst, li as int, c + 1));
                    c += 1;
                }
                let ghost lview = span_views(line@);
                assert(body[li as int] == lview);
                let ghost mid = *self;
                self.emit(line);
                proof {
                    self.lemma_emitted_one(mid, lview);
                    self.lemma_emitted_concat(o, mid, g0 + sep + body.take(li as int), seq![lview]);
                    assert(g0 + sep + body.take(li as int) + seq![lview] =~= g0 + sep + body.take(li + 1));
                }
                li += 1;
            }
            proof {
                assert(body.take(li as int) =~= body);
                assert(grid_rows(*t, widths@, bst, r + 1) == g0 + sep + body);
            }
            r += 1;
        }
        let bottom = border_line(widths, "└", "┴", "┘", '─', bst);
        let ghost bv = span_views(bottom@);
        let ghost mid = *self;
        self.emit(bottom);
        proof {
            self.lemma_emitted_one(mid, bv);
            self.lemma_emitted_concat(o, mid, grid_rows(*t, widths@, bst, r as int), seq![bv]);
        }
    }

    /// A table too wide for the terminal: one "header │ value" record per row.
    #[verifier::spinoff_prover]
    #[verifier::rlimit(60)]
    fn render_table_stacked(&mut self, t: TableState, ncols: usize)
        requires
            old(self).wf(),
            rows_ok(t.rows@, old(self).nlinks()),
        ensures
            final(self).wf(),
            final(self).stable(*old(self)),
            final(self).inline == old(self).inline,
            final(self).pending_blank == old(self).pending_blank,
            old(self).emitted(
                *final(self),
                stacked_rows(
                    t,
                    ncols as int,
                    key_width(t, ncols as int, old(self).avail_spec()),
                    old(self).avail_spec(),
                    old(self).pal.border,
                    t.rows@.len() as int,
                ),
            ),
    {
        let ghost n = self.nlinks();
        let ghost o = *self;
        let empty: Vec<Span> = Vec::new();
        let heads = t.head_rows > 0 && t.rows.len() > 0;
        let avail = self.avail();
        let mut key_w: usize = 0;
        if heads {
            let mut c: usize = 0;
            while c < ncols
                invariant
                    t.rows@.len() > 0,
                    c <= ncols,
                    key_w == head_width(t, c as int),
                decreases ncols - c,
            {
                if c < t.rows[0].len() {
                    let w = cols_sat(&t.rows[0][c]);
                    assert(span_views(t.rows@[0]@[c as int]@) == cell_at(t, 0, c as int));
                    if w > key_w {
                        key_w = w;
                    }
                }
                c += 1;
            }
        }
        if key_w > avail / 3 {
            key_w = avail / 3;
        }
        assert(key_w == key_width(t, ncols as int, avail as int));
        let bst = self.pal.border;
        let mut r: usize = t.head_rows;
        proof {
            assert(stacked_rows(t, ncols as int, key_w as int, avail as int, bst, r as int) =~= Seq::<LineView>::empty());
            assert(lines_output(o.cfg.mode, o.cfg.hyperlinks, o.w.link_targets(), o.containers@, o.used@, Seq::empty())
                =~= Seq::<char>::empty());
            assert(self.out@ =~= o.out@ + Seq::<char>::empty());
        }
        while r < t.rows.len()
            invariant
                self.wf(),
                self.stable(o),
                self.inline == o.inline,
                self.pending_blank == o.pending_blank,
                o == *old(self),
                n == o.nlinks(),
                rows_ok(t.rows@, n),
                heads == (t.head_rows > 0 && t.rows@.len() > 0),
                bst == o.pal.border,
                bst.link == 0,
                avail == o.avail_spec(),
                key_w == key_width(t, ncols as int, avail as int),
                key_w <= avail / 3,
                empty@.len() == 0,
                t.head_rows <= r,
                r == t.head_rows || r <= t.rows@.len(),
                o.emitted(*self, stacked_rows(t, ncols as int, key_w as int, avail as int, bst, r as int)),
            decreases t.rows@.len() - r,
        {
            let ghost g0 = stacked_rows(t, ncols as int, key_w as int, avail as int, bst, r as int);
            let ghost rule = if r > t.head_rows {
                seq![seq![(repeat('─', avail as nat), bst)]]
            } else {
                Seq::<LineView>::empty()
            };
            if r > t.head_rows {
                let mut rule_text = String::new();
                push_repeat(&mut rule_text, '─', avail);
                let ghost rt = rule_text@;
                let mut l: Vec<Span> = Vec::new();
                l.push(Span { text: rule_text, style: bst });
                assert(span_views(l@) =~= rule[0]);
                let ghost mid = *self;
                self.emit(l);
                proof {
                    self.lemma_emitted_one(mid, rule[0]);
                    assert(rule =~= seq![rule[0]]);
                    self.lemma_emitted_concat(o, mid, g0, rule);
                }
            } else {
                assert(g0 + rule =~= g0);
            }
            let mut c: usize = 0;
            proof {
                assert(stacked_record(t, r as int, key_w as int, avail as int, bst, 0) =~= Seq::<LineView>::empty());
                assert(g0 + rule + Seq::<LineView>::empty() =~= g0 + rule);
            }
            while c < ncols
                invariant
                    self.wf(),
                    self.stable(o),
                    self.inline == o.inline,
                    self.pending_blank == o.pending_blank,
                    o == *old(self),
                    n == o.nlinks(),
                    rows_ok(t.rows@, n),
                    heads == (t.head_rows > 0 && t.rows@.len() > 0),
                    r < t.rows@.len(),
                    bst == o.pal.border,
                    bst.link == 0,
                    avail == o.avail_spec(),
                    key_w <= avail / 3,
                    empty@.len() == 0,
                    c <= ncols,
                    o.emitted(*self, g0 + rule + stacked_record(t, r as int, key_w as int, avail as int, bst, c as int)),
                decreases ncols - c,
            {
                let key_width = if key_w < 1 { 1 } else { key_w };
                let key = if heads && c < t.rows[0].len() {
                    assert(spans_ok(t.rows@[0]@[c as int]@, n));
                    wrap_lines(&t.rows[0][c], key_width, Ghost(n))
                } else {
                    wrap_lines(&empty, key_width, Ghost(n))
                };
                let val_w = avail.saturating_sub(key_w + 3);
                let val_width = if val_w < 1 { 1 } else { val_w };
                let val = if c < t.rows[r].len() {
                    assert(spans_ok(t.rows@[r as int]@[c as int]@, n));
                    wrap_lines(&t.rows[r][c], val_width, Ghost(n))
                } else {
                    wrap_lines(&empty, val_width, Ghost(n))
                };
                let ghost kv = crate::wrap::line_views(key@);
                let ghost vv = crate::wrap::line_views(val@);
                assert(span_views(empty@) =~= Seq::<(Seq<char>, Style)>::empty());
                assert(kv == paragraph_lines(
                    if heads { cell_at(t, 0, c as int) } else { Seq::empty() },
                    if key_w < 1 { 1 } else { key_w as int },
                ));
                assert(vv == paragraph_lines(cell_at(t, r as int, c as int), if val_w < 1 { 1 } else { val_w as int }));
                let count = if key.len() > val.len() { key.len() } else { val.len() };
                let ghost field = stacked_field(t, r as int, c as int, key_w as int, avail as int, bst);
                let ghost gc = g0 + rule + stacked_record(t, r as int, key_w as int, avail as int, bst, c as int);
                assert(field.len() == count);
                proof {
                    assert(field.take(0) =~= Seq::<LineView>::empty());
                    assert(gc + field.take(0) =~= gc);
                }
                let mut i: usize = 0;
                while i < count
                    invariant
                        self.wf(),
                        self.stable(o),
                        self.inline == o.inline,
                        self.pending_blank == o.pending_blank,
                        o == *old(self),
                        n == o.nlinks(),
                        bst == o.pal.border,
                        bst.link == 0,
                        key_w <= avail / 3,
                        kv == crate::wrap::line_views(key@),
                        vv == crate::wrap::line_views(val@),
                        count == (if kv.len() > vv.len() { kv.len() } else { vv.len() }),
                        field == Seq::new(count as nat, |j: int| stacked_line(kv, vv, key_w as int, bst, j)),
                        i <= count,
                        forall|k: int| 0 <= k < key@.len() ==> spans_ok(#[trigger] key@[k]@, n),
                        forall|k: int| 0 <= k < val@.len() ==> spans_ok(#[trigger] val@[k]@, n),
                        o.emitted(*self, gc + field.take(i as int)),
                    decreases count - i,
                {
                    let mut line: Vec<Span> = Vec::new();
                    let mut kw: usize = 0;
                    if i < key.len() {
                        kw = cols_sat(&key[i]);
                        assert(kv[i as int] == span_views(key@[i as int]@));
                        let mut j: usize = 0;
                        while j < key[i].len()
                            invariant
                                i < key@.len(),
                                j <= key@[i as int]@.len(),
                                spans_ok(key@[i as int]@, n),
                                spans_ok(line@, n),
                                span_views(line@) == bold_line(span_views(key@[i as int]@)).take(j as int),
                            decreases key@[i as int]@.len() - j,
                        {
                            let sp = &key[i][j];
                            let ghost before = span_views(line@);
                            assert(span_views(key@[i as int]@)[j as int] == (sp.text@, sp.style));
                            let bst2 = sp.style.bold();
                            line.push(Span { text: sp.text.as_str().to_owned(), style: bst2 });
                            assert(span_views(line@) =~= before.push((sp.text@, bst2)));
                            assert(span_views(line@) =~= bold_line(span_views(key@[i as int]@)).take(j + 1));
                            j += 1;
                        }
                        assert(bold_line(span_views(key@[i as int]@)).take(j as int) =~= bold_line(span_views(key@[i as int]@)));
                    } else {
                        assert(span_views(line@) =~= Seq::<(Seq<char>, Style)>::empty());
                    }
                    let ghost l0 = span_views(line@);
                    let mut pad = String::new();
                    push_repeat(&mut pad, ' ', key_w.saturating_sub(kw) + 1);
                    let ghost pv = pad@;
                    line.push(Span { text: pad, style: Style::default() });
                    line.push(Span::new("│ ", bst));
                    let ghost l1 = line@;
                    if i < val.len() {
                        let mut v = dup_spans(&val[i]);
                        assert(vv[i as int] == span_views(val@[i as int]@));
                        let ghost v0 = v@;
                        line.append(&mut v);
                        assert(line@ == l1 + v0);
                        assert(span_views(line@) =~= span_views(l1) + vv[i as int]);
                    } else {
                        assert(span_views(line@) =~= span_views(l1) + Seq::<(Seq<char>, Style)>::empty());
                    }
                    assert(span_views(l1) =~= l0 + seq![(pv, plain_style()), ("│ "@, bst)]);
                    let ghost lview = span_views(line@);
                    assert(lview =~= stacked_line(kv, vv, key_w as int, bst, i as int));
                    assert(field[i as int] == lview);
                    let ghost mid = *self;
                    self.emit(line);
                    proof {
                        self.lemma_emitted_one(mid, lview);
                        self.lemma_emitted_concat(o, mid, gc + field.take(i as int), seq![lview]);
                        assert(gc + field.take(i as int) + seq![lview] =~= gc + field.take(i + 1));
                    }
                    i += 1;
                }
                proof {
                    assert(field.take(i as int) =~= field);
                    assert(stacked_record(t, r as int, key_w as int, avail as int, bst, c + 1) == stacked_record(
                        t,
                        r as int,
                        key_w as int,
                        avail as int,
                        bst,
                        c as int,
                    ) + field);
                    assert(gc + field =~= g0 + rule + stacked_record(t, r as int, key_w as int, avail as int, bst, c + 1));
                }
                c += 1;
            }
            proof {
                assert(stacked_rows(t, ncols as int, key_w as int, avail as int, bst, r + 1) == g0 + rule + stacked_record(
                    t,
                    r as int,
                    key_w as int,
                    avail as int,
                    bst,
                    ncols as int,
                ));
            }
            r += 1;
        }
        proof {
            if r > t.rows@.len() {
                assert(stacked_rows(t, ncols as int, key_w as int, avail as int, bst, t.rows@.len() as int) =~= Seq::<
                    LineView,
                >::empty());
                assert(stacked_rows(t, ncols as int, key_w as int, avail as int, bst, r as int) =~= Seq::<
                    LineView,
                >::empty());
            }
        }
    }

    /// Pushes a container whose prefix is not shown yet.
    fn push_container(&mut self, c: Container)
        requires
            old(self).wf(),
            container_ok(c, old(self).nlinks()),
        ensures
            final(self).wf(),
            final(self).containers@ == old(self).containers@.push(c),
            final(self).used@ == old(self).used@.push(false),
            final(self).only_containers_changed(*old(self)),
    {
        self.containers.push(c);
        self.used.push(false);
    }

    /// Removes the innermost container.
    fn pop_container(&mut self)
        requires
            old(self).wf(),
        ensures
            final(self).wf(),
            final(self).containers@ == if old(self).containers@.len() > 0 {
                old(self).containers@.drop_last()
            } else {
                old(self).containers@
            },
            final(self).used@ == if old(self).containers@.len() > 0 {
                old(self).used@.drop_last()
            } else {
                old(self).used@
            },
            final(self).only_containers_changed(*old(self)),
    {
        if self.containers.len() > 0 {
            self.containers.pop();
            self.used.pop();
        }
    }

    /// The start of an element.
    #[verifier::rlimit(60)]
    fn start(&mut self, events: &Vec<MdEvent>, i: usize, tag: &MdTag)
        requires
            old(self).wf(),
            i < events@.len(),
            *tag matches MdTag::Heading(l) ==> 1 <= l <= 6,
        ensures
            final(self).wf(),
            old(self).started(*final(self), events@, i as int, *tag),
    {
        match tag {
            MdTag::Paragraph => self.start_block(),
            MdTag::Heading(level) => self.start_heading(*level),
            MdTag::BlockQuote(kind) => self.start_quote(*kind),
            MdTag::CodeBlock(kind) => {
                self.start_block();
                let lang = match kind {
                    CodeKind::Fenced(l) => l.as_str().to_owned(),
                    CodeKind::Indented => String::new(),
                };
                self.code = Some((lang, String::new()));
            },
            MdTag::HtmlBlock => {
                self.start_block();
                self.html = Some(String::new());
            },
            MdTag::List(start) => self.start_list(events, i, *start),
            MdTag::Item => self.start_item(),
            MdTag::FootnoteDefinition(label) => self.start_footnote(label),
            MdTag::DefinitionList => self.start_block(),
            MdTag::DefinitionListTitle => {
                self.start_block();
                self.push_style(Style::default().bold());
            },
            MdTag::DefinitionListDefinition => {
                self.flush_inline();
                self.pending_blank = false;
                let mut marker: Vec<Span> = Vec::new();
                marker.push(Span::new("  ⮡ ", self.pal.marker));
                assert(span_views(marker@) =~= seq![("  ⮡ "@, self.pal.marker)]);
                self.push_container(Container::Item { marker, width: 4 });
                assert(self.containers@.drop_last() =~= old(self).containers@);
            },
            MdTag::Table(aligns) => self.start_table(aligns),
            MdTag::TableHead => {
                self.start_row();
                self.push_style(Style::default().bold());
            },
            MdTag::TableRow => self.start_row(),
            MdTag::TableCell => {
                self.inline.clear();
            },
            MdTag::Emphasis => self.push_style(Style::default().italic()),
            MdTag::Strong => self.push_style(Style::default().bold()),
            MdTag::Strikethrough => self.push_style(Style { strike: true, ..Style::default() }),
            MdTag::Superscript | MdTag::Subscript => self.push_style(Style::default()),
            MdTag::Link(kind, dest) => self.start_link_tag(*kind, dest),
            MdTag::Image(dest) => {
                let url = crate::url::resolve_url(dest.as_str(), &self.cfg.base_dir);
                let show_url = !self.cfg.hyperlinks;
                let st = Style { italic: true, ..self.pal.link };
                self.start_link(url, show_url, st);
                let label = self.style().patch(self.pal.dim);
                let ghost before = self.inline@;
                self.inline.push(Span::new("[image: ", label));
                assert(span_views(self.inline@) =~= span_views(before).push(("[image: "@, label)));
            },
            MdTag::MetadataBlock => {
                self.skip_depth = 1;
            },
        }
    }

    /// A heading: bold in its level's color; from level 3 on, or without colors, after
    /// its hashes.
    fn start_heading(&mut self, level: u8)
        requires
            old(self).wf(),
            1 <= level <= 6,
        ensures
            final(self).wf(),
            old(self).started(*final(self), Seq::empty(), 0, MdTag::Heading(level)),
    {
        self.start_block();
        self.heading = Some(level);
        let idx = (level - 1) as usize;
        let hs = self.pal.heading(idx);
        self.push_style(hs);
        if idx >= 2 || !self.color() {
            let mut hashes = String::new();
            push_repeat(&mut hashes, '#', idx + 1);
            crate::text::push_char_to(&mut hashes, ' ');
            assert(hashes@ =~= repeat('#', level as nat).push(' '));
            self.inline.push(Span { text: hashes, style: hs.dim() });
            assert(span_views(self.inline@) =~= seq![(repeat('#', level as nat).push(' '), Style { dim: true, ..hs })]);
        } else {
            assert(span_views(self.inline@) =~= Seq::<(Seq<char>, Style)>::empty());
        }
    }

    /// A block quote: a bar in front of its lines; an alert also gets a colored title.
    fn start_quote(&mut self, kind: Option<QuoteKind>)
        requires
            old(self).wf(),
        ensures
            final(self).wf(),
            old(self).started(*final(self), Seq::empty(), 0, MdTag::BlockQuote(kind)),
    {
        self.start_block();
        let (st, title): (Style, Option<&str>) = match kind {
            None => (self.pal.quote, None),
            Some(k) => {
                let (c, t): (u8, &str) = match k {
                    QuoteKind::Note => (12, "ⓘ Note"),
                    QuoteKind::Tip => (10, "✱ Tip"),
                    QuoteKind::Important => (13, "❢ Important"),
                    QuoteKind::Warning => (11, "⚠ Warning"),
                    QuoteKind::Caution => (9, "⊘ Caution"),
                };
                (Style::fg(Color::Ansi(c)), Some(t))
            },
        };
        self.push_container(Container::Quote(st));
        match title {
            Some(t) => {
                let mut l: Vec<Span> = Vec::new();
                let tst = st.bold();
                l.push(Span::new(t, tst));
                assert(span_views(l@) =~= seq![(t@, tst)]);
                assert(t@ == alert_title(kind->0));
                self.emit(l);
            },
            None => {},
        }
    }

    /// A list: whether it is tight and how wide its markers are, from its items.
    fn start_list(&mut self, events: &Vec<MdEvent>, i: usize, start: Option<u64>)
        requires
            old(self).wf(),
            i < events@.len(),
        ensures
            final(self).wf(),
            old(self).started(*final(self), events@, i as int, MdTag::List(start)),
    {
        self.start_block();
        let (tight, count) = list_info(events, i);
        let width = match start {
            Some(s) => {
                let last = s.saturating_add(if count > 0 { (count - 1) as u64 } else { 0 });
                let digits = crate::text::decimal_string(last as u128).as_str().unicode_len();
                digits.saturating_add(2)
            },
            None => 2,
        };
        self.lists.push(ListState { next: start, tight, width });
    }

    /// A list item: the next number of an ordered list, or a bullet by nesting depth.
    fn start_item(&mut self)
        requires
            old(self).wf(),
        ensures
            final(self).wf(),
            old(self).started(*final(self), Seq::empty(), 0, MdTag::Item),
    {
        self.flush_inline();
        let depth = if self.lists.len() > 0 { self.lists.len() - 1 } else { 0 };
        let mut list = match self.lists.pop() {
            Some(l) => l,
            None => {
                return;
            },
        };
        if list.tight {
            self.pending_blank = false;
        }
        let width = list.width;
        let text = match list.next {
            Some(n) => {
                let m = ordered_marker_exec(n, width);
                list.next = Some(n.saturating_add(1));
                m
            },
            None => bullet_exec(depth).to_owned(),
        };
        self.lists.push(list);
        assert(self.lists@ =~= old(self).lists@.update(old(self).lists@.len() - 1, list));
        let ghost tv = text@;
        let mut marker: Vec<Span> = Vec::new();
        marker.push(Span { text, style: self.pal.marker });
        assert(span_views(marker@) =~= seq![(tv, self.pal.marker)]);
        self.push_container(Container::Item { marker, width });
        assert(self.containers@.drop_last() =~= old(self).containers@);
        assert(tv == item_marker(old(self).lists@.last(), old(self).lists@.len() - 1));
    }

    /// A footnote definition: its number in brackets in front of its first line.
    fn start_footnote(&mut self, label: &String)
        requires
            old(self).wf(),
        ensures
            final(self).wf(),
            old(self).started(*final(self), Seq::empty(), 0, MdTag::FootnoteDefinition(*label)),
    {
        self.start_block();
        let n = self.footnote_number(label);
        let mut m = String::new();
        crate::text::push_char_to(&mut m, '[');
        crate::text::push_decimal(&mut m, n as u128);
        push_str(&mut m, "] ");
        assert(m@ =~= footnote_marker(n as int));
        let width = crate::style::str_width(m.as_str());
        let ghost mv = m@;
        let mut marker: Vec<Span> = Vec::new();
        marker.push(Span { text: m, style: self.pal.footnote });
        assert(span_views(marker@) =~= seq![(mv, self.pal.footnote)]);
        self.push_container(Container::Item { marker, width });
        assert(self.containers@.drop_last() =~= old(self).containers@);
        assert(self.styles@ == old(self).styles_after_start(MdTag::FootnoteDefinition(*label)));
        assert(self.lists@ == old(self).lists_after_start(Seq::empty(), 0, MdTag::FootnoteDefinition(*label)));
        assert(old(self).table_after_start(*self, MdTag::FootnoteDefinition(*label)));
        assert(old(self).links_after_start(*self, MdTag::FootnoteDefinition(*label)));
        assert(old(self).flow_after_start(*self, MdTag::FootnoteDefinition(*label)));
        assert(old(self).containers_after_start(*self, MdTag::FootnoteDefinition(*label)));
    }

    /// A table: its rows are collected until it ends.
    fn start_table(&mut self, aligns: &Vec<Align>)
        requires
            old(self).wf(),
        ensures
            final(self).wf(),
            old(self).started(*final(self), Seq::empty(), 0, MdTag::Table(*aligns)),
    {
        self.start_block();
        let mut a: Vec<Align> = Vec::new();
        let mut k: usize = 0;
        while k < aligns.len()
            invariant
                k <= aligns@.len(),
                a@ == aligns@.take(k as int),
            decreases aligns@.len() - k,
        {
            a.push(aligns[k]);
            k += 1;
            assert(a@ =~= aligns@.take(k as int));
        }
        assert(a@ =~= aligns@);
        self.table = Some(TableState { aligns: a, rows: Vec::new(), head_rows: 0 });
    }

    /// Starts a table row: an empty row is added to the table being collected.
    fn start_row(&mut self)
        requires
            old(self).wf(),
        ensures
            final(self).wf(),
            old(self).started(*final(self), Seq::empty(), 0, MdTag::TableRow),
    {
        let mut slot: Option<TableState> = None;
        std::mem::swap(&mut slot, &mut self.table);
        match slot {
            Some(mut t) => {
                let ghost before = t.rows@;
                t.rows.push(Vec::new());
                assert(t.rows@.drop_last() =~= before);
                assert(rows_ok(t.rows@, self.nlinks())) by {
                    assert forall|r: int, c: int|
                        0 <= r < t.rows@.len() && 0 <= c < t.rows@[r]@.len() implies spans_ok((#[trigger] t.rows@[r]@[c])@, self.nlinks()) by {
                        if r < t.rows@.len() - 1 {
                            assert(t.rows@[r] == before[r]);
                        }
                    }
                }
                self.table = Some(t);
            },
            None => {},
        }
    }

    /// A link: e-mail links get `mailto:`, others are resolved; the URL is shown after
    /// the text where there are no hyperlinks, except for autolinks and fragments.
    fn start_link_tag(&mut self, kind: LinkKind, dest: &String)
        requires
            old(self).wf(),
        ensures
            final(self).wf(),
            old(self).started(*final(self), Seq::empty(), 0, MdTag::Link(kind, *dest)),
    {
        let url = match kind {
            LinkKind::Email => {
                let mut u = String::new();
                push_str(&mut u, "mailto:");
                push_str(&mut u, dest);
                u
            },
            _ => crate::url::resolve_url(dest, &self.cfg.base_dir),
        };
        let dv = crate::text::chars_of(dest);
        let plain_kind = match kind {
            LinkKind::Autolink | LinkKind::Email => false,
            _ => true,
        };
        let show_url = !self.cfg.hyperlinks && plain_kind && !has_prefix(&dv, "#");
        let st = self.pal.link;
        self.start_link(url, show_url, st);
    }

    /// The end of an element.
    fn end<G: Fn(&Fitter) -> Vec<usize>>(&mut self, tag: MdTagEnd, greedy: &G)
        requires
            old(self).wf(),
            tag matches MdTagEnd::Heading(l) ==> 1 <= l <= 6,
            forall|f: &Fitter| #[trigger] greedy.requires((f,)),
        ensures
            final(self).wf(),
            old(self).ended(*final(self), tag),
    {
        match tag {
            MdTagEnd::Paragraph => self.end_block(),
            MdTagEnd::Heading(level) => self.end_heading(level),
            MdTagEnd::BlockQuote => {
                self.flush_inline();
                self.pop_container();
                self.pending_blank = true;
            },
            MdTagEnd::CodeBlock | MdTagEnd::HtmlBlock => {},
            MdTagEnd::List => {
                self.flush_inline();
                self.lists.pop();
                self.pending_blank = true;
            },
            MdTagEnd::Item | MdTagEnd::FootnoteDefinition | MdTagEnd::DefinitionListDefinition => {
                self.end_item(tag == MdTagEnd::Item);
            },
            MdTagEnd::DefinitionList => {
                self.pending_blank = true;
            },
            MdTagEnd::DefinitionListTitle => {
                self.flush_inline();
                self.pop_style();
            },
            MdTagEnd::Table => self.end_table(greedy),
            MdTagEnd::TableHead => {
                self.pop_style();
                let mut slot: Option<TableState> = None;
                std::mem::swap(&mut slot, &mut self.table);
                match slot {
                    Some(mut t) => {
                        t.head_rows = t.rows.len();
                        self.table = Some(t);
                    },
                    None => {},
                }
            },
            MdTagEnd::TableRow => {},
            MdTagEnd::TableCell => self.end_cell(),
            MdTagEnd::Emphasis | MdTagEnd::Strong | MdTagEnd::Strikethrough | MdTagEnd::Superscript
            | MdTagEnd::Subscript => self.pop_style(),
            MdTagEnd::Link => self.end_link(false),
            MdTagEnd::Image => self.end_link(true),
            MdTagEnd::MetadataBlock => {},
        }
    }

    /// The end of a table: it is written, and a blank line follows.
    fn end_table<G: Fn(&Fitter) -> Vec<usize>>(&mut self, greedy: &G)
        requires
            old(self).wf(),
            forall|f: &Fitter| #[trigger] greedy.requires((f,)),
        ensures
            final(self).wf(),
            old(self).ended(*final(self), MdTagEnd::Table),
    {
        let mut slot: Option<TableState> = None;
        std::mem::swap(&mut slot, &mut self.table);
        let ghost s1 = *self;
        match slot {
            Some(t) => {
                self.render_table(t, greedy);
                let ghost r1 = *self;
                self.pending_blank = true;
                proof {
                    reveal(Renderer::table_drawn);
                    let nc = table_cols(t, t.rows@.len() as int);
                    let avail = s1.avail_spec();
                    if nc > 0 && !stacks(t, nc, avail) {
                        let widths = choose|widths: Seq<usize>|
                            #[trigger] s1.grid_drawn(r1, t, widths) && fitted(
                                naturals(t, nc),
                                minimums(t, nc),
                                cell_space(nc, avail),
                                widths,
                            );
                        assert(s1.grid_drawn(*self, t, widths));
                    }
                    assert(s1.table_drawn(*self, t));
                }
            },
            None => {
                self.pending_blank = true;
            },
        }
    }

    /// The end of a heading: levels 1 and 2 are underlined when there are colors.
    #[verifier::spinoff_prover]
    #[verifier::rlimit(40)]
    fn end_heading(&mut self, level: u8)
        requires
            old(self).wf(),
            1 <= level <= 6,
        ensures
            final(self).wf(),
            old(self).ended(*final(self), MdTagEnd::Heading(level)),
    {
        self.flush_inline();
        self.pop_style();
        self.heading = None;
        let idx = (level - 1) as usize;
        if idx < 2 && self.color() {
            let ch = if idx == 0 { '━' } else { '─' };
            let st = if idx == 0 { self.pal.h1 } else { self.pal.rule };
            let n = self.avail();
            let mut rule = String::new();
            push_repeat(&mut rule, ch, n);
            assert(rule@ =~= repeat(ch, n as nat));
            let ghost rv = rule@;
            let mut l: Vec<Span> = Vec::new();
            l.push(Span { text: rule, style: Style { bold: false, ..st } });
            assert(span_views(l@) =~= seq![(rv, Style { bold: false, ..st })]);
            self.emit(l);
        }
        self.pending_blank = true;
    }

    /// The end of a list item, footnote or definition: an item that showed nothing still
    /// shows its marker.
    fn end_item(&mut self, is_item: bool)
        requires
            old(self).wf(),
        ensures
            final(self).wf(),
            old(self).ended(
                *final(self),
                if is_item {
                    MdTagEnd::Item
                } else {
                    MdTagEnd::FootnoteDefinition
                },
            ),
    {
        self.flush_inline();
        let n = self.containers.len();
        let unshown = n > 0 && match &self.containers[n - 1] {
            Container::Item { .. } => !self.used[n - 1],
            Container::Quote(_) => false,
        };
        if unshown {
            let e: Vec<Span> = Vec::new();
            assert(span_views(e@) =~= Seq::<(Seq<char>, Style)>::empty());
            let ghost pre = prefix_raw(self.containers@, self.used@, false, n as int);
            assert(pre + span_views(e@) =~= pre);
            self.emit(e);
        }
        let ghost u = self.used@;
        self.pop_container();
        assert(n > 0 ==> self.used@ =~= u.drop_last());
        if unshown {
            assert(self.used@ =~= Seq::new((n - 1) as nat, |i: int| true));
        }
        if !is_item {
            self.pending_blank = true;
        }
    }

    /// The end of a table cell: the inline spans become the cell.
    fn end_cell(&mut self)
        requires
            old(self).wf(),
        ensures
            final(self).wf(),
            old(self).ended(*final(self), MdTagEnd::TableCell),
    {
        let mut cell: Vec<Span> = Vec::new();
        std::mem::swap(&mut cell, &mut self.inline);
        let mut slot: Option<TableState> = None;
        std::mem::swap(&mut slot, &mut self.table);
        match slot {
            Some(mut t) => {
                let ghost before = t.rows@;
                match t.rows.pop() {
                    Some(mut row) => {
                        let ghost row_before = row@;
                        assert(row == before.last());
                        row.push(cell);
                        assert(row@ == before.last()@.push(old(self).inline));
                        t.rows.push(row);
                        assert(t.rows@.drop_last() =~= before.drop_last());
                        assert(rows_ok(t.rows@, self.nlinks())) by {
                            assert forall|r: int, c: int|
                                0 <= r < t.rows@.len() && 0 <= c < t.rows@[r]@.len() implies spans_ok((#[trigger] t.rows@[r]@[c])@, self.nlinks()) by {
                                if r < t.rows@.len() - 1 {
                                    assert(t.rows@[r] == before[r]);
                                } else if c < t.rows@[r]@.len() - 1 {
                                    assert(t.rows@[r]@[c] == row_before[c]);
                                    assert(before[r] == before.last());
                                }
                            }
                        }
                    },
                    None => {},
                }
                self.table = Some(t);
            },
            None => {},
        }
    }

    /// Handles one event.
    fn event<G: Fn(&Fitter) -> Vec<usize>>(&mut self, events: &Vec<MdEvent>, i: usize, greedy: &G)
        requires
            old(self).wf(),
            i < events@.len(),
            crate::markdown::events_wf(events@),
            forall|f: &Fitter| #[trigger] greedy.requires((f,)),
        ensures
            final(self).wf(),
            old(self).handled(*final(self), events@, i as int),
    {
        let ev = &events[i];
        assert(events@[i as int] == *ev);
        if self.skip_depth > 0 {
            match ev {
                MdEvent::Start(_) => {
                    self.skip_depth = self.skip_depth.saturating_add(1);
                },
                MdEvent::End(_) => {
                    self.skip_depth = self.skip_depth - 1;
                },
                _ => {},
            }
            return;
        }
        if self.code.is_some() {
            self.code_event(ev);
            return;
        }
        if self.html.is_some() {
            self.html_event(ev);
            return;
        }
        match ev {
            MdEvent::Start(tag) => self.start(events, i, tag),
            MdEvent::End(tag) => self.end(*tag, greedy),
            MdEvent::Text(t) => self.text(t.as_str()),
            MdEvent::Code(t) => {
                let st = self.style().patch(self.pal.code);
                let ghost before = span_views(self.inline@);
                if self.color() {
                    self.inline.push(Span::new(t.as_str(), st));
                    assert(span_views(self.inline@) =~= before.push((t@, st)));
                } else {
                    let mut quoted = String::new();
                    push_str(&mut quoted, "`");
                    push_str(&mut quoted, t.as_str());
                    push_str(&mut quoted, "`");
                    let ghost qv = quoted@;
                    self.inline.push(Span { text: quoted, style: st });
                    assert(span_views(self.inline@) =~= before.push((qv, st)));
                }
            },
            MdEvent::InlineMath(t) | MdEvent::DisplayMath(t) => {
                let st = self.style().patch(self.pal.code);
                let ghost before = span_views(self.inline@);
                self.inline.push(Span::new(t.as_str(), st));
                assert(span_views(self.inline@) =~= before.push((t@, st)));
            },
            MdEvent::SoftBreak => self.text(" "),
            MdEvent::HardBreak => self.text("\n"),
            MdEvent::Rule => {
                self.start_block();
                let n = self.avail();
                let mut rule = String::new();
                push_repeat(&mut rule, '─', n);
                assert(rule@ =~= repeat('─', n as nat));
                let ghost rv = rule@;
                let mut l: Vec<Span> = Vec::new();
                l.push(Span { text: rule, style: self.pal.rule });
                assert(span_views(l@) =~= seq![(rv, self.pal.rule)]);
                self.emit(l);
                assert(self.nothing_pending());
                self.end_block();
            },
            MdEvent::Html(t) => {
                self.start_block();
                self.render_html_block(t.as_str());
            },
            MdEvent::InlineHtml(t) => self.inline_html(t.as_str()),
            MdEvent::FootnoteReference(label) => {
                let n = self.footnote_number(label.as_str());
                let st = self.style().patch(self.pal.footnote);
                let mut m = String::new();
                crate::text::push_char_to(&mut m, '[');
                crate::text::push_decimal(&mut m, n as u128);
                crate::text::push_char_to(&mut m, ']');
                let ghost mv = m@;
                assert(mv =~= seq!['['] + crate::text::decimal(n as nat) + seq![']']);
                let ghost before = span_views(self.inline@);
                self.inline.push(Span { text: m, style: st });
                assert(span_views(self.inline@) =~= before.push((mv, st)));
            },
            MdEvent::TaskListMarker(checked) => self.task_marker(*checked),
        }
    }

    /// An event inside a code block: text is collected until the block ends.
    fn code_event(&mut self, ev: &MdEvent)
        requires
            old(self).wf(),
            old(self).code is Some,
        ensures
            final(self).wf(),
            old(self).code_handled(*final(self), *ev),
    {
        match ev {
            MdEvent::Text(t) => {
                let mut slot: Option<(String, String)> = None;
                std::mem::swap(&mut slot, &mut self.code);
                match slot {
                    Some((lang, mut buf)) => {
                        push_str(&mut buf, t.as_str());
                        self.code = Some((lang, buf));
                    },
                    None => {},
                }
            },
            MdEvent::End(MdTagEnd::CodeBlock) => {
                let mut slot: Option<(String, String)> = None;
                std::mem::swap(&mut slot, &mut self.code);
                match slot {
                    Some((lang, buf)) => {
                        self.render_code(lang.as_str(), buf.as_str());
                        let ghost mid = *self;
                        self.end_block();
                        assert(old(self).code_closed(mid, *self));
                    },
                    None => {},
                }
            },
            _ => {},
        }
    }

    /// An event inside an HTML block: its text is collected until the block ends.
    fn html_event(&mut self, ev: &MdEvent)
        requires
            old(self).wf(),
            old(self).html is Some,
        ensures
            final(self).wf(),
            old(self).html_handled(*final(self), *ev),
    {
        let piece = match ev {
            MdEvent::Html(t) | MdEvent::Text(t) => Some(t),
            _ => None,
        };
        match piece {
            Some(t) => {
                let mut slot: Option<String> = None;
                std::mem::swap(&mut slot, &mut self.html);
                match slot {
                    Some(mut buf) => {
                        push_str(&mut buf, t.as_str());
                        self.html = Some(buf);
                    },
                    None => {},
                }
            },
            None => {
                if let MdEvent::End(MdTagEnd::HtmlBlock) = ev {
                    let mut slot: Option<String> = None;
                    std::mem::swap(&mut slot, &mut self.html);
                    match slot {
                        Some(buf) => self.render_html_block(buf.as_str()),
                        None => {},
                    }
                }
            },
        }
    }

    /// A task list checkbox: it replaces the marker of an item that has shown nothing yet,
    /// and is inline text otherwise.
    fn task_marker(&mut self, checked: bool)
        requires
            old(self).wf(),
        ensures
            final(self).wf(),
            old(self).task_marked(*final(self), checked),
    {
        let (text, st) = if checked { ("☑ ", self.pal.checked) } else { ("☐ ", self.pal.marker) };
        let n = self.containers.len();
        if n > 0 && !self.used[n - 1] && self.inline.len() == 0 {
            let width = match &self.containers[n - 1] {
                Container::Item { width, .. } => Some(*width),
                Container::Quote(_) => None,
            };
            match width {
                Some(w) => {
                    assert(w == old(self).containers@[n - 1]->width);
                    self.containers.pop();
                    let mut pad = String::new();
                    push_repeat(&mut pad, ' ', w.saturating_sub(2));
                    let ghost pv = pad@;
                    let mut marker: Vec<Span> = Vec::new();
                    marker.push(Span { text: pad, style: Style::default() });
                    marker.push(Span::new(text, st));
                    assert(span_views(marker@) =~= seq![(pv, plain_style()), (text@, st)]);
                    self.containers.push(Container::Item { marker, width: w });
                    assert(self.containers@.drop_last() =~= old(self).containers@.drop_last());
                    return;
                },
                None => {},
            }
        }
        self.inline.push(Span::new(text, st));
        assert(span_views(self.inline@) =~= span_views(old(self).inline@).push((text@, st)));
    }

    /// Everything but the inline spans is as in `o`.
    spec fn only_inline_changed(&self, o: Renderer) -> bool {
        &&& self.cfg == o.cfg
        &&& self.pal == o.pal
        &&& self.w == o.w
        &&& self.out == o.out
        &&& self.containers == o.containers
        &&& self.used == o.used
        &&& self.lists == o.lists
        &&& self.styles == o.styles
        &&& self.pending_blank == o.pending_blank
        &&& self.wrote_any == o.wrote_any
        &&& self.code == o.code
        &&& self.html == o.html
        &&& self.table == o.table
        &&& self.heading == o.heading
        &&& self.links == o.links
        &&& self.html_tags == o.html_tags
        &&& self.footnotes == o.footnotes
        &&& self.highlighter == o.highlighter
        &&& self.skip_depth == o.skip_depth
    }

    /// Everything but the containers' shown markers is as in `o`.
    spec fn only_used_changed(&self, o: Renderer) -> bool {
        &&& self.cfg == o.cfg
        &&& self.pal == o.pal
        &&& self.w == o.w
        &&& self.out == o.out
        &&& self.containers == o.containers
        &&& self.lists == o.lists
        &&& self.inline == o.inline
        &&& self.styles == o.styles
        &&& self.pending_blank == o.pending_blank
        &&& self.wrote_any == o.wrote_any
        &&& self.code == o.code
        &&& self.html == o.html
        &&& self.table == o.table
        &&& self.heading == o.heading
        &&& self.links == o.links
        &&& self.html_tags == o.html_tags
        &&& self.footnotes == o.footnotes
        &&& self.highlighter == o.highlighter
        &&& self.skip_depth == o.skip_depth
    }

    /// Everything but the output, the shown markers and whether anything was written
    /// is as in `o`.
    spec fn only_output_changed(&self, o: Renderer) -> bool {
        &&& self.cfg == o.cfg
        &&& self.pal == o.pal
        &&& self.w == o.w
        &&& self.containers == o.containers
        &&& self.lists == o.lists
        &&& self.inline == o.inline
        &&& self.styles == o.styles
        &&& self.pending_blank == o.pending_blank
        &&& self.code == o.code
        &&& self.html == o.html
        &&& self.table == o.table
        &&& self.heading == o.heading
        &&& self.links == o.links
        &&& self.html_tags == o.html_tags
        &&& self.footnotes == o.footnotes
        &&& self.highlighter == o.highlighter
        &&& self.skip_depth == o.skip_depth
    }

    /// Everything but the style stack is as in `o`.
    spec fn only_styles_changed(&self, o: Renderer) -> bool {
        &&& self.cfg == o.cfg
        &&& self.pal == o.pal
        &&& self.w == o.w
        &&& self.out == o.out
        &&& self.containers == o.containers
        &&& self.used == o.used
        &&& self.lists == o.lists
        &&& self.inline == o.inline
        &&& self.pending_blank == o.pending_blank
        &&& self.wrote_any == o.wrote_any
        &&& self.code == o.code
        &&& self.html == o.html
        &&& self.table == o.table
        &&& self.heading == o.heading
        &&& self.links == o.links
        &&& self.html_tags == o.html_tags
        &&& self.footnotes == o.footnotes
        &&& self.highlighter == o.highlighter
        &&& self.skip_depth == o.skip_depth
    }

    /// Everything but the output, the markers' use, the pending inline spans and the
    /// blank-line flag is as in `o`.
    spec fn only_flow_changed(&self, o: Renderer) -> bool {
        &&& self.cfg == o.cfg
        &&& self.pal == o.pal
        &&& self.w == o.w
        &&& self.containers == o.containers
        &&& self.used@.len() == o.used@.len()
        &&& self.lists == o.lists
        &&& self.styles == o.styles
        &&& self.code == o.code
        &&& self.html == o.html
        &&& self.table == o.table
        &&& self.heading == o.heading
        &&& self.links == o.links
        &&& self.html_tags == o.html_tags
        &&& self.footnotes == o.footnotes
        &&& self.highlighter == o.highlighter
        &&& self.skip_depth == o.skip_depth
    }

    /// Everything but the containers and their markers' use is as in `o`.
    spec fn only_containers_changed(&self, o: Renderer) -> bool {
        &&& self.cfg == o.cfg
        &&& self.pal == o.pal
        &&& self.w == o.w
        &&& self.out == o.out
        &&& self.lists == o.lists
        &&& self.inline == o.inline
        &&& self.styles == o.styles
        &&& self.pending_blank == o.pending_blank
        &&& self.wrote_any == o.wrote_any
        &&& self.code == o.code
        &&& self.html == o.html
        &&& self.table == o.table
        &&& self.heading == o.heading
        &&& self.links == o.links
        &&& self.html_tags == o.html_tags
        &&& self.footnotes == o.footnotes
        &&& self.highlighter == o.highlighter
        &&& self.skip_depth == o.skip_depth
    }

    /// `r` is this state after writing `rows` one after another inside the containers:
    /// the first with the markers not yet shown, the others indented.
    spec fn emitted(&self, r: Renderer, rows: Seq<LineView>) -> bool {
        &&& r.out@ == self.out@ + lines_output(
            self.cfg.mode,
            self.cfg.hyperlinks,
            self.w.link_targets(),
            self.containers@,
            self.used@,
            rows,
        )
        &&& r.used@ == if rows.len() == 0 {
            self.used@
        } else {
            Seq::new(self.used@.len(), |i: int| true)
        }
        &&& r.wrote_any == (self.wrote_any || rows.len() > 0)
    }

    proof fn lemma_emitted_one(&self, o: Renderer, row: LineView)
        requires
            self.out@ == o.out@ + line_output(
                o.cfg.mode,
                o.cfg.hyperlinks,
                o.w.link_targets(),
                prefix_raw(o.containers@, o.used@, false, o.containers@.len() as int) + row,
            ),
            self.used@ == Seq::new(o.used@.len(), |i: int| true),
            self.wrote_any,
        ensures
            o.emitted(*self, seq![row]),
    {
        let one = seq![row];
        assert(one.drop_last() =~= Seq::<LineView>::empty());
        assert(one[0] == row);
        let e = lines_output(o.cfg.mode, o.cfg.hyperlinks, o.w.link_targets(), o.containers@, o.used@, one.drop_last());
        assert(e == Seq::<char>::empty());
        let l = line_output(
            o.cfg.mode,
            o.cfg.hyperlinks,
            o.w.link_targets(),
            prefix_raw(o.containers@, o.used@, false, o.containers@.len() as int) + row,
        );
        assert(lines_output(o.cfg.mode, o.cfg.hyperlinks, o.w.link_targets(), o.containers@, o.used@, one) == e + l);
        assert(e + l =~= l);
    }

    proof fn lemma_emitted_step(&self, o: Renderer, mid: Renderer, all: Seq<LineView>, k: int)
        requires
            0 <= k < all.len(),
            o.emitted(mid, all.take(k)),
            mid.cfg == o.cfg,
            mid.w == o.w,
            mid.containers == o.containers,
            self.out@ == mid.out@ + line_output(
                mid.cfg.mode,
                mid.cfg.hyperlinks,
                mid.w.link_targets(),
                prefix_raw(mid.containers@, mid.used@, false, mid.containers@.len() as int) + all[k],
            ),
            self.used@ == Seq::new(mid.used@.len(), |i: int| true),
            self.wrote_any,
        ensures
            o.emitted(*self, all.take(k + 1)),
    {
        let t = all.take(k + 1);
        assert(t.drop_last() =~= all.take(k));
        assert(t[k] == all[k]);
        let u = if k == 0 { o.used@ } else { Seq::new(o.used@.len(), |i: int| true) };
        if k > 0 {
            assert(mid.used@ =~= Seq::new(o.used@.len(), |i: int| true));
        }
        assert(mid.used@ == u);
        assert(lines_output(o.cfg.mode, o.cfg.hyperlinks, o.w.link_targets(), o.containers@, o.used@, t) == lines_output(
            o.cfg.mode,
            o.cfg.hyperlinks,
            o.w.link_targets(),
            o.containers@,
            o.used@,
            all.take(k),
        ) + line_output(
            o.cfg.mode,
            o.cfg.hyperlinks,
            o.w.link_targets(),
            prefix_raw(o.containers@, u, false, o.containers@.len() as int) + all[k],
        ));
        let a = o.out@;
        let b = lines_output(o.cfg.mode, o.cfg.hyperlinks, o.w.link_targets(), o.containers@, o.used@, all.take(k));
        let c = line_output(
            o.cfg.mode,
            o.cfg.hyperlinks,
            o.w.link_targets(),
            prefix_raw(o.containers@, u, false, o.containers@.len() as int) + all[k],
        );
        assert(self.out@ == a + b + c);
        assert(a + b + c =~= a + (b + c));
        assert(mid.used@.len() == o.used@.len());
        assert(self.used@ =~= Seq::new(o.used@.len(), |i: int| true));
    }

    proof fn lemma_emitted_concat(&self, o: Renderer, mid: Renderer, a: Seq<LineView>, b: Seq<LineView>)
        requires
            o.emitted(mid, a),
            mid.emitted(*self, b),
            mid.cfg == o.cfg,
            mid.w == o.w,
            mid.containers == o.containers,
        ensures
            o.emitted(*self, a + b),
    {
        lemma_lines_output_concat(o.cfg.mode, o.cfg.hyperlinks, o.w.link_targets(), o.containers@, o.used@, a, b);
        assert(mid.used@ == if a.len() == 0 {
            o.used@
        } else {
            Seq::new(o.used@.len(), |i: int| true)
        });
        let x = o.out@;
        let y = lines_output(o.cfg.mode, o.cfg.hyperlinks, o.w.link_targets(), o.containers@, o.used@, a);
        let z = lines_output(o.cfg.mode, o.cfg.hyperlinks, o.w.link_targets(), o.containers@, mid.used@, b);
        assert(x + y + z =~= x + (y + z));
        if b.len() > 0 {
            assert(self.used@ =~= Seq::new(o.used@.len(), |i: int| true));
        }
    }

    /// The rows of a code block without colors: its lines after up to four spaces,
    /// broken by characters at the width left.
    spec fn plain_code_rows(&self, code: Seq<char>) -> Seq<LineView> {
        let avail = self.avail_spec();
        let indent = code_indent(avail);
        block_rows(text_lines(code_body(code)), avail - indent, plain_style(), indent)
    }

    /// `r` is this state after writing a code block in `lang` on the band of highlighter
    /// `h`, its lines `code` highlighted as `hl`: a header with the language at the right,
    /// the lines on the band's background, and a closing band.
    spec fn band_written(&self, r: Renderer, lang: Seq<char>, h: Highlighter, hl: Seq<LineView>, code: Seq<char>) -> bool {
        let avail = self.avail_spec();
        let bg = h.background_color();
        let fill = Style { bg, ..plain_style() };
        let inner = if avail >= 3 { avail - 2 } else { 1 };
        &&& hl == h.highlighting(lang, code)
        &&& crate::highlight::highlighted_code(code, hl)
        &&& self.emitted(
            r,
            seq![code_header(code_label_spec(lang), avail, fill, h.foreground_color())] + band_block(hl, inner, fill, bg)
                + seq![seq![(repeat(' ', avail as nat), fill)]],
        )
    }

    /// `r` is this state after drawing table `t` in columns of `widths`.
    spec fn grid_drawn(&self, r: Renderer, t: TableState, widths: Seq<usize>) -> bool {
        &&& widths.len() == table_cols(t, t.rows@.len() as int)
        &&& self.emitted(r, grid(t, widths, self.pal.border))
    }

    /// `r` is this state after writing table `t`: nothing for a table without columns;
    /// one record per body row where the table is too wide; else the table drawn in
    /// columns of the widths that `fit_columns` chooses for the space left.
    #[verifier::opaque]
    spec fn table_drawn(&self, r: Renderer, t: TableState) -> bool {
        let nc = table_cols(t, t.rows@.len() as int);
        let avail = self.avail_spec();
        if nc == 0 {
            self.emitted(r, Seq::empty())
        } else if stacks(t, nc, avail) {
            self.emitted(r, stacked_rows(t, nc, key_width(t, nc, avail), avail, self.pal.border, t.rows@.len() as int))
        } else {
            exists|widths: Seq<usize>|
                #[trigger] self.grid_drawn(r, t, widths) && fitted(naturals(t, nc), minimums(t, nc), cell_space(nc, avail), widths)
        }
    }

    /// Width left for content inside the containers.
    spec fn avail_spec(&self) -> int {
        avail_of(self.cfg.width as int, prefix_cols(self.containers@, self.containers@.len() as int))
    }

    /// Whether there are no pending inline spans to write (none, or only blank ones).
    spec fn nothing_pending(&self) -> bool {
        let v = span_views(self.inline@);
        v.len() == 0 || all_blank(v)
    }

    /// The output after the pending inline spans are written as a wrapped paragraph.
    spec fn flushed_out(&self) -> Seq<char> {
        if self.nothing_pending() {
            self.out@
        } else {
            self.out@ + lines_output(
                self.cfg.mode,
                self.cfg.hyperlinks,
                self.w.link_targets(),
                self.containers@,
                self.used@,
                paragraph_lines(span_views(self.inline@), self.avail_spec()),
            )
        }
    }

    /// Which markers have been shown after the pending inline spans are written.
    spec fn flushed_used(&self) -> Seq<bool> {
        if self.nothing_pending() {
            self.used@
        } else {
            Seq::new(self.used@.len(), |i: int| true)
        }
    }

    /// Whether anything has been written once the pending inline spans are.
    spec fn flushed_wrote(&self) -> bool {
        self.wrote_any || !self.nothing_pending()
    }

    /// A blank line inside the containers, with markers shown as in `used`.
    spec fn blank_line(&self, used: Seq<bool>) -> Seq<char> {
        line_output(
            self.cfg.mode,
            self.cfg.hyperlinks,
            self.w.link_targets(),
            blank_prefix(prefix_raw(self.containers@, used, true, self.containers@.len() as int)),
        )
    }

    /// The output once a block starts: the pending spans, then a blank line if a block
    /// ended before and something was written.
    spec fn block_started_out(&self) -> Seq<char> {
        if self.pending_blank && self.flushed_wrote() {
            self.flushed_out() + self.blank_line(self.flushed_used())
        } else {
            self.flushed_out()
        }
    }

    /// The style that the start of `tag` layers over the current one, if it sets one.
    spec fn start_style(&self, tag: MdTag) -> Option<Style> {
        match tag {
            MdTag::Heading(l) => Some(self.pal.heading_spec(l - 1)),
            MdTag::DefinitionListTitle | MdTag::TableHead | MdTag::Strong => Some(Style { bold: true, ..plain_style() }),
            MdTag::Emphasis => Some(Style { italic: true, ..plain_style() }),
            MdTag::Strikethrough => Some(Style { strike: true, ..plain_style() }),
            MdTag::Superscript | MdTag::Subscript => Some(plain_style()),
            MdTag::Link(_, _) => Some(Style { link: (self.nlinks() + 1) as u32, ..self.pal.link }),
            MdTag::Image(_) => Some(Style { link: (self.nlinks() + 1) as u32, italic: true, ..self.pal.link }),
            _ => None,
        }
    }

    /// The style stack after the start of `tag`.
    spec fn styles_after_start(&self, tag: MdTag) -> Seq<Style> {
        match self.start_style(tag) {
            Some(st) => self.styles@.push(patched(self.styles@.last(), st)),
            None => self.styles@,
        }
    }

    /// The bar style of a block quote, or of an alert of `kind`.
    spec fn quote_style(&self, kind: Option<QuoteKind>) -> Style {
        match kind {
            None => self.pal.quote,
            Some(k) => Style { fg: Some(Color::Ansi(alert_color(k))), ..plain_style() },
        }
    }

    /// The containers of `r`, after the start of `tag` here: a quote's bar, an item's
    /// marker (the next number, or the bullet of its depth), a footnote's number or a
    /// definition's arrow is opened in front of the lines to come.
    spec fn containers_after_start(&self, r: Renderer, tag: MdTag) -> bool {
        let cs = self.containers@;
        let opened = r.containers@.len() == cs.len() + 1 && r.containers@.drop_last() == cs;
        match tag {
            MdTag::BlockQuote(k) => r.containers@ == cs.push(Container::Quote(self.quote_style(k))),
            MdTag::Item => if self.lists@.len() > 0 {
                let l = self.lists@.last();
                &&& opened
                &&& is_item(r.containers@.last(), item_marker(l, self.lists@.len() - 1), self.pal.marker, l.width as int)
            } else {
                r.containers@ == cs
            },
            MdTag::FootnoteDefinition(label) => {
                let n = footnote_no(self.footnotes@, label@, 0);
                &&& opened
                &&& is_item(r.containers@.last(), footnote_marker(n), self.pal.footnote, unicode_str_width(footnote_marker(n)) as int)
            },
            MdTag::DefinitionListDefinition => {
                &&& opened
                &&& is_item(r.containers@.last(), "  ⮡ "@, self.pal.marker, 4)
            },
            _ => r.containers@ == cs,
        }
    }

    /// The list states after the start of `tag` (the list's events are `events`, the tag
    /// the one at `i`): a list pushes its state, an item advances its list's number.
    spec fn lists_after_start(&self, events: Seq<MdEvent>, i: int, tag: MdTag) -> Seq<ListState> {
        match tag {
            MdTag::List(start) => {
                let info = list_scan(events, i + 1, 0);
                self.lists@.push(ListState { next: start, tight: info.0, width: list_width(start, info.1) as usize })
            },
            MdTag::Item => if self.lists@.len() > 0 {
                let l = self.lists@.last();
                let next = match l.next {
                    Some(n) => Some(sat_u64(n + 1) as u64),
                    None => None,
                };
                self.lists@.update(self.lists@.len() - 1, ListState { next, ..l })
            } else {
                self.lists@
            },
            _ => self.lists@,
        }
    }

    /// The table of `r` after the start of `tag` here: a table starts empty with its
    /// alignments, a head or row adds an empty row.
    spec fn table_after_start(&self, r: Renderer, tag: MdTag) -> bool {
        match tag {
            MdTag::Table(aligns) => r.table matches Some(t) && t.aligns@ == aligns@ && t.rows@.len() == 0 && t.head_rows
                == 0,
            MdTag::TableHead | MdTag::TableRow => match self.table {
                Some(t) => r.table matches Some(t2) && t2.aligns == t.aligns && t2.head_rows == t.head_rows
                    && t2.rows@.drop_last() == t.rows@ && t2.rows@.len() == t.rows@.len() + 1 && t2.rows@.last()@.len()
                    == 0,
                None => r.table is None,
            },
            _ => r.table == self.table,
        }
    }

    /// The open links of `r` after the start of `tag` here: a link or image opens one,
    /// with the next target id, its URL, where its text starts and whether its URL is shown.
    spec fn links_after_start(&self, r: Renderer, tag: MdTag) -> bool {
        match tag {
            MdTag::Link(kind, dest) => self.link_opened(
                r,
                link_url(kind, dest@, self.base()),
                !self.cfg.hyperlinks && !(kind is Autolink) && !(kind is Email) && !crate::url::starts_with(dest@, "#"@),
            ),
            MdTag::Image(dest) => self.link_opened(r, resolved(dest@, self.base()), !self.cfg.hyperlinks),
            _ => r.links == self.links && r.w == self.w,
        }
    }

    /// `r` has opened a link here, to `url`, with the next target id, its text starting
    /// after the pending spans, and its URL shown if `show`.
    spec fn link_opened(&self, r: Renderer, url: Seq<char>, show: bool) -> bool {
        &&& r.links@.len() == self.links@.len() + 1
        &&& r.links@.drop_last() == self.links@
        &&& r.links@.last().id == (self.nlinks() + 1) as u32
        &&& r.links@.last().url@ == url
        &&& r.links@.last().start == self.inline@.len()
        &&& r.links@.last().show_url == show
        &&& r.w.links@.len() == self.w.links@.len() + 1
        &&& r.w.links@.drop_last() == self.w.links@
        &&& r.w.links@.last()@ == url
    }

    /// The base directory of relative links, as text.
    spec fn base(&self) -> Option<Seq<char>> {
        match self.cfg.base_dir {
            Some(b) => Some(b@),
            None => None,
        }
    }

    /// The inline spans, output and blank-line flag of `r` after the start of `tag` here:
    /// a block writes the pending spans and, if a block ended before, a blank line, and
    /// will not be preceded by another; an alert writes its title; a heading's hashes or
    /// an image's bracket start its text; an inline element writes nothing.
    spec fn flow_after_start(&self, r: Renderer, tag: MdTag) -> bool {
        let iv = span_views(r.inline@);
        let started_block = r.out@ == self.block_started_out() && r.wrote_any == self.flushed_wrote();
        let unchanged = r.out == self.out && r.used == self.used && r.wrote_any == self.wrote_any;
        match tag {
            MdTag::Paragraph | MdTag::CodeBlock(_) | MdTag::HtmlBlock | MdTag::List(_) | MdTag::DefinitionList
            | MdTag::DefinitionListTitle | MdTag::Table(_) => {
                &&& iv.len() == 0 && !r.pending_blank
                &&& started_block
                &&& r.used@ == self.flushed_used()
            },
            MdTag::FootnoteDefinition(_) => {
                &&& iv.len() == 0 && !r.pending_blank
                &&& started_block
                &&& r.used@ == self.flushed_used().push(false)
            },
            MdTag::BlockQuote(kind) => {
                &&& iv.len() == 0 && !r.pending_blank
                &&& match kind {
                    None => started_block && r.used@ == self.flushed_used().push(false),
                    Some(k) => {
                        let cs = self.containers@.push(Container::Quote(self.quote_style(kind)));
                        let title = seq![(alert_title(k), Style { bold: true, ..self.quote_style(kind) })];
                        &&& r.out@ == self.block_started_out() + line_output(
                            self.cfg.mode,
                            self.cfg.hyperlinks,
                            self.w.link_targets(),
                            prefix_raw(cs, self.flushed_used().push(false), false, cs.len() as int) + title,
                        )
                        &&& r.used@ == Seq::new(cs.len(), |i: int| true)
                        &&& r.wrote_any
                    },
                }
            },
            MdTag::Heading(l) => {
                let hs = self.pal.heading_spec(l - 1);
                &&& !r.pending_blank
                &&& started_block
                &&& r.used@ == self.flushed_used()
                &&& iv == if l >= 3 || self.cfg.mode == ColorMode::NoColor {
                    seq![(repeat('#', l as nat).push(' '), Style { dim: true, ..hs })]
                } else {
                    Seq::empty()
                }
            },
            MdTag::Item => {
                &&& iv.len() == 0
                &&& r.pending_blank == (self.pending_blank && !(self.lists@.len() > 0 && self.lists@.last().tight))
                &&& r.out@ == self.flushed_out()
                &&& r.wrote_any == self.flushed_wrote()
                &&& r.used@ == if self.lists@.len() > 0 {
                    self.flushed_used().push(false)
                } else {
                    self.flushed_used()
                }
            },
            MdTag::DefinitionListDefinition => {
                &&& iv.len() == 0 && !r.pending_blank
                &&& r.out@ == self.flushed_out()
                &&& r.wrote_any == self.flushed_wrote()
                &&& r.used@ == self.flushed_used().push(false)
            },
            MdTag::TableCell => iv.len() == 0 && r.pending_blank == self.pending_blank && unchanged,
            MdTag::Image(_) => {
                let st = patched(self.styles_after_start(tag).last(), self.pal.dim);
                &&& iv == span_views(self.inline@).push(("[image: "@, st))
                &&& r.pending_blank == self.pending_blank
                &&& unchanged
            },
            _ => r.inline == self.inline && r.pending_blank == self.pending_blank && unchanged,
        }
    }

    /// The style stack with its innermost style closed (the base style stays).
    spec fn popped_styles(&self) -> Seq<Style> {
        if self.styles@.len() > 1 {
            self.styles@.drop_last()
        } else {
            self.styles@
        }
    }

    /// The inline spans after closing the innermost open link (an image if `image`).
    spec fn inline_after_link(&self, image: bool) -> LineView {
        if self.links@.len() == 0 {
            span_views(self.inline@)
        } else {
            let info = self.links@.last();
            closed_link(
                span_views(self.inline@),
                info.id,
                info.url@,
                info.start as int,
                info.show_url,
                self.popped_styles().last(),
                self.pal.dim,
                image,
            )
        }
    }

    /// The table of `r` after the end of `tag` here: a finished table is written and
    /// dropped, the head's rows are counted, a cell's spans join the last row.
    spec fn table_after_end(&self, r: Renderer, tag: MdTagEnd) -> bool {
        match tag {
            MdTagEnd::Table => r.table is None,
            MdTagEnd::TableHead => match self.table {
                Some(t) => r.table matches Some(t2) && t2.aligns == t.aligns && t2.rows == t.rows && t2.head_rows
                    == t.rows@.len(),
                None => r.table is None,
            },
            MdTagEnd::TableCell => match self.table {
                Some(t) => r.table matches Some(t2) && t2.aligns == t.aligns && t2.head_rows == t.head_rows && if t.rows@.len()
                    > 0 {
                    &&& t2.rows@.len() == t.rows@.len()
                    &&& t2.rows@.drop_last() == t.rows@.drop_last()
                    &&& t2.rows@.last()@ == t.rows@.last()@.push(self.inline)
                } else {
                    t2.rows@ == t.rows@
                },
                None => r.table is None,
            },
            _ => r.table == self.table,
        }
    }

    /// The inline spans, output and blank-line flag of `r` after the end of `tag` here: a
    /// block writes its pending spans and is followed by a blank line (a list item's end
    /// keeps a tight list tight); the first two heading levels are underlined where there
    /// are colors; an item that showed nothing still shows its marker; an inline element
    /// writes nothing.
    spec fn flow_after_end(&self, r: Renderer, tag: MdTagEnd) -> bool {
        let iv = span_views(r.inline@);
        let flushed = r.out@ == self.flushed_out() && r.wrote_any == self.flushed_wrote();
        let unchanged = r.out == self.out && r.used == self.used && r.wrote_any == self.wrote_any;
        let n = self.containers@.len();
        let fu = self.flushed_used();
        match tag {
            MdTagEnd::Paragraph | MdTagEnd::List => iv.len() == 0 && r.pending_blank && flushed && r.used@ == fu,
            MdTagEnd::BlockQuote => iv.len() == 0 && r.pending_blank && flushed && r.used@ == if n > 0 {
                fu.drop_last()
            } else {
                fu
            },
            MdTagEnd::Heading(l) => {
                &&& iv.len() == 0 && r.pending_blank
                &&& if l <= 2 && self.cfg.mode != ColorMode::NoColor {
                    let st = if l == 1 { self.pal.h1 } else { self.pal.rule };
                    let ch = if l == 1 { '━' } else { '─' };
                    &&& r.out@ == self.flushed_out() + line_output(
                        self.cfg.mode,
                        self.cfg.hyperlinks,
                        self.w.link_targets(),
                        prefix_raw(self.containers@, fu, false, n as int) + seq![
                            (repeat(ch, self.avail_spec() as nat), Style { bold: false, ..st }),
                        ],
                    )
                    &&& r.used@ == Seq::new(n, |i: int| true)
                    &&& r.wrote_any
                } else {
                    flushed && r.used@ == fu
                }
            },
            MdTagEnd::Item | MdTagEnd::FootnoteDefinition | MdTagEnd::DefinitionListDefinition => {
                let unshown = n > 0 && self.containers@[n - 1] is Item && !fu[n - 1];
                &&& iv.len() == 0
                &&& r.pending_blank == if tag is Item { self.pending_blank } else { true }
                &&& if unshown {
                    &&& r.out@ == self.flushed_out() + line_output(
                        self.cfg.mode,
                        self.cfg.hyperlinks,
                        self.w.link_targets(),
                        prefix_raw(self.containers@, fu, false, n as int),
                    )
                    &&& r.used@ == Seq::new((n - 1) as nat, |i: int| true)
                    &&& r.wrote_any
                } else {
                    flushed && r.used@ == if n > 0 {
                        fu.drop_last()
                    } else {
                        fu
                    }
                }
            },
            MdTagEnd::DefinitionListTitle => iv.len() == 0 && r.pending_blank == self.pending_blank && flushed
                && r.used@ == fu,
            MdTagEnd::DefinitionList => r.inline == self.inline && r.pending_blank && unchanged,
            MdTagEnd::Table => {
                &&& r.inline == self.inline
                &&& r.pending_blank
                &&& match self.table {
                    Some(t) => Renderer { table: None, ..*self }.table_drawn(r, t),
                    None => unchanged,
                }
            },
            MdTagEnd::TableCell => iv.len() == 0 && r.pending_blank == self.pending_blank && unchanged,
            MdTagEnd::Link => iv == self.inline_after_link(false) && r.pending_blank == self.pending_blank && unchanged,
            MdTagEnd::Image => iv == self.inline_after_link(true) && r.pending_blank == self.pending_blank && unchanged,
            _ => r.inline == self.inline && r.pending_blank == self.pending_blank && unchanged,
        }
    }

    /// The state of `r` after the end of `tag` here: the style, container, list or link
    /// that the element opened is closed.
    spec fn ended(&self, r: Renderer, tag: MdTagEnd) -> bool {
        &&& r.cfg == self.cfg
        &&& r.pal == self.pal
        &&& r.w == self.w
        &&& r.html_tags == self.html_tags
        &&& r.footnotes == self.footnotes
        &&& r.code == self.code
        &&& r.html == self.html
        &&& r.skip_depth == self.skip_depth
        &&& r.styles@ == match tag {
            MdTagEnd::Heading(_) | MdTagEnd::DefinitionListTitle | MdTagEnd::TableHead | MdTagEnd::Emphasis
            | MdTagEnd::Strong | MdTagEnd::Strikethrough | MdTagEnd::Superscript | MdTagEnd::Subscript
            | MdTagEnd::Link | MdTagEnd::Image => self.popped_styles(),
            _ => self.styles@,
        }
        &&& r.containers@ == match tag {
            MdTagEnd::BlockQuote | MdTagEnd::Item | MdTagEnd::FootnoteDefinition
            | MdTagEnd::DefinitionListDefinition => if self.containers@.len() > 0 {
                self.containers@.drop_last()
            } else {
                self.containers@
            },
            _ => self.containers@,
        }
        &&& r.lists@ == if tag is List && self.lists@.len() > 0 {
            self.lists@.drop_last()
        } else {
            self.lists@
        }
        &&& r.links@ == if (tag is Link || tag is Image) && self.links@.len() > 0 {
            self.links@.drop_last()
        } else {
            self.links@
        }
        &&& r.heading == if tag is Heading { None } else { self.heading }
        &&& self.table_after_end(r, tag)
        &&& self.flow_after_end(r, tag)
    }

    /// The state of `r` after an event inside a code block here: text joins the code,
    /// and the block's end writes it.
    spec fn code_handled(&self, r: Renderer, ev: MdEvent) -> bool {
        match ev {
            MdEvent::Text(t) => match self.code {
                Some((l, b)) => {
                    &&& r.code matches Some((l2, b2)) && l2 == l && b2@ == b@ + t@
                    &&& r == Renderer { code: r.code, ..*self }
                },
                None => r == *self,
            },
            MdEvent::End(MdTagEnd::CodeBlock) => {
                &&& r.code is None
                &&& r.pending_blank
                &&& span_views(r.inline@).len() == 0
                &&& r.stable(Renderer { code: None, ..*self })
                &&& exists|mid: Renderer| #[trigger] self.code_closed(mid, r)
            },
            _ => r == *self,
        }
    }

    /// `r` is this state (inside a code block) after the block's end: `mid` is the state
    /// once the collected code is written, and its pending spans are written after it.
    spec fn code_closed(&self, mid: Renderer, r: Renderer) -> bool {
        let s1 = Renderer { code: None, ..*self };
        &&& self.code matches Some((lang, buf)) && s1.code_written(mid, lang@, buf@)
        &&& mid.stable(s1)
        &&& mid.inline == s1.inline
        &&& r.out@ == mid.flushed_out()
        &&& r.used@ == mid.flushed_used()
        &&& r.wrote_any == mid.flushed_wrote()
    }

    /// `r` is this state after writing the code `code` in `lang`: on the highlighter's band
    /// (its lines as the highlighter highlights them) where there is one, indented otherwise.
    spec fn code_written(&self, r: Renderer, lang: Seq<char>, code: Seq<char>) -> bool {
        match self.highlighter {
            None => self.emitted(r, self.plain_code_rows(code)),
            Some(h) => self.band_written(r, lang, h, h.highlighting(lang, code_body(code)), code_body(code)),
        }
    }

    /// The state of `r` after an event inside an HTML block here: its HTML and text join
    /// the block, and the block's end writes it.
    spec fn html_handled(&self, r: Renderer, ev: MdEvent) -> bool {
        match ev {
            MdEvent::Html(t) | MdEvent::Text(t) => match self.html {
                Some(b) => {
                    &&& r.html matches Some(b2) && b2@ == b@ + t@
                    &&& r == Renderer { html: r.html, ..*self }
                },
                None => r == *self,
            },
            MdEvent::End(MdTagEnd::HtmlBlock) => {
                let kept = match self.html {
                    Some(b) => html_kept(text_lines(b@), 0, false),
                    None => Seq::empty(),
                };
                &&& r.html is None
                &&& r.inline == self.inline
                &&& r.stable(Renderer { html: None, ..*self })
                &&& self.emitted(r, block_rows(kept, self.avail_spec(), self.pal.dim, 0))
                &&& r.pending_blank == (self.pending_blank || kept.len() > 0)
            },
            _ => r == *self,
        }
    }

    /// The state of `r` after a task list checkbox here: it replaces the marker of an
    /// item that has shown nothing yet (keeping the marker's width), and is inline text
    /// otherwise.
    spec fn task_marked(&self, r: Renderer, checked: bool) -> bool {
        let text = if checked { "☑ "@ } else { "☐ "@ };
        let st = if checked { self.pal.checked } else { self.pal.marker };
        let n = self.containers@.len();
        if n > 0 && !self.used@[n - 1] && self.inline@.len() == 0 && self.containers@[n - 1] is Item {
            let w = self.containers@[n - 1]->width;
            &&& r.containers@.len() == n
            &&& r.containers@.drop_last() == self.containers@.drop_last()
            &&& r.containers@.last() matches Container::Item { marker, width } && width == w && span_views(marker@)
                == seq![(repeat(' ', (if w >= 2 { w - 2 } else { 0 }) as nat), plain_style()), (text, st)]
            &&& r.only_containers_changed(*self)
            &&& r.used == self.used
        } else {
            &&& span_views(r.inline@) == span_views(self.inline@).push((text, st))
            &&& r.only_inline_changed(*self)
        }
    }

    /// The state of `r` after event `i` of `events` here. Inside front matter only the
    /// nesting is counted; inside a code or HTML block the text is collected; otherwise
    /// elements start and end, text and code spans join the pending line in the current
    /// style, a rule is drawn, and a footnote reference shows its number.
    spec fn handled(&self, r: Renderer, events: Seq<MdEvent>, i: int) -> bool {
        let ev = events[i];
        let top = self.styles@.last();
        let iv = span_views(self.inline@);
        if self.skip_depth > 0 {
            r == Renderer {
                skip_depth: match ev {
                    MdEvent::Start(_) => (if self.skip_depth + 1 > usize::MAX {
                        usize::MAX as int
                    } else {
                        self.skip_depth + 1
                    }) as usize,
                    MdEvent::End(_) => (self.skip_depth - 1) as usize,
                    _ => self.skip_depth,
                },
                ..*self
            }
        } else if self.code is Some {
            self.code_handled(r, ev)
        } else if self.html is Some {
            self.html_handled(r, ev)
        } else {
            match ev {
                MdEvent::Start(tag) => self.started(r, events, i, tag),
                MdEvent::End(tag) => self.ended(r, tag),
                MdEvent::Text(t) => r.only_inline_changed(*self) && span_views(r.inline@)
                    == crate::wrap::push_str_line(iv, t@, top),
                MdEvent::SoftBreak => r.only_inline_changed(*self) && span_views(r.inline@)
                    == crate::wrap::push_str_line(iv, " "@, top),
                MdEvent::HardBreak => r.only_inline_changed(*self) && span_views(r.inline@)
                    == crate::wrap::push_str_line(iv, "\n"@, top),
                MdEvent::Code(t) => r.only_inline_changed(*self) && span_views(r.inline@) == iv.push(
                    (
                        if self.cfg.mode == ColorMode::NoColor {
                            "`"@ + t@ + "`"@
                        } else {
                            t@
                        },
                        patched(top, self.pal.code),
                    ),
                ),
                MdEvent::InlineMath(t) | MdEvent::DisplayMath(t) => r.only_inline_changed(*self) && span_views(
                    r.inline@,
                ) == iv.push((t@, patched(top, self.pal.code))),
                MdEvent::Rule => {
                    &&& r.only_flow_changed(*self)
                    &&& span_views(r.inline@).len() == 0
                    &&& r.pending_blank
                    &&& r.out@ == self.block_started_out() + line_output(
                        self.cfg.mode,
                        self.cfg.hyperlinks,
                        self.w.link_targets(),
                        prefix_raw(self.containers@, self.flushed_used(), false, self.containers@.len() as int) + seq![
                            (repeat('─', self.avail_spec() as nat), self.pal.rule),
                        ],
                    )
                    &&& r.used@ == Seq::new(self.used@.len(), |i: int| true)
                    &&& r.wrote_any
                },
                MdEvent::Html(t) => {
                    let kept = html_kept(text_lines(t@), 0, false);
                    let rows = block_rows(kept, self.avail_spec(), self.pal.dim, 0);
                    &&& r.stable(*self)
                    &&& span_views(r.inline@).len() == 0
                    &&& r.pending_blank == (kept.len() > 0)
                    &&& r.out@ == self.block_started_out() + lines_output(
                        self.cfg.mode,
                        self.cfg.hyperlinks,
                        self.w.link_targets(),
                        self.containers@,
                        self.flushed_used(),
                        rows,
                    )
                    &&& r.used@ == if rows.len() == 0 {
                        self.flushed_used()
                    } else {
                        Seq::new(self.used@.len(), |i: int| true)
                    }
                    &&& r.wrote_any == (self.flushed_wrote() || rows.len() > 0)
                },
                MdEvent::FootnoteReference(label) => {
                    let n = footnote_no(self.footnotes@, label@, 0);
                    &&& span_views(r.inline@) == iv.push(
                        (seq!['['] + crate::text::decimal(n as nat) + seq![']'], patched(top, self.pal.footnote)),
                    )
                    &&& n <= self.footnotes@.len() ==> r.footnotes == self.footnotes
                    &&& n > self.footnotes@.len() ==> r.footnotes@.drop_last() == self.footnotes@ && r.footnotes@.len()
                        == n && r.footnotes@.last()@ == label@
                    &&& r == Renderer { inline: r.inline, footnotes: r.footnotes, ..*self }
                },
                MdEvent::TaskListMarker(c) => self.task_marked(r, c),
                MdEvent::InlineHtml(t) => self.html_done(r, t@),
            }
        }
    }

    /// The state of `r` after the inline HTML `html` here. A comment changes nothing;
    /// `<br>` breaks the line; a formatting tag sets its style until its closing tag (a
    /// self-closing one does nothing); `<a href>` opens a link and `</a>` closes it;
    /// `<img>` becomes an image link showing its alternative text; any other tag is
    /// shown dimmed.
    spec fn html_done(&self, r: Renderer, html: Seq<char>) -> bool {
        let t = crate::html::trim_ws(html);
        let name = crate::html::tag_name(t);
        let closing = crate::url::starts_with(t, "</"@);
        let top = self.styles@.last();
        let iv = span_views(self.inline@);
        let href = crate::html::attr_from(t, "href"@, 0);
        let fmt = if html_format(name, self.pal.code) is Some {
            html_format(name, self.pal.code)
        } else if name == "a"@ && !closing && href is None {
            Some(plain_style())
        } else {
            None
        };
        if crate::url::starts_with(t, "<!--"@) {
            r == *self
        } else if name == "br"@ {
            r.only_inline_changed(*self) && span_views(r.inline@) == crate::wrap::push_str_line(iv, "\n"@, top)
        } else if fmt is Some {
            if closing {
                if self.html_tags@.len() > 0 && self.html_tags@.last()@ == name {
                    &&& r.html_tags@ == self.html_tags@.drop_last()
                    &&& r.styles@ == self.popped_styles()
                    &&& r == Renderer { html_tags: r.html_tags, styles: r.styles, ..*self }
                } else {
                    r == *self
                }
            } else if ends_with(t, "/>"@) {
                r == *self
            } else {
                &&& r.html_tags@.len() == self.html_tags@.len() + 1
                &&& r.html_tags@.drop_last() == self.html_tags@
                &&& r.html_tags@.last()@ == name
                &&& r.styles@ == self.styles@.push(patched(top, fmt->0))
                &&& r == Renderer { html_tags: r.html_tags, styles: r.styles, ..*self }
            }
        } else if name == "a"@ && !closing {
            let h = href->0;
            &&& self.link_opened(r, resolved(h, self.base()), !self.cfg.hyperlinks && !crate::url::starts_with(h, "#"@))
            &&& r.styles@ == self.styles@.push(patched(top, Style { link: (self.nlinks() + 1) as u32, ..self.pal.link }))
            &&& r.html_tags@.len() == self.html_tags@.len() + 1
            &&& r.html_tags@.drop_last() == self.html_tags@
            &&& r.html_tags@.last()@ == name
            &&& r == Renderer { html_tags: r.html_tags, styles: r.styles, links: r.links, w: r.w, ..*self }
        } else if name == "a"@ {
            if self.html_tags@.len() > 0 && self.html_tags@.last()@ == "a"@ {
                &&& r.html_tags@ == self.html_tags@.drop_last()
                &&& self.ended(Renderer { html_tags: self.html_tags, ..r }, MdTagEnd::Link)
            } else {
                r == *self
            }
        } else if name == "img"@ {
            let url = match crate::html::attr_from(t, "src"@, 0) {
                Some(src) => resolved(src, self.base()),
                None => Seq::empty(),
            };
            let alt = match crate::html::attr_from(t, "alt"@, 0) {
                Some(a) => a,
                None => Seq::empty(),
            };
            let id = (self.nlinks() + 1) as u32;
            let inner = patched(top, Style { link: id, italic: true, ..self.pal.link });
            let v = crate::wrap::push_str_line(iv.push(("[image: "@, patched(inner, self.pal.dim))), alt, inner);
            &&& span_views(r.inline@) == closed_link(v, id, url, iv.len() as int, !self.cfg.hyperlinks, top, self.pal.dim, true)
            &&& r.w.links@.len() == self.w.links@.len() + 1
            &&& r.w.links@.drop_last() == self.w.links@
            &&& r.w.links@.last()@ == url
            &&& r.links@ == self.links@
            &&& r.styles@ == self.styles@
            &&& r == Renderer { inline: r.inline, w: r.w, links: r.links, styles: r.styles, ..*self }
        } else {
            r.only_inline_changed(*self) && span_views(r.inline@) == iv.push((html, patched(top, self.pal.dim)))
        }
    }

    /// The state of `r` after the start of `tag`, the element at `i` of `events`, here.
    spec fn started(&self, r: Renderer, events: Seq<MdEvent>, i: int, tag: MdTag) -> bool {
        &&& r.cfg == self.cfg
        &&& r.pal == self.pal
        &&& r.w.mode == self.w.mode
        &&& r.w.hyperlinks == self.w.hyperlinks
        &&& r.html_tags == self.html_tags
        &&& r.highlighter == self.highlighter
        &&& r.styles@ == self.styles_after_start(tag)
        &&& self.containers_after_start(r, tag)
        &&& r.lists@ == self.lists_after_start(events, i, tag)
        &&& self.table_after_start(r, tag)
        &&& self.links_after_start(r, tag)
        &&& self.flow_after_start(r, tag)
        &&& match tag {
            MdTag::CodeBlock(k) => r.code matches Some((l, b)) && l@ == code_lang(k) && b@.len() == 0,
            _ => r.code == self.code,
        }
        &&& match tag {
            MdTag::HtmlBlock => r.html matches Some(b) && b@.len() == 0,
            _ => r.html == self.html,
        }
        &&& r.heading == match tag {
            MdTag::Heading(l) => Some(l),
            _ => self.heading,
        }
        &&& r.skip_depth == if tag is MetadataBlock { 1 } else { self.skip_depth }
        &&& match tag {
            MdTag::FootnoteDefinition(label) => if footnote_no(self.footnotes@, label@, 0) <= self.footnotes@.len() {
                r.footnotes == self.footnotes
            } else {
                &&& r.footnotes@.len() == self.footnotes@.len() + 1
                &&& r.footnotes@.drop_last() == self.footnotes@
                &&& r.footnotes@.last()@ == label@
            },
            _ => r.footnotes == self.footnotes,
        }
    }
}

/// With colors, a document that has a code block needs the highlighter.
pub open spec fn needs_highlighter(events: Seq<MdEvent>, mode: ColorMode) -> bool {
    mode != ColorMode::NoColor && exists|i: int|
        0 <= i < events.len() && #[trigger] events[i] matches MdEvent::Start(MdTag::CodeBlock(_))
}

/// The message for a code theme that does not exist.
pub open spec fn unknown_theme(theme: Seq<char>) -> Seq<char> {
    "unknown theme '"@ + theme + "' (see --list-themes)"@
}

fn has_code_block(events: &Vec<MdEvent>) -> (r: bool)
    ensures
        r == exists|i: int| 0 <= i < events@.len() && #[trigger] events@[i] matches MdEvent::Start(MdTag::CodeBlock(_)),
{
    let mut i: usize = 0;
    while i < events.len()
        invariant
            i <= events@.len(),
            forall|j: int| 0 <= j < i ==> !(#[trigger] events@[j] matches MdEvent::Start(MdTag::CodeBlock(_))),
        decreases events@.len() - i,
    {
        if let MdEvent::Start(MdTag::CodeBlock(_)) = &events[i] {
            assert(events@[i as int] matches MdEvent::Start(MdTag::CodeBlock(_)));
            return true;
        }
        i += 1;
    }
    false
}

/// The first state of a rendering with `cfg`: nothing written, pending or open, the
/// plain style as the base style.
spec fn initial(r: Renderer, cfg: Config) -> bool {
    &&& r.cfg == cfg
    &&& r.pal == palette(cfg.light)
    &&& r.w.mode == cfg.mode
    &&& r.w.hyperlinks == cfg.hyperlinks
    &&& r.w.links@.len() == 0
    &&& r.out@.len() == 0
    &&& r.containers@.len() == 0
    &&& r.used@.len() == 0
    &&& r.lists@.len() == 0
    &&& r.inline@.len() == 0
    &&& r.styles@ == seq![plain_style()]
    &&& !r.pending_blank
    &&& !r.wrote_any
    &&& r.code is None
    &&& r.html is None
    &&& r.table is None
    &&& r.heading is None
    &&& r.links@.len() == 0
    &&& r.html_tags@.len() == 0
    &&& r.footnotes@.len() == 0
    &&& r.skip_depth == 0
}

/// `trace` is a run of the renderer over `events` with `cfg` that writes `out`: it starts
/// in the first state, each next state is the previous one after handling the next event,
/// and `out` is the last state's output once its pending spans are written.
spec fn rendering(trace: Seq<Renderer>, events: Seq<MdEvent>, cfg: Config, out: Seq<char>) -> bool {
    &&& trace.len() == events.len() + 1
    &&& initial(trace[0], cfg)
    &&& forall|k: int| 0 <= k < events.len() ==> #[trigger] trace[k].handled(trace[k + 1], events, k)
    &&& out == trace.last().flushed_out()
}

/// `out` is what rendering `events` with `cfg` writes: the output of a run of the renderer
/// that handles the events one by one, as each step's contract states.
pub closed spec fn renders(events: Seq<MdEvent>, cfg: Config, out: Seq<char>) -> bool {
    exists|trace: Seq<Renderer>| #[trigger] rendering(trace, events, cfg, out)
}

/// The list scan reads only the events from where it starts.
proof fn lemma_list_scan_shift(a: Seq<MdEvent>, i: int, b: Seq<MdEvent>, j: int, depth: int)
    requires
        0 <= i <= a.len(),
        0 <= j <= b.len(),
        a.skip(i) == b.skip(j),
    ensures
        list_scan(a, i, depth) == list_scan(b, j, depth),
    decreases a.len() - i,
{
    assert(a.skip(i).len() == b.skip(j).len());
    assert(a.skip(i).len() == a.len() - i);
    assert(b.skip(j).len() == b.len() - j);
    if i < a.len() {
        assert(j < b.len());
        assert(a[i] == a.skip(i)[0]);
        assert(b[j] == b.skip(j)[0]);
        assert(a.skip(i + 1) =~= a.skip(i).skip(1));
        assert(b.skip(j + 1) =~= b.skip(j).skip(1));
        if i + 1 < a.len() {
            assert(a[i + 1] == a.skip(i)[1]);
            assert(b[j + 1] == b.skip(j)[1]);
        }
        lemma_list_scan_shift(a, i + 1, b, j + 1, depth + 1);
        lemma_list_scan_shift(a, i + 1, b, j + 1, depth - 1);
        lemma_list_scan_shift(a, i + 1, b, j + 1, depth);
    }
}

/// Handling an event reads only the events from it on.
proof fn lemma_handled_shift(s: Renderer, r: Renderer, a: Seq<MdEvent>, i: int, b: Seq<MdEvent>, j: int)
    requires
        0 <= i < a.len(),
        0 <= j <= b.len(),
        a.skip(i) == b.skip(j),
    ensures
        s.handled(r, a, i) == s.handled(r, b, j),
{
    assert(a.skip(i).len() == b.skip(j).len());
    assert(a.skip(i).len() == a.len() - i);
    assert(b.skip(j).len() == b.len() - j);
    assert(j < b.len());
    assert(a[i] == a.skip(i)[0]);
    assert(b[j] == b.skip(j)[0]);
    assert(a.skip(i + 1) =~= a.skip(i).skip(1));
    assert(b.skip(j + 1) =~= b.skip(j).skip(1));
    lemma_list_scan_shift(a, i + 1, b, j + 1, 0);
    assert forall|tag: MdTag| #[trigger] s.lists_after_start(a, i, tag) == s.lists_after_start(b, j, tag) by {}
    assert forall|tag: MdTag| #[trigger] s.started(r, a, i, tag) == s.started(r, b, j, tag) by {
        assert(s.lists_after_start(a, i, tag) == s.lists_after_start(b, j, tag));
    }
}

/// Inside skipped content, events that open or close nothing leave the state as it is.
proof fn lemma_skip_run(t: Seq<Renderer>, ev: Seq<MdEvent>, from: int, to: int)
    requires
        0 <= from <= to < t.len(),
        to <= ev.len(),
        t[from].skip_depth > 0,
        forall|k: int| from <= k < to ==> #[trigger] t[k].handled(t[k + 1], ev, k),
        forall|k: int| from <= k < to ==> !(#[trigger] ev[k] is Start) && !(ev[k] is End),
    ensures
        t[to] == t[from],
    decreases to - from,
{
    if from < to {
        lemma_skip_run(t, ev, from, to - 1);
        let k = to - 1;
        assert(t[k].handled(t[k + 1], ev, k));
        assert(!(ev[k] is Start) && !(ev[k] is End));
        assert(t[k + 1] == Renderer { skip_depth: t[k].skip_depth, ..t[k] });
    }
}

/// The events of a metadata block holding `inner`.
pub open spec fn front_matter(inner: Seq<MdEvent>) -> Seq<MdEvent> {
    seq![MdEvent::Start(MdTag::MetadataBlock)] + inner + seq![MdEvent::End(MdTagEnd::MetadataBlock)]
}

/// A metadata block's start from a state that skips nothing only starts skipping.
proof fn lemma_front_start(s0: Renderer, s1: Renderer, ev: Seq<MdEvent>)
    requires
        ev.len() > 0,
        ev[0] == MdEvent::Start(MdTag::MetadataBlock),
        s0.skip_depth == 0,
        s0.code is None,
        s0.html is None,
    ensures
        s0.handled(s1, ev, 0) ==> s0.started(s1, ev, 0, MdTag::MetadataBlock),
        s0.handled(Renderer { skip_depth: 1usize, ..s0 }, ev, 0),
{
    let s1x = Renderer { skip_depth: 1usize, ..s0 };
    assert(s0.lists_after_start(ev, 0, MdTag::MetadataBlock) == s0.lists@);
    assert(s0.started(s1x, ev, 0, MdTag::MetadataBlock));
}

/// The states that a skipped front matter passes through, from `s0`.
spec fn front_trace(s0: Renderer, n: int, t: Seq<Renderer>) -> Seq<Renderer> {
    seq![s0] + Seq::new((n + 1) as nat, |k: int| Renderer { skip_depth: 1usize, ..s0 }) + t
}

#[verifier::spinoff_prover]
#[verifier::rlimit(60)]
proof fn lemma_front_matter_back(inner: Seq<MdEvent>, rest: Seq<MdEvent>, cfg: Config, out: Seq<char>)
    requires
        forall|k: int| 0 <= k < inner.len() ==> !(#[trigger] inner[k] is Start) && !(inner[k] is End),
        renders(rest, cfg, out),
    ensures
        renders(front_matter(inner) + rest, cfg, out),
{
    let fm = front_matter(inner);
    let ev = fm + rest;
    let m = fm.len() as int;
    assert(m == inner.len() + 2);
    let t = choose|trace: Seq<Renderer>| #[trigger] rendering(trace, rest, cfg, out);
    let s0 = t[0];
    let s1 = Renderer { skip_depth: 1usize, ..s0 };
    let big = front_trace(s0, inner.len() as int, t);
    assert(big.len() == ev.len() + 1);
    assert forall|k: int| 0 <= k < ev.len() implies #[trigger] big[k].handled(big[k + 1], ev, k) by {
        if k == 0 {
            assert(ev[0] == MdEvent::Start(MdTag::MetadataBlock));
            assert(big[0] == s0 && big[1] == s1);
            lemma_front_start(s0, s1, ev);
        } else if k < m - 1 {
            assert(ev[k] == inner[k - 1]);
            assert(big[k] == s1 && big[k + 1] == s1);
        } else if k == m - 1 {
            assert(ev[k] == MdEvent::End(MdTagEnd::MetadataBlock));
            assert(big[k] == s1 && big[k + 1] == s0);
            assert(s0 == Renderer { skip_depth: 0usize, ..s1 });
        } else {
            assert(big[k] == t[k - m] && big[k + 1] == t[k - m + 1]);
            assert(t[k - m].handled(t[k - m + 1], rest, k - m));
            assert(ev.skip(k) =~= rest.skip(k - m));
            lemma_handled_shift(t[k - m], t[k - m + 1], ev, k, rest, k - m);
        }
    }
    assert(big.last() == t.last());
    assert(rendering(big, ev, cfg, out));
}

#[verifier::spinoff_prover]
#[verifier::rlimit(60)]
proof fn lemma_front_matter_forth(inner: Seq<MdEvent>, rest: Seq<MdEvent>, cfg: Config, out: Seq<char>)
    requires
        forall|k: int| 0 <= k < inner.len() ==> !(#[trigger] inner[k] is Start) && !(inner[k] is End),
        renders(front_matter(inner) + rest, cfg, out),
    ensures
        renders(rest, cfg, out),
{
    let fm = front_matter(inner);
    let ev = fm + rest;
    let m = fm.len() as int;
    assert(m == inner.len() + 2);
    let big = choose|trace: Seq<Renderer>| #[trigger] rendering(trace, ev, cfg, out);
    assert(ev[0] == MdEvent::Start(MdTag::MetadataBlock));
    assert(big[0].handled(big[1], ev, 0));
    lemma_front_start(big[0], big[1], ev);
    assert forall|k: int| 1 <= k < m - 1 implies !(#[trigger] ev[k] is Start) && !(ev[k] is End) by {
        assert(ev[k] == inner[k - 1]);
    }
    assert forall|k: int| 1 <= k < m - 1 implies #[trigger] big[k].handled(big[k + 1], ev, k) by {}
    lemma_skip_run(big, ev, 1, m - 1);
    assert(ev[m - 1] == MdEvent::End(MdTagEnd::MetadataBlock));
    assert(big[m - 1].handled(big[m], ev, m - 1));
    assert(big[m] == Renderer { skip_depth: 0usize, ..big[1] });
    let t = big.skip(m);
    assert(t[0] == big[m]);
    assert(initial(t[0], cfg));
    assert forall|k: int| 0 <= k < rest.len() implies #[trigger] t[k].handled(t[k + 1], rest, k) by {
        assert(t[k] == big[k + m] && t[k + 1] == big[k + m + 1]);
        assert(big[k + m].handled(big[k + m + 1], ev, k + m));
        assert(ev.skip(k + m) =~= rest.skip(k));
        lemma_handled_shift(big[k + m], big[k + m + 1], ev, k + m, rest, k);
    }
    assert(t.last() == big.last());
    assert(rendering(t, rest, cfg, out));
}

/// Front matter is hidden: a metadata block at the very start of the events, holding
/// no elements of its own, leaves the output as it is without it.
pub proof fn lemma_front_matter_hidden(inner: Seq<MdEvent>, rest: Seq<MdEvent>, cfg: Config, out: Seq<char>)
    requires
        forall|k: int| 0 <= k < inner.len() ==> !(#[trigger] inner[k] is Start) && !(inner[k] is End),
    ensures
        renders(front_matter(inner) + rest, cfg, out) <==> renders(rest, cfg, out),
{
    if renders(rest, cfg, out) {
        lemma_front_matter_back(inner, rest, cfg, out);
    }
    if renders(front_matter(inner) + rest, cfg, out) {
        lemma_front_matter_forth(inner, rest, cfg, out);
    }
}

/// Renders markdown events for the terminal. `greedy` proposes column widths for tables
/// that are too wide (it is one of several layouts tried; any proposal is checked).
pub fn render_events<G: Fn(&Fitter) -> Vec<usize>>(events: &Vec<MdEvent>, cfg: Config, greedy: &G) -> (r: Result<String, String>)
    requires
        crate::markdown::events_wf(events@),
        forall|f: &Fitter| #[trigger] greedy.requires((f,)),
    ensures
        r is Err <==> needs_highlighter(events@, cfg.mode) && !crate::highlight::embedded_theme(cfg.theme@),
        r matches Err(e) ==> e@ == unknown_theme(cfg.theme@),
        r matches Ok(out) ==> whole_lines(out@) && renders(events@, cfg, out@),
{
    let ghost c0 = cfg;
    let has_code = cfg.mode != ColorMode::NoColor && has_code_block(events);
    let highlighter = if has_code {
        match Highlighter::new(cfg.theme.as_str()) {
            Ok(h) => Some(h),
            Err(e) => {
                proof {
                    reveal_strlit("unknown theme '");
                    reveal_strlit("' (see --list-themes)");
                }
                return Err(e);
            },
        }
    } else {
        None
    };
    let pal = Palette::new(cfg.light);
    let w = Writer { mode: cfg.mode, hyperlinks: cfg.hyperlinks, links: Vec::new() };
    let mut styles: Vec<Style> = Vec::new();
    styles.push(Style::default());
    let mut r = Renderer {
        cfg,
        pal,
        w,
        out: String::new(),
        containers: Vec::new(),
        used: Vec::new(),
        lists: Vec::new(),
        inline: Vec::new(),
        styles,
        pending_blank: false,
        wrote_any: false,
        code: None,
        html: None,
        table: None,
        heading: None,
        links: Vec::new(),
        html_tags: Vec::new(),
        footnotes: Vec::new(),
        highlighter,
        skip_depth: 0,
    };
    let ghost mut trace: Seq<Renderer> = seq![r];
    assert(initial(trace[0], c0));
    let mut i: usize = 0;
    while i < events.len()
        invariant
            r.wf(),
            crate::markdown::events_wf(events@),
            forall|f: &Fitter| #[trigger] greedy.requires((f,)),
            i <= events@.len(),
            trace.len() == i + 1,
            initial(trace[0], c0),
            trace.last() == r,
            forall|k: int| 0 <= k < i ==> #[trigger] trace[k].handled(trace[k + 1], events@, k),
        decreases events@.len() - i,
    {
        let ghost before = r;
        r.event(events, i, greedy);
        proof {
            let t2 = trace.push(r);
            assert forall|k: int| 0 <= k < i + 1 implies #[trigger] t2[k].handled(t2[k + 1], events@, k) by {
                if k < i {
                    assert(t2[k] == trace[k] && t2[k + 1] == trace[k + 1]);
                } else {
                    assert(t2[k] == before && t2[k + 1] == r);
                }
            }
            trace = t2;
        }
        i += 1;
    }
    r.flush_inline();
    assert(rendering(trace, events@, c0, r.out@));
    Ok(r.out)
}

/// Renders markdown source for the terminal (see `render_events`).
pub fn render<G: Fn(&Fitter) -> Vec<usize>>(src: &str, cfg: Config, greedy: &G) -> (r: Result<String, String>)
    requires
        forall|f: &Fitter| #[trigger] greedy.requires((f,)),
    ensures
        r is Err <==> needs_highlighter(markdown_events(src@, parser_bits()), cfg.mode)
            && !crate::highlight::embedded_theme(cfg.theme@),
        r matches Err(e) ==> e@ == unknown_theme(cfg.theme@),
        r matches Ok(out) ==> whole_lines(out@) && renders(markdown_events(src@, parser_bits()), cfg, out@),
{
    let events = crate::markdown::parse(src);
    render_events(&events, cfg, greedy)
}

} // verus!
