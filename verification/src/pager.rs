//! The built-in pager's state machine: scrolling, search, status bar and
//! re-layout on resize. Reading terminal events and writing frames is left to
//! the caller, which feeds events in and writes out what `frame` returns.

use vstd::arithmetic::div_mod::{
    lemma_div_by_multiple, lemma_div_is_ordered, lemma_div_pos_is_pos, lemma_fundamental_div_mod,
    lemma_mod_pos_bound,
};
use vstd::arithmetic::mul::{lemma_mul_inequality, lemma_mul_is_commutative, lemma_mul_nonnegative, lemma_mul_upper_bound};
use vstd::prelude::*;

use crate::ansi::{find_in, find_in_str, highlight, highlighted, strip_ansi, stripped};
use crate::style::{char_cols, char_width, str_width, unicode_str_width};
use crate::text::{chars_of, decimal, push_char_to, push_chars, push_decimal, push_repeat, push_str, repeat, string_of};

verus! {

/// Lines scrolled per mouse-wheel step.
pub const WHEEL_LINES: usize = 3;

/// Pager settings.
pub struct Options {
    pub title: String,
    /// Capture the mouse (reliable wheel scrolling, but the terminal then needs a
    /// modifier key for text selection and link clicks). Otherwise we rely on
    /// "alternate scroll mode", where the terminal turns the wheel into arrow keys.
    pub mouse: bool,
    /// Whether the document can be re-rendered for a new terminal width.
    pub rerender: bool,
}

/// `s` with one trailing carriage return removed.
pub open spec fn trim_cr(s: Seq<char>) -> Seq<char> {
    if s.len() > 0 && s.last() == '\r' {
        s.drop_last()
    } else {
        s
    }
}

/// Index of the first line feed in `s` at or after `i`.
pub open spec fn newline_from(s: Seq<char>, i: int) -> Option<int>
    decreases s.len() - i,
{
    if i < 0 || i >= s.len() {
        None
    } else if s[i] == '\n' {
        Some(i)
    } else {
        newline_from(s, i + 1)
    }
}

/// The lines of `s` (`str::lines`): split at line feeds, a carriage return
/// before a line feed dropped, no empty line after a final line feed.
pub open spec fn text_lines(s: Seq<char>) -> Seq<Seq<char>>
    decreases s.len(),
{
    if s.len() == 0 {
        Seq::empty()
    } else {
        match newline_from(s, 0) {
            Some(k) => if 0 <= k < s.len() {
                seq![trim_cr(s.take(k))] + text_lines(s.skip(k + 1))
            } else {
                Seq::empty()
            },
            None => seq![s],
        }
    }
}

pub proof fn lemma_newline_from(s: Seq<char>, i: int)
    requires
        i >= 0,
    ensures
        newline_from(s, i) matches Some(k) ==> i <= k < s.len() && s[k] == '\n',
        newline_from(s, i) is None ==> forall|k: int| i <= k < s.len() ==> s[k] != '\n',
    decreases s.len() - i,
{
    if i < s.len() && s[i] != '\n' {
        lemma_newline_from(s, i + 1);
    }
}

/// A document split into lines, with each line's text without escape sequences
/// kept for searching.
pub struct Doc {
    pub lines: Vec<String>,
    /// Lines with escape sequences stripped, for searching.
    pub plain: Vec<String>,
}

/// The views of a vector of strings.
pub open spec fn strings_view(v: Seq<String>) -> Seq<Seq<char>> {
    v.map_values(|s: String| s@)
}

impl Doc {
    pub open spec fn line_texts(&self) -> Seq<Seq<char>> {
        strings_view(self.lines@)
    }

    pub open spec fn plain_texts(&self) -> Seq<Seq<char>> {
        strings_view(self.plain@)
    }

    /// The lines of `text` and, for each, the line without escape sequences.
    pub open spec fn describes(&self, text: Seq<char>) -> bool {
        &&& self.line_texts() == text_lines(text)
        &&& self.plain_texts() == text_lines(text).map_values(|l: Seq<char>| stripped(l))
    }

    pub fn new(text: &str) -> (r: Doc)
        ensures
            r.describes(text@),
    {
        let v = chars_of(text);
        let n = v.len();
        let mut lines: Vec<String> = Vec::new();
        let mut plain: Vec<String> = Vec::new();
        let mut start: usize = 0;
        assert(v@.skip(0) == v@);
        while start < n
            invariant
                start <= n,
                n == v@.len(),
                text_lines(v@) == strings_view(lines@) + text_lines(v@.skip(start as int)),
                strings_view(plain@) == strings_view(lines@).map_values(|l: Seq<char>| stripped(l)),
            decreases n - start,
        {
            let ghost rest = v@.skip(start as int);
            let mut k = start;
            while k < n && v[k] != '\n'
                invariant
                    start <= k <= n,
                    n == v@.len(),
                    rest == v@.skip(start as int),
                    newline_from(rest, 0) == newline_from(rest, (k - start) as int),
                decreases n - k,
            {
                k += 1;
            }
            let mut end = k;
            if k < n {
                if end > start && v[end - 1] == '\r' {
                    end -= 1;
                }
            }
            let mut line = String::new();
            push_chars(&mut line, &v, start, end);
            let p = strip_ansi(line.as_str());
            let ghost before = strings_view(lines@);
            let ghost pbefore = strings_view(plain@);
            proof {
                if k < n {
                    assert(newline_from(rest, (k - start) as int) == Some((k - start) as int));
                    assert(rest.take((k - start) as int) == v@.subrange(start as int, k as int));
                    assert(rest.skip((k - start) + 1) == v@.skip(k + 1));
                    if k > start && v@[k - 1] == '\r' {
                        assert(trim_cr(v@.subrange(start as int, k as int)) == v@.subrange(start as int, end as int));
                    } else {
                        assert(trim_cr(v@.subrange(start as int, k as int)) == v@.subrange(start as int, end as int));
                    }
                } else {
                    assert(newline_from(rest, (k - start) as int) == None::<int>);
                    assert(rest == v@.subrange(start as int, end as int));
                    assert(v@.skip(n as int) == Seq::<char>::empty());
                }
            }
            lines.push(line);
            plain.push(p);
            assert(strings_view(lines@) == before.push(v@.subrange(start as int, end as int)));
            assert(strings_view(plain@) == pbefore.push(stripped(v@.subrange(start as int, end as int))));
            assert(strings_view(plain@) == strings_view(lines@).map_values(|l: Seq<char>| stripped(l)));
            if k < n {
                start = k + 1;
            } else {
                start = n;
            }
        }
        assert(text_lines(v@.skip(start as int)) == Seq::<Seq<char>>::empty());
        Doc { lines, plain }
    }
}

/// What the pager's input line is doing.
pub enum Input {
    Normal,
    /// Typing a search query.
    Search(String),
}

/// A key, as the pager distinguishes them.
#[derive(Clone, Copy, PartialEq, Eq, Debug, Structural)]
pub enum KeyCode {
    Char(char),
    Enter,
    Esc,
    Backspace,
    Up,
    Down,
    PageUp,
    PageDown,
    Home,
    End,
    Other,
}

/// A key press, with whether Control was held.
#[derive(Clone, Copy, PartialEq, Eq, Debug, Structural)]
pub struct Key {
    pub code: KeyCode,
    pub ctrl: bool,
}

/// The pager: a document, the first line shown, the terminal size, the input
/// line, the last search query and a message for the status bar.
pub struct Pager {
    pub opts: Options,
    pub doc: Doc,
    pub top: usize,
    pub cols: usize,
    pub rows: usize,
    pub input: Input,
    pub query: Option<String>,
    pub message: Option<String>,
}

/// Lines shown at once: all rows but the status bar, and at least one.
pub open spec fn page_of(rows: int) -> int {
    if rows - 1 < 1 { 1 } else { rows - 1 }
}

/// The last first-line that still fills the page.
pub open spec fn max_top_of(len: int, rows: int) -> int {
    if len - page_of(rows) < 0 { 0 } else { len - page_of(rows) }
}

/// `top + delta` clamped to `0..=usize::MAX`, then to `max_top`
/// (`saturating_add_signed` followed by `min`).
pub open spec fn scrolled(top: int, delta: int, max_top: int) -> int {
    let t = if top + delta < 0 { 0 } else if top + delta > usize::MAX { usize::MAX as int } else { top + delta };
    if t < max_top { t } else { max_top }
}

impl Pager {
    /// The pager's input line: `None` when not searching, the query typed so far otherwise.
    pub open spec fn search_view(&self) -> Option<Seq<char>> {
        match self.input {
            Input::Normal => None,
            Input::Search(q) => Some(q@),
        }
    }

    pub open spec fn query_view(&self) -> Option<Seq<char>> {
        match self.query {
            Some(q) => Some(q@),
            None => None,
        }
    }

    pub open spec fn message_view(&self) -> Option<Seq<char>> {
        match self.message {
            Some(m) => Some(m@),
            None => None,
        }
    }

    pub open spec fn page_spec(&self) -> int {
        page_of(self.rows as int)
    }

    pub open spec fn max_top_spec(&self) -> int {
        max_top_of(self.doc.lines@.len() as int, self.rows as int)
    }

    /// The pager's invariant: the first line shown never goes past the last full
    /// page, and every line has its plain-text copy.
    pub open spec fn well_formed(&self) -> bool {
        &&& self.top <= self.max_top_spec()
        &&& self.doc.lines@.len() == self.doc.plain@.len()
    }

    /// Everything but the first line shown is as in `other`.
    pub open spec fn same_but_top(&self, other: &Pager) -> bool {
        &&& self.doc.line_texts() == other.doc.line_texts()
        &&& self.doc.plain_texts() == other.doc.plain_texts()
        &&& self.cols == other.cols
        &&& self.rows == other.rows
        &&& self.search_view() == other.search_view()
        &&& self.query_view() == other.query_view()
        &&& self.message_view() == other.message_view()
        &&& self.opts.title@ == other.opts.title@
        &&& self.opts.mouse == other.opts.mouse
        &&& self.opts.rerender == other.opts.rerender
    }

    /// A pager at the top of `text`, for a terminal of `cols` by `rows`.
    pub fn new(text: &str, opts: Options, cols: usize, rows: usize) -> (p: Pager)
        ensures
            p.doc.describes(text@),
            p.top == 0,
            p.cols == cols,
            p.rows == rows,
            p.search_view() is None,
            p.query_view() is None,
            p.message_view() is None,
            p.opts == opts,
            p.well_formed(),
    {
        let doc = Doc::new(text);
        proof {
            assert(doc.line_texts().len() == doc.lines@.len());
            assert(doc.plain_texts().len() == doc.plain@.len());
        }
        Pager { opts, doc, top: 0, cols, rows, input: Input::Normal, query: None, message: None }
    }

    pub fn page(&self) -> (r: usize)
        ensures
            r == self.page_spec(),
    {
        let p = if self.rows >= 1 { self.rows - 1 } else { 0 };
        if p < 1 { 1 } else { p }
    }

    pub fn max_top(&self) -> (r: usize)
        ensures
            r == self.max_top_spec(),
    {
        let n = self.doc.lines.len();
        let p = self.page();
        if n >= p { n - p } else { 0 }
    }

    /// Scrolls by `delta` lines, staying within the document.
    pub fn scroll_by(&mut self, delta: isize)
        ensures
            final(self).top == scrolled(old(self).top as int, delta as int, old(self).max_top_spec()),
            final(self).same_but_top(old(self)),
            final(self).doc.lines@.len() == old(self).doc.lines@.len(),
            final(self).doc.plain@.len() == old(self).doc.plain@.len(),
            old(self).doc.lines@.len() == old(self).doc.plain@.len() ==> final(self).well_formed(),
    {
        let t: usize = if delta >= 0 {
            let d = delta as usize;
            if self.top > usize::MAX - d { usize::MAX } else { self.top + d }
        } else {
            let d = (-(delta as i128)) as usize;
            if self.top < d { 0 } else { self.top - d }
        };
        let m = self.max_top();
        self.top = if t < m { t } else { m };
    }

    /// Scrolls by a mouse-wheel step.
    pub fn wheel(&mut self, down: bool)
        ensures
            final(self).top == scrolled(old(self).top as int,
                if down { WHEEL_LINES as int } else { -(WHEEL_LINES as int) }, old(self).max_top_spec()),
            final(self).same_but_top(old(self)),
            final(self).doc.lines@.len() == old(self).doc.lines@.len(),
            final(self).doc.plain@.len() == old(self).doc.plain@.len(),
            old(self).doc.lines@.len() == old(self).doc.plain@.len() ==> final(self).well_formed(),
    {
        if down {
            self.scroll_by(WHEEL_LINES as isize);
        } else {
            self.scroll_by(-(WHEEL_LINES as isize));
        }
    }
}

/// The pager's changeable state: first line shown, the search query being typed
/// (if any), the last query and the status-bar message.
pub struct PagerView {
    pub top: int,
    pub search: Option<Seq<char>>,
    pub query: Option<Seq<char>>,
    pub message: Option<Seq<char>>,
}

/// Line visited at step `i` of a search from `top` over `n` lines, wrapping around.
pub open spec fn scan_index(top: int, n: int, forward: bool, i: int) -> int {
    if forward {
        (top + i) % n
    } else {
        (top + n - i % n) % n
    }
}

/// The first line matching `q` among steps `i..=n` of the scan.
pub open spec fn find_scan(plain: Seq<Seq<char>>, q: Seq<char>, top: int, forward: bool, i: int) -> Option<int>
    decreases plain.len() + 1 - i,
{
    if i < 0 || i > plain.len() || plain.len() == 0 {
        None
    } else {
        let idx = scan_index(top, plain.len() as int, forward, i);
        if find_in(plain[idx], q) is Some {
            Some(idx)
        } else {
            find_scan(plain, q, top, forward, i + 1)
        }
    }
}

/// The message shown when a search finds nothing.
pub open spec fn not_found_message(q: Seq<char>) -> Seq<char> {
    "Pattern not found: "@ + q
}

/// Jumping to the next (or previous) line matching the last query, wrapping
/// around; the current line is searched too when `with_current` is set. Without a match
/// the status bar says so.
pub open spec fn find_step(plain: Seq<Seq<char>>, rows: int, s: PagerView, forward: bool, with_current: bool) -> PagerView {
    match s.query {
        None => s,
        Some(q) => if plain.len() == 0 {
            s
        } else {
            match find_scan(plain, q, s.top, forward, if with_current { 0 } else { 1 }) {
                Some(idx) => {
                    let m = max_top_of(plain.len() as int, rows);
                    PagerView { top: if idx < m { idx } else { m }, ..s }
                },
                None => PagerView { message: Some(not_found_message(q)), ..s },
            }
        },
    }
}

/// What a key does outside of search input.
#[derive(Clone, Copy, PartialEq, Eq, Debug, Structural)]
pub enum Command {
    Quit,
    Scroll(isize),
    ToTop,
    ToBottom,
    StartSearch,
    FindNext,
    FindPrev,
    Nothing,
}

/// Integer halving rounded toward zero, as Rust's `/ 2`.
pub open spec fn half(x: int) -> int {
    if x >= 0 { x / 2 } else { -((-x) / 2) }
}

/// The command bound to a key, given the page height as a signed line count.
pub open spec fn command_for(k: Key, page: isize) -> Command {
    let c = k.code;
    if !k.ctrl && (c == KeyCode::Char('q') || c == KeyCode::Char('Q') || c == KeyCode::Esc) {
        Command::Quit
    } else if (!k.ctrl && (c == KeyCode::Char('j') || c == KeyCode::Down || c == KeyCode::Enter))
        || (k.ctrl && (c == KeyCode::Char('n') || c == KeyCode::Char('e'))) {
        Command::Scroll(1)
    } else if (!k.ctrl && (c == KeyCode::Char('k') || c == KeyCode::Up))
        || (k.ctrl && (c == KeyCode::Char('p') || c == KeyCode::Char('y'))) {
        Command::Scroll(-1isize)
    } else if (!k.ctrl && (c == KeyCode::Char(' ') || c == KeyCode::Char('f') || c == KeyCode::PageDown))
        || (k.ctrl && c == KeyCode::Char('f')) {
        Command::Scroll(page)
    } else if (!k.ctrl && (c == KeyCode::Char('b') || c == KeyCode::PageUp)) || (k.ctrl && c == KeyCode::Char('b')) {
        Command::Scroll((-page) as isize)
    } else if c == KeyCode::Char('d') {
        Command::Scroll(half(page as int) as isize)
    } else if c == KeyCode::Char('u') {
        Command::Scroll(half(-page) as isize)
    } else if !k.ctrl && (c == KeyCode::Char('g') || c == KeyCode::Char('<') || c == KeyCode::Home) {
        Command::ToTop
    } else if !k.ctrl && (c == KeyCode::Char('G') || c == KeyCode::Char('>') || c == KeyCode::End) {
        Command::ToBottom
    } else if !k.ctrl && c == KeyCode::Char('/') {
        Command::StartSearch
    } else if !k.ctrl && c == KeyCode::Char('n') {
        Command::FindNext
    } else if !k.ctrl && c == KeyCode::Char('N') {
        Command::FindPrev
    } else {
        Command::Nothing
    }
}

/// The command bound to a key.
pub fn command(k: Key, page: isize) -> (r: Command)
    requires
        page > isize::MIN,
    ensures
        r == command_for(k, page),
{
    let c = k.code;
    if !k.ctrl && (c == KeyCode::Char('q') || c == KeyCode::Char('Q') || c == KeyCode::Esc) {
        Command::Quit
    } else if (!k.ctrl && (c == KeyCode::Char('j') || c == KeyCode::Down || c == KeyCode::Enter))
        || (k.ctrl && (c == KeyCode::Char('n') || c == KeyCode::Char('e'))) {
        Command::Scroll(1)
    } else if (!k.ctrl && (c == KeyCode::Char('k') || c == KeyCode::Up))
        || (k.ctrl && (c == KeyCode::Char('p') || c == KeyCode::Char('y'))) {
        Command::Scroll(-1)
    } else if (!k.ctrl && (c == KeyCode::Char(' ') || c == KeyCode::Char('f') || c == KeyCode::PageDown))
        || (k.ctrl && c == KeyCode::Char('f')) {
        Command::Scroll(page)
    } else if (!k.ctrl && (c == KeyCode::Char('b') || c == KeyCode::PageUp)) || (k.ctrl && c == KeyCode::Char('b')) {
        Command::Scroll(-page)
    } else if c == KeyCode::Char('d') {
        Command::Scroll(page / 2)
    } else if c == KeyCode::Char('u') {
        Command::Scroll(-page / 2)
    } else if !k.ctrl && (c == KeyCode::Char('g') || c == KeyCode::Char('<') || c == KeyCode::Home) {
        Command::ToTop
    } else if !k.ctrl && (c == KeyCode::Char('G') || c == KeyCode::Char('>') || c == KeyCode::End) {
        Command::ToBottom
    } else if !k.ctrl && c == KeyCode::Char('/') {
        Command::StartSearch
    } else if !k.ctrl && c == KeyCode::Char('n') {
        Command::FindNext
    } else if !k.ctrl && c == KeyCode::Char('N') {
        Command::FindPrev
    } else {
        Command::Nothing
    }
}

/// The page height as the signed line count that scrolling uses.
pub open spec fn page_delta(rows: int) -> isize {
    page_of(rows) as isize
}

/// The effect of a key press and whether the pager keeps running. Control-C
/// quits at once; while a query is typed, keys edit it (Enter searches for it,
/// Escape or Backspace on an empty query leaves search input); otherwise the
/// message is cleared and the key's command runs.
pub open spec fn key_step(plain: Seq<Seq<char>>, rows: int, s: PagerView, k: Key) -> (PagerView, bool) {
    if k.ctrl && k.code == KeyCode::Char('c') {
        (s, false)
    } else {
        match s.search {
            Some(q) => {
                let s1 = if k.code == KeyCode::Enter {
                    find_step(plain, rows,
                        PagerView { search: None, query: if q.len() > 0 { Some(q) } else { s.query }, ..s },
                        true, true)
                } else if k.code == KeyCode::Esc {
                    PagerView { search: None, ..s }
                } else if k.code == KeyCode::Backspace {
                    if q.len() == 0 {
                        PagerView { search: None, ..s }
                    } else {
                        PagerView { search: Some(q.drop_last()), ..s }
                    }
                } else {
                    match k.code {
                        KeyCode::Char(c) => PagerView { search: Some(q.push(c)), ..s },
                        _ => s,
                    }
                };
                (s1, true)
            },
            None => {
                let s0 = PagerView { message: None, ..s };
                let m = max_top_of(plain.len() as int, rows);
                match command_for(k, page_delta(rows)) {
                    Command::Quit => (s0, false),
                    Command::Scroll(d) => (PagerView { top: scrolled(s0.top, d as int, m), ..s0 }, true),
                    Command::ToTop => (PagerView { top: 0, ..s0 }, true),
                    Command::ToBottom => (PagerView { top: m, ..s0 }, true),
                    Command::StartSearch => (PagerView { search: Some(Seq::empty()), ..s0 }, true),
                    Command::FindNext => (find_step(plain, rows, s0, true, false), true),
                    Command::FindPrev => (find_step(plain, rows, s0, false, false), true),
                    Command::Nothing => (s0, true),
                }
            },
        }
    }
}

/// A key that moves the view one line up: `k` or Up, or Control with `p` or `y`.
pub open spec fn line_up_key(k: Key) -> bool {
    (!k.ctrl && (k.code == KeyCode::Char('k') || k.code == KeyCode::Up))
        || (k.ctrl && (k.code == KeyCode::Char('p') || k.code == KeyCode::Char('y')))
}

/// A key that moves the view one line down: `j`, Down or Enter, or Control with `n` or `e`.
pub open spec fn line_down_key(k: Key) -> bool {
    (!k.ctrl && (k.code == KeyCode::Char('j') || k.code == KeyCode::Down || k.code == KeyCode::Enter))
        || (k.ctrl && (k.code == KeyCode::Char('n') || k.code == KeyCode::Char('e')))
}

/// A key that moves the view a page down: space, `f` or PageDown, or Control with `f`.
pub open spec fn page_down_key(k: Key) -> bool {
    (!k.ctrl && (k.code == KeyCode::Char(' ') || k.code == KeyCode::Char('f') || k.code == KeyCode::PageDown))
        || (k.ctrl && k.code == KeyCode::Char('f'))
}

/// A key that moves the view a page up: `b` or PageUp, or Control with `b`.
pub open spec fn page_up_key(k: Key) -> bool {
    (!k.ctrl && (k.code == KeyCode::Char('b') || k.code == KeyCode::PageUp)) || (k.ctrl && k.code == KeyCode::Char('b'))
}

/// The first line shown after moving `n` lines from `top` (up where `n` is negative),
/// stopping at the first line and at the last full page `m`.
pub open spec fn moved_top(top: int, n: int, m: int) -> int {
    if top + n < 0 {
        0
    } else if top + n > m {
        m
    } else {
        top + n
    }
}

/// Scrolling keys, outside search input: a line key moves the view one line (up for
/// `k`, Up, Ctrl-P, Ctrl-Y; down for `j`, Down, Enter, Ctrl-N, Ctrl-E), a page key a
/// page (one line less than the screen), `d` and `u` half a page down and up, and `g`
/// and `G` to the first line and the last full page; the view never leaves `0..=m`,
/// and the pager keeps running.
pub proof fn lemma_scroll_keys(plain: Seq<Seq<char>>, rows: int, s: PagerView, k: Key)
    requires
        s.search is None,
        1 <= rows <= isize::MAX,
        plain.len() <= usize::MAX,
        0 <= s.top <= max_top_of(plain.len() as int, rows),
    ensures
        ({
            let m = max_top_of(plain.len() as int, rows);
            let p = page_of(rows);
            let r = key_step(plain, rows, s, k);
            &&& line_up_key(k) ==> r.0.top == moved_top(s.top, -1, m) && r.1
            &&& line_down_key(k) ==> r.0.top == moved_top(s.top, 1, m) && r.1
            &&& page_down_key(k) ==> r.0.top == moved_top(s.top, p, m) && r.1
            &&& page_up_key(k) ==> r.0.top == moved_top(s.top, -p, m) && r.1
            &&& k.code == KeyCode::Char('d') ==> r.0.top == moved_top(s.top, p / 2, m) && r.1
            &&& k.code == KeyCode::Char('u') ==> r.0.top == moved_top(s.top, -(p / 2), m) && r.1
            &&& !k.ctrl && (k.code == KeyCode::Char('g') || k.code == KeyCode::Home) ==> r.0.top == 0 && r.1
            &&& !k.ctrl && (k.code == KeyCode::Char('G') || k.code == KeyCode::End) ==> r.0.top == m && r.1
        }),
{
    let m = max_top_of(plain.len() as int, rows);
    let p = page_of(rows);
    assert(1 <= p <= isize::MAX);
    assert(page_delta(rows) as int == p);
    assert(m <= usize::MAX || m == max_top_of(plain.len() as int, rows));
}

/// The line keys go opposite ways, one line each: for every page height, `k` (and Up,
/// Ctrl-P, Ctrl-Y) scrolls by minus what `j` (and Down, Enter, Ctrl-N, Ctrl-E) scrolls
/// by, which is one line.
pub proof fn lemma_line_keys_opposite(up: Key, down: Key, page: isize)
    requires
        line_up_key(up),
        line_down_key(down),
    ensures
        command_for(down, page) == Command::Scroll(1),
        command_for(up, page) matches Command::Scroll(a) && command_for(down, page) matches Command::Scroll(b) && a == -b,
{
}

proof fn lemma_mod_small_sum(a: int, b: int, n: int)
    requires
        0 <= a < n,
        0 <= b < n,
    ensures
        (a + b) % n == (if a + b >= n { a + b - n } else { a + b }),
{
    if a + b >= n {
        vstd::arithmetic::div_mod::lemma_fundamental_div_mod_converse(a + b, n, 1, a + b - n);
    } else {
        vstd::arithmetic::div_mod::lemma_fundamental_div_mod_converse(a + b, n, 0, a + b);
    }
}

fn scan_index_exec(top: usize, n: usize, forward: bool, i: usize) -> (r: usize)
    requires
        top < n,
        i <= n,
    ensures
        r == scan_index(top as int, n as int, forward, i as int),
        r < n,
{
    let b = i % n;
    proof {
        vstd::arithmetic::div_mod::lemma_add_mod_noop_right(top as int, i as int, n as int);
        lemma_mod_small_sum(top as int, b as int, n as int);
        if b > 0 {
            lemma_mod_small_sum(top as int, (n - b) as int, n as int);
        }
    }
    if forward {
        if b >= n - top { b - (n - top) } else { top + b }
    } else {
        if b == 0 {
            proof {
                vstd::arithmetic::div_mod::lemma_fundamental_div_mod_converse(top + n, n as int, 1, top as int);
            }
            top
        } else if top >= b {
            top - b
        } else {
            top + (n - b)
        }
    }
}

impl Pager {
    pub open spec fn view_state(&self) -> PagerView {
        PagerView {
            top: self.top as int,
            search: self.search_view(),
            query: self.query_view(),
            message: self.message_view(),
        }
    }

    /// Everything but the view state is as in `other`.
    pub open spec fn same_setting(&self, other: &Pager) -> bool {
        &&& self.doc.line_texts() == other.doc.line_texts()
        &&& self.doc.plain_texts() == other.doc.plain_texts()
        &&& self.doc.lines@.len() == other.doc.lines@.len()
        &&& self.doc.plain@.len() == other.doc.plain@.len()
        &&& self.cols == other.cols
        &&& self.rows == other.rows
        &&& self.opts.title@ == other.opts.title@
        &&& self.opts.mouse == other.opts.mouse
        &&& self.opts.rerender == other.opts.rerender
    }

    /// Jumps to the next/previous line matching the query, wrapping around.
    pub fn find(&mut self, forward: bool, include_current: bool)
        requires
            old(self).well_formed(),
        ensures
            final(self).view_state() == find_step(old(self).doc.plain_texts(), old(self).rows as int,
                old(self).view_state(), forward, include_current),
            final(self).same_setting(old(self)),
            final(self).well_formed(),
    {
        let qs: String = match &self.query {
            Some(q) => q.as_str().to_owned(),
            None => return,
        };
        let n = self.doc.plain.len();
        if n == 0 {
            return;
        }
        let ghost plain = self.doc.plain_texts();
        let start: usize = if include_current { 0 } else { 1 };
        let top = self.top;
        assert(top < n);
        let mut i = start;
        loop
            invariant_except_break
                start <= i <= n,
                start == (if include_current { 0usize } else { 1usize }),
                n == self.doc.plain@.len(),
                n == plain.len(),
                top < n,
                plain == self.doc.plain_texts(),
                find_scan(plain, qs@, top as int, forward, start as int)
                    == find_scan(plain, qs@, top as int, forward, i as int),
                self.top == top,
                self.well_formed(),
                self.same_setting(old(self)),
                self.view_state() == old(self).view_state(),
                old(self).query_view() == Some(qs@),
            ensures
                find_scan(plain, qs@, top as int, forward, start as int) == None::<int>,
                self.top == top,
                self.well_formed(),
                self.same_setting(old(self)),
                self.view_state() == old(self).view_state(),
            decreases n + 1 - i,
        {
            let idx = scan_index_exec(top, n, forward, i);
            assert(plain[idx as int] == self.doc.plain@[idx as int]@);
            if find_in_str(self.doc.plain[idx].as_str(), qs.as_str()).is_some() {
                assert(find_scan(plain, qs@, top as int, forward, i as int) == Some(idx as int));
                let m = self.max_top();
                self.top = if idx < m { idx } else { m };
                return;
            }
            assert(find_scan(plain, qs@, top as int, forward, i as int)
                == find_scan(plain, qs@, top as int, forward, i + 1));
            if i == n {
                assert(find_scan(plain, qs@, top as int, forward, n + 1) == None::<int>);
                break;
            }
            i += 1;
        }
        let mut msg = String::new();
        push_str(&mut msg, "Pattern not found: ");
        push_str(&mut msg, qs.as_str());
        self.message = Some(msg);
    }
}

impl Pager {
    /// Handles a key press; returns false to quit.
    pub fn key(&mut self, k: Key) -> (r: bool)
        requires
            old(self).well_formed(),
            old(self).rows <= isize::MAX,
        ensures
            (final(self).view_state(), r) == key_step(old(self).doc.plain_texts(), old(self).rows as int,
                old(self).view_state(), k),
            final(self).same_setting(old(self)),
            final(self).well_formed(),
    {
        if k.ctrl && k.code == KeyCode::Char('c') {
            return false;
        }
        let searching = match &self.input {
            Input::Search(_) => true,
            Input::Normal => false,
        };
        if searching {
            let mut taken = Input::Normal;
            std::mem::swap(&mut taken, &mut self.input);
            let q = match taken {
                Input::Search(q) => q,
                Input::Normal => String::new(),
            };
            match k.code {
                KeyCode::Enter => {
                    if !q.as_str().is_empty() {
                        self.query = Some(q);
                    }
                    self.find(true, true);
                },
                KeyCode::Esc => {},
                KeyCode::Backspace => {
                    let v = chars_of(q.as_str());
                    if v.len() > 0 {
                        let mut shorter = String::new();
                        push_chars(&mut shorter, &v, 0, v.len() - 1);
                        assert(v@.subrange(0, v@.len() - 1) == v@.drop_last());
                        self.input = Input::Search(shorter);
                    }
                },
                KeyCode::Char(c) => {
                    let mut longer = q;
                    push_char_to(&mut longer, c);
                    self.input = Input::Search(longer);
                },
                _ => {
                    self.input = Input::Search(q);
                },
            }
            return true;
        }
        self.message = None;
        let page = self.page() as isize;
        match command(k, page) {
            Command::Quit => {
                return false;
            },
            Command::Scroll(d) => self.scroll_by(d),
            Command::ToTop => self.top = 0,
            Command::ToBottom => self.top = self.max_top(),
            Command::StartSearch => {
                self.input = Input::Search(String::new());
            },
            Command::FindNext => self.find(true, false),
            Command::FindPrev => self.find(false, false),
            Command::Nothing => {},
        }
        true
    }
}

/// `x / l` rounded to the nearest integer, halves rounded up.
pub open spec fn round_div(x: int, l: int) -> int {
    x / l + (if 2 * (x % l) >= l { 1int } else { 0int })
}

/// The first line that keeps the same relative position when a document of
/// `old_len` lines (at least one counted) becomes one of `new_len` lines.
pub open spec fn remapped_top(top: int, old_len: int, new_len: int) -> int {
    round_div(top * new_len, if old_len < 1 { 1 } else { old_len })
}

proof fn lemma_remapped_top(top: int, l: int, n: int)
    requires
        0 < l,
        0 <= top <= l,
        0 <= n,
    ensures
        0 <= round_div(top * n, l) <= n,
        top * n <= l * n,
{
    let x = top * n;
    lemma_mul_inequality(top, l, n);
    lemma_mul_nonnegative(top, n);
    lemma_mul_is_commutative(l, n);
    lemma_div_is_ordered(x, l * n, l);
    lemma_div_by_multiple(n, l);
    lemma_fundamental_div_mod(x, l);
    lemma_mod_pos_bound(x, l);
    lemma_div_pos_is_pos(x, l);
    if x / l == n {
        lemma_mul_is_commutative(l, x / l);
        assert(x % l == 0);
    }
}

impl Pager {
    /// Whether a resize to `cols` columns needs the document re-rendered.
    pub fn needs_rerender(&self, cols: usize) -> (r: bool)
        ensures
            r == (cols != self.cols && self.opts.rerender),
    {
        cols != self.cols && self.opts.rerender
    }

    /// Adapts to a new terminal size. When the width changed and the document
    /// can be re-rendered, `rendered` (the document laid out for `cols`) replaces
    /// it, keeping the same relative position; the first line shown is then kept
    /// within the document.
    pub fn resize(&mut self, cols: usize, rows: usize, rendered: Option<&str>)
        requires
            old(self).well_formed(),
        ensures
            final(self).cols == cols,
            final(self).rows == rows,
            final(self).search_view() == old(self).search_view(),
            final(self).query_view() == old(self).query_view(),
            final(self).message_view() == old(self).message_view(),
            final(self).opts == old(self).opts,
            final(self).well_formed(),
            ({
                let replace = cols != old(self).cols && old(self).opts.rerender && rendered is Some;
                if replace {
                    &&& final(self).doc.describes(rendered.unwrap()@)
                    &&& final(self).top == ({
                        let t = remapped_top(old(self).top as int, old(self).doc.lines@.len() as int,
                            final(self).doc.lines@.len() as int);
                        let m = final(self).max_top_spec();
                        if t < m { t } else { m }
                    })
                } else {
                    &&& final(self).doc.line_texts() == old(self).doc.line_texts()
                    &&& final(self).doc.plain_texts() == old(self).doc.plain_texts()
                    &&& final(self).doc.lines@.len() == old(self).doc.lines@.len()
                    &&& final(self).top == ({
                        let m = final(self).max_top_spec();
                        if (old(self).top as int) < m { old(self).top as int } else { m }
                    })
                }
            }),
    {
        let width_changed = cols != self.cols;
        self.cols = cols;
        self.rows = rows;
        if width_changed && self.opts.rerender {
            match rendered {
                Some(text) => {
                    let old_len = self.doc.lines.len();
                    let l: usize = if old_len < 1 { 1 } else { old_len };
                    let doc = Doc::new(text);
                    proof {
                        assert(doc.line_texts().len() == doc.lines@.len());
                        assert(doc.plain_texts().len() == doc.plain@.len());
                    }
                    let n = doc.lines.len();
                    let top = self.top;
                    proof {
                        lemma_remapped_top(top as int, l as int, n as int);
                        lemma_mul_upper_bound(l as int, usize::MAX as int, n as int, usize::MAX as int);
                        assert(usize::MAX * usize::MAX < u128::MAX) by (nonlinear_arith);
                    }
                    let x: u128 = top as u128 * n as u128;
                    let q = x / l as u128;
                    let r = x % l as u128;
                    let t = q + if 2 * r >= l as u128 { 1 } else { 0 };
                    self.doc = doc;
                    self.top = t as usize;
                },
                None => {},
            }
        }
        let m = self.max_top();
        if self.top > m {
            self.top = m;
        }
    }
}

/// How many leading characters of `s[i..]` fit, together with a one-column
/// ellipsis, in `width` columns when `w` columns are already used.
pub open spec fn fitting_len(s: Seq<char>, width: int, i: int, w: int) -> int
    decreases s.len() - i,
{
    if i < 0 || i >= s.len() {
        s.len() as int
    } else if w + char_cols(s[i]) + 1 > width {
        i
    } else {
        fitting_len(s, width, i + 1, w + char_cols(s[i]))
    }
}

/// `s` if it fits in `width` columns; otherwise its longest prefix that fits
/// together with a trailing ellipsis, then the ellipsis.
pub open spec fn truncated(s: Seq<char>, width: int) -> Seq<char> {
    if unicode_str_width(s) <= width {
        s
    } else {
        s.take(fitting_len(s, width, 0, 0)) + seq!['…']
    }
}

pub proof fn lemma_fitting_len(s: Seq<char>, width: int, i: int, w: int)
    requires
        0 <= i <= s.len(),
    ensures
        i <= fitting_len(s, width, i, w) <= s.len(),
    decreases s.len() - i,
{
    if i < s.len() && w + char_cols(s[i]) + 1 <= width {
        lemma_fitting_len(s, width, i + 1, w + char_cols(s[i]));
    }
}

/// Shortens `s` to `width` columns, ending it with an ellipsis when cut.
pub fn truncate(s: &str, width: usize) -> (r: String)
    ensures
        r@ == truncated(s@, width as int),
{
    if str_width(s) <= width {
        return s.to_owned();
    }
    let v = chars_of(s);
    let mut w: usize = 0;
    let mut i: usize = 0;
    while i < v.len()
        invariant_except_break
            i <= v@.len(),
            w <= width,
            fitting_len(v@, width as int, 0, 0) == fitting_len(v@, width as int, i as int, w as int),
        ensures
            i <= v@.len(),
            fitting_len(v@, width as int, 0, 0) == i,
        decreases v@.len() - i,
    {
        let cw = char_width(v[i]);
        if cw >= width - w {
            break;
        }
        w += cw;
        i += 1;
    }
    let mut out = String::new();
    push_chars(&mut out, &v, 0, i);
    assert(v@.subrange(0, i as int) == v@.take(i as int));
    push_char_to(&mut out, '…');
    out
}

/// `s` right-aligned in a field of `w` characters.
pub open spec fn right_aligned(s: Seq<char>, w: int) -> Seq<char> {
    if s.len() < w {
        repeat(' ', (w - s.len()) as nat) + s
    } else {
        s
    }
}

/// `a - b`, or zero when `b > a`.
pub open spec fn sat_sub(a: int, b: int) -> int {
    if a >= b { a - b } else { 0 }
}

/// `a + b`, at most `usize::MAX`.
pub open spec fn sat_add(a: int, b: int) -> int {
    if a + b > usize::MAX { usize::MAX as int } else { a + b }
}

impl Pager {
    /// Number of the last line shown (one past, as a count).
    pub open spec fn last_shown(&self) -> int {
        let total = self.doc.lines@.len() as int;
        if self.top + self.page_spec() < total { self.top + self.page_spec() } else { total }
    }

    /// Where the page is: the whole document, its top or end, or a percentage.
    pub open spec fn position_label(&self) -> Seq<char> {
        let total = self.doc.lines@.len() as int;
        if total <= self.page_spec() {
            "all"@
        } else if self.top == 0 {
            "top"@
        } else if self.top >= self.max_top_spec() {
            "end"@
        } else {
            decimal((self.last_shown() * 100 / total) as nat) + seq!['%']
        }
    }

    /// Right part of the status bar: the lines shown, the total and the position.
    pub open spec fn status_right(&self) -> Seq<char> {
        seq![' '] + decimal((self.top + 1) as nat) + seq!['-'] + decimal(self.last_shown() as nat) + " of "@
            + decimal(self.doc.lines@.len()) + " lines  "@ + right_aligned(self.position_label(), 4)
            + seq![' ']
    }

    /// Left part of the status bar: the query being typed, a message, or the title.
    pub open spec fn status_left(&self) -> Seq<char> {
        match self.search_view() {
            Some(q) => " /"@ + q + seq!['█'],
            None => match self.message_view() {
                Some(m) => seq![' '] + m,
                None => seq![' '] + self.opts.title@,
            },
        }
    }

    /// The status bar in reverse video, exactly as wide as the terminal unless
    /// its right part alone is wider (then cut with an ellipsis).
    pub open spec fn status_bar_text(&self) -> Seq<char> {
        let right = self.status_right();
        let rw = unicode_str_width(right) as int;
        let left = truncated(self.status_left(), sat_sub(self.cols as int, sat_add(rw, 1)));
        let pad = sat_sub(self.cols as int, sat_add(unicode_str_width(left) as int, rw));
        let bar = left + repeat(' ', pad as nat) + right;
        "\x1b[0;7m"@ + truncated(bar, self.cols as int) + "\x1b[0m"@
    }

    fn position_label_string(&self) -> (r: String)
        requires
            self.well_formed(),
        ensures
            r@ == self.position_label(),
    {
        let total = self.doc.lines.len();
        let page = self.page();
        if total <= page {
            let mut r = String::new();
            push_str(&mut r, "all");
            return r;
        }
        if self.top == 0 {
            let mut r = String::new();
            push_str(&mut r, "top");
            return r;
        }
        if self.top >= self.max_top() {
            let mut r = String::new();
            push_str(&mut r, "end");
            return r;
        }
        let last: usize = if page < total - self.top { self.top + page } else { total };
        let mut r = String::new();
        proof {
            assert(last <= total);
            assert(last * 100 <= usize::MAX * 100) by (nonlinear_arith)
                requires last <= usize::MAX;
        }
        push_decimal(&mut r, (last as u128 * 100) / total as u128);
        push_char_to(&mut r, '%');
        r
    }

    /// The status bar for the current state.
    pub fn status_bar(&self) -> (r: String)
        requires
            self.well_formed(),
        ensures
            r@ == self.status_bar_text(),
    {
        let total = self.doc.lines.len();
        let page = self.page();
        let last: usize = if page < total - self.top { self.top + page } else { total };
        let pos = self.position_label_string();
        let mut right = String::new();
        push_char_to(&mut right, ' ');
        push_decimal(&mut right, self.top as u128 + 1);
        push_char_to(&mut right, '-');
        push_decimal(&mut right, last as u128);
        push_str(&mut right, " of ");
        push_decimal(&mut right, total as u128);
        push_str(&mut right, " lines  ");
        let plen = chars_of(pos.as_str()).len();
        if plen < 4 {
            push_repeat(&mut right, ' ', 4 - plen);
        }
        push_str(&mut right, pos.as_str());
        push_char_to(&mut right, ' ');
        assert(last == self.last_shown());
        assert(right@ == self.status_right());
        let mut left = String::new();
        match &self.input {
            Input::Search(q) => {
                push_str(&mut left, " /");
                push_str(&mut left, q.as_str());
                push_char_to(&mut left, '█');
            },
            Input::Normal => match &self.message {
                Some(m) => {
                    push_char_to(&mut left, ' ');
                    push_str(&mut left, m.as_str());
                },
                None => {
                    push_char_to(&mut left, ' ');
                    push_str(&mut left, self.opts.title.as_str());
                },
            },
        }
        assert(left@ == self.status_left());
        let right_w = str_width(right.as_str());
        let left = truncate(left.as_str(), self.cols.saturating_sub(right_w.saturating_add(1)));
        let pad = self.cols.saturating_sub(str_width(left.as_str()).saturating_add(right_w));
        let mut bar = String::new();
        push_str(&mut bar, left.as_str());
        push_repeat(&mut bar, ' ', pad);
        push_str(&mut bar, right.as_str());
        let mut out = String::new();
        push_str(&mut out, "\x1b[0;7m");
        push_str(&mut out, truncate(bar.as_str(), self.cols).as_str());
        push_str(&mut out, "\x1b[0m");
        out
    }
}

impl Pager {
    /// Screen row `i` of the page: cursor placement, the document line (with
    /// matches of the last query highlighted), then a reset and a clear to the
    /// end of the row.
    pub open spec fn row_text(&self, i: int) -> Seq<char> {
        let k = self.top + i;
        "\x1b["@ + decimal((i + 1) as nat) + ";1H"@
            + (if k < self.doc.lines@.len() {
                match self.query_view() {
                    Some(q) => highlighted(self.doc.line_texts()[k], self.doc.plain_texts()[k], q),
                    None => self.doc.line_texts()[k],
                }
            } else {
                Seq::empty()
            }) + "\x1b[0m\x1b[K"@
    }

    /// Screen rows `0..k` of the page.
    pub open spec fn rows_text(&self, k: int) -> Seq<char>
        decreases k,
    {
        if k <= 0 {
            Seq::empty()
        } else {
            self.rows_text(k - 1) + self.row_text(k - 1)
        }
    }

    /// A whole screen update: synchronized output around the page's rows and
    /// the status bar on the last row.
    pub open spec fn frame_text(&self) -> Seq<char> {
        "\x1b[?2026h"@ + self.rows_text(self.page_spec()) + "\x1b["@ + decimal(self.rows as nat) + ";1H"@
            + self.status_bar_text() + "\x1b[?2026l"@
    }

    /// The bytes that draw the current state on the terminal.
    #[verifier::spinoff_prover]
    #[verifier::rlimit(40)]
    pub fn frame(&self) -> (r: String)
        requires
            self.well_formed(),
        ensures
            r@ == self.frame_text(),
    {
        let mut s = String::new();
        push_str(&mut s, "\x1b[?2026h");
        let page = self.page();
        let n = self.doc.lines.len();
        let ghost start = s@;
        let mut i: usize = 0;
        while i < page
            invariant
                i <= page,
                page == self.page_spec(),
                n == self.doc.lines@.len(),
                self.well_formed(),
                s@ == start + self.rows_text(i as int),
            decreases page - i,
        {
            push_str(&mut s, "\x1b[");
            push_decimal(&mut s, i as u128 + 1);
            push_str(&mut s, ";1H");
            if i < n && self.top < n - i {
                let k = self.top + i;
                assert(self.doc.line_texts()[k as int] == self.doc.lines@[k as int]@);
                assert(self.doc.plain_texts()[k as int] == self.doc.plain@[k as int]@);
                match &self.query {
                    Some(q) => {
                        let h = highlight(self.doc.lines[k].as_str(), self.doc.plain[k].as_str(), q.as_str());
                        push_str(&mut s, h.as_str());
                    },
                    None => push_str(&mut s, self.doc.lines[k].as_str()),
                }
            }
            push_str(&mut s, "\x1b[0m\x1b[K");
            i += 1;
        }
        push_str(&mut s, "\x1b[");
        push_decimal(&mut s, self.rows as u128);
        push_str(&mut s, ";1H");
        push_str(&mut s, self.status_bar().as_str());
        push_str(&mut s, "\x1b[?2026l");
        s
    }
}

} // verus!
