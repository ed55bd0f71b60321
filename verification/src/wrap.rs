//! Word wrapping of styled spans.

use vstd::prelude::*;

use crate::style::{char_cols, char_width, span_views, str_width, unicode_str_width, Span, Style};
use crate::text::push_char_to;

verus! {

/// A line of output: spans of text with their styles.
pub type Line = Vec<Span>;

/// The text and style of each span of a line.
pub type LineView = Seq<(Seq<char>, Style)>;

/// The views of several lines.
pub open spec fn line_views(lines: Seq<Line>) -> Seq<LineView> {
    lines.map_values(|l: Line| span_views(l@))
}

/// Appends a character in `st` to a line: it extends the last span when that
/// span has the same style, and starts a new span otherwise.
pub open spec fn push_char_line(line: LineView, c: char, st: Style) -> LineView {
    if line.len() > 0 && line.last().1 == st {
        line.update(line.len() - 1, (line.last().0.push(c), st))
    } else {
        line.push((seq![c], st))
    }
}

/// Appends a string in `st` to a line, merging with a last span of the same style.
pub open spec fn push_str_line(line: LineView, s: Seq<char>, st: Style) -> LineView {
    if line.len() > 0 && line.last().1 == st {
        line.update(line.len() - 1, (line.last().0 + s, st))
    } else {
        line.push((s, st))
    }
}

/// All the text of a line.
pub open spec fn line_text(line: LineView) -> Seq<char>
    decreases line.len(),
{
    if line.len() == 0 {
        Seq::empty()
    } else {
        line_text(line.drop_last()) + line.last().0
    }
}

/// All the text of several lines, one after another.
pub open spec fn lines_text(lines: Seq<LineView>) -> Seq<char>
    decreases lines.len(),
{
    if lines.len() == 0 {
        Seq::empty()
    } else {
        lines_text(lines.drop_last()) + line_text(lines.last())
    }
}

/// No span of the line is empty and neighbouring spans differ in style.
pub open spec fn line_merged(line: LineView) -> bool {
    &&& forall|i: int| 0 <= i < line.len() ==> #[trigger] line[i].0.len() > 0
    &&& forall|i: int| 0 < i < line.len() ==> #[trigger] line[i].1 != line[i - 1].1
}

/// The characters of all spans, each with the style of its span.
pub open spec fn styled_chars(spans: LineView) -> Seq<(char, Style)>
    decreases spans.len(),
{
    if spans.len() == 0 {
        Seq::empty()
    } else {
        styled_chars(spans.drop_last()) + spans.last().0.map_values(|c: char| (c, spans.last().1))
    }
}

pub proof fn lemma_line_text_push_char(line: LineView, c: char, st: Style)
    ensures
        line_text(push_char_line(line, c, st)) == line_text(line).push(c),
        push_char_line(line, c, st).len() > 0,
        line_merged(line) ==> line_merged(push_char_line(line, c, st)),
{
    let r = push_char_line(line, c, st);
    if line.len() > 0 && line.last().1 == st {
        assert(r.drop_last() == line.drop_last());
        assert(line_text(line) == line_text(line.drop_last()) + line.last().0);
    } else {
        assert(r.drop_last() == line);
    }
}

pub proof fn lemma_line_text_push_str(line: LineView, s: Seq<char>, st: Style)
    ensures
        line_text(push_str_line(line, s, st)) == line_text(line) + s,
{
    let r = push_str_line(line, s, st);
    if line.len() > 0 && line.last().1 == st {
        assert(r.drop_last() == line.drop_last());
        assert(line_text(line) == line_text(line.drop_last()) + line.last().0);
    } else {
        assert(r.drop_last() == line);
    }
}

pub proof fn lemma_lines_text_push(lines: Seq<LineView>, line: LineView)
    ensures
        lines_text(lines.push(line)) == lines_text(lines) + line_text(line),
{
    assert(lines.push(line).drop_last() == lines);
}

fn push_char(line: &mut Line, c: char, style: Style)
    ensures
        span_views(final(line)@) == push_char_line(span_views(old(line)@), c, style),
{
    let n = line.len();
    if n > 0 && line[n - 1].style == style {
        let mut last = line.pop().unwrap();
        push_char_to(&mut last.text, c);
        line.push(last);
        assert(span_views(line@) == push_char_line(span_views(old(line)@), c, style));
    } else {
        let mut t = String::new();
        push_char_to(&mut t, c);
        line.push(Span { text: t, style });
        assert(span_views(line@) == push_char_line(span_views(old(line)@), c, style));
    }
}

fn push_str(line: &mut Line, s: &str, style: Style)
    ensures
        span_views(final(line)@) == push_str_line(span_views(old(line)@), s@, style),
{
    let n = line.len();
    if n > 0 && line[n - 1].style == style {
        let mut last = line.pop().unwrap();
        last.text.append(s);
        line.push(last);
        assert(span_views(line@) == push_str_line(span_views(old(line)@), s@, style));
    } else {
        line.push(Span::new(s, style));
        assert(span_views(line@) == push_str_line(span_views(old(line)@), s@, style));
    }
}

/// State of the greedy word wrapper: finished lines, the line being filled and
/// its width, the style of a pending inter-word space, and the word being
/// collected (characters with their style and width) and its width.
pub struct WrapModel {
    pub lines: Seq<LineView>,
    pub cur: LineView,
    pub cur_w: int,
    pub space: Option<Style>,
    pub word: Seq<(char, Style, usize)>,
    pub word_w: int,
}

/// Total width of word entries.
pub open spec fn word_cols(word: Seq<(char, Style, usize)>) -> int
    decreases word.len(),
{
    if word.len() == 0 {
        0
    } else {
        word_cols(word.drop_last()) + word.last().2
    }
}

/// Appends all characters of a word to a line.
pub open spec fn push_word_line(line: LineView, word: Seq<(char, Style, usize)>) -> LineView
    decreases word.len(),
{
    if word.len() == 0 {
        line
    } else {
        push_char_line(push_word_line(line, word.drop_last()), word.last().0, word.last().1)
    }
}

/// Places a word that does not fit on a line character by character, starting a
/// new line before any character that would overflow a nonempty line.
pub open spec fn break_word(
    lines: Seq<LineView>,
    cur: LineView,
    cur_w: int,
    width: int,
    word: Seq<(char, Style, usize)>,
) -> (Seq<LineView>, LineView, int)
    decreases word.len(),
{
    if word.len() == 0 {
        (lines, cur, cur_w)
    } else {
        let prev = break_word(lines, cur, cur_w, width, word.drop_last());
        let e = word.last();
        if prev.2 + e.2 > width && prev.2 > 0 {
            (prev.0.push(prev.1), push_char_line(Seq::empty(), e.0, e.1), e.2 as int)
        } else {
            (prev.0, push_char_line(prev.1, e.0, e.1), prev.2 + e.2)
        }
    }
}

/// Ends the current line.
pub open spec fn break_line(m: WrapModel) -> WrapModel {
    WrapModel { lines: m.lines.push(m.cur), cur: Seq::empty(), cur_w: 0, ..m }
}

/// Places the collected word: after a space if it fits on the current line,
/// otherwise on a new line, broken anywhere if it is wider than a line.
pub open spec fn flush_word(m: WrapModel, width: int) -> WrapModel {
    if m.word.len() == 0 {
        m
    } else {
        let space = if m.cur_w > 0 { m.space } else { None };
        let sp: int = if space is Some { 1 } else { 0 };
        let m1 = if m.cur_w + sp + m.word_w <= width {
            match space {
                Some(st) => WrapModel { cur: push_char_line(m.cur, ' ', st), cur_w: m.cur_w + 1, ..m },
                None => m,
            }
        } else if m.cur_w > 0 {
            break_line(m)
        } else {
            m
        };
        let m2 = if m1.cur_w + m1.word_w <= width {
            WrapModel { cur: push_word_line(m1.cur, m1.word), cur_w: m1.cur_w + m1.word_w, ..m1 }
        } else {
            let b = break_word(m1.lines, m1.cur, m1.cur_w, width, m1.word);
            WrapModel { lines: b.0, cur: b.1, cur_w: b.2, ..m1 }
        };
        WrapModel { word: Seq::empty(), word_w: 0, space: None, ..m2 }
    }
}

/// One input character: a newline ends the line, a space or tab ends the word,
/// U+FE0F makes a preceding one-column character two columns wide, anything
/// else extends the word.
pub open spec fn wrap_step(m: WrapModel, width: int, c: char, st: Style) -> WrapModel {
    if c == '\n' {
        WrapModel { space: None, ..break_line(flush_word(m, width)) }
    } else if c == ' ' || c == '\t' {
        let m1 = flush_word(m, width);
        if m1.space is None {
            WrapModel { space: Some(st), ..m1 }
        } else {
            m1
        }
    } else if c == '\u{FE0F}' {
        let m1 = if m.word.len() > 0 && m.word.last().2 == 1 {
            let e = m.word.last();
            WrapModel {
                word: m.word.update(m.word.len() - 1, (e.0, e.1, 2usize)),
                word_w: m.word_w + 1,
                ..m
            }
        } else {
            m
        };
        WrapModel { word: m1.word.push((c, st, 0usize)), ..m1 }
    } else {
        WrapModel { word: m.word.push((c, st, char_cols(c) as usize)), word_w: m.word_w + char_cols(c), ..m }
    }
}

/// The wrapper's state after a stream of styled characters.
pub open spec fn wrap_run(chars: Seq<(char, Style)>, width: int) -> WrapModel
    decreases chars.len(),
{
    if chars.len() == 0 {
        WrapModel {
            lines: Seq::empty(),
            cur: Seq::empty(),
            cur_w: 0,
            space: None,
            word: Seq::empty(),
            word_w: 0,
        }
    } else {
        let c = chars.last();
        wrap_step(wrap_run(chars.drop_last(), width), width, c.0, c.1)
    }
}

/// The lines of the greedy word wrap of `spans` at `width` columns (at least one).
pub open spec fn wrapped(spans: LineView, width: int) -> Seq<LineView> {
    let w = if width < 1 { 1 } else { width };
    let m = flush_word(wrap_run(styled_chars(spans), w), w);
    if m.cur.len() > 0 || m.lines.len() == 0 {
        m.lines.push(m.cur)
    } else {
        m.lines
    }
}

pub proof fn lemma_word_cols_take(word: Seq<(char, Style, usize)>, i: int)
    requires
        0 <= i < word.len(),
    ensures
        word_cols(word.take(i + 1)) == word_cols(word.take(i)) + word[i].2,
        word_cols(word.take(i + 1)) <= word_cols(word),
{
    assert(word.take(i + 1).drop_last() == word.take(i));
    lemma_word_cols_prefix(word, i + 1);
}

pub proof fn lemma_word_cols_prefix(word: Seq<(char, Style, usize)>, k: int)
    requires
        0 <= k <= word.len(),
    ensures
        word_cols(word.take(k)) <= word_cols(word),
        word_cols(word.take(k)) >= 0,
    decreases word.len(),
{
    if k < word.len() {
        assert(word.drop_last().take(k) == word.take(k));
        lemma_word_cols_prefix(word.drop_last(), k);
    } else {
        assert(word.take(k) == word);
        lemma_word_cols_nonneg(word);
    }
}

pub proof fn lemma_word_cols_nonneg(word: Seq<(char, Style, usize)>)
    ensures
        word_cols(word) >= 0,
    decreases word.len(),
{
    if word.len() > 0 {
        lemma_word_cols_nonneg(word.drop_last());
    }
}

/// Placing a broken word never makes the current line wider than its old width
/// plus the word's width.
pub proof fn lemma_break_word_width(
    lines: Seq<LineView>,
    cur: LineView,
    cur_w: int,
    width: int,
    word: Seq<(char, Style, usize)>,
)
    requires
        cur_w >= 0,
    ensures
        0 <= break_word(lines, cur, cur_w, width, word).2 <= cur_w + word_cols(word),
    decreases word.len(),
{
    if word.len() > 0 {
        lemma_break_word_width(lines, cur, cur_w, width, word.drop_last());
        lemma_word_cols_nonneg(word.drop_last());
    }
}

/// Width still to be placed: the current line, the word, and a pending space.
pub open spec fn pending_cols(m: WrapModel) -> int {
    m.cur_w + m.word_w + (if m.space is Some { 1int } else { 0int })
}

pub proof fn lemma_flush_word_pending(m: WrapModel, width: int)
    requires
        m.cur_w >= 0,
        m.word_w == word_cols(m.word),
    ensures
        flush_word(m, width).word_w == word_cols(flush_word(m, width).word),
        0 <= flush_word(m, width).cur_w,
        pending_cols(flush_word(m, width)) <= pending_cols(m),
{
    lemma_word_cols_nonneg(m.word);
    if m.word.len() > 0 {
        let space = if m.cur_w > 0 { m.space } else { None };
        let sp: int = if space is Some { 1 } else { 0 };
        let m1 = if m.cur_w + sp + m.word_w <= width {
            match space {
                Some(st) => WrapModel { cur: push_char_line(m.cur, ' ', st), cur_w: m.cur_w + 1, ..m },
                None => m,
            }
        } else if m.cur_w > 0 {
            break_line(m)
        } else {
            m
        };
        lemma_break_word_width(m1.lines, m1.cur, m1.cur_w, width, m1.word);
        assert(word_cols(Seq::<(char, Style, usize)>::empty()) == 0);
    }
}

struct Wrapper {
    width: usize,
    lines: Vec<Line>,
    cur: Line,
    cur_w: usize,
    space: Option<Style>,
    word: Vec<(char, Style, usize)>,
    word_w: usize,
}

impl Wrapper {
    spec fn model(&self) -> WrapModel {
        WrapModel {
            lines: line_views(self.lines@),
            cur: span_views(self.cur@),
            cur_w: self.cur_w as int,
            space: self.space,
            word: self.word@,
            word_w: self.word_w as int,
        }
    }

    fn break_line(&mut self)
        ensures
            final(self).model() == break_line(old(self).model()),
            final(self).width == old(self).width,
    {
        let mut taken: Line = Vec::new();
        std::mem::swap(&mut taken, &mut self.cur);
        self.lines.push(taken);
        self.cur_w = 0;
        assert(line_views(self.lines@) == line_views(old(self).lines@).push(span_views(old(self).cur@)));
        assert(span_views(self.cur@) == Seq::<(Seq<char>, Style)>::empty());
    }

    fn push_word_fitting(&mut self, word: &Vec<(char, Style, usize)>)
        ensures
            span_views(final(self).cur@) == push_word_line(span_views(old(self).cur@), word@),
            final(self).lines@ == old(self).lines@,
            final(self).cur_w == old(self).cur_w,
            final(self).width == old(self).width,
            final(self).space == old(self).space,
            final(self).word@ == old(self).word@,
            final(self).word_w == old(self).word_w,
    {
        let ghost start = span_views(self.cur@);
        let mut i: usize = 0;
        while i < word.len()
            invariant
                i <= word@.len(),
                span_views(self.cur@) == push_word_line(start, word@.take(i as int)),
                self.lines@ == old(self).lines@,
                self.cur_w == old(self).cur_w,
                self.width == old(self).width,
                self.space == old(self).space,
                self.word@ == old(self).word@,
                self.word_w == old(self).word_w,
            decreases word@.len() - i,
        {
            let e = word[i];
            push_char(&mut self.cur, e.0, e.1);
            assert(word@.take(i + 1).drop_last() == word@.take(i as int));
            i += 1;
        }
        assert(word@.take(i as int) == word@);
    }

    fn push_word_broken(&mut self, word: &Vec<(char, Style, usize)>)
        requires
            old(self).cur_w + word_cols(word@) <= usize::MAX,
        ensures
            ({
                let b = break_word(line_views(old(self).lines@), span_views(old(self).cur@),
                    old(self).cur_w as int, old(self).width as int, word@);
                line_views(final(self).lines@) == b.0 && span_views(final(self).cur@) == b.1
                    && final(self).cur_w == b.2
            }),
            final(self).width == old(self).width,
            final(self).space == old(self).space,
            final(self).word@ == old(self).word@,
            final(self).word_w == old(self).word_w,
    {
        let ghost l0 = line_views(self.lines@);
        let ghost c0 = span_views(self.cur@);
        let ghost w0 = self.cur_w as int;
        let mut i: usize = 0;
        while i < word.len()
            invariant
                i <= word@.len(),
                w0 + word_cols(word@) <= usize::MAX,
                w0 >= 0,
                ({
                    let b = break_word(l0, c0, w0, self.width as int, word@.take(i as int));
                    line_views(self.lines@) == b.0 && span_views(self.cur@) == b.1 && self.cur_w == b.2
                }),
                self.width == old(self).width,
                self.space == old(self).space,
                self.word@ == old(self).word@,
                self.word_w == old(self).word_w,
            decreases word@.len() - i,
        {
            proof {
                lemma_word_cols_take(word@, i as int);
                lemma_break_word_width(l0, c0, w0, self.width as int, word@.take(i as int));
                assert(word@.take(i + 1).drop_last() == word@.take(i as int));
            }
            let e = word[i];
            if self.cur_w + e.2 > self.width && self.cur_w > 0 {
                self.break_line();
            }
            push_char(&mut self.cur, e.0, e.1);
            self.cur_w += e.2;
            i += 1;
        }
        assert(word@.take(i as int) == word@);
    }

    fn flush_word(&mut self)
        requires
            old(self).word_w == word_cols(old(self).word@),
            pending_cols(old(self).model()) + 1 <= usize::MAX,
        ensures
            final(self).model() == flush_word(old(self).model(), old(self).width as int),
            final(self).width == old(self).width,
    {
        proof {
            lemma_word_cols_nonneg(self.word@);
        }
        if self.word.len() == 0 {
            return;
        }
        let space = if self.cur_w > 0 { self.space } else { None };
        let sp: usize = if space.is_some() { 1 } else { 0 };
        if self.cur_w + sp + self.word_w <= self.width {
            match space {
                Some(st) => {
                    push_char(&mut self.cur, ' ', st);
                    self.cur_w += 1;
                },
                None => {},
            }
        } else if self.cur_w > 0 {
            self.break_line();
        }
        let ghost m1 = self.model();
        let mut word: Vec<(char, Style, usize)> = Vec::new();
        std::mem::swap(&mut word, &mut self.word);
        if self.cur_w + self.word_w <= self.width {
            self.push_word_fitting(&word);
            self.cur_w += self.word_w;
        } else {
            self.push_word_broken(&word);
        }
        self.word_w = 0;
        self.space = None;
        assert(self.model() == flush_word(old(self).model(), old(self).width as int));
    }

    fn step(&mut self, c: char, st: Style)
        requires
            old(self).word_w == word_cols(old(self).word@),
            pending_cols(old(self).model()) + 4 <= usize::MAX,
        ensures
            final(self).model() == wrap_step(old(self).model(), old(self).width as int, c, st),
            final(self).width == old(self).width,
            final(self).word_w == word_cols(final(self).word@),
            pending_cols(final(self).model()) <= pending_cols(old(self).model()) + 3,
    {
        proof {
            lemma_word_cols_nonneg(self.word@);
            lemma_flush_word_pending(self.model(), self.width as int);
        }
        if c == '\n' {
            self.flush_word();
            self.break_line();
            self.space = None;
        } else if c == ' ' || c == '\t' {
            self.flush_word();
            if self.space.is_none() {
                self.space = Some(st);
            }
        } else if c == '\u{FE0F}' {
            let n = self.word.len();
            if n > 0 && self.word[n - 1].2 == 1 {
                let e = self.word[n - 1];
                self.word.set(n - 1, (e.0, e.1, 2));
                self.word_w += 1;
                assert(self.word@.drop_last() == old(self).word@.drop_last());
                assert(word_cols(self.word@) == word_cols(old(self).word@) + 1);
            }
            let ghost w1 = self.word@;
            assert(self.word_w == word_cols(w1));
            self.word.push((c, st, 0));
            assert(self.word@.drop_last() == w1);
            assert(word_cols(self.word@) == word_cols(w1));
        } else {
            let cw = char_width(c);
            self.word.push((c, st, cw));
            self.word_w += cw;
            assert(self.word@.drop_last() == old(self).word@);
            assert(word_cols(self.word@) == word_cols(old(self).word@) + cw);
        }
    }
}

pub proof fn lemma_styled_chars_len(spans: LineView, k: int)
    requires
        0 <= k <= spans.len(),
    ensures
        styled_chars(spans.take(k)).len() <= styled_chars(spans).len(),
    decreases spans.len(),
{
    if k < spans.len() {
        assert(spans.drop_last().take(k) == spans.take(k));
        lemma_styled_chars_len(spans.drop_last(), k);
    } else {
        assert(spans.take(k) == spans);
    }
}

/// Greedy word wrap. Only ASCII space/tab are break opportunities, so
/// non-breaking spaces stay intact; `\n` forces a line break.
pub fn wrap(spans: &[Span], width: usize) -> (r: Vec<Line>)
    requires
        4 * styled_chars(span_views(spans@)).len() + 8 <= usize::MAX,
    ensures
        line_views(r@) == wrapped(span_views(spans@), width as int),
{
    let ghost views = span_views(spans@);
    let ghost total = styled_chars(views).len();
    let ww: usize = if width < 1 { 1 } else { width };
    let mut w = Wrapper {
        width: ww,
        lines: Vec::new(),
        cur: Vec::new(),
        cur_w: 0,
        space: None,
        word: Vec::new(),
        word_w: 0,
    };
    assert(w.model() == wrap_run(Seq::empty(), ww as int)) by {
        assert(line_views(w.lines@) == Seq::<LineView>::empty());
        assert(span_views(w.cur@) == Seq::<(Seq<char>, Style)>::empty());
    }
    assert(styled_chars(views.take(0)) == Seq::<(char, Style)>::empty());
    let mut i: usize = 0;
    while i < spans.len()
        invariant
            i <= spans@.len(),
            views == span_views(spans@),
            total == styled_chars(views).len(),
            4 * total + 8 <= usize::MAX,
            w.width == ww,
            w.model() == wrap_run(styled_chars(views.take(i as int)), ww as int),
            w.word_w == word_cols(w.word@),
            pending_cols(w.model()) <= 3 * styled_chars(views.take(i as int)).len(),
        decreases spans@.len() - i,
    {
        let span = &spans[i];
        let ghost prefix = styled_chars(views.take(i as int));
        let ghost sv = span.text@.map_values(|c: char| (c, span.style));
        proof {
            assert(views.take(i + 1).drop_last() == views.take(i as int));
            assert(views[i as int] == (span.text@, span.style));
            assert(styled_chars(views.take(i + 1)) == prefix + sv);
            lemma_styled_chars_len(views, i + 1);
        }
        let chars = crate::text::chars_of(span.text.as_str());
        let mut j: usize = 0;
        while j < chars.len()
            invariant
                j <= chars@.len(),
                chars@ == span.text@,
                sv == span.text@.map_values(|c: char| (c, span.style)),
                prefix.len() + sv.len() <= total,
                4 * total + 8 <= usize::MAX,
                w.width == ww,
                w.model() == wrap_run(prefix + sv.take(j as int), ww as int),
                w.word_w == word_cols(w.word@),
                pending_cols(w.model()) <= 3 * (prefix.len() + j),
            decreases chars@.len() - j,
        {
            proof {
                assert((prefix + sv.take(j + 1)).drop_last() == prefix + sv.take(j as int));
                assert((prefix + sv.take(j + 1)).last() == (chars@[j as int], span.style));
            }
            w.step(chars[j], span.style);
            j += 1;
        }
        assert(sv.take(j as int) == sv);
        i += 1;
    }
    assert(views.take(i as int) == views);
    w.flush_word();
    let ghost fm = w.model();
    if w.cur.len() != 0 || w.lines.len() == 0 {
        let mut last: Line = Vec::new();
        std::mem::swap(&mut last, &mut w.cur);
        w.lines.push(last);
        assert(line_views(w.lines@) == fm.lines.push(fm.cur));
    }
    w.lines
}

/// State of the character wrapper: finished lines with their widths, and the
/// line being filled with its width.
pub type HardState = (Seq<(LineView, int)>, LineView, int);

/// Places the characters of `text` one by one, starting a new line before any
/// character that would overflow a nonempty line.
pub open spec fn hard_chars(s: HardState, width: int, text: Seq<char>, st: Style) -> HardState
    decreases text.len(),
{
    if text.len() == 0 {
        s
    } else {
        let p = hard_chars(s, width, text.drop_last(), st);
        let c = text.last();
        let cw = char_cols(c) as int;
        if p.2 + cw > width && p.2 > 0 {
            (p.0.push((p.1, p.2)), push_char_line(Seq::empty(), c, st), cw)
        } else {
            (p.0, push_char_line(p.1, c, st), p.2 + cw)
        }
    }
}

/// A span goes on the current line whole if it fits, otherwise character by character.
pub open spec fn hard_span(s: HardState, width: int, text: Seq<char>, st: Style) -> HardState {
    let sw = unicode_str_width(text) as int;
    if s.2 + sw <= width {
        (s.0, push_str_line(s.1, text, st), s.2 + sw)
    } else {
        hard_chars(s, width, text, st)
    }
}

pub open spec fn hard_run(spans: LineView, width: int) -> HardState
    decreases spans.len(),
{
    if spans.len() == 0 {
        (Seq::empty(), Seq::empty(), 0)
    } else {
        hard_span(hard_run(spans.drop_last(), width), width, spans.last().0, spans.last().1)
    }
}

/// The lines, with their widths, of the character wrap of `spans` at `width`
/// columns (at least one line).
pub open spec fn hard_wrapped(spans: LineView, width: int) -> Seq<(LineView, int)> {
    let w = if width < 1 { 1 } else { width };
    let r = hard_run(spans, w);
    r.0.push((r.1, r.2))
}

/// The views of lines paired with widths.
pub open spec fn measured_views(v: Seq<(Line, usize)>) -> Seq<(LineView, int)> {
    v.map_values(|p: (Line, usize)| (span_views(p.0@), p.1 as int))
}

struct HardWrapper {
    width: usize,
    lines: Vec<(Line, usize)>,
    cur: Line,
    cur_w: usize,
}

impl HardWrapper {
    spec fn state(&self) -> HardState {
        (measured_views(self.lines@), span_views(self.cur@), self.cur_w as int)
    }

    fn put_chars(&mut self, text: &str, st: Style)
        requires
            old(self).cur_w + 3 * text@.len() <= usize::MAX,
        ensures
            final(self).state() == hard_chars(old(self).state(), old(self).width as int, text@, st),
            final(self).width == old(self).width,
            final(self).cur_w <= old(self).cur_w + 3 * text@.len(),
    {
        let chars = crate::text::chars_of(text);
        let ghost s0 = self.state();
        let mut j: usize = 0;
        while j < chars.len()
            invariant
                j <= chars@.len(),
                chars@ == text@,
                s0.2 >= 0,
                s0.2 + 3 * text@.len() <= usize::MAX,
                self.width == old(self).width,
                self.state() == hard_chars(s0, self.width as int, chars@.take(j as int), st),
                self.cur_w <= s0.2 + 3 * j,
            decreases chars@.len() - j,
        {
            proof {
                assert(chars@.take(j + 1).drop_last() == chars@.take(j as int));
            }
            let c = chars[j];
            let cw = char_width(c);
            if self.cur_w + cw > self.width && self.cur_w > 0 {
                let mut taken: Line = Vec::new();
                std::mem::swap(&mut taken, &mut self.cur);
                let ghost prev = self.lines@;
                self.lines.push((taken, self.cur_w));
                assert(measured_views(self.lines@) == measured_views(prev).push((span_views(taken@), self.cur_w as int)));
                self.cur_w = 0;
            }
            push_char(&mut self.cur, c, st);
            self.cur_w += cw;
            j += 1;
        }
        assert(chars@.take(j as int) == text@);
    }
}

/// Character wrap (for code): breaks exactly at `width` columns, keeping all whitespace.
pub fn hard_wrap(spans: &[Span], width: usize) -> (r: Vec<(Line, usize)>)
    requires
        crate::style::spans_cols(span_views(spans@)) + 3 * styled_chars(span_views(spans@)).len()
            <= usize::MAX,
    ensures
        measured_views(r@) == hard_wrapped(span_views(spans@), width as int),
{
    let ghost views = span_views(spans@);
    let ww: usize = if width < 1 { 1 } else { width };
    let mut h = HardWrapper { width: ww, lines: Vec::new(), cur: Vec::new(), cur_w: 0 };
    assert(h.state() == hard_run(views.take(0), ww as int)) by {
        assert(measured_views(h.lines@) == Seq::<(LineView, int)>::empty());
        assert(span_views(h.cur@) == Seq::<(Seq<char>, Style)>::empty());
    }
    let mut i: usize = 0;
    while i < spans.len()
        invariant
            i <= spans@.len(),
            views == span_views(spans@),
            crate::style::spans_cols(views) + 3 * styled_chars(views).len() <= usize::MAX,
            h.width == ww,
            h.state() == hard_run(views.take(i as int), ww as int),
            h.cur_w <= crate::style::spans_cols(views.take(i as int)) + 3 * styled_chars(views.take(i as int)).len(),
        decreases spans@.len() - i,
    {
        let span = &spans[i];
        proof {
            assert(views.take(i + 1).drop_last() == views.take(i as int));
            assert(views[i as int] == (span.text@, span.style));
            assert(styled_chars(views.take(i + 1)).len() == styled_chars(views.take(i as int)).len() + span.text@.len());
            crate::style::lemma_spans_cols_prefix(views, i + 1);
            crate::style::lemma_spans_cols_prefix(views.take(i + 1), i as int);
            assert(views.take(i + 1).take(i as int) == views.take(i as int));
            lemma_styled_chars_len(views, i + 1);
        }
        let sw = str_width(span.text.as_str());
        if h.cur_w + sw <= h.width {
            push_str(&mut h.cur, span.text.as_str(), span.style);
            h.cur_w += sw;
        } else {
            h.put_chars(span.text.as_str(), span.style);
        }
        i += 1;
    }
    assert(views.take(i as int) == views);
    let ghost fs = h.state();
    let mut lines = h.lines;
    lines.push((h.cur, h.cur_w));
    assert(measured_views(lines@) == fs.0.push((fs.1, fs.2)));
    lines
}

/// Every span of `line` has a style that satisfies `p`.
pub open spec fn all_styles(line: LineView, p: spec_fn(Style) -> bool) -> bool {
    forall|i: int| 0 <= i < line.len() ==> p(#[trigger] line[i].1)
}

proof fn lemma_push_char_styles(line: LineView, c: char, st: Style, p: spec_fn(Style) -> bool)
    requires
        all_styles(line, p),
        p(st),
    ensures
        all_styles(push_char_line(line, c, st), p),
{
}

proof fn lemma_push_word_styles(line: LineView, word: Seq<(char, Style, usize)>, p: spec_fn(Style) -> bool)
    requires
        all_styles(line, p),
        forall|i: int| 0 <= i < word.len() ==> p(#[trigger] word[i].1),
    ensures
        all_styles(push_word_line(line, word), p),
    decreases word.len(),
{
    if word.len() > 0 {
        lemma_push_word_styles(line, word.drop_last(), p);
        lemma_push_char_styles(push_word_line(line, word.drop_last()), word.last().0, word.last().1, p);
    }
}

proof fn lemma_break_word_styles(
    lines: Seq<LineView>,
    cur: LineView,
    cur_w: int,
    width: int,
    word: Seq<(char, Style, usize)>,
    p: spec_fn(Style) -> bool,
)
    requires
        forall|i: int| 0 <= i < lines.len() ==> all_styles(#[trigger] lines[i], p),
        all_styles(cur, p),
        forall|i: int| 0 <= i < word.len() ==> p(#[trigger] word[i].1),
    ensures
        ({
            let b = break_word(lines, cur, cur_w, width, word);
            &&& forall|i: int| 0 <= i < b.0.len() ==> all_styles(#[trigger] b.0[i], p)
            &&& all_styles(b.1, p)
        }),
    decreases word.len(),
{
    if word.len() > 0 {
        lemma_break_word_styles(lines, cur, cur_w, width, word.drop_last(), p);
        let prev = break_word(lines, cur, cur_w, width, word.drop_last());
        lemma_push_char_styles(Seq::empty(), word.last().0, word.last().1, p);
        lemma_push_char_styles(prev.1, word.last().0, word.last().1, p);
    }
}

/// All styles in the wrapper's state satisfy `p`.
pub open spec fn model_styles(m: WrapModel, p: spec_fn(Style) -> bool) -> bool {
    &&& forall|i: int| 0 <= i < m.lines.len() ==> all_styles(#[trigger] m.lines[i], p)
    &&& all_styles(m.cur, p)
    &&& (m.space matches Some(st) ==> p(st))
    &&& forall|i: int| 0 <= i < m.word.len() ==> p(#[trigger] m.word[i].1)
}

proof fn lemma_flush_word_styles(m: WrapModel, width: int, p: spec_fn(Style) -> bool)
    requires
        model_styles(m, p),
    ensures
        model_styles(flush_word(m, width), p),
{
    if m.word.len() > 0 {
        let space = if m.cur_w > 0 { m.space } else { None };
        let sp: int = if space is Some { 1 } else { 0 };
        let m1 = if m.cur_w + sp + m.word_w <= width {
            match space {
                Some(st) => WrapModel { cur: push_char_line(m.cur, ' ', st), cur_w: m.cur_w + 1, ..m },
                None => m,
            }
        } else if m.cur_w > 0 {
            break_line(m)
        } else {
            m
        };
        if m.cur_w + sp + m.word_w <= width {
            match space {
                Some(st) => {
                    lemma_push_char_styles(m.cur, ' ', st, p);
                },
                None => {},
            }
        }
        assert(model_styles(m1, p));
        lemma_push_word_styles(m1.cur, m1.word, p);
        lemma_break_word_styles(m1.lines, m1.cur, m1.cur_w, width, m1.word, p);
    }
}

proof fn lemma_wrap_run_styles(chars: Seq<(char, Style)>, width: int, p: spec_fn(Style) -> bool)
    requires
        forall|i: int| 0 <= i < chars.len() ==> p(#[trigger] chars[i].1),
    ensures
        model_styles(wrap_run(chars, width), p),
    decreases chars.len(),
{
    if chars.len() > 0 {
        let m = wrap_run(chars.drop_last(), width);
        lemma_wrap_run_styles(chars.drop_last(), width, p);
        lemma_flush_word_styles(m, width, p);
        let c = chars.last();
        assert(p(c.1));
        if c.0 == '\u{FE0F}' && m.word.len() > 0 && m.word.last().2 == 1 {
            let e = m.word.last();
            assert(p(e.1));
        }
    }
}

proof fn lemma_styled_chars_styles(spans: LineView, p: spec_fn(Style) -> bool)
    requires
        all_styles(spans, p),
    ensures
        forall|i: int| 0 <= i < styled_chars(spans).len() ==> p(#[trigger] styled_chars(spans)[i].1),
    decreases spans.len(),
{
    if spans.len() > 0 {
        lemma_styled_chars_styles(spans.drop_last(), p);
        assert(p(spans.last().1));
        let a = styled_chars(spans.drop_last());
        let b = spans.last().0.map_values(|c: char| (c, spans.last().1));
        assert forall|i: int| 0 <= i < styled_chars(spans).len() implies p(#[trigger] styled_chars(spans)[i].1) by {
            if i >= a.len() {
                assert(styled_chars(spans)[i] == b[i - a.len()]);
            } else {
                assert(styled_chars(spans)[i] == a[i]);
            }
        }
    }
}

/// Word wrapping only uses the styles of its input: a property that holds of every
/// style of the input holds of every style in the wrapped lines.
pub proof fn lemma_wrapped_styles(spans: LineView, width: int, p: spec_fn(Style) -> bool)
    requires
        all_styles(spans, p),
    ensures
        forall|i: int| 0 <= i < wrapped(spans, width).len() ==> all_styles(#[trigger] wrapped(spans, width)[i], p),
{
    let w = if width < 1 { 1 } else { width };
    lemma_styled_chars_styles(spans, p);
    lemma_wrap_run_styles(styled_chars(spans), w, p);
    lemma_flush_word_styles(wrap_run(styled_chars(spans), w), w, p);
}

proof fn lemma_hard_chars_styles(s: HardState, width: int, text: Seq<char>, st: Style, p: spec_fn(Style) -> bool)
    requires
        forall|i: int| 0 <= i < s.0.len() ==> all_styles(#[trigger] s.0[i].0, p),
        all_styles(s.1, p),
        p(st),
    ensures
        ({
            let r = hard_chars(s, width, text, st);
            &&& forall|i: int| 0 <= i < r.0.len() ==> all_styles(#[trigger] r.0[i].0, p)
            &&& all_styles(r.1, p)
        }),
    decreases text.len(),
{
    if text.len() > 0 {
        lemma_hard_chars_styles(s, width, text.drop_last(), st, p);
        let q = hard_chars(s, width, text.drop_last(), st);
        lemma_push_char_styles(Seq::empty(), text.last(), st, p);
        lemma_push_char_styles(q.1, text.last(), st, p);
    }
}

proof fn lemma_hard_run_styles(spans: LineView, width: int, p: spec_fn(Style) -> bool)
    requires
        all_styles(spans, p),
    ensures
        ({
            let r = hard_run(spans, width);
            &&& forall|i: int| 0 <= i < r.0.len() ==> all_styles(#[trigger] r.0[i].0, p)
            &&& all_styles(r.1, p)
        }),
    decreases spans.len(),
{
    if spans.len() > 0 {
        lemma_hard_run_styles(spans.drop_last(), width, p);
        assert(p(spans.last().1));
        lemma_hard_chars_styles(hard_run(spans.drop_last(), width), width, spans.last().0, spans.last().1, p);
    }
}

/// Character wrapping only uses the styles of its input.
pub proof fn lemma_hard_wrapped_styles(spans: LineView, width: int, p: spec_fn(Style) -> bool)
    requires
        all_styles(spans, p),
    ensures
        forall|i: int| 0 <= i < hard_wrapped(spans, width).len() ==> all_styles(#[trigger] hard_wrapped(spans, width)[i].0, p),
{
    let w = if width < 1 { 1 } else { width };
    lemma_hard_run_styles(spans, w, p);
}

/// The text of measured rows, one after another.
pub open spec fn rows_text(rows: Seq<(LineView, int)>) -> Seq<char>
    decreases rows.len(),
{
    if rows.len() == 0 {
        Seq::empty()
    } else {
        rows_text(rows.drop_last()) + line_text(rows.last().0)
    }
}

proof fn lemma_hard_chars_text(s: HardState, width: int, text: Seq<char>, st: Style)
    ensures
        ({
            let r = hard_chars(s, width, text, st);
            rows_text(r.0) + line_text(r.1) == rows_text(s.0) + line_text(s.1) + text
        }),
    decreases text.len(),
{
    if text.len() > 0 {
        lemma_hard_chars_text(s, width, text.drop_last(), st);
        let p = hard_chars(s, width, text.drop_last(), st);
        let c = text.last();
        let base = rows_text(s.0) + line_text(s.1);
        assert(rows_text(p.0) + line_text(p.1) == base + text.drop_last());
        let cw = char_cols(c) as int;
        let r = hard_chars(s, width, text, st);
        if p.2 + cw > width && p.2 > 0 {
            lemma_line_text_push_char(Seq::empty(), c, st);
            assert(line_text(Seq::<(Seq<char>, Style)>::empty()) == Seq::<char>::empty());
            assert(p.0.push((p.1, p.2)).drop_last() == p.0);
            assert(rows_text(r.0) == rows_text(p.0) + line_text(p.1));
            assert(line_text(r.1) == seq![c]);
            assert(rows_text(r.0) + line_text(r.1) =~= base + text);
        } else {
            lemma_line_text_push_char(p.1, c, st);
            assert(r.0 == p.0);
            assert(line_text(r.1) == line_text(p.1).push(c));
            assert(text =~= text.drop_last().push(c));
            assert(rows_text(p.0) + line_text(p.1).push(c) =~= (rows_text(p.0) + line_text(p.1)).push(c));
            assert(rows_text(r.0) + line_text(r.1) =~= base + text);
        }
    }
}

proof fn lemma_hard_run_text(spans: LineView, width: int)
    ensures
        ({
            let r = hard_run(spans, width);
            rows_text(r.0) + line_text(r.1) == line_text(spans)
        }),
    decreases spans.len(),
{
    if spans.len() > 0 {
        lemma_hard_run_text(spans.drop_last(), width);
        let q = hard_run(spans.drop_last(), width);
        let last = spans.last();
        lemma_hard_chars_text(q, width, last.0, last.1);
        lemma_line_text_push_str(q.1, last.0, last.1);
    }
}

/// Character wrapping keeps every character, white space included, in order: the
/// rows' texts, one after another, are the text of the spans.
pub proof fn lemma_hard_wrapped_text(spans: LineView, width: int)
    ensures
        rows_text(hard_wrapped(spans, width)) == line_text(spans),
{
    let w = if width < 1 { 1 } else { width };
    lemma_hard_run_text(spans, w);
    let r = hard_run(spans, w);
    assert(r.0.push((r.1, r.2)).drop_last() == r.0);
}

/// Every row of `rows` is `width` columns wide.
pub open spec fn rows_full(rows: Seq<(LineView, int)>, width: int) -> bool {
    forall|i: int| 0 <= i < rows.len() ==> (#[trigger] rows[i]).1 == width
}

/// Every character of the spans' texts takes one column.
pub open spec fn one_column_spans(spans: LineView) -> bool {
    forall|i: int, k: int| 0 <= i < spans.len() && 0 <= k < spans[i].0.len() ==> char_cols(#[trigger] spans[i].0[k]) == 1
}

proof fn lemma_hard_chars_full(s: HardState, width: int, text: Seq<char>, st: Style)
    requires
        width >= 1,
        rows_full(s.0, width),
        0 <= s.2 <= width,
        forall|k: int| 0 <= k < text.len() ==> char_cols(#[trigger] text[k]) == 1,
    ensures
        rows_full(hard_chars(s, width, text, st).0, width),
        0 <= hard_chars(s, width, text, st).2 <= width,
    decreases text.len(),
{
    if text.len() > 0 {
        assert forall|k: int| 0 <= k < text.drop_last().len() implies char_cols(#[trigger] text.drop_last()[k]) == 1 by {
            assert(text.drop_last()[k] == text[k]);
        }
        lemma_hard_chars_full(s, width, text.drop_last(), st);
        assert(char_cols(text[text.len() - 1]) == 1);
    }
}

proof fn lemma_hard_run_full(spans: LineView, width: int)
    requires
        width >= 1,
        one_column_spans(spans),
    ensures
        rows_full(hard_run(spans, width).0, width),
        0 <= hard_run(spans, width).2 <= width,
    decreases spans.len(),
{
    if spans.len() > 0 {
        let dl = spans.drop_last();
        assert forall|i: int, k: int| 0 <= i < dl.len() && 0 <= k < dl[i].0.len() implies char_cols(#[trigger] dl[i].0[k])
            == 1 by {
            assert(dl[i] == spans[i]);
        }
        lemma_hard_run_full(dl, width);
        let t = spans.last().0;
        assert forall|k: int| 0 <= k < t.len() implies char_cols(#[trigger] t[k]) == 1 by {
            assert(spans[spans.len() - 1].0[k] == t[k]);
        }
        lemma_hard_chars_full(hard_run(dl, width), width, t, spans.last().1);
    }
}

/// Character wrapping of one-column text fills every row but the last to the width
/// (at least one column), and the last to no more than it.
pub proof fn lemma_hard_rows_full(spans: LineView, width: int)
    requires
        one_column_spans(spans),
    ensures
        ({
            let w = if width < 1 { 1 } else { width };
            let r = hard_wrapped(spans, width);
            &&& r.len() >= 1
            &&& forall|i: int| 0 <= i < r.len() - 1 ==> (#[trigger] r[i]).1 == w
            &&& 0 <= r.last().1 <= w
        }),
{
    let w = if width < 1 { 1 } else { width };
    lemma_hard_run_full(spans, w);
    let q = hard_run(spans, w);
    let r = hard_wrapped(spans, width);
    assert forall|i: int| 0 <= i < r.len() - 1 implies (#[trigger] r[i]).1 == w by {
        assert(r[i] == q.0[i]);
    }
}

/// A line of the word wrap: no span is empty, neighbouring spans differ in style, and
/// no tab or line feed is left in it.
pub open spec fn tidy_line(line: LineView) -> bool {
    &&& forall|i: int, k: int| 0 <= i < line.len() && 0 <= k < line[i].0.len() ==> #[trigger] line[i].0[k] != '\t'
        && line[i].0[k] != '\n'
    &&& forall|i: int| 0 <= i < line.len() ==> (#[trigger] line[i]).0.len() > 0
    &&& forall|i: int| 0 <= i < line.len() - 1 ==> (#[trigger] line[i]).1 != line[i + 1].1
}

proof fn lemma_push_char_tidy(line: LineView, c: char, st: Style)
    requires
        tidy_line(line),
        c != '\t' && c != '\n',
    ensures
        tidy_line(push_char_line(line, c, st)),
{
    let r = push_char_line(line, c, st);
    if line.len() > 0 && line.last().1 == st {
        let n = line.len() - 1;
        assert forall|i: int, k: int| 0 <= i < r.len() && 0 <= k < r[i].0.len() implies #[trigger] r[i].0[k] != '\t'
            && r[i].0[k] != '\n' by {
            if i < n {
                assert(r[i] == line[i]);
            } else if k < line[n].0.len() {
                assert(r[i].0[k] == line[n].0[k]);
            }
        }
        assert forall|i: int| 0 <= i < r.len() implies (#[trigger] r[i]).0.len() > 0 by {
            if i < n {
                assert(r[i] == line[i]);
            }
        }
        assert forall|i: int| 0 <= i < r.len() - 1 implies (#[trigger] r[i]).1 != r[i + 1].1 by {
            assert(r[i] == line[i]);
            if i + 1 < n {
                assert(r[i + 1] == line[i + 1]);
            } else {
                assert(r[i + 1].1 == st && line[i + 1].1 == st);
            }
        }
    } else {
        let n = line.len() as int;
        assert forall|i: int, k: int| 0 <= i < r.len() && 0 <= k < r[i].0.len() implies #[trigger] r[i].0[k] != '\t'
            && r[i].0[k] != '\n' by {
            if i < n {
                assert(r[i] == line[i]);
            }
        }
        assert forall|i: int| 0 <= i < r.len() implies (#[trigger] r[i]).0.len() > 0 by {
            if i < n {
                assert(r[i] == line[i]);
            }
        }
        assert forall|i: int| 0 <= i < r.len() - 1 implies (#[trigger] r[i]).1 != r[i + 1].1 by {
            assert(r[i] == line[i]);
            if i + 1 < n {
                assert(r[i + 1] == line[i + 1]);
            } else {
                assert(line.last() == line[i]);
            }
        }
    }
}

/// No character of a collected word is a tab or line feed.
pub open spec fn word_clean(word: Seq<(char, Style, usize)>) -> bool {
    forall|i: int| 0 <= i < word.len() ==> #[trigger] word[i].0 != '\t' && word[i].0 != '\n'
}

proof fn lemma_push_word_tidy(line: LineView, word: Seq<(char, Style, usize)>)
    requires
        tidy_line(line),
        word_clean(word),
    ensures
        tidy_line(push_word_line(line, word)),
    decreases word.len(),
{
    if word.len() > 0 {
        assert(word_clean(word.drop_last())) by {
            assert forall|i: int| 0 <= i < word.drop_last().len() implies #[trigger] word.drop_last()[i].0 != '\t'
                && word.drop_last()[i].0 != '\n' by {
                assert(word.drop_last()[i] == word[i]);
            }
        }
        lemma_push_word_tidy(line, word.drop_last());
        assert(word.last() == word[word.len() - 1]);
        lemma_push_char_tidy(push_word_line(line, word.drop_last()), word.last().0, word.last().1);
    }
}

proof fn lemma_break_word_tidy(lines: Seq<LineView>, cur: LineView, cur_w: int, width: int, word: Seq<(char, Style, usize)>)
    requires
        forall|i: int| 0 <= i < lines.len() ==> tidy_line(#[trigger] lines[i]),
        tidy_line(cur),
        word_clean(word),
    ensures
        ({
            let b = break_word(lines, cur, cur_w, width, word);
            &&& forall|i: int| 0 <= i < b.0.len() ==> tidy_line(#[trigger] b.0[i])
            &&& tidy_line(b.1)
        }),
    decreases word.len(),
{
    if word.len() > 0 {
        assert(word_clean(word.drop_last())) by {
            assert forall|i: int| 0 <= i < word.drop_last().len() implies #[trigger] word.drop_last()[i].0 != '\t'
                && word.drop_last()[i].0 != '\n' by {
                assert(word.drop_last()[i] == word[i]);
            }
        }
        lemma_break_word_tidy(lines, cur, cur_w, width, word.drop_last());
        let prev = break_word(lines, cur, cur_w, width, word.drop_last());
        assert(word.last() == word[word.len() - 1]);
        assert(tidy_line(Seq::<(Seq<char>, Style)>::empty()));
        lemma_push_char_tidy(Seq::empty(), word.last().0, word.last().1);
        lemma_push_char_tidy(prev.1, word.last().0, word.last().1);
        let b = break_word(lines, cur, cur_w, width, word);
        assert forall|i: int| 0 <= i < b.0.len() implies tidy_line(#[trigger] b.0[i]) by {
            if i < prev.0.len() {
                assert(b.0[i] == prev.0[i]);
            }
        }
    }
}

/// Every line of the wrapper's state is tidy and its word has no tab or line feed.
pub open spec fn model_tidy(m: WrapModel) -> bool {
    &&& forall|i: int| 0 <= i < m.lines.len() ==> tidy_line(#[trigger] m.lines[i])
    &&& tidy_line(m.cur)
    &&& word_clean(m.word)
}

proof fn lemma_flush_word_tidy(m: WrapModel, width: int)
    requires
        model_tidy(m),
    ensures
        model_tidy(flush_word(m, width)),
{
    if m.word.len() > 0 {
        let space = if m.cur_w > 0 { m.space } else { None };
        let sp: int = if space is Some { 1 } else { 0 };
        let m1 = if m.cur_w + sp + m.word_w <= width {
            match space {
                Some(st) => WrapModel { cur: push_char_line(m.cur, ' ', st), cur_w: m.cur_w + 1, ..m },
                None => m,
            }
        } else if m.cur_w > 0 {
            break_line(m)
        } else {
            m
        };
        if m.cur_w + sp + m.word_w <= width {
            match space {
                Some(st) => {
                    lemma_push_char_tidy(m.cur, ' ', st);
                },
                None => {},
            }
        } else if m.cur_w > 0 {
            assert(tidy_line(Seq::<(Seq<char>, Style)>::empty()));
            assert forall|i: int| 0 <= i < m1.lines.len() implies tidy_line(#[trigger] m1.lines[i]) by {
                if i < m.lines.len() {
                    assert(m1.lines[i] == m.lines[i]);
                }
            }
        }
        assert(model_tidy(m1));
        lemma_push_word_tidy(m1.cur, m1.word);
        lemma_break_word_tidy(m1.lines, m1.cur, m1.cur_w, width, m1.word);
    }
}

proof fn lemma_wrap_run_tidy(chars: Seq<(char, Style)>, width: int)
    ensures
        model_tidy(wrap_run(chars, width)),
    decreases chars.len(),
{
    if chars.len() == 0 {
        assert(tidy_line(Seq::<(Seq<char>, Style)>::empty()));
    } else {
        let m = wrap_run(chars.drop_last(), width);
        lemma_wrap_run_tidy(chars.drop_last(), width);
        lemma_flush_word_tidy(m, width);
        let c = chars.last();
        let f = flush_word(m, width);
        if c.0 == '\n' {
            assert(tidy_line(Seq::<(Seq<char>, Style)>::empty()));
            let r = wrap_step(m, width, c.0, c.1);
            assert forall|i: int| 0 <= i < r.lines.len() implies tidy_line(#[trigger] r.lines[i]) by {
                if i < f.lines.len() {
                    assert(r.lines[i] == f.lines[i]);
                }
            }
        } else if c.0 == ' ' || c.0 == '\t' {
        } else if c.0 == '\u{FE0F}' {
            let m1 = if m.word.len() > 0 && m.word.last().2 == 1 {
                let e = m.word.last();
                WrapModel { word: m.word.update(m.word.len() - 1, (e.0, e.1, 2usize)), word_w: m.word_w + 1, ..m }
            } else {
                m
            };
            assert(word_clean(m1.word)) by {
                if m.word.len() > 0 && m.word.last().2 == 1 {
                    assert(m.word.last() == m.word[m.word.len() - 1]);
                    assert forall|i: int| 0 <= i < m1.word.len() implies #[trigger] m1.word[i].0 != '\t' && m1.word[i].0
                        != '\n' by {
                        if i < m.word.len() - 1 {
                            assert(m1.word[i] == m.word[i]);
                        }
                    }
                }
            }
            let r = wrap_step(m, width, c.0, c.1);
            assert forall|i: int| 0 <= i < r.word.len() implies #[trigger] r.word[i].0 != '\t' && r.word[i].0 != '\n' by {
                if i < m1.word.len() {
                    assert(r.word[i] == m1.word[i]);
                }
            }
        } else {
            let r = wrap_step(m, width, c.0, c.1);
            assert forall|i: int| 0 <= i < r.word.len() implies #[trigger] r.word[i].0 != '\t' && r.word[i].0 != '\n' by {
                if i < m.word.len() {
                    assert(r.word[i] == m.word[i]);
                }
            }
        }
    }
}

/// Word wrapping leaves no tab or line feed in its lines, no empty span, and no two
/// neighbouring spans of one style.
pub proof fn lemma_wrapped_tidy(spans: LineView, width: int)
    ensures
        forall|i: int| 0 <= i < wrapped(spans, width).len() ==> tidy_line(#[trigger] wrapped(spans, width)[i]),
{
    let w = if width < 1 { 1 } else { width };
    let run = wrap_run(styled_chars(spans), w);
    lemma_wrap_run_tidy(styled_chars(spans), w);
    lemma_flush_word_tidy(run, w);
    let m = flush_word(run, w);
    let r = wrapped(spans, width);
    assert forall|i: int| 0 <= i < r.len() implies tidy_line(#[trigger] r[i]) by {
        if i < m.lines.len() {
            assert(r[i] == m.lines[i]);
        } else {
            assert(r[i] == m.cur);
        }
    }
}

/// The characters that word wrapping may turn into line breaks or drop.
pub open spec fn is_gap(c: char) -> bool {
    c == ' ' || c == '\t' || c == '\n'
}

/// `s` without spaces, tabs and line feeds.
pub open spec fn visible(s: Seq<char>) -> Seq<char>
    decreases s.len(),
{
    if s.len() == 0 {
        Seq::empty()
    } else {
        visible(s.drop_last()) + if is_gap(s.last()) { Seq::empty() } else { seq![s.last()] }
    }
}

proof fn lemma_visible_gap(c: char)
    ensures
        visible(seq![c]) == if is_gap(c) { Seq::<char>::empty() } else { seq![c] },
{
    let s = seq![c];
    assert(s.drop_last() =~= Seq::<char>::empty());
    assert(visible(Seq::<char>::empty()) =~= Seq::<char>::empty());
    assert(s.last() == c);
    if is_gap(c) {
        assert(visible(s) =~= Seq::<char>::empty());
    } else {
        assert(visible(s) =~= seq![c]);
    }
}

proof fn lemma_visible_add(a: Seq<char>, b: Seq<char>)
    ensures
        visible(a + b) == visible(a) + visible(b),
    decreases b.len(),
{
    if b.len() == 0 {
        assert(a + b == a);
    } else {
        lemma_visible_add(a, b.drop_last());
        assert((a + b).drop_last() == a + b.drop_last());
        assert((a + b).last() == b.last());
    }
}

/// The characters of a collected word.
pub open spec fn word_text(word: Seq<(char, Style, usize)>) -> Seq<char> {
    word.map_values(|e: (char, Style, usize)| e.0)
}

/// All the text in the wrapper's state: finished lines, the current line, the word.
pub open spec fn model_text(m: WrapModel) -> Seq<char> {
    lines_text(m.lines) + line_text(m.cur) + word_text(m.word)
}

proof fn lemma_push_word_text(line: LineView, word: Seq<(char, Style, usize)>)
    ensures
        line_text(push_word_line(line, word)) == line_text(line) + word_text(word),
    decreases word.len(),
{
    if word.len() == 0 {
        assert(word_text(word) == Seq::<char>::empty());
        assert(line_text(line) + Seq::<char>::empty() == line_text(line));
    } else {
        lemma_push_word_text(line, word.drop_last());
        lemma_line_text_push_char(push_word_line(line, word.drop_last()), word.last().0, word.last().1);
        assert(word_text(word) == word_text(word.drop_last()).push(word.last().0));
        assert(line_text(line) + word_text(word.drop_last()).push(word.last().0)
            == (line_text(line) + word_text(word.drop_last())).push(word.last().0));
    }
}

proof fn lemma_break_word_text(
    lines: Seq<LineView>,
    cur: LineView,
    cur_w: int,
    width: int,
    word: Seq<(char, Style, usize)>,
)
    ensures
        ({
            let b = break_word(lines, cur, cur_w, width, word);
            lines_text(b.0) + line_text(b.1) == lines_text(lines) + line_text(cur) + word_text(word)
        }),
    decreases word.len(),
{
    if word.len() == 0 {
        assert(word_text(word) == Seq::<char>::empty());
        assert(lines_text(lines) + line_text(cur) + Seq::<char>::empty() == lines_text(lines) + line_text(cur));
    } else {
        lemma_break_word_text(lines, cur, cur_w, width, word.drop_last());
        let prev = break_word(lines, cur, cur_w, width, word.drop_last());
        let e = word.last();
        let base = lines_text(lines) + line_text(cur);
        assert(word_text(word) =~= word_text(word.drop_last()).push(e.0));
        let mid = lines_text(prev.0) + line_text(prev.1);
        assert(mid == base + word_text(word.drop_last()));
        let b = break_word(lines, cur, cur_w, width, word);
        if prev.2 + e.2 > width && prev.2 > 0 {
            lemma_lines_text_push(prev.0, prev.1);
            lemma_line_text_push_char(Seq::empty(), e.0, e.1);
            assert(line_text(Seq::<(Seq<char>, Style)>::empty()) == Seq::<char>::empty());
            assert(line_text(push_char_line(Seq::empty(), e.0, e.1)) =~= seq![e.0]);
            assert(lines_text(b.0) == mid);
            assert(lines_text(b.0) + line_text(b.1) =~= mid.push(e.0));
        } else {
            lemma_line_text_push_char(prev.1, e.0, e.1);
            assert(lines_text(b.0) + line_text(b.1) =~= mid.push(e.0));
        }
        assert(base + word_text(word) =~= (base + word_text(word.drop_last())).push(e.0));
    }
}

proof fn lemma_flush_word_text(m: WrapModel, width: int)
    ensures
        visible(model_text(flush_word(m, width))) == visible(model_text(m)),
        flush_word(m, width).word.len() == 0 || m.word.len() == 0,
        m.word.len() == 0 ==> flush_word(m, width) == m,
{
    if m.word.len() > 0 {
        let space = if m.cur_w > 0 { m.space } else { None };
        let sp: int = if space is Some { 1 } else { 0 };
        let m1 = if m.cur_w + sp + m.word_w <= width {
            match space {
                Some(st) => WrapModel { cur: push_char_line(m.cur, ' ', st), cur_w: m.cur_w + 1, ..m },
                None => m,
            }
        } else if m.cur_w > 0 {
            break_line(m)
        } else {
            m
        };
        let wt = word_text(m.word);
        // The text before the word is kept, apart from an added space.
        let before = lines_text(m.lines) + line_text(m.cur);
        let before1 = lines_text(m1.lines) + line_text(m1.cur);
        if m.cur_w + sp + m.word_w <= width {
            match space {
                Some(st) => {
                    lemma_line_text_push_char(m.cur, ' ', st);
                    assert(before1 =~= before.push(' '));
                    lemma_visible_add(before, seq![' ']);
                    lemma_visible_gap(' ');
                    assert(before.push(' ') =~= before + seq![' ']);
                    assert(visible(before1) =~= visible(before));
                },
                None => {},
            }
        } else if m.cur_w > 0 {
            lemma_lines_text_push(m.lines, m.cur);
            assert(line_text(Seq::<(Seq<char>, Style)>::empty()) == Seq::<char>::empty());
            assert(before1 =~= before);
        }
        assert(visible(before1) == visible(before));
        let m2 = if m1.cur_w + m1.word_w <= width {
            WrapModel { cur: push_word_line(m1.cur, m1.word), cur_w: m1.cur_w + m1.word_w, ..m1 }
        } else {
            let b = break_word(m1.lines, m1.cur, m1.cur_w, width, m1.word);
            WrapModel { lines: b.0, cur: b.1, cur_w: b.2, ..m1 }
        };
        if m1.cur_w + m1.word_w <= width {
            lemma_push_word_text(m1.cur, m1.word);
        } else {
            lemma_break_word_text(m1.lines, m1.cur, m1.cur_w, width, m1.word);
        }
        assert(lines_text(m2.lines) + line_text(m2.cur) =~= before1 + wt);
        let f = flush_word(m, width);
        assert(word_text(f.word) =~= Seq::<char>::empty());
        assert(model_text(f) =~= before1 + wt);
        assert(model_text(m) =~= before + wt);
        lemma_visible_add(before1, wt);
        lemma_visible_add(before, wt);
    }
}

proof fn lemma_wrap_step_text(m: WrapModel, width: int, c: char, st: Style)
    ensures
        visible(model_text(wrap_step(m, width, c, st))) == visible(model_text(m) + seq![c]),
{
    lemma_flush_word_text(m, width);
    lemma_visible_add(model_text(m), seq![c]);
    lemma_visible_gap(c);
    let r = wrap_step(m, width, c, st);
    if c == '\n' {
        let f = flush_word(m, width);
        lemma_lines_text_push(f.lines, f.cur);
        assert(line_text(Seq::<(Seq<char>, Style)>::empty()) == Seq::<char>::empty());
        assert(model_text(r) =~= model_text(f));
    } else if c == ' ' || c == '\t' {
        let f = flush_word(m, width);
        assert(model_text(r) =~= model_text(f));
    } else if c == '\u{FE0F}' {
        let m1 = if m.word.len() > 0 && m.word.last().2 == 1 {
            let e = m.word.last();
            WrapModel {
                word: m.word.update(m.word.len() - 1, (e.0, e.1, 2usize)),
                word_w: m.word_w + 1,
                ..m
            }
        } else {
            m
        };
        assert(word_text(m1.word) =~= word_text(m.word));
        assert(word_text(r.word) =~= word_text(m.word).push(c));
        assert(model_text(r) =~= model_text(m) + seq![c]);
    } else {
        assert(word_text(r.word) =~= word_text(m.word).push(c));
        assert(model_text(r) =~= model_text(m) + seq![c]);
    }
}

proof fn lemma_wrap_run_text(chars: Seq<(char, Style)>, width: int)
    ensures
        visible(model_text(wrap_run(chars, width))) == visible(chars.map_values(|e: (char, Style)| e.0)),
    decreases chars.len(),
{
    let texts = chars.map_values(|e: (char, Style)| e.0);
    if chars.len() == 0 {
        let m = wrap_run(chars, width);
        assert(model_text(m) =~= Seq::<char>::empty());
        assert(texts =~= Seq::<char>::empty());
    } else {
        lemma_wrap_run_text(chars.drop_last(), width);
        let c = chars.last();
        lemma_wrap_step_text(wrap_run(chars.drop_last(), width), width, c.0, c.1);
        let m = wrap_run(chars.drop_last(), width);
        lemma_visible_add(model_text(m), seq![c.0]);
        let prev = chars.drop_last().map_values(|e: (char, Style)| e.0);
        assert(texts =~= prev + seq![c.0]);
        lemma_visible_add(prev, seq![c.0]);
    }
}

pub proof fn lemma_styled_chars_text(spans: LineView)
    ensures
        styled_chars(spans).map_values(|e: (char, Style)| e.0) == line_text(spans),
    decreases spans.len(),
{
    if spans.len() > 0 {
        lemma_styled_chars_text(spans.drop_last());
        let a = styled_chars(spans.drop_last());
        let b = spans.last().0.map_values(|c: char| (c, spans.last().1));
        assert((a + b).map_values(|e: (char, Style)| e.0) =~= a.map_values(|e: (char, Style)| e.0) + spans.last().0);
    } else {
        assert(styled_chars(spans).map_values(|e: (char, Style)| e.0) =~= Seq::<char>::empty());
    }
}

/// Word wrapping keeps the text: leaving out spaces, tabs and line feeds, the wrapped
/// lines hold exactly the characters of the spans, in order. It also gives at least
/// one line.
pub proof fn lemma_wrapped_text(spans: LineView, width: int)
    ensures
        visible(lines_text(wrapped(spans, width))) == visible(line_text(spans)),
        wrapped(spans, width).len() >= 1,
{
    let w = if width < 1 { 1 } else { width };
    let run = wrap_run(styled_chars(spans), w);
    lemma_wrap_run_text(styled_chars(spans), w);
    lemma_styled_chars_text(spans);
    lemma_flush_word_text(run, w);
    let m = flush_word(run, w);
    assert(word_text(m.word) =~= Seq::<char>::empty());
    assert(model_text(m) =~= lines_text(m.lines) + line_text(m.cur));
    if m.cur.len() > 0 || m.lines.len() == 0 {
        lemma_lines_text_push(m.lines, m.cur);
    } else {
        assert(line_text(m.cur) == Seq::<char>::empty());
        assert(lines_text(m.lines) + line_text(m.cur) =~= lines_text(m.lines));
    }
}

/// The styled characters of several lines, one after another.
pub open spec fn lines_styled(lines: Seq<LineView>) -> Seq<(char, Style)>
    decreases lines.len(),
{
    if lines.len() == 0 {
        Seq::empty()
    } else {
        lines_styled(lines.drop_last()) + styled_chars(lines.last())
    }
}

/// The styled characters other than spaces, tabs and line feeds.
pub open spec fn visible_styled(s: Seq<(char, Style)>) -> Seq<(char, Style)>
    decreases s.len(),
{
    if s.len() == 0 {
        Seq::empty()
    } else {
        visible_styled(s.drop_last()) + if is_gap(s.last().0) { Seq::empty() } else { seq![s.last()] }
    }
}

proof fn lemma_visible_styled_add(a: Seq<(char, Style)>, b: Seq<(char, Style)>)
    ensures
        visible_styled(a + b) == visible_styled(a) + visible_styled(b),
    decreases b.len(),
{
    if b.len() == 0 {
        assert(a + b == a);
    } else {
        lemma_visible_styled_add(a, b.drop_last());
        assert((a + b).drop_last() == a + b.drop_last());
        assert((a + b).last() == b.last());
    }
}

proof fn lemma_visible_styled_one(e: (char, Style))
    ensures
        visible_styled(seq![e]) == if is_gap(e.0) { Seq::<(char, Style)>::empty() } else { seq![e] },
{
    let s = seq![e];
    assert(s.drop_last() =~= Seq::<(char, Style)>::empty());
    assert(visible_styled(Seq::<(char, Style)>::empty()) =~= Seq::<(char, Style)>::empty());
    assert(s.last() == e);
    if is_gap(e.0) {
        assert(visible_styled(s) =~= Seq::<(char, Style)>::empty());
    } else {
        assert(visible_styled(s) =~= seq![e]);
    }
}

proof fn lemma_styled_push_char(line: LineView, c: char, st: Style)
    ensures
        styled_chars(push_char_line(line, c, st)) == styled_chars(line).push((c, st)),
{
    let r = push_char_line(line, c, st);
    if line.len() > 0 && line.last().1 == st {
        assert(r.drop_last() == line.drop_last());
        assert(r.last() == (line.last().0.push(c), st));
        assert(line.last().0.push(c).map_values(|x: char| (x, st)) =~= line.last().0.map_values(|x: char| (x, st)).push(
            (c, st),
        ));
    } else {
        assert(r.drop_last() == line);
        assert(r.last() == (seq![c], st));
        assert(seq![c].map_values(|x: char| (x, st)) =~= seq![(c, st)]);
    }
}

proof fn lemma_lines_styled_push(lines: Seq<LineView>, line: LineView)
    ensures
        lines_styled(lines.push(line)) == lines_styled(lines) + styled_chars(line),
{
    assert(lines.push(line).drop_last() == lines);
}

/// The styled characters of a collected word.
pub open spec fn word_styled(word: Seq<(char, Style, usize)>) -> Seq<(char, Style)> {
    word.map_values(|e: (char, Style, usize)| (e.0, e.1))
}

/// All the styled characters in the wrapper's state.
pub open spec fn model_styled(m: WrapModel) -> Seq<(char, Style)> {
    lines_styled(m.lines) + styled_chars(m.cur) + word_styled(m.word)
}

proof fn lemma_push_word_styled(line: LineView, word: Seq<(char, Style, usize)>)
    ensures
        styled_chars(push_word_line(line, word)) == styled_chars(line) + word_styled(word),
    decreases word.len(),
{
    if word.len() == 0 {
        assert(styled_chars(line) + word_styled(word) =~= styled_chars(line));
    } else {
        lemma_push_word_styled(line, word.drop_last());
        lemma_styled_push_char(push_word_line(line, word.drop_last()), word.last().0, word.last().1);
        assert(word_styled(word) =~= word_styled(word.drop_last()).push((word.last().0, word.last().1)));
        assert(styled_chars(line) + word_styled(word) =~= (styled_chars(line) + word_styled(word.drop_last())).push(
            (word.last().0, word.last().1),
        ));
    }
}

proof fn lemma_break_word_styled(
    lines: Seq<LineView>,
    cur: LineView,
    cur_w: int,
    width: int,
    word: Seq<(char, Style, usize)>,
)
    ensures
        ({
            let b = break_word(lines, cur, cur_w, width, word);
            lines_styled(b.0) + styled_chars(b.1) == lines_styled(lines) + styled_chars(cur) + word_styled(word)
        }),
    decreases word.len(),
{
    if word.len() == 0 {
        assert(lines_styled(lines) + styled_chars(cur) + word_styled(word) =~= lines_styled(lines) + styled_chars(cur));
    } else {
        lemma_break_word_styled(lines, cur, cur_w, width, word.drop_last());
        let prev = break_word(lines, cur, cur_w, width, word.drop_last());
        let e = word.last();
        let base = lines_styled(lines) + styled_chars(cur);
        assert(word_styled(word) =~= word_styled(word.drop_last()).push((e.0, e.1)));
        let mid = lines_styled(prev.0) + styled_chars(prev.1);
        let b = break_word(lines, cur, cur_w, width, word);
        if prev.2 + e.2 > width && prev.2 > 0 {
            lemma_lines_styled_push(prev.0, prev.1);
            lemma_styled_push_char(Seq::empty(), e.0, e.1);
            assert(styled_chars(Seq::<(Seq<char>, Style)>::empty()) == Seq::<(char, Style)>::empty());
            assert(styled_chars(push_char_line(Seq::empty(), e.0, e.1)) =~= seq![(e.0, e.1)]);
            assert(lines_styled(b.0) + styled_chars(b.1) =~= mid.push((e.0, e.1)));
        } else {
            lemma_styled_push_char(prev.1, e.0, e.1);
            assert(lines_styled(b.0) + styled_chars(b.1) =~= mid.push((e.0, e.1)));
        }
        assert(base + word_styled(word) =~= (base + word_styled(word.drop_last())).push((e.0, e.1)));
    }
}

proof fn lemma_flush_word_styled(m: WrapModel, width: int)
    ensures
        visible_styled(model_styled(flush_word(m, width))) == visible_styled(model_styled(m)),
{
    if m.word.len() > 0 {
        let space = if m.cur_w > 0 { m.space } else { None };
        let sp: int = if space is Some { 1 } else { 0 };
        let m1 = if m.cur_w + sp + m.word_w <= width {
            match space {
                Some(st) => WrapModel { cur: push_char_line(m.cur, ' ', st), cur_w: m.cur_w + 1, ..m },
                None => m,
            }
        } else if m.cur_w > 0 {
            break_line(m)
        } else {
            m
        };
        let wt = word_styled(m.word);
        let before = lines_styled(m.lines) + styled_chars(m.cur);
        let before1 = lines_styled(m1.lines) + styled_chars(m1.cur);
        if m.cur_w + sp + m.word_w <= width {
            match space {
                Some(st) => {
                    lemma_styled_push_char(m.cur, ' ', st);
                    assert(before1 =~= before.push((' ', st)));
                    lemma_visible_styled_add(before, seq![(' ', st)]);
                    lemma_visible_styled_one((' ', st));
                    assert(before.push((' ', st)) =~= before + seq![(' ', st)]);
                    assert(visible_styled(before1) =~= visible_styled(before));
                },
                None => {},
            }
        } else if m.cur_w > 0 {
            lemma_lines_styled_push(m.lines, m.cur);
            assert(styled_chars(Seq::<(Seq<char>, Style)>::empty()) == Seq::<(char, Style)>::empty());
            assert(before1 =~= before);
        }
        assert(visible_styled(before1) == visible_styled(before));
        let m2 = if m1.cur_w + m1.word_w <= width {
            WrapModel { cur: push_word_line(m1.cur, m1.word), cur_w: m1.cur_w + m1.word_w, ..m1 }
        } else {
            let b = break_word(m1.lines, m1.cur, m1.cur_w, width, m1.word);
            WrapModel { lines: b.0, cur: b.1, cur_w: b.2, ..m1 }
        };
        if m1.cur_w + m1.word_w <= width {
            lemma_push_word_styled(m1.cur, m1.word);
        } else {
            lemma_break_word_styled(m1.lines, m1.cur, m1.cur_w, width, m1.word);
        }
        assert(lines_styled(m2.lines) + styled_chars(m2.cur) =~= before1 + wt);
        let f = flush_word(m, width);
        assert(word_styled(f.word) =~= Seq::<(char, Style)>::empty());
        assert(model_styled(f) =~= before1 + wt);
        assert(model_styled(m) =~= before + wt);
        lemma_visible_styled_add(before1, wt);
        lemma_visible_styled_add(before, wt);
    }
}

proof fn lemma_wrap_step_styled(m: WrapModel, width: int, c: char, st: Style)
    ensures
        visible_styled(model_styled(wrap_step(m, width, c, st))) == visible_styled(model_styled(m) + seq![(c, st)]),
{
    lemma_flush_word_styled(m, width);
    lemma_visible_styled_add(model_styled(m), seq![(c, st)]);
    lemma_visible_styled_one((c, st));
    let r = wrap_step(m, width, c, st);
    if c == '\n' {
        let f = flush_word(m, width);
        lemma_lines_styled_push(f.lines, f.cur);
        assert(styled_chars(Seq::<(Seq<char>, Style)>::empty()) == Seq::<(char, Style)>::empty());
        assert(model_styled(r) =~= model_styled(f));
    } else if c == ' ' || c == '\t' {
        let f = flush_word(m, width);
        assert(model_styled(r) =~= model_styled(f));
    } else if c == '\u{FE0F}' {
        let m1 = if m.word.len() > 0 && m.word.last().2 == 1 {
            let e = m.word.last();
            WrapModel { word: m.word.update(m.word.len() - 1, (e.0, e.1, 2usize)), word_w: m.word_w + 1, ..m }
        } else {
            m
        };
        assert(word_styled(m1.word) =~= word_styled(m.word));
        assert(word_styled(r.word) =~= word_styled(m.word).push((c, st)));
        assert(model_styled(r) =~= model_styled(m) + seq![(c, st)]);
    } else {
        assert(word_styled(r.word) =~= word_styled(m.word).push((c, st)));
        assert(model_styled(r) =~= model_styled(m) + seq![(c, st)]);
    }
}

proof fn lemma_wrap_run_styled(chars: Seq<(char, Style)>, width: int)
    ensures
        visible_styled(model_styled(wrap_run(chars, width))) == visible_styled(chars),
    decreases chars.len(),
{
    if chars.len() == 0 {
        let m = wrap_run(chars, width);
        assert(model_styled(m) =~= Seq::<(char, Style)>::empty());
    } else {
        lemma_wrap_run_styled(chars.drop_last(), width);
        let c = chars.last();
        lemma_wrap_step_styled(wrap_run(chars.drop_last(), width), width, c.0, c.1);
        let m = wrap_run(chars.drop_last(), width);
        lemma_visible_styled_add(model_styled(m), seq![c]);
        assert(chars =~= chars.drop_last() + seq![c]);
        lemma_visible_styled_add(chars.drop_last(), seq![c]);
    }
}

/// Word wrapping keeps every character with its own style: leaving out spaces, tabs
/// and line feeds, the wrapped lines hold exactly the characters of the spans, in order,
/// each in the style of the span it came from.
pub proof fn lemma_wrapped_styled(spans: LineView, width: int)
    ensures
        visible_styled(lines_styled(wrapped(spans, width))) == visible_styled(styled_chars(spans)),
{
    let w = if width < 1 { 1 } else { width };
    let run = wrap_run(styled_chars(spans), w);
    lemma_wrap_run_styled(styled_chars(spans), w);
    lemma_flush_word_styled(run, w);
    let m = flush_word(run, w);
    lemma_flush_word_text(run, w);
    assert(word_styled(m.word) =~= Seq::<(char, Style)>::empty());
    assert(model_styled(m) =~= lines_styled(m.lines) + styled_chars(m.cur));
    if m.cur.len() > 0 || m.lines.len() == 0 {
        lemma_lines_styled_push(m.lines, m.cur);
    } else {
        assert(styled_chars(m.cur) == Seq::<(char, Style)>::empty());
        assert(lines_styled(m.lines) + styled_chars(m.cur) =~= lines_styled(m.lines));
    }
}

/// The styled characters of rows, one after another.
pub open spec fn rows_styled(rows: Seq<(LineView, int)>) -> Seq<(char, Style)>
    decreases rows.len(),
{
    if rows.len() == 0 {
        Seq::empty()
    } else {
        rows_styled(rows.drop_last()) + styled_chars(rows.last().0)
    }
}

/// The characters of `s`, each in style `st`.
pub open spec fn in_style(s: Seq<char>, st: Style) -> Seq<(char, Style)> {
    s.map_values(|c: char| (c, st))
}

proof fn lemma_styled_push_str(line: LineView, s: Seq<char>, st: Style)
    ensures
        styled_chars(push_str_line(line, s, st)) == styled_chars(line) + in_style(s, st),
{
    let r = push_str_line(line, s, st);
    if line.len() > 0 && line.last().1 == st {
        assert(r.drop_last() == line.drop_last());
        assert(r.last() == (line.last().0 + s, st));
        assert((line.last().0 + s).map_values(|x: char| (x, st)) =~= line.last().0.map_values(|x: char| (x, st)) + in_style(
            s,
            st,
        ));
    } else {
        assert(r.drop_last() == line);
        assert(r.last() == (s, st));
    }
}

proof fn lemma_hard_chars_styled(s: HardState, width: int, text: Seq<char>, st: Style)
    ensures
        ({
            let r = hard_chars(s, width, text, st);
            rows_styled(r.0) + styled_chars(r.1) == rows_styled(s.0) + styled_chars(s.1) + in_style(text, st)
        }),
    decreases text.len(),
{
    if text.len() == 0 {
        assert(in_style(text, st) =~= Seq::<(char, Style)>::empty());
        assert(rows_styled(s.0) + styled_chars(s.1) + in_style(text, st) =~= rows_styled(s.0) + styled_chars(s.1));
    } else {
        lemma_hard_chars_styled(s, width, text.drop_last(), st);
        let p = hard_chars(s, width, text.drop_last(), st);
        let c = text.last();
        let base = rows_styled(s.0) + styled_chars(s.1);
        assert(in_style(text, st) =~= in_style(text.drop_last(), st).push((c, st)));
        let cw = char_cols(c) as int;
        let r = hard_chars(s, width, text, st);
        if p.2 + cw > width && p.2 > 0 {
            lemma_styled_push_char(Seq::empty(), c, st);
            assert(styled_chars(Seq::<(Seq<char>, Style)>::empty()) == Seq::<(char, Style)>::empty());
            assert(p.0.push((p.1, p.2)).drop_last() == p.0);
            assert(rows_styled(r.0) == rows_styled(p.0) + styled_chars(p.1));
            assert(styled_chars(r.1) =~= seq![(c, st)]);
            assert(rows_styled(r.0) + styled_chars(r.1) =~= base + in_style(text, st));
        } else {
            lemma_styled_push_char(p.1, c, st);
            assert(r.0 == p.0);
            assert(r.1 == push_char_line(p.1, c, st));
            assert(styled_chars(r.1) == styled_chars(p.1).push((c, st)));
            assert(rows_styled(p.0) + styled_chars(p.1) == base + in_style(text.drop_last(), st));
            assert(rows_styled(p.0) + styled_chars(p.1).push((c, st)) =~= (rows_styled(p.0) + styled_chars(p.1)).push(
                (c, st),
            ));
            assert((base + in_style(text.drop_last(), st)).push((c, st)) =~= base + in_style(text, st));
            assert(rows_styled(r.0) + styled_chars(r.1) =~= base + in_style(text, st));
        }
    }
}

proof fn lemma_hard_run_styled(spans: LineView, width: int)
    ensures
        ({
            let r = hard_run(spans, width);
            rows_styled(r.0) + styled_chars(r.1) == styled_chars(spans)
        }),
    decreases spans.len(),
{
    if spans.len() > 0 {
        lemma_hard_run_styled(spans.drop_last(), width);
        let q = hard_run(spans.drop_last(), width);
        let last = spans.last();
        lemma_hard_chars_styled(q, width, last.0, last.1);
        lemma_styled_push_str(q.1, last.0, last.1);
        assert(styled_chars(spans) == styled_chars(spans.drop_last()) + in_style(last.0, last.1));
    } else {
        let r = hard_run(spans, width);
        assert(rows_styled(r.0) + styled_chars(r.1) =~= Seq::<(char, Style)>::empty());
    }
}

/// Character wrapping keeps every character, white space included, in order and in
/// the style of the span it came from.
pub proof fn lemma_hard_wrapped_styled(spans: LineView, width: int)
    ensures
        rows_styled(hard_wrapped(spans, width)) == styled_chars(spans),
{
    let w = if width < 1 { 1 } else { width };
    lemma_hard_run_styled(spans, w);
    let r = hard_run(spans, w);
    assert(r.0.push((r.1, r.2)).drop_last() == r.0);
}

/// No leading or trailing space, and no two spaces in a row.
pub open spec fn well_spaced(t: Seq<char>) -> bool {
    &&& (t.len() > 0 ==> t[0] != ' ' && t.last() != ' ')
    &&& forall|i: int| 0 <= i < t.len() - 1 ==> !(#[trigger] t[i] == ' ' && t[i + 1] == ' ')
}

/// `s` holds no space.
pub open spec fn no_space(s: Seq<char>) -> bool {
    forall|i: int| 0 <= i < s.len() ==> #[trigger] s[i] != ' '
}

proof fn lemma_spaced_append(a: Seq<char>, b: Seq<char>)
    requires
        well_spaced(a),
        no_space(b),
    ensures
        well_spaced(a + b),
{
    let t = a + b;
    assert forall|i: int| 0 <= i < t.len() - 1 implies !(#[trigger] t[i] == ' ' && t[i + 1] == ' ') by {
        if i + 1 < a.len() {
            assert(t[i] == a[i] && t[i + 1] == a[i + 1]);
        } else {
            assert(t[i + 1] == b[i + 1 - a.len()]);
        }
    }
    if t.len() > 0 {
        if a.len() > 0 {
            assert(t[0] == a[0]);
        } else {
            assert(t[0] == b[0]);
        }
        if b.len() > 0 {
            assert(t.last() == b[b.len() - 1]);
        } else {
            assert(t.last() == a.last());
        }
    }
}

proof fn lemma_spaced_join(a: Seq<char>, b: Seq<char>)
    requires
        well_spaced(a),
        a.len() > 0,
        b.len() > 0,
        no_space(b),
    ensures
        well_spaced(a.push(' ') + b),
{
    let t = a.push(' ') + b;
    let n = a.len() as int;
    assert forall|i: int| 0 <= i < t.len() - 1 implies !(#[trigger] t[i] == ' ' && t[i + 1] == ' ') by {
        if i + 1 < n {
            assert(t[i] == a[i] && t[i + 1] == a[i + 1]);
        } else if i + 1 == n {
            assert(t[i] == a.last());
        } else if i == n {
            assert(t[i + 1] == b[0]);
        } else {
            assert(t[i + 1] == b[i + 1 - n - 1]);
        }
    }
    assert(t[0] == a[0]);
    assert(t.last() == b[b.len() - 1]);
}

proof fn lemma_word_no_space(word: Seq<(char, Style, usize)>)
    requires
        forall|i: int| 0 <= i < word.len() ==> #[trigger] word[i].0 != ' ',
    ensures
        no_space(word_text(word)),
{
    assert forall|i: int| 0 <= i < word_text(word).len() implies #[trigger] word_text(word)[i] != ' ' by {
        assert(word_text(word)[i] == word[i].0);
    }
}

/// Every line of the wrapper's state is well spaced, the current line has text where
/// columns of it are in use, and no space is in the collected word.
spec fn spaced_model(m: WrapModel) -> bool {
    &&& forall|i: int| 0 <= i < m.lines.len() ==> well_spaced(line_text(#[trigger] m.lines[i]))
    &&& well_spaced(line_text(m.cur))
    &&& m.cur_w > 0 ==> line_text(m.cur).len() > 0
    &&& forall|i: int| 0 <= i < m.word.len() ==> #[trigger] m.word[i].0 != ' '
}

proof fn lemma_break_word_spaced(
    lines: Seq<LineView>,
    cur: LineView,
    cur_w: int,
    width: int,
    word: Seq<(char, Style, usize)>,
)
    requires
        forall|i: int| 0 <= i < lines.len() ==> well_spaced(line_text(#[trigger] lines[i])),
        well_spaced(line_text(cur)),
        cur_w > 0 ==> line_text(cur).len() > 0,
        forall|i: int| 0 <= i < word.len() ==> #[trigger] word[i].0 != ' ',
    ensures
        ({
            let b = break_word(lines, cur, cur_w, width, word);
            &&& forall|i: int| 0 <= i < b.0.len() ==> well_spaced(line_text(#[trigger] b.0[i]))
            &&& well_spaced(line_text(b.1))
            &&& b.2 > 0 ==> line_text(b.1).len() > 0
            &&& word.len() > 0 ==> line_text(b.1).len() > 0
        }),
    decreases word.len(),
{
    if word.len() > 0 {
        assert forall|i: int| 0 <= i < word.drop_last().len() implies #[trigger] word.drop_last()[i].0 != ' ' by {
            assert(word.drop_last()[i] == word[i]);
        }
        lemma_break_word_spaced(lines, cur, cur_w, width, word.drop_last());
        let prev = break_word(lines, cur, cur_w, width, word.drop_last());
        let e = word.last();
        assert(e.0 != ' ') by {
            assert(e == word[word.len() - 1]);
        }
        assert(no_space(seq![e.0]));
        let b = break_word(lines, cur, cur_w, width, word);
        if prev.2 + e.2 > width && prev.2 > 0 {
            lemma_line_text_push_char(Seq::empty(), e.0, e.1);
            assert(line_text(Seq::<(Seq<char>, Style)>::empty()) == Seq::<char>::empty());
            assert(line_text(b.1) =~= seq![e.0]);
            assert forall|i: int| 0 <= i < b.0.len() implies well_spaced(line_text(#[trigger] b.0[i])) by {
                if i < prev.0.len() {
                    assert(b.0[i] == prev.0[i]);
                } else {
                    assert(b.0[i] == prev.1);
                }
            }
        } else {
            lemma_line_text_push_char(prev.1, e.0, e.1);
            lemma_spaced_append(line_text(prev.1), seq![e.0]);
            assert(line_text(prev.1).push(e.0) =~= line_text(prev.1) + seq![e.0]);
        }
    }
}

proof fn lemma_flush_word_spaced(m: WrapModel, width: int)
    requires
        spaced_model(m),
    ensures
        spaced_model(flush_word(m, width)),
{
    if m.word.len() > 0 {
        let space = if m.cur_w > 0 { m.space } else { None };
        let sp: int = if space is Some { 1 } else { 0 };
        let wt = word_text(m.word);
        lemma_word_no_space(m.word);
        let f = flush_word(m, width);
        if m.cur_w + sp + m.word_w <= width && space is Some {
            let st = space.unwrap();
            let m1 = WrapModel { cur: push_char_line(m.cur, ' ', st), cur_w: m.cur_w + 1, ..m };
            lemma_line_text_push_char(m.cur, ' ', st);
            if m1.cur_w + m1.word_w <= width {
                lemma_push_word_text(m1.cur, m1.word);
                assert(line_text(f.cur) == line_text(m.cur).push(' ') + wt);
                lemma_spaced_join(line_text(m.cur), wt);
                assert(wt.len() == m.word.len());
            } else {
                // Cannot happen: the word fits after the space.
                assert(false);
            }
        } else {
            let m1 = if m.cur_w + sp + m.word_w <= width {
                m
            } else if m.cur_w > 0 {
                break_line(m)
            } else {
                m
            };
            if !(m.cur_w + sp + m.word_w <= width) && m.cur_w > 0 {
                assert(line_text(Seq::<(Seq<char>, Style)>::empty()) == Seq::<char>::empty());
                assert forall|i: int| 0 <= i < m1.lines.len() implies well_spaced(line_text(#[trigger] m1.lines[i])) by {
                    if i < m.lines.len() {
                        assert(m1.lines[i] == m.lines[i]);
                    }
                }
            }
            assert(spaced_model(m1));
            assert(f == (if m1.cur_w + m1.word_w <= width {
                WrapModel {
                    cur: push_word_line(m1.cur, m1.word),
                    cur_w: m1.cur_w + m1.word_w,
                    word: Seq::empty(),
                    word_w: 0,
                    space: None,
                    ..m1
                }
            } else {
                let b = break_word(m1.lines, m1.cur, m1.cur_w, width, m1.word);
                WrapModel { lines: b.0, cur: b.1, cur_w: b.2, word: Seq::empty(), word_w: 0, space: None, ..m1 }
            }));
            if m1.cur_w + m1.word_w <= width {
                lemma_push_word_text(m1.cur, m1.word);
                lemma_spaced_append(line_text(m1.cur), wt);
                assert(wt.len() > 0);
            } else {
                lemma_break_word_spaced(m1.lines, m1.cur, m1.cur_w, width, m1.word);
            }
        }
    }
}

proof fn lemma_wrap_run_spaced(chars: Seq<(char, Style)>, width: int)
    ensures
        spaced_model(wrap_run(chars, width)),
    decreases chars.len(),
{
    if chars.len() > 0 {
        let m = wrap_run(chars.drop_last(), width);
        lemma_wrap_run_spaced(chars.drop_last(), width);
        lemma_flush_word_spaced(m, width);
        let c = chars.last();
        let f = flush_word(m, width);
        let r = wrap_step(m, width, c.0, c.1);
        if c.0 == '\n' {
            assert(line_text(Seq::<(Seq<char>, Style)>::empty()) == Seq::<char>::empty());
            assert forall|i: int| 0 <= i < r.lines.len() implies well_spaced(line_text(#[trigger] r.lines[i])) by {
                if i < f.lines.len() {
                    assert(r.lines[i] == f.lines[i]);
                }
            }
        } else if c.0 == ' ' || c.0 == '\t' {
        } else if c.0 == '\u{FE0F}' {
            let m1 = if m.word.len() > 0 && m.word.last().2 == 1 {
                let e = m.word.last();
                WrapModel { word: m.word.update(m.word.len() - 1, (e.0, e.1, 2usize)), word_w: m.word_w + 1, ..m }
            } else {
                m
            };
            assert forall|i: int| 0 <= i < r.word.len() implies #[trigger] r.word[i].0 != ' ' by {
                if i < m.word.len() {
                    assert(r.word[i].0 == m.word[i].0);
                }
            }
        } else {
            assert forall|i: int| 0 <= i < r.word.len() implies #[trigger] r.word[i].0 != ' ' by {
                if i < m.word.len() {
                    assert(r.word[i] == m.word[i]);
                }
            }
        }
    } else {
        assert(line_text(Seq::<(Seq<char>, Style)>::empty()) == Seq::<char>::empty());
    }
}

/// Word wrapping spaces its lines well: no line starts or ends with a space or holds two
/// spaces in a row.
pub proof fn lemma_wrapped_spaced(spans: LineView, width: int)
    ensures
        forall|i: int|
            0 <= i < wrapped(spans, width).len() ==> well_spaced(line_text(#[trigger] wrapped(spans, width)[i])),
{
    let w = if width < 1 { 1 } else { width };
    let run = wrap_run(styled_chars(spans), w);
    lemma_wrap_run_spaced(styled_chars(spans), w);
    lemma_flush_word_spaced(run, w);
    let m = flush_word(run, w);
    let r = wrapped(spans, width);
    assert forall|i: int| 0 <= i < r.len() implies well_spaced(line_text(#[trigger] r[i])) by {
        if i < m.lines.len() {
            assert(r[i] == m.lines[i]);
        } else {
            assert(r[i] == m.cur);
        }
    }
}

/// Columns of a text as the wrapper counts them: one for a space, the width of
/// any other character.
pub open spec fn text_cols(s: Seq<char>) -> int
    decreases s.len(),
{
    if s.len() == 0 {
        0
    } else {
        text_cols(s.drop_last()) + (if s.last() == ' ' { 1int } else { char_cols(s.last()) as int })
    }
}

/// Every character is a line feed, a space or tab, or one that is not U+FE0F
/// and takes at most `width` columns.
pub open spec fn fits_width(s: Seq<char>, width: int) -> bool {
    forall|i: int|
        0 <= i < s.len() ==> #[trigger] s[i] == '\n' || s[i] == ' ' || s[i] == '\t' || (s[i] != '\u{FE0F}'
            && char_cols(s[i]) <= width)
}

/// Finished lines and the current line within `w` columns, the current width
/// counted right, and the collected word made of characters at their widths.
spec fn within(m: WrapModel, w: int) -> bool {
    &&& forall|i: int| 0 <= i < m.lines.len() ==> #[trigger] text_cols(line_text(m.lines[i])) <= w
    &&& text_cols(line_text(m.cur)) == m.cur_w
    &&& 0 <= m.cur_w <= w
    &&& m.word_w == word_cols(m.word)
    &&& forall|i: int|
        0 <= i < m.word.len() ==> #[trigger] m.word[i].0 != ' ' && m.word[i].2 == char_cols(m.word[i].0) && m.word[i].2
            <= w
}

proof fn lemma_text_cols_push(line: LineView, c: char, st: Style)
    ensures
        text_cols(line_text(push_char_line(line, c, st))) == text_cols(line_text(line)) + (if c == ' ' {
            1int
        } else {
            char_cols(c) as int
        }),
{
    lemma_line_text_push_char(line, c, st);
    assert(line_text(line).push(c).drop_last() =~= line_text(line));
}

proof fn lemma_push_word_cols(line: LineView, word: Seq<(char, Style, usize)>)
    requires
        forall|i: int| 0 <= i < word.len() ==> #[trigger] word[i].0 != ' ' && word[i].2 == char_cols(word[i].0),
    ensures
        text_cols(line_text(push_word_line(line, word))) == text_cols(line_text(line)) + word_cols(word),
    decreases word.len(),
{
    if word.len() > 0 {
        let pre = word.drop_last();
        assert forall|i: int| 0 <= i < pre.len() implies #[trigger] pre[i].0 != ' ' && pre[i].2 == char_cols(pre[i].0) by {
            assert(pre[i] == word[i]);
        }
        lemma_push_word_cols(line, pre);
        assert(word[word.len() - 1] == word.last());
        lemma_text_cols_push(push_word_line(line, pre), word.last().0, word.last().1);
    }
}

proof fn lemma_break_word_within(
    lines: Seq<LineView>,
    cur: LineView,
    cur_w: int,
    w: int,
    word: Seq<(char, Style, usize)>,
)
    requires
        forall|i: int| 0 <= i < lines.len() ==> #[trigger] text_cols(line_text(lines[i])) <= w,
        text_cols(line_text(cur)) == cur_w,
        0 <= cur_w <= w,
        forall|i: int|
            0 <= i < word.len() ==> #[trigger] word[i].0 != ' ' && word[i].2 == char_cols(word[i].0) && word[i].2 <= w,
    ensures
        forall|i: int|
            0 <= i < break_word(lines, cur, cur_w, w, word).0.len() ==> #[trigger] text_cols(
                line_text(break_word(lines, cur, cur_w, w, word).0[i]),
            ) <= w,
        text_cols(line_text(break_word(lines, cur, cur_w, w, word).1)) == break_word(lines, cur, cur_w, w, word).2,
        0 <= break_word(lines, cur, cur_w, w, word).2 <= w,
    decreases word.len(),
{
    if word.len() > 0 {
        let pre = word.drop_last();
        assert forall|i: int|
            0 <= i < pre.len() implies #[trigger] pre[i].0 != ' ' && pre[i].2 == char_cols(pre[i].0) && pre[i].2 <= w by {
            assert(pre[i] == word[i]);
        }
        lemma_break_word_within(lines, cur, cur_w, w, pre);
        let prev = break_word(lines, cur, cur_w, w, pre);
        let e = word.last();
        assert(e == word[word.len() - 1]);
        if prev.2 + e.2 > w && prev.2 > 0 {
            lemma_text_cols_push(Seq::empty(), e.0, e.1);
            assert(line_text(Seq::<(Seq<char>, Style)>::empty()) =~= Seq::<char>::empty());
            let nl = prev.0.push(prev.1);
            assert forall|i: int| 0 <= i < nl.len() implies #[trigger] text_cols(line_text(nl[i])) <= w by {
                if i < prev.0.len() {
                    assert(nl[i] == prev.0[i]);
                }
            }
        } else {
            lemma_text_cols_push(prev.1, e.0, e.1);
        }
    }
}

proof fn lemma_flush_within(m: WrapModel, w: int)
    requires
        w >= 1,
        within(m, w),
    ensures
        within(flush_word(m, w), w),
{
    lemma_word_cols_nonneg(m.word);
    if m.word.len() > 0 {
        let space = if m.cur_w > 0 { m.space } else { None };
        let sp: int = if space is Some { 1 } else { 0 };
        let m1 = if m.cur_w + sp + m.word_w <= w {
            match space {
                Some(st) => WrapModel { cur: push_char_line(m.cur, ' ', st), cur_w: m.cur_w + 1, ..m },
                None => m,
            }
        } else if m.cur_w > 0 {
            break_line(m)
        } else {
            m
        };
        if m.cur_w + sp + m.word_w <= w {
            if let Some(st) = space {
                lemma_text_cols_push(m.cur, ' ', st);
            }
        } else if m.cur_w > 0 {
            assert(line_text(Seq::<(Seq<char>, Style)>::empty()) =~= Seq::<char>::empty());
            assert forall|i: int| 0 <= i < m1.lines.len() implies #[trigger] text_cols(line_text(m1.lines[i])) <= w by {
                if i < m.lines.len() {
                    assert(m1.lines[i] == m.lines[i]);
                }
            }
        }
        assert(within(m1, w));
        if m1.cur_w + m1.word_w <= w {
            lemma_push_word_cols(m1.cur, m1.word);
        } else {
            lemma_break_word_within(m1.lines, m1.cur, m1.cur_w, w, m1.word);
        }
        assert(word_cols(Seq::<(char, Style, usize)>::empty()) == 0);
    }
}

proof fn lemma_step_within(m: WrapModel, w: int, c: char, st: Style)
    requires
        w >= 1,
        within(m, w),
        c == '\n' || c == ' ' || c == '\t' || (c != '\u{FE0F}' && char_cols(c) <= w),
    ensures
        within(wrap_step(m, w, c, st), w),
{
    lemma_flush_within(m, w);
    let f = flush_word(m, w);
    if c == '\n' {
        assert(line_text(Seq::<(Seq<char>, Style)>::empty()) =~= Seq::<char>::empty());
        let r = wrap_step(m, w, c, st);
        assert forall|i: int| 0 <= i < r.lines.len() implies #[trigger] text_cols(line_text(r.lines[i])) <= w by {
            if i < f.lines.len() {
                assert(r.lines[i] == f.lines[i]);
            }
        }
    } else if c != ' ' && c != '\t' {
        let r = wrap_step(m, w, c, st);
        assert(r.word == m.word.push((c, st, char_cols(c) as usize)));
        assert(r.word.drop_last() =~= m.word);
        assert forall|i: int|
            0 <= i < r.word.len() implies #[trigger] r.word[i].0 != ' ' && r.word[i].2 == char_cols(r.word[i].0)
                && r.word[i].2 <= w by {
            if i < m.word.len() {
                assert(r.word[i] == m.word[i]);
            }
        }
    }
}

proof fn lemma_run_within(chars: Seq<(char, Style)>, w: int)
    requires
        w >= 1,
        forall|i: int|
            0 <= i < chars.len() ==> #[trigger] chars[i].0 == '\n' || chars[i].0 == ' ' || chars[i].0 == '\t' || (
            chars[i].0 != '\u{FE0F}' && char_cols(chars[i].0) <= w),
    ensures
        within(wrap_run(chars, w), w),
    decreases chars.len(),
{
    if chars.len() == 0 {
        assert(line_text(Seq::<(Seq<char>, Style)>::empty()) =~= Seq::<char>::empty());
        assert(word_cols(Seq::<(char, Style, usize)>::empty()) == 0);
    } else {
        let pre = chars.drop_last();
        assert forall|i: int|
            0 <= i < pre.len() implies #[trigger] pre[i].0 == '\n' || pre[i].0 == ' ' || pre[i].0 == '\t' || (pre[i].0
                != '\u{FE0F}' && char_cols(pre[i].0) <= w) by {
            assert(pre[i] == chars[i]);
        }
        lemma_run_within(pre, w);
        let c = chars.last();
        assert(c == chars[chars.len() - 1]);
        lemma_step_within(wrap_run(pre, w), w, c.0, c.1);
    }
}

/// Wrapping keeps every line within the width: when no character is U+FE0F or
/// wider than `width` columns, each line `wrap` makes takes at most `width`
/// columns (a space counting one, any other character its width).
pub proof fn lemma_wrapped_within_width(spans: LineView, width: int)
    requires
        width >= 1,
        fits_width(line_text(spans), width),
    ensures
        forall|i: int|
            0 <= i < wrapped(spans, width).len() ==> #[trigger] text_cols(line_text(wrapped(spans, width)[i])) <= width,
{
    let chars = styled_chars(spans);
    lemma_styled_chars_text(spans);
    let cs = chars.map_values(|e: (char, Style)| e.0);
    assert forall|i: int|
        0 <= i < chars.len() implies #[trigger] chars[i].0 == '\n' || chars[i].0 == ' ' || chars[i].0 == '\t' || (
        chars[i].0 != '\u{FE0F}' && char_cols(chars[i].0) <= width) by {
        assert(cs[i] == chars[i].0);
        assert(cs[i] == line_text(spans)[i]);
    }
    lemma_run_within(chars, width);
    let m = flush_word(wrap_run(chars, width), width);
    lemma_flush_within(wrap_run(chars, width), width);
    let r = wrapped(spans, width);
    assert forall|i: int| 0 <= i < r.len() implies #[trigger] text_cols(line_text(r[i])) <= width by {
        if i < m.lines.len() {
            assert(r[i] == m.lines[i]);
        }
    }
}

} // verus!
