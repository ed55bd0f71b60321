//! Table column widths: measuring cells, counting wrapped lines, and choosing
//! widths that keep a table short.

use vstd::prelude::*;

use crate::pager::newline_from;
use crate::style::{char_cols, span_views, str_width, unicode_str_width, Span, Style};
use crate::wrap::{
    break_word, flush_word, line_text, push_char_line, push_word_line, styled_chars, wrap_run, wrap_step,
    wrapped, LineView, WrapModel,
};

verus! {

/// Per cell: its hard-broken segments, each a list of word widths.
pub type CellWords = Vec<Vec<usize>>;

/// `s` split at every line feed (an empty text is one empty segment).
pub open spec fn segments(s: Seq<char>) -> Seq<Seq<char>>
    decreases s.len(),
{
    match newline_from(s, 0) {
        Some(k) => if 0 <= k < s.len() {
            seq![s.take(k)] + segments(s.skip(k + 1))
        } else {
            Seq::empty()
        },
        None => seq![s],
    }
}

/// Word separators inside a segment.
pub open spec fn is_blank(c: char) -> bool {
    c == ' ' || c == '\t'
}

/// First index at or after `i` that is not blank.
pub open spec fn skip_blanks(s: Seq<char>, i: int) -> int
    decreases s.len() - i,
{
    if i < 0 || i >= s.len() {
        s.len() as int
    } else if is_blank(s[i]) {
        skip_blanks(s, i + 1)
    } else {
        i
    }
}

/// First index at or after `i` that is blank.
pub open spec fn word_end(s: Seq<char>, i: int) -> int
    decreases s.len() - i,
{
    if i < 0 || i >= s.len() {
        s.len() as int
    } else if is_blank(s[i]) {
        i
    } else {
        word_end(s, i + 1)
    }
}

pub proof fn lemma_skip_blanks(s: Seq<char>, i: int)
    requires
        0 <= i <= s.len(),
    ensures
        i <= skip_blanks(s, i) <= s.len(),
        forall|k: int| i <= k < skip_blanks(s, i) ==> is_blank(#[trigger] s[k]),
        skip_blanks(s, i) < s.len() ==> !is_blank(s[skip_blanks(s, i)]),
    decreases s.len() - i,
{
    if i < s.len() && is_blank(s[i]) {
        lemma_skip_blanks(s, i + 1);
    }
}

pub proof fn lemma_word_end(s: Seq<char>, i: int)
    requires
        0 <= i <= s.len(),
    ensures
        i <= word_end(s, i) <= s.len(),
        forall|k: int| i <= k < word_end(s, i) ==> !is_blank(#[trigger] s[k]),
        word_end(s, i) < s.len() ==> is_blank(s[word_end(s, i)]),
    decreases s.len() - i,
{
    if i < s.len() && !is_blank(s[i]) {
        lemma_word_end(s, i + 1);
    }
}

/// The words of `s[i..]`: maximal runs without spaces or tabs.
pub open spec fn words_from(s: Seq<char>, i: int) -> Seq<Seq<char>>
    decreases s.len() - i,
{
    let a = skip_blanks(s, i);
    if i < 0 || a >= s.len() || a < i {
        Seq::empty()
    } else {
        let b = word_end(s, a);
        if b <= a || b > s.len() {
            Seq::empty()
        } else {
            seq![s.subrange(a, b)] + words_from(s, b)
        }
    }
}

/// The widths of the words of each line-feed-separated segment of a cell's text.
pub open spec fn measured(text: Seq<char>) -> Seq<Seq<usize>> {
    segments(text).map_values(|seg: Seq<char>| words_from(seg, 0).map_values(|w: Seq<char>| unicode_str_width(w)))
}

/// The views of a measured cell.
pub open spec fn cell_view(c: CellWords) -> Seq<Seq<usize>> {
    c@.map_values(|s: Vec<usize>| s@)
}

fn word_widths(v: &Vec<char>, from: usize, to: usize) -> (r: Vec<usize>)
    requires
        from <= to <= v@.len(),
    ensures
        r@ == words_from(v@.subrange(from as int, to as int), 0).map_values(|w: Seq<char>| unicode_str_width(w)),
{
    let ghost seg = v@.subrange(from as int, to as int);
    let mut out: Vec<usize> = Vec::new();
    let mut i = from;
    assert(words_from(seg, 0) == words_from(seg, 0));
    while i < to
        invariant
            from <= i <= to <= v@.len(),
            seg == v@.subrange(from as int, to as int),
            words_from(seg, 0).map_values(|w: Seq<char>| unicode_str_width(w))
                == out@ + words_from(seg, i - from).map_values(|w: Seq<char>| unicode_str_width(w)),
        decreases to - i,
    {
        let ghost k = i - from;
        let mut a = i;
        while a < to && (v[a] == ' ' || v[a] == '\t')
            invariant
                from <= i <= a <= to <= v@.len(),
                k == i - from,
                seg == v@.subrange(from as int, to as int),
                skip_blanks(seg, k) == skip_blanks(seg, a - from),
            decreases to - a,
        {
            assert(seg[(a - from) as int] == v@[a as int]);
            a += 1;
        }
        if a == to {
            assert(words_from(seg, k) == Seq::<Seq<char>>::empty());
            i = to;
        } else {
            let mut b = a;
            while b < to && v[b] != ' ' && v[b] != '\t'
                invariant
                    from <= a <= b <= to <= v@.len(),
                    seg == v@.subrange(from as int, to as int),
                    word_end(seg, a - from) == word_end(seg, b - from),
                decreases to - b,
            {
                assert(seg[(b - from) as int] == v@[b as int]);
                b += 1;
            }
            let mut w = String::new();
            crate::text::push_chars(&mut w, v, a, b);
            assert(seg.subrange(a - from, b - from) == v@.subrange(a as int, b as int));
            let ww = str_width(w.as_str());
            let ghost before = out@;
            proof {
                lemma_word_end(seg, a - from);
            }
            out.push(ww);
            assert(words_from(seg, k) == seq![seg.subrange(a - from, b - from)] + words_from(seg, b - from));
            assert((seq![seg.subrange(a - from, b - from)] + words_from(seg, b - from)).map_values(|w: Seq<char>| unicode_str_width(w))
                == seq![ww] + words_from(seg, b - from).map_values(|w: Seq<char>| unicode_str_width(w)));
            i = b;
        }
    }
    assert(words_from(seg, to - from) == Seq::<Seq<char>>::empty());
    out
}

/// Word widths per line-feed-separated segment of a cell's text.
pub fn measure_cell(cell: &[Span]) -> (r: CellWords)
    ensures
        cell_view(r) == measured(line_text(span_views(cell@))),
{
    let mut text = String::new();
    let mut i: usize = 0;
    let ghost views = span_views(cell@);
    while i < cell.len()
        invariant
            i <= cell@.len(),
            views == span_views(cell@),
            text@ == line_text(views.take(i as int)),
        decreases cell@.len() - i,
    {
        assert(views.take(i + 1).drop_last() == views.take(i as int));
        crate::text::push_str(&mut text, cell[i].text.as_str());
        i += 1;
    }
    assert(views.take(i as int) == views);
    let v = crate::text::chars_of(text.as_str());
    let n = v.len();
    let mut out: CellWords = Vec::new();
    let mut start: usize = 0;
    let ghost total = measured(v@);
    assert(v@.skip(0) == v@);
    loop
        invariant_except_break
            start <= n,
            n == v@.len(),
            total == cell_view(out) + measured(v@.skip(start as int)),
        ensures
            total == cell_view(out),
        decreases n + 1 - start,
    {
        let ghost rest = v@.skip(start as int);
        let mut k = start;
        while k < n && v[k] != '\n'
            invariant
                start <= k <= n,
                n == v@.len(),
                rest == v@.skip(start as int),
                newline_from(rest, 0) == newline_from(rest, (k - start) as int),
            decreases n - k,
        {
            k += 1;
        }
        let ws = word_widths(&v, start, k);
        let ghost before = cell_view(out);
        out.push(ws);
        assert(cell_view(out) == before.push(ws@));
        if k < n {
            assert(newline_from(rest, (k - start) as int) == Some((k - start) as int));
            assert(rest.take(k - start) == v@.subrange(start as int, k as int));
            assert(rest.skip((k - start) + 1) == v@.skip(k + 1));
            start = k + 1;
        } else {
            assert(newline_from(rest, (k - start) as int) == None::<int>);
            assert(rest == v@.subrange(start as int, k as int));
            break;
        }
    }
    out
}


/// Lines that wrapping one segment's words adds after the segment's first line,
/// with `cur` columns of the current line already in use.
pub open spec fn seg_extra(seg: Seq<usize>, w: int, cur: int) -> int
    decreases seg.len(),
{
    if seg.len() == 0 {
        0
    } else {
        let ww = seg[0] as int;
        let sp: int = if cur > 0 { 1 } else { 0 };
        let rest = seg.drop_first();
        if cur + sp + ww <= w {
            seg_extra(rest, w, cur + sp + ww)
        } else if ww <= w {
            sp + seg_extra(rest, w, ww)
        } else {
            let extra = (ww - 1) / w;
            sp + extra + seg_extra(rest, w, ww - extra * w)
        }
    }
}

/// Lines of all segments: each starts a line of its own.
pub open spec fn cell_lines_raw(cell: Seq<Seq<usize>>, w: int) -> int
    decreases cell.len(),
{
    if cell.len() == 0 {
        0
    } else {
        1 + seg_extra(cell[0], w, 0) + cell_lines_raw(cell.drop_first(), w)
    }
}

/// A cell's segments but a last one without words that follows others: the wrapper
/// makes no line of a blank stretch after the last line feed.
pub open spec fn kept_segments(cell: Seq<Seq<usize>>) -> Seq<Seq<usize>> {
    if cell.len() > 1 && cell.last().len() == 0 {
        cell.drop_last()
    } else {
        cell
    }
}

/// Lines a measured cell takes at width `w`; an empty cell still takes one.
pub open spec fn cell_lines(cell: Seq<Seq<usize>>, w: int) -> int {
    let n = cell_lines_raw(kept_segments(cell), w);
    if n < 1 { 1 } else { n }
}

/// No word of the cell has a positive width.
pub open spec fn all_words_empty(cell: Seq<Seq<usize>>) -> bool {
    forall|i: int, j: int| 0 <= i < cell.len() && 0 <= j < cell[i].len() ==> cell[i][j] == 0
}

pub open spec fn sat_u32(n: int) -> int {
    if n > u32::MAX { u32::MAX as int } else { n }
}

proof fn lemma_break_rest(ww: int, w: int)
    requires
        0 < w < ww,
    ensures
        (ww - 1) / w >= 1,
        0 < ww - ((ww - 1) / w) * w <= w,
{
    vstd::arithmetic::div_mod::lemma_fundamental_div_mod(ww - 1, w);
    vstd::arithmetic::div_mod::lemma_div_is_ordered(w, ww - 1, w);
    vstd::arithmetic::div_mod::lemma_div_by_self(w);
    assert(0 <= (ww - 1) % w < w) by {
        vstd::arithmetic::div_mod::lemma_mod_bound(ww - 1, w);
    }
    assert(((ww - 1) / w) * w == w * ((ww - 1) / w)) by {
        vstd::arithmetic::mul::lemma_mul_is_commutative((ww - 1) / w, w);
    }
}

/// Lines `wrap` gives a measured cell at width `w` (saturating at `u32::MAX`).
pub fn count_lines(cell: &CellWords, w: usize) -> (r: u32)
    requires
        w > 0 || all_words_empty(cell_view(*cell)),
    ensures
        r == sat_u32(cell_lines(cell_view(*cell), w as int)),
{
    let ghost cv = cell_view(*cell);
    let len = cell.len();
    let k: usize = if len > 1 && cell[len - 1].len() == 0 { len - 1 } else { len };
    let ghost kv = kept_segments(cv);
    assert(kv =~= cv.take(k as int));
    let mut n: u32 = 0;
    let ghost mut acc: int = 0;
    let mut i: usize = 0;
    assert(kv.skip(0) == kv);
    while i < k
        invariant
            i <= k <= cell@.len(),
            cv == cell_view(*cell),
            kv == cv.take(k as int),
            w > 0 || all_words_empty(cv),
            0 <= acc,
            n == sat_u32(acc),
            acc + cell_lines_raw(kv.skip(i as int), w as int) == cell_lines_raw(kv, w as int),
        decreases k - i,
    {
        let seg = &cell[i];
        let ghost sv = seg@;
        assert(kv.skip(i as int).drop_first() == kv.skip(i + 1));
        assert(kv.skip(i as int)[0] == sv);
        proof {
            acc = acc + 1;
        }
        n = n.saturating_add(1);
        let mut cur: usize = 0;
        let mut j: usize = 0;
        assert(sv.skip(0) == sv);
        while j < seg.len()
            invariant
                j <= sv.len(),
                sv == seg@,
                sv == cv[i as int],
                i < cv.len(),
                w > 0 || all_words_empty(cv),
                w > 0 ==> cur <= w,
                w == 0 ==> cur == 0,
                0 <= acc,
                n == sat_u32(acc),
                acc + seg_extra(sv.skip(j as int), w as int, cur as int) + cell_lines_raw(kv.skip(i + 1), w as int)
                    == cell_lines_raw(kv, w as int),
            decreases sv.len() - j,
        {
            let ww = seg[j];
            assert(sv.skip(j as int).drop_first() == sv.skip(j + 1));
            assert(sv.skip(j as int)[0] == ww);
            let sp: usize = if cur > 0 { 1 } else { 0 };
            if sp <= w && ww <= w - sp && cur <= w - sp - ww {
                cur = cur + sp + ww;
            } else {
                if cur > 0 {
                    proof {
                        acc = acc + 1;
                    }
                    n = n.saturating_add(1);
                }
                if ww <= w {
                    cur = ww;
                } else {
                    proof {
                        lemma_break_rest(ww as int, w as int);
                    }
                    let extra = (ww - 1) / w;
                    assert(extra * w <= ww) by {
                        lemma_break_rest(ww as int, w as int);
                    }
                    proof {
                        acc = acc + extra;
                    }
                    if extra > u32::MAX as usize {
                        n = u32::MAX;
                    } else {
                        n = n.saturating_add(extra as u32);
                    }
                    cur = ww - extra * w;
                }
            }
            j += 1;
        }
        assert(sv.skip(j as int).len() == 0);
        i += 1;
    }
    assert(kv.skip(i as int).len() == 0);
    if n < 1 { 1 } else { n }
}

// Agreement with the wrapper: counted word by word, `count_lines` gives the
// number of lines that `wrap` makes, character by character, of one-column text.

/// Counting state of a wrap in which every character takes one column: lines
/// finished, columns in use on the current line, and length of the word being
/// collected.
pub struct Tally {
    pub lines: int,
    pub cur: int,
    pub word: int,
}

/// Where `count_lines` puts a word of `ww` columns when `cur` columns of the line
/// are in use: the lines it adds, and the columns in use after it.
pub open spec fn place(ww: int, w: int, cur: int) -> (int, int) {
    let sp: int = if cur > 0 { 1 } else { 0 };
    if cur + sp + ww <= w {
        (0, cur + sp + ww)
    } else if ww <= w {
        (sp, ww)
    } else {
        let extra = (ww - 1) / w;
        (sp + extra, ww - extra * w)
    }
}

/// Columns in use after placing a segment's words.
pub open spec fn seg_cur(seg: Seq<usize>, w: int, cur: int) -> int
    decreases seg.len(),
{
    if seg.len() == 0 {
        cur
    } else {
        seg_cur(seg.drop_first(), w, place(seg[0] as int, w, cur).1)
    }
}

/// Places the word being collected, if there is one.
pub open spec fn tally_flush(t: Tally, w: int) -> Tally {
    if t.word == 0 {
        t
    } else {
        let p = place(t.word, w, t.cur);
        Tally { lines: t.lines + p.0, cur: p.1, word: 0 }
    }
}

/// One character: a line feed ends the line, a space or tab ends the word, any
/// other character extends the word.
pub open spec fn tally_step(t: Tally, w: int, c: char) -> Tally {
    if c == '\n' {
        Tally { lines: tally_flush(t, w).lines + 1, cur: 0, word: 0 }
    } else if is_blank(c) {
        tally_flush(t, w)
    } else {
        Tally { word: t.word + 1, ..t }
    }
}

/// The counting state after the characters of `s`, from `t`.
pub open spec fn tally(t: Tally, w: int, s: Seq<char>) -> Tally
    decreases s.len(),
{
    if s.len() == 0 {
        t
    } else {
        tally(tally_step(t, w, s[0]), w, s.drop_first())
    }
}

/// The word widths of `s[i..]`.
pub open spec fn word_cols_from(s: Seq<char>, i: int) -> Seq<usize> {
    words_from(s, i).map_values(|x: Seq<char>| unicode_str_width(x))
}

/// `s[a..b]` holds no space, tab or line feed.
pub open spec fn no_break(s: Seq<char>, a: int, b: int) -> bool {
    forall|k: int| a <= k < b ==> !is_blank(#[trigger] s[k]) && s[k] != '\n'
}

/// Every run of characters without space, tab or line feed is as many columns
/// wide as it is long.
pub open spec fn words_one_column(s: Seq<char>) -> bool {
    forall|a: int, b: int|
        0 <= a <= b <= s.len() && no_break(s, a, b) ==> #[trigger] unicode_str_width(s.subrange(a, b)) == b - a
}

/// The text after the last line feed of `s` (all of `s` if it has none).
pub open spec fn last_segment(s: Seq<char>) -> Seq<char>
    decreases s.len(),
{
    match newline_from(s, 0) {
        Some(k) => if 0 <= k < s.len() {
            last_segment(s.skip(k + 1))
        } else {
            s
        },
        None => s,
    }
}

proof fn lemma_tally_append(t: Tally, w: int, a: Seq<char>, b: Seq<char>)
    ensures
        tally(t, w, a + b) == tally(tally(t, w, a), w, b),
    decreases a.len(),
{
    if a.len() == 0 {
        assert(a + b =~= b);
    } else {
        assert((a + b)[0] == a[0]);
        assert((a + b).drop_first() =~= a.drop_first() + b);
        lemma_tally_append(tally_step(t, w, a[0]), w, a.drop_first(), b);
    }
}

proof fn lemma_tally_one(t: Tally, w: int, c: char)
    ensures
        tally(t, w, seq![c]) == tally_step(t, w, c),
{
    assert(seq![c][0] == c);
    assert(seq![c].drop_first().len() == 0);
    assert(tally(tally_step(t, w, c), w, seq![c].drop_first()) == tally_step(t, w, c));
}

proof fn lemma_tally_push(t: Tally, w: int, s: Seq<char>, c: char)
    ensures
        tally(t, w, s.push(c)) == tally_step(tally(t, w, s), w, c),
{
    assert(s.push(c) =~= s + seq![c]);
    lemma_tally_append(t, w, s, seq![c]);
    lemma_tally_one(tally(t, w, s), w, c);
}

proof fn lemma_tally_blanks(t: Tally, w: int, s: Seq<char>)
    requires
        t.word == 0,
        forall|k: int| 0 <= k < s.len() ==> is_blank(#[trigger] s[k]),
    ensures
        tally(t, w, s) == t,
    decreases s.len(),
{
    if s.len() > 0 {
        assert(is_blank(s[0]));
        assert forall|k: int| 0 <= k < s.drop_first().len() implies is_blank(#[trigger] s.drop_first()[k]) by {
            assert(is_blank(s[k + 1]));
        }
        lemma_tally_blanks(t, w, s.drop_first());
    }
}

proof fn lemma_tally_word(t: Tally, w: int, s: Seq<char>)
    requires
        no_break(s, 0, s.len() as int),
    ensures
        tally(t, w, s) == (Tally { word: t.word + s.len(), ..t }),
    decreases s.len(),
{
    if s.len() > 0 {
        assert(!is_blank(s[0]) && s[0] != '\n');
        assert forall|k: int| 0 <= k < s.drop_first().len() implies !is_blank(#[trigger] s.drop_first()[k])
            && s.drop_first()[k] != '\n' by {
            assert(!is_blank(s[k + 1]) && s[k + 1] != '\n');
        }
        lemma_tally_word(Tally { word: t.word + 1, ..t }, w, s.drop_first());
    }
}

/// A placed word of at least one column leaves columns in use.
proof fn lemma_place(ww: int, w: int, cur: int)
    requires
        ww >= 1,
        w >= 1,
        cur >= 0,
    ensures
        place(ww, w, cur).0 >= 0,
        place(ww, w, cur).1 >= 1,
{
    if ww > w && cur + (if cur > 0 { 1int } else { 0int }) + ww > w {
        lemma_break_rest(ww, w);
    }
}

proof fn lemma_seg_cons(x: usize, rest: Seq<usize>, w: int, cur: int)
    ensures
        seg_extra(seq![x] + rest, w, cur) == place(x as int, w, cur).0 + seg_extra(rest, w, place(x as int, w, cur).1),
        seg_cur(seq![x] + rest, w, cur) == seg_cur(rest, w, place(x as int, w, cur).1),
{
    assert((seq![x] + rest)[0] == x);
    assert((seq![x] + rest).drop_first() =~= rest);
}

proof fn lemma_words_one_column_sub(s: Seq<char>, x: int, y: int)
    requires
        0 <= x <= y <= s.len(),
        words_one_column(s),
    ensures
        words_one_column(s.subrange(x, y)),
{
    let t = s.subrange(x, y);
    assert forall|a: int, b: int| 0 <= a <= b <= t.len() && no_break(t, a, b) implies #[trigger] unicode_str_width(
        t.subrange(a, b),
    ) == b - a by {
        assert(t.subrange(a, b) =~= s.subrange(x + a, x + b));
        assert forall|k: int| x + a <= k < x + b implies !is_blank(#[trigger] s[k]) && s[k] != '\n' by {
            assert(t[k - x] == s[k]);
        }
        assert(no_break(s, x + a, x + b));
        assert(unicode_str_width(s.subrange(x + a, x + b)) == b - a);
    }
}

/// Counting a segment's characters one by one, then placing the last word,
/// adds the lines and leaves the columns that `count_lines` finds for its words.
proof fn lemma_tally_segment(t: Tally, w: int, seg: Seq<char>, i: int)
    requires
        t.word == 0,
        t.cur >= 0,
        w >= 1,
        0 <= i <= seg.len(),
        forall|k: int| 0 <= k < seg.len() ==> #[trigger] seg[k] != '\n',
        words_one_column(seg),
    ensures
        tally_flush(tally(t, w, seg.skip(i)), w) == (Tally {
            lines: t.lines + seg_extra(word_cols_from(seg, i), w, t.cur),
            cur: seg_cur(word_cols_from(seg, i), w, t.cur),
            word: 0,
        }),
        seg_cur(word_cols_from(seg, i), w, t.cur) >= 0,
        seg_extra(word_cols_from(seg, i), w, t.cur) >= 0,
        (t.cur > 0 || exists|k: int| i <= k < seg.len() && !is_blank(#[trigger] seg[k]))
            ==> seg_cur(word_cols_from(seg, i), w, t.cur) > 0,
        (forall|k: int| i <= k < seg.len() ==> is_blank(#[trigger] seg[k])) ==> word_cols_from(seg, i).len() == 0,
    decreases seg.len() - i,
{
    let a = skip_blanks(seg, i);
    lemma_skip_blanks(seg, i);
    if a >= seg.len() {
        assert forall|k: int| 0 <= k < seg.skip(i).len() implies is_blank(#[trigger] seg.skip(i)[k]) by {
            assert(is_blank(seg[i + k]));
        }
        lemma_tally_blanks(t, w, seg.skip(i));
        assert(words_from(seg, i) =~= Seq::<Seq<char>>::empty());
        assert(word_cols_from(seg, i) =~= Seq::<usize>::empty());
    } else {
        let b = word_end(seg, a);
        lemma_word_end(seg, a);
        let x = seg.subrange(a, b);
        assert(b > a);
        assert(words_from(seg, i) == seq![x] + words_from(seg, b));
        assert(no_break(seg, a, b));
        assert(unicode_str_width(x) == b - a);
        assert(word_cols_from(seg, i) =~= seq![unicode_str_width(x)] + word_cols_from(seg, b));
        lemma_seg_cons(unicode_str_width(x), word_cols_from(seg, b), w, t.cur);
        assert(seg.skip(i) =~= seg.subrange(i, a) + (x + seg.skip(b)));
        lemma_tally_append(t, w, seg.subrange(i, a), x + seg.skip(b));
        assert forall|k: int| 0 <= k < seg.subrange(i, a).len() implies is_blank(#[trigger] seg.subrange(i, a)[k]) by {
            assert(is_blank(seg[i + k]));
        }
        lemma_tally_blanks(t, w, seg.subrange(i, a));
        lemma_tally_append(t, w, x, seg.skip(b));
        assert forall|k: int| 0 <= k < x.len() implies !is_blank(#[trigger] x[k]) && x[k] != '\n' by {
            assert(x[k] == seg[a + k]);
        }
        lemma_tally_word(t, w, x);
        let tw = Tally { word: b - a, ..t };
        let p = place(b - a, w, t.cur);
        lemma_place(b - a, w, t.cur);
        let t2 = Tally { lines: t.lines + p.0, cur: p.1, word: 0 };
        assert(tally_flush(tw, w) == t2);
        if b == seg.len() {
            assert(seg.skip(b).len() == 0);
            lemma_skip_blanks(seg, b);
            assert(words_from(seg, b) =~= Seq::<Seq<char>>::empty());
            assert(word_cols_from(seg, b) =~= Seq::<usize>::empty());
        } else {
            assert(seg.skip(b) =~= seq![seg[b]] + seg.skip(b + 1));
            lemma_tally_append(tw, w, seq![seg[b]], seg.skip(b + 1));
            lemma_tally_one(tw, w, seg[b]);
            lemma_skip_blanks(seg, b + 1);
            assert(skip_blanks(seg, b) == skip_blanks(seg, b + 1));
            assert(words_from(seg, b) == words_from(seg, b + 1));
            lemma_tally_segment(t2, w, seg, b + 1);
        }
    }
}

proof fn lemma_newline_first(s: Seq<char>, i: int)
    requires
        i >= 0,
    ensures
        newline_from(s, i) matches Some(k) ==> forall|j: int| i <= j < k ==> #[trigger] s[j] != '\n',
    decreases s.len() - i,
{
    if i < s.len() && s[i] != '\n' {
        lemma_newline_first(s, i + 1);
    }
}

/// Counting a whole text: the lines before the last one, and columns in use on
/// the last one exactly when the text after the last line feed has a word.
proof fn lemma_tally_cell(t: Tally, w: int, s: Seq<char>)
    requires
        t.word == 0,
        t.cur == 0,
        t.lines >= 0,
        w >= 1,
        words_one_column(s),
    ensures
        tally_flush(tally(t, w, s), w).lines + 1 == t.lines + cell_lines_raw(measured(s), w),
        tally_flush(tally(t, w, s), w).lines >= t.lines,
        (exists|k: int| 0 <= k < last_segment(s).len() && !is_blank(#[trigger] last_segment(s)[k]))
            ==> tally_flush(tally(t, w, s), w).cur > 0,
        (newline_from(s, 0) is None && forall|k: int| 0 <= k < s.len() ==> is_blank(#[trigger] s[k]))
            ==> tally_flush(tally(t, w, s), w).lines == t.lines,
        (forall|k: int| 0 <= k < last_segment(s).len() ==> is_blank(#[trigger] last_segment(s)[k]))
            ==> tally_flush(tally(t, w, s), w).cur == 0,
    decreases s.len(),
{
    crate::pager::lemma_newline_from(s, 0);
    lemma_newline_first(s, 0);
    match newline_from(s, 0) {
        Some(k) => {
            let seg = s.take(k);
            let rest = s.skip(k + 1);
            assert(s =~= seg + (seq!['\n'] + rest));
            lemma_tally_append(t, w, seg, seq!['\n'] + rest);
            lemma_tally_append(tally(t, w, seg), w, seq!['\n'], rest);
            lemma_tally_one(tally(t, w, seg), w, '\n');
            assert forall|j: int| 0 <= j < seg.len() implies #[trigger] seg[j] != '\n' by {
                assert(seg[j] == s[j]);
            }
            lemma_words_one_column_sub(s, 0, k);
            assert(s.subrange(0, k) =~= seg);
            assert(seg.skip(0) =~= seg);
            lemma_tally_segment(t, w, seg, 0);
            let t2 = Tally { lines: t.lines + seg_extra(word_cols_from(seg, 0), w, 0) + 1, cur: 0, word: 0 };
            assert(tally(t, w, s) == tally(t2, w, rest));
            lemma_words_one_column_sub(s, k + 1, s.len() as int);
            assert(s.subrange(k + 1, s.len() as int) =~= rest);
            lemma_tally_cell(t2, w, rest);
            assert(segments(s) == seq![seg] + segments(rest));
            assert(measured(s) =~= seq![word_cols_from(seg, 0)] + measured(rest));
            assert(measured(s)[0] == word_cols_from(seg, 0));
            assert(measured(s).drop_first() =~= measured(rest));
            assert(cell_lines_raw(measured(s), w) == 1 + seg_extra(word_cols_from(seg, 0), w, 0) + cell_lines_raw(
                measured(rest),
                w,
            ));
            assert(last_segment(s) == last_segment(rest));
        },
        None => {
            assert(s.skip(0) =~= s);
            assert forall|j: int| 0 <= j < s.len() implies #[trigger] s[j] != '\n' by {}
            lemma_tally_segment(t, w, s, 0);
            assert(segments(s) == seq![s]);
            assert(measured(s) =~= seq![word_cols_from(s, 0)]);
            assert(measured(s)[0] == word_cols_from(s, 0));
            assert(measured(s).drop_first().len() == 0);
            assert(cell_lines_raw(measured(s).drop_first(), w) == 0);
            assert(cell_lines_raw(measured(s), w) == 1 + seg_extra(word_cols_from(s, 0), w, 0));
            assert(last_segment(s) == s);
        },
    }
}

/// A character that the wrapper counts as one column, or a line feed, space or tab.
pub open spec fn one_column_char(c: char) -> bool {
    c == '\n' || is_blank(c) || (c != '\u{FE0F}' && char_cols(c) == 1)
}

/// Text in which every character other than a line feed, space or tab takes one
/// column, alone and in a run of such characters.
pub open spec fn one_column_text(s: Seq<char>) -> bool {
    &&& forall|i: int| 0 <= i < s.len() ==> #[trigger] one_column_char(s[i])
    &&& words_one_column(s)
}

proof fn lemma_segments_last(s: Seq<char>)
    ensures
        segments(s).len() >= 1,
        segments(s).last() == last_segment(s),
        newline_from(s, 0) is Some ==> segments(s).len() >= 2,
    decreases s.len(),
{
    crate::pager::lemma_newline_from(s, 0);
    match newline_from(s, 0) {
        Some(k) => {
            lemma_segments_last(s.skip(k + 1));
            assert(segments(s) == seq![s.take(k)] + segments(s.skip(k + 1)));
        },
        None => {},
    }
}

proof fn lemma_words_empty_iff(seg: Seq<char>)
    ensures
        words_from(seg, 0).len() == 0 <==> forall|k: int| 0 <= k < seg.len() ==> is_blank(#[trigger] seg[k]),
{
    lemma_skip_blanks(seg, 0);
    let a = skip_blanks(seg, 0);
    if a < seg.len() {
        lemma_word_end(seg, a);
        assert(!is_blank(seg[a]));
        assert(word_end(seg, a) > a);
        assert(words_from(seg, 0) == seq![seg.subrange(a, word_end(seg, a))] + words_from(seg, word_end(seg, a)));
    }
}

proof fn lemma_raw_last(c: Seq<Seq<usize>>, w: int)
    requires
        c.len() >= 1,
    ensures
        cell_lines_raw(c, w) == cell_lines_raw(c.drop_last(), w) + 1 + seg_extra(c.last(), w, 0),
    decreases c.len(),
{
    if c.len() == 1 {
        assert(c.drop_first().len() == 0);
        assert(c.drop_last().len() == 0);
        assert(c[0] == c.last());
        assert(cell_lines_raw(c.drop_first(), w) == 0);
        assert(cell_lines_raw(c.drop_last(), w) == 0);
    } else {
        lemma_raw_last(c.drop_first(), w);
        assert(cell_lines_raw(c.drop_last(), w) == 1 + seg_extra(c.drop_last()[0], w, 0) + cell_lines_raw(
            c.drop_last().drop_first(),
            w,
        ));
        assert(c.drop_first().drop_last() =~= c.drop_last().drop_first());
        assert(c.drop_last()[0] == c[0]);
        assert(c.drop_first().last() == c.last());
    }
}

/// `s` has a line feed, and nothing but spaces and tabs after its last one.
pub open spec fn ends_with_blank_line(s: Seq<char>) -> bool {
    &&& newline_from(s, 0) is Some
    &&& forall|k: int| 0 <= k < last_segment(s).len() ==> is_blank(#[trigger] last_segment(s)[k])
}

/// The wrapper's state `m` counts as `t`: one line per finished line, the current
/// width, the collected word one column per character, and a current line that is
/// empty exactly when no column of it is in use.
spec fn tracks(m: WrapModel, t: Tally) -> bool {
    &&& m.lines.len() == t.lines
    &&& m.cur_w == t.cur
    &&& m.cur_w >= 0
    &&& m.word.len() == t.word
    &&& m.word_w == t.word
    &&& forall|i: int| 0 <= i < m.word.len() ==> #[trigger] m.word[i].2 == 1
    &&& (m.cur.len() > 0 <==> m.cur_w > 0)
}

proof fn lemma_push_char_nonempty(line: LineView, c: char, st: Style)
    ensures
        push_char_line(line, c, st).len() > 0,
{
}

proof fn lemma_push_word_nonempty(line: LineView, word: Seq<(char, Style, usize)>)
    requires
        word.len() > 0,
    ensures
        push_word_line(line, word).len() > 0,
{
    lemma_push_char_nonempty(push_word_line(line, word.drop_last()), word.last().0, word.last().1);
}

/// Breaking a word of one-column characters on an empty line: a line for every
/// `w` characters but the last run, which stays on the current line.
proof fn lemma_break_unit(lines: Seq<LineView>, cur: LineView, w: int, word: Seq<(char, Style, usize)>)
    requires
        w >= 1,
        word.len() >= 1,
        forall|i: int| 0 <= i < word.len() ==> #[trigger] word[i].2 == 1,
    ensures
        break_word(lines, cur, 0, w, word).0.len() == lines.len() + (word.len() - 1) / w,
        break_word(lines, cur, 0, w, word).2 == word.len() - ((word.len() - 1) / w) * w,
        break_word(lines, cur, 0, w, word).1.len() > 0,
    decreases word.len(),
{
    let k = word.len() as int;
    let e = word.last();
    assert(e.2 == 1);
    if k == 1 {
        assert(word.drop_last().len() == 0);
        assert(break_word(lines, cur, 0, w, word.drop_last()) == (lines, cur, 0int));
        assert(0int / w == 0) by (nonlinear_arith)
            requires
                w >= 1,
        ;
        assert(break_word(lines, cur, 0, w, word) == (lines, push_char_line(cur, e.0, e.1), 1int));
        lemma_push_char_nonempty(cur, e.0, e.1);
        assert(k - 1 == 0);
        assert((k - 1) / w == 0);
        assert(((k - 1) / w) * w == 0) by (nonlinear_arith)
            requires
                (k - 1) / w == 0,
        ;
    } else {
        let pre = word.drop_last();
        assert forall|i: int| 0 <= i < pre.len() implies #[trigger] pre[i].2 == 1 by {
            assert(pre[i] == word[i]);
        }
        lemma_break_unit(lines, cur, w, pre);
        let q = (k - 2) / w;
        let r = (k - 2) % w;
        vstd::arithmetic::div_mod::lemma_fundamental_div_mod(k - 2, w);
        vstd::arithmetic::div_mod::lemma_mod_bound(k - 2, w);
        assert(q * w == w * q) by (nonlinear_arith);
        let prev = break_word(lines, cur, 0, w, pre);
        assert(prev.2 == r + 1);
        if r + 1 == w {
            assert(k - 1 == (q + 1) * w + 0) by (nonlinear_arith)
                requires
                    k - 2 == w * q + r,
                    r + 1 == w,
            ;
            vstd::arithmetic::div_mod::lemma_fundamental_div_mod_converse(k - 1, w, q + 1, 0);
            lemma_push_char_nonempty(Seq::empty(), e.0, e.1);
            assert(break_word(lines, cur, 0, w, word) == (
                prev.0.push(prev.1),
                push_char_line(Seq::empty(), e.0, e.1),
                1int,
            ));
            assert(((k - 1) / w) * w == k - 1);
        } else {
            assert(k - 1 == q * w + (r + 1)) by (nonlinear_arith)
                requires
                    k - 2 == w * q + r,
            ;
            vstd::arithmetic::div_mod::lemma_fundamental_div_mod_converse(k - 1, w, q, r + 1);
            lemma_push_char_nonempty(prev.1, e.0, e.1);
            assert(break_word(lines, cur, 0, w, word) == (prev.0, push_char_line(prev.1, e.0, e.1), prev.2 + 1));
            assert(((k - 1) / w) * w == k - 2 - r);
        }
    }
}

/// Placing the collected word keeps the wrapper and the count in step.
proof fn lemma_flush_tracks(m: WrapModel, t: Tally, w: int)
    requires
        w >= 1,
        tracks(m, t),
        m.cur_w > 0 ==> m.space is Some,
    ensures
        tracks(flush_word(m, w), tally_flush(t, w)),
        flush_word(m, w).word.len() == 0,
        m.word.len() > 0 ==> flush_word(m, w).space is None,
        m.word.len() == 0 ==> flush_word(m, w) == m,
{
    if m.word.len() > 0 {
        let ww = m.word_w;
        let sp: int = if m.cur_w > 0 { 1 } else { 0 };
        let m1 = if m.cur_w + sp + ww <= w {
            match (if m.cur_w > 0 { m.space } else { None }) {
                Some(st) => WrapModel { cur: push_char_line(m.cur, ' ', st), cur_w: m.cur_w + 1, ..m },
                None => m,
            }
        } else if m.cur_w > 0 {
            crate::wrap::break_line(m)
        } else {
            m
        };
        assert(m1.word == m.word && m1.word_w == ww);
        let p = place(ww, w, m.cur_w);
        lemma_place(ww, w, m.cur_w);
        let r = flush_word(m, w);
        if m1.cur_w + ww <= w {
            lemma_push_word_nonempty(m1.cur, m1.word);
            assert(r.cur == push_word_line(m1.cur, m1.word));
            assert(r.cur_w == m1.cur_w + ww);
            assert(r.lines == m1.lines);
            assert(r.lines.len() == m.lines.len() + p.0);
            assert(r.cur_w == p.1);
        } else {
            assert(m1.cur_w == 0);
            assert(m1.cur.len() == 0);
            lemma_break_unit(m1.lines, m1.cur, w, m1.word);
            let b = break_word(m1.lines, m1.cur, m1.cur_w, w, m1.word);
            assert(r.lines == b.0 && r.cur == b.1 && r.cur_w == b.2);
            assert(r.lines.len() == m.lines.len() + p.0);
            assert(r.cur_w == p.1);
        }
        assert(r.word.len() == 0);
    }
}

/// One character keeps the wrapper and the count in step, with a space pending
/// whenever the current line has columns in use.
proof fn lemma_step_tracks(m: WrapModel, t: Tally, w: int, c: char, st: Style)
    requires
        w >= 1,
        tracks(m, t),
        m.cur_w > 0 ==> m.space is Some,
        one_column_char(c),
    ensures
        tracks(wrap_step(m, w, c, st), tally_step(t, w, c)),
        wrap_step(m, w, c, st).cur_w > 0 ==> wrap_step(m, w, c, st).space is Some,
{
    lemma_flush_tracks(m, t, w);
    if c != '\n' && !is_blank(c) {
        let r = wrap_step(m, w, c, st);
        assert(r.word == m.word.push((c, st, char_cols(c) as usize)));
        assert forall|i: int| 0 <= i < r.word.len() implies #[trigger] r.word[i].2 == 1 by {
            if i < m.word.len() {
                assert(r.word[i] == m.word[i]);
            }
        }
    }
}

/// The wrapper's state after a stream of one-column characters counts as the
/// tally of their text.
proof fn lemma_run_tracks(chars: Seq<(char, Style)>, w: int)
    requires
        w >= 1,
        forall|i: int| 0 <= i < chars.len() ==> #[trigger] one_column_char(chars[i].0),
    ensures
        tracks(
            wrap_run(chars, w),
            tally(Tally { lines: 0, cur: 0, word: 0 }, w, chars.map_values(|e: (char, Style)| e.0)),
        ),
        wrap_run(chars, w).cur_w > 0 ==> wrap_run(chars, w).space is Some,
    decreases chars.len(),
{
    let t0 = Tally { lines: 0, cur: 0, word: 0 };
    if chars.len() == 0 {
        assert(chars.map_values(|e: (char, Style)| e.0).len() == 0);
    } else {
        let pre = chars.drop_last();
        assert forall|i: int| 0 <= i < pre.len() implies #[trigger] one_column_char(pre[i].0) by {
            assert(pre[i] == chars[i]);
        }
        lemma_run_tracks(pre, w);
        let c = chars.last();
        assert(one_column_char(chars[chars.len() - 1].0));
        let cs = chars.map_values(|e: (char, Style)| e.0);
        let ps = pre.map_values(|e: (char, Style)| e.0);
        assert(cs =~= ps.push(c.0));
        lemma_tally_push(t0, w, ps, c.0);
        lemma_step_tracks(wrap_run(pre, w), tally(t0, w, ps), w, c.0, c.1);
    }
}

/// `count_lines` mirrors `wrap`: where every character of a cell's text but line
/// feeds, spaces and tabs takes one column, alone and in runs, the measured cell
/// counts exactly as many lines as the wrapper makes of it at any width of at
/// least one column.
pub proof fn lemma_count_lines_matches_wrap(spans: LineView, width: int)
    requires
        width >= 1,
        one_column_text(line_text(spans)),
    ensures
        wrapped(spans, width).len() == cell_lines(measured(line_text(spans)), width),
{
    let s = line_text(spans);
    let chars = styled_chars(spans);
    let t0 = Tally { lines: 0, cur: 0, word: 0 };
    crate::wrap::lemma_styled_chars_text(spans);
    let cs = chars.map_values(|e: (char, Style)| e.0);
    assert(cs == s);
    assert forall|i: int| 0 <= i < chars.len() implies #[trigger] one_column_char(chars[i].0) by {
        assert(cs[i] == chars[i].0);
        assert(one_column_char(s[i]));
    }
    lemma_run_tracks(chars, width);
    let run = wrap_run(chars, width);
    let t = tally(t0, width, s);
    lemma_flush_tracks(run, t, width);
    lemma_tally_cell(t0, width, s);
    let m = flush_word(run, width);
    let f = tally_flush(t, width);
    assert(m.lines.len() == f.lines && m.cur_w == f.cur);
    let ms = measured(s);
    lemma_segments_last(s);
    lemma_words_empty_iff(last_segment(s));
    assert(ms.len() == segments(s).len());
    assert(ms.last().len() == words_from(last_segment(s), 0).len());
    if ends_with_blank_line(s) {
        lemma_raw_last(ms, width);
        assert(kept_segments(ms) == ms.drop_last());
        assert(seg_extra(ms.last(), width, 0) == 0);
        assert(m.cur.len() == 0);
        if m.lines.len() > 0 {
            assert(wrapped(spans, width) == m.lines);
        } else {
            assert(wrapped(spans, width) == m.lines.push(m.cur));
        }
        return;
    }
    if newline_from(s, 0) is Some {
        assert(ms.last().len() > 0);
    }
    assert(kept_segments(ms) == ms);
    assert(m.cur.len() > 0 || m.lines.len() == 0) by {
        if newline_from(s, 0) is None {
            assert(last_segment(s) == s);
        }
        if !(exists|k: int| 0 <= k < last_segment(s).len() && !is_blank(#[trigger] last_segment(s)[k])) {
            assert(newline_from(s, 0) is None);
            assert forall|k: int| 0 <= k < s.len() implies is_blank(#[trigger] s[k]) by {
                assert(is_blank(last_segment(s)[k]));
            }
        }
    }
    assert(wrapped(spans, width) == m.lines.push(m.cur));
}

} // verus!
