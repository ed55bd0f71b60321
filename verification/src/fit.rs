//! Choosing table column widths that keep a table short.

use vstd::prelude::*;

use crate::table::{cell_lines, cell_view, count_lines, sat_u32, CellWords};

verus! {

/// The measured cells of a table, row by row.
pub open spec fn table_view(cells: Seq<Vec<CellWords>>) -> Seq<Seq<Seq<Seq<usize>>>> {
    cells.map_values(|row: Vec<CellWords>| row@.map_values(|c: CellWords| cell_view(c)))
}

/// Every row has a cell for each of the `n` columns.
pub open spec fn rows_have(cells: Seq<Vec<CellWords>>, n: int) -> bool {
    forall|r: int| 0 <= r < cells.len() ==> #[trigger] cells[r]@.len() == n
}

pub open spec fn sum_of(s: Seq<usize>) -> int
    decreases s.len(),
{
    if s.len() == 0 {
        0
    } else {
        sum_of(s.drop_last()) + s.last()
    }
}

pub open spec fn min_int(a: int, b: int) -> int {
    if a <= b { a } else { b }
}

pub open spec fn max_int(a: int, b: int) -> int {
    if a >= b { a } else { b }
}

proof fn lemma_sum_bound(s: Seq<usize>)
    ensures
        0 <= sum_of(s) <= s.len() * (usize::MAX as int),
    decreases s.len(),
{
    if s.len() > 0 {
        lemma_sum_bound(s.drop_last());
        assert((s.len() - 1) * (usize::MAX as int) + usize::MAX == s.len() * (usize::MAX as int))
            by (nonlinear_arith);
    }
}

proof fn lemma_elem_le_sum(s: Seq<usize>, i: int)
    requires
        0 <= i < s.len(),
    ensures
        s[i] <= sum_of(s),
    decreases s.len(),
{
    lemma_sum_bound(s.drop_last());
    if i < s.len() - 1 {
        lemma_elem_le_sum(s.drop_last(), i);
    }
}

proof fn lemma_sum_le(a: Seq<usize>, b: Seq<usize>)
    requires
        a.len() == b.len(),
        forall|i: int| 0 <= i < a.len() ==> #[trigger] a[i] <= b[i],
    ensures
        sum_of(a) <= sum_of(b),
    decreases a.len(),
{
    if a.len() > 0 {
        lemma_sum_le(a.drop_last(), b.drop_last());
    }
}

proof fn lemma_sum_update(s: Seq<usize>, i: int, v: usize)
    requires
        0 <= i < s.len(),
    ensures
        sum_of(s.update(i, v)) == sum_of(s) - s[i] + v,
    decreases s.len(),
{
    if i < s.len() - 1 {
        assert(s.update(i, v).drop_last() == s.drop_last().update(i, v));
        lemma_sum_update(s.drop_last(), i, v);
    } else {
        assert(s.update(i, v).drop_last() == s.drop_last());
    }
}

/// The exact sum of `v`.
pub fn sum_wide(v: &[usize]) -> (r: u128)
    ensures
        r == sum_of(v@),
{
    let mut acc: u128 = 0;
    let mut i: usize = 0;
    while i < v.len()
        invariant
            i <= v@.len(),
            acc == sum_of(v@.take(i as int)),
        decreases v@.len() - i,
    {
        proof {
            assert(v@.take(i + 1).drop_last() == v@.take(i as int));
            lemma_sum_bound(v@.take(i + 1));
            assert((i + 1) * (usize::MAX as int) <= (usize::MAX as int) * (usize::MAX as int))
                by (nonlinear_arith)
                requires
                    i + 1 <= usize::MAX,
            ;
        }
        acc = acc + v[i] as u128;
        i += 1;
    }
    assert(v@.take(i as int) == v@);
    acc
}

/// A copy of `v`.
pub fn copy_of(v: &[usize]) -> (r: Vec<usize>)
    ensures
        r@ == v@,
{
    let mut out: Vec<usize> = Vec::new();
    let mut i: usize = 0;
    while i < v.len()
        invariant
            i <= v@.len(),
            out@ == v@.take(i as int),
        decreases v@.len() - i,
    {
        out.push(v[i]);
        i += 1;
    }
    assert(v@.take(i as int) == v@);
    out
}

pub open spec fn sat_usize(n: int) -> int {
    if n > usize::MAX { usize::MAX as int } else { n }
}

/// Columns a segment takes on one line: its words with a space between each two.
pub open spec fn seg_cols(seg: Seq<usize>) -> int {
    sat_usize(sum_of(seg) + if seg.len() > 0 { seg.len() - 1 } else { 0 })
}

/// Columns the widest segment of a cell takes (0 for a cell without segments).
pub open spec fn cell_cols(cell: Seq<Seq<usize>>) -> int
    decreases cell.len(),
{
    if cell.len() == 0 {
        0
    } else {
        max_int(cell_cols(cell.drop_last()), seg_cols(cell.last()))
    }
}

/// The widest word of a segment (0 for none).
pub open spec fn longest(seg: Seq<usize>) -> int
    decreases seg.len(),
{
    if seg.len() == 0 {
        0
    } else {
        max_int(longest(seg.drop_last()), seg.last() as int)
    }
}

/// Widths that fit a table into `space` columns: the natural widths if they fit, else
/// the minimums scaled down if even those do not, else the shortest of several layouts
/// (the searched proposal of `greedy` and four water-filled layouts, each improved by
/// the local search), its leftover width handed out.
pub fn fit_columns<'a, G: Fn(&Fitter) -> Vec<usize>>(
    cells: &'a [Vec<CellWords>],
    natural: &'a [usize],
    minimum: &[usize],
    space: usize,
    greedy: &G,
) -> (r: Vec<usize>)
    requires
        natural@.len() == minimum@.len(),
        rows_have(cells@, natural@.len() as int),
        forall|c: int| 0 <= c < natural@.len() ==> 1 <= #[trigger] natural@[c] && 1 <= minimum@[c],
        forall|f: &Fitter| #[trigger] greedy.requires((f,)),
    ensures
        sum_of(natural@) <= space ==> r@ == natural@,
        sum_of(natural@) > space && sum_of(column_mins(natural@, minimum@)) >= space ==> r@ == scaled_mins(
            column_mins(natural@, minimum@),
            space as int,
        ),
        sum_of(natural@) > space && sum_of(column_mins(natural@, minimum@)) < space ==> {
            &&& r@.len() == natural@.len()
            &&& sum_of(r@) == space
            &&& forall|c: int| 0 <= c < natural@.len() ==> column_mins(natural@, minimum@)[c] <= #[trigger] r@[c] <= natural@[c]
            &&& exists|f: Fitter<'a>, g: Vec<usize>|
                {
                    &&& f.wf()
                    &&& f.cells == cells
                    &&& f.natural == natural
                    &&& f.min@ == column_mins(natural@, minimum@)
                    &&& f.space == space
                    &&& greedy.ensures((&f,), g)
                    &&& r@ == #[trigger] f.chosen(g@)
                }
        },
{
    let n = natural.len();
    if sum_wide(natural) <= space as u128 {
        return copy_of(natural);
    }
    let mut min: Vec<usize> = Vec::new();
    let mut c: usize = 0;
    while c < n
        invariant
            n == natural@.len(),
            natural@.len() == minimum@.len(),
            c <= n,
            min@ == column_mins(natural@, minimum@).take(c as int),
        decreases n - c,
    {
        let m = if minimum[c] <= natural[c] { minimum[c] } else { natural[c] };
        min.push(m);
        assert(column_mins(natural@, minimum@).take(c + 1) == column_mins(natural@, minimum@).take(c as int).push(m));
        c += 1;
    }
    assert(column_mins(natural@, minimum@).take(c as int) == column_mins(natural@, minimum@));
    let min_total = sum_wide(min.as_slice());
    if min_total >= space as u128 {
        let mut out: Vec<usize> = Vec::new();
        let mut c: usize = 0;
        while c < n
            invariant
                n == natural@.len(),
                natural@.len() == minimum@.len(),
                forall|j: int| 0 <= j < n ==> 1 <= #[trigger] natural@[j] && 1 <= minimum@[j],
                min@ == column_mins(natural@, minimum@),
                min_total == sum_of(min@),
                min_total >= space,
                c <= n,
                out@ == scaled_mins(min@, space as int).take(c as int),
            decreases n - c,
        {
            proof {
                lemma_elem_le_sum(min@, c as int);
                assert(min@[c as int] * space <= (usize::MAX as int) * (usize::MAX as int)) by (nonlinear_arith)
                    requires
                        min@[c as int] <= usize::MAX,
                        space <= usize::MAX,
                ;
                assert(min@[c as int] >= 1);
            }
            let prod: u128 = min[c] as u128 * space as u128;
            let q = prod / min_total;
            proof {
                assert(q <= space) by (nonlinear_arith)
                    requires
                        q == prod / min_total,
                        prod == min@[c as int] * space,
                        min@[c as int] <= min_total,
                        min_total >= 1,
                        space >= 0,
                ;
            }
            let v: usize = if q < 1 { 1 } else { q as usize };
            out.push(v);
            assert(scaled_mins(min@, space as int).take(c + 1) == scaled_mins(min@, space as int).take(c as int).push(v));
            c += 1;
        }
        assert(scaled_mins(min@, space as int).take(c as int) == scaled_mins(min@, space as int));
        return out;
    }
    let fit = Fitter::new(cells, natural, min, space);
    let mut best: Vec<usize> = fit.min.clone();
    let mut best_h: u32 = 0;
    let mut have = false;
    let guess = greedy(&fit);
    let ghost g0 = guess@;
    if fit.is_valid(&guess) {
        best = fit.local_search(guess);
        best_h = fit.height(best.as_slice());
        have = true;
    }
    let qs: [usize; 4] = [50, 75, 90, 100];
    let mut i: usize = 0;
    while i < 4
        invariant
            fit.wf(),
            fit.natural == natural,
            i <= 4,
            qs@ == seq![50usize, 75, 90, 100],
            have ==> fit.valid(best@) && best_h == fit.height_of(best@),
            have ==> fit.kept(g0, i as int) == Some(best@),
            !have ==> fit.kept(g0, i as int) is None,
            i > 0 ==> have,
        decreases 4 - i,
    {
        let target = fit.percentile_widths(qs[i]);
        assert(target@ =~= fit.percentiles(Fitter::quantile(i as int)));
        let start = fit.water_fill(target.as_slice());
        proof {
            fit.lemma_filled_valid(target@);
        }
        let cand = fit.local_search(start);
        assert(cand@ == fit.candidate(i as int));
        let h = fit.height(cand.as_slice());
        if !have || h < best_h {
            best = cand;
            best_h = h;
            have = true;
        }
        i += 1;
    }
    assert(fit.kept(g0, 4) == Some(best@));
    let ghost b = best@;
    proof {
        assert forall|c: int| 0 <= c < n implies #[trigger] b[c] <= natural@[c] by {
            assert(fit.min@[c] <= natural@[c]);
        }
        lemma_leftover_filled(b, natural@, space - sum_of(b));
    }
    let r = fit.fill_leftover(best);
    proof {
        if sum_of(r@) != space {
            assert forall|c: int| 0 <= c < n implies #[trigger] r@[c] == natural@[c] by {
                assert(b[c] <= natural@[c]);
            }
            assert(r@ == natural@);
        }
        assert forall|c: int| 0 <= c < n implies column_mins(natural@, minimum@)[c] <= #[trigger] r@[c] <= natural@[c] by {
            assert(b[c] <= r@[c]);
            assert(b[c] <= natural@[c]);
        }
        assert(r@ == fit.chosen(g0));
        assert(greedy.ensures((&fit,), guess));
    }
    r
}

/// Each column's least width: its widest word (up to a cap), but no more than its natural width.
pub open spec fn column_mins(natural: Seq<usize>, minimum: Seq<usize>) -> Seq<usize> {
    Seq::new(natural.len(), |c: int| min_int(minimum[c] as int, natural[c] as int) as usize)
}

/// The minimums shrunk in proportion to fit `space` (each at least 1).
pub open spec fn scaled_mins(mins: Seq<usize>, space: int) -> Seq<usize> {
    Seq::new(mins.len(), |c: int| max_int(1, mins[c] * space / sum_of(mins)) as usize)
}

pub fn seg_width(seg: &Vec<usize>) -> (r: usize)
    ensures
        r == seg_cols(seg@),
{
    let total = sum_wide(seg.as_slice());
    let gaps: u128 = if seg.len() > 0 { (seg.len() - 1) as u128 } else { 0 };
    proof {
        lemma_sum_bound(seg@);
        assert(seg@.len() * (usize::MAX as int) <= (usize::MAX as int) * (usize::MAX as int))
            by (nonlinear_arith)
            requires
                seg@.len() <= usize::MAX,
        ;
    }
    let w = total + gaps;
    if w > usize::MAX as u128 {
        usize::MAX
    } else {
        w as usize
    }
}

pub fn cell_width(cell: &CellWords) -> (r: usize)
    ensures
        r == cell_cols(cell_view(*cell)),
{
    let ghost cv = cell_view(*cell);
    let mut m: usize = 0;
    let mut i: usize = 0;
    while i < cell.len()
        invariant
            i <= cell@.len(),
            cv == cell_view(*cell),
            m == cell_cols(cv.take(i as int)),
        decreases cell@.len() - i,
    {
        assert(cv.take(i + 1).drop_last() == cv.take(i as int));
        let w = seg_width(&cell[i]);
        if w > m {
            m = w;
        }
        i += 1;
    }
    assert(cv.take(i as int) == cv);
    m
}

pub open spec fn leq_usize() -> spec_fn(usize, usize) -> bool {
    |a: usize, b: usize| a <= b
}

/// `v` in ascending order.
pub fn sorted_copy(v: &Vec<usize>) -> (r: Vec<usize>)
    ensures
        r@ == v@.sort_by(leq_usize()),
{
    let ghost leq = leq_usize();
    let mut out: Vec<usize> = Vec::new();
    let mut i: usize = 0;
    broadcast use vstd::seq_lib::group_to_multiset_ensures;
    while i < v.len()
        invariant
            i <= v@.len(),
            leq == leq_usize(),
            vstd::relations::sorted_by(out@, leq),
            out@.to_multiset() == v@.take(i as int).to_multiset(),
        decreases v@.len() - i,
    {
        let x = v[i];
        let mut p: usize = 0;
        while p < out.len() && out[p] <= x
            invariant
                p <= out@.len(),
                forall|k: int| 0 <= k < p ==> out@[k] <= x,
            decreases out@.len() - p,
        {
            p += 1;
        }
        let ghost old_out = out@;
        out.insert(p, x);
        proof {
            vstd::seq_lib::to_multiset_insert(old_out, p as int, x);
            vstd::seq_lib::to_multiset_build(v@.take(i as int), x);
        }
        assert forall|a: int, b: int| 0 <= a < b < out@.len() implies #[trigger] leq(out@[a], out@[b]) by {
            if b < p {
                assert(leq(old_out[a], old_out[b]));
            } else if b == p {
            } else if a < p {
                assert(old_out[a] <= x);
                assert(leq(old_out[p as int], old_out[b - 1]) || p == b - 1);
            } else if a == p {
                assert(leq(old_out[p as int], old_out[b - 1]) || p == b - 1);
            } else {
                assert(leq(old_out[a - 1], old_out[b - 1]));
            }
        }
        assert(v@.take(i + 1) == v@.take(i as int).push(x));
        i += 1;
    }
    assert(v@.take(i as int) == v@);
    proof {
        assert(vstd::relations::total_ordering(leq));
        v@.lemma_sort_by_ensures(leq);
        vstd::seq_lib::lemma_sorted_unique(out@, v@.sort_by(leq), leq);
    }
    out
}

/// Among the first `k` columns that are narrower than their natural width, the one
/// furthest from it (the last of equals); -1 if there is none.
pub open spec fn widest_gap(widths: Seq<usize>, natural: Seq<usize>, k: int) -> int
    decreases k,
{
    if k <= 0 {
        -1
    } else {
        let b = widest_gap(widths, natural, k - 1);
        let c = k - 1;
        if widths[c] < natural[c] && (b < 0 || natural[c] - widths[c] >= natural[b] - widths[b]) {
            c
        } else {
            b
        }
    }
}

/// `widths` after handing out `left` columns one at a time, each to the column furthest
/// from its natural width.
pub open spec fn leftover_filled(widths: Seq<usize>, natural: Seq<usize>, left: int) -> Seq<usize>
    decreases left,
{
    let c = widest_gap(widths, natural, widths.len() as int);
    if left <= 0 || c < 0 {
        widths
    } else {
        leftover_filled(widths.update(c, (widths[c] + 1) as usize), natural, left - 1)
    }
}

proof fn lemma_widest_gap(widths: Seq<usize>, natural: Seq<usize>, k: int)
    requires
        0 <= k <= widths.len(),
        widths.len() == natural.len(),
    ensures
        -1 <= widest_gap(widths, natural, k) < k,
        widest_gap(widths, natural, k) >= 0 ==> widths[widest_gap(widths, natural, k)]
            < natural[widest_gap(widths, natural, k)],
        widest_gap(widths, natural, k) < 0 ==> forall|c: int| 0 <= c < k ==> #[trigger] widths[c] >= natural[c],
    decreases k,
{
    if k > 0 {
        lemma_widest_gap(widths, natural, k - 1);
    }
}

/// Handing out leftover width only widens columns narrower than their natural width,
/// up to it; all of it is handed out unless every column reaches its natural width.
proof fn lemma_leftover_filled(widths: Seq<usize>, natural: Seq<usize>, left: int)
    requires
        widths.len() == natural.len(),
        left >= 0,
    ensures
        leftover_filled(widths, natural, left).len() == widths.len(),
        forall|c: int|
            0 <= c < widths.len() ==> widths[c] <= #[trigger] leftover_filled(widths, natural, left)[c] <= max_int(
                widths[c] as int,
                natural[c] as int,
            ),
        sum_of(leftover_filled(widths, natural, left)) <= sum_of(widths) + left,
        sum_of(leftover_filled(widths, natural, left)) == sum_of(widths) + left
            || forall|c: int| 0 <= c < widths.len() ==> #[trigger] leftover_filled(widths, natural, left)[c] >= natural[c],
    decreases left,
{
    let c = widest_gap(widths, natural, widths.len() as int);
    lemma_widest_gap(widths, natural, widths.len() as int);
    if left <= 0 || c < 0 {
    } else {
        let w2 = widths.update(c, (widths[c] + 1) as usize);
        lemma_sum_update(widths, c, (widths[c] + 1) as usize);
        lemma_leftover_filled(w2, natural, left - 1);
        assert forall|j: int| 0 <= j < widths.len() implies widths[j] <= #[trigger] leftover_filled(widths, natural, left)[j]
            <= max_int(widths[j] as int, natural[j] as int) by {
            assert(widths[j] <= w2[j]);
            if j == c {
                assert(w2[j] <= natural[j]);
            } else {
                assert(w2[j] == widths[j]);
            }
        }
    }
}

/// Line counts of every cell at every width a column may take.
pub struct Fitter<'a> {
    pub cells: &'a [Vec<CellWords>],
    pub natural: &'a [usize],
    pub min: Vec<usize>,
    pub max_w: Vec<usize>,
    pub space: usize,
    /// `lines[c][w - min[c]][row]`
    pub lines: Vec<Vec<Vec<u32>>>,
}

impl<'a> Fitter<'a> {
    pub open spec fn n(&self) -> int {
        self.natural@.len() as int
    }

    pub open spec fn nrows(&self) -> int {
        self.cells@.len() as int
    }

    /// Width the other columns leave to a column beyond its minimum.
    pub open spec fn spare(&self) -> int {
        self.space - sum_of(self.min@)
    }

    /// Lines of row `r`'s cell in column `c` at width `w` (widths past the column's
    /// largest count as its largest).
    pub open spec fn cell_at(&self, c: int, w: int, r: int) -> int {
        self.lines@[c]@[min_int(w, self.max_w@[c] as int) - self.min@[c]]@[r] as int
    }

    pub open spec fn wf(&self) -> bool {
        let n = self.n();
        let tv = table_view(self.cells@);
        &&& n > 0
        &&& self.min@.len() == n
        &&& self.max_w@.len() == n
        &&& self.lines@.len() == n
        &&& sum_of(self.min@) <= self.space
        &&& rows_have(self.cells@, n)
        &&& forall|c: int|
            0 <= c < n ==> {
                &&& 1 <= #[trigger] self.min@[c] <= self.natural@[c]
                &&& self.max_w@[c] == min_int(self.natural@[c] as int, self.min@[c] + self.spare())
                &&& self.lines@[c]@.len() == self.max_w@[c] - self.min@[c] + 1
            }
        &&& forall|c: int, k: int|
            0 <= c < n && 0 <= k < self.lines@[c]@.len() ==> (#[trigger] self.lines@[c]@[k])@.len()
                == self.nrows()
        &&& forall|c: int, k: int, r: int|
            0 <= c < n && 0 <= k < self.lines@[c]@.len() && 0 <= r < self.nrows()
                ==> #[trigger] self.lines@[c]@[k]@[r] == sat_u32(
                cell_lines(tv[r][c], self.min@[c] + k),
            )
    }

    /// Widths that the layout may use: each column within its range, all within `space`.
    pub open spec fn valid(&self, widths: Seq<usize>) -> bool {
        &&& widths.len() == self.n()
        &&& forall|c: int|
            0 <= c < self.n() ==> self.min@[c] <= #[trigger] widths[c] <= self.max_w@[c]
        &&& sum_of(widths) <= self.space
    }

    /// The tallest of row `r`'s cells among the first `upto` columns.
    pub open spec fn row_height(&self, widths: Seq<usize>, r: int, upto: int) -> int
        decreases upto,
    {
        if upto <= 0 {
            0
        } else {
            max_int(
                self.row_height(widths, r, upto - 1),
                self.cell_at(upto - 1, widths[upto - 1] as int, r),
            )
        }
    }

    /// Lines of the first `rows` rows.
    pub open spec fn rows_height(&self, widths: Seq<usize>, rows: int) -> int
        decreases rows,
    {
        if rows <= 0 {
            0
        } else {
            self.rows_height(widths, rows - 1) + self.row_height(widths, rows - 1, self.n())
        }
    }

    /// Lines of the whole table at `widths`.
    pub open spec fn height_of(&self, widths: Seq<usize>) -> int {
        sat_u32(self.rows_height(widths, self.nrows()))
    }

    /// Counts the lines of every cell at every width its column may take.
    pub fn new(cells: &'a [Vec<CellWords>], natural: &'a [usize], min: Vec<usize>, space: usize) -> (r: Fitter<'a>)
        requires
            natural@.len() > 0,
            min@.len() == natural@.len(),
            sum_of(min@) <= space,
            rows_have(cells@, natural@.len() as int),
            forall|c: int| 0 <= c < natural@.len() ==> 1 <= #[trigger] min@[c] <= natural@[c],
        ensures
            r.wf(),
            r.cells == cells,
            r.natural == natural,
            r.min@ == min@,
            r.space == space,
    {
        let total = sum_wide(min.as_slice());
        let spare: usize = (space as u128 - total) as usize;
        let n = natural.len();
        let mut max_w: Vec<usize> = Vec::new();
        let mut c: usize = 0;
        while c < n
            invariant
                c <= n,
                n == natural@.len(),
                min@.len() == n,
                total == sum_of(min@),
                total <= space,
                spare == space - total,
                max_w@.len() == c,
                forall|j: int| 0 <= j < n ==> 1 <= #[trigger] min@[j] <= natural@[j],
                forall|j: int|
                    0 <= j < c ==> #[trigger] max_w@[j] == min_int(natural@[j] as int, min@[j] + spare),
            decreases n - c,
        {
            proof {
                lemma_elem_le_sum(min@, c as int);
            }
            let m = min[c] + spare;
            max_w.push(if natural[c] <= m { natural[c] } else { m });
            c += 1;
        }
        let ghost tv = table_view(cells@);
        let mut lines: Vec<Vec<Vec<u32>>> = Vec::new();
        let mut c: usize = 0;
        while c < n
            invariant
                c <= n,
                n == natural@.len(),
                min@.len() == n,
                max_w@.len() == n,
                tv == table_view(cells@),
                rows_have(cells@, n as int),
                lines@.len() == c,
                forall|j: int| 0 <= j < n ==> 1 <= #[trigger] min@[j] <= natural@[j],
                forall|j: int|
                    0 <= j < n ==> #[trigger] max_w@[j] == min_int(natural@[j] as int, min@[j] + spare),
                forall|j: int| 0 <= j < c ==> (#[trigger] lines@[j])@.len() == max_w@[j] - min@[j] + 1,
                forall|j: int, k: int|
                    0 <= j < c && 0 <= k < lines@[j]@.len() ==> (#[trigger] lines@[j]@[k])@.len()
                        == cells@.len(),
                forall|j: int, k: int, r: int|
                    0 <= j < c && 0 <= k < lines@[j]@.len() && 0 <= r < cells@.len()
                        ==> #[trigger] lines@[j]@[k]@[r] == sat_u32(cell_lines(tv[r][j], min@[j] + k)),
            decreases n - c,
        {
            let mut per_w: Vec<Vec<u32>> = Vec::new();
            let count: usize = max_w[c] - min[c] + 1;
            let mut k: usize = 0;
            while k < count
                invariant
                    c < n,
                    n == natural@.len(),
                    min@.len() == n,
                    max_w@.len() == n,
                    tv == table_view(cells@),
                    rows_have(cells@, n as int),
                    1 <= min@[c as int] <= max_w@[c as int],
                    count == max_w@[c as int] - min@[c as int] + 1,
                    k <= count,
                    per_w@.len() == k,
                    forall|q: int| 0 <= q < per_w@.len() ==> (#[trigger] per_w@[q])@.len() == cells@.len(),
                    forall|q: int, r: int|
                        0 <= q < per_w@.len() && 0 <= r < cells@.len() ==> #[trigger] per_w@[q]@[r]
                            == sat_u32(cell_lines(tv[r][c as int], min@[c as int] + q)),
                decreases count - k,
            {
                let w = min[c] + k;
                let mut col: Vec<u32> = Vec::new();
                let mut r: usize = 0;
                while r < cells.len()
                    invariant
                        c < n,
                        tv == table_view(cells@),
                        rows_have(cells@, n as int),
                        w >= 1,
                        r <= cells@.len(),
                        col@.len() == r,
                        forall|q: int| 0 <= q < r ==> #[trigger] col@[q] == sat_u32(cell_lines(tv[q][c as int], w as int)),
                    decreases cells@.len() - r,
                {
                    assert(cells@[r as int]@.len() == n);
                    let cnt = count_lines(&cells[r][c], w);
                    assert(tv[r as int][c as int] == cell_view(cells@[r as int]@[c as int]));
                    col.push(cnt);
                    r += 1;
                }
                per_w.push(col);
                k += 1;
            }
            lines.push(per_w);
            c += 1;
        }
        Fitter { cells, natural, min, max_w, space, lines }
    }

    /// The widths of column `c`'s cells, row by row.
    pub open spec fn col_widths(&self, c: int) -> Seq<usize> {
        Seq::new(self.cells@.len(), |r: int| cell_cols(table_view(self.cells@)[r][c]) as usize)
    }

    /// The cell width at the `q`th percentile of column `c` (nearest rank, rounding down).
    pub open spec fn percentile_of(&self, c: int, q: int) -> usize {
        let ws = self.col_widths(c);
        if ws.len() == 0 {
            0
        } else {
            ws.sort_by(leq_usize())[(ws.len() - 1) * q / 100]
        }
    }

    pub fn percentile_widths(&self, q: usize) -> (r: Vec<usize>)
        requires
            self.wf(),
            q <= 100,
        ensures
            r@.len() == self.n(),
            forall|c: int| 0 <= c < self.n() ==> #[trigger] r@[c] == self.percentile_of(c, q as int),
    {
        let n = self.ncols();
        let ghost tv = table_view(self.cells@);
        let mut out: Vec<usize> = Vec::new();
        let mut c: usize = 0;
        while c < n
            invariant
                self.wf(),
                n == self.n(),
                q <= 100,
                tv == table_view(self.cells@),
                c <= n,
                out@.len() == c,
                forall|j: int| 0 <= j < c ==> #[trigger] out@[j] == self.percentile_of(j, q as int),
            decreases n - c,
        {
            let mut ws: Vec<usize> = Vec::new();
            let mut r: usize = 0;
            while r < self.cells.len()
                invariant
                    self.wf(),
                    n == self.n(),
                    c < n,
                    tv == table_view(self.cells@),
                    r <= self.nrows(),
                    ws@ == self.col_widths(c as int).take(r as int),
                decreases self.nrows() - r,
            {
                assert(self.cells@[r as int]@.len() == n);
                let w = cell_width(&self.cells[r][c]);
                assert(tv[r as int][c as int] == cell_view(self.cells@[r as int]@[c as int]));
                ws.push(w);
                assert(self.col_widths(c as int).take(r + 1) == self.col_widths(c as int).take(r as int).push(w));
                r += 1;
            }
            assert(self.col_widths(c as int).take(r as int) == self.col_widths(c as int));
            let sorted = sorted_copy(&ws);
            proof {
                ws@.lemma_sort_by_ensures(leq_usize());
                vstd::seq_lib::to_multiset_len(ws@);
                vstd::seq_lib::to_multiset_len(sorted@);
                assert(sorted@.len() == ws@.len());
            }
            let v = if ws.len() == 0 {
                0
            } else {
                proof {
                    assert((ws@.len() - 1) * q <= (ws@.len() - 1) * 100) by (nonlinear_arith)
                        requires
                            q <= 100,
                            ws@.len() >= 1,
                    ;
                }
                let idx = ((ws.len() - 1) as u128 * q as u128 / 100) as usize;
                sorted[idx]
            };
            out.push(v);
            c += 1;
        }
        out
    }

    /// Column `c`'s width when the columns are filled up to `level`: at least its minimum,
    /// at most its target and its largest width.
    pub open spec fn level_width(&self, target: usize, c: int, level: int) -> usize {
        let m = self.min@[c] as int;
        min_int(min_int(max_int(target as int, m), max_int(level, m)), self.max_w@[c] as int) as usize
    }

    pub open spec fn filled(&self, target: Seq<usize>, level: int) -> Seq<usize> {
        Seq::new(self.n() as nat, |c: int| self.level_width(target[c], c, level))
    }

    proof fn lemma_filled_monotone(&self, target: Seq<usize>, l1: int, l2: int)
        requires
            self.wf(),
            target.len() == self.n(),
            l1 <= l2,
        ensures
            sum_of(self.filled(target, l1)) <= sum_of(self.filled(target, l2)),
    {
        lemma_sum_le(self.filled(target, l1), self.filled(target, l2));
    }

    fn filled_exec(&self, target: &[usize], level: usize) -> (r: Vec<usize>)
        requires
            self.wf(),
            target@.len() == self.n(),
        ensures
            r@ == self.filled(target@, level as int),
    {
        let n = self.ncols();
        let mut out: Vec<usize> = Vec::new();
        let mut c: usize = 0;
        while c < n
            invariant
                self.wf(),
                n == self.n(),
                target@.len() == n,
                c <= n,
                out@ == self.filled(target@, level as int).take(c as int),
            decreases n - c,
        {
            let m = self.min[c];
            let t = if target[c] >= m { target[c] } else { m };
            let l = if level >= m { level } else { m };
            let a = if t <= l { t } else { l };
            let v = if a <= self.max_w[c] { a } else { self.max_w[c] };
            out.push(v);
            assert(self.filled(target@, level as int).take(c + 1) == self.filled(target@, level as int).take(c as int).push(v));
            c += 1;
        }
        assert(self.filled(target@, level as int).take(c as int) == self.filled(target@, level as int));
        out
    }

    /// `level` is the highest level, up to `space`, at which the filled widths fit.
    pub open spec fn top_level(&self, target: Seq<usize>, level: int) -> bool {
        &&& 0 <= level <= self.space
        &&& sum_of(self.filled(target, level)) <= self.space
        &&& forall|l: int| level < l <= self.space ==> sum_of(#[trigger] self.filled(target, l)) > self.space
    }

    /// The widths filled towards `target` up to the highest level that fits.
    pub open spec fn water_filled(&self, target: Seq<usize>) -> Seq<usize> {
        self.filled(target, choose|level: int| self.top_level(target, level))
    }

    /// Widths `filled(target, level)` for the highest level that fits in `space`.
    pub fn water_fill(&self, target: &[usize]) -> (r: Vec<usize>)
        requires
            self.wf(),
            target@.len() == self.n(),
        ensures
            exists|level: int|
                0 <= level <= self.space && r@ == self.filled(target@, level) && sum_of(r@) <= self.space
                    && forall|l: int| level < l <= self.space ==> sum_of(#[trigger] self.filled(target@, l)) > self.space,
            r@ == self.water_filled(target@),
    {
        let mut lo: usize = 0;
        let mut hi: usize = self.space;
        assert(self.filled(target@, 0) == self.min@);
        while lo < hi
            invariant
                self.wf(),
                target@.len() == self.n(),
                lo <= hi <= self.space,
                sum_of(self.filled(target@, lo as int)) <= self.space,
                hi < self.space ==> sum_of(self.filled(target@, hi + 1)) > self.space,
            decreases hi - lo,
        {
            let mid = lo + (hi - lo) / 2 + (hi - lo) % 2;
            let at = self.filled_exec(target, mid);
            if sum_wide(at.as_slice()) <= self.space as u128 {
                lo = mid;
            } else {
                hi = mid - 1;
            }
        }
        let r = self.filled_exec(target, lo);
        assert forall|l: int| lo < l <= self.space implies sum_of(#[trigger] self.filled(target@, l)) > self.space by {
            self.lemma_filled_monotone(target@, lo + 1, l);
        }
        proof {
            assert(self.top_level(target@, lo as int));
            let top = choose|level: int| self.top_level(target@, level);
            assert(self.top_level(target@, top));
            if top < lo {
                assert(sum_of(self.filled(target@, lo as int)) > self.space);
            }
            if top > lo {
                assert(sum_of(self.filled(target@, top)) > self.space);
            }
            assert(top == lo);
        }
        r
    }

    /// Each column's width at percentile `q` of its cells' widths.
    pub open spec fn percentiles(&self, q: int) -> Seq<usize> {
        Seq::new(self.n() as nat, |c: int| self.percentile_of(c, q))
    }

    /// The percentile that the `i`th candidate layout aims at: 50, 75, 90, then 100.
    pub open spec fn quantile(i: int) -> int {
        if i == 0 {
            50
        } else if i == 1 {
            75
        } else if i == 2 {
            90
        } else {
            100
        }
    }

    /// The `i`th candidate layout: the columns filled as evenly as fits towards their
    /// widths at the `i`th percentile, then improved by the local search.
    pub open spec fn candidate(&self, i: int) -> Seq<usize> {
        self.searched(self.water_filled(self.percentiles(Self::quantile(i))), 64)
    }

    /// The layout kept after the first `i` candidates: the searched `proposal` where it
    /// is valid, replaced by a candidate only where that is strictly shorter.
    pub open spec fn kept(&self, proposal: Seq<usize>, i: int) -> Option<Seq<usize>>
        decreases i,
    {
        if i <= 0 {
            if self.valid(proposal) {
                Some(self.searched(proposal, 64))
            } else {
                None
            }
        } else {
            let c = self.candidate(i - 1);
            match self.kept(proposal, i - 1) {
                Some(b) => if self.height_of(c) < self.height_of(b) {
                    Some(c)
                } else {
                    Some(b)
                },
                None => Some(c),
            }
        }
    }

    /// The widths chosen with `proposal`: the shortest layout kept after all four
    /// candidates, its leftover width handed out.
    pub open spec fn chosen(&self, proposal: Seq<usize>) -> Seq<usize> {
        let b = self.kept(proposal, 4).unwrap();
        leftover_filled(b, self.natural@, self.space - sum_of(b))
    }

    /// How far column `c` may widen, taking the width from column `d`, or from the unused
    /// width where `d` is `n`.
    pub open spec fn room(&self, widths: Seq<usize>, c: int, d: int) -> int {
        let give = if d == self.n() { self.space - sum_of(widths) } else { widths[d] - self.min@[d] };
        min_int(give, self.max_w@[c] - widths[c])
    }

    /// `widths` with `k` more columns for `c`, taken from `d` (or from the unused width).
    pub open spec fn moved(&self, widths: Seq<usize>, c: int, d: int, k: int) -> Seq<usize> {
        let w1 = widths.update(c, (widths[c] + k) as usize);
        if d == self.n() {
            w1
        } else {
            w1.update(d, (widths[d] - k) as usize)
        }
    }

    pub open spec fn is_move(&self, widths: Seq<usize>, c: int, d: int, k: int) -> bool {
        &&& 0 <= c < self.n()
        &&& 0 <= d <= self.n()
        &&& d != c
        &&& 1 <= k <= self.room(widths, c, d)
    }

    /// No single move of width between two columns, or of unused width into a column,
    /// makes the table shorter.
    pub open spec fn locally_shortest(&self, widths: Seq<usize>) -> bool {
        forall|c: int, d: int, k: int|
            self.is_move(widths, c, d, k) ==> #[trigger] self.height_of(self.moved(widths, c, d, k))
                >= self.height_of(widths)
    }

    /// Move `(c1, d1, k1)` comes before `(c2, d2, k2)` in the search: by column, then by
    /// donor (the unused width last), then by amount.
    pub open spec fn move_before(c1: int, d1: int, k1: int, c2: int, d2: int, k2: int) -> bool {
        c1 < c2 || (c1 == c2 && (d1 < d2 || (d1 == d2 && k1 < k2)))
    }

    /// The move that shortens the table most, the first in search order among equals.
    pub open spec fn is_best(&self, widths: Seq<usize>, c: int, d: int, k: int) -> bool {
        let h = self.height_of(self.moved(widths, c, d, k));
        &&& self.is_move(widths, c, d, k)
        &&& h < self.height_of(widths)
        &&& forall|c2: int, d2: int, k2: int|
            self.is_move(widths, c2, d2, k2) ==> {
                let h2 = #[trigger] self.height_of(self.moved(widths, c2, d2, k2));
                h2 > h || (h2 == h && !Self::move_before(c2, d2, k2, c, d, k))
            }
    }

    /// `widths` after up to `rounds` rounds of taking the best move, stopping early
    /// where no move shortens the table.
    pub open spec fn searched(&self, widths: Seq<usize>, rounds: nat) -> Seq<usize>
        decreases rounds,
    {
        if rounds == 0 {
            widths
        } else if exists|c: int, d: int, k: int| self.is_best(widths, c, d, k) {
            let (c, d, k) = choose|c: int, d: int, k: int| self.is_best(widths, c, d, k);
            self.searched(self.moved(widths, c, d, k), (rounds - 1) as nat)
        } else {
            widths
        }
    }

    /// The search only moves to shorter layouts: what it gives is no taller, and shorter
    /// where it differs.
    proof fn lemma_searched_drops(&self, widths: Seq<usize>, rounds: nat)
        ensures
            self.height_of(self.searched(widths, rounds)) <= self.height_of(widths),
            self.searched(widths, rounds) != widths ==> self.height_of(self.searched(widths, rounds)) < self.height_of(
                widths,
            ),
        decreases rounds,
    {
        if rounds > 0 && exists|c: int, d: int, k: int| self.is_best(widths, c, d, k) {
            let (c, d, k) = choose|c: int, d: int, k: int| self.is_best(widths, c, d, k);
            self.lemma_searched_drops(self.moved(widths, c, d, k), (rounds - 1) as nat);
        }
    }

    proof fn lemma_best_unique(&self, widths: Seq<usize>, c: int, d: int, k: int, c2: int, d2: int, k2: int)
        requires
            self.is_best(widths, c, d, k),
            self.is_best(widths, c2, d2, k2),
        ensures
            c == c2 && d == d2 && k == k2,
    {
        let h = self.height_of(self.moved(widths, c, d, k));
        let h2 = self.height_of(self.moved(widths, c2, d2, k2));
        assert(h2 > h || (h2 == h && !Self::move_before(c2, d2, k2, c, d, k)));
        assert(h > h2 || (h == h2 && !Self::move_before(c, d, k, c2, d2, k2)));
    }

    proof fn lemma_moved_valid(&self, widths: Seq<usize>, c: int, d: int, k: int)
        requires
            self.wf(),
            self.valid(widths),
            self.is_move(widths, c, d, k),
        ensures
            self.valid(self.moved(widths, c, d, k)),
    {
        let w1 = widths.update(c, (widths[c] + k) as usize);
        lemma_sum_update(widths, c, (widths[c] + k) as usize);
        if d != self.n() {
            lemma_sum_update(w1, d, (widths[d] - k) as usize);
        }
    }

    fn moved_exec(&self, widths: &Vec<usize>, c: usize, d: usize, k: usize) -> (r: Vec<usize>)
        requires
            self.wf(),
            self.valid(widths@),
            self.is_move(widths@, c as int, d as int, k as int),
        ensures
            r@ == self.moved(widths@, c as int, d as int, k as int),
            self.valid(r@),
    {
        proof {
            self.lemma_moved_valid(widths@, c as int, d as int, k as int);
        }
        let mut trial = copy_of(widths.as_slice());
        trial.set(c, widths[c] + k);
        if d != self.ncols() {
            trial.set(d, widths[d] - k);
        }
        trial
    }

    /// Moves width between columns, or spends unused width, while the table gets shorter:
    /// each round takes the move that shortens it most (the first such in column order), for
    /// at most 64 rounds.
    pub fn local_search(&self, widths: Vec<usize>) -> (r: Vec<usize>)
        requires
            self.wf(),
            self.valid(widths@),
        ensures
            r@ == self.searched(widths@, 64),
            self.valid(r@),
            self.height_of(r@) <= self.height_of(widths@),
            self.height_of(r@) + 64 <= self.height_of(widths@) || self.locally_shortest(r@),
            r@ != widths@ ==> self.height_of(r@) < self.height_of(widths@),
    {
        proof {
            self.lemma_searched_drops(widths@, 64);
        }
        let n = self.ncols();
        let ghost w0 = widths@;
        let mut widths = widths;
        let mut cur_h = self.height(widths.as_slice());
        let ghost h0 = cur_h as int;
        let mut round: usize = 0;
        let mut done = false;
        while round < 64 && !done
            invariant
                self.wf(),
                n == self.n(),
                self.valid(widths@),
                cur_h == self.height_of(widths@),
                cur_h + round <= h0,
                round <= 64,
                done ==> self.locally_shortest(widths@),
                done ==> !exists|c: int, d: int, k: int| self.is_best(widths@, c, d, k),
                self.searched(w0, 64) == self.searched(widths@, (64 - round) as nat),
            decreases 64 - round + (if done { 0int } else { 1 }),
        {
            let total = sum_wide(widths.as_slice());
            let left: usize = (self.space as u128 - total) as usize;
            let mut best_h: u32 = cur_h;
            let mut best: Option<(usize, usize, usize)> = None;
            let mut c: usize = 0;
            while c < n
                invariant
                    self.wf(),
                    n == self.n(),
                    self.valid(widths@),
                    cur_h == self.height_of(widths@),
                    left == self.space - sum_of(widths@),
                    c <= n,
                    best_h <= cur_h,
                    best is None ==> best_h == cur_h,
                    best is Some ==> best_h < cur_h,
                    best matches Some((bc, bd, bk)) ==> self.is_move(widths@, bc as int, bd as int, bk as int)
                        && self.height_of(self.moved(widths@, bc as int, bd as int, bk as int)) == best_h,
                    forall|c2: int, d2: int, k2: int|
                        c2 < c && self.is_move(widths@, c2, d2, k2) ==> #[trigger] self.height_of(
                            self.moved(widths@, c2, d2, k2),
                        ) >= best_h,
                    forall|c2: int, d2: int, k2: int|
                        c2 < c && self.is_move(widths@, c2, d2, k2) && #[trigger] self.height_of(
                            self.moved(widths@, c2, d2, k2),
                        ) == best_h ==> (best matches Some((bc, bd, bk)) ==> !Self::move_before(c2, d2, k2, bc as int, bd as int, bk as int)),
                    best matches Some((bc, bd, bk)) ==> bc < c,
                decreases n - c,
            {
                let mut d: usize = 0;
                let mut more = true;
                let ghost mut sd: int = 0;
                while more
                    invariant
                        self.wf(),
                        n == self.n(),
                        self.valid(widths@),
                        cur_h == self.height_of(widths@),
                        left == self.space - sum_of(widths@),
                        c < n,
                        d <= n,
                        more ==> sd == d,
                        !more ==> sd == n + 1,
                        best_h <= cur_h,
                        best is None ==> best_h == cur_h,
                        best is Some ==> best_h < cur_h,
                        best matches Some((bc, bd, bk)) ==> self.is_move(widths@, bc as int, bd as int, bk as int)
                            && self.height_of(self.moved(widths@, bc as int, bd as int, bk as int)) == best_h,
                        forall|c2: int, d2: int, k2: int|
                            (c2 < c || (c2 == c && d2 < sd)) && self.is_move(widths@, c2, d2, k2)
                                ==> #[trigger] self.height_of(self.moved(widths@, c2, d2, k2)) >= best_h,
                        forall|c2: int, d2: int, k2: int|
                            (c2 < c || (c2 == c && d2 < sd)) && self.is_move(widths@, c2, d2, k2)
                                && #[trigger] self.height_of(self.moved(widths@, c2, d2, k2)) == best_h
                                ==> (best matches Some((bc, bd, bk)) ==> !Self::move_before(c2, d2, k2, bc as int, bd as int, bk as int)),
                        best matches Some((bc, bd, bk)) ==> (bc < c || (bc == c && bd < sd)),
                    decreases n + 1 - sd,
                {
                    if d != c {
                        let give = if d == n { left } else { widths[d] - self.min[d] };
                        let grow = self.max_w[c] - widths[c];
                        let room = if give <= grow { give } else { grow };
                        let mut k: usize = 1;
                        while k <= room
                            invariant
                                self.wf(),
                                n == self.n(),
                                self.valid(widths@),
                                cur_h == self.height_of(widths@),
                                left == self.space - sum_of(widths@),
                                c < n,
                                d <= n,
                                d != c,
                                room == self.room(widths@, c as int, d as int),
                                1 <= k <= room + 1,
                                best_h <= cur_h,
                                best is None ==> best_h == cur_h,
                                best is Some ==> best_h < cur_h,
                                more,
                                sd == d,
                                best matches Some((bc, bd, bk)) ==> self.is_move(widths@, bc as int, bd as int, bk as int)
                                    && self.height_of(self.moved(widths@, bc as int, bd as int, bk as int)) == best_h,
                                forall|c2: int, d2: int, k2: int|
                                    (c2 < c || (c2 == c && d2 < d) || (c2 == c && d2 == d && k2 < k))
                                        && self.is_move(widths@, c2, d2, k2)
                                        ==> #[trigger] self.height_of(self.moved(widths@, c2, d2, k2)) >= best_h,
                                forall|c2: int, d2: int, k2: int|
                                    (c2 < c || (c2 == c && d2 < d) || (c2 == c && d2 == d && k2 < k))
                                        && self.is_move(widths@, c2, d2, k2)
                                        && #[trigger] self.height_of(self.moved(widths@, c2, d2, k2)) == best_h
                                        ==> (best matches Some((bc, bd, bk)) ==> !Self::move_before(c2, d2, k2, bc as int, bd as int, bk as int)),
                                best matches Some((bc, bd, bk)) ==> (bc < c || (bc == c && bd < d) || (bc == c && bd == d && bk < k)),
                            decreases room + 1 - k,
                        {
                            let trial = self.moved_exec(&widths, c, d, k);
                            let h = self.height(trial.as_slice());
                            if h < best_h {
                                best_h = h;
                                best = Some((c, d, k));
                            }
                            k += 1;
                        }
                    }
                    if d == n {
                        more = false;
                        proof {
                            sd = n + 1;
                        }
                    } else {
                        d += 1;
                        proof {
                            sd = d as int;
                        }
                    }
                }
                c += 1;
            }
            match best {
                None => {
                    proof {
                        assert forall|c2: int, d2: int, k2: int| !self.is_best(widths@, c2, d2, k2) by {
                            if self.is_move(widths@, c2, d2, k2) {
                                assert(self.height_of(self.moved(widths@, c2, d2, k2)) >= best_h);
                            }
                        }
                    }
                    done = true;
                },
                Some((bc, bd, bk)) => {
                    proof {
                        assert(self.is_best(widths@, bc as int, bd as int, bk as int));
                        let (c3, d3, k3) = choose|c: int, d: int, k: int| self.is_best(widths@, c, d, k);
                        self.lemma_best_unique(widths@, bc as int, bd as int, bk as int, c3, d3, k3);
                    }
                    widths = self.moved_exec(&widths, bc, bd, bk);
                    cur_h = best_h;
                    round += 1;
                },
            }
        }
        widths
    }

    /// Gives leftover width to the columns furthest from their natural width.
    pub fn fill_leftover(&self, widths: Vec<usize>) -> (r: Vec<usize>)
        requires
            self.wf(),
            widths@.len() == self.n(),
            sum_of(widths@) <= self.space,
        ensures
            r@ == leftover_filled(widths@, self.natural@, self.space - sum_of(widths@)),
            r@.len() == widths@.len(),
            forall|c: int|
                0 <= c < widths@.len() ==> widths@[c] <= #[trigger] r@[c] <= max_int(
                    widths@[c] as int,
                    self.natural@[c] as int,
                ),
            sum_of(r@) == self.space || forall|c: int| 0 <= c < widths@.len() ==> #[trigger] r@[c] >= self.natural@[c],
    {
        let n = self.ncols();
        let total = sum_wide(widths.as_slice());
        let mut left: usize = (self.space as u128 - total) as usize;
        proof {
            lemma_leftover_filled(widths@, self.natural@, self.space - sum_of(widths@));
        }
        let mut widths = widths;
        let ghost w0 = widths@;
        let mut go = true;
        while go && left > 0
            invariant
                self.wf(),
                n == self.n(),
                widths@.len() == n,
                go ==> leftover_filled(w0, self.natural@, self.space - sum_of(w0))
                    == leftover_filled(widths@, self.natural@, left as int),
                !go ==> leftover_filled(w0, self.natural@, self.space - sum_of(w0)) == widths@,
            decreases left + (if go { 1int } else { 0 }),
        {
            let mut best: usize = n;
            let mut c: usize = 0;
            while c < n
                invariant
                    self.wf(),
                    n == self.n(),
                    widths@.len() == n,
                    c <= n,
                    best == n ==> widest_gap(widths@, self.natural@, c as int) == -1,
                    best < n ==> widest_gap(widths@, self.natural@, c as int) == best,
                    best < n ==> widths@[best as int] < self.natural@[best as int],
                    best <= n,
                decreases n - c,
            {
                if widths[c] < self.natural[c] && (best == n || self.natural[c] - widths[c] >= self.natural[best] - widths[best]) {
                    best = c;
                }
                c += 1;
            }
            proof {
                lemma_widest_gap(widths@, self.natural@, n as int);
            }
            if best == n {
                go = false;
            } else {
                widths.set(best, widths[best] + 1);
                left -= 1;
            }
        }
        widths
    }

    pub fn is_valid(&self, widths: &Vec<usize>) -> (r: bool)
        requires
            self.wf(),
        ensures
            r == self.valid(widths@),
    {
        let n = self.ncols();
        if widths.len() != n {
            return false;
        }
        let mut c: usize = 0;
        while c < n
            invariant
                self.wf(),
                n == self.n(),
                widths@.len() == n,
                c <= n,
                forall|j: int| 0 <= j < c ==> self.min@[j] <= #[trigger] widths@[j] <= self.max_w@[j],
            decreases n - c,
        {
            if widths[c] < self.min[c] || widths[c] > self.max_w[c] {
                return false;
            }
            c += 1;
        }
        sum_wide(widths.as_slice()) <= self.space as u128
    }

    proof fn lemma_filled_valid(&self, target: Seq<usize>)
        requires
            self.wf(),
            target.len() == self.n(),
        ensures
            forall|level: int| #![trigger self.filled(target, level)]
                sum_of(self.filled(target, level)) <= self.space ==> self.valid(self.filled(target, level)),
    {
    }

    pub fn ncols(&self) -> (r: usize)
        ensures
            r == self.n(),
    {
        self.natural.len()
    }

    /// Line counts of column `c`'s cells, row by row, at width `w`.
    pub fn col(&self, c: usize, w: usize) -> (r: &Vec<u32>)
        requires
            self.wf(),
            c < self.n(),
            w >= self.min@[c as int],
        ensures
            r@.len() == self.nrows(),
            forall|q: int| 0 <= q < self.nrows() ==> #[trigger] r@[q] == self.cell_at(c as int, w as int, q),
    {
        let m = if w <= self.max_w[c] { w } else { self.max_w[c] };
        &self.lines[c][m - self.min[c]]
    }

    /// Lines of the whole table at `widths` (saturating at `u32::MAX`).
    pub fn height(&self, widths: &[usize]) -> (r: u32)
        requires
            self.wf(),
            widths@.len() == self.n(),
            forall|c: int| 0 <= c < self.n() ==> self.min@[c] <= #[trigger] widths@[c],
        ensures
            r == self.height_of(widths@),
    {
        let n = self.ncols();
        let mut total: u32 = 0;
        let mut r: usize = 0;
        while r < self.cells.len()
            invariant
                self.wf(),
                n == self.n(),
                widths@.len() == n,
                forall|c: int| 0 <= c < n ==> self.min@[c] <= #[trigger] widths@[c],
                r <= self.nrows(),
                total == sat_u32(self.rows_height(widths@, r as int)),
                self.rows_height(widths@, r as int) >= 0,
            decreases self.nrows() - r,
        {
            let mut m: u32 = 0;
            let mut c: usize = 0;
            while c < n
                invariant
                    self.wf(),
                    n == self.n(),
                    widths@.len() == n,
                    forall|j: int| 0 <= j < n ==> self.min@[j] <= #[trigger] widths@[j],
                    r < self.nrows(),
                    c <= n,
                    m == self.row_height(widths@, r as int, c as int),
                decreases n - c,
            {
                let v = self.col(c, widths[c])[r];
                if v > m {
                    m = v;
                }
                c += 1;
            }
            total = total.saturating_add(m);
            r += 1;
        }
        total
    }
}

} // verus!
