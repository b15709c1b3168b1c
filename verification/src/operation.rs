//! Operations on the cells of a grid: extremes, normalisation, masked
//! filling and cell-by-cell arithmetic.
use crate::array::{is_grid, rows_view};
use crate::rng::gen_range;
use crate::cell::{
    above, add_total, adds, below, div_total, divs, half, mul_total, muls, neg_total, negs, one_half,
    small, sub_total, subs,
};
use std::ops::{Add, Div, Mul, Neg, Sub};
use vstd::prelude::*;

verus! {

/// The cells of a grid in one sequence, row after row.
pub open spec fn cells<T>(arr: Seq<Vec<T>>) -> Seq<T> {
    rows_view(arr).flatten()
}

/// A grid has no cells exactly when all its rows are empty.
pub proof fn lemma_no_cells<T>(arr: Seq<Vec<T>>)
    ensures
        cells(arr).len() == 0 <==> forall|i: int| 0 <= i < arr.len()
            ==> (#[trigger] arr[i]).len() == 0,
{
    let rows = rows_view(arr);
    rows.lemma_flatten_and_flatten_alt_are_equivalent();
    if cells(arr).len() == 0 {
        assert forall|i: int| 0 <= i < arr.len() implies (#[trigger] arr[i]).len() == 0 by {
            rows.lemma_flatten_length_ge_single_element_length(i);
            assert(rows[i] == arr[i]@);
        }
    }
    if forall|i: int| 0 <= i < arr.len() ==> (#[trigger] arr[i]).len() == 0 {
        assert forall|i: int| 0 <= i < rows.len() implies (#[trigger] rows[i]).len() <= 0 by {
            assert(rows[i] == arr[i]@);
        }
        rows.lemma_flatten_length_le_mul(0);
    }
}

/// `after` has the rows of `before`, each with its length.
pub open spec fn same_shape<T, U>(before: Seq<Vec<T>>, after: Seq<Vec<U>>) -> bool {
    &&& after.len() == before.len()
    &&& forall|i: int| 0 <= i < before.len() ==> (#[trigger] after[i]).len() == before[i].len()
}

/// `run` holds the running minima of `cells`: the first cell, and after it
/// each cell that answered `took` to `<` against the minimum before it.
pub open spec fn running_min<T: PartialOrd>(cells: Seq<T>, run: Seq<T>, took: Seq<bool>) -> bool {
    &&& run.len() == cells.len()
    &&& took.len() == cells.len()
    &&& cells.len() > 0 ==> run[0] == cells[0]
    &&& forall|k: int|
        0 < k < cells.len()
            ==> below(cells[k], run[k - 1], #[trigger] took[k]) && run[k] == if took[k] {
            cells[k]
        } else {
            run[k - 1]
        }
}

/// `run` holds the running maxima of `cells`: the first cell, and after it
/// each cell that answered `took` to `>` against the maximum before it.
pub open spec fn running_max<T: PartialOrd>(cells: Seq<T>, run: Seq<T>, took: Seq<bool>) -> bool {
    &&& run.len() == cells.len()
    &&& took.len() == cells.len()
    &&& cells.len() > 0 ==> run[0] == cells[0]
    &&& forall|k: int|
        0 < k < cells.len()
            ==> above(cells[k], run[k - 1], #[trigger] took[k]) && run[k] == if took[k] {
            cells[k]
        } else {
            run[k - 1]
        }
}

/// `r` is a value that a scan of `cells` for the smallest may end with.
pub open spec fn smallest<T: PartialOrd>(cells: Seq<T>, r: T) -> bool {
    exists|run: Seq<T>, took: Seq<bool>| #[trigger]
        running_min(cells, run, took) && cells.len() > 0 && run.last() == r
}

/// `r` is a value that a scan of `cells` for the largest may end with.
pub open spec fn largest<T: PartialOrd>(cells: Seq<T>, r: T) -> bool {
    exists|run: Seq<T>, took: Seq<bool>| #[trigger]
        running_max(cells, run, took) && cells.len() > 0 && run.last() == r
}

/// `le` is a total order that the cell type's `<` and `>` decide.
pub open spec fn orders<T: PartialOrd>(le: spec_fn(T, T) -> bool) -> bool {
    &&& forall|a: T, b: T| #[trigger] le(a, b) || le(b, a)
    &&& forall|a: T, b: T, c: T| #[trigger] le(a, b) && #[trigger] le(b, c) ==> le(a, c)
    &&& forall|a: T, b: T, r: bool| #[trigger] below(a, b, r) ==> r == !le(b, a)
    &&& forall|a: T, b: T, r: bool| #[trigger] above(a, b, r) ==> r == !le(a, b)
}

/// The running minimum at `k` is one of the cells up to `k`, and none of
/// them lies below it.
proof fn lemma_running_min<T: PartialOrd>(
    cells: Seq<T>,
    run: Seq<T>,
    took: Seq<bool>,
    le: spec_fn(T, T) -> bool,
    k: int,
)
    requires
        running_min(cells, run, took),
        orders(le),
        0 <= k < cells.len(),
    ensures
        exists|m: int| 0 <= m <= k && cells[m] == run[k],
        forall|m: int| 0 <= m <= k ==> le(run[k], #[trigger] cells[m]),
    decreases k,
{
    if k == 0 {
        assert(le(cells[0], cells[0]) || le(cells[0], cells[0]));
        assert(cells[0] == run[0]);
    } else {
        lemma_running_min(cells, run, took, le, k - 1);
        let m = choose|m: int| 0 <= m <= k - 1 && cells[m] == run[k - 1];
        assert(below(cells[k], run[k - 1], took[k]));
        assert(le(cells[k], cells[k]) || le(cells[k], cells[k]));
        if took[k] {
            assert(le(cells[k], run[k - 1]) || le(run[k - 1], cells[k]));
            assert(cells[k] == run[k]);
            assert forall|n: int| 0 <= n <= k implies le(run[k], #[trigger] cells[n]) by {
                if n < k {
                    assert(le(run[k - 1], cells[n]));
                    assert(le(cells[k], run[k - 1]) && le(run[k - 1], cells[n]));
                }
            }
        } else {
            assert(cells[m] == run[k]);
        }
    }
}

/// The running maximum at `k` is one of the cells up to `k`, and none of
/// them lies above it.
proof fn lemma_running_max<T: PartialOrd>(
    cells: Seq<T>,
    run: Seq<T>,
    took: Seq<bool>,
    le: spec_fn(T, T) -> bool,
    k: int,
)
    requires
        running_max(cells, run, took),
        orders(le),
        0 <= k < cells.len(),
    ensures
        exists|m: int| 0 <= m <= k && cells[m] == run[k],
        forall|m: int| 0 <= m <= k ==> le(#[trigger] cells[m], run[k]),
    decreases k,
{
    if k == 0 {
        assert(le(cells[0], cells[0]) || le(cells[0], cells[0]));
        assert(cells[0] == run[0]);
    } else {
        lemma_running_max(cells, run, took, le, k - 1);
        let m = choose|m: int| 0 <= m <= k - 1 && cells[m] == run[k - 1];
        assert(above(cells[k], run[k - 1], took[k]));
        assert(le(cells[k], cells[k]) || le(cells[k], cells[k]));
        if took[k] {
            assert(le(cells[k], run[k - 1]) || le(run[k - 1], cells[k]));
            assert(cells[k] == run[k]);
            assert forall|n: int| 0 <= n <= k implies le(#[trigger] cells[n], run[k]) by {
                if n < k {
                    assert(le(cells[n], run[k - 1]));
                    assert(le(cells[n], run[k - 1]) && le(run[k - 1], cells[k]));
                }
            }
        } else {
            assert(cells[m] == run[k]);
        }
    }
}

/// Where `<` decides a total order, a scan for the smallest cell ends with
/// a cell that none lies below.
pub proof fn lemma_smallest_is_least<T: PartialOrd>(cells: Seq<T>, r: T, le: spec_fn(T, T) -> bool)
    requires
        smallest(cells, r),
        orders(le),
    ensures
        exists|m: int| 0 <= m < cells.len() && cells[m] == r,
        forall|m: int| 0 <= m < cells.len() ==> le(r, #[trigger] cells[m]),
{
    let (run, took) = choose|run: Seq<T>, took: Seq<bool>| #[trigger]
        running_min(cells, run, took) && cells.len() > 0 && run.last() == r;
    lemma_running_min(cells, run, took, le, cells.len() - 1);
}

/// Where `>` decides a total order, a scan for the largest cell ends with
/// a cell that none lies above.
pub proof fn lemma_largest_is_greatest<T: PartialOrd>(cells: Seq<T>, r: T, le: spec_fn(T, T) -> bool)
    requires
        largest(cells, r),
        orders(le),
    ensures
        exists|m: int| 0 <= m < cells.len() && cells[m] == r,
        forall|m: int| 0 <= m < cells.len() ==> le(#[trigger] cells[m], r),
{
    let (run, took) = choose|run: Seq<T>, took: Seq<bool>| #[trigger]
        running_max(cells, run, took) && cells.len() > 0 && run.last() == r;
    lemma_running_max(cells, run, took, le, cells.len() - 1);
}

/// Scans the grid row by row for its smallest and its largest cell. A grid
/// without cells has neither.
pub fn min_and_max<T: Copy + PartialOrd>(arr: &Vec<Vec<T>>) -> (ends: Option<(T, T)>)
    ensures
        ends.is_some() <==> cells(arr@).len() > 0,
        ends.is_none() <==> forall|i: int| 0 <= i < arr.len() ==> (#[trigger] arr[i]).len() == 0,
        ends.is_some() ==> smallest(cells(arr@), ends.unwrap().0) && largest(
            cells(arr@),
            ends.unwrap().1,
        ),
{
    let mut ends: Option<(T, T)> = None;
    let ghost rows = rows_view(arr@);
    let ghost mut seen: Seq<T> = Seq::empty();
    let ghost mut lows: Seq<T> = Seq::empty();
    let ghost mut low_took: Seq<bool> = Seq::empty();
    let ghost mut highs: Seq<T> = Seq::empty();
    let ghost mut high_took: Seq<bool> = Seq::empty();
    let mut i: usize = 0;
    while i < arr.len()
        invariant
            i <= arr.len(),
            rows == rows_view(arr@),
            seen == rows.take(i as int).flatten(),
            running_min(seen, lows, low_took),
            running_max(seen, highs, high_took),
            ends.is_some() <==> seen.len() > 0,
            ends.is_some() ==> ends.unwrap().0 == lows.last() && ends.unwrap().1 == highs.last(),
        decreases arr.len() - i,
    {
        let ghost before = seen;
        let mut j: usize = 0;
        while j < arr[i].len()
            invariant
                i < arr.len(),
                j <= arr[i as int].len(),
                seen == before + arr[i as int]@.take(j as int),
                running_min(seen, lows, low_took),
                running_max(seen, highs, high_took),
                ends.is_some() <==> seen.len() > 0,
                ends.is_some() ==> ends.unwrap().0 == lows.last() && ends.unwrap().1
                    == highs.last(),
            decreases arr[i as int].len() - j,
        {
            let val = arr[i][j];
            match ends {
                None => {
                    ends = Some((val, val));
                    proof {
                        low_took = low_took.push(false);
                        high_took = high_took.push(false);
                    }
                },
                Some((lo, hi)) => {
                    let lower = val < lo;
                    let higher = val > hi;
                    ends = Some((if lower { val } else { lo }, if higher { val } else { hi }));
                    proof {
                        low_took = low_took.push(lower);
                        high_took = high_took.push(higher);
                    }
                },
            }
            proof {
                assert(arr[i as int]@.take(j + 1) =~= arr[i as int]@.take(j as int).push(val));
                seen = seen.push(val);
                lows = lows.push(ends.unwrap().0);
                highs = highs.push(ends.unwrap().1);
                assert(seen =~= before + arr[i as int]@.take(j + 1));
            }
            j += 1;
        }
        proof {
            assert(arr[i as int]@.take(j as int) =~= arr[i as int]@);
            assert(rows.take(i + 1) =~= rows.take(i as int).push(arr[i as int]@));
            rows.take(i as int).lemma_flatten_push(arr[i as int]@);
        }
        i += 1;
    }
    assert(rows.take(arr.len() as int) =~= rows);
    proof {
        lemma_no_cells(arr@);
    }
    ends
}

/// Scans the grid row by row for its smallest cell.
pub fn min<T: Copy + PartialOrd>(arr: &Vec<Vec<T>>) -> (low: Option<T>)
    ensures
        low.is_some() <==> cells(arr@).len() > 0,
        low.is_none() <==> forall|i: int| 0 <= i < arr.len() ==> (#[trigger] arr[i]).len() == 0,
        low.is_some() ==> smallest(cells(arr@), low.unwrap()),
{
    match min_and_max(arr) {
        Some((lo, _)) => Some(lo),
        None => None,
    }
}

/// Scans the grid row by row for its largest cell.
pub fn max<T: Copy + PartialOrd>(arr: &Vec<Vec<T>>) -> (high: Option<T>)
    ensures
        high.is_some() <==> cells(arr@).len() > 0,
        high.is_none() <==> forall|i: int| 0 <= i < arr.len() ==> (#[trigger] arr[i]).len() == 0,
        high.is_some() ==> largest(cells(arr@), high.unwrap()),
{
    match min_and_max(arr) {
        Some((_, hi)) => Some(hi),
        None => None,
    }
}

/// `out` is a value that `(v - lo) / range` may take.
pub open spec fn rescales<T: Sub<Output = T> + Div<Output = T>>(v: T, lo: T, range: T, out: T) -> bool {
    exists|d: T| subs(v, lo, d) && divs(d, range, out)
}

/// `after` is `before` rescaled between the extremes `lo` and `hi`, which
/// answered `wide` to `hi > lo` and lie `range` apart: where they did lie
/// apart, every cell went to `(cell - lo) / range`, and where they did not,
/// every cell went to the midpoint, `1 / 2`.
pub open spec fn scaled_by<T>(
    before: Seq<Vec<T>>,
    after: Seq<Vec<T>>,
    lo: T,
    hi: T,
    wide: bool,
    range: T,
) -> bool where T: PartialOrd + Sub<Output = T> + Div<Output = T> + From<u8> {
    &&& smallest(cells(before), lo)
    &&& largest(cells(before), hi)
    &&& above(hi, lo, wide)
    &&& subs(hi, lo, range)
    &&& forall|i: int, j: int|
        0 <= i < before.len() && 0 <= j < before[i].len() ==> if wide {
            rescales(before[i][j], lo, range, #[trigger] after[i][j])
        } else {
            half(#[trigger] after[i][j])
        }
}

/// `after` is `before` rescaled between its extremes.
pub open spec fn scaled<T>(before: Seq<Vec<T>>, after: Seq<Vec<T>>) -> bool where
    T: PartialOrd + Sub<Output = T> + Div<Output = T> + From<u8>,
 {
    &&& same_shape(before, after)
    &&& cells(before).len() > 0 ==> exists|lo: T, hi: T, wide: bool, range: T| #[trigger]
        scaled_by(before, after, lo, hi, wide, range)
}

/// Rescaling leaves a grid as it is where taking off its smallest cell and
/// dividing by its range change no value, as they do on a grid that lies
/// between 0 and 1 and reaches both.
pub proof fn lemma_scale_keeps_normalized<T>(
    before: Seq<Vec<T>>,
    after: Seq<Vec<T>>,
    lo: T,
    hi: T,
    range: T,
) where T: PartialOrd + Sub<Output = T> + Div<Output = T> + From<u8>
    requires
        same_shape(before, after),
        scaled_by(before, after, lo, hi, true, range),
        forall|v: T, d: T| #[trigger] subs(v, lo, d) ==> d == v,
        forall|d: T, out: T| #[trigger] divs(d, range, out) ==> out == d,
    ensures
        forall|i: int, j: int|
            0 <= i < before.len() && 0 <= j < before[i].len()
                ==> #[trigger] after[i][j] == before[i][j],
{
    assert forall|i: int, j: int|
        0 <= i < before.len() && 0 <= j < before[i].len() implies #[trigger] after[i][j]
        == before[i][j] by {
        assert(rescales(before[i][j], lo, range, after[i][j]));
    }
}

/// Every cell that a scan of the grid meets stands in one of its rows.
pub proof fn lemma_cell_of_row<T>(arr: Seq<Vec<T>>, k: int)
    requires
        0 <= k < cells(arr).len(),
    ensures
        exists|i: int, j: int| 0 <= i < arr.len() && 0 <= j < arr[i].len() && arr[i][j] == cells(arr)[k],
    decreases arr.len(),
{
    let rows = rows_view(arr);
    rows.lemma_flatten_and_flatten_alt_are_equivalent();
    if arr.len() > 0 {
        let front = arr.drop_last();
        assert(rows_view(front) =~= rows.drop_last());
        rows.drop_last().lemma_flatten_and_flatten_alt_are_equivalent();
        assert(cells(arr) =~= cells(front) + rows.last());
        if k < cells(front).len() {
            lemma_cell_of_row(front, k);
            let (i, j) = choose|i: int, j: int|
                0 <= i < front.len() && 0 <= j < front[i].len() && front[i][j] == cells(front)[k];
            assert(arr[i][j] == cells(arr)[k]);
        } else {
            let i = arr.len() - 1;
            let j = k - cells(front).len();
            assert(rows.last() == arr[i]@);
            assert(arr[i][j] == cells(arr)[k]);
        }
    }
}

/// Every cell that stands in a row of the grid is met by a scan of the
/// grid.
pub proof fn lemma_row_of_cells<T>(arr: Seq<Vec<T>>, i: int, j: int)
    requires
        0 <= i < arr.len(),
        0 <= j < arr[i].len(),
    ensures
        exists|k: int| 0 <= k < cells(arr).len() && cells(arr)[k] == arr[i][j],
    decreases arr.len(),
{
    let rows = rows_view(arr);
    rows.lemma_flatten_and_flatten_alt_are_equivalent();
    let front = arr.drop_last();
    assert(rows_view(front) =~= rows.drop_last());
    rows.drop_last().lemma_flatten_and_flatten_alt_are_equivalent();
    assert(cells(arr) =~= cells(front) + rows.last());
    assert(rows.last() == arr[arr.len() - 1]@);
    if i < arr.len() - 1 {
        lemma_row_of_cells(front, i, j);
        let k = choose|k: int| 0 <= k < cells(front).len() && cells(front)[k] == front[i][j];
        assert(cells(arr)[k] == arr[i][j]);
    } else {
        let k = cells(front).len() + j;
        assert(cells(arr)[k] == arr[i][j]);
    }
}

/// `le` is a total order that the cell type's comparisons decide and that
/// the arithmetic of rescaling respects: taking a value off one that is no
/// smaller leaves no less than 0, and no more than taking it off one that
/// is larger still; taking a value off a larger one leaves more than 0;
/// dividing a part of a range by the range gives a value between 0 and 1;
/// and `1 / 2` lies between 0 and 1.
pub open spec fn rescales_in_order<T>(le: spec_fn(T, T) -> bool) -> bool where
    T: PartialOrd + Sub<Output = T> + Div<Output = T> + From<u8>,
 {
    &&& orders(le)
    &&& forall|v: T, lo: T, d: T, zero: T|
        #![trigger subs(v, lo, d), small(0, zero)]
        subs(v, lo, d) && small(0, zero) && le(lo, v) ==> le(zero, d)
    &&& forall|v: T, hi: T, lo: T, d: T, range: T|
        #![trigger subs(v, lo, d), subs(hi, lo, range)]
        subs(v, lo, d) && subs(hi, lo, range) && le(v, hi) ==> le(d, range)
    &&& forall|hi: T, lo: T, range: T, zero: T|
        #![trigger subs(hi, lo, range), small(0, zero)]
        subs(hi, lo, range) && small(0, zero) && !le(hi, lo) ==> !le(range, zero)
    &&& forall|d: T, range: T, out: T, zero: T, one: T|
        #![trigger divs(d, range, out), small(0, zero), small(1, one)]
        divs(d, range, out) && small(0, zero) && small(1, one) && le(zero, d) && le(d, range) && !le(
            range,
            zero,
        ) ==> le(zero, out) && le(out, one)
    &&& forall|mid: T, zero: T, one: T|
        #![trigger half(mid), small(0, zero), small(1, one)]
        half(mid) && small(0, zero) && small(1, one) ==> le(zero, mid) && le(mid, one)
}

/// `v` lies in the unit interval of the order `le`.
pub open spec fn in_unit<T: From<u8>>(le: spec_fn(T, T) -> bool, v: T) -> bool {
    forall|zero: T, one: T|
        #![trigger small(0, zero), small(1, one)]
        small(0, zero) && small(1, one) ==> le(zero, v) && le(v, one)
}

/// Where the arithmetic of rescaling respects the order of the cells,
/// every cell of a rescaled grid lies in the unit interval.
pub proof fn lemma_scaled_in_unit<T>(before: Seq<Vec<T>>, after: Seq<Vec<T>>, le: spec_fn(T, T) -> bool) where
    T: PartialOrd + Sub<Output = T> + Div<Output = T> + From<u8>,

    requires
        scaled(before, after),
        rescales_in_order(le),
    ensures
        forall|i: int, j: int|
            0 <= i < before.len() && 0 <= j < before[i].len()
                ==> in_unit(le, #[trigger] after[i][j]),
{
    assert forall|i: int, j: int| 0 <= i < before.len() && 0 <= j < before[i].len() implies in_unit(
        le,
        #[trigger] after[i][j],
    ) by {
        lemma_row_of_cells(before, i, j);
        let all = cells(before);
        let k = choose|k: int| 0 <= k < all.len() && all[k] == before[i][j];
        let (lo, hi, wide, range) = choose|lo: T, hi: T, wide: bool, range: T| #[trigger]
            scaled_by(before, after, lo, hi, wide, range);
        lemma_smallest_is_least(all, lo, le);
        lemma_largest_is_greatest(all, hi, le);
        let v = before[i][j];
        let out = after[i][j];
        assert(le(lo, all[k]) && le(all[k], hi));
        assert forall|zero: T, one: T|
            #![trigger small(0, zero), small(1, one)]
            small(0, zero) && small(1, one) implies le(zero, out) && le(out, one) by {
            if wide {
                let d = choose|d: T| subs(v, lo, d) && divs(d, range, out);
                assert(subs(v, lo, d) && small(0, zero));
                assert(subs(v, lo, d) && subs(hi, lo, range));
                assert(subs(hi, lo, range) && small(0, zero));
                assert(above(hi, lo, wide));
                assert(divs(d, range, out) && small(0, zero) && small(1, one));
            } else {
                assert(half(out) && small(0, zero) && small(1, one));
            }
        }
    }
}

/// Rescaling sends every cell of a grid that holds one value throughout to
/// the midpoint, where that value does not answer that it exceeds itself.
pub proof fn lemma_scale_of_constant<T>(before: Seq<Vec<T>>, after: Seq<Vec<T>>, value: T) where
    T: PartialOrd + Sub<Output = T> + Div<Output = T> + From<u8>,

    requires
        scaled(before, after),
        forall|i: int, j: int|
            0 <= i < before.len() && 0 <= j < before[i].len() ==> #[trigger] before[i][j] == value,
        forall|r: bool| above(value, value, r) ==> !r,
    ensures
        forall|i: int, j: int|
            0 <= i < before.len() && 0 <= j < before[i].len() ==> half(#[trigger] after[i][j]),
{
    lemma_no_cells(before);
    if cells(before).len() > 0 {
        let all = cells(before);
        assert forall|k: int| 0 <= k < all.len() implies #[trigger] all[k] == value by {
            lemma_cell_of_row(before, k);
        }
        let (lo, hi, wide, range) = choose|lo: T, hi: T, wide: bool, range: T| #[trigger]
            scaled_by(before, after, lo, hi, wide, range);
        let (lows, low_took) = choose|run: Seq<T>, took: Seq<bool>| #[trigger]
            running_min(all, run, took) && all.len() > 0 && run.last() == lo;
        let (highs, high_took) = choose|run: Seq<T>, took: Seq<bool>| #[trigger]
            running_max(all, run, took) && all.len() > 0 && run.last() == hi;
        assert forall|n: int| 0 < n < all.len() implies #[trigger] lows[n] == all[n] || lows[n]
            == lows[n - 1] by {
            assert(below(all[n], lows[n - 1], low_took[n]));
        }
        assert forall|n: int| 0 < n < all.len() implies #[trigger] highs[n] == all[n] || highs[n]
            == highs[n - 1] by {
            assert(above(all[n], highs[n - 1], high_took[n]));
        }
        lemma_run_of_constant(all, lows, value, all.len() - 1);
        lemma_run_of_constant(all, highs, value, all.len() - 1);
        assert(!wide);
    }
}

/// A running extreme of cells that all hold one value holds that value.
proof fn lemma_run_of_constant<T>(cells: Seq<T>, run: Seq<T>, value: T, k: int)
    requires
        run.len() == cells.len(),
        cells.len() > 0,
        run[0] == cells[0],
        forall|n: int| 0 < n < cells.len()
            ==> #[trigger] run[n] == cells[n] || run[n] == run[n - 1],
        forall|n: int| 0 <= n < cells.len() ==> #[trigger] cells[n] == value,
        0 <= k < cells.len(),
    ensures
        run[k] == value,
    decreases k,
{
    if k > 0 {
        lemma_run_of_constant(cells, run, value, k - 1);
    }
}

/// Rescales the grid to the unit interval: its smallest cell goes to 0, its
/// largest to 1, and every cell in proportion between them. A grid whose
/// largest cell does not exceed its smallest has no range to divide by:
/// all its cells go to the midpoint, `1 / 2`.
pub fn scale<T>(arr: &mut Vec<Vec<T>>) where
    T: Copy + PartialOrd + Sub<Output = T> + Div<Output = T> + From<u8>,

    requires
        sub_total::<T>(),
        div_total::<T>(),
    ensures
        scaled(old(arr)@, final(arr)@),
{
    let (lo, hi) = match min_and_max(arr) {
        Some(ends) => ends,
        None => {
            return ;
        },
    };
    let wide = hi > lo;
    let range = hi - lo;
    let mid: T = one_half();
    let mut i: usize = 0;
    while i < arr.len()
        invariant
            i <= arr.len(),
            sub_total::<T>(),
            div_total::<T>(),
            half(mid),
            same_shape(old(arr)@, arr@),
            forall|a: int, b: int|
                i <= a < arr.len() && 0 <= b < arr[a].len()
                    ==> #[trigger] arr[a][b] == old(arr)[a][b],
            forall|a: int, b: int|
                0 <= a < i && 0 <= b < arr[a].len() ==> if wide {
                    rescales(old(arr)[a][b], lo, range, #[trigger] arr[a][b])
                } else {
                    half(#[trigger] arr[a][b])
                },
        decreases arr.len() - i,
    {
        let mut j: usize = 0;
        while j < arr[i].len()
            invariant
                i < arr.len(),
                j <= arr[i as int].len(),
                sub_total::<T>(),
                div_total::<T>(),
                half(mid),
                same_shape(old(arr)@, arr@),
                forall|a: int, b: int|
                    i < a < arr.len() && 0 <= b < arr[a].len() ==> #[trigger] arr[a][b] == old(
                        arr,
                    )[a][b],
                forall|b: int|
                    j <= b < arr[i as int].len()
                        ==> #[trigger] arr[i as int][b] == old(arr)[i as int][b],
                forall|a: int, b: int|
                    0 <= a < i && 0 <= b < arr[a].len() ==> if wide {
                        rescales(old(arr)[a][b], lo, range, #[trigger] arr[a][b])
                    } else {
                        half(#[trigger] arr[a][b])
                    },
                forall|b: int|
                    0 <= b < j ==> if wide {
                        rescales(old(arr)[i as int][b], lo, range, #[trigger] arr[i as int][b])
                    } else {
                        half(#[trigger] arr[i as int][b])
                    },
            decreases arr[i as int].len() - j,
        {
            if wide {
                let d = arr[i][j] - lo;
                let out = d / range;
                assert(subs(old(arr)[i as int][j as int], lo, d) && divs(d, range, out));
                arr[i][j] = out;
            } else {
                arr[i][j] = mid;
            }
            j += 1;
        }
        i += 1;
    }
    assert(scaled_by(old(arr)@, arr@, lo, hi, wide, range));
}

/// The cell whose value fills a masked cell at `(row, col)` of a grid of
/// `rows` by `cols` cells: the cell below where there is one, else the cell
/// above, else the cell to the right, else the cell to the left.
pub open spec fn neighbour_of(rows: int, cols: int, row: int, col: int) -> (int, int) {
    if row < rows - 1 {
        (row + 1, col)
    } else if row > 0 {
        (row - 1, col)
    } else if col < cols - 1 {
        (row, col + 1)
    } else {
        (row, col - 1)
    }
}

/// Reads the neighbour that fills `(row, col)`. The grid has more than one
/// cell, so there is such a neighbour.
pub fn nearest_neighbour<T: Copy>(arr: &Vec<Vec<T>>, row: usize, col: usize) -> (value: T)
    requires
        arr.len() > 0,
        is_grid(arr@, arr.len() as int, arr[0].len() as int),
        row < arr.len(),
        col < arr[0].len(),
        arr.len() > 1 || arr[0].len() > 1,
    ensures
        value == arr[neighbour_of(arr.len() as int, arr[0].len() as int, row as int, col as int).0][neighbour_of(
            arr.len() as int,
            arr[0].len() as int,
            row as int,
            col as int,
        ).1],
{
    let mut options: Vec<T> = Vec::new();
    if row < arr.len() - 1 {
        options.push(arr[row + 1][col]);
    } else if row > 0 {
        options.push(arr[row - 1][col]);
    } else if col < arr[0].len() - 1 {
        options.push(arr[row][col + 1]);
    } else if col > 0 {
        options.push(arr[row][col - 1]);
    }
    let mut rng = rand::thread_rng();
    options[gen_range(&mut rng, 0, options.len())]
}

/// The value of the cell `(i, j)` once the fill has passed it.
///
/// The fill runs row by row and reads the grid as it stands, so a masked
/// cell that is filled from above or from the left takes what the fill
/// left there: where that neighbour was masked too, it had been filled
/// from this very cell, and the cell keeps its value.
pub open spec fn settled<T>(arr: Seq<Vec<T>>, mask: Seq<Vec<bool>>, i: int, j: int) -> T {
    if !mask[i][j] {
        arr[i][j]
    } else if i < arr.len() - 1 {
        arr[i + 1][j]
    } else if i > 0 {
        if mask[i - 1][j] {
            arr[i][j]
        } else {
            arr[i - 1][j]
        }
    } else if j < arr[0].len() - 1 {
        arr[i][j + 1]
    } else if mask[i][j - 1] {
        arr[i][j]
    } else {
        arr[i][j - 1]
    }
}

/// Fills every masked cell with the value of its neighbour, row by row and
/// from left to right in each row. A grid of one cell has no neighbour to
/// fill from: its cell is not masked.
pub fn interpolate<T: Copy>(arr: &mut Vec<Vec<T>>, mask: Vec<Vec<bool>>)
    requires
        old(arr).len() > 0 ==> is_grid(old(arr)@, old(arr).len() as int, old(arr)[0].len() as int),
        same_shape(old(arr)@, mask@),
        old(arr).len() == 1 && old(arr)[0].len() == 1 ==> !mask[0][0],
    ensures
        same_shape(old(arr)@, final(arr)@),
        forall|i: int, j: int|
            0 <= i < old(arr).len() && 0 <= j < old(arr)[i].len() ==> #[trigger] final(arr)[i][j]
                == settled(old(arr)@, mask@, i, j),
{
    let rows = arr.len();
    let mut i: usize = 0;
    while i < rows
        invariant
            i <= rows,
            rows == arr.len(),
            rows > 0 ==> is_grid(old(arr)@, rows as int, old(arr)[0].len() as int),
            same_shape(old(arr)@, mask@),
            same_shape(old(arr)@, arr@),
            rows == 1 && old(arr)[0].len() == 1 ==> !mask[0][0],
            forall|a: int, b: int|
                i <= a < rows && 0 <= b < arr[a].len() ==> #[trigger] arr[a][b] == old(arr)[a][b],
            forall|a: int, b: int|
                0 <= a < i && 0 <= b < arr[a].len() ==> #[trigger] arr[a][b] == settled(
                    old(arr)@,
                    mask@,
                    a,
                    b,
                ),
        decreases rows - i,
    {
        let cols = arr[i].len();
        let mut j: usize = 0;
        while j < cols
            invariant
                i < rows,
                j <= cols,
                rows == arr.len(),
                cols == arr[i as int].len(),
                is_grid(old(arr)@, rows as int, cols as int),
                same_shape(old(arr)@, mask@),
                same_shape(old(arr)@, arr@),
                rows == 1 && cols == 1 ==> !mask[0][0],
                forall|a: int, b: int|
                    i < a < rows && 0 <= b < arr[a].len()
                        ==> #[trigger] arr[a][b] == old(arr)[a][b],
                forall|b: int|
                    j <= b < cols ==> #[trigger] arr[i as int][b] == old(arr)[i as int][b],
                forall|a: int, b: int|
                    0 <= a < i && 0 <= b < arr[a].len() ==> #[trigger] arr[a][b] == settled(
                        old(arr)@,
                        mask@,
                        a,
                        b,
                    ),
                forall|b: int|
                    0 <= b < j ==> #[trigger] arr[i as int][b] == settled(
                        old(arr)@,
                        mask@,
                        i as int,
                        b,
                    ),
            decreases cols - j,
        {
            if mask[i][j] {
                let value = nearest_neighbour(arr, i, j);
                arr[i][j] = value;
            }
            j += 1;
        }
        i += 1;
    }
}

/// `other` has a cell at every place at which `arr` has one.
pub open spec fn covers<T>(arr: Seq<Vec<T>>, other: Seq<Vec<T>>) -> bool {
    &&& arr.len() <= other.len()
    &&& forall|i: int| 0 <= i < arr.len() ==> arr[i].len() <= (#[trigger] other[i]).len()
}

/// `out` is a value that `1 - v` may take.
pub open spec fn inverts<T: From<u8> + Sub<Output = T>>(v: T, out: T) -> bool {
    exists|one: T| small(1, one) && subs(one, v, out)
}

/// `out` is a value that the magnitude of `v` may take: `-v` where `v`
/// answered that it lies below 0, and `v` itself where it did not.
pub open spec fn magnitude<T: From<u8> + PartialOrd + Neg<Output = T>>(v: T, out: T) -> bool {
    exists|zero: T, negative: bool|
        small(0, zero) && below(v, zero, negative) && if negative {
            negs(v, out)
        } else {
            out == v
        }
}

/// Replaces every cell `v` by `1 - v`.
pub fn invert<T>(arr: &mut Vec<Vec<T>>) where T: Copy + From<u8> + Sub<Output = T>
    requires
        sub_total::<T>(),
    ensures
        same_shape(old(arr)@, final(arr)@),
        forall|i: int, j: int|
            0 <= i < old(arr).len() && 0 <= j < old(arr)[i].len()
                ==> inverts(old(arr)[i][j], #[trigger] final(arr)[i][j]),
{
    let one = T::from(1u8);
    let mut i: usize = 0;
    while i < arr.len()
        invariant
            i <= arr.len(),
            sub_total::<T>(),
            small(1, one),
            same_shape(old(arr)@, arr@),
            forall|a: int, b: int|
                i <= a < arr.len() && 0 <= b < arr[a].len()
                    ==> #[trigger] arr[a][b] == old(arr)[a][b],
            forall|a: int, b: int|
                0 <= a < i && 0 <= b < arr[a].len()
                    ==> inverts(old(arr)[a][b], #[trigger] arr[a][b]),
        decreases arr.len() - i,
    {
        let mut j: usize = 0;
        while j < arr[i].len()
            invariant
                i < arr.len(),
                j <= arr[i as int].len(),
                sub_total::<T>(),
                small(1, one),
                same_shape(old(arr)@, arr@),
                forall|a: int, b: int|
                    i < a < arr.len() && 0 <= b < arr[a].len()
                        ==> #[trigger] arr[a][b] == old(arr)[a][b],
                forall|b: int|
                    j <= b < arr[i as int].len()
                        ==> #[trigger] arr[i as int][b] == old(arr)[i as int][b],
                forall|a: int, b: int|
                    0 <= a < i && 0 <= b < arr[a].len()
                        ==> inverts(old(arr)[a][b], #[trigger] arr[a][b]),
                forall|b: int|
                    0 <= b < j ==> inverts(old(arr)[i as int][b], #[trigger] arr[i as int][b]),
            decreases arr[i as int].len() - j,
        {
            let out = one - arr[i][j];
            assert(small(1, one) && subs(one, old(arr)[i as int][j as int], out));
            arr[i][j] = out;
            j += 1;
        }
        i += 1;
    }
}

/// Multiplies every cell by `value`.
pub fn multiply_value<T>(arr: &mut Vec<Vec<T>>, value: T) where T: Copy + Mul<Output = T>
    requires
        mul_total::<T>(),
    ensures
        same_shape(old(arr)@, final(arr)@),
        forall|i: int, j: int|
            0 <= i < old(arr).len() && 0 <= j < old(arr)[i].len()
                ==> muls(old(arr)[i][j], value, #[trigger] final(arr)[i][j]),
{
    let mut i: usize = 0;
    while i < arr.len()
        invariant
            i <= arr.len(),
            mul_total::<T>(),
            same_shape(old(arr)@, arr@),
            forall|a: int, b: int|
                i <= a < arr.len() && 0 <= b < arr[a].len()
                    ==> #[trigger] arr[a][b] == old(arr)[a][b],
            forall|a: int, b: int|
                0 <= a < i && 0 <= b < arr[a].len()
                    ==> muls(old(arr)[a][b], value, #[trigger] arr[a][b]),
        decreases arr.len() - i,
    {
        let mut j: usize = 0;
        while j < arr[i].len()
            invariant
                i < arr.len(),
                j <= arr[i as int].len(),
                mul_total::<T>(),
                same_shape(old(arr)@, arr@),
                forall|a: int, b: int|
                    i < a < arr.len() && 0 <= b < arr[a].len()
                        ==> #[trigger] arr[a][b] == old(arr)[a][b],
                forall|b: int|
                    j <= b < arr[i as int].len()
                        ==> #[trigger] arr[i as int][b] == old(arr)[i as int][b],
                forall|a: int, b: int|
                    0 <= a < i && 0 <= b < arr[a].len()
                        ==> muls(old(arr)[a][b], value, #[trigger] arr[a][b]),
                forall|b: int|
                    0 <= b < j ==> muls(old(arr)[i as int][b], value, #[trigger] arr[i as int][b]),
            decreases arr[i as int].len() - j,
        {
            arr[i][j] = arr[i][j] * value;
            j += 1;
        }
        i += 1;
    }
}

/// Multiplies every cell by the cell of `arr2` at its place.
pub fn multiply<T>(arr: &mut Vec<Vec<T>>, arr2: Vec<Vec<T>>) where T: Copy + Mul<Output = T>
    requires
        mul_total::<T>(),
        covers(old(arr)@, arr2@),
    ensures
        same_shape(old(arr)@, final(arr)@),
        forall|i: int, j: int|
            0 <= i < old(arr).len() && 0 <= j < old(arr)[i].len()
                ==> muls(old(arr)[i][j], arr2[i][j], #[trigger] final(arr)[i][j]),
{
    let mut i: usize = 0;
    while i < arr.len()
        invariant
            i <= arr.len(),
            mul_total::<T>(),
            covers(old(arr)@, arr2@),
            same_shape(old(arr)@, arr@),
            forall|a: int, b: int|
                i <= a < arr.len() && 0 <= b < arr[a].len()
                    ==> #[trigger] arr[a][b] == old(arr)[a][b],
            forall|a: int, b: int|
                0 <= a < i && 0 <= b < arr[a].len()
                    ==> muls(old(arr)[a][b], arr2[a][b], #[trigger] arr[a][b]),
        decreases arr.len() - i,
    {
        let mut j: usize = 0;
        while j < arr[i].len()
            invariant
                i < arr.len(),
                j <= arr[i as int].len(),
                mul_total::<T>(),
                covers(old(arr)@, arr2@),
                same_shape(old(arr)@, arr@),
                forall|a: int, b: int|
                    i < a < arr.len() && 0 <= b < arr[a].len()
                        ==> #[trigger] arr[a][b] == old(arr)[a][b],
                forall|b: int|
                    j <= b < arr[i as int].len()
                        ==> #[trigger] arr[i as int][b] == old(arr)[i as int][b],
                forall|a: int, b: int|
                    0 <= a < i && 0 <= b < arr[a].len()
                        ==> muls(old(arr)[a][b], arr2[a][b], #[trigger] arr[a][b]),
                forall|b: int|
                    0 <= b < j
                        ==> muls(old(arr)[i as int][b], arr2[i as int][b], #[trigger] arr[i as int][b]),
            decreases arr[i as int].len() - j,
        {
            arr[i][j] = arr[i][j] * arr2[i][j];
            j += 1;
        }
        i += 1;
    }
}

/// Adds to every cell the cell of `arr2` at its place.
pub fn add<T>(arr: &mut Vec<Vec<T>>, arr2: Vec<Vec<T>>) where T: Copy + Add<Output = T>
    requires
        add_total::<T>(),
        covers(old(arr)@, arr2@),
    ensures
        same_shape(old(arr)@, final(arr)@),
        forall|i: int, j: int|
            0 <= i < old(arr).len() && 0 <= j < old(arr)[i].len()
                ==> adds(old(arr)[i][j], arr2[i][j], #[trigger] final(arr)[i][j]),
{
    let mut i: usize = 0;
    while i < arr.len()
        invariant
            i <= arr.len(),
            add_total::<T>(),
            covers(old(arr)@, arr2@),
            same_shape(old(arr)@, arr@),
            forall|a: int, b: int|
                i <= a < arr.len() && 0 <= b < arr[a].len()
                    ==> #[trigger] arr[a][b] == old(arr)[a][b],
            forall|a: int, b: int|
                0 <= a < i && 0 <= b < arr[a].len()
                    ==> adds(old(arr)[a][b], arr2[a][b], #[trigger] arr[a][b]),
        decreases arr.len() - i,
    {
        let mut j: usize = 0;
        while j < arr[i].len()
            invariant
                i < arr.len(),
                j <= arr[i as int].len(),
                add_total::<T>(),
                covers(old(arr)@, arr2@),
                same_shape(old(arr)@, arr@),
                forall|a: int, b: int|
                    i < a < arr.len() && 0 <= b < arr[a].len()
                        ==> #[trigger] arr[a][b] == old(arr)[a][b],
                forall|b: int|
                    j <= b < arr[i as int].len()
                        ==> #[trigger] arr[i as int][b] == old(arr)[i as int][b],
                forall|a: int, b: int|
                    0 <= a < i && 0 <= b < arr[a].len()
                        ==> adds(old(arr)[a][b], arr2[a][b], #[trigger] arr[a][b]),
                forall|b: int|
                    0 <= b < j
                        ==> adds(old(arr)[i as int][b], arr2[i as int][b], #[trigger] arr[i as int][b]),
            decreases arr[i as int].len() - j,
        {
            arr[i][j] = arr[i][j] + arr2[i][j];
            j += 1;
        }
        i += 1;
    }
}

/// Adds `value` to every cell.
pub fn add_value<T>(arr: &mut Vec<Vec<T>>, value: T) where T: Copy + Add<Output = T>
    requires
        add_total::<T>(),
    ensures
        same_shape(old(arr)@, final(arr)@),
        forall|i: int, j: int|
            0 <= i < old(arr).len() && 0 <= j < old(arr)[i].len()
                ==> adds(old(arr)[i][j], value, #[trigger] final(arr)[i][j]),
{
    let mut i: usize = 0;
    while i < arr.len()
        invariant
            i <= arr.len(),
            add_total::<T>(),
            same_shape(old(arr)@, arr@),
            forall|a: int, b: int|
                i <= a < arr.len() && 0 <= b < arr[a].len()
                    ==> #[trigger] arr[a][b] == old(arr)[a][b],
            forall|a: int, b: int|
                0 <= a < i && 0 <= b < arr[a].len()
                    ==> adds(old(arr)[a][b], value, #[trigger] arr[a][b]),
        decreases arr.len() - i,
    {
        let mut j: usize = 0;
        while j < arr[i].len()
            invariant
                i < arr.len(),
                j <= arr[i as int].len(),
                add_total::<T>(),
                same_shape(old(arr)@, arr@),
                forall|a: int, b: int|
                    i < a < arr.len() && 0 <= b < arr[a].len()
                        ==> #[trigger] arr[a][b] == old(arr)[a][b],
                forall|b: int|
                    j <= b < arr[i as int].len()
                        ==> #[trigger] arr[i as int][b] == old(arr)[i as int][b],
                forall|a: int, b: int|
                    0 <= a < i && 0 <= b < arr[a].len()
                        ==> adds(old(arr)[a][b], value, #[trigger] arr[a][b]),
                forall|b: int|
                    0 <= b < j ==> adds(old(arr)[i as int][b], value, #[trigger] arr[i as int][b]),
            decreases arr[i as int].len() - j,
        {
            arr[i][j] = arr[i][j] + value;
            j += 1;
        }
        i += 1;
    }
}

/// Replaces every cell that lies below 0 by its negation.
pub fn abs<T>(arr: &mut Vec<Vec<T>>) where T: Copy + From<u8> + PartialOrd + Neg<Output = T>
    requires
        neg_total::<T>(),
    ensures
        same_shape(old(arr)@, final(arr)@),
        forall|i: int, j: int|
            0 <= i < old(arr).len() && 0 <= j < old(arr)[i].len()
                ==> magnitude(old(arr)[i][j], #[trigger] final(arr)[i][j]),
{
    let zero = T::from(0u8);
    let mut i: usize = 0;
    while i < arr.len()
        invariant
            i <= arr.len(),
            neg_total::<T>(),
            small(0, zero),
            same_shape(old(arr)@, arr@),
            forall|a: int, b: int|
                i <= a < arr.len() && 0 <= b < arr[a].len()
                    ==> #[trigger] arr[a][b] == old(arr)[a][b],
            forall|a: int, b: int|
                0 <= a < i && 0 <= b < arr[a].len()
                    ==> magnitude(old(arr)[a][b], #[trigger] arr[a][b]),
        decreases arr.len() - i,
    {
        let mut j: usize = 0;
        while j < arr[i].len()
            invariant
                i < arr.len(),
                j <= arr[i as int].len(),
                neg_total::<T>(),
                small(0, zero),
                same_shape(old(arr)@, arr@),
                forall|a: int, b: int|
                    i < a < arr.len() && 0 <= b < arr[a].len()
                        ==> #[trigger] arr[a][b] == old(arr)[a][b],
                forall|b: int|
                    j <= b < arr[i as int].len()
                        ==> #[trigger] arr[i as int][b] == old(arr)[i as int][b],
                forall|a: int, b: int|
                    0 <= a < i && 0 <= b < arr[a].len()
                        ==> magnitude(old(arr)[a][b], #[trigger] arr[a][b]),
                forall|b: int|
                    0 <= b < j ==> magnitude(old(arr)[i as int][b], #[trigger] arr[i as int][b]),
            decreases arr[i as int].len() - j,
        {
            let negative = arr[i][j] < zero;
            if negative {
                let out = arr[i][j].neg();
                assert(small(0, zero) && below(old(arr)[i as int][j as int], zero, negative) && negs(
                    old(arr)[i as int][j as int],
                    out,
                ));
                arr[i][j] = out;
            } else {
                assert(small(0, zero) && below(old(arr)[i as int][j as int], zero, negative));
            }
            j += 1;
        }
        i += 1;
    }
}

/// Replaces every cell by what `f` makes of it, row by row.
pub fn map_cells<T: Copy, F: Fn(T) -> T>(arr: &mut Vec<Vec<T>>, f: &F)
    requires
        forall|v: T| call_requires(*f, (v,)),
    ensures
        same_shape(old(arr)@, final(arr)@),
        forall|i: int, j: int|
            0 <= i < old(arr).len() && 0 <= j < old(arr)[i].len() ==> call_ensures(
                *f,
                (old(arr)[i][j],),
                #[trigger] final(arr)[i][j],
            ),
{
    let mut i: usize = 0;
    while i < arr.len()
        invariant
            i <= arr.len(),
            forall|v: T| call_requires(*f, (v,)),
            same_shape(old(arr)@, arr@),
            forall|a: int, b: int|
                i <= a < arr.len() && 0 <= b < arr[a].len()
                    ==> #[trigger] arr[a][b] == old(arr)[a][b],
            forall|a: int, b: int|
                0 <= a < i && 0 <= b < arr[a].len() ==> call_ensures(
                    *f,
                    (old(arr)[a][b],),
                    #[trigger] arr[a][b],
                ),
        decreases arr.len() - i,
    {
        let mut j: usize = 0;
        while j < arr[i].len()
            invariant
                i < arr.len(),
                j <= arr[i as int].len(),
                forall|v: T| call_requires(*f, (v,)),
                same_shape(old(arr)@, arr@),
                forall|a: int, b: int|
                    i < a < arr.len() && 0 <= b < arr[a].len()
                        ==> #[trigger] arr[a][b] == old(arr)[a][b],
                forall|b: int|
                    j <= b < arr[i as int].len()
                        ==> #[trigger] arr[i as int][b] == old(arr)[i as int][b],
                forall|a: int, b: int|
                    0 <= a < i && 0 <= b < arr[a].len() ==> call_ensures(
                        *f,
                        (old(arr)[a][b],),
                        #[trigger] arr[a][b],
                    ),
                forall|b: int|
                    0 <= b < j ==> call_ensures(
                        *f,
                        (old(arr)[i as int][b],),
                        #[trigger] arr[i as int][b],
                    ),
            decreases arr[i as int].len() - j,
        {
            arr[i][j] = f(arr[i][j]);
            j += 1;
        }
        i += 1;
    }
}

} // verus!
