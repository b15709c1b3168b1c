//! The landscape generators. Each one builds a grid by its own rule and
//! ends by rescaling it to the unit interval.
use crate::array::{
    binary_rand_arr, indices_arr, is_cut, is_grid, rand_arr, rand_sub_arr, rows_of, rows_view,
    value_arr, value_mask,
};
use crate::cell::{
    add_total, adds, below, div_total, half, index, mul_total, muls, neg_total, negs, one_half,
    small, sub_total, subs,
};
use crate::diamond::{diamond_square, is_pow2, lemma_pow2_gap};
use crate::mesh::is_surface;
use crate::distance::{euclidean_distance_transform, transformed, COORD_MAX};
use crate::operation::{interpolate, invert, inverts, map_cells, same_shape, scale, scaled};
use crate::rng::gen_range;
use std::ops::{Add, Div, Mul, Neg, Sub};
use vstd::prelude::*;

verus! {

/// Returns a spatially random landscape of `rows` by `cols` cells: every
/// cell is a draw of its own from `unit`.
pub fn random<T, F: Fn() -> T>(rows: usize, cols: usize, unit: &F) -> (arr: Vec<Vec<T>>)
    requires
        call_requires(*unit, ()),
    ensures
        is_grid(arr@, rows_of(rows as int, cols as int), cols as int),
        forall|i: int, j: int|
            0 <= i < arr.len() && 0 <= j < cols ==> call_ensures(*unit, (), #[trigger] arr[i][j]),
{
    rand_arr(rows, cols, unit)
}

/// Overwrites the first `cols` cells of the first `rows` rows of `arr`,
/// each with a draw of its own from `unit`.
pub fn random_arr<T, F: Fn() -> T>(arr: &mut [&mut [T]], rows: usize, cols: usize, unit: &F)
    requires
        call_requires(*unit, ()),
        rows <= old(arr)@.len(),
        forall|i: int| 0 <= i < rows ==> cols <= old(arr)@[i]@.len(),
    ensures
        final(arr)@.len() == old(arr)@.len(),
        forall|i: int| 0 <= i < old(arr)@.len() ==> final(arr)@[i]@.len() == old(arr)@[i]@.len(),
        forall|i: int, j: int|
            0 <= i < rows && 0 <= j < cols ==> call_ensures(*unit, (), final(arr)@[i]@[j]),
        forall|i: int, j: int|
            0 <= i < old(arr)@.len() && 0 <= j < old(arr)@[i]@.len() && !(i < rows && j < cols)
                ==> final(arr)@[i]@[j] == old(arr)@[i]@[j],
{
    let mut i: usize = 0;
    while i < rows
        invariant
            i <= rows,
            call_requires(*unit, ()),
            arr@.len() == old(arr)@.len(),
            rows <= arr@.len(),
            forall|a: int| 0 <= a < arr@.len() ==> arr@[a]@.len() == old(arr)@[a]@.len(),
            forall|a: int| 0 <= a < rows ==> cols <= arr@[a]@.len(),
            forall|a: int, b: int| 0 <= a < i && 0 <= b < cols
                ==> call_ensures(*unit, (), arr@[a]@[b]),
            forall|a: int, b: int|
                0 <= a < arr@.len() && 0 <= b < arr@[a]@.len() && !(a < i && b < cols)
                    ==> arr@[a]@[b]
                    == old(arr)@[a]@[b],
        decreases rows - i,
    {
        let mut j: usize = 0;
        while j < cols
            invariant
                i < rows,
                j <= cols,
                call_requires(*unit, ()),
                arr@.len() == old(arr)@.len(),
                rows <= arr@.len(),
                forall|a: int| 0 <= a < arr@.len() ==> arr@[a]@.len() == old(arr)@[a]@.len(),
                forall|a: int| 0 <= a < rows ==> cols <= arr@[a]@.len(),
                forall|a: int, b: int|
                    0 <= a < i && 0 <= b < cols ==> call_ensures(*unit, (), arr@[a]@[b]),
                forall|b: int| 0 <= b < j ==> call_ensures(*unit, (), arr@[i as int]@[b]),
                forall|a: int, b: int|
                    0 <= a < arr@.len() && 0 <= b < arr@[a]@.len() && !(a < i && b < cols) && !(a == i
                        && b < j) ==> arr@[a]@[b] == old(arr)@[a]@[b],
            decreases cols - j,
        {
            arr[i][j] = unit();
            j += 1;
        }
        i += 1;
    }
}

/// `value` is a value that the plane through the origin with the slopes
/// `down` and `right` may take at the cell `(i, j)`.
pub open spec fn slopes<T>(i: int, j: int, down: T, right: T, value: T) -> bool where
    T: From<u32> + Add<Output = T> + Mul<Output = T>,
 {
    exists|row: T, col: T, a: T, b: T|
        index(i as u32, row) && index(j as u32, col) && muls(row, down, a) && muls(col, right, b)
            && adds(a, b, value)
}

/// `arr` is a plane of `rows` by `cols` cells with the slopes `down` and
/// `right`.
pub open spec fn is_plane<T>(arr: Seq<Vec<T>>, rows: int, cols: int, down: T, right: T) -> bool where
    T: From<u32> + Add<Output = T> + Mul<Output = T>,
 {
    &&& is_grid(arr, rows_of(rows, cols), cols)
    &&& forall|i: int, j: int|
        0 <= i < arr.len() && 0 <= j < cols ==> slopes(i, j, down, right, #[trigger] arr[i][j])
}

/// Builds the plane that rises by `down` from row to row and by `right`
/// from column to column.
pub fn plane<T>(rows: usize, cols: usize, down: T, right: T) -> (arr: Vec<Vec<T>>) where
    T: Copy + From<u32> + Add<Output = T> + Mul<Output = T>,

    requires
        rows <= u32::MAX,
        cols <= u32::MAX,
        add_total::<T>(),
        mul_total::<T>(),
    ensures
        is_plane(arr@, rows as int, cols as int, down, right),
{
    let (row_idx, col_idx) = indices_arr::<T>(rows, cols);
    let mut arr: Vec<Vec<T>> = Vec::new();
    let mut i: usize = 0;
    while i < row_idx.len()
        invariant
            i <= row_idx.len(),
            add_total::<T>(),
            mul_total::<T>(),
            is_grid(row_idx@, rows_of(rows as int, cols as int), cols as int),
            is_grid(col_idx@, rows_of(rows as int, cols as int), cols as int),
            forall|a: int, b: int|
                0 <= a < row_idx.len() && 0 <= b < cols
                    ==> index(a as u32, #[trigger] row_idx[a][b]),
            forall|a: int, b: int|
                0 <= a < col_idx.len() && 0 <= b < cols
                    ==> index(b as u32, #[trigger] col_idx[a][b]),
            is_grid(arr@, i as int, cols as int),
            forall|a: int, b: int|
                0 <= a < i && 0 <= b < cols ==> slopes(a, b, down, right, #[trigger] arr[a][b]),
        decreases row_idx.len() - i,
    {
        let mut line: Vec<T> = Vec::new();
        let mut j: usize = 0;
        while j < cols
            invariant
                i < row_idx.len(),
                j <= cols,
                add_total::<T>(),
                mul_total::<T>(),
                is_grid(row_idx@, rows_of(rows as int, cols as int), cols as int),
                is_grid(col_idx@, rows_of(rows as int, cols as int), cols as int),
                forall|a: int, b: int|
                    0 <= a < row_idx.len() && 0 <= b < cols ==> index(
                        a as u32,
                        #[trigger] row_idx[a][b],
                    ),
                forall|a: int, b: int|
                    0 <= a < col_idx.len() && 0 <= b < cols ==> index(
                        b as u32,
                        #[trigger] col_idx[a][b],
                    ),
                line.len() == j,
                forall|b: int| 0 <= b < j ==> slopes(i as int, b, down, right, #[trigger] line[b]),
            decreases cols - j,
        {
            let row = row_idx[i][j];
            let col = col_idx[i][j];
            let a = row * down;
            let b = col * right;
            let value = a + b;
            assert(index(i as u32, row) && index(j as u32, col) && muls(row, down, a) && muls(
                col,
                right,
                b,
            ) && adds(a, b, value));
            line.push(value);
            j += 1;
        }
        arr.push(line);
        i += 1;
    }
    arr
}

/// Returns a planar gradient of `rows` by `cols` cells: the plane with the
/// slopes `down` and `right`, rescaled to the unit interval.
pub fn planar_gradient<T>(rows: usize, cols: usize, down: T, right: T) -> (arr: Vec<Vec<T>>) where
    T: Copy + From<u8> + From<u32> + PartialOrd + Add<Output = T> + Sub<Output = T> + Mul<
        Output = T,
    > + Div<Output = T>,

    requires
        rows <= u32::MAX,
        cols <= u32::MAX,
        add_total::<T>(),
        sub_total::<T>(),
        mul_total::<T>(),
        div_total::<T>(),
    ensures
        is_grid(arr@, rows_of(rows as int, cols as int), cols as int),
        exists|flat: Seq<Vec<T>>|
            is_plane(flat, rows as int, cols as int, down, right) && #[trigger] scaled(flat, arr@),
{
    let mut arr = plane(rows, cols, down, right);
    let ghost flat = arr@;
    scale(&mut arr);
    assert(scaled(flat, arr@));
    arr
}

/// `out` is a value that `1 - 2 * |v - 1 / 2|` may take, where the
/// magnitude is the negation of what answered that it lies below 0.
pub open spec fn folds<T>(v: T, out: T) -> bool where
    T: From<u8> + PartialOrd + Sub<Output = T> + Mul<Output = T> + Div<Output = T> + Neg<Output = T>,
 {
    exists|mid: T, d: T, zero: T, negative: bool, m: T, two: T, t: T, one: T|
        {
            &&& half(mid) && subs(v, mid, d)
            &&& small(0, zero) && below(d, zero, negative)
            &&& if negative {
                negs(d, m)
            } else {
                m == d
            }
            &&& small(2, two) && muls(two, m, t)
            &&& small(1, one) && subs(one, t, out)
        }
}

/// Folds a value of the unit interval about the midpoint: the midpoint
/// goes to 1 and the two ends go to 0.
pub fn fold_about_mid<T>(v: T) -> (out: T) where
    T: Copy + From<u8> + PartialOrd + Sub<Output = T> + Mul<Output = T> + Div<Output = T> + Neg<
        Output = T,
    >,

    requires
        sub_total::<T>(),
        mul_total::<T>(),
        div_total::<T>(),
        neg_total::<T>(),
    ensures
        folds(v, out),
{
    let mid: T = one_half();
    let d = v - mid;
    let zero = T::from(0u8);
    let negative = d < zero;
    let m = if negative {
        d.neg()
    } else {
        d
    };
    let two = T::from(2u8);
    let t = two * m;
    let one = T::from(1u8);
    let out = one - t;
    assert(half(mid) && subs(v, mid, d) && small(0, zero) && below(d, zero, negative) && (if negative {
        negs(d, m)
    } else {
        m == d
    }) && small(2, two) && muls(two, m, t) && small(1, one) && subs(one, t, out));
    out
}

/// Returns an edge gradient of `rows` by `cols` cells: the planar gradient
/// with the slopes `down` and `right`, folded about its midpoint so that it
/// is highest along the middle and falls off to both sides, and rescaled to
/// the unit interval.
pub fn edge_gradient<T>(rows: usize, cols: usize, down: T, right: T) -> (arr: Vec<Vec<T>>) where
    T: Copy + From<u8> + From<u32> + PartialOrd + Add<Output = T> + Sub<Output = T> + Mul<
        Output = T,
    > + Div<Output = T> + Neg<Output = T>,

    requires
        rows <= u32::MAX,
        cols <= u32::MAX,
        add_total::<T>(),
        sub_total::<T>(),
        mul_total::<T>(),
        div_total::<T>(),
        neg_total::<T>(),
    ensures
        is_grid(arr@, rows_of(rows as int, cols as int), cols as int),
        exists|flat: Seq<Vec<T>>, slope: Seq<Vec<T>>, ridge: Seq<Vec<T>>|
            {
                &&& is_plane(flat, rows as int, cols as int, down, right)
                &&& #[trigger] scaled(flat, slope)
                &&& forall|i: int, j: int|
                    0 <= i < slope.len() && 0 <= j < slope[i].len() ==> folds(
                        slope[i][j],
                        #[trigger] ridge[i][j],
                    )
                &&& #[trigger] scaled(ridge, arr@)
            },
{
    let mut arr = plane(rows, cols, down, right);
    let ghost flat = arr@;
    scale(&mut arr);
    let ghost slope = arr@;
    let fold = |v: T| -> (out: T)
        requires
            sub_total::<T>(),
            mul_total::<T>(),
            div_total::<T>(),
            neg_total::<T>(),
        ensures
            folds(v, out),
        { fold_about_mid(v) };
    map_cells(&mut arr, &fold);
    let ghost ridge = arr@;
    scale(&mut arr);
    assert(scaled(flat, slope) && scaled(ridge, arr@));
    arr
}

/// Returns a wave gradient of `rows` by `cols` cells: the planar gradient
/// with the slopes `down` and `right`, sent cell by cell through `wave`,
/// and rescaled to the unit interval.
pub fn wave_gradient<T, W>(rows: usize, cols: usize, down: T, right: T, wave: &W) -> (arr: Vec<
    Vec<T>,
>) where
    T: Copy + From<u8> + From<u32> + PartialOrd + Add<Output = T> + Sub<Output = T> + Mul<
        Output = T,
    > + Div<Output = T>,
    W: Fn(T) -> T,

    requires
        rows <= u32::MAX,
        cols <= u32::MAX,
        add_total::<T>(),
        sub_total::<T>(),
        mul_total::<T>(),
        div_total::<T>(),
        forall|v: T| call_requires(*wave, (v,)),
    ensures
        is_grid(arr@, rows_of(rows as int, cols as int), cols as int),
        exists|flat: Seq<Vec<T>>, slope: Seq<Vec<T>>, waves: Seq<Vec<T>>|
            {
                &&& is_plane(flat, rows as int, cols as int, down, right)
                &&& #[trigger] scaled(flat, slope)
                &&& forall|i: int, j: int|
                    0 <= i < slope.len() && 0 <= j < slope[i].len() ==> call_ensures(
                        *wave,
                        (slope[i][j],),
                        #[trigger] waves[i][j],
                    )
                &&& #[trigger] scaled(waves, arr@)
            },
{
    let mut arr = plane(rows, cols, down, right);
    let ghost flat = arr@;
    scale(&mut arr);
    let ghost slope = arr@;
    map_cells(&mut arr, wave);
    let ghost waves = arr@;
    scale(&mut arr);
    assert(scaled(flat, slope) && scaled(waves, arr@));
    arr
}

/// Returns a distance gradient of `rows` by `cols` cells.
///
/// A grid of coin flips is inverted, every cell that is then not 0 takes
/// its straight-line distance to the nearest cell that is 0, and the grid
/// is rescaled to the unit interval. `root` turns the square of a distance
/// into a cell. Where no cell is 0 there are no distances to take, and the
/// inverted grid is rescaled as it is.
pub fn distance_gradient<T, R>(rows: usize, cols: usize, root: &R) -> (arr: Vec<Vec<T>>) where
    T: Copy + From<u8> + PartialOrd + Sub<Output = T> + Div<Output = T>,
    R: Fn(u64) -> T,

    requires
        rows <= COORD_MAX + 1,
        cols <= COORD_MAX + 1,
        sub_total::<T>(),
        div_total::<T>(),
        forall|d: u64| call_requires(*root, (d,)),
    ensures
        is_grid(arr@, rows_of(rows as int, cols as int), cols as int),
        exists|
            coins: Seq<Vec<T>>,
            inverted: Seq<Vec<T>>,
            nought: T,
            zero: Seq<Vec<bool>>,
            done: bool,
            field: Seq<Vec<T>>,
        |
            {
                &&& is_grid(coins, rows_of(rows as int, cols as int), cols as int)
                &&& forall|i: int, j: int|
                    0 <= i < coins.len() && 0 <= j < cols ==> small(0, #[trigger] coins[i][j])
                        || small(1, coins[i][j])
                &&& #[trigger] same_shape(coins, inverted)
                &&& forall|i: int, j: int|
                    0 <= i < coins.len() && 0 <= j < cols ==> inverts(
                        coins[i][j],
                        #[trigger] inverted[i][j],
                    )
                &&& #[trigger] transformed(inverted, field, nought, zero, *root, done)
                &&& #[trigger] scaled(field, arr@)
            },
{
    let mut arr = binary_rand_arr::<T>(rows, cols);
    let ghost coins = arr@;
    invert(&mut arr);
    let ghost inverted = arr@;
    let done = euclidean_distance_transform(&mut arr, root);
    let ghost field = arr@;
    let ghost (nought, zero) = choose|nought: T, zero: Seq<Vec<bool>>| #[trigger]
        transformed(inverted, field, nought, zero, *root, done);
    scale(&mut arr);
    assert(same_shape(coins, inverted) && transformed(inverted, field, nought, zero, *root, done)
        && scaled(field, arr@));
    arr
}

/// `labels` is a grid of `rows` by `cols` cells as the labelling leaves it
/// for the bound `n`: every cell holds 1 or a label below `n`, and no
/// label above 1 stands in two cells. No cell holds 0.
pub open spec fn is_labelled(labels: Seq<Vec<u32>>, rows: int, cols: int, n: int) -> bool {
    &&& is_grid(labels, rows, cols)
    &&& forall|i: int, j: int|
        0 <= i < rows && 0 <= j < cols ==> 1 <= #[trigger] labels[i][j] && (labels[i][j] == 1
            || labels[i][j] < n)
    &&& forall|i: int, j: int, a: int, b: int|
        0 <= i < rows && 0 <= j < cols && 0 <= a < rows && 0 <= b < cols && #[trigger] labels[i][j]
            == #[trigger] labels[a][b] && labels[i][j] > 1 ==> i == a && j == b
}

/// Gives the cell `(row, col)` the label `label` if the cell still holds
/// 1, and leaves it alone if it has a label already.
pub fn stamp(labels: &mut Vec<Vec<u32>>, row: usize, col: usize, label: u32)
    requires
        row < old(labels).len(),
        col < old(labels)[row as int].len(),
    ensures
        same_shape(old(labels)@, final(labels)@),
        forall|i: int, j: int|
            0 <= i < old(labels).len() && 0 <= j < old(labels)[i].len()
               
                    ==> #[trigger] final(labels)[i][j] == if i == row && j == col && old(labels)[i][j] == 1 {
                label
            } else {
                old(labels)[i][j]
            },
{
    if labels[row][col] == 1 {
        labels[row][col] = label;
    }
}

/// The labels on a grid of `rows` by `cols` cells after the first `k` of
/// `picks`: every cell starts at 1, and the pick of number `k` gives its
/// cell the label `k` if the cell still holds 1.
pub open spec fn labels_after(rows: int, cols: int, picks: Seq<(int, int)>, k: int) -> Seq<Seq<u32>>
    decreases k,
{
    if k <= 0 {
        Seq::new(rows as nat, |i: int| Seq::new(cols as nat, |j: int| 1u32))
    } else {
        let before = labels_after(rows, cols, picks, k - 1);
        let (row, col) = picks[k - 1];
        if before[row][col] == 1 {
            before.update(row, before[row].update(col, k as u32))
        } else {
            before
        }
    }
}

/// `labels` is what the labelling with the bound `n` makes of `picks`:
/// there is a pick for every number below `n`, each a cell of the grid,
/// and the labels are those after all of them.
pub open spec fn is_labelled_by(
    labels: Seq<Vec<u32>>,
    rows: int,
    cols: int,
    n: int,
    picks: Seq<(int, int)>,
) -> bool {
    &&& picks.len() == if n > 1 {
        n - 1
    } else {
        0
    }
    &&& forall|k: int|
        0 <= k < picks.len() ==> 0 <= (#[trigger] picks[k]).0 < rows && 0 <= picks[k].1 < cols
    &&& rows_view(labels) == labels_after(rows, cols, picks, picks.len() as int)
}

/// The labels after some picks do not depend on the picks that follow.
proof fn lemma_labels_prefix(rows: int, cols: int, picks: Seq<(int, int)>, more: Seq<(int, int)>, k: int)
    requires
        0 <= k <= picks.len() <= more.len(),
        forall|m: int| 0 <= m < k ==> picks[m] == more[m],
    ensures
        labels_after(rows, cols, picks, k) == labels_after(rows, cols, more, k),
    decreases k,
{
    if k > 0 {
        lemma_labels_prefix(rows, cols, picks, more, k - 1);
    }
}

/// Labels cells picked at random with the numbers 1, 2, 3 and so on, one
/// pick for each number, until the highest label on the grid or the next
/// number reaches `n`. A pick that falls on a labelled cell is lost.
pub fn label_cells(rows: usize, cols: usize, n: u32) -> (labels: Vec<Vec<u32>>)
    requires
        rows > 0,
        cols > 0,
    ensures
        is_labelled(labels@, rows as int, cols as int, n as int),
        exists|picks: Seq<(int, int)>| #[trigger]
            is_labelled_by(labels@, rows as int, cols as int, n as int, picks),
{
    let mut labels: Vec<Vec<u32>> = value_arr(rows, cols, 1u32);
    let mut rng = rand::thread_rng();
    let mut top: u32 = 1;
    let mut i: u32 = 1;
    let ghost mut picks: Seq<(int, int)> = Seq::empty();
    assert(rows_view(labels@) =~~= labels_after(rows as int, cols as int, picks, 0));
    assert(labels[0][0] == top);
    while top < n && i < n
        invariant
            rows > 0,
            cols > 0,
            1 <= i,
            i <= n || i == 1,
            top == 1 || top < i,
            is_grid(labels@, rows as int, cols as int),
            forall|a: int, b: int|
                0 <= a < rows && 0 <= b < cols
                    ==> 1 <= #[trigger] labels[a][b] <= top && (labels[a][b]
                    == 1 || labels[a][b] < n),
            exists|a: int, b: int| 0 <= a < rows && 0 <= b < cols && labels[a][b] == top,
            forall|a: int, b: int, c: int, d: int|
                0 <= a < rows && 0 <= b < cols && 0 <= c < rows && 0 <= d < cols
                    && #[trigger] labels[a][b] == #[trigger] labels[c][d] && labels[a][b] > 1 ==> a
                    == c && b == d,
            picks.len() == i - 1,
            forall|k: int|
                0 <= k < picks.len() ==> 0 <= (#[trigger] picks[k]).0 < rows && 0 <= picks[k].1 < cols,
            rows_view(labels@) == labels_after(rows as int, cols as int, picks, picks.len() as int),
        decreases n - i,
    {
        let row = gen_range(&mut rng, 0, rows);
        let col = gen_range(&mut rng, 0, cols);
        let ghost before = labels@;
        let fresh = labels[row][col] == 1;
        stamp(&mut labels, row, col, i);
        if fresh && i > top {
            assert(labels[row as int][col as int] == i);
            top = i;
        } else {
            let ghost (a, b) = choose|a: int, b: int|
                0 <= a < rows && 0 <= b < cols && before[a][b] == top;
            assert(labels[a][b] == top);
        }
        proof {
            let longer = picks.push((row as int, col as int));
            lemma_labels_prefix(rows as int, cols as int, picks, longer, picks.len() as int);
            assert(rows_view(before)[row as int][col as int] == before[row as int][col as int]);
            assert(rows_view(labels@) =~~= labels_after(
                rows as int,
                cols as int,
                longer,
                longer.len() as int,
            ));
            picks = longer;
        }
        i += 1;
    }
    assert(is_labelled_by(labels@, rows as int, cols as int, n as int, picks));
    labels
}

/// Returns a random-element landscape of `rows` by `cols` cells, or no
/// rows at all where either is 0.
///
/// The cells are labelled at random up to the bound `n`, a cell that no
/// label has reached and that holds the mark 0 is filled from its
/// neighbour, and the labels, as cells, are rescaled to the unit interval.
/// The labelling leaves no cell at 0, so the filling finds nothing to do.
pub fn random_element<T>(rows: usize, cols: usize, n: u32) -> (arr: Vec<Vec<T>>) where
    T: Copy + From<u8> + From<u32> + PartialOrd + Sub<Output = T> + Div<Output = T>,

    requires
        sub_total::<T>(),
        div_total::<T>(),
    ensures
        rows == 0 || cols == 0 ==> arr.len() == 0,
        rows > 0 && cols > 0 ==> is_grid(arr@, rows as int, cols as int),
        rows > 0 && cols > 0 ==> exists|labels: Seq<Vec<u32>>, plain: Seq<Vec<T>>|
            {
                &&& #[trigger] is_labelled(labels, rows as int, cols as int, n as int)
                &&& exists|picks: Seq<(int, int)>| #[trigger]
                    is_labelled_by(labels, rows as int, cols as int, n as int, picks)
                &&& same_shape(labels, plain)
                &&& forall|i: int, j: int|
                    0 <= i < rows && 0 <= j < cols ==> index(labels[i][j], #[trigger] plain[i][j])
                &&& #[trigger] scaled(plain, arr@)
            },
{
    if rows == 0 || cols == 0 {
        return Vec::new();
    }
    let mut labels = label_cells(rows, cols, n);
    let ghost drawn = labels@;
    let mask = value_mask(&labels, 0u32);
    interpolate(&mut labels, mask);
    proof {
        assert forall|i: int, j: int| 0 <= i < rows && 0 <= j < cols implies #[trigger] labels[i][j]
            == drawn[i][j] by {
            assert(!mask[i][j]);
        }
        let picks = choose|picks: Seq<(int, int)>| #[trigger]
            is_labelled_by(drawn, rows as int, cols as int, n as int, picks);
        assert(rows_view(labels@) =~~= rows_view(drawn));
        assert(is_labelled_by(labels@, rows as int, cols as int, n as int, picks));
        assert(is_labelled(labels@, rows as int, cols as int, n as int));
    }
    let mut arr: Vec<Vec<T>> = Vec::new();
    let mut i: usize = 0;
    while i < rows
        invariant
            i <= rows,
            is_grid(labels@, rows as int, cols as int),
            is_grid(arr@, i as int, cols as int),
            forall|a: int, b: int|
                0 <= a < i && 0 <= b < cols ==> index(labels[a][b], #[trigger] arr[a][b]),
        decreases rows - i,
    {
        let mut line: Vec<T> = Vec::new();
        let mut j: usize = 0;
        while j < cols
            invariant
                i < rows,
                j <= cols,
                is_grid(labels@, rows as int, cols as int),
                line.len() == j,
                forall|b: int| 0 <= b < j ==> index(labels[i as int][b], #[trigger] line[b]),
            decreases cols - j,
        {
            line.push(T::from(labels[i][j]));
            j += 1;
        }
        arr.push(line);
        i += 1;
    }
    let ghost plain = arr@;
    scale(&mut arr);
    assert(is_labelled(labels@, rows as int, cols as int, n as int) && scaled(plain, arr@));
    arr
}

/// The side of the smallest surface that the fractal generator can make
/// and that has room for `side` cells a side: one more than the smallest
/// power of two that is no less than `side - 1`.
pub open spec fn is_surface_dim(side: int, dim: int) -> bool {
    &&& is_pow2(dim - 1)
    &&& side <= dim
    &&& dim == 2 || (dim - 1) / 2 < side - 1
}

/// Returns the side of the smallest surface that the fractal generator can
/// make and that has room for `side` cells a side.
pub fn surface_dim(side: usize) -> (dim: usize)
    requires
        1 <= side <= 0x4000_0001,
    ensures
        is_surface_dim(side as int, dim as int),
        dim <= 0x4000_0001,
{
    let mut p: usize = 1;
    proof {
        reveal_with_fuel(is_pow2, 32);
        assert(is_pow2(0x4000_0000));
    }
    while p < side - 1
        invariant
            1 <= side <= 0x4000_0001,
            is_pow2(p as int),
            is_pow2(0x4000_0000),
            p <= 0x4000_0000,
            p == 1 || p / 2 < side - 1,
        decreases 0x4000_0000 - p,
    {
        proof {
            lemma_pow2_gap(p as int, 0x4000_0000);
        }
        p = p * 2;
    }
    p + 1
}

/// Returns a midpoint-displacement landscape of `rows` by `cols` cells.
///
/// A fractal surface is made on the smallest square that the fractal
/// generator can work on and that has room for the landscape, a window of
/// `rows` by `cols` cells is cut from it at a random place, and the window
/// is rescaled to the unit interval. `unit` and `decay` are the generator's
/// draw and the decay of its displacement height. A landscape without
/// cells has no rows.
pub fn midpoint_displacement<T, F, D>(rows: usize, cols: usize, unit: &F, decay: &D) -> (arr: Vec<
    Vec<T>,
>) where
    T: Copy + From<u8> + PartialOrd + Add<Output = T> + Mul<Output = T> + Sub<Output = T> + Div<
        Output = T,
    >,
    F: Fn() -> T,
    D: Fn(T) -> T,

    requires
        rows <= 0x4000_0001,
        cols <= 0x4000_0001,
        add_total::<T>(),
        mul_total::<T>(),
        sub_total::<T>(),
        div_total::<T>(),
        call_requires(*unit, ()),
        forall|h: T| call_requires(*decay, (h,)),
    ensures
        is_grid(arr@, rows_of(rows as int, cols as int), cols as int),
        rows > 0 || cols > 0 ==> exists|
            dim: int,
            heights: Map<int, T>,
            surface: Seq<Vec<T>>,
            window: Seq<Vec<T>>,
        |
            {
                &&& is_surface_dim(if rows > cols { rows as int } else { cols as int }, dim)
                &&& #[trigger] is_surface(surface, dim, *unit, *decay, heights)
                &&& #[trigger] is_cut(surface, rows as int, cols as int, window)
                &&& scaled(window, arr@)
            },
{
    let max_dim = if rows > cols {
        rows
    } else {
        cols
    };
    if max_dim == 0 {
        return Vec::new();
    }
    let dim = surface_dim(max_dim);
    let surface = diamond_square(dim, unit, decay);
    let ghost heights = choose|heights: Map<int, T>| #[trigger]
        is_surface(surface@, dim as int, *unit, *decay, heights);
    let ghost whole = surface@;
    let mut arr = rand_sub_arr(surface, rows, cols);
    let ghost window = arr@;
    scale(&mut arr);
    assert(is_surface(whole, dim as int, *unit, *decay, heights) && is_cut(
        whole,
        rows as int,
        cols as int,
        window,
    ) && scaled(window, arr@));
    arr
}

} // verus!
