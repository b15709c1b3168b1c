//! Grid constructors and reshaping.
use crate::cell::{index, same, small};
use crate::rng::{gen_coin, gen_range};
use vstd::prelude::*;

verus! {

/// A grid of `rows` rows with `cols` cells each.
pub open spec fn is_grid<T>(arr: Seq<Vec<T>>, rows: int, cols: int) -> bool {
    &&& arr.len() == rows
    &&& forall|i: int| 0 <= i < rows ==> (#[trigger] arr[i]).len() == cols
}

/// The number of rows a grid asked for as `rows` by `cols` has: a grid
/// without cells has no rows either.
pub open spec fn rows_of(rows: int, cols: int) -> int {
    if cols == 0 {
        0
    } else {
        rows
    }
}

/// Returns a grid of `rows` by `cols` cells that all hold `value`.
pub fn value_arr<T: Copy>(rows: usize, cols: usize, value: T) -> (arr: Vec<Vec<T>>)
    ensures
        is_grid(arr@, rows_of(rows as int, cols as int), cols as int),
        forall|i: int, j: int| 0 <= i < arr.len() && 0 <= j < cols ==> arr[i][j] == value,
{
    let mut arr: Vec<Vec<T>> = Vec::new();
    if cols == 0 {
        return arr;
    }
    let mut i: usize = 0;
    while i < rows
        invariant
            i <= rows,
            is_grid(arr@, i as int, cols as int),
            forall|a: int, b: int| 0 <= a < i && 0 <= b < cols ==> arr[a][b] == value,
        decreases rows - i,
    {
        let mut row: Vec<T> = Vec::new();
        let mut j: usize = 0;
        while j < cols
            invariant
                j <= cols,
                row.len() == j,
                forall|b: int| 0 <= b < j ==> row[b] == value,
            decreases cols - j,
        {
            row.push(value);
            j += 1;
        }
        arr.push(row);
        i += 1;
    }
    arr
}

/// Returns a grid of `rows` by `cols` cells that all hold the cell type's 0.
pub fn zeros_arr<T: Copy + From<u8>>(rows: usize, cols: usize) -> (arr: Vec<Vec<T>>)
    ensures
        is_grid(arr@, rows_of(rows as int, cols as int), cols as int),
        forall|i: int, j: int|
            0 <= i < arr.len() && 0 <= j < cols ==> small(0, #[trigger] arr[i][j]),
        forall|i: int, j: int, a: int, b: int|
            0 <= i < arr.len() && 0 <= j < cols && 0 <= a < arr.len() && 0 <= b < cols
                ==> arr[i][j] == arr[a][b],
{
    let zero = T::from(0u8);
    value_arr(rows, cols, zero)
}

/// Returns a grid of `rows` by `cols` cells that all hold the cell type's 1.
pub fn ones_arr<T: Copy + From<u8>>(rows: usize, cols: usize) -> (arr: Vec<Vec<T>>)
    ensures
        is_grid(arr@, rows_of(rows as int, cols as int), cols as int),
        forall|i: int, j: int|
            0 <= i < arr.len() && 0 <= j < cols ==> small(1, #[trigger] arr[i][j]),
        forall|i: int, j: int, a: int, b: int|
            0 <= i < arr.len() && 0 <= j < cols && 0 <= a < arr.len() && 0 <= b < cols
                ==> arr[i][j] == arr[a][b],
{
    let one = T::from(1u8);
    value_arr(rows, cols, one)
}

/// Returns a grid of `rows` by `cols` cells, each a draw of its own from
/// `unit`, taken row by row.
pub fn rand_arr<T, F: Fn() -> T>(rows: usize, cols: usize, unit: &F) -> (arr: Vec<Vec<T>>)
    requires
        call_requires(*unit, ()),
    ensures
        is_grid(arr@, rows_of(rows as int, cols as int), cols as int),
        forall|i: int, j: int|
            0 <= i < arr.len() && 0 <= j < cols ==> call_ensures(*unit, (), #[trigger] arr[i][j]),
{
    let mut arr: Vec<Vec<T>> = Vec::new();
    if cols == 0 {
        return arr;
    }
    let mut i: usize = 0;
    while i < rows
        invariant
            i <= rows,
            call_requires(*unit, ()),
            is_grid(arr@, i as int, cols as int),
            forall|a: int, b: int|
                0 <= a < i && 0 <= b < cols ==> call_ensures(*unit, (), #[trigger] arr[a][b]),
        decreases rows - i,
    {
        let mut row: Vec<T> = Vec::new();
        let mut j: usize = 0;
        while j < cols
            invariant
                j <= cols,
                call_requires(*unit, ()),
                row.len() == j,
                forall|b: int| 0 <= b < j ==> call_ensures(*unit, (), #[trigger] row[b]),
            decreases cols - j,
        {
            row.push(unit());
            j += 1;
        }
        arr.push(row);
        i += 1;
    }
    arr
}

/// Returns a grid of `rows` by `cols` cells, each the cell type's 0 or 1 by
/// the flip of a fair coin.
pub fn binary_rand_arr<T: Copy + From<u8>>(rows: usize, cols: usize) -> (arr: Vec<Vec<T>>)
    ensures
        is_grid(arr@, rows_of(rows as int, cols as int), cols as int),
        forall|i: int, j: int|
            0 <= i < arr.len() && 0 <= j < cols ==> small(0, #[trigger] arr[i][j]) || small(
                1,
                arr[i][j],
            ),
{
    let mut arr: Vec<Vec<T>> = Vec::new();
    if cols == 0 {
        return arr;
    }
    let zero = T::from(0u8);
    let one = T::from(1u8);
    let mut rng = rand::thread_rng();
    let mut i: usize = 0;
    while i < rows
        invariant
            i <= rows,
            small(0, zero),
            small(1, one),
            is_grid(arr@, i as int, cols as int),
            forall|a: int, b: int|
                0 <= a < i && 0 <= b < cols
                    ==> small(0, #[trigger] arr[a][b]) || small(1, arr[a][b]),
        decreases rows - i,
    {
        let mut row: Vec<T> = Vec::new();
        let mut j: usize = 0;
        while j < cols
            invariant
                j <= cols,
                small(0, zero),
                small(1, one),
                row.len() == j,
                forall|b: int| 0 <= b < j ==> small(0, #[trigger] row[b]) || small(1, row[b]),
            decreases cols - j,
        {
            if gen_coin(&mut rng) {
                row.push(one);
            } else {
                row.push(zero);
            }
            j += 1;
        }
        arr.push(row);
        i += 1;
    }
    arr
}

/// Replaces every cell of `arr` by a draw of its own from `unit`, row by
/// row. The rows keep their lengths.
pub fn fill_rand<T, F: Fn() -> T>(arr: &mut Vec<Vec<T>>, unit: &F)
    requires
        call_requires(*unit, ()),
    ensures
        final(arr).len() == old(arr).len(),
        forall|i: int| 0 <= i < old(arr).len()
            ==> (#[trigger] final(arr)[i]).len() == old(arr)[i].len(),
        forall|i: int, j: int|
            0 <= i < old(arr).len() && 0 <= j < old(arr)[i].len() ==> call_ensures(
                *unit,
                (),
                #[trigger] final(arr)[i][j],
            ),
{
    let mut i: usize = 0;
    while i < arr.len()
        invariant
            i <= arr.len(),
            call_requires(*unit, ()),
            arr.len() == old(arr).len(),
            forall|a: int| 0 <= a < arr.len() ==> (#[trigger] arr[a]).len() == old(arr)[a].len(),
            forall|a: int, b: int|
                0 <= a < i && 0 <= b < arr[a].len()
                    ==> call_ensures(*unit, (), #[trigger] arr[a][b]),
        decreases arr.len() - i,
    {
        let mut j: usize = 0;
        while j < arr[i].len()
            invariant
                i < arr.len(),
                j <= arr[i as int].len(),
                call_requires(*unit, ()),
                arr.len() == old(arr).len(),
                forall|a: int| 0 <= a < arr.len()
                    ==> (#[trigger] arr[a]).len() == old(arr)[a].len(),
                forall|a: int, b: int|
                    0 <= a < i && 0 <= b < arr[a].len() ==> call_ensures(
                        *unit,
                        (),
                        #[trigger] arr[a][b],
                    ),
                forall|b: int| 0 <= b < j ==> call_ensures(*unit, (), #[trigger] arr[i as int][b]),
            decreases arr[i as int].len() - j,
        {
            arr[i][j] = unit();
            j += 1;
        }
        i += 1;
    }
}

/// `mask` has the shape of `arr`, and each of its marks is an answer that
/// `==` may give for the cell at its place and `value`.
pub open spec fn is_mask<T: PartialEq>(arr: Seq<Vec<T>>, value: T, mask: Seq<Vec<bool>>) -> bool {
    &&& mask.len() == arr.len()
    &&& forall|i: int| 0 <= i < arr.len() ==> (#[trigger] mask[i]).len() == arr[i].len()
    &&& forall|i: int, j: int|
        0 <= i < arr.len() && 0 <= j < arr[i].len()
            ==> same(arr[i][j], value, #[trigger] mask[i][j])
}

/// Marks the cells of `arr` that compare equal to `value`.
pub fn value_mask<T: Copy + PartialEq>(arr: &Vec<Vec<T>>, value: T) -> (mask: Vec<Vec<bool>>)
    ensures
        is_mask(arr@, value, mask@),
{
    let mut mask: Vec<Vec<bool>> = Vec::new();
    let mut i: usize = 0;
    while i < arr.len()
        invariant
            i <= arr.len(),
            mask.len() == i,
            forall|a: int| 0 <= a < i ==> (#[trigger] mask[a]).len() == arr[a].len(),
            forall|a: int, b: int|
                0 <= a < i && 0 <= b < arr[a].len()
                    ==> same(arr[a][b], value, #[trigger] mask[a][b]),
        decreases arr.len() - i,
    {
        let mut row: Vec<bool> = Vec::new();
        let mut j: usize = 0;
        while j < arr[i].len()
            invariant
                i < arr.len(),
                j <= arr[i as int].len(),
                row.len() == j,
                forall|b: int| 0 <= b < j ==> same(arr[i as int][b], value, #[trigger] row[b]),
            decreases arr[i as int].len() - j,
        {
            row.push(arr[i][j] == value);
            j += 1;
        }
        mask.push(row);
        i += 1;
    }
    mask
}

/// The rows of a grid as sequences of cells.
pub open spec fn rows_view<T>(arr: Seq<Vec<T>>) -> Seq<Seq<T>> {
    arr.map_values(|row: Vec<T>| row@)
}

/// Returns the cells of `arr` in one vector, row after row.
pub fn flatten<T>(arr: Vec<Vec<T>>) -> (flat: Vec<T>)
    ensures
        flat@ == rows_view(arr@).flatten(),
{
    let mut flat: Vec<T> = Vec::new();
    let ghost rows = rows_view(arr@);
    for row in it: arr
        invariant
            rows == rows_view(arr@),
            flat@ == rows.take(it.index() as int).flatten(),
    {
        let mut row = row;
        proof {
            let k = it.index() as int;
            assert(rows.take(k + 1) =~= rows.take(k).push(row@));
            rows.take(k).lemma_flatten_push(row@);
        }
        flat.append(&mut row);
    }
    assert(rows.take(rows.len() as int) =~= rows);
    flat
}

/// Returns two grids of `rows` by `cols` cells: in the first every cell
/// holds the index of its row, in the second the index of its column.
pub fn indices_arr<T: Copy + From<u32>>(rows: usize, cols: usize) -> (idx: (Vec<Vec<T>>, Vec<Vec<T>>))
    requires
        rows <= u32::MAX,
        cols <= u32::MAX,
    ensures
        is_grid(idx.0@, rows_of(rows as int, cols as int), cols as int),
        is_grid(idx.1@, rows_of(rows as int, cols as int), cols as int),
        forall|i: int, j: int|
            0 <= i < idx.0.len() && 0 <= j < cols ==> index(i as u32, #[trigger] idx.0[i][j]),
        forall|i: int, j: int|
            0 <= i < idx.1.len() && 0 <= j < cols ==> index(j as u32, #[trigger] idx.1[i][j]),
{
    let mut row_idx: Vec<Vec<T>> = Vec::new();
    let mut col_idx: Vec<Vec<T>> = Vec::new();
    if cols == 0 {
        return (row_idx, col_idx);
    }
    let mut i: usize = 0;
    while i < rows
        invariant
            i <= rows <= u32::MAX,
            cols <= u32::MAX,
            is_grid(row_idx@, i as int, cols as int),
            is_grid(col_idx@, i as int, cols as int),
            forall|a: int, b: int|
                0 <= a < i && 0 <= b < cols ==> index(a as u32, #[trigger] row_idx[a][b]),
            forall|a: int, b: int|
                0 <= a < i && 0 <= b < cols ==> index(b as u32, #[trigger] col_idx[a][b]),
        decreases rows - i,
    {
        let mut row: Vec<T> = Vec::new();
        let mut col: Vec<T> = Vec::new();
        let mut j: usize = 0;
        while j < cols
            invariant
                i < rows <= u32::MAX,
                j <= cols <= u32::MAX,
                row.len() == j,
                col.len() == j,
                forall|b: int| 0 <= b < j ==> index(i as u32, #[trigger] row[b]),
                forall|b: int| 0 <= b < j ==> index(b as u32, #[trigger] col[b]),
            decreases cols - j,
        {
            row.push(T::from(i as u32));
            col.push(T::from(j as u32));
            j += 1;
        }
        row_idx.push(row);
        col_idx.push(col);
        i += 1;
    }
    (row_idx, col_idx)
}

/// `out` is the window of `rows` by `cols` cells of `arr` whose first cell
/// is `arr[row_start][col_start]`.
pub open spec fn is_window<T>(
    arr: Seq<Vec<T>>,
    row_start: int,
    col_start: int,
    rows: int,
    cols: int,
    out: Seq<Vec<T>>,
) -> bool {
    &&& is_grid(out, rows_of(rows, cols), cols)
    &&& forall|i: int, j: int|
        0 <= i < out.len() && 0 <= j < cols ==> #[trigger] out[i][j] == arr[row_start + i][col_start
            + j]
}

/// Copies the window of `rows` by `cols` cells that starts at
/// `arr[row_start][col_start]`.
pub fn sub_arr<T: Copy>(
    arr: &Vec<Vec<T>>,
    row_start: usize,
    col_start: usize,
    rows: usize,
    cols: usize,
) -> (out: Vec<Vec<T>>)
    requires
        row_start + rows <= arr.len(),
        forall|i: int| row_start <= i < row_start + rows
            ==> col_start + cols <= (#[trigger] arr[i]).len(),
    ensures
        is_window(arr@, row_start as int, col_start as int, rows as int, cols as int, out@),
{
    let mut out: Vec<Vec<T>> = Vec::new();
    if cols == 0 {
        return out;
    }
    let mut i: usize = 0;
    while i < rows
        invariant
            i <= rows,
            row_start + rows <= arr.len(),
            forall|a: int|
                row_start <= a < row_start + rows ==> col_start + cols <= (#[trigger] arr[a]).len(),
            is_grid(out@, i as int, cols as int),
            forall|a: int, b: int|
                0 <= a < i && 0 <= b < cols ==> #[trigger] out[a][b] == arr[row_start + a][col_start
                    + b],
        decreases rows - i,
    {
        let mut row: Vec<T> = Vec::new();
        let mut j: usize = 0;
        while j < cols
            invariant
                i < rows,
                j <= cols,
                row_start + rows <= arr.len(),
                col_start + cols <= arr[row_start + i].len(),
                row.len() == j,
                forall|b: int| 0 <= b < j
                    ==> #[trigger] row[b] == arr[row_start + i][col_start + b],
            decreases cols - j,
        {
            row.push(arr[row_start + i][col_start + j]);
            j += 1;
        }
        out.push(row);
        i += 1;
    }
    out
}

/// `out` is a cut of `rows` by `cols` cells from `arr`: the grid itself
/// where it is no larger than that in either direction, and else a window
/// of it that leaves at least one row below it, unless it takes every
/// row, and at least one column to its right, unless it takes every
/// column.
pub open spec fn is_cut<T>(arr: Seq<Vec<T>>, rows: int, cols: int, out: Seq<Vec<T>>) -> bool {
    if rows >= arr.len() && cols >= arr[0].len() {
        out == arr
    } else {
        exists|row_start: int, col_start: int|
            {
                &&& 0 <= row_start && row_start + rows <= arr.len()
                &&& 0 <= col_start && col_start + cols <= arr[0].len()
                &&& rows != arr.len() ==> row_start + rows < arr.len()
                &&& cols != arr[0].len() ==> col_start + cols < arr[0].len()
                &&& #[trigger] is_window(arr, row_start, col_start, rows, cols, out)
            }
    }
}

/// Cuts `rows` by `cols` cells from `arr` at a random place.
///
/// A grid that is no larger than that in either direction is handed back
/// as it is. Otherwise the first row of the window is drawn from the rows
/// that leave at least one row below the window, unless the window takes
/// every row, and likewise for its first column.
pub fn rand_sub_arr<T: Copy>(arr: Vec<Vec<T>>, rows: usize, cols: usize) -> (out: Vec<Vec<T>>)
    requires
        arr.len() > 0,
        is_grid(arr@, arr.len() as int, arr[0].len() as int),
        (rows >= arr.len() && cols >= arr[0].len()) || (rows <= arr.len() && cols <= arr[0].len()),
    ensures
        is_cut(arr@, rows as int, cols as int, out@),
{
    if rows >= arr.len() && cols >= arr[0].len() {
        return arr;
    }
    let mut rng = rand::thread_rng();
    let mut row_start: usize = 0;
    if arr.len() != rows {
        row_start = gen_range(&mut rng, 0, arr.len() - rows);
    }
    let mut col_start: usize = 0;
    if arr[0].len() != cols {
        col_start = gen_range(&mut rng, 0, arr[0].len() - cols);
    }
    let out = sub_arr(&arr, row_start, col_start, rows, cols);
    assert(is_window(arr@, row_start as int, col_start as int, rows as int, cols as int, out@));
    out
}

} // verus!
