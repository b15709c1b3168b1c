//! The Euclidean distance transform, by exhaustive search.
//!
//! Distances are compared by their squares, which are whole numbers, and a
//! square is handed to the caller's root function only when it is written
//! to a cell.
use crate::array::{is_mask, value_mask};
use crate::cell::small;
use crate::operation::same_shape;
use vstd::prelude::*;

verus! {

/// The largest coordinate whose squared distances fit in 64 bits.
pub const COORD_MAX: usize = 0x7fff_ffff;

/// The square of the straight-line distance between two cells.
pub open spec fn sq_dist(x1: int, y1: int, x2: int, y2: int) -> int {
    (x2 - x1) * (x2 - x1) + (y2 - y1) * (y2 - y1)
}

/// Returns the square of the straight-line distance between two cells.
pub fn squared_distance(x1: usize, y1: usize, x2: usize, y2: usize) -> (d: u64)
    requires
        x1 <= COORD_MAX,
        y1 <= COORD_MAX,
        x2 <= COORD_MAX,
        y2 <= COORD_MAX,
    ensures
        d == sq_dist(x1 as int, y1 as int, x2 as int, y2 as int),
{
    let dx: u64 = if x1 < x2 {
        (x2 - x1) as u64
    } else {
        (x1 - x2) as u64
    };
    let dy: u64 = if y1 < y2 {
        (y2 - y1) as u64
    } else {
        (y1 - y2) as u64
    };
    assert(dx * dx <= 0x7fff_ffff * 0x7fff_ffff) by (nonlinear_arith)
        requires
            dx <= 0x7fff_ffff,
    ;
    assert(dy * dy <= 0x7fff_ffff * 0x7fff_ffff) by (nonlinear_arith)
        requires
            dy <= 0x7fff_ffff,
    ;
    assert(dx * dx == (x2 - x1) * (x2 - x1)) by (nonlinear_arith)
        requires
            dx == x2 - x1 || dx == x1 - x2,
    ;
    assert(dy * dy == (y2 - y1) * (y2 - y1)) by (nonlinear_arith)
        requires
            dy == y2 - y1 || dy == y1 - y2,
    ;
    dx * dx + dy * dy
}

/// `(i, j)` is a cell of the mask, and it is marked.
pub open spec fn is_zero_at(zero: Seq<Vec<bool>>, i: int, j: int) -> bool {
    0 <= i < zero.len() && 0 <= j < zero[i].len() && zero[i][j]
}

/// `(a, b)` comes before `(i, j)` when the grid is read row by row.
pub open spec fn comes_before(a: int, b: int, i: int, j: int) -> bool {
    a < i || (a == i && b < j)
}

/// `(p, q)` is the marked cell nearest to `(row, col)` among the marked
/// cells that come before `(i, j)`: none of them is nearer, and none that
/// is as near comes before it.
pub open spec fn is_nearest_before(
    zero: Seq<Vec<bool>>,
    row: int,
    col: int,
    i: int,
    j: int,
    p: int,
    q: int,
) -> bool {
    &&& is_zero_at(zero, p, q)
    &&& comes_before(p, q, i, j)
    &&& forall|a: int, b: int|
        #[trigger] is_zero_at(zero, a, b) && comes_before(a, b, i, j) ==> {
            ||| sq_dist(row, col, p, q) < sq_dist(row, col, a, b)
            ||| sq_dist(row, col, p, q) == sq_dist(row, col, a, b) && !comes_before(a, b, p, q)
        }
}

/// `(p, q)` is the marked cell nearest to `(row, col)`, and among the
/// marked cells at its distance the first one when the grid is read row by
/// row.
pub open spec fn is_nearest_zero(zero: Seq<Vec<bool>>, row: int, col: int, p: int, q: int) -> bool {
    is_nearest_before(zero, row, col, zero.len() as int, 0, p, q)
}

/// The mask's coordinates are small enough to have their distances
/// squared.
pub open spec fn fits<T>(arr: Seq<Vec<T>>) -> bool {
    &&& arr.len() <= COORD_MAX + 1
    &&& forall|i: int| 0 <= i < arr.len() ==> (#[trigger] arr[i]).len() <= COORD_MAX + 1
}

/// Searches the whole mask for the marked cell nearest to `(row, col)`.
/// Of several at the same distance, the first one found counts. A mask
/// without a mark has no such cell.
pub fn nearest_zero(zero: &Vec<Vec<bool>>, row: usize, col: usize) -> (best: Option<(usize, usize)>)
    requires
        fits(zero@),
        row <= COORD_MAX,
        col <= COORD_MAX,
    ensures
        best.is_none() <==> forall|a: int, b: int| !is_zero_at(zero@, a, b),
        best.is_some() ==> is_nearest_zero(
            zero@,
            row as int,
            col as int,
            best.unwrap().0 as int,
            best.unwrap().1 as int,
        ),
{
    let mut best: Option<(u64, usize, usize)> = None;
    let mut i: usize = 0;
    while i < zero.len()
        invariant
            i <= zero.len(),
            fits(zero@),
            row <= COORD_MAX,
            col <= COORD_MAX,
            best.is_none() <==> forall|a: int, b: int|
                !(#[trigger] is_zero_at(zero@, a, b) && comes_before(a, b, i as int, 0)),
            best.is_some() ==> best.unwrap().0 == sq_dist(
                row as int,
                col as int,
                best.unwrap().1 as int,
                best.unwrap().2 as int,
            ) && is_nearest_before(
                zero@,
                row as int,
                col as int,
                i as int,
                0,
                best.unwrap().1 as int,
                best.unwrap().2 as int,
            ),
        decreases zero.len() - i,
    {
        let mut j: usize = 0;
        while j < zero[i].len()
            invariant
                i < zero.len(),
                j <= zero[i as int].len(),
                fits(zero@),
                row <= COORD_MAX,
                col <= COORD_MAX,
                best.is_none() <==> forall|a: int, b: int|
                    !(#[trigger] is_zero_at(zero@, a, b) && comes_before(a, b, i as int, j as int)),
                best.is_some() ==> best.unwrap().0 == sq_dist(
                    row as int,
                    col as int,
                    best.unwrap().1 as int,
                    best.unwrap().2 as int,
                ) && is_nearest_before(
                    zero@,
                    row as int,
                    col as int,
                    i as int,
                    j as int,
                    best.unwrap().1 as int,
                    best.unwrap().2 as int,
                ),
            decreases zero[i as int].len() - j,
        {
            if zero[i][j] {
                let d = squared_distance(row, col, i, j);
                let nearer = match best {
                    None => true,
                    Some((least, _, _)) => d < least,
                };
                assert(is_zero_at(zero@, i as int, j as int));
                if nearer {
                    best = Some((d, i, j));
                }
            }
            j += 1;
        }
        i += 1;
    }
    match best {
        Some((_, p, q)) => Some((p, q)),
        None => None,
    }
}

/// Whether the mask has a marked cell.
pub fn has_zero(zero: &Vec<Vec<bool>>) -> (found: bool)
    ensures
        found <==> exists|a: int, b: int| is_zero_at(zero@, a, b),
{
    let mut i: usize = 0;
    while i < zero.len()
        invariant
            i <= zero.len(),
            forall|a: int, b: int| 0 <= a < i ==> !is_zero_at(zero@, a, b),
        decreases zero.len() - i,
    {
        let mut j: usize = 0;
        while j < zero[i].len()
            invariant
                i < zero.len(),
                j <= zero[i as int].len(),
                forall|a: int, b: int| 0 <= a < i ==> !is_zero_at(zero@, a, b),
                forall|b: int| 0 <= b < j ==> !is_zero_at(zero@, i as int, b),
            decreases zero[i as int].len() - j,
        {
            if zero[i][j] {
                assert(is_zero_at(zero@, i as int, j as int));
                return true;
            }
            j += 1;
        }
        i += 1;
    }
    false
}

/// `out` is a value that `root` may give for the square of the distance
/// from `(i, j)` to its nearest marked cell.
pub open spec fn rooted<T, R: Fn(u64) -> T>(zero: Seq<Vec<bool>>, root: R, i: int, j: int, out: T) -> bool {
    exists|p: int, q: int| #[trigger]
        is_nearest_zero(zero, i, j, p, q) && call_ensures(
            root,
            (sq_dist(i, j, p, q) as u64,),
            out,
        )
}

/// `after` is the distance field of `before` over the mask: the marked
/// cells are as they were, and every other cell holds the root of the
/// squared distance to its nearest marked cell.
pub open spec fn is_field<T, R: Fn(u64) -> T>(
    before: Seq<Vec<T>>,
    after: Seq<Vec<T>>,
    zero: Seq<Vec<bool>>,
    root: R,
) -> bool {
    &&& same_shape(before, after)
    &&& forall|i: int, j: int|
        0 <= i < before.len() && 0 <= j < before[i].len() ==> if zero[i][j] {
            #[trigger] after[i][j] == before[i][j]
        } else {
            rooted(zero, root, i, j, #[trigger] after[i][j])
        }
}

/// Replaces every cell that the mask leaves unmarked by its distance to the
/// nearest marked cell. `root` turns the square of a distance into a cell.
pub fn distance_field<T: Copy, R: Fn(u64) -> T>(arr: &mut Vec<Vec<T>>, zero: &Vec<Vec<bool>>, root: &R)
    requires
        same_shape(old(arr)@, zero@),
        fits(zero@),
        exists|a: int, b: int| is_zero_at(zero@, a, b),
        forall|d: u64| call_requires(*root, (d,)),
    ensures
        is_field(old(arr)@, final(arr)@, zero@, *root),
{
    let mut i: usize = 0;
    while i < arr.len()
        invariant
            i <= arr.len(),
            same_shape(old(arr)@, zero@),
            same_shape(old(arr)@, arr@),
            fits(zero@),
            exists|a: int, b: int| is_zero_at(zero@, a, b),
            forall|d: u64| call_requires(*root, (d,)),
            forall|a: int, b: int|
                i <= a < arr.len() && 0 <= b < arr[a].len()
                    ==> #[trigger] arr[a][b] == old(arr)[a][b],
            forall|a: int, b: int|
                0 <= a < i && 0 <= b < arr[a].len() ==> if zero[a][b] {
                    #[trigger] arr[a][b] == old(arr)[a][b]
                } else {
                    rooted(zero@, *root, a, b, #[trigger] arr[a][b])
                },
        decreases arr.len() - i,
    {
        let mut j: usize = 0;
        while j < arr[i].len()
            invariant
                i < arr.len(),
                j <= arr[i as int].len(),
                same_shape(old(arr)@, zero@),
                same_shape(old(arr)@, arr@),
                fits(zero@),
                exists|a: int, b: int| is_zero_at(zero@, a, b),
                forall|d: u64| call_requires(*root, (d,)),
                forall|a: int, b: int|
                    i < a < arr.len() && 0 <= b < arr[a].len()
                        ==> #[trigger] arr[a][b] == old(arr)[a][b],
                forall|b: int|
                    j <= b < arr[i as int].len()
                        ==> #[trigger] arr[i as int][b] == old(arr)[i as int][b],
                forall|a: int, b: int|
                    0 <= a < i && 0 <= b < arr[a].len() ==> if zero[a][b] {
                        #[trigger] arr[a][b] == old(arr)[a][b]
                    } else {
                        rooted(zero@, *root, a, b, #[trigger] arr[a][b])
                    },
                forall|b: int|
                    0 <= b < j ==> if zero[i as int][b] {
                        #[trigger] arr[i as int][b] == old(arr)[i as int][b]
                    } else {
                        rooted(zero@, *root, i as int, b, #[trigger] arr[i as int][b])
                    },
            decreases arr[i as int].len() - j,
        {
            if !zero[i][j] {
                let (p, q) = nearest_zero(zero, i, j).unwrap();
                let out = root(squared_distance(i, j, p, q));
                assert(is_nearest_zero(zero@, i as int, j as int, p as int, q as int)
                    && call_ensures(
                    *root,
                    (sq_dist(i as int, j as int, p as int, q as int) as u64,),
                    out,
                ));
                arr[i][j] = out;
            }
            j += 1;
        }
        i += 1;
    }
}

/// `after` is what the transform makes of `before` where its cells
/// answered `zero` to being `nought`, the cell type's 0: with a cell that is 0, the distance field
/// over those cells; without one, no cell has a distance, and the grid
/// stays as it was.
pub open spec fn transformed<T: From<u8> + PartialEq, R: Fn(u64) -> T>(
    before: Seq<Vec<T>>,
    after: Seq<Vec<T>>,
    nought: T,
    zero: Seq<Vec<bool>>,
    root: R,
    done: bool,
) -> bool {
    &&& small(0, nought)
    &&& is_mask(before, nought, zero)
    &&& done <==> exists|a: int, b: int| is_zero_at(zero, a, b)
    &&& if done {
        is_field(before, after, zero, root)
    } else {
        after == before
    }
}

/// Replaces every cell that is not 0 by its straight-line distance to the
/// nearest cell that is 0. `root` turns the square of a distance into a
/// cell. In a grid without a cell that is 0 no cell has such a distance:
/// the grid is left as it is, and the result says so.
pub fn euclidean_distance_transform<T, R>(arr: &mut Vec<Vec<T>>, root: &R) -> (done: bool) where
    T: Copy + From<u8> + PartialEq,
    R: Fn(u64) -> T,

    requires
        fits(old(arr)@),
        forall|d: u64| call_requires(*root, (d,)),
    ensures
        exists|nought: T, zero: Seq<Vec<bool>>| #[trigger]
            transformed(old(arr)@, final(arr)@, nought, zero, *root, done),
{
    let nought = T::from(0u8);
    let zero = value_mask(arr, nought);
    if !has_zero(&zero) {
        assert(transformed(old(arr)@, arr@, nought, zero@, *root, false));
        return false;
    }
    distance_field(arr, &zero, root);
    assert(transformed(old(arr)@, arr@, nought, zero@, *root, true));
    true
}

} // verus!
