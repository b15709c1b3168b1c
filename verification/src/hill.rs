//! The hill-grow simulator: a kernel is stamped onto the grid again and
//! again, each time at a cell picked at random, to grow or to shrink it.
use crate::array::{is_grid, rows_view, value_arr};
use crate::cell::{
    above, add_total, adds, div_total, divs, half, mul_total, muls, one_half, small, sub_total, subs,
};
use crate::operation::{cells, lemma_scale_of_constant, same_shape, scale, scaled};
use crate::rng::{gen_coin, gen_range};
use std::ops::{Add, Div, Mul, Sub};
use vstd::prelude::*;

verus! {

/// A kernel is a square of cells with an odd side, so that it has a centre.
pub open spec fn is_kernel<T>(kernel: Seq<Vec<T>>) -> bool {
    &&& kernel.len() > 0
    &&& kernel.len() % 2 == 1
    &&& forall|i: int| 0 <= i < kernel.len() ==> (#[trigger] kernel[i]).len() == kernel.len()
}

/// Whether `kernel` is a square of cells with an odd side.
pub fn valid_kernel<T>(kernel: &Vec<Vec<T>>) -> (valid: bool)
    ensures
        valid <==> is_kernel(kernel@),
{
    if kernel.len() == 0 || kernel.len() % 2 != 1 {
        return false;
    }
    let mut i: usize = 0;
    while i < kernel.len()
        invariant
            i <= kernel.len(),
            forall|a: int| 0 <= a < i ==> (#[trigger] kernel[a]).len() == kernel.len(),
        decreases kernel.len() - i,
    {
        if kernel[i].len() != kernel.len() {
            return false;
        }
        i += 1;
    }
    true
}

/// `f` is the factor that a stamp is scaled by: the one that was asked for
/// or, without one, a value that `1 / 10` may take.
pub open spec fn is_factor<T: From<u8> + Div<Output = T>>(factor: Option<T>, f: T) -> bool {
    match factor {
        Some(given) => f == given,
        None => exists|one: T, ten: T| small(1, one) && small(10, ten) && divs(one, ten, f),
    }
}

/// `out` is a value that a cell holding `v` may take when the kernel
/// weight `w`, scaled by `f`, is stamped onto it: `v + w * f` where that
/// answered that it lies above 0, and 0 where it did not.
pub open spec fn stamps<T>(v: T, w: T, f: T, out: T) -> bool where
    T: From<u8> + PartialOrd + Add<Output = T> + Mul<Output = T>,
 {
    exists|p: T, s: T, zero: T, positive: bool|
        muls(w, f, p) && adds(v, p, s) && small(0, zero) && above(s, zero, positive) && out == if positive {
            s
        } else {
            zero
        }
}

/// The kernel row or column that lies over the grid row or column `i` when
/// a kernel of half-width `reach` is centred at `at`.
pub open spec fn over(at: int, reach: int, i: int) -> int {
    i - at + reach
}

/// The grid row or column, of `len`, that lies under the kernel row or
/// column `k` when a kernel of half-width `reach` is centred at `at`.
fn under(at: usize, k: usize, reach: usize, len: usize) -> (i: Option<usize>)
    ensures
        i.is_some() <==> 0 <= at + k - reach < len,
        i.is_some() ==> over(at as int, reach as int, i.unwrap() as int) == k,
{
    if k >= reach {
        let ahead = k - reach;
        if ahead < len && at < len - ahead {
            Some(at + ahead)
        } else {
            None
        }
    } else {
        let back = reach - k;
        if at >= back && at - back < len {
            Some(at - back)
        } else {
            None
        }
    }
}

/// `after` is `before` with `kernel`, scaled by `f`, stamped on at
/// `(row, col)`: the cells under the kernel are stamped, each by the weight
/// over it, and the others are as they were.
pub open spec fn stamped<T>(
    before: Seq<Vec<T>>,
    after: Seq<Vec<T>>,
    row: int,
    col: int,
    kernel: Seq<Vec<T>>,
    f: T,
) -> bool where T: From<u8> + PartialOrd + Add<Output = T> + Mul<Output = T> {
    let reach = (kernel.len() - 1) / 2;
    &&& same_shape(before, after)
    &&& forall|i: int, j: int|
        0 <= i < before.len() && 0 <= j < before[i].len()
            ==> if 0 <= over(row, reach, i) < kernel.len()
            && 0 <= over(col, reach, j) < kernel.len() {
            stamps(
                before[i][j],
                kernel[over(row, reach, i)][over(col, reach, j)],
                f,
                #[trigger] after[i][j],
            )
        } else {
            #[trigger] after[i][j] == before[i][j]
        }
}

/// Stamps `kernel` onto the grid with its centre at `(row, col)`: every
/// cell under the kernel gains the weight over it times `factor`, or times
/// `1 / 10` without a factor, and a cell that would fall below 0 stops
/// at 0. The part of the kernel that juts out over the edge is dropped.
pub fn apply_kernel<T>(
    arr: &mut Vec<Vec<T>>,
    row: usize,
    col: usize,
    kernel: &Vec<Vec<T>>,
    factor: Option<T>,
) where T: Copy + From<u8> + PartialOrd + Add<Output = T> + Mul<Output = T> + Div<Output = T>
    requires
        is_kernel(kernel@),
        add_total::<T>(),
        mul_total::<T>(),
        div_total::<T>(),
    ensures
        exists|f: T| is_factor(factor, f) && #[trigger] stamped(
            old(arr)@,
            final(arr)@,
            row as int,
            col as int,
            kernel@,
            f,
        ),
{
    let f = match factor {
        Some(given) => given,
        None => {
            let one = T::from(1u8);
            let ten = T::from(10u8);
            let f = one / ten;
            assert(small(1, one) && small(10, ten) && divs(one, ten, f));
            f
        },
    };
    let zero = T::from(0u8);
    let side = kernel.len();
    let reach = (side - 1) / 2;
    let mut ki: usize = 0;
    while ki < side
        invariant
            ki <= side,
            side == kernel.len(),
            reach == (side - 1) / 2,
            is_kernel(kernel@),
            add_total::<T>(),
            mul_total::<T>(),
            small(0, zero),
            same_shape(old(arr)@, arr@),
            forall|i: int, j: int|
                0 <= i < arr.len() && 0 <= j < arr[i].len()
                    ==> if 0 <= over(row as int, reach as int, i) < ki
                    && 0 <= over(col as int, reach as int, j) < side {
                    stamps(
                        old(arr)[i][j],
                        kernel[over(row as int, reach as int, i)][over(col as int, reach as int, j)],
                        f,
                        #[trigger] arr[i][j],
                    )
                } else {
                    #[trigger] arr[i][j] == old(arr)[i][j]
                },
        decreases side - ki,
    {
        let mut kj: usize = 0;
        while kj < side
            invariant
                ki < side,
                kj <= side,
                side == kernel.len(),
                reach == (side - 1) / 2,
                is_kernel(kernel@),
                add_total::<T>(),
                mul_total::<T>(),
                small(0, zero),
                same_shape(old(arr)@, arr@),
                forall|i: int, j: int|
                    0 <= i < arr.len() && 0 <= j < arr[i].len()
                        ==> if 0 <= over(row as int, reach as int, i) < side
                        && 0 <= over(col as int, reach as int, j) < side && (over(
                        row as int,
                        reach as int,
                        i,
                    ) < ki || (over(row as int, reach as int, i) == ki && over(
                        col as int,
                        reach as int,
                        j,
                    ) < kj)) {
                        stamps(
                            old(arr)[i][j],
                            kernel[over(row as int, reach as int, i)][over(
                                col as int,
                                reach as int,
                                j,
                            )],
                            f,
                            #[trigger] arr[i][j],
                        )
                    } else {
                        #[trigger] arr[i][j] == old(arr)[i][j]
                    },
            decreases side - kj,
        {
            if let Some(i) = under(row, ki, reach, arr.len()) {
                if let Some(j) = under(col, kj, reach, arr[i].len()) {
                    let p = kernel[ki][kj] * f;
                    let s = arr[i][j] + p;
                    let positive = s > zero;
                    let out = if positive {
                        s
                    } else {
                        zero
                    };
                    assert(muls(kernel[ki as int][kj as int], f, p) && adds(
                        old(arr)[i as int][j as int],
                        p,
                        s,
                    ) && small(0, zero) && above(s, zero, positive));
                    arr[i][j] = out;
                }
            }
            kj += 1;
        }
        ki += 1;
    }
    assert(stamped(old(arr)@, arr@, row as int, col as int, kernel@, f));
}

/// `pick` accepts every list of weights that is not empty, and picks a
/// place in the list.
pub open spec fn picks_inside<T, P: Fn(&Vec<T>) -> usize>(pick: P) -> bool {
    &&& forall|w: Vec<T>| w.len() > 0 ==> call_requires(pick, (&w,))
    &&& forall|w: Vec<T>, k: usize| call_ensures(pick, (&w,), k) ==> k < w.len()
}

/// `weights` are the weights by which a cell of a grid is picked: the
/// cells themselves, if one of them answered that it lies above 0, and
/// otherwise a 1 for every cell.
pub open spec fn is_weights<T: From<u8> + PartialOrd>(cells: Seq<T>, weights: Seq<T>) -> bool {
    exists|zero: T|
        #![trigger small(0, zero)]
        {
            &&& small(0, zero)
            &&& weights.len() == cells.len()
            &&& {
                ||| weights == cells && exists|n: int| 0 <= n < cells.len() && above(cells[n], zero, true)
                ||| forall|n: int|
                    0 <= n < cells.len()
                        ==> above(cells[n], zero, false) && small(1, #[trigger] weights[n])
            }
        }
}

/// `point` is a cell that a weighted pick may give: the cell at the place
/// that `pick` picked among the weights of the grid's cells, counted row
/// by row.
pub open spec fn weighted<T: From<u8> + PartialOrd, P: Fn(&Vec<T>) -> usize>(
    pick: P,
    arr: Seq<Vec<T>>,
    point: (usize, usize),
) -> bool {
    exists|weights: Vec<T>, k: usize|
        {
            &&& is_weights(cells(arr), weights@)
            &&& #[trigger] call_ensures(pick, (&weights,), k)
            &&& k == point.0 * arr[0].len() + point.1
        }
}

/// Picks the cell at which the next hill grows or shrinks.
///
/// With `runaway` the cells are weighted by their values, so that high
/// cells are picked more often, and `pick` picks among the weights; where
/// no cell lies above 0 all cells weigh the same. Without `runaway` the
/// row and the column are drawn evenly from the random source.
pub fn hill_grow_next_point<T, P>(
    arr: &Vec<Vec<T>>,
    runaway: bool,
    rng: &mut rand::rngs::ThreadRng,
    pick: &P,
) -> (point: (usize, usize)) where T: Copy + From<u8> + PartialOrd, P: Fn(&Vec<T>) -> usize
    requires
        arr.len() > 0,
        arr[0].len() > 0,
        is_grid(arr@, arr.len() as int, arr[0].len() as int),
        picks_inside::<T, P>(*pick),
    ensures
        point.0 < arr.len(),
        point.1 < arr[0].len(),
        runaway ==> weighted(*pick, arr@, point),
{
    if runaway {
        let zero = T::from(0u8);
        let cols = arr[0].len();
        let mut points: Vec<(usize, usize)> = Vec::new();
        let mut weights: Vec<T> = Vec::new();
        let mut all_zero = true;
        let ghost rows = rows_view(arr@);
        let ghost mut lifted: int = 0;
        let mut i: usize = 0;
        while i < arr.len()
            invariant
                i <= arr.len(),
                cols == arr[0].len(),
                cols > 0,
                is_grid(arr@, arr.len() as int, cols as int),
                small(0, zero),
                rows == rows_view(arr@),
                weights@ == rows.take(i as int).flatten(),
                points.len() == weights.len(),
                forall|n: int|
                    0 <= n < points.len()
                        ==> (#[trigger] points[n]).0 < i && points[n].1 < cols && n
                        == points[n].0 * cols + points[n].1,
                all_zero ==> forall|n: int| 0 <= n < weights.len()
                    ==> above(#[trigger] weights[n], zero, false),
                !all_zero ==> 0 <= lifted < weights.len() && above(weights[lifted], zero, true),
                weights.len() == i * cols,
            decreases arr.len() - i,
        {
            let ghost before = weights@;
            let mut j: usize = 0;
            while j < cols
                invariant
                    i < arr.len(),
                    j <= cols,
                    cols == arr[i as int].len(),
                    small(0, zero),
                    weights@ == before + arr[i as int]@.take(j as int),
                    points.len() == weights.len(),
                    forall|n: int|
                        0 <= n < points.len()
                            ==> (#[trigger] points[n]).0 <= i && points[n].1 < cols && n
                            == points[n].0 * cols + points[n].1,
                    all_zero ==> forall|n: int|
                        0 <= n < weights.len() ==> above(#[trigger] weights[n], zero, false),
                    !all_zero ==> 0 <= lifted < weights.len() && above(weights[lifted], zero, true),
                    weights.len() == i * cols + j,
                decreases cols - j,
            {
                points.push((i, j));
                weights.push(arr[i][j]);
                if arr[i][j] > zero {
                    all_zero = false;
                    proof {
                        lifted = weights.len() - 1;
                    }
                }
                assert(weights@ =~= before + arr[i as int]@.take(j + 1));
                j += 1;
            }
            proof {
                assert(arr[i as int]@.take(cols as int) =~= arr[i as int]@);
                assert(rows.take(i + 1) =~= rows.take(i as int).push(arr[i as int]@));
                rows.take(i as int).lemma_flatten_push(arr[i as int]@);
                assert((i + 1) * cols == i * cols + cols) by (nonlinear_arith);
            }
            i += 1;
        }
        assert(rows.take(arr.len() as int) =~= rows);
        let ghost all = weights@;
        if all_zero {
            let one = T::from(1u8);
            let count = weights.len();
            weights = Vec::new();
            let mut n: usize = 0;
            while n < count
                invariant
                    n <= count,
                    weights.len() == n,
                    small(1, one),
                    forall|m: int| 0 <= m < n ==> small(1, #[trigger] weights[m]),
                decreases count - n,
            {
                weights.push(one);
                n += 1;
            }
        }
        assert(small(0, zero));
        assert(is_weights(cells(arr@), weights@));
        assert(weights.len() >= cols) by (nonlinear_arith)
            requires
                weights.len() == arr.len() * cols,
                arr.len() >= 1,
                cols >= 0,
        ;
        let k = pick(&weights);
        let point = points[k];
        assert(is_weights(cells(arr@), weights@) && call_ensures(*pick, (&weights,), k) && k
            == point.0 * arr[0].len() + point.1);
        assert(point.0 < arr.len());
        point
    } else {
        let row = gen_range(rng, 0, arr.len());
        let col = gen_range(rng, 0, arr[0].len());
        (row, col)
    }
}

/// `value` is a value that the simulation may start from: 0 where hills
/// only grow, the midpoint `1 / 2` where they may also shrink.
pub open spec fn is_start_value<T: From<u8> + Div<Output = T>>(always_grow: bool, value: T) -> bool {
    if always_grow {
        small(0, value)
    } else {
        half(value)
    }
}

/// `arr` is flat at `value`.
pub open spec fn is_flat<T>(arr: Seq<Vec<T>>, value: T) -> bool {
    forall|i: int, j: int| 0 <= i < arr.len() && 0 <= j < arr[i].len()
        ==> #[trigger] arr[i][j] == value
}

/// `arr` is a grid that the simulation may start from: flat at a start
/// value.
pub open spec fn is_start<T: From<u8> + Div<Output = T>>(arr: Seq<Vec<T>>, always_grow: bool) -> bool {
    exists|value: T| is_start_value(always_grow, value) && #[trigger] is_flat(arr, value)
}

/// A simulation that ends where it started ends at the midpoint
/// throughout, where no start value answers that it exceeds itself.
pub proof fn lemma_no_steps_is_midpoint<T>(start: Seq<Vec<T>>, arr: Seq<Vec<T>>, always_grow: bool) where
    T: From<u8> + PartialOrd + Sub<Output = T> + Div<Output = T>,

    requires
        is_start(start, always_grow),
        scaled(start, arr),
        forall|value: T, r: bool| is_start_value(always_grow, value) && above(value, value, r)
            ==> !r,
    ensures
        forall|i: int, j: int| 0 <= i < start.len() && 0 <= j < start[i].len()
            ==> half(#[trigger] arr[i][j]),
{
    let value = choose|value: T| is_start_value(always_grow, value) && #[trigger] is_flat(start, value);
    lemma_scale_of_constant(start, arr, value);
}

/// `kernel` is the plus-shaped kernel: 1 at the centre, `1 / 2` on the four
/// cells beside it, 0 in the corners.
pub open spec fn is_plus<T: From<u8> + Div<Output = T>>(kernel: Seq<Vec<T>>) -> bool {
    &&& is_kernel(kernel)
    &&& kernel.len() == 3
    &&& small(1, kernel[1][1])
    &&& half(kernel[0][1]) && half(kernel[1][0]) && half(kernel[1][2]) && half(kernel[2][1])
    &&& small(0, kernel[0][0]) && small(0, kernel[0][2]) && small(0, kernel[2][0]) && small(
        0,
        kernel[2][2],
    )
}

/// The plus-shaped kernel that is stamped where none is given.
pub fn default_kernel<T: Copy + From<u8> + Div<Output = T>>() -> (kernel: Vec<Vec<T>>)
    requires
        div_total::<T>(),
    ensures
        is_plus(kernel@),
{
    let zero = T::from(0u8);
    let one = T::from(1u8);
    let mid: T = one_half();
    let mut top: Vec<T> = Vec::new();
    top.push(zero);
    top.push(mid);
    top.push(zero);
    let mut middle: Vec<T> = Vec::new();
    middle.push(mid);
    middle.push(one);
    middle.push(mid);
    let mut bottom: Vec<T> = Vec::new();
    bottom.push(zero);
    bottom.push(mid);
    bottom.push(zero);
    let mut kernel: Vec<Vec<T>> = Vec::new();
    kernel.push(top);
    kernel.push(middle);
    kernel.push(bottom);
    kernel
}

/// Whether hills only grow: they do where that is asked for, and shrink
/// as well where nothing is said.
pub open spec fn grows_only(only_grow: Option<bool>) -> bool {
    only_grow == Some(true)
}

/// `f` is a factor that a step may scale its stamp by: a tenth to grow a
/// hill and, where hills may shrink, 0 less a tenth to shrink one.
pub open spec fn is_step_factor<T>(always_grow: bool, f: T) -> bool where
    T: From<u8> + Sub<Output = T> + Div<Output = T>,
 {
    exists|tenth: T, zero: T|
        is_factor(None::<T>, tenth) && small(0, zero) && (f == tenth || (!always_grow && subs(
            zero,
            tenth,
            f,
        )))
}

/// `after` is what one step of the simulation may make of `before`: the
/// kernel stamped on at a cell of the grid, scaled by a factor of the
/// step. With `runaway` the cell is one that a weighted pick may give.
pub open spec fn is_hill_step<T, P>(
    before: Seq<Vec<T>>,
    after: Seq<Vec<T>>,
    kernel: Seq<Vec<T>>,
    runaway: bool,
    always_grow: bool,
    pick: P,
) -> bool where
    T: From<u8> + PartialOrd + Add<Output = T> + Sub<Output = T> + Mul<Output = T> + Div<Output = T>,
    P: Fn(&Vec<T>) -> usize,
 {
    exists|point: (usize, usize), f: T|
        {
            &&& point.0 < before.len() && point.1 < before[0].len()
            &&& runaway ==> weighted(pick, before, point)
            &&& is_step_factor(always_grow, f)
            &&& #[trigger] stamped(before, after, point.0 as int, point.1 as int, kernel, f)
        }
}

/// `trace` holds the grids of a simulation, from the flat start on: each
/// grid is what one step may make of the grid before it.
pub open spec fn is_growth<T, P>(
    trace: Seq<Seq<Vec<T>>>,
    rows: int,
    cols: int,
    kernel: Seq<Vec<T>>,
    runaway: bool,
    always_grow: bool,
    pick: P,
) -> bool where
    T: From<u8> + PartialOrd + Add<Output = T> + Sub<Output = T> + Mul<Output = T> + Div<Output = T>,
    P: Fn(&Vec<T>) -> usize,
 {
    &&& trace.len() > 0
    &&& is_grid(trace[0], rows, cols)
    &&& is_start(trace[0], always_grow)
    &&& forall|t: int|
        #![trigger trace[t]]
        0 <= t < trace.len() - 1 ==> is_hill_step(
            trace[t],
            trace[t + 1],
            kernel,
            runaway,
            always_grow,
            pick,
        )
}

/// Returns a hill-grow landscape of `rows` by `cols` cells, or no rows at
/// all where either is 0.
///
/// The grid starts flat. Then, `n` times over, a cell is picked, a coin
/// decides between growing and shrinking unless hills only grow, and the
/// kernel is stamped on at the cell, scaled by a tenth or by minus a tenth.
/// At the end the grid is rescaled to the unit interval. Without a kernel
/// the plus-shaped one is stamped. A kernel that is not a square with an
/// odd side cannot be stamped: the flat grid is handed back as it started.
pub fn hill_grow<T, P>(
    rows: usize,
    cols: usize,
    n: usize,
    runaway: bool,
    kernel: Option<Vec<Vec<T>>>,
    only_grow: Option<bool>,
    pick: &P,
) -> (arr: Vec<Vec<T>>) where
    T: Copy + From<u8> + PartialOrd + Add<Output = T> + Sub<Output = T> + Mul<Output = T> + Div<
        Output = T,
    >,
    P: Fn(&Vec<T>) -> usize,

    requires
        add_total::<T>(),
        sub_total::<T>(),
        mul_total::<T>(),
        div_total::<T>(),
        picks_inside::<T, P>(*pick),
    ensures
        rows == 0 || cols == 0 ==> arr.len() == 0,
        rows > 0 && cols > 0 ==> is_grid(arr@, rows as int, cols as int),
        rows > 0 && cols > 0 && kernel.is_some() && !is_kernel(kernel.unwrap()@) ==> is_start(
            arr@,
            grows_only(only_grow),
        ),
        rows > 0 && cols > 0 && !(kernel.is_some() && !is_kernel(kernel.unwrap()@)) ==> exists|
            stamp: Seq<Vec<T>>,
            trace: Seq<Seq<Vec<T>>>,
        |
            {
                &&& kernel.is_some() ==> stamp == kernel.unwrap()@
                &&& kernel.is_none() ==> is_plus(stamp)
                &&& trace.len() == n + 1
                &&& #[trigger] is_growth(
                    trace,
                    rows as int,
                    cols as int,
                    stamp,
                    runaway,
                    grows_only(only_grow),
                    *pick,
                )
                &&& scaled(trace.last(), arr@)
            },
{
    if rows == 0 || cols == 0 {
        return Vec::new();
    }
    let always_grow = match only_grow {
        Some(flag) => flag,
        None => false,
    };
    let start = if always_grow {
        T::from(0u8)
    } else {
        one_half()
    };
    let mut arr = value_arr(rows, cols, start);
    assert(is_start_value(always_grow, start) && is_flat(arr@, start));
    let k = match kernel {
        Some(given) => given,
        None => default_kernel(),
    };
    if !valid_kernel(&k) {
        return arr;
    }
    let mut rng = rand::thread_rng();
    let one = T::from(1u8);
    let ten = T::from(10u8);
    let factor = one / ten;
    let zero = T::from(0u8);
    let shrink = zero - factor;
    assert(small(1, one) && small(10, ten) && divs(one, ten, factor));
    let mut grow = false;
    let ghost mut trace: Seq<Seq<Vec<T>>> = seq![arr@];
    let mut t: usize = 0;
    while t < n
        invariant
            t <= n,
            rows > 0 && cols > 0,
            is_kernel(k@),
            add_total::<T>(),
            mul_total::<T>(),
            div_total::<T>(),
            picks_inside::<T, P>(*pick),
            is_grid(arr@, rows as int, cols as int),
            is_factor(None::<T>, factor),
            small(0, zero),
            subs(zero, factor, shrink),
            trace.len() == t + 1,
            trace.last() == arr@,
            is_growth(trace, rows as int, cols as int, k@, runaway, always_grow, *pick),
        decreases n - t,
    {
        let ghost before = arr@;
        let (row, col) = hill_grow_next_point(&arr, runaway, &mut rng, pick);
        if !always_grow {
            grow = gen_coin(&mut rng);
        }
        let f = if always_grow || grow {
            factor
        } else {
            shrink
        };
        apply_kernel(&mut arr, row, col, &k, Some(f));
        proof {
            assert(is_step_factor(always_grow, f)) by {
                assert(is_factor(None::<T>, factor) && small(0, zero) && (f == factor || (!always_grow
                    && subs(zero, factor, f))));
            }
            assert(stamped(before, arr@, row as int, col as int, k@, f));
            assert(is_hill_step(before, arr@, k@, runaway, always_grow, *pick)) by {
                assert(weighted(*pick, before, (row, col)) || !runaway);
                assert(stamped(before, arr@, (row, col).0 as int, (row, col).1 as int, k@, f));
            }
            let longer = trace.push(arr@);
            assert forall|s: int| #![trigger longer[s]] 0 <= s < longer.len() - 1 implies is_hill_step(
                longer[s],
                longer[s + 1],
                k@,
                runaway,
                always_grow,
                *pick,
            ) by {
                if s < trace.len() - 1 {
                    assert(longer[s] == trace[s] && longer[s + 1] == trace[s + 1]);
                }
            }
            trace = longer;
        }
        t += 1;
    }
    scale(&mut arr);
    assert(always_grow == grows_only(only_grow));
    assert(is_growth(trace, rows as int, cols as int, k@, runaway, grows_only(only_grow), *pick)
        && scaled(trace.last(), arr@));
    arr
}

} // verus!
