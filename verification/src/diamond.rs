//! The fractal midpoint-displacement surface ("diamond-square").
//!
//! A surface of `2^n + 1` cells a side is refined in passes over a step
//! that halves from pass to pass. At each step the square pass gives every
//! cell of the current mesh a centre, blended from the mesh cell's corners,
//! and the diamond pass gives every mesh cell's edge a midpoint, blended
//! from the corners and centres around it.
use crate::array::{is_grid, rand_arr};
use crate::mesh::{
    diamond_pass, is_blend, is_blend_at, is_corner, is_kept_at, is_seed, is_surface, lemma_loosen,
    is_decayed, lemma_refine, node_kept, nodes_kept, square_pass,
};
use crate::cell::{
    add_total, adds, div_total, divs, half, mul_total, muls, one_half, small, sub_total, subs,
};
use std::ops::{Add, Div, Mul, Sub};
use vstd::arithmetic::div_mod::{
    lemma_fundamental_div_mod, lemma_fundamental_div_mod_converse,
};
use vstd::prelude::*;

verus! {

/// `n` is a power of two.
pub open spec fn is_pow2(n: int) -> bool
    decreases n,
{
    n == 1 || (n > 1 && n % 2 == 0 && is_pow2(n / 2))
}

/// Any power of two below another is at most half of it.
pub proof fn lemma_pow2_gap(p: int, q: int)
    requires
        is_pow2(p),
        is_pow2(q),
        p < q,
    ensures
        2 * p <= q,
    decreases q,
{
    if p > 1 {
        lemma_pow2_gap(p / 2, q / 2);
    }
}

/// A power of two divides every power of two that is no less.
pub proof fn lemma_pow2_divides(p: int, q: int)
    requires
        is_pow2(p),
        is_pow2(q),
        p <= q,
    ensures
        q % p == 0,
    decreases q,
{
    if p == q {
        lemma_fundamental_div_mod_converse(q, p, 1, 0);
    } else {
        lemma_pow2_gap(p, q);
        lemma_pow2_divides(p, q / 2);
        let k = (q / 2) / p;
        lemma_fundamental_div_mod(q / 2, p);
        assert(q == (2 * k) * p + 0) by (nonlinear_arith)
            requires
                q == 2 * (q / 2),
                q / 2 == p * k,
        ;
        lemma_fundamental_div_mod_converse(q, p, 2 * k, 0);
    }
}

/// `out` is a value that `r * disheight - (1 / 2) * disheight` may take.
pub open spec fn displaces<T>(disheight: T, r: T, out: T) -> bool where
    T: From<u8> + Mul<Output = T> + Sub<Output = T> + Div<Output = T>,
 {
    exists|h: T, a: T, b: T|
        half(h) && muls(r, disheight, a) && muls(h, disheight, b) && subs(a, b, out)
}

/// Maps the draw `r` of the unit interval to a displacement of at most half
/// of `disheight` either way.
pub fn random_displace<T>(disheight: T, r: T) -> (out: T) where
    T: Copy + From<u8> + Mul<Output = T> + Sub<Output = T> + Div<Output = T>,

    requires
        mul_total::<T>(),
        sub_total::<T>(),
        div_total::<T>(),
    ensures
        displaces(disheight, r, out),
{
    let h: T = one_half();
    let a = r * disheight;
    let b = h * disheight;
    let out = a - b;
    assert(half(h) && muls(r, disheight, a) && muls(h, disheight, b) && subs(a, b, out));
    out
}

/// `run` holds the running sums of `vals`, added up from the left onto the
/// cell type's 0.
pub open spec fn running<T: From<u8> + Add<Output = T>>(vals: Seq<T>, run: Seq<T>) -> bool {
    &&& run.len() == vals.len() + 1
    &&& small(0, run[0])
    &&& forall|k: int| 0 <= k < vals.len() ==> adds(run[k], vals[k], #[trigger] run[k + 1])
}

/// `r` is a value that the sum of `vals` may have, added up from the left
/// onto the cell type's 0.
pub open spec fn totals<T: From<u8> + Add<Output = T>>(vals: Seq<T>, r: T) -> bool {
    exists|run: Seq<T>| #[trigger] running(vals, run) && run.last() == r
}

/// Adds up `vals` from the left.
pub fn total<T: Copy + From<u8> + Add<Output = T>>(vals: &Vec<T>) -> (r: T)
    requires
        add_total::<T>(),
    ensures
        totals(vals@, r),
{
    let mut r = T::from(0u8);
    let ghost mut run: Seq<T> = seq![r];
    let mut k: usize = 0;
    while k < vals.len()
        invariant
            k <= vals.len(),
            add_total::<T>(),
            running(vals@.take(k as int), run),
            run.last() == r,
        decreases vals.len() - k,
    {
        r = r + vals[k];
        proof {
            run = run.push(r);
        }
        k += 1;
    }
    assert(vals@.take(vals.len() as int) =~= vals@);
    r
}

/// `out` is a value that the blend of `vals` may take: the mean of four
/// values displaced by the first draw of `r`, or the mean of three values
/// displaced by the second.
pub open spec fn blends<T>(vals: Seq<T>, disheight: T, r: (T, T), out: T) -> bool where
    T: From<u8> + Add<Output = T> + Mul<Output = T> + Sub<Output = T> + Div<Output = T>,
 {
    if vals.len() == 4 {
        exists|s: T, one: T, four: T, q: T, m: T, d: T|
            totals(vals, s) && small(1, one) && small(4, four) && divs(one, four, q) && muls(
                s,
                q,
                m,
            ) && displaces(disheight, r.0, d) && adds(m, d, out)
    } else if vals.len() == 3 {
        exists|s: T, three: T, m: T, d: T|
            totals(vals, s) && small(3, three) && divs(s, three, m) && displaces(
                disheight,
                r.1,
                d,
            ) && adds(m, d, out)
    } else {
        false
    }
}

/// Blends three or four values into one: their mean plus a random
/// displacement. Four values share a quarter each and take the first draw
/// of `r`; three values share a third each and take the second. Any other
/// number of values gives nothing.
pub fn displace_vals<T>(arr: &Vec<T>, disheight: T, r: (T, T)) -> (out: Option<T>) where
    T: Copy + From<u8> + Add<Output = T> + Mul<Output = T> + Sub<Output = T> + Div<Output = T>,

    requires
        add_total::<T>(),
        mul_total::<T>(),
        sub_total::<T>(),
        div_total::<T>(),
    ensures
        out.is_some() <==> arr.len() == 4 || arr.len() == 3,
        out.is_some() ==> blends(arr@, disheight, r, out.unwrap()),
{
    if arr.len() == 4 {
        let s = total(arr);
        let one = T::from(1u8);
        let four = T::from(4u8);
        let q = one / four;
        let m = s * q;
        let d = random_displace(disheight, r.0);
        let out = m + d;
        assert(totals(arr@, s) && small(1, one) && small(4, four) && divs(one, four, q) && muls(
            s,
            q,
            m,
        ) && displaces(disheight, r.0, d) && adds(m, d, out));
        return Some(out);
    } else if arr.len() == 3 {
        let s = total(arr);
        let three = T::from(3u8);
        let m = s / three;
        let d = random_displace(disheight, r.1);
        let out = m + d;
        assert(totals(arr@, s) && small(3, three) && divs(s, three, m) && displaces(
            disheight,
            r.1,
            d,
        ) && adds(m, d, out));
        return Some(out);
    }
    None
}

/// The coordinates of `coords` as mathematical integers.
pub open spec fn coords_view(coords: Seq<(i32, i32)>) -> Seq<(int, int)> {
    coords.map_values(|c: (i32, i32)| (c.0 as int, c.1 as int))
}

/// The neighbours of `(diax, diay)` at distance `i2` along the two axes,
/// in the order below, above, left, right, without the first of them that
/// is found outside a surface of `dim` cells a side. The probes run in the
/// order above, below, left, right. A site beyond `dim` has no neighbours.
pub open spec fn diamond_coords(diax: int, diay: int, dim: int, i2: int) -> Seq<(int, int)> {
    let around = seq![(diax + i2, diay), (diax - i2, diay), (diax, diay - i2), (diax, diay + i2)];
    if diax < 0 || diax > dim || diay < 0 || diay > dim {
        Seq::empty()
    } else if diax - i2 < 0 {
        around.remove(1)
    } else if diax + i2 >= dim {
        around.remove(0)
    } else if diay - i2 < 0 {
        around.remove(2)
    } else if diay + i2 >= dim {
        around.remove(3)
    } else {
        around
    }
}

/// Lists the cells that the diamond pass blends into `(diax, diay)`.
pub fn check_diamond_coords(diax: i32, diay: i32, dim: i32, i2: i32) -> (coords: Vec<(i32, i32)>)
    requires
        0 <= diax <= dim && 0 <= diay <= dim ==> {
            &&& i32::MIN <= diax - i2 <= i32::MAX
            &&& i32::MIN <= diax + i2 <= i32::MAX
            &&& i32::MIN <= diay - i2 <= i32::MAX
            &&& i32::MIN <= diay + i2 <= i32::MAX
        },
    ensures
        coords_view(coords@) == diamond_coords(diax as int, diay as int, dim as int, i2 as int),
{
    let mut coords: Vec<(i32, i32)> = Vec::new();
    if diax < 0 || diax > dim || diay < 0 || diay > dim {
    } else if diax - i2 < 0 {
        coords.push((diax + i2, diay));
        coords.push((diax, diay - i2));
        coords.push((diax, diay + i2));
    } else if diax + i2 >= dim {
        coords.push((diax - i2, diay));
        coords.push((diax, diay - i2));
        coords.push((diax, diay + i2));
    } else if diay - i2 < 0 {
        coords.push((diax + i2, diay));
        coords.push((diax - i2, diay));
        coords.push((diax, diay + i2));
    } else if diay + i2 >= dim {
        coords.push((diax + i2, diay));
        coords.push((diax - i2, diay));
        coords.push((diax, diay - i2));
    } else {
        coords.push((diax + i2, diay));
        coords.push((diax - i2, diay));
        coords.push((diax, diay - i2));
        coords.push((diax, diay + i2));
    }
    assert(coords_view(coords@) =~= diamond_coords(
        diax as int,
        diay as int,
        dim as int,
        i2 as int,
    ));
    coords
}

/// A site at which the diamond pass can blend: it lies on a surface of
/// `dim` cells a side, and along at least one axis both of its neighbours
/// at distance `mid` lie on the surface too.
pub open spec fn is_diamond_site(x: int, y: int, dim: int, mid: int) -> bool {
    &&& 0 < mid
    &&& 0 <= x < dim
    &&& 0 <= y < dim
    &&& (mid <= x && x + mid < dim) || (mid <= y && y + mid < dim)
}

/// Every cell of `coords` lies on a surface of `dim` cells a side.
pub open spec fn coords_inside(coords: Seq<(int, int)>, dim: int) -> bool {
    forall|k: int| 0 <= k < coords.len()
        ==> 0 <= (#[trigger] coords[k]).0 < dim && 0 <= coords[k].1 < dim
}

/// At a diamond site the boundary rule leaves three or four neighbours, and
/// all of them lie on the surface.
pub proof fn lemma_diamond_coords_inside(x: int, y: int, dim: int, mid: int)
    requires
        is_diamond_site(x, y, dim, mid),
    ensures
        diamond_coords(x, y, dim, mid).len() == 3 || diamond_coords(x, y, dim, mid).len() == 4,
        coords_inside(diamond_coords(x, y, dim, mid), dim),
{
}

/// The corners of the mesh cell whose first corner is `(i, j)` and whose
/// side is `inc`, as far as they lie on a surface of `dim` cells a side.
pub open spec fn square_coords(i: int, j: int, dim: int, inc: int) -> Seq<(int, int)> {
    seq![(i, j)] + (if i + inc < dim {
        seq![(i + inc, j)]
    } else {
        Seq::empty()
    }) + (if i + inc < dim && j + inc < dim {
        seq![(i + inc, j + inc)]
    } else {
        Seq::empty()
    }) + (if j + inc < dim {
        seq![(i, j + inc)]
    } else {
        Seq::empty()
    })
}

/// Lists the corners that the square pass blends into the centre of the
/// mesh cell at `(i, j)`.
pub fn check_square_coords(i: i32, j: i32, dim: i32, inc: i32) -> (coords: Vec<(i32, i32)>)
    requires
        i32::MIN <= i + inc <= i32::MAX,
        i32::MIN <= j + inc <= i32::MAX,
    ensures
        coords_view(coords@) == square_coords(i as int, j as int, dim as int, inc as int),
{
    let mut coords: Vec<(i32, i32)> = Vec::new();
    coords.push((i, j));
    if i + inc < dim {
        coords.push((i + inc, j));
        if j + inc < dim {
            coords.push((i + inc, j + inc));
        }
    }
    if j + inc < dim {
        coords.push((i, j + inc));
    }
    assert(coords_view(coords@) =~= square_coords(i as int, j as int, dim as int, inc as int));
    coords
}

/// The values that `surface` holds at `coords`, in their order.
pub open spec fn gather<T>(surface: Seq<Vec<T>>, coords: Seq<(int, int)>) -> Seq<T> {
    Seq::new(coords.len(), |k: int| surface[coords[k].0][coords[k].1])
}

/// `after` is `before` but for the cell `(x, y)`.
pub open spec fn writes_one<T>(before: Seq<Vec<T>>, after: Seq<Vec<T>>, x: int, y: int) -> bool {
    &&& after.len() == before.len()
    &&& forall|i: int| 0 <= i < before.len() ==> (#[trigger] after[i]).len() == before[i].len()
    &&& forall|i: int, j: int|
        0 <= i < before.len() && 0 <= j < before[i].len() && !(i == x && j == y)
            ==> #[trigger] after[i][j] == before[i][j]
}

/// `value` is a value that the blend of the cells of `surface` at `coords`
/// may take, displaced within `disheight` by two draws from `unit`.
pub open spec fn blended<T, F>(
    surface: Seq<Vec<T>>,
    coords: Seq<(int, int)>,
    disheight: T,
    unit: F,
    value: T,
) -> bool where
    T: From<u8> + Add<Output = T> + Mul<Output = T> + Sub<Output = T> + Div<Output = T>,
    F: Fn() -> T,
 {
    exists|r0: T, r1: T|
        call_ensures(unit, (), r0) && call_ensures(unit, (), r1) && blends(
            gather(surface, coords),
            disheight,
            (r0, r1),
            value,
        )
}

/// Writes to `(x, y)` the blend of the cells at `coords`.
fn displace_at<T, F>(
    surface: &mut Vec<Vec<T>>,
    coords: &Vec<(i32, i32)>,
    disheight: T,
    unit: &F,
    x: usize,
    y: usize,
) where
    T: Copy + From<u8> + Add<Output = T> + Mul<Output = T> + Sub<Output = T> + Div<Output = T>,
    F: Fn() -> T,

    requires
        add_total::<T>(),
        mul_total::<T>(),
        sub_total::<T>(),
        div_total::<T>(),
        call_requires(*unit, ()),
        coords.len() == 3 || coords.len() == 4,
        forall|k: int|
            0 <= k < coords.len() ==> 0 <= (#[trigger] coords[k]).0 < old(surface).len() && 0
                <= coords[k].1 < old(surface)[coords[k].0 as int].len(),
        x < old(surface).len(),
        y < old(surface)[x as int].len(),
    ensures
        writes_one(old(surface)@, final(surface)@, x as int, y as int),
        blended(
            old(surface)@,
            coords_view(coords@),
            disheight,
            *unit,
            final(surface)[x as int][y as int],
        ),
{
    let mut vals: Vec<T> = Vec::new();
    let mut k: usize = 0;
    while k < coords.len()
        invariant
            k <= coords.len(),
            surface@ == old(surface)@,
            forall|n: int|
                0 <= n < coords.len() ==> 0 <= (#[trigger] coords[n]).0 < surface.len() && 0
                    <= coords[n].1 < surface[coords[n].0 as int].len(),
            vals@ == gather(surface@, coords_view(coords@)).take(k as int),
        decreases coords.len() - k,
    {
        let c = coords[k];
        vals.push(surface[c.0 as usize][c.1 as usize]);
        assert(vals@ =~= gather(surface@, coords_view(coords@)).take(k + 1));
        k += 1;
    }
    assert(vals@ =~= gather(surface@, coords_view(coords@)));
    let r0 = unit();
    let r1 = unit();
    let value = displace_vals(&vals, disheight, (r0, r1)).unwrap();
    surface[x][y] = value;
    assert(call_ensures(*unit, (), r0) && call_ensures(*unit, (), r1) && blends(
        gather(old(surface)@, coords_view(coords@)),
        disheight,
        (r0, r1),
        value,
    ));
}

/// One step of the diamond pass: gives the site `(diax, diay)` the blend of
/// its neighbours at distance `mid`.
pub fn diamond_step<T, F>(
    surface: &mut Vec<Vec<T>>,
    disheight: T,
    mid: usize,
    dim: usize,
    unit: &F,
    diax: usize,
    diay: usize,
) where
    T: Copy + From<u8> + Add<Output = T> + Mul<Output = T> + Sub<Output = T> + Div<Output = T>,
    F: Fn() -> T,

    requires
        add_total::<T>(),
        mul_total::<T>(),
        sub_total::<T>(),
        div_total::<T>(),
        call_requires(*unit, ()),
        dim + mid <= i32::MAX,
        is_grid(old(surface)@, dim as int, dim as int),
        is_diamond_site(diax as int, diay as int, dim as int, mid as int),
    ensures
        is_grid(final(surface)@, dim as int, dim as int),
        writes_one(old(surface)@, final(surface)@, diax as int, diay as int),
        blended(
            old(surface)@,
            diamond_coords(diax as int, diay as int, dim as int, mid as int),
            disheight,
            *unit,
            final(surface)[diax as int][diay as int],
        ),
{
    let coords = check_diamond_coords(diax as i32, diay as i32, dim as i32, mid as i32);
    proof {
        lemma_diamond_coords_inside(diax as int, diay as int, dim as int, mid as int);
        assert forall|k: int| 0 <= k < coords.len() implies 0 <= (#[trigger] coords[k]).0
            < surface.len() && 0 <= coords[k].1 < surface[coords[k].0 as int].len() by {
            assert(coords_view(coords@)[k] == (coords[k].0 as int, coords[k].1 as int));
        }
    }
    displace_at(surface, &coords, disheight, unit, diax, diay);
}

/// A mesh cell of side `inc` that lies on a surface of `dim` cells a side
/// with all its corners.
pub open spec fn is_square_site(i: int, j: int, dim: int, inc: int) -> bool {
    &&& 0 < inc
    &&& 0 <= i && i + inc < dim
    &&& 0 <= j && j + inc < dim
}

/// One step of the square pass: gives the mesh cell at `(i, j)` its centre,
/// the blend of its corners.
pub fn square_step<T, F>(
    surface: &mut Vec<Vec<T>>,
    disheight: T,
    inc: usize,
    dim: usize,
    unit: &F,
    i: usize,
    j: usize,
) where
    T: Copy + From<u8> + Add<Output = T> + Mul<Output = T> + Sub<Output = T> + Div<Output = T>,
    F: Fn() -> T,

    requires
        add_total::<T>(),
        mul_total::<T>(),
        sub_total::<T>(),
        div_total::<T>(),
        call_requires(*unit, ()),
        dim <= i32::MAX,
        is_grid(old(surface)@, dim as int, dim as int),
        is_square_site(i as int, j as int, dim as int, inc as int),
    ensures
        is_grid(final(surface)@, dim as int, dim as int),
        writes_one(old(surface)@, final(surface)@, i + inc / 2, j + inc / 2),
        blended(
            old(surface)@,
            square_coords(i as int, j as int, dim as int, inc as int),
            disheight,
            *unit,
            final(surface)[i + inc / 2][j + inc / 2],
        ),
{
    let coords = check_square_coords(i as i32, j as i32, dim as i32, inc as i32);
    proof {
        assert(square_coords(i as int, j as int, dim as int, inc as int) =~= seq![
            (i as int, j as int),
            (i + inc, j as int),
            (i + inc, j + inc),
            (i as int, j + inc),
        ]);
        assert(coords_view(coords@).len() == 4);
        assert forall|k: int| 0 <= k < coords.len() implies 0 <= (#[trigger] coords[k]).0
            < surface.len() && 0 <= coords[k].1 < surface[coords[k].0 as int].len() by {
            assert(coords_view(coords@)[k] == (coords[k].0 as int, coords[k].1 as int));
        }
    }
    let mid = inc / 2;
    displace_at(surface, &coords, disheight, unit, i + mid, j + mid);
}

/// Halving the step doubles the number of mesh cells a side.
proof fn lemma_finer_mesh(cells: int, inc: int)
    by (nonlinear_arith)
    requires
        inc % 2 == 0,
    ensures
        (cells * 2) * (inc / 2) == cells * inc,
{
}

/// The displacement heights down to the step `inc` are in `heights`, and
/// no others: 2 at the first step, `dim - 1`, and at every other step what
/// `decay` made of the height of the step before.
spec fn decays_to<T: From<u8>, D: Fn(T) -> T>(decay: D, heights: Map<int, T>, dim: int, inc: int) -> bool {
    &&& heights.dom().contains(dim - 1)
    &&& small(2, heights[dim - 1])
    &&& forall|k: int| #[trigger] heights.dom().contains(k) ==> inc <= k
    &&& forall|step: int|
        is_pow2(step) && inc <= step && 2 * step <= dim - 1 ==> #[trigger] is_decayed(
            decay,
            heights,
            step,
        )
}

/// Returns a fractal surface of `dim` by `dim` cells.
///
/// The surface starts as draws from `unit`, spread over the first
/// displacement height, 2. Then the step runs from `dim - 1` down to 2 by
/// halving: at each step the square pass and the diamond pass blend new
/// values into the mesh, and `decay` turns the displacement height into
/// that of the next step. The four corners stay as they were seeded, and
/// every other cell ends as the blend of the cells that its step names.
pub fn diamond_square<T, F, D>(dim: usize, unit: &F, decay: &D) -> (surface: Vec<Vec<T>>) where
    T: Copy + From<u8> + Add<Output = T> + Mul<Output = T> + Sub<Output = T> + Div<Output = T>,
    F: Fn() -> T,
    D: Fn(T) -> T,

    requires
        is_pow2(dim - 1),
        dim + dim / 2 <= i32::MAX,
        add_total::<T>(),
        mul_total::<T>(),
        sub_total::<T>(),
        div_total::<T>(),
        call_requires(*unit, ()),
        forall|h: T| call_requires(*decay, (h,)),
    ensures
        exists|heights: Map<int, T>| #[trigger]
            is_surface(surface@, dim as int, *unit, *decay, heights),
{
    let mut disheight = T::from(2u8);
    let mut surface = rand_arr(dim, dim, unit);
    let mut i: usize = 0;
    while i < dim
        invariant
            i <= dim,
            mul_total::<T>(),
            sub_total::<T>(),
            div_total::<T>(),
            is_grid(surface@, dim as int, dim as int),
            forall|a: int, b: int|
                i <= a < dim && 0 <= b < dim ==> call_ensures(*unit, (), #[trigger] surface[a][b]),
            forall|a: int, b: int|
                0 <= a < i && 0 <= b < dim ==> is_seed(*unit, disheight, #[trigger] surface[a][b]),
        decreases dim - i,
    {
        let mut j: usize = 0;
        while j < dim
            invariant
                i < dim,
                j <= dim,
                mul_total::<T>(),
                sub_total::<T>(),
                div_total::<T>(),
                is_grid(surface@, dim as int, dim as int),
                forall|a: int, b: int|
                    i < a < dim && 0 <= b < dim
                        ==> call_ensures(*unit, (), #[trigger] surface[a][b]),
                forall|b: int|
                    j <= b < dim ==> call_ensures(*unit, (), #[trigger] surface[i as int][b]),
                forall|a: int, b: int|
                    0 <= a < i && 0 <= b < dim ==> is_seed(
                        *unit,
                        disheight,
                        #[trigger] surface[a][b],
                    ),
                forall|b: int|
                    0 <= b < j ==> is_seed(*unit, disheight, #[trigger] surface[i as int][b]),
            decreases dim - j,
        {
            let draw = surface[i][j];
            let seed = random_displace(disheight, draw);
            assert(call_ensures(*unit, (), draw) && displaces(disheight, draw, seed));
            surface[i][j] = seed;
            j += 1;
        }
        i += 1;
    }
    let mut inc: usize = dim - 1;
    let ghost mut cells: int = 1;
    let ghost mut heights: Map<int, T> = Map::empty().insert(dim - 1, disheight);
    while inc > 1
        invariant
            is_pow2(inc as int),
            dim >= 2,
            cells >= 1,
            dim - 1 == cells * inc,
            dim + dim / 2 <= i32::MAX,
            add_total::<T>(),
            mul_total::<T>(),
            sub_total::<T>(),
            div_total::<T>(),
            call_requires(*unit, ()),
            forall|h: T| call_requires(*decay, (h,)),
            is_grid(surface@, dim as int, dim as int),
            decays_to(*decay, heights, dim as int, inc as int),
            heights.dom().contains(inc as int),
            heights[inc as int] == disheight,
            is_seed(*unit, heights[dim - 1], surface[0][0]),
            is_seed(*unit, heights[dim - 1], surface[0][dim - 1]),
            is_seed(*unit, heights[dim - 1], surface[dim - 1][0]),
            is_seed(*unit, heights[dim - 1], surface[dim - 1][dim - 1]),
            nodes_kept(surface@, dim as int, *unit, heights, inc as int, cells, false),
        decreases inc,
    {
        square_pass(&mut surface, disheight, inc, dim, unit, Ghost(cells), Ghost(heights));
        proof {
            lemma_loosen(surface@, dim as int, *unit, heights, inc as int, cells);
        }
        diamond_pass(&mut surface, disheight, inc, dim, unit, Ghost(cells), Ghost(heights));
        let next = decay(disheight);
        proof {
            let finer = heights.insert((inc / 2) as int, next);
            lemma_refine(surface@, dim as int, *unit, heights, finer, inc as int, cells);
            lemma_finer_mesh(cells, inc as int);
            assert(decays_to(*decay, finer, dim as int, (inc / 2) as int)) by {
                assert forall|step: int|
                    is_pow2(step) && inc / 2 <= step && 2 * step <= dim - 1 implies #[trigger] is_decayed(
                    *decay,
                    finer,
                    step,
                ) by {
                    if step < inc {
                        lemma_pow2_between(step, inc as int);
                        assert(finer[2 * step] == disheight);
                        assert(finer[step] == next);
                    } else {
                        assert(is_decayed(*decay, heights, step));
                    }
                }
                assert(finer[dim - 1] == heights[dim - 1]);
            }
            heights = finer;
            cells = cells * 2;
        }
        disheight = next;
        inc = inc / 2;
    }
    proof {
        assert(inc == 1);
        assert(cells == dim - 1) by (nonlinear_arith)
            requires
                dim - 1 == cells * inc,
                inc == 1,
        ;
        assert(is_surface(surface@, dim as int, *unit, *decay, heights)) by {
            assert forall|x: int, y: int|
                0 <= x < dim && 0 <= y < dim && !is_corner(x, y, dim as int) implies #[trigger] is_blend(
                surface@,
                dim as int,
                *unit,
                heights,
                x,
                y,
            ) by {
                assert(node_kept(surface@, dim as int, *unit, heights, inc as int, x, y, false));
                let made = choose|made: int| #[trigger]
                    is_kept_at(surface@, dim as int, *unit, heights, x, y, made, 1, false);
                assert(is_blend_at(surface@, dim as int, *unit, heights, x, y, made));
            }
        }
    }
    surface
}

/// No power of two lies strictly between a power of two and its half.
proof fn lemma_pow2_between(step: int, inc: int)
    requires
        is_pow2(step),
        is_pow2(inc),
        inc >= 2,
        inc / 2 <= step < inc,
    ensures
        step == inc / 2,
    decreases inc,
{
    if step > 1 {
        lemma_pow2_between(step / 2, inc / 2);
    }
}

} // verus!
