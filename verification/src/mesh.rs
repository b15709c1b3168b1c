//! The mesh that the fractal surface is refined on, and the two passes
//! over it.
//!
//! At the step `inc` the surface carries a mesh of nodes `inc` apart. The
//! square pass writes the centre of every mesh cell and the diamond pass
//! the midpoint of every edge, and after both the surface carries the mesh
//! of the half step. A value, once written, is read by later steps and
//! never changed by them: in the end every cell but the four corners is
//! the blend of the cells that its step names, as they stand in the
//! finished surface.
use crate::array::is_grid;
use crate::cell::{add_total, div_total, mul_total, small, sub_total};
use crate::diamond::{
    blended, coords_inside, diamond_coords, diamond_step, displaces, gather, is_diamond_site,
    is_pow2, lemma_diamond_coords_inside, lemma_pow2_divides, lemma_pow2_gap, square_coords,
    square_step, writes_one,
};
use std::ops::{Add, Div, Mul, Sub};
use vstd::arithmetic::div_mod::{lemma_fundamental_div_mod, lemma_fundamental_div_mod_converse};
use vstd::prelude::*;

verus! {

/// `(x, y)` is a node of the mesh of step `inc`.
pub open spec fn is_node(x: int, y: int, inc: int) -> bool {
    x % inc == 0 && y % inc == 0
}

/// `(x, y)` is the centre of a cell of the mesh of step `inc`.
pub open spec fn is_centre(x: int, y: int, inc: int) -> bool {
    x % inc == inc / 2 && y % inc == inc / 2
}

/// `(x, y)` is the midpoint of an edge of the mesh of step `inc`.
pub open spec fn is_edge(x: int, y: int, inc: int) -> bool {
    (x % inc == inc / 2 && y % inc == 0) || (x % inc == 0 && y % inc == inc / 2)
}

/// `(x, y)` is one of the four corners of a surface of `dim` cells a side.
pub open spec fn is_corner(x: int, y: int, dim: int) -> bool {
    (x == 0 || x == dim - 1) && (y == 0 || y == dim - 1)
}

/// The cells that the passes at step `inc` blend into `(x, y)`: the
/// corners of its mesh cell for a centre, and its neighbours at half a
/// step for the midpoint of an edge.
pub open spec fn sources(x: int, y: int, dim: int, inc: int) -> Seq<(int, int)> {
    if is_centre(x, y, inc) {
        square_coords(x - inc / 2, y - inc / 2, dim, inc)
    } else {
        diamond_coords(x, y, dim, inc / 2)
    }
}

/// The cell `(x, y)` of `surface` is a blend made at step `inc`: the step
/// writes the cell, and the cell holds a value that the blend of its
/// sources, as they stand in `surface`, may take at the step's
/// displacement height.
pub open spec fn is_blend_at<T, F>(
    surface: Seq<Vec<T>>,
    dim: int,
    unit: F,
    heights: Map<int, T>,
    x: int,
    y: int,
    inc: int,
) -> bool where
    T: From<u8> + Add<Output = T> + Mul<Output = T> + Sub<Output = T> + Div<Output = T>,
    F: Fn() -> T,
 {
    &&& is_pow2(inc)
    &&& 2 <= inc <= dim - 1
    &&& 0 <= x < dim
    &&& 0 <= y < dim
    &&& is_centre(x, y, inc) || is_edge(x, y, inc)
    &&& coords_inside(sources(x, y, dim, inc), dim)
    &&& heights.dom().contains(inc)
    &&& blended(surface, sources(x, y, dim, inc), heights[inc], unit, surface[x][y])
}

/// The cell `(x, y)` of `surface` is a blend made at some step.
pub open spec fn is_blend<T, F>(
    surface: Seq<Vec<T>>,
    dim: int,
    unit: F,
    heights: Map<int, T>,
    x: int,
    y: int,
) -> bool where
    T: From<u8> + Add<Output = T> + Mul<Output = T> + Sub<Output = T> + Div<Output = T>,
    F: Fn() -> T,
 {
    exists|inc: int| #[trigger] is_blend_at(surface, dim, unit, heights, x, y, inc)
}

/// `value` is a value that a seed may take: a draw from `unit`, spread
/// over the displacement height `height`.
pub open spec fn is_seed<T, F>(unit: F, height: T, value: T) -> bool where
    T: From<u8> + Mul<Output = T> + Sub<Output = T> + Div<Output = T>,
    F: Fn() -> T,
 {
    exists|draw: T| call_ensures(unit, (), draw) && displaces(height, draw, value)
}

/// The height of the step `inc` is what `decay` made of the height of the
/// step before it, `2 * inc`.
pub open spec fn is_decayed<T, D: Fn(T) -> T>(decay: D, heights: Map<int, T>, inc: int) -> bool {
    &&& heights.dom().contains(inc)
    &&& heights.dom().contains(2 * inc)
    &&& call_ensures(decay, (heights[2 * inc],), heights[inc])
}

/// `heights` holds the displacement height of every step of a surface of
/// `dim` cells a side: 2 at the first step, `dim - 1`, and at every other
/// step what `decay` made of the height of the step before.
pub open spec fn decays<T: From<u8>, D: Fn(T) -> T>(decay: D, heights: Map<int, T>, dim: int) -> bool {
    &&& heights.dom().contains(dim - 1)
    &&& small(2, heights[dim - 1])
    &&& forall|inc: int|
        is_pow2(inc) && 2 <= inc && 2 * inc <= dim - 1
            ==> #[trigger] is_decayed(decay, heights, inc)
}

/// `surface` is a fractal surface of `dim` cells a side with the
/// displacement heights `heights`: its corners are seeds, and every other
/// cell is a blend.
pub open spec fn is_surface<T, F, D>(
    surface: Seq<Vec<T>>,
    dim: int,
    unit: F,
    decay: D,
    heights: Map<int, T>,
) -> bool where
    T: From<u8> + Add<Output = T> + Mul<Output = T> + Sub<Output = T> + Div<Output = T>,
    F: Fn() -> T,
    D: Fn(T) -> T,
 {
    &&& is_grid(surface, dim, dim)
    &&& decays(decay, heights, dim)
    &&& forall|x: int, y: int|
        0 <= x < dim && 0 <= y < dim && is_corner(x, y, dim) ==> is_seed(
            unit,
            heights[dim - 1],
            #[trigger] surface[x][y],
        )
    &&& forall|x: int, y: int|
        0 <= x < dim && 0 <= y < dim && !is_corner(x, y, dim) ==> #[trigger] is_blend(
            surface,
            dim,
            unit,
            heights,
            x,
            y,
        )
}

/// Every cell of `coords` is a node of the mesh of step `inc`.
pub open spec fn all_nodes(coords: Seq<(int, int)>, inc: int) -> bool {
    forall|k: int| 0 <= k < coords.len() ==> is_node((#[trigger] coords[k]).0, coords[k].1, inc)
}

/// Every cell of `coords` is a node or a centre of the mesh of step
/// `inc`.
pub open spec fn no_edges(coords: Seq<(int, int)>, inc: int) -> bool {
    forall|k: int|
        0 <= k < coords.len() ==> is_node((#[trigger] coords[k]).0, coords[k].1, inc) || is_centre(
            coords[k].0,
            coords[k].1,
            inc,
        )
}

/// The cell `(x, y)` is a blend made at step `inc`, and the passes at the
/// step `at` leave its sources alone: the square pass where the sources
/// are all nodes of that step, and the diamond pass also where some are
/// centres.
pub open spec fn is_kept_at<T, F>(
    surface: Seq<Vec<T>>,
    dim: int,
    unit: F,
    heights: Map<int, T>,
    x: int,
    y: int,
    inc: int,
    at: int,
    loose: bool,
) -> bool where
    T: From<u8> + Add<Output = T> + Mul<Output = T> + Sub<Output = T> + Div<Output = T>,
    F: Fn() -> T,
 {
    &&& is_blend_at(surface, dim, unit, heights, x, y, inc)
    &&& if loose {
        no_edges(sources(x, y, dim, inc), at)
    } else {
        all_nodes(sources(x, y, dim, inc), at)
    }
}

/// The cell `(x, y)` is a blend that the passes at the step `at` leave
/// alone.
pub open spec fn is_kept<T, F>(
    surface: Seq<Vec<T>>,
    dim: int,
    unit: F,
    heights: Map<int, T>,
    x: int,
    y: int,
    at: int,
    loose: bool,
) -> bool where
    T: From<u8> + Add<Output = T> + Mul<Output = T> + Sub<Output = T> + Div<Output = T>,
    F: Fn() -> T,
 {
    exists|inc: int| #[trigger] is_kept_at(surface, dim, unit, heights, x, y, inc, at, loose)
}

/// The multiples of a step are nodes of its mesh, and the points half a
/// step after them lie half a step off it.
pub proof fn lemma_residues(a: int, inc: int)
    requires
        inc >= 2,
        inc % 2 == 0,
    ensures
        (a * inc) % inc == 0,
        (a * inc + inc / 2) % inc == inc / 2,
{
    lemma_fundamental_div_mod_converse(a * inc, inc, a, 0);
    lemma_fundamental_div_mod_converse(a * inc + inc / 2, inc, a, inc / 2);
}

/// What lies on the mesh of a step or half a step off it lies on the mesh
/// of the half step.
pub proof fn lemma_finer(p: int, inc: int)
    requires
        inc >= 2,
        inc % 2 == 0,
        p % inc == 0 || p % inc == inc / 2,
    ensures
        p % (inc / 2) == 0,
{
    let mid = inc / 2;
    let q = p / inc;
    lemma_fundamental_div_mod(p, inc);
    if p % inc == 0 {
        assert(p == (2 * q) * mid + 0) by (nonlinear_arith)
            requires
                p == inc * q,
                inc == 2 * mid,
        ;
        lemma_fundamental_div_mod_converse(p, mid, 2 * q, 0);
    } else {
        assert(p == (2 * q + 1) * mid + 0) by (nonlinear_arith)
            requires
                p == inc * q + mid,
                inc == 2 * mid,
        ;
        lemma_fundamental_div_mod_converse(p, mid, 2 * q + 1, 0);
    }
}

/// A blend whose sources a write leaves alone is a blend after the write
/// as it was before.
proof fn lemma_keep_one<T, F>(
    before: Seq<Vec<T>>,
    after: Seq<Vec<T>>,
    dim: int,
    unit: F,
    heights: Map<int, T>,
    x: int,
    y: int,
    inc: int,
    at: int,
    loose: bool,
    tx: int,
    ty: int,
) where
    T: From<u8> + Add<Output = T> + Mul<Output = T> + Sub<Output = T> + Div<Output = T>,
    F: Fn() -> T,

    requires
        is_grid(before, dim, dim),
        writes_one(before, after, tx, ty),
        is_kept_at(before, dim, unit, heights, x, y, inc, at, loose),
        !(x == tx && y == ty),
        forall|k: int|
            0 <= k < sources(x, y, dim, inc).len() ==> #[trigger] sources(x, y, dim, inc)[k] != (
                tx,
                ty,
            ),
    ensures
        is_kept_at(after, dim, unit, heights, x, y, inc, at, loose),
{
    let coords = sources(x, y, dim, inc);
    assert(gather(after, coords) =~= gather(before, coords));
}

/// A pass that writes a cell of its own kind, and leaves a blend there,
/// keeps every blend that stood on the surface.
proof fn lemma_keep_all<T, F>(
    before: Seq<Vec<T>>,
    after: Seq<Vec<T>>,
    dim: int,
    unit: F,
    heights: Map<int, T>,
    at: int,
    loose: bool,
    tx: int,
    ty: int,
) where
    T: From<u8> + Add<Output = T> + Mul<Output = T> + Sub<Output = T> + Div<Output = T>,
    F: Fn() -> T,

    requires
        at >= 2,
        at % 2 == 0,
        is_grid(before, dim, dim),
        writes_one(before, after, tx, ty),
        if loose {
            is_edge(tx, ty, at)
        } else {
            is_centre(tx, ty, at)
        },
        is_kept(after, dim, unit, heights, tx, ty, at, loose),
    ensures
        forall|x: int, y: int| #[trigger]
            is_kept(before, dim, unit, heights, x, y, at, loose) ==> is_kept(
                after,
                dim,
                unit,
                heights,
                x,
                y,
                at,
                loose,
            ),
{
    assert forall|x: int, y: int| #[trigger]
        is_kept(before, dim, unit, heights, x, y, at, loose) implies is_kept(
        after,
        dim,
        unit,
        heights,
        x,
        y,
        at,
        loose,
    ) by {
        if !(x == tx && y == ty) {
            let inc = choose|inc: int| #[trigger]
                is_kept_at(before, dim, unit, heights, x, y, inc, at, loose);
            let coords = sources(x, y, dim, inc);
            assert forall|k: int| 0 <= k < coords.len() implies #[trigger] coords[k] != (tx, ty) by {
                assert(is_node(coords[k].0, coords[k].1, at) || is_centre(
                    coords[k].0,
                    coords[k].1,
                    at,
                ));
            }
            lemma_keep_one(before, after, dim, unit, heights, x, y, inc, at, loose, tx, ty);
        }
    }
}

/// The mesh cell `(u, v)` comes before the mesh cell `(a, b)` when the
/// mesh is walked row by row.
pub open spec fn earlier(u: int, v: int, a: int, b: int) -> bool {
    u < a || (u == a && v < b)
}

/// The node `(u, v)` of the mesh is kept.
pub open spec fn node_kept<T, F>(
    surface: Seq<Vec<T>>,
    dim: int,
    unit: F,
    heights: Map<int, T>,
    inc: int,
    u: int,
    v: int,
    loose: bool,
) -> bool where
    T: From<u8> + Add<Output = T> + Mul<Output = T> + Sub<Output = T> + Div<Output = T>,
    F: Fn() -> T,
 {
    is_kept(surface, dim, unit, heights, u * inc, v * inc, inc, loose)
}

/// The centre of the mesh cell `(u, v)` is kept.
pub open spec fn centre_kept<T, F>(
    surface: Seq<Vec<T>>,
    dim: int,
    unit: F,
    heights: Map<int, T>,
    inc: int,
    u: int,
    v: int,
    loose: bool,
) -> bool where
    T: From<u8> + Add<Output = T> + Mul<Output = T> + Sub<Output = T> + Div<Output = T>,
    F: Fn() -> T,
 {
    is_kept(surface, dim, unit, heights, u * inc + inc / 2, v * inc + inc / 2, inc, loose)
}

/// The midpoint of the edge that runs down from the node `(u, v)` is kept.
pub open spec fn down_kept<T, F>(
    surface: Seq<Vec<T>>,
    dim: int,
    unit: F,
    heights: Map<int, T>,
    inc: int,
    u: int,
    v: int,
) -> bool where
    T: From<u8> + Add<Output = T> + Mul<Output = T> + Sub<Output = T> + Div<Output = T>,
    F: Fn() -> T,
 {
    is_kept(surface, dim, unit, heights, u * inc + inc / 2, v * inc, inc, true)
}

/// The midpoint of the edge that runs across from the node `(u, v)` is
/// kept.
pub open spec fn across_kept<T, F>(
    surface: Seq<Vec<T>>,
    dim: int,
    unit: F,
    heights: Map<int, T>,
    inc: int,
    u: int,
    v: int,
) -> bool where
    T: From<u8> + Add<Output = T> + Mul<Output = T> + Sub<Output = T> + Div<Output = T>,
    F: Fn() -> T,
 {
    is_kept(surface, dim, unit, heights, u * inc, v * inc + inc / 2, inc, true)
}

/// Every node of the mesh but the four corners is kept.
pub open spec fn nodes_kept<T, F>(
    surface: Seq<Vec<T>>,
    dim: int,
    unit: F,
    heights: Map<int, T>,
    inc: int,
    cells: int,
    loose: bool,
) -> bool where
    T: From<u8> + Add<Output = T> + Mul<Output = T> + Sub<Output = T> + Div<Output = T>,
    F: Fn() -> T,
 {
    forall|u: int, v: int|
        0 <= u <= cells && 0 <= v <= cells && !((u == 0 || u == cells) && (v == 0 || v == cells))
            ==> #[trigger] node_kept(surface, dim, unit, heights, inc, u, v, loose)
}

/// The centre of every mesh cell before `(a, b)` is kept.
pub open spec fn centres_kept<T, F>(
    surface: Seq<Vec<T>>,
    dim: int,
    unit: F,
    heights: Map<int, T>,
    inc: int,
    cells: int,
    a: int,
    b: int,
    loose: bool,
) -> bool where
    T: From<u8> + Add<Output = T> + Mul<Output = T> + Sub<Output = T> + Div<Output = T>,
    F: Fn() -> T,
 {
    forall|u: int, v: int|
        0 <= u < cells && 0 <= v < cells && earlier(u, v, a, b) ==> #[trigger] centre_kept(
            surface,
            dim,
            unit,
            heights,
            inc,
            u,
            v,
            loose,
        )
}

/// The midpoint of every edge that runs down the side of a mesh cell
/// before `(a, b)` is kept.
pub open spec fn downs_kept<T, F>(
    surface: Seq<Vec<T>>,
    dim: int,
    unit: F,
    heights: Map<int, T>,
    inc: int,
    cells: int,
    a: int,
    b: int,
) -> bool where
    T: From<u8> + Add<Output = T> + Mul<Output = T> + Sub<Output = T> + Div<Output = T>,
    F: Fn() -> T,
 {
    forall|u: int, v: int|
        0 <= u < cells && 0 <= v <= cells && ((v >= 1 && earlier(u, v - 1, a, b)) || (v < cells
            && earlier(u, v, a, b)))
                ==> #[trigger] down_kept(surface, dim, unit, heights, inc, u, v)
}

/// The midpoint of every edge that runs across the side of a mesh cell
/// before `(a, b)` is kept.
pub open spec fn acrosses_kept<T, F>(
    surface: Seq<Vec<T>>,
    dim: int,
    unit: F,
    heights: Map<int, T>,
    inc: int,
    cells: int,
    a: int,
    b: int,
) -> bool where
    T: From<u8> + Add<Output = T> + Mul<Output = T> + Sub<Output = T> + Div<Output = T>,
    F: Fn() -> T,
 {
    forall|u: int, v: int|
        0 <= u <= cells && 0 <= v < cells && ((u >= 1 && earlier(u - 1, v, a, b)) || (u < cells
            && earlier(u, v, a, b))) ==> #[trigger] across_kept(
            surface,
            dim,
            unit,
            heights,
            inc,
            u,
            v,
        )
}

/// `after` has the corners of `before`.
pub open spec fn same_corners<T>(before: Seq<Vec<T>>, after: Seq<Vec<T>>, dim: int) -> bool {
    &&& after[0][0] == before[0][0]
    &&& after[0][dim - 1] == before[0][dim - 1]
    &&& after[dim - 1][0] == before[dim - 1][0]
    &&& after[dim - 1][dim - 1] == before[dim - 1][dim - 1]
}

/// The place of the mesh cell `(a, b)` on the surface.
proof fn lemma_mesh_cell(a: int, cells: int, inc: int)
    by (nonlinear_arith)
    requires
        0 <= a < cells,
        0 < inc,
    ensures
        0 <= a * inc,
        (a + 1) * inc == a * inc + inc,
        (a - 1) * inc == a * inc - inc,
        a * inc + inc <= cells * inc,
{
}

/// The centre that the square pass has written holds a blend of the
/// corners of its mesh cell.
proof fn lemma_centre_made<T, F>(
    before: Seq<Vec<T>>,
    after: Seq<Vec<T>>,
    dim: int,
    unit: F,
    heights: Map<int, T>,
    inc: int,
    cells: int,
    a: int,
    b: int,
) where
    T: From<u8> + Add<Output = T> + Mul<Output = T> + Sub<Output = T> + Div<Output = T>,
    F: Fn() -> T,

    requires
        is_pow2(inc),
        inc >= 2,
        dim - 1 == cells * inc,
        0 <= a < cells,
        0 <= b < cells,
        is_grid(before, dim, dim),
        heights.dom().contains(inc),
        writes_one(before, after, a * inc + inc / 2, b * inc + inc / 2),
        blended(
            before,
            square_coords(a * inc, b * inc, dim, inc),
            heights[inc],
            unit,
            after[a * inc + inc / 2][b * inc + inc / 2],
        ),
    ensures
        is_centre(a * inc + inc / 2, b * inc + inc / 2, inc),
        centre_kept(after, dim, unit, heights, inc, a, b, false),
{
    let mid = inc / 2;
    let i = a * inc;
    let j = b * inc;
    lemma_mesh_cell(a, cells, inc);
    lemma_mesh_cell(b, cells, inc);
    lemma_residues(a, inc);
    lemma_residues(b, inc);
    lemma_residues(a + 1, inc);
    lemma_residues(b + 1, inc);
    let coords = square_coords(i, j, dim, inc);
    assert(coords =~= seq![(i, j), (i + inc, j), (i + inc, j + inc), (i, j + inc)]);
    assert(sources(i + mid, j + mid, dim, inc) == coords);
    assert(gather(after, coords) =~= gather(before, coords));
    assert(is_kept_at(after, dim, unit, heights, i + mid, j + mid, inc, inc, false));
}

/// The midpoint that the diamond pass has written holds a blend of its
/// neighbours at half a step.
proof fn lemma_edge_made<T, F>(
    before: Seq<Vec<T>>,
    after: Seq<Vec<T>>,
    dim: int,
    unit: F,
    heights: Map<int, T>,
    inc: int,
    cells: int,
    u: int,
    v: int,
    down: bool,
) where
    T: From<u8> + Add<Output = T> + Mul<Output = T> + Sub<Output = T> + Div<Output = T>,
    F: Fn() -> T,

    requires
        is_pow2(inc),
        inc >= 2,
        dim - 1 == cells * inc,
        0 <= u <= cells,
        0 <= v <= cells,
        if down {
            u < cells
        } else {
            v < cells
        },
        is_grid(before, dim, dim),
        heights.dom().contains(inc),
        ({
            let tx = if down {
                u * inc + inc / 2
            } else {
                u * inc
            };
            let ty = if down {
                v * inc
            } else {
                v * inc + inc / 2
            };
            writes_one(before, after, tx, ty) && blended(
                before,
                diamond_coords(tx, ty, dim, inc / 2),
                heights[inc],
                unit,
                after[tx][ty],
            )
        }),
    ensures
        down ==> is_edge(u * inc + inc / 2, v * inc, inc) && down_kept(
            after,
            dim,
            unit,
            heights,
            inc,
            u,
            v,
        ),
        !down ==> is_edge(u * inc, v * inc + inc / 2, inc) && across_kept(
            after,
            dim,
            unit,
            heights,
            inc,
            u,
            v,
        ),
{
    let mid = inc / 2;
    let tx = if down {
        u * inc + mid
    } else {
        u * inc
    };
    let ty = if down {
        v * inc
    } else {
        v * inc + mid
    };
    assert(0 <= u * inc <= cells * inc && (u + 1) * inc == u * inc + inc && (u - 1) * inc == u * inc
        - inc) by (nonlinear_arith)
        requires
            0 <= u <= cells,
            0 < inc,
    ;
    assert(0 <= v * inc <= cells * inc && (v + 1) * inc == v * inc + inc && (v - 1) * inc == v * inc
        - inc) by (nonlinear_arith)
        requires
            0 <= v <= cells,
            0 < inc,
    ;
    if down {
        lemma_mesh_cell(u, cells, inc);
    } else {
        lemma_mesh_cell(v, cells, inc);
    }
    lemma_residues(u, inc);
    lemma_residues(v, inc);
    lemma_residues(u + 1, inc);
    lemma_residues(v + 1, inc);
    lemma_residues(u - 1, inc);
    lemma_residues(v - 1, inc);
    assert(is_edge(tx, ty, inc));
    assert(is_diamond_site(tx, ty, dim, mid));
    lemma_diamond_coords_inside(tx, ty, dim, mid);
    let coords = diamond_coords(tx, ty, dim, mid);
    assert(sources(tx, ty, dim, inc) == coords);
    let around = seq![(tx + mid, ty), (tx - mid, ty), (tx, ty - mid), (tx, ty + mid)];
    assert forall|k: int| 0 <= k < coords.len() implies (is_node(
        (#[trigger] coords[k]).0,
        coords[k].1,
        inc,
    ) || is_centre(coords[k].0, coords[k].1, inc)) && coords[k] != (tx, ty) by {
        assert(exists|n: int| 0 <= n < 4 && coords[k] == around[n]);
    }
    assert(gather(after, coords) =~= gather(before, coords));
    assert(is_kept_at(after, dim, unit, heights, tx, ty, inc, inc, true));
}

/// The end of a row of the mesh.
proof fn lemma_row_end(b: int, cells: int, inc: int)
    by (nonlinear_arith)
    requires
        0 <= b <= cells,
        0 < inc,
        b * inc >= cells * inc,
    ensures
        b == cells,
{
}

/// The square pass at step `inc`: gives every cell of the mesh its centre,
/// row by row.
pub(crate) fn square_pass<T, F>(
    surface: &mut Vec<Vec<T>>,
    disheight: T,
    inc: usize,
    dim: usize,
    unit: &F,
    Ghost(cells): Ghost<int>,
    Ghost(heights): Ghost<Map<int, T>>,
) where
    T: Copy + From<u8> + Add<Output = T> + Mul<Output = T> + Sub<Output = T> + Div<Output = T>,
    F: Fn() -> T,

    requires
        add_total::<T>(),
        mul_total::<T>(),
        sub_total::<T>(),
        div_total::<T>(),
        call_requires(*unit, ()),
        dim <= i32::MAX,
        is_grid(old(surface)@, dim as int, dim as int),
        is_pow2(inc as int),
        inc >= 2,
        cells >= 1,
        dim - 1 == cells * inc,
        heights.dom().contains(inc as int),
        heights[inc as int] == disheight,
        nodes_kept(old(surface)@, dim as int, *unit, heights, inc as int, cells, false),
    ensures
        is_grid(final(surface)@, dim as int, dim as int),
        same_corners(old(surface)@, final(surface)@, dim as int),
        nodes_kept(final(surface)@, dim as int, *unit, heights, inc as int, cells, false),
        centres_kept(final(surface)@, dim as int, *unit, heights, inc as int, cells, cells, 0, false),
{
    proof {
        lemma_mesh_cell(0, cells, inc as int);
    }
    let mut i: usize = 0;
    let ghost mut a: int = 0;
    while i < dim - 1
        invariant
            add_total::<T>(),
            mul_total::<T>(),
            sub_total::<T>(),
            div_total::<T>(),
            call_requires(*unit, ()),
            dim <= i32::MAX,
            is_pow2(inc as int),
            inc >= 2,
            dim >= 2,
            dim - 1 == cells * inc,
            heights.dom().contains(inc as int),
            heights[inc as int] == disheight,
            i == a * inc,
            0 <= a <= cells,
            is_grid(surface@, dim as int, dim as int),
            same_corners(old(surface)@, surface@, dim as int),
            nodes_kept(surface@, dim as int, *unit, heights, inc as int, cells, false),
            centres_kept(surface@, dim as int, *unit, heights, inc as int, cells, a, 0, false),
        decreases dim - 1 - i,
    {
        proof {
            lemma_mesh_cell(a, cells, inc as int);
        }
        let mut j: usize = 0;
        let ghost mut b: int = 0;
        while j < dim - 1
            invariant
                add_total::<T>(),
                mul_total::<T>(),
                sub_total::<T>(),
                div_total::<T>(),
                call_requires(*unit, ()),
                dim <= i32::MAX,
                is_pow2(inc as int),
                inc >= 2,
                dim >= 2,
                dim - 1 == cells * inc,
                heights.dom().contains(inc as int),
                heights[inc as int] == disheight,
                i == a * inc,
                0 <= a < cells,
                i + inc <= dim - 1,
                j == b * inc,
                0 <= b <= cells,
                is_grid(surface@, dim as int, dim as int),
                same_corners(old(surface)@, surface@, dim as int),
                nodes_kept(surface@, dim as int, *unit, heights, inc as int, cells, false),
                centres_kept(surface@, dim as int, *unit, heights, inc as int, cells, a, b, false),
            decreases dim - 1 - j,
        {
            proof {
                lemma_mesh_cell(b, cells, inc as int);
            }
            let ghost before = surface@;
            square_step(surface, disheight, inc, dim, unit, i, j);
            proof {
                lemma_centre_made(before, surface@, dim as int, *unit, heights, inc as int, cells, a, b);
                lemma_keep_all(
                    before,
                    surface@,
                    dim as int,
                    *unit,
                    heights,
                    inc as int,
                    false,
                    i + inc / 2,
                    j + inc / 2,
                );
                assert forall|u: int, v: int|
                    0 <= u < cells && 0 <= v < cells && earlier(
                        u,
                        v,
                        a,
                        b + 1,
                    ) implies #[trigger] centre_kept(
                    surface@,
                    dim as int,
                    *unit,
                    heights,
                    inc as int,
                    u,
                    v,
                    false,
                ) by {
                    if earlier(u, v, a, b) {
                        assert(centre_kept(before, dim as int, *unit, heights, inc as int, u, v, false));
                    }
                }
                assert forall|u: int, v: int|
                    0 <= u <= cells && 0 <= v <= cells && !((u == 0 || u == cells) && (v == 0 || v
                        == cells)) implies #[trigger] node_kept(
                    surface@,
                    dim as int,
                    *unit,
                    heights,
                    inc as int,
                    u,
                    v,
                    false,
                ) by {
                    assert(node_kept(before, dim as int, *unit, heights, inc as int, u, v, false));
                }
                b = b + 1;
            }
            j += inc;
        }
        proof {
            lemma_row_end(b, cells, inc as int);
            a = a + 1;
        }
        i += inc;
    }
    proof {
        lemma_row_end(a, cells, inc as int);
    }
}

/// Every blend that the diamond pass keeps on `before` is one that it
/// keeps on `after`.
pub open spec fn all_kept<T, F>(
    before: Seq<Vec<T>>,
    after: Seq<Vec<T>>,
    dim: int,
    unit: F,
    heights: Map<int, T>,
    inc: int,
) -> bool where
    T: From<u8> + Add<Output = T> + Mul<Output = T> + Sub<Output = T> + Div<Output = T>,
    F: Fn() -> T,
 {
    forall|x: int, y: int| #[trigger]
        is_kept(before, dim, unit, heights, x, y, inc, true) ==> is_kept(
            after,
            dim,
            unit,
            heights,
            x,
            y,
            inc,
            true,
        )
}

/// Gives the edge that runs down or across from the node `(u, v)` its
/// midpoint.
fn edge_step<T, F>(
    surface: &mut Vec<Vec<T>>,
    disheight: T,
    inc: usize,
    dim: usize,
    unit: &F,
    diax: usize,
    diay: usize,
    Ghost(cells): Ghost<int>,
    Ghost(heights): Ghost<Map<int, T>>,
    Ghost(u): Ghost<int>,
    Ghost(v): Ghost<int>,
    Ghost(down): Ghost<bool>,
) where
    T: Copy + From<u8> + Add<Output = T> + Mul<Output = T> + Sub<Output = T> + Div<Output = T>,
    F: Fn() -> T,

    requires
        add_total::<T>(),
        mul_total::<T>(),
        sub_total::<T>(),
        div_total::<T>(),
        call_requires(*unit, ()),
        dim + dim / 2 <= i32::MAX,
        is_pow2(inc as int),
        inc >= 2,
        cells >= 1,
        dim - 1 == cells * inc,
        heights.dom().contains(inc as int),
        heights[inc as int] == disheight,
        is_grid(old(surface)@, dim as int, dim as int),
        0 <= u <= cells,
        0 <= v <= cells,
        if down {
            u < cells && diax == u * inc + inc / 2 && diay == v * inc
        } else {
            v < cells && diax == u * inc && diay == v * inc + inc / 2
        },
    ensures
        is_grid(final(surface)@, dim as int, dim as int),
        same_corners(old(surface)@, final(surface)@, dim as int),
        all_kept(old(surface)@, final(surface)@, dim as int, *unit, heights, inc as int),
        down ==> down_kept(final(surface)@, dim as int, *unit, heights, inc as int, u, v),
        !down ==> across_kept(final(surface)@, dim as int, *unit, heights, inc as int, u, v),
{
    proof {
        if down {
            lemma_mesh_cell(u, cells, inc as int);
        } else {
            lemma_mesh_cell(v, cells, inc as int);
        }
        assert(0 <= u * inc <= cells * inc && 0 <= v * inc <= cells * inc) by (nonlinear_arith)
            requires
                0 <= u <= cells,
                0 <= v <= cells,
                0 < inc,
        ;
    }
    let ghost before = surface@;
    diamond_step(surface, disheight, inc / 2, dim, unit, diax, diay);
    proof {
        lemma_edge_made(before, surface@, dim as int, *unit, heights, inc as int, cells, u, v, down);
        lemma_keep_all(
            before,
            surface@,
            dim as int,
            *unit,
            heights,
            inc as int,
            true,
            diax as int,
            diay as int,
        );
    }
}

/// The midpoints of the four edges of the mesh cell `(a, b)` are kept on
/// a surface that keeps what the passes had kept when they came to the
/// cell.
proof fn lemma_cell_done<T, F>(
    before: Seq<Vec<T>>,
    after: Seq<Vec<T>>,
    dim: int,
    unit: F,
    heights: Map<int, T>,
    inc: int,
    cells: int,
    a: int,
    b: int,
) where
    T: From<u8> + Add<Output = T> + Mul<Output = T> + Sub<Output = T> + Div<Output = T>,
    F: Fn() -> T,

    requires
        0 <= a < cells,
        0 <= b < cells,
        all_kept(before, after, dim, unit, heights, inc),
        nodes_kept(before, dim, unit, heights, inc, cells, true),
        centres_kept(before, dim, unit, heights, inc, cells, cells, 0, true),
        downs_kept(before, dim, unit, heights, inc, cells, a, b),
        acrosses_kept(before, dim, unit, heights, inc, cells, a, b),
        down_kept(after, dim, unit, heights, inc, a, b),
        across_kept(after, dim, unit, heights, inc, a, b),
        across_kept(after, dim, unit, heights, inc, a + 1, b),
        down_kept(after, dim, unit, heights, inc, a, b + 1),
    ensures
        nodes_kept(after, dim, unit, heights, inc, cells, true),
        centres_kept(after, dim, unit, heights, inc, cells, cells, 0, true),
        downs_kept(after, dim, unit, heights, inc, cells, a, b + 1),
        acrosses_kept(after, dim, unit, heights, inc, cells, a, b + 1),
{
    assert forall|u: int, v: int|
        0 <= u <= cells && 0 <= v <= cells && !((u == 0 || u == cells) && (v == 0 || v
            == cells)) implies #[trigger] node_kept(after, dim, unit, heights, inc, u, v, true) by {
        assert(node_kept(before, dim, unit, heights, inc, u, v, true));
    }
    assert forall|u: int, v: int|
        0 <= u < cells && 0 <= v < cells && earlier(u, v, cells, 0) implies #[trigger] centre_kept(
        after,
        dim,
        unit,
        heights,
        inc,
        u,
        v,
        true,
    ) by {
        assert(centre_kept(before, dim, unit, heights, inc, u, v, true));
    }
    assert forall|u: int, v: int|
        0 <= u < cells && 0 <= v <= cells && ((v >= 1 && earlier(u, v - 1, a, b + 1)) || (v < cells
            && earlier(u, v, a, b + 1))) implies #[trigger] down_kept(
        after,
        dim,
        unit,
        heights,
        inc,
        u,
        v,
    ) by {
        if (v >= 1 && earlier(u, v - 1, a, b)) || (v < cells && earlier(u, v, a, b)) {
            assert(down_kept(before, dim, unit, heights, inc, u, v));
        }
    }
    assert forall|u: int, v: int|
        0 <= u <= cells && 0 <= v < cells && ((u >= 1 && earlier(u - 1, v, a, b + 1)) || (u < cells
            && earlier(u, v, a, b + 1))) implies #[trigger] across_kept(
        after,
        dim,
        unit,
        heights,
        inc,
        u,
        v,
    ) by {
        if (u >= 1 && earlier(u - 1, v, a, b)) || (u < cells && earlier(u, v, a, b)) {
            assert(across_kept(before, dim, unit, heights, inc, u, v));
        }
    }
}

/// Gives the four edges of the mesh cell `(a, b)` their midpoints: the
/// edges that run down and across from its first node, then the two edges
/// opposite them.
fn diamond_cell<T, F>(
    surface: &mut Vec<Vec<T>>,
    disheight: T,
    inc: usize,
    dim: usize,
    unit: &F,
    i: usize,
    j: usize,
    Ghost(cells): Ghost<int>,
    Ghost(heights): Ghost<Map<int, T>>,
    Ghost(a): Ghost<int>,
    Ghost(b): Ghost<int>,
) where
    T: Copy + From<u8> + Add<Output = T> + Mul<Output = T> + Sub<Output = T> + Div<Output = T>,
    F: Fn() -> T,

    requires
        add_total::<T>(),
        mul_total::<T>(),
        sub_total::<T>(),
        div_total::<T>(),
        call_requires(*unit, ()),
        dim + dim / 2 <= i32::MAX,
        is_pow2(inc as int),
        inc >= 2,
        cells >= 1,
        dim - 1 == cells * inc,
        heights.dom().contains(inc as int),
        heights[inc as int] == disheight,
        is_grid(old(surface)@, dim as int, dim as int),
        0 <= a < cells,
        0 <= b < cells,
        i == a * inc,
        j == b * inc,
        nodes_kept(old(surface)@, dim as int, *unit, heights, inc as int, cells, true),
        centres_kept(old(surface)@, dim as int, *unit, heights, inc as int, cells, cells, 0, true),
        downs_kept(old(surface)@, dim as int, *unit, heights, inc as int, cells, a, b),
        acrosses_kept(old(surface)@, dim as int, *unit, heights, inc as int, cells, a, b),
    ensures
        is_grid(final(surface)@, dim as int, dim as int),
        same_corners(old(surface)@, final(surface)@, dim as int),
        nodes_kept(final(surface)@, dim as int, *unit, heights, inc as int, cells, true),
        centres_kept(final(surface)@, dim as int, *unit, heights, inc as int, cells, cells, 0, true),
        downs_kept(final(surface)@, dim as int, *unit, heights, inc as int, cells, a, b + 1),
        acrosses_kept(final(surface)@, dim as int, *unit, heights, inc as int, cells, a, b + 1),
{
    proof {
        lemma_mesh_cell(a, cells, inc as int);
        lemma_mesh_cell(b, cells, inc as int);
    }
    let mid = inc / 2;
    let ghost s0 = surface@;
    edge_step(
        surface,
        disheight,
        inc,
        dim,
        unit,
        i + mid,
        j,
        Ghost(cells),
        Ghost(heights),
        Ghost(a),
        Ghost(b),
        Ghost(true),
    );
    let ghost s1 = surface@;
    edge_step(
        surface,
        disheight,
        inc,
        dim,
        unit,
        i,
        j + mid,
        Ghost(cells),
        Ghost(heights),
        Ghost(a),
        Ghost(b),
        Ghost(false),
    );
    let ghost s2 = surface@;
    edge_step(
        surface,
        disheight,
        inc,
        dim,
        unit,
        i + inc,
        j + mid,
        Ghost(cells),
        Ghost(heights),
        Ghost(a + 1),
        Ghost(b),
        Ghost(false),
    );
    let ghost s3 = surface@;
    edge_step(
        surface,
        disheight,
        inc,
        dim,
        unit,
        i + mid,
        j + inc,
        Ghost(cells),
        Ghost(heights),
        Ghost(a),
        Ghost(b + 1),
        Ghost(true),
    );
    proof {
        let s4 = surface@;
        assert(all_kept(s0, s4, dim as int, *unit, heights, inc as int)) by {
            assert forall|x: int, y: int| #[trigger]
                is_kept(s0, dim as int, *unit, heights, x, y, inc as int, true) implies is_kept(
                s4,
                dim as int,
                *unit,
                heights,
                x,
                y,
                inc as int,
                true,
            ) by {
                assert(is_kept(s1, dim as int, *unit, heights, x, y, inc as int, true));
                assert(is_kept(s2, dim as int, *unit, heights, x, y, inc as int, true));
                assert(is_kept(s3, dim as int, *unit, heights, x, y, inc as int, true));
            }
        }
        assert(down_kept(s4, dim as int, *unit, heights, inc as int, a, b)) by {
            assert(down_kept(s1, dim as int, *unit, heights, inc as int, a, b));
            assert(down_kept(s2, dim as int, *unit, heights, inc as int, a, b));
            assert(down_kept(s3, dim as int, *unit, heights, inc as int, a, b));
        }
        assert(across_kept(s4, dim as int, *unit, heights, inc as int, a, b)) by {
            assert(across_kept(s2, dim as int, *unit, heights, inc as int, a, b));
            assert(across_kept(s3, dim as int, *unit, heights, inc as int, a, b));
        }
        assert(across_kept(s4, dim as int, *unit, heights, inc as int, a + 1, b)) by {
            assert(across_kept(s3, dim as int, *unit, heights, inc as int, a + 1, b));
        }
        lemma_cell_done(s0, s4, dim as int, *unit, heights, inc as int, cells, a, b);
    }
}

/// The diamond pass at step `inc`: gives every edge of the mesh its
/// midpoint, mesh cell by mesh cell and row by row. An edge between two
/// mesh cells gets its midpoint from each of them, the second time anew.
pub(crate) fn diamond_pass<T, F>(
    surface: &mut Vec<Vec<T>>,
    disheight: T,
    inc: usize,
    dim: usize,
    unit: &F,
    Ghost(cells): Ghost<int>,
    Ghost(heights): Ghost<Map<int, T>>,
) where
    T: Copy + From<u8> + Add<Output = T> + Mul<Output = T> + Sub<Output = T> + Div<Output = T>,
    F: Fn() -> T,

    requires
        add_total::<T>(),
        mul_total::<T>(),
        sub_total::<T>(),
        div_total::<T>(),
        call_requires(*unit, ()),
        dim + dim / 2 <= i32::MAX,
        is_pow2(inc as int),
        inc >= 2,
        cells >= 1,
        dim - 1 == cells * inc,
        heights.dom().contains(inc as int),
        heights[inc as int] == disheight,
        is_grid(old(surface)@, dim as int, dim as int),
        nodes_kept(old(surface)@, dim as int, *unit, heights, inc as int, cells, true),
        centres_kept(old(surface)@, dim as int, *unit, heights, inc as int, cells, cells, 0, true),
    ensures
        is_grid(final(surface)@, dim as int, dim as int),
        same_corners(old(surface)@, final(surface)@, dim as int),
        nodes_kept(final(surface)@, dim as int, *unit, heights, inc as int, cells, true),
        centres_kept(final(surface)@, dim as int, *unit, heights, inc as int, cells, cells, 0, true),
        downs_kept(final(surface)@, dim as int, *unit, heights, inc as int, cells, cells, 0),
        acrosses_kept(final(surface)@, dim as int, *unit, heights, inc as int, cells, cells, 0),
{
    proof {
        lemma_mesh_cell(0, cells, inc as int);
    }
    let mut i: usize = 0;
    let ghost mut a: int = 0;
    while i < dim - 1
        invariant
            add_total::<T>(),
            mul_total::<T>(),
            sub_total::<T>(),
            div_total::<T>(),
            call_requires(*unit, ()),
            dim + dim / 2 <= i32::MAX,
            is_pow2(inc as int),
            inc >= 2,
            cells >= 1,
            dim - 1 == cells * inc,
            heights.dom().contains(inc as int),
            heights[inc as int] == disheight,
            dim >= 2,
            i == a * inc,
            0 <= a <= cells,
            is_grid(surface@, dim as int, dim as int),
            same_corners(old(surface)@, surface@, dim as int),
            nodes_kept(surface@, dim as int, *unit, heights, inc as int, cells, true),
            centres_kept(surface@, dim as int, *unit, heights, inc as int, cells, cells, 0, true),
            downs_kept(surface@, dim as int, *unit, heights, inc as int, cells, a, 0),
            acrosses_kept(surface@, dim as int, *unit, heights, inc as int, cells, a, 0),
        decreases dim - 1 - i,
    {
        proof {
            lemma_mesh_cell(a, cells, inc as int);
        }
        let mut j: usize = 0;
        let ghost mut b: int = 0;
        while j < dim - 1
            invariant
                add_total::<T>(),
                mul_total::<T>(),
                sub_total::<T>(),
                div_total::<T>(),
                call_requires(*unit, ()),
                dim + dim / 2 <= i32::MAX,
                is_pow2(inc as int),
                inc >= 2,
                cells >= 1,
                dim - 1 == cells * inc,
                heights.dom().contains(inc as int),
                heights[inc as int] == disheight,
                dim >= 2,
                i == a * inc,
                0 <= a < cells,
                i + inc <= dim - 1,
                j == b * inc,
                0 <= b <= cells,
                is_grid(surface@, dim as int, dim as int),
                same_corners(old(surface)@, surface@, dim as int),
                nodes_kept(surface@, dim as int, *unit, heights, inc as int, cells, true),
                centres_kept(surface@, dim as int, *unit, heights, inc as int, cells, cells, 0, true),
                downs_kept(surface@, dim as int, *unit, heights, inc as int, cells, a, b),
                acrosses_kept(surface@, dim as int, *unit, heights, inc as int, cells, a, b),
            decreases dim - 1 - j,
        {
            proof {
                lemma_mesh_cell(b, cells, inc as int);
            }
            diamond_cell(
                surface,
                disheight,
                inc,
                dim,
                unit,
                i,
                j,
                Ghost(cells),
                Ghost(heights),
                Ghost(a),
                Ghost(b),
            );
            proof {
                b = b + 1;
            }
            j += inc;
        }
        proof {
            lemma_row_end(b, cells, inc as int);
            a = a + 1;
        }
        i += inc;
    }
    proof {
        lemma_row_end(a, cells, inc as int);
    }
}

/// `finer` holds every height of `heights`.
pub open spec fn grows<T>(heights: Map<int, T>, finer: Map<int, T>) -> bool {
    forall|k: int| #[trigger] heights.dom().contains(k)
        ==> finer.dom().contains(k) && finer[k] == heights[k]
}

/// What the square pass keeps, the diamond pass keeps too.
pub(crate) proof fn lemma_loosen<T, F>(
    surface: Seq<Vec<T>>,
    dim: int,
    unit: F,
    heights: Map<int, T>,
    inc: int,
    cells: int,
) where
    T: From<u8> + Add<Output = T> + Mul<Output = T> + Sub<Output = T> + Div<Output = T>,
    F: Fn() -> T,

    requires
        nodes_kept(surface, dim, unit, heights, inc, cells, false),
        centres_kept(surface, dim, unit, heights, inc, cells, cells, 0, false),
    ensures
        nodes_kept(surface, dim, unit, heights, inc, cells, true),
        centres_kept(surface, dim, unit, heights, inc, cells, cells, 0, true),
{
    assert forall|x: int, y: int| #[trigger]
        is_kept(surface, dim, unit, heights, x, y, inc, false) implies is_kept(
        surface,
        dim,
        unit,
        heights,
        x,
        y,
        inc,
        true,
    ) by {
        let made = choose|made: int| #[trigger]
            is_kept_at(surface, dim, unit, heights, x, y, made, inc, false);
        assert(is_kept_at(surface, dim, unit, heights, x, y, made, inc, true));
    }
    assert forall|u: int, v: int|
        0 <= u <= cells && 0 <= v <= cells && !((u == 0 || u == cells) && (v == 0 || v
            == cells)) implies #[trigger] node_kept(surface, dim, unit, heights, inc, u, v, true) by {
        assert(node_kept(surface, dim, unit, heights, inc, u, v, false));
    }
    assert forall|u: int, v: int|
        0 <= u < cells && 0 <= v < cells && earlier(u, v, cells, 0) implies #[trigger] centre_kept(
        surface,
        dim,
        unit,
        heights,
        inc,
        u,
        v,
        true,
    ) by {
        assert(centre_kept(surface, dim, unit, heights, inc, u, v, false));
    }
}

/// A blend that the diamond pass at a step keeps is one that the square
/// pass at the half step keeps, also once the heights have grown by that
/// of the half step.
proof fn lemma_kept_finer<T, F>(
    surface: Seq<Vec<T>>,
    dim: int,
    unit: F,
    heights: Map<int, T>,
    finer: Map<int, T>,
    inc: int,
    x: int,
    y: int,
) where
    T: From<u8> + Add<Output = T> + Mul<Output = T> + Sub<Output = T> + Div<Output = T>,
    F: Fn() -> T,

    requires
        inc >= 2,
        inc % 2 == 0,
        grows(heights, finer),
        is_kept(surface, dim, unit, heights, x, y, inc, true),
    ensures
        is_kept(surface, dim, unit, finer, x, y, inc / 2, false),
{
    let made = choose|made: int| #[trigger]
        is_kept_at(surface, dim, unit, heights, x, y, made, inc, true);
    let coords = sources(x, y, dim, made);
    assert forall|k: int| 0 <= k < coords.len() implies is_node(
        (#[trigger] coords[k]).0,
        coords[k].1,
        inc / 2,
    ) by {
        lemma_finer(coords[k].0, inc);
        lemma_finer(coords[k].1, inc);
    }
    assert(is_kept_at(surface, dim, unit, finer, x, y, made, inc / 2, false));
}

/// The nodes of the mesh of the half step are the nodes, the centres and
/// the midpoints of the edges of the mesh of the step: once the passes at
/// a step are through, the surface is ready for the passes at the half
/// step.
pub(crate) proof fn lemma_refine<T, F>(
    surface: Seq<Vec<T>>,
    dim: int,
    unit: F,
    heights: Map<int, T>,
    finer: Map<int, T>,
    inc: int,
    cells: int,
) where
    T: From<u8> + Add<Output = T> + Mul<Output = T> + Sub<Output = T> + Div<Output = T>,
    F: Fn() -> T,

    requires
        inc >= 2,
        inc % 2 == 0,
        cells >= 1,
        grows(heights, finer),
        nodes_kept(surface, dim, unit, heights, inc, cells, true),
        centres_kept(surface, dim, unit, heights, inc, cells, cells, 0, true),
        downs_kept(surface, dim, unit, heights, inc, cells, cells, 0),
        acrosses_kept(surface, dim, unit, heights, inc, cells, cells, 0),
    ensures
        nodes_kept(surface, dim, unit, finer, inc / 2, 2 * cells, false),
{
    let mid = inc / 2;
    assert forall|p: int, q: int|
        0 <= p <= 2 * cells && 0 <= q <= 2 * cells && !((p == 0 || p == 2 * cells) && (q == 0 || q
            == 2 * cells)) implies #[trigger] node_kept(surface, dim, unit, finer, mid, p, q, false) by {
        let u = p / 2;
        let v = q / 2;
        assert(p * mid == u * inc + (p % 2) * mid) by (nonlinear_arith)
            requires
                p == 2 * u + p % 2,
                inc == 2 * mid,
        ;
        assert(q * mid == v * inc + (q % 2) * mid) by (nonlinear_arith)
            requires
                q == 2 * v + q % 2,
                inc == 2 * mid,
        ;
        if p % 2 == 0 && q % 2 == 0 {
            assert(node_kept(surface, dim, unit, heights, inc, u, v, true));
        } else if p % 2 == 1 && q % 2 == 1 {
            assert(earlier(u, v, cells, 0));
            assert(centre_kept(surface, dim, unit, heights, inc, u, v, true));
        } else if p % 2 == 1 {
            assert(earlier(u, v, cells, 0));
            assert(down_kept(surface, dim, unit, heights, inc, u, v));
        } else {
            assert(u >= 1 ==> earlier(u - 1, v, cells, 0));
            assert(u < cells ==> earlier(u, v, cells, 0));
            assert(across_kept(surface, dim, unit, heights, inc, u, v));
        }
        lemma_kept_finer(surface, dim, unit, heights, finer, inc, p * mid, q * mid);
    }
}

/// The centre of a fractal surface is the blend of its four corners at
/// the first displacement height.
pub proof fn lemma_centre_of_surface<T, F, D>(
    surface: Seq<Vec<T>>,
    dim: int,
    unit: F,
    decay: D,
    heights: Map<int, T>,
) where
    T: From<u8> + Add<Output = T> + Mul<Output = T> + Sub<Output = T> + Div<Output = T>,
    F: Fn() -> T,
    D: Fn(T) -> T,

    requires
        is_pow2(dim - 1),
        dim >= 3,
        is_surface(surface, dim, unit, decay, heights),
    ensures
        blended(
            surface,
            seq![(0, 0), (dim - 1, 0), (dim - 1, dim - 1), (0, dim - 1)],
            heights[dim - 1],
            unit,
            surface[(dim - 1) / 2][(dim - 1) / 2],
        ),
{
    let side = dim - 1;
    let c = side / 2;
    assert(is_blend(surface, dim, unit, heights, c, c));
    let inc = choose|inc: int| #[trigger] is_blend_at(surface, dim, unit, heights, c, c, inc);
    if inc < side {
        lemma_pow2_gap(inc, side);
        lemma_pow2_divides(inc, c);
    }
    lemma_fundamental_div_mod_converse(c, side, 0, c);
    assert(square_coords(0, 0, dim, side) =~= seq![
        (0, 0),
        (dim - 1, 0),
        (dim - 1, dim - 1),
        (0, dim - 1),
    ]);
}

} // verus!
