//! Row-major boolean bitmaps: addressing and neighbour tests.
//!
//! A bitmap of width `w` and height `h` is a sequence of `w * h` booleans,
//! pixel `(x, y)` at position `x + y * w`.  Everything outside the bitmap
//! counts as empty.

use vstd::prelude::*;

verus! {

/// Position of cell `(x, y)` in a row-major grid whose rows are `x_span` long.
pub open spec fn grid_index(x: int, y: int, x_span: int) -> int {
    x + y * x_span
}

/// Whether pixel `(x, y)` of the bitmap is inside it and filled.
pub open spec fn pixel(img: Seq<bool>, w: int, h: int, x: int, y: int) -> bool {
    0 <= x < w && 0 <= y < h && img[grid_index(x, y, w)]
}

/// A cell inside a `w` by `h` grid has its position inside `0 .. w * h`.
pub proof fn lemma_grid_index_bounds(x: int, y: int, w: int, h: int)
    requires
        0 <= x < w,
        0 <= y < h,
    ensures
        0 <= grid_index(x, y, w) < w * h,
        y * w >= 0,
        y * w + w <= w * h,
{
    assert(y * w >= 0) by (nonlinear_arith)
        requires
            y >= 0,
            w >= 0,
    ;
    assert((y + 1) * w <= h * w) by (nonlinear_arith)
        requires
            y + 1 <= h,
            w >= 0,
    ;
    assert((y + 1) * w == y * w + w) by (nonlinear_arith);
    assert(h * w == w * h) by (nonlinear_arith);
}

/// Two cells of one grid at the same position are the same cell.
pub proof fn lemma_grid_index_injective(x1: int, y1: int, x2: int, y2: int, w: int)
    requires
        0 <= x1 < w,
        0 <= x2 < w,
        grid_index(x1, y1, w) == grid_index(x2, y2, w),
    ensures
        x1 == x2,
        y1 == y2,
{
    if y1 < y2 {
        assert((y2 - y1) * w >= w) by (nonlinear_arith)
            requires
                y2 - y1 >= 1,
                w >= 0,
        ;
        assert((y2 - y1) * w == y2 * w - y1 * w) by (nonlinear_arith);
    } else if y2 < y1 {
        assert((y1 - y2) * w >= w) by (nonlinear_arith)
            requires
                y1 - y2 >= 1,
                w >= 0,
        ;
        assert((y1 - y2) * w == y1 * w - y2 * w) by (nonlinear_arith);
    }
}

/// Position of cell `(x, y)`.
pub fn xy(x: usize, y: usize, x_span: usize) -> (index: usize)
    requires
        grid_index(x as int, y as int, x_span as int) <= usize::MAX,
    ensures
        index == grid_index(x as int, y as int, x_span as int),
{
    proof {
        assert(y * x_span >= 0) by (nonlinear_arith)
            requires
                y >= 0,
                x_span >= 0,
        ;
    }
    x + (y * x_span)
}

/// Whether the pixel left of `(x, y)` is filled.
pub fn xy_is_filled_l(image: &[bool], size: &[usize; 2], x: usize, y: usize) -> (r: bool)
    requires
        image@.len() == size[0] * size[1],
        x < size[0],
        y < size[1],
    ensures
        r == pixel(image@, size[0] as int, size[1] as int, x - 1, y as int),
{
    if x != 0 {
        proof {
            assert(image.len() == image@.len());
            lemma_grid_index_bounds(x - 1, y as int, size[0] as int, size[1] as int);
        }
        image[xy(x - 1, y, size[0])]
    } else {
        false
    }
}

/// Whether the pixel right of `(x, y)` is filled.
pub fn xy_is_filled_r(image: &[bool], size: &[usize; 2], x: usize, y: usize) -> (r: bool)
    requires
        image@.len() == size[0] * size[1],
        x < size[0],
        y < size[1],
    ensures
        r == pixel(image@, size[0] as int, size[1] as int, x + 1, y as int),
{
    if x + 1 != size[0] {
        proof {
            assert(image.len() == image@.len());
            lemma_grid_index_bounds(x + 1, y as int, size[0] as int, size[1] as int);
        }
        image[xy(x + 1, y, size[0])]
    } else {
        false
    }
}

/// Whether the pixel below `(x, y)` is filled.
pub fn xy_is_filled_d(image: &[bool], size: &[usize; 2], x: usize, y: usize) -> (r: bool)
    requires
        image@.len() == size[0] * size[1],
        x < size[0],
        y < size[1],
    ensures
        r == pixel(image@, size[0] as int, size[1] as int, x as int, y - 1),
{
    if y != 0 {
        proof {
            assert(image.len() == image@.len());
            lemma_grid_index_bounds(x as int, y - 1, size[0] as int, size[1] as int);
        }
        image[xy(x, y - 1, size[0])]
    } else {
        false
    }
}

/// Whether the pixel above `(x, y)` is filled.
pub fn xy_is_filled_u(image: &[bool], size: &[usize; 2], x: usize, y: usize) -> (r: bool)
    requires
        image@.len() == size[0] * size[1],
        x < size[0],
        y < size[1],
    ensures
        r == pixel(image@, size[0] as int, size[1] as int, x as int, y + 1),
{
    if y + 1 != size[1] {
        proof {
            assert(image.len() == image@.len());
            lemma_grid_index_bounds(x as int, y + 1, size[0] as int, size[1] as int);
        }
        image[xy(x, y + 1, size[0])]
    } else {
        false
    }
}

/// Whether the pixel diagonally left and below `(x, y)` is filled.
pub fn xy_is_filled_ld(image: &[bool], size: &[usize; 2], x: usize, y: usize) -> (r: bool)
    requires
        image@.len() == size[0] * size[1],
        x < size[0],
        y < size[1],
    ensures
        r == pixel(image@, size[0] as int, size[1] as int, x - 1, y - 1),
{
    if x != 0 && y != 0 {
        proof {
            assert(image.len() == image@.len());
            lemma_grid_index_bounds(x - 1, y - 1, size[0] as int, size[1] as int);
        }
        image[xy(x - 1, y - 1, size[0])]
    } else {
        false
    }
}

/// Whether the pixel diagonally left and above `(x, y)` is filled.
pub fn xy_is_filled_lu(image: &[bool], size: &[usize; 2], x: usize, y: usize) -> (r: bool)
    requires
        image@.len() == size[0] * size[1],
        x < size[0],
        y < size[1],
    ensures
        r == pixel(image@, size[0] as int, size[1] as int, x - 1, y + 1),
{
    if x != 0 && y + 1 != size[1] {
        proof {
            assert(image.len() == image@.len());
            lemma_grid_index_bounds(x - 1, y + 1, size[0] as int, size[1] as int);
        }
        image[xy(x - 1, y + 1, size[0])]
    } else {
        false
    }
}

/// Whether the pixel diagonally right and below `(x, y)` is filled.
pub fn xy_is_filled_rd(image: &[bool], size: &[usize; 2], x: usize, y: usize) -> (r: bool)
    requires
        image@.len() == size[0] * size[1],
        x < size[0],
        y < size[1],
    ensures
        r == pixel(image@, size[0] as int, size[1] as int, x + 1, y - 1),
{
    if x + 1 != size[0] && y != 0 {
        proof {
            assert(image.len() == image@.len());
            lemma_grid_index_bounds(x + 1, y - 1, size[0] as int, size[1] as int);
        }
        image[xy(x + 1, y - 1, size[0])]
    } else {
        false
    }
}

/// Whether the pixel diagonally right and above `(x, y)` is filled.
pub fn xy_is_filled_ru(image: &[bool], size: &[usize; 2], x: usize, y: usize) -> (r: bool)
    requires
        image@.len() == size[0] * size[1],
        x < size[0],
        y < size[1],
    ensures
        r == pixel(image@, size[0] as int, size[1] as int, x + 1, y + 1),
{
    if x + 1 != size[0] && y + 1 != size[1] {
        proof {
            assert(image.len() == image@.len());
            lemma_grid_index_bounds(x + 1, y + 1, size[0] as int, size[1] as int);
        }
        image[xy(x + 1, y + 1, size[0])]
    } else {
        false
    }
}

/// Polygon vertices as pairs of integers.
pub open spec fn poly_points(poly: Seq<[i32; 2]>) -> Seq<(int, int)> {
    Seq::new(poly.len(), |i: int| (poly[i][0] as int, poly[i][1] as int))
}

/// A list of polygons, each with its closed-or-open flag, over integer pairs.
pub open spec fn poly_list_points(polys: Seq<(bool, Vec<[i32; 2]>)>) -> Seq<(bool, Seq<(int, int)>)> {
    Seq::new(polys.len(), |i: int| (polys[i].0, poly_points(polys[i].1@)))
}

} // verus!
