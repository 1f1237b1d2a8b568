//! Why the outline walk works: the boundary edges of a bitmap balance at
//! every corner, so a walk that has left its start can always go on until
//! it is back, and the walks of a scan between them take every boundary
//! edge exactly once.

use vstd::prelude::*;
use crate::dir;
use crate::dir::has_bit;
use crate::polys_from_raster_outline::{
    bit_count, boundary_edge, boundary_mask, boundary_masks, dir_dx, dir_dy, is_corner, is_dir,
    lemma_bits_of_clear, lemma_bits_of_small, lemma_boundary_mask_bits,
    lemma_index_to_corner, lemma_masks_updated, lemma_next_direction, lemma_total_bits_update,
    mask_at, mask_within, masks_updated, masks_within, next_direction, outline_polys,
    poly_extend, scan, total_bits, turns_ccw, walk, walk_from, TurnPolicy,
};
use crate::raster::{grid_index, lemma_grid_index_bounds, pixel};

verus! {

/// 1 for true, 0 for false.
pub open spec fn b2i(b: bool) -> int {
    if b {
        1
    } else {
        0
    }
}

/// The direction that leads back.
pub open spec fn reverse(d: u8) -> u8 {
    if d == dir::L {
        dir::R
    } else if d == dir::R {
        dir::L
    } else if d == dir::D {
        dir::U
    } else if d == dir::U {
        dir::D
    } else {
        0
    }
}

/// Number of edges of `masks` that lead into corner `(cx, cy)`.
pub open spec fn in_count(masks: Seq<u8>, w: int, h: int, cx: int, cy: int) -> int {
    b2i(cy > 0 && has_bit(mask_at(masks, w, cx, cy - 1), dir::U)) + b2i(
        cy < h && has_bit(mask_at(masks, w, cx, cy + 1), dir::D),
    ) + b2i(cx < w && has_bit(mask_at(masks, w, cx + 1, cy), dir::L)) + b2i(
        cx > 0 && has_bit(mask_at(masks, w, cx - 1, cy), dir::R),
    )
}

/// Edges that leave corner `(cx, cy)` less edges that lead into it.
pub open spec fn balance_at(masks: Seq<u8>, w: int, h: int, cx: int, cy: int) -> int {
    bit_count(mask_at(masks, w, cx, cy)) - in_count(masks, w, h, cx, cy)
}

/// As many edges leave each corner as lead into it, but that one more
/// leaves `(px, py)` and one more leads into `(sx, sy)`: the state of the
/// masks while a walk from `(sx, sy)` stands at `(px, py)`.
pub open spec fn balanced_except(
    masks: Seq<u8>,
    w: int,
    h: int,
    px: int,
    py: int,
    sx: int,
    sy: int,
) -> bool {
    forall|cx: int, cy: int|
        is_corner(w, h, cx, cy) ==> #[trigger] balance_at(masks, w, h, cx, cy) == b2i(
            cx == px && cy == py,
        ) - b2i(cx == sx && cy == sy)
}

/// As many edges leave each corner as lead into it.
pub open spec fn balanced(masks: Seq<u8>, w: int, h: int) -> bool {
    forall|cx: int, cy: int| is_corner(w, h, cx, cy) ==> #[trigger] balance_at(masks, w, h, cx, cy) == 0
}

/// The boundary mask array holds the boundary mask of every corner.
pub proof fn lemma_boundary_masks_at(img: Seq<bool>, w: int, h: int, cx: int, cy: int)
    requires
        0 <= w,
        0 <= h,
        is_corner(w, h, cx, cy),
    ensures
        boundary_masks(img, w, h).len() == (w + 1) * (h + 1),
        mask_at(boundary_masks(img, w, h), w, cx, cy) == boundary_mask(img, w, h, cx, cy),
{
    lemma_grid_index_bounds(cx, cy, w + 1, h + 1);
    let i = grid_index(cx, cy, w + 1);
    lemma_index_to_corner(i, w, h);
    crate::raster::lemma_grid_index_injective(cx, cy, i % (w + 1), i / (w + 1), w + 1);
}

/// An edge of the boundary leads to a corner, and no edge of the boundary
/// leads straight back.
pub proof fn lemma_edge_head(img: Seq<bool>, w: int, h: int, cx: int, cy: int, d: u8)
    requires
        0 <= w,
        0 <= h,
        is_dir(d),
        boundary_edge(img, w, h, cx, cy, d),
    ensures
        is_corner(w, h, cx, cy),
        is_corner(w, h, cx + dir_dx(d), cy + dir_dy(d)),
        !boundary_edge(img, w, h, cx + dir_dx(d), cy + dir_dy(d), reverse(d)),
{
}

/// The boundary masks of a bitmap hold boundary edges only, and as many
/// leave each corner as lead into it.
pub proof fn lemma_boundary_balanced(img: Seq<bool>, w: int, h: int)
    requires
        0 <= w,
        0 <= h,
    ensures
        masks_within(boundary_masks(img, w, h), img, w, h),
        balanced(boundary_masks(img, w, h), w, h),
{
    let bm = boundary_masks(img, w, h);
    assert((w + 1) * (h + 1) >= 0) by (nonlinear_arith)
        requires
            w >= 0,
            h >= 0,
    ;
    assert forall|cx: int, cy: int| is_corner(w, h, cx, cy) implies mask_within(
        img,
        w,
        h,
        cx,
        cy,
        #[trigger] mask_at(bm, w, cx, cy),
    ) by {
        lemma_boundary_masks_at(img, w, h, cx, cy);
        lemma_boundary_mask_bits(img, w, h, cx, cy);
    }
    assert forall|cx: int, cy: int| is_corner(w, h, cx, cy) implies #[trigger] balance_at(
        bm,
        w,
        h,
        cx,
        cy,
    ) == 0 by {
        lemma_boundary_masks_at(img, w, h, cx, cy);
        lemma_boundary_mask_bits(img, w, h, cx, cy);
        if cy > 0 {
            lemma_boundary_masks_at(img, w, h, cx, cy - 1);
            lemma_boundary_mask_bits(img, w, h, cx, cy - 1);
        }
        if cy < h {
            lemma_boundary_masks_at(img, w, h, cx, cy + 1);
            lemma_boundary_mask_bits(img, w, h, cx, cy + 1);
        }
        if cx < w {
            lemma_boundary_masks_at(img, w, h, cx + 1, cy);
            lemma_boundary_mask_bits(img, w, h, cx + 1, cy);
        }
        if cx > 0 {
            lemma_boundary_masks_at(img, w, h, cx - 1, cy);
            lemma_boundary_mask_bits(img, w, h, cx - 1, cy);
        }
        let a = pixel(img, w, h, cx - 1, cy - 1);
        let b = pixel(img, w, h, cx, cy - 1);
        let c = pixel(img, w, h, cx - 1, cy);
        let d = pixel(img, w, h, cx, cy);
        assert(bit_count(mask_at(bm, w, cx, cy)) == b2i(c && !a) + b2i(b && !d) + b2i(a && !b)
            + b2i(d && !c));
        assert(in_count(bm, w, h, cx, cy) == b2i(b && !a) + b2i(c && !d) + b2i(d && !b) + b2i(
            a && !c,
        ));
    }
}

/// The masks after the edge that leaves `(x, y)` in direction `d` is taken.
pub open spec fn masks_after(masks: Seq<u8>, w: int, x: int, y: int, d: u8) -> Seq<u8> {
    masks.update(grid_index(x, y, w + 1), mask_at(masks, w, x, y) & !d)
}

/// Taking an edge at the corner a walk stands at moves the walk to the head
/// of the edge and keeps the balance.
pub proof fn lemma_step_balanced(
    masks: Seq<u8>,
    img: Seq<bool>,
    w: int,
    h: int,
    x: int,
    y: int,
    sx: int,
    sy: int,
    d: u8,
)
    requires
        0 <= w,
        0 <= h,
        masks_within(masks, img, w, h),
        is_corner(w, h, x, y),
        is_dir(d),
        has_bit(mask_at(masks, w, x, y), d),
        balanced_except(masks, w, h, x, y, sx, sy),
    ensures
        masks_within(masks_after(masks, w, x, y, d), img, w, h),
        balanced_except(
            masks_after(masks, w, x, y, d),
            w,
            h,
            x + dir_dx(d),
            y + dir_dy(d),
            sx,
            sy,
        ),
        total_bits(masks_after(masks, w, x, y, d)) + 1 == total_bits(masks),
        masks_updated(
            masks,
            masks_after(masks, w, x, y, d),
            w,
            h,
            x,
            y,
            mask_at(masks, w, x, y) & !d,
        ),
        is_corner(w, h, x + dir_dx(d), y + dir_dy(d)),
{
    let m = mask_at(masks, w, x, y);
    let after = masks_after(masks, w, x, y, d);
    let index = grid_index(x, y, w + 1);
    assert(mask_within(img, w, h, x, y, m));
    lemma_edge_head(img, w, h, x, y, d);
    lemma_bits_of_clear(m, d);
    lemma_masks_updated(masks, w, h, x, y, m & !d);
    lemma_total_bits_update(masks, index, m & !d);
    assert forall|cx: int, cy: int| is_corner(w, h, cx, cy) implies mask_within(
        img,
        w,
        h,
        cx,
        cy,
        #[trigger] mask_at(after, w, cx, cy),
    ) by {
        assert(mask_within(img, w, h, cx, cy, mask_at(masks, w, cx, cy)));
    }
    let x2 = x + dir_dx(d);
    let y2 = y + dir_dy(d);
    assert forall|cx: int, cy: int| is_corner(w, h, cx, cy) implies #[trigger] balance_at(
        after,
        w,
        h,
        cx,
        cy,
    ) == b2i(cx == x2 && cy == y2) - b2i(cx == sx && cy == sy) by {
        assert(balance_at(masks, w, h, cx, cy) == b2i(cx == x && cy == y) - b2i(
            cx == sx && cy == sy,
        ));
        let m_here = mask_at(after, w, cx, cy);
        if cy > 0 {
            let m_below = mask_at(after, w, cx, cy - 1);
        }
        if cy < h {
            let m_above = mask_at(after, w, cx, cy + 1);
        }
        if cx < w {
            let m_right = mask_at(after, w, cx + 1, cy);
        }
        if cx > 0 {
            let m_left = mask_at(after, w, cx - 1, cy);
        }
        assert(bit_count(m_here) == bit_count(mask_at(masks, w, cx, cy)) - b2i(cx == x && cy == y));
        assert(in_count(after, w, h, cx, cy) == in_count(masks, w, h, cx, cy) - b2i(
            cx == x2 && cy == y2,
        ));
    }
}

/// What holds while a walk from `(x0, y0)` stands at `(x, y)` after
/// `handled` steps, the last of them in direction `d_prev`.
pub open spec fn walk_inv(
    img: Seq<bool>,
    w: int,
    h: int,
    x0: int,
    y0: int,
    masks: Seq<u8>,
    x: int,
    y: int,
    d_prev: u8,
    handled: nat,
) -> bool {
    &&& 0 <= w
    &&& 0 <= h
    &&& masks_within(masks, img, w, h)
    &&& is_corner(w, h, x, y)
    &&& is_corner(w, h, x0, y0)
    &&& is_dir(d_prev)
    &&& balanced_except(masks, w, h, x, y, x0, y0)
    &&& if handled == 0 {
        &&& x == x0
        &&& y == y0
        &&& d_prev == dir::L
        &&& mask_at(masks, w, x0, y0) == dir::U
    } else {
        &&& !has_bit(mask_at(masks, w, x, y), reverse(d_prev))
        &&& !has_bit(mask_at(masks, w, x0, y0), dir::U)
    }
}

/// Whether the walk is over: it is back at its start after at least one
/// step.
pub open spec fn walk_done(x0: int, y0: int, x: int, y: int, handled: nat) -> bool {
    handled != 0 && x == x0 && y == y0
}

/// A walk that is not over finds an edge to take, and what holds of the
/// walk holds again after the step.
pub proof fn lemma_walk_step(
    img: Seq<bool>,
    w: int,
    h: int,
    x0: int,
    y0: int,
    masks: Seq<u8>,
    x: int,
    y: int,
    d_prev: u8,
    handled: nat,
    turn_ccw: bool,
)
    requires
        walk_inv(img, w, h, x0, y0, masks, x, y, d_prev, handled),
        !walk_done(x0, y0, x, y, handled),
    ensures
        ({
            let d = mask_at(masks, w, x, y);
            let d_next = next_direction(d, d_prev, turn_ccw);
            &&& 0 <= grid_index(x, y, w + 1) < masks.len()
            &&& d < 16
            &&& is_dir(d_next)
            &&& has_bit(d, d_next)
            &&& walk_inv(
                img,
                w,
                h,
                x0,
                y0,
                masks_after(masks, w, x, y, d_next),
                x + dir_dx(d_next),
                y + dir_dy(d_next),
                d_next,
                handled + 1,
            )
            &&& total_bits(masks_after(masks, w, x, y, d_next)) + 1 == total_bits(masks)
        }),
{
    let d = mask_at(masks, w, x, y);
    let d_next = next_direction(d, d_prev, turn_ccw);
    lemma_grid_index_bounds(x, y, w + 1, h + 1);
    assert(mask_within(img, w, h, x, y, d));
    lemma_bits_of_small(d);
    lemma_next_direction(d, d_prev, turn_ccw);
    // the corner has an edge to take
    if handled != 0 {
        assert(balance_at(masks, w, h, x, y) == 1);
        assert(bit_count(d) >= 1);
    }
    assert(d != 0);
    // and one of them is no way back
    assert(d_next != 0) by {
        if !is_dir(d) {
            if handled == 0 {
                assert(has_bit(d, dir::U));
            } else {
                assert(!has_bit(d, reverse(d_prev)));
            }
        }
    }
    lemma_step_balanced(masks, img, w, h, x, y, x0, y0, d_next);
    let after = masks_after(masks, w, x, y, d_next);
    let x2 = x + dir_dx(d_next);
    let y2 = y + dir_dy(d_next);
    lemma_edge_head(img, w, h, x, y, d_next);
    assert(mask_within(img, w, h, x2, y2, mask_at(after, w, x2, y2)));
    lemma_bits_of_clear(d, d_next);
    assert(mask_at(after, w, x2, y2) == mask_at(masks, w, x2, y2));
    if handled == 0 {
        assert(mask_at(after, w, x0, y0) == d & !d_next);
    } else {
        assert(mask_within(img, w, h, x0, y0, mask_at(masks, w, x0, y0)));
    }
}

// ---------------------------------------------------------------------------
// Edges across a row

/// Number of corners `(x, y)` with `x < n` whose mask holds bit `b`.
pub open spec fn row_count(masks: Seq<u8>, w: int, y: int, b: u8, n: int) -> int
    decreases n,
{
    if n <= 0 {
        0
    } else {
        row_count(masks, w, y, b, n - 1) + b2i(has_bit(mask_at(masks, w, n - 1, y), b))
    }
}

/// A row count is zero exactly when no corner it counts holds the bit.
pub proof fn lemma_row_count_zero(masks: Seq<u8>, w: int, y: int, b: u8, n: int)
    ensures
        row_count(masks, w, y, b, n) >= 0,
        row_count(masks, w, y, b, n) == 0 <==> forall|x: int|
            0 <= x < n ==> !has_bit(#[trigger] mask_at(masks, w, x, y), b),
    decreases n,
{
    if n > 0 {
        lemma_row_count_zero(masks, w, y, b, n - 1);
        if row_count(masks, w, y, b, n) == 0 {
            assert forall|x: int| 0 <= x < n implies !has_bit(
                #[trigger] mask_at(masks, w, x, y),
                b,
            ) by {}
        } else {
            if forall|x: int| 0 <= x < n ==> !has_bit(#[trigger] mask_at(masks, w, x, y), b) {
                assert(!has_bit(mask_at(masks, w, n - 1, y), b));
            }
        }
    }
}

/// Whether corner `(x, y)` exists and its mask holds bit `b`, as a number.
pub open spec fn bit_at(masks: Seq<u8>, w: int, h: int, x: int, y: int, b: u8) -> int {
    b2i(is_corner(w, h, x, y) && has_bit(mask_at(masks, w, x, y), b))
}

/// The balance of the first `n` corners of row `y`, summed: the edges along
/// the row cancel but at its ends.
proof fn lemma_row_sum(masks: Seq<u8>, img: Seq<bool>, w: int, h: int, y: int, n: int)
    requires
        0 <= w,
        0 <= h,
        masks_within(masks, img, w, h),
        balanced(masks, w, h),
        0 <= y <= h,
        1 <= n <= w + 1,
    ensures
        row_count(masks, w, y, dir::D, n) + row_count(masks, w, y, dir::U, n) + bit_at(
            masks,
            w,
            h,
            0,
            y,
            dir::L,
        ) + bit_at(masks, w, h, n - 1, y, dir::R) == (if y > 0 {
            row_count(masks, w, y - 1, dir::U, n)
        } else {
            0
        }) + (if y < h {
            row_count(masks, w, y + 1, dir::D, n)
        } else {
            0
        }) + bit_at(masks, w, h, n, y, dir::L),
    decreases n,
{
    let x = n - 1;
    assert(balance_at(masks, w, h, x, y) == 0);
    assert(mask_within(img, w, h, x, y, mask_at(masks, w, x, y)));
    if n > 1 {
        lemma_row_sum(masks, img, w, h, y, n - 1);
    } else {
        assert(row_count(masks, w, y, dir::D, 0) == 0);
        assert(row_count(masks, w, y, dir::U, 0) == 0);
        assert(row_count(masks, w, y - 1, dir::U, 0) == 0);
        assert(row_count(masks, w, y + 1, dir::D, 0) == 0);
    }
}

/// In balanced masks as many edges go up out of a row as go down out of
/// the row above it; none goes down out of the bottom row and none up out
/// of the top row.
pub proof fn lemma_row_flux(masks: Seq<u8>, img: Seq<bool>, w: int, h: int, y: int)
    requires
        0 <= w,
        0 <= h,
        masks_within(masks, img, w, h),
        balanced(masks, w, h),
        0 <= y <= h,
    ensures
        row_count(masks, w, 0, dir::D, w + 1) == 0,
        y < h ==> row_count(masks, w, y, dir::U, w + 1) == row_count(
            masks,
            w,
            y + 1,
            dir::D,
            w + 1,
        ),
        y == h ==> row_count(masks, w, y, dir::U, w + 1) == 0,
    decreases y,
{
    // no edge goes down from the bottom row, up from the top row, left from
    // the first column or right from the last
    lemma_row_count_zero(masks, w, 0, dir::D, w + 1);
    assert forall|x: int| 0 <= x < w + 1 implies !has_bit(
        #[trigger] mask_at(masks, w, x, 0),
        dir::D,
    ) by {
        assert(mask_within(img, w, h, x, 0, mask_at(masks, w, x, 0)));
    }
    lemma_row_count_zero(masks, w, h, dir::U, w + 1);
    assert forall|x: int| 0 <= x < w + 1 implies !has_bit(
        #[trigger] mask_at(masks, w, x, h),
        dir::U,
    ) by {
        assert(mask_within(img, w, h, x, h, mask_at(masks, w, x, h)));
    }
    assert(mask_within(img, w, h, 0, y, mask_at(masks, w, 0, y)));
    assert(mask_within(img, w, h, w, y, mask_at(masks, w, w, y)));
    lemma_row_sum(masks, img, w, h, y, w + 1);
    if y > 0 {
        lemma_row_flux(masks, img, w, h, y - 1);
    }
}

// ---------------------------------------------------------------------------
// The scan

/// Corners before `(x, y)` in scan order.
pub open spec fn scanned(cx: int, cy: int, x: int, y: int) -> bool {
    cy < y || (cy == y && cx < x)
}

/// What holds of the masks between two walks, when the scan stands at
/// corner `(x, y)`: they balance, and no corner the scan has passed has its
/// upward edge left.
pub open spec fn scan_inv(img: Seq<bool>, w: int, h: int, masks: Seq<u8>, x: int, y: int) -> bool {
    &&& 0 <= w
    &&& 0 <= h
    &&& masks_within(masks, img, w, h)
    &&& balanced(masks, w, h)
    &&& forall|cx: int, cy: int|
        is_corner(w, h, cx, cy) && scanned(cx, cy, x, y) ==> !has_bit(
            #[trigger] mask_at(masks, w, cx, cy),
            dir::U,
        )
}

/// A corner the scan starts a walk at has its upward edge left and no other.
pub proof fn lemma_scan_start(img: Seq<bool>, w: int, h: int, masks: Seq<u8>, x: int, y: int)
    requires
        scan_inv(img, w, h, masks, x, y),
        is_corner(w, h, x, y),
        has_bit(mask_at(masks, w, x, y), dir::U),
    ensures
        mask_at(masks, w, x, y) == dir::U,
{
    let m = mask_at(masks, w, x, y);
    assert(mask_within(img, w, h, x, y, m));
    if y > 0 {
        lemma_row_flux(masks, img, w, h, y - 1);
        lemma_row_count_zero(masks, w, y - 1, dir::U, w + 1);
        lemma_row_count_zero(masks, w, y, dir::D, w + 1);
        assert forall|cx: int| 0 <= cx < w + 1 implies !has_bit(
            #[trigger] mask_at(masks, w, cx, y - 1),
            dir::U,
        ) by {
            assert(scanned(cx, y - 1, x, y));
        }
        assert(!has_bit(mask_at(masks, w, x, y), dir::D));
    }
    lemma_bits_of_small(m);
    assert(bit_count(m) == 1);
    crate::polys_from_raster_outline::lemma_bits_determine(m, dir::U);
    lemma_bits_of_small(dir::U);
}

/// At a corner with its upward edge left a walk can start.
pub proof fn lemma_walk_start(img: Seq<bool>, w: int, h: int, masks: Seq<u8>, x: int, y: int)
    requires
        scan_inv(img, w, h, masks, x, y),
        is_corner(w, h, x, y),
        has_bit(mask_at(masks, w, x, y), dir::U),
    ensures
        walk_inv(img, w, h, x, y, masks, x, y, dir::L, 0),
{
    lemma_scan_start(img, w, h, masks, x, y);
    assert forall|cx: int, cy: int| is_corner(w, h, cx, cy) implies #[trigger] balance_at(
        masks,
        w,
        h,
        cx,
        cy,
    ) == b2i(cx == x && cy == y) - b2i(cx == x && cy == y) by {}
}

/// Once the scan has passed every corner no edge is left.
pub proof fn lemma_scan_end(img: Seq<bool>, w: int, h: int, masks: Seq<u8>, cx: int, cy: int)
    requires
        scan_inv(img, w, h, masks, 0, h + 1),
        is_corner(w, h, cx, cy),
    ensures
        mask_at(masks, w, cx, cy) == 0,
{
    let m = mask_at(masks, w, cx, cy);
    assert(mask_within(img, w, h, cx, cy, m));
    assert(!has_bit(m, dir::U)) by {
        assert(scanned(cx, cy, 0, h + 1));
    }
    // no edge goes up, so none comes down
    if cy > 0 {
        lemma_row_flux(masks, img, w, h, cy - 1);
        lemma_row_count_zero(masks, w, cy - 1, dir::U, w + 1);
        lemma_row_count_zero(masks, w, cy, dir::D, w + 1);
        assert forall|ax: int| 0 <= ax < w + 1 implies !has_bit(
            #[trigger] mask_at(masks, w, ax, cy - 1),
            dir::U,
        ) by {
            assert(scanned(ax, cy - 1, 0, h + 1));
        }
    }
    assert(!has_bit(m, dir::D));
    // and along the row an edge to the right would meet one to the left
    lemma_row_level(img, w, h, masks, cy, cx);
    lemma_bits_of_small(m);
}

/// Where no edge goes up or down, none goes along row `cy` up to column `n`.
proof fn lemma_row_level(img: Seq<bool>, w: int, h: int, masks: Seq<u8>, cy: int, n: int)
    requires
        scan_inv(img, w, h, masks, 0, h + 1),
        0 <= cy <= h,
        0 <= n <= w,
    ensures
        !has_bit(mask_at(masks, w, n, cy), dir::L),
        !has_bit(mask_at(masks, w, n, cy), dir::R),
        n < w ==> !has_bit(mask_at(masks, w, n + 1, cy), dir::L),
    decreases n,
{
    let m = mask_at(masks, w, n, cy);
    assert(mask_within(img, w, h, n, cy, m));
    assert(balance_at(masks, w, h, n, cy) == 0);
    assert(!has_bit(m, dir::U)) by {
        assert(scanned(n, cy, 0, h + 1));
    }
    if cy > 0 {
        assert(!has_bit(mask_at(masks, w, n, cy - 1), dir::U)) by {
            assert(scanned(n, cy - 1, 0, h + 1));
        }
    }
    lemma_no_down(img, w, h, masks, n, cy);
    if cy < h {
        lemma_no_down(img, w, h, masks, n, cy + 1);
    }
    if n > 0 {
        lemma_row_level(img, w, h, masks, cy, n - 1);
    }
    if n < w {
        assert(mask_within(img, w, h, n + 1, cy, mask_at(masks, w, n + 1, cy)));
    }
}

/// Where no edge goes up, none goes down.
proof fn lemma_no_down(img: Seq<bool>, w: int, h: int, masks: Seq<u8>, cx: int, cy: int)
    requires
        scan_inv(img, w, h, masks, 0, h + 1),
        is_corner(w, h, cx, cy),
    ensures
        !has_bit(mask_at(masks, w, cx, cy), dir::D),
{
    assert(mask_within(img, w, h, cx, cy, mask_at(masks, w, cx, cy)));
    if cy > 0 {
        lemma_row_flux(masks, img, w, h, cy - 1);
        lemma_row_count_zero(masks, w, cy - 1, dir::U, w + 1);
        lemma_row_count_zero(masks, w, cy, dir::D, w + 1);
        assert forall|ax: int| 0 <= ax < w + 1 implies !has_bit(
            #[trigger] mask_at(masks, w, ax, cy - 1),
            dir::U,
        ) by {
            assert(scanned(ax, cy - 1, 0, h + 1));
        }
    }
}

// ---------------------------------------------------------------------------
// The edges a walk takes

/// Whether `e` names a corner of the lattice and a direction.
pub open spec fn is_edge(w: int, h: int, e: (int, int, u8)) -> bool {
    is_corner(w, h, e.0, e.1) && is_dir(e.2)
}

/// Whether the masks hold edge `e`.
pub open spec fn holds(masks: Seq<u8>, w: int, e: (int, int, u8)) -> bool {
    has_bit(mask_at(masks, w, e.0, e.1), e.2)
}

/// The edges a walk takes from the state it is in to its end, each as the
/// corner it leaves and its direction, in the order they are taken.
pub open spec fn walk_edges(
    img: Seq<bool>,
    w: int,
    h: int,
    policy: TurnPolicy,
    x0: int,
    y0: int,
    masks: Seq<u8>,
    x: int,
    y: int,
    d_prev: u8,
    handled: nat,
) -> Seq<(int, int, u8)>
    decreases total_bits(masks),
{
    let index = grid_index(x, y, w + 1);
    if handled != 0 && x == x0 && y == y0 {
        Seq::empty()
    } else if !(0 <= index < masks.len()) || masks[index] >= 16 {
        Seq::empty()
    } else {
        let d = masks[index];
        let d_next = next_direction(d, d_prev, turns_ccw(policy, img, w, h, x, y));
        if d_next == 0 {
            Seq::empty()
        } else {
            proof {
                lemma_next_direction(d, d_prev, turns_ccw(policy, img, w, h, x, y));
                lemma_bits_of_clear(d, d_next);
                lemma_total_bits_update(masks, index, d & !d_next);
            }
            seq![(x, y, d_next)] + walk_edges(
                img,
                w,
                h,
                policy,
                x0,
                y0,
                masks.update(index, d & !d_next),
                x + dir_dx(d_next),
                y + dir_dy(d_next),
                d_next,
                handled + 1,
            )
        }
    }
}

/// The polygon after a walk has been at each of `pts` in turn.
pub open spec fn extend_all(poly: Seq<(int, int)>, pts: Seq<(int, int)>, use_simplify: bool) -> Seq<
    (int, int),
>
    decreases pts.len(),
{
    if pts.len() == 0 {
        poly
    } else {
        extend_all(poly_extend(poly, pts[0].0, pts[0].1, use_simplify), pts.drop_first(), use_simplify)
    }
}

/// The corners that the edges leave.
pub open spec fn edge_starts(es: Seq<(int, int, u8)>) -> Seq<(int, int)> {
    Seq::new(es.len(), |i: int| (es[i].0, es[i].1))
}

/// The polygon of a closed walk along `es` from `(x0, y0)`: the walk is at
/// the start of each edge in turn and at last at `(x0, y0)` again, which is
/// dropped.
pub open spec fn trace_poly(es: Seq<(int, int, u8)>, x0: int, y0: int, use_simplify: bool) -> Seq<
    (int, int),
> {
    extend_all(Seq::empty(), edge_starts(es).push((x0, y0)), use_simplify).drop_last()
}

/// What a walk comes to: it ends back at its start, the masks balance
/// again, and the edges it took are exactly what the masks lost.
pub open spec fn walk_result_ok(
    img: Seq<bool>,
    w: int,
    h: int,
    x0: int,
    y0: int,
    masks: Seq<u8>,
    handled: nat,
    after: Seq<u8>,
    taken: nat,
    es: Seq<(int, int, u8)>,
) -> bool {
    &&& masks_within(after, img, w, h)
    &&& balanced(after, w, h)
    &&& !has_bit(mask_at(after, w, x0, y0), dir::U)
    &&& taken == handled + es.len()
    &&& taken >= 1
    &&& total_bits(after) + es.len() == total_bits(masks)
    &&& es.no_duplicates()
    &&& forall|i: int|
        0 <= i < es.len() ==> is_edge(w, h, #[trigger] es[i]) && holds(masks, w, es[i]) && !holds(
            after,
            w,
            es[i],
        )
    &&& forall|e: (int, int, u8)|
        is_edge(w, h, e) ==> (#[trigger] holds(masks, w, e) <==> holds(after, w, e) || es.contains(
            e,
        ))
}

/// A walk ends back at its start, having taken edges the masks held, each
/// once, and leaves the masks balanced.
#[verifier::rlimit(50)]
pub proof fn lemma_walk(
    img: Seq<bool>,
    w: int,
    h: int,
    policy: TurnPolicy,
    use_simplify: bool,
    x0: int,
    y0: int,
    masks: Seq<u8>,
    x: int,
    y: int,
    d_prev: u8,
    handled: nat,
    poly: Seq<(int, int)>,
)
    requires
        walk_inv(img, w, h, x0, y0, masks, x, y, d_prev, handled),
    ensures
        ({
            let r = walk(
                img,
                w,
                h,
                policy,
                use_simplify,
                x0,
                y0,
                masks,
                x,
                y,
                d_prev,
                handled,
                poly,
            );
            let es = walk_edges(img, w, h, policy, x0, y0, masks, x, y, d_prev, handled);
            &&& walk_result_ok(img, w, h, x0, y0, masks, handled, r.0, r.2, es)
            &&& r.1 == extend_all(poly, edge_starts(es).push((x0, y0)), use_simplify).drop_last()
        }),
    decreases total_bits(masks),
{
    let r = walk(img, w, h, policy, use_simplify, x0, y0, masks, x, y, d_prev, handled, poly);
    let es = walk_edges(img, w, h, policy, x0, y0, masks, x, y, d_prev, handled);
    let poly1 = poly_extend(poly, x, y, use_simplify);
    if walk_done(x0, y0, x, y, handled) {
        assert(es =~= Seq::<(int, int, u8)>::empty());
        assert forall|cx: int, cy: int| is_corner(w, h, cx, cy) implies #[trigger] balance_at(
            masks,
            w,
            h,
            cx,
            cy,
        ) == 0 by {}
        let pts = edge_starts(es).push((x0, y0));
        assert(pts.drop_first() =~= Seq::<(int, int)>::empty());
        assert(extend_all(poly1, pts.drop_first(), use_simplify) == poly1);
        assert(extend_all(poly, pts, use_simplify) == poly1);
    } else {
        let ccw = turns_ccw(policy, img, w, h, x, y);
        lemma_walk_step(img, w, h, x0, y0, masks, x, y, d_prev, handled, ccw);
        let index = grid_index(x, y, w + 1);
        let d = mask_at(masks, w, x, y);
        let d_next = next_direction(d, d_prev, ccw);
        let m1 = masks_after(masks, w, x, y, d_next);
        let x2 = x + dir_dx(d_next);
        let y2 = y + dir_dy(d_next);
        lemma_walk(
            img,
            w,
            h,
            policy,
            use_simplify,
            x0,
            y0,
            m1,
            x2,
            y2,
            d_next,
            handled + 1,
            poly1,
        );
        let r1 = walk(
            img,
            w,
            h,
            policy,
            use_simplify,
            x0,
            y0,
            m1,
            x2,
            y2,
            d_next,
            handled + 1,
            poly1,
        );
        let es1 = walk_edges(img, w, h, policy, x0, y0, m1, x2, y2, d_next, handled + 1);
        let e1 = (x, y, d_next);
        assert(r == r1);
        assert(es == seq![e1] + es1);
        lemma_step_balanced(masks, img, w, h, x, y, x0, y0, d_next);
        lemma_bits_of_clear(d, d_next);
        // what the masks hold after the step is what they held, but the edge
        assert forall|e: (int, int, u8)| is_edge(w, h, e) implies (#[trigger] holds(m1, w, e) <==> (
        holds(masks, w, e) && e != e1)) by {
            let m_e = mask_at(m1, w, e.0, e.1);
        }
        assert forall|i: int| 0 <= i < es.len() implies is_edge(w, h, #[trigger] es[i]) && holds(
            masks,
            w,
            es[i],
        ) && !holds(r.0, w, es[i]) by {
            if i > 0 {
                assert(es[i] == es1[i - 1]);
                assert(holds(m1, w, es1[i - 1]));
            } else {
                assert(!holds(m1, w, e1));
            }
        }
        assert(es.no_duplicates()) by {
            assert forall|i: int, j: int| 0 <= i < es.len() && 0 <= j < es.len() && i != j implies es[i]
                != es[j] by {
                if i > 0 {
                    assert(holds(m1, w, es1[i - 1]));
                }
                if j > 0 {
                    assert(holds(m1, w, es1[j - 1]));
                }
            }
        }
        assert forall|e: (int, int, u8)| is_edge(w, h, e) implies (#[trigger] holds(masks, w, e)
            <==> holds(r.0, w, e) || es.contains(e)) by {
            assert(holds(m1, w, e) <==> holds(r.0, w, e) || es1.contains(e));
            if es1.contains(e) {
                let i = choose|i: int| 0 <= i < es1.len() && es1[i] == e;
                assert(es[i + 1] == e);
            }
            if e == e1 {
                assert(es[0] == e);
            }
            if es.contains(e) {
                let i = choose|i: int| 0 <= i < es.len() && es[i] == e;
                if i > 0 {
                    assert(es1[i - 1] == e);
                }
            }
        }
        // the polygon
        let pts = edge_starts(es).push((x0, y0));
        let pts1 = edge_starts(es1).push((x0, y0));
        assert(pts.drop_first() =~= pts1);
        assert(pts[0] == (x, y));
    }
}

// ---------------------------------------------------------------------------
// The edges a scan takes

/// The edges of all the walks in `traces`, in order.
pub open spec fn all_edges(traces: Seq<Seq<(int, int, u8)>>) -> Seq<(int, int, u8)>
    decreases traces.len(),
{
    if traces.len() == 0 {
        Seq::empty()
    } else {
        all_edges(traces.drop_last()) + traces.last()
    }
}

/// The walks of a scan from corner `(x, y)` on, each as the edges it takes,
/// appended to `acc`.
pub open spec fn scan_traces(
    img: Seq<bool>,
    w: int,
    h: int,
    policy: TurnPolicy,
    use_simplify: bool,
    masks: Seq<u8>,
    x: int,
    y: int,
    steps_left: int,
    acc: Seq<Seq<(int, int, u8)>>,
) -> Seq<Seq<(int, int, u8)>>
    decreases h + 1 - y, w + 1 - x,
{
    if y > h {
        acc
    } else if x > w {
        scan_traces(img, w, h, policy, use_simplify, masks, 0, y + 1, steps_left, acc)
    } else if has_bit(mask_at(masks, w, x, y), dir::U) {
        let r = walk_from(img, w, h, policy, use_simplify, masks, x, y);
        let acc2 = acc.push(walk_edges(img, w, h, policy, x, y, masks, x, y, dir::L, 0));
        if steps_left == r.2 {
            acc2
        } else {
            scan_traces(img, w, h, policy, use_simplify, r.0, x + 1, y, steps_left - r.2, acc2)
        }
    } else {
        scan_traces(img, w, h, policy, use_simplify, masks, x + 1, y, steps_left, acc)
    }
}

/// The walks of the outline of a bitmap, each as the edges it takes.
pub open spec fn outline_traces(
    img: Seq<bool>,
    w: int,
    h: int,
    policy: TurnPolicy,
    use_simplify: bool,
) -> Seq<Seq<(int, int, u8)>> {
    scan_traces(
        img,
        w,
        h,
        policy,
        use_simplify,
        boundary_masks(img, w, h),
        0,
        0,
        total_bits(boundary_masks(img, w, h)) as int,
        Seq::empty(),
    )
}

/// The polygons of walks: each closed, with the vertices of its walk.
pub open spec fn trace_polys(traces: Seq<Seq<(int, int, u8)>>, use_simplify: bool) -> Seq<
    (bool, Seq<(int, int)>),
> {
    Seq::new(
        traces.len(),
        |k: int| (true, trace_poly(traces[k], traces[k][0].0, traces[k][0].1, use_simplify)),
    )
}

/// Masks without a bit hold no edge.
pub proof fn lemma_no_bits(masks: Seq<u8>, i: int)
    requires
        total_bits(masks) == 0,
        0 <= i < masks.len(),
    ensures
        bit_count(masks[i]) == 0,
    decreases masks.len(),
{
    if i < masks.len() - 1 {
        lemma_no_bits(masks.drop_last(), i);
    }
}

/// What holds of the walks a scan has made so far and the masks it has
/// left: between them they hold every boundary edge once.
pub open spec fn scan_taken(
    img: Seq<bool>,
    w: int,
    h: int,
    masks: Seq<u8>,
    steps_left: int,
    acc: Seq<Seq<(int, int, u8)>>,
) -> bool {
    let taken = all_edges(acc);
    &&& steps_left == total_bits(masks)
    &&& taken.no_duplicates()
    &&& forall|i: int|
        0 <= i < taken.len() ==> is_edge(w, h, #[trigger] taken[i]) && !holds(masks, w, taken[i])
    &&& forall|e: (int, int, u8)|
        is_edge(w, h, e) ==> (#[trigger] boundary_edge(img, w, h, e.0, e.1, e.2) <==> holds(
            masks,
            w,
            e,
        ) || taken.contains(e))
    &&& forall|k: int| 0 <= k < acc.len() ==> (#[trigger] acc[k]).len() >= 1
}

/// The walks of a scan take every boundary edge, each once, and the
/// polygons of the scan are the polygons of its walks.
#[verifier::rlimit(50)]
pub proof fn lemma_scan(
    img: Seq<bool>,
    w: int,
    h: int,
    policy: TurnPolicy,
    use_simplify: bool,
    masks: Seq<u8>,
    x: int,
    y: int,
    steps_left: int,
    acc: Seq<Seq<(int, int, u8)>>,
    polys: Seq<(bool, Seq<(int, int)>)>,
)
    requires
        scan_inv(img, w, h, masks, x, y),
        0 <= x,
        0 <= y,
        scan_taken(img, w, h, masks, steps_left, acc),
        polys == trace_polys(acc, use_simplify),
    ensures
        ({
            let traces = scan_traces(
                img,
                w,
                h,
                policy,
                use_simplify,
                masks,
                x,
                y,
                steps_left,
                acc,
            );
            let taken = all_edges(traces);
            &&& taken.no_duplicates()
            &&& forall|e: (int, int, u8)|
                #![trigger taken.contains(e)]
                taken.contains(e) <==> is_edge(w, h, e) && boundary_edge(img, w, h, e.0, e.1, e.2)
            &&& scan(img, w, h, policy, use_simplify, masks, x, y, steps_left, polys)
                == trace_polys(traces, use_simplify)
            &&& forall|k: int| 0 <= k < traces.len() ==> (#[trigger] traces[k]).len() >= 1
        }),
    decreases h + 1 - y, w + 1 - x,
{
    let taken = all_edges(acc);
    if y > h {
        assert forall|e: (int, int, u8)|
            #![trigger taken.contains(e)]
            taken.contains(e) <==> is_edge(w, h, e) && boundary_edge(
                img,
                w,
                h,
                e.0,
                e.1,
                e.2,
            ) by {
            if is_edge(w, h, e) {
                assert forall|cx: int, cy: int|
                    is_corner(w, h, cx, cy) && scanned(cx, cy, 0, h + 1) implies !has_bit(
                    #[trigger] mask_at(masks, w, cx, cy),
                    dir::U,
                ) by {
                    assert(scanned(cx, cy, x, y));
                }
                lemma_scan_end(img, w, h, masks, e.0, e.1);
                lemma_bits_of_small(0);
                assert(!holds(masks, w, e));
                assert(boundary_edge(img, w, h, e.0, e.1, e.2) <==> holds(masks, w, e)
                    || taken.contains(e));
            }
            if taken.contains(e) {
                let i = choose|i: int| 0 <= i < taken.len() && taken[i] == e;
                assert(is_edge(w, h, taken[i]));
            }
        }
    } else if x > w {
        assert forall|cx: int, cy: int|
            is_corner(w, h, cx, cy) && scanned(cx, cy, 0, y + 1) implies !has_bit(
            #[trigger] mask_at(masks, w, cx, cy),
            dir::U,
        ) by {
            assert(scanned(cx, cy, x, y));
        }
        lemma_scan(img, w, h, policy, use_simplify, masks, 0, y + 1, steps_left, acc, polys);
    } else if has_bit(mask_at(masks, w, x, y), dir::U) {
        lemma_walk_start(img, w, h, masks, x, y);
        lemma_walk(
            img,
            w,
            h,
            policy,
            use_simplify,
            x,
            y,
            masks,
            x,
            y,
            dir::L,
            0,
            Seq::empty(),
        );
        let r = walk_from(img, w, h, policy, use_simplify, masks, x, y);
        let es = walk_edges(img, w, h, policy, x, y, masks, x, y, dir::L, 0);
        let acc2 = acc.push(es);
        let polys2 = polys.push((true, r.1));
        assert(acc2.drop_last() =~= acc);
        let taken2 = all_edges(acc2);
        assert(taken2 == taken + es);
        // the first edge of the walk leaves the corner the walk starts at
        assert(es.len() >= 1);
        assert(es[0].0 == x && es[0].1 == y) by {
            lemma_walk_first(img, w, h, policy, x, y, masks);
        }
        assert(polys2 =~= trace_polys(acc2, use_simplify));
        // the walks so far and the masks left hold every boundary edge once
        vstd::seq_lib::lemma_no_dup_in_concat(taken, es);
        assert forall|i: int| 0 <= i < taken2.len() implies is_edge(w, h, #[trigger] taken2[i])
            && !holds(r.0, w, taken2[i]) by {
            if i < taken.len() {
                assert(taken2[i] == taken[i]);
                assert(!holds(masks, w, taken[i]));
            } else {
                assert(taken2[i] == es[i - taken.len()]);
            }
        }
        assert forall|e: (int, int, u8)| is_edge(w, h, e) implies (#[trigger] boundary_edge(
            img,
            w,
            h,
            e.0,
            e.1,
            e.2,
        ) <==> holds(r.0, w, e) || taken2.contains(e)) by {
            assert(holds(masks, w, e) <==> holds(r.0, w, e) || es.contains(e));
            if taken.contains(e) {
                let i = choose|i: int| 0 <= i < taken.len() && taken[i] == e;
                assert(taken2[i] == e);
            }
            if es.contains(e) {
                let i = choose|i: int| 0 <= i < es.len() && es[i] == e;
                assert(taken2[taken.len() + i] == e);
            }
            if taken2.contains(e) {
                let i = choose|i: int| 0 <= i < taken2.len() && taken2[i] == e;
                if i < taken.len() {
                    assert(taken[i] == e);
                } else {
                    assert(es[i - taken.len()] == e);
                }
            }
        }
        assert(scan_taken(img, w, h, r.0, steps_left - r.2, acc2));
        if steps_left == r.2 {
            assert forall|e: (int, int, u8)|
                #![trigger taken2.contains(e)]
                taken2.contains(e) <==> is_edge(w, h, e) && boundary_edge(
                    img,
                    w,
                    h,
                    e.0,
                    e.1,
                    e.2,
                ) by {
                if is_edge(w, h, e) {
                    lemma_grid_index_bounds(e.0, e.1, w + 1, h + 1);
                    lemma_no_bits(r.0, grid_index(e.0, e.1, w + 1));
                    assert(!holds(r.0, w, e));
                    assert(boundary_edge(img, w, h, e.0, e.1, e.2) <==> holds(r.0, w, e)
                        || taken2.contains(e));
                }
                if taken2.contains(e) {
                    let i = choose|i: int| 0 <= i < taken2.len() && taken2[i] == e;
                    assert(is_edge(w, h, taken2[i]));
                }
            }
        } else {
            assert forall|cx: int, cy: int|
                is_corner(w, h, cx, cy) && scanned(cx, cy, x + 1, y) implies !has_bit(
                #[trigger] mask_at(r.0, w, cx, cy),
                dir::U,
            ) by {
                if cx == x && cy == y {
                } else {
                    assert(scanned(cx, cy, x, y));
                    let e = (cx, cy, dir::U);
                    assert(is_edge(w, h, e));
                    assert(holds(masks, w, e) <==> holds(r.0, w, e) || es.contains(e));
                }
            }
            lemma_scan(
                img,
                w,
                h,
                policy,
                use_simplify,
                r.0,
                x + 1,
                y,
                steps_left - r.2,
                acc2,
                polys2,
            );
        }
    } else {
        assert forall|cx: int, cy: int|
            is_corner(w, h, cx, cy) && scanned(cx, cy, x + 1, y) implies !has_bit(
            #[trigger] mask_at(masks, w, cx, cy),
            dir::U,
        ) by {
            if cx == x && cy == y {
            } else {
                assert(scanned(cx, cy, x, y));
            }
        }
        lemma_scan(img, w, h, policy, use_simplify, masks, x + 1, y, steps_left, acc, polys);
    }
}

/// The first edge of a walk leaves the corner the walk starts at.
pub proof fn lemma_walk_first(
    img: Seq<bool>,
    w: int,
    h: int,
    policy: TurnPolicy,
    x0: int,
    y0: int,
    masks: Seq<u8>,
)
    requires
        walk_inv(img, w, h, x0, y0, masks, x0, y0, dir::L, 0),
    ensures
        walk_edges(img, w, h, policy, x0, y0, masks, x0, y0, dir::L, 0).len() >= 1,
        walk_edges(img, w, h, policy, x0, y0, masks, x0, y0, dir::L, 0)[0].0 == x0,
        walk_edges(img, w, h, policy, x0, y0, masks, x0, y0, dir::L, 0)[0].1 == y0,
{
    let ccw = turns_ccw(policy, img, w, h, x0, y0);
    lemma_walk_step(img, w, h, x0, y0, masks, x0, y0, dir::L, 0, ccw);
}

// ---------------------------------------------------------------------------
// The laws

/// The walks of an outline take the boundary edges of the bitmap and no
/// others, each exactly once: nothing is walked twice, and an edge is
/// walked exactly when it is an edge between a filled pixel and an empty
/// one (or the border).
pub proof fn law_outline_walks_boundary(
    img: Seq<bool>,
    w: int,
    h: int,
    policy: TurnPolicy,
    use_simplify: bool,
)
    requires
        0 <= w,
        0 <= h,
    ensures
        all_edges(outline_traces(img, w, h, policy, use_simplify)).no_duplicates(),
        forall|cx: int, cy: int, d: u8|
            #![trigger all_edges(outline_traces(img, w, h, policy, use_simplify)).contains((cx, cy, d))]
            all_edges(outline_traces(img, w, h, policy, use_simplify)).contains((cx, cy, d)) <==> (
            is_corner(w, h, cx, cy) && is_dir(d) && boundary_edge(img, w, h, cx, cy, d)),
{
    lemma_outline(img, w, h, policy, use_simplify);
    let taken = all_edges(outline_traces(img, w, h, policy, use_simplify));
    assert forall|cx: int, cy: int, d: u8|
        #![trigger taken.contains((cx, cy, d))]
        taken.contains((cx, cy, d)) <==> (is_corner(w, h, cx, cy) && is_dir(d) && boundary_edge(
            img,
            w,
            h,
            cx,
            cy,
            d,
        )) by {
        let e = (cx, cy, d);
        assert(taken.contains(e) <==> is_edge(w, h, e) && boundary_edge(img, w, h, e.0, e.1, e.2));
    }
}

/// The polygons of an outline are the polygons of its walks: each is
/// closed, and its vertices are the corners its walk passes, merged along
/// straight runs when simplifying.
pub proof fn law_outline_polys_of_walks(
    img: Seq<bool>,
    w: int,
    h: int,
    policy: TurnPolicy,
    use_simplify: bool,
)
    requires
        0 <= w,
        0 <= h,
    ensures
        outline_polys(img, w, h, policy, use_simplify) == trace_polys(
            outline_traces(img, w, h, policy, use_simplify),
            use_simplify,
        ),
        forall|k: int|
            0 <= k < outline_traces(img, w, h, policy, use_simplify).len() ==> (
            #[trigger] outline_traces(img, w, h, policy, use_simplify)[k]).len() >= 1,
{
    lemma_outline(img, w, h, policy, use_simplify);
}

proof fn lemma_outline(img: Seq<bool>, w: int, h: int, policy: TurnPolicy, use_simplify: bool)
    requires
        0 <= w,
        0 <= h,
    ensures
        ({
            let traces = outline_traces(img, w, h, policy, use_simplify);
            let taken = all_edges(traces);
            &&& taken.no_duplicates()
            &&& forall|e: (int, int, u8)|
                #![trigger taken.contains(e)]
                taken.contains(e) <==> is_edge(w, h, e) && boundary_edge(img, w, h, e.0, e.1, e.2)
            &&& outline_polys(img, w, h, policy, use_simplify) == trace_polys(traces, use_simplify)
            &&& forall|k: int| 0 <= k < traces.len() ==> (#[trigger] traces[k]).len() >= 1
        }),
{
    let bm = boundary_masks(img, w, h);
    lemma_boundary_balanced(img, w, h);
    let acc = Seq::<Seq<(int, int, u8)>>::empty();
    let polys = Seq::<(bool, Seq<(int, int)>)>::empty();
    assert(all_edges(acc) =~= Seq::<(int, int, u8)>::empty());
    assert(polys =~= trace_polys(acc, use_simplify));
    assert forall|e: (int, int, u8)| is_edge(w, h, e) implies (#[trigger] boundary_edge(
        img,
        w,
        h,
        e.0,
        e.1,
        e.2,
    ) <==> holds(bm, w, e) || all_edges(acc).contains(e)) by {
        lemma_boundary_masks_at(img, w, h, e.0, e.1);
        lemma_boundary_mask_bits(img, w, h, e.0, e.1);
    }
    lemma_scan(
        img,
        w,
        h,
        policy,
        use_simplify,
        bm,
        0,
        0,
        total_bits(bm) as int,
        acc,
        polys,
    );
}

} // verus!
