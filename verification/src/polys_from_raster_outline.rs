//! Outline extraction: closed integer polygons that trace the boundary
//! between filled and empty pixels.
//!
//! Vertices live on the lattice of pixel corners, `(w + 1) * (h + 1)` of them
//! for a `w` by `h` bitmap.  Every filled pixel contributes one oriented unit
//! edge for each side that faces an empty pixel or the border; the edges that
//! leave a corner are kept as a mask of direction bits.  A walk follows the
//! edges, clearing each bit as it goes, and where two edges leave a corner
//! (a 2x2 checker pattern) the turn policy picks one.

use vstd::prelude::*;
use crate::dir;
use crate::dir::{bit_if, has_bit};
use crate::outline_laws::{
    all_edges, law_outline_polys_of_walks, law_outline_walks_boundary, lemma_boundary_balanced,
    lemma_walk, lemma_walk_start, lemma_walk_step, masks_after, outline_traces, scan_inv, scanned,
    trace_polys, walk_edges, walk_inv, walk_result_ok,
};
use crate::raster::{
    grid_index, lemma_grid_index_bounds, lemma_grid_index_injective, pixel, poly_list_points,
    poly_points, xy, xy_is_filled_d, xy_is_filled_l, xy_is_filled_r, xy_is_filled_u,
};

verus! {

/// Largest width or height the extractors accept: vertex coordinates are
/// 32-bit and the majority vote looks a few pixels past a corner.
pub const SIZE_MAX: usize = 0x3fff_ffff;

/// Rule that resolves the ambiguous 2x2 checker pattern while walking.
#[derive(Copy, Clone, PartialEq, Eq, Structural, Debug)]
pub enum TurnPolicy {
    Black,
    White,
    Majority,
    Minority,
}

// ---------------------------------------------------------------------------
// Direction masks

/// Whether `d` is exactly one of the four direction bits.
pub open spec fn is_dir(d: u8) -> bool {
    d == dir::L || d == dir::R || d == dir::D || d == dir::U
}

/// Change of x when stepping in direction `d`.
pub open spec fn dir_dx(d: u8) -> int {
    if d == dir::L {
        -1
    } else if d == dir::R {
        1
    } else {
        0
    }
}

/// Change of y when stepping in direction `d`.
pub open spec fn dir_dy(d: u8) -> int {
    if d == dir::D {
        -1
    } else if d == dir::U {
        1
    } else {
        0
    }
}

/// Whether corner `(cx, cy)` is on the lattice of a `w` by `h` bitmap.
pub open spec fn is_corner(w: int, h: int, cx: int, cy: int) -> bool {
    0 <= cx <= w && 0 <= cy <= h
}

/// The mask of corner `(cx, cy)` in a row-major mask array.
pub open spec fn mask_at(masks: Seq<u8>, w: int, cx: int, cy: int) -> u8 {
    masks[grid_index(cx, cy, w + 1)]
}

/// Whether the boundary holds the unit edge that leaves corner `(cx, cy)` in
/// direction `dir`.  Edges run with the filled pixel on their right hand when
/// y points up: up the left side of a filled pixel, right along its top, down
/// its right side and left along its bottom.
pub open spec fn boundary_edge(img: Seq<bool>, w: int, h: int, cx: int, cy: int, dir: u8) -> bool {
    if dir == dir::U {
        pixel(img, w, h, cx, cy) && !pixel(img, w, h, cx - 1, cy)
    } else if dir == dir::D {
        pixel(img, w, h, cx - 1, cy - 1) && !pixel(img, w, h, cx, cy - 1)
    } else if dir == dir::L {
        pixel(img, w, h, cx - 1, cy) && !pixel(img, w, h, cx - 1, cy - 1)
    } else if dir == dir::R {
        pixel(img, w, h, cx, cy - 1) && !pixel(img, w, h, cx, cy)
    } else {
        false
    }
}

/// The direction bits of the boundary edges that leave corner `(cx, cy)`.
pub open spec fn boundary_mask(img: Seq<bool>, w: int, h: int, cx: int, cy: int) -> u8 {
    bit_if(boundary_edge(img, w, h, cx, cy, dir::L), dir::L) | bit_if(
        boundary_edge(img, w, h, cx, cy, dir::R),
        dir::R,
    ) | bit_if(boundary_edge(img, w, h, cx, cy, dir::D), dir::D) | bit_if(
        boundary_edge(img, w, h, cx, cy, dir::U),
        dir::U,
    )
}

/// The mask array of a bitmap before any edge is walked.
pub open spec fn boundary_masks(img: Seq<bool>, w: int, h: int) -> Seq<u8> {
    Seq::new(
        ((w + 1) * (h + 1)) as nat,
        |i: int| boundary_mask(img, w, h, i % (w + 1), i / (w + 1)),
    )
}

/// Number of direction bits in a mask.
pub open spec fn bit_count(m: u8) -> nat {
    (if has_bit(m, dir::L) {
        1nat
    } else {
        0nat
    }) + (if has_bit(m, dir::R) {
        1nat
    } else {
        0nat
    }) + (if has_bit(m, dir::D) {
        1nat
    } else {
        0nat
    }) + (if has_bit(m, dir::U) {
        1nat
    } else {
        0nat
    })
}

/// Number of direction bits in a mask array: the edges not yet walked.
pub open spec fn total_bits(masks: Seq<u8>) -> nat
    decreases masks.len(),
{
    if masks.len() == 0 {
        0
    } else {
        total_bits(masks.drop_last()) + bit_count(masks.last())
    }
}

/// Mask `m` holds only direction bits, each of them a boundary edge of the
/// bitmap at corner `(cx, cy)`.
pub open spec fn mask_within(img: Seq<bool>, w: int, h: int, cx: int, cy: int, m: u8) -> bool {
    &&& m < 16
    &&& has_bit(m, dir::L) ==> boundary_edge(img, w, h, cx, cy, dir::L)
    &&& has_bit(m, dir::R) ==> boundary_edge(img, w, h, cx, cy, dir::R)
    &&& has_bit(m, dir::D) ==> boundary_edge(img, w, h, cx, cy, dir::D)
    &&& has_bit(m, dir::U) ==> boundary_edge(img, w, h, cx, cy, dir::U)
}

/// A mask array of the right size whose every bit is a boundary edge.
pub open spec fn masks_within(masks: Seq<u8>, img: Seq<bool>, w: int, h: int) -> bool {
    &&& masks.len() == (w + 1) * (h + 1)
    &&& forall|cx: int, cy: int|
        is_corner(w, h, cx, cy) ==> mask_within(
            img,
            w,
            h,
            cx,
            cy,
            #[trigger] mask_at(masks, w, cx, cy),
        )
}

pub proof fn lemma_bits_of_or(m: u8, b: u8)
    requires
        m < 16,
        is_dir(b),
    ensures
        (m | b) < 16,
        has_bit(m | b, dir::L) == (has_bit(m, dir::L) || b == dir::L),
        has_bit(m | b, dir::R) == (has_bit(m, dir::R) || b == dir::R),
        has_bit(m | b, dir::D) == (has_bit(m, dir::D) || b == dir::D),
        has_bit(m | b, dir::U) == (has_bit(m, dir::U) || b == dir::U),
{
    assert((m | b) < 16 && ((m | b) & 1 != 0) == ((m & 1 != 0) || b == 1) && ((m | b) & 2 != 0) == (
    (m & 2 != 0) || b == 2) && ((m | b) & 4 != 0) == ((m & 4 != 0) || b == 4) && ((m | b) & 8 != 0)
        == ((m & 8 != 0) || b == 8)) by (bit_vector)
        requires
            m < 16,
            b == 1 || b == 2 || b == 4 || b == 8,
    ;
}

pub proof fn lemma_bits_of_clear(m: u8, b: u8)
    requires
        m < 16,
        is_dir(b),
    ensures
        (m & !b) < 16,
        has_bit(m & !b, dir::L) == (has_bit(m, dir::L) && b != dir::L),
        has_bit(m & !b, dir::R) == (has_bit(m, dir::R) && b != dir::R),
        has_bit(m & !b, dir::D) == (has_bit(m, dir::D) && b != dir::D),
        has_bit(m & !b, dir::U) == (has_bit(m, dir::U) && b != dir::U),
        has_bit(m, b) == (is_dir(b) && (m & b) == b),
{
    assert((m & !b) < 16 && ((m & !b) & 1 != 0) == ((m & 1 != 0) && b != 1) && ((m & !b) & 2 != 0)
        == ((m & 2 != 0) && b != 2) && ((m & !b) & 4 != 0) == ((m & 4 != 0) && b != 4) && ((m & !b)
        & 8 != 0) == ((m & 8 != 0) && b != 8) && ((m & b != 0) == ((m & b) == b))) by (bit_vector)
        requires
            m < 16,
            b == 1 || b == 2 || b == 4 || b == 8,
    ;
}

/// A mask below 16 is one direction bit exactly when it holds one bit, and
/// it is zero exactly when it holds none.
pub proof fn lemma_bits_of_small(m: u8)
    requires
        m < 16,
    ensures
        m == 0 <==> bit_count(m) == 0,
        is_dir(m) <==> bit_count(m) == 1,
        is_dir(m) ==> has_bit(m, m),
{
    assert((m == 0 <==> (m & 1 == 0 && m & 2 == 0 && m & 4 == 0 && m & 8 == 0)) && (m == 1 <==> (m
        & 1 != 0 && m & 2 == 0 && m & 4 == 0 && m & 8 == 0)) && (m == 2 <==> (m & 1 == 0 && m & 2
        != 0 && m & 4 == 0 && m & 8 == 0)) && (m == 4 <==> (m & 1 == 0 && m & 2 == 0 && m & 4 != 0
        && m & 8 == 0)) && (m == 8 <==> (m & 1 == 0 && m & 2 == 0 && m & 4 == 0 && m & 8 != 0))
        && (m & m == m)) by (bit_vector)
        requires
            m < 16,
    ;
}

/// Two masks below 16 with the same direction bits are the same mask.
pub proof fn lemma_bits_determine(a: u8, b: u8)
    requires
        a < 16,
        b < 16,
        has_bit(a, dir::L) == has_bit(b, dir::L),
        has_bit(a, dir::R) == has_bit(b, dir::R),
        has_bit(a, dir::D) == has_bit(b, dir::D),
        has_bit(a, dir::U) == has_bit(b, dir::U),
    ensures
        a == b,
{
    assert(a == b) by (bit_vector)
        requires
            a < 16,
            b < 16,
            (a & 1 != 0) == (b & 1 != 0),
            (a & 2 != 0) == (b & 2 != 0),
            (a & 4 != 0) == (b & 4 != 0),
            (a & 8 != 0) == (b & 8 != 0),
    ;
}

/// The bits of a boundary mask are the boundary edges.
pub proof fn lemma_boundary_mask_bits(img: Seq<bool>, w: int, h: int, cx: int, cy: int)
    ensures
        boundary_mask(img, w, h, cx, cy) < 16,
        has_bit(boundary_mask(img, w, h, cx, cy), dir::L) == boundary_edge(img, w, h, cx, cy, dir::L),
        has_bit(boundary_mask(img, w, h, cx, cy), dir::R) == boundary_edge(img, w, h, cx, cy, dir::R),
        has_bit(boundary_mask(img, w, h, cx, cy), dir::D) == boundary_edge(img, w, h, cx, cy, dir::D),
        has_bit(boundary_mask(img, w, h, cx, cy), dir::U) == boundary_edge(img, w, h, cx, cy, dir::U),
{
    let l = bit_if(boundary_edge(img, w, h, cx, cy, dir::L), dir::L);
    let r = bit_if(boundary_edge(img, w, h, cx, cy, dir::R), dir::R);
    let d = bit_if(boundary_edge(img, w, h, cx, cy, dir::D), dir::D);
    let u = bit_if(boundary_edge(img, w, h, cx, cy, dir::U), dir::U);
    assert((l | r | d | u) < 16 && (((l | r | d | u) & 1 != 0) == (l == 1)) && (((l | r | d | u) & 2
        != 0) == (r == 2)) && (((l | r | d | u) & 4 != 0) == (d == 4)) && (((l | r | d | u) & 8
        != 0) == (u == 8))) by (bit_vector)
        requires
            l == 0 || l == 1,
            r == 0 || r == 2,
            d == 0 || d == 4,
            u == 0 || u == 8,
    ;
}

pub proof fn lemma_total_bits_update(masks: Seq<u8>, i: int, v: u8)
    requires
        0 <= i < masks.len(),
    ensures
        total_bits(masks.update(i, v)) + bit_count(masks[i]) == total_bits(masks) + bit_count(v),
    decreases masks.len(),
{
    let m2 = masks.update(i, v);
    if i == masks.len() - 1 {
        assert(m2.drop_last() =~= masks.drop_last());
    } else {
        lemma_total_bits_update(masks.drop_last(), i, v);
        assert(m2.drop_last() =~= masks.drop_last().update(i, v));
    }
}

pub proof fn lemma_total_bits_bound(masks: Seq<u8>)
    ensures
        total_bits(masks) <= 4 * masks.len(),
    decreases masks.len(),
{
    if masks.len() > 0 {
        lemma_total_bits_bound(masks.drop_last());
    }
}

pub proof fn lemma_total_bits_zero(masks: Seq<u8>)
    requires
        forall|i: int| 0 <= i < masks.len() ==> masks[i] == 0,
    ensures
        total_bits(masks) == 0,
    decreases masks.len(),
{
    if masks.len() > 0 {
        lemma_total_bits_zero(masks.drop_last());
        lemma_bits_of_small(masks.last());
    }
}

// ---------------------------------------------------------------------------
// The turn rule

fn pixel_vote(px: i32, py: i32, image: &[bool], size: &[i32; 2]) -> (r: i32)
    requires
        size[0] >= 0,
        size[1] >= 0,
        image@.len() == size[0] * size[1],
    ensures
        r == vote(image@, size[0] as int, size[1] as int, px as int, py as int),
{
    let filled = if (px >= 0 && px < size[0]) && (py >= 0 && py < size[1]) {
        proof {
            assert(image.len() == image@.len());
            lemma_grid_index_bounds(px as int, py as int, size[0] as int, size[1] as int);
        }
        image[xy(px as usize, py as usize, size[0] as usize)]
    } else {
        false
    };
    if filled {
        1
    } else {
        -1
    }
}

/// One pixel's voice in a majority vote: `1` when filled, `-1` when empty
/// or outside the bitmap.
pub open spec fn vote(img: Seq<bool>, w: int, h: int, x: int, y: int) -> int {
    if pixel(img, w, h, x, y) {
        1
    } else {
        -1
    }
}

/// The four pixels that step `a` adds to the ring of radius `i` around
/// corner `(x, y)`.
pub open spec fn ring_term(img: Seq<bool>, w: int, h: int, x: int, y: int, i: int, a: int) -> int {
    vote(img, w, h, x + a, y + i - 1) + vote(img, w, h, x + i - 1, y + a - 1) + vote(
        img,
        w,
        h,
        x + a - 1,
        y - i,
    ) + vote(img, w, h, x - i, y + a)
}

/// Votes of the ring of radius `i` for the steps below `a`.
pub open spec fn ring_sum(img: Seq<bool>, w: int, h: int, x: int, y: int, i: int, a: int) -> int
    decreases a + i,
{
    if a <= -i + 1 {
        0
    } else {
        ring_sum(img, w, h, x, y, i, a - 1) + ring_term(img, w, h, x, y, i, a - 1)
    }
}

/// Filled minus empty pixels on the ring of radius `i` around corner `(x, y)`.
pub open spec fn ring_votes(img: Seq<bool>, w: int, h: int, x: int, y: int, i: int) -> int {
    ring_sum(img, w, h, x, y, i, i)
}

/// Whether filled pixels outnumber empty ones around corner `(x, y)`: the
/// innermost ring of radius 2, 3 or 4 that is not tied decides, and a tie on
/// all three counts as no majority.
pub open spec fn majority_at(img: Seq<bool>, w: int, h: int, x: int, y: int) -> bool {
    let v2 = ring_votes(img, w, h, x, y, 2);
    let v3 = ring_votes(img, w, h, x, y, 3);
    let v4 = ring_votes(img, w, h, x, y, 4);
    if v2 != 0 {
        v2 > 0
    } else if v3 != 0 {
        v3 > 0
    } else {
        v4 > 0
    }
}

#[verifier::rlimit(50)]
fn is_majority(x: i32, y: i32, image: &[bool], size: &[i32; 2]) -> (r: bool)
    requires
        0 <= size[0] <= SIZE_MAX,
        0 <= size[1] <= SIZE_MAX,
        0 <= x <= size[0],
        0 <= y <= size[1],
        image@.len() == size[0] * size[1],
    ensures
        r == majority_at(image@, size[0] as int, size[1] as int, x as int, y as int),
{
    let ghost img = image@;
    let ghost w = size[0] as int;
    let ghost h = size[1] as int;
    let mut i: i32 = 2;
    while i < 5
        invariant
            2 <= i <= 5,
            0 <= size[0] <= SIZE_MAX,
            0 <= size[1] <= SIZE_MAX,
            0 <= x <= size[0],
            0 <= y <= size[1],
            image@.len() == size[0] * size[1],
            img == image@,
            w == size[0],
            h == size[1],
            forall|j: int| 2 <= j < i ==> ring_votes(img, w, h, x as int, y as int, j) == 0,
        decreases 5 - i,
    {
        let mut ct: i32 = 0;
        let mut a: i32 = -i + 1;
        while a < i
            invariant
                2 <= i < 5,
                -i + 1 <= a <= i,
                0 <= size[0] <= SIZE_MAX,
                0 <= size[1] <= SIZE_MAX,
                0 <= x <= size[0],
                0 <= y <= size[1],
                image@.len() == size[0] * size[1],
                img == image@,
                w == size[0],
                h == size[1],
                ct == ring_sum(img, w, h, x as int, y as int, i as int, a as int),
                -4 * (a + i) <= ct <= 4 * (a + i),
            decreases i - a,
        {
            ct += pixel_vote(x + a, y + i - 1, image, size);
            ct += pixel_vote(x + i - 1, y + a - 1, image, size);
            ct += pixel_vote(x + a - 1, y - i, image, size);
            ct += pixel_vote(x - i, y + a, image, size);
            a += 1;
        }
        if ct > 0 {
            return true;
        } else if ct < 0 {
            return false;
        }
        i += 1;
    }
    false
}

/// Whether the walk turns counter-clockwise at an ambiguous corner.
pub open spec fn turns_ccw(policy: TurnPolicy, img: Seq<bool>, w: int, h: int, x: int, y: int) -> bool {
    match policy {
        TurnPolicy::Black => true,
        TurnPolicy::White => false,
        TurnPolicy::Majority => majority_at(img, w, h, x, y),
        TurnPolicy::Minority => !majority_at(img, w, h, x, y),
    }
}

/// The first of `a`, `b`, `c` that mask `d` holds; 0 when it holds none.
pub open spec fn first_match(d: u8, a: u8, b: u8, c: u8) -> u8 {
    if d & a != 0 {
        a
    } else if d & b != 0 {
        b
    } else if d & c != 0 {
        c
    } else {
        0
    }
}

/// The direction the walk leaves a corner in, given the mask `d` of the
/// corner and the direction `d_prev` it arrived in.  A single bit is
/// followed.  Otherwise the walk never turns back: it tries the turn to one
/// side, then straight on, then the turn to the other side, the first side
/// being chosen by `turn_ccw`.  The result is 0 when no bit fits.
pub open spec fn next_direction(d: u8, d_prev: u8, turn_ccw: bool) -> u8 {
    if is_dir(d) {
        d
    } else if !turn_ccw {
        if d_prev == dir::L {
            first_match(d, dir::D, dir::L, dir::U)
        } else if d_prev == dir::U {
            first_match(d, dir::L, dir::U, dir::R)
        } else if d_prev == dir::R {
            first_match(d, dir::U, dir::R, dir::D)
        } else if d_prev == dir::D {
            first_match(d, dir::R, dir::D, dir::L)
        } else {
            0
        }
    } else {
        if d_prev == dir::L {
            first_match(d, dir::U, dir::L, dir::D)
        } else if d_prev == dir::U {
            first_match(d, dir::R, dir::U, dir::L)
        } else if d_prev == dir::R {
            first_match(d, dir::D, dir::R, dir::U)
        } else if d_prev == dir::D {
            first_match(d, dir::L, dir::D, dir::R)
        } else {
            0
        }
    }
}

/// The direction taken is one the mask holds, if any is taken.
pub proof fn lemma_next_direction(d: u8, d_prev: u8, turn_ccw: bool)
    requires
        d < 16,
    ensures
        next_direction(d, d_prev, turn_ccw) == 0 || (is_dir(next_direction(d, d_prev, turn_ccw))
            && has_bit(d, next_direction(d, d_prev, turn_ccw))),
{
    lemma_bits_of_small(d);
}

fn step_first_match(d: u8, a: u8, b: u8, c: u8) -> (r: u8)
    ensures
        r == first_match(d, a, b, c),
{
    if (d & a) != 0 {
        a
    } else if (d & b) != 0 {
        b
    } else if (d & c) != 0 {
        c
    } else {
        0
    }
}

/// From the previous direction, take the nearest next step.
fn step_direction(
    d: u8,
    d_prev: u8,
    turn_policy: TurnPolicy,
    x: i32,
    y: i32,
    image: &[bool],
    size: &[i32; 2],
) -> (r: u8)
    requires
        0 <= size[0] <= SIZE_MAX,
        0 <= size[1] <= SIZE_MAX,
        0 <= x <= size[0],
        0 <= y <= size[1],
        image@.len() == size[0] * size[1],
    ensures
        r == next_direction(
            d,
            d_prev,
            turns_ccw(turn_policy, image@, size[0] as int, size[1] as int, x as int, y as int),
        ),
{
    if d == dir::L || d == dir::R || d == dir::D || d == dir::U {
        // non-ambiguous case
        d
    } else {
        // ambiguous case
        let turn_ccw: bool = match turn_policy {
            TurnPolicy::Black => true,
            TurnPolicy::White => false,
            TurnPolicy::Majority => is_majority(x, y, image, size),
            TurnPolicy::Minority => !is_majority(x, y, image, size),
        };

        if turn_ccw == false {
            if d_prev == dir::L {
                step_first_match(d, dir::D, dir::L, dir::U)
            } else if d_prev == dir::U {
                step_first_match(d, dir::L, dir::U, dir::R)
            } else if d_prev == dir::R {
                step_first_match(d, dir::U, dir::R, dir::D)
            } else if d_prev == dir::D {
                step_first_match(d, dir::R, dir::D, dir::L)
            } else {
                0
            }
        } else {
            if d_prev == dir::L {
                step_first_match(d, dir::U, dir::L, dir::D)
            } else if d_prev == dir::U {
                step_first_match(d, dir::R, dir::U, dir::L)
            } else if d_prev == dir::R {
                step_first_match(d, dir::D, dir::R, dir::U)
            } else if d_prev == dir::D {
                step_first_match(d, dir::L, dir::D, dir::R)
            } else {
                0
            }
        }
    }
}

// ---------------------------------------------------------------------------
// The walk

/// Whether `c` continues the axis-aligned run from `a` to `b`.
pub open spec fn on_axis(a: (int, int), b: (int, int), c: (int, int)) -> bool {
    (c.0 == a.0 && c.0 == b.0) || (c.1 == a.1 && c.1 == b.1)
}

/// The polygon after the walk reaches `(x, y)`: when simplifying, a vertex
/// that continues the run of the last two replaces the last one; otherwise
/// it is appended.
pub open spec fn poly_extend(poly: Seq<(int, int)>, x: int, y: int, use_simplify: bool) -> Seq<
    (int, int),
> {
    if use_simplify && poly.len() > 1 && on_axis(poly[poly.len() - 2], poly[poly.len() - 1], (x, y)) {
        poly.update(poly.len() - 1, (x, y))
    } else {
        poly.push((x, y))
    }
}

/// One walk, from the state it is in to its end: the masks it leaves, the
/// polygon it produces and the number of edges it has taken.
///
/// The walk records where it stands, stops when it is back at the start
/// corner `(x0, y0)` after at least one step (dropping the vertex just
/// recorded), and otherwise leaves the corner by `next_direction`, clearing
/// the bit of the edge it takes.  It also stops where no edge can be taken.
pub open spec fn walk(
    img: Seq<bool>,
    w: int,
    h: int,
    policy: TurnPolicy,
    use_simplify: bool,
    x0: int,
    y0: int,
    masks: Seq<u8>,
    x: int,
    y: int,
    d_prev: u8,
    handled: nat,
    poly: Seq<(int, int)>,
) -> (Seq<u8>, Seq<(int, int)>, nat)
    decreases total_bits(masks),
{
    let poly1 = poly_extend(poly, x, y, use_simplify);
    let index = grid_index(x, y, w + 1);
    if handled != 0 && x == x0 && y == y0 {
        (masks, poly1.drop_last(), handled)
    } else if !(0 <= index < masks.len()) || masks[index] >= 16 {
        (masks, poly1, handled)
    } else {
        let d = masks[index];
        let d_next = next_direction(d, d_prev, turns_ccw(policy, img, w, h, x, y));
        if d_next == 0 {
            (masks, poly1, handled)
        } else {
            proof {
                lemma_next_direction(d, d_prev, turns_ccw(policy, img, w, h, x, y));
                lemma_bits_of_clear(d, d_next);
                lemma_total_bits_update(masks, index, d & !d_next);
            }
            walk(
                img,
                w,
                h,
                policy,
                use_simplify,
                x0,
                y0,
                masks.update(index, d & !d_next),
                x + dir_dx(d_next),
                y + dir_dy(d_next),
                d_next,
                handled + 1,
                poly1,
            )
        }
    }
}

/// A walk started at corner `(x0, y0)` as the scan starts it: no step taken
/// yet, as if it had arrived leftwards.
pub open spec fn walk_from(
    img: Seq<bool>,
    w: int,
    h: int,
    policy: TurnPolicy,
    use_simplify: bool,
    masks: Seq<u8>,
    x0: int,
    y0: int,
) -> (Seq<u8>, Seq<(int, int)>, nat) {
    walk(img, w, h, policy, use_simplify, x0, y0, masks, x0, y0, dir::L, 0, Seq::empty())
}

/// The polygons found from corner `(x, y)` on in scan order (rows from the
/// bottom, each left to right), appended to `acc`.  A walk starts at every
/// corner that still has its upward edge; the scan ends early once
/// `steps_left` edges have been walked.
pub open spec fn scan(
    img: Seq<bool>,
    w: int,
    h: int,
    policy: TurnPolicy,
    use_simplify: bool,
    masks: Seq<u8>,
    x: int,
    y: int,
    steps_left: int,
    acc: Seq<(bool, Seq<(int, int)>)>,
) -> Seq<(bool, Seq<(int, int)>)>
    decreases h + 1 - y, w + 1 - x,
{
    if y > h {
        acc
    } else if x > w {
        scan(img, w, h, policy, use_simplify, masks, 0, y + 1, steps_left, acc)
    } else if has_bit(mask_at(masks, w, x, y), dir::U) {
        let r = walk_from(img, w, h, policy, use_simplify, masks, x, y);
        let acc2 = acc.push((true, r.1));
        if steps_left == r.2 {
            acc2
        } else {
            scan(img, w, h, policy, use_simplify, r.0, x + 1, y, steps_left - r.2, acc2)
        }
    } else {
        scan(img, w, h, policy, use_simplify, masks, x + 1, y, steps_left, acc)
    }
}

/// The outline polygons of a bitmap: the scan over its boundary masks.
pub open spec fn outline_polys(
    img: Seq<bool>,
    w: int,
    h: int,
    policy: TurnPolicy,
    use_simplify: bool,
) -> Seq<(bool, Seq<(int, int)>)> {
    scan(
        img,
        w,
        h,
        policy,
        use_simplify,
        boundary_masks(img, w, h),
        0,
        0,
        total_bits(boundary_masks(img, w, h)) as int,
        Seq::empty(),
    )
}

// ---------------------------------------------------------------------------
// Mask arrays

/// `after` is `before` with the mask of corner `(cx, cy)` replaced by `m`.
pub open spec fn masks_updated(
    before: Seq<u8>,
    after: Seq<u8>,
    w: int,
    h: int,
    cx: int,
    cy: int,
    m: u8,
) -> bool {
    &&& after.len() == before.len()
    &&& forall|ax: int, ay: int|
        is_corner(w, h, ax, ay) ==> #[trigger] mask_at(after, w, ax, ay) == (if ax == cx && ay
            == cy {
            m
        } else {
            mask_at(before, w, ax, ay)
        })
}

pub proof fn lemma_masks_updated(before: Seq<u8>, w: int, h: int, cx: int, cy: int, m: u8)
    requires
        is_corner(w, h, cx, cy),
        before.len() == (w + 1) * (h + 1),
    ensures
        0 <= grid_index(cx, cy, w + 1) < before.len(),
        masks_updated(before, before.update(grid_index(cx, cy, w + 1), m), w, h, cx, cy, m),
{
    lemma_grid_index_bounds(cx, cy, w + 1, h + 1);
    let after = before.update(grid_index(cx, cy, w + 1), m);
    assert forall|ax: int, ay: int| is_corner(w, h, ax, ay) implies #[trigger] mask_at(
        after,
        w,
        ax,
        ay,
    ) == (if ax == cx && ay == cy {
        m
    } else {
        mask_at(before, w, ax, ay)
    }) by {
        lemma_grid_index_bounds(ax, ay, w + 1, h + 1);
        if grid_index(ax, ay, w + 1) == grid_index(cx, cy, w + 1) {
            lemma_grid_index_injective(ax, ay, cx, cy, w + 1);
        }
    }
}

/// Add the edge that leaves corner `(cx, cy)` in direction `bit`.
fn mask_set(pimage: &mut Vec<u8>, psize: &[usize; 2], cx: usize, cy: usize, bit: u8)
    requires
        old(pimage)@.len() == psize[0] * psize[1],
        cx < psize[0],
        cy < psize[1],
        is_dir(bit),
        mask_at(old(pimage)@, psize[0] - 1, cx as int, cy as int) < 16,
        !has_bit(mask_at(old(pimage)@, psize[0] - 1, cx as int, cy as int), bit),
    ensures
        masks_updated(
            old(pimage)@,
            final(pimage)@,
            psize[0] - 1,
            psize[1] - 1,
            cx as int,
            cy as int,
            mask_at(old(pimage)@, psize[0] - 1, cx as int, cy as int) | bit,
        ),
        total_bits(final(pimage)@) == total_bits(old(pimage)@) + 1,
{
    let ghost before = pimage@;
    let ghost m = mask_at(before, psize[0] - 1, cx as int, cy as int);
    proof {
        lemma_masks_updated(before, psize[0] - 1, psize[1] - 1, cx as int, cy as int, m | bit);
        lemma_total_bits_update(before, grid_index(cx as int, cy as int, psize[0] as int), m | bit);
        lemma_bits_of_or(m, bit);
        assert(pimage.len() == pimage@.len());
    }
    let index = xy(cx, cy, psize[0]);
    pimage[index] |= bit;
}

/// Pixels before `(x, y)` in scan order.
spec fn stamped(px: int, py: int, x: int, y: int) -> bool {
    py < y || (py == y && px < x)
}

/// Mask `m` of corner `(cx, cy)` holds the boundary edges that the pixels
/// before `(x, y)` contribute.
spec fn mask_partial(img: Seq<bool>, w: int, h: int, cx: int, cy: int, x: int, y: int, m: u8) -> bool {
    &&& m < 16
    &&& has_bit(m, dir::U) == (boundary_edge(img, w, h, cx, cy, dir::U) && stamped(cx, cy, x, y))
    &&& has_bit(m, dir::D) == (boundary_edge(img, w, h, cx, cy, dir::D) && stamped(
        cx - 1,
        cy - 1,
        x,
        y,
    ))
    &&& has_bit(m, dir::L) == (boundary_edge(img, w, h, cx, cy, dir::L) && stamped(cx - 1, cy, x, y))
    &&& has_bit(m, dir::R) == (boundary_edge(img, w, h, cx, cy, dir::R) && stamped(cx, cy - 1, x, y))
}

spec fn masks_partial(masks: Seq<u8>, img: Seq<bool>, w: int, h: int, x: int, y: int) -> bool {
    &&& masks.len() == (w + 1) * (h + 1)
    &&& forall|cx: int, cy: int|
        is_corner(w, h, cx, cy) ==> mask_partial(
            img,
            w,
            h,
            cx,
            cy,
            x,
            y,
            #[trigger] mask_at(masks, w, cx, cy),
        )
}

/// Machine limits of the extractor: coordinates fit 32-bit vertices and the
/// edge count fits a `usize`.
pub open spec fn outline_size_ok(w: int, h: int) -> bool {
    &&& 0 <= w <= SIZE_MAX
    &&& 0 <= h <= SIZE_MAX
    &&& 4 * ((w + 1) * (h + 1)) <= usize::MAX
}

/// Stamp the boundary edges of pixel `(x, y)` into the masks of its corners.
#[verifier::rlimit(50)]
fn stamp_pixel(
    image: &[bool],
    size: &[usize; 2],
    pimage: &mut Vec<u8>,
    psize: &[usize; 2],
    x: usize,
    y: usize,
    steps_total: &mut usize,
)
    requires
        image@.len() == size[0] * size[1],
        outline_size_ok(size[0] as int, size[1] as int),
        psize[0] == size[0] + 1,
        psize[1] == size[1] + 1,
        x < size[0],
        y < size[1],
        masks_partial(old(pimage)@, image@, size[0] as int, size[1] as int, x as int, y as int),
        *old(steps_total) == total_bits(old(pimage)@),
    ensures
        masks_partial(final(pimage)@, image@, size[0] as int, size[1] as int, x + 1, y as int),
        *final(steps_total) == total_bits(final(pimage)@),
{
    let ghost img = image@;
    let ghost w = size[0] as int;
    let ghost h = size[1] as int;
    let ghost m0 = pimage@;
    proof {
        lemma_grid_index_bounds(x as int, y as int, w, h);
        assert(image.len() == image@.len());
        lemma_total_bits_bound(m0);
        let x0 = x as int;
        let y0 = y as int;
        assert(mask_partial(img, w, h, x0, y0, x0, y0, mask_at(m0, w, x0, y0)));
        assert(mask_partial(img, w, h, x0 + 1, y0 + 1, x0, y0, mask_at(m0, w, x0 + 1, y0 + 1)));
        assert(mask_partial(img, w, h, x0 + 1, y0, x0, y0, mask_at(m0, w, x0 + 1, y0)));
        assert(mask_partial(img, w, h, x0, y0 + 1, x0, y0, mask_at(m0, w, x0, y0 + 1)));
    }
    let index = xy(x, y, size[0]);
    if image[index] {
        if !xy_is_filled_l(image, size, x, y) {
            mask_set(pimage, psize, x, y, dir::U);
            proof {
                lemma_total_bits_bound(pimage@);
            }
            *steps_total += 1;
        }
        let ghost m1 = pimage@;
        if !xy_is_filled_r(image, size, x, y) {
            mask_set(pimage, psize, x + 1, y + 1, dir::D);
            proof {
                lemma_total_bits_bound(pimage@);
            }
            *steps_total += 1;
        }
        let ghost m2 = pimage@;
        if !xy_is_filled_d(image, size, x, y) {
            mask_set(pimage, psize, x + 1, y, dir::L);
            proof {
                lemma_total_bits_bound(pimage@);
            }
            *steps_total += 1;
        }
        let ghost m3 = pimage@;
        if !xy_is_filled_u(image, size, x, y) {
            mask_set(pimage, psize, x, y + 1, dir::R);
            proof {
                lemma_total_bits_bound(pimage@);
            }
            *steps_total += 1;
        }
        proof {
            let m4 = pimage@;
            assert forall|cx: int, cy: int| is_corner(w, h, cx, cy) implies mask_partial(
                img,
                w,
                h,
                cx,
                cy,
                x + 1,
                y as int,
                #[trigger] mask_at(m4, w, cx, cy),
            ) by {
                let a0 = mask_at(m0, w, cx, cy);
                let a1 = mask_at(m1, w, cx, cy);
                let a2 = mask_at(m2, w, cx, cy);
                let a3 = mask_at(m3, w, cx, cy);
                assert(mask_partial(img, w, h, cx, cy, x as int, y as int, a0));
                if cx == x && cy == y {
                    lemma_bits_of_or(a0, dir::U);
                } else if cx == x + 1 && cy == y + 1 {
                    lemma_bits_of_or(a1, dir::D);
                } else if cx == x + 1 && cy == y {
                    lemma_bits_of_or(a2, dir::L);
                } else if cx == x && cy == y + 1 {
                    lemma_bits_of_or(a3, dir::R);
                }
            }
        }
    } else {
        proof {
            assert forall|cx: int, cy: int| is_corner(w, h, cx, cy) implies mask_partial(
                img,
                w,
                h,
                cx,
                cy,
                x + 1,
                y as int,
                #[trigger] mask_at(m0, w, cx, cy),
            ) by {
                assert(mask_partial(img, w, h, cx, cy, x as int, y as int, mask_at(m0, w, cx, cy)));
            }
        }
    }
}

/// Masks that hold every pixel's edges are the boundary masks.
#[verifier::rlimit(50)]
proof fn lemma_masks_complete(masks: Seq<u8>, img: Seq<bool>, w: int, h: int)
    requires
        0 <= w,
        0 <= h,
        masks_partial(masks, img, w, h, 0, h),
    ensures
        masks == boundary_masks(img, w, h),
        masks_within(masks, img, w, h),
{
    let bm = boundary_masks(img, w, h);
    assert forall|i: int| 0 <= i < masks.len() implies masks[i] == bm[i] by {
        let cx = i % (w + 1);
        let cy = i / (w + 1);
        lemma_index_to_corner(i, w, h);
        assert(mask_partial(img, w, h, cx, cy, 0, h, mask_at(masks, w, cx, cy)));
        lemma_boundary_mask_bits(img, w, h, cx, cy);
        lemma_bits_determine(masks[i], boundary_mask(img, w, h, cx, cy));
    }
    assert(masks =~= bm);
    assert forall|cx: int, cy: int| is_corner(w, h, cx, cy) implies mask_within(
        img,
        w,
        h,
        cx,
        cy,
        #[trigger] mask_at(masks, w, cx, cy),
    ) by {
        assert(mask_partial(img, w, h, cx, cy, 0, h, mask_at(masks, w, cx, cy)));
    }
}

/// A position in the mask array is the index of a corner.
pub proof fn lemma_index_to_corner(i: int, w: int, h: int)
    requires
        0 <= w,
        0 <= h,
        0 <= i < (w + 1) * (h + 1),
    ensures
        is_corner(w, h, i % (w + 1), i / (w + 1)),
        grid_index(i % (w + 1), i / (w + 1), w + 1) == i,
{
    let pw = w + 1;
    vstd::arithmetic::div_mod::lemma_fundamental_div_mod(i, pw);
    vstd::arithmetic::div_mod::lemma_mod_bound(i, pw);
    let q = i / pw;
    assert(pw * q == q * pw) by (nonlinear_arith);
    if q > h {
        assert(q * pw >= (h + 1) * pw) by (nonlinear_arith)
            requires
                q >= h + 1,
                pw >= 0,
        ;
        assert((h + 1) * pw == pw * (h + 1)) by (nonlinear_arith);
    }
    if q < 0 {
        assert(q * pw <= -pw) by (nonlinear_arith)
            requires
                q <= -1,
                pw >= 0,
        ;
    }
}

// ---------------------------------------------------------------------------
// Walking

/// Walk one polygon from corner `(x_init, y_init)`, clearing the edges taken.
/// Hands back the polygon and the number of edges taken.
#[verifier::rlimit(50)]
fn poly_from_direction_mask(
    pimage: &mut Vec<u8>,
    x_init: i32,
    y_init: i32,
    x_span: usize,
    // only needed for checking majority turning
    image: &[bool],
    image_size: &[i32; 2],
    turn_policy: TurnPolicy,
    use_simplify: bool,
    direction_init_prev: u8,
) -> (r: (Vec<[i32; 2]>, usize))
    requires
        outline_size_ok(image_size[0] as int, image_size[1] as int),
        image@.len() == image_size[0] * image_size[1],
        x_span == image_size[0] + 1,
        walk_inv(
            image@,
            image_size[0] as int,
            image_size[1] as int,
            x_init as int,
            y_init as int,
            old(pimage)@,
            x_init as int,
            y_init as int,
            direction_init_prev,
            0,
        ),
    ensures
        masks_within(final(pimage)@, image@, image_size[0] as int, image_size[1] as int),
        (final(pimage)@, poly_points(r.0@), r.1 as nat) == walk(
            image@,
            image_size[0] as int,
            image_size[1] as int,
            turn_policy,
            use_simplify,
            x_init as int,
            y_init as int,
            old(pimage)@,
            x_init as int,
            y_init as int,
            direction_init_prev,
            0,
            Seq::empty(),
        ),
        total_bits(final(pimage)@) + r.1 == total_bits(old(pimage)@),
{
    let ghost img = image@;
    let ghost w = image_size[0] as int;
    let ghost h = image_size[1] as int;
    let ghost start = pimage@;
    let mut poly: Vec<[i32; 2]> = Vec::new();
    let mut x = x_init;
    let mut y = y_init;
    let mut d_prev: u8 = direction_init_prev;
    let mut handled: usize = 0;
    proof {
        assert(poly_points(poly@) =~= Seq::<(int, int)>::empty());
        lemma_total_bits_bound(start);
    }
    loop
        invariant_except_break
            walk(
                img,
                w,
                h,
                turn_policy,
                use_simplify,
                x_init as int,
                y_init as int,
                pimage@,
                x as int,
                y as int,
                d_prev,
                handled as nat,
                poly_points(poly@),
            ) == walk(
                img,
                w,
                h,
                turn_policy,
                use_simplify,
                x_init as int,
                y_init as int,
                start,
                x_init as int,
                y_init as int,
                direction_init_prev,
                0,
                Seq::empty(),
            ),
        invariant
            outline_size_ok(w, h),
            w == image_size[0],
            h == image_size[1],
            img == image@,
            image@.len() == image_size[0] * image_size[1],
            x_span == w + 1,
            walk_inv(
                img,
                w,
                h,
                x_init as int,
                y_init as int,
                pimage@,
                x as int,
                y as int,
                d_prev,
                handled as nat,
            ),
            total_bits(pimage@) + handled == total_bits(start),
            total_bits(start) <= usize::MAX,
        ensures
            masks_within(pimage@, img, w, h),
            total_bits(pimage@) + handled == total_bits(start),
            (pimage@, poly_points(poly@), handled as nat) == walk(
                img,
                w,
                h,
                turn_policy,
                use_simplify,
                x_init as int,
                y_init as int,
                start,
                x_init as int,
                y_init as int,
                direction_init_prev,
                0,
                Seq::empty(),
            ),
        decreases total_bits(pimage@),
    {
        let ghost poly0 = poly_points(poly@);
        let n = poly.len();
        if use_simplify && (n > 1) && {
            let xy_a = &poly[n - 2];
            let xy_b = &poly[n - 1];
            (x == xy_a[0] && x == xy_b[0]) || (y == xy_a[1] && y == xy_b[1])
        } {
            poly[n - 1] = [x, y];
        } else {
            poly.push([x, y]);
        }
        let ghost poly1 = poly_points(poly@);
        proof {
            assert(poly1 =~= poly_extend(poly0, x as int, y as int, use_simplify));
        }

        if handled != 0 {
            if x == x_init && y == y_init {
                // back at the start: the start is in the polygon already
                poly.pop();
                proof {
                    assert(poly_points(poly@) =~= poly1.drop_last());
                }
                break ;
            }
        }
        let ghost m = pimage@;
        let ghost ccw = turns_ccw(turn_policy, img, w, h, x as int, y as int);
        proof {
            // the walk is not over, so there is an edge to take
            lemma_walk_step(
                img,
                w,
                h,
                x_init as int,
                y_init as int,
                m,
                x as int,
                y as int,
                d_prev,
                handled as nat,
                ccw,
            );
        }
        let index: usize = xy(x as usize, y as usize, x_span);
        let d = pimage[index];

        // From the previous direction,
        // take the nearest next step in a counter-clockwise order.
        let d_next: u8 = step_direction(d, d_prev, turn_policy, x, y, image, image_size);
        let ghost x1 = x as int;
        let ghost y1 = y as int;
        if d_next == dir::L {
            x -= 1;
        } else if d_next == dir::R {
            x += 1;
        } else if d_next == dir::D {
            y -= 1;
        } else {
            y += 1;
        }

        // never walk this direction again
        pimage[index] &= !d_next;
        proof {
            assert(pimage@ == masks_after(m, w, x1, y1, d_next));
            assert(x == x1 + dir_dx(d_next) && y == y1 + dir_dy(d_next));
            assert(walk(
                img,
                w,
                h,
                turn_policy,
                use_simplify,
                x_init as int,
                y_init as int,
                m,
                x1,
                y1,
                d_prev,
                handled as nat,
                poly0,
            ) == walk(
                img,
                w,
                h,
                turn_policy,
                use_simplify,
                x_init as int,
                y_init as int,
                m.update(index as int, d & !d_next),
                x1 + dir_dx(d_next),
                y1 + dir_dy(d_next),
                d_next,
                (handled + 1) as nat,
                poly1,
            ));
        }
        d_prev = d_next;

        handled += 1;
    }

    (poly, handled)
}

/// The polygons `polys` are the polygons of the closed walks `traces`, and
/// the walks take every boundary edge of the bitmap and no other edge, each
/// exactly once.  An edge is named by the corner it leaves and its direction.
pub open spec fn outline_walked(
    img: Seq<bool>,
    w: int,
    h: int,
    polys: Seq<(bool, Seq<(int, int)>)>,
    traces: Seq<Seq<(int, int, u8)>>,
    use_simplify: bool,
) -> bool {
    &&& polys == trace_polys(traces, use_simplify)
    &&& forall|k: int| 0 <= k < traces.len() ==> (#[trigger] traces[k]).len() >= 1
    &&& all_edges(traces).no_duplicates()
    &&& forall|cx: int, cy: int, d: u8|
        #![trigger all_edges(traces).contains((cx, cy, d))]
        all_edges(traces).contains((cx, cy, d)) <==> (is_corner(w, h, cx, cy) && is_dir(d)
            && boundary_edge(img, w, h, cx, cy, d))
}

/// After a walk from the corner the scan stands at, the scan stands at the
/// next corner.
proof fn lemma_scan_step(
    img: Seq<bool>,
    w: int,
    h: int,
    policy: TurnPolicy,
    before: Seq<u8>,
    after: Seq<u8>,
    x: int,
    y: int,
)
    requires
        scan_inv(img, w, h, before, x, y),
        is_corner(w, h, x, y),
        walk_result_ok(
            img,
            w,
            h,
            x,
            y,
            before,
            0,
            after,
            walk_edges(img, w, h, policy, x, y, before, x, y, dir::L, 0).len(),
            walk_edges(img, w, h, policy, x, y, before, x, y, dir::L, 0),
        ),
    ensures
        scan_inv(img, w, h, after, x + 1, y),
{
    let es = walk_edges(img, w, h, policy, x, y, before, x, y, dir::L, 0);
    assert forall|cx: int, cy: int|
        is_corner(w, h, cx, cy) && scanned(cx, cy, x + 1, y) implies !has_bit(
        #[trigger] mask_at(after, w, cx, cy),
        dir::U,
    ) by {
        if cx == x && cy == y {
        } else {
            assert(scanned(cx, cy, x, y));
            let e = (cx, cy, dir::U);
            assert(crate::outline_laws::holds(before, w, e) <==> crate::outline_laws::holds(
                after,
                w,
                e,
            ) || es.contains(e));
        }
    }
}

/// Past a corner without its upward edge the scan stands at the next corner.
proof fn lemma_scan_skip(img: Seq<bool>, w: int, h: int, masks: Seq<u8>, x: int, y: int)
    requires
        scan_inv(img, w, h, masks, x, y),
        is_corner(w, h, x, y) ==> !has_bit(mask_at(masks, w, x, y), dir::U),
    ensures
        scan_inv(img, w, h, masks, x + 1, y),
        x >= w ==> scan_inv(img, w, h, masks, 0, y + 1),
{
    assert forall|cx: int, cy: int|
        is_corner(w, h, cx, cy) && scanned(cx, cy, x + 1, y) implies !has_bit(
        #[trigger] mask_at(masks, w, cx, cy),
        dir::U,
    ) by {
        if cx == x && cy == y {
        } else {
            assert(scanned(cx, cy, x, y));
        }
    }
    if x >= w {
        assert forall|cx: int, cy: int|
            is_corner(w, h, cx, cy) && scanned(cx, cy, 0, y + 1) implies !has_bit(
            #[trigger] mask_at(masks, w, cx, cy),
            dir::U,
        ) by {
            assert(scanned(cx, cy, x + 1, y));
        }
    }
}

/// Extract the outlines of the filled regions of a bitmap.
///
/// * `image` - row-major pixels, `size[0]` wide and `size[1]` high.
/// * `turn_policy` - how to walk on where two regions touch by a corner.
/// * `use_simplify` - don't write intermediate points (one per pixel) between corners.
///
/// Every polygon is closed: the flag of each is `true`.
#[verifier::rlimit(50)]
pub fn extract_outline(
    image: &[bool],
    size: &[usize; 2],
    turn_policy: TurnPolicy,
    use_simplify: bool,
) -> (poly_list: Vec<(bool, Vec<[i32; 2]>)>)
    requires
        image@.len() == size[0] * size[1],
        outline_size_ok(size[0] as int, size[1] as int),
    ensures
        poly_list_points(poly_list@) == outline_polys(
            image@,
            size[0] as int,
            size[1] as int,
            turn_policy,
            use_simplify,
        ),
        outline_walked(
            image@,
            size[0] as int,
            size[1] as int,
            poly_list_points(poly_list@),
            outline_traces(image@, size[0] as int, size[1] as int, turn_policy, use_simplify),
            use_simplify,
        ),
{
    let ghost img = image@;
    let ghost w = size[0] as int;
    let ghost h = size[1] as int;
    proof {
        assert((w + 1) * (h + 1) >= 0) by (nonlinear_arith)
            requires
                w >= 0,
                h >= 0,
        ;
    }
    let size_x = size[0];
    let size_y = size[1];
    let psize: [usize; 2] = [size_x + 1, size_y + 1];
    let psize_x = psize[0];
    let psize_y = psize[1];
    let mut pimage: Vec<u8> = vec![0; psize[0] * psize[1]];

    // note, the borders could have special handling for more efficient checks
    let mut steps_total: usize = 0;
    proof {
        lemma_total_bits_zero(pimage@);
        assert forall|cx: int, cy: int| is_corner(w, h, cx, cy) implies mask_partial(
            img,
            w,
            h,
            cx,
            cy,
            0,
            0,
            #[trigger] mask_at(pimage@, w, cx, cy),
        ) by {
            lemma_grid_index_bounds(cx, cy, w + 1, h + 1);
            lemma_bits_of_small(0);
        }
    }
    for y in 0..size_y
        invariant
            image@.len() == size[0] * size[1],
            outline_size_ok(size[0] as int, size[1] as int),
            img == image@,
            w == size[0],
            h == size[1],
            size_x == size[0],
            size_y == size[1],
            psize_x == psize[0],
            psize_y == psize[1],
            psize[0] == size[0] + 1,
            psize[1] == size[1] + 1,
            masks_partial(pimage@, img, w, h, 0, y as int),
            steps_total == total_bits(pimage@),
    {
        for x in 0..size_x
            invariant
                image@.len() == size[0] * size[1],
                outline_size_ok(size[0] as int, size[1] as int),
                img == image@,
                w == size[0],
                h == size[1],
                size_x == size[0],
                size_y == size[1],
                y < size[1],
                psize[0] == size[0] + 1,
                psize[1] == size[1] + 1,
                masks_partial(pimage@, img, w, h, x as int, y as int),
                steps_total == total_bits(pimage@),
        {
            stamp_pixel(image, size, &mut pimage, &psize, x, y, &mut steps_total);
        }
        proof {
            assert forall|cx: int, cy: int| is_corner(w, h, cx, cy) implies mask_partial(
                img,
                w,
                h,
                cx,
                cy,
                0,
                y + 1,
                #[trigger] mask_at(pimage@, w, cx, cy),
            ) by {
                assert(mask_partial(img, w, h, cx, cy, w, y as int, mask_at(pimage@, w, cx, cy)));
            }
        }
    }
    proof {
        lemma_masks_complete(pimage@, img, w, h);
        lemma_boundary_balanced(img, w, h);
    }

    let mut poly_list: Vec<(bool, Vec<[i32; 2]>)> = Vec::new();
    let mut steps_handled: usize = 0;
    let image_size: [i32; 2] = [size[0] as i32, size[1] as i32];
    proof {
        assert(poly_list_points(poly_list@) =~= Seq::<(bool, Seq<(int, int)>)>::empty());
    }

    for y in 0..psize_y
        invariant
            image@.len() == size[0] * size[1],
            outline_size_ok(size[0] as int, size[1] as int),
            img == image@,
            w == size[0],
            h == size[1],
            size_x == size[0],
            size_y == size[1],
            psize_x == psize[0],
            psize_y == psize[1],
            psize[0] == size[0] + 1,
            psize[1] == size[1] + 1,
            image_size[0] == size[0],
            image_size[1] == size[1],
            scan_inv(img, w, h, pimage@, 0, y as int),
            steps_handled + total_bits(pimage@) == steps_total,
            scan(
                img,
                w,
                h,
                turn_policy,
                use_simplify,
                pimage@,
                0,
                y as int,
                steps_total - steps_handled,
                poly_list_points(poly_list@),
            ) == outline_polys(img, w, h, turn_policy, use_simplify),
    {
        for x in 0..psize_x
            invariant
                image@.len() == size[0] * size[1],
                outline_size_ok(size[0] as int, size[1] as int),
                img == image@,
                w == size[0],
                h == size[1],
                psize_x == psize[0],
                psize_y == psize[1],
                y < psize[1],
                psize[0] == size[0] + 1,
                psize[1] == size[1] + 1,
                image_size[0] == size[0],
                image_size[1] == size[1],
                scan_inv(img, w, h, pimage@, x as int, y as int),
                steps_handled + total_bits(pimage@) == steps_total,
                scan(
                    img,
                    w,
                    h,
                    turn_policy,
                    use_simplify,
                    pimage@,
                    x as int,
                    y as int,
                    steps_total - steps_handled,
                    poly_list_points(poly_list@),
                ) == outline_polys(img, w, h, turn_policy, use_simplify),
        {
            proof {
                lemma_masks_updated(pimage@, w, h, x as int, y as int, 0);
            }
            let index = xy(x, y, psize[0]);
            let d = pimage[index];
            // always start searching for up, since we do clockwise search
            let ghost before = pimage@;
            if (d & dir::U) != 0 {
                let ghost acc = poly_list_points(poly_list@);
                proof {
                    // a corner with its upward edge left has no other edge
                    // left, and the masks balance: a walk can start
                    lemma_walk_start(img, w, h, before, x as int, y as int);
                    lemma_walk(
                        img,
                        w,
                        h,
                        turn_policy,
                        use_simplify,
                        x as int,
                        y as int,
                        before,
                        x as int,
                        y as int,
                        dir::L,
                        0,
                        Seq::empty(),
                    );
                }
                let (poly, handled) = poly_from_direction_mask(
                    &mut pimage,
                    x as i32,
                    y as i32,
                    psize[0],
                    image,
                    &image_size,
                    turn_policy,
                    use_simplify,
                    dir::L,
                );
                let ghost pts = poly_points(poly@);
                poly_list.push((true, poly));
                steps_handled += handled;
                proof {
                    assert(poly_list_points(poly_list@) =~= acc.push((true, pts)));
                    lemma_scan_step(img, w, h, turn_policy, before, pimage@, x as int, y as int);
                }

                if steps_total == steps_handled {
                    proof {
                        law_outline_walks_boundary(img, w, h, turn_policy, use_simplify);
                        law_outline_polys_of_walks(img, w, h, turn_policy, use_simplify);
                    }
                    return poly_list;
                }
            } else {
                proof {
                    lemma_scan_skip(img, w, h, before, x as int, y as int);
                }
            }
        }
        proof {
            lemma_scan_skip(img, w, h, pimage@, w + 1, y as int);
        }
    }
    proof {
        law_outline_walks_boundary(img, w, h, turn_policy, use_simplify);
        law_outline_polys_of_walks(img, w, h, turn_policy, use_simplify);
    }
    poly_list
}

} // verus!
