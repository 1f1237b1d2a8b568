//! Centerline extraction: open or closed integer polygons that walk the
//! one-pixel-wide lines of a thinned bitmap.
//!
//! Vertices are pixels.  Every filled pixel is linked to its filled
//! neighbours: along the axes, and along a diagonal where neither axis
//! neighbour beside that diagonal is filled.  Pixels with one or two links are
//! seeded with the mask of their links; pixels with three or more are
//! junctions that a walk may enter but never leaves.

use vstd::prelude::*;
use crate::dir;
use crate::dir::{
    bit_if, bits_subset, has_bit, is_link, lemma_and_not_subset, lemma_bits_determine,
    lemma_clear_bit, lemma_or_bit,
    lemma_pair_test, lemma_union_bits, link_count, link_dx, link_dy, link_offset, opposite,
};
use crate::raster::{
    grid_index, lemma_grid_index_bounds, lemma_grid_index_injective, pixel, poly_list_points,
    poly_points, xy, xy_is_filled_d, xy_is_filled_l, xy_is_filled_ld, xy_is_filled_lu,
    xy_is_filled_r, xy_is_filled_rd, xy_is_filled_ru, xy_is_filled_u,
};

verus! {

/// Largest width or height the extractor accepts: vertex coordinates are
/// 32-bit.
pub const SIZE_MAX: usize = 0x3fff_ffff;

// ---------------------------------------------------------------------------
// Link masks

/// Whether pixel `(x, y)` is inside a `w` by `h` bitmap.
pub open spec fn in_image(w: int, h: int, x: int, y: int) -> bool {
    0 <= x < w && 0 <= y < h
}

/// The links of pixel `(x, y)` to its filled neighbours.  A diagonal link is
/// made only where neither axis neighbour beside it is filled.
pub open spec fn link_mask(img: Seq<bool>, w: int, h: int, x: int, y: int) -> u8 {
    let l = pixel(img, w, h, x - 1, y);
    let r = pixel(img, w, h, x + 1, y);
    let d = pixel(img, w, h, x, y - 1);
    let u = pixel(img, w, h, x, y + 1);
    bit_if(l, dir::L) | bit_if(r, dir::R) | bit_if(d, dir::D) | bit_if(u, dir::U) | bit_if(
        !l && !d && pixel(img, w, h, x - 1, y - 1),
        dir::LD,
    ) | bit_if(!l && !u && pixel(img, w, h, x - 1, y + 1), dir::LU) | bit_if(
        !r && !d && pixel(img, w, h, x + 1, y - 1),
        dir::RD,
    ) | bit_if(!r && !u && pixel(img, w, h, x + 1, y + 1), dir::RU)
}

/// The mask a pixel starts with: its links when it is filled and has one or
/// two of them, nothing otherwise.
pub open spec fn seed_mask(img: Seq<bool>, w: int, h: int, x: int, y: int) -> u8 {
    let pf = link_mask(img, w, h, x, y);
    if pixel(img, w, h, x, y) && 0 < link_count(pf) < 3 {
        pf
    } else {
        0
    }
}

/// The mask array of a bitmap before any link is walked.
pub open spec fn seed_masks(img: Seq<bool>, w: int, h: int) -> Seq<u8> {
    Seq::new((w * h) as nat, |i: int| seed_mask(img, w, h, i % w, i / w))
}

/// The mask of pixel `(x, y)` in a row-major mask array.
pub open spec fn mask_at(masks: Seq<u8>, w: int, x: int, y: int) -> u8 {
    masks[grid_index(x, y, w)]
}

/// Every link of mask `m` at pixel `(x, y)` leads to a pixel of the bitmap.
pub open spec fn links_inside(w: int, h: int, x: int, y: int, m: u8) -> bool {
    &&& has_bit(m, dir::L) ==> in_image(w, h, x - 1, y)
    &&& has_bit(m, dir::R) ==> in_image(w, h, x + 1, y)
    &&& has_bit(m, dir::D) ==> in_image(w, h, x, y - 1)
    &&& has_bit(m, dir::U) ==> in_image(w, h, x, y + 1)
    &&& has_bit(m, dir::LD) ==> in_image(w, h, x - 1, y - 1)
    &&& has_bit(m, dir::LU) ==> in_image(w, h, x - 1, y + 1)
    &&& has_bit(m, dir::RD) ==> in_image(w, h, x + 1, y - 1)
    &&& has_bit(m, dir::RU) ==> in_image(w, h, x + 1, y + 1)
}

/// A mask array of the right size whose every link stays inside the bitmap.
pub open spec fn masks_inside(masks: Seq<u8>, w: int, h: int) -> bool {
    &&& masks.len() == w * h
    &&& forall|x: int, y: int|
        in_image(w, h, x, y) ==> links_inside(w, h, x, y, #[trigger] mask_at(masks, w, x, y))
}

/// Number of links in a mask array.
pub open spec fn total_links(masks: Seq<u8>) -> nat
    decreases masks.len(),
{
    if masks.len() == 0 {
        0
    } else {
        total_links(masks.drop_last()) + link_count(masks.last())
    }
}

pub proof fn lemma_total_links_update(masks: Seq<u8>, i: int, v: u8)
    requires
        0 <= i < masks.len(),
    ensures
        total_links(masks.update(i, v)) + link_count(masks[i]) == total_links(masks) + link_count(
            v,
        ),
    decreases masks.len(),
{
    let m2 = masks.update(i, v);
    if i == masks.len() - 1 {
        assert(m2.drop_last() =~= masks.drop_last());
    } else {
        lemma_total_links_update(masks.drop_last(), i, v);
        assert(m2.drop_last() =~= masks.drop_last().update(i, v));
    }
}

/// The bits of a link mask are the links.
pub proof fn lemma_link_mask_bits(img: Seq<bool>, w: int, h: int, x: int, y: int)
    ensures
        has_bit(link_mask(img, w, h, x, y), dir::L) == pixel(img, w, h, x - 1, y),
        has_bit(link_mask(img, w, h, x, y), dir::R) == pixel(img, w, h, x + 1, y),
        has_bit(link_mask(img, w, h, x, y), dir::D) == pixel(img, w, h, x, y - 1),
        has_bit(link_mask(img, w, h, x, y), dir::U) == pixel(img, w, h, x, y + 1),
        has_bit(link_mask(img, w, h, x, y), dir::LD) == (!pixel(img, w, h, x - 1, y) && !pixel(
            img,
            w,
            h,
            x,
            y - 1,
        ) && pixel(img, w, h, x - 1, y - 1)),
        has_bit(link_mask(img, w, h, x, y), dir::LU) == (!pixel(img, w, h, x - 1, y) && !pixel(
            img,
            w,
            h,
            x,
            y + 1,
        ) && pixel(img, w, h, x - 1, y + 1)),
        has_bit(link_mask(img, w, h, x, y), dir::RD) == (!pixel(img, w, h, x + 1, y) && !pixel(
            img,
            w,
            h,
            x,
            y - 1,
        ) && pixel(img, w, h, x + 1, y - 1)),
        has_bit(link_mask(img, w, h, x, y), dir::RU) == (!pixel(img, w, h, x + 1, y) && !pixel(
            img,
            w,
            h,
            x,
            y + 1,
        ) && pixel(img, w, h, x + 1, y + 1)),
        links_inside(w, h, x, y, link_mask(img, w, h, x, y)),
        links_inside(w, h, x, y, seed_mask(img, w, h, x, y)),
{
    let l = pixel(img, w, h, x - 1, y);
    let r = pixel(img, w, h, x + 1, y);
    let d = pixel(img, w, h, x, y - 1);
    let u = pixel(img, w, h, x, y + 1);
    lemma_union_bits(
        bit_if(l, dir::L),
        bit_if(r, dir::R),
        bit_if(d, dir::D),
        bit_if(u, dir::U),
        bit_if(!l && !d && pixel(img, w, h, x - 1, y - 1), dir::LD),
        bit_if(!l && !u && pixel(img, w, h, x - 1, y + 1), dir::LU),
        bit_if(!r && !d && pixel(img, w, h, x + 1, y - 1), dir::RD),
        bit_if(!r && !u && pixel(img, w, h, x + 1, y + 1), dir::RU),
    );
    lemma_bits_determine(0, 0);
}

/// The links of pixel `(x, y)` and their number.
#[verifier::rlimit(50)]
fn pixel_links(image: &[bool], size: &[usize; 2], x: usize, y: usize) -> (r: (u8, u32))
    requires
        image@.len() == size[0] * size[1],
        x < size[0],
        y < size[1],
    ensures
        r.0 == link_mask(image@, size[0] as int, size[1] as int, x as int, y as int),
        r.1 == link_count(r.0),
{
    let ghost img = image@;
    let ghost w = size[0] as int;
    let ghost h = size[1] as int;
    let mut count: u32 = 0;
    let mut pf: u8 = 0;
    proof {
        lemma_bits_determine(0, 0);
    }

    if xy_is_filled_l(image, size, x, y) {
        proof {
            lemma_or_bit(pf, dir::L);
        }
        pf |= dir::L;
        count += 1;
    }
    if xy_is_filled_r(image, size, x, y) {
        proof {
            lemma_or_bit(pf, dir::R);
        }
        pf |= dir::R;
        count += 1;
    }
    if xy_is_filled_d(image, size, x, y) {
        proof {
            lemma_or_bit(pf, dir::D);
        }
        pf |= dir::D;
        count += 1;
    }
    if xy_is_filled_u(image, size, x, y) {
        proof {
            lemma_or_bit(pf, dir::U);
        }
        pf |= dir::U;
        count += 1;
    }
    assert(count == link_count(pf));

    // connect diagonals when we _only_ have a diagonal connections.
    proof {
        lemma_pair_test(pf, dir::L, dir::D);
    }
    if (pf & (dir::L | dir::D)) == 0 && xy_is_filled_ld(image, size, x, y) {
        proof {
            lemma_or_bit(pf, dir::LD);
        }
        pf |= dir::LD;
        count += 1;
    }
    proof {
        lemma_pair_test(pf, dir::L, dir::U);
    }
    if (pf & (dir::L | dir::U)) == 0 && xy_is_filled_lu(image, size, x, y) {
        proof {
            lemma_or_bit(pf, dir::LU);
        }
        pf |= dir::LU;
        count += 1;
    }
    assert(count == link_count(pf));
    proof {
        lemma_pair_test(pf, dir::R, dir::D);
    }
    if (pf & (dir::R | dir::D)) == 0 && xy_is_filled_rd(image, size, x, y) {
        proof {
            lemma_or_bit(pf, dir::RD);
        }
        pf |= dir::RD;
        count += 1;
    }
    proof {
        lemma_pair_test(pf, dir::R, dir::U);
    }
    if (pf & (dir::R | dir::U)) == 0 && xy_is_filled_ru(image, size, x, y) {
        proof {
            lemma_or_bit(pf, dir::RU);
        }
        pf |= dir::RU;
        count += 1;
    }
    proof {
        lemma_link_mask_bits(img, w, h, x as int, y as int);
        lemma_bits_determine(pf, link_mask(img, w, h, x as int, y as int));
    }
    (pf, count)
}

// ---------------------------------------------------------------------------
// Vertex lists

/// Absolute value.
pub open spec fn abs(v: int) -> int {
    if v < 0 {
        -v
    } else {
        v
    }
}

/// Sign: -1, 0 or 1.
pub open spec fn signum(v: int) -> int {
    if v < 0 {
        -1
    } else if v == 0 {
        0
    } else {
        1
    }
}

fn abs_of(v: i32) -> (r: i32)
    requires
        v > i32::MIN,
    ensures
        r == abs(v as int),
{
    if v < 0 {
        -v
    } else {
        v
    }
}

fn signum_of(v: i32) -> (r: i32)
    ensures
        r == signum(v as int),
{
    if v < 0 {
        -1
    } else if v == 0 {
        0
    } else {
        1
    }
}

/// Whether `c` continues the run from `a` to `b`: along an axis, or along a
/// diagonal in the same direction.
pub open spec fn on_line(a: (int, int), b: (int, int), c: (int, int)) -> bool {
    let x_a_delta = a.0 - b.0;
    let y_a_delta = a.1 - b.1;
    let x_b_delta = b.0 - c.0;
    let y_b_delta = b.1 - c.1;
    ||| (c.0 == a.0 && c.0 == b.0)
    ||| (c.1 == a.1 && c.1 == b.1)
    ||| (x_a_delta != 0 && y_a_delta != 0 && abs(x_a_delta) == abs(y_a_delta) && abs(x_b_delta)
        == abs(y_b_delta) && signum(x_a_delta) == signum(x_b_delta) && signum(y_a_delta) == signum(
        y_b_delta,
    ))
}

/// The polygon after the walk reaches `(x, y)`: when simplifying, a vertex
/// that continues the run of the last two replaces the last one; otherwise
/// it is appended.
pub open spec fn poly_extend(poly: Seq<(int, int)>, x: int, y: int, use_simplify: bool) -> Seq<
    (int, int),
> {
    if use_simplify && poly.len() > 1 && on_line(poly[poly.len() - 2], poly[poly.len() - 1], (x, y)) {
        poly.update(poly.len() - 1, (x, y))
    } else {
        poly.push((x, y))
    }
}

/// Every vertex is a pixel of the bitmap.
pub open spec fn points_inside(poly: Seq<(int, int)>, w: int, h: int) -> bool {
    forall|i: int| 0 <= i < poly.len() ==> in_image(w, h, (#[trigger] poly[i]).0, poly[i].1)
}

/// Record that the walk stands on `(x, y)`.
#[verifier::rlimit(50)]
fn poly_record(
    poly: &mut Vec<[i32; 2]>,
    x: i32,
    y: i32,
    use_simplify: bool,
    Ghost(w): Ghost<int>,
    Ghost(h): Ghost<int>,
)
    requires
        0 <= w <= SIZE_MAX,
        0 <= h <= SIZE_MAX,
        points_inside(poly_points(old(poly)@), w, h),
        in_image(w, h, x as int, y as int),
    ensures
        poly_points(final(poly)@) == poly_extend(
            poly_points(old(poly)@),
            x as int,
            y as int,
            use_simplify,
        ),
        points_inside(poly_points(final(poly)@), w, h),
        final(poly)@.len() > 0,
{
    let ghost poly0 = poly_points(poly@);
    let n = poly.len();
    proof {
        if n > 1 {
            assert(in_image(w, h, poly0[n - 2].0, poly0[n - 2].1));
            assert(in_image(w, h, poly0[n - 1].0, poly0[n - 1].1));
        }
    }
    if use_simplify && (n > 1) && {
        let xy_a = &poly[n - 2];
        let xy_b = &poly[n - 1];
        // axis aligned
        (x == xy_a[0] && x == xy_b[0]) || (y == xy_a[1] && y == xy_b[1]) ||
        // diagonal
        {
            let x_a_delta = xy_a[0] - xy_b[0];
            let y_a_delta = xy_a[1] - xy_b[1];
            let x_b_delta = xy_b[0] - x;
            let y_b_delta = xy_b[1] - y;

            x_a_delta != 0 && y_a_delta != 0 &&
            // no need to check 'b', signum accounts for that case.
            abs_of(x_a_delta) == abs_of(y_a_delta) && abs_of(x_b_delta) == abs_of(y_b_delta)
                && signum_of(x_a_delta) == signum_of(x_b_delta) && signum_of(y_a_delta)
                == signum_of(y_b_delta)
        }
    } {
        poly[n - 1] = [x, y];
    } else {
        poly.push([x, y]);
    }
    proof {
        let poly1 = poly_points(poly@);
        assert(poly1 =~= poly_extend(poly0, x as int, y as int, use_simplify));
        assert forall|i: int| 0 <= i < poly1.len() implies in_image(
            w,
            h,
            (#[trigger] poly1[i]).0,
            poly1[i].1,
        ) by {
            if i < poly0.len() && poly1[i] == poly0[i] {
                assert(in_image(w, h, poly0[i].0, poly0[i].1));
            }
        }
    }
}

/// Put the vertices in the opposite order.
fn poly_reverse(poly: &mut Vec<[i32; 2]>)
    ensures
        final(poly)@ == old(poly)@.reverse(),
{
    let n = poly.len();
    let ghost before = poly@;
    let mut i: usize = 0;
    while i < n / 2
        invariant
            n == poly@.len(),
            n == before.len(),
            i <= n / 2,
            forall|k: int| 0 <= k < i ==> poly@[k] == before[n - 1 - k],
            forall|k: int| n - i <= k < n ==> poly@[k] == before[n - 1 - k],
            forall|k: int| i <= k < n - i ==> poly@[k] == before[k],
        decreases n / 2 - i,
    {
        let a = poly[i];
        let b = poly[n - 1 - i];
        poly[i] = b;
        poly[n - 1 - i] = a;
        i += 1;
    }
    proof {
        assert(poly@ =~= before.reverse());
    }
}

// ---------------------------------------------------------------------------
// The walk

/// The link a walk takes out of a pixel with mask `f`: axis links come
/// first, then diagonals; 0 when the mask is empty.
pub open spec fn first_link(f: u8) -> u8 {
    if f & dir::L != 0 {
        dir::L
    } else if f & dir::R != 0 {
        dir::R
    } else if f & dir::D != 0 {
        dir::D
    } else if f & dir::U != 0 {
        dir::U
    } else if f & dir::LD != 0 {
        dir::LD
    } else if f & dir::LU != 0 {
        dir::LU
    } else if f & dir::RD != 0 {
        dir::RD
    } else if f & dir::RU != 0 {
        dir::RU
    } else {
        0
    }
}

/// The masks after a walk leaves pixel `index` by link `d` for pixel
/// `index2`: the pixel left loses all its links, the pixel entered loses the
/// link that leads back.
pub open spec fn masks_after_step(masks: Seq<u8>, index: int, index2: int, d: u8) -> Seq<u8> {
    masks.update(index, 0).update(index2, masks.update(index, 0)[index2] & !opposite(d))
}

/// One half of a walk, from the state it is in to its end: the masks it
/// leaves, whether it came back to the start pixel `(x0, y0)`, and the
/// polygon.
///
/// The walk records where it stands, clears the mask of the pixel, and
/// leaves by `first_link`; it ends where there is no link or where the step
/// brings it back to the start.
pub open spec fn half_walk(
    w: int,
    use_simplify: bool,
    x0: int,
    y0: int,
    masks: Seq<u8>,
    x: int,
    y: int,
    poly: Seq<(int, int)>,
) -> (Seq<u8>, bool, Seq<(int, int)>)
    decreases total_links(masks),
{
    let poly1 = poly_extend(poly, x, y, use_simplify);
    let index = grid_index(x, y, w);
    if !(0 <= index < masks.len()) {
        (masks, false, poly1)
    } else {
        let d = first_link(masks[index]);
        let x2 = x + link_dx(d);
        let y2 = y + link_dy(d);
        let index2 = grid_index(x2, y2, w);
        if d == 0 || !(0 <= index2 < masks.len()) || index2 == index {
            (masks.update(index, 0), false, poly1)
        } else {
            let masks2 = masks_after_step(masks, index, index2, d);
            if x2 == x0 && y2 == y0 {
                (masks2, true, poly1)
            } else {
                proof {
                    lemma_step_decreases(masks, index, index2, d);
                }
                half_walk(w, use_simplify, x0, y0, masks2, x2, y2, poly1)
            }
        }
    }
}

/// A link taken is one the mask holds.
pub proof fn lemma_first_link(f: u8)
    ensures
        first_link(f) == 0 <==> f == 0,
        first_link(f) != 0 ==> is_link(first_link(f)) && has_bit(f, first_link(f)),
{
    lemma_bits_determine(f, f);
}

/// A step takes at least one link away.
pub proof fn lemma_step_decreases(masks: Seq<u8>, index: int, index2: int, d: u8)
    requires
        0 <= index < masks.len(),
        0 <= index2 < masks.len(),
        d == first_link(masks[index]),
        d != 0,
    ensures
        total_links(masks_after_step(masks, index, index2, d)) < total_links(masks),
{
    let m1 = masks.update(index, 0);
    lemma_first_link(masks[index]);
    lemma_bits_determine(0, 0);
    lemma_total_links_update(masks, index, 0);
    lemma_clear_bit(m1[index2], opposite(d));
    lemma_total_links_update(m1, index2, m1[index2] & !opposite(d));
}

/// The walk of a whole line through pixel `(x0, y0)`: one half from the
/// pixel; then, unless that half came back to it, the other half along the
/// pixel's remaining link, joined in front of the first in reverse.
pub open spec fn full_walk(w: int, use_simplify: bool, masks: Seq<u8>, x0: int, y0: int) -> (
    Seq<u8>,
    bool,
    Seq<(int, int)>,
) {
    let index = grid_index(x0, y0, w);
    let f = masks[index];
    let a = half_walk(w, use_simplify, x0, y0, masks, x0, y0, Seq::empty());
    if a.1 {
        a
    } else {
        let masks2 = a.0.update(index, f & !first_link(f));
        let b = half_walk(w, use_simplify, x0, y0, masks2, x0, y0, Seq::empty());
        (b.0, false, a.2.reverse().drop_last() + b.2)
    }
}

/// The polygons found from pixel `(x, y)` on in scan order (rows from the
/// bottom, each left to right), appended to `acc`.  A walk starts at every
/// pixel that still has a link.
pub open spec fn scan(
    w: int,
    h: int,
    use_simplify: bool,
    masks: Seq<u8>,
    x: int,
    y: int,
    acc: Seq<(bool, Seq<(int, int)>)>,
) -> Seq<(bool, Seq<(int, int)>)>
    decreases h - y, w - x,
{
    if y >= h {
        acc
    } else if x >= w {
        scan(w, h, use_simplify, masks, 0, y + 1, acc)
    } else if mask_at(masks, w, x, y) != 0 {
        let r = full_walk(w, use_simplify, masks, x, y);
        scan(w, h, use_simplify, r.0, x + 1, y, acc.push((r.1, r.2)))
    } else {
        scan(w, h, use_simplify, masks, x + 1, y, acc)
    }
}

/// The centerline polygons of a bitmap: the scan over its seed masks.
pub open spec fn centerline_polys(img: Seq<bool>, w: int, h: int, use_simplify: bool) -> Seq<
    (bool, Seq<(int, int)>),
> {
    scan(w, h, use_simplify, seed_masks(img, w, h), 0, 0, Seq::empty())
}

/// `after` is `before` with the mask of pixel `(cx, cy)` replaced by `m`.
pub open spec fn masks_updated(
    before: Seq<u8>,
    after: Seq<u8>,
    w: int,
    h: int,
    cx: int,
    cy: int,
    m: u8,
) -> bool {
    &&& after.len() == before.len()
    &&& forall|ax: int, ay: int|
        in_image(w, h, ax, ay) ==> #[trigger] mask_at(after, w, ax, ay) == (if ax == cx && ay
            == cy {
            m
        } else {
            mask_at(before, w, ax, ay)
        })
}

pub proof fn lemma_masks_updated(before: Seq<u8>, w: int, h: int, cx: int, cy: int, m: u8)
    requires
        in_image(w, h, cx, cy),
        before.len() == w * h,
    ensures
        0 <= grid_index(cx, cy, w) < before.len(),
        masks_updated(before, before.update(grid_index(cx, cy, w), m), w, h, cx, cy, m),
{
    lemma_grid_index_bounds(cx, cy, w, h);
    let after = before.update(grid_index(cx, cy, w), m);
    assert forall|ax: int, ay: int| in_image(w, h, ax, ay) implies #[trigger] mask_at(
        after,
        w,
        ax,
        ay,
    ) == (if ax == cx && ay == cy {
        m
    } else {
        mask_at(before, w, ax, ay)
    }) by {
        lemma_grid_index_bounds(ax, ay, w, h);
        if grid_index(ax, ay, w) == grid_index(cx, cy, w) {
            lemma_grid_index_injective(ax, ay, cx, cy, w);
        }
    }
}

/// Replacing a mask by one with no more links keeps all links inside.
proof fn lemma_shrink_inside(masks: Seq<u8>, w: int, h: int, x: int, y: int, m: u8)
    requires
        masks_inside(masks, w, h),
        in_image(w, h, x, y),
        bits_subset(m, mask_at(masks, w, x, y)),
    ensures
        0 <= grid_index(x, y, w) < masks.len(),
        masks_inside(masks.update(grid_index(x, y, w), m), w, h),
        masks_updated(masks, masks.update(grid_index(x, y, w), m), w, h, x, y, m),
{
    lemma_masks_updated(masks, w, h, x, y, m);
    let after = masks.update(grid_index(x, y, w), m);
    assert forall|ax: int, ay: int| in_image(w, h, ax, ay) implies links_inside(
        w,
        h,
        ax,
        ay,
        #[trigger] mask_at(after, w, ax, ay),
    ) by {
        assert(links_inside(w, h, ax, ay, mask_at(masks, w, ax, ay)));
    }
}

/// What one step of a walk does, where every link stays inside the bitmap:
/// the pixel it leads to is inside, and the masks it leaves are as
/// `masks_after_step` says, again with every link inside.
#[verifier::rlimit(50)]
proof fn lemma_step_inside(masks: Seq<u8>, w: int, h: int, x: int, y: int)
    requires
        masks_inside(masks, w, h),
        in_image(w, h, x, y),
        mask_at(masks, w, x, y) != 0,
    ensures
        ({
            let d = first_link(mask_at(masks, w, x, y));
            let x2 = x + link_dx(d);
            let y2 = y + link_dy(d);
            let index = grid_index(x, y, w);
            let index2 = grid_index(x2, y2, w);
            &&& is_link(d)
            &&& in_image(w, h, x2, y2)
            &&& 0 <= index < masks.len()
            &&& 0 <= index2 < masks.len()
            &&& index2 != index
            &&& index2 == index + link_offset(d, w)
            &&& masks_inside(masks_after_step(masks, index, index2, d), w, h)
            &&& total_links(masks_after_step(masks, index, index2, d)) < total_links(masks)
        }),
{
    let f = mask_at(masks, w, x, y);
    let d = first_link(f);
    let x2 = x + link_dx(d);
    let y2 = y + link_dy(d);
    let index = grid_index(x, y, w);
    let index2 = grid_index(x2, y2, w);
    lemma_first_link(f);
    assert(links_inside(w, h, x, y, f));
    lemma_grid_index_bounds(x, y, w, h);
    lemma_grid_index_bounds(x2, y2, w, h);
    if index2 == index {
        lemma_grid_index_injective(x, y, x2, y2, w);
    }
    assert((y + 1) * w == y * w + w) by (nonlinear_arith);
    assert((y - 1) * w == y * w - w) by (nonlinear_arith);
    assert(index2 == index + link_offset(d, w));
    lemma_bits_determine(0, 0);
    lemma_shrink_inside(masks, w, h, x, y, 0);
    let m1 = masks.update(index, 0);
    lemma_clear_bit(m1[index2], opposite(d));
    lemma_shrink_inside(m1, w, h, x2, y2, m1[index2] & !opposite(d));
    lemma_step_decreases(masks, index, index2, d);
}

/// The step out of a pixel with mask `f`: the link taken, the pixel it leads
/// to and that pixel's position.  Without a link nothing moves.
#[verifier::rlimit(50)]
fn step_first_link(f: u8, x: i32, y: i32, index: usize, x_span: usize, Ghost(h): Ghost<int>) -> (r: (
    u8,
    i32,
    i32,
    usize,
))
    requires
        0 <= x_span <= SIZE_MAX,
        0 <= h <= SIZE_MAX,
        in_image(x_span as int, h, x as int, y as int),
        index == grid_index(x as int, y as int, x_span as int),
        links_inside(x_span as int, h, x as int, y as int, f),
        x_span * h <= usize::MAX,
    ensures
        r.0 == first_link(f),
        r.1 == x + link_dx(r.0),
        r.2 == y + link_dy(r.0),
        r.3 == index + link_offset(r.0, x_span as int),
{
    proof {
        let w = x_span as int;
        lemma_grid_index_bounds(x as int, y as int, w, h);
        assert((y + 1) * w == y * w + w) by (nonlinear_arith);
        assert((y - 1) * w == y * w - w) by (nonlinear_arith);
        if has_bit(f, dir::L) {
            lemma_grid_index_bounds(x - 1, y as int, w, h);
        }
        if has_bit(f, dir::R) {
            lemma_grid_index_bounds(x + 1, y as int, w, h);
        }
        if has_bit(f, dir::D) {
            lemma_grid_index_bounds(x as int, y - 1, w, h);
        }
        if has_bit(f, dir::U) {
            lemma_grid_index_bounds(x as int, y + 1, w, h);
        }
        if has_bit(f, dir::LD) {
            lemma_grid_index_bounds(x - 1, y - 1, w, h);
        }
        if has_bit(f, dir::LU) {
            lemma_grid_index_bounds(x - 1, y + 1, w, h);
        }
        if has_bit(f, dir::RD) {
            lemma_grid_index_bounds(x + 1, y - 1, w, h);
        }
        if has_bit(f, dir::RU) {
            lemma_grid_index_bounds(x + 1, y + 1, w, h);
        }
    }
    if (f & dir::L) != 0 {
        // axis aligned
        (dir::L, x - 1, y, index - 1)
    } else if (f & dir::R) != 0 {
        (dir::R, x + 1, y, index + 1)
    } else if (f & dir::D) != 0 {
        (dir::D, x, y - 1, index - x_span)
    } else if (f & dir::U) != 0 {
        (dir::U, x, y + 1, index + x_span)
    } else if (f & dir::LD) != 0 {
        // diagonals
        (dir::LD, x - 1, y - 1, (index - 1) - x_span)
    } else if (f & dir::LU) != 0 {
        (dir::LU, x - 1, y + 1, (index - 1) + x_span)
    } else if (f & dir::RD) != 0 {
        (dir::RD, x + 1, y - 1, (index + 1) - x_span)
    } else if (f & dir::RU) != 0 {
        (dir::RU, x + 1, y + 1, (index + 1) + x_span)
    } else {
        (0, x, y, index)
    }
}

/// The direction that leads back.
fn opposite_of(d: u8) -> (r: u8)
    ensures
        r == opposite(d),
{
    if d == dir::L {
        dir::R
    } else if d == dir::R {
        dir::L
    } else if d == dir::D {
        dir::U
    } else if d == dir::U {
        dir::D
    } else if d == dir::LD {
        dir::RU
    } else if d == dir::LU {
        dir::RD
    } else if d == dir::RD {
        dir::LU
    } else if d == dir::RU {
        dir::LD
    } else {
        0
    }
}

/// Walk from pixel `(x_init, y_init)` along the first link until the line
/// ends or comes back.
#[verifier::rlimit(50)]
fn poly_from_direction_mask_half(
    pimage: &mut Vec<u8>,
    x_init: i32,
    y_init: i32,
    x_span: usize,
    use_simplify: bool,
    Ghost(h): Ghost<int>,
) -> (r: (bool, Vec<[i32; 2]>))
    requires
        0 <= x_span <= SIZE_MAX,
        0 <= h <= SIZE_MAX,
        masks_inside(old(pimage)@, x_span as int, h),
        in_image(x_span as int, h, x_init as int, y_init as int),
    ensures
        masks_inside(final(pimage)@, x_span as int, h),
        (final(pimage)@, r.0, poly_points(r.1@)) == half_walk(
            x_span as int,
            use_simplify,
            x_init as int,
            y_init as int,
            old(pimage)@,
            x_init as int,
            y_init as int,
            Seq::empty(),
        ),
        points_inside(poly_points(r.1@), x_span as int, h),
        r.1@.len() > 0,
{
    let ghost w = x_span as int;
    let ghost start = pimage@;
    let mut poly: Vec<[i32; 2]> = Vec::new();
    let mut is_cyclic = false;

    let mut x = x_init;
    let mut y = y_init;
    proof {
        lemma_grid_index_bounds(x_init as int, y_init as int, w, h);
        assert(poly_points(poly@) =~= Seq::<(int, int)>::empty());
        assert(pimage.len() == pimage@.len());
    }

    let mut index = xy(x_init as usize, y_init as usize, x_span);
    loop
        invariant_except_break
            half_walk(
                w,
                use_simplify,
                x_init as int,
                y_init as int,
                pimage@,
                x as int,
                y as int,
                poly_points(poly@),
            ) == half_walk(
                w,
                use_simplify,
                x_init as int,
                y_init as int,
                start,
                x_init as int,
                y_init as int,
                Seq::empty(),
            ),
            !is_cyclic,
        invariant
            w == x_span,
            0 <= x_span <= SIZE_MAX,
            0 <= h <= SIZE_MAX,
            masks_inside(pimage@, w, h),
            in_image(w, h, x as int, y as int),
            index == grid_index(x as int, y as int, w),
            points_inside(poly_points(poly@), w, h),
        ensures
            masks_inside(pimage@, w, h),
            (pimage@, is_cyclic, poly_points(poly@)) == half_walk(
                w,
                use_simplify,
                x_init as int,
                y_init as int,
                start,
                x_init as int,
                y_init as int,
                Seq::empty(),
            ),
            points_inside(poly_points(poly@), w, h),
            poly@.len() > 0,
        decreases total_links(pimage@),
    {
        let ghost m = pimage@;
        let ghost poly0 = poly_points(poly@);
        let ghost x1 = x as int;
        let ghost y1 = y as int;
        poly_record(&mut poly, x, y, use_simplify, Ghost(w), Ghost(h));
        let ghost poly1 = poly_points(poly@);

        proof {
            lemma_grid_index_bounds(x1, y1, w, h);
            assert(pimage.len() == pimage@.len());
            assert(links_inside(w, h, x1, y1, mask_at(m, w, x1, y1)));
            lemma_first_link(m[index as int]);
            lemma_bits_determine(0, 0);
            lemma_shrink_inside(m, w, h, x1, y1, 0);
            if m[index as int] != 0 {
                lemma_step_inside(m, w, h, x1, y1);
            }
        }
        let f = pimage[index];
        pimage[index] = 0;

        let (d, x2, y2, index2) = step_first_link(f, x, y, index, x_span, Ghost(h));
        if d == 0 {
            break ;
        }
        x = x2;
        y = y2;
        index = index2;
        let back = opposite_of(d);
        pimage[index] &= !back;
        proof {
            assert(index2 == grid_index(x2 as int, y2 as int, w));
            assert(pimage@ == masks_after_step(m, grid_index(x1, y1, w), index2 as int, d));
        }

        if x == x_init && y == y_init {
            is_cyclic = true;
            break ;
        }
    }

    (is_cyclic, poly)
}

/// The bit at position `i`.
proof fn lemma_bit_at(i: u8)
    requires
        i < 8,
    ensures
        (1u8 << i) == (if i == 0 {
            dir::L
        } else if i == 1 {
            dir::R
        } else if i == 2 {
            dir::D
        } else if i == 3 {
            dir::U
        } else if i == 4 {
            dir::LD
        } else if i == 5 {
            dir::LU
        } else if i == 6 {
            dir::RD
        } else {
            dir::RU
        }),
{
    assert((1u8 << i) == (if i == 0 {
        1u8
    } else if i == 1 {
        2u8
    } else if i == 2 {
        4u8
    } else if i == 3 {
        8u8
    } else if i == 4 {
        16u8
    } else if i == 5 {
        32u8
    } else if i == 6 {
        64u8
    } else {
        128u8
    })) by (bit_vector)
        requires
            i < 8,
    ;
}

/// Walk the whole line through pixel `(x_init, y_init)`, in both directions.
#[verifier::rlimit(50)]
fn poly_from_direction_mask(
    pimage: &mut Vec<u8>,
    x_init: i32,
    y_init: i32,
    x_span: usize,
    use_simplify: bool,
    Ghost(h): Ghost<int>,
) -> (r: (bool, Vec<[i32; 2]>))
    requires
        0 <= x_span <= SIZE_MAX,
        0 <= h <= SIZE_MAX,
        masks_inside(old(pimage)@, x_span as int, h),
        in_image(x_span as int, h, x_init as int, y_init as int),
    ensures
        masks_inside(final(pimage)@, x_span as int, h),
        (final(pimage)@, r.0, poly_points(r.1@)) == full_walk(
            x_span as int,
            use_simplify,
            old(pimage)@,
            x_init as int,
            y_init as int,
        ),
{
    let ghost w = x_span as int;
    let ghost start = pimage@;
    proof {
        lemma_grid_index_bounds(x_init as int, y_init as int, w, h);
        assert(pimage.len() == pimage@.len());
    }
    let index = xy(x_init as usize, y_init as usize, x_span);

    let mut f = pimage[index];
    let ghost f0 = f;

    let (is_cyclic, mut poly) = poly_from_direction_mask_half(
        pimage,
        x_init,
        y_init,
        x_span,
        use_simplify,
        Ghost(h),
    );
    if is_cyclic == false {
        // remove the first direction, walk the next
        let mut i: u8 = 0;
        while i < 8
            invariant_except_break
                f == f0,
                i > 0 ==> !has_bit(f0, dir::L),
                i > 1 ==> !has_bit(f0, dir::R),
                i > 2 ==> !has_bit(f0, dir::D),
                i > 3 ==> !has_bit(f0, dir::U),
                i > 4 ==> !has_bit(f0, dir::LD),
                i > 5 ==> !has_bit(f0, dir::LU),
                i > 6 ==> !has_bit(f0, dir::RD),
                i > 7 ==> !has_bit(f0, dir::RU),
                i == 8 ==> f == f0 & !first_link(f0),
            invariant
                i <= 8,
            ensures
                f == f0 & !first_link(f0),
            decreases 8 - i,
        {
            proof {
                lemma_bit_at(i);
                lemma_first_link(f0);
            }
            if (f & (1u8 << i)) != 0 {
                f &= !(1u8 << i);
                break ;
            }
            i += 1;
            proof {
                if i == 8 {
                    lemma_bits_determine(f0, 0);
                    lemma_and_not_subset(f0, 0);
                }
            }
        }
        let ghost mid = pimage@;
        let ghost first = poly_points(poly@);
        proof {
            assert(pimage.len() == pimage@.len());
            assert(links_inside(
                w,
                h,
                x_init as int,
                y_init as int,
                mask_at(start, w, x_init as int, y_init as int),
            ));
            lemma_and_not_subset(f0, first_link(f0));
            // The pixel's own mask was cleared by the first half, so any
            // mask with links inside may be written back.
            lemma_masks_updated(mid, w, h, x_init as int, y_init as int, f);
            assert forall|ax: int, ay: int| in_image(w, h, ax, ay) implies links_inside(
                w,
                h,
                ax,
                ay,
                #[trigger] mask_at(mid.update(index as int, f), w, ax, ay),
            ) by {
                assert(links_inside(w, h, ax, ay, mask_at(mid, w, ax, ay)));
            }
        }
        pimage[index] = f;
        let (_, mut poly_half) = poly_from_direction_mask_half(
            pimage,
            x_init,
            y_init,
            x_span,
            use_simplify,
            Ghost(h),
        );
        let ghost second = poly_points(poly_half@);
        // could be more efficient
        poly_reverse(&mut poly);
        // avoid doubling up
        poly.pop();
        poly.append(&mut poly_half);
        proof {
            assert(poly_points(poly@) =~= first.reverse().drop_last() + second);
        }
    }

    (is_cyclic, poly)
}

// ---------------------------------------------------------------------------
// Seeding and scanning

/// Pixels before `(x, y)` in scan order.
spec fn seeded(px: int, py: int, x: int, y: int) -> bool {
    py < y || (py == y && px < x)
}

/// The pixels before `(x, y)` hold their seed masks, the others nothing.
spec fn masks_partial(masks: Seq<u8>, img: Seq<bool>, w: int, h: int, x: int, y: int) -> bool {
    &&& masks.len() == w * h
    &&& forall|cx: int, cy: int|
        in_image(w, h, cx, cy) ==> #[trigger] mask_at(masks, w, cx, cy) == (if seeded(
            cx,
            cy,
            x,
            y,
        ) {
            seed_mask(img, w, h, cx, cy)
        } else {
            0
        })
}

/// A position in the mask array is the index of a pixel.
pub proof fn lemma_index_to_pixel(i: int, w: int, h: int)
    requires
        0 <= w,
        0 <= h,
        0 <= i < w * h,
    ensures
        in_image(w, h, i % w, i / w),
        grid_index(i % w, i / w, w) == i,
{
    if w == 0 {
        assert(w * h == 0) by (nonlinear_arith)
            requires
                w == 0,
        ;
    }
    vstd::arithmetic::div_mod::lemma_fundamental_div_mod(i, w);
    vstd::arithmetic::div_mod::lemma_mod_bound(i, w);
    let q = i / w;
    assert(w * q == q * w) by (nonlinear_arith);
    if q >= h {
        assert(q * w >= h * w) by (nonlinear_arith)
            requires
                q >= h,
                w >= 0,
        ;
        assert(h * w == w * h) by (nonlinear_arith);
    }
    if q < 0 {
        assert(q * w <= -w) by (nonlinear_arith)
            requires
                q <= -1,
                w >= 0,
        ;
    }
}

#[verifier::rlimit(50)]
proof fn lemma_masks_complete(masks: Seq<u8>, img: Seq<bool>, w: int, h: int)
    requires
        0 <= w,
        0 <= h,
        masks_partial(masks, img, w, h, 0, h),
    ensures
        masks == seed_masks(img, w, h),
        masks_inside(masks, w, h),
{
    let sm = seed_masks(img, w, h);
    assert(w * h >= 0) by (nonlinear_arith)
        requires
            w >= 0,
            h >= 0,
    ;
    assert forall|i: int| 0 <= i < masks.len() implies masks[i] == sm[i] by {
        lemma_index_to_pixel(i, w, h);
        assert(mask_at(masks, w, i % w, i / w) == seed_mask(img, w, h, i % w, i / w));
    }
    assert(masks =~= sm);
    assert forall|x: int, y: int| in_image(w, h, x, y) implies links_inside(
        w,
        h,
        x,
        y,
        #[trigger] mask_at(masks, w, x, y),
    ) by {
        lemma_link_mask_bits(img, w, h, x, y);
    }
}

/// Extract the centerlines of a thinned bitmap.
///
/// * `image` - row-major pixels, `size[0]` wide and `size[1]` high, whose
///   lines are one pixel wide.
/// * `use_simplify` - don't write intermediate points (one per pixel) along
///   straight runs.
///
/// Each polygon comes with a flag that tells whether it is closed.
#[verifier::rlimit(50)]
pub fn extract_centerline(image: &[bool], size: &[usize; 2], use_simplify: bool) -> (poly_list: Vec<
    (bool, Vec<[i32; 2]>),
>)
    requires
        image@.len() == size[0] * size[1],
        size[0] <= SIZE_MAX,
        size[1] <= SIZE_MAX,
    ensures
        poly_list_points(poly_list@) == centerline_polys(
            image@,
            size[0] as int,
            size[1] as int,
            use_simplify,
        ),
{
    let ghost img = image@;
    let ghost w = size[0] as int;
    let ghost h = size[1] as int;
    let size_x = size[0];
    let size_y = size[1];
    proof {
        assert(image.len() == image@.len());
    }

    let mut pimage: Vec<u8> = vec![0; size_x * size_y];
    proof {
        assert forall|cx: int, cy: int| in_image(w, h, cx, cy) implies #[trigger] mask_at(
            pimage@,
            w,
            cx,
            cy,
        ) == 0 by {
            lemma_grid_index_bounds(cx, cy, w, h);
        }
    }

    // note, the borders could have special handling for more efficient checks
    for y in 0..size_y
        invariant
            image@.len() == size[0] * size[1],
            img == image@,
            w == size[0],
            h == size[1],
            size_x == size[0],
            size_y == size[1],
            masks_partial(pimage@, img, w, h, 0, y as int),
    {
        for x in 0..size_x
            invariant
                image@.len() == size[0] * size[1],
                img == image@,
                w == size[0],
                h == size[1],
                size_x == size[0],
                size_y == size[1],
                y < size_y,
                masks_partial(pimage@, img, w, h, x as int, y as int),
        {
            let ghost m = pimage@;
            proof {
                lemma_masks_updated(m, w, h, x as int, y as int, 0);
                assert(image.len() == image@.len());
            }
            let index = xy(x, y, size_x);
            if image[index] {
                let (pf, count) = pixel_links(image, size, x, y);

                // only walk _to_ 3+ connections, never from.
                if count > 0 && count < 3 {
                    proof {
                        lemma_masks_updated(m, w, h, x as int, y as int, pf);
                    }
                    pimage[index] = pf;
                }
            }
            proof {
                assert forall|cx: int, cy: int| in_image(w, h, cx, cy) implies #[trigger] mask_at(
                    pimage@,
                    w,
                    cx,
                    cy,
                ) == (if seeded(cx, cy, x + 1, y as int) {
                    seed_mask(img, w, h, cx, cy)
                } else {
                    0
                }) by {
                    assert(mask_at(m, w, cx, cy) == (if seeded(cx, cy, x as int, y as int) {
                        seed_mask(img, w, h, cx, cy)
                    } else {
                        0
                    }));
                }
            }
        }
        proof {
            assert forall|cx: int, cy: int| in_image(w, h, cx, cy) implies #[trigger] mask_at(
                pimage@,
                w,
                cx,
                cy,
            ) == (if seeded(cx, cy, 0, y + 1) {
                seed_mask(img, w, h, cx, cy)
            } else {
                0
            }) by {
                assert(mask_at(pimage@, w, cx, cy) == (if seeded(cx, cy, w, y as int) {
                    seed_mask(img, w, h, cx, cy)
                } else {
                    0
                }));
            }
        }
    }
    proof {
        lemma_masks_complete(pimage@, img, w, h);
    }

    let mut poly_list: Vec<(bool, Vec<[i32; 2]>)> = Vec::new();
    proof {
        assert(poly_list_points(poly_list@) =~= Seq::<(bool, Seq<(int, int)>)>::empty());
    }
    for y in 0..size_y
        invariant
            w == size[0],
            h == size[1],
            size_x == size[0],
            size_y == size[1],
            size[0] <= SIZE_MAX,
            size[1] <= SIZE_MAX,
            masks_inside(pimage@, w, h),
            scan(w, h, use_simplify, pimage@, 0, y as int, poly_list_points(poly_list@))
                == centerline_polys(img, w, h, use_simplify),
    {
        for x in 0..size_x
            invariant
                w == size[0],
                h == size[1],
                size_x == size[0],
                size_y == size[1],
                size[0] <= SIZE_MAX,
                size[1] <= SIZE_MAX,
                y < size_y,
                masks_inside(pimage@, w, h),
                scan(w, h, use_simplify, pimage@, x as int, y as int, poly_list_points(poly_list@))
                    == centerline_polys(img, w, h, use_simplify),
        {
            proof {
                lemma_masks_updated(pimage@, w, h, x as int, y as int, 0);
                assert(pimage.len() == pimage@.len());
            }
            let index = xy(x, y, size_x);
            if pimage[index] != 0 {
                // walk in 2 directions!
                let ghost acc = poly_list_points(poly_list@);
                let p = poly_from_direction_mask(
                    &mut pimage,
                    x as i32,
                    y as i32,
                    size_x,
                    use_simplify,
                    Ghost(h),
                );
                let ghost flag = p.0;
                let ghost pts = poly_points(p.1@);
                poly_list.push(p);
                proof {
                    assert(poly_list_points(poly_list@) =~= acc.push((flag, pts)));
                }
            }
        }
    }

    poly_list
}

} // verus!
