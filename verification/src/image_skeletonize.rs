//! Thinning of a bitmap to one-pixel-wide lines.
//!
//! Border pixels are peeled off from four sides in turn for as long as a
//! pixel can go without changing the shape: it must not be the end of a line,
//! removing it must keep the Euler characteristic of its neighbourhood, and
//! its neighbours must stay connected without it.

use vstd::prelude::*;
use crate::raster::{grid_index, lemma_grid_index_bounds, pixel, poly_points, xy};

verus! {

/// Largest width or height the thinning accepts: coordinates are 32-bit.
pub const SIZE_MAX: usize = 0x3fff_ffff;

pub const DIR_FLAG_NUM_NO_CENTER: u32 = 8;

/// Neighbour bit: below left.
pub const DIR_SW: u32 = 1;

/// Neighbour bit: below.
pub const DIR_S: u32 = 2;

/// Neighbour bit: below right.
pub const DIR_SE: u32 = 4;

/// Neighbour bit: left.
pub const DIR_W: u32 = 8;

/// Neighbour bit: right.
pub const DIR_E: u32 = 16;

/// Neighbour bit: above left.
pub const DIR_NW: u32 = 32;

/// Neighbour bit: above.
pub const DIR_N: u32 = 64;

/// Neighbour bit: above right.
pub const DIR_NE: u32 = 128;

// ---------------------------------------------------------------------------
// Neighbourhoods

/// The bit `b` when `on`, no bit otherwise.
pub open spec fn flag_if(on: bool, b: u32) -> u32 {
    if on {
        b
    } else {
        0
    }
}

/// The filled neighbours of pixel `(x, y)` as a mask of neighbour bits;
/// what lies outside the bitmap counts as empty.
pub open spec fn neighborhood(img: Seq<bool>, w: int, h: int, x: int, y: int) -> u32 {
    flag_if(pixel(img, w, h, x - 1, y - 1), DIR_SW) | flag_if(pixel(img, w, h, x, y - 1), DIR_S)
        | flag_if(pixel(img, w, h, x + 1, y - 1), DIR_SE) | flag_if(
        pixel(img, w, h, x - 1, y),
        DIR_W,
    ) | flag_if(pixel(img, w, h, x + 1, y), DIR_E) | flag_if(
        pixel(img, w, h, x - 1, y + 1),
        DIR_NW,
    ) | flag_if(pixel(img, w, h, x, y + 1), DIR_N) | flag_if(
        pixel(img, w, h, x + 1, y + 1),
        DIR_NE,
    )
}

/// Number of neighbour bits of `q` among the first `i`.
pub open spec fn neighbor_count(q: u32, i: int) -> int {
    (if i > 0 && q & DIR_SW != 0 {
        1int
    } else {
        0int
    }) + (if i > 1 && q & DIR_S != 0 {
        1int
    } else {
        0int
    }) + (if i > 2 && q & DIR_SE != 0 {
        1int
    } else {
        0int
    }) + (if i > 3 && q & DIR_W != 0 {
        1int
    } else {
        0int
    }) + (if i > 4 && q & DIR_E != 0 {
        1int
    } else {
        0int
    }) + (if i > 5 && q & DIR_NW != 0 {
        1int
    } else {
        0int
    }) + (if i > 6 && q & DIR_N != 0 {
        1int
    } else {
        0int
    }) + (if i > 7 && q & DIR_NE != 0 {
        1int
    } else {
        0int
    })
}

/// Whether a pixel with neighbours `q` is the end of a line: it has exactly
/// one neighbour.
pub open spec fn endpoint(q: u32) -> bool {
    neighbor_count(q, 8) == 1
}

/// The neighbour bit at position `i`.
pub open spec fn flag_at(i: int) -> u32 {
    if i == 0 {
        DIR_SW
    } else if i == 1 {
        DIR_S
    } else if i == 2 {
        DIR_SE
    } else if i == 3 {
        DIR_W
    } else if i == 4 {
        DIR_E
    } else if i == 5 {
        DIR_NW
    } else if i == 6 {
        DIR_N
    } else {
        DIR_NE
    }
}

proof fn lemma_flag_at(i: u32)
    requires
        i < 8,
    ensures
        (1u32 << i) == flag_at(i as int),
{
    assert((1u32 << i) == (if i == 0 {
        1u32
    } else if i == 1 {
        2u32
    } else if i == 2 {
        4u32
    } else if i == 3 {
        8u32
    } else if i == 4 {
        16u32
    } else if i == 5 {
        32u32
    } else if i == 6 {
        64u32
    } else {
        128u32
    })) by (bit_vector)
        requires
            i < 8,
    ;
}

/// Every bit of `a` among the neighbour bits is a bit of `b`.
pub open spec fn flags_subset(a: u32, b: u32) -> bool {
    &&& a & DIR_SW != 0 ==> b & DIR_SW != 0
    &&& a & DIR_S != 0 ==> b & DIR_S != 0
    &&& a & DIR_SE != 0 ==> b & DIR_SE != 0
    &&& a & DIR_W != 0 ==> b & DIR_W != 0
    &&& a & DIR_E != 0 ==> b & DIR_E != 0
    &&& a & DIR_NW != 0 ==> b & DIR_NW != 0
    &&& a & DIR_N != 0 ==> b & DIR_N != 0
    &&& a & DIR_NE != 0 ==> b & DIR_NE != 0
}

/// Clearing a neighbour bit that is set takes exactly that bit away.
pub proof fn lemma_clear_flag(q: u32, b: u32)
    requires
        b == DIR_SW || b == DIR_S || b == DIR_SE || b == DIR_W || b == DIR_E || b == DIR_NW || b
            == DIR_N || b == DIR_NE,
        q & b != 0,
    ensures
        neighbor_count(q & !b, 8) == neighbor_count(q, 8) - 1,
        flags_subset(q & !b, q),
{
    assert(((q & !b) & 1 != 0) == ((q & 1 != 0) && b != 1) && ((q & !b) & 2 != 0) == ((q & 2 != 0)
        && b != 2) && ((q & !b) & 4 != 0) == ((q & 4 != 0) && b != 4) && ((q & !b) & 8 != 0) == ((q
        & 8 != 0) && b != 8) && ((q & !b) & 16 != 0) == ((q & 16 != 0) && b != 16) && ((q & !b)
        & 32 != 0) == ((q & 32 != 0) && b != 32) && ((q & !b) & 64 != 0) == ((q & 64 != 0) && b
        != 64) && ((q & !b) & 128 != 0) == ((q & 128 != 0) && b != 128)) by (bit_vector)
        requires
            b == 1 || b == 2 || b == 4 || b == 8 || b == 16 || b == 32 || b == 64 || b == 128,
    ;
}

/// Masking with a mask adds no bit.
pub proof fn lemma_and_subset(a: u32, b: u32)
    ensures
        flags_subset(a & b, b),
        neighbor_count(a & b, 8) <= neighbor_count(b, 8),
        flags_subset(a, b) ==> neighbor_count(a, 8) <= neighbor_count(b, 8),
{
    assert(((a & b) & 1 != 0 ==> b & 1 != 0) && ((a & b) & 2 != 0 ==> b & 2 != 0) && ((a & b) & 4
        != 0 ==> b & 4 != 0) && ((a & b) & 8 != 0 ==> b & 8 != 0) && ((a & b) & 16 != 0 ==> b & 16
        != 0) && ((a & b) & 32 != 0 ==> b & 32 != 0) && ((a & b) & 64 != 0 ==> b & 64 != 0) && ((a
        & b) & 128 != 0 ==> b & 128 != 0)) by (bit_vector);
}

// ---------------------------------------------------------------------------
// Pixel access

/// Get pixel in 2D image (0 border conditions)
fn pixel_get(data: &Vec<bool>, size: &[i32; 2], x: i32, y: i32) -> (r: bool)
    requires
        size[0] >= 0,
        size[1] >= 0,
        data@.len() == size[0] * size[1],
    ensures
        r == pixel(data@, size[0] as int, size[1] as int, x as int, y as int),
{
    if x >= 0 && x < size[0] && y >= 0 && y < size[1] {
        proof {
            assert(data.len() == data@.len());
            lemma_grid_index_bounds(x as int, y as int, size[0] as int, size[1] as int);
        }
        data[xy(x as usize, y as usize, size[0] as usize)]
    } else {
        false
    }
}

/// Get pixel in 2D image (no border checking)
fn pixel_get_no_check(data: &Vec<bool>, size: &[i32; 2], x: i32, y: i32) -> (r: bool)
    requires
        0 <= x < size[0],
        0 <= y < size[1],
        data@.len() == size[0] * size[1],
    ensures
        r == pixel(data@, size[0] as int, size[1] as int, x as int, y as int),
{
    proof {
        assert(data.len() == data@.len());
        lemma_grid_index_bounds(x as int, y as int, size[0] as int, size[1] as int);
    }
    data[xy(x as usize, y as usize, size[0] as usize)]
}

/// Number of filled pixels.
pub open spec fn filled_count(img: Seq<bool>) -> nat
    decreases img.len(),
{
    if img.len() == 0 {
        0
    } else {
        filled_count(img.drop_last()) + (if img.last() {
            1nat
        } else {
            0nat
        })
    }
}

proof fn lemma_filled_count_update(img: Seq<bool>, i: int, v: bool)
    requires
        0 <= i < img.len(),
    ensures
        filled_count(img.update(i, v)) + (if img[i] {
            1nat
        } else {
            0nat
        }) == filled_count(img) + (if v {
            1nat
        } else {
            0nat
        }),
    decreases img.len(),
{
    let m2 = img.update(i, v);
    if i == img.len() - 1 {
        assert(m2.drop_last() =~= img.drop_last());
    } else {
        lemma_filled_count_update(img.drop_last(), i, v);
        assert(m2.drop_last() =~= img.drop_last().update(i, v));
    }
}

/// Every pixel filled in `after` is filled in `before`.
pub open spec fn only_removed(before: Seq<bool>, after: Seq<bool>) -> bool {
    &&& after.len() == before.len()
    &&& forall|i: int| 0 <= i < after.len() ==> (#[trigger] after[i] ==> before[i])
}

/// Set pixel in 2D image
fn pixel_set(data: &mut Vec<bool>, size: &[i32; 2], x: i32, y: i32, value: bool)
    requires
        size[0] >= 0,
        size[1] >= 0,
        old(data)@.len() == size[0] * size[1],
    ensures
        final(data)@ == (if 0 <= x < size[0] && 0 <= y < size[1] {
            old(data)@.update(grid_index(x as int, y as int, size[0] as int), value)
        } else {
            old(data)@
        }),
        !value ==> only_removed(old(data)@, final(data)@),
        !value ==> filled_count(final(data)@) <= filled_count(old(data)@),
        !value && pixel(old(data)@, size[0] as int, size[1] as int, x as int, y as int)
            ==> filled_count(final(data)@) < filled_count(old(data)@),
{
    if x >= 0 && x < size[0] && y >= 0 && y < size[1] {
        proof {
            assert(data.len() == data@.len());
            lemma_grid_index_bounds(x as int, y as int, size[0] as int, size[1] as int);
            lemma_filled_count_update(
                data@,
                grid_index(x as int, y as int, size[0] as int),
                value,
            );
        }
        let index = xy(x as usize, y as usize, size[0] as usize);
        data[index] = value;
    }
}

/// Get neighborhood of a pixel in a 2D image (0 border conditions)
fn neighborhood_get_no_center(data: &Vec<bool>, size: &[i32; 2], x: i32, y: i32) -> (r: u32)
    requires
        0 <= size[0] <= SIZE_MAX,
        0 <= size[1] <= SIZE_MAX,
        0 <= x < size[0],
        0 <= y < size[1],
        data@.len() == size[0] * size[1],
    ensures
        r == neighborhood(data@, size[0] as int, size[1] as int, x as int, y as int),
{
    (if pixel_get(data, size, x - 1, y - 1) {
        DIR_SW
    } else {
        0
    }) | (if pixel_get(data, size, x, y - 1) {
        DIR_S
    } else {
        0
    }) | (if pixel_get(data, size, x + 1, y - 1) {
        DIR_SE
    } else {
        0
    }) | (if pixel_get(data, size, x - 1, y) {
        DIR_W
    } else {
        0
    }) | (if pixel_get(data, size, x + 1, y) {
        DIR_E
    } else {
        0
    }) | (if pixel_get(data, size, x - 1, y + 1) {
        DIR_NW
    } else {
        0
    }) | (if pixel_get(data, size, x, y + 1) {
        DIR_N
    } else {
        0
    }) | (if pixel_get(data, size, x + 1, y + 1) {
        DIR_NE
    } else {
        0
    })
}

/// Check if a point is at the end of an arc.
/// return true if the point has exactly one neighbor
fn pixel_is_endpoint(data: &Vec<bool>, size: &[i32; 2], x: i32, y: i32) -> (r: bool)
    requires
        0 <= size[0] <= SIZE_MAX,
        0 <= size[1] <= SIZE_MAX,
        0 <= x < size[0],
        0 <= y < size[1],
        data@.len() == size[0] * size[1],
    ensures
        r == endpoint(neighborhood(data@, size[0] as int, size[1] as int, x as int, y as int)),
{
    let mut number_of_neighbors: u32 = 0;
    let neighbors = neighborhood_get_no_center(data, size, x, y);
    let mut i: u32 = 0;
    while i < DIR_FLAG_NUM_NO_CENTER
        invariant
            i <= 8,
            number_of_neighbors == neighbor_count(neighbors, i as int),
        decreases 8 - i,
    {
        proof {
            lemma_flag_at(i);
        }
        if neighbors & (1u32 << i) != 0 {
            number_of_neighbors += 1;
        }
        i += 1;
    }
    number_of_neighbors == 1
}

// ---------------------------------------------------------------------------
// Euler characteristic

/// Change of the Euler characteristic that a quadrant of the neighbourhood
/// contributes, by the quadrant's index.
pub open spec fn index_lut(i: int) -> int {
    if i == 1 || i == 7 || i == 15 || i == 19 || i == 21 || i == 27 || i == 29 {
        1
    } else if i == 3 || i == 5 || i == 11 || i == 13 || i == 17 || i == 23 || i == 31 {
        -1
    } else if i == 9 {
        -3
    } else if i == 25 {
        3
    } else {
        0
    }
}

fn index_lut_get(i: u8) -> (r: i32)
    ensures
        r == index_lut(i as int),
{
    if i == 1 || i == 7 || i == 15 || i == 19 || i == 21 || i == 27 || i == 29 {
        1
    } else if i == 3 || i == 5 || i == 11 || i == 13 || i == 17 || i == 23 || i == 31 {
        -1
    } else if i == 9 {
        -3
    } else if i == 25 {
        3
    } else {
        0
    }
}

/// Index of the north-east quadrant.
pub open spec fn quadrant_ne(neighbors: u32) -> u8 {
    (if neighbors & DIR_S != 0 {
        16u8
    } else {
        0u8
    }) | (if neighbors & DIR_E != 0 {
        2u8
    } else {
        0u8
    }) | 1u8
}

/// Index of the north-west quadrant.
pub open spec fn quadrant_nw(neighbors: u32) -> u8 {
    (if neighbors & DIR_W != 0 {
        16u8
    } else {
        0u8
    }) | (if neighbors & DIR_S != 0 {
        4u8
    } else {
        0u8
    }) | 1u8
}

/// Index of the south-east quadrant.
pub open spec fn quadrant_se(neighbors: u32) -> u8 {
    (if neighbors & DIR_N != 0 {
        16u8
    } else {
        0u8
    }) | (if neighbors & DIR_E != 0 {
        2u8
    } else {
        0u8
    }) | 1u8
}

/// Index of the south-west quadrant.
pub open spec fn quadrant_sw(neighbors: u32) -> u8 {
    (if neighbors & DIR_N != 0 {
        16u8
    } else {
        0u8
    }) | (if neighbors & DIR_W != 0 {
        4u8
    } else {
        0u8
    }) | 1u8
}

/// Whether removing the centre keeps the Euler characteristic of the
/// neighbourhood: the contributions of the four quadrants cancel.
pub open spec fn euler_invariant(neighbors: u32) -> bool {
    index_lut(quadrant_sw(neighbors) as int) + index_lut(quadrant_se(neighbors) as int)
        + index_lut(quadrant_nw(neighbors) as int) + index_lut(quadrant_ne(neighbors) as int) == 0
}

fn index_quadrant_ne(neighbors: u32) -> (r: u8)
    ensures
        r == quadrant_ne(neighbors),
{
    (if neighbors & DIR_S != 0 {
        16u8
    } else {
        0u8
    }) | (if neighbors & DIR_E != 0 {
        2u8
    } else {
        0u8
    }) | 1u8
}

fn index_quadrant_nw(neighbors: u32) -> (r: u8)
    ensures
        r == quadrant_nw(neighbors),
{
    (if neighbors & DIR_W != 0 {
        16u8
    } else {
        0u8
    }) | (if neighbors & DIR_S != 0 {
        4u8
    } else {
        0u8
    }) | 1u8
}

fn index_quadrant_se(neighbors: u32) -> (r: u8)
    ensures
        r == quadrant_se(neighbors),
{
    (if neighbors & DIR_N != 0 {
        16u8
    } else {
        0u8
    }) | (if neighbors & DIR_E != 0 {
        2u8
    } else {
        0u8
    }) | 1u8
}

fn index_quadrant_sw(neighbors: u32) -> (r: u8)
    ensures
        r == quadrant_sw(neighbors),
{
    (if neighbors & DIR_N != 0 {
        16u8
    } else {
        0u8
    }) | (if neighbors & DIR_W != 0 {
        4u8
    } else {
        0u8
    }) | 1u8
}

/// Check if a point is Euler invariant
fn is_euler_invariant(neighbors: u32) -> (r: bool)
    ensures
        r == euler_invariant(neighbors),
{
    // Calculate Euler characteristic for each quadrant and sum up
    let mut euler_char: i32 = 0;

    euler_char += index_lut_get(index_quadrant_sw(neighbors));
    euler_char += index_lut_get(index_quadrant_se(neighbors));
    euler_char += index_lut_get(index_quadrant_nw(neighbors));
    euler_char += index_lut_get(index_quadrant_ne(neighbors));

    euler_char == 0
}

// ---------------------------------------------------------------------------
// Connectivity of the neighbourhood

/// What is left of `quad` after the neighbours connected to the south-west
/// quadrant are taken out.  `fuel` bounds the depth of the search; one more
/// than the number of neighbours is enough.
pub open spec fn labeled_sw(quad: u32, fuel: nat) -> u32
    decreases fuel,
{
    if fuel == 0 {
        quad
    } else {
        let q1 = if quad & DIR_SW != 0 {
            quad & !DIR_SW
        } else {
            quad
        };
        let q2 = if q1 & DIR_S != 0 {
            labeled_se(q1 & !DIR_S, (fuel - 1) as nat)
        } else {
            q1
        };
        if q2 & DIR_W != 0 {
            labeled_nw(q2 & !DIR_W, (fuel - 1) as nat)
        } else {
            q2
        }
    }
}

/// What is left of `quad` after the neighbours connected to the south-east
/// quadrant are taken out.
pub open spec fn labeled_se(quad: u32, fuel: nat) -> u32
    decreases fuel,
{
    if fuel == 0 {
        quad
    } else {
        let q1 = if quad & DIR_S != 0 {
            labeled_se(labeled_sw(quad & !DIR_S, (fuel - 1) as nat), (fuel - 1) as nat)
        } else {
            quad
        };
        let q2 = if q1 & DIR_SE != 0 {
            labeled_se(q1 & !DIR_SE, (fuel - 1) as nat)
        } else {
            q1
        };
        if q2 & DIR_E != 0 {
            labeled_se(labeled_ne(q2 & !DIR_E, (fuel - 1) as nat), (fuel - 1) as nat)
        } else {
            q2
        }
    }
}

/// What is left of `quad` after the neighbours connected to the north-west
/// quadrant are taken out.
pub open spec fn labeled_nw(quad: u32, fuel: nat) -> u32
    decreases fuel,
{
    if fuel == 0 {
        quad
    } else {
        let q1 = if quad & DIR_W != 0 {
            labeled_nw(labeled_sw(quad & !DIR_W, (fuel - 1) as nat), (fuel - 1) as nat)
        } else {
            quad
        };
        let q2 = if q1 & DIR_NW != 0 {
            labeled_nw(q1 & !DIR_NW, (fuel - 1) as nat)
        } else {
            q1
        };
        if q2 & DIR_N != 0 {
            labeled_nw(labeled_ne(q2 & !DIR_N, (fuel - 1) as nat), (fuel - 1) as nat)
        } else {
            q2
        }
    }
}

/// What is left of `quad` after the neighbours connected to the north-east
/// quadrant are taken out.
pub open spec fn labeled_ne(quad: u32, fuel: nat) -> u32
    decreases fuel,
{
    if fuel == 0 {
        quad
    } else {
        let q1 = if quad & DIR_E != 0 {
            labeled_ne(labeled_se(quad & !DIR_E, (fuel - 1) as nat), (fuel - 1) as nat)
        } else {
            quad
        };
        let q2 = if q1 & DIR_N != 0 {
            labeled_ne(labeled_nw(q1 & !DIR_N, (fuel - 1) as nat), (fuel - 1) as nat)
        } else {
            q1
        };
        if q2 & DIR_NE != 0 {
            labeled_ne(q2 & !DIR_NE, (fuel - 1) as nat)
        } else {
            q2
        }
    }
}

/// Depth that every search of a neighbourhood stays within.
pub open spec fn label_fuel() -> nat {
    9
}

/// What is left of `quad` after the neighbours connected to the one at
/// position `i` are taken out.
pub open spec fn labeled_from(quad: u32, i: int) -> u32 {
    if i == 0 || i == 1 || i == 3 {
        labeled_sw(quad, label_fuel())
    } else if i == 2 || i == 4 {
        labeled_se(quad, label_fuel())
    } else if i == 5 || i == 6 {
        labeled_nw(quad, label_fuel())
    } else {
        labeled_ne(quad, label_fuel())
    }
}

/// Whether the neighbours of `quad` from position `i` on form no more
/// connected groups than `2 - label` allows: fewer than two in all.
pub open spec fn simple_from(quad: u32, i: int, label: int) -> bool
    decreases 8 - i,
{
    if i >= 8 {
        true
    } else if quad & flag_at(i) != 0 {
        if label + 1 >= 2 {
            false
        } else {
            simple_from(labeled_from(quad, i), i + 1, label + 1)
        }
    } else {
        simple_from(quad, i + 1, label)
    }
}

/// Whether the neighbours stay connected when the centre is removed: they
/// form at most one group.
pub open spec fn simple_point(neighbors: u32) -> bool {
    simple_from(neighbors, 0, 0)
}

/// What a labeling from the south-west quadrant leaves of its input.
spec fn labels_sw(old_quad: u32, new_quad: u32) -> bool {
    &&& flags_subset(new_quad, old_quad)
    &&& forall|fuel: nat|
        fuel > neighbor_count(old_quad, 8) ==> new_quad == #[trigger] labeled_sw(old_quad, fuel)
}

/// What a labeling from the south-east quadrant leaves of its input.
spec fn labels_se(old_quad: u32, new_quad: u32) -> bool {
    &&& flags_subset(new_quad, old_quad)
    &&& forall|fuel: nat|
        fuel > neighbor_count(old_quad, 8) ==> new_quad == #[trigger] labeled_se(old_quad, fuel)
}

/// What a labeling from the north-west quadrant leaves of its input.
spec fn labels_nw(old_quad: u32, new_quad: u32) -> bool {
    &&& flags_subset(new_quad, old_quad)
    &&& forall|fuel: nat|
        fuel > neighbor_count(old_quad, 8) ==> new_quad == #[trigger] labeled_nw(old_quad, fuel)
}

/// What a labeling from the north-east quadrant leaves of its input.
spec fn labels_ne(old_quad: u32, new_quad: u32) -> bool {
    &&& flags_subset(new_quad, old_quad)
    &&& forall|fuel: nat|
        fuel > neighbor_count(old_quad, 8) ==> new_quad == #[trigger] labeled_ne(old_quad, fuel)
}

/// This is a recursive method that calculates the number of connected
/// components in the 2D neighborhood after the center pixel would
/// have been removed.
#[verifier::rlimit(50)]
fn quadtree_labeling_sw(quad: &mut u32)
    ensures
        labels_sw(*old(quad), *final(quad)),
    decreases neighbor_count(*old(quad), 8), 1int,
{
    let ghost q0 = *quad;
    if *quad & DIR_SW != 0 {
        proof {
            lemma_clear_flag(*quad, DIR_SW);
        }
        *quad &= !DIR_SW;
    }
    let ghost q1 = *quad;
    if *quad & DIR_S != 0 {
        proof {
            lemma_clear_flag(*quad, DIR_S);
        }
        *quad &= !DIR_S;
        quadtree_labeling_se(quad);
    }
    let ghost q2 = *quad;
    proof {
        lemma_and_subset(q2, q1);
        lemma_and_subset(q1, q0);
    }
    if *quad & DIR_W != 0 {
        proof {
            lemma_clear_flag(*quad, DIR_W);
        }
        *quad &= !DIR_W;
        quadtree_labeling_nw(quad);
    }
    proof {
        let q3 = *quad;
        lemma_and_subset(q3, q2);
        assert forall|fuel: nat| fuel > neighbor_count(q0, 8) implies q3 == #[trigger] labeled_sw(
            q0,
            fuel,
        ) by {
            let f1 = (fuel - 1) as nat;
            if q1 & DIR_S != 0 {
                assert(q2 == labeled_se(q1 & !DIR_S, f1));
            }
            if q2 & DIR_W != 0 {
                assert(q3 == labeled_nw(q2 & !DIR_W, f1));
            }
        }
    }
}

#[verifier::rlimit(50)]
fn quadtree_labeling_se(quad: &mut u32)
    ensures
        labels_se(*old(quad), *final(quad)),
    decreases neighbor_count(*old(quad), 8), 1int,
{
    let ghost q0 = *quad;
    let ghost mut s1 = q0;
    if *quad & DIR_S != 0 {
        proof {
            lemma_clear_flag(*quad, DIR_S);
        }
        *quad &= !DIR_S;
        quadtree_labeling_sw(quad);
        proof {
            s1 = *quad;
            lemma_and_subset(s1, q0 & !DIR_S);
        }
        quadtree_labeling_se(quad);
        proof {
            lemma_and_subset(*quad, s1);
        }
    }
    let ghost q1 = *quad;
    proof {
        lemma_and_subset(q1, q0);
    }
    if *quad & DIR_SE != 0 {
        proof {
            lemma_clear_flag(*quad, DIR_SE);
        }
        *quad &= !DIR_SE;
        quadtree_labeling_se(quad);
    }
    let ghost q2 = *quad;
    proof {
        lemma_and_subset(q2, q1);
    }
    let ghost mut s3 = q2;
    if *quad & DIR_E != 0 {
        proof {
            lemma_clear_flag(*quad, DIR_E);
        }
        *quad &= !DIR_E;
        quadtree_labeling_ne(quad);
        proof {
            s3 = *quad;
            lemma_and_subset(s3, q2 & !DIR_E);
        }
        quadtree_labeling_se(quad);
        proof {
            lemma_and_subset(*quad, s3);
        }
    }
    proof {
        let q3 = *quad;
        lemma_and_subset(q3, q2);
        assert forall|fuel: nat| fuel > neighbor_count(q0, 8) implies q3 == #[trigger] labeled_se(
            q0,
            fuel,
        ) by {
            let f1 = (fuel - 1) as nat;
            if q0 & DIR_S != 0 {
                assert(s1 == labeled_sw(q0 & !DIR_S, f1));
                assert(q1 == labeled_se(s1, f1));
            }
            if q1 & DIR_SE != 0 {
                assert(q2 == labeled_se(q1 & !DIR_SE, f1));
            }
            if q2 & DIR_E != 0 {
                assert(s3 == labeled_ne(q2 & !DIR_E, f1));
                assert(q3 == labeled_se(s3, f1));
            }
        }
    }
}

#[verifier::rlimit(50)]
fn quadtree_labeling_nw(quad: &mut u32)
    ensures
        labels_nw(*old(quad), *final(quad)),
    decreases neighbor_count(*old(quad), 8), 1int,
{
    let ghost q0 = *quad;
    let ghost mut s1 = q0;
    if *quad & DIR_W != 0 {
        proof {
            lemma_clear_flag(*quad, DIR_W);
        }
        *quad &= !DIR_W;
        quadtree_labeling_sw(quad);
        proof {
            s1 = *quad;
            lemma_and_subset(s1, q0 & !DIR_W);
        }
        quadtree_labeling_nw(quad);
        proof {
            lemma_and_subset(*quad, s1);
        }
    }
    let ghost q1 = *quad;
    proof {
        lemma_and_subset(q1, q0);
    }
    if *quad & DIR_NW != 0 {
        proof {
            lemma_clear_flag(*quad, DIR_NW);
        }
        *quad &= !DIR_NW;
        quadtree_labeling_nw(quad);
    }
    let ghost q2 = *quad;
    proof {
        lemma_and_subset(q2, q1);
    }
    let ghost mut s3 = q2;
    if *quad & DIR_N != 0 {
        proof {
            lemma_clear_flag(*quad, DIR_N);
        }
        *quad &= !DIR_N;
        quadtree_labeling_ne(quad);
        proof {
            s3 = *quad;
            lemma_and_subset(s3, q2 & !DIR_N);
        }
        quadtree_labeling_nw(quad);
        proof {
            lemma_and_subset(*quad, s3);
        }
    }
    proof {
        let q3 = *quad;
        lemma_and_subset(q3, q2);
        assert forall|fuel: nat| fuel > neighbor_count(q0, 8) implies q3 == #[trigger] labeled_nw(
            q0,
            fuel,
        ) by {
            let f1 = (fuel - 1) as nat;
            if q0 & DIR_W != 0 {
                assert(s1 == labeled_sw(q0 & !DIR_W, f1));
                assert(q1 == labeled_nw(s1, f1));
            }
            if q1 & DIR_NW != 0 {
                assert(q2 == labeled_nw(q1 & !DIR_NW, f1));
            }
            if q2 & DIR_N != 0 {
                assert(s3 == labeled_ne(q2 & !DIR_N, f1));
                assert(q3 == labeled_nw(s3, f1));
            }
        }
    }
}

#[verifier::rlimit(50)]
fn quadtree_labeling_ne(quad: &mut u32)
    ensures
        labels_ne(*old(quad), *final(quad)),
    decreases neighbor_count(*old(quad), 8), 1int,
{
    let ghost q0 = *quad;
    let ghost mut s1 = q0;
    if *quad & DIR_E != 0 {
        proof {
            lemma_clear_flag(*quad, DIR_E);
        }
        *quad &= !DIR_E;
        quadtree_labeling_se(quad);
        proof {
            s1 = *quad;
            lemma_and_subset(s1, q0 & !DIR_E);
        }
        quadtree_labeling_ne(quad);
        proof {
            lemma_and_subset(*quad, s1);
        }
    }
    let ghost q1 = *quad;
    proof {
        lemma_and_subset(q1, q0);
    }
    let ghost mut s2 = q1;
    if *quad & DIR_N != 0 {
        proof {
            lemma_clear_flag(*quad, DIR_N);
        }
        *quad &= !DIR_N;
        quadtree_labeling_nw(quad);
        proof {
            s2 = *quad;
            lemma_and_subset(s2, q1 & !DIR_N);
        }
        quadtree_labeling_ne(quad);
        proof {
            lemma_and_subset(*quad, s2);
        }
    }
    let ghost q2 = *quad;
    proof {
        lemma_and_subset(q2, q1);
    }
    if *quad & DIR_NE != 0 {
        proof {
            lemma_clear_flag(*quad, DIR_NE);
        }
        *quad &= !DIR_NE;
        quadtree_labeling_ne(quad);
    }
    proof {
        let q3 = *quad;
        lemma_and_subset(q3, q2);
        assert forall|fuel: nat| fuel > neighbor_count(q0, 8) implies q3 == #[trigger] labeled_ne(
            q0,
            fuel,
        ) by {
            let f1 = (fuel - 1) as nat;
            if q0 & DIR_E != 0 {
                assert(s1 == labeled_se(q0 & !DIR_E, f1));
                assert(q1 == labeled_ne(s1, f1));
            }
            if q1 & DIR_N != 0 {
                assert(s2 == labeled_nw(q1 & !DIR_N, f1));
                assert(q2 == labeled_ne(s2, f1));
            }
            if q2 & DIR_NE != 0 {
                assert(q3 == labeled_ne(q2 & !DIR_NE, f1));
            }
        }
    }
}

/// Check if current point is a Simple Point: whether the number of
/// connected objects in the neighborhood of a point, after this point would
/// have been removed, stays below two.
#[verifier::rlimit(50)]
fn is_simple_point(neighbors: u32) -> (r: bool)
    ensures
        r == simple_point(neighbors),
{
    let mut quad: u32 = neighbors;

    // set initial label
    let mut label: u32 = 0;
    // for all points in the neighborhood
    let mut i: u32 = 0;
    while i < DIR_FLAG_NUM_NO_CENTER
        invariant
            i <= 8,
            label < 2,
            simple_from(quad, i as int, label as int) == simple_point(neighbors),
        decreases 8 - i,
    {
        // voxel has not been labeled yet
        proof {
            lemma_flag_at(i);
        }
        let flag = 1u32 << i;
        if (quad & flag) != 0 {
            // Start recursion with any quadrant that contains the point 'i'.
            //
            // set points in this quadrant to current label
            // and recursive labeling of adjacent quadrants.
            let ghost before = quad;
            if flag == DIR_SW || flag == DIR_S || flag == DIR_W {
                quadtree_labeling_sw(&mut quad);
            } else if flag == DIR_SE || flag == DIR_E {
                quadtree_labeling_se(&mut quad);
            } else if flag == DIR_NW || flag == DIR_N {
                quadtree_labeling_nw(&mut quad);
            } else {
                quadtree_labeling_ne(&mut quad);
            }
            proof {
                assert(quad == labeled_from(before, i as int));
            }
            label += 1;
            if label >= 2 {
                return false;
            }
        }
        i += 1;
    }
    // return label-2; in [Lee94] if the number of connected components would be needed
    true
}

// ---------------------------------------------------------------------------
// Thinning

/// Whether the neighbour of pixel `(x, y)` on the side that pass `border`
/// peels from is filled: below, above, right, left for 0, 1, 2, 3.
pub open spec fn border_neighbor(img: Seq<bool>, w: int, h: int, border: int, x: int, y: int) -> bool {
    if border == 0 {
        pixel(img, w, h, x, y - 1)
    } else if border == 1 {
        pixel(img, w, h, x, y + 1)
    } else if border == 2 {
        pixel(img, w, h, x + 1, y)
    } else {
        pixel(img, w, h, x - 1, y)
    }
}

/// Whether pass `border` may remove pixel `(x, y)`: it is filled, open on
/// the side of the pass, no end of a line, and neither the Euler
/// characteristic nor the connectivity of its neighbourhood depends on it.
pub open spec fn removable(img: Seq<bool>, w: int, h: int, border: int, x: int, y: int) -> bool {
    let nb = neighborhood(img, w, h, x, y);
    &&& pixel(img, w, h, x, y)
    &&& !border_neighbor(img, w, h, border, x, y)
    &&& !endpoint(nb)
    &&& euler_invariant(nb)
    &&& simple_point(nb)
}

/// No pass may remove a pixel of pass `border`.
pub open spec fn pass_done(img: Seq<bool>, w: int, h: int, border: int) -> bool {
    forall|x: int, y: int| !#[trigger] removable(img, w, h, border, x, y)
}

/// Nothing is left to remove: the bitmap is thin.
pub open spec fn thinned(img: Seq<bool>, w: int, h: int) -> bool {
    forall|border: int| 0 <= border < 4 ==> #[trigger] pass_done(img, w, h, border)
}

/// The bitmap with pixel `(x, y)` set to `value`; the same bitmap where
/// there is no such pixel.
pub open spec fn set_pixel(img: Seq<bool>, w: int, h: int, x: int, y: int, value: bool) -> Seq<bool> {
    if 0 <= x < w && 0 <= y < h {
        img.update(grid_index(x, y, w), value)
    } else {
        img
    }
}

/// The pixels that pass `border` may remove from `(x, y)` on in scan order
/// (rows from the bottom, each left to right), appended to `acc`.
pub open spec fn border_points(
    img: Seq<bool>,
    w: int,
    h: int,
    border: int,
    x: int,
    y: int,
    acc: Seq<(int, int)>,
) -> Seq<(int, int)>
    decreases h - y, w - x,
{
    if y >= h {
        acc
    } else if x >= w {
        border_points(img, w, h, border, 0, y + 1, acc)
    } else if removable(img, w, h, border, x, y) {
        border_points(img, w, h, border, x + 1, y, acc.push((x, y)))
    } else {
        border_points(img, w, h, border, x + 1, y, acc)
    }
}

/// The bitmap after the pixels `points` from position `k` on are looked at
/// again, one after the other: a pixel goes if its neighbours stay
/// connected without it in the bitmap as it is by then.
pub open spec fn recheck(img: Seq<bool>, w: int, h: int, points: Seq<(int, int)>, k: int) -> Seq<
    bool,
>
    decreases points.len() - k,
{
    if k < 0 || k >= points.len() {
        img
    } else if simple_point(neighborhood(img, w, h, points[k].0, points[k].1)) {
        recheck(set_pixel(img, w, h, points[k].0, points[k].1, false), w, h, points, k + 1)
    } else {
        recheck(img, w, h, points, k + 1)
    }
}

/// The bitmap after pass `border`: the pixels the pass may remove are
/// gathered, then looked at again in turn.
pub open spec fn border_pass(img: Seq<bool>, w: int, h: int, border: int) -> Seq<bool> {
    recheck(img, w, h, border_points(img, w, h, border, 0, 0, Seq::empty()), 0)
}

/// The bitmap after the passes from `border` up to the fourth, and the
/// number of passes that changed nothing, counted on from `unchanged`.
pub open spec fn thin_round(img: Seq<bool>, w: int, h: int, border: int, unchanged: int) -> (
    Seq<bool>,
    int,
)
    decreases 4 - border,
{
    if border >= 4 {
        (img, unchanged)
    } else {
        let next = border_pass(img, w, h, border);
        thin_round(next, w, h, border + 1, unchanged + (if next == img {
            1int
        } else {
            0int
        }))
    }
}

/// The bitmap after rounds of four passes, up to `fuel` of them, the last
/// being the first in which no pass changes anything.
pub open spec fn thinning(img: Seq<bool>, w: int, h: int, fuel: nat) -> Seq<bool>
    decreases fuel,
{
    if fuel == 0 {
        img
    } else {
        let r = thin_round(img, w, h, 0, 0);
        if r.1 >= 4 {
            r.0
        } else {
            thinning(r.0, w, h, (fuel - 1) as nat)
        }
    }
}

/// The thinned bitmap: rounds of four passes until a round changes nothing.
/// Every round but the last removes a pixel, so there are no more rounds
/// than filled pixels and one.
pub open spec fn thinned_image(img: Seq<bool>, w: int, h: int) -> Seq<bool> {
    thinning(img, w, h, filled_count(img) + 1)
}

/// Pixels before `(x, y)` in scan order.
spec fn scanned(px: int, py: int, x: int, y: int) -> bool {
    py < y || (py == y && px < x)
}

/// Whether pass `current_border` may remove pixel `(x, y)`.
fn pixel_is_removable(data: &Vec<bool>, size: &[i32; 2], current_border: u32, x: i32, y: i32) -> (r:
    bool)
    requires
        0 <= size[0] <= SIZE_MAX,
        0 <= size[1] <= SIZE_MAX,
        0 <= x < size[0],
        0 <= y < size[1],
        data@.len() == size[0] * size[1],
        current_border < 4,
    ensures
        r == removable(
            data@,
            size[0] as int,
            size[1] as int,
            current_border as int,
            x as int,
            y as int,
        ),
{
    // check if point is foreground
    if pixel_get_no_check(data, size, x, y) == false {
        // current point is already background
        return false;
    }
    // check 4-neighbors if point is a border point of type current_border

    if if current_border == 0 {
        pixel_get(data, size, x, y - 1)
    } else if current_border == 1 {
        pixel_get(data, size, x, y + 1)
    } else if current_border == 2 {
        pixel_get(data, size, x + 1, y)
    } else {
        pixel_get(data, size, x - 1, y)
    } {
        // current point is not deletable
        return false;
    }
    if pixel_is_endpoint(data, size, x, y) {
        return false;
    }
    let neighborhood = neighborhood_get_no_center(data, size, x, y);

    // Check if point is Euler invariant (condition 1 in Lee[94])
    if !is_euler_invariant(neighborhood) {
        // current point is not deletable
        return false;
    }
    // Check if point is simple
    // (deletion does not change connectivity in the 3x3 neighborhood)
    // (conditions 2 and 3 in Lee[94])

    if !is_simple_point(neighborhood) {
        // current point is not deletable
        return false;
    }
    true
}

/// Gather the pixels that pass `current_border` may remove.
#[verifier::rlimit(50)]
fn collect_border_points(
    data: &Vec<bool>,
    size: &[i32; 2],
    current_border: u32,
    simple_border_points: &mut Vec<[i32; 2]>,
)
    requires
        0 <= size[0] <= SIZE_MAX,
        0 <= size[1] <= SIZE_MAX,
        data@.len() == size[0] * size[1],
        current_border < 4,
        old(simple_border_points)@.len() == 0,
    ensures
        poly_points(final(simple_border_points)@) == border_points(
            data@,
            size[0] as int,
            size[1] as int,
            current_border as int,
            0,
            0,
            Seq::empty(),
        ),
        candidates(
            final(simple_border_points)@,
            data@,
            size[0] as int,
            size[1] as int,
            current_border as int,
        ),
        final(simple_border_points)@.len() == 0 ==> pass_done(
            data@,
            size[0] as int,
            size[1] as int,
            current_border as int,
        ),
{
    let ghost w = size[0] as int;
    let ghost h = size[1] as int;
    let ghost img = data@;
    let ghost border = current_border as int;
    let size_x = size[0];
    let size_y = size[1];
    proof {
        assert(poly_points(simple_border_points@) =~= Seq::<(int, int)>::empty());
    }
    // Loop over each pixel
    let mut y: i32 = 0;
    while y < size_y
        invariant
            w == size[0],
            h == size[1],
            size_x == size[0],
            size_y == size[1],
            0 <= size[0] <= SIZE_MAX,
            0 <= size[1] <= SIZE_MAX,
            img == data@,
            data@.len() == w * h,
            current_border < 4,
            border == current_border,
            0 <= y <= size_y,
            candidates(simple_border_points@, img, w, h, border),
            border_points(img, w, h, border, 0, y as int, poly_points(simple_border_points@))
                == border_points(img, w, h, border, 0, 0, Seq::empty()),
            forall|px: int, py: int|
                scanned(px, py, 0, y as int) && #[trigger] removable(img, w, h, border, px, py)
                    ==> simple_border_points@.len() > 0,
        decreases size_y - y,
    {
        let mut x: i32 = 0;
        while x < size_x
            invariant
                w == size[0],
                h == size[1],
                size_x == size[0],
                size_y == size[1],
                0 <= size[0] <= SIZE_MAX,
                0 <= size[1] <= SIZE_MAX,
                img == data@,
                data@.len() == w * h,
                current_border < 4,
                border == current_border,
                0 <= y < size_y,
                0 <= x <= size_x,
                candidates(simple_border_points@, img, w, h, border),
                border_points(
                    img,
                    w,
                    h,
                    border,
                    x as int,
                    y as int,
                    poly_points(simple_border_points@),
                ) == border_points(img, w, h, border, 0, 0, Seq::empty()),
                forall|px: int, py: int|
                    scanned(px, py, x as int, y as int) && #[trigger] removable(
                        img,
                        w,
                        h,
                        border,
                        px,
                        py,
                    ) ==> simple_border_points@.len() > 0,
            decreases size_x - x,
        {
            if pixel_is_removable(data, size, current_border, x, y) {
                // add all simple border points to a list for sequential re-checking
                let ghost list = simple_border_points@;
                simple_border_points.push([x, y]);
                proof {
                    assert(poly_points(simple_border_points@) =~= poly_points(list).push(
                        (x as int, y as int),
                    ));
                    assert forall|k: int|
                        0 <= k < simple_border_points@.len() implies #[trigger] candidate(
                        simple_border_points@[k],
                        img,
                        w,
                        h,
                        border,
                    ) by {
                        if k < list.len() {
                            assert(candidate(list[k], img, w, h, border));
                        }
                    }
                }
            }
            x += 1;
        }
        y += 1;
    }
    proof {
        if simple_border_points@.len() == 0 {
            assert forall|px: int, py: int| !#[trigger] removable(img, w, h, border, px, py) by {
                if removable(img, w, h, border, px, py) {
                    assert(pixel(img, w, h, px, py));
                    assert(scanned(px, py, 0, h));
                }
            }
        }
    }
}

/// Where pixels have only gone and the bitmap is not the same, fewer
/// pixels are filled.
proof fn lemma_removed_count(before: Seq<bool>, after: Seq<bool>)
    requires
        only_removed(before, after),
    ensures
        filled_count(after) <= filled_count(before),
        after != before ==> filled_count(after) < filled_count(before),
    decreases before.len(),
{
    if before.len() > 0 {
        assert forall|i: int|
            0 <= i < after.drop_last().len() && #[trigger] after.drop_last()[i] implies before.drop_last()[i] by {
            assert(after[i]);
        }
        lemma_removed_count(before.drop_last(), after.drop_last());
        assert(after.last() ==> before.last());
        if after != before {
            if after.drop_last() == before.drop_last() {
                assert(after =~= after.drop_last().push(after.last()));
                assert(before =~= before.drop_last().push(before.last()));
            }
        }
    } else {
        assert(after =~= before);
    }
}

/// Look at the gathered pixels again, one after the other, and remove
/// those whose neighbours stay connected without them.  Tells whether the
/// bitmap is as it was.
#[verifier::rlimit(50)]
fn recheck_border_points(
    data: &mut Vec<bool>,
    size: &[i32; 2],
    simple_border_points: &Vec<[i32; 2]>,
    Ghost(border): Ghost<int>,
) -> (no_change: bool)
    requires
        0 <= size[0] <= SIZE_MAX,
        0 <= size[1] <= SIZE_MAX,
        old(data)@.len() == size[0] * size[1],
        candidates(simple_border_points@, old(data)@, size[0] as int, size[1] as int, border),
    ensures
        final(data)@ == recheck(
            old(data)@,
            size[0] as int,
            size[1] as int,
            poly_points(simple_border_points@),
            0,
        ),
        only_removed(old(data)@, final(data)@),
        no_change == (final(data)@ == old(data)@),
        no_change ==> simple_border_points@.len() == 0,
{
    let ghost w = size[0] as int;
    let ghost h = size[1] as int;
    let ghost scan = data@;
    let ghost points = poly_points(simple_border_points@);
    let mut no_change: bool = true;
    // sequential re-checking to preserve connectivity when
    // deleting in a parallel way
    let mut k: usize = 0;
    while k < simple_border_points.len()
        invariant
            w == size[0],
            h == size[1],
            0 <= size[0] <= SIZE_MAX,
            0 <= size[1] <= SIZE_MAX,
            points == poly_points(simple_border_points@),
            only_removed(scan, data@),
            data@.len() == w * h,
            k <= simple_border_points@.len(),
            candidates(simple_border_points@, scan, w, h, border),
            recheck(data@, w, h, points, k as int) == recheck(scan, w, h, points, 0),
            no_change ==> data@ == scan,
            !no_change ==> filled_count(data@) < filled_count(scan),
            k > 0 ==> !no_change,
        decreases simple_border_points@.len() - k,
    {
        let index = simple_border_points[k];
        proof {
            assert(candidate(simple_border_points@[k as int], scan, w, h, border));
            assert(points[k as int] == (index[0] as int, index[1] as int));
        }
        // Check if border points is simple
        if is_simple_point(neighborhood_get_no_center(data, size, index[0], index[1])) {
            // we can delete the current point
            let ghost before = data@;
            pixel_set(data, size, index[0], index[1], false);
            proof {
                assert forall|i: int| 0 <= i < data@.len() && #[trigger] data@[i] implies scan[i] by {
                    assert(before[i]);
                }
                lemma_removed_count(scan, before);
                assert(data@ == set_pixel(before, w, h, index[0] as int, index[1] as int, false));
            }
            no_change = false;
        }
        k += 1;
    }
    proof {
        lemma_removed_count(scan, data@);
    }
    no_change
}

/// Thin the bitmap: peel border pixels off from the four sides in turn
/// until a round of four passes changes nothing.
#[verifier::rlimit(50)]
fn compute_thin_image(data: &mut Vec<bool>, size: &[i32; 2])
    requires
        0 <= size[0] <= SIZE_MAX,
        0 <= size[1] <= SIZE_MAX,
        old(data)@.len() == size[0] * size[1],
    ensures
        final(data)@ == thinned_image(old(data)@, size[0] as int, size[1] as int),
        only_removed(old(data)@, final(data)@),
        thinned(final(data)@, size[0] as int, size[1] as int),
{
    let ghost w = size[0] as int;
    let ghost h = size[1] as int;
    let ghost start = data@;
    let ghost mut fuel: nat = filled_count(start) + 1;
    let mut simple_border_points: Vec<[i32; 2]> = Vec::new();

    // Loop through the image several times until there is no change.
    let mut unchanged_borders: u32 = 0;

    // loop until no change for all the border types
    while unchanged_borders < 4
        invariant
            w == size[0],
            h == size[1],
            0 <= size[0] <= SIZE_MAX,
            0 <= size[1] <= SIZE_MAX,
            only_removed(start, data@),
            data@.len() == w * h,
            simple_border_points@.len() == 0,
            unchanged_borders <= 4,
            unchanged_borders < 4 ==> fuel > filled_count(data@) && thinning(data@, w, h, fuel)
                == thinned_image(start, w, h),
            unchanged_borders == 4 ==> data@ == thinned_image(start, w, h) && thinned(data@, w, h),
        decreases filled_count(data@), 4 - unchanged_borders,
    {
        let ghost round_start = data@;
        let ghost c0 = filled_count(data@);
        unchanged_borders = 0;
        let mut current_border: u32 = 0;
        while current_border < 4
            invariant
                w == size[0],
                h == size[1],
                0 <= size[0] <= SIZE_MAX,
                0 <= size[1] <= SIZE_MAX,
                only_removed(start, data@),
                data@.len() == w * h,
                simple_border_points@.len() == 0,
                current_border <= 4,
                unchanged_borders <= current_border,
                filled_count(data@) <= c0,
                unchanged_borders < current_border ==> filled_count(data@) < c0,
                unchanged_borders == current_border ==> forall|b: int|
                    0 <= b < current_border ==> #[trigger] pass_done(data@, w, h, b),
                thin_round(data@, w, h, current_border as int, unchanged_borders as int)
                    == thin_round(round_start, w, h, 0, 0),
            decreases 4 - current_border,
        {
            let ghost scan = data@;
            collect_border_points(data, size, current_border, &mut simple_border_points);
            let no_change = recheck_border_points(
                data,
                size,
                &simple_border_points,
                Ghost(current_border as int),
            );
            proof {
                assert(data@ == border_pass(scan, w, h, current_border as int));
                lemma_removed_count(scan, data@);
                assert forall|i: int| 0 <= i < data@.len() && #[trigger] data@[i] implies start[i] by {
                    assert(scan[i]);
                }
            }

            if no_change {
                unchanged_borders += 1;
                proof {
                    assert(pass_done(data@, w, h, current_border as int));
                    if unchanged_borders == current_border + 1 {
                        assert forall|b: int| 0 <= b < current_border + 1 implies #[trigger] pass_done(
                            data@,
                            w,
                            h,
                            b,
                        ) by {}
                    }
                }
            }
            simple_border_points.clear();
            current_border += 1;
        }
        proof {
            // the round is over: either nothing changed in it, or a pixel went
            assert(thin_round(data@, w, h, 4, unchanged_borders as int) == (
                data@,
                unchanged_borders as int,
            ));
            assert(fuel > 0);
            fuel = (fuel - 1) as nat;
        }
    }
}

/// Whether `p` is a pixel that pass `border` may remove from `img`.
spec fn candidate(p: [i32; 2], img: Seq<bool>, w: int, h: int, border: int) -> bool {
    &&& 0 <= p[0] < w
    &&& 0 <= p[1] < h
    &&& removable(img, w, h, border, p[0] as int, p[1] as int)
}

spec fn candidates(list: Seq<[i32; 2]>, img: Seq<bool>, w: int, h: int, border: int) -> bool {
    forall|k: int| 0 <= k < list.len() ==> #[trigger] candidate(list[k], img, w, h, border)
}

/// Thin the bitmap in place until no pass can remove a pixel.
///
/// * `data` - row-major pixels, `size[0]` wide and `size[1]` high.
///
/// The result is what rounds of the four passes leave.  Pixels are only
/// ever removed, and the result is thin: no pixel is left that one of the
/// four passes could take.
pub fn calculate(data: &mut Vec<bool>, size: &[usize; 2])
    requires
        old(data)@.len() == size[0] * size[1],
        size[0] <= SIZE_MAX,
        size[1] <= SIZE_MAX,
    ensures
        final(data)@ == thinned_image(old(data)@, size[0] as int, size[1] as int),
        only_removed(old(data)@, final(data)@),
        thinned(final(data)@, size[0] as int, size[1] as int),
{
    let isize: [i32; 2] = [size[0] as i32, size[1] as i32];
    compute_thin_image(data, &isize);
}

} // verus!
