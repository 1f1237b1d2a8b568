//! Direction bits.  A mask of them names the neighbours a lattice point is
//! linked to: four along the axes, four along the diagonals.

use vstd::prelude::*;

verus! {

/// Towards smaller x.
pub const L: u8 = 1;

/// Towards larger x.
pub const R: u8 = 2;

/// Towards smaller y.
pub const D: u8 = 4;

/// Towards larger y.
pub const U: u8 = 8;

/// Towards smaller x and smaller y.
pub const LD: u8 = 16;

/// Towards smaller x and larger y.
pub const LU: u8 = 32;

/// Towards larger x and smaller y.
pub const RD: u8 = 64;

/// Towards larger x and larger y.
pub const RU: u8 = 128;

/// Whether mask `m` holds direction bit `b`.
pub open spec fn has_bit(m: u8, b: u8) -> bool {
    m & b != 0
}

/// The bit `b` when `on`, no bit otherwise.
pub open spec fn bit_if(on: bool, b: u8) -> u8 {
    if on {
        b
    } else {
        0
    }
}

/// Whether `d` is exactly one of the eight direction bits.
pub open spec fn is_link(d: u8) -> bool {
    d == L || d == R || d == D || d == U || d == LD || d == LU || d == RD || d == RU
}

/// Change of x when stepping in direction `d`.
pub open spec fn link_dx(d: u8) -> int {
    if d == L || d == LD || d == LU {
        -1
    } else if d == R || d == RD || d == RU {
        1
    } else {
        0
    }
}

/// Change of y when stepping in direction `d`.
pub open spec fn link_dy(d: u8) -> int {
    if d == D || d == LD || d == RD {
        -1
    } else if d == U || d == LU || d == RU {
        1
    } else {
        0
    }
}

/// Change of position in a row-major grid whose rows are `w` long when
/// stepping in direction `d`.
pub open spec fn link_offset(d: u8, w: int) -> int {
    if d == L {
        -1
    } else if d == R {
        1
    } else if d == D {
        -w
    } else if d == U {
        w
    } else if d == LD {
        -1 - w
    } else if d == LU {
        -1 + w
    } else if d == RD {
        1 - w
    } else if d == RU {
        1 + w
    } else {
        0
    }
}

/// The direction that leads back.
pub open spec fn opposite(d: u8) -> u8 {
    if d == L {
        R
    } else if d == R {
        L
    } else if d == D {
        U
    } else if d == U {
        D
    } else if d == LD {
        RU
    } else if d == LU {
        RD
    } else if d == RD {
        LU
    } else if d == RU {
        LD
    } else {
        0
    }
}

/// Number of direction bits in a mask.
pub open spec fn link_count(m: u8) -> nat {
    (if has_bit(m, L) {
        1nat
    } else {
        0nat
    }) + (if has_bit(m, R) {
        1nat
    } else {
        0nat
    }) + (if has_bit(m, D) {
        1nat
    } else {
        0nat
    }) + (if has_bit(m, U) {
        1nat
    } else {
        0nat
    }) + (if has_bit(m, LD) {
        1nat
    } else {
        0nat
    }) + (if has_bit(m, LU) {
        1nat
    } else {
        0nat
    }) + (if has_bit(m, RD) {
        1nat
    } else {
        0nat
    }) + (if has_bit(m, RU) {
        1nat
    } else {
        0nat
    })
}

/// Every bit of `a` is a bit of `b`.
pub open spec fn bits_subset(a: u8, b: u8) -> bool {
    &&& has_bit(a, L) ==> has_bit(b, L)
    &&& has_bit(a, R) ==> has_bit(b, R)
    &&& has_bit(a, D) ==> has_bit(b, D)
    &&& has_bit(a, U) ==> has_bit(b, U)
    &&& has_bit(a, LD) ==> has_bit(b, LD)
    &&& has_bit(a, LU) ==> has_bit(b, LU)
    &&& has_bit(a, RD) ==> has_bit(b, RD)
    &&& has_bit(a, RU) ==> has_bit(b, RU)
}

/// The bits of `m | b` are those of `m` and the bit `b`.
pub proof fn lemma_or_bit(m: u8, b: u8)
    requires
        is_link(b),
    ensures
        has_bit(m | b, L) == (has_bit(m, L) || b == L),
        has_bit(m | b, R) == (has_bit(m, R) || b == R),
        has_bit(m | b, D) == (has_bit(m, D) || b == D),
        has_bit(m | b, U) == (has_bit(m, U) || b == U),
        has_bit(m | b, LD) == (has_bit(m, LD) || b == LD),
        has_bit(m | b, LU) == (has_bit(m, LU) || b == LU),
        has_bit(m | b, RD) == (has_bit(m, RD) || b == RD),
        has_bit(m | b, RU) == (has_bit(m, RU) || b == RU),
{
    assert(((m | b) & 1 != 0) == ((m & 1 != 0) || b == 1) && ((m | b) & 2 != 0) == ((m & 2 != 0)
        || b == 2) && ((m | b) & 4 != 0) == ((m & 4 != 0) || b == 4) && ((m | b) & 8 != 0) == ((m
        & 8 != 0) || b == 8) && ((m | b) & 16 != 0) == ((m & 16 != 0) || b == 16) && ((m | b) & 32
        != 0) == ((m & 32 != 0) || b == 32) && ((m | b) & 64 != 0) == ((m & 64 != 0) || b == 64)
        && ((m | b) & 128 != 0) == ((m & 128 != 0) || b == 128)) by (bit_vector)
        requires
            b == 1 || b == 2 || b == 4 || b == 8 || b == 16 || b == 32 || b == 64 || b == 128,
    ;
}

/// The bits of `m & !b` are those of `m` but the bit `b`.
pub proof fn lemma_clear_bit(m: u8, b: u8)
    requires
        is_link(b),
    ensures
        has_bit(m & !b, L) == (has_bit(m, L) && b != L),
        has_bit(m & !b, R) == (has_bit(m, R) && b != R),
        has_bit(m & !b, D) == (has_bit(m, D) && b != D),
        has_bit(m & !b, U) == (has_bit(m, U) && b != U),
        has_bit(m & !b, LD) == (has_bit(m, LD) && b != LD),
        has_bit(m & !b, LU) == (has_bit(m, LU) && b != LU),
        has_bit(m & !b, RD) == (has_bit(m, RD) && b != RD),
        has_bit(m & !b, RU) == (has_bit(m, RU) && b != RU),
{
    assert(((m & !b) & 1 != 0) == ((m & 1 != 0) && b != 1) && ((m & !b) & 2 != 0) == ((m & 2 != 0)
        && b != 2) && ((m & !b) & 4 != 0) == ((m & 4 != 0) && b != 4) && ((m & !b) & 8 != 0) == ((m
        & 8 != 0) && b != 8) && ((m & !b) & 16 != 0) == ((m & 16 != 0) && b != 16) && ((m & !b)
        & 32 != 0) == ((m & 32 != 0) && b != 32) && ((m & !b) & 64 != 0) == ((m & 64 != 0) && b
        != 64) && ((m & !b) & 128 != 0) == ((m & 128 != 0) && b != 128)) by (bit_vector)
        requires
            b == 1 || b == 2 || b == 4 || b == 8 || b == 16 || b == 32 || b == 64 || b == 128,
    ;
}

/// A mask is zero exactly when it holds no bit, and two masks with the same
/// bits are the same mask.
pub proof fn lemma_bits_determine(a: u8, b: u8)
    ensures
        a == 0 <==> link_count(a) == 0,
        (has_bit(a, L) == has_bit(b, L) && has_bit(a, R) == has_bit(b, R) && has_bit(a, D)
            == has_bit(b, D) && has_bit(a, U) == has_bit(b, U) && has_bit(a, LD) == has_bit(b, LD)
            && has_bit(a, LU) == has_bit(b, LU) && has_bit(a, RD) == has_bit(b, RD) && has_bit(
            a,
            RU,
        ) == has_bit(b, RU)) ==> a == b,
{
    assert((a == 0 <==> (a & 1 == 0 && a & 2 == 0 && a & 4 == 0 && a & 8 == 0 && a & 16 == 0 && a
        & 32 == 0 && a & 64 == 0 && a & 128 == 0)) && (((a & 1 != 0) == (b & 1 != 0) && (a & 2
        != 0) == (b & 2 != 0) && (a & 4 != 0) == (b & 4 != 0) && (a & 8 != 0) == (b & 8 != 0) && (a
        & 16 != 0) == (b & 16 != 0) && (a & 32 != 0) == (b & 32 != 0) && (a & 64 != 0) == (b & 64
        != 0) && (a & 128 != 0) == (b & 128 != 0)) ==> a == b)) by (bit_vector);
}

/// The bits of a union of optional direction bits are the ones that are on.
pub proof fn lemma_union_bits(l: u8, r: u8, d: u8, u: u8, ld: u8, lu: u8, rd: u8, ru: u8)
    requires
        l == 0 || l == L,
        r == 0 || r == R,
        d == 0 || d == D,
        u == 0 || u == U,
        ld == 0 || ld == LD,
        lu == 0 || lu == LU,
        rd == 0 || rd == RD,
        ru == 0 || ru == RU,
    ensures
        has_bit(l | r | d | u | ld | lu | rd | ru, L) == (l != 0),
        has_bit(l | r | d | u | ld | lu | rd | ru, R) == (r != 0),
        has_bit(l | r | d | u | ld | lu | rd | ru, D) == (d != 0),
        has_bit(l | r | d | u | ld | lu | rd | ru, U) == (u != 0),
        has_bit(l | r | d | u | ld | lu | rd | ru, LD) == (ld != 0),
        has_bit(l | r | d | u | ld | lu | rd | ru, LU) == (lu != 0),
        has_bit(l | r | d | u | ld | lu | rd | ru, RD) == (rd != 0),
        has_bit(l | r | d | u | ld | lu | rd | ru, RU) == (ru != 0),
{
    let m = l | r | d | u | ld | lu | rd | ru;
    assert(((l | r | d | u | ld | lu | rd | ru) & 1 != 0) == (l != 0) && ((l | r | d | u | ld | lu
        | rd | ru) & 2 != 0) == (r != 0) && ((l | r | d | u | ld | lu | rd | ru) & 4 != 0) == (d
        != 0) && ((l | r | d | u | ld | lu | rd | ru) & 8 != 0) == (u != 0) && ((l | r | d | u | ld
        | lu | rd | ru) & 16 != 0) == (ld != 0) && ((l | r | d | u | ld | lu | rd | ru) & 32 != 0)
        == (lu != 0) && ((l | r | d | u | ld | lu | rd | ru) & 64 != 0) == (rd != 0) && ((l | r | d
        | u | ld | lu | rd | ru) & 128 != 0) == (ru != 0)) by (bit_vector)
        requires
            l == 0 || l == 1,
            r == 0 || r == 2,
            d == 0 || d == 4,
            u == 0 || u == 8,
            ld == 0 || ld == 16,
            lu == 0 || lu == 32,
            rd == 0 || rd == 64,
            ru == 0 || ru == 128,
    ;
}

/// Masking bits out adds none.
pub proof fn lemma_and_not_subset(a: u8, b: u8)
    ensures
        bits_subset(a & !b, a),
        a & !0u8 == a,
{
    assert(((a & !b) & 1 != 0 ==> a & 1 != 0) && ((a & !b) & 2 != 0 ==> a & 2 != 0) && ((a & !b) & 4
        != 0 ==> a & 4 != 0) && ((a & !b) & 8 != 0 ==> a & 8 != 0) && ((a & !b) & 16 != 0 ==> a
        & 16 != 0) && ((a & !b) & 32 != 0 ==> a & 32 != 0) && ((a & !b) & 64 != 0 ==> a & 64 != 0)
        && ((a & !b) & 128 != 0 ==> a & 128 != 0) && (a & !0u8 == a)) by (bit_vector);
}

/// A mask holds neither of two bits exactly when it does not meet their union.
pub proof fn lemma_pair_test(m: u8, a: u8, b: u8)
    ensures
        ((m & (a | b)) == 0) == (!has_bit(m, a) && !has_bit(m, b)),
{
    assert(((m & (a | b)) == 0) == (!(m & a != 0) && !(m & b != 0))) by (bit_vector);
}

} // verus!
