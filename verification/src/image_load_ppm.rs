//! Decoding of binary PPM images (`P6`) from the bytes of a file.
//!
//! A file is the magic `P6` and the rest of its line; then the header
//! fields width, height and greatest colour value, with lines in between
//! that start with `#` or with white space and are passed over; then,
//! straight after the one white-space byte that ends the last field, three
//! bytes per pixel.

use vstd::prelude::*;

verus! {

/// Why a file could not be decoded.
#[derive(PartialEq, Eq, Structural, Debug, Copy, Clone)]
pub enum PpmError {
    /// The file ends before the image does.
    UnexpectedEof,
    /// The file does not start with `P6`.
    InvalidHeader,
    /// A header field starts with white space.
    NoNumberFound,
    /// A header field is no number that fits the machine.
    InvalidNumber,
    /// Width or height is zero.
    InvalidSize,
    /// The greatest colour value is not in `1..=65535`.
    InvalidColorRange,
}

/// A decoded image: its width and height, its greatest colour value, and
/// its pixels row by row.
pub struct PpmImage {
    pub size: [usize; 2],
    pub color_max: usize,
    pub pixel_buffer: Vec<[u8; 3]>,
}

// ---------------------------------------------------------------------------
// The format

/// Line feed.
pub open spec fn is_newline(b: u8) -> bool {
    b == 10
}

/// Space, tab, carriage return or line feed.
pub open spec fn is_space(b: u8) -> bool {
    b == 32 || b == 9 || b == 13 || b == 10
}

/// A digit `0` to `9`.
pub open spec fn is_digit(b: u8) -> bool {
    48 <= b <= 57
}

/// The first position from `pos` on that holds a line feed, or the length
/// of the file if there is none.
pub open spec fn find_newline(bytes: Seq<u8>, pos: int) -> int
    decreases bytes.len() - pos,
{
    if pos < 0 || pos >= bytes.len() {
        bytes.len() as int
    } else if is_newline(bytes[pos]) {
        pos
    } else {
        find_newline(bytes, pos + 1)
    }
}

/// The first position from `pos` on that holds white space, or the length
/// of the file if there is none.
pub open spec fn find_space(bytes: Seq<u8>, pos: int) -> int
    decreases bytes.len() - pos,
{
    if pos < 0 || pos >= bytes.len() {
        bytes.len() as int
    } else if is_space(bytes[pos]) {
        pos
    } else {
        find_space(bytes, pos + 1)
    }
}

/// A search from a position in the file ends at or after it.
pub proof fn lemma_find_bounds(bytes: Seq<u8>, pos: int)
    requires
        0 <= pos <= bytes.len(),
    ensures
        pos <= find_newline(bytes, pos) <= bytes.len(),
        pos <= find_space(bytes, pos) <= bytes.len(),
    decreases bytes.len() - pos,
{
    if pos < bytes.len() {
        lemma_find_bounds(bytes, pos + 1);
    }
}

/// Whether every byte is a digit.
pub open spec fn all_digits(s: Seq<u8>) -> bool {
    forall|i: int| 0 <= i < s.len() ==> is_digit(#[trigger] s[i])
}

/// The number that a string of digits spells.
pub open spec fn decimal_value(s: Seq<u8>) -> nat
    decreases s.len(),
{
    if s.len() == 0 {
        0
    } else {
        (decimal_value(s.drop_last()) * 10 + (s.last() - 48)) as nat
    }
}

/// The digits of a header field: the field without a leading `+`.
pub open spec fn field_digits(field: Seq<u8>) -> Seq<u8> {
    if field.len() > 0 && field[0] == 43 {
        field.drop_first()
    } else {
        field
    }
}

/// The header field that starts at `pos`: its value and the position after
/// the white-space byte that ends it.  The field is an optional `+` and one
/// digit or more.
pub open spec fn read_field(bytes: Seq<u8>, pos: int) -> Result<(usize, int), PpmError> {
    let end = find_space(bytes, pos);
    let digits = field_digits(bytes.subrange(pos, end));
    if pos < 0 || pos >= bytes.len() {
        Err(PpmError::UnexpectedEof)
    } else if is_space(bytes[pos]) {
        Err(PpmError::NoNumberFound)
    } else if end >= bytes.len() {
        Err(PpmError::UnexpectedEof)
    } else if digits.len() == 0 || !all_digits(digits) || decimal_value(digits) > usize::MAX {
        Err(PpmError::InvalidNumber)
    } else {
        Ok((decimal_value(digits) as usize, end + 1))
    }
}

/// The header fields from `pos` on: width and height (unless `size` holds
/// them already) and the greatest colour value, with the position after
/// them.  Lines that start with `#` or white space are passed over.
pub open spec fn read_header(bytes: Seq<u8>, pos: int, size: Option<(usize, usize)>) -> Result<
    (usize, usize, usize, int),
    PpmError,
>
    decreases bytes.len() - pos,
{
    if pos < 0 || pos >= bytes.len() {
        Err(PpmError::UnexpectedEof)
    } else if bytes[pos] == 35 || is_space(bytes[pos]) {
        let end = find_newline(bytes, pos);
        if end >= bytes.len() {
            Err(PpmError::UnexpectedEof)
        } else {
            proof {
                lemma_find_bounds(bytes, pos);
            }
            read_header(bytes, end + 1, size)
        }
    } else {
        match size {
            None => match read_field(bytes, pos) {
                Err(e) => Err(e),
                Ok((w, pos_w)) => match read_field(bytes, pos_w) {
                    Err(e) => Err(e),
                    Ok((h, pos_h)) => if !(w > 0 && h > 0) {
                        Err(PpmError::InvalidSize)
                    } else {
                        proof {
                            lemma_find_bounds(bytes, pos);
                            lemma_find_bounds(bytes, pos_w);
                        }
                        read_header(bytes, pos_h, Some((w, h)))
                    },
                },
            },
            Some((w, h)) => match read_field(bytes, pos) {
                Err(e) => Err(e),
                Ok((color_max, pos_c)) => if !(color_max > 0 && color_max < 65536) {
                    Err(PpmError::InvalidColorRange)
                } else {
                    Ok((w, h, color_max, pos_c))
                },
            },
        }
    }
}

/// What a file decodes to: the width, the height, the greatest colour
/// value and the position of the pixel data; or why it does not decode.
/// The file must hold three bytes for every pixel; what follows them is
/// ignored.
pub open spec fn parse_layout(bytes: Seq<u8>) -> Result<(usize, usize, usize, int), PpmError> {
    if bytes.len() < 2 {
        Err(PpmError::UnexpectedEof)
    } else if !(bytes[0] == 80 && bytes[1] == 54) {
        Err(PpmError::InvalidHeader)
    } else if find_newline(bytes, 2) >= bytes.len() {
        Err(PpmError::UnexpectedEof)
    } else {
        match read_header(bytes, find_newline(bytes, 2) + 1, None) {
            Err(e) => Err(e),
            Ok((w, h, color_max, pos)) => if pos + 3 * (w * h) > bytes.len() {
                Err(PpmError::UnexpectedEof)
            } else {
                Ok((w, h, color_max, pos))
            },
        }
    }
}

/// Whether `image` is what the file decodes to with the layout
/// `(w, h, color_max, pos)`.
pub open spec fn image_is(
    image: PpmImage,
    bytes: Seq<u8>,
    layout: (usize, usize, usize, int),
) -> bool {
    &&& image.size[0] == layout.0
    &&& image.size[1] == layout.1
    &&& image.color_max == layout.2
    &&& image.pixel_buffer@.len() == layout.0 * layout.1
    &&& forall|i: int|
        0 <= i < image.pixel_buffer@.len() ==> (#[trigger] image.pixel_buffer@[i])@
            == bytes.subrange(layout.3 + 3 * i, layout.3 + 3 * i + 3)
}

// ---------------------------------------------------------------------------
// Decoding

proof fn lemma_find_newline(bytes: Seq<u8>, pos: int, i: int)
    requires
        0 <= pos <= i <= bytes.len(),
        forall|j: int| pos <= j < i ==> !is_newline(#[trigger] bytes[j]),
        i == bytes.len() || is_newline(bytes[i]),
    ensures
        find_newline(bytes, pos) == i,
    decreases i - pos,
{
    if pos < i {
        lemma_find_newline(bytes, pos + 1, i);
    }
}

proof fn lemma_find_space(bytes: Seq<u8>, pos: int, i: int)
    requires
        0 <= pos <= i <= bytes.len(),
        forall|j: int| pos <= j < i ==> !is_space(#[trigger] bytes[j]),
        i == bytes.len() || is_space(bytes[i]),
    ensures
        find_space(bytes, pos) == i,
    decreases i - pos,
{
    if pos < i {
        lemma_find_space(bytes, pos + 1, i);
    }
}

/// The position of the next line feed from `pos` on, or the length of the
/// file.
fn read_until_newline(bytes: &[u8], pos: usize) -> (i: usize)
    requires
        pos <= bytes@.len(),
    ensures
        i == find_newline(bytes@, pos as int),
        pos <= i <= bytes@.len(),
{
    let mut i = pos;
    while i < bytes.len() && bytes[i] != 10
        invariant
            pos <= i <= bytes@.len(),
            forall|j: int| pos <= j < i ==> !is_newline(#[trigger] bytes@[j]),
        decreases bytes@.len() - i,
    {
        i += 1;
    }
    proof {
        lemma_find_newline(bytes@, pos as int, i as int);
    }
    i
}

fn byte_is_space(b: u8) -> (r: bool)
    ensures
        r == is_space(b),
{
    b == 32 || b == 9 || b == 13 || b == 10
}

/// A number spelt by more digits is no smaller.
proof fn lemma_decimal_grows(s: Seq<u8>, n: int)
    requires
        0 <= n <= s.len(),
        all_digits(s),
    ensures
        decimal_value(s.subrange(0, n)) <= decimal_value(s),
    decreases s.len() - n,
{
    if n < s.len() {
        lemma_decimal_grows(s, n + 1);
        let longer = s.subrange(0, n + 1);
        assert(longer.drop_last() =~= s.subrange(0, n));
        assert(is_digit(s[n]));
    } else {
        assert(s.subrange(0, n) =~= s);
    }
}

/// Read one header field.
#[verifier::rlimit(50)]
fn read_as_usize_skip_ws(bytes: &[u8], pos: usize) -> (r: Result<(usize, usize), PpmError>)
    requires
        pos <= bytes@.len(),
    ensures
        r matches Ok((value, next)) ==> read_field(bytes@, pos as int) == Ok::<
            (usize, int),
            PpmError,
        >((value, next as int)) && pos < next <= bytes@.len(),
        r matches Err(e) ==> read_field(bytes@, pos as int) == Err::<(usize, int), PpmError>(e),
{
    if pos >= bytes.len() {
        return Err(PpmError::UnexpectedEof);
    }
    if byte_is_space(bytes[pos]) {
        return Err(PpmError::NoNumberFound);
    }
    let mut end = pos;
    while end < bytes.len() && !byte_is_space(bytes[end])
        invariant
            pos <= end <= bytes@.len(),
            forall|j: int| pos <= j < end ==> !is_space(#[trigger] bytes@[j]),
        decreases bytes@.len() - end,
    {
        end += 1;
    }
    proof {
        lemma_find_space(bytes@, pos as int, end as int);
    }
    if end >= bytes.len() {
        return Err(PpmError::UnexpectedEof);
    }
    let ghost field = bytes@.subrange(pos as int, end as int);
    let ghost digits = field_digits(field);
    let start = if bytes[pos] == 43 {
        pos + 1
    } else {
        pos
    };
    proof {
        assert(field[0] == bytes@[pos as int]);
        assert(digits =~= bytes@.subrange(start as int, end as int));
    }
    if start == end {
        return Err(PpmError::InvalidNumber);
    }
    let mut value: usize = 0;
    let mut i = start;
    proof {
        assert(digits.subrange(0, 0) =~= Seq::<u8>::empty());
    }
    while i < end
        invariant
            pos <= start <= i <= end,
            start < end,
            end < bytes@.len(),
            end == find_space(bytes@, pos as int),
            !is_space(bytes@[pos as int]),
            digits == field_digits(bytes@.subrange(pos as int, end as int)),
            digits == bytes@.subrange(start as int, end as int),
            all_digits(digits.subrange(0, i - start)),
            value == decimal_value(digits.subrange(0, i - start)),
        decreases end - i,
    {
        let b = bytes[i];
        let ghost here = digits.subrange(0, i - start);
        let ghost longer = digits.subrange(0, i + 1 - start);
        proof {
            assert(longer.drop_last() =~= here);
            assert(longer.last() == b);
        }
        if !(b >= 48 && b <= 57) {
            proof {
                assert(digits[i - start] == b);
                assert(!is_digit(digits[i - start]));
                assert(!all_digits(digits));
            }
            return Err(PpmError::InvalidNumber);
        }
        proof {
            assert forall|j: int| 0 <= j < longer.len() implies is_digit(#[trigger] longer[j]) by {
                if j < here.len() {
                    assert(here[j] == longer[j]);
                }
            }
        }
        let digit = (b - 48) as usize;
        proof {
            assert(decimal_value(longer) == value * 10 + digit);
        }
        if value > (usize::MAX - digit) / 10 {
            proof {
                assert(decimal_value(longer) > usize::MAX);
                if all_digits(digits) {
                    lemma_decimal_grows(digits, i + 1 - start);
                }
            }
            return Err(PpmError::InvalidNumber);
        }
        value = value * 10 + digit;
        i += 1;
    }
    proof {
        assert(digits.subrange(0, end - start) =~= digits);
    }
    Ok((value, end + 1))
}

/// Read the header fields from `pos` on.
#[verifier::rlimit(50)]
fn read_header_fields(bytes: &[u8], pos: usize) -> (r: Result<(usize, usize, usize, usize), PpmError>)
    requires
        pos <= bytes@.len(),
    ensures
        r matches Ok((w, h, color_max, next)) ==> read_header(bytes@, pos as int, None) == Ok::<
            (usize, usize, usize, int),
            PpmError,
        >((w, h, color_max, next as int)) && next <= bytes@.len(),
        r matches Err(e) ==> read_header(bytes@, pos as int, None) == Err::<
            (usize, usize, usize, int),
            PpmError,
        >(e),
{
    let mut size: [usize; 2] = [0; 2];
    let mut have_size = false;
    let mut at = pos;
    loop
        invariant
            at <= bytes@.len(),
            have_size ==> size[0] > 0 && size[1] > 0,
            !have_size ==> size[0] == 0,
            read_header(
                bytes@,
                at as int,
                if have_size {
                    Some((size[0], size[1]))
                } else {
                    None
                },
            ) == read_header(bytes@, pos as int, None),
        decreases bytes@.len() - at,
    {
        if at >= bytes.len() {
            return Err(PpmError::UnexpectedEof);
        }
        let byte = bytes[at];
        if byte == 35 || byte_is_space(byte) {
            let end = read_until_newline(bytes, at);
            if end >= bytes.len() {
                return Err(PpmError::UnexpectedEof);
            }
            at = end + 1;
        } else {
            // check if size has been set
            if size[0] == 0 {
                let (w, pos_w) = match read_as_usize_skip_ws(bytes, at) {
                    Ok(v) => v,
                    Err(e) => {
                        return Err(e);
                    },
                };
                let (h, pos_h) = match read_as_usize_skip_ws(bytes, pos_w) {
                    Ok(v) => v,
                    Err(e) => {
                        return Err(e);
                    },
                };
                if !(w > 0 && h > 0) {
                    return Err(PpmError::InvalidSize);
                }
                size = [w, h];
                have_size = true;
                at = pos_h;
            } else {
                let (color_max, pos_c) = match read_as_usize_skip_ws(bytes, at) {
                    Ok(v) => v,
                    Err(e) => {
                        return Err(e);
                    },
                };
                if !(color_max > 0 && color_max < 65536) {
                    return Err(PpmError::InvalidColorRange);
                }
                // Nothing left to read,
                // we have a single whitespace character between this and the real data.
                // which we will have already read, so can jump directly into reading the data.
                return Ok((size[0], size[1], color_max, pos_c));
            }
        }
    }
}

/// Decode a binary PPM image from the bytes of its file.
///
/// Hands back the image that the layout of the file gives, or the reason
/// why the file has no valid layout.
#[verifier::rlimit(50)]
pub fn from_bytes(bytes: &[u8]) -> (r: Result<PpmImage, PpmError>)
    ensures
        r matches Ok(image) ==> parse_layout(bytes@) is Ok && image_is(
            image,
            bytes@,
            parse_layout(bytes@)->Ok_0,
        ),
        r matches Err(e) ==> parse_layout(bytes@) == Err::<(usize, usize, usize, int), PpmError>(e),
{
    // Header Magic
    if bytes.len() < 2 {
        return Err(PpmError::UnexpectedEof);
    }
    if !(bytes[0] == 80 && bytes[1] == 54) {
        return Err(PpmError::InvalidHeader);
    }
    let end = read_until_newline(bytes, 2);
    if end >= bytes.len() {
        return Err(PpmError::UnexpectedEof);
    }
    // Header Content

    let (w, h, color_max, pos) = match read_header_fields(bytes, end + 1) {
        Ok(v) => v,
        Err(e) => {
            return Err(e);
        },
    };
    // All header data is read.
    proof {
        assert(bytes.len() == bytes@.len());
    }
    let available = (bytes.len() - pos) / 3;
    let pixel_buffer_len = match w.checked_mul(h) {
        Some(n) => n,
        None => {
            proof {
                assert(w * h > available);
            }
            return Err(PpmError::UnexpectedEof);
        },
    };
    if pixel_buffer_len > available {
        return Err(PpmError::UnexpectedEof);
    }
    let mut pixel_buffer: Vec<[u8; 3]> = Vec::with_capacity(pixel_buffer_len);
    let mut i: usize = 0;
    while i < pixel_buffer_len
        invariant
            i <= pixel_buffer_len,
            pos + 3 * pixel_buffer_len <= bytes@.len(),
            bytes@.len() <= usize::MAX,
            pixel_buffer@.len() == i,
            forall|k: int|
                0 <= k < i ==> (#[trigger] pixel_buffer@[k])@ == bytes@.subrange(
                    pos + 3 * k,
                    pos + 3 * k + 3,
                ),
        decreases pixel_buffer_len - i,
    {
        let at = pos + 3 * i;
        let pixel: [u8; 3] = [bytes[at], bytes[at + 1], bytes[at + 2]];
        proof {
            assert(pixel@ =~= bytes@.subrange(pos + 3 * i, pos + 3 * i + 3));
        }
        pixel_buffer.push(pixel);
        i += 1;
    }
    Ok(PpmImage { size: [w, h], color_max: color_max, pixel_buffer: pixel_buffer })
}

} // verus!
