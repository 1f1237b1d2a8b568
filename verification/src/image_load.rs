//! What is decided about an image before it is traced: its format by the
//! name of its file, and which of its pixels count as foreground.

use vstd::prelude::*;
use vstd::string::*;

verus! {

/// The image formats that can be read.
#[derive(PartialEq, Eq, Structural, Debug, Copy, Clone)]
pub enum ImageFormat {
    PPM,
}

/// Whether a file path ends in `.ppm`.
pub open spec fn is_ppm_path(path: Seq<char>) -> bool {
    &&& path.len() >= 4
    &&& path[path.len() - 4] == '.'
    &&& path[path.len() - 3] == 'p'
    &&& path[path.len() - 2] == 'p'
    &&& path[path.len() - 1] == 'm'
}

/// The format of an image file, told by the end of its path; `None` for a
/// path that names no known format.
pub fn format_from_filepath(filepath: &String) -> (r: Option<ImageFormat>)
    ensures
        r == (if is_ppm_path(filepath@) {
            Some(ImageFormat::PPM)
        } else {
            None
        }),
{
    let s = filepath.as_str();
    let n = s.unicode_len();
    if n >= 4 && s.get_char(n - 4) == '.' && s.get_char(n - 3) == 'p' && s.get_char(n - 2) == 'p'
        && s.get_char(n - 1) == 'm' {
        Some(ImageFormat::PPM)
    } else {
        None
    }
}

/// Whether a pixel of colour `(r, g, b)` counts as foreground in an image
/// whose channels go up to `color_max`: it is darker than the middle, that
/// is `r + g + b < color_max * 3 / 2`.
pub open spec fn is_foreground(pixel: [u8; 3], color_max: int) -> bool {
    2 * (pixel[0] + pixel[1] + pixel[2]) < 3 * color_max
}

/// Whether a pixel counts as foreground.
pub fn pixel_is_foreground(pixel: &[u8; 3], color_max: usize) -> (r: bool)
    requires
        1 <= color_max <= 65535,
    ensures
        r == is_foreground(*pixel, color_max as int),
{
    let t = (pixel[0] as u32) + (pixel[1] as u32) + (pixel[2] as u32);
    2 * t < 3 * (color_max as u32)
}

/// The bitmap of an image: for every pixel, whether it is foreground.
pub fn image_threshold(pixel_buffer: &Vec<[u8; 3]>, color_max: usize) -> (image: Vec<bool>)
    requires
        1 <= color_max <= 65535,
    ensures
        image@.len() == pixel_buffer@.len(),
        forall|i: int|
            0 <= i < image@.len() ==> #[trigger] image@[i] == is_foreground(
                pixel_buffer@[i],
                color_max as int,
            ),
{
    let mut image: Vec<bool> = Vec::with_capacity(pixel_buffer.len());
    let mut i: usize = 0;
    while i < pixel_buffer.len()
        invariant
            1 <= color_max <= 65535,
            i <= pixel_buffer@.len(),
            image@.len() == i,
            forall|j: int|
                0 <= j < i ==> #[trigger] image@[j] == is_foreground(
                    pixel_buffer@[j],
                    color_max as int,
                ),
        decreases pixel_buffer@.len() - i,
    {
        image.push(pixel_is_foreground(&pixel_buffer[i], color_max));
        i += 1;
    }
    image
}

} // verus!
