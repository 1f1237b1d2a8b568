use raster_retrace::image_load_ppm::{from_bytes, PpmError};

fn decode(bytes: &[u8]) -> Result<([usize; 2], usize, Vec<[u8; 3]>), PpmError> {
    from_bytes(bytes).map(|image| (image.size, image.color_max, image.pixel_buffer))
}

#[test]
fn ppm_decodes_small_image() {
    let mut bytes = b"P6\n2 1\n255\n".to_vec();
    bytes.extend_from_slice(&[1, 2, 3, 4, 5, 6]);
    assert_eq!(decode(&bytes), Ok(([2, 1], 255, vec![[1, 2, 3], [4, 5, 6]])));
}

#[test]
fn ppm_passes_over_comment_lines() {
    let mut bytes = b"P6 anything up to the end of the line\n# a comment\n\n \t passed over 9 9\n3 2\n# another\n65535 ".to_vec();
    let pixels: Vec<u8> = (0..18).collect();
    bytes.extend_from_slice(&pixels);
    bytes.extend_from_slice(b"what follows the pixels is ignored");
    let image = decode(&bytes).unwrap();
    assert_eq!(image.0, [3, 2]);
    assert_eq!(image.1, 65535);
    assert_eq!(image.2.len(), 6);
    assert_eq!(image.2[0], [0, 1, 2]);
    assert_eq!(image.2[5], [15, 16, 17]);
}

#[test]
fn ppm_pixel_data_starts_after_one_space() {
    // the byte after the one that ends the last field is pixel data,
    // white space or not
    let bytes = b"P6\n1 1\n1\n\n\n\n".to_vec();
    assert_eq!(decode(&bytes), Ok(([1, 1], 1, vec![[10, 10, 10]])));
}

#[test]
fn ppm_numbers_may_have_a_plus_and_leading_zeros() {
    let mut bytes = b"P6\n+2\t001\r+0255\n".to_vec();
    bytes.extend_from_slice(&[9, 8, 7, 6, 5, 4]);
    assert_eq!(decode(&bytes), Ok(([2, 1], 255, vec![[9, 8, 7], [6, 5, 4]])));
}

#[test]
fn ppm_rejects_wrong_magic() {
    assert_eq!(decode(b"P5\n1 1\n255\n\0\0\0"), Err(PpmError::InvalidHeader));
    assert_eq!(decode(b"p6\n1 1\n255\n\0\0\0"), Err(PpmError::InvalidHeader));
    assert_eq!(decode(b"  "), Err(PpmError::InvalidHeader));
}

#[test]
fn ppm_rejects_short_files() {
    assert_eq!(decode(b""), Err(PpmError::UnexpectedEof));
    assert_eq!(decode(b"P"), Err(PpmError::UnexpectedEof));
    assert_eq!(decode(b"P6"), Err(PpmError::UnexpectedEof));
    assert_eq!(decode(b"P6\n"), Err(PpmError::UnexpectedEof));
    assert_eq!(decode(b"P6\n# no end of line"), Err(PpmError::UnexpectedEof));
    assert_eq!(decode(b"P6\n12"), Err(PpmError::UnexpectedEof));
    assert_eq!(decode(b"P6\n1 1\n"), Err(PpmError::UnexpectedEof));
    assert_eq!(decode(b"P6\n1 1\n255"), Err(PpmError::UnexpectedEof));
    assert_eq!(decode(b"P6\n1 1\n255\n"), Err(PpmError::UnexpectedEof));
    assert_eq!(decode(b"P6\n1 1\n255\n\0\0"), Err(PpmError::UnexpectedEof));
    assert_eq!(decode(b"P6\n2 2\n255\n\0\0\0\0\0\0\0\0\0\0\0"), Err(PpmError::UnexpectedEof));
    // more pixels than any file holds
    assert_eq!(
        decode(b"P6\n4294967296 4294967296\n255\n\0\0\0"),
        Err(PpmError::UnexpectedEof)
    );
}

#[test]
fn ppm_rejects_bad_numbers() {
    assert_eq!(decode(b"P6\nx 1\n255\n\0\0\0"), Err(PpmError::InvalidNumber));
    assert_eq!(decode(b"P6\n1x 1\n255\n\0\0\0"), Err(PpmError::InvalidNumber));
    assert_eq!(decode(b"P6\n-1 1\n255\n\0\0\0"), Err(PpmError::InvalidNumber));
    assert_eq!(decode(b"P6\n+ 1\n255\n\0\0\0"), Err(PpmError::InvalidNumber));
    assert_eq!(decode(b"P6\n1 1\n2.5\n\0\0\0"), Err(PpmError::InvalidNumber));
    assert_eq!(
        decode(b"P6\n99999999999999999999999999 1\n255\n\0\0\0"),
        Err(PpmError::InvalidNumber)
    );
    // the height must follow the width after one white-space byte
    assert_eq!(decode(b"P6\n1  1\n255\n\0\0\0"), Err(PpmError::NoNumberFound));
    assert_eq!(decode(b"P6\n1\n\n1\n255\n\0\0\0"), Err(PpmError::NoNumberFound));
}

#[test]
fn ppm_rejects_bad_sizes_and_colours() {
    assert_eq!(decode(b"P6\n0 1\n255\n\0\0\0"), Err(PpmError::InvalidSize));
    assert_eq!(decode(b"P6\n1 0\n255\n\0\0\0"), Err(PpmError::InvalidSize));
    assert_eq!(decode(b"P6\n1 1\n0\n\0\0\0"), Err(PpmError::InvalidColorRange));
    assert_eq!(decode(b"P6\n1 1\n65536\n\0\0\0"), Err(PpmError::InvalidColorRange));
    assert_eq!(decode(b"P6\n1 1\n65535\n\0\0\0"), Ok(([1, 1], 65535, vec![[0, 0, 0]])));
}
