use qoi::image::Image;

const MARKER: [u8; 8] = [0, 0, 0, 0, 0, 0, 0, 1];

fn qoi_bytes(width: u32, height: u32, channels: u8, chunks: &[u8]) -> Vec<u8> {
    let mut bytes = Vec::new();
    bytes.extend_from_slice(&[b'q', b'o', b'i', b'f']);
    bytes.extend_from_slice(&width.to_be_bytes());
    bytes.extend_from_slice(&height.to_be_bytes());
    bytes.push(channels);
    bytes.push(0);
    bytes.extend_from_slice(chunks);
    bytes.extend_from_slice(&MARKER);
    bytes
}

#[test]
fn test_image_decode_dice() {
    // RGBA literal, run of one, small diff (+0, +0, +1), then a cache
    // index back to the literal: (10,20,30,255) hashes to slot 9.
    let input = qoi_bytes(
        2,
        2,
        4,
        &[0xff, 10, 20, 30, 255, 0xc0, 0b01101011, 0b00001001],
    );

    let image = Image::from_slice(&input).unwrap();
    let bitmap = image.to_raw_bitmap();

    assert_eq!(
        bitmap,
        vec![10, 20, 30, 255, 10, 20, 30, 255, 10, 20, 31, 255, 10, 20, 30, 255]
    );
}

#[test]
fn test_image_decode_kodim10() {
    // RGB literal keeps the seed alpha; a luma chunk moves every colour
    // channel by one.
    let input = qoi_bytes(2, 1, 3, &[0xfe, 100, 110, 120, 0b10100001, 0b10001000]);

    let image = Image::from_slice(&input).unwrap();
    let bitmap = image.to_raw_bitmap();

    assert_eq!(bitmap, vec![100, 110, 120, 101, 111, 121]);
}

#[test]
fn test_image_decode_kodim23() {
    // A small diff of (-2,-2,-2) from the opaque-black seed wraps every
    // colour channel around to 254.
    let input = qoi_bytes(1, 1, 3, &[0b01000000]);

    let image = Image::from_slice(&input).unwrap();
    let bitmap = image.to_raw_bitmap();

    assert_eq!(bitmap, vec![254, 254, 254]);
}

#[test]
fn test_image_decode_qoi_logo() {
    // An RGBA literal followed by a run of four more copies.
    let input = qoi_bytes(5, 1, 4, &[0xff, 1, 2, 3, 4, 0b11000011]);

    let image = Image::from_slice(&input).unwrap();
    let bitmap = image.to_raw_bitmap();

    let mut expected = Vec::new();
    for _ in 0..5 {
        expected.extend_from_slice(&[1, 2, 3, 4]);
    }
    assert_eq!(bitmap, expected);
}

#[test]
fn test_image_decode_testcard() {
    // An index chunk naming an untouched slot hands out the all-zero
    // fill pixel.
    let input = qoi_bytes(1, 1, 4, &[0b00000101]);

    let image = Image::from_slice(&input).unwrap();
    let bitmap = image.to_raw_bitmap();

    assert_eq!(bitmap, vec![0, 0, 0, 0]);
}

#[test]
fn test_image_decode_testcard_rgba() {
    // An RGB literal carries over the alpha the previous RGBA literal
    // set.
    let input = qoi_bytes(2, 1, 4, &[0xff, 5, 6, 7, 128, 0xfe, 8, 9, 10]);

    let image = Image::from_slice(&input).unwrap();
    let bitmap = image.to_raw_bitmap();

    assert_eq!(bitmap, vec![5, 6, 7, 128, 8, 9, 10, 128]);
}

#[test]
fn test_image_decode_wikipedia_008() {
    // A luma chunk with all deltas zero and a run of one both repeat the
    // literal pixel.
    let input = qoi_bytes(3, 1, 4, &[0xff, 50, 60, 70, 255, 0b10100000, 0b10001000, 0xc0]);

    let image = Image::from_slice(&input).unwrap();
    let bitmap = image.to_raw_bitmap();

    assert_eq!(bitmap, vec![50, 60, 70, 255, 50, 60, 70, 255, 50, 60, 70, 255]);
}

#[test]
fn test_image_from_slice_too_short() {
    let input = [b'q', b'o', b'i', b'f', 0, 0];

    let result = Image::from_slice(&input);

    assert_eq!(result, Err(qoi::error::DecodeImageError::InvalidLength(6)));
}

#[test]
fn test_image_from_slice_header_error() {
    let input = qoi_bytes(1, 1, 9, &[0b01000000]);

    let result = Image::from_slice(&input);

    assert_eq!(
        result,
        Err(qoi::error::DecodeImageError::Header(
            qoi::header::DecodeHeaderError::Channels(9)
        ))
    );
}

#[test]
fn test_image_from_slice_chunks_error() {
    // Header asks for one pixel but no chunk bytes follow at all.
    let mut input = qoi_bytes(1, 1, 4, &[]);
    input.truncate(14);

    let result = Image::from_slice(&input);

    assert_eq!(
        result,
        Err(qoi::error::DecodeImageError::Chunks(
            qoi::error::DecodeChunksError::UnexpectedInputEnd
        ))
    );
}
