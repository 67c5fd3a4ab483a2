use qoi::decoder::ChunksDecoder;
use qoi::error::DecodeChunksError;
use qoi::pixel::Pixel;

const MARKER: [u8; 8] = [0, 0, 0, 0, 0, 0, 0, 1];

fn stream(chunks: &[u8]) -> Vec<u8> {
    let mut bytes = chunks.to_vec();
    bytes.extend_from_slice(&MARKER);
    bytes
}

fn px(r: u8, g: u8, b: u8, a: u8) -> Pixel {
    Pixel { r, g, b, a }
}

#[test]
fn test_pixel_seeds() {
    assert_eq!(Pixel::zero(), px(0, 0, 0, 0));
    assert_eq!(Pixel::black(), px(0, 0, 0, 255));
}

#[test]
fn test_decode_empty_image() {
    // A size of zero asks for no chunks at all, only the marker.
    let pixels = ChunksDecoder::from_iter(stream(&[])).decode(0).unwrap();

    assert_eq!(pixels, vec![]);
}

#[test]
fn test_decode_rgba_literal() {
    let pixels = ChunksDecoder::from_iter(stream(&[0xff, 1, 2, 3, 4])).decode(1).unwrap();

    assert_eq!(pixels, vec![px(1, 2, 3, 4)]);
}

#[test]
fn test_decode_rgb_literal_keeps_seed_alpha() {
    let pixels = ChunksDecoder::from_iter(stream(&[0xfe, 9, 8, 7])).decode(1).unwrap();

    assert_eq!(pixels, vec![px(9, 8, 7, 255)]);
}

#[test]
fn test_decode_small_diff_example() {
    // Tag 01101010 carries deltas 10/10/10, that is (0,0,0): the pixel
    // after (10,20,30,255) is (10,20,30,255) unchanged.
    let pixels = ChunksDecoder::from_iter(stream(&[0xff, 10, 20, 30, 255, 0b01101010]))
        .decode(2)
        .unwrap();

    assert_eq!(pixels, vec![px(10, 20, 30, 255), px(10, 20, 30, 255)]);
}

#[test]
fn test_decode_luma_example() {
    // Luma tag 10100000 gives dg = 32 - 32 = 0 and trailing byte
    // 10001000 gives dr = 8 - 8 + 0 = 0, db = 8 - 8 + 0 = 0: the pixel
    // after (50,60,70,255) is (50,60,70,255) unchanged.
    let pixels = ChunksDecoder::from_iter(stream(&[0xff, 50, 60, 70, 255, 0b10100000, 0b10001000]))
        .decode(2)
        .unwrap();

    assert_eq!(pixels, vec![px(50, 60, 70, 255), px(50, 60, 70, 255)]);
}

#[test]
fn test_decode_diff_wraps_mod_256() {
    // Deltas of -2 from the opaque-black seed wrap the colour channels
    // around to 254; a diff never touches alpha.
    let pixels = ChunksDecoder::from_iter(stream(&[0b01000000])).decode(1).unwrap();

    assert_eq!(pixels, vec![px(254, 254, 254, 255)]);
}

#[test]
fn test_decode_luma_wraps_mod_256() {
    // The largest luma deltas from the all-black seed wrap around.
    // dg = 63 - 32 = 31, dr = 15 - 8 + 31 = 38, db = 0 - 8 + 31 = 23.
    let pixels = ChunksDecoder::from_iter(stream(&[0xff, 250, 250, 250, 9, 0b10111111, 0b11110000]))
        .decode(2)
        .unwrap();

    assert_eq!(pixels, vec![px(250, 250, 250, 9), px(32, 25, 17, 9)]);
}

#[test]
fn test_decode_run_length_one() {
    // Tag 11000000 encodes a run of length 1: exactly one more copy of
    // the last pixel.
    let pixels = ChunksDecoder::from_iter(stream(&[0xff, 1, 2, 3, 4, 0b11000000]))
        .decode(2)
        .unwrap();

    assert_eq!(pixels, vec![px(1, 2, 3, 4), px(1, 2, 3, 4)]);
}

#[test]
fn test_decode_run_length_sixty_two() {
    // Tag 11111101 carries 61 in its low six bits: a run of 62 copies.
    let pixels = ChunksDecoder::from_iter(stream(&[0xff, 1, 2, 3, 4, 0b11111101]))
        .decode(63)
        .unwrap();

    assert_eq!(pixels.len(), 63);
    for p in &pixels {
        assert_eq!(*p, px(1, 2, 3, 4));
    }
}

#[test]
fn test_decode_cache_round_trip() {
    // (10,20,30,255) hashes to slot 9; after another literal evicts
    // nothing (slot 23), an index chunk naming slot 9 reproduces it.
    let pixels = ChunksDecoder::from_iter(stream(&[
        0xff, 10, 20, 30, 255, 0xfe, 1, 2, 3, 0b00001001,
    ]))
        .decode(3)
        .unwrap();

    assert_eq!(
        pixels,
        vec![px(10, 20, 30, 255), px(1, 2, 3, 255), px(10, 20, 30, 255)]
    );
}

#[test]
fn test_decode_alpha_constant_under_diff_and_luma() {
    // A whole chain of diff and luma chunks never alters the alpha a
    // literal set.
    let pixels = ChunksDecoder::from_iter(stream(&[
        0xff, 100, 100, 100, 42, 0b01111111, 0b10100001, 0b01110111, 0b01000000, 0b10100000,
        0b10001000,
    ]))
        .decode(5)
        .unwrap();

    assert_eq!(pixels.len(), 5);
    for p in &pixels {
        assert_eq!(p.a, 42);
    }
}

#[test]
fn test_decode_deterministic() {
    let bytes = stream(&[0xff, 10, 20, 30, 255, 0b11000001, 0b01101010]);

    let first = ChunksDecoder::from_iter(bytes.clone()).decode(4).unwrap();
    let second = ChunksDecoder::from_iter(bytes).decode(4).unwrap();

    assert_eq!(first, second);
}

#[test]
fn test_decode_truncated_after_tag() {
    // The RGBA literal tag demands four trailing bytes; none follow.
    let result = ChunksDecoder::from_iter(vec![0xff]).decode(1);

    assert_eq!(result, Err(DecodeChunksError::UnexpectedInputEnd));
}

#[test]
fn test_decode_truncated_mid_literal() {
    let result = ChunksDecoder::from_iter(vec![0xfe, 1]).decode(1);

    assert_eq!(result, Err(DecodeChunksError::UnexpectedInputEnd));
}

#[test]
fn test_decode_empty_input() {
    let result = ChunksDecoder::from_iter(vec![]).decode(1);

    assert_eq!(result, Err(DecodeChunksError::UnexpectedInputEnd));
}

#[test]
fn test_decode_wrong_terminator() {
    // All pixels decoded, but the terminator's final byte is 0 instead
    // of 1.
    let result = ChunksDecoder::from_iter(vec![0xff, 1, 2, 3, 4, 0, 0, 0, 0, 0, 0, 0, 0])
        .decode(1);

    assert_eq!(result, Err(DecodeChunksError::BadEnding));
}

#[test]
fn test_decode_terminator_too_short() {
    let result = ChunksDecoder::from_iter(vec![0xff, 1, 2, 3, 4, 0, 0, 0]).decode(1);

    assert_eq!(result, Err(DecodeChunksError::BadEnding));
}

#[test]
fn test_decode_ignores_bytes_after_marker() {
    let mut bytes = stream(&[0xff, 1, 2, 3, 4]);
    bytes.extend_from_slice(&[0xab, 0xcd]);

    let pixels = ChunksDecoder::from_iter(bytes).decode(1).unwrap();

    assert_eq!(pixels, vec![px(1, 2, 3, 4)]);
}

#[test]
fn test_decode_overshooting_run_trimmed() {
    // A run that would pass the required count still decodes, and the
    // result holds exactly the required number of pixels.
    let pixels = ChunksDecoder::from_iter(stream(&[0xff, 1, 2, 3, 4, 0b11000010]))
        .decode(2)
        .unwrap();

    assert_eq!(pixels, vec![px(1, 2, 3, 4), px(1, 2, 3, 4)]);
}
