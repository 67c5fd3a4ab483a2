use qoi::header::Channels;
use qoi::header::Colorspace;
use qoi::header::DecodeHeaderError;
use qoi::header::Header;

fn header_record(width: u32, height: u32, channels: u8, colorspace: u8) -> [u8; 14] {
    let w = width.to_be_bytes();
    let h = height.to_be_bytes();
    [
        b'q', b'o', b'i', b'f', w[0], w[1], w[2], w[3], h[0], h[1], h[2], h[3], channels,
        colorspace,
    ]
}

#[test]
fn test_header_decode_dice() {
    let result = Header::decode(header_record(800, 600, 4, 0)).unwrap();

    let expected = Header {
        width: 800,
        height: 600,
        channels: Channels::Rgba,
        colorspace: Colorspace::Srgb,
    };

    assert_eq!(result, expected)
}

#[test]
fn test_header_decode_testcard() {
    let result = Header::decode(header_record(256, 256, 4, 0)).unwrap();

    let expected = Header {
        width: 256,
        height: 256,
        channels: Channels::Rgba,
        colorspace: Colorspace::Srgb,
    };

    assert_eq!(result, expected)
}

#[test]
fn test_header_decode_testcard_rgba() {
    let result = Header::decode(header_record(256, 256, 4, 0)).unwrap();

    let expected = Header {
        width: 256,
        height: 256,
        channels: Channels::Rgba,
        colorspace: Colorspace::Srgb,
    };

    assert_eq!(result, expected)
}

#[test]
fn test_header_rgb_and_linear_codes() {
    let result = Header::decode(header_record(1, 2, 3, 1)).unwrap();

    assert_eq!(result.channels, Channels::Rgb);
    assert_eq!(result.colorspace, Colorspace::Linear);
    assert_eq!(result.width, 1);
    assert_eq!(result.height, 2);
}

#[test]
fn test_header_bad_magic() {
    let mut record = header_record(1, 1, 4, 0);
    record[0] = b'x';

    let result = Header::decode(record);

    assert_eq!(result, Err(DecodeHeaderError::Magic([b'x', b'o', b'i', b'f'])));
}

#[test]
fn test_header_bad_channels() {
    let result = Header::decode(header_record(1, 1, 5, 0));

    assert_eq!(result, Err(DecodeHeaderError::Channels(5)));
}

#[test]
fn test_header_bad_colorspace() {
    let result = Header::decode(header_record(1, 1, 4, 2));

    assert_eq!(result, Err(DecodeHeaderError::Colorspace(2)));
}
