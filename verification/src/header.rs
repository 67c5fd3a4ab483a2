use vstd::prelude::*;

verus! {

/// Number of channels stored per pixel in the encoded image.
#[derive(Clone, Copy, Debug, PartialEq, Eq, Structural)]
pub enum Channels {
    Rgb,
    Rgba,
}

/// Colorspace tag carried by the header; informative only.
#[derive(Clone, Copy, Debug, PartialEq, Eq, Structural)]
pub enum Colorspace {
    Srgb,
    Linear,
}

/// Why a 14-byte header record failed to decode.
#[derive(Clone, Copy, Debug, PartialEq, Eq)]
pub enum DecodeHeaderError {
    Magic([u8; 4]),
    Channels(u8),
    Colorspace(u8),
}

/// The fixed 14-byte header: a 4-byte magic, big-endian width and height,
/// a channel count code and a colorspace code.
#[derive(Clone, Copy, Debug, PartialEq, Eq, Structural)]
pub struct Header {
    pub width: u32,
    pub height: u32,
    pub channels: Channels,
    pub colorspace: Colorspace,
}

/// The unsigned 32-bit value stored big-endian in four bytes.
pub open spec fn spec_be_u32(b0: u8, b1: u8, b2: u8, b3: u8) -> int {
    b0 * 0x1000000 + b1 * 0x10000 + b2 * 0x100 + b3
}

/// The first four bytes spell the magic string `qoif`.
pub open spec fn spec_magic_ok(input: Seq<u8>) -> bool {
    &&& input[0] == 0x71u8
    &&& input[1] == 0x6fu8
    &&& input[2] == 0x69u8
    &&& input[3] == 0x66u8
}

/// What decoding a 14-byte header record yields: the parsed fields, or the
/// first failing check (magic, then channels, then colorspace).
pub open spec fn spec_decode_header(input: Seq<u8>) -> Result<Header, DecodeHeaderError>
    recommends
        input.len() == 14,
{
    if !spec_magic_ok(input) {
        Err(DecodeHeaderError::Magic([input[0], input[1], input[2], input[3]]))
    } else if input[12] != 3u8 && input[12] != 4u8 {
        Err(DecodeHeaderError::Channels(input[12]))
    } else if input[13] != 0u8 && input[13] != 1u8 {
        Err(DecodeHeaderError::Colorspace(input[13]))
    } else {
        Ok(Header {
            width: spec_be_u32(input[4], input[5], input[6], input[7]) as u32,
            height: spec_be_u32(input[8], input[9], input[10], input[11]) as u32,
            channels: if input[12] == 3u8 {
                Channels::Rgb
            } else {
                Channels::Rgba
            },
            colorspace: if input[13] == 0u8 {
                Colorspace::Srgb
            } else {
                Colorspace::Linear
            },
        })
    }
}

impl Header {
    /// Decode the fixed 14-byte header record.
    pub fn decode(input: [u8; 14]) -> (r: Result<Self, DecodeHeaderError>)
        ensures
            r == spec_decode_header(input@),
    {
        if !(input[0] == 0x71 && input[1] == 0x6f && input[2] == 0x69 && input[3] == 0x66) {
            return Err(DecodeHeaderError::Magic([input[0], input[1], input[2], input[3]]));
        }

        let width: u32 = (input[4] as u32) * 0x1000000 + (input[5] as u32) * 0x10000
            + (input[6] as u32) * 0x100 + (input[7] as u32);
        let height: u32 = (input[8] as u32) * 0x1000000 + (input[9] as u32) * 0x10000
            + (input[10] as u32) * 0x100 + (input[11] as u32);

        let channels = input[12];
        let channels = match channels {
            3 => Channels::Rgb,
            4 => Channels::Rgba,
            _ => {
                return Err(DecodeHeaderError::Channels(channels));
            },
        };

        let colorspace = input[13];
        let colorspace = match colorspace {
            0 => Colorspace::Srgb,
            1 => Colorspace::Linear,
            _ => {
                return Err(DecodeHeaderError::Colorspace(colorspace));
            },
        };

        Ok(Self { width, height, channels, colorspace })
    }
}

} // verus!
