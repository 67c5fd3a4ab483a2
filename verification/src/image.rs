use vstd::prelude::*;

use crate::decoder::spec_decode;
use crate::decoder::ChunksDecoder;
use crate::error::DecodeChunksError;
use crate::error::DecodeImageError;
use crate::header::spec_decode_header;
use crate::header::Channels;
use crate::header::DecodeHeaderError;
use crate::header::Header;
use crate::pixel::Pixel;

verus! {

/// `bytes` is the RGB flattening of `pixels`: three bytes per pixel, in
/// raster order, alpha dropped.
pub open spec fn spec_rgb_bitmap(pixels: Seq<Pixel>, bytes: Seq<u8>) -> bool {
    &&& bytes.len() == 3 * pixels.len()
    &&& forall|i: int|
        0 <= i < pixels.len() ==> bytes[3 * i] == (#[trigger] pixels[i]).r && bytes[3 * i + 1]
            == pixels[i].g && bytes[3 * i + 2] == pixels[i].b
}

/// `bytes` is the RGBA flattening of `pixels`: four bytes per pixel, in
/// raster order.
pub open spec fn spec_rgba_bitmap(pixels: Seq<Pixel>, bytes: Seq<u8>) -> bool {
    &&& bytes.len() == 4 * pixels.len()
    &&& forall|i: int|
        0 <= i < pixels.len() ==> bytes[4 * i] == (#[trigger] pixels[i]).r && bytes[4 * i + 1]
            == pixels[i].g && bytes[4 * i + 2] == pixels[i].b && bytes[4 * i + 3] == pixels[i].a
}

/// The pixel count a parsed header asks for fits in 32 bits. Validating
/// the product is the header collaborator's concern, so decoding a whole
/// image is specified only for inputs that satisfy this.
pub open spec fn spec_size_fits(input: Seq<u8>) -> bool {
    input.len() >= 14 ==> (match spec_decode_header(input.take(14)) {
        Ok(h) => h.width * h.height <= u32::MAX,
        Err(_) => true,
    })
}

/// A fully decoded image: its header and its pixels in raster order.
#[derive(Debug, PartialEq, Eq)]
pub struct Image {
    header: Header,
    pixels: Vec<Pixel>,
}

impl Image {
    pub closed spec fn spec_header(self) -> Header {
        self.header
    }

    pub closed spec fn spec_pixels(self) -> Seq<Pixel> {
        self.pixels@
    }

    /// Decode a whole image: the fixed 14-byte header first, then the
    /// chunk stream, whose required pixel count is width times height.
    pub fn from_slice(input: &[u8]) -> (r: Result<Self, DecodeImageError>)
        requires
            spec_size_fits(input@),
        ensures
            (match r {
                Ok(img) => input@.len() >= 14 && spec_decode_header(input@.take(14)) == Ok::<
                    Header,
                    DecodeHeaderError,
                >(img.spec_header()) && spec_decode(
                    input@.skip(14),
                    (img.spec_header().width * img.spec_header().height) as nat,
                ) == Ok::<Seq<Pixel>, DecodeChunksError>(img.spec_pixels()),
                Err(DecodeImageError::InvalidLength(n)) => input@.len() < 14 && n == input@.len(),
                Err(DecodeImageError::Header(e)) => input@.len() >= 14 && spec_decode_header(
                    input@.take(14),
                ) == Err::<Header, DecodeHeaderError>(e),
                Err(DecodeImageError::Chunks(e)) => input@.len() >= 14 && (match spec_decode_header(
                    input@.take(14),
                ) {
                    Ok(h) => spec_decode(input@.skip(14), (h.width * h.height) as nat) == Err::<
                        Seq<Pixel>,
                        DecodeChunksError,
                    >(e),
                    Err(_) => false,
                }),
                Err(DecodeImageError::SizeMismatch) => false,
                Err(DecodeImageError::InvalidDiffOp) => false,
            }),
    {
        if input.len() < 14 {
            return Err(DecodeImageError::InvalidLength(input.len()));
        }

        let header_input: [u8; 14] = [
            input[0],
            input[1],
            input[2],
            input[3],
            input[4],
            input[5],
            input[6],
            input[7],
            input[8],
            input[9],
            input[10],
            input[11],
            input[12],
            input[13],
        ];
        proof {
            assert(header_input@ =~= input@.take(14));
        }
        let header = match Header::decode(header_input) {
            Ok(h) => h,
            Err(e) => {
                return Err(DecodeImageError::Header(e));
            },
        };

        let size: u32 = header.width * header.height;

        let mut chunks_input: Vec<u8> = Vec::new();
        let mut i: usize = 14;
        while i < input.len()
            invariant
                14 <= i <= input@.len(),
                chunks_input@ == input@.subrange(14, i as int),
            decreases input@.len() - i,
        {
            chunks_input.push(input[i]);
            i = i + 1;
            proof {
                assert(chunks_input@ =~= input@.subrange(14, i as int));
            }
        }
        proof {
            assert(chunks_input@ =~= input@.skip(14));
        }

        let pixels = match ChunksDecoder::from_iter(chunks_input).decode(size) {
            Ok(p) => p,
            Err(e) => {
                return Err(DecodeImageError::Chunks(e));
            },
        };

        Ok(Self { header, pixels })
    }

    /// Flatten the pixels into the raw bitmap layout the header asks
    /// for: three bytes per pixel for RGB, four for RGBA.
    #[verifier::loop_isolation(false)]
    pub fn to_raw_bitmap(&self) -> (r: Vec<u8>)
        ensures
            self.spec_header().channels == Channels::Rgb ==> spec_rgb_bitmap(
                self.spec_pixels(),
                r@,
            ),
            self.spec_header().channels == Channels::Rgba ==> spec_rgba_bitmap(
                self.spec_pixels(),
                r@,
            ),
    {
        let mut bytes: Vec<u8> = Vec::new();

        match self.header.channels {
            Channels::Rgb => {
                let mut i: usize = 0;
                while i < self.pixels.len()
                    invariant
                        i <= self.pixels@.len(),
                        spec_rgb_bitmap(self.pixels@.take(i as int), bytes@),
                    decreases self.pixels@.len() - i,
                {
                    let p = self.pixels[i];
                    bytes.push(p.r);
                    bytes.push(p.g);
                    bytes.push(p.b);
                    i = i + 1;
                    proof {
                        assert(self.pixels@.take(i as int) =~= self.pixels@.take(
                            i - 1,
                        ).push(self.pixels@[i - 1]));
                    }
                }
                proof {
                    assert(self.pixels@.take(self.pixels@.len() as int) =~= self.pixels@);
                }
            },
            Channels::Rgba => {
                let mut i: usize = 0;
                while i < self.pixels.len()
                    invariant
                        i <= self.pixels@.len(),
                        spec_rgba_bitmap(self.pixels@.take(i as int), bytes@),
                    decreases self.pixels@.len() - i,
                {
                    let p = self.pixels[i];
                    bytes.push(p.r);
                    bytes.push(p.g);
                    bytes.push(p.b);
                    bytes.push(p.a);
                    i = i + 1;
                    proof {
                        assert(self.pixels@.take(i as int) =~= self.pixels@.take(
                            i - 1,
                        ).push(self.pixels@[i - 1]));
                    }
                }
                proof {
                    assert(self.pixels@.take(self.pixels@.len() as int) =~= self.pixels@);
                }
            },
        }

        bytes
    }
}

} // verus!
