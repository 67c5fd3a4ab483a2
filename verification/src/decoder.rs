use vstd::prelude::*;

use crate::error::DecodeChunksError;
use crate::pixel::Pixel;

verus! {

/// Reduce an integer to its 8-bit representative: all channel arithmetic
/// is modular, mod 256.
pub open spec fn wrap8(x: int) -> u8 {
    (x % 256) as u8
}

/// Cache slot of a pixel: the direct-mapped addressing scheme
/// (r*3 + g*5 + b*7 + a*11) mod 64.
pub open spec fn spec_cache_index(p: Pixel) -> int {
    (p.r * 3 + p.g * 5 + p.b * 7 + p.a * 11) % 64
}

/// The 64-slot cache as decoding starts: every slot holds the all-zero
/// pixel.
pub open spec fn spec_init_cache() -> Seq<Pixel> {
    Seq::new(64, |i: int| Pixel::spec_zero())
}

/// The fixed 8-byte end-of-stream marker.
pub open spec fn spec_end_marker() -> Seq<u8> {
    seq![0u8, 0u8, 0u8, 0u8, 0u8, 0u8, 0u8, 1u8]
}

/// Pixel produced by a small-diff opcode: each colour channel moves by a
/// 2-bit delta biased by -2; alpha is untouched.
pub open spec fn spec_diff_pixel(last: Pixel, tag: u8) -> Pixel {
    Pixel {
        r: wrap8(last.r + ((tag >> 4u8) & 3u8) - 2),
        g: wrap8(last.g + ((tag >> 2u8) & 3u8) - 2),
        b: wrap8(last.b + (tag & 3u8) - 2),
        a: last.a,
    }
}

/// Pixel produced by a luma opcode: a 6-bit green delta biased by -32,
/// and 4-bit red and blue deltas biased by -8 relative to the green
/// delta; alpha is untouched.
pub open spec fn spec_luma_pixel(last: Pixel, tag: u8, byte1: u8) -> Pixel {
    let dg: int = (tag & 0x3fu8) - 32;
    let dr: int = ((byte1 >> 4u8) & 0xfu8) - 8 + dg;
    let db: int = (byte1 & 0xfu8) - 8 + dg;
    Pixel {
        r: wrap8(last.r + dr),
        g: wrap8(last.g + dg),
        b: wrap8(last.b + db),
        a: last.a,
    }
}

/// The chunk stream state machine, one recursive step per chunk.
///
/// While fewer than `size` pixels exist, the head byte is classified into
/// one of six opcodes by disjoint ranges that cover all 256 values; the
/// opcode's trailing bytes are consumed, the produced pixels appended,
/// the previous pixel replaced by the newest one, and that pixel written
/// into its cache slot (silently evicting the old entry). Once `size`
/// pixels exist, the next 8 bytes must equal the end marker; the first
/// `size` pixels are the result. Running out of bytes mid-opcode is
/// `UnexpectedInputEnd`; a missing or wrong marker is `BadEnding`.
#[verifier::opaque]
pub open spec fn spec_decode_chunks(
    bytes: Seq<u8>,
    size: nat,
    last: Pixel,
    cache: Seq<Pixel>,
    out: Seq<Pixel>,
) -> Result<Seq<Pixel>, DecodeChunksError>
    decreases bytes.len(),
{
    if out.len() >= size {
        if bytes.len() >= 8 && bytes.take(8) == spec_end_marker() {
            Ok(out.take(size as int))
        } else {
            Err(DecodeChunksError::BadEnding)
        }
    } else if bytes.len() == 0 {
        Err(DecodeChunksError::UnexpectedInputEnd)
    } else {
        let tag = bytes[0];
        if tag == 0xfeu8 {
            if bytes.len() < 4 {
                Err(DecodeChunksError::UnexpectedInputEnd)
            } else {
                let p = Pixel { r: bytes[1], g: bytes[2], b: bytes[3], a: last.a };
                spec_decode_chunks(
                    bytes.skip(4),
                    size,
                    p,
                    cache.update(spec_cache_index(p), p),
                    out.push(p),
                )
            }
        } else if tag == 0xffu8 {
            if bytes.len() < 5 {
                Err(DecodeChunksError::UnexpectedInputEnd)
            } else {
                let p = Pixel { r: bytes[1], g: bytes[2], b: bytes[3], a: bytes[4] };
                spec_decode_chunks(
                    bytes.skip(5),
                    size,
                    p,
                    cache.update(spec_cache_index(p), p),
                    out.push(p),
                )
            }
        } else if tag < 0x40u8 {
            let p = cache[tag as int];
            spec_decode_chunks(
                bytes.skip(1),
                size,
                p,
                cache.update(spec_cache_index(p), p),
                out.push(p),
            )
        } else if tag < 0x80u8 {
            let p = spec_diff_pixel(last, tag);
            spec_decode_chunks(
                bytes.skip(1),
                size,
                p,
                cache.update(spec_cache_index(p), p),
                out.push(p),
            )
        } else if tag < 0xc0u8 {
            if bytes.len() < 2 {
                Err(DecodeChunksError::UnexpectedInputEnd)
            } else {
                let p = spec_luma_pixel(last, tag, bytes[1]);
                spec_decode_chunks(
                    bytes.skip(2),
                    size,
                    p,
                    cache.update(spec_cache_index(p), p),
                    out.push(p),
                )
            }
        } else {
            let n: int = (tag & 0x3fu8) + 1;
            spec_decode_chunks(
                bytes.skip(1),
                size,
                last,
                cache.update(spec_cache_index(last), last),
                out + Seq::new(n as nat, |i: int| last),
            )
        }
    }
}

/// Decoding a whole chunk stream from the initial state: previous pixel
/// opaque black, cache all zero, no output yet.
pub open spec fn spec_decode(bytes: Seq<u8>, size: nat) -> Result<Seq<Pixel>, DecodeChunksError> {
    spec_decode_chunks(bytes, size, Pixel::spec_black(), spec_init_cache(), Seq::empty())
}

/// Streaming chunk decoder: a forward cursor over the input bytes plus
/// the rolling state of the stream (previous pixel, 64-slot cache of
/// seen pixels, output so far).
pub struct ChunksDecoder {
    input: Vec<u8>,
    pos: usize,
    seen_pixels: Vec<Pixel>,
    last_pixel: Pixel,
    pixels: Vec<Pixel>,
}

impl ChunksDecoder {
    /// The bytes not yet consumed.
    pub closed spec fn remaining(self) -> Seq<u8> {
        self.input@.skip(self.pos as int)
    }

    /// The most recently decoded pixel; opaque black before any pixel.
    pub closed spec fn prev_pixel(self) -> Pixel {
        self.last_pixel
    }

    /// The 64-slot cache of recently seen pixels.
    pub closed spec fn cache(self) -> Seq<Pixel> {
        self.seen_pixels@
    }

    /// The pixels decoded so far, in raster order.
    pub closed spec fn out(self) -> Seq<Pixel> {
        self.pixels@
    }

    pub closed spec fn wf(self) -> bool {
        self.pos <= self.input@.len() && self.seen_pixels@.len() == 64
    }

    /// Decoding onward from this state yields `r`.
    pub open spec fn decodes_to(
        self,
        size: nat,
        r: Result<Seq<Pixel>, DecodeChunksError>,
    ) -> bool {
        spec_decode_chunks(self.remaining(), size, self.prev_pixel(), self.cache(), self.out())
            == r
    }

    /// A decoder at the start of `input`, in the initial state.
    pub fn from_iter(input: Vec<u8>) -> (d: ChunksDecoder)
        ensures
            d.wf(),
            d.remaining() == input@,
            d.prev_pixel() == Pixel::spec_black(),
            d.cache() == spec_init_cache(),
            d.out() == Seq::<Pixel>::empty(),
    {
        let seen_pixels: Vec<Pixel> = vec![Pixel::zero(); 64];
        let d = ChunksDecoder {
            input,
            pos: 0,
            seen_pixels,
            last_pixel: Pixel::black(),
            pixels: Vec::new(),
        };
        proof {
            assert(d.remaining() =~= d.input@);
            assert(d.cache() =~= spec_init_cache());
            assert(d.out() =~= Seq::<Pixel>::empty());
        }
        d
    }

    /// The most recently appended pixel, or opaque black if none exists
    /// yet.
    fn last_pixel(&self) -> (p: Pixel)
        ensures
            p == (if self.pixels@.len() == 0 {
                Pixel::spec_black()
            } else {
                self.pixels@.last()
            }),
    {
        if self.pixels.len() == 0 {
            Pixel::black()
        } else {
            self.pixels[self.pixels.len() - 1]
        }
    }

    /// Advance the cursor past one byte and hand it out; the stream is
    /// exhausted otherwise.
    fn take_byte(&mut self) -> (r: Result<u8, DecodeChunksError>)
        requires
            old(self).wf(),
        ensures
            final(self).wf(),
            final(self).input@ == old(self).input@,
            final(self).seen_pixels@ == old(self).seen_pixels@,
            final(self).last_pixel == old(self).last_pixel,
            final(self).pixels@ == old(self).pixels@,
            old(self).pos < old(self).input@.len() ==> final(self).pos == old(self).pos + 1
                && r == Ok::<u8, DecodeChunksError>(old(self).input@[old(self).pos as int]),
            old(self).pos >= old(self).input@.len() ==> final(self).pos == old(self).pos
                && r == Err::<u8, DecodeChunksError>(DecodeChunksError::UnexpectedInputEnd),
    {
        if self.pos < self.input.len() {
            let b = self.input[self.pos];
            self.pos = self.pos + 1;
            Ok(b)
        } else {
            Err(DecodeChunksError::UnexpectedInputEnd)
        }
    }

    /// Write the previous pixel into its cache slot, evicting whatever
    /// the slot held.
    fn see_pixel(&mut self)
        requires
            old(self).wf(),
        ensures
            final(self).wf(),
            final(self).input@ == old(self).input@,
            final(self).pos == old(self).pos,
            final(self).last_pixel == old(self).last_pixel,
            final(self).pixels@ == old(self).pixels@,
            final(self).seen_pixels@ == old(self).seen_pixels@.update(
                spec_cache_index(old(self).last_pixel),
                old(self).last_pixel,
            ),
    {
        let pixel = self.last_pixel;

        let r = pixel.r as usize;
        let g = pixel.g as usize;
        let b = pixel.b as usize;
        let a = pixel.a as usize;

        let index: usize = (r * 3 + g * 5 + b * 7 + a * 11) % 64;

        self.seen_pixels[index] = pixel;
    }

    /// Run the opcode loop until `size` pixels exist. On success the
    /// cursor stands just past the last chunk and the spec-level state
    /// machine maps the new state to the same result as the old one.
    #[verifier::loop_isolation(false)]
    #[verifier::rlimit(100)]
    fn run_chunks(&mut self, size: u32) -> (res: Result<(), DecodeChunksError>)
        requires
            old(self).wf(),
        ensures
            final(self).wf(),
            (match res {
                Ok(_) => final(self).pixels@.len() >= size && spec_decode_chunks(
                    final(self).remaining(),
                    size as nat,
                    final(self).last_pixel,
                    final(self).seen_pixels@,
                    final(self).pixels@,
                ) == spec_decode_chunks(
                    old(self).remaining(),
                    size as nat,
                    old(self).last_pixel,
                    old(self).seen_pixels@,
                    old(self).pixels@,
                ),
                Err(e) => spec_decode_chunks(
                    old(self).remaining(),
                    size as nat,
                    old(self).last_pixel,
                    old(self).seen_pixels@,
                    old(self).pixels@,
                ) == Err::<Seq<Pixel>, DecodeChunksError>(e),
            }),
    {
        let size_us = size as usize;

        while self.pixels.len() < size_us
            invariant
                self.wf(),
                spec_decode_chunks(
                    self.remaining(),
                    size as nat,
                    self.last_pixel,
                    self.seen_pixels@,
                    self.pixels@,
                ) == spec_decode_chunks(
                    old(self).remaining(),
                    size as nat,
                    old(self).last_pixel,
                    old(self).seen_pixels@,
                    old(self).pixels@,
                ),
            decreases self.input@.len() - self.pos,
        {
            let ghost pre = *self;
            let tag = match self.take_byte() {
                Ok(b) => b,
                Err(e) => {
                    proof {
                        lemma_step_empty(
                            pre.remaining(),
                            size as nat,
                            pre.last_pixel,
                            pre.seen_pixels@,
                            pre.pixels@,
                        );
                    }
                    return Err(e);
                },
            };
            proof {
                assert(pre.remaining()[0] == tag);
            }

            if tag == 0b11111110 {
                match self.decode_op_rgb() {
                    Ok(u) => u,
                    Err(e) => {
                        proof {
                            lemma_step_rgb(
                                pre.remaining(),
                                size as nat,
                                pre.last_pixel,
                                pre.seen_pixels@,
                                pre.pixels@,
                            );
                        }
                        return Err(e);
                    },
                }
            } else if tag == 0b11111111 {
                match self.decode_op_rgba() {
                    Ok(u) => u,
                    Err(e) => {
                        proof {
                            lemma_step_rgba(
                                pre.remaining(),
                                size as nat,
                                pre.last_pixel,
                                pre.seen_pixels@,
                                pre.pixels@,
                            );
                        }
                        return Err(e);
                    },
                }
            } else if tag <= 0b00111111 {
                self.decode_op_index(tag);
            } else if tag <= 0b01111111 {
                self.decode_op_diff(tag);
            } else if tag <= 0b10111111 {
                match self.decode_op_luma(tag) {
                    Ok(u) => u,
                    Err(e) => {
                        proof {
                            lemma_step_luma(
                                pre.remaining(),
                                size as nat,
                                pre.last_pixel,
                                pre.seen_pixels@,
                                pre.pixels@,
                            );
                        }
                        return Err(e);
                    },
                }
            } else {
                self.decode_op_run(tag);
            }

            let lp = self.last_pixel();
            self.last_pixel = lp;
            self.see_pixel();

            proof {
                let rem = pre.remaining();
                let sz = size as nat;
                if tag == 0xfeu8 {
                    lemma_step_rgb(rem, sz, pre.last_pixel, pre.seen_pixels@, pre.pixels@);
                    lemma_loop_step_push(
                        pre,
                        *self,
                        sz,
                        4,
                        Pixel { r: rem[1], g: rem[2], b: rem[3], a: pre.last_pixel.a },
                    );
                } else if tag == 0xffu8 {
                    lemma_step_rgba(rem, sz, pre.last_pixel, pre.seen_pixels@, pre.pixels@);
                    lemma_loop_step_push(
                        pre,
                        *self,
                        sz,
                        5,
                        Pixel { r: rem[1], g: rem[2], b: rem[3], a: rem[4] },
                    );
                } else if tag < 0x40u8 {
                    lemma_step_index(rem, sz, pre.last_pixel, pre.seen_pixels@, pre.pixels@);
                    lemma_loop_step_push(pre, *self, sz, 1, pre.seen_pixels@[tag as int]);
                } else if tag < 0x80u8 {
                    lemma_step_diff(rem, sz, pre.last_pixel, pre.seen_pixels@, pre.pixels@);
                    lemma_loop_step_push(pre, *self, sz, 1, spec_diff_pixel(pre.last_pixel, tag));
                } else if tag < 0xc0u8 {
                    lemma_step_luma(rem, sz, pre.last_pixel, pre.seen_pixels@, pre.pixels@);
                    lemma_loop_step_push(
                        pre,
                        *self,
                        sz,
                        2,
                        spec_luma_pixel(pre.last_pixel, tag, rem[1]),
                    );
                } else {
                    lemma_step_run(rem, sz, pre.last_pixel, pre.seen_pixels@, pre.pixels@);
                    lemma_loop_step_run(pre, *self, sz, tag);
                }
            }
        }

        Ok(())
    }

    /// Decode the chunk stream: produce exactly `size` pixels in raster
    /// order and then demand the 8-byte end-of-stream marker. Bytes
    /// after the marker are not inspected. The result is pinned to the
    /// spec-level state machine, so decoding is deterministic.
    pub fn decode(self, size: u32) -> (res: Result<Vec<Pixel>, DecodeChunksError>)
        requires
            self.wf(),
        ensures
            (match res {
                Ok(pixels) => self.decodes_to(size as nat, Ok(pixels@)) && pixels@.len() == size,
                Err(e) => self.decodes_to(size as nat, Err(e)),
            }),
    {
        let mut this = self;

        match this.run_chunks(size) {
            Ok(u) => u,
            Err(e) => {
                return Err(e);
            },
        }

        proof {
            lemma_step_end(
                this.remaining(),
                size as nat,
                this.last_pixel,
                this.seen_pixels@,
                this.pixels@,
            );
        }

        if this.input.len() - this.pos < 8 {
            return Err(DecodeChunksError::BadEnding);
        }

        let base = this.pos;
        proof {
            lemma_take8_marker(this.remaining());
            assert(this.remaining()[0] == this.input@[base as int]);
            assert(this.remaining()[1] == this.input@[base + 1]);
            assert(this.remaining()[2] == this.input@[base + 2]);
            assert(this.remaining()[3] == this.input@[base + 3]);
            assert(this.remaining()[4] == this.input@[base + 4]);
            assert(this.remaining()[5] == this.input@[base + 5]);
            assert(this.remaining()[6] == this.input@[base + 6]);
            assert(this.remaining()[7] == this.input@[base + 7]);
        }
        let marker_ok = this.input[base] == 0 && this.input[base + 1] == 0 && this.input[base + 2]
            == 0 && this.input[base + 3] == 0 && this.input[base + 4] == 0 && this.input[base + 5]
            == 0 && this.input[base + 6] == 0 && this.input[base + 7] == 1;

        if !marker_ok {
            return Err(DecodeChunksError::BadEnding);
        }

        let ghost full = this.pixels@;
        this.pixels.truncate(size as usize);
        proof {
            assert(this.pixels@ =~= full.take(size as int));
        }
        Ok(this.pixels)
    }

    /// An RGB literal: three trailing bytes give the colour channels,
    /// alpha is carried over from the previous pixel.
    fn decode_op_rgb(&mut self) -> (res: Result<(), DecodeChunksError>)
        requires
            old(self).wf(),
        ensures
            final(self).wf(),
            final(self).input@ == old(self).input@,
            final(self).seen_pixels@ == old(self).seen_pixels@,
            final(self).last_pixel == old(self).last_pixel,
            old(self).input@.len() - old(self).pos >= 3 ==> res == Ok::<(), DecodeChunksError>(())
                && final(self).pos == old(self).pos + 3
                && (final(self).pixels@ == old(self).pixels@.push(Pixel {
                    r: old(self).input@[old(self).pos as int],
                    g: old(self).input@[old(self).pos + 1],
                    b: old(self).input@[old(self).pos + 2],
                    a: old(self).last_pixel.a,
                })),
            old(self).input@.len() - old(self).pos < 3 ==> res == Err::<(), DecodeChunksError>(
                DecodeChunksError::UnexpectedInputEnd,
            ) && final(self).pixels@ == old(self).pixels@,
    {
        let r = match self.take_byte() {
            Ok(b) => b,
            Err(e) => {
                return Err(e);
            },
        };
        let g = match self.take_byte() {
            Ok(b) => b,
            Err(e) => {
                return Err(e);
            },
        };
        let b = match self.take_byte() {
            Ok(b) => b,
            Err(e) => {
                return Err(e);
            },
        };
        let a = self.last_pixel.a;

        self.pixels.push(Pixel { r, g, b, a });

        Ok(())
    }

    /// An RGBA literal: four trailing bytes give all four channels.
    fn decode_op_rgba(&mut self) -> (res: Result<(), DecodeChunksError>)
        requires
            old(self).wf(),
        ensures
            final(self).wf(),
            final(self).input@ == old(self).input@,
            final(self).seen_pixels@ == old(self).seen_pixels@,
            final(self).last_pixel == old(self).last_pixel,
            old(self).input@.len() - old(self).pos >= 4 ==> res == Ok::<(), DecodeChunksError>(())
                && final(self).pos == old(self).pos + 4
                && (final(self).pixels@ == old(self).pixels@.push(Pixel {
                    r: old(self).input@[old(self).pos as int],
                    g: old(self).input@[old(self).pos + 1],
                    b: old(self).input@[old(self).pos + 2],
                    a: old(self).input@[old(self).pos + 3],
                })),
            old(self).input@.len() - old(self).pos < 4 ==> res == Err::<(), DecodeChunksError>(
                DecodeChunksError::UnexpectedInputEnd,
            ) && final(self).pixels@ == old(self).pixels@,
    {
        let r = match self.take_byte() {
            Ok(b) => b,
            Err(e) => {
                return Err(e);
            },
        };
        let g = match self.take_byte() {
            Ok(b) => b,
            Err(e) => {
                return Err(e);
            },
        };
        let b = match self.take_byte() {
            Ok(b) => b,
            Err(e) => {
                return Err(e);
            },
        };
        let a = match self.take_byte() {
            Ok(b) => b,
            Err(e) => {
                return Err(e);
            },
        };

        self.pixels.push(Pixel { r, g, b, a });

        Ok(())
    }

    /// A cache-index opcode: the tag's low six bits name a cache slot
    /// whose pixel is emitted verbatim.
    fn decode_op_index(&mut self, tag: u8)
        requires
            old(self).wf(),
            tag < 64,
        ensures
            final(self).wf(),
            final(self).input@ == old(self).input@,
            final(self).pos == old(self).pos,
            final(self).seen_pixels@ == old(self).seen_pixels@,
            final(self).last_pixel == old(self).last_pixel,
            final(self).pixels@ == old(self).pixels@.push(old(self).seen_pixels@[tag as int]),
    {
        let index = tag as usize;
        let seen_pixel = self.seen_pixels[index];

        self.pixels.push(seen_pixel);
    }

    /// A small-diff opcode: 2-bit per-channel deltas packed in the tag
    /// itself.
    fn decode_op_diff(&mut self, tag: u8)
        requires
            old(self).wf(),
        ensures
            final(self).wf(),
            final(self).input@ == old(self).input@,
            final(self).pos == old(self).pos,
            final(self).seen_pixels@ == old(self).seen_pixels@,
            final(self).last_pixel == old(self).last_pixel,
            final(self).pixels@ == old(self).pixels@.push(
                spec_diff_pixel(old(self).last_pixel, tag),
            ),
    {
        let mut pixel = self.last_pixel;

        let delta_r = (tag & 0b00110000) >> 4;
        let delta_g = (tag & 0b00001100) >> 2;
        let delta_b = tag & 0b00000011;

        proof {
            assert((tag & 0b00110000) >> 4u8 == (tag >> 4u8) & 3u8 && (tag & 0b00110000) >> 4u8
                < 4 && (tag & 0b00001100) >> 2u8 == (tag >> 2u8) & 3u8 && (tag & 0b00001100)
                >> 2u8 < 4 && (tag & 0b00000011) == tag & 3u8 && (tag & 0b00000011) < 4)
                by (bit_vector);
        }

        pixel.r = pixel.r.wrapping_add(delta_r).wrapping_sub(2);
        pixel.g = pixel.g.wrapping_add(delta_g).wrapping_sub(2);
        pixel.b = pixel.b.wrapping_add(delta_b).wrapping_sub(2);

        proof {
            lemma_wrap8_cases(self.last_pixel.r + delta_r - 2);
            lemma_wrap8_cases(self.last_pixel.g + delta_g - 2);
            lemma_wrap8_cases(self.last_pixel.b + delta_b - 2);
            assert(pixel == spec_diff_pixel(self.last_pixel, tag));
        }

        self.pixels.push(pixel);
    }

    /// A luma opcode: the tag's green delta plus one trailing byte of
    /// red and blue deltas relative to it.
    #[verifier::rlimit(100)]
    fn decode_op_luma(&mut self, tag: u8) -> (res: Result<(), DecodeChunksError>)
        requires
            old(self).wf(),
        ensures
            final(self).wf(),
            final(self).input@ == old(self).input@,
            final(self).seen_pixels@ == old(self).seen_pixels@,
            final(self).last_pixel == old(self).last_pixel,
            old(self).input@.len() - old(self).pos >= 1 ==> res == Ok::<(), DecodeChunksError>(())
                && final(self).pos == old(self).pos + 1
                && (final(self).pixels@ == old(self).pixels@.push(
                    spec_luma_pixel(
                        old(self).last_pixel,
                        tag,
                        old(self).input@[old(self).pos as int],
                    ),
                )),
            old(self).input@.len() - old(self).pos < 1 ==> res == Err::<(), DecodeChunksError>(
                DecodeChunksError::UnexpectedInputEnd,
            ) && final(self).pixels@ == old(self).pixels@,
    {
        let byte1 = match self.take_byte() {
            Ok(b) => b,
            Err(e) => {
                return Err(e);
            },
        };
        let mut pixel = self.last_pixel;

        let delta_g = (tag & 0b00111111).wrapping_sub(32);
        let delta_r = ((byte1 & 0b11110000) >> 4).wrapping_add(delta_g).wrapping_sub(8);
        let delta_b = (byte1 & 0b00001111).wrapping_add(delta_g).wrapping_sub(8);

        proof {
            assert((tag & 0b00111111) == (tag & 0x3fu8) && (tag & 0x3fu8) < 64 && (byte1
                & 0b11110000) >> 4u8 == (byte1 >> 4u8) & 0xfu8 && (byte1 & 0b11110000) >> 4u8 < 16
                && (byte1 & 0b00001111) == (byte1 & 0xfu8) && (byte1 & 0xfu8) < 16)
                by (bit_vector);

            let dg: int = (tag & 0x3fu8) - 32;
            let dr: int = ((byte1 >> 4u8) & 0xfu8) - 8 + dg;
            let db: int = (byte1 & 0xfu8) - 8 + dg;

            lemma_wrap8_cases(dg);
            assert(delta_g == wrap8(dg));
            lemma_wrap8_cases(((byte1 >> 4u8) & 0xfu8) + delta_g);
            lemma_wrap8_cases(((byte1 >> 4u8) & 0xfu8) + delta_g - 8);
            lemma_wrap8_add_left(((byte1 >> 4u8) & 0xfu8) - 8, dg);
            assert(delta_r == wrap8(dr));
            lemma_wrap8_cases((byte1 & 0xfu8) + delta_g);
            lemma_wrap8_cases((byte1 & 0xfu8) + delta_g - 8);
            lemma_wrap8_add_left((byte1 & 0xfu8) - 8, dg);
            assert(delta_b == wrap8(db));

            lemma_wrap8_add_left(self.last_pixel.r as int, dr);
            lemma_wrap8_add_left(self.last_pixel.g as int, dg);
            lemma_wrap8_add_left(self.last_pixel.b as int, db);
        }

        pixel.r = pixel.r.wrapping_add(delta_r);
        pixel.g = pixel.g.wrapping_add(delta_g);
        pixel.b = pixel.b.wrapping_add(delta_b);

        proof {
            assert(pixel == spec_luma_pixel(self.last_pixel, tag, byte1));
        }

        self.pixels.push(pixel);

        Ok(())
    }

    /// A run opcode: repeat the previous pixel, the tag's low six bits
    /// plus one times.
    #[verifier::loop_isolation(false)]
    fn decode_op_run(&mut self, tag: u8)
        requires
            old(self).wf(),
        ensures
            final(self).wf(),
            final(self).input@ == old(self).input@,
            final(self).pos == old(self).pos,
            final(self).seen_pixels@ == old(self).seen_pixels@,
            final(self).last_pixel == old(self).last_pixel,
            (final(self).pixels@ == old(self).pixels@ + Seq::new(
                ((tag & 0x3fu8) + 1) as nat,
                |i: int| old(self).last_pixel,
            )),
    {
        proof {
            assert(tag & 0b00111111 == tag & 0x3fu8 && tag & 0x3fu8 < 64) by (bit_vector);
        }
        let run_length = ((tag & 0b00111111) + 1) as usize;
        let pixel = self.last_pixel;

        let mut i: usize = 0;
        while i < run_length
            invariant
                i <= run_length,
                self.input@ == old(self).input@,
                self.pos == old(self).pos,
                self.seen_pixels@ == old(self).seen_pixels@,
                self.last_pixel == old(self).last_pixel,
                self.pixels@ == old(self).pixels@ + Seq::new(i as nat, |j: int| pixel),
            decreases run_length - i,
        {
            self.pixels.push(pixel);
            i = i + 1;
            proof {
                assert(self.pixels@ =~= old(self).pixels@ + Seq::new(i as nat, |j: int| pixel));
            }
        }
    }
}

/// Unfolds one step of the state machine for an RGB-literal chunk: with
/// three trailing bytes present it appends one pixel that keeps the
/// previous alpha; with the stream ending earlier it fails.
pub proof fn lemma_step_rgb(bytes: Seq<u8>, size: nat, last: Pixel, cache: Seq<Pixel>, out: Seq<Pixel>)
    requires
        out.len() < size,
        bytes.len() >= 1,
        bytes[0] == 0xfeu8,
    ensures
        bytes.len() >= 4 ==> ({
            let p = Pixel { r: bytes[1], g: bytes[2], b: bytes[3], a: last.a };
            spec_decode_chunks(bytes, size, last, cache, out) == spec_decode_chunks(
                bytes.skip(4),
                size,
                p,
                cache.update(spec_cache_index(p), p),
                out.push(p),
            )
        }),
        bytes.len() < 4 ==> spec_decode_chunks(bytes, size, last, cache, out) == Err::<
            Seq<Pixel>,
            DecodeChunksError,
        >(DecodeChunksError::UnexpectedInputEnd),
{
    reveal(spec_decode_chunks);
}

/// Unfolds one step for an RGBA-literal chunk: four trailing bytes give
/// all four channels, or the stream ends too early and decoding fails.
pub proof fn lemma_step_rgba(bytes: Seq<u8>, size: nat, last: Pixel, cache: Seq<Pixel>, out: Seq<Pixel>)
    requires
        out.len() < size,
        bytes.len() >= 1,
        bytes[0] == 0xffu8,
    ensures
        bytes.len() >= 5 ==> ({
            let p = Pixel { r: bytes[1], g: bytes[2], b: bytes[3], a: bytes[4] };
            spec_decode_chunks(bytes, size, last, cache, out) == spec_decode_chunks(
                bytes.skip(5),
                size,
                p,
                cache.update(spec_cache_index(p), p),
                out.push(p),
            )
        }),
        bytes.len() < 5 ==> spec_decode_chunks(bytes, size, last, cache, out) == Err::<
            Seq<Pixel>,
            DecodeChunksError,
        >(DecodeChunksError::UnexpectedInputEnd),
{
    reveal(spec_decode_chunks);
}

/// Unfolds one step for a cache-index chunk: the pixel in the named slot
/// is appended verbatim.
pub proof fn lemma_step_index(bytes: Seq<u8>, size: nat, last: Pixel, cache: Seq<Pixel>, out: Seq<Pixel>)
    requires
        out.len() < size,
        bytes.len() >= 1,
        bytes[0] < 0x40u8,
    ensures
        ({
            let p = cache[bytes[0] as int];
            spec_decode_chunks(bytes, size, last, cache, out) == spec_decode_chunks(
                bytes.skip(1),
                size,
                p,
                cache.update(spec_cache_index(p), p),
                out.push(p),
            )
        }),
{
    reveal(spec_decode_chunks);
}

/// Unfolds one step for a small-diff chunk.
pub proof fn lemma_step_diff(bytes: Seq<u8>, size: nat, last: Pixel, cache: Seq<Pixel>, out: Seq<Pixel>)
    requires
        out.len() < size,
        bytes.len() >= 1,
        0x40u8 <= bytes[0] < 0x80u8,
    ensures
        ({
            let p = spec_diff_pixel(last, bytes[0]);
            spec_decode_chunks(bytes, size, last, cache, out) == spec_decode_chunks(
                bytes.skip(1),
                size,
                p,
                cache.update(spec_cache_index(p), p),
                out.push(p),
            )
        }),
{
    reveal(spec_decode_chunks);
}

/// Unfolds one step for a luma chunk: one trailing byte is needed, or
/// decoding fails.
pub proof fn lemma_step_luma(bytes: Seq<u8>, size: nat, last: Pixel, cache: Seq<Pixel>, out: Seq<Pixel>)
    requires
        out.len() < size,
        bytes.len() >= 1,
        0x80u8 <= bytes[0] < 0xc0u8,
    ensures
        bytes.len() >= 2 ==> ({
            let p = spec_luma_pixel(last, bytes[0], bytes[1]);
            spec_decode_chunks(bytes, size, last, cache, out) == spec_decode_chunks(
                bytes.skip(2),
                size,
                p,
                cache.update(spec_cache_index(p), p),
                out.push(p),
            )
        }),
        bytes.len() < 2 ==> spec_decode_chunks(bytes, size, last, cache, out) == Err::<
            Seq<Pixel>,
            DecodeChunksError,
        >(DecodeChunksError::UnexpectedInputEnd),
{
    reveal(spec_decode_chunks);
}

/// Unfolds one step for a run chunk: the previous pixel is repeated, the
/// tag's low six bits plus one times, and rewrites its own cache slot.
pub proof fn lemma_step_run(bytes: Seq<u8>, size: nat, last: Pixel, cache: Seq<Pixel>, out: Seq<Pixel>)
    requires
        out.len() < size,
        bytes.len() >= 1,
        0xc0u8 <= bytes[0] < 0xfeu8,
    ensures
        (spec_decode_chunks(bytes, size, last, cache, out) == spec_decode_chunks(
            bytes.skip(1),
            size,
            last,
            cache.update(spec_cache_index(last), last),
            out + Seq::new(((bytes[0] & 0x3fu8) + 1) as nat, |i: int| last),
        )),
{
    reveal(spec_decode_chunks);
}

/// With too few pixels and no byte left, decoding fails with
/// `UnexpectedInputEnd`.
pub proof fn lemma_step_empty(bytes: Seq<u8>, size: nat, last: Pixel, cache: Seq<Pixel>, out: Seq<Pixel>)
    requires
        out.len() < size,
        bytes.len() == 0,
    ensures
        spec_decode_chunks(bytes, size, last, cache, out) == Err::<
            Seq<Pixel>,
            DecodeChunksError,
        >(DecodeChunksError::UnexpectedInputEnd),
{
    reveal(spec_decode_chunks);
}

/// Once enough pixels exist the stream must continue with the 8-byte end
/// marker: a correct marker closes the decode with the first `size`
/// pixels, and any wrong or missing terminator bytes — even with the
/// full pixel count already decoded — fail with `BadEnding`.
pub proof fn lemma_step_end(bytes: Seq<u8>, size: nat, last: Pixel, cache: Seq<Pixel>, out: Seq<Pixel>)
    requires
        out.len() >= size,
    ensures
        bytes.len() >= 8 && bytes.take(8) == spec_end_marker()
            ==> spec_decode_chunks(bytes, size, last, cache, out) == Ok::<
            Seq<Pixel>,
            DecodeChunksError,
        >(out.take(size as int)),
        !(bytes.len() >= 8 && bytes.take(8) == spec_end_marker())
            ==> spec_decode_chunks(bytes, size, last, cache, out) == Err::<
            Seq<Pixel>,
            DecodeChunksError,
        >(DecodeChunksError::BadEnding),
{
    reveal(spec_decode_chunks);
}

/// Whatever state decoding starts from, a successful decode hands back
/// exactly `size` pixels.
pub proof fn lemma_decode_exact_size(
    bytes: Seq<u8>,
    size: nat,
    last: Pixel,
    cache: Seq<Pixel>,
    out: Seq<Pixel>,
    res: Seq<Pixel>,
)
    requires
        spec_decode_chunks(bytes, size, last, cache, out) == Ok::<
            Seq<Pixel>,
            DecodeChunksError,
        >(res),
    ensures
        res.len() == size,
    decreases bytes.len(),
{
    reveal(spec_decode_chunks);
    if out.len() >= size {
    } else if bytes.len() == 0 {
    } else {
        let tag = bytes[0];
        if tag == 0xfeu8 {
            if bytes.len() >= 4 {
                let p = Pixel { r: bytes[1], g: bytes[2], b: bytes[3], a: last.a };
                lemma_decode_exact_size(
                    bytes.skip(4),
                    size,
                    p,
                    cache.update(spec_cache_index(p), p),
                    out.push(p),
                    res,
                );
            }
        } else if tag == 0xffu8 {
            if bytes.len() >= 5 {
                let p = Pixel { r: bytes[1], g: bytes[2], b: bytes[3], a: bytes[4] };
                lemma_decode_exact_size(
                    bytes.skip(5),
                    size,
                    p,
                    cache.update(spec_cache_index(p), p),
                    out.push(p),
                    res,
                );
            }
        } else if tag < 0x40u8 {
            let p = cache[tag as int];
            lemma_decode_exact_size(
                bytes.skip(1),
                size,
                p,
                cache.update(spec_cache_index(p), p),
                out.push(p),
                res,
            );
        } else if tag < 0x80u8 {
            let p = spec_diff_pixel(last, tag);
            lemma_decode_exact_size(
                bytes.skip(1),
                size,
                p,
                cache.update(spec_cache_index(p), p),
                out.push(p),
                res,
            );
        } else if tag < 0xc0u8 {
            if bytes.len() >= 2 {
                let p = spec_luma_pixel(last, tag, bytes[1]);
                lemma_decode_exact_size(
                    bytes.skip(2),
                    size,
                    p,
                    cache.update(spec_cache_index(p), p),
                    out.push(p),
                    res,
                );
            }
        } else {
            let n: int = (tag & 0x3fu8) + 1;
            lemma_decode_exact_size(
                bytes.skip(1),
                size,
                last,
                cache.update(spec_cache_index(last), last),
                out + Seq::new(n as nat, |i: int| last),
                res,
            );
        }
    }
}

/// Decoding is deterministic: two decoders over the same remaining
/// bytes and the same rolling state yield the same result.
pub proof fn lemma_decode_deterministic(
    d1: ChunksDecoder,
    d2: ChunksDecoder,
    size: nat,
    r1: Result<Seq<Pixel>, DecodeChunksError>,
    r2: Result<Seq<Pixel>, DecodeChunksError>,
)
    requires
        d1.decodes_to(size, r1),
        d2.decodes_to(size, r2),
        d1.remaining() == d2.remaining(),
        d1.prev_pixel() == d2.prev_pixel(),
        d1.cache() == d2.cache(),
        d1.out() == d2.out(),
    ensures
        r1 == r2,
{
}

/// Cache-index round trip: when pixel `p` was most recently written to
/// its slot — the cache holds `p` at `spec_cache_index(p)` — an
/// immediately following cache-index chunk whose tag names that slot
/// reproduces `p` exactly, and leaves the cache unchanged.
pub proof fn lemma_cache_round_trip(
    bytes: Seq<u8>,
    size: nat,
    last: Pixel,
    cache: Seq<Pixel>,
    out: Seq<Pixel>,
    p: Pixel,
)
    requires
        out.len() < size,
        bytes.len() >= 1,
        cache.len() == 64,
        cache[spec_cache_index(p)] == p,
        bytes[0] == spec_cache_index(p),
    ensures
        spec_decode_chunks(bytes, size, last, cache, out) == spec_decode_chunks(
            bytes.skip(1),
            size,
            p,
            cache,
            out.push(p),
        ),
{
    lemma_step_index(bytes, size, last, cache, out);
    assert(cache.update(spec_cache_index(p), p) =~= cache);
}

/// A chain of small-diff and luma chunks applied in order: each entry
/// is a tag byte below 0x80 for a small diff, or at least 0x80 with its
/// trailing byte for a luma chunk.
pub open spec fn spec_apply_diff_luma(last: Pixel, ops: Seq<(u8, u8)>) -> Pixel
    decreases ops.len(),
{
    if ops.len() == 0 {
        last
    } else {
        let next = if ops[0].0 < 0x80u8 {
            spec_diff_pixel(last, ops[0].0)
        } else {
            spec_luma_pixel(last, ops[0].0, ops[0].1)
        };
        spec_apply_diff_luma(next, ops.skip(1))
    }
}

/// Small-diff and luma chunks never change the alpha channel: after any
/// sequence of them, alpha still holds the value it had before — the
/// one last set by a literal chunk or by the opaque-black seed.
pub proof fn lemma_diff_luma_keep_alpha(last: Pixel, ops: Seq<(u8, u8)>)
    ensures
        spec_apply_diff_luma(last, ops).a == last.a,
    decreases ops.len(),
{
    if ops.len() == 0 {
    } else {
        let next = if ops[0].0 < 0x80u8 {
            spec_diff_pixel(last, ops[0].0)
        } else {
            spec_luma_pixel(last, ops[0].0, ops[0].1)
        };
        lemma_diff_luma_keep_alpha(next, ops.skip(1));
    }
}

/// A stream that ends immediately after a tag byte whose opcode still
/// needs trailing bytes (an RGB or RGBA literal, or a luma chunk) fails
/// with `UnexpectedInputEnd`.
pub proof fn lemma_truncated_after_tag(
    bytes: Seq<u8>,
    size: nat,
    last: Pixel,
    cache: Seq<Pixel>,
    out: Seq<Pixel>,
)
    requires
        out.len() < size,
        bytes.len() == 1,
        bytes[0] == 0xfeu8 || bytes[0] == 0xffu8 || (0x80u8 <= bytes[0] < 0xc0u8),
    ensures
        spec_decode_chunks(bytes, size, last, cache, out) == Err::<
            Seq<Pixel>,
            DecodeChunksError,
        >(DecodeChunksError::UnexpectedInputEnd),
{
    if bytes[0] == 0xfeu8 {
        lemma_step_rgb(bytes, size, last, cache, out);
    } else if bytes[0] == 0xffu8 {
        lemma_step_rgba(bytes, size, last, cache, out);
    } else {
        lemma_step_luma(bytes, size, last, cache, out);
    }
}

/// A stream whose opcodes have produced the full pixel count but whose
/// next eight bytes are not exactly the end marker fails with
/// `BadEnding`; the finished pixel count does not suppress the check.
pub proof fn lemma_wrong_terminator(
    bytes: Seq<u8>,
    size: nat,
    last: Pixel,
    cache: Seq<Pixel>,
    out: Seq<Pixel>,
)
    requires
        out.len() >= size,
        bytes.len() < 8 || bytes.take(8) != spec_end_marker(),
    ensures
        spec_decode_chunks(bytes, size, last, cache, out) == Err::<
            Seq<Pixel>,
            DecodeChunksError,
        >(DecodeChunksError::BadEnding),
{
    lemma_step_end(bytes, size, last, cache, out);
}

/// Carries one push-type chunk step (literal, cache-index, diff or luma)
/// from sequences over to two decoder states.
proof fn lemma_loop_step_push(
    pre: ChunksDecoder,
    cur: ChunksDecoder,
    size: nat,
    k: int,
    p: Pixel,
)
    requires
        pre.wf(),
        1 <= k,
        pre.pos + k <= pre.input@.len(),
        cur.input@ == pre.input@,
        cur.pos == pre.pos + k,
        cur.pixels@ == pre.pixels@.push(p),
        cur.last_pixel == p,
        cur.seen_pixels@ == pre.seen_pixels@.update(spec_cache_index(p), p),
        spec_decode_chunks(pre.remaining(), size, pre.last_pixel, pre.seen_pixels@, pre.pixels@)
            == spec_decode_chunks(
            pre.remaining().skip(k),
            size,
            p,
            pre.seen_pixels@.update(spec_cache_index(p), p),
            pre.pixels@.push(p),
        ),
    ensures
        spec_decode_chunks(cur.remaining(), size, cur.last_pixel, cur.seen_pixels@, cur.pixels@)
            == spec_decode_chunks(
            pre.remaining(),
            size,
            pre.last_pixel,
            pre.seen_pixels@,
            pre.pixels@,
        ),
{
    assert(cur.remaining() =~= pre.remaining().skip(k));
}

/// Carries one run chunk step from sequences over to two decoder states:
/// the run repeats the previous pixel, which stays previous, and the new
/// output ends in that pixel.
proof fn lemma_loop_step_run(pre: ChunksDecoder, cur: ChunksDecoder, size: nat, tag: u8)
    requires
        pre.wf(),
        pre.pos + 1 <= pre.input@.len(),
        0xc0u8 <= tag < 0xfeu8,
        pre.input@[pre.pos as int] == tag,
        cur.input@ == pre.input@,
        cur.pos == pre.pos + 1,
        (cur.pixels@ == pre.pixels@ + Seq::new(
            ((tag & 0x3fu8) + 1) as nat,
            |i: int| pre.last_pixel,
        )),
        cur.pixels@.len() > 0,
        cur.last_pixel == cur.pixels@.last(),
        cur.seen_pixels@ == pre.seen_pixels@.update(
            spec_cache_index(cur.last_pixel),
            cur.last_pixel,
        ),
        spec_decode_chunks(pre.remaining(), size, pre.last_pixel, pre.seen_pixels@, pre.pixels@)
            == spec_decode_chunks(
            pre.remaining().skip(1),
            size,
            pre.last_pixel,
            pre.seen_pixels@.update(spec_cache_index(pre.last_pixel), pre.last_pixel),
            pre.pixels@ + Seq::new(((tag & 0x3fu8) + 1) as nat, |i: int| pre.last_pixel),
        ),
    ensures
        spec_decode_chunks(cur.remaining(), size, cur.last_pixel, cur.seen_pixels@, cur.pixels@)
            == spec_decode_chunks(
            pre.remaining(),
            size,
            pre.last_pixel,
            pre.seen_pixels@,
            pre.pixels@,
        ),
{
    assert(((tag & 0x3fu8) + 1) as nat >= 1) by (bit_vector);
    assert(cur.pixels@.last() == pre.last_pixel);
    assert(cur.remaining() =~= pre.remaining().skip(1));
}

/// The first eight remaining bytes equal the end marker exactly when
/// each byte matches the literal sequence 0,0,0,0,0,0,0,1.
proof fn lemma_take8_marker(rem: Seq<u8>)
    requires
        rem.len() >= 8,
    ensures
        (rem.take(8) == spec_end_marker()) <==> (rem[0] == 0 && rem[1] == 0 && rem[2] == 0
            && rem[3] == 0 && rem[4] == 0 && rem[5] == 0 && rem[6] == 0 && rem[7] == 1u8),
{
    if rem[0] == 0 && rem[1] == 0 && rem[2] == 0 && rem[3] == 0 && rem[4] == 0 && rem[5] == 0
        && rem[6] == 0 && rem[7] == 1u8 {
        assert(rem.take(8) =~= spec_end_marker());
    }
    if rem.take(8) == spec_end_marker() {
        assert(rem[0] == rem.take(8)[0]);
        assert(rem[1] == rem.take(8)[1]);
        assert(rem[2] == rem.take(8)[2]);
        assert(rem[3] == rem.take(8)[3]);
        assert(rem[4] == rem.take(8)[4]);
        assert(rem[5] == rem.take(8)[5]);
        assert(rem[6] == rem.take(8)[6]);
        assert(rem[7] == rem.take(8)[7]);
    }
}

/// wrap8 on an argument within one period of the 8-bit range, spelled
/// out case by case.
proof fn lemma_wrap8_cases(x: int)
    requires
        -256 <= x < 512,
    ensures
        x < 0 ==> wrap8(x) == x + 256,
        0 <= x < 256 ==> wrap8(x) == x,
        256 <= x ==> wrap8(x) == x - 256,
{
    if x < 0 {
        vstd::arithmetic::div_mod::lemma_mod_add_multiples_vanish(x, 256);
        vstd::arithmetic::div_mod::lemma_small_mod((x + 256) as nat, 256);
    } else if x < 256 {
        vstd::arithmetic::div_mod::lemma_small_mod(x as nat, 256);
    } else {
        vstd::arithmetic::div_mod::lemma_mod_add_multiples_vanish(x - 256, 256);
        vstd::arithmetic::div_mod::lemma_small_mod((x - 256) as nat, 256);
    }
}

/// Adding a wrapped value and adding the value itself agree mod 256.
proof fn lemma_wrap8_add_left(a: int, b: int)
    ensures
        wrap8(a + wrap8(b)) == wrap8(a + b),
{
    vstd::arithmetic::div_mod::lemma_mod_bound(b, 256);
    vstd::arithmetic::div_mod::lemma_add_mod_noop_right(a, b, 256);
    assert((a + (b % 256)) % 256 == (a + b) % 256);
}

} // verus!
