use vstd::prelude::*;

verus! {

/// One pixel: four independent 8-bit channels.
#[derive(Clone, Copy, Debug, PartialEq, Eq, Structural)]
pub struct Pixel {
    pub r: u8,
    pub g: u8,
    pub b: u8,
    pub a: u8,
}

impl Pixel {
    /// The all-zero pixel, used only as the cache's initial fill value.
    pub open spec fn spec_zero() -> Pixel {
        Pixel { r: 0, g: 0, b: 0, a: 0 }
    }

    /// Opaque black, the decoder's initial previous pixel.
    pub open spec fn spec_black() -> Pixel {
        Pixel { r: 0, g: 0, b: 0, a: 255 }
    }

    pub fn zero() -> (p: Pixel)
        ensures
            p == Pixel::spec_zero(),
    {
        Pixel { r: 0, g: 0, b: 0, a: 0 }
    }

    pub fn black() -> (p: Pixel)
        ensures
            p == Pixel::spec_black(),
    {
        Pixel { r: 0, g: 0, b: 0, a: 255 }
    }
}

} // verus!
