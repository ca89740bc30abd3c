//! A byte-exact codec for a run-length/delta-coded raster image container.
//!
//! The serialized stream is a fixed 14-byte header (magic, big-endian
//! dimensions, channel count, colorspace tag), an opcode stream, and a fixed
//! 8-byte end marker.  The opcode stream reconstructs pixels through a
//! 64-entry direct-mapped lookback cache, small wrapping per-channel deltas,
//! run-length opcodes, and raw literals.  Encoding and decoding round-trip
//! byte-for-byte.

use vstd::prelude::*;

pub mod decode;
pub mod encode;
pub mod laws;
pub mod model;

pub use decode::PixelIter;
pub use decode::decode;
pub use encode::encode;

verus! {

/// Tag for an opcode that repeats the previous pixel.
pub const OP_RUN: u8 = 0xC0;
/// Tag for a literal red/green/blue opcode (alpha unchanged).
pub const OP_RGB: u8 = 0xFE;
/// Tag for a literal red/green/blue/alpha opcode.
pub const OP_RGBA: u8 = 0xFF;
/// Tag for a two-bit-per-channel delta opcode.
pub const OP_DIFF: u8 = 0x40;
/// Tag for a two-byte luma-biased delta opcode.
pub const OP_LUMA: u8 = 0x80;
/// Number of slots in the pixel lookback cache.
pub const CACHE_SIZE: usize = 64;

/// One pixel, always carried internally with all four channels.
#[derive(Clone, Copy, PartialEq, Eq, Structural, Debug)]
pub struct Pixel {
    pub r: u8,
    pub g: u8,
    pub b: u8,
    pub a: u8,
}

/// A raster image: dimensions, channel count (3 or 4), an opaque colorspace
/// tag, and the flat sample buffer of `width * height * channels` bytes.
pub struct Image {
    pub width: u32,
    pub height: u32,
    pub channels: u8,
    pub colorspace: u8,
    pub data: Vec<u8>,
}

/// Mathematical view of an [`Image`].
#[verifier::ext_equal]
pub ghost struct ImageModel {
    pub width: u32,
    pub height: u32,
    pub channels: u8,
    pub colorspace: u8,
    pub data: Seq<u8>,
}

impl View for Image {
    type V = ImageModel;

    open spec fn view(&self) -> ImageModel {
        ImageModel {
            width: self.width,
            height: self.height,
            channels: self.channels,
            colorspace: self.colorspace,
            data: self.data@,
        }
    }
}

/// Why a serialized stream was rejected.
#[derive(Clone, Copy, PartialEq, Eq, Structural, Debug, PartialOrd, Ord, Hash)]
pub enum ParseError {
    /// The first four bytes are not the magic signature.
    InvalidMagic,
    /// The buffer is shorter than some parse point requires: the header, the
    /// end marker, or the bytes an opcode consumes.
    TruncatedFile,
}

/// A fresh lookback cache of 64 all-zero pixels.
pub(crate) fn new_cache() -> (c: Vec<Pixel>)
    ensures
        c@ == model::zero_cache(),
{
    let mut cache: Vec<Pixel> = Vec::new();
    let mut i: usize = 0;
    while i < 64
        invariant
            i <= 64,
            cache@.len() == i,
            forall|j: int| 0 <= j < i ==> cache@[j] == (Pixel { r: 0, g: 0, b: 0, a: 0 }),
        decreases 64 - i,
    {
        cache.push(Pixel { r: 0, g: 0, b: 0, a: 0 });
        i = i + 1;
    }
    proof {
        assert(cache@ =~= model::zero_cache());
    }
    cache
}

/// The cache slot of a pixel: `(r*3 + g*5 + b*7 + a*11) mod 64`.
pub fn hash(pixel: Pixel) -> (i: usize)
    ensures
        i == model::hash_spec(pixel),
{
    (((pixel.r as u32) * 3 + (pixel.g as u32) * 5 + (pixel.b as u32) * 7 + (pixel.a as u32) * 11)
        % 64) as usize
}

} // verus!
