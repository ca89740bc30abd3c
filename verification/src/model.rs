//! The mathematical model of the codec: what a serialized stream decodes to
//! and what an image encodes to, stated over `Seq` and plain values.

use vstd::prelude::*;
use crate::Pixel;

verus! {

/// The pixel assumed before any opcode has run.
pub open spec fn init_pixel() -> Pixel {
    Pixel { r: 0, g: 0, b: 0, a: 255 }
}

/// The lookback cache at the start of a decode or encode call.
pub open spec fn zero_cache() -> Seq<Pixel> {
    Seq::new(64, |i: int| Pixel { r: 0, g: 0, b: 0, a: 0 })
}

/// The cache slot of a pixel: `(r*3 + g*5 + b*7 + a*11) mod 64`.
pub open spec fn hash_spec(p: Pixel) -> int {
    (p.r * 3 + p.g * 5 + p.b * 7 + p.a * 11) % 64
}

/// Eight-bit wrapping addition.
pub open spec fn wadd(a: u8, b: u8) -> u8 {
    vstd::wrapping::u8_specs::wrapping_add(a, b)
}

/// Eight-bit wrapping subtraction.
pub open spec fn wsub(a: u8, b: u8) -> u8 {
    vstd::wrapping::u8_specs::wrapping_sub(a, b)
}

/// The four magic bytes opening every stream, ASCII `qoif`.
pub open spec fn magic_seq() -> Seq<u8> {
    seq![0x71u8, 0x6Fu8, 0x69u8, 0x66u8]
}

/// The fixed eight-byte end marker closing every stream.
pub open spec fn end_marker() -> Seq<u8> {
    seq![0u8, 0u8, 0u8, 0u8, 0u8, 0u8, 0u8, 1u8]
}

/// The big-endian 32-bit value stored at `data[i..i+4]`.
pub open spec fn be32_at(data: Seq<u8>, i: int) -> int {
    data[i] * 0x1000000 + data[i + 1] * 0x10000 + data[i + 2] * 0x100 + data[i + 3]
}

/// The four big-endian bytes of a 32-bit value.
pub open spec fn u32_be_bytes(w: u32) -> Seq<u8> {
    seq![
        ((w >> 24) & 0xFF) as u8,
        ((w >> 16) & 0xFF) as u8,
        ((w >> 8) & 0xFF) as u8,
        (w & 0xFF) as u8,
    ]
}

/// The cache after a newly formed pixel is stored in its slot.
pub open spec fn cache_update(cache: Seq<Pixel>, p: Pixel) -> Seq<Pixel> {
    cache.update(hash_spec(p), p)
}

/// The pixels an opcode stream decodes to, starting from the given previous
/// pixel and cache, or `None` if an opcode needs more bytes than remain.
pub open spec fn decode_ops(data: Seq<u8>, pixel: Pixel, cache: Seq<Pixel>) -> Option<Seq<Pixel>>
    decreases data.len(),
{
    if data.len() == 0 {
        Some(Seq::empty())
    } else {
        let b0 = data[0];
        if b0 == crate::OP_RGB {
            if data.len() >= 4 {
                let p = Pixel { r: data[1], g: data[2], b: data[3], a: pixel.a };
                match decode_ops(data.skip(4), p, cache_update(cache, p)) {
                    Some(rest) => Some(seq![p] + rest),
                    None => None,
                }
            } else {
                None
            }
        } else if b0 == crate::OP_RGBA {
            if data.len() >= 5 {
                let p = Pixel { r: data[1], g: data[2], b: data[3], a: data[4] };
                match decode_ops(data.skip(5), p, cache_update(cache, p)) {
                    Some(rest) => Some(seq![p] + rest),
                    None => None,
                }
            } else {
                None
            }
        } else if b0 & 0xC0 == 0x00 {
            let p = cache[(b0 & 0x3F) as int];
            match decode_ops(data.skip(1), p, cache) {
                Some(rest) => Some(seq![p] + rest),
                None => None,
            }
        } else if b0 & 0xC0 == crate::OP_DIFF {
            let p = Pixel {
                r: wadd(pixel.r, wsub((b0 >> 4) & 0x3, 2)),
                g: wadd(pixel.g, wsub((b0 >> 2) & 0x3, 2)),
                b: wadd(pixel.b, wsub(b0 & 0x3, 2)),
                a: pixel.a,
            };
            match decode_ops(data.skip(1), p, cache_update(cache, p)) {
                Some(rest) => Some(seq![p] + rest),
                None => None,
            }
        } else if b0 & 0xC0 == crate::OP_LUMA {
            if data.len() >= 2 {
                let b1 = data[1];
                let dg = wsub(b0 & 0x3F, 32);
                let dr = wadd(wsub(b1 >> 4, 8), dg);
                let db = wadd(wsub(b1 & 0x0F, 8), dg);
                let p = Pixel {
                    r: wadd(pixel.r, dr),
                    g: wadd(pixel.g, dg),
                    b: wadd(pixel.b, db),
                    a: pixel.a,
                };
                match decode_ops(data.skip(2), p, cache_update(cache, p)) {
                    Some(rest) => Some(seq![p] + rest),
                    None => None,
                }
            } else {
                None
            }
        } else {
            // run opcode: the low six bits store the repeat count minus one
            let n = (b0 & 0x3F) + 1;
            match decode_ops(data.skip(1), pixel, cache) {
                Some(rest) => Some(Seq::new(n as nat, |i: int| pixel) + rest),
                None => None,
            }
        }
    }
}

/// The two-bit-per-channel delta opcode for the given wrapping channel
/// deltas, if each delta lies in -2..=1.
pub open spec fn diff_spec(dr: u8, dg: u8, db: u8) -> Option<u8> {
    if wadd(dr, 2) <= 3 && wadd(dg, 2) <= 3 && wadd(db, 2) <= 3 {
        Some(crate::OP_DIFF | (wadd(dr, 2) << 4) | (wadd(dg, 2) << 2) | wadd(db, 2))
    } else {
        None
    }
}

/// The two-byte luma-biased delta opcode for the given wrapping channel
/// deltas, if the green delta lies in -32..=31 and the red and blue deltas
/// each lie within -8..=7 of it.
pub open spec fn luma_spec(dr: u8, dg: u8, db: u8) -> Option<Seq<u8>> {
    let drg = wsub(wadd(dr, 8), dg);
    let dg32 = wadd(dg, 32);
    let dbg = wsub(wadd(db, 8), dg);
    if drg <= 0x0F && dbg <= 0x0F && dg32 <= 0x3F {
        Some(seq![crate::OP_LUMA | dg32, (drg << 4) | dbg])
    } else {
        None
    }
}

/// The bytes that encode one pixel that is not a repeat of the previous one.
pub open spec fn encode_px(p: Pixel, prev: Pixel, cache: Seq<Pixel>) -> Seq<u8> {
    if cache[hash_spec(p)] == p {
        seq![hash_spec(p) as u8]
    } else if p.a == prev.a {
        let dr = wsub(p.r, prev.r);
        let dg = wsub(p.g, prev.g);
        let db = wsub(p.b, prev.b);
        if diff_spec(dr, dg, db) is Some {
            seq![diff_spec(dr, dg, db)->0]
        } else if luma_spec(dr, dg, db) is Some {
            luma_spec(dr, dg, db)->0
        } else {
            seq![crate::OP_RGB, p.r, p.g, p.b]
        }
    } else {
        seq![crate::OP_RGBA, p.r, p.g, p.b, p.a]
    }
}

/// The cache after one non-repeat pixel is encoded: unchanged on a cache hit,
/// else updated at the pixel's slot.
pub open spec fn cache_after_px(p: Pixel, cache: Seq<Pixel>) -> Seq<Pixel> {
    if cache[hash_spec(p)] == p {
        cache
    } else {
        cache_update(cache, p)
    }
}

/// The opcode stream that encodes the remaining pixels, given the previous
/// pixel, the cache, and the pending run length.
pub open spec fn encode_pixels(pixels: Seq<Pixel>, prev: Pixel, cache: Seq<Pixel>, run: nat) -> Seq<
    u8,
>
    decreases pixels.len(),
{
    if pixels.len() == 0 {
        Seq::empty()
    } else {
        let p = pixels[0];
        if p == prev {
            let run1 = run + 1;
            if run1 == 62 || pixels.len() == 1 {
                seq![crate::OP_RUN | ((run1 - 1) as u8)] + encode_pixels(
                    pixels.skip(1),
                    prev,
                    cache,
                    0,
                )
            } else {
                encode_pixels(pixels.skip(1), prev, cache, run1)
            }
        } else {
            let flush: Seq<u8> = if run > 0 {
                seq![crate::OP_RUN | ((run - 1) as u8)]
            } else {
                Seq::empty()
            };
            flush + encode_px(p, prev, cache) + encode_pixels(
                pixels.skip(1),
                p,
                cache_after_px(p, cache),
                0,
            )
        }
    }
}

/// The pixel at index `i` of the sample buffer, normalized to four channels:
/// alpha is 255 unless the buffer itself carries four channels.
pub open spec fn pixel_at(data: Seq<u8>, channels: u8, i: int) -> Pixel {
    Pixel {
        r: data[i * channels],
        g: data[i * channels + 1],
        b: data[i * channels + 2],
        a: if channels == 4 {
            data[i * channels + 3]
        } else {
            255
        },
    }
}

/// The sample buffer read as a sequence of normalized pixels.
pub open spec fn pixels_of(data: Seq<u8>, channels: u8) -> Seq<Pixel> {
    Seq::new((data.len() / channels as nat) as nat, |i: int| pixel_at(data, channels, i))
}

/// The bytes one pixel contributes to a decoded sample buffer: alpha is
/// dropped when the header asks for three channels.
pub open spec fn px_bytes(p: Pixel, channels: u8) -> Seq<u8> {
    if channels == 3 {
        seq![p.r, p.g, p.b]
    } else {
        seq![p.r, p.g, p.b, p.a]
    }
}

/// The sample buffer a sequence of decoded pixels flattens to.
pub open spec fn flatten_px(pixels: Seq<Pixel>, channels: u8) -> Seq<u8>
    decreases pixels.len(),
{
    if pixels.len() == 0 {
        Seq::empty()
    } else {
        px_bytes(pixels[0], channels) + flatten_px(pixels.skip(1), channels)
    }
}

/// The serialized 14-byte header of an image.
pub open spec fn header_bytes(m: crate::ImageModel) -> Seq<u8> {
    magic_seq() + u32_be_bytes(m.width) + u32_be_bytes(m.height) + seq![m.channels, m.colorspace]
}

/// The full serialized stream an image encodes to.
pub open spec fn encode_model(m: crate::ImageModel) -> Seq<u8> {
    header_bytes(m) + encode_pixels(pixels_of(m.data, m.channels), init_pixel(), zero_cache(), 0)
        + end_marker()
}

/// What a byte buffer decodes to: the reconstructed image, or the error the
/// buffer is rejected with.
pub open spec fn decode_model(data: Seq<u8>) -> Result<crate::ImageModel, crate::ParseError> {
    if data.len() < 22 {
        Err(crate::ParseError::TruncatedFile)
    } else if data.subrange(0, 4) != magic_seq() {
        Err(crate::ParseError::InvalidMagic)
    } else if data.subrange(data.len() - 8, data.len() as int) != end_marker() {
        Err(crate::ParseError::TruncatedFile)
    } else {
        match decode_ops(data.subrange(14, data.len() - 8), init_pixel(), zero_cache()) {
            Some(pixels) => Ok(
                crate::ImageModel {
                    width: be32_at(data, 4) as u32,
                    height: be32_at(data, 8) as u32,
                    channels: data[12],
                    colorspace: data[13],
                    data: flatten_px(pixels, data[12]),
                },
            ),
            None => Err(crate::ParseError::TruncatedFile),
        }
    }
}

/// Flattening distributes over appending one pixel.
pub proof fn lemma_flatten_push(pixels: Seq<Pixel>, p: Pixel, channels: u8)
    ensures
        flatten_px(pixels.push(p), channels) == flatten_px(pixels, channels) + px_bytes(
            p,
            channels,
        ),
    decreases pixels.len(),
{
    if pixels.len() == 0 {
        assert(pixels.push(p)[0] == p);
        assert(pixels.push(p).skip(1) =~= Seq::<Pixel>::empty());
        assert(flatten_px(Seq::<Pixel>::empty(), channels) == Seq::<u8>::empty());
        assert(flatten_px(pixels.push(p), channels) == px_bytes(p, channels) + Seq::<u8>::empty());
        assert(px_bytes(p, channels) + Seq::<u8>::empty() =~= Seq::<u8>::empty() + px_bytes(
            p,
            channels,
        ));
        assert(flatten_px(pixels, channels) == Seq::<u8>::empty());
    } else {
        assert(pixels.push(p).skip(1) =~= pixels.skip(1).push(p));
        lemma_flatten_push(pixels.skip(1), p, channels);
        assert(pixels.push(p)[0] == pixels[0]);
        assert(flatten_px(pixels.push(p), channels) == px_bytes(pixels[0], channels) + flatten_px(
            pixels.skip(1).push(p),
            channels,
        ));
        assert(flatten_px(pixels, channels) == px_bytes(pixels[0], channels) + flatten_px(
            pixels.skip(1),
            channels,
        ));
        assert(px_bytes(pixels[0], channels) + (flatten_px(pixels.skip(1), channels) + px_bytes(
            p,
            channels,
        )) =~= (px_bytes(pixels[0], channels) + flatten_px(pixels.skip(1), channels)) + px_bytes(
            p,
            channels,
        ));
    }
}

/// The run opcodes that encode `n` consecutive repeats of the previous
/// pixel: full runs of 62 first, then one opcode for the remainder.
pub open spec fn run_ops(n: nat) -> Seq<u8>
    decreases n,
{
    if n == 0 {
        Seq::empty()
    } else if n <= 62 {
        seq![crate::OP_RUN | ((n - 1) as u8)]
    } else {
        seq![crate::OP_RUN | 61u8] + run_ops((n - 62) as nat)
    }
}

/// One encoding step on a pixel that repeats the previous one: the run
/// counter grows, and is flushed as a run opcode when it reaches 62 or the
/// input ends.
pub proof fn lemma_encode_step_repeat(rem: Seq<Pixel>, prev: Pixel, cache: Seq<Pixel>, run: u8)
    requires
        rem.len() > 0,
        rem[0] == prev,
        run < 62,
    ensures
        run + 1 == 62 || rem.len() == 1 ==> encode_pixels(rem, prev, cache, run as nat) == seq![
            crate::OP_RUN | run,
        ] + encode_pixels(rem.skip(1), prev, cache, 0),
        !(run + 1 == 62 || rem.len() == 1) ==> encode_pixels(rem, prev, cache, run as nat)
            == encode_pixels(rem.skip(1), prev, cache, (run + 1) as nat),
{
    assert(((run as nat) + 1 - 1) as u8 == run);
}

/// One encoding step on a pixel that differs from the previous one: any
/// pending run is flushed, then the pixel's own opcode follows.
pub proof fn lemma_encode_step_new(rem: Seq<Pixel>, prev: Pixel, cache: Seq<Pixel>, run: u8)
    requires
        rem.len() > 0,
        rem[0] != prev,
        run < 62,
    ensures
        encode_pixels(rem, prev, cache, run as nat) == (if run > 0 {
            seq![crate::OP_RUN | ((run - 1) as u8)]
        } else {
            Seq::<u8>::empty()
        }) + encode_px(rem[0], prev, cache) + encode_pixels(
            rem.skip(1),
            rem[0],
            cache_after_px(rem[0], cache),
            0,
        ),
{
}

/// The hash of every pixel is a cache slot.
pub proof fn lemma_hash_bound(p: Pixel)
    ensures
        0 <= hash_spec(p) < 64,
{
    assert(0 <= p.r * 3 + p.g * 5 + p.b * 7 + p.a * 11);
}

} // verus!
