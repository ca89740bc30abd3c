//! Encoding: from a raw pixel buffer to the serialized byte stream.

use vstd::prelude::*;
use crate::model;
use crate::{Image, Pixel};

verus! {

/// The two-bit-per-channel delta opcode for the given wrapping channel
/// deltas, if every delta fits.
fn diff(r: u8, g: u8, b: u8) -> (res: Option<u8>)
    ensures
        res == model::diff_spec(r, g, b),
{
    let dr = r.wrapping_add(2);
    let dg = g.wrapping_add(2);
    let db = b.wrapping_add(2);
    if dr <= 3 && dg <= 3 && db <= 3 {
        Some(crate::OP_DIFF | (dr << 4) | (dg << 2) | db)
    } else {
        None
    }
}

/// The two-byte luma-biased delta opcode for the given wrapping channel
/// deltas, if they fit its ranges.
fn luma(r: u8, g: u8, b: u8) -> (res: Option<(u8, u8)>)
    ensures
        res is Some <==> model::luma_spec(r, g, b) is Some,
        res matches Some(t) ==> seq![t.0, t.1] == model::luma_spec(r, g, b)->0,
{
    let drg = r.wrapping_add(8).wrapping_sub(g);
    let dg32 = g.wrapping_add(32);
    let dbg = b.wrapping_add(8).wrapping_sub(g);
    if drg <= 0x0F && dbg <= 0x0F && dg32 <= 0x3F {
        proof {
            assert(seq![crate::OP_LUMA | dg32, (drg << 4) | dbg] == model::luma_spec(r, g, b)->0);
        }
        Some((crate::OP_LUMA | dg32, (drg << 4) | dbg))
    } else {
        None
    }
}

/// Append the four big-endian bytes of a 32-bit value.
fn push_be32(out: &mut Vec<u8>, w: u32)
    ensures
        final(out)@ == old(out)@ + model::u32_be_bytes(w),
{
    proof {
        assert((w >> 24) & 0xFF < 256 && (w >> 16) & 0xFF < 256 && (w >> 8) & 0xFF < 256 && w
            & 0xFF < 256) by (bit_vector);
    }
    out.push(((w >> 24) & 0xFF) as u8);
    out.push(((w >> 16) & 0xFF) as u8);
    out.push(((w >> 8) & 0xFF) as u8);
    out.push((w & 0xFF) as u8);
    proof {
        assert(out@ =~= old(out)@ + model::u32_be_bytes(w));
    }
}

/// Emit the opcode for one pixel that is not a repeat of the previous one:
/// a cache-index byte on a cache hit, else the pixel enters the cache and a
/// delta, luma, or literal opcode is chosen, in that preference order.
fn encode_one(output: &mut Vec<u8>, px: Pixel, prev: Pixel, cache: &mut Vec<Pixel>)
    requires
        old(cache)@.len() == 64,
    ensures
        final(cache)@ == model::cache_after_px(px, old(cache)@),
        final(cache)@.len() == 64,
        final(output)@ == old(output)@ + model::encode_px(px, prev, old(cache)@),
{
    proof {
        model::lemma_hash_bound(px);
    }
    let index = crate::hash(px);
    if cache[index] == px {
        output.push(index as u8);
    } else {
        cache[index] = px;
        if px.a == prev.a {
            let dr = px.r.wrapping_sub(prev.r);
            let dg = px.g.wrapping_sub(prev.g);
            let db = px.b.wrapping_sub(prev.b);
            match diff(dr, dg, db) {
                Some(byte) => {
                    output.push(byte);
                },
                None => {
                    match luma(dr, dg, db) {
                        Some(t) => {
                            output.push(t.0);
                            output.push(t.1);
                        },
                        None => {
                            output.push(crate::OP_RGB);
                            output.push(px.r);
                            output.push(px.g);
                            output.push(px.b);
                        },
                    }
                },
            }
        } else {
            output.push(crate::OP_RGBA);
            output.push(px.r);
            output.push(px.g);
            output.push(px.b);
            output.push(px.a);
        }
    }
    proof {
        assert(output@ =~= old(output)@ + model::encode_px(px, prev, old(cache)@));
    }
}

/// Serialize an image, per [`model::encode_model`]: the 14-byte header, then
/// for each pixel a run, cache-index, delta, luma, or literal opcode — in
/// that preference order — then the fixed end marker.  The caller vouches
/// that the sample buffer matches the declared dimensions and channel count.
#[verifier::loop_isolation(false)]
#[verifier::rlimit(100)]
pub fn encode(input: &Image) -> (r: Vec<u8>)
    requires
        input.channels == 3 || input.channels == 4,
        input@.data.len() == input@.width * input@.height * input@.channels,
    ensures
        r@ == model::encode_model(input@),
{
    let mut output: Vec<u8> = Vec::new();
    output.push(0x71);
    output.push(0x6F);
    output.push(0x69);
    output.push(0x66);
    push_be32(&mut output, input.width);
    push_be32(&mut output, input.height);
    output.push(input.channels);
    output.push(input.colorspace);
    let ghost header = output@;
    proof {
        assert(header =~= model::header_bytes(input@));
    }
    let ghost pixels = model::pixels_of(input@.data, input.channels);
    let ghost e_all = model::encode_pixels(pixels, model::init_pixel(), model::zero_cache(), 0);
    let channels = input.channels as usize;
    let n_px = input.data.len() / channels;
    proof {
        vstd::arithmetic::div_mod::lemma_mod_multiples_basic(
            input@.width * input@.height,
            channels as int,
        );
        vstd::arithmetic::div_mod::lemma_fundamental_div_mod(
            input@.data.len() as int,
            channels as int,
        );
        assert(input@.data.len() == n_px * channels);
        assert(pixels.len() == n_px);
    }
    let mut prev = Pixel { r: 0, g: 0, b: 0, a: 255 };
    let mut cache: Vec<Pixel> = crate::new_cache();
    let mut run_length: u8 = 0;
    let mut i: usize = 0;
    let ghost mut emitted: Seq<u8> = Seq::empty();
    proof {
        assert(pixels.skip(0) =~= pixels);
        assert(Seq::<u8>::empty() + e_all =~= e_all);
    }
    while i < n_px
        invariant
            i <= n_px,
            cache@.len() == 64,
            run_length < 62,
            run_length > 0 ==> i < n_px,
            output@ == header + emitted,
            e_all == emitted + model::encode_pixels(
                pixels.skip(i as int),
                prev,
                cache@,
                run_length as nat,
            ),
        decreases n_px - i,
    {
        let ghost prev0 = prev;
        let ghost cache_s = cache@;
        let ghost run0 = run_length;
        let ghost em0 = emitted;
        let ghost rem = pixels.skip(i as int);
        let base = i * channels;
        proof {
            assert((i + 1) * channels <= n_px * channels) by (nonlinear_arith)
                requires
                    i + 1 <= n_px,
                    channels >= 0,
            ;
            assert(base == i * channels);
            assert(rem[0] == pixels[i as int]);
            assert(rem.skip(1) =~= pixels.skip(i as int + 1));
        }
        let px = Pixel {
            r: input.data[base],
            g: input.data[base + 1],
            b: input.data[base + 2],
            a: if channels == 4 {
                input.data[base + 3]
            } else {
                255
            },
        };
        proof {
            assert(px == model::pixel_at(input@.data, input.channels, i as int));
        }
        if px == prev {
            proof {
                model::lemma_encode_step_repeat(rem, prev0, cache_s, run0);
            }
            run_length = run_length + 1;
            if run_length == 62 || i == n_px - 1 {
                output.push(crate::OP_RUN | (run_length - 1));
                proof {
                    emitted = em0 + seq![crate::OP_RUN | run0];
                    assert(output@ =~= header + emitted);
                    assert(em0 + (seq![crate::OP_RUN | run0] + model::encode_pixels(
                        rem.skip(1),
                        prev0,
                        cache_s,
                        0,
                    )) =~= emitted + model::encode_pixels(rem.skip(1), prev0, cache_s, 0));
                }
                run_length = 0;
            }
        } else {
            proof {
                model::lemma_encode_step_new(rem, prev0, cache_s, run0);
            }
            let ghost flush: Seq<u8> = if run0 > 0 {
                seq![crate::OP_RUN | ((run0 - 1) as u8)]
            } else {
                Seq::empty()
            };
            if run_length > 0 {
                output.push(crate::OP_RUN | (run_length - 1));
                run_length = 0;
            }
            let ghost one = model::encode_px(px, prev0, cache_s);
            encode_one(&mut output, px, prev, &mut cache);
            prev = px;
            proof {
                assert(output@ =~= (header + em0) + (flush + one));
                emitted = em0 + flush + one;
                assert(output@ =~= header + emitted);
                assert(em0 + ((flush + one) + model::encode_pixels(rem.skip(1), px, cache@, 0))
                    =~= emitted + model::encode_pixels(rem.skip(1), px, cache@, 0));
            }
        }
        i = i + 1;
    }
    proof {
        assert(pixels.skip(n_px as int) =~= Seq::<Pixel>::empty());
        assert(model::encode_pixels(pixels.skip(n_px as int), prev, cache@, run_length as nat)
            == Seq::<u8>::empty());
        assert(emitted + Seq::<u8>::empty() =~= emitted);
        assert(e_all == emitted);
    }
    output.push(0);
    output.push(0);
    output.push(0);
    output.push(0);
    output.push(0);
    output.push(0);
    output.push(0);
    output.push(1);
    proof {
        assert(output@ =~= (header + emitted) + model::end_marker());
        assert(output@ =~= model::encode_model(input@));
    }
    output
}

} // verus!
