//! The laws the codec obeys, proved over the model: every encoded stream
//! decodes back to the pixels it came from, the cache stays consistent, and
//! long runs split into bounded run opcodes.

use vstd::prelude::*;
use crate::model;
use crate::Pixel;

verus! {

/// Wrapping addition and subtraction of the same byte cancel.
proof fn lemma_wrap_cancel(a: u8, b: u8)
    ensures
        model::wadd(b, model::wsub(a, b)) == a,
        model::wsub(model::wadd(a, b), b) == a,
{
}

/// Decoding the opcode of one non-repeat pixel yields exactly that pixel and
/// leaves the decoder in the state the encoder moved to.
#[verifier::rlimit(100)]
#[verifier::spinoff_prover]
proof fn lemma_decode_one(p: Pixel, prev: Pixel, cache: Seq<Pixel>, tail: Seq<u8>)
    requires
        cache.len() == 64,
    ensures
        model::decode_ops(model::encode_px(p, prev, cache) + tail, prev, cache) == (match model::decode_ops(
            tail,
            p,
            model::cache_after_px(p, cache),
        ) {
            Some(rest) => Some(seq![p] + rest),
            None => None,
        }),
{
    let one = model::encode_px(p, prev, cache);
    let mid = one + tail;
    let idx = model::hash_spec(p);
    model::lemma_hash_bound(p);
    if cache[idx] == p {
        let b0 = idx as u8;
        assert(one == seq![b0]);
        assert(mid[0] == b0);
        assert(b0 != 0xFE && b0 != 0xFF && b0 & 0xC0 == 0x00 && (b0 & 0x3F) == b0) by (bit_vector)
            requires
                b0 < 64u8,
        ;
        assert(mid.skip(1) =~= tail);
        assert(cache[(b0 & 0x3F) as int] == p);
    } else if p.a == prev.a {
        let dr = model::wsub(p.r, prev.r);
        let dg = model::wsub(p.g, prev.g);
        let db = model::wsub(p.b, prev.b);
        lemma_wrap_cancel(p.r, prev.r);
        lemma_wrap_cancel(p.g, prev.g);
        lemma_wrap_cancel(p.b, prev.b);
        if model::diff_spec(dr, dg, db) is Some {
            let dr2 = model::wadd(dr, 2);
            let dg2 = model::wadd(dg, 2);
            let db2 = model::wadd(db, 2);
            let b0 = crate::OP_DIFF | (dr2 << 4) | (dg2 << 2) | db2;
            assert(one == seq![b0]);
            assert(mid[0] == b0);
            assert(b0 != 0xFE && b0 != 0xFF && b0 & 0xC0 == 0x40 && ((b0 >> 4) & 0x3) == dr2 && ((
            b0 >> 2) & 0x3) == dg2 && (b0 & 0x3) == db2) by (bit_vector)
                requires
                    b0 == 0x40u8 | (dr2 << 4) | (dg2 << 2) | db2,
                    dr2 <= 3u8,
                    dg2 <= 3u8,
                    db2 <= 3u8,
            ;
            lemma_wrap_cancel(dr, 2);
            lemma_wrap_cancel(dg, 2);
            lemma_wrap_cancel(db, 2);
            let q = Pixel {
                r: model::wadd(prev.r, model::wsub((b0 >> 4) & 0x3, 2)),
                g: model::wadd(prev.g, model::wsub((b0 >> 2) & 0x3, 2)),
                b: model::wadd(prev.b, model::wsub(b0 & 0x3, 2)),
                a: prev.a,
            };
            assert(q == p);
            assert(mid.skip(1) =~= tail);
            assert(model::cache_update(cache, q) == model::cache_after_px(p, cache));
        } else if model::luma_spec(dr, dg, db) is Some {
            let drg = model::wsub(model::wadd(dr, 8), dg);
            let dg32 = model::wadd(dg, 32);
            let dbg = model::wsub(model::wadd(db, 8), dg);
            let b0 = crate::OP_LUMA | dg32;
            let b1 = (drg << 4) | dbg;
            assert(one == seq![b0, b1]);
            assert(mid[0] == b0);
            assert(mid[1] == b1);
            assert(b0 != 0xFE && b0 != 0xFF && b0 & 0xC0 == 0x80 && (b0 & 0x3F) == dg32) by (bit_vector)
                requires
                    b0 == 0x80u8 | dg32,
                    dg32 <= 0x3Fu8,
            ;
            assert((b1 >> 4) == drg && (b1 & 0x0F) == dbg) by (bit_vector)
                requires
                    b1 == (drg << 4) | dbg,
                    drg <= 0x0Fu8,
                    dbg <= 0x0Fu8,
            ;
            assert(model::wsub(dg32, 32) == dg);
            assert(model::wadd(model::wsub(drg, 8), dg) == dr);
            assert(model::wadd(model::wsub(dbg, 8), dg) == db);
            let q = Pixel {
                r: model::wadd(prev.r, dr),
                g: model::wadd(prev.g, dg),
                b: model::wadd(prev.b, db),
                a: prev.a,
            };
            assert(q == p);
            assert(mid.len() >= 2);
            assert(mid.skip(2) =~= tail);
            assert(model::cache_update(cache, q) == model::cache_after_px(p, cache));
        } else {
            assert(one == seq![crate::OP_RGB, p.r, p.g, p.b]);
            assert(mid[0] == crate::OP_RGB);
            assert(mid[1] == p.r);
            assert(mid[2] == p.g);
            assert(mid[3] == p.b);
            assert(mid.len() >= 4);
            let q = Pixel { r: p.r, g: p.g, b: p.b, a: prev.a };
            assert(q == p);
            assert(mid.skip(4) =~= tail);
            assert(model::cache_update(cache, q) == model::cache_after_px(p, cache));
        }
    } else {
        assert(one == seq![crate::OP_RGBA, p.r, p.g, p.b, p.a]);
        assert(mid[0] == crate::OP_RGBA);
        assert(mid[1] == p.r);
        assert(mid[2] == p.g);
        assert(mid[3] == p.b);
        assert(mid[4] == p.a);
        assert(mid.len() >= 5);
        let q = Pixel { r: p.r, g: p.g, b: p.b, a: p.a };
        assert(q == p);
        assert(mid.skip(5) =~= tail);
        assert(model::cache_update(cache, q) == model::cache_after_px(p, cache));
    }
}

/// Decoding inverts encoding, state by state: from matching decoder and
/// encoder states, the bytes that encode the remaining pixels decode to the
/// pending repeats of the previous pixel followed by those pixels.
#[verifier::rlimit(100)]
#[verifier::spinoff_prover]
pub proof fn lemma_encode_decode(pixels: Seq<Pixel>, prev: Pixel, cache: Seq<Pixel>, run: u8)
    requires
        cache.len() == 64,
        run < 62,
        run > 0 ==> pixels.len() > 0,
    ensures
        model::decode_ops(model::encode_pixels(pixels, prev, cache, run as nat), prev, cache)
            == Some(Seq::new(run as nat, |i: int| prev) + pixels),
    decreases pixels.len(),
{
    let bytes = model::encode_pixels(pixels, prev, cache, run as nat);
    if pixels.len() == 0 {
        assert(bytes == Seq::<u8>::empty());
        assert(Seq::new(run as nat, |i: int| prev) + pixels =~= Seq::<Pixel>::empty());
    } else {
        let p = pixels[0];
        let skip1 = pixels.skip(1);
        if p == prev {
            model::lemma_encode_step_repeat(pixels, prev, cache, run);
            if run + 1 == 62 || pixels.len() == 1 {
                lemma_encode_decode(skip1, prev, cache, 0);
                let tail = model::encode_pixels(skip1, prev, cache, 0);
                let b0 = crate::OP_RUN | run;
                assert(bytes == seq![b0] + tail);
                assert(b0 != 0xFE && b0 != 0xFF && b0 & 0xC0 == 0xC0 && (b0 & 0x3F) == run)
                    by (bit_vector)
                    requires
                        b0 == 0xC0u8 | run,
                        run < 62u8,
                ;
                assert(bytes[0] == b0);
                assert(bytes.skip(1) =~= tail);
                assert(Seq::new(0, |i: int| prev) + skip1 =~= skip1);
                assert(model::decode_ops(bytes, prev, cache) == Some(
                    Seq::new((run + 1) as nat, |i: int| prev) + skip1,
                ));
                assert(Seq::new((run + 1) as nat, |i: int| prev) + skip1 =~= Seq::new(
                    run as nat,
                    |i: int| prev,
                ) + pixels);
            } else {
                lemma_encode_decode(skip1, prev, cache, (run + 1) as u8);
                assert(bytes == model::encode_pixels(skip1, prev, cache, (run + 1) as nat));
                assert(Seq::new((run + 1) as nat, |i: int| prev) + skip1 =~= Seq::new(
                    run as nat,
                    |i: int| prev,
                ) + pixels);
            }
        } else {
            model::lemma_encode_step_new(pixels, prev, cache, run);
            let one = model::encode_px(p, prev, cache);
            let cache2 = model::cache_after_px(p, cache);
            let tail = model::encode_pixels(skip1, p, cache2, 0);
            assert(cache2.len() == 64);
            lemma_encode_decode(skip1, p, cache2, 0);
            assert(Seq::new(0, |i: int| p) + skip1 =~= skip1);
            lemma_decode_one(p, prev, cache, tail);
            let mid = one + tail;
            assert(model::decode_ops(mid, prev, cache) == Some(seq![p] + skip1));
            if run > 0 {
                let fb = crate::OP_RUN | ((run - 1) as u8);
                assert(bytes =~= seq![fb] + mid);
                assert(fb != 0xFE && fb != 0xFF && fb & 0xC0 == 0xC0 && (fb & 0x3F) + 1 == run)
                    by (bit_vector)
                    requires
                        fb == 0xC0u8 | ((run - 1) as u8),
                        0 < run < 62u8,
                ;
                assert(bytes[0] == fb);
                assert(bytes.skip(1) =~= mid);
                assert(model::decode_ops(bytes, prev, cache) == Some(
                    Seq::new(run as nat, |i: int| prev) + (seq![p] + skip1),
                ));
                assert(Seq::new(run as nat, |i: int| prev) + (seq![p] + skip1) =~= Seq::new(
                    run as nat,
                    |i: int| prev,
                ) + pixels);
            } else {
                assert(bytes =~= mid);
                assert(Seq::new(run as nat, |i: int| prev) + pixels =~= seq![p] + skip1);
            }
        }
    }
}

/// Reading the four big-endian bytes of a 32-bit value back gives the value.
proof fn lemma_be32_at(data: Seq<u8>, i: int, w: u32)
    requires
        0 <= i,
        i + 4 <= data.len(),
        data[i] == model::u32_be_bytes(w)[0],
        data[i + 1] == model::u32_be_bytes(w)[1],
        data[i + 2] == model::u32_be_bytes(w)[2],
        data[i + 3] == model::u32_be_bytes(w)[3],
    ensures
        model::be32_at(data, i) == w,
{
    let b0 = ((w >> 24) & 0xFF) as u8;
    let b1 = ((w >> 16) & 0xFF) as u8;
    let b2 = ((w >> 8) & 0xFF) as u8;
    let b3 = (w & 0xFF) as u8;
    assert(b0 * 0x1000000 + b1 * 0x10000 + b2 * 0x100 + b3 == w) by (bit_vector)
        requires
            b0 == ((w >> 24) & 0xFF) as u8,
            b1 == ((w >> 16) & 0xFF) as u8,
            b2 == ((w >> 8) & 0xFF) as u8,
            b3 == (w & 0xFF) as u8,
    ;
}

/// Chunking a sample buffer into normalized pixels and flattening them back
/// reproduces the buffer.
proof fn lemma_pixels_flatten_id(data: Seq<u8>, ch: u8)
    requires
        ch == 3 || ch == 4,
        data.len() as int % (ch as int) == 0,
    ensures
        model::flatten_px(model::pixels_of(data, ch), ch) == data,
    decreases data.len(),
{
    let pixels = model::pixels_of(data, ch);
    if data.len() == 0 {
        assert(pixels.len() == 0);
        assert(data =~= Seq::<u8>::empty());
    } else {
        let q = data.len() as int / ch as int;
        vstd::arithmetic::div_mod::lemma_fundamental_div_mod(data.len() as int, ch as int);
        assert(data.len() == (ch as int) * q);
        assert(q >= 1 && data.len() >= ch) by (nonlinear_arith)
            requires
                data.len() > 0,
                data.len() == (ch as int) * q,
                3 <= ch as int <= 4,
        ;
        let tail = data.skip(ch as int);
        assert(tail.len() == (ch as int) * (q - 1)) by (nonlinear_arith)
            requires
                tail.len() == data.len() - ch as int,
                data.len() == (ch as int) * q,
        ;
        assert(tail.len() as int % (ch as int) == 0) by {
            vstd::arithmetic::div_mod::lemma_mod_multiples_basic(q - 1, ch as int);
            assert((ch as int) * (q - 1) == (q - 1) * (ch as int)) by (nonlinear_arith);
        }
        lemma_pixels_flatten_id(tail, ch);
        vstd::arithmetic::div_mod::lemma_div_multiples_vanish(q - 1, ch as int);
        assert(model::pixels_of(tail, ch).len() == q - 1);
        assert(pixels.len() == q);
        assert forall|j: int| 0 <= j < q - 1 implies pixels.skip(1)[j] == model::pixels_of(
            tail,
            ch,
        )[j] by {
            assert((j + 1) * (ch as int) == j * (ch as int) + ch as int) by (nonlinear_arith);
            assert(0 <= j * (ch as int) && (j + 1) * (ch as int) + ch as int <= data.len())
                by (nonlinear_arith)
                requires
                    0 <= j < q - 1,
                    data.len() == (ch as int) * q,
                    3 <= ch as int <= 4,
            ;
            assert(model::pixel_at(data, ch, j + 1) == model::pixel_at(tail, ch, j));
        }
        assert(pixels.skip(1) =~= model::pixels_of(tail, ch));
        assert(model::px_bytes(pixels[0], ch) =~= data.subrange(0, ch as int));
        assert(model::flatten_px(pixels, ch) == model::px_bytes(pixels[0], ch) + model::flatten_px(
            pixels.skip(1),
            ch,
        ));
        assert(model::px_bytes(pixels[0], ch) + tail =~= data);
    }
}

/// Decoding an encoded image reproduces the image exactly: its dimensions,
/// channel count, colorspace tag, and sample buffer.
pub proof fn lemma_round_trip_image(m: crate::ImageModel)
    requires
        m.channels == 3 || m.channels == 4,
        m.data.len() == m.width * m.height * m.channels,
    ensures
        model::decode_model(model::encode_model(m)) == Ok::<crate::ImageModel, crate::ParseError>(
            m,
        ),
{
    let bytes = model::encode_model(m);
    let header = model::header_bytes(m);
    let pixels = model::pixels_of(m.data, m.channels);
    let ops = model::encode_pixels(pixels, model::init_pixel(), model::zero_cache(), 0);
    let end = model::end_marker();
    assert(header.len() == 14);
    assert(bytes.len() == 14 + ops.len() + 8);
    assert(bytes.subrange(0, 4) =~= model::magic_seq());
    assert(bytes.subrange(bytes.len() - 8, bytes.len() as int) =~= end);
    assert(bytes.subrange(14, bytes.len() - 8) =~= ops);
    lemma_encode_decode(pixels, model::init_pixel(), model::zero_cache(), 0);
    assert(Seq::new(0, |i: int| model::init_pixel()) + pixels =~= pixels);
    assert(model::decode_ops(ops, model::init_pixel(), model::zero_cache()) == Some(pixels));
    assert(bytes[12] == m.channels);
    assert(bytes[13] == m.colorspace);
    assert(bytes[4] == model::u32_be_bytes(m.width)[0] && bytes[5] == model::u32_be_bytes(
        m.width,
    )[1] && bytes[6] == model::u32_be_bytes(m.width)[2] && bytes[7] == model::u32_be_bytes(
        m.width,
    )[3]);
    lemma_be32_at(bytes, 4, m.width);
    assert(bytes[8] == model::u32_be_bytes(m.height)[0] && bytes[9] == model::u32_be_bytes(
        m.height,
    )[1] && bytes[10] == model::u32_be_bytes(m.height)[2] && bytes[11] == model::u32_be_bytes(
        m.height,
    )[3]);
    lemma_be32_at(bytes, 8, m.height);
    assert(m.data.len() as int % (m.channels as int) == 0) by {
        vstd::arithmetic::div_mod::lemma_mod_multiples_basic(
            m.width * m.height,
            m.channels as int,
        );
    }
    lemma_pixels_flatten_id(m.data, m.channels);
    let dm = model::decode_model(bytes);
    assert(dm is Ok);
    assert(dm->Ok_0 =~= m);
}

/// A canonically encoded stream re-encodes to itself: decoding the output of
/// the encoder and encoding the result reproduces the byte stream.
pub proof fn lemma_round_trip_bytes(m: crate::ImageModel)
    requires
        m.channels == 3 || m.channels == 4,
        m.data.len() == m.width * m.height * m.channels,
    ensures
        model::decode_model(model::encode_model(m)) matches Ok(d) && model::encode_model(d)
            == model::encode_model(m),
{
    lemma_round_trip_image(m);
}

/// Malformed input: a buffer too short for the header and end marker is
/// rejected as truncated; one long enough but with wrong magic bytes is
/// rejected as invalid; one with good magic but no trailing end marker is
/// rejected as truncated.
pub proof fn lemma_malformed_input(data: Seq<u8>)
    ensures
        data.len() < 22 ==> model::decode_model(data) == Err::<crate::ImageModel, crate::ParseError>(
            crate::ParseError::TruncatedFile,
        ),
        data.len() >= 22 && data.subrange(0, 4) != model::magic_seq() ==> model::decode_model(data)
            == Err::<crate::ImageModel, crate::ParseError>(crate::ParseError::InvalidMagic),
        data.len() >= 22 && data.subrange(0, 4) == model::magic_seq() && data.subrange(
            data.len() - 8,
            data.len() as int,
        ) != model::end_marker() ==> model::decode_model(data) == Err::<
            crate::ImageModel,
            crate::ParseError,
        >(crate::ParseError::TruncatedFile),
{
}

/// After an opcode stores a newly formed pixel, the cache slot selected by
/// the pixel's hash holds exactly that pixel.
pub proof fn lemma_cache_consistency(cache: Seq<Pixel>, p: Pixel)
    requires
        cache.len() == 64,
    ensures
        model::cache_update(cache, p)[model::hash_spec(p)] == p,
{
    model::lemma_hash_bound(p);
}

/// Every byte of `run_ops` is a run opcode with a count of at most 62, and
/// more than 62 repeats take at least two opcodes.
proof fn lemma_run_ops_bounded(n: nat)
    ensures
        forall|j: int|
            0 <= j < model::run_ops(n).len() ==> ((#[trigger] model::run_ops(n)[j]) & 0xC0 == 0xC0
                && (model::run_ops(n)[j] & 0x3F) + 1 <= 62),
        n > 0 ==> model::run_ops(n).len() >= 1,
        n > 62 ==> model::run_ops(n).len() >= 2,
        model::run_ops(n).len() == (n + 61) / 62,
    decreases n,
{
    if n == 0 {
        vstd::arithmetic::div_mod::lemma_basic_div(61, 62);
    } else if n <= 62 {
        vstd::arithmetic::div_mod::lemma_div_plus_one(n - 1, 62);
        vstd::arithmetic::div_mod::lemma_basic_div(n - 1, 62);
        let k = (n - 1) as u8;
        let b = crate::OP_RUN | k;
        assert(b & 0xC0 == 0xC0 && (b & 0x3F) + 1 <= 62) by (bit_vector)
            requires
                b == 0xC0u8 | k,
                k <= 61u8,
        ;
    } else {
        lemma_run_ops_bounded((n - 62) as nat);
        vstd::arithmetic::div_mod::lemma_div_plus_one(n - 1, 62);
        let b = crate::OP_RUN | 61u8;
        assert(b & 0xC0 == 0xC0 && (b & 0x3F) + 1 <= 62) by (bit_vector)
            requires
                b == 0xC0u8 | 61u8,
        ;
        assert(forall|j: int|
            1 <= j < model::run_ops(n).len() ==> model::run_ops(n)[j] == model::run_ops(
                (n - 62) as nat,
            )[j - 1]);
        assert(model::run_ops(n)[0] == b);
    }
}

/// A sequence of `n` repeats of the previous pixel, entered with a pending
/// run of `run`, encodes to the run opcodes for `run + n` repeats.
proof fn lemma_run_encoding_inner(p: Pixel, cache: Seq<Pixel>, n: nat, run: u8)
    requires
        run < 62,
        n == 0 ==> run == 0,
    ensures
        model::encode_pixels(Seq::new(n, |i: int| p), p, cache, run as nat) == model::run_ops(
            (run + n) as nat,
        ),
    decreases n,
{
    let pixels = Seq::new(n, |i: int| p);
    if n == 0 {
    } else {
        assert(pixels[0] == p);
        assert(pixels.skip(1) =~= Seq::new((n - 1) as nat, |i: int| p));
        model::lemma_encode_step_repeat(pixels, p, cache, run);
        if run + 1 == 62 || n == 1 {
            lemma_run_encoding_inner(p, cache, (n - 1) as nat, 0);
            if n == 1 {
                assert(model::run_ops((run + 1) as nat) == seq![crate::OP_RUN | run]);
                assert(seq![crate::OP_RUN | run] + Seq::<u8>::empty() =~= seq![crate::OP_RUN | run]);
            } else {
                assert(run == 61);
                assert(model::run_ops((run + n) as nat) == seq![crate::OP_RUN | 61u8]
                    + model::run_ops((n - 1) as nat));
            }
        } else {
            lemma_run_encoding_inner(p, cache, (n - 1) as nat, (run + 1) as u8);
            assert((run + 1) + (n - 1) == run + n);
        }
    }
}

/// Run coalescing: `n` consecutive repeats of the previous pixel become a
/// chain of exactly `ceil(n / 62)` run opcodes, each covering at most 62
/// repeats, so 63 or more repeats are split across several opcodes; the
/// opcodes' counts add back up to `n`, since decoding them emits the pixel
/// exactly `n` times.
pub proof fn lemma_run_coalescing(p: Pixel, cache: Seq<Pixel>, n: nat)
    ensures
        model::encode_pixels(Seq::new(n, |i: int| p), p, cache, 0) == model::run_ops(n),
        forall|j: int|
            0 <= j < model::run_ops(n).len() ==> ((#[trigger] model::run_ops(n)[j]) & 0xC0 == 0xC0
                && (model::run_ops(n)[j] & 0x3F) + 1 <= 62),
        model::run_ops(n).len() == (n + 61) / 62,
        n > 62 ==> model::run_ops(n).len() >= 2,
        cache.len() == 64 ==> model::decode_ops(model::run_ops(n), p, cache) == Some(
            Seq::new(n, |i: int| p),
        ),
{
    lemma_run_encoding_inner(p, cache, n, 0);
    lemma_run_ops_bounded(n);
    if cache.len() == 64 {
        lemma_encode_decode(Seq::new(n, |i: int| p), p, cache, 0);
        assert(Seq::new(0, |i: int| p) + Seq::new(n, |i: int| p) =~= Seq::new(n, |i: int| p));
    }
}

} // verus!
