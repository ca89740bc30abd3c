//! Decoding: from a serialized byte stream to a reconstructed image.

use vstd::prelude::*;
use vstd::slice::{slice_index_get, slice_subrange};
use crate::model;
use crate::{Image, ParseError, Pixel};

verus! {

/// The decoder state machine: the previous pixel, the lookback cache, the
/// pending run length, and the unread remainder of the opcode stream.
#[derive(Debug)]
pub struct PixelIter<'a> {
    pub pixel: Pixel,
    pub pixel_cache: Vec<Pixel>,
    pub run_length: u8,
    pub data: &'a [u8],
}

impl<'a> PixelIter<'a> {
    /// The cache always has exactly 64 slots.
    pub open spec fn wf(self) -> bool {
        self.pixel_cache@.len() == 64
    }

    /// The pixels this state still yields: the pending run repeats, then
    /// whatever the remaining opcode bytes decode to; `None` if the remaining
    /// bytes are truncated mid-opcode.
    pub open spec fn sem(self) -> Option<Seq<Pixel>> {
        match model::decode_ops(self.data@, self.pixel, self.pixel_cache@) {
            Some(rest) => Some(Seq::new(self.run_length as nat, |i: int| self.pixel) + rest),
            None => None,
        }
    }

    /// No byte consumed and no state change.
    pub open spec fn stays(self, post: Self) -> bool {
        &&& post.pixel == self.pixel
        &&& post.pixel_cache@ == self.pixel_cache@
        &&& post.run_length == self.run_length
        &&& post.data@ == self.data@
    }

    /// A cache-updating opcode of `k` bytes forms pixel `p`: the pixel is
    /// returned, stored at its hash slot — all other slots untouched — and
    /// exactly `k` bytes are consumed.
    pub open spec fn forms(self, post: Self, r: Option<Pixel>, p: Pixel, k: int) -> bool {
        &&& r == Some(p)
        &&& post.pixel == p
        &&& post.pixel_cache@ == model::cache_update(self.pixel_cache@, p)
        &&& post.run_length == 0
        &&& post.data@ == self.data@.skip(k)
    }

    /// The exact transition one call of `next` makes: which bytes it
    /// consumes, which pixel it forms and returns, and how the cache and the
    /// run counter change — one case per opcode.  On a truncated opcode the
    /// state is left as it was.
    pub open spec fn steps_to(self, post: Self, r: Option<Pixel>) -> bool {
        if self.run_length > 0 {
            // pending run: emit the previous pixel once more, consume nothing
            &&& r == Some(self.pixel)
            &&& post.pixel == self.pixel
            &&& post.pixel_cache@ == self.pixel_cache@
            &&& post.run_length == self.run_length - 1
            &&& post.data@ == self.data@
        } else if self.data@.len() == 0 {
            r is None && self.stays(post)
        } else {
            let b0 = self.data@[0];
            if b0 == crate::OP_RGB {
                if self.data@.len() >= 4 {
                    self.forms(
                        post,
                        r,
                        Pixel { r: self.data@[1], g: self.data@[2], b: self.data@[3], a: self.pixel.a },
                        4,
                    )
                } else {
                    r is None && self.stays(post)
                }
            } else if b0 == crate::OP_RGBA {
                if self.data@.len() >= 5 {
                    self.forms(
                        post,
                        r,
                        Pixel { r: self.data@[1], g: self.data@[2], b: self.data@[3], a: self.data@[4] },
                        5,
                    )
                } else {
                    r is None && self.stays(post)
                }
            } else if b0 & 0xC0 == 0x00 {
                // cache lookup: the indexed slot verbatim, no cache mutation
                let p = self.pixel_cache@[(b0 & 0x3F) as int];
                &&& r == Some(p)
                &&& post.pixel == p
                &&& post.pixel_cache@ == self.pixel_cache@
                &&& post.run_length == 0
                &&& post.data@ == self.data@.skip(1)
            } else if b0 & 0xC0 == crate::OP_DIFF {
                self.forms(
                    post,
                    r,
                    Pixel {
                        r: model::wadd(self.pixel.r, model::wsub((b0 >> 4) & 0x3, 2)),
                        g: model::wadd(self.pixel.g, model::wsub((b0 >> 2) & 0x3, 2)),
                        b: model::wadd(self.pixel.b, model::wsub(b0 & 0x3, 2)),
                        a: self.pixel.a,
                    },
                    1,
                )
            } else if b0 & 0xC0 == crate::OP_LUMA {
                if self.data@.len() >= 2 {
                    let b1 = self.data@[1];
                    let dg = model::wsub(b0 & 0x3F, 32);
                    self.forms(
                        post,
                        r,
                        Pixel {
                            r: model::wadd(self.pixel.r, model::wadd(model::wsub(b1 >> 4, 8), dg)),
                            g: model::wadd(self.pixel.g, dg),
                            b: model::wadd(self.pixel.b, model::wadd(model::wsub(b1 & 0x0F, 8), dg)),
                            a: self.pixel.a,
                        },
                        2,
                    )
                } else {
                    r is None && self.stays(post)
                }
            } else {
                // run opcode: the low six bits become the pending repeat
                // count, so the opcode emits (b0 & 0x3F) + 1 copies in all
                &&& r == Some(self.pixel)
                &&& post.pixel == self.pixel
                &&& post.pixel_cache@ == self.pixel_cache@
                &&& post.run_length == b0 & 0x3F
                &&& post.data@ == self.data@.skip(1)
            }
        }
    }

    /// The initial state for an opcode stream.
    pub fn new(data: &'a [u8]) -> (it: PixelIter<'a>)
        ensures
            it.wf(),
            it.pixel == model::init_pixel(),
            it.pixel_cache@ == model::zero_cache(),
            it.run_length == 0,
            it.data@ == data@,
    {
        PixelIter {
            pixel: Pixel { r: 0, g: 0, b: 0, a: 255 },
            data,
            run_length: 0,
            pixel_cache: crate::new_cache(),
        }
    }

    /// Store the current pixel in the cache slot its hash selects.
    pub fn update_cache(&mut self)
        requires
            old(self).wf(),
        ensures
            final(self).wf(),
            final(self).pixel_cache@ == model::cache_update(
                old(self).pixel_cache@,
                old(self).pixel,
            ),
            final(self).pixel_cache@[model::hash_spec(final(self).pixel)] == final(self).pixel,
            final(self).pixel == old(self).pixel,
            final(self).run_length == old(self).run_length,
            final(self).data == old(self).data,
    {
        proof {
            model::lemma_hash_bound(self.pixel);
        }
        let p = self.pixel;
        let idx = crate::hash(p);
        self.pixel_cache[idx] = p;
    }

    /// Yield the next pixel of the stream, or `None` when the stream is
    /// exhausted or the next opcode needs more bytes than remain.  On `None`
    /// the state is left unchanged, so the two cases can be told apart by
    /// whether unread bytes remain.  [`Self::steps_to`] fixes the whole
    /// transition, opcode by opcode.
    pub fn next(&mut self) -> (r: Option<Pixel>)
        requires
            old(self).wf(),
        ensures
            final(self).wf(),
            old(self).steps_to(*final(self), r),
            r is None ==> *final(self) == *old(self) && old(self).run_length == 0 && (old(
                self,
            ).data@.len() == 0 <==> old(self).sem() is Some),
            r is Some && old(self).sem() is Some ==> final(self).sem() is Some && old(self).sem()->0
                == seq![r->0] + final(self).sem()->0,
            r is Some && old(self).sem() is None ==> final(self).sem() is None,
            r is Some ==> (if old(self).run_length > 0 {
                final(self).data == old(self).data && final(self).run_length < old(
                    self,
                ).run_length
            } else {
                final(self).data@.len() < old(self).data@.len()
            }),
    {
        if self.run_length > 0 {
            self.run_length = self.run_length - 1;
            proof {
                if self.sem() is Some {
                    let rest = model::decode_ops(self.data@, self.pixel, self.pixel_cache@)->0;
                    assert(Seq::new(old(self).run_length as nat, |i: int| self.pixel) + rest
                        =~= seq![self.pixel] + (Seq::new(self.run_length as nat, |i: int| self.pixel)
                        + rest));
                }
            }
            return Some(self.pixel);
        }
        let n = self.data.len();
        if n == 0 {
            return None;
        }
        let d = self.data;
        let b0 = *slice_index_get(d, 0);
        if b0 == crate::OP_RGB {
            if n < 4 {
                return None;
            }
            self.pixel = Pixel {
                r: *slice_index_get(d, 1),
                g: *slice_index_get(d, 2),
                b: *slice_index_get(d, 3),
                a: self.pixel.a,
            };
            self.update_cache();
            self.data = slice_subrange(d, 4, n);
            proof {
                assert(self.data@ =~= d@.skip(4));
                Self::lemma_emit(self.pixel, self.data@, self.pixel_cache@);
            }
            Some(self.pixel)
        } else if b0 == crate::OP_RGBA {
            if n < 5 {
                return None;
            }
            self.pixel = Pixel {
                r: *slice_index_get(d, 1),
                g: *slice_index_get(d, 2),
                b: *slice_index_get(d, 3),
                a: *slice_index_get(d, 4),
            };
            self.update_cache();
            self.data = slice_subrange(d, 5, n);
            proof {
                assert(self.data@ =~= d@.skip(5));
                Self::lemma_emit(self.pixel, self.data@, self.pixel_cache@);
            }
            Some(self.pixel)
        } else if b0 & 0xC0 == 0x00 {
            proof {
                assert(b0 & 0x3F < 64) by (bit_vector);
            }
            let idx = (b0 & 0x3F) as usize;
            self.pixel = self.pixel_cache[idx];
            self.data = slice_subrange(d, 1, n);
            proof {
                assert(self.data@ =~= d@.skip(1));
                Self::lemma_emit(self.pixel, self.data@, self.pixel_cache@);
            }
            Some(self.pixel)
        } else if b0 & 0xC0 == crate::OP_DIFF {
            let dr = ((b0 >> 4) & 0x3).wrapping_sub(2);
            let dg = ((b0 >> 2) & 0x3).wrapping_sub(2);
            let db = (b0 & 0x3).wrapping_sub(2);
            self.pixel = Pixel {
                r: self.pixel.r.wrapping_add(dr),
                g: self.pixel.g.wrapping_add(dg),
                b: self.pixel.b.wrapping_add(db),
                a: self.pixel.a,
            };
            self.update_cache();
            self.data = slice_subrange(d, 1, n);
            proof {
                assert(self.data@ =~= d@.skip(1));
                Self::lemma_emit(self.pixel, self.data@, self.pixel_cache@);
            }
            Some(self.pixel)
        } else if b0 & 0xC0 == crate::OP_LUMA {
            if n < 2 {
                return None;
            }
            let b1 = *slice_index_get(d, 1);
            let dg = (b0 & 0x3F).wrapping_sub(32);
            let dr = (b1 >> 4).wrapping_sub(8).wrapping_add(dg);
            let db = (b1 & 0x0F).wrapping_sub(8).wrapping_add(dg);
            self.pixel = Pixel {
                r: self.pixel.r.wrapping_add(dr),
                g: self.pixel.g.wrapping_add(dg),
                b: self.pixel.b.wrapping_add(db),
                a: self.pixel.a,
            };
            self.update_cache();
            self.data = slice_subrange(d, 2, n);
            proof {
                assert(self.data@ =~= d@.skip(2));
                Self::lemma_emit(self.pixel, self.data@, self.pixel_cache@);
            }
            Some(self.pixel)
        } else {
            self.run_length = b0 & 0x3F;
            self.data = slice_subrange(d, 1, n);
            proof {
                assert(self.data@ =~= d@.skip(1));
                if self.sem() is Some {
                    let rest = model::decode_ops(self.data@, self.pixel, self.pixel_cache@)->0;
                    assert(Seq::new(((b0 & 0x3F) + 1) as nat, |i: int| self.pixel) + rest
                        =~= seq![self.pixel] + (Seq::new((b0 & 0x3F) as nat, |i: int| self.pixel)
                        + rest));
                }
            }
            Some(self.pixel)
        }
    }

    /// A freshly emitted pixel prepended to the rest of the stream.
    proof fn lemma_emit(p: Pixel, data: Seq<u8>, cache: Seq<Pixel>)
        ensures
            model::decode_ops(data, p, cache) matches Some(rest) ==> Seq::new(0, |i: int| p) + rest
                =~= rest,
    {
    }
}

/// Parse a serialized stream into an image, per [`model::decode_model`]: the
/// 14-byte header is validated, the trailing end marker checked, and the
/// opcode stream between them replayed into a sample buffer.
pub fn decode(data: &[u8]) -> (r: Result<Image, ParseError>)
    ensures
        r is Ok ==> model::decode_model(data@) is Ok && r->Ok_0@ == model::decode_model(
            data@,
        )->Ok_0,
        r is Err ==> model::decode_model(data@) is Err && r->Err_0 == model::decode_model(
            data@,
        )->Err_0,
{
    let n = data.len();
    if n < 22 {
        return Err(ParseError::TruncatedFile);
    }
    if *slice_index_get(data, 0) != 0x71 || *slice_index_get(data, 1) != 0x6F || *slice_index_get(
        data,
        2,
    ) != 0x69 || *slice_index_get(data, 3) != 0x66 {
        proof {
            assert(data@.subrange(0, 4) != model::magic_seq());
        }
        return Err(ParseError::InvalidMagic);
    }
    proof {
        assert(data@.subrange(0, 4) =~= model::magic_seq());
    }
    let e = n - 8;
    if *slice_index_get(data, e) != 0 || *slice_index_get(data, e + 1) != 0 || *slice_index_get(
        data,
        e + 2,
    ) != 0 || *slice_index_get(data, e + 3) != 0 || *slice_index_get(data, e + 4) != 0
        || *slice_index_get(data, e + 5) != 0 || *slice_index_get(data, e + 6) != 0
        || *slice_index_get(data, e + 7) != 1 {
        proof {
            assert(data@.subrange(n - 8, n as int) != model::end_marker());
        }
        return Err(ParseError::TruncatedFile);
    }
    proof {
        assert(data@.subrange(n - 8, n as int) =~= model::end_marker());
    }
    let width = read_be32(data, 4);
    let height = read_be32(data, 8);
    let channels = *slice_index_get(data, 12);
    let colorspace = *slice_index_get(data, 13);
    let ops = slice_subrange(data, 14, e);
    let mut iter = PixelIter::new(ops);
    let mut out: Vec<u8> = Vec::new();
    let ghost mut emitted: Seq<Pixel> = Seq::empty();
    loop
        invariant
            iter.wf(),
            out@ == model::flatten_px(emitted, channels),
            (match model::decode_ops(ops@, model::init_pixel(), model::zero_cache()) {
                Some(all) => iter.sem() is Some && all == emitted + iter.sem()->0,
                None => iter.sem() is None,
            }),
            n == data@.len(),
            22 <= n,
            e == n - 8,
            data@.subrange(0, 4) == model::magic_seq(),
            data@.subrange(n - 8, n as int) == model::end_marker(),
            ops@ == data@.subrange(14, n - 8),
            width == model::be32_at(data@, 4),
            height == model::be32_at(data@, 8),
            channels == data@[12],
            colorspace == data@[13],
        decreases iter.data@.len(), iter.run_length,
    {
        match iter.next() {
            Some(p) => {
                out.push(p.r);
                out.push(p.g);
                out.push(p.b);
                if channels != 3 {
                    out.push(p.a);
                }
                proof {
                    model::lemma_flatten_push(emitted, p, channels);
                    if model::decode_ops(ops@, model::init_pixel(), model::zero_cache()) is Some {
                        assert(emitted + (seq![p] + iter.sem()->0) =~= emitted.push(p)
                            + iter.sem()->0);
                    }
                    emitted = emitted.push(p);
                }
            },
            None => {
                if iter.data.len() > 0 {
                    return Err(ParseError::TruncatedFile);
                }
                proof {
                    assert(model::decode_ops(iter.data@, iter.pixel, iter.pixel_cache@)
                        == Some(Seq::<Pixel>::empty()));
                    assert(iter.sem()->0 =~= Seq::<Pixel>::empty());
                    assert(emitted + Seq::<Pixel>::empty() =~= emitted);
                }
                return Ok(Image { width, height, channels, colorspace, data: out });
            },
        }
    }
}

/// Read the big-endian 32-bit value at `data[i..i+4]`.
fn read_be32(data: &[u8], i: usize) -> (w: u32)
    requires
        i + 4 <= data@.len(),
    ensures
        w == model::be32_at(data@, i as int),
{
    let n = data.len();
    proof {
        assert(i + 4 <= n);
    }
    let b0 = *slice_index_get(data, i) as u32;
    let b1 = *slice_index_get(data, i + 1) as u32;
    let b2 = *slice_index_get(data, i + 2) as u32;
    let b3 = *slice_index_get(data, i + 3) as u32;
    b0 * 0x1000000 + b1 * 0x10000 + b2 * 0x100 + b3
}

} // verus!
