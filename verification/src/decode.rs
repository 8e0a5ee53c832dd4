//! The decoder: replays the opcode stream, reconstructing pixels and the
//! same cache mutations the encoder performed.

use vstd::math::min;
use vstd::prelude::*;
use vstd::slice::slice_subrange;

use crate::encode::copy_into;
use crate::error::Error;
use crate::header::{header_error, header_parses, parsed_header, sat_mul, Header};
use crate::model::{
    dec, dec_prepend, lemma_dec_bounds, lemma_pixels_to_bytes_concat,
    lemma_pixels_to_bytes_len, lemma_pixels_to_bytes_push, padding_bytes, pixels_to_bytes,
    px_to_bytes, DecOut,
};
use crate::pixel::{initial_pixel, Pixel};
use crate::state::{cache_wf, fresh_cache, Cache, State};

verus! {

/// Appends one pixel as `channels` output bytes.
fn write_px(out: &mut Vec<u8>, px: Pixel, channels: usize)
    requires
        channels == 3 || channels == 4,
    ensures
        final(out)@ == old(out)@ + px_to_bytes(px, channels as int),
{
    out.push(px.r);
    out.push(px.g);
    out.push(px.b);
    if channels == 4 {
        out.push(px.a);
    }
    assert(out@ =~= old(out)@ + px_to_bytes(px, channels as int));
}

/// Appends `cnt` copies of one pixel as output bytes.
fn write_run(out: &mut Vec<u8>, px: Pixel, channels: usize, cnt: usize)
    requires
        channels == 3 || channels == 4,
    ensures
        final(out)@ == old(out)@ + pixels_to_bytes(
            Seq::new(cnt as nat, |j: int| px),
            channels as int,
        ),
{
    let mut j: usize = 0;
    proof {
        assert(pixels_to_bytes(Seq::new(0, |t: int| px), channels as int) =~= Seq::<u8>::empty());
        assert(out@ =~= out@ + pixels_to_bytes(Seq::new(0, |t: int| px), channels as int));
    }
    while j < cnt
        invariant
            j <= cnt,
            channels == 3 || channels == 4,
            out@ == old(out)@ + pixels_to_bytes(Seq::new(j as nat, |t: int| px), channels as int),
        decreases cnt - j,
    {
        let ghost before = Seq::new(j as nat, |t: int| px);
        write_px(out, px, channels);
        j = j + 1;
        proof {
            assert(Seq::new(j as nat, |t: int| px) =~= before.push(px));
            lemma_pixels_to_bytes_push(before, px, channels as int);
            assert(out@ =~= old(out)@ + pixels_to_bytes(
                Seq::new(j as nat, |t: int| px),
                channels as int,
            ));
        }
    }
}

/// One decoder step: shifting freshly reconstructed pixels out of the
/// pending decode preserves the loop's accounting equation.
proof fn lemma_dec_step(full: DecOut, decoded: Seq<Pixel>, front: Seq<Pixel>, rest: DecOut)
    requires
        full.ok == dec_prepend(front, rest).ok,
        full.pixels == decoded + dec_prepend(front, rest).pixels,
        full.end == dec_prepend(front, rest).end,
        full.px == dec_prepend(front, rest).px,
        full.cache == dec_prepend(front, rest).cache,
    ensures
        full.ok == rest.ok,
        full.pixels == (decoded + front) + rest.pixels,
        full.end == rest.end,
        full.px == rest.px,
        full.cache == rest.cache,
{
    assert((decoded + front) + rest.pixels =~= decoded + (front + rest.pixels));
}

/// Runs the decoder state machine for `n_pixels` output pixels, appending
/// `channels`-wide output bytes to `out` and mutating the cache exactly as
/// the model says. Returns the count of stream bytes consumed.
#[verifier::loop_isolation(false)]
#[verifier::rlimit(100)]
pub(crate) fn decode_payload(
    state: &mut State,
    data: &[u8],
    n_pixels: usize,
    channels: usize,
    out: &mut Vec<u8>,
) -> (r: Result<usize, Error>)
    requires
        channels == 3 || channels == 4,
        old(state).wf(),
    ensures
        final(state).wf(),
        ({
            let d = dec(data@, 0, n_pixels as int, initial_pixel(), old(state)@);
            match r {
                Ok(n_read) => d.ok && final(out)@ == old(out)@ + pixels_to_bytes(
                    d.pixels,
                    channels as int,
                ) && n_read == d.end && final(state)@ == d.cache,
                Err(e) => e == Error::UnexpectedBufferEnd && !d.ok,
            }
        }),
{
    let ghost full = dec(data@, 0, n_pixels as int, initial_pixel(), old(state)@);
    let ghost out0 = old(out)@;
    let data_len = data.len();
    let mut px = Pixel::new().with_a(0xff);
    let mut pos: usize = 0;
    let mut w: usize = 0;
    let ghost mut decoded: Seq<Pixel> = Seq::empty();
    proof {
        assert(decoded + full.pixels =~= full.pixels);
        assert(out@ =~= out0 + pixels_to_bytes(decoded, channels as int));
    }
    while w < n_pixels
        invariant
            state.wf(),
            w <= n_pixels,
            pos <= data_len,
            out@ == out0 + pixels_to_bytes(decoded, channels as int),
            decoded.len() == w,
            ({
                let sub = dec(data@, pos as int, n_pixels - w, px, state@);
                full.ok == sub.ok && full.pixels == decoded + sub.pixels && full.end == sub.end
                    && full.px == sub.px && full.cache == sub.cache
            }),
        decreases n_pixels - w,
    {
        let ghost sub_pre = dec(data@, pos as int, n_pixels - w, px, state@);
        if pos >= data_len {
            proof {
                assert(!sub_pre.ok);
            }
            return Err(Error::UnexpectedBufferEnd);
        }
        let b1 = data[pos];
        let ghost px_pre = px;
        let ghost c_pre = state@;
        if b1 <= 0x3f {
            px = state.get_l1(b1 as u16);
            write_px(out, px, channels);
            pos = pos + 1;
            w = w + 1;
            proof {
                let rest = dec(data@, pos as int, n_pixels - w, px, state@);
                assert(sub_pre == dec_prepend(seq![px], rest));
                lemma_dec_step(full, decoded, seq![px], rest);
                lemma_pixels_to_bytes_push(decoded, px, channels as int);
                assert(decoded + seq![px] =~= decoded.push(px));
                decoded = decoded.push(px);
            }
        } else if b1 == 0x6a {
            write_px(out, px, channels);
            pos = pos + 1;
            w = w + 1;
            proof {
                let rest = dec(data@, pos as int, n_pixels - w, px, state@);
                assert(sub_pre == dec_prepend(seq![px], rest));
                lemma_dec_step(full, decoded, seq![px], rest);
                lemma_pixels_to_bytes_push(decoded, px, channels as int);
                assert(decoded + seq![px] =~= decoded.push(px));
                decoded = decoded.push(px);
            }
        } else if b1 <= 0x7f {
            px.update_diff(b1);
            state.insert(px);
            write_px(out, px, channels);
            pos = pos + 1;
            w = w + 1;
            proof {
                let rest = dec(data@, pos as int, n_pixels - w, px, state@);
                assert(sub_pre == dec_prepend(seq![px], rest));
                lemma_dec_step(full, decoded, seq![px], rest);
                lemma_pixels_to_bytes_push(decoded, px, channels as int);
                assert(decoded + seq![px] =~= decoded.push(px));
                decoded = decoded.push(px);
            }
        } else if b1 <= 0xbf {
            if data_len - pos < 2 {
                proof {
                    assert(!sub_pre.ok);
                }
                return Err(Error::UnexpectedBufferEnd);
            }
            let b2 = data[pos + 1];
            if b2 >= 0xf0 {
                let cnt0 = 64 * ((b2 - 0xf0) as u16) + ((b1 - 0x80) as u16) + 64;
                let remaining = n_pixels - w;
                let cnt: usize = if (cnt0 as usize) <= remaining {
                    cnt0 as usize
                } else {
                    remaining
                };
                let ghost front = Seq::new(cnt as nat, |j: int| px);
                write_run(out, px, channels, cnt);
                pos = pos + 2;
                w = w + cnt;
                proof {
                    let rest = dec(data@, pos as int, n_pixels - w, px, state@);
                    assert(sub_pre == dec_prepend(front, rest));
                    lemma_dec_step(full, decoded, front, rest);
                    lemma_pixels_to_bytes_concat(decoded, front, channels as int);
                    decoded = decoded + front;
                }
            } else if b2 % 16 == 15 {
                let h10 = 16 * ((b1 - 0x80) as u16) + ((b2 / 16) as u16);
                px = state.promote(h10);
                write_px(out, px, channels);
                pos = pos + 2;
                w = w + 1;
                proof {
                    let rest = dec(data@, pos as int, n_pixels - w, px, state@);
                    assert(sub_pre == dec_prepend(seq![px], rest));
                    lemma_dec_step(full, decoded, seq![px], rest);
                    lemma_pixels_to_bytes_push(decoded, px, channels as int);
                    assert(decoded + seq![px] =~= decoded.push(px));
                    decoded = decoded.push(px);
                }
            } else {
                px.update_luma(b1, b2);
                state.insert(px);
                write_px(out, px, channels);
                pos = pos + 2;
                w = w + 1;
                proof {
                    let rest = dec(data@, pos as int, n_pixels - w, px, state@);
                    assert(sub_pre == dec_prepend(seq![px], rest));
                    lemma_dec_step(full, decoded, seq![px], rest);
                    lemma_pixels_to_bytes_push(decoded, px, channels as int);
                    assert(decoded + seq![px] =~= decoded.push(px));
                    decoded = decoded.push(px);
                }
            }
        } else if b1 <= 0xfd {
            let cnt0 = ((b1 - 0xc0) as usize) + 2;
            let remaining = n_pixels - w;
            let cnt: usize = if cnt0 <= remaining {
                cnt0
            } else {
                remaining
            };
            let ghost front = Seq::new(cnt as nat, |j: int| px);
            write_run(out, px, channels, cnt);
            pos = pos + 1;
            w = w + cnt;
            proof {
                let rest = dec(data@, pos as int, n_pixels - w, px, state@);
                assert(sub_pre == dec_prepend(front, rest));
                lemma_dec_step(full, decoded, front, rest);
                lemma_pixels_to_bytes_concat(decoded, front, channels as int);
                decoded = decoded + front;
            }
        } else if b1 == 0xfe {
            if data_len - pos < 4 {
                proof {
                    assert(!sub_pre.ok);
                }
                return Err(Error::UnexpectedBufferEnd);
            }
            px.update_rgb(data[pos + 1], data[pos + 2], data[pos + 3]);
            state.insert(px);
            write_px(out, px, channels);
            pos = pos + 4;
            w = w + 1;
            proof {
                let rest = dec(data@, pos as int, n_pixels - w, px, state@);
                assert(sub_pre == dec_prepend(seq![px], rest));
                lemma_dec_step(full, decoded, seq![px], rest);
                lemma_pixels_to_bytes_push(decoded, px, channels as int);
                assert(decoded + seq![px] =~= decoded.push(px));
                decoded = decoded.push(px);
            }
        } else {
            if data_len - pos < 5 {
                proof {
                    assert(!sub_pre.ok);
                }
                return Err(Error::UnexpectedBufferEnd);
            }
            px.update_rgba(data[pos + 1], data[pos + 2], data[pos + 3], data[pos + 4]);
            state.insert(px);
            write_px(out, px, channels);
            pos = pos + 5;
            w = w + 1;
            proof {
                let rest = dec(data@, pos as int, n_pixels - w, px, state@);
                assert(sub_pre == dec_prepend(seq![px], rest));
                lemma_dec_step(full, decoded, seq![px], rest);
                lemma_pixels_to_bytes_push(decoded, px, channels as int);
                assert(decoded + seq![px] =~= decoded.push(px));
                decoded = decoded.push(px);
            }
        }
    }
    proof {
        assert(full.pixels =~= decoded);
    }
    Ok(pos)
}


/// The outcome of decoding `npx` pixels at `ch` output channels from a
/// payload that starts at the front of `bytes`, with the trailing padding
/// verified unless in payload-only mode.
pub open spec fn framed_result(
    bytes: Seq<u8>,
    npx: int,
    ch: int,
    c: Cache,
    data_only: bool,
) -> Result<Seq<u8>, Error> {
    let d = dec(bytes, 0, npx, initial_pixel(), c);
    if !(ch == 3 || ch == 4) {
        Err(Error::InvalidChannels { channels: ch as u8 })
    } else if !d.ok {
        Err(Error::UnexpectedBufferEnd)
    } else if !data_only && bytes.len() - d.end < 8 {
        Err(Error::UnexpectedBufferEnd)
    } else if !data_only && bytes.skip(d.end).take(8) != padding_bytes() {
        Err(Error::InvalidPadding)
    } else {
        Ok(pixels_to_bytes(d.pixels, ch))
    }
}

/// A borrowed byte source for slice-backed decoding.
#[derive(Clone, Copy)]
pub struct Bytes<'a>(&'a [u8]);

impl<'a> View for Bytes<'a> {
    type V = Seq<u8>;

    closed spec fn view(&self) -> Seq<u8> {
        self.0@
    }
}

impl<'a> Bytes<'a> {
    /// Wraps a slice of bytes.
    pub fn new(buf: &'a [u8]) -> (b: Bytes<'a>)
        ensures
            b@ == buf@,
    {
        Bytes(buf)
    }

    /// The bytes not consumed yet.
    pub fn as_slice(&self) -> (s: &[u8])
        ensures
            s@ == self@,
    {
        self.0
    }
}

/// Decode byte streams from slices. The decoder owns a cache state, fresh or
/// carried in, and hands it back through [`Decoder::extract_state`] for
/// continuity across related images.
pub struct Decoder<'a> {
    reader: Bytes<'a>,
    header: Header,
    channels: u8,
    state: State,
}

impl<'a> Decoder<'a> {
    /// The stream bytes not consumed yet.
    pub closed spec fn remaining(&self) -> Seq<u8> {
        self.reader@
    }

    /// The header the stream carried (or was handed in).
    pub closed spec fn header_spec(&self) -> Header {
        self.header
    }

    /// The output channel count.
    pub closed spec fn channels_spec(&self) -> u8 {
        self.channels
    }

    /// The cache the next decoding pass starts from.
    pub closed spec fn cache(&self) -> Cache {
        self.state@
    }

    /// A usable decoder: valid header and well-formed cache.
    pub open spec fn wf(&self) -> bool {
        self.header_spec().valid() && cache_wf(self.cache())
    }

    /// Creates a decoder from a slice of bytes, decoding and validating the
    /// header immediately.
    pub fn new(data: &'a [u8]) -> (r: Result<Decoder<'a>, Error>)
        ensures
            r is Ok <==> header_parses(data@),
            r is Err ==> r->Err_0 == header_error(data@),
            r is Ok ==> {
                let d = r->Ok_0;
                d.wf() && d.header_spec() == parsed_header(data@) && d.channels_spec()
                    == parsed_header(data@).channels && d.cache() == fresh_cache() && d.remaining()
                    == data@.skip(14)
            },
    {
        match Header::decode(data) {
            Err(e) => Err(e),
            Ok(header) => {
                let rest = slice_subrange(data, 14, data.len());
                proof {
                    assert(rest@ =~= data@.skip(14));
                }
                Ok(Decoder { reader: Bytes(rest), header, channels: header.channels, state: State::new() })
            },
        }
    }

    /// Creates a decoder from an already-decoded header, a carried-in cache
    /// state, and a reader positioned at the opcode stream.
    pub fn new_with(header: Header, state: State, reader: Bytes<'a>) -> (d: Decoder<'a>)
        requires
            header.valid(),
            state.wf(),
        ensures
            d.wf(),
            d.header_spec() == header,
            d.channels_spec() == header.channels,
            d.cache() == state@,
            d.remaining() == reader@,
    {
        Decoder { reader, header, channels: header.channels, state }
    }

    /// The undecoded tail of the input bytes.
    pub fn data(&self) -> (s: &[u8])
        ensures
            s@ == self.remaining(),
    {
        self.reader.as_slice()
    }

    /// The same decoder with the output channel count replaced. Decoding
    /// into a narrower output drops alpha; into a wider one fills it.
    pub fn with_channels(self, channels: u8) -> (d: Decoder<'a>)
        ensures
            d.channels_spec() == channels,
            d.header_spec() == self.header_spec(),
            d.cache() == self.cache(),
            d.remaining() == self.remaining(),
            self.wf() ==> d.wf(),
    {
        Decoder { reader: self.reader, header: self.header, channels, state: self.state }
    }

    /// The output channel count; may differ from the header's.
    pub fn channels(&self) -> (ch: u8)
        ensures
            ch == self.channels_spec(),
    {
        self.channels
    }

    /// The decoded stream header.
    pub fn header(&self) -> (h: &Header)
        ensures
            *h == self.header_spec(),
    {
        &self.header
    }

    /// The byte count the decoded image will take, saturating at
    /// `usize::MAX`: a safe buffer size for [`Decoder::decode_to_buf`].
    pub fn required_buf_len(&self) -> (n: usize)
        requires
            self.wf(),
        ensures
            n == min(
                self.header_spec().n_pixels_spec() * self.channels_spec() as int,
                usize::MAX as int,
            ),
    {
        sat_mul(self.header.n_pixels(), self.channels as usize)
    }

    /// Decodes the image into a pre-allocated buffer and returns the byte
    /// count written. Fails on a short buffer, an output channel count other
    /// than 3 or 4, a truncated stream, or bad padding, and then leaves the
    /// buffer unchanged.
    pub fn decode_to_buf<const DATA_ONLY: bool>(&mut self, buf: &mut Vec<u8>) -> (r: Result<
        usize,
        Error,
    >)
        requires
            old(self).wf(),
        ensures
            final(self).wf(),
            final(self).header_spec() == old(self).header_spec(),
            final(self).channels_spec() == old(self).channels_spec(),
            ({
                let h = old(self).header_spec();
                let ch = old(self).channels_spec() as int;
                let npx = h.n_pixels_spec();
                let required = min(npx * ch, usize::MAX as int);
                let d = dec(old(self).remaining(), 0, npx, initial_pixel(), old(self).cache());
                let framed = framed_result(old(self).remaining(), npx, ch, old(self).cache(), DATA_ONLY);
                if old(buf)@.len() < required {
                    r == Err::<usize, Error>(
                        Error::OutputBufferTooSmall {
                            size: old(buf)@.len() as usize,
                            required: required as usize,
                        },
                    ) && final(buf)@ == old(buf)@ && final(self).cache() == old(self).cache()
                        && final(self).remaining() == old(self).remaining()
                } else {
                    &&& (match framed {
                        Ok(outbytes) => r == Ok::<usize, Error>(required as usize) && final(buf)@
                            == outbytes + old(buf)@.skip(required),
                        Err(e) => r == Err::<usize, Error>(e) && final(buf)@ == old(buf)@,
                    })
                    &&& ((ch == 3 || ch == 4) && d.ok ==> final(self).remaining() == old(
                        self,
                    ).remaining().skip(d.end) && final(self).cache() == d.cache)
                    &&& (!((ch == 3 || ch == 4) && d.ok) ==> final(self).remaining() == old(
                        self,
                    ).remaining())
                }
            }),
    {
        let required = self.required_buf_len();
        if buf.len() < required {
            return Err(Error::OutputBufferTooSmall { size: buf.len(), required });
        }
        match self.decode_to_vec_inner::<DATA_ONLY>() {
            Err(e) => Err(e),
            Ok(tmp) => {
                proof {
                    let ch = old(self).channels_spec() as int;
                    let npx = old(self).header_spec().n_pixels_spec();
                    assert(npx * ch <= 1_600_000_000) by (nonlinear_arith)
                        requires
                            0 <= npx <= 400_000_000,
                            ch == 3 || ch == 4,
                    ;
                    assert(ch * npx == npx * ch) by (nonlinear_arith);
                }
                copy_into(buf, &tmp);
                Ok(required)
            },
        }
    }

    /// Decodes the image into a newly allocated vector.
    pub fn decode_to_vec<const DATA_ONLY: bool>(&mut self) -> (r: Result<Vec<u8>, Error>)
        requires
            old(self).wf(),
        ensures
            final(self).wf(),
            final(self).header_spec() == old(self).header_spec(),
            final(self).channels_spec() == old(self).channels_spec(),
            ({
                let h = old(self).header_spec();
                let ch = old(self).channels_spec() as int;
                let npx = h.n_pixels_spec();
                let d = dec(old(self).remaining(), 0, npx, initial_pixel(), old(self).cache());
                let framed = framed_result(old(self).remaining(), npx, ch, old(self).cache(), DATA_ONLY);
                &&& (match framed {
                    Ok(outbytes) => r is Ok && r->Ok_0@ == outbytes,
                    Err(e) => r == Err::<Vec<u8>, Error>(e),
                })
                &&& ((ch == 3 || ch == 4) && d.ok ==> final(self).remaining() == old(
                    self,
                ).remaining().skip(d.end) && final(self).cache() == d.cache)
                &&& (!((ch == 3 || ch == 4) && d.ok) ==> final(self).remaining() == old(
                    self,
                ).remaining())
            }),
    {
        self.decode_to_vec_inner::<DATA_ONLY>()
    }

    /// Decodes the payload, advances the reader past it, and verifies the
    /// trailing padding unless in payload-only mode.
    fn decode_to_vec_inner<const DATA_ONLY: bool>(&mut self) -> (r: Result<Vec<u8>, Error>)
        requires
            old(self).wf(),
        ensures
            final(self).wf(),
            final(self).header_spec() == old(self).header_spec(),
            final(self).channels_spec() == old(self).channels_spec(),
            ({
                let h = old(self).header_spec();
                let ch = old(self).channels_spec() as int;
                let npx = h.n_pixels_spec();
                let d = dec(old(self).remaining(), 0, npx, initial_pixel(), old(self).cache());
                let framed = framed_result(old(self).remaining(), npx, ch, old(self).cache(), DATA_ONLY);
                &&& (match framed {
                    Ok(outbytes) => r is Ok && r->Ok_0@ == outbytes && r->Ok_0@.len() == ch * npx,
                    Err(e) => r == Err::<Vec<u8>, Error>(e),
                })
                &&& ((ch == 3 || ch == 4) && d.ok ==> final(self).remaining() == old(
                    self,
                ).remaining().skip(d.end) && final(self).cache() == d.cache)
                &&& (!((ch == 3 || ch == 4) && d.ok) ==> final(self).remaining() == old(
                    self,
                ).remaining())
            }),
    {
        if self.channels != 3 && self.channels != 4 {
            return Err(Error::InvalidChannels { channels: self.channels });
        }
        let ghost c0 = self.state@;
        let data: &[u8] = self.reader.0;
        let npx = self.header.n_pixels();
        let mut tmp: Vec<u8> = Vec::new();
        match decode_payload(&mut self.state, data, npx, self.channels as usize, &mut tmp) {
            Err(e) => Err(e),
            Ok(n_read) => {
                proof {
                    lemma_dec_bounds(data@, 0, npx as int, initial_pixel(), c0);
                    lemma_pixels_to_bytes_len(
                        dec(data@, 0, npx as int, initial_pixel(), c0).pixels,
                        self.channels as int,
                    );
                }
                self.reader = Bytes(slice_subrange(data, n_read, data.len()));
                proof {
                    assert(self.reader@ =~= data@.skip(n_read as int));
                }
                if !DATA_ONLY {
                    if data.len() - n_read < 8 {
                        return Err(Error::UnexpectedBufferEnd);
                    }
                    if data[n_read] != 0 || data[n_read + 1] != 0 || data[n_read + 2] != 0
                        || data[n_read + 3] != 0 || data[n_read + 4] != 0 || data[n_read + 5] != 0
                        || data[n_read + 6] != 0 || data[n_read + 7] != 1 {
                        proof {
                            let rem2 = data@.skip(n_read as int);
                            assert(rem2.take(8) != padding_bytes()) by {
                                if rem2.take(8) == padding_bytes() {
                                    assert(rem2.take(8)[0] == data@[n_read as int]);
                                    assert(rem2.take(8)[1] == data@[n_read as int + 1]);
                                    assert(rem2.take(8)[2] == data@[n_read as int + 2]);
                                    assert(rem2.take(8)[3] == data@[n_read as int + 3]);
                                    assert(rem2.take(8)[4] == data@[n_read as int + 4]);
                                    assert(rem2.take(8)[5] == data@[n_read as int + 5]);
                                    assert(rem2.take(8)[6] == data@[n_read as int + 6]);
                                    assert(rem2.take(8)[7] == data@[n_read as int + 7]);
                                }
                            }
                        }
                        return Err(Error::InvalidPadding);
                    }
                    proof {
                        let rem2 = data@.skip(n_read as int);
                        assert(rem2.take(8) =~= padding_bytes());
                    }
                }
                Ok(tmp)
            },
        }
    }

    /// Consumes the decoder and hands the cache state back for reuse.
    pub fn extract_state(self) -> (s: State)
        ensures
            s@ == self.cache(),
            self.wf() ==> s.wf(),
    {
        self.state
    }
}

/// Decodes the image header from a slice of bytes.
pub fn decode_header(data: &[u8]) -> (r: Result<Header, Error>)
    ensures
        r is Ok <==> header_parses(data@),
        header_parses(data@) ==> r == Ok::<Header, Error>(parsed_header(data@)),
        !header_parses(data@) ==> r == Err::<Header, Error>(header_error(data@)),
{
    Header::decode(data)
}

/// Decodes a framed stream into a pre-allocated buffer; the channel count
/// follows the header. Returns the decoded header.
pub fn decode_to_buf<const DATA_ONLY: bool>(buf: &mut Vec<u8>, data: &[u8]) -> (r: Result<
    Header,
    Error,
>)
    ensures
        !header_parses(data@) ==> r == Err::<Header, Error>(header_error(data@)) && final(buf)@
            == old(buf)@,
        header_parses(data@) ==> ({
            let h = parsed_header(data@);
            let ch = h.channels as int;
            let npx = h.n_pixels_spec();
            let required = min(npx * ch, usize::MAX as int);
            let framed = framed_result(data@.skip(14), npx, ch, fresh_cache(), DATA_ONLY);
            if old(buf)@.len() < required {
                r == Err::<Header, Error>(
                    Error::OutputBufferTooSmall {
                        size: old(buf)@.len() as usize,
                        required: required as usize,
                    },
                ) && final(buf)@ == old(buf)@
            } else {
                match framed {
                    Ok(outbytes) => r == Ok::<Header, Error>(h) && final(buf)@ == outbytes + old(
                        buf,
                    )@.skip(required),
                    Err(e) => r == Err::<Header, Error>(e) && final(buf)@ == old(buf)@,
                }
            }
        }),
{
    match Decoder::new(data) {
        Err(e) => Err(e),
        Ok(mut decoder) => match decoder.decode_to_buf::<DATA_ONLY>(buf) {
            Err(e) => Err(e),
            Ok(_) => Ok(*decoder.header()),
        },
    }
}

/// Decodes a framed stream into a newly allocated vector; the channel count
/// follows the header. Returns the header and the pixel bytes.
pub fn decode_to_vec<const DATA_ONLY: bool>(data: &[u8]) -> (r: Result<(Header, Vec<u8>), Error>)
    ensures
        !header_parses(data@) ==> r == Err::<(Header, Vec<u8>), Error>(header_error(data@)),
        header_parses(data@) ==> ({
            let h = parsed_header(data@);
            let framed = framed_result(
                data@.skip(14),
                h.n_pixels_spec(),
                h.channels as int,
                fresh_cache(),
                DATA_ONLY,
            );
            match framed {
                Ok(outbytes) => r is Ok && r->Ok_0.0 == h && r->Ok_0.1@ == outbytes,
                Err(e) => r == Err::<(Header, Vec<u8>), Error>(e),
            }
        }),
{
    match Decoder::new(data) {
        Err(e) => Err(e),
        Ok(mut decoder) => match decoder.decode_to_vec::<DATA_ONLY>() {
            Err(e) => Err(e),
            Ok(out) => Ok((*decoder.header(), out)),
        },
    }
}

} // verus!
