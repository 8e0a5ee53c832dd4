//! The encoder: a greedy opcode-selection state machine over a pixel buffer.

use vstd::arithmetic::div_mod::lemma_fundamental_div_mod;
use vstd::arithmetic::mul::{lemma_mul_inequality, lemma_mul_is_distributive_add_other_way};
use vstd::math::min;
use vstd::prelude::*;

use crate::error::Error;
use crate::header::{
    dims_ok, header_bytes, max_len_impl, max_len_spec, Header,
};
use crate::model::{
    bytes_to_pixels, change_bytes, change_cache, enc, enc_payload, flush_bytes, padding_bytes,
};
use crate::pixel::{initial_pixel, Pixel};
use crate::state::{cache_wf, fresh_cache, Cache, State};

verus! {

/// The channel count a source buffer of `size` bytes implies for `npx`
/// pixels.
pub open spec fn src_channels(size: int, npx: int) -> int {
    size / npx
}

/// A source buffer is encodable: valid dimensions, a byte length that divides
/// into whole pixels, and 3 or 4 channels.
pub open spec fn encode_input_ok(size: int, width: u32, height: u32) -> bool {
    &&& dims_ok(width as int, height as int)
    &&& size % (width as int * height as int) == 0
    &&& (src_channels(size, width as int * height as int) == 3 || src_channels(
        size,
        width as int * height as int,
    ) == 4)
}

/// The error reported for a source buffer that is not encodable.
pub open spec fn encode_input_err(size: usize, width: u32, height: u32) -> Error {
    if !dims_ok(width as int, height as int) {
        Error::InvalidImageDimensions { width, height }
    } else if size as int % (width as int * height as int) != 0 {
        Error::InvalidImageLength { size, width, height }
    } else {
        Error::InvalidChannels {
            channels: min(src_channels(size as int, width as int * height as int), 255) as u8,
        }
    }
}

/// The header an encodable source buffer gets: inferred channels, sRGB tag.
pub open spec fn inferred_header(size: int, width: u32, height: u32) -> Header {
    Header {
        width,
        height,
        channels: src_channels(size, width as int * height as int) as u8,
        colorspace: 0,
    }
}

/// The byte stream that encoding a source buffer produces from cache `c`:
/// the opcode stream of the pixels, between header and padding unless in
/// payload-only mode.
pub open spec fn encoded_stream(
    data: Seq<u8>,
    width: u32,
    height: u32,
    c: Cache,
    data_only: bool,
) -> Seq<u8> {
    let h = inferred_header(data.len() as int, width, height);
    let body = enc_payload(bytes_to_pixels(data, h.channels as int), c).bytes;
    if data_only {
        body
    } else {
        header_bytes(h) + body + padding_bytes()
    }
}

/// Appends the flush of a pending run counter.
fn flush_run(run: u16, out: &mut Vec<u8>)
    requires
        1 <= run <= 1024,
    ensures
        final(out)@ == old(out)@ + flush_bytes(run as int),
{
    if run == 1 {
        out.push(0x6a);
    } else if run <= 63 {
        out.push(0xc0 + (run - 2) as u8);
    } else {
        let v = run - 64;
        out.push(0x80 + (v % 64) as u8);
        out.push(0xf0 + (v / 64) as u8);
    }
    assert(out@ =~= old(out)@ + flush_bytes(run as int));
}

/// Reads pixel `i` of a raw sample buffer.
fn read_pixel(data: &[u8], i: usize, channels: usize) -> (px: Pixel)
    requires
        channels == 3 || channels == 4,
        data@.len() as int % channels as int == 0,
        (i as int) < data@.len() as int / channels as int,
    ensures
        px == bytes_to_pixels(data@, channels as int)[i as int],
{
    let data_len = data.len();
    proof {
        let len = data@.len() as int;
        let ch = channels as int;
        let n = len / ch;
        lemma_fundamental_div_mod(len, ch);
        assert(len == ch * n);
        lemma_mul_inequality(i as int + 1, n, ch);
        assert(n * ch == ch * n) by (nonlinear_arith);
        assert((i as int + 1) * ch == i as int * ch + ch) by (nonlinear_arith);
        assert(i as int * ch + ch <= len);

    }
    let base = i * channels;
    if channels == 4 {
        Pixel { r: data[base], g: data[base + 1], b: data[base + 2], a: data[base + 3] }
    } else {
        Pixel { r: data[base], g: data[base + 1], b: data[base + 2], a: 0xff }
    }
}

/// Emits the opcode for a pixel that differs from its predecessor and applies
/// the cache rule: a direct index on a primary hit, a long index when the
/// secondary cache holds the pixel and a short delta would be replaced, else
/// the delta or literal bytes.
fn encode_change(state: &mut State, px: Pixel, prev: Pixel, out: &mut Vec<u8>)
    requires
        old(state).wf(),
    ensures
        final(state).wf(),
        final(out)@ == old(out)@ + change_bytes(px, prev, old(state)@),
        final(state)@ == change_cache(px, old(state)@),
{
    let h = px.hash_index();
    let l1px = state.get_l1(h);
    if l1px == px {
        out.push((h % 64) as u8);
        assert(out@ =~= old(out)@ + change_bytes(px, prev, old(state)@));
    } else {
        let dlen = px.delta_len(prev);
        let h10 = h % 1024;
        let l2px = state.get_l2(h);
        if dlen <= 2 && l2px == px && h10 % 16 != 15 {
            out.push(0x80 + (h10 / 16) as u8);
            out.push(16 * ((h10 % 16) as u8) + 0x0f);
            assert(out@ =~= old(out)@ + change_bytes(px, prev, old(state)@));
        } else {
            px.encode_into(prev, out);
            assert(out@ =~= old(out)@ + change_bytes(px, prev, old(state)@));
        }
        state.insert(px);
    }
}

/// Runs the encoder state machine over `data`, appending the opcode stream
/// to `out` and mutating the cache exactly as the model says.
#[verifier::loop_isolation(false)]
#[verifier::rlimit(100)]
pub(crate) fn encode_payload(state: &mut State, data: &[u8], channels: usize, out: &mut Vec<u8>)
    requires
        channels == 3 || channels == 4,
        old(state).wf(),
        data@.len() as int % channels as int == 0,
    ensures
        final(state).wf(),
        final(out)@ == old(out)@ + enc_payload(
            bytes_to_pixels(data@, channels as int),
            old(state)@,
        ).bytes,
        final(state)@ == enc_payload(bytes_to_pixels(data@, channels as int), old(state)@).cache,
{
    let ghost pixels = bytes_to_pixels(data@, channels as int);
    let ghost c0 = old(state)@;
    let ghost out0 = old(out)@;
    let n_pixels = data.len() / channels;
    proof {
        assert(pixels.len() == n_pixels);
    }
    let mut px_prev = Pixel::new().with_a(0xff);
    let mut run: u16 = 0;
    let mut i: usize = 0;
    proof {
        assert(enc_payload(pixels, c0).bytes =~= out@.skip(out0.len() as int) + enc(
            pixels,
            0,
            initial_pixel(),
            0,
            c0,
        ).bytes);
    }
    while i < n_pixels
        invariant
            i <= n_pixels,
            state.wf(),
            run <= 1023,
            i == n_pixels ==> run == 0,
            out0.len() <= out@.len(),
            out@.take(out0.len() as int) == out0,
            enc_payload(pixels, c0).bytes == out@.skip(out0.len() as int) + enc(
                pixels,
                i as int,
                px_prev,
                run as int,
                state@,
            ).bytes,
            enc_payload(pixels, c0).cache == enc(pixels, i as int, px_prev, run as int, state@).cache,
        decreases n_pixels - i,
    {
        let px = read_pixel(data, i, channels);
        let ghost out_pre = out@;
        let ghost prev_pre = px_prev;
        let ghost run_pre = run as int;
        let ghost c_pre = state@;
        if px == px_prev {
            run = run + 1;
            if run == 1024 || i == n_pixels - 1 {
                flush_run(run, out);
                run = 0;
                proof {
                    assert(enc(pixels, i as int, prev_pre, run_pre, c_pre).bytes == flush_bytes(
                        run_pre + 1,
                    ) + enc(pixels, i as int + 1, px_prev, 0, state@).bytes);
                }
            } else {
                proof {
                    assert(enc(pixels, i as int, prev_pre, run_pre, c_pre) == enc(
                        pixels,
                        i as int + 1,
                        px_prev,
                        run as int,
                        state@,
                    ));
                }
            }
        } else {
            if run > 0 {
                flush_run(run, out);
                run = 0;
            }
            proof {
                assert(out@ =~= out_pre + flush_bytes(run_pre));
            }
            let ghost out_flushed = out@;
            encode_change(state, px, px_prev, out);
            px_prev = px;
            proof {
                assert(out@ == out_flushed + change_bytes(px, prev_pre, c_pre));
                assert(enc(pixels, i as int, prev_pre, run_pre, c_pre).bytes == flush_bytes(run_pre)
                    + change_bytes(px, prev_pre, c_pre) + enc(
                    pixels,
                    i as int + 1,
                    px,
                    0,
                    state@,
                ).bytes);
            }
        }
        i = i + 1;
        proof {
            assert(out@.take(out0.len() as int) =~= out_pre.take(out0.len() as int));
            assert(enc_payload(pixels, c0).bytes == out@.skip(out0.len() as int) + enc(
                pixels,
                i as int,
                px_prev,
                run as int,
                state@,
            ).bytes) by {
                assert(out@.skip(out0.len() as int) =~= out_pre.skip(out0.len() as int) + (
                out@.skip(out_pre.len() as int)));
                assert(enc_payload(pixels, c0).bytes =~= out@.skip(out0.len() as int) + enc(
                    pixels,
                    i as int,
                    px_prev,
                    run as int,
                    state@,
                ).bytes);
            }
        }
    }
    proof {
        assert(enc(pixels, n_pixels as int, px_prev, 0, state@).bytes =~= Seq::<u8>::empty());
        assert(enc_payload(pixels, c0).bytes =~= out@.skip(out0.len() as int));
        assert(out@ =~= out0 + enc_payload(pixels, c0).bytes);
    }
}


/// Every pixel from `i` on is fully opaque.
pub open spec fn all_opaque(pixels: Seq<Pixel>, i: int) -> bool {
    forall|j: int| i <= j < pixels.len() ==> #[trigger] pixels[j].a == 0xff
}

/// The documented worst case: the opcode stream for the pixels from `i` on,
/// with `run` still pending, takes at most `k` bytes per pixel, where `k` is
/// `channels + 1` (4 suffices when every alpha is 0xff, since literals then
/// stay RGB).
pub proof fn lemma_enc_len(pixels: Seq<Pixel>, i: int, prev: Pixel, run: int, c: Cache, k: int)
    requires
        0 <= i <= pixels.len(),
        0 <= run,
        k == 4 || k == 5,
        k == 4 ==> prev.a == 0xff && all_opaque(pixels, i),
    ensures
        enc(pixels, i, prev, run, c).bytes.len() <= (pixels.len() - i + run) * k,
    decreases pixels.len() - i,
{
    let n = pixels.len() as int;
    lemma_mul_inequality(0, n - i + run, k);
    if i < n {
        let px = pixels[i];
        if px == prev {
            let run1 = run + 1;
            if run1 == 1024 || i == n - 1 {
                lemma_enc_len(pixels, i + 1, prev, 0, c, k);
                assert(flush_bytes(run1).len() <= 2);
                lemma_mul_is_distributive_add_other_way(k, n - i - 1, run + 1);
                lemma_mul_inequality(1, run + 1, k);
            } else {
                lemma_enc_len(pixels, i + 1, prev, run1, c, k);
            }
        } else {
            lemma_enc_len(pixels, i + 1, px, 0, change_cache(px, c), k);
            assert(change_bytes(px, prev, c).len() <= k);
            lemma_mul_is_distributive_add_other_way(k, n - i - 1, run + 1);
            lemma_mul_is_distributive_add_other_way(k, n - i - 1, 1);
            if run == 0 {
                assert(flush_bytes(0).len() == 0);
            } else {
                assert(flush_bytes(run).len() <= 2);
                lemma_mul_inequality(1, run, k);
            }
        }
    }
}

/// Appends the eight trailing padding bytes.
pub(crate) fn push_padding(out: &mut Vec<u8>)
    ensures
        final(out)@ == old(out)@ + padding_bytes(),
{
    out.push(0);
    out.push(0);
    out.push(0);
    out.push(0);
    out.push(0);
    out.push(0);
    out.push(0);
    out.push(1);
    assert(out@ =~= old(out)@ + padding_bytes());
}

/// Copies `src` over the front of `buf`, leaving the rest unchanged.
pub(crate) fn copy_into(buf: &mut Vec<u8>, src: &Vec<u8>)
    requires
        src@.len() <= old(buf)@.len(),
    ensures
        final(buf)@ == src@ + old(buf)@.skip(src@.len() as int),
{
    let mut j: usize = 0;
    while j < src.len()
        invariant
            j <= src@.len() <= buf@.len(),
            buf@.len() == old(buf)@.len(),
            forall|t: int| 0 <= t < j ==> buf@[t] == src@[t],
            forall|t: int| j <= t < buf@.len() ==> buf@[t] == old(buf)@[t],
        decreases src@.len() - j,
    {
        let v = src[j];
        buf.set(j, v);
        j = j + 1;
    }
    assert(buf@ =~= src@ + old(buf)@.skip(src@.len() as int));
}

/// The full stream for a pixel payload under header `h`: the opcode bytes,
/// framed by the header bytes and the trailing padding unless in payload-only
/// mode.
pub open spec fn stream_of(h: Header, data: Seq<u8>, c: Cache, data_only: bool) -> Seq<u8> {
    let body = enc_payload(bytes_to_pixels(data, h.channels as int), c).bytes;
    if data_only {
        body
    } else {
        header_bytes(h) + body + padding_bytes()
    }
}

/// Encode pixel buffers into byte streams. The encoder owns a cache state,
/// fresh or carried in, and hands it back through [`Encoder::into_state`] for
/// continuity across related images.
pub struct Encoder<'a> {
    data: &'a [u8],
    header: Header,
    state: State,
}

impl<'a> Encoder<'a> {
    /// The source bytes being encoded.
    pub closed spec fn data_spec(&self) -> Seq<u8> {
        self.data@
    }

    /// The header the stream will carry.
    pub closed spec fn header_spec(&self) -> Header {
        self.header
    }

    /// The cache the next encoding pass starts from.
    pub closed spec fn cache(&self) -> Cache {
        self.state@
    }

    /// A usable encoder: valid header, well-formed cache, and a source
    /// buffer of exactly `pixels * channels` bytes.
    pub open spec fn wf(&self) -> bool {
        &&& self.header_spec().valid()
        &&& cache_wf(self.cache())
        &&& self.data_spec().len() == self.header_spec().n_pixels_spec()
            * self.header_spec().channels as int
    }

    /// Creates an encoder with a fresh cache; the channel count is inferred
    /// from the buffer length and the dimensions.
    pub fn new(data: &'a [u8], width: u32, height: u32) -> (r: Result<Encoder<'a>, Error>)
        ensures
            r is Ok <==> encode_input_ok(data@.len() as int, width, height),
            r is Err ==> r->Err_0 == encode_input_err(data@.len() as usize, width, height),
            r is Ok ==> r->Ok_0.wf() && r->Ok_0.header_spec() == inferred_header(
                data@.len() as int,
                width,
                height,
            ) && r->Ok_0.cache() == fresh_cache() && r->Ok_0.data_spec() == data@,
    {
        Self::new_with(State::new(), data, width, height)
    }

    /// Creates an encoder that starts from a carried-in cache state.
    pub fn new_with(state: State, data: &'a [u8], width: u32, height: u32) -> (r: Result<
        Encoder<'a>,
        Error,
    >)
        requires
            state.wf(),
        ensures
            r is Ok <==> encode_input_ok(data@.len() as int, width, height),
            r is Err ==> r->Err_0 == encode_input_err(data@.len() as usize, width, height),
            r is Ok ==> r->Ok_0.wf() && r->Ok_0.header_spec() == inferred_header(
                data@.len() as int,
                width,
                height,
            ) && r->Ok_0.cache() == state@ && r->Ok_0.data_spec() == data@,
    {
        let size = data.len();
        match Header::try_new(width, height, 3, 0) {
            Err(e) => Err(e),
            Ok(header) => {
                let n_px = header.n_pixels();
                proof {
                    assert(n_px >= 1) by (nonlinear_arith)
                        requires
                            n_px == header.width as int * header.height as int,
                            header.width >= 1,
                            header.height >= 1,
                    ;
                }
                let n_channels = size / n_px;
                proof {
                    lemma_fundamental_div_mod(size as int, n_px as int);
                }
                if n_px * n_channels != size {
                    Err(Error::InvalidImageLength { size, width, height })
                } else if n_channels != 3 && n_channels != 4 {
                    let clamped: u8 = if n_channels > 255 {
                        255
                    } else {
                        n_channels as u8
                    };
                    Err(Error::InvalidChannels { channels: clamped })
                } else {
                    let h = Header { width, height, channels: n_channels as u8, colorspace: 0 };
                    proof {
                        assert((size as int / n_px as int) * n_px as int == n_px as int
                            * n_channels as int) by (nonlinear_arith)
                            requires
                                n_channels as int == size as int / n_px as int,
                        ;
                        assert(h.n_pixels_spec() * h.channels as int == n_px as int
                            * n_channels as int) by (nonlinear_arith)
                            requires
                                h.n_pixels_spec() == n_px as int,
                                h.channels as int == n_channels as int,
                        ;
                    }
                    Ok(Encoder { data, header: h, state })
                }
            },
        }
    }

    /// The same encoder with the header's color-space tag replaced. The tag
    /// never affects encoding or decoding.
    pub fn with_colorspace(self, colorspace: u8) -> (r: Encoder<'a>)
        ensures
            r.header_spec() == (Header {
                width: self.header_spec().width,
                height: self.header_spec().height,
                channels: self.header_spec().channels,
                colorspace,
            }),
            r.data_spec() == self.data_spec(),
            r.cache() == self.cache(),
            self.wf() ==> r.wf(),
    {
        Encoder {
            data: self.data,
            header: self.header.with_colorspace(colorspace),
            state: self.state,
        }
    }

    /// The inferred channel count.
    pub fn channels(&self) -> (ch: u8)
        ensures
            ch == self.header_spec().channels,
    {
        self.header.channels
    }

    /// The header that will be stored in the encoded stream.
    pub fn header(&self) -> (h: &Header)
        ensures
            *h == self.header_spec(),
    {
        &self.header
    }

    /// The most bytes the encoded stream can take; a safe buffer size for
    /// [`Encoder::encode_to_buf`].
    pub fn required_buf_len<const DATA_ONLY: bool>(&self) -> (n: usize)
        ensures
            n == max_len_spec(
                self.header_spec().width as int,
                self.header_spec().height as int,
                self.header_spec().channels as int,
                !DATA_ONLY,
            ),
    {
        self.header.encode_max_len(!DATA_ONLY)
    }

    /// Encodes into a pre-allocated buffer, returning the byte count written.
    /// Fails exactly when the buffer is smaller than `required_buf_len`, and
    /// then changes nothing.
    pub fn encode_to_buf<const DATA_ONLY: bool>(&mut self, buf: &mut Vec<u8>) -> (r: Result<
        usize,
        Error,
    >)
        requires
            old(self).wf(),
        ensures
            final(self).wf(),
            final(self).header_spec() == old(self).header_spec(),
            final(self).data_spec() == old(self).data_spec(),
            ({
                let required = max_len_spec(
                    old(self).header_spec().width as int,
                    old(self).header_spec().height as int,
                    old(self).header_spec().channels as int,
                    !DATA_ONLY,
                );
                let stream = stream_of(
                    old(self).header_spec(),
                    old(self).data_spec(),
                    old(self).cache(),
                    DATA_ONLY,
                );
                if old(buf)@.len() < required {
                    r == Err::<usize, Error>(
                        Error::OutputBufferTooSmall {
                            size: old(buf)@.len() as usize,
                            required: required as usize,
                        },
                    ) && final(buf)@ == old(buf)@ && final(self).cache() == old(self).cache()
                } else {
                    r == Ok::<usize, Error>(stream.len() as usize) && final(buf)@ == stream + old(
                        buf,
                    )@.skip(stream.len() as int) && final(self).cache() == enc_payload(
                        bytes_to_pixels(
                            old(self).data_spec(),
                            old(self).header_spec().channels as int,
                        ),
                        old(self).cache(),
                    ).cache
                }
            }),
    {
        let required = self.header.encode_max_len(!DATA_ONLY);
        if buf.len() < required {
            return Err(Error::OutputBufferTooSmall { size: buf.len(), required });
        }
        let tmp = self.encode_to_vec_inner::<DATA_ONLY>();
        copy_into(buf, &tmp);
        Ok(tmp.len())
    }

    /// Encodes into a newly allocated vector.
    pub fn encode_to_vec<const DATA_ONLY: bool>(&mut self) -> (r: Result<Vec<u8>, Error>)
        requires
            old(self).wf(),
        ensures
            final(self).wf(),
            final(self).header_spec() == old(self).header_spec(),
            final(self).data_spec() == old(self).data_spec(),
            r is Ok,
            r->Ok_0@ == stream_of(
                old(self).header_spec(),
                old(self).data_spec(),
                old(self).cache(),
                DATA_ONLY,
            ),
            r->Ok_0@.len() <= max_len_spec(
                old(self).header_spec().width as int,
                old(self).header_spec().height as int,
                old(self).header_spec().channels as int,
                !DATA_ONLY,
            ),
            final(self).cache() == enc_payload(
                bytes_to_pixels(old(self).data_spec(), old(self).header_spec().channels as int),
                old(self).cache(),
            ).cache,
    {
        Ok(self.encode_to_vec_inner::<DATA_ONLY>())
    }

    /// Encodes the buffer: header bytes unless payload-only, the opcode
    /// stream, then padding unless payload-only.
    fn encode_to_vec_inner<const DATA_ONLY: bool>(&mut self) -> (v: Vec<u8>)
        requires
            old(self).wf(),
        ensures
            final(self).wf(),
            final(self).header_spec() == old(self).header_spec(),
            final(self).data_spec() == old(self).data_spec(),
            v@ == stream_of(
                old(self).header_spec(),
                old(self).data_spec(),
                old(self).cache(),
                DATA_ONLY,
            ),
            v@.len() <= max_len_spec(
                old(self).header_spec().width as int,
                old(self).header_spec().height as int,
                old(self).header_spec().channels as int,
                !DATA_ONLY,
            ),
            final(self).cache() == enc_payload(
                bytes_to_pixels(old(self).data_spec(), old(self).header_spec().channels as int),
                old(self).cache(),
            ).cache,
    {
        let ghost pixels = bytes_to_pixels(self.data@, self.header.channels as int);
        let ghost c0 = self.state@;
        let mut tmp: Vec<u8> = if DATA_ONLY {
            Vec::new()
        } else {
            self.header.encode()
        };
        proof {
            let ch = self.header.channels as int;
            let npx = self.header.n_pixels_spec();
            assert(self.data@.len() as int % ch == 0) by (nonlinear_arith)
                requires
                    self.data@.len() == npx * ch,
                    ch == 3 || ch == 4,
                    npx >= 0,
            ;
        }
        encode_payload(&mut self.state, self.data, self.header.channels as usize, &mut tmp);
        if !DATA_ONLY {
            push_padding(&mut tmp);
        }
        proof {
            assert(tmp@ =~= stream_of(self.header, self.data@, c0, DATA_ONLY));
            lemma_stream_len(self.header, self.data@, c0, DATA_ONLY);
        }
        tmp
    }

    /// Consumes the encoder and hands the cache state back for reuse.
    pub fn into_state(self) -> (s: State)
        ensures
            s@ == self.cache(),
            self.wf() ==> s.wf(),
    {
        self.state
    }
}

/// The encoded stream never exceeds the documented worst case.
proof fn lemma_stream_len(h: Header, data: Seq<u8>, c: Cache, data_only: bool)
    requires
        h.valid(),
        data.len() == h.n_pixels_spec() * h.channels as int,
    ensures
        stream_of(h, data, c, data_only).len() <= max_len_spec(
            h.width as int,
            h.height as int,
            h.channels as int,
            !data_only,
        ),
{
    let ch = h.channels as int;
    let npx = h.n_pixels_spec();
    let pixels = bytes_to_pixels(data, ch);
    assert(data.len() as int / ch == npx) by (nonlinear_arith)
        requires
            data.len() == npx * ch,
            ch == 3 || ch == 4,
            npx >= 0,
    ;
    assert(pixels.len() == npx);
    if ch == 3 {
        assert forall|j: int| 0 <= j < pixels.len() implies #[trigger] pixels[j].a == 0xff by {
        }
        lemma_enc_len(pixels, 0, initial_pixel(), 0, c, 4);
    } else {
        lemma_enc_len(pixels, 0, initial_pixel(), 0, c, 5);
    }
    assert(npx * (ch + 1) <= 400_000_000 * 5) by (nonlinear_arith)
        requires
            0 <= npx <= 400_000_000,
            ch == 3 || ch == 4,
    ;
    assert(enc_payload(pixels, c).bytes.len() <= npx * (ch + 1)) by {
        assert((pixels.len() - 0 + 0) * (ch + 1) == npx * (ch + 1));
    }
}

/// The most bytes encoding an image of the given size can take; with framing
/// it includes header and padding.
pub fn encode_max_len<const DATA_ONLY: bool>(width: u32, height: u32, channels: u8) -> (n: usize)
    ensures
        n == max_len_spec(width as int, height as int, channels as int, !DATA_ONLY),
{
    max_len_impl(width, height, channels, !DATA_ONLY)
}

/// Encodes an image into a pre-allocated buffer and returns the byte count.
pub fn encode_to_buf<const DATA_ONLY: bool>(
    buf: &mut Vec<u8>,
    data: &[u8],
    width: u32,
    height: u32,
) -> (r: Result<usize, Error>)
    ensures
        !encode_input_ok(data@.len() as int, width, height) ==> r == Err::<usize, Error>(
            encode_input_err(data@.len() as usize, width, height),
        ) && final(buf)@ == old(buf)@,
        ({
            let h = inferred_header(data@.len() as int, width, height);
            let required = max_len_spec(width as int, height as int, h.channels as int, !DATA_ONLY);
            let stream = encoded_stream(data@, width, height, fresh_cache(), DATA_ONLY);
            encode_input_ok(data@.len() as int, width, height) ==> if old(buf)@.len() < required {
                r == Err::<usize, Error>(
                    Error::OutputBufferTooSmall {
                        size: old(buf)@.len() as usize,
                        required: required as usize,
                    },
                ) && final(buf)@ == old(buf)@
            } else {
                r == Ok::<usize, Error>(stream.len() as usize) && final(buf)@ == stream + old(
                    buf,
                )@.skip(stream.len() as int)
            }
        }),
{
    match Encoder::new(data, width, height) {
        Err(e) => Err(e),
        Ok(mut encoder) => encoder.encode_to_buf::<DATA_ONLY>(buf),
    }
}

/// Encodes an image into a newly allocated vector.
pub fn encode_to_vec<const DATA_ONLY: bool>(data: &[u8], width: u32, height: u32) -> (r: Result<
    Vec<u8>,
    Error,
>)
    ensures
        r is Ok <==> encode_input_ok(data@.len() as int, width, height),
        r is Err ==> r->Err_0 == encode_input_err(data@.len() as usize, width, height),
        r is Ok ==> r->Ok_0@ == encoded_stream(data@, width, height, fresh_cache(), DATA_ONLY),
{
    match Encoder::new(data, width, height) {
        Err(e) => Err(e),
        Ok(mut encoder) => encoder.encode_to_vec::<DATA_ONLY>(),
    }
}

} // verus!
