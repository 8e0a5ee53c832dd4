//! The fixed 14-byte stream header: magic, dimensions, channels, color space.

use vstd::arithmetic::div_mod::{lemma_fundamental_div_mod, lemma_mod_bound};
use vstd::arithmetic::mul::lemma_mul_inequality;
use vstd::math::min;
use vstd::prelude::*;

use crate::consts::QOI_PIXELS_MAX;
use crate::error::Error;

verus! {

/// Dimensions a header may carry: both sides positive and the pixel count
/// within the fixed maximum (an overflow and resource guard).
pub open spec fn dims_ok(width: int, height: int) -> bool {
    1 <= width && 1 <= height && width * height <= QOI_PIXELS_MAX
}

/// The four magic bytes, `q o i f`.
pub open spec fn magic_ok(bytes: Seq<u8>) -> bool {
    bytes[0] == 0x71 && bytes[1] == 0x6f && bytes[2] == 0x69 && bytes[3] == 0x66
}

/// A 32-bit value in big-endian byte order.
pub open spec fn u32_be_bytes(x: u32) -> Seq<u8> {
    seq![
        (x / 0x1000000) as u8,
        ((x / 0x10000) % 256) as u8,
        ((x / 0x100) % 256) as u8,
        (x % 256) as u8,
    ]
}

/// The big-endian 32-bit value at `pos`.
pub open spec fn be32_at(bytes: Seq<u8>, pos: int) -> int {
    0x1000000 * bytes[pos] + 0x10000 * bytes[pos + 1] + 0x100 * bytes[pos + 2] + bytes[pos + 3]
}

/// The decoded image header.
#[derive(Clone, Copy, Debug, PartialEq, Eq, Structural)]
pub struct Header {
    /// Image width in pixels.
    pub width: u32,
    /// Image height in pixels.
    pub height: u32,
    /// Channel count of the source pixels: 3 or 4.
    pub channels: u8,
    /// Color-space tag. Purely informational: it never affects the codec.
    pub colorspace: u8,
}

/// The 14 bytes a header encodes to.
pub open spec fn header_bytes(h: Header) -> Seq<u8> {
    seq![0x71u8, 0x6fu8, 0x69u8, 0x66u8] + u32_be_bytes(h.width) + u32_be_bytes(h.height)
        + seq![h.channels, h.colorspace]
}

/// The header the first 14 bytes of a stream carry (field-wise; whether the
/// stream is acceptable is `header_parses`).
pub open spec fn parsed_header(bytes: Seq<u8>) -> Header {
    Header {
        width: be32_at(bytes, 4) as u32,
        height: be32_at(bytes, 8) as u32,
        channels: bytes[12],
        colorspace: bytes[13],
    }
}

/// A stream opens with an acceptable header: long enough, magic right,
/// channel count 3 or 4, dimensions within bounds.
pub open spec fn header_parses(bytes: Seq<u8>) -> bool {
    &&& bytes.len() >= 14
    &&& magic_ok(bytes)
    &&& (bytes[12] == 3 || bytes[12] == 4)
    &&& dims_ok(be32_at(bytes, 4), be32_at(bytes, 8))
}

/// The error a stream whose header does not parse gets, by the first check
/// that fails: length, magic, channel count, dimensions.
pub open spec fn header_error(bytes: Seq<u8>) -> Error {
    if bytes.len() < 14 {
        Error::UnexpectedBufferEnd
    } else if !magic_ok(bytes) {
        Error::InvalidMagic
    } else if !(bytes[12] == 3 || bytes[12] == 4) {
        Error::InvalidChannels { channels: bytes[12] }
    } else {
        Error::InvalidImageDimensions {
            width: be32_at(bytes, 4) as u32,
            height: be32_at(bytes, 8) as u32,
        }
    }
}

impl Header {
    /// A header the codec accepts: valid channel count and dimensions.
    pub open spec fn valid(self) -> bool {
        (self.channels == 3 || self.channels == 4) && dims_ok(self.width as int, self.height as int)
    }

    /// The pixel count, `width * height`.
    pub open spec fn n_pixels_spec(self) -> int {
        self.width * self.height
    }

    /// Builds a header, validating dimensions and channel count.
    pub fn try_new(width: u32, height: u32, channels: u8, colorspace: u8) -> (r: Result<
        Header,
        Error,
    >)
        ensures
            !dims_ok(width as int, height as int) ==> r == Err::<Header, Error>(
                Error::InvalidImageDimensions { width, height },
            ),
            dims_ok(width as int, height as int) && !(channels == 3 || channels == 4) ==> r == Err::<
                Header,
                Error,
            >(Error::InvalidChannels { channels }),
            dims_ok(width as int, height as int) && (channels == 3 || channels == 4) ==> r == Ok::<
                Header,
                Error,
            >(Header { width, height, channels, colorspace }),
            r is Ok ==> r->Ok_0.valid(),
    {
        proof {
            lemma_u32_mul_fits(width, height);
        }
        if width == 0 || height == 0 || (width as u64) * (height as u64) > QOI_PIXELS_MAX {
            Err(Error::InvalidImageDimensions { width, height })
        } else if channels != 3 && channels != 4 {
            Err(Error::InvalidChannels { channels })
        } else {
            Ok(Header { width, height, channels, colorspace })
        }
    }

    /// The same header with the color-space tag replaced.
    pub fn with_colorspace(self, colorspace: u8) -> (h: Header)
        ensures
            h == (Header {
                width: self.width,
                height: self.height,
                channels: self.channels,
                colorspace,
            }),
    {
        Header { width: self.width, height: self.height, channels: self.channels, colorspace }
    }

    /// The pixel count of the image.
    pub fn n_pixels(&self) -> (n: usize)
        requires
            self.width * self.height <= usize::MAX,
        ensures
            n == self.n_pixels_spec(),
    {
        (self.width as usize) * (self.height as usize)
    }

    /// The most bytes an image with these dimensions can encode to,
    /// saturating at `usize::MAX`; with framing it includes header and
    /// padding.
    pub fn encode_max_len(&self, framed: bool) -> (n: usize)
        ensures
            n == max_len_spec(
                self.width as int,
                self.height as int,
                self.channels as int,
                framed,
            ),
    {
        max_len_impl(self.width, self.height, self.channels, framed)
    }

    /// Serializes the header to its 14 bytes.
    pub fn encode(&self) -> (v: Vec<u8>)
        ensures
            v@ == header_bytes(*self),
            v@.len() == 14,
    {
        let mut v: Vec<u8> = Vec::new();
        v.push(0x71);
        v.push(0x6f);
        v.push(0x69);
        v.push(0x66);
        push_u32_be(&mut v, self.width);
        push_u32_be(&mut v, self.height);
        v.push(self.channels);
        v.push(self.colorspace);
        proof {
            assert(v@ =~= header_bytes(*self));
        }
        v
    }

    /// Parses and validates the header at the start of `data`.
    pub fn decode(data: &[u8]) -> (r: Result<Header, Error>)
        ensures
            data@.len() < 14 ==> r == Err::<Header, Error>(Error::UnexpectedBufferEnd),
            data@.len() >= 14 && !magic_ok(data@) ==> r == Err::<Header, Error>(
                Error::InvalidMagic,
            ),
            data@.len() >= 14 && magic_ok(data@) && !(data@[12] == 3 || data@[12] == 4) ==> r
                == Err::<Header, Error>(Error::InvalidChannels { channels: data@[12] }),
            data@.len() >= 14 && magic_ok(data@) && (data@[12] == 3 || data@[12] == 4) && !dims_ok(
                be32_at(data@, 4),
                be32_at(data@, 8),
            ) ==> r == Err::<Header, Error>(
                Error::InvalidImageDimensions {
                    width: be32_at(data@, 4) as u32,
                    height: be32_at(data@, 8) as u32,
                },
            ),
            header_parses(data@) ==> r == Ok::<Header, Error>(parsed_header(data@)),
            !header_parses(data@) ==> r == Err::<Header, Error>(header_error(data@)),
            r is Ok <==> header_parses(data@),
            r is Ok ==> r->Ok_0.valid(),
    {
        if data.len() < 14 {
            return Err(Error::UnexpectedBufferEnd);
        }
        if data[0] != 0x71 || data[1] != 0x6f || data[2] != 0x69 || data[3] != 0x66 {
            return Err(Error::InvalidMagic);
        }
        let channels = data[12];
        if channels != 3 && channels != 4 {
            return Err(Error::InvalidChannels { channels });
        }
        let width = read_u32_be(data, 4);
        let height = read_u32_be(data, 8);
        proof {
            lemma_u32_mul_fits(width, height);
        }
        if width == 0 || height == 0 || (width as u64) * (height as u64) > QOI_PIXELS_MAX {
            return Err(Error::InvalidImageDimensions { width, height });
        }
        Ok(Header { width, height, channels, colorspace: data[13] })
    }
}

/// Appends a 32-bit value in big-endian order.
fn push_u32_be(v: &mut Vec<u8>, x: u32)
    ensures
        final(v)@ == old(v)@ + u32_be_bytes(x),
{
    v.push((x / 0x1000000) as u8);
    v.push((x / 0x10000 % 256) as u8);
    v.push((x / 0x100 % 256) as u8);
    v.push((x % 256) as u8);
    assert(v@ =~= old(v)@ + u32_be_bytes(x));
}

/// Reads the big-endian 32-bit value at `pos`.
fn read_u32_be(data: &[u8], pos: usize) -> (x: u32)
    requires
        pos + 4 <= data@.len(),
    ensures
        x == be32_at(data@, pos as int),
{
    0x1000000 * (data[pos] as u32) + 0x10000 * (data[pos + 1] as u32) + 0x100 * (data[pos
        + 2] as u32) + (data[pos + 3] as u32)
}

/// Serializing a valid header and parsing the bytes back yields the header.
pub proof fn lemma_header_roundtrip(h: Header)
    requires
        h.valid(),
    ensures
        header_parses(header_bytes(h)),
        parsed_header(header_bytes(h)) == h,
{
    let bytes = header_bytes(h);
    lemma_be32_roundtrip(h.width);
    lemma_be32_roundtrip(h.height);
    assert(u32_be_bytes(h.width) =~= bytes.subrange(4, 8));
    assert(u32_be_bytes(h.height) =~= bytes.subrange(8, 12));
    assert(be32_at(bytes, 4) == h.width);
    assert(be32_at(bytes, 8) == h.height);
}

/// Big-endian serialization of a 32-bit value inverts exactly.
proof fn lemma_be32_roundtrip(x: u32)
    ensures
        be32_at(u32_be_bytes(x), 0) == x,
{
    assert(0x1000000 * (x / 0x1000000) + 0x10000 * ((x / 0x10000) % 256) + 0x100 * ((x / 0x100)
        % 256) + (x % 256) == x) by (bit_vector);
}

/// The encoded-size bound: `pixels * (channels + 1)` plus framing when
/// present, saturating at `usize::MAX`.
pub open spec fn max_len_spec(width: int, height: int, channels: int, framed: bool) -> int {
    min(width * height * (channels + 1) + (if framed { 22int } else { 0int }), usize::MAX as int)
}

/// The product of two 32-bit values fits in 64 bits.
proof fn lemma_u32_mul_fits(a: u32, b: u32)
    ensures
        a * b <= 0xffff_fffe_0000_0001,
{
    assert(a * b <= 0xffff_ffff * 0xffff_ffff) by (nonlinear_arith)
        requires
            a <= 0xffff_ffffu32,
            b <= 0xffff_ffffu32,
    ;
}

/// Multiplication saturating at `usize::MAX`.
pub(crate) fn sat_mul(a: usize, b: usize) -> (r: usize)
    ensures
        r == min(a * b, usize::MAX as int),
{
    if a == 0 {
        0
    } else {
        let q = usize::MAX / a;
        proof {
            lemma_fundamental_div_mod(usize::MAX as int, a as int);
            lemma_mod_bound(usize::MAX as int, a as int);
        }
        if b <= q {
            proof {
                lemma_mul_inequality(b as int, q as int, a as int);
                assert(a * b == b * a) by (nonlinear_arith);
                assert(q * a == a * q) by (nonlinear_arith);
            }
            a * b
        } else {
            proof {
                lemma_mul_inequality(q as int + 1, b as int, a as int);
                assert((q as int + 1) * (a as int) == q * a + a) by (nonlinear_arith);
                assert(a * b == b * a) by (nonlinear_arith);
                assert(q * a == a * q) by (nonlinear_arith);
            }
            usize::MAX
        }
    }
}

/// Addition saturating at `usize::MAX`.
pub(crate) fn sat_add(a: usize, b: usize) -> (r: usize)
    ensures
        r == min(a + b, usize::MAX as int),
{
    if a <= usize::MAX - b {
        a + b
    } else {
        usize::MAX
    }
}

/// Computes `max_len_spec` with saturating arithmetic.
pub(crate) fn max_len_impl(width: u32, height: u32, channels: u8, framed: bool) -> (n: usize)
    ensures
        n == max_len_spec(width as int, height as int, channels as int, framed),
{
    let w = width as usize;
    let h = height as usize;
    let ch1 = channels as usize + 1;
    let framing: usize = if framed {
        22
    } else {
        0
    };
    let p = sat_mul(w, h);
    let q = sat_mul(p, ch1);
    let r = sat_add(q, framing);
    proof {
        let m = usize::MAX as int;
        let wh = width as int * height as int;
        let c1 = channels as int + 1;
        assert(wh >= 0 && c1 >= 1) by (nonlinear_arith)
            requires
                width >= 0 && height >= 0 && channels >= 0,
                wh == width as int * height as int,
                c1 == channels as int + 1,
        ;
        assert(wh * c1 >= wh) by (nonlinear_arith)
            requires
                wh >= 0 && c1 >= 1,
        ;
        if wh > m {
            assert(m * c1 >= m) by (nonlinear_arith)
                requires
                    m >= 0 && c1 >= 1,
            ;
        }
    }
    r
}

} // verus!
