//! The mathematical model of the codec: what the encoder emits and what the
//! decoder reconstructs, as total functions over sequences.
//!
//! The executable encoder and decoder are each proved equal to the
//! corresponding function here, so every statement about the codec can be
//! made, and is made, about these definitions.

use vstd::math::min;
use vstd::prelude::*;

use crate::pixel::{
    apply_diff, apply_luma, delta_bytes, initial_pixel, Pixel,
};
use crate::state::{cache_insert, cache_promote, hash1024, hash64, Cache};

verus! {

/// The eight trailing padding bytes: seven zeros and the marker byte.
pub open spec fn padding_bytes() -> Seq<u8> {
    seq![0u8, 0u8, 0u8, 0u8, 0u8, 0u8, 0u8, 1u8]
}

/// Groups raw sample bytes into pixels of `ch` channels (3 or 4). With three
/// channels alpha is implicitly 0xff.
pub open spec fn bytes_to_pixels(data: Seq<u8>, ch: int) -> Seq<Pixel> {
    Seq::new(
        (data.len() / ch as nat) as nat,
        |i: int|
            Pixel {
                r: data[ch * i],
                g: data[ch * i + 1],
                b: data[ch * i + 2],
                a: if ch == 4 {
                    data[ch * i + 3]
                } else {
                    0xff
                },
            },
    )
}

/// Writes one pixel as `ch` output bytes: a narrower target drops alpha, a
/// wider target has alpha filled by the decode state machine.
pub open spec fn px_to_bytes(px: Pixel, ch: int) -> Seq<u8> {
    if ch == 4 {
        seq![px.r, px.g, px.b, px.a]
    } else {
        seq![px.r, px.g, px.b]
    }
}

/// Writes a pixel sequence as flat output bytes of `ch` channels.
pub open spec fn pixels_to_bytes(pixels: Seq<Pixel>, ch: int) -> Seq<u8>
    decreases pixels.len(),
{
    if pixels.len() == 0 {
        Seq::empty()
    } else {
        px_to_bytes(pixels[0], ch) + pixels_to_bytes(pixels.skip(1), ch)
    }
}

/// Appending one pixel appends its bytes.
pub proof fn lemma_pixels_to_bytes_push(pixels: Seq<Pixel>, px: Pixel, ch: int)
    ensures
        pixels_to_bytes(pixels.push(px), ch) == pixels_to_bytes(pixels, ch) + px_to_bytes(px, ch),
    decreases pixels.len(),
{
    let s = pixels.push(px);
    if pixels.len() == 0 {
        assert(s.skip(1) =~= Seq::<Pixel>::empty());
        assert(pixels_to_bytes(s.skip(1), ch) == Seq::<u8>::empty());
        assert(s[0] == px);
        assert(pixels_to_bytes(s, ch) == px_to_bytes(px, ch) + Seq::<u8>::empty());
        assert(pixels_to_bytes(pixels, ch) == Seq::<u8>::empty());
        assert(pixels_to_bytes(s, ch) =~= pixels_to_bytes(pixels, ch) + px_to_bytes(px, ch));
    } else {
        assert(s.skip(1) =~= pixels.skip(1).push(px));
        lemma_pixels_to_bytes_push(pixels.skip(1), px, ch);
        assert(s[0] == pixels[0]);
        assert(pixels_to_bytes(s, ch) == px_to_bytes(pixels[0], ch) + pixels_to_bytes(
            pixels.skip(1).push(px),
            ch,
        ));
        assert(pixels_to_bytes(s, ch) =~= pixels_to_bytes(pixels, ch) + px_to_bytes(px, ch));
    }
}

/// Concatenating pixel runs concatenates their bytes.
pub proof fn lemma_pixels_to_bytes_concat(xs: Seq<Pixel>, ys: Seq<Pixel>, ch: int)
    ensures
        pixels_to_bytes(xs + ys, ch) == pixels_to_bytes(xs, ch) + pixels_to_bytes(ys, ch),
    decreases ys.len(),
{
    if ys.len() == 0 {
        assert(xs + ys =~= xs);
        assert(pixels_to_bytes(xs + ys, ch) =~= pixels_to_bytes(xs, ch) + pixels_to_bytes(ys, ch));
    } else {
        let ys0 = ys.take(ys.len() - 1);
        let last = ys[ys.len() - 1];
        assert(ys =~= ys0.push(last));
        assert(xs + ys =~= (xs + ys0).push(last));
        lemma_pixels_to_bytes_concat(xs, ys0, ch);
        lemma_pixels_to_bytes_push(xs + ys0, last, ch);
        lemma_pixels_to_bytes_push(ys0, last, ch);
        assert(pixels_to_bytes(xs + ys, ch) =~= pixels_to_bytes(xs, ch) + pixels_to_bytes(ys, ch));
    }
}

// ---------------------------------------------------------------------------
// Encoder model
// ---------------------------------------------------------------------------

/// The bytes that flush a pending run counter. A counter of 1 is the
/// repeat-once opcode; up to 63 a one-byte run tag biased by 2; above that a
/// two-byte long run: the leading byte carries the low six bits of
/// `run - 64`, the second byte's low nibble the high four. A counter of 1024
/// yields the fixed maximum-run marker, which is exactly the long-run pair
/// for 1024.
pub open spec fn flush_bytes(run: int) -> Seq<u8> {
    if run <= 0 {
        Seq::empty()
    } else if run == 1 {
        seq![0x6au8]
    } else if run <= 63 {
        seq![(0xc0 + (run - 2)) as u8]
    } else {
        seq![(0x80 + ((run - 64) % 64)) as u8, (0xf0 + ((run - 64) / 64)) as u8]
    }
}

/// The encoder replaces a short delta by the two-byte long-index opcode when
/// the pixel already sits in its secondary cache slot — unless the low nibble
/// of its hash is all ones, which the wire format cannot carry (the second
/// byte would read as a long run).
pub open spec fn long_index_applies(px: Pixel, prev: Pixel, c: Cache) -> bool {
    &&& delta_bytes(px, prev).len() <= 2
    &&& c.l2[hash1024(px)] == px
    &&& hash1024(px) % 16 != 15
}

/// The two long-index bytes for a pixel: the leading byte carries the high
/// six bits of the 10-bit hash, the second byte's top nibble the low four.
pub open spec fn long_index_bytes(px: Pixel) -> Seq<u8> {
    seq![(0x80 + hash1024(px) / 16) as u8, (16 * (hash1024(px) % 16) + 0x0f) as u8]
}

/// The bytes emitted for a pixel that differs from its predecessor: the
/// direct index when the primary slot holds it, else a long index when that
/// applies, else the cheapest delta or literal.
pub open spec fn change_bytes(px: Pixel, prev: Pixel, c: Cache) -> Seq<u8> {
    if c.l1[hash64(px)] == px {
        seq![hash64(px) as u8]
    } else if long_index_applies(px, prev, c) {
        long_index_bytes(px)
    } else {
        delta_bytes(px, prev)
    }
}

/// The cache after encoding a changed pixel: untouched on a primary hit,
/// otherwise the insert-and-evict rule.
pub open spec fn change_cache(px: Pixel, c: Cache) -> Cache {
    if c.l1[hash64(px)] == px {
        c
    } else {
        cache_insert(c, px)
    }
}

/// What an encoding pass leaves behind: the emitted bytes and the cache.
#[verifier::ext_equal]
pub ghost struct EncOut {
    pub bytes: Seq<u8>,
    pub cache: Cache,
}

/// The encoder state machine from pixel `i` on, carrying the previous pixel,
/// the pending run counter and the cache. Equal pixels grow the run; the
/// counter flushes at 1024, at the last pixel, and before any change.
pub open spec fn enc(pixels: Seq<Pixel>, i: int, prev: Pixel, run: int, c: Cache) -> EncOut
    decreases pixels.len() - i,
{
    if i < 0 || i >= pixels.len() {
        EncOut { bytes: Seq::empty(), cache: c }
    } else {
        let px = pixels[i];
        if px == prev {
            let run1 = run + 1;
            if run1 == 1024 || i == pixels.len() - 1 {
                let rest = enc(pixels, i + 1, prev, 0, c);
                EncOut { bytes: flush_bytes(run1) + rest.bytes, cache: rest.cache }
            } else {
                enc(pixels, i + 1, prev, run1, c)
            }
        } else {
            let rest = enc(pixels, i + 1, px, 0, change_cache(px, c));
            EncOut {
                bytes: flush_bytes(run) + change_bytes(px, prev, c) + rest.bytes,
                cache: rest.cache,
            }
        }
    }
}

/// A whole encoding pass over a pixel buffer, from the initial pixel with an
/// empty run.
pub open spec fn enc_payload(pixels: Seq<Pixel>, c: Cache) -> EncOut {
    enc(pixels, 0, initial_pixel(), 0, c)
}

// ---------------------------------------------------------------------------
// Decoder model
// ---------------------------------------------------------------------------

/// What a decoding pass produces: whether the stream sufficed, the pixels
/// reconstructed, the position one past the last byte consumed, and the
/// final current pixel and cache.
#[verifier::ext_equal]
pub ghost struct DecOut {
    pub ok: bool,
    pub pixels: Seq<Pixel>,
    pub end: int,
    pub px: Pixel,
    pub cache: Cache,
}

/// A failed decode: the stream ended mid-opcode.
pub open spec fn dec_fail(pos: int, px: Pixel, c: Cache) -> DecOut {
    DecOut { ok: false, pixels: Seq::empty(), end: pos, px, cache: c }
}

/// Prefixes freshly reconstructed pixels onto the rest of a decode.
pub open spec fn dec_prepend(front: Seq<Pixel>, rest: DecOut) -> DecOut {
    DecOut {
        ok: rest.ok,
        pixels: front + rest.pixels,
        end: rest.end,
        px: rest.px,
        cache: rest.cache,
    }
}

/// The decoder state machine: reconstructs `n` more pixels from `bytes` at
/// `pos`, with current pixel `px` and cache `c`. Every opcode that changes
/// the current pixel applies the same cache rule as the encoder; run lengths
/// clamp to the remaining output space.
pub open spec fn dec(bytes: Seq<u8>, pos: int, n: int, px: Pixel, c: Cache) -> DecOut
    decreases n,
{
    if n <= 0 {
        DecOut { ok: true, pixels: Seq::empty(), end: pos, px, cache: c }
    } else if pos < 0 || pos >= bytes.len() {
        dec_fail(pos, px, c)
    } else {
        let b1 = bytes[pos];
        if b1 <= 0x3f {
            // direct index: read-only on the cache
            let npx = c.l1[b1 as int];
            dec_prepend(seq![npx], dec(bytes, pos + 1, n - 1, npx, c))
        } else if b1 == 0x6a {
            // repeat-once: the reserved zero-delta value; no cache mutation
            dec_prepend(seq![px], dec(bytes, pos + 1, n - 1, px, c))
        } else if b1 <= 0x7f {
            let npx = apply_diff(px, b1);
            dec_prepend(seq![npx], dec(bytes, pos + 1, n - 1, npx, cache_insert(c, npx)))
        } else if b1 <= 0xbf {
            if pos + 2 > bytes.len() {
                dec_fail(pos, px, c)
            } else {
                let b2 = bytes[pos + 1];
                if b2 >= 0xf0 {
                    // long-run continuation: clamp to the remaining space
                    let cnt = min(64 * (b2 - 0xf0) + (b1 - 0x80) + 64, n);
                    dec_prepend(
                        Seq::new(cnt as nat, |j: int| px),
                        dec(bytes, pos + 2, n - cnt, px, c),
                    )
                } else if b2 % 16 == 15 {
                    // long index: fetch from the secondary cache and promote
                    let h10 = 16 * (b1 - 0x80) + b2 / 16;
                    let npx = c.l2[h10];
                    dec_prepend(seq![npx], dec(bytes, pos + 2, n - 1, npx, cache_promote(c, h10)))
                } else {
                    let npx = apply_luma(px, b1, b2);
                    dec_prepend(seq![npx], dec(bytes, pos + 2, n - 1, npx, cache_insert(c, npx)))
                }
            }
        } else if b1 <= 0xfd {
            // short run: clamp to the remaining space
            let cnt = min(b1 - 0xc0 + 2, n);
            dec_prepend(Seq::new(cnt as nat, |j: int| px), dec(bytes, pos + 1, n - cnt, px, c))
        } else if b1 == 0xfe {
            if pos + 4 > bytes.len() {
                dec_fail(pos, px, c)
            } else {
                let npx = Pixel { r: bytes[pos + 1], g: bytes[pos + 2], b: bytes[pos + 3], a: px.a };
                dec_prepend(seq![npx], dec(bytes, pos + 4, n - 1, npx, cache_insert(c, npx)))
            }
        } else {
            if pos + 5 > bytes.len() {
                dec_fail(pos, px, c)
            } else {
                let npx = Pixel {
                    r: bytes[pos + 1],
                    g: bytes[pos + 2],
                    b: bytes[pos + 3],
                    a: bytes[pos + 4],
                };
                dec_prepend(seq![npx], dec(bytes, pos + 5, n - 1, npx, cache_insert(c, npx)))
            }
        }
    }
}


/// A pixel sequence of `ch` channels flattens to `ch` bytes per pixel.
pub proof fn lemma_pixels_to_bytes_len(pixels: Seq<Pixel>, ch: int)
    requires
        ch == 3 || ch == 4,
    ensures
        pixels_to_bytes(pixels, ch).len() == ch * pixels.len(),
    decreases pixels.len(),
{
    if pixels.len() == 0 {
    } else {
        lemma_pixels_to_bytes_len(pixels.skip(1), ch);
    }
}

/// A successful decode of `n` pixels yields exactly `n` pixels and consumes
/// bytes between `pos` and the end of the stream.
pub proof fn lemma_dec_bounds(bytes: Seq<u8>, pos: int, n: int, px: Pixel, c: Cache)
    requires
        0 <= pos <= bytes.len(),
    ensures
        dec(bytes, pos, n, px, c).ok ==> dec(bytes, pos, n, px, c).pixels.len() == (if n >= 0 {
            n
        } else {
            0
        }),
        dec(bytes, pos, n, px, c).ok ==> pos <= dec(bytes, pos, n, px, c).end <= bytes.len(),
    decreases n,
{
    if n <= 0 {
    } else if pos >= bytes.len() {
    } else {
        let b1 = bytes[pos];
        if b1 <= 0x3f {
            lemma_dec_bounds(bytes, pos + 1, n - 1, c.l1[b1 as int], c);
        } else if b1 == 0x6a {
            lemma_dec_bounds(bytes, pos + 1, n - 1, px, c);
        } else if b1 <= 0x7f {
            let npx = apply_diff(px, b1);
            lemma_dec_bounds(bytes, pos + 1, n - 1, npx, cache_insert(c, npx));
        } else if b1 <= 0xbf {
            if pos + 2 > bytes.len() {
            } else {
                let b2 = bytes[pos + 1];
                if b2 >= 0xf0 {
                    let cnt = min(64 * (b2 - 0xf0) + (b1 - 0x80) + 64, n);
                    lemma_dec_bounds(bytes, pos + 2, n - cnt, px, c);
                } else if b2 % 16 == 15 {
                    let h10 = 16 * (b1 - 0x80) + b2 / 16;
                    let npx = c.l2[h10];
                    lemma_dec_bounds(bytes, pos + 2, n - 1, npx, cache_promote(c, h10));
                } else {
                    let npx = apply_luma(px, b1, b2);
                    lemma_dec_bounds(bytes, pos + 2, n - 1, npx, cache_insert(c, npx));
                }
            }
        } else if b1 <= 0xfd {
            let cnt = min(b1 - 0xc0 + 2, n);
            lemma_dec_bounds(bytes, pos + 1, n - cnt, px, c);
        } else if b1 == 0xfe {
            if pos + 4 > bytes.len() {
            } else {
                let npx = Pixel { r: bytes[pos + 1], g: bytes[pos + 2], b: bytes[pos + 3], a: px.a };
                lemma_dec_bounds(bytes, pos + 4, n - 1, npx, cache_insert(c, npx));
            }
        } else {
            if pos + 5 > bytes.len() {
            } else {
                let npx = Pixel {
                    r: bytes[pos + 1],
                    g: bytes[pos + 2],
                    b: bytes[pos + 3],
                    a: bytes[pos + 4],
                };
                lemma_dec_bounds(bytes, pos + 5, n - 1, npx, cache_insert(c, npx));
            }
        }
    }
}

} // verus!
