//! The laws of the codec, stated over the model and proved once for all
//! inputs: what each opcode decodes back to, how runs flush, and the
//! round-trip of the whole pipeline.

use vstd::arithmetic::div_mod::{
    lemma_fundamental_div_mod, lemma_mod_mod, lemma_mod_multiples_vanish, lemma_small_mod,
};
use vstd::math::min;
use vstd::prelude::*;

use crate::decode::framed_result;
use crate::encode::{encode_input_ok, encoded_stream, inferred_header};
use crate::error::Error;
use crate::header::{be32_at, header_bytes, header_parses, parsed_header};
use crate::model::{
    bytes_to_pixels, change_bytes, change_cache, dec, dec_prepend, enc, enc_payload, flush_bytes,
    long_index_applies, long_index_bytes, padding_bytes, pixels_to_bytes, px_to_bytes,
};
use crate::pixel::{
    apply_diff, apply_luma, delta_bytes, diff_applies, diff_field, initial_pixel, luma_applies,
    luma_g_field, luma_rel_field, rel_b, rel_r, wsub, Pixel,
};
use crate::state::{cache_insert, cache_promote, cache_wf, fresh_cache, hash1024, hash64, Cache};

verus! {

/// Values congruent modulo 256 have the same remainder.
proof fn lemma_mod256_congruence(x: int, y: int, k: int)
    requires
        x == y + 256 * k,
    ensures
        x % 256 == y % 256,
{
    lemma_mod_multiples_vanish(k, y, 256);
}

/// Adding the wrapped difference back onto the subtrahend recovers the
/// minuend, modulo 256.
proof fn lemma_wsub_unwrap(a: u8, b: u8)
    ensures
        (b + wsub(a, b)) % 256 == a,
{
    lemma_fundamental_div_mod(a - b + 256, 256);
    let q = (a - b + 256) / 256;
    assert(b + wsub(a, b) == a + 256 * (1 - q));
    lemma_mod256_congruence(b + wsub(a, b), a as int, 1 - q);
    lemma_small_mod(a as nat, 256);
}

/// A wrapped difference of zero means the bytes are equal.
proof fn lemma_wsub_zero(a: u8, b: u8)
    ensures
        wsub(a, b) == 0 <==> a == b,
{
    lemma_fundamental_div_mod(a - b + 256, 256);
}

/// The small-delta byte of a changed pixel decodes back to that pixel: the
/// byte sits in the small-delta range, is never the reserved repeat-once
/// value, and `apply_diff` inverts it.
pub proof fn lemma_diff_inverse(px: Pixel, prev: Pixel)
    requires
        diff_applies(px, prev),
        px != prev,
    ensures
        delta_bytes(px, prev).len() == 1,
        0x40 <= delta_bytes(px, prev)[0] <= 0x7f,
        delta_bytes(px, prev)[0] != 0x6a,
        apply_diff(prev, delta_bytes(px, prev)[0]) == px,
{
    let dr = wsub(px.r, prev.r);
    let dg = wsub(px.g, prev.g);
    let db = wsub(px.b, prev.b);
    let fr = diff_field(dr);
    let fg = diff_field(dg);
    let fb = diff_field(db);
    let b1 = delta_bytes(px, prev)[0];
    assert(b1 == 0x40 + 16 * fr + 4 * fg + fb);
    let f = b1 - 0x40;
    assert(f / 16 == fr && f / 4 % 4 == fg && f % 4 == fb) by (nonlinear_arith)
        requires
            f == 16 * fr + 4 * fg + fb,
            0 <= fr <= 3,
            0 <= fg <= 3,
            0 <= fb <= 3,
    ;
    // channel recovery: fr + 254 differs from dr by a multiple of 256
    if dr >= 254 {
        lemma_mod256_congruence(prev.r + fr + 254, prev.r + dr, 0);
    } else {
        lemma_mod256_congruence(prev.r + fr + 254, prev.r + dr, 1);
    }
    lemma_wsub_unwrap(px.r, prev.r);
    if dg >= 254 {
        lemma_mod256_congruence(prev.g + fg + 254, prev.g + dg, 0);
    } else {
        lemma_mod256_congruence(prev.g + fg + 254, prev.g + dg, 1);
    }
    lemma_wsub_unwrap(px.g, prev.g);
    if db >= 254 {
        lemma_mod256_congruence(prev.b + fb + 254, prev.b + db, 0);
    } else {
        lemma_mod256_congruence(prev.b + fb + 254, prev.b + db, 1);
    }
    lemma_wsub_unwrap(px.b, prev.b);
    // the reserved value would mean a zero delta on every channel
    if b1 == 0x6a {
        assert(fr == 2 && fg == 2 && fb == 2) by (nonlinear_arith)
            requires
                16 * fr + 4 * fg + fb == 42,
                0 <= fr <= 3,
                0 <= fg <= 3,
                0 <= fb <= 3,
        ;
        lemma_wsub_zero(px.r, prev.r);
        lemma_wsub_zero(px.g, prev.g);
        lemma_wsub_zero(px.b, prev.b);
    }
}

/// The luma-delta pair of a changed pixel decodes back to that pixel: the
/// second byte never carries the long-run or long-index patterns, and
/// `apply_luma` inverts the pair.
pub proof fn lemma_luma_inverse(px: Pixel, prev: Pixel)
    requires
        luma_applies(px, prev),
    ensures
        delta_bytes(px, prev).len() <= 2,
        !diff_applies(px, prev) ==> {
            let b1 = delta_bytes(px, prev)[0];
            let b2 = delta_bytes(px, prev)[1];
            &&& delta_bytes(px, prev).len() == 2
            &&& 0x80 <= b1 <= 0xbf
            &&& b2 < 0xf0
            &&& b2 % 16 != 15
            &&& apply_luma(prev, b1, b2) == px
        },
{
    if !diff_applies(px, prev) {
        let dr = wsub(px.r, prev.r);
        let dg = wsub(px.g, prev.g);
        let db = wsub(px.b, prev.b);
        let drdg = rel_r(px, prev);
        let dbdg = rel_b(px, prev);
        let gf = luma_g_field(dg);
        let rf = luma_rel_field(drdg);
        let bf = luma_rel_field(dbdg);
        let b1 = delta_bytes(px, prev)[0];
        let b2 = delta_bytes(px, prev)[1];
        assert(b1 == 0x80 + gf && b2 == 16 * rf + bf);
        assert(b2 / 16 == rf && b2 % 16 == bf) by (nonlinear_arith)
            requires
                b2 == 16 * rf + bf,
                0 <= rf <= 14,
                0 <= bf <= 14,
        ;
        // green: gf + 224 differs from dg by a multiple of 256
        if dg >= 224 {
            lemma_mod256_congruence(prev.g + gf + 224, prev.g + dg, 0);
        } else {
            lemma_mod256_congruence(prev.g + gf + 224, prev.g + dg, 1);
        }
        lemma_wsub_unwrap(px.g, prev.g);
        // red: gf + rf + 217 differs from dr by a multiple of 256
        let ka: int = if dg >= 224 {
            0
        } else {
            1
        };
        let kb: int = if drdg >= 249 {
            0
        } else {
            1
        };
        lemma_fundamental_div_mod(dr - dg + 256, 256);
        let q = (dr - dg + 256) / 256;
        assert(drdg == dr - dg + 256 - 256 * q);
        assert(prev.r + gf + rf + 217 == (prev.r + dr) + 256 * (ka + kb - q)) by {
            assert(gf == dg + 32 - 256 * (1 - ka));
            assert(rf == drdg + 7 - 256 * (1 - kb));
        }
        lemma_mod256_congruence(prev.r + gf + rf + 217, prev.r + dr, ka + kb - q);
        lemma_wsub_unwrap(px.r, prev.r);
        // blue: symmetric
        let kc: int = if dbdg >= 249 {
            0
        } else {
            1
        };
        lemma_fundamental_div_mod(db - dg + 256, 256);
        let qb = (db - dg + 256) / 256;
        assert(dbdg == db - dg + 256 - 256 * qb);
        assert(prev.b + gf + bf + 217 == (prev.b + db) + 256 * (ka + kc - qb)) by {
            assert(gf == dg + 32 - 256 * (1 - ka));
            assert(bf == dbdg + 7 - 256 * (1 - kc));
        }
        lemma_mod256_congruence(prev.b + gf + bf + 217, prev.b + db, ka + kc - qb);
        lemma_wsub_unwrap(px.b, prev.b);
    }
}


/// Cache updates preserve the table sizes.
proof fn lemma_cache_ops_wf(c: Cache, px: Pixel)
    requires
        cache_wf(c),
    ensures
        cache_wf(cache_insert(c, px)),
        cache_wf(change_cache(px, c)),
{
}

/// `run` identical pixels, as the decoder reconstructs them.
pub open spec fn run_pixels(px: Pixel, run: int) -> Seq<Pixel> {
    Seq::new(run as nat, |j: int| px)
}

/// Decoding at a flushed run counter reconstructs exactly `run` copies of
/// the current pixel, touches no cache state, and moves past the flush
/// bytes.
proof fn lemma_flush_dec(bytes: Seq<u8>, pos: int, n: int, prev: Pixel, c: Cache, run: int)
    requires
        1 <= run <= 1024,
        run <= n,
        0 <= pos,
        pos + flush_bytes(run).len() <= bytes.len(),
        bytes.subrange(pos, pos + flush_bytes(run).len() as int) == flush_bytes(run),
    ensures
        dec(bytes, pos, n, prev, c) == dec_prepend(
            run_pixels(prev, run),
            dec(bytes, pos + flush_bytes(run).len() as int, n - run, prev, c),
        ),
{
    let fb = flush_bytes(run);
    let b1 = bytes[pos];
    assert(b1 == fb[0]) by {
        assert(bytes.subrange(pos, pos + fb.len() as int)[0] == bytes[pos]);
    }
    if run == 1 {
        assert(b1 == 0x6a);
        let rest = dec(bytes, pos + 1, n - 1, prev, c);
        assert(dec(bytes, pos, n, prev, c) == dec_prepend(seq![prev], rest));
        assert(seq![prev] =~= run_pixels(prev, 1));
        assert(dec_prepend(seq![prev], rest) =~= dec_prepend(run_pixels(prev, 1), rest));
    } else if run <= 63 {
        assert(b1 == 0xc0 + (run - 2));
        assert(0xc0 <= b1 <= 0xfd);
        let cnt = min(b1 - 0xc0 + 2, n);
        assert(cnt == run);
        assert(dec(bytes, pos, n, prev, c) == dec_prepend(
            Seq::new(cnt as nat, |j: int| prev),
            dec(bytes, pos + 1, n - cnt, prev, c),
        ));
        assert(Seq::new(cnt as nat, |j: int| prev) =~= run_pixels(prev, run));
    } else {
        let v = run - 64;
        assert(fb.len() == 2);
        let b2 = bytes[pos + 1];
        assert(b2 == fb[1]) by {
            assert(bytes.subrange(pos, pos + fb.len() as int)[1] == bytes[pos + 1]);
        }
        assert(b1 == 0x80 + v % 64 && b2 == 0xf0 + v / 64);
        lemma_fundamental_div_mod(v, 64);
        assert(0 <= v % 64 < 64 && 0 <= v / 64 <= 15);
        assert(0x80 <= b1 <= 0xbf && b2 >= 0xf0);
        let cnt = min(64 * (b2 - 0xf0) + (b1 - 0x80) + 64, n);
        assert(64 * (v / 64) + v % 64 == v);
        assert(cnt == run);
        assert(dec(bytes, pos, n, prev, c) == dec_prepend(
            Seq::new(cnt as nat, |j: int| prev),
            dec(bytes, pos + 2, n - cnt, prev, c),
        ));
        assert(Seq::new(cnt as nat, |j: int| prev) =~= run_pixels(prev, run));
    }
}

/// Decoding at the opcode of a changed pixel reconstructs that pixel,
/// applies the same cache rule the encoder applied, and moves past the
/// opcode bytes.
proof fn lemma_change_dec(bytes: Seq<u8>, pos: int, n: int, px: Pixel, prev: Pixel, c: Cache)
    requires
        px != prev,
        1 <= n,
        cache_wf(c),
        0 <= pos,
        pos + change_bytes(px, prev, c).len() <= bytes.len(),
        bytes.subrange(pos, pos + change_bytes(px, prev, c).len() as int) == change_bytes(
            px,
            prev,
            c,
        ),
    ensures
        dec(bytes, pos, n, prev, c) == dec_prepend(
            seq![px],
            dec(
                bytes,
                pos + change_bytes(px, prev, c).len() as int,
                n - 1,
                px,
                change_cache(px, c),
            ),
        ),
{
    let cb = change_bytes(px, prev, c);
    let h = crate::pixel::hash_of(px);
    let b1 = bytes[pos];
    assert(b1 == cb[0]) by {
        assert(bytes.subrange(pos, pos + cb.len() as int)[0] == bytes[pos]);
    }
    if c.l1[hash64(px)] == px {
        assert(0 <= hash64(px) < 64) by {
            assert(h >= 0);
        }
        assert(b1 == hash64(px) as u8);
        assert(b1 <= 0x3f);
        assert(c.l1[b1 as int] == px);
    } else if long_index_applies(px, prev, c) {
        let h10 = hash1024(px);
        assert(0 <= h10 < 1024) by {
            assert(h >= 0);
        }
        let b2 = bytes[pos + 1];
        assert(b2 == cb[1]) by {
            assert(bytes.subrange(pos, pos + cb.len() as int)[1] == bytes[pos + 1]);
        }
        assert(b1 == 0x80 + h10 / 16 && b2 == 16 * (h10 % 16) + 0x0f);
        lemma_fundamental_div_mod(h10, 16);
        assert(0 <= h10 % 16 <= 14 && 0 <= h10 / 16 <= 63);
        assert(0x80 <= b1 <= 0xbf);
        assert(b2 < 0xf0);
        assert(b2 % 16 == 15 && b2 / 16 == h10 % 16) by (nonlinear_arith)
            requires
                b2 == 16 * (h10 % 16) + 15,
                0 <= h10 % 16 <= 14,
        ;
        assert(16 * (b1 - 0x80) + b2 / 16 == h10);
        assert(c.l2[h10] == px);
        // the promotion equals the encoder's insert-and-evict rule
        assert(1024int == 64int * 16int);
        lemma_mod_mod(h, 64, 16);
        assert(h10 % 64 == hash64(px)) by {
            assert((h % (64int * 16int)) % 64 == h % 64);
        }
        assert(cache_promote(c, h10) == cache_insert(c, px));
    } else {
        if diff_applies(px, prev) {
            lemma_diff_inverse(px, prev);
            assert(0x40 <= b1 <= 0x7f && b1 != 0x6a && !(b1 <= 0x3f));
            assert(apply_diff(prev, b1) == px);
        } else if luma_applies(px, prev) {
            lemma_luma_inverse(px, prev);
            let b2 = bytes[pos + 1];
            assert(b2 == cb[1]) by {
                assert(bytes.subrange(pos, pos + cb.len() as int)[1] == bytes[pos + 1]);
            }
            assert(0x80 <= b1 <= 0xbf && b2 < 0xf0 && b2 % 16 != 15);
            assert(apply_luma(prev, b1, b2) == px);
        } else if px.a == prev.a {
            assert(b1 == 0xfe);
            assert(cb.len() == 4);
            assert(bytes[pos + 1] == px.r && bytes[pos + 2] == px.g && bytes[pos + 3] == px.b) by {
                assert(bytes.subrange(pos, pos + cb.len() as int)[1] == bytes[pos + 1]);
                assert(bytes.subrange(pos, pos + cb.len() as int)[2] == bytes[pos + 2]);
                assert(bytes.subrange(pos, pos + cb.len() as int)[3] == bytes[pos + 3]);
            }
            assert((Pixel { r: bytes[pos + 1], g: bytes[pos + 2], b: bytes[pos + 3], a: prev.a })
                == px);
        } else {
            assert(b1 == 0xff);
            assert(cb.len() == 5);
            assert(bytes[pos + 1] == px.r && bytes[pos + 2] == px.g && bytes[pos + 3] == px.b
                && bytes[pos + 4] == px.a) by {
                assert(bytes.subrange(pos, pos + cb.len() as int)[1] == bytes[pos + 1]);
                assert(bytes.subrange(pos, pos + cb.len() as int)[2] == bytes[pos + 2]);
                assert(bytes.subrange(pos, pos + cb.len() as int)[3] == bytes[pos + 3]);
                assert(bytes.subrange(pos, pos + cb.len() as int)[4] == bytes[pos + 4]);
            }
        }
    }
}


/// The decoder's final current pixel after replaying an encoding pass that
/// started at pixel `i` with previous pixel `prev`.
pub open spec fn final_px(pixels: Seq<Pixel>, i: int, prev: Pixel) -> Pixel {
    if i < pixels.len() {
        pixels[pixels.len() - 1]
    } else {
        prev
    }
}

/// The heart of the round-trip: wherever the bytes of an encoding pass
/// appear in a stream, decoding `run + remaining` pixels from that position
/// succeeds, reconstructs the pending run and the remaining pixels exactly,
/// consumes exactly the emitted bytes, and leaves the decoder's cache equal
/// to the encoder's.
pub proof fn lemma_enc_dec(
    pixels: Seq<Pixel>,
    i: int,
    prev: Pixel,
    run: int,
    c: Cache,
    bytes: Seq<u8>,
    pos: int,
)
    requires
        0 <= i <= pixels.len(),
        0 <= run <= 1023,
        i == pixels.len() ==> run == 0,
        cache_wf(c),
        0 <= pos,
        pos + enc(pixels, i, prev, run, c).bytes.len() <= bytes.len(),
        bytes.subrange(pos, pos + enc(pixels, i, prev, run, c).bytes.len() as int) == enc(
            pixels,
            i,
            prev,
            run,
            c,
        ).bytes,
    ensures
        ({
            let e = enc(pixels, i, prev, run, c);
            let d = dec(bytes, pos, run + (pixels.len() - i), prev, c);
            &&& d.ok
            &&& d.pixels == run_pixels(prev, run) + pixels.skip(i)
            &&& d.end == pos + e.bytes.len()
            &&& d.px == final_px(pixels, i, prev)
            &&& d.cache == e.cache
            &&& cache_wf(e.cache)
        }),
    decreases pixels.len() - i,
{
    let len = pixels.len() as int;
    let e = enc(pixels, i, prev, run, c);
    let n = run + (len - i);
    if i >= len {
        assert(run == 0);
        assert(run_pixels(prev, 0) + pixels.skip(i) =~= Seq::<Pixel>::empty());
        assert(dec(bytes, pos, 0, prev, c).pixels =~= run_pixels(prev, run) + pixels.skip(i));
    } else {
        let px = pixels[i];
        if px == prev {
            let run1 = run + 1;
            if run1 == 1024 || i == len - 1 {
                let fb = flush_bytes(run1);
                let rest = enc(pixels, i + 1, prev, 0, c);
                assert(e.bytes == fb + rest.bytes);
                assert(bytes.subrange(pos, pos + fb.len() as int) =~= fb) by {
                    assert(forall|k: int|
                        0 <= k < e.bytes.len() ==> bytes[pos + k] == #[trigger] e.bytes[k]) by {
                        assert(forall|k: int|
                            0 <= k < e.bytes.len() ==> #[trigger] e.bytes[k] == bytes.subrange(
                                pos,
                                pos + e.bytes.len() as int,
                            )[k]);
                    }
                }
                assert(bytes.subrange(
                    pos + fb.len() as int,
                    pos + fb.len() as int + rest.bytes.len() as int,
                ) =~= rest.bytes) by {
                    assert(forall|k: int|
                        0 <= k < e.bytes.len() ==> bytes[pos + k] == #[trigger] e.bytes[k]) by {
                        assert(forall|k: int|
                            0 <= k < e.bytes.len() ==> #[trigger] e.bytes[k] == bytes.subrange(
                                pos,
                                pos + e.bytes.len() as int,
                            )[k]);
                    }
                    assert(forall|k: int|
                        0 <= k < rest.bytes.len() ==> #[trigger] rest.bytes[k] == e.bytes[fb.len()
                            + k]);
                }
                lemma_flush_dec(bytes, pos, n, prev, c, run1);
                lemma_enc_dec(pixels, i + 1, prev, 0, c, bytes, pos + fb.len() as int);
                let drest = dec(bytes, pos + fb.len() as int, len - i - 1, prev, c);
                assert(n - run1 == len - i - 1);
                let d = dec(bytes, pos, n, prev, c);
                assert(d.pixels == run_pixels(prev, run1) + drest.pixels);
                assert(d.pixels =~= run_pixels(prev, run) + pixels.skip(i)) by {
                    assert(drest.pixels == run_pixels(prev, 0) + pixels.skip(i + 1));
                    assert(pixels.skip(i)[0] == prev);
                    assert(forall|k: int|
                        1 <= k < len - i ==> #[trigger] pixels.skip(i)[k] == pixels.skip(i + 1)[k
                            - 1]);
                }
                assert(d.px == final_px(pixels, i, prev)) by {
                    if i + 1 < len {
                    } else {
                        assert(pixels[len - 1] == prev);
                    }
                }
            } else {
                assert(e == enc(pixels, i + 1, prev, run1, c));
                lemma_enc_dec(pixels, i + 1, prev, run1, c, bytes, pos);
                let d = dec(bytes, pos, n, prev, c);
                assert(n == run1 + (len - (i + 1)));
                assert(d.pixels =~= run_pixels(prev, run) + pixels.skip(i)) by {
                    assert(d.pixels == run_pixels(prev, run1) + pixels.skip(i + 1));
                    assert(pixels.skip(i)[0] == prev);
                    assert(forall|k: int|
                        1 <= k < len - i ==> #[trigger] pixels.skip(i)[k] == pixels.skip(i + 1)[k
                            - 1]);
                    assert(forall|k: int|
                        0 <= k < run1 ==> #[trigger] run_pixels(prev, run1)[k] == prev);
                }
            }
        } else {
            let fb = flush_bytes(run);
            let cb = change_bytes(px, prev, c);
            let c2 = change_cache(px, c);
            let rest = enc(pixels, i + 1, px, 0, c2);
            assert(e.bytes == fb + cb + rest.bytes);
            assert(forall|k: int| 0 <= k < e.bytes.len() ==> bytes[pos + k] == #[trigger] e.bytes[k])
                by {
                assert(forall|k: int|
                    0 <= k < e.bytes.len() ==> #[trigger] e.bytes[k] == bytes.subrange(
                        pos,
                        pos + e.bytes.len() as int,
                    )[k]);
            }
            assert(forall|k: int| 0 <= k < fb.len() ==> #[trigger] (fb + cb)[k] == fb[k]);
            assert(bytes.subrange(pos, pos + fb.len() as int) =~= fb);
            let pos2 = pos + fb.len() as int;
            assert(bytes.subrange(pos2, pos2 + cb.len() as int) =~= cb) by {
                assert(forall|k: int|
                    0 <= k < cb.len() ==> #[trigger] cb[k] == e.bytes[fb.len() + k]);
            }
            let pos3 = pos2 + cb.len() as int;
            assert(bytes.subrange(pos3, pos3 + rest.bytes.len() as int) =~= rest.bytes) by {
                assert(forall|k: int|
                    0 <= k < rest.bytes.len() ==> #[trigger] rest.bytes[k] == e.bytes[fb.len()
                        + cb.len() + k]);
            }
            lemma_cache_ops_wf(c, px);
            if run > 0 {
                lemma_flush_dec(bytes, pos, n, prev, c, run);
            } else {
                assert(run_pixels(prev, 0) =~= Seq::<Pixel>::empty());
            }
            lemma_change_dec(bytes, pos2, n - run, px, prev, c);
            lemma_enc_dec(pixels, i + 1, px, 0, c2, bytes, pos3);
            let drest = dec(bytes, pos3, len - i - 1, px, c2);
            let dmid = dec(bytes, pos2, n - run, prev, c);
            let d = dec(bytes, pos, n, prev, c);
            assert(dmid == dec_prepend(seq![px], drest));
            if run > 0 {
                assert(d == dec_prepend(run_pixels(prev, run), dmid));
            } else {
                assert(d == dmid);
            }
            assert(d.pixels =~= run_pixels(prev, run) + pixels.skip(i)) by {
                assert(drest.pixels == run_pixels(px, 0) + pixels.skip(i + 1));
                assert(run_pixels(px, 0) + pixels.skip(i + 1) =~= pixels.skip(i + 1));
                assert(pixels.skip(i)[0] == px);
                assert(forall|k: int|
                    1 <= k < len - i ==> #[trigger] pixels.skip(i)[k] == pixels.skip(i + 1)[k - 1]);
            }
            assert(d.px == final_px(pixels, i, prev)) by {
                if i + 1 < len {
                } else {
                    assert(pixels[len - 1] == px);
                }
            }
            assert(d.end == pos + e.bytes.len());
        }
    }
}


/// Round-trip at the payload level: decoding the opcode stream of any
/// encoding pass, from the same starting cache, reconstructs the pixel
/// sequence exactly, consumes exactly the emitted bytes, and leaves both
/// caches equal.
pub proof fn lemma_payload_round_trip(pixels: Seq<Pixel>, c: Cache)
    requires
        cache_wf(c),
    ensures
        ({
            let e = enc_payload(pixels, c);
            let d = dec(e.bytes, 0, pixels.len() as int, initial_pixel(), c);
            d.ok && d.pixels == pixels && d.end == e.bytes.len() && d.cache == e.cache
        }),
{
    let e = enc_payload(pixels, c);
    assert(e.bytes.subrange(0, e.bytes.len() as int) =~= e.bytes);
    lemma_enc_dec(pixels, 0, initial_pixel(), 0, c, e.bytes, 0);
    assert(run_pixels(initial_pixel(), 0) + pixels.skip(0) =~= pixels);
}

/// Grouping raw bytes into pixels and flattening them again is the
/// identity on whole-pixel buffers.
pub proof fn lemma_conversion_round_trip(data: Seq<u8>, ch: int)
    requires
        ch == 3 || ch == 4,
        data.len() as int % ch == 0,
    ensures
        pixels_to_bytes(bytes_to_pixels(data, ch), ch) == data,
    decreases data.len(),
{
    let pxs = bytes_to_pixels(data, ch);
    if data.len() == 0 {
        assert(pxs.len() == 0);
        assert(pixels_to_bytes(pxs, ch) =~= data);
    } else {
        lemma_fundamental_div_mod(data.len() as int, ch);
        assert(data.len() as int == ch * (data.len() as int / ch));
        assert(data.len() as int / ch >= 1) by {
            if data.len() as int / ch <= 0 {
                assert(ch * (data.len() as int / ch) <= 0) by (nonlinear_arith)
                    requires
                        ch > 0,
                        data.len() as int / ch <= 0,
                ;
            }
        }
        assert(pxs.len() >= 1);
        let tail = data.skip(ch);
        assert(tail.len() as int % ch == 0) by {
            lemma_mod_multiples_vanish(-1, data.len() as int, ch);
        }
        lemma_conversion_round_trip(tail, ch);
        assert(pxs.skip(1) =~= bytes_to_pixels(tail, ch)) by {
            assert(tail.len() as int == data.len() - ch);
            assert(pxs.skip(1).len() == bytes_to_pixels(tail, ch).len()) by {
                assert((data.len() as int - ch) / ch == data.len() as int / ch - 1) by
                    (nonlinear_arith)
                    requires
                        ch > 0,
                        data.len() as int == ch * (data.len() as int / ch),
                ;
            }
            assert(forall|j: int|
                0 <= j < pxs.skip(1).len() ==> pxs.skip(1)[j] == #[trigger] bytes_to_pixels(
                    tail,
                    ch,
                )[j]) by {
                assert forall|j: int| 0 <= j < pxs.skip(1).len() implies pxs.skip(1)[j]
                    == #[trigger] bytes_to_pixels(tail, ch)[j] by {
                    assert(ch * (j + 1) == ch * j + ch) by (nonlinear_arith);
                    assert(0 <= ch * j && ch * j + ch <= tail.len()) by (nonlinear_arith)
                        requires
                            ch > 0,
                            0 <= j,
                            j < tail.len() as int / ch,
                            tail.len() as int == ch * (tail.len() as int / ch),
                    ;
                    assert(tail[ch * j] == data[ch * (j + 1)]);
                    assert(tail[ch * j + 1] == data[ch * (j + 1) + 1]);
                    assert(tail[ch * j + 2] == data[ch * (j + 1) + 2]);
                    if ch == 4 {
                        assert(tail[ch * j + 3] == data[ch * (j + 1) + 3]);
                    }
                }
            }
        }
        assert(px_to_bytes(pxs[0], ch) =~= data.take(ch));
        assert(pixels_to_bytes(pxs, ch) == px_to_bytes(pxs[0], ch) + pixels_to_bytes(
            pxs.skip(1),
            ch,
        ));
        assert(pixels_to_bytes(pxs, ch) =~= data) by {
            assert(data =~= data.take(ch) + data.skip(ch));
        }
    }
}


/// Round-trip of the whole pipeline: for any encodable pixel buffer, the
/// framed stream the encoder produces parses back to the same header, and
/// decoding its payload at the header's channel count reproduces the buffer
/// bit-exactly, with the padding verified.
#[verifier::rlimit(100)]
pub proof fn lemma_round_trip(data: Seq<u8>, width: u32, height: u32)
    requires
        encode_input_ok(data.len() as int, width, height),
    ensures
        ({
            let stream = encoded_stream(data, width, height, fresh_cache(), false);
            let h = inferred_header(data.len() as int, width, height);
            &&& header_parses(stream)
            &&& parsed_header(stream) == h
            &&& framed_result(
                stream.skip(14),
                h.n_pixels_spec(),
                h.channels as int,
                fresh_cache(),
                false,
            ) == Ok::<Seq<u8>, Error>(data)
        }),
{
    let h = inferred_header(data.len() as int, width, height);
    let npx = width as int * height as int;
    let ch = data.len() as int / npx;
    let c = fresh_cache();
    assert(npx >= 1) by (nonlinear_arith)
        requires
            width >= 1,
            height >= 1,
            npx == width as int * height as int,
    ;
    lemma_fundamental_div_mod(data.len() as int, npx);
    assert(data.len() as int == npx * ch);
    assert(h.channels as int == ch);
    assert(h.valid());
    assert(cache_wf(c));
    let pixels = bytes_to_pixels(data, ch);
    let body = enc_payload(pixels, c).bytes;
    let hb = header_bytes(h);
    let stream = encoded_stream(data, width, height, c, false);
    assert(stream == hb + body + padding_bytes());
    assert(hb.len() == 14);
    // the header comes back field for field
    crate::header::lemma_header_roundtrip(h);
    assert(forall|k: int| 0 <= k < 14 ==> #[trigger] stream[k] == hb[k]);
    assert(be32_at(stream, 4) == be32_at(hb, 4));
    assert(be32_at(stream, 8) == be32_at(hb, 8));
    assert(header_parses(stream));
    assert(parsed_header(stream) == h);
    // the payload decodes back to the pixels
    let tail = stream.skip(14);
    assert(tail.len() == body.len() + 8);
    assert(tail.subrange(0, body.len() as int) =~= body) by {
        assert(forall|k: int| 0 <= k < body.len() ==> #[trigger] tail[k] == stream[14 + k]);
        assert(forall|k: int|
            0 <= k < body.len() ==> #[trigger] stream[14 + k] == (hb + body + padding_bytes())[14
                + k]);
    }
    assert(pixels.len() == npx) by {
        assert((npx * ch) / ch == npx) by (nonlinear_arith)
            requires
                ch == 3 || ch == 4,
                npx >= 0,
        ;
    }
    assert(data.len() as int % ch == 0) by (nonlinear_arith)
        requires
            data.len() as int == npx * ch,
            ch == 3 || ch == 4,
            npx >= 0,
    ;
    lemma_enc_dec(pixels, 0, initial_pixel(), 0, c, tail, 0);
    let d = dec(tail, 0, npx, initial_pixel(), c);
    assert(d.ok && d.end == body.len());
    assert(d.pixels =~= pixels) by {
        assert(d.pixels == run_pixels(initial_pixel(), 0) + pixels.skip(0));
    }
    // the padding sits right behind the payload
    assert(tail.len() - d.end == 8);
    assert(tail.skip(d.end).take(8) =~= padding_bytes()) by {
        assert(forall|k: int|
            0 <= k < 8 ==> #[trigger] tail.skip(d.end)[k] == stream[14 + body.len() + k]);
        assert(forall|k: int|
            0 <= k < 8 ==> #[trigger] stream[14 + body.len() + k] == padding_bytes()[k]);
    }
    lemma_conversion_round_trip(data, ch);
    assert(pixels_to_bytes(d.pixels, ch) == data);
}

/// Truncation is caught: removing the last byte of a framed stream makes
/// decoding fail with the end-of-stream error, never silently succeed.
#[verifier::rlimit(100)]
pub proof fn lemma_truncation_rejected(data: Seq<u8>, width: u32, height: u32)
    requires
        encode_input_ok(data.len() as int, width, height),
    ensures
        ({
            let stream = encoded_stream(data, width, height, fresh_cache(), false);
            let t = stream.take(stream.len() - 1);
            let h = inferred_header(data.len() as int, width, height);
            &&& header_parses(t)
            &&& framed_result(
                t.skip(14),
                h.n_pixels_spec(),
                h.channels as int,
                fresh_cache(),
                false,
            ) == Err::<Seq<u8>, Error>(Error::UnexpectedBufferEnd)
        }),
{
    let h = inferred_header(data.len() as int, width, height);
    let npx = width as int * height as int;
    let ch = data.len() as int / npx;
    let c = fresh_cache();
    assert(npx >= 1) by (nonlinear_arith)
        requires
            width >= 1,
            height >= 1,
            npx == width as int * height as int,
    ;
    lemma_fundamental_div_mod(data.len() as int, npx);
    let pixels = bytes_to_pixels(data, ch);
    let body = enc_payload(pixels, c).bytes;
    let hb = header_bytes(h);
    let stream = encoded_stream(data, width, height, c, false);
    assert(stream == hb + body + padding_bytes());
    assert(hb.len() == 14);
    let t = stream.take(stream.len() - 1);
    crate::header::lemma_header_roundtrip(h);
    assert(forall|k: int| 0 <= k < 14 ==> #[trigger] t[k] == hb[k]);
    assert(be32_at(t, 4) == be32_at(hb, 4));
    assert(be32_at(t, 8) == be32_at(hb, 8));
    assert(header_parses(t));
    let tail = t.skip(14);
    assert(tail.len() == body.len() + 7);
    assert(tail.subrange(0, body.len() as int) =~= body) by {
        assert(forall|k: int| 0 <= k < body.len() ==> #[trigger] tail[k] == stream[14 + k]);
        assert(forall|k: int|
            0 <= k < body.len() ==> #[trigger] stream[14 + k] == (hb + body + padding_bytes())[14
                + k]);
    }
    assert(pixels.len() == npx) by {
        assert((npx * ch) / ch == npx) by (nonlinear_arith)
            requires
                ch == 3 || ch == 4,
                npx >= 0,
        ;
    }
    lemma_enc_dec(pixels, 0, initial_pixel(), 0, c, tail, 0);
    let d = dec(tail, 0, npx, initial_pixel(), c);
    assert(d.ok && d.end == body.len());
    assert(tail.len() - d.end == 7);
}

/// Corruption of any padding byte is caught: decoding fails with the
/// padding error, never silently succeeds.
#[verifier::rlimit(100)]
pub proof fn lemma_padding_corruption_rejected(
    data: Seq<u8>,
    width: u32,
    height: u32,
    j: int,
    v: u8,
)
    requires
        encode_input_ok(data.len() as int, width, height),
        0 <= j < 8,
        v != padding_bytes()[j],
    ensures
        ({
            let stream = encoded_stream(data, width, height, fresh_cache(), false);
            let t = stream.update(stream.len() - 8 + j, v);
            let h = inferred_header(data.len() as int, width, height);
            &&& header_parses(t)
            &&& framed_result(
                t.skip(14),
                h.n_pixels_spec(),
                h.channels as int,
                fresh_cache(),
                false,
            ) == Err::<Seq<u8>, Error>(Error::InvalidPadding)
        }),
{
    let h = inferred_header(data.len() as int, width, height);
    let npx = width as int * height as int;
    let ch = data.len() as int / npx;
    let c = fresh_cache();
    assert(npx >= 1) by (nonlinear_arith)
        requires
            width >= 1,
            height >= 1,
            npx == width as int * height as int,
    ;
    lemma_fundamental_div_mod(data.len() as int, npx);
    let pixels = bytes_to_pixels(data, ch);
    let body = enc_payload(pixels, c).bytes;
    let hb = header_bytes(h);
    let stream = encoded_stream(data, width, height, c, false);
    assert(stream == hb + body + padding_bytes());
    assert(hb.len() == 14);
    let idx = stream.len() - 8 + j;
    assert(idx == 14 + body.len() + j);
    let t = stream.update(idx, v);
    crate::header::lemma_header_roundtrip(h);
    assert(forall|k: int| 0 <= k < 14 ==> #[trigger] t[k] == hb[k]);
    assert(be32_at(t, 4) == be32_at(hb, 4));
    assert(be32_at(t, 8) == be32_at(hb, 8));
    assert(header_parses(t));
    let tail = t.skip(14);
    assert(tail.len() == body.len() + 8);
    assert(tail.subrange(0, body.len() as int) =~= body) by {
        assert(forall|k: int| 0 <= k < body.len() ==> #[trigger] tail[k] == t[14 + k]);
        assert(forall|k: int|
            0 <= k < body.len() ==> #[trigger] stream[14 + k] == (hb + body + padding_bytes())[14
                + k]);
    }
    assert(pixels.len() == npx) by {
        assert((npx * ch) / ch == npx) by (nonlinear_arith)
            requires
                ch == 3 || ch == 4,
                npx >= 0,
        ;
    }
    lemma_enc_dec(pixels, 0, initial_pixel(), 0, c, tail, 0);
    let d = dec(tail, 0, npx, initial_pixel(), c);
    assert(d.ok && d.end == body.len());
    assert(tail.len() - d.end == 8);
    assert(tail.skip(d.end).take(8)[j] == v);
    assert(tail.skip(d.end).take(8) != padding_bytes());
}

/// Runs flush regardless of pixel color: encoding a uniform tail of pixels
/// equal to the previous pixel, with `run` already pending and a total of at
/// most 1024, emits exactly the flush bytes of the total and leaves the
/// cache untouched. A total of 1 is the repeat-once opcode, 2 the run tag
/// with value zero, 1024 the fixed maximum-run marker.
pub proof fn lemma_uniform_run(pixels: Seq<Pixel>, i: int, prev: Pixel, run: int, c: Cache)
    requires
        0 <= i < pixels.len(),
        0 <= run,
        run + (pixels.len() - i) <= 1024,
        forall|j: int| i <= j < pixels.len() ==> pixels[j] == prev,
    ensures
        enc(pixels, i, prev, run, c).bytes == flush_bytes(run + (pixels.len() - i)),
        enc(pixels, i, prev, run, c).cache == c,
    decreases pixels.len() - i,
{
    let len = pixels.len() as int;
    let run1 = run + 1;
    assert(pixels[i] == prev);
    if run1 == 1024 || i == len - 1 {
        assert(i == len - 1) by {
            if i < len - 1 {
                assert(run + (len - i) >= run1 + 2);
            }
        }
        let rest = enc(pixels, i + 1, prev, 0, c);
        assert(rest.bytes == Seq::<u8>::empty());
        assert(enc(pixels, i, prev, run, c).bytes =~= flush_bytes(run1));
    } else {
        lemma_uniform_run(pixels, i + 1, prev, run1, c);
        assert(enc(pixels, i, prev, run, c) == enc(pixels, i + 1, prev, run1, c));
    }
}

/// The boundary opcodes of run flushing: a lone repeat is the 1-byte
/// repeat-once opcode, a run of two the 1-byte run tag with value zero, and
/// a run of exactly 1024 the fixed 2-byte maximum-run marker.
pub proof fn lemma_run_flush_opcodes()
    ensures
        flush_bytes(1) == seq![0x6au8],
        flush_bytes(2) == seq![0xc0u8],
        flush_bytes(1024) == seq![0x80u8, 0xffu8],
{
    assert(flush_bytes(2) =~= seq![0xc0u8]);
    assert(flush_bytes(1024) =~= seq![0x80u8, 0xffu8]);
}

/// A primary cache hit encodes as the 1-byte direct-index opcode naming the
/// pixel's slot, with no cache mutation.
pub proof fn lemma_cache_hit(px: Pixel, prev: Pixel, c: Cache)
    requires
        cache_wf(c),
        c.l1[hash64(px)] == px,
    ensures
        change_bytes(px, prev, c) == seq![hash64(px) as u8],
        change_cache(px, c) == c,
{
}

/// Long-index equivalence: when a short delta would be emitted but the
/// pixel already sits in its secondary cache slot (and its hash can travel),
/// the encoder emits the 2-byte long-index opcode instead; decoding it
/// yields the same pixel and performs the promotion swap, which equals the
/// encoder's insert-and-evict rule, leaving the pixel in its primary slot.
pub proof fn lemma_long_index_equivalence(px: Pixel, prev: Pixel, c: Cache)
    requires
        cache_wf(c),
        px != prev,
        c.l1[hash64(px)] != px,
        long_index_applies(px, prev, c),
    ensures
        change_bytes(px, prev, c) == long_index_bytes(px),
        long_index_bytes(px).len() == 2,
        ({
            let d = dec(long_index_bytes(px), 0, 1, prev, c);
            d.ok && d.pixels == seq![px] && d.px == px && d.cache == cache_insert(c, px)
        }),
        cache_insert(c, px).l1[hash64(px)] == px,
{
    let lb = long_index_bytes(px);
    assert(lb.subrange(0, 2) =~= lb);
    lemma_change_dec(lb, 0, 1, px, prev, c);
    let d = dec(lb, 0, 1, prev, c);
    assert(d.pixels =~= seq![px]);
    assert(0 <= hash64(px) < 64) by {
        assert(crate::pixel::hash_of(px) >= 0);
    }
}


/// The dimension guard: a header only ever parses when its pixel count is
/// positive and within the fixed maximum, so oversized images are rejected
/// before any decoding work.
pub proof fn lemma_max_pixel_guard(bytes: Seq<u8>)
    ensures
        header_parses(bytes) ==> 1 <= be32_at(bytes, 4) * be32_at(bytes, 8)
            <= crate::consts::QOI_PIXELS_MAX,
{
    if header_parses(bytes) {
        assert(be32_at(bytes, 4) * be32_at(bytes, 8) >= 1) by (nonlinear_arith)
            requires
                be32_at(bytes, 4) >= 1,
                be32_at(bytes, 8) >= 1,
        ;
    }
}

} // verus!
