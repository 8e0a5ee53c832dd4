//! The pixel value type and its delta arithmetic.
//!
//! A pixel is four ordered byte samples. All channel deltas travel on the
//! wire modulo 256, so the specification works with wrapped differences in
//! `[0, 255]`: a wrapped delta `d` stands for the signed delta `d` when small
//! and `d - 256` when close to 256.

use vstd::prelude::*;

verus! {

/// One color sample: red, green, blue, alpha. Equality is exact on all four
/// channels. For 3-channel operation alpha stays 0xff and never travels.
#[derive(Clone, Copy, Debug, PartialEq, Eq, Structural)]
pub struct Pixel {
    pub r: u8,
    pub g: u8,
    pub b: u8,
    pub a: u8,
}

/// The multiplicative color hash that addresses both cache levels.
pub open spec fn hash_of(p: Pixel) -> int {
    3 * p.r + 5 * p.g + 7 * p.b + 11 * p.a
}

/// The all-zero pixel that fills both cache levels initially.
pub open spec fn zero_pixel() -> Pixel {
    Pixel { r: 0, g: 0, b: 0, a: 0 }
}

/// The pixel both state machines start from: opaque black.
pub open spec fn initial_pixel() -> Pixel {
    Pixel { r: 0, g: 0, b: 0, a: 0xff }
}

/// Wrapped difference of two channel bytes, in `[0, 255]`.
pub open spec fn wsub(a: u8, b: u8) -> int {
    (a - b + 256) % 256
}

/// A wrapped delta representable by the small-delta opcode: signed `[-2, 1]`.
pub open spec fn diff_fits(d: int) -> bool {
    d <= 1 || d >= 254
}

/// The 2-bit field for a small delta: the signed delta biased by 2.
pub open spec fn diff_field(d: int) -> int {
    if d >= 254 {
        d - 254
    } else {
        d + 2
    }
}

/// A wrapped green delta representable by the luma opcode: signed `[-32, 31]`.
pub open spec fn luma_g_fits(d: int) -> bool {
    d <= 31 || d >= 224
}

/// The 6-bit field for a luma green delta: the signed delta biased by 32.
pub open spec fn luma_g_field(d: int) -> int {
    if d >= 224 {
        d - 224
    } else {
        d + 32
    }
}

/// A wrapped relative delta representable by a luma nibble: signed `[-7, 7]`.
/// The value 15 stays reserved so the second byte's nibbles never read as the
/// long-run or long-index patterns.
pub open spec fn luma_rel_fits(d: int) -> bool {
    d <= 7 || d >= 249
}

/// The 4-bit field for a relative delta: the signed delta biased by 7.
pub open spec fn luma_rel_field(d: int) -> int {
    if d >= 249 {
        d - 249
    } else {
        d + 7
    }
}

/// Wrapped red-minus-green delta between two pixels.
pub open spec fn rel_r(px: Pixel, prev: Pixel) -> int {
    (wsub(px.r, prev.r) - wsub(px.g, prev.g) + 256) % 256
}

/// Wrapped blue-minus-green delta between two pixels.
pub open spec fn rel_b(px: Pixel, prev: Pixel) -> int {
    (wsub(px.b, prev.b) - wsub(px.g, prev.g) + 256) % 256
}

/// The small-delta opcode represents this transition.
pub open spec fn diff_applies(px: Pixel, prev: Pixel) -> bool {
    &&& px.a == prev.a
    &&& diff_fits(wsub(px.r, prev.r))
    &&& diff_fits(wsub(px.g, prev.g))
    &&& diff_fits(wsub(px.b, prev.b))
}

/// The luma-delta opcode represents this transition.
pub open spec fn luma_applies(px: Pixel, prev: Pixel) -> bool {
    &&& px.a == prev.a
    &&& luma_g_fits(wsub(px.g, prev.g))
    &&& luma_rel_fits(rel_r(px, prev))
    &&& luma_rel_fits(rel_b(px, prev))
}

/// The bytes of the cheapest non-index opcode for the transition from `prev`
/// to `px`: small delta (1 byte), luma delta (2), literal RGB (4) when alpha
/// is unchanged, literal RGBA (5) otherwise.
pub open spec fn delta_bytes(px: Pixel, prev: Pixel) -> Seq<u8> {
    if diff_applies(px, prev) {
        seq![
            (0x40 + 16 * diff_field(wsub(px.r, prev.r)) + 4 * diff_field(wsub(px.g, prev.g))
                + diff_field(wsub(px.b, prev.b))) as u8,
        ]
    } else if luma_applies(px, prev) {
        seq![
            (0x80 + luma_g_field(wsub(px.g, prev.g))) as u8,
            (16 * luma_rel_field(rel_r(px, prev)) + luma_rel_field(rel_b(px, prev))) as u8,
        ]
    } else if px.a == prev.a {
        seq![0xfeu8, px.r, px.g, px.b]
    } else {
        seq![0xffu8, px.r, px.g, px.b, px.a]
    }
}

/// The pixel a small-delta opcode byte reconstructs from `px`.
pub open spec fn apply_diff(px: Pixel, b1: u8) -> Pixel {
    let f = b1 - 0x40;
    Pixel {
        r: ((px.r + f / 16 + 254) % 256) as u8,
        g: ((px.g + f / 4 % 4 + 254) % 256) as u8,
        b: ((px.b + f % 4 + 254) % 256) as u8,
        a: px.a,
    }
}

/// The pixel a luma-delta opcode pair reconstructs from `px`.
pub open spec fn apply_luma(px: Pixel, b1: u8, b2: u8) -> Pixel {
    let gf = b1 - 0x80;
    let rf = b2 / 16;
    let bf = b2 % 16;
    Pixel {
        r: ((px.r + gf + rf + 217) % 256) as u8,
        g: ((px.g + gf + 224) % 256) as u8,
        b: ((px.b + gf + bf + 217) % 256) as u8,
        a: px.a,
    }
}

impl Pixel {
    /// The all-zero pixel.
    pub fn new() -> (p: Pixel)
        ensures
            p == zero_pixel(),
    {
        Pixel { r: 0, g: 0, b: 0, a: 0 }
    }

    /// The same pixel with the alpha channel replaced.
    pub fn with_a(self, a: u8) -> (p: Pixel)
        ensures
            p == (Pixel { r: self.r, g: self.g, b: self.b, a }),
    {
        Pixel { r: self.r, g: self.g, b: self.b, a }
    }

    /// The cache hash of this pixel; both levels mask it down to their size.
    pub fn hash_index(&self) -> (h: u16)
        ensures
            h == hash_of(*self),
    {
        3 * (self.r as u16) + 5 * (self.g as u16) + 7 * (self.b as u16) + 11 * (self.a as u16)
    }

    /// Replaces the color channels, keeping alpha.
    pub fn update_rgb(&mut self, r: u8, g: u8, b: u8)
        ensures
            *final(self) == (Pixel { r, g, b, a: old(self).a }),
    {
        self.r = r;
        self.g = g;
        self.b = b;
    }

    /// Replaces all four channels.
    pub fn update_rgba(&mut self, r: u8, g: u8, b: u8, a: u8)
        ensures
            *final(self) == (Pixel { r, g, b, a }),
    {
        self.r = r;
        self.g = g;
        self.b = b;
        self.a = a;
    }

    /// Applies a small-delta opcode byte to this pixel.
    pub fn update_diff(&mut self, b1: u8)
        requires
            0x40 <= b1 <= 0x7f,
        ensures
            *final(self) == apply_diff(*old(self), b1),
    {
        let f = (b1 - 0x40) as u16;
        let r0 = self.r as u16;
        let g0 = self.g as u16;
        let b0 = self.b as u16;
        self.r = ((r0 + f / 16 + 254) % 256) as u8;
        self.g = ((g0 + f / 4 % 4 + 254) % 256) as u8;
        self.b = ((b0 + f % 4 + 254) % 256) as u8;
    }

    /// Applies a luma-delta opcode pair to this pixel.
    pub fn update_luma(&mut self, b1: u8, b2: u8)
        requires
            0x80 <= b1 <= 0xbf,
        ensures
            *final(self) == apply_luma(*old(self), b1, b2),
    {
        let gf = (b1 - 0x80) as u16;
        let rf = (b2 / 16) as u16;
        let bf = (b2 % 16) as u16;
        let r0 = self.r as u16;
        let g0 = self.g as u16;
        let b0 = self.b as u16;
        self.r = ((r0 + gf + rf + 217) % 256) as u8;
        self.g = ((g0 + gf + 224) % 256) as u8;
        self.b = ((b0 + gf + bf + 217) % 256) as u8;
    }

    /// The length of the delta representation `delta_bytes` would choose.
    pub fn delta_len(&self, prev: Pixel) -> (n: usize)
        ensures
            n == delta_bytes(*self, prev).len(),
    {
        let dr = wrapped_sub(self.r, prev.r);
        let dg = wrapped_sub(self.g, prev.g);
        let db = wrapped_sub(self.b, prev.b);
        if self.a == prev.a && diff_fits_exec(dr) && diff_fits_exec(dg) && diff_fits_exec(db) {
            1
        } else {
            let drdg = wrapped_sub_u8(dr, dg);
            let dbdg = wrapped_sub_u8(db, dg);
            if self.a == prev.a && luma_g_fits_exec(dg) && luma_rel_fits_exec(drdg)
                && luma_rel_fits_exec(dbdg) {
                2
            } else if self.a == prev.a {
                4
            } else {
                5
            }
        }
    }

    /// Appends the delta representation of the transition from `prev` to
    /// `self` to `out`.
    pub fn encode_into(&self, prev: Pixel, out: &mut Vec<u8>)
        ensures
            final(out)@ == old(out)@ + delta_bytes(*self, prev),
    {
        let dr = wrapped_sub(self.r, prev.r);
        let dg = wrapped_sub(self.g, prev.g);
        let db = wrapped_sub(self.b, prev.b);
        if self.a == prev.a && diff_fits_exec(dr) && diff_fits_exec(dg) && diff_fits_exec(db) {
            out.push(0x40 + 16 * diff_field_exec(dr) + 4 * diff_field_exec(dg)
                + diff_field_exec(db));
            assert(out@ =~= old(out)@ + delta_bytes(*self, prev));
        } else {
            let drdg = wrapped_sub_u8(dr, dg);
            let dbdg = wrapped_sub_u8(db, dg);
            if self.a == prev.a && luma_g_fits_exec(dg) && luma_rel_fits_exec(drdg)
                && luma_rel_fits_exec(dbdg) {
                out.push(0x80 + luma_g_field_exec(dg));
                out.push(16 * luma_rel_field_exec(drdg) + luma_rel_field_exec(dbdg));
                assert(out@ =~= old(out)@ + delta_bytes(*self, prev));
            } else if self.a == prev.a {
                out.push(0xfe);
                out.push(self.r);
                out.push(self.g);
                out.push(self.b);
                assert(out@ =~= old(out)@ + delta_bytes(*self, prev));
            } else {
                out.push(0xff);
                out.push(self.r);
                out.push(self.g);
                out.push(self.b);
                out.push(self.a);
                assert(out@ =~= old(out)@ + delta_bytes(*self, prev));
            }
        }
    }
}

/// Wrapped difference of two channel bytes.
pub fn wrapped_sub(a: u8, b: u8) -> (d: u8)
    ensures
        d == wsub(a, b),
{
    (((a as u16) + 256 - (b as u16)) % 256) as u8
}

/// Wrapped difference of two already-wrapped deltas.
fn wrapped_sub_u8(a: u8, b: u8) -> (d: u8)
    ensures
        d == (a - b + 256) % 256,
{
    (((a as u16) + 256 - (b as u16)) % 256) as u8
}

fn diff_fits_exec(d: u8) -> (ok: bool)
    ensures
        ok == diff_fits(d as int),
{
    d <= 1 || d >= 254
}

fn diff_field_exec(d: u8) -> (f: u8)
    requires
        diff_fits(d as int),
    ensures
        f == diff_field(d as int),
        f <= 3,
{
    if d >= 254 {
        d - 254
    } else {
        d + 2
    }
}

fn luma_g_fits_exec(d: u8) -> (ok: bool)
    ensures
        ok == luma_g_fits(d as int),
{
    d <= 31 || d >= 224
}

fn luma_g_field_exec(d: u8) -> (f: u8)
    requires
        luma_g_fits(d as int),
    ensures
        f == luma_g_field(d as int),
        f <= 63,
{
    if d >= 224 {
        d - 224
    } else {
        d + 32
    }
}

fn luma_rel_fits_exec(d: u8) -> (ok: bool)
    ensures
        ok == luma_rel_fits(d as int),
{
    d <= 7 || d >= 249
}

fn luma_rel_field_exec(d: u8) -> (f: u8)
    requires
        luma_rel_fits(d as int),
    ensures
        f == luma_rel_field(d as int),
        f <= 14,
{
    if d >= 249 {
        d - 249
    } else {
        d + 7
    }
}

} // verus!
