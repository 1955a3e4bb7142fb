//! Colors and surface materials.
//!
//! A color channel is a fixed-point value whose full intensity is
//! `C_ONE = 65535`; the scale is `255 * 257`, so the `#rrggbb` codec
//! below is exact on the 8-bit grid.  Channels may exceed full intensity
//! during shading arithmetic and are only clamped when written out.

use vstd::prelude::*;
use crate::math::{tdiv, FP};
use crate::math::{div_t, lemma_tdiv_bound};

verus! {

/// Full intensity of a color channel.
pub const C_ONE: i64 = 65535;

/// Channel magnitude accepted by the arithmetic operations.
pub const C_MAX: i64 = 0x4000000000;

#[derive(Clone, Copy, PartialEq, Eq, Structural, Debug)]
pub struct Color {
    pub r: i64,
    pub g: i64,
    pub b: i64,
}

impl View for Color {
    type V = (int, int, int);

    open spec fn view(&self) -> (int, int, int) {
        (self.r as int, self.g as int, self.b as int)
    }
}

/// Clamp a channel into the displayable range.
pub open spec fn clamp_chan(x: int) -> int {
    if x < 0 {
        0
    } else if x > C_ONE {
        C_ONE as int
    } else {
        x
    }
}

/// The 8-bit intensity a channel is written as: clamp, then truncate.
pub open spec fn chan_to_255(x: int) -> int {
    clamp_chan(x) * 255 / (C_ONE as int)
}

/// The character for one hex digit.
pub open spec fn hex_digit_ch(d: int) -> char {
    if d == 0 {
        '0'
    } else if d == 1 {
        '1'
    } else if d == 2 {
        '2'
    } else if d == 3 {
        '3'
    } else if d == 4 {
        '4'
    } else if d == 5 {
        '5'
    } else if d == 6 {
        '6'
    } else if d == 7 {
        '7'
    } else if d == 8 {
        '8'
    } else if d == 9 {
        '9'
    } else if d == 10 {
        'a'
    } else if d == 11 {
        'b'
    } else if d == 12 {
        'c'
    } else if d == 13 {
        'd'
    } else if d == 14 {
        'e'
    } else {
        'f'
    }
}

/// The numeric value of one hex digit character, `-1` if it is none.
pub open spec fn hex_digit_val(c: char) -> int {
    if '0' <= c && c <= '9' {
        c as int - '0' as int
    } else if 'a' <= c && c <= 'f' {
        c as int - 'a' as int + 10
    } else if 'A' <= c && c <= 'F' {
        c as int - 'A' as int + 10
    } else {
        -1
    }
}

/// Two hex characters for a byte value.
pub open spec fn hex_byte_seq(v: int) -> Seq<char> {
    seq![hex_digit_ch(v / 16), hex_digit_ch(v % 16)]
}

/// The `#rrggbb` form of a color.
pub open spec fn hex_seq(c: Color) -> Seq<char> {
    seq!['#'] + hex_byte_seq(chan_to_255(c@.0)) + hex_byte_seq(chan_to_255(c@.1)) + hex_byte_seq(
        chan_to_255(c@.2),
    )
}

/// The byte encoded by two hex characters, `-1` if either is invalid.
pub open spec fn hex_pair_val(hi: char, lo: char) -> int {
    if hex_digit_val(hi) >= 0 && hex_digit_val(lo) >= 0 {
        16 * hex_digit_val(hi) + hex_digit_val(lo)
    } else {
        -1
    }
}

/// Parse a `#rrggbb` or `rrggbb` string into its three byte values.
pub open spec fn parse_hex_sp(s: Seq<char>) -> Option<(int, int, int)> {
    let t = if s.len() > 0 && s[0] == '#' {
        s.subrange(1, s.len() as int)
    } else {
        s
    };
    if t.len() == 6 {
        let r = hex_pair_val(t[0], t[1]);
        let g = hex_pair_val(t[2], t[3]);
        let b = hex_pair_val(t[4], t[5]);
        if r >= 0 && g >= 0 && b >= 0 {
            Some((r, g, b))
        } else {
            None
        }
    } else {
        None
    }
}

/// The exact channel value a parsed byte stands for.
pub open spec fn chan_of_255(v: int) -> int {
    v * 257
}

/// Writing a hex digit and reading it back is the identity.
pub proof fn lemma_hex_digit_roundtrip(d: int)
    requires
        0 <= d < 16,
    ensures
        hex_digit_val(hex_digit_ch(d)) == d,
{
}

/// Writing a byte as two hex digits and reading them back is the identity.
pub proof fn lemma_hex_byte_roundtrip(q: int)
    requires
        0 <= q < 256,
    ensures
        hex_pair_val(hex_byte_seq(q)[0], hex_byte_seq(q)[1]) == q,
{
    vstd::arithmetic::div_mod::lemma_fundamental_div_mod(q, 16);
    lemma_hex_digit_roundtrip(q / 16);
    lemma_hex_digit_roundtrip(q % 16);
}

/// A channel in range maps to a byte in range and moves by less than one
/// 8-bit quantum when that byte is mapped back.
pub proof fn lemma_chan_roundtrip(x: int)
    requires
        0 <= x <= C_ONE,
    ensures
        0 <= chan_to_255(x) < 256,
        0 <= x - chan_of_255(chan_to_255(x)) < 257,
{
    let q = chan_to_255(x);
    assert(q == x * 255 / 65535);
    vstd::arithmetic::div_mod::lemma_fundamental_div_mod(x * 255, 65535);
    let rem = (x * 255) % 65535;
    assert(0 <= rem < 65535) by {
        vstd::arithmetic::div_mod::lemma_mod_bound(x * 255, 65535);
    }
    assert(0 <= q < 256 && 0 <= x - 257 * q < 257) by (nonlinear_arith)
        requires
            0 <= x <= 65535,
            x * 255 == 65535 * q + rem,
            0 <= rem < 65535,
    ;
}

/// Round trip of the hex codec: writing any color with channels in
/// `[0, C_ONE]` as `#rrggbb` and parsing the string back yields a color
/// that differs by less than one 8-bit quantum in each channel.
pub proof fn lemma_color_roundtrip(c: Color)
    requires
        0 <= c@.0 <= C_ONE,
        0 <= c@.1 <= C_ONE,
        0 <= c@.2 <= C_ONE,
    ensures
        parse_hex_sp(hex_seq(c)) matches Some(v) && {
            &&& 0 <= c@.0 - chan_of_255(v.0) < 257
            &&& 0 <= c@.1 - chan_of_255(v.1) < 257
            &&& 0 <= c@.2 - chan_of_255(v.2) < 257
        },
{
    let qr = chan_to_255(c@.0);
    let qg = chan_to_255(c@.1);
    let qb = chan_to_255(c@.2);
    lemma_chan_roundtrip(c@.0);
    lemma_chan_roundtrip(c@.1);
    lemma_chan_roundtrip(c@.2);
    let s = hex_seq(c);
    assert(s.len() == 7);
    assert(s[0] == '#');
    let t = s.subrange(1, s.len() as int);
    assert(t[0] == hex_digit_ch(qr / 16));
    assert(t[1] == hex_digit_ch(qr % 16));
    assert(t[2] == hex_digit_ch(qg / 16));
    assert(t[3] == hex_digit_ch(qg % 16));
    assert(t[4] == hex_digit_ch(qb / 16));
    assert(t[5] == hex_digit_ch(qb % 16));
    lemma_hex_byte_roundtrip(qr);
    lemma_hex_byte_roundtrip(qg);
    lemma_hex_byte_roundtrip(qb);
}

/// One hex digit as a string slice.
fn hex_digit_str(d: u8) -> (s: &'static str)
    requires
        d < 16,
    ensures
        s@ == seq![hex_digit_ch(d as int)],
{
    proof {
        reveal_strlit("0");
        reveal_strlit("1");
        reveal_strlit("2");
        reveal_strlit("3");
        reveal_strlit("4");
        reveal_strlit("5");
        reveal_strlit("6");
        reveal_strlit("7");
        reveal_strlit("8");
        reveal_strlit("9");
        reveal_strlit("a");
        reveal_strlit("b");
        reveal_strlit("c");
        reveal_strlit("d");
        reveal_strlit("e");
        reveal_strlit("f");
    }
    let s = match d {
        0 => "0",
        1 => "1",
        2 => "2",
        3 => "3",
        4 => "4",
        5 => "5",
        6 => "6",
        7 => "7",
        8 => "8",
        9 => "9",
        10 => "a",
        11 => "b",
        12 => "c",
        13 => "d",
        14 => "e",
        _ => "f",
    };
    proof {
        assert(s@ =~= seq![hex_digit_ch(d as int)]);
    }
    s
}

/// The numeric value of one hex character.
fn hex_val(c: char) -> (v: Option<u8>)
    ensures
        match v {
            Some(d) => hex_digit_val(c) == d && d < 16,
            None => hex_digit_val(c) == -1,
        },
{
    if '0' <= c && c <= '9' {
        Some((c as u32 - '0' as u32) as u8)
    } else if 'a' <= c && c <= 'f' {
        Some((c as u32 - 'a' as u32 + 10) as u8)
    } else if 'A' <= c && c <= 'F' {
        Some((c as u32 - 'A' as u32 + 10) as u8)
    } else {
        None
    }
}

/// The displayed byte of a channel: clamp into range, then truncate.
fn convert_to_255(x: i64) -> (v: u8)
    ensures
        v == chan_to_255(x as int),
{
    let c: u64 = if x < 0 {
        0
    } else if x > C_ONE {
        C_ONE as u64
    } else {
        x as u64
    };
    ((c * 255) / 65535) as u8
}

impl Color {
    pub fn new(r: i64, g: i64, b: i64) -> (c: Self)
        ensures
            c@ == (r as int, g as int, b as int),
    {
        Self { r, g, b }
    }

    /// Build a color from 8-bit-style integer channels.
    pub fn from_irgb(r: usize, g: usize, b: usize) -> (c: Self)
        requires
            r <= 0xFFFF,
            g <= 0xFFFF,
            b <= 0xFFFF,
        ensures
            c@ == (chan_of_255(r as int), chan_of_255(g as int), chan_of_255(b as int)),
    {
        Self { r: (r as i64) * 257, g: (g as i64) * 257, b: (b as i64) * 257 }
    }

    pub fn black() -> (c: Self)
        ensures
            c@ == (0int, 0int, 0int),
    {
        Self::new(0, 0, 0)
    }

    pub fn white() -> (c: Self)
        ensures
            c@ == (C_ONE as int, C_ONE as int, C_ONE as int),
    {
        Self::new(C_ONE, C_ONE, C_ONE)
    }

    /// Add `other` scaled by the fixed-point factor `scale` (scale `FP`).
    pub fn add(self, scale: i64, other: &Color) -> (c: Self)
        requires
            -C_MAX <= self@.0 <= C_MAX,
            -C_MAX <= self@.1 <= C_MAX,
            -C_MAX <= self@.2 <= C_MAX,
            -C_MAX <= other@.0 <= C_MAX,
            -C_MAX <= other@.1 <= C_MAX,
            -C_MAX <= other@.2 <= C_MAX,
            -C_MAX <= scale <= C_MAX,
        ensures
            c@ == (
                self@.0 + tdiv(scale * other@.0, FP as int),
                self@.1 + tdiv(scale * other@.1, FP as int),
                self@.2 + tdiv(scale * other@.2, FP as int),
            ),
    {
        proof {
            crate::math::lemma_mul_bound(scale as int, other@.0, C_MAX as int, C_MAX as int);
            crate::math::lemma_mul_bound(scale as int, other@.1, C_MAX as int, C_MAX as int);
            crate::math::lemma_mul_bound(scale as int, other@.2, C_MAX as int, C_MAX as int);
            assert((C_MAX as int) * (C_MAX as int) == 0x10000000000000000000) by (nonlinear_arith)
                requires
                    C_MAX == 0x4000000000,
            ;
        }
        let dr = div_t((scale as i128) * (other.r as i128), FP as i128);
        let dg = div_t((scale as i128) * (other.g as i128), FP as i128);
        let db = div_t((scale as i128) * (other.b as i128), FP as i128);
        proof {
            lemma_tdiv_bound((scale * other.r) as int, FP as int, 0x1000000000000000);
            lemma_tdiv_bound((scale * other.g) as int, FP as int, 0x1000000000000000);
            lemma_tdiv_bound((scale * other.b) as int, FP as int, 0x1000000000000000);
        }
        Self { r: self.r + dr as i64, g: self.g + dg as i64, b: self.b + db as i64 }
    }

    /// Scale all channels by a fixed-point factor (scale `FP`).
    pub fn scale(self, scale: i64) -> (c: Self)
        requires
            -C_MAX <= self@.0 <= C_MAX,
            -C_MAX <= self@.1 <= C_MAX,
            -C_MAX <= self@.2 <= C_MAX,
            -C_MAX <= scale <= C_MAX,
        ensures
            c@ == (
                tdiv(self@.0 * scale, FP as int),
                tdiv(self@.1 * scale, FP as int),
                tdiv(self@.2 * scale, FP as int),
            ),
    {
        proof {
            crate::math::lemma_mul_bound(self@.0, scale as int, C_MAX as int, C_MAX as int);
            crate::math::lemma_mul_bound(self@.1, scale as int, C_MAX as int, C_MAX as int);
            crate::math::lemma_mul_bound(self@.2, scale as int, C_MAX as int, C_MAX as int);
            assert((C_MAX as int) * (C_MAX as int) == 0x10000000000000000000) by (nonlinear_arith)
                requires
                    C_MAX == 0x4000000000,
            ;
        }
        let r = div_t((self.r as i128) * (scale as i128), FP as i128);
        let g = div_t((self.g as i128) * (scale as i128), FP as i128);
        let b = div_t((self.b as i128) * (scale as i128), FP as i128);
        proof {
            lemma_tdiv_bound((self.r * scale) as int, FP as int, 0x1000000000000000);
            lemma_tdiv_bound((self.g * scale) as int, FP as int, 0x1000000000000000);
            lemma_tdiv_bound((self.b * scale) as int, FP as int, 0x1000000000000000);
        }
        Self { r: r as i64, g: g as i64, b: b as i64 }
    }

    /// Componentwise (filter) product; white is the identity.
    pub fn multiply(self, other: &Color) -> (c: Self)
        requires
            -C_MAX <= self@.0 <= C_MAX,
            -C_MAX <= self@.1 <= C_MAX,
            -C_MAX <= self@.2 <= C_MAX,
            -C_MAX <= other@.0 <= C_MAX,
            -C_MAX <= other@.1 <= C_MAX,
            -C_MAX <= other@.2 <= C_MAX,
        ensures
            c@ == (
                tdiv(self@.0 * other@.0, C_ONE as int),
                tdiv(self@.1 * other@.1, C_ONE as int),
                tdiv(self@.2 * other@.2, C_ONE as int),
            ),
    {
        proof {
            crate::math::lemma_mul_bound(self@.0, other@.0, C_MAX as int, C_MAX as int);
            crate::math::lemma_mul_bound(self@.1, other@.1, C_MAX as int, C_MAX as int);
            crate::math::lemma_mul_bound(self@.2, other@.2, C_MAX as int, C_MAX as int);
            assert((C_MAX as int) * (C_MAX as int) == 0x10000000000000000000) by (nonlinear_arith)
                requires
                    C_MAX == 0x4000000000,
            ;
        }
        let r = div_t((self.r as i128) * (other.r as i128), C_ONE as i128);
        let g = div_t((self.g as i128) * (other.g as i128), C_ONE as i128);
        let b = div_t((self.b as i128) * (other.b as i128), C_ONE as i128);
        proof {
            assert((C_ONE as int) * 0x2000000000000000 == 0x1fffe000000000000000) by (nonlinear_arith)
                requires
                    C_ONE == 65535,
            ;
            lemma_tdiv_bound((self.r * other.r) as int, C_ONE as int, 0x2000000000000000);
            lemma_tdiv_bound((self.g * other.g) as int, C_ONE as int, 0x2000000000000000);
            lemma_tdiv_bound((self.b * other.b) as int, C_ONE as int, 0x2000000000000000);
        }
        Self { r: r as i64, g: g as i64, b: b as i64 }
    }

    /// Blend toward `to` by the fixed-point amount (scale `FP`):
    /// `self + amount * (to - self)`.
    pub fn lerp(self, amount: i64, to: &Color) -> (c: Self)
        requires
            -C_MAX <= self@.0 <= C_MAX,
            -C_MAX <= self@.1 <= C_MAX,
            -C_MAX <= self@.2 <= C_MAX,
            -C_MAX <= to@.0 <= C_MAX,
            -C_MAX <= to@.1 <= C_MAX,
            -C_MAX <= to@.2 <= C_MAX,
            -C_MAX <= amount <= C_MAX,
        ensures
            c@ == (
                self@.0 + tdiv(amount * (to@.0 - self@.0), FP as int),
                self@.1 + tdiv(amount * (to@.1 - self@.1), FP as int),
                self@.2 + tdiv(amount * (to@.2 - self@.2), FP as int),
            ),
    {
        proof {
            crate::math::lemma_mul_bound(
                amount as int,
                to@.0 - self@.0,
                C_MAX as int,
                2 * C_MAX as int,
            );
            crate::math::lemma_mul_bound(
                amount as int,
                to@.1 - self@.1,
                C_MAX as int,
                2 * C_MAX as int,
            );
            crate::math::lemma_mul_bound(
                amount as int,
                to@.2 - self@.2,
                C_MAX as int,
                2 * C_MAX as int,
            );
            assert((C_MAX as int) * (2 * C_MAX as int) == 0x20000000000000000000) by (nonlinear_arith)
                requires
                    C_MAX == 0x4000000000,
            ;
        }
        let dr = div_t((amount as i128) * ((to.r - self.r) as i128), FP as i128);
        let dg = div_t((amount as i128) * ((to.g - self.g) as i128), FP as i128);
        let db = div_t((amount as i128) * ((to.b - self.b) as i128), FP as i128);
        proof {
            lemma_tdiv_bound((amount * (to.r - self.r)) as int, FP as int, 0x2000000000000000);
            lemma_tdiv_bound((amount * (to.g - self.g)) as int, FP as int, 0x2000000000000000);
            lemma_tdiv_bound((amount * (to.b - self.b)) as int, FP as int, 0x2000000000000000);
        }
        Self { r: self.r + dr as i64, g: self.g + dg as i64, b: self.b + db as i64 }
    }

    /// All channels exactly zero.
    pub fn is_black(&self) -> (r: bool)
        ensures
            r == (self@.0 == 0 && self@.1 == 0 && self@.2 == 0),
    {
        self.r == 0 && self.g == 0 && self.b == 0
    }

    /// Write the color as `#rrggbb`, clamping and truncating channels.
    pub fn as_hexstring(&self) -> (s: String)
        ensures
            s@ == hex_seq(*self),
    {
        let vr = convert_to_255(self.r);
        let vg = convert_to_255(self.g);
        let vb = convert_to_255(self.b);
        let mut s = String::new();
        proof {
            reveal_strlit("#");
        }
        s.append("#");
        s.append(hex_digit_str(vr / 16));
        s.append(hex_digit_str(vr % 16));
        s.append(hex_digit_str(vg / 16));
        s.append(hex_digit_str(vg % 16));
        s.append(hex_digit_str(vb / 16));
        s.append(hex_digit_str(vb % 16));
        proof {
            assert(s@ =~= hex_seq(*self));
        }
        s
    }

    /// Parse a `#rrggbb` or `rrggbb` string; `None` when it is malformed.
    pub fn parse_hexstring(color: &str) -> (c: Option<Color>)
        ensures
            match c {
                Some(col) => {
                    &&& parse_hex_sp(color@) matches Some(v)
                    &&& col@ == (chan_of_255(v.0), chan_of_255(v.1), chan_of_255(v.2))
                },
                None => parse_hex_sp(color@) is None,
            },
    {
        let n = color.unicode_len();
        let has_hash: bool = if n > 0 {
            color.get_char(0) == '#'
        } else {
            false
        };
        let off: usize = if has_hash {
            1
        } else {
            0
        };
        if n - off != 6 {
            proof {
                let t = if color@.len() > 0 && color@[0] == '#' {
                    color@.subrange(1, color@.len() as int)
                } else {
                    color@
                };
                assert(t.len() != 6);
            }
            return None;
        }
        let d0 = hex_val(color.get_char(off));
        let d1 = hex_val(color.get_char(off + 1));
        let d2 = hex_val(color.get_char(off + 2));
        let d3 = hex_val(color.get_char(off + 3));
        let d4 = hex_val(color.get_char(off + 4));
        let d5 = hex_val(color.get_char(off + 5));
        proof {
            let t = if color@.len() > 0 && color@[0] == '#' {
                color@.subrange(1, color@.len() as int)
            } else {
                color@
            };
            assert(t.len() == 6);
            assert(t[0] == color@[off as int]);
            assert(t[1] == color@[off + 1]);
            assert(t[2] == color@[off + 2]);
            assert(t[3] == color@[off + 3]);
            assert(t[4] == color@[off + 4]);
            assert(t[5] == color@[off + 5]);
        }
        match (d0, d1, d2, d3, d4, d5) {
            (Some(h0), Some(h1), Some(h2), Some(h3), Some(h4), Some(h5)) => {
                let r = (h0 as usize) * 16 + (h1 as usize);
                let g = (h2 as usize) * 16 + (h3 as usize);
                let b = (h4 as usize) * 16 + (h5 as usize);
                Some(Color::from_irgb(r, g, b))
            },
            _ => None,
        }
    }

    /// Parse a hex color known to be well formed.
    pub fn from_hexstring(color: &str) -> (c: Color)
        requires
            parse_hex_sp(color@) is Some,
        ensures
            ({
                let v = parse_hex_sp(color@)->Some_0;
                c@ == (chan_of_255(v.0), chan_of_255(v.1), chan_of_255(v.2))
            }),
    {
        match Self::parse_hexstring(color) {
            Some(c) => c,
            None => unreached(),
        }
    }
}

#[derive(Clone, Copy, PartialEq, Eq, Structural, Debug)]
pub struct Material {
    pub ambient: Color,
    pub diffuse: Color,
    pub specular: Color,
    /// Phong exponent, fixed-point at scale `FP`.
    pub phong: i64,
    /// Share of reflected light, fixed-point in `[0, FP]`.
    pub reflectivity: i64,
    /// Share of direct light, fixed-point in `[0, FP]`; below `FP` the
    /// surface is translucent.
    pub opacity: i64,
    /// Refractive index, fixed-point at scale `FP`.
    pub index_of_refraction: i64,
}

/// The default surface: matte white, opaque, vacuum index.
pub open spec fn default_material() -> Material {
    Material {
        ambient: Color { r: 0, g: 0, b: 0 },
        diffuse: Color { r: C_ONE, g: C_ONE, b: C_ONE },
        specular: Color { r: 0, g: 0, b: 0 },
        phong: FP,
        reflectivity: 0,
        opacity: FP,
        index_of_refraction: FP,
    }
}

impl Material {
    /// The default surface: matte white, opaque, vacuum index.
    pub fn new() -> (m: Self)
        ensures
            m == default_material(),
            m.ambient@ == (0int, 0int, 0int),
            m.diffuse@ == (C_ONE as int, C_ONE as int, C_ONE as int),
            m.specular@ == (0int, 0int, 0int),
            m.phong == FP,
            m.reflectivity == 0,
            m.opacity == FP,
            m.index_of_refraction == FP,
    {
        Self {
            ambient: Color::black(),
            diffuse: Color::white(),
            specular: Color::black(),
            phong: FP,
            reflectivity: 0,
            opacity: FP,
            index_of_refraction: FP,
        }
    }
}

} // verus!
