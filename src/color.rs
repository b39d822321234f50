use vstd::prelude::*;

verus! {

/// An RGB color with three 8-bit channels.
#[derive(Clone, Copy, Debug, PartialEq, Eq, Structural)]
pub struct Color {
    pub r: u8,
    pub g: u8,
    pub b: u8,
}

/// The 24-bit packed form `(r << 16) | (g << 8) | b` of a color.
pub open spec fn packed(c: Color) -> int {
    c.r as int * 65536 + c.g as int * 256 + c.b as int
}

/// The color whose channels are the three low bytes of `hex`, red highest.
pub open spec fn unpacked(hex: u32) -> Color {
    Color {
        r: ((hex as int / 65536) % 256) as u8,
        g: ((hex as int / 256) % 256) as u8,
        b: (hex as int % 256) as u8,
    }
}

/// Channel value at parameter `t = num / den` between `a` and `b`, rounded down:
/// the floor of `a + t * (b - a)`, written as a weighted average.
pub open spec fn lerp_channel(a: int, b: int, num: int, den: int) -> int {
    (a * (den - num) + b * num) / den
}

/// `r` is the floor of `a + t * (b - a)` for the parameter `t` in `[0, 1]` whose
/// square is `num / den`.
pub open spec fn is_channel_at_root(a: int, b: int, num: int, den: int, r: int) -> bool {
    if a <= b {
        let k = r - a;
        &&& a <= r <= b
        &&& k * k * den <= num * (b - a) * (b - a)
        &&& num * (b - a) * (b - a) < (k + 1) * (k + 1) * den
    } else {
        let m = a - r;
        &&& b <= r <= a
        &&& num * (a - b) * (a - b) <= m * m * den
        &&& (m == 0 || (m - 1) * (m - 1) * den < num * (a - b) * (a - b))
    }
}

/// `c` lies between `a` and `b` at the parameter whose square is `num / den`,
/// channel by channel.
pub open spec fn is_color_at_root(a: Color, b: Color, num: int, den: int, c: Color) -> bool {
    &&& is_channel_at_root(a.r as int, b.r as int, num, den, c.r as int)
    &&& is_channel_at_root(a.g as int, b.g as int, num, den, c.g as int)
    &&& is_channel_at_root(a.b as int, b.b as int, num, den, c.b as int)
}

/// Largest bound on the denominator of a squared parameter that keeps the
/// channel search within `u128`.
pub const MAX_ROOT_DEN: u128 = 0x1_0000_0000_0000_0000_0000_0000;

/// One channel at the parameter whose square is `num / den`, found by a search
/// over the at most 256 candidate values.
fn channel_at_root(a: u8, b: u8, num: u128, den: u128) -> (r: u8)
    requires
        num <= den,
        0 < den <= MAX_ROOT_DEN,
    ensures
        is_channel_at_root(a as int, b as int, num as int, den as int, r as int),
{
    if a <= b {
        let d: u128 = (b - a) as u128;
        assert(num * d * d <= den * 65536) by (nonlinear_arith)
            requires num <= den, d <= 255;
        assert(num * d <= MAX_ROOT_DEN * 255) by (nonlinear_arith)
            requires num <= den <= MAX_ROOT_DEN, d <= 255;
        let target: u128 = num * d * d;
        let mut k: u128 = 0;
        assert((k + 1) * (k + 1) * den <= 65536 * MAX_ROOT_DEN) by (nonlinear_arith)
            requires k == 0, den <= MAX_ROOT_DEN;
        while k < d && (k + 1) * (k + 1) * den <= target
            invariant
                k <= d <= 255,
                0 < den <= MAX_ROOT_DEN,
                target == num * d * d,
                k * k * den <= target,
                (k + 1) * (k + 1) <= 65536,
                (k + 1) * (k + 1) * den <= 65536 * MAX_ROOT_DEN,
            decreases d - k,
        {
            k = k + 1;
            assert((k + 1) * (k + 1) <= 65536 && (k + 1) * (k + 1) * den <= 65536 * MAX_ROOT_DEN)
                by (nonlinear_arith)
                requires k <= d <= 255, den <= MAX_ROOT_DEN;
        }
        assert(target < (k + 1) * (k + 1) * den) by (nonlinear_arith)
            requires
                k == d || target < (k + 1) * (k + 1) * den,
                target == num * d * d,
                num <= den,
                0 < den,
                k >= 0,
        ;
        (a as u128 + k) as u8
    } else {
        let d: u128 = (a - b) as u128;
        assert(num * d * d <= den * 65536) by (nonlinear_arith)
            requires num <= den, d <= 255;
        assert(num * d <= MAX_ROOT_DEN * 255) by (nonlinear_arith)
            requires num <= den <= MAX_ROOT_DEN, d <= 255;
        let target: u128 = num * d * d;
        let mut m: u128 = 0;
        while m * m * den < target
            invariant
                m <= d <= 255,
                0 < den <= MAX_ROOT_DEN,
                num <= den,
                target == num * d * d,
                m == 0 || (m - 1) * (m - 1) * den < target,
                m * m <= 65536,
                m * m * den <= 65536 * MAX_ROOT_DEN,
            decreases d - m,
        {
            assert(m < d) by (nonlinear_arith)
                requires m * m * den < num * d * d, num <= den, 0 < den, m >= 0, d >= 0;
            m = m + 1;
            assert(m * m <= 65536 && m * m * den <= 65536 * MAX_ROOT_DEN) by (nonlinear_arith)
                requires m <= d <= 255, den <= MAX_ROOT_DEN;
        }
        (a as u128 - m) as u8
    }
}

impl Color {
    pub fn new(r: u8, g: u8, b: u8) -> (c: Color)
        ensures
            c == (Color { r, g, b }),
    {
        Color { r, g, b }
    }

    pub fn black() -> (c: Color)
        ensures
            c == (Color { r: 0, g: 0, b: 0 }),
    {
        Color { r: 0, g: 0, b: 0 }
    }

    /// The color packed in the low 24 bits of `hex`; higher bits are ignored.
    pub fn from_hex(hex: u32) -> (c: Color)
        ensures
            c == unpacked(hex),
    {
        let r = ((hex >> 16u32) & 0xFFu32) as u8;
        let g = ((hex >> 8u32) & 0xFFu32) as u8;
        let b = (hex & 0xFFu32) as u8;
        assert(((hex >> 16u32) & 0xFFu32) == (hex / 65536) % 256) by (bit_vector);
        assert(((hex >> 8u32) & 0xFFu32) == (hex / 256) % 256) by (bit_vector);
        assert((hex & 0xFFu32) == hex % 256) by (bit_vector);
        Color { r, g, b }
    }

    /// The color packed as `(r << 16) | (g << 8) | b`.
    pub fn to_hex(&self) -> (h: u32)
        ensures
            h == packed(*self),
    {
        let r = self.r as u32;
        let g = self.g as u32;
        let b = self.b as u32;
        assert((r << 16u32) | (g << 8u32) | b == r * 65536 + g * 256 + b) by (bit_vector)
            requires r < 256, g < 256, b < 256;
        (r << 16u32) | (g << 8u32) | b
    }

    /// Linear interpolation from `a` to `b` at `t = num / den`, each channel
    /// rounded down.
    pub fn lerp(a: &Color, b: &Color, num: u32, den: u32) -> (c: Color)
        requires
            num <= den,
            0 < den,
        ensures
            c.r == lerp_channel(a.r as int, b.r as int, num as int, den as int),
            c.g == lerp_channel(a.g as int, b.g as int, num as int, den as int),
            c.b == lerp_channel(a.b as int, b.b as int, num as int, den as int),
    {
        Color {
            r: lerp_u8(a.r, b.r, num, den),
            g: lerp_u8(a.g, b.g, num, den),
            b: lerp_u8(a.b, b.b, num, den),
        }
    }

    /// Linear interpolation from `a` to `b` at the parameter
    /// `t = sqrt(covered_sq) / sqrt(total_sq)`, a ratio of two distances given
    /// by their squares; `t` is zero when `total_sq` is zero.
    pub fn lerp_by_distance(a: &Color, b: &Color, covered_sq: u128, total_sq: u128) -> (c: Color)
        requires
            covered_sq <= total_sq <= MAX_ROOT_DEN,
        ensures
            total_sq == 0 ==> c == *a,
            total_sq > 0 ==> is_color_at_root(*a, *b, covered_sq as int, total_sq as int, c),
    {
        if total_sq == 0 {
            *a
        } else {
            Color {
                r: channel_at_root(a.r, b.r, covered_sq, total_sq),
                g: channel_at_root(a.g, b.g, covered_sq, total_sq),
                b: channel_at_root(a.b, b.b, covered_sq, total_sq),
            }
        }
    }
}

fn lerp_u8(a: u8, b: u8, num: u32, den: u32) -> (r: u8)
    requires
        num <= den,
        0 < den,
    ensures
        r == lerp_channel(a as int, b as int, num as int, den as int),
{
    let a64 = a as u64;
    let b64 = b as u64;
    let w = (den - num) as u64;
    assert(a64 * w <= 255 * 0xFFFF_FFFF) by (nonlinear_arith)
        requires a64 <= 255, w <= 0xFFFF_FFFF;
    assert(b64 * (num as u64) <= 255 * 0xFFFF_FFFF) by (nonlinear_arith)
        requires b64 <= 255, num <= 0xFFFF_FFFF;
    let s = a64 * w + b64 * (num as u64);
    assert(s <= 255 * (den as u64)) by (nonlinear_arith)
        requires s == a64 * w + b64 * (num as u64), a64 <= 255, b64 <= 255, w + num == den;
    let q = s / (den as u64);
    assert(q <= 255) by (nonlinear_arith)
        requires q == s / (den as u64), s <= 255 * (den as u64), den > 0;
    q as u8
}

/// A channel at a given squared parameter is unique.
pub proof fn lemma_channel_at_root_unique(a: int, b: int, num: int, den: int, r1: int, r2: int)
    requires
        0 < den,
        is_channel_at_root(a, b, num, den, r1),
        is_channel_at_root(a, b, num, den, r2),
    ensures
        r1 == r2,
{
    if a <= b {
        let (k1, k2) = (r1 - a, r2 - a);
        if k1 < k2 {
            assert((k1 + 1) * (k1 + 1) * den <= k2 * k2 * den) by (nonlinear_arith)
                requires 0 <= k1 < k2, den > 0;
        } else if k2 < k1 {
            assert((k2 + 1) * (k2 + 1) * den <= k1 * k1 * den) by (nonlinear_arith)
                requires 0 <= k2 < k1, den > 0;
        }
    } else {
        let (m1, m2) = (a - r1, a - r2);
        if m1 < m2 {
            assert(m1 * m1 * den <= (m2 - 1) * (m2 - 1) * den) by (nonlinear_arith)
                requires 0 <= m1 < m2, den > 0;
        } else if m2 < m1 {
            assert(m2 * m2 * den <= (m1 - 1) * (m1 - 1) * den) by (nonlinear_arith)
                requires 0 <= m2 < m1, den > 0;
        }
    }
}

/// Packing a 24-bit value into a color and back gives the value again.
pub proof fn lemma_hex_round_trip(h: u32)
    requires
        h < 0x100_0000,
    ensures
        packed(unpacked(h)) == h,
{
}

/// Interpolating between a color and itself gives that color, whatever the parameter.
pub proof fn lemma_lerp_same(c: Color, num: u32, den: u32)
    requires
        num <= den,
        0 < den,
    ensures
        lerp_channel(c.r as int, c.r as int, num as int, den as int) == c.r,
        lerp_channel(c.g as int, c.g as int, num as int, den as int) == c.g,
        lerp_channel(c.b as int, c.b as int, num as int, den as int) == c.b,
{
    assert forall|a: int| 0 <= a <= 255 implies lerp_channel(a, a, num as int, den as int) == a by {
        assert(a * (den - num) + a * num == a * den) by (nonlinear_arith);
        assert((a * den) / (den as int) == a) by (nonlinear_arith)
            requires den > 0;
    }
}

} // verus!
