use vstd::prelude::*;

verus! {

/// An RGBA pixel; equality is equality of all four channels.
#[derive(Clone, Copy, Debug, PartialEq, Eq, Structural)]
pub struct Pixel {
    pub r: u8,
    pub g: u8,
    pub b: u8,
    pub a: u8,
}

/// The pixel both the encoder and the decoder start from, and that fills a fresh cache.
pub open spec fn default_pixel() -> Pixel {
    Pixel { r: 0, g: 0, b: 0, a: 255 }
}

/// The cache slot of a pixel.
pub open spec fn hash_spec(p: Pixel) -> int {
    (3 * p.r + 5 * p.g + 7 * p.b + 11 * p.a) % 64
}

/// An integer reduced to a byte, as 8-bit wrapping arithmetic does.
#[verifier::opaque]
pub open spec fn wrap8(x: int) -> u8 {
    (x % 256) as u8
}

/// Reducing a summand before adding does not change the reduced sum.
pub proof fn lemma_wrap8_add(x: int, y: int)
    ensures
        wrap8(wrap8(x) + y) == wrap8(x + y),
        wrap8(y + wrap8(x)) == wrap8(x + y),
{
    reveal(wrap8);
    vstd::arithmetic::div_mod::lemma_fundamental_div_mod(x, 256);
    vstd::arithmetic::div_mod::lemma_mod_multiples_vanish(x / 256, x % 256 + y, 256);
}

/// A byte is its own reduction.
pub proof fn lemma_wrap8_byte(c: u8)
    ensures
        wrap8(c as int) == c,
{
    reveal(wrap8);
}

/// Reducing a subtrahend before subtracting does not change the reduced difference.
pub proof fn lemma_wrap8_sub(x: int, y: int)
    ensures
        wrap8(x - wrap8(y)) == wrap8(x - y),
{
    reveal(wrap8);
    vstd::arithmetic::div_mod::lemma_fundamental_div_mod(y, 256);
    vstd::arithmetic::div_mod::lemma_mod_multiples_vanish(y / 256, x - y, 256);
}

impl Pixel {
    /// The pixel `(0, 0, 0, 255)`.
    pub fn initial() -> (p: Pixel)
        ensures
            p == default_pixel(),
    {
        Pixel { r: 0, g: 0, b: 0, a: 255 }
    }
}

/// The cache slot of `p`: `(3r + 5g + 7b + 11a) mod 64`.
pub fn hash(p: &Pixel) -> (h: usize)
    ensures
        h as int == hash_spec(*p),
        h < 64,
{
    let s: u32 = 3 * p.r as u32 + 5 * p.g as u32 + 7 * p.b as u32 + 11 * p.a as u32;
    (s % 64) as usize
}

/// `a + b` modulo 256.
pub fn wrap_add(a: u8, b: u8) -> (r: u8)
    ensures
        r == wrap8(a + b),
{
    reveal(wrap8);
    a.wrapping_add(b)
}

/// `a - b` modulo 256.
pub fn wrap_sub(a: u8, b: u8) -> (r: u8)
    ensures
        r == wrap8(a - b),
{
    reveal(wrap8);
    a.wrapping_sub(b)
}

/// `a * b` modulo 256.
pub fn wrap_mul(a: u8, b: u8) -> (r: u8)
    ensures
        r == wrap8(a * b),
{
    reveal(wrap8);
    a.wrapping_mul(b)
}

} // verus!
