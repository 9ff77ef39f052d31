//! Fixed-point arithmetic of the decoder: rounding shifts, clipping to 24
//! bits, and two's-complement wrap-around.

use vstd::prelude::*;
use crate::bits::{code_space, power_of_two, shift_right};

verus! {

/// The two's-complement value of the low 32 bits of `x`.
pub open spec fn wrap32(x: int) -> int {
    (x + 0x8000_0000) % 0x1_0000_0000 - 0x8000_0000
}

/// `x` held to the range of 24-bit samples.
pub open spec fn clipped(x: int) -> int {
    if x < -0x80_0000 {
        -0x80_0000
    } else if x > 0x7f_ffff {
        0x7f_ffff
    } else {
        x
    }
}

/// `x / 2^n` rounded to the nearest, halves up.
pub open spec fn rounded(x: int, n: int) -> int {
    if n <= 0 { x } else { (x + code_space(n - 1)) / code_space(n) }
}

/// The product of two fixed-point numbers with `n` fraction bits.
pub open spec fn scaled(a: int, b: int, n: int) -> int {
    wrap32(rounded(a * b, n))
}

pub fn clip23(x: i32) -> (r: i32)
    ensures
        r == clipped(x as int),
        -0x80_0000 <= r <= 0x7f_ffff,
{
    if x < -0x80_0000 {
        -0x80_0000
    } else if x > 0x7f_ffff {
        0x7f_ffff
    } else {
        x
    }
}

/// Truncate to 32 bits.
pub fn low32(x: i64) -> (r: i32)
    ensures
        r as int == wrap32(x as int),
{
    proof {
        assert((x as i32) as int == (x + 0x8000_0000) % 0x1_0000_0000 - 0x8000_0000) by (bit_vector);
    }
    x as i32
}

/// Round away `bits` fraction bits and truncate to 32 bits.
pub fn norm(a: i64, bits: u32) -> (r: i32)
    requires
        bits <= 32,
        -0x4000_0000_0000_0000 <= a <= 0x4000_0000_0000_0000,
    ensures
        r == wrap32(rounded(a as int, bits as int)),
{
    if bits > 0 {
        let half: i64 = power_of_two(bits - 1);
        low32(shift_right(a + half, bits))
    } else {
        low32(a)
    }
}

/// [`scaled`] on machine numbers.
pub fn mul_norm(a: i32, b: i32, bits: u32) -> (r: i32)
    requires
        bits <= 32,
    ensures
        r == scaled(a as int, b as int, bits as int),
{
    proof {
        lemma_product_range(a, b);
    }
    norm(a as i64 * b as i64, bits)
}

/// A product of two 32-bit numbers fits 63 bits.
pub proof fn lemma_product_range(a: i32, b: i32)
    ensures
        -0x4000_0000_0000_0000 <= a * b <= 0x4000_0000_0000_0000,
{
    assert(-0x4000_0000_0000_0000 <= a * b <= 0x4000_0000_0000_0000) by (nonlinear_arith)
        requires
            -0x8000_0000 <= a <= 0x7fff_ffff,
            -0x8000_0000 <= b <= 0x7fff_ffff,
    ;
}

pub fn mul16(a: i32, b: i32) -> (r: i32)
    ensures
        r == scaled(a as int, b as int, 16),
{
    mul_norm(a, b, 16)
}

pub fn norm16(a: i64) -> (r: i32)
    requires
        -0x4000_0000_0000_0000 <= a <= 0x4000_0000_0000_0000,
    ensures
        r == wrap32(rounded(a as int, 16)),
{
    norm(a, 16)
}

pub fn rmul15(a: i32, b: i32) -> (r: i32)
    ensures
        r == scaled(a as int, b as int, 15),
{
    mul_norm(a, b, 15)
}

/// Wrapping addition.
pub fn add32(a: i32, b: i32) -> (r: i32)
    ensures
        r as int == wrap32(a + b),
{
    a.wrapping_add(b)
}

/// Wrapping subtraction.
pub fn sub32(a: i32, b: i32) -> (r: i32)
    ensures
        r as int == wrap32(a - b),
{
    a.wrapping_sub(b)
}

/// Wrapping multiplication.
pub fn mul32(a: i32, b: i32) -> (r: i32)
    ensures
        r as int == wrap32(a * b),
{
    a.wrapping_mul(b)
}

/// A signed code: even numbers count up from 0, odd ones down from -1.
pub open spec fn unfolded(v: int) -> int {
    if v % 2 == 0 { v / 2 } else { -(v / 2) - 1 }
}

pub fn unfold(v: u32) -> (r: i32)
    ensures
        r == unfolded(v as int),
{
    if v % 2 == 0 { (v / 2) as i32 } else { -((v / 2) as i32) - 1 }
}

/// What 32 bits hold of a number lies in their range and differs from it by
/// whole turns.
pub proof fn words_are_congruent(x: int)
    ensures
        -0x8000_0000 <= wrap32(x) <= 0x7fff_ffff,
        (x - wrap32(x)) % 0x1_0000_0000 == 0,
{
}

/// Clipping takes the 24-bit sample nearest to a number.
pub proof fn clipping_takes_the_nearest(x: int, y: int)
    requires
        -0x80_0000 <= y <= 0x7f_ffff,
    ensures
        -0x80_0000 <= clipped(x) <= 0x7f_ffff,
        x <= y ==> x <= clipped(x) <= y || clipped(x) == x || x < -0x80_0000,
        -0x80_0000 <= x <= 0x7f_ffff ==> clipped(x) == x,
        (if x >= clipped(x) { x - clipped(x) } else { clipped(x) - x }) <= (if x >= y {
            x - y
        } else {
            y - x
        }),
{
}

/// Rounding `n` bits away takes the nearest number of units, the higher of two
/// that are as near.
pub proof fn rounding_takes_the_nearest(x: int, n: int)
    requires
        0 <= n <= 32,
    ensures
        2 * x < code_space(n) * (2 * rounded(x, n) + 1),
        code_space(n) * (2 * rounded(x, n) - 1) <= 2 * x,
{
    let h = code_space(n);
    let r = rounded(x, n);
    if n > 0 {
        let g = code_space(n - 1);
        crate::bit_laws::one_bit_doubles_the_codes(n);
        vstd::arithmetic::div_mod::lemma_fundamental_div_mod(x + g, h);
        assert(h * (2 * r + 1) == 2 * (h * r) + h && h * (2 * r - 1) == 2 * (h * r) - h)
            by (nonlinear_arith);
    } else {
        assert(h == 1);
        assert(h * (2 * r + 1) == 2 * r + 1 && h * (2 * r - 1) == 2 * r - 1) by (nonlinear_arith)
            requires
                h == 1,
        ;
    }
}

/// A product of fixed-point numbers that fits 32 bits is the nearest one.
pub proof fn products_are_rounded(a: int, b: int, n: int)
    requires
        0 <= n <= 32,
        -0x8000_0000 * code_space(n) <= a * b < 0x7fff_ffff * code_space(n),
    ensures
        2 * (a * b) < code_space(n) * (2 * scaled(a, b, n) + 1),
        code_space(n) * (2 * scaled(a, b, n) - 1) <= 2 * (a * b),
{
    let x = a * b;
    let h = code_space(n);
    let r = rounded(x, n);
    rounding_takes_the_nearest(x, n);
    assert(h >= 1);
    assert(-0x8000_0000 <= r <= 0x7fff_ffff) by (nonlinear_arith)
        requires
            h >= 1,
            2 * x < h * (2 * r + 1),
            h * (2 * r - 1) <= 2 * x,
            -0x8000_0000 * h <= x,
            x < 0x7fff_ffff * h,
    ;
    assert(wrap32(r) == r);
}

/// Numbers folded to codes, those at or above zero to the even ones, unfold to
/// what they were.
pub proof fn folded_numbers_unfold(v: int)
    ensures
        unfolded(if v >= 0 { 2 * v } else { -2 * v - 1 }) == v,
{
}

} // verus!
