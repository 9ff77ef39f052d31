//! What bit fields mean.

use vstd::prelude::*;
use crate::bits::{
    bit_at, code_space, field, has_bit, lemma_field_range, signed_field, unary, zero_run,
};

verus! {

/// Eight bits from a byte's first are the byte.
pub proof fn bytes_are_their_bits(d: Seq<u8>, i: int)
    requires
        0 <= i < d.len(),
    ensures
        field(d, 8 * i, 8) == d[i],
{
    let b = d[i];
    reveal_with_fuel(field, 9);
    assert forall|k: int| 0 <= k < 8 implies #[trigger] bit_at(d, 8 * i + k) == ((b >> ((7
        - k) as u8)) & 1) as int by {
        assert((8 * i + k) / 8 == i && (8 * i + k) % 8 == k);
    }
    assert(bit_at(d, 8 * i + 0) == ((b >> 7u8) & 1) as int);
    assert(bit_at(d, 8 * i + 1) == ((b >> 6u8) & 1) as int);
    assert(bit_at(d, 8 * i + 2) == ((b >> 5u8) & 1) as int);
    assert(bit_at(d, 8 * i + 3) == ((b >> 4u8) & 1) as int);
    assert(bit_at(d, 8 * i + 4) == ((b >> 3u8) & 1) as int);
    assert(bit_at(d, 8 * i + 5) == ((b >> 2u8) & 1) as int);
    assert(bit_at(d, 8 * i + 6) == ((b >> 1u8) & 1) as int);
    assert(bit_at(d, 8 * i + 7) == ((b >> 0u8) & 1) as int);
    assert(128 * ((b >> 7u8) & 1) + 64 * ((b >> 6u8) & 1) + 32 * ((b >> 5u8) & 1) + 16 * ((b
        >> 4u8) & 1) + 8 * ((b >> 3u8) & 1) + 4 * ((b >> 2u8) & 1) + 2 * ((b >> 1u8) & 1) + ((b
        >> 0u8) & 1) == b) by (bit_vector);
}

/// A field of `n` bits has twice the values of one of a bit less.
pub proof fn one_bit_doubles_the_codes(n: int)
    requires
        0 < n <= 32,
    ensures
        code_space(0) == 1,
        code_space(n) == 2 * code_space(n - 1),
{
}

/// A field is its first bits, followed by its last.
pub proof fn fields_join(d: Seq<u8>, p: int, a: int, b: int)
    requires
        0 <= a,
        0 <= b <= 32,
    ensures
        field(d, p, a + b) == field(d, p, a) * code_space(b) + field(d, p + a, b),
    decreases b,
{
    if b > 0 {
        fields_join(d, p, a, b - 1);
        one_bit_doubles_the_codes(b);
        let x = field(d, p, a);
        let y = code_space(b - 1);
        assert(x * (2 * y) == 2 * (x * y)) by (nonlinear_arith);
        assert(p + (a + b) - 1 == (p + a) + b - 1);
    }
}

/// A signed field is its code, less the code space from the half on.
pub proof fn signed_fields_wrap_at_the_half(d: Seq<u8>, p: int, n: int)
    requires
        1 <= n <= 32,
    ensures
        -code_space(n) <= 2 * signed_field(d, p, n) < code_space(n),
        signed_field(d, p, n) == field(d, p, n) || signed_field(d, p, n) == field(d, p, n)
            - code_space(n),
{
    lemma_field_range(d, p, n);
    one_bit_doubles_the_codes(n);
}

/// The mask with bit `i` alone has that bit and no other.
pub proof fn masks_hold_their_bits(i: int, j: int)
    requires
        0 <= i < 32,
        0 <= j < 32,
    ensures
        has_bit(1u32 << (i as u32), j) == (i == j),
{
    let a = i as u32;
    let b = j as u32;
    assert(a < 32 && b < 32 ==> (((1u32 << a) >> b) & 1 == 1) == (a == b)) by (bit_vector);
}

/// `q` zeros and a one, inside the bits looked at, are the unary code of `q`.
pub proof fn unary_codes_count_zeros(d: Seq<u8>, lim: int, p: int, most: int, q: int)
    requires
        0 <= q < most,
        p + q < lim,
        forall|j: int| p <= j < p + q ==> #[trigger] bit_at(d, j) == 0,
        bit_at(d, p + q) == 1,
    ensures
        unary(d, lim, p, most) == (q, p + q + 1),
{
    let n = if lim - p < most { lim - p } else { most };
    lemma_run(d, p, q, n);
}

proof fn lemma_run(d: Seq<u8>, p: int, q: int, n: int)
    requires
        0 <= q < n,
        forall|j: int| p <= j < p + q ==> #[trigger] bit_at(d, j) == 0,
        bit_at(d, p + q) == 1,
    ensures
        zero_run(d, p, n) == q,
    decreases q,
{
    if q > 0 {
        assert(bit_at(d, p) == 0);
        lemma_run(d, p + 1, q - 1, n - 1);
    }
}

} // verus!
