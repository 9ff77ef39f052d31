//! Half inverse cosine transforms of 32 and 64 values, in fixed point.

use vstd::prelude::*;
use super::fixed::{add32, clip23, clipped, mul32, mul_norm, norm, rounded, scaled, sub32, wrap32};

verus! {

/// Rows of eight of the even transform.
pub const DCT_A: [i32; 64] = [
    8348215, 8027397, 7398092, 6484482, 5321677, 3954362, 2435084, 822227,
    8027397, 5321677, 822227, -3954362, -7398092, -8348215, -6484482, -2435084,
    7398092, 822227, -6484482, -8027397, -2435084, 5321677, 8348215, 3954362,
    6484482, -3954362, -8027397, 822227, 8348215, 2435084, -7398092, -5321677,
    5321677, -7398092, -2435084, 8348215, -822227, -8027397, 3954362, 6484482,
    3954362, -8348215, 5321677, 2435084, -8027397, 6484482, 822227, -7398092,
    2435084, -6484482, 8348215, -7398092, 3954362, 822227, -5321677, 8027397,
    822227, -2435084, 3954362, -5321677, 6484482, -7398092, 8027397, -8348215,
];

/// Rows of seven of the odd transform, after a first column of ones.
pub const DCT_B: [i32; 56] = [
    8227423, 7750063, 6974873, 5931642, 4660461, 3210181, 1636536, 6974873,
    3210181, -1636536, -5931642, -8227423, -7750063, -4660461, 4660461, -3210181,
    -8227423, -5931642, 1636536, 7750063, 6974873, 1636536, -7750063, -4660461,
    5931642, 6974873, -3210181, -8227423, -1636536, -7750063, 4660461, 5931642,
    -6974873, -3210181, 8227423, -4660461, -3210181, 8227423, -5931642, -1636536,
    7750063, -6974873, -6974873, 3210181, 1636536, -5931642, 8227423, -7750063,
    4660461, -8227423, 7750063, -6974873, 5931642, -4660461, 3210181, -1636536,
];

/// First modulation of 16 values.
pub const MOD_A: [i32; 16] = [
    4199362, 4240198, 4323885, 4454708, 4639772, 4890013, 5221943, 5660703,
    -6245623, -7040975, -8158494, -9809974, -12450076, -17261920, -28585092, -85479984,
];

/// Second modulation of 16 values.
pub const MOD_B: [i32; 8] = [
    4214598, 4383036, 4755871, 5425934, 6611520, 8897610, 14448934, 42791536,
];

/// Last modulation of 32 values.
pub const MOD_C: [i32; 32] = [
    1048892, 1051425, 1056522, 1064244, 1074689, 1087987, 1104313, 1123884,
    1146975, 1173922, 1205139, 1241133, 1282529, 1330095, 1384791, 1447815,
    -1520688, -1605358, -1704360, -1821051, -1959964, -2127368, -2332183, -2587535,
    -2913561, -3342802, -3931480, -4785806, -6133390, -8566050, -14253820, -42727120,
];

/// First modulation of 32 values.
pub const MOD64_A: [i32; 32] = [
    4195568, 4205700, 4226086, 4256977, 4298755, 4351949, 4417251, 4495537,
    4587901, 4695690, 4820557, 4964534, 5130115, 5320382, 5539164, 5791261,
    -6082752, -6421430, -6817439, -7284203, -7839855, -8509474, -9328732, -10350140,
    -11654242, -13371208, -15725922, -19143224, -24533560, -34264200, -57015280, -170908480,
];

/// Second modulation of 32 values.
pub const MOD64_B: [i32; 16] = [
    4199362, 4240198, 4323885, 4454708, 4639772, 4890013, 5221943, 5660703,
    6245623, 7040975, 8158494, 9809974, 12450076, 17261920, 28585092, 85479984,
];

/// Last modulation of 64 values.
pub const MOD64_C: [i32; 64] = [
    741511, 741958, 742853, 744199, 746001, 748262, 750992, 754197,
    757888, 762077, 766777, 772003, 777772, 784105, 791021, 798546,
    806707, 815532, 825054, 835311, 846342, 858193, 870912, 884554,
    899181, 914860, 931667, 949686, 969011, 989747, 1012012, 1035941,
    -1061684, -1089412, -1119320, -1151629, -1186595, -1224511, -1265719, -1310613,
    -1359657, -1413400, -1472490, -1537703, -1609974, -1690442, -1780506, -1881904,
    -1996824, -2128058, -2279225, -2455101, -2662128, -2909200, -3208956, -3579983,
    -4050785, -4667404, -5509372, -6726913, -8641940, -12091426, -20144284, -60420720,
];

/// Samples of 24 bits.
pub open spec fn in24(v: Seq<i32>) -> bool {
    forall|i: int| 0 <= i < v.len() ==> -0x80_0000 <= #[trigger] v[i] <= 0x7f_ffff
}

/// Sums of neighbours, in pairs from `at` on.
pub open spec fn sums_a(v: Seq<i32>, at: int, n: int) -> Seq<i32> {
    Seq::new(n as nat, |i: int| wrap32(v[at + 2 * i] + v[at + 2 * i + 1]) as i32)
}

/// Sums of neighbours, in pairs that start one before `at`.
pub open spec fn sums_b(v: Seq<i32>, at: int, n: int) -> Seq<i32> {
    Seq::new(
        n as nat,
        |i: int| if i == 0 { v[at] } else { wrap32(v[at + 2 * i] + v[at + 2 * i - 1]) as i32 },
    )
}

/// Every second value.
pub open spec fn sums_c(v: Seq<i32>, at: int, n: int) -> Seq<i32> {
    Seq::new(n as nat, |i: int| v[at + 2 * i])
}

/// Sums of the values between those.
pub open spec fn sums_d(v: Seq<i32>, at: int, n: int) -> Seq<i32> {
    Seq::new(
        n as nat,
        |i: int|
            if i == 0 {
                v[at + 1]
            } else {
                wrap32(v[at + 2 * i - 1] + v[at + 2 * i + 1]) as i32
            },
    )
}

/// All values held to 24 bits.
pub open spec fn clip_all(v: Seq<i32>) -> Seq<i32> {
    Seq::new(v.len(), |i: int| clipped(v[i] as int) as i32)
}

/// The sum of the first `n` products of a table from `row` on and values from
/// `at` on.
pub open spec fn dot(table: Seq<i32>, row: int, v: Seq<i32>, at: int, n: int) -> int
    decreases n,
{
    if n <= 0 { 0 } else { dot(table, row, v, at, n - 1) + table[row + n - 1] * v[at + n - 1] }
}

/// The even transform of eight values.
pub open spec fn dct_even(v: Seq<i32>, at: int) -> Seq<i32> {
    Seq::new(8, |i: int| wrap32(rounded(dot(DCT_A@, 8 * i, v, at, 8), 23)) as i32)
}

/// The odd transform of eight values.
pub open spec fn dct_odd(v: Seq<i32>, at: int) -> Seq<i32> {
    Seq::new(
        8,
        |i: int|
            wrap32(rounded(v[at] * 0x80_0000 + dot(DCT_B@, 7 * i, v, at + 1, 7), 23)) as i32,
    )
}

/// `2n` values: the weighted sums of the two halves, then their differences
/// backwards.
pub open spec fn modulated(table: Seq<i32>, v: Seq<i32>, at: int, n: int) -> Seq<i32> {
    Seq::new(
        (2 * n) as nat,
        |i: int|
            if i < n {
                scaled(table[i] as int, wrap32(v[at + i] + v[at + n + i]), 23) as i32
            } else {
                scaled(
                    table[i] as int,
                    wrap32(v[at + 2 * n - 1 - i] - v[at + 3 * n - 1 - i]),
                    23,
                ) as i32
            },
    )
}

/// `2n` values: the sums of the first half and the weighted second, then their
/// differences backwards.
pub open spec fn weighted(table: Seq<i32>, v: Seq<i32>, at: int, n: int) -> Seq<i32> {
    Seq::new(
        (2 * n) as nat,
        |i: int|
            if i < n {
                wrap32(v[at + i] + scaled(table[i] as int, v[at + n + i] as int, 23)) as i32
            } else {
                wrap32(
                    v[at + 2 * n - 1 - i] - scaled(
                        table[2 * n - 1 - i] as int,
                        v[at + 3 * n - 1 - i] as int,
                        23,
                    ),
                ) as i32
            },
    )
}

/// The sum of the first `n` magnitudes.
pub open spec fn magnitude(v: Seq<i32>, n: int) -> int
    decreases n,
{
    if n <= 0 {
        0
    } else {
        magnitude(v, n - 1) + if v[n - 1] < 0 { -(v[n - 1] as int) } else { v[n - 1] as int }
    }
}

/// Loud input is divided by 4 for the transform.
pub open spec fn is_loud(v: Seq<i32>) -> bool {
    magnitude(v, v.len() as int) > 0x40_0000
}

pub open spec fn lowered(v: Seq<i32>) -> Seq<i32> {
    if is_loud(v) { Seq::new(v.len(), |i: int| (wrap32(v[i] + 2) / 4) as i32) } else { v }
}

pub open spec fn raised(v: Seq<i32>, loud: bool) -> Seq<i32> {
    Seq::new(
        v.len(),
        |i: int| clipped(wrap32(v[i] * if loud { 4int } else { 1int })) as i32,
    )
}

/// The differences of values from both ends, then their sums.
pub open spec fn butterflies(v: Seq<i32>) -> Seq<i32> {
    let n = v.len() / 2;
    Seq::new(
        v.len(),
        |i: int|
            if i < n {
                clipped(wrap32(v[i] - v[v.len() - 1 - i])) as i32
            } else {
                clipped(wrap32(v[i - n] + v[v.len() - 1 - (i - n)])) as i32
            },
    )
}

/// Sums and transforms of 32 values, up to the modulations.
pub open spec fn dct_32(v: Seq<i32>) -> Seq<i32> {
    let a = clip_all(sums_a(v, 0, 16) + sums_b(v, 0, 16));
    let b = clip_all(sums_a(a, 0, 8) + sums_b(a, 0, 8) + sums_c(a, 16, 8) + sums_d(a, 16, 8));
    clip_all(dct_even(b, 0) + dct_odd(b, 8) + dct_odd(b, 16) + dct_odd(b, 24))
}

/// The half inverse transform of 32 values.
pub open spec fn imdct_32(v: Seq<i32>) -> Seq<i32> {
    let c = dct_32(lowered(v));
    let d = clip_all(modulated(MOD_A@, c, 0, 8) + weighted(MOD_B@, c, 16, 8));
    butterflies(raised(modulated(MOD_C@, d, 0, 16), is_loud(v)))
}

/// Sums and transforms of 64 values, up to the modulations.
pub open spec fn dct_64(v: Seq<i32>) -> Seq<i32> {
    let a = clip_all(sums_a(v, 0, 32) + sums_b(v, 0, 32));
    let b = clip_all(sums_a(a, 0, 16) + sums_b(a, 0, 16) + sums_c(a, 32, 16) + sums_d(a, 32, 16));
    let c = clip_all(
        sums_a(b, 0, 8) + sums_b(b, 0, 8) + sums_c(b, 16, 8) + sums_d(b, 16, 8) + sums_c(b, 32, 8)
            + sums_d(b, 32, 8) + sums_c(b, 48, 8) + sums_d(b, 48, 8),
    );
    clip_all(
        dct_even(c, 0) + dct_odd(c, 8) + dct_odd(c, 16) + dct_odd(c, 24) + dct_odd(c, 32)
            + dct_odd(c, 40) + dct_odd(c, 48) + dct_odd(c, 56),
    )
}

/// The half inverse transform of 64 values.
pub open spec fn imdct_64(v: Seq<i32>) -> Seq<i32> {
    let c = dct_64(lowered(v));
    let d = clip_all(
        modulated(MOD_A@, c, 0, 8) + weighted(MOD_B@, c, 16, 8) + weighted(MOD_B@, c, 32, 8)
            + weighted(MOD_B@, c, 48, 8),
    );
    let e = clip_all(modulated(MOD64_A@, d, 0, 16) + weighted(MOD64_B@, d, 32, 16));
    butterflies(raised(modulated(MOD64_C@, e, 0, 32), is_loud(v)))
}

fn sum_a(v: &Vec<i32>, at: usize, n: usize, out: &mut Vec<i32>)
    requires
        at + 2 * n <= v@.len(),
    ensures
        final(out)@ == old(out)@ + sums_a(v@, at as int, n as int),
{
    let ghost want = sums_a(v@, at as int, n as int);
    let total: usize = v.len();
    let mut i: usize = 0;
    while i < n
        invariant
            i <= n,
            total == v@.len(),
            at + 2 * n <= total,
            want == sums_a(v@, at as int, n as int),
            out@ == old(out)@ + want.subrange(0, i as int),
        decreases n - i,
    {
        let x: i32 = add32(v[at + 2 * i], v[at + 2 * i + 1]);
        out.push(x);
        i = i + 1;
        assert(out@ =~= old(out)@ + want.subrange(0, i as int));
    }
    assert(want.subrange(0, n as int) =~= want);
}

fn sum_b(v: &Vec<i32>, at: usize, n: usize, out: &mut Vec<i32>)
    requires
        at + 2 * n <= v@.len(),
    ensures
        final(out)@ == old(out)@ + sums_b(v@, at as int, n as int),
{
    let ghost want = sums_b(v@, at as int, n as int);
    let total: usize = v.len();
    let mut i: usize = 0;
    while i < n
        invariant
            i <= n,
            total == v@.len(),
            at + 2 * n <= total,
            want == sums_b(v@, at as int, n as int),
            out@ == old(out)@ + want.subrange(0, i as int),
        decreases n - i,
    {
        let x: i32 = if i == 0 { v[at] } else { add32(v[at + 2 * i], v[at + 2 * i - 1]) };
        out.push(x);
        i = i + 1;
        assert(out@ =~= old(out)@ + want.subrange(0, i as int));
    }
    assert(want.subrange(0, n as int) =~= want);
}

fn sum_c(v: &Vec<i32>, at: usize, n: usize, out: &mut Vec<i32>)
    requires
        at + 2 * n <= v@.len(),
    ensures
        final(out)@ == old(out)@ + sums_c(v@, at as int, n as int),
{
    let ghost want = sums_c(v@, at as int, n as int);
    let total: usize = v.len();
    let mut i: usize = 0;
    while i < n
        invariant
            i <= n,
            total == v@.len(),
            at + 2 * n <= total,
            want == sums_c(v@, at as int, n as int),
            out@ == old(out)@ + want.subrange(0, i as int),
        decreases n - i,
    {
        let x: i32 = v[at + 2 * i];
        out.push(x);
        i = i + 1;
        assert(out@ =~= old(out)@ + want.subrange(0, i as int));
    }
    assert(want.subrange(0, n as int) =~= want);
}

fn sum_d(v: &Vec<i32>, at: usize, n: usize, out: &mut Vec<i32>)
    requires
        at + 2 * n <= v@.len(),
    ensures
        final(out)@ == old(out)@ + sums_d(v@, at as int, n as int),
{
    let ghost want = sums_d(v@, at as int, n as int);
    let total: usize = v.len();
    let mut i: usize = 0;
    while i < n
        invariant
            i <= n,
            total == v@.len(),
            at + 2 * n <= total,
            want == sums_d(v@, at as int, n as int),
            out@ == old(out)@ + want.subrange(0, i as int),
        decreases n - i,
    {
        let x: i32 = if i == 0 { v[at + 1] } else { add32(v[at + 2 * i - 1], v[at + 2 * i + 1]) };
        out.push(x);
        i = i + 1;
        assert(out@ =~= old(out)@ + want.subrange(0, i as int));
    }
    assert(want.subrange(0, n as int) =~= want);
}

fn clip_values(v: &mut Vec<i32>)
    ensures
        final(v)@ == clip_all(old(v)@),
        in24(final(v)@),
{
    let n: usize = v.len();
    let mut i: usize = 0;
    while i < n
        invariant
            i <= n,
            n == v@.len(),
            n == old(v)@.len(),
            forall|k: int| 0 <= k < i ==> v@[k] == clipped(old(v)@[k] as int),
            forall|k: int| i <= k < n ==> v@[k] == old(v)@[k],
        decreases n - i,
    {
        let x: i32 = clip23(v[i]);
        v.set(i, x);
        i = i + 1;
    }
    assert(v@ =~= clip_all(old(v)@));
}

/// [`dot`] of at most eight products with 24-bit values.
fn dot_product(table: &[i32], row: usize, v: &Vec<i32>, at: usize, n: usize) -> (r: i64)
    requires
        n <= 8,
        row + n <= table@.len(),
        at + n <= v@.len(),
        in24(v@),
    ensures
        r == dot(table@, row as int, v@, at as int, n as int),
        -0x200_0000_0000_0000 <= r <= 0x200_0000_0000_0000,
{
    let width: usize = table.len();
    let total: usize = v.len();
    let mut r: i64 = 0;
    let mut j: usize = 0;
    while j < n
        invariant
            j <= n <= 8,
            width == table@.len(),
            total == v@.len(),
            row + n <= width,
            at + n <= total,
            in24(v@),
            r == dot(table@, row as int, v@, at as int, j as int),
            -0x40_0000_0000_0000 * j <= r <= 0x40_0000_0000_0000 * j,
        decreases n - j,
    {
        let c: i32 = table[row + j];
        let x: i32 = v[at + j];
        proof {
            assert(-0x80_0000 <= v@[at + j] <= 0x7f_ffff);
            assert(-0x40_0000_0000_0000 <= c * x <= 0x40_0000_0000_0000) by (nonlinear_arith)
                requires
                    -0x8000_0000 <= c <= 0x7fff_ffff,
                    -0x80_0000 <= x <= 0x7f_ffff,
            ;
        }
        r = r + c as i64 * x as i64;
        j = j + 1;
    }
    r
}

fn dct_a(v: &Vec<i32>, at: usize, out: &mut Vec<i32>)
    requires
        at + 8 <= v@.len(),
        in24(v@),
    ensures
        final(out)@ == old(out)@ + dct_even(v@, at as int),
{
    let ghost want = dct_even(v@, at as int);
    let table: [i32; 64] = DCT_A;
    let mut i: usize = 0;
    while i < 8
        invariant
            i <= 8,
            at + 8 <= v@.len(),
            in24(v@),
            table@ == DCT_A@,
            want == dct_even(v@, at as int),
            out@ == old(out)@ + want.subrange(0, i as int),
        decreases 8 - i,
    {
        let x: i64 = dot_product(&table, 8 * i, v, at, 8);
        out.push(norm(x, 23));
        i = i + 1;
        assert(out@ =~= old(out)@ + want.subrange(0, i as int));
    }
    assert(want.subrange(0, 8) =~= want);
}

fn dct_b(v: &Vec<i32>, at: usize, out: &mut Vec<i32>)
    requires
        at + 8 <= v@.len(),
        in24(v@),
    ensures
        final(out)@ == old(out)@ + dct_odd(v@, at as int),
{
    let ghost want = dct_odd(v@, at as int);
    let table: [i32; 56] = DCT_B;
    let total: usize = v.len();
    let mut i: usize = 0;
    while i < 8
        invariant
            i <= 8,
            total == v@.len(),
            at + 8 <= total,
            in24(v@),
            table@ == DCT_B@,
            want == dct_odd(v@, at as int),
            out@ == old(out)@ + want.subrange(0, i as int),
        decreases 8 - i,
    {
        assert(-0x80_0000 <= v@[at as int] <= 0x7f_ffff);
        let x: i64 = v[at] as i64 * 0x80_0000 + dot_product(&table, 7 * i, v, at + 1, 7);
        out.push(norm(x, 23));
        i = i + 1;
        assert(out@ =~= old(out)@ + want.subrange(0, i as int));
    }
    assert(want.subrange(0, 8) =~= want);
}

/// Append [`modulated`].
fn modulate(table: &[i32], v: &Vec<i32>, at: usize, n: usize, out: &mut Vec<i32>)
    requires
        table@.len() == 2 * n,
        at + 2 * n <= v@.len(),
    ensures
        final(out)@ == old(out)@ + modulated(table@, v@, at as int, n as int),
{
    let ghost want = modulated(table@, v@, at as int, n as int);
    let total: usize = v.len();
    let mut i: usize = 0;
    while i < 2 * n
        invariant
            i <= 2 * n,
            total == v@.len(),
            table@.len() == 2 * n,
            at + 2 * n <= total,
            want == modulated(table@, v@, at as int, n as int),
            out@ == old(out)@ + want.subrange(0, i as int),
        decreases 2 * n - i,
    {
        let x: i32 = if i < n {
            add32(v[at + i], v[at + n + i])
        } else {
            sub32(v[at + (2 * n - 1 - i)], v[at + n + (2 * n - 1 - i)])
        };
        out.push(mul_norm(table[i], x, 23));
        i = i + 1;
        assert(out@ =~= old(out)@ + want.subrange(0, i as int));
    }
    assert(want.subrange(0, 2 * n) =~= want);
}

/// Append [`weighted`].
fn weigh(table: &[i32], v: &Vec<i32>, at: usize, n: usize, out: &mut Vec<i32>)
    requires
        table@.len() == n,
        at + 2 * n <= v@.len(),
    ensures
        final(out)@ == old(out)@ + weighted(table@, v@, at as int, n as int),
{
    let ghost want = weighted(table@, v@, at as int, n as int);
    let total: usize = v.len();
    let mut i: usize = 0;
    while i < 2 * n
        invariant
            i <= 2 * n,
            total == v@.len(),
            table@.len() == n,
            at + 2 * n <= total,
            want == weighted(table@, v@, at as int, n as int),
            out@ == old(out)@ + want.subrange(0, i as int),
        decreases 2 * n - i,
    {
        let x: i32 = if i < n {
            add32(v[at + i], mul_norm(table[i], v[at + n + i], 23))
        } else {
            let k: usize = 2 * n - 1 - i;
            sub32(v[at + k], mul_norm(table[k], v[at + n + k], 23))
        };
        out.push(x);
        i = i + 1;
        assert(out@ =~= old(out)@ + want.subrange(0, i as int));
    }
    assert(want.subrange(0, 2 * n) =~= want);
}

/// Whether the input is loud.
fn loud(v: &Vec<i32>) -> (r: bool)
    requires
        v@.len() <= 64,
    ensures
        r == is_loud(v@),
{
    let mut sum: i64 = 0;
    let mut i: usize = 0;
    while i < v.len()
        invariant
            i <= v@.len() <= 64,
            sum == magnitude(v@, i as int),
            0 <= sum <= 0x8000_0000 * i,
        decreases v.len() - i,
    {
        let x: i64 = v[i] as i64;
        sum = sum + if x < 0 { -x } else { x };
        i = i + 1;
    }
    sum > 0x40_0000
}

/// [`lowered`] where `loud` says so.
fn lower(v: &Vec<i32>, loud: bool) -> (r: Vec<i32>)
    requires
        loud == is_loud(v@),
    ensures
        r@ == lowered(v@),
{
    let n: usize = v.len();
    let mut r: Vec<i32> = Vec::new();
    while r.len() < n
        invariant
            n == v@.len(),
            loud == is_loud(v@),
            r@.len() <= n,
            forall|k: int| 0 <= k < r@.len() ==> r@[k] == lowered(v@)[k],
        decreases n - r.len(),
    {
        let x: i32 = v[r.len()];
        if loud {
            let y: i64 = crate::bits::shift_right(add32(x, 2) as i64, 2);
            r.push(y as i32);
        } else {
            r.push(x);
        }
    }
    assert(r@ =~= lowered(v@));
    r
}

/// [`raised`], in place.
fn raise(v: &mut Vec<i32>, loud: bool)
    ensures
        final(v)@ == raised(old(v)@, loud),
        in24(final(v)@),
{
    let n: usize = v.len();
    let mut i: usize = 0;
    while i < n
        invariant
            i <= n,
            n == v@.len(),
            n == old(v)@.len(),
            forall|k: int| 0 <= k < i ==> v@[k] == raised(old(v)@, loud)[k],
            forall|k: int| 0 <= k < i ==> -0x80_0000 <= #[trigger] v@[k] <= 0x7f_ffff,
            forall|k: int| i <= k < n ==> v@[k] == old(v)@[k],
        decreases n - i,
    {
        let x: i32 = clip23(mul32(v[i], if loud { 4 } else { 1 }));
        v.set(i, x);
        i = i + 1;
    }
    assert(v@ =~= raised(old(v)@, loud));
}

/// [`butterflies`].
fn cross(v: &Vec<i32>) -> (r: Vec<i32>)
    requires
        v@.len() % 2 == 0,
    ensures
        r@ == butterflies(v@),
        in24(r@),
{
    let total: usize = v.len();
    let n: usize = total / 2;
    let mut r: Vec<i32> = Vec::new();
    while r.len() < total
        invariant
            total == v@.len(),
            total % 2 == 0,
            n == total / 2,
            r@.len() <= total,
            forall|k: int| 0 <= k < r@.len() ==> r@[k] == butterflies(v@)[k],
            in24(r@),
        decreases total - r.len(),
    {
        let i: usize = r.len();
        let x: i32 = if i < n {
            sub32(v[i], v[total - 1 - i])
        } else {
            add32(v[i - n], v[total - 1 - (i - n)])
        };
        r.push(clip23(x));
    }
    assert(r@ =~= butterflies(v@));
    r
}

fn transform_32(v: &Vec<i32>) -> (r: Vec<i32>)
    requires
        v@.len() == 32,
    ensures
        r@ == dct_32(v@),
        r@.len() == 32,
        in24(r@),
{
    let mut a: Vec<i32> = Vec::new();
    sum_a(v, 0, 16, &mut a);
    sum_b(v, 0, 16, &mut a);
    assert(a@ =~= sums_a(v@, 0, 16) + sums_b(v@, 0, 16));
    clip_values(&mut a);
    let mut b: Vec<i32> = Vec::new();
    sum_a(&a, 0, 8, &mut b);
    sum_b(&a, 0, 8, &mut b);
    sum_c(&a, 16, 8, &mut b);
    sum_d(&a, 16, 8, &mut b);
    assert(b@ =~= sums_a(a@, 0, 8) + sums_b(a@, 0, 8) + sums_c(a@, 16, 8) + sums_d(a@, 16, 8));
    clip_values(&mut b);
    let mut c: Vec<i32> = Vec::new();
    dct_a(&b, 0, &mut c);
    dct_b(&b, 8, &mut c);
    dct_b(&b, 16, &mut c);
    dct_b(&b, 24, &mut c);
    assert(c@ =~= dct_even(b@, 0) + dct_odd(b@, 8) + dct_odd(b@, 16) + dct_odd(b@, 24));
    clip_values(&mut c);
    c
}

/// The half inverse transform of 32 values.
pub fn imdct_half_32(input: &Vec<i32>) -> (r: Vec<i32>)
    requires
        input@.len() == 32,
    ensures
        r@ == imdct_32(input@),
        r@.len() == 32,
        in24(r@),
{
    let is_high: bool = loud(input);
    let c: Vec<i32> = transform_32(&lower(input, is_high));
    let mut d: Vec<i32> = Vec::new();
    modulate(&MOD_A, &c, 0, 8, &mut d);
    weigh(&MOD_B, &c, 16, 8, &mut d);
    assert(d@ =~= modulated(MOD_A@, c@, 0, 8) + weighted(MOD_B@, c@, 16, 8));
    clip_values(&mut d);
    let mut e: Vec<i32> = Vec::new();
    modulate(&MOD_C, &d, 0, 16, &mut e);
    assert(e@ =~= modulated(MOD_C@, d@, 0, 16));
    raise(&mut e, is_high);
    cross(&e)
}

fn transform_64(v: &Vec<i32>) -> (r: Vec<i32>)
    requires
        v@.len() == 64,
    ensures
        r@ == dct_64(v@),
        r@.len() == 64,
        in24(r@),
{
    let mut a: Vec<i32> = Vec::new();
    sum_a(v, 0, 32, &mut a);
    sum_b(v, 0, 32, &mut a);
    assert(a@ =~= sums_a(v@, 0, 32) + sums_b(v@, 0, 32));
    clip_values(&mut a);
    let mut b: Vec<i32> = Vec::new();
    sum_a(&a, 0, 16, &mut b);
    sum_b(&a, 0, 16, &mut b);
    sum_c(&a, 32, 16, &mut b);
    sum_d(&a, 32, 16, &mut b);
    assert(b@ =~= sums_a(a@, 0, 16) + sums_b(a@, 0, 16) + sums_c(a@, 32, 16) + sums_d(a@, 32, 16));
    clip_values(&mut b);
    let mut c: Vec<i32> = Vec::new();
    sum_a(&b, 0, 8, &mut c);
    sum_b(&b, 0, 8, &mut c);
    sum_c(&b, 16, 8, &mut c);
    sum_d(&b, 16, 8, &mut c);
    sum_c(&b, 32, 8, &mut c);
    sum_d(&b, 32, 8, &mut c);
    sum_c(&b, 48, 8, &mut c);
    sum_d(&b, 48, 8, &mut c);
    assert(c@ =~= sums_a(b@, 0, 8) + sums_b(b@, 0, 8) + sums_c(b@, 16, 8) + sums_d(b@, 16, 8)
        + sums_c(b@, 32, 8) + sums_d(b@, 32, 8) + sums_c(b@, 48, 8) + sums_d(b@, 48, 8));
    clip_values(&mut c);
    let mut e: Vec<i32> = Vec::new();
    dct_a(&c, 0, &mut e);
    dct_b(&c, 8, &mut e);
    dct_b(&c, 16, &mut e);
    dct_b(&c, 24, &mut e);
    dct_b(&c, 32, &mut e);
    dct_b(&c, 40, &mut e);
    dct_b(&c, 48, &mut e);
    dct_b(&c, 56, &mut e);
    assert(e@ =~= dct_even(c@, 0) + dct_odd(c@, 8) + dct_odd(c@, 16) + dct_odd(c@, 24) + dct_odd(
        c@,
        32,
    ) + dct_odd(c@, 40) + dct_odd(c@, 48) + dct_odd(c@, 56));
    clip_values(&mut e);
    e
}

/// The half inverse transform of 64 values.
pub fn imdct_half_64(input: &Vec<i32>) -> (r: Vec<i32>)
    requires
        input@.len() == 64,
    ensures
        r@ == imdct_64(input@),
        r@.len() == 64,
        in24(r@),
{
    let is_high: bool = loud(input);
    let c: Vec<i32> = transform_64(&lower(input, is_high));
    let mut d: Vec<i32> = Vec::new();
    modulate(&MOD_A, &c, 0, 8, &mut d);
    weigh(&MOD_B, &c, 16, 8, &mut d);
    weigh(&MOD_B, &c, 32, 8, &mut d);
    weigh(&MOD_B, &c, 48, 8, &mut d);
    assert(d@ =~= modulated(MOD_A@, c@, 0, 8) + weighted(MOD_B@, c@, 16, 8) + weighted(
        MOD_B@,
        c@,
        32,
        8,
    ) + weighted(MOD_B@, c@, 48, 8));
    clip_values(&mut d);
    let mut e: Vec<i32> = Vec::new();
    modulate(&MOD64_A, &d, 0, 16, &mut e);
    weigh(&MOD64_B, &d, 32, 16, &mut e);
    assert(e@ =~= modulated(MOD64_A@, d@, 0, 16) + weighted(MOD64_B@, d@, 32, 16));
    clip_values(&mut e);
    let mut f: Vec<i32> = Vec::new();
    modulate(&MOD64_C, &e, 0, 32, &mut f);
    assert(f@ =~= modulated(MOD64_C@, e@, 0, 32));
    raise(&mut f, is_high);
    cross(&f)
}

} // verus!
