//! Small helpers on sizes and on buffers of field elements.

use vstd::prelude::*;

verus! {

/// Whether `x` is a positive power of two, as a mathematical statement.
pub open spec fn pow2(x: int) -> bool
    decreases x,
{
    if x <= 0 {
        false
    } else if x == 1 {
        true
    } else {
        x % 2 == 0 && pow2(x / 2)
    }
}

/// Twice a power of two is a power of two.
pub proof fn lemma_pow2_double(a: int)
    requires
        pow2(a),
    ensures
        pow2(2 * a),
{
    assert((2 * a) / 2 == a);
}

/// Half of a power of two above one is a power of two.
pub proof fn lemma_pow2_half(a: int)
    requires
        pow2(a),
        a > 1,
    ensures
        pow2(a / 2),
        2 * (a / 2) == a,
{
}

/// 65536 is a power of two.
pub proof fn lemma_pow2_65536()
    ensures
        pow2(65536),
{
    reveal_with_fuel(pow2, 18);
}

/// Of two powers of two, twice the smaller divides the larger.
pub proof fn lemma_pow2_divides(a: int, b: int)
    requires
        pow2(a),
        pow2(b),
        a < b,
    ensures
        b % (2 * a) == 0,
        2 * a <= b,
    decreases a,
{
    if a == 1 {
    } else {
        let a2 = a / 2;
        let b2 = b / 2;
        lemma_pow2_divides(a2, b2);
        let q = b2 / (2 * a2);
        vstd::arithmetic::div_mod::lemma_fundamental_div_mod(b2, 2 * a2);
        assert(b == (2 * a) * q) by (nonlinear_arith)
            requires
                b == 2 * b2,
                a == 2 * a2,
                b2 == (2 * a2) * q,
        ;
        vstd::arithmetic::div_mod::lemma_fundamental_div_mod_converse(b, 2 * a, q, 0);
    }
}

/// The number of halvings that bring `x` down to at most one.
pub open spec fn floor_log2(x: int) -> int
    decreases x,
{
    if x <= 1 {
        0
    } else {
        1 + floor_log2(x / 2)
    }
}

/// Floor of the binary logarithm; zero for `x <= 1`.
pub fn log2(x: usize) -> (o: usize)
    ensures
        o == floor_log2(x as int),
{
    let mut x: usize = x;
    let mut o: usize = 0;
    let ghost x0: int = x as int;
    while x > 1
        invariant
            floor_log2(x0) == o + floor_log2(x as int),
            o + x <= x0 || x0 <= 1,
            x <= x0 <= usize::MAX,
        decreases x,
    {
        proof {
            lemma_shifts(x);
        }
        x >>= 1;
        o += 1;
    }
    o
}

proof fn lemma_power_bits(x: usize)
    by (bit_vector)
    requires
        x >= 1,
    ensures
        x > 1 ==> ((x & ((x - 1) as usize) == 0) <==> (x % 2 == 0 && (x / 2) & ((x / 2
            - 1) as usize) == 0)),
        x > 1 ==> x / 2 >= 1,
        x == 1 ==> x & ((x - 1) as usize) == 0,
{
}

proof fn lemma_power_bits_of(x: usize)
    requires
        x >= 1,
    ensures
        (x & ((x - 1) as usize) == 0) <==> pow2(x as int),
    decreases x,
{
    lemma_power_bits(x);
    if x > 1 {
        lemma_power_bits_of(x / 2);
    }
}

/// Whether `x` is a positive power of two.
pub fn is_power_of_2(x: usize) -> (r: bool)
    ensures
        r == pow2(x as int),
{
    if x > 0 {
        proof {
            lemma_power_bits_of(x);
        }
        x & (x - 1) == 0
    } else {
        false
    }
}

/// Fills a buffer with zeros.
pub fn mem_zero(zerome: &mut [u16])
    ensures
        final(zerome)@.len() == old(zerome)@.len(),
        forall|i: int| 0 <= i < final(zerome)@.len() ==> final(zerome)@[i] == 0,
{
    let n: usize = zerome.len();
    let mut i: usize = 0;
    while i < n
        invariant
            i <= n,
            zerome@.len() == n,
            forall|j: int| 0 <= j < i ==> zerome@[j] == 0,
        decreases n - i,
    {
        zerome[i] = 0u16;
        i += 1;
    }
}

/// Copies `src` over `dest`; the two have the same length.
pub fn mem_cpy(dest: &mut [u16], src: &[u16])
    requires
        old(dest)@.len() == src@.len(),
    ensures
        final(dest)@ == src@,
{
    let sl: usize = src.len();
    let mut i: usize = 0;
    while i < sl
        invariant
            i <= sl,
            sl == src@.len(),
            dest@.len() == sl,
            forall|j: int| 0 <= j < i ==> dest@[j] == src@[j],
        decreases sl - i,
    {
        dest[i] = src[i];
        i += 1;
    }
}


/// Two to the power `i`.
pub open spec fn two_pow(i: int) -> int
    decreases i,
{
    if i <= 0 {
        1
    } else {
        2 * two_pow(i - 1)
    }
}

/// The number of one bits at the low end of `x`.
pub open spec fn trailing_ones(x: int) -> int
    decreases x,
{
    if x <= 0 || x % 2 == 0 {
        0
    } else {
        1 + trailing_ones(x / 2)
    }
}

/// Powers of two are positive and grow.
pub proof fn lemma_two_pow_grows(i: int, j: int)
    requires
        0 <= i <= j,
    ensures
        1 <= two_pow(i) <= two_pow(j),
        two_pow(j + 1) == 2 * two_pow(j),
    decreases j,
{
    if i < j {
        lemma_two_pow_grows(i, j - 1);
    } else if i > 0 {
        lemma_two_pow_grows(i - 1, j - 1);
    }
}

/// A smaller power of two divides a larger one.
pub proof fn lemma_two_pow_multiple(i: int, j: int)
    requires
        0 <= i <= j,
    ensures
        two_pow(j) == two_pow(j - i) * two_pow(i),
    decreases j - i,
{
    if i < j {
        lemma_two_pow_multiple(i, j - 1);
        lemma_two_pow_grows(0, j - 1 - i);
        assert(2 * (two_pow(j - 1 - i) * two_pow(i)) == (2 * two_pow(j - 1 - i)) * two_pow(i))
            by (nonlinear_arith);
    } else {
        assert(two_pow(0) * two_pow(i) == two_pow(i)) by (nonlinear_arith)
            requires
                two_pow(0) == 1,
        ;
    }
}

/// The values of the first seventeen powers of two.
pub proof fn lemma_two_pow_values()
    ensures
        two_pow(0) == 1,
        two_pow(1) == 2,
        two_pow(2) == 4,
        two_pow(3) == 8,
        two_pow(4) == 16,
        two_pow(5) == 32,
        two_pow(6) == 64,
        two_pow(7) == 128,
        two_pow(8) == 256,
        two_pow(9) == 512,
        two_pow(10) == 1024,
        two_pow(11) == 2048,
        two_pow(12) == 4096,
        two_pow(13) == 8192,
        two_pow(14) == 16384,
        two_pow(15) == 32768,
        two_pow(16) == 65536,
{
    reveal_with_fuel(two_pow, 18);
}

proof fn lemma_shift_step(m: usize)
    by (bit_vector)
    requires
        m < 30,
    ensures
        (1usize << ((m + 1) as usize)) == 2 * (1usize << m),
        (1usize << 0usize) == 1,
        m < 16 ==> (1u16 << (m as u16)) as usize == (1usize << m),
{
}

/// A shift of one by up to sixteen places is that power of two.
pub proof fn lemma_shift_is_two_pow(m: usize)
    requires
        m <= 16,
    ensures
        (1usize << m) == two_pow(m as int),
        m < 16 ==> (1u16 << (m as u16)) == two_pow(m as int),
    decreases m,
{
    if m == 0 {
        lemma_shift_step(0);
    } else {
        lemma_shift_is_two_pow((m - 1) as usize);
        lemma_shift_step((m - 1) as usize);
        if m < 16 {
            lemma_shift_step(m);
        }
    }
}

/// A shift of one by up to thirty places is that power of two.
pub proof fn lemma_wide_shift(m: usize)
    requires
        m <= 30,
    ensures
        (1usize << m) == two_pow(m as int),
    decreases m,
{
    if m == 0 {
        lemma_shift_step(0);
    } else {
        lemma_wide_shift((m - 1) as usize);
        lemma_shift_step((m - 1) as usize);
    }
}

/// A number from one on lies between the power of two of its logarithm and
/// twice that power.
pub proof fn lemma_floor_log2_bounds(x: int)
    requires
        1 <= x,
    ensures
        0 <= floor_log2(x),
        two_pow(floor_log2(x)) <= x < 2 * two_pow(floor_log2(x)),
    decreases x,
{
    if x > 1 {
        lemma_floor_log2_bounds(x / 2);
    }
}

/// The logarithm of a number below `2^b` is below `b`.
pub proof fn lemma_floor_log2_below(x: int, b: int)
    requires
        1 <= x < two_pow(b),
        0 <= b,
    ensures
        floor_log2(x) < b,
{
    lemma_floor_log2_bounds(x);
    if floor_log2(x) >= b {
        lemma_two_pow_grows(b, floor_log2(x));
    }
}

/// Two to a power is a power of two.
pub proof fn lemma_two_pow_is_pow2(i: int)
    requires
        0 <= i,
    ensures
        pow2(two_pow(i)),
    decreases i,
{
    if i > 0 {
        lemma_two_pow_is_pow2(i - 1);
        lemma_two_pow_grows(0, i - 1);
    }
}

/// The highest bit of a number between `2^i` and `2^(i + 1)` is bit `i`.
pub proof fn lemma_top_bit(j: int, i: int)
    requires
        0 <= i,
        0 <= j < two_pow(i),
    ensures
        floor_log2(j + two_pow(i)) == i,
    decreases i,
{
    if i > 0 {
        lemma_two_pow_grows(0, i - 1);
        lemma_top_bit(j / 2, i - 1);
    }
}

/// A shift by one place halves or doubles.
pub proof fn lemma_shifts(x: usize)
    by (bit_vector)
    ensures
        x >> 1 == x / 2,
        x <= 0x4000_0000 ==> x << 1 == 2 * x,
{
}

/// Below a multiple of `w`, an earlier multiple leaves room for a whole block.
pub proof fn lemma_block_fits(blocks: int, w: int, size: int)
    requires
        0 <= blocks,
        0 < w,
        size % w == 0,
        blocks * w < size,
    ensures
        blocks * w + w <= size,
{
    let q = size / w;
    vstd::arithmetic::div_mod::lemma_fundamental_div_mod(size, w);
    assert(w * q == q * w) by (nonlinear_arith);
    assert(blocks < q) by (nonlinear_arith)
        requires
            blocks * w < q * w,
            0 < w,
    ;
    assert((blocks + 1) * w <= q * w) by (nonlinear_arith)
        requires
            blocks + 1 <= q,
            0 < w,
    ;
    assert((blocks + 1) * w == blocks * w + w) by (nonlinear_arith);
}

/// Position `r` of a block of width `w` that starts at a multiple of `w`.
pub proof fn lemma_block_offset(b: int, w: int, r: int)
    requires
        0 < w,
        0 <= r < w,
    ensures
        (b * w + r) % w == r,
        (b * w + r) / w == b,
{
    vstd::arithmetic::div_mod::lemma_fundamental_div_mod_converse(b * w + r, w, b, r);
}

/// A number has `m` trailing ones exactly if it is `2^m - 1` modulo
/// `2^(m + 1)`.
pub proof fn lemma_trailing_ones(x: int, m: int)
    requires
        0 <= x,
        0 <= m,
    ensures
        trailing_ones(x) >= 0,
        trailing_ones(x) == m <==> x % two_pow(m + 1) == two_pow(m) - 1,
    decreases m, x,
{
    lemma_two_pow_grows(0, m);
    if x > 0 && x % 2 == 1 {
        lemma_trailing_ones(x / 2, 0);
    }
    if m > 0 {
        let w = two_pow(m);
        let h = x / 2;
        let r = x % 2;
        lemma_trailing_ones(h, m - 1);
        let q = h / w;
        vstd::arithmetic::div_mod::lemma_fundamental_div_mod(h, w);
        assert(x == q * (2 * w) + (2 * (h % w) + r)) by (nonlinear_arith)
            requires
                x == 2 * h + r,
                h == w * q + h % w,
        ;
        lemma_block_offset(q, 2 * w, 2 * (h % w) + r);
        lemma_two_pow_grows(0, m - 1);
    }
}

} // verus!
