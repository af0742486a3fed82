//! Facts about the field: x generates the multiplicative group, and the
//! Cantor basis is a basis.

use vstd::prelude::*;
use vstd::arithmetic::div_mod::lemma_fundamental_div_mod;
use vstd::arithmetic::div_mod::lemma_fundamental_div_mod_converse;
use vstd::relations::injective_on;
use vstd::set_lib::lemma_int_range;
use vstd::set_lib::lemma_map_size;
use vstd::set_lib::lemma_subset_equality;
use vstd::set_lib::set_int_range;
use crate::gf::base_elt;
use crate::gf::cantor;
use crate::gf::cantor_index;
use crate::gf::clmul;
use crate::gf::gmul;
use crate::gf::pow_x;
use crate::gf::reduce;
use crate::gf::xtime;
use crate::gf::xtimes;
use crate::gf::BASE;

verus! {

proof fn lemma_xtime_injective(a: u16, b: u16)
    by (bit_vector)
    requires
        xtime(a) == xtime(b),
    ensures
        a == b,
{
}

proof fn lemma_xtime_zero(a: u16)
    by (bit_vector)
    ensures
        xtime(a) == 0 <==> a == 0,
{
}

proof fn lemma_gmul_one(v: u16)
    by (bit_vector)
    ensures
        gmul(v, 1) == v,
        gmul(1, v) == v,
{
}

proof fn lemma_reduce_shift(p: u32)
    by (bit_vector)
    requires
        p <= 0x7FFF_FFFF,
    ensures
        xtime(reduce(p)) == reduce(p << 1),
{
}

proof fn lemma_reduce_additive(p: u32, q: u32)
    by (bit_vector)
    ensures
        reduce(p ^ q) == reduce(p) ^ reduce(q),
        (p ^ q) << 1 == (p << 1) ^ (q << 1),
{
}

proof fn lemma_clmul_shift(c: u16, v: u16)
    by (bit_vector)
    requires
        c & 0x8000 == 0,
    ensures
        clmul(c << 1, v) == clmul(c, v) << 1,
{
}

proof fn lemma_clmul_bound(c: u16, v: u16)
    by (bit_vector)
    ensures
        clmul(c, v) <= 0x7FFF_FFFF,
{
}

proof fn lemma_clmul_additive(c: u16, d: u16, v: u16)
    by (bit_vector)
    ensures
        clmul(c ^ d, v) == clmul(c, v) ^ clmul(d, v),
{
}

proof fn lemma_top_power(v: u16)
    by (bit_vector)
    ensures
        reduce(clmul(0x8000, v) << 1) == reduce(clmul(0x2D, v)),
{
}

proof fn lemma_split_top(c: u16)
    by (bit_vector)
    requires
        c & 0x8000 != 0,
    ensures
        c == (c & 0x7FFF) ^ 0x8000,
        (c & 0x7FFF) & 0x8000 == 0,
{
}

/// One is neutral for the product.
pub proof fn lemma_gmul_unit(v: u16)
    ensures
        gmul(v, 1) == v,
        gmul(1, v) == v,
{
    lemma_gmul_one(v);
}

/// Multiplying a product by x multiplies its first factor by x.
proof fn lemma_gmul_xtime(c: u16, v: u16)
    ensures
        xtime(gmul(c, v)) == gmul(xtime(c), v),
{
    lemma_clmul_bound(c, v);
    lemma_reduce_shift(clmul(c, v));
    if c & 0x8000 == 0 {
        lemma_clmul_shift(c, v);
    } else {
        let low = c & 0x7FFF;
        lemma_split_top(c);
        lemma_clmul_shift(low, v);
        lemma_clmul_additive(low, 0x8000, v);
        lemma_clmul_additive(low << 1, 0x2D, v);
        let p = clmul(low, v);
        let q = clmul(0x8000, v);
        lemma_reduce_additive(p, q);
        lemma_reduce_additive(p << 1, q << 1);
        lemma_reduce_additive(p << 1, clmul(0x2D, v));
        lemma_top_power(v);
    }
}

/// Multiplying `e` times by x is multiplying by `x^e`.
pub proof fn lemma_xtimes_is_product(e: nat, v: u16)
    ensures
        xtimes(e, v) == gmul(pow_x(e), v),
    decreases e,
{
    if e == 0 {
        lemma_gmul_one(v);
    } else {
        lemma_xtimes_is_product((e - 1) as nat, v);
        lemma_gmul_xtime(pow_x((e - 1) as nat), v);
    }
}

proof fn lemma_xtimes_add(a: nat, b: nat, v: u16)
    ensures
        xtimes(a + b, v) == xtimes(a, xtimes(b, v)),
    decreases a,
{
    if a > 0 {
        lemma_xtimes_add((a - 1) as nat, b, v);
    }
}

/// Exponents add under multiplication.
pub proof fn lemma_pow_x_add(a: nat, b: nat)
    ensures
        pow_x(a + b) == gmul(pow_x(a), pow_x(b)),
{
    lemma_xtimes_add(a, b, 1);
    lemma_xtimes_is_product(a, pow_x(b));
}

proof fn lemma_xtimes_injective(e: nat, a: u16, b: u16)
    requires
        xtimes(e, a) == xtimes(e, b),
    ensures
        a == b,
    decreases e,
{
    if e > 0 {
        lemma_xtime_injective(xtimes((e - 1) as nat, a), xtimes((e - 1) as nat, b));
        lemma_xtimes_injective((e - 1) as nat, a, b);
    }
}

/// No power of x is zero.
pub proof fn lemma_pow_x_nonzero(e: nat)
    ensures
        pow_x(e) != 0,
    decreases e,
{
    if e == 0 {
    } else {
        lemma_pow_x_nonzero((e - 1) as nat);
        lemma_xtime_zero(pow_x((e - 1) as nat));
    }
}

proof fn lemma_x_is_two()
    by (bit_vector)
    ensures
        xtime(1) == 2,
{
}

proof fn lemma_pow_step(a: nat, b: nat, va: u16, vb: u16, vc: u16)
    requires
        pow_x(a) == va,
        pow_x(b) == vb,
        gmul(va, vb) == vc,
    ensures
        pow_x(a + b) == vc,
{
    lemma_pow_x_add(a, b);
}

proof fn lemma_power_one()
    ensures
        pow_x(0) == 1,
        pow_x(1) == 2,
{
    lemma_x_is_two();
    reveal_with_fuel(xtimes, 2);
}

proof fn lemma_productss_of_two()
    by (bit_vector)
    ensures
        gmul(2, 2) == 4,
        gmul(4, 4) == 16,
        gmul(16, 16) == 256,
        gmul(256, 256) == 45,
        gmul(45, 45) == 1105,
        gmul(1105, 1105) == 5073,
        gmul(5073, 5073) == 31896,
        gmul(31896, 31896) == 394,
        gmul(394, 394) == 16489,
        gmul(16489, 16489) == 50203,
        gmul(50203, 50203) == 37584,
        gmul(37584, 37584) == 15787,
        gmul(15787, 15787) == 54520,
        gmul(54520, 54520) == 60373,
        gmul(60373, 60373) == 32653,
{
}

proof fn lemma_powers_of_two()
    ensures
        pow_x(1) == 2,
        pow_x(2) == 4,
        pow_x(4) == 16,
        pow_x(8) == 256,
        pow_x(16) == 45,
        pow_x(32) == 1105,
        pow_x(64) == 5073,
        pow_x(128) == 31896,
        pow_x(256) == 394,
        pow_x(512) == 16489,
        pow_x(1024) == 50203,
        pow_x(2048) == 37584,
        pow_x(4096) == 15787,
        pow_x(8192) == 54520,
        pow_x(16384) == 60373,
        pow_x(32768) == 32653,
{
    lemma_productss_of_two();
    lemma_power_one();
    lemma_pow_step(1, 1, 2, 2, 4);
    lemma_pow_step(2, 2, 4, 4, 16);
    lemma_pow_step(4, 4, 16, 16, 256);
    lemma_pow_step(8, 8, 256, 256, 45);
    lemma_pow_step(16, 16, 45, 45, 1105);
    lemma_pow_step(32, 32, 1105, 1105, 5073);
    lemma_pow_step(64, 64, 5073, 5073, 31896);
    lemma_pow_step(128, 128, 31896, 31896, 394);
    lemma_pow_step(256, 256, 394, 394, 16489);
    lemma_pow_step(512, 512, 16489, 16489, 50203);
    lemma_pow_step(1024, 1024, 50203, 50203, 37584);
    lemma_pow_step(2048, 2048, 37584, 37584, 15787);
    lemma_pow_step(4096, 4096, 15787, 15787, 54520);
    lemma_pow_step(8192, 8192, 54520, 54520, 60373);
    lemma_pow_step(16384, 16384, 60373, 60373, 32653);
}

proof fn lemma_products_255()
    by (bit_vector)
    ensures
        gmul(2, 4) == 8,
        gmul(8, 16) == 128,
        gmul(128, 256) == 32768,
        gmul(32768, 45) == 33342,
        gmul(33342, 1105) == 35326,
        gmul(35326, 5073) == 15948,
        gmul(15948, 31896) == 197,
{
}

proof fn lemma_power_255()
    ensures
        pow_x(255) == 197,
{
    lemma_products_255();
    lemma_powers_of_two();
    lemma_pow_step(1, 2, 2, 4, 8);
    lemma_pow_step(3, 4, 8, 16, 128);
    lemma_pow_step(7, 8, 128, 256, 32768);
    lemma_pow_step(15, 16, 32768, 45, 33342);
    lemma_pow_step(31, 32, 33342, 1105, 35326);
    lemma_pow_step(63, 64, 35326, 5073, 15948);
    lemma_pow_step(127, 128, 15948, 31896, 197);
}

proof fn lemma_products_3855()
    by (bit_vector)
    ensures
        gmul(2, 4) == 8,
        gmul(8, 16) == 128,
        gmul(128, 256) == 32768,
        gmul(32768, 394) == 7513,
        gmul(7513, 16489) == 32827,
        gmul(32827, 50203) == 38645,
        gmul(38645, 37584) == 44212,
{
}

proof fn lemma_power_3855()
    ensures
        pow_x(3855) == 44212,
{
    lemma_products_3855();
    lemma_powers_of_two();
    lemma_pow_step(1, 2, 2, 4, 8);
    lemma_pow_step(3, 4, 8, 16, 128);
    lemma_pow_step(7, 8, 128, 256, 32768);
    lemma_pow_step(15, 256, 32768, 394, 7513);
    lemma_pow_step(271, 512, 7513, 16489, 32827);
    lemma_pow_step(783, 1024, 32827, 50203, 38645);
    lemma_pow_step(1807, 2048, 38645, 37584, 44212);
}

proof fn lemma_products_13107()
    by (bit_vector)
    ensures
        gmul(2, 4) == 8,
        gmul(8, 45) == 360,
        gmul(360, 1105) == 60785,
        gmul(60785, 394) == 27979,
        gmul(27979, 16489) == 63559,
        gmul(63559, 15787) == 29153,
        gmul(29153, 54520) == 34554,
{
}

proof fn lemma_power_13107()
    ensures
        pow_x(13107) == 34554,
{
    lemma_products_13107();
    lemma_powers_of_two();
    lemma_pow_step(1, 2, 2, 4, 8);
    lemma_pow_step(3, 16, 8, 45, 360);
    lemma_pow_step(19, 32, 360, 1105, 60785);
    lemma_pow_step(51, 256, 60785, 394, 27979);
    lemma_pow_step(307, 512, 27979, 16489, 63559);
    lemma_pow_step(819, 4096, 63559, 15787, 29153);
    lemma_pow_step(4915, 8192, 29153, 54520, 34554);
}

proof fn lemma_products_21845()
    by (bit_vector)
    ensures
        gmul(2, 16) == 32,
        gmul(32, 45) == 1440,
        gmul(1440, 5073) == 3827,
        gmul(3827, 394) == 57787,
        gmul(57787, 50203) == 49174,
        gmul(49174, 15787) == 64060,
        gmul(64060, 60373) == 44234,
{
}

proof fn lemma_power_21845()
    ensures
        pow_x(21845) == 44234,
{
    lemma_products_21845();
    lemma_powers_of_two();
    lemma_pow_step(1, 4, 2, 16, 32);
    lemma_pow_step(5, 16, 32, 45, 1440);
    lemma_pow_step(21, 64, 1440, 5073, 3827);
    lemma_pow_step(85, 256, 3827, 394, 57787);
    lemma_pow_step(341, 1024, 57787, 50203, 49174);
    lemma_pow_step(1365, 4096, 49174, 15787, 64060);
    lemma_pow_step(5461, 16384, 64060, 60373, 44234);
}

proof fn lemma_products_65535()
    by (bit_vector)
    ensures
        gmul(197, 394) == 40994,
        gmul(40994, 16489) == 57883,
        gmul(57883, 50203) == 18792,
        gmul(18792, 37584) == 40643,
        gmul(40643, 15787) == 27260,
        gmul(27260, 54520) == 62972,
        gmul(62972, 60373) == 49104,
        gmul(49104, 32653) == 1,
{
}

proof fn lemma_power_65535()
    ensures
        pow_x(65535) == 1,
{
    lemma_products_65535();
    lemma_powers_of_two();
    lemma_power_255();
    lemma_pow_step(255, 256, 197, 394, 40994);
    lemma_pow_step(511, 512, 40994, 16489, 57883);
    lemma_pow_step(1023, 1024, 57883, 50203, 18792);
    lemma_pow_step(2047, 2048, 18792, 37584, 40643);
    lemma_pow_step(4095, 4096, 40643, 15787, 27260);
    lemma_pow_step(8191, 8192, 27260, 54520, 62972);
    lemma_pow_step(16383, 16384, 62972, 60373, 49104);
    lemma_pow_step(32767, 32768, 49104, 32653, 1);
}

/// The powers of x that decide its order.
proof fn lemma_powers()
    ensures
        pow_x(0) == 1,
        pow_x(255) != 1,
        pow_x(3855) != 1,
        pow_x(13107) != 1,
        pow_x(21845) != 1,
        pow_x(65535) == 1,
{
    lemma_power_one();
    lemma_power_255();
    lemma_power_3855();
    lemma_power_13107();
    lemma_power_21845();
    lemma_power_65535();
}

/// `x^d` is one.
spec fn is_period(d: nat) -> bool {
    pow_x(d) == 1
}

proof fn lemma_period_sub(a: nat, b: nat)
    requires
        is_period(a),
        is_period(b),
        b <= a,
    ensures
        is_period((a - b) as nat),
{
    lemma_pow_x_add((a - b) as nat, b);
    lemma_gmul_one(pow_x((a - b) as nat));
}

proof fn lemma_period_mod(a: nat, b: nat)
    requires
        is_period(a),
        is_period(b),
        b > 0,
    ensures
        is_period(a % b),
    decreases a,
{
    if a < b {
        vstd::arithmetic::div_mod::lemma_small_mod(a, b);
    } else {
        lemma_period_sub(a, b);
        lemma_period_mod((a - b) as nat, b);
        vstd::arithmetic::div_mod::lemma_mod_sub_multiples_vanish(a as int, b as int);
    }
}

proof fn lemma_period_mul(g: nat, m: nat)
    requires
        is_period(g),
    ensures
        is_period(g * m),
    decreases m,
{
    if m == 0 {
        assert(g * m == 0) by (nonlinear_arith)
            requires
                m == 0,
        ;
    } else {
        lemma_period_mul(g, (m - 1) as nat);
        assert(g * m == g * (m - 1) + g) by (nonlinear_arith);
        lemma_pow_x_add(g * ((m - 1) as nat), g);
        lemma_gmul_one(1);
    }
}

/// A common divisor of two periods that is itself a period.
proof fn lemma_common_period(a: nat, b: nat) -> (g: nat)
    requires
        is_period(a),
        is_period(b),
        b > 0,
    ensures
        g > 0,
        is_period(g),
        a % g == 0,
        b % g == 0,
    decreases b,
{
    if a % b == 0 {
        vstd::arithmetic::div_mod::lemma_mod_self_0(b as int);
        b
    } else {
        lemma_period_mod(a, b);
        let r = a % b;
        let g = lemma_common_period(b, r);
        let q = a / b;
        lemma_fundamental_div_mod(a as int, b as int);
        let bq = b as int / g as int;
        let rq = r as int / g as int;
        lemma_fundamental_div_mod(b as int, g as int);
        lemma_fundamental_div_mod(r as int, g as int);
        assert(a == (bq * q + rq) * g) by (nonlinear_arith)
            requires
                a == b * q + r,
                b == g * bq,
                r == g * rq,
        ;
        lemma_fundamental_div_mod_converse(a as int, g as int, bq * q + rq, 0);
        g
    }
}

proof fn lemma_divisors(c: u32)
    by (bit_vector)
    requires
        1 < c <= 65535,
        65535u32 % c == 0,
    ensures
        c % 3 == 0 || c % 5 == 0 || c % 17 == 0 || c % 257 == 0,
{
}

/// A proper divisor of 65535 divides its quotient by one of its four primes.
proof fn lemma_proper_divisor(g: nat) -> (m: nat)
    requires
        0 < g < 65535,
        65535int % (g as int) == 0,
    ensures
        g * m == 21845 || g * m == 13107 || g * m == 3855 || g * m == 255,
{
    let c = 65535int / (g as int);
    lemma_fundamental_div_mod(65535, g as int);
    assert(g * c == c * g) by (nonlinear_arith);
    assert(1 < c <= 65535) by (nonlinear_arith)
        requires
            c * g == 65535,
            0 < g < 65535,
    ;
    lemma_fundamental_div_mod_converse(65535, c, g as int, 0);
    lemma_divisors(c as u32);
    let q: int = if c % 3 == 0 {
        3
    } else if c % 5 == 0 {
        5
    } else if c % 17 == 0 {
        17
    } else {
        257
    };
    let m = c / q;
    lemma_fundamental_div_mod(c, q);
    assert(q * (g * m) == 65535) by (nonlinear_arith)
        requires
            c * g == 65535,
            c == q * m,
    ;
    assert(0 <= m) by (nonlinear_arith)
        requires
            c == q * m,
            1 < c,
            0 < q,
    ;
    m as nat
}

/// No power of x below the 65535th, except the zeroth, is one.
proof fn lemma_no_small_period(d: nat)
    requires
        0 < d < 65535,
    ensures
        !is_period(d),
{
    if is_period(d) {
        lemma_powers();
        let g = lemma_common_period(65535, d);
        assert(g <= d) by {
            if g > d {
                vstd::arithmetic::div_mod::lemma_small_mod(d, g);
            }
        }
        let m = lemma_proper_divisor(g);
        lemma_period_mul(g, m);
    }
}

/// The powers of x below the 65535th are distinct.
pub proof fn lemma_pow_x_injective(a: nat, b: nat)
    requires
        a < 65535,
        b < 65535,
        pow_x(a) == pow_x(b),
    ensures
        a == b,
{
    if a != b {
        let (lo, hi) = if a < b {
            (a, b)
        } else {
            (b, a)
        };
        let d = (hi - lo) as nat;
        lemma_xtimes_add(lo, d, 1);
        lemma_xtimes_injective(lo, pow_x(d), 1);
        lemma_no_small_period(d);
    }
}

/// The 65535th power of x is one.
pub proof fn lemma_pow_x_period()
    ensures
        pow_x(65535) == 1,
        pow_x(0) == 1,
{
    lemma_powers();
}

/// Every nonzero element is a power of x.
pub proof fn lemma_pow_x_surjective(v: u16)
    requires
        v != 0,
    ensures
        exists|e: nat| e < 65535 && pow_x(e) == v,
{
    let dom = set_int_range(0, 65535);
    let f = |i: int| pow_x(i as nat) as int;
    let img = dom.map(f);
    let all = set_int_range(1, 65536);
    lemma_int_range(0, 65535);
    lemma_int_range(1, 65536);
    assert(injective_on(f, dom)) by {
        assert forall|x1: int, x2: int|
            dom.contains(x1) && dom.contains(x2) && #[trigger] f(x1) == #[trigger] f(
                x2,
            ) implies x1 == x2 by {
            lemma_pow_x_injective(x1 as nat, x2 as nat);
        }
    }
    lemma_map_size(dom, img, f);
    assert(img.subset_of(all)) by {
        assert forall|y: int| img.contains(y) implies all.contains(y) by {
            let x = choose|x: int| dom.contains(x) && y == f(x);
            lemma_pow_x_nonzero(x as nat);
        }
    }
    lemma_subset_equality(img, all);
    assert(all.contains(v as int));
    assert(img.contains(v as int));
    let x = choose|x: int| dom.contains(x) && v as int == f(x);
    assert((x as nat) < 65535 && pow_x(x as nat) == v);
}

#[verifier::rlimit(100)]
proof fn lemma_cantor_round_trip(j: u16)
    by (bit_vector)
    ensures
        cantor_index(cantor(j)) == j,
        cantor(cantor_index(j)) == j,
{
}

/// The Cantor basis is a basis: numbering the elements by it is one to one
/// and onto.
pub proof fn lemma_cantor_bijective(j: u16)
    ensures
        cantor_index(cantor(j)) == j,
        cantor(cantor_index(j)) == j,
        cantor(j) == 0 <==> j == 0,
        cantor(1) == 1,
{
    lemma_cantor_round_trip(j);
    lemma_cantor_round_trip(0);
    lemma_cantor_small();
}

proof fn lemma_cantor_small()
    by (bit_vector)
    ensures
        cantor(0) == 0,
        cantor(1) == 1,
        cantor_index(0) == 0,
{
}

proof fn lemma_cantor_step_bits(j: u16, i: u16)
    by (bit_vector)
    requires
        i < 16,
        j < (1u16 << i),
    ensures
        cantor(j) ^ base_elt(i) == cantor((j + (1u16 << i)) as u16),
        j + (1u16 << i) <= 65535,
{
}

/// Setting bit `i` in an element number below `2^i` adds basis element `i`.
pub proof fn lemma_cantor_step(j: u16, i: u16)
    requires
        i < 16,
        j < (1u16 << i),
    ensures
        j + (1u16 << i) <= 65535,
        cantor(j) ^ BASE[i as int] == cantor((j + (1u16 << i)) as u16),
{
    lemma_cantor_step_bits(j, i);
    assert(base_elt(i) == BASE[i as int]);
}


proof fn lemma_gmul_zero_bits(v: u16)
    by (bit_vector)
    ensures
        gmul(0, v) == 0,
{
}

/// Zero times anything is zero.
pub proof fn lemma_gmul_zero(v: u16)
    ensures
        gmul(0, v) == 0,
        cantor(0) == 0,
{
    lemma_gmul_zero_bits(v);
    lemma_cantor_small();
}

/// Exponents of x count modulo 65535.
pub proof fn lemma_pow_x_wraps(n: nat)
    ensures
        pow_x(n + 65535) == pow_x(n),
{
    lemma_pow_x_add(n, 65535);
    lemma_powers();
    lemma_gmul_one(pow_x(n));
}

/// The elements numbered below 256 are closed under multiplication by those
/// numbered below 16: the product of two such elements is numbered below 256.
#[verifier::rlimit(100)]
pub proof fn lemma_subfield(j: u16, i: u16)
    by (bit_vector)
    requires
        j < 16,
        i < 256,
    ensures
        cantor_index(gmul(cantor(j), cantor(i))) & 0xFF00 == 0,
{
}


/// The product is additive in its first factor.
pub proof fn lemma_gmul_additive(a: u16, b: u16, c: u16)
    ensures
        gmul(a ^ b, c) == gmul(a, c) ^ gmul(b, c),
{
    lemma_clmul_additive(a, b, c);
    lemma_reduce_additive(clmul(a, c), clmul(b, c));
}

proof fn lemma_small_products(v: u16)
    by (bit_vector)
    ensures
        gmul(v, 0) == 0,
        cantor_index(gmul(cantor(2), cantor(3))) == 1,
{
}

/// Anything times zero is zero, and the second basis element times its
/// successor is one.
pub proof fn lemma_gmul_right_zero(v: u16)
    ensures
        gmul(v, 0) == 0,
        cantor_index(gmul(cantor(2), cantor(3))) == 1,
{
    lemma_small_products(v);
}

#[verifier::rlimit(100)]
proof fn lemma_cantor_additive_bits(a: u16, b: u16)
    by (bit_vector)
    ensures
        cantor(a ^ b) == cantor(a) ^ cantor(b),
{
}

/// Numbering the elements turns their sum into the exclusive or of their
/// numbers.
pub proof fn lemma_cantor_additive(a: u16, b: u16)
    ensures
        cantor(a ^ b) == cantor(a) ^ cantor(b),
        cantor_index(a ^ b) == cantor_index(a) ^ cantor_index(b),
{
    lemma_cantor_additive_bits(a, b);
    lemma_cantor_additive_bits(cantor_index(a), cantor_index(b));
    lemma_cantor_round_trip(a);
    lemma_cantor_round_trip(b);
    lemma_cantor_round_trip(cantor_index(a) ^ cantor_index(b));
}

/// In the numbering of the Cantor basis, the map that takes `x` to
/// `x * x + x` halves the number.
#[verifier::rlimit(100)]
pub proof fn lemma_cantor_halves(q: u16)
    by (bit_vector)
    ensures
        cantor_index(gmul(cantor(q), cantor(q)) ^ cantor(q)) == q >> 1,
{
}

} // verus!
