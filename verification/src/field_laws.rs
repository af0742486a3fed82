//! The field on element numbers: sums are exclusive ors, products go through
//! the Cantor basis, and the field laws hold.

use vstd::prelude::*;
use crate::gf::cantor;
use crate::gf::cantor_index;
use crate::gf::gmul;
use crate::gf::pow_x;
use crate::gf_lemmas::lemma_cantor_additive;
use crate::gf_lemmas::lemma_cantor_bijective;
use crate::gf_lemmas::lemma_cantor_halves;
use crate::gf_lemmas::lemma_gmul_additive;
use crate::gf_lemmas::lemma_gmul_right_zero;
use crate::gf_lemmas::lemma_gmul_zero;
use crate::gf_lemmas::lemma_pow_x_add;
use crate::gf_lemmas::lemma_pow_x_injective;
use crate::gf_lemmas::lemma_pow_x_nonzero;
use crate::gf_lemmas::lemma_pow_x_period;
use crate::gf_lemmas::lemma_pow_x_surjective;
use crate::gf_lemmas::lemma_pow_x_wraps;
use crate::tables::lemma_mul_is_product;
use crate::tables::mul_spec;
use crate::tables::TablesView;

verus! {

/// The number of the product of the elements numbered `a` and `b`.
#[verifier::opaque]
pub open spec fn fmul(a: u16, b: u16) -> u16 {
    cantor_index(gmul(cantor(a), cantor(b)))
}

/// The number of the power `x^e`, for any integer `e`.
#[verifier::opaque]
pub open spec fn fpow(e: int) -> u16 {
    cantor_index(pow_x((e % 65535) as nat))
}

/// The exponent below 65535 of the power of x that is the element numbered
/// `a`, which is not zero.
pub open spec fn flog(a: u16) -> nat {
    choose|e: nat| e < 65535 && pow_x(e) == cantor(a)
}

/// Exclusive or is the addition of a vector space over two elements.
pub proof fn lemma_xor_laws(x: u16, y: u16, z: u16)
    by (bit_vector)
    ensures
        x ^ x == 0,
        x ^ 0 == x,
        0 ^ x == x,
        x ^ y == y ^ x,
        (x ^ y) ^ z == x ^ (y ^ z),
        (x ^ y) ^ y == x,
        x ^ y == 0 <==> x == y,
{
}

/// Every element but zero is a power of x.
pub proof fn lemma_flog(a: u16)
    requires
        a != 0,
    ensures
        flog(a) < 65535,
        pow_x(flog(a)) == cantor(a),
        fpow(flog(a) as int) == a,
{
    reveal(fmul);
    reveal(fpow);
    lemma_cantor_bijective(a);
    lemma_pow_x_surjective(cantor(a));
}

/// Zero annihilates and one is neutral.
pub proof fn lemma_fmul_units(a: u16)
    ensures
        fmul(0, a) == 0,
        fmul(a, 0) == 0,
        fmul(1, a) == a,
        fmul(a, 1) == a,
{
    reveal(fmul);
    reveal(fpow);
    lemma_gmul_zero(cantor(a));
    lemma_gmul_right_zero(cantor(a));
    lemma_cantor_bijective(a);
    lemma_cantor_bijective(0);
    crate::gf_lemmas::lemma_gmul_unit(cantor(a));
}

/// The product of two powers of x is the power of the sum of the exponents.
proof fn lemma_fmul_powers(a: u16, b: u16)
    requires
        a != 0,
        b != 0,
    ensures
        gmul(cantor(a), cantor(b)) == pow_x(flog(a) + flog(b)),
        fmul(a, b) != 0,
        cantor(fmul(a, b)) == pow_x(flog(a) + flog(b)),
{
    reveal(fmul);
    reveal(fpow);
    lemma_flog(a);
    lemma_flog(b);
    lemma_pow_x_add(flog(a), flog(b));
    lemma_pow_x_nonzero(flog(a) + flog(b));
    lemma_cantor_bijective(pow_x(flog(a) + flog(b)));
    lemma_cantor_bijective(fmul(a, b));
}

/// Multiplication commutes.
pub proof fn lemma_fmul_commutes(a: u16, b: u16)
    ensures
        fmul(a, b) == fmul(b, a),
{
    reveal(fmul);
    reveal(fpow);
    lemma_fmul_units(a);
    lemma_fmul_units(b);
    if a != 0 && b != 0 {
        lemma_fmul_powers(a, b);
        lemma_fmul_powers(b, a);
    }
}

/// Multiplication is associative.
pub proof fn lemma_fmul_associates(a: u16, b: u16, c: u16)
    ensures
        fmul(fmul(a, b), c) == fmul(a, fmul(b, c)),
{
    reveal(fmul);
    reveal(fpow);
    lemma_fmul_units(a);
    lemma_fmul_units(b);
    lemma_fmul_units(c);
    lemma_fmul_units(fmul(a, b));
    lemma_fmul_units(fmul(b, c));
    if a != 0 && b != 0 && c != 0 {
        lemma_fmul_powers(a, b);
        lemma_fmul_powers(b, c);
        lemma_flog(a);
        lemma_flog(c);
        lemma_pow_x_add(flog(a) + flog(b), flog(c));
        lemma_pow_x_add(flog(a), flog(b) + flog(c));
    }
}

/// Multiplication distributes over addition.
pub proof fn lemma_fmul_distributes(a: u16, b: u16, c: u16)
    ensures
        fmul(a ^ b, c) == fmul(a, c) ^ fmul(b, c),
        fmul(c, a ^ b) == fmul(c, a) ^ fmul(c, b),
{
    reveal(fmul);
    reveal(fpow);
    lemma_cantor_additive(a, b);
    lemma_gmul_additive(cantor(a), cantor(b), cantor(c));
    lemma_cantor_additive(gmul(cantor(a), cantor(c)), gmul(cantor(b), cantor(c)));
    lemma_fmul_commutes(c, a ^ b);
    lemma_fmul_commutes(c, a);
    lemma_fmul_commutes(c, b);
}

/// A product is zero only where a factor is.
pub proof fn lemma_fmul_nonzero(a: u16, b: u16)
    ensures
        fmul(a, b) == 0 <==> a == 0 || b == 0,
{
    reveal(fmul);
    reveal(fpow);
    lemma_fmul_units(a);
    lemma_fmul_units(b);
    if a != 0 && b != 0 {
        lemma_fmul_powers(a, b);
    }
}

/// The square of an element is the element plus the element of half its
/// number.
pub proof fn lemma_fmul_square(q: u16)
    ensures
        fmul(q, q) == (q >> 1) ^ q,
        fmul(q, q ^ 1) == q >> 1,
{
    reveal(fmul);
    reveal(fpow);
    lemma_cantor_halves(q);
    lemma_cantor_additive(gmul(cantor(q), cantor(q)), cantor(q));
    lemma_cantor_bijective(q);
    lemma_xor_laws(fmul(q, q), q, 0);
    lemma_fmul_distributes(q, 1, q);
    lemma_fmul_units(q);
}

/// The second basis element times its successor is one.
pub proof fn lemma_fmul_two_three()
    ensures
        fmul(2, 3) == 1,
{
    reveal(fmul);
    lemma_gmul_right_zero(0);
}

/// Powers of x: exponents add, and count modulo 65535.
pub proof fn lemma_fpow_add(a: int, b: int)
    ensures
        fpow(a + b) == fmul(fpow(a), fpow(b)),
        fpow(a) != 0,
        fpow(0) == 1,
        fpow(65535) == 1,
        fpow(a + 65535) == fpow(a),
        fpow(a - 65535) == fpow(a),
{
    reveal(fmul);
    reveal(fpow);
    let (ra, rb) = ((a % 65535) as nat, (b % 65535) as nat);
    let rs = ((a + b) % 65535) as nat;
    lemma_pow_x_add(ra, rb);
    assert(ra + rb == rs || ra + rb == rs + 65535) by {
        vstd::arithmetic::div_mod::lemma_add_mod_noop(a, b, 65535);
        if ra + rb >= 65535 {
            vstd::arithmetic::div_mod::lemma_mod_sub_multiples_vanish((ra + rb) as int, 65535);
            vstd::arithmetic::div_mod::lemma_small_mod((ra + rb - 65535) as nat, 65535);
        } else {
            vstd::arithmetic::div_mod::lemma_small_mod(ra + rb, 65535);
        }
    }
    lemma_pow_x_wraps(rs);
    lemma_cantor_bijective(pow_x(ra));
    lemma_cantor_bijective(pow_x(rb));
    lemma_pow_x_nonzero(ra);
    lemma_pow_x_period();
    lemma_cantor_bijective(0);
    lemma_cantor_bijective(1);
    vstd::arithmetic::div_mod::lemma_mod_add_multiples_vanish(a, 65535);
    vstd::arithmetic::div_mod::lemma_mod_sub_multiples_vanish(a, 65535);
}

/// The power with the logarithm of an element as its exponent is the element.
pub proof fn lemma_fpow_log(t: TablesView, a: u16)
    requires
        t.field_wf(),
        a != 0,
    ensures
        t.log[a as int] < 65535,
        fpow(t.log[a as int] as int) == a,
        t.log[1] == 0,
{
    reveal(fmul);
    reveal(fpow);
    lemma_cantor_bijective(a);
    lemma_cantor_bijective(1);
    lemma_pow_x_period();
    lemma_pow_x_injective(t.log[1] as nat, 0);
}

/// Multiplication through the tables is multiplication by a power of x.
pub proof fn lemma_mul_spec_is_fmul(t: TablesView, a: u16, exponent: u16)
    requires
        t.field_wf(),
    ensures
        mul_spec(t, a, exponent) == fmul(a, fpow(exponent as int)),
        exponent == 0 || exponent == 65535 ==> mul_spec(t, a, exponent) == a,
{
    reveal(fmul);
    reveal(fpow);
    lemma_mul_is_product(t, a, exponent);
    lemma_cantor_bijective(mul_spec(t, a, exponent));
    lemma_pow_x_period();
    if exponent == 65535 {
        lemma_cantor_bijective(pow_x(0));
    } else {
        lemma_cantor_bijective(pow_x(exponent as nat));
    }
    lemma_fpow_add(0, 0);
    lemma_fmul_units(a);
}

/// Multiplication through the tables by the logarithm of an element is
/// multiplication by the element; the logarithm of zero stands for zero where
/// the caller leaves the multiplication out.
pub proof fn lemma_mul_by_log(t: TablesView, a: u16, b: u16)
    requires
        t.field_wf(),
        b != 0,
    ensures
        mul_spec(t, a, t.log[b as int]) == fmul(a, b),
{
    reveal(fmul);
    reveal(fpow);
    lemma_mul_spec_is_fmul(t, a, t.log[b as int]);
    lemma_fpow_log(t, b);
}

} // verus!
