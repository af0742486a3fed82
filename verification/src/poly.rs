//! Polynomials in the novel basis: their values, and the transform as the
//! evaluation at the points of a block.

use vstd::prelude::*;
use vstd::arithmetic::div_mod::lemma_fundamental_div_mod;
use vstd::arithmetic::div_mod::lemma_fundamental_div_mod_converse;
use crate::afft::block_skew;
use crate::afft::fft_from;
use crate::afft::fft_layer;
use crate::afft::fft_spec;
use crate::afft::lemma_fft_from_len;
use crate::afft::twist;
use crate::field_laws::fmul;
use crate::field_laws::lemma_fmul_commutes;
use crate::field_laws::lemma_fmul_distributes;
use crate::field_laws::lemma_fmul_units;
use crate::field_laws::lemma_mul_by_log;
use crate::field_laws::lemma_xor_laws;
use crate::table_forms::lemma_skew_form;
use crate::tables::TablesView;
use crate::util::lemma_block_offset;
use crate::util::lemma_pow2_divides;
use crate::util::lemma_pow2_half;
use crate::util::lemma_two_pow_grows;
use crate::util::pow2;
use crate::util::two_pow;

verus! {

/// The sum of two coefficient vectors.
pub open spec fn vec_xor(a: Seq<u16>, b: Seq<u16>) -> Seq<u16> {
    Seq::new(a.len(), |i: int| a[i] ^ b[i])
}

/// A coefficient vector times a field element.
pub open spec fn vec_scale(s: u16, v: Seq<u16>) -> Seq<u16> {
    Seq::new(v.len(), |i: int| fmul(s, v[i]))
}

/// The zero vector.
pub open spec fn vec_zero(len: nat) -> Seq<u16> {
    Seq::new(len, |i: int| 0u16)
}

/// The value at the element numbered `x` of the polynomial with the
/// coefficients `c` in the novel basis. The upper half of the coefficients
/// belongs to the basis polynomials that have the subspace polynomial of the
/// half length as a factor, and in the Cantor basis that polynomial takes the
/// element numbered `x` to the one numbered `x / (len / 2)`.
pub open spec fn eval(c: Seq<u16>, x: u16) -> u16
    decreases c.len(),
{
    if c.len() == 0 {
        0
    } else if c.len() == 1 {
        c[0]
    } else {
        let h = (c.len() / 2) as int;
        eval(c.subrange(0, h), x) ^ fmul(
            (x as int / h) as u16,
            eval(c.subrange(h, c.len() as int), x),
        )
    }
}

/// The value at the element numbered `x` of the subspace polynomial of
/// dimension `b`: the polynomial that vanishes on the elements numbered below
/// `2^b` and is one at the element numbered `2^b`.
pub open spec fn subspace_value(b: nat, x: u16) -> u16
    decreases b,
{
    if b == 0 {
        x
    } else {
        (subspace_value((b - 1) as nat, x) >> 1) as u16
    }
}

/// The subspace polynomials of the Cantor basis: each is the square of the
/// one before plus the one before, so each vanishes where the one before is
/// zero or one.
pub proof fn lemma_subspace_polynomial(b: nat, x: u16)
    ensures
        subspace_value(0, x) == x,
        subspace_value(b + 1, x) == fmul(subspace_value(b, x), subspace_value(b, x))
            ^ subspace_value(b, x),
        subspace_value(b, x) == 0 || subspace_value(b, x) == 1 ==> subspace_value(b + 1, x) == 0,
{
    let s = subspace_value(b, x);
    crate::field_laws::lemma_fmul_square(s);
    lemma_xor_laws((s >> 1) as u16, s, 0);
    lemma_fmul_units(s);
    lemma_xor_laws(s, s, 0);
}

/// The value is additive in the coefficients.
pub proof fn lemma_eval_xor(a: Seq<u16>, b: Seq<u16>, x: u16)
    requires
        a.len() == b.len(),
    ensures
        eval(vec_xor(a, b), x) == eval(a, x) ^ eval(b, x),
    decreases a.len(),
{
    let n = a.len() as int;
    let c = vec_xor(a, b);
    if n == 0 {
        lemma_xor_laws(0, 0, 0);
    } else if n > 1 {
        let h = n / 2;
        assert(c.subrange(0, h) =~= vec_xor(a.subrange(0, h), b.subrange(0, h)));
        assert(c.subrange(h, n) =~= vec_xor(a.subrange(h, n), b.subrange(h, n)));
        lemma_eval_xor(a.subrange(0, h), b.subrange(0, h), x);
        lemma_eval_xor(a.subrange(h, n), b.subrange(h, n), x);
        let s = (x as int / h) as u16;
        let (al, ah) = (eval(a.subrange(0, h), x), eval(a.subrange(h, n), x));
        let (bl, bh) = (eval(b.subrange(0, h), x), eval(b.subrange(h, n), x));
        lemma_fmul_distributes(ah, bh, s);
        lemma_xor_rearrange(al, bl, fmul(s, ah), fmul(s, bh));
    }
}

/// Four terms added pairwise either way; and adding one to an even number.
pub proof fn lemma_xor_rearrange(a: u16, b: u16, c: u16, d: u16)
    by (bit_vector)
    ensures
        (a ^ b) ^ (c ^ d) == (a ^ c) ^ (b ^ d),
        (a ^ c) ^ (b ^ d) == (a ^ b) ^ (c ^ d),
        a % 2 == 0 ==> a ^ 1 == a + 1,
{
}

/// The value is homogeneous in the coefficients.
pub proof fn lemma_eval_scale(s: u16, v: Seq<u16>, x: u16)
    ensures
        eval(vec_scale(s, v), x) == fmul(s, eval(v, x)),
    decreases v.len(),
{
    let n = v.len() as int;
    let c = vec_scale(s, v);
    if n == 0 {
        lemma_fmul_units(s);
    } else if n > 1 {
        let h = n / 2;
        assert(c.subrange(0, h) =~= vec_scale(s, v.subrange(0, h)));
        assert(c.subrange(h, n) =~= vec_scale(s, v.subrange(h, n)));
        lemma_eval_scale(s, v.subrange(0, h), x);
        lemma_eval_scale(s, v.subrange(h, n), x);
        let q = (x as int / h) as u16;
        let (vl, vh) = (eval(v.subrange(0, h), x), eval(v.subrange(h, n), x));
        lemma_fmul_distributes(vl, fmul(q, vh), s);
        crate::field_laws::lemma_fmul_associates(s, q, vh);
        crate::field_laws::lemma_fmul_associates(q, s, vh);
        lemma_fmul_commutes(s, q);
    }
}

/// The zero polynomial is zero everywhere.
pub proof fn lemma_eval_zero(len: nat, x: u16)
    ensures
        eval(vec_zero(len), x) == 0,
    decreases len,
{
    if len > 1 {
        let h = (len / 2) as int;
        let z = vec_zero(len);
        assert(z.subrange(0, h) =~= vec_zero(h as nat));
        assert(z.subrange(h, len as int) =~= vec_zero((len - h) as nat));
        lemma_eval_zero(h as nat, x);
        lemma_eval_zero((len - h) as nat, x);
        lemma_fmul_units((x as int / h) as u16);
        lemma_xor_laws(0, 0, 0);
    }
}

/// Zero coefficients at the end do not change the value.
pub proof fn lemma_eval_padded(c: Seq<u16>, n: int, x: u16)
    requires
        pow2(c.len() as int),
        pow2(n),
        c.len() <= n,
    ensures
        eval(c + vec_zero((n - c.len()) as nat), x) == eval(c, x),
    decreases n,
{
    let k = c.len() as int;
    let padded = c + vec_zero((n - k) as nat);
    if k == n {
        assert(padded =~= c);
    } else {
        lemma_pow2_divides(k, n);
        lemma_pow2_half(n);
        let h = n / 2;
        lemma_eval_padded(c, h, x);
        assert(padded.subrange(0, h) =~= c + vec_zero((h - k) as nat));
        assert(padded.subrange(h, n) =~= vec_zero(h as nat));
        lemma_eval_zero(h as nat, x);
        lemma_fmul_units((x as int / h) as u16);
        lemma_xor_laws(eval(c, x), 0, 0);
    }
}

/// The passes at distances below the half length act on the two halves
/// apart, the upper half with its window moved up by the half length.
proof fn lemma_fft_splits(t: TablesView, u: Seq<u16>, w: Seq<u16>, d: int, index: int)
    requires
        u.len() == w.len(),
        pow2(u.len() as int),
        d == 0 || (pow2(d) && d < u.len()),
    ensures
        fft_from(t, u + w, d, index) == fft_from(t, u, d, index) + fft_from(
            t,
            w,
            d,
            index + u.len(),
        ),
    decreases d,
{
    let h = u.len() as int;
    if d > 0 {
        lemma_pow2_divides(d, h);
        let both = fft_layer(t, u + w, d, index);
        let lower = fft_layer(t, u, d, index);
        let upper = fft_layer(t, w, d, index + h);
        let width = 2 * d;
        let q = h / width;
        lemma_fundamental_div_mod(h, width);
        assert(h == q * width) by (nonlinear_arith)
            requires
                h == width * q,
        ;
        assert forall|p: int| 0 <= p < 2 * h implies both[p] == (lower + upper)[p] by {
            let r = if p < h { p } else { p - h };
            let b = r / width;
            lemma_fundamental_div_mod(r, width);
            assert(r == b * width + r % width) by (nonlinear_arith)
                requires
                    r == width * b + r % width,
            ;
            assert(0 <= b) by (nonlinear_arith)
                requires
                    0 <= r,
                    0 < width,
                    b == r / width,
            ;
            crate::util::lemma_block_fits(b, width, h);
            if p >= h {
                assert(p == (q + b) * width + r % width) by (nonlinear_arith)
                    requires
                        p == h + r,
                        h == q * width,
                        r == b * width + r % width,
                ;
                lemma_block_offset(q + b, width, r % width);
                assert(block_skew(t, p, d, index) == block_skew(t, r, d, index + h));
            }
        }
        assert(both =~= lower + upper);
        if d > 1 {
            lemma_pow2_half(d);
        }
        lemma_fft_splits(t, lower, upper, d / 2, index);
        assert(fft_from(t, u + w, d, index) == fft_from(t, both, d / 2, index));
    }
}

/// The lower half of the coefficients plus `s` times the upper half.
pub open spec fn fold_halves(c: Seq<u16>, s: u16) -> Seq<u16> {
    let h = (c.len() / 2) as int;
    vec_xor(c.subrange(0, h), vec_scale(s, c.subrange(h, c.len() as int)))
}

/// The butterflies at half the length fold the coefficients: the lower half
/// of the result belongs to the value `s` of the subspace polynomial on the
/// lower half of the block, the upper half to the value `s + 1` on the upper.
proof fn lemma_top_butterfly(t: TablesView, c: Seq<u16>, index: int)
    requires
        t.wf(),
        pow2(c.len() as int),
        c.len() > 1,
        0 <= index,
        index % (c.len() as int) == 0,
        index + c.len() <= 65536,
    ensures
        0 <= index / (c.len() as int / 2) < 65536,
        (index / (c.len() as int / 2)) % 2 == 0,
        fft_layer(t, c, c.len() as int / 2, index) == fold_halves(
            c,
            (index / (c.len() as int / 2)) as u16,
        ) + fold_halves(c, (index / (c.len() as int / 2) + 1) as u16),
{
    let n = c.len() as int;
    lemma_pow2_half(n);
    let h = n / 2;
    let i = crate::util::floor_log2(h);
    lemma_two_pow_of_pow2(h);
    lemma_two_pow_grows(i, i);
    let lo = c.subrange(0, h);
    let hi = c.subrange(h, n);
    let layer = fft_layer(t, c, h, index);
    let m = index / n;
    lemma_fundamental_div_mod(index, n);
    assert(index == (2 * m) * h) by (nonlinear_arith)
        requires
            index == n * m,
            n == 2 * h,
    ;
    assert(0 <= m) by (nonlinear_arith)
        requires
            index == n * m,
            0 <= index,
            0 < n,
    ;
    lemma_fundamental_div_mod_converse(index, h, 2 * m, 0);
    lemma_skew_form(t, i, index);
    let s = (index / h) as u16;
    lemma_xor_rearrange(s, 0, 0, 0);
    let first = fold_halves(c, s);
    let second = fold_halves(c, (s ^ 1) as u16);
    let skew = t.skew[index + h - 1];
    if s != 0 {
        crate::field_laws::lemma_fpow_log(t, s);
    }
    assert forall|p: int| 0 <= p < h implies layer[p] == first[p] && layer[p + h]
        == second[p] by {
        vstd::arithmetic::div_mod::lemma_small_mod(p as nat, n as nat);
        lemma_block_offset(0, n, p + h);
        assert(block_skew(t, p, h, index) == skew);
        assert(block_skew(t, p + h, h, index) == skew);
        lemma_butterfly(t, c[p], c[p + h], s);
    }
    assert(layer =~= first + second);
}

/// One butterfly, in the field.
proof fn lemma_butterfly(t: TablesView, x: u16, y: u16, s: u16)
    requires
        t.wf(),
        s != 0 ==> t.log[s as int] != 65535,
    ensures
        twist(t, x, y, t.log[s as int]) == x ^ fmul(s, y),
        y ^ twist(t, x, y, t.log[s as int]) == x ^ fmul((s ^ 1) as u16, y),
{
    lemma_fmul_commutes(y, s);
    lemma_fmul_units(y);
    lemma_xor_laws(x, y, fmul(s, y));
    if s != 0 {
        lemma_mul_by_log(t, y, s);
    }
    lemma_fmul_distributes(s, 1, y);
    lemma_xor_laws(y, x, fmul(s, y));
    lemma_xor_laws(fmul(s, y), y, x);
}

/// The value of a polynomial at an element is the value of its coefficients
/// folded by the value of the top subspace polynomial at that element.
proof fn lemma_eval_folded(c: Seq<u16>, x: u16)
    requires
        c.len() > 1,
        c.len() % 2 == 0,
    ensures
        eval(c, x) == eval(fold_halves(c, (x as int / (c.len() as int / 2)) as u16), x),
{
    let n = c.len() as int;
    let h = n / 2;
    let s = (x as int / h) as u16;
    lemma_eval_xor(c.subrange(0, h), vec_scale(s, c.subrange(h, n)), x);
    lemma_eval_scale(s, c.subrange(h, n), x);
}

/// The transform by halves: the transform of a polynomial is the transform
/// of its coefficients folded by the value `s` of the top subspace polynomial
/// on the lower half of the block, followed by the transform of its
/// coefficients folded by `s + 1`, with the window moved up by half the
/// length.
pub proof fn lemma_fft_by_halves(t: TablesView, c: Seq<u16>, index: int)
    requires
        t.wf(),
        pow2(c.len() as int),
        c.len() > 1,
        0 <= index,
        index % (c.len() as int) == 0,
        index + c.len() <= 65536,
    ensures
        0 <= index / (c.len() as int / 2) < 65535,
        (index / (c.len() as int / 2)) % 2 == 0,
        index % (c.len() as int / 2) == 0,
        (index + c.len() as int / 2) % (c.len() as int / 2) == 0,
        index == (index / (c.len() as int / 2)) * (c.len() as int / 2),
        fft_spec(t, c, index) == fft_spec(
            t,
            fold_halves(c, (index / (c.len() as int / 2)) as u16),
            index,
        ) + fft_spec(
            t,
            fold_halves(c, (index / (c.len() as int / 2) + 1) as u16),
            index + c.len() as int / 2,
        ),
{
    let n = c.len() as int;
    lemma_pow2_half(n);
    let h = n / 2;
    let layer = fft_layer(t, c, h, index);
    lemma_top_butterfly(t, c, index);
    let s = index / h;
    let first = fold_halves(c, s as u16);
    let second = fold_halves(c, (s + 1) as u16);
    if h > 1 {
        lemma_pow2_half(h);
    }
    lemma_fft_splits(t, first, second, h / 2, index);
    assert(index % h == 0) by {
        let m = index / n;
        lemma_fundamental_div_mod(index, n);
        assert(index == (2 * m) * h) by (nonlinear_arith)
            requires
                index == n * m,
                n == 2 * h,
        ;
        lemma_fundamental_div_mod_converse(index, h, 2 * m, 0);
    }
    lemma_fundamental_div_mod(index, h);
    assert(index == s * h) by (nonlinear_arith)
        requires
            index == h * s + index % h,
            index % h == 0,
    ;
    assert(index + h == (s + 1) * h) by (nonlinear_arith)
        requires
            index == s * h,
    ;
    lemma_fundamental_div_mod_converse(index + h, h, s + 1, 0);
    assert(s < 65535) by (nonlinear_arith)
        requires
            index == s * h,
            index + 2 * h <= 65536,
            1 <= h,
    ;
    assert(fft_spec(t, c, index) == fft_from(t, layer, h / 2, index));
}

/// The transform is the evaluation: entry `p` of the transform, with the
/// window at a multiple `index` of the length, is the value of the polynomial
/// at the element numbered `index + p`.
pub proof fn lemma_fft_evaluates(t: TablesView, c: Seq<u16>, index: int)
    requires
        t.wf(),
        pow2(c.len() as int),
        0 <= index,
        index % (c.len() as int) == 0,
        index + c.len() <= 65536,
    ensures
        fft_spec(t, c, index).len() == c.len(),
        forall|p: int|
            0 <= p < c.len() ==> fft_spec(t, c, index)[p] == eval(c, (index + p) as u16),
    decreases c.len(),
{
    let n = c.len() as int;
    lemma_fft_from_len(t, c, n / 2, index);
    if n > 1 {
        lemma_pow2_half(n);
        let h = n / 2;
        lemma_fft_by_halves(t, c, index);
        let s = index / h;
        let first = fold_halves(c, s as u16);
        let second = fold_halves(c, (s + 1) as u16);
        lemma_fft_evaluates(t, first, index);
        lemma_fft_evaluates(t, second, index + h);
        assert((s + 1) * h == s * h + h) by (nonlinear_arith);
        assert forall|p: int| 0 <= p < n implies fft_spec(t, c, index)[p] == eval(
            c,
            (index + p) as u16,
        ) by {
            let x = (index + p) as u16;
            lemma_eval_folded(c, x);
            if p < h {
                lemma_fundamental_div_mod_converse(index + p, h, s, p);
                assert(fft_spec(t, first, index)[p] == eval(first, x));
            } else {
                lemma_fundamental_div_mod_converse(index + p, h, s + 1, p - h);
                assert(fft_spec(t, second, index + h)[p - h] == eval(second, x));
            }
        }
    } else {
        assert(fft_from(t, c, 0, index) == c);
    }
}

/// A power of two is two to the power of its logarithm.
pub proof fn lemma_two_pow_of_pow2(h: int)
    requires
        pow2(h),
    ensures
        two_pow(crate::util::floor_log2(h)) == h,
        0 <= crate::util::floor_log2(h),
        h <= 32768 ==> crate::util::floor_log2(h) <= 15,
    decreases h,
{
    if h > 1 {
        lemma_two_pow_of_pow2(h / 2);
        if h <= 32768 && crate::util::floor_log2(h) > 15 {
            lemma_two_pow_grows(16, crate::util::floor_log2(h));
            crate::util::lemma_two_pow_values();
        }
    }
}

} // verus!
