//! The error locator: what the Walsh transforms of the decoder compute.

use vstd::prelude::*;
use crate::field_laws::fmul;
use crate::field_laws::fpow;
use crate::field_laws::lemma_fmul_units;
use crate::field_laws::lemma_fpow_add;
use crate::field_laws::lemma_fpow_log;
use crate::novel_poly_basis::erasure_indicator;
use crate::novel_poly_basis::eval_error_polynomial_spec;
use crate::novel_poly_basis::flagged;
use crate::novel_poly_basis::scale_by_log_walsh;
use crate::poly::lemma_two_pow_of_pow2;
use crate::tables::TablesView;
use crate::util::floor_log2;
use crate::util::lemma_pow2_half;
use crate::util::lemma_wide_shift;
use crate::util::pow2;
use crate::walsh::lemma_convolution_theorem;
use crate::walsh::lemma_walsh_len;
use crate::walsh::walsh_spec;
use crate::walsh::xor_convolution;

verus! {

/// The number of the sum of the elements numbered `p` and `q`.
pub open spec fn xor_index(p: int, q: int) -> int {
    ((p as usize) ^ (q as usize)) as int
}

/// The sum over `q` from `off` to below `off + m` of `a[q] * b[p + q]`, where
/// the sum of the indices is that of the field.
pub open spec fn xor_sum(a: Seq<u16>, b: Seq<u16>, p: int, off: int, m: int) -> int
    decreases m,
{
    if m <= 0 {
        0
    } else {
        xor_sum(a, b, p, off, m - 1) + a[off + m - 1] * b[xor_index(p, off + m - 1)]
    }
}

proof fn lemma_xor_sum_split(a: Seq<u16>, b: Seq<u16>, p: int, off: int, m1: int, m2: int)
    requires
        0 <= m1,
        0 <= m2,
    ensures
        xor_sum(a, b, p, off, m1 + m2) == xor_sum(a, b, p, off, m1) + xor_sum(
            a,
            b,
            p,
            off + m1,
            m2,
        ),
    decreases m2,
{
    if m2 > 0 {
        lemma_xor_sum_split(a, b, p, off, m1, m2 - 1);
    }
}

proof fn lemma_xor_sum_same(
    a: Seq<u16>,
    b: Seq<u16>,
    p: int,
    off: int,
    a_to: Seq<u16>,
    b_to: Seq<u16>,
    p_to: int,
    m: int,
)
    requires
        forall|q: int|
            0 <= q < m ==> a[off + q] == #[trigger] a_to[q] && b[xor_index(p, off + q)]
                == b_to[xor_index(p_to, q)],
    ensures
        xor_sum(a, b, p, off, m) == xor_sum(a_to, b_to, p_to, 0, m),
    decreases m,
{
    if m > 0 {
        lemma_xor_sum_same(a, b, p, off, a_to, b_to, p_to, m - 1);
        assert(a[off + (m - 1)] == a_to[m - 1]);
    }
}

proof fn lemma_xor_halves(p: usize, q: usize, e: usize)
    by (bit_vector)
    requires
        e <= 15,
        p < (1usize << e),
        q < (1usize << e),
    ensures
        p ^ q < (1usize << e),
        p ^ q == q ^ p,
        (((1usize << e) + q) as usize) ^ p == (1usize << e) + (p ^ q),
        p ^ (((1usize << e) + q) as usize) == (1usize << e) + (p ^ q),
        (((1usize << e) + p) as usize) ^ (((1usize << e) + q) as usize) == p ^ q,
        p ^ q == 0 <==> p == q,
{
}

/// The sum of two element numbers, in machine words of either width.
pub proof fn lemma_xor_small(p: usize, q: usize)
    by (bit_vector)
    requires
        p < 65536,
        q < 65536,
    ensures
        p ^ q < 65536,
        p ^ q == 0 <==> p == q,
        p ^ q == ((p as u16) ^ (q as u16)) as usize,
{
}

/// How the sum of two indices below twice a power of two lies to the halves.
proof fn lemma_xor_index_halves(p: int, q: int, h: int)
    requires
        pow2(h),
        h <= 32768,
        0 <= p < h,
        0 <= q < h,
    ensures
        0 <= xor_index(p, q) < h,
        xor_index(p, h + q) == h + xor_index(p, q),
        xor_index(h + p, q) == h + xor_index(p, q),
        xor_index(h + p, h + q) == xor_index(p, q),
{
    let e = floor_log2(h);
    lemma_two_pow_of_pow2(h);
    lemma_wide_shift(e as usize);
    lemma_xor_halves(p as usize, q as usize, e as usize);
    lemma_xor_halves(q as usize, p as usize, e as usize);
}

/// The convolution by halves is the convolution over the sums of indices.
pub proof fn lemma_convolution_is_sum(a: Seq<u16>, b: Seq<u16>, p: int)
    requires
        pow2(a.len() as int),
        a.len() == b.len(),
        a.len() <= 65536,
        0 <= p < a.len(),
    ensures
        xor_convolution(a, b)[p] == xor_sum(a, b, p, 0, a.len() as int),
    decreases a.len(),
{
    let n = a.len() as int;
    if n == 1 {
        lemma_xor_small(0, 0);
        assert(xor_sum(a, b, p, 0, 1) == xor_sum(a, b, p, 0, 0) + a[0] * b[xor_index(p, 0)]);
    } else {
        lemma_pow2_half(n);
        let h = n / 2;
        let (al, ah) = (a.subrange(0, h), a.subrange(h, n));
        let (bl, bh) = (b.subrange(0, h), b.subrange(h, n));
        let r = if p < h { p } else { p - h };
        lemma_xor_sum_split(a, b, p, 0, h, h);
        let (b1, b_to) = if p < h {
            (bl, bh)
        } else {
            (bh, bl)
        };
        assert forall|q: int| 0 <= q < h implies a[0 + q] == #[trigger] al[q] && b[xor_index(
            p,
            0 + q,
        )] == b1[xor_index(r, q)] by {
            lemma_xor_index_halves(r, q, h);
        }
        lemma_xor_sum_same(a, b, p, 0, al, b1, r, h);
        assert forall|q: int| 0 <= q < h implies a[h + q] == #[trigger] ah[q] && b[xor_index(
            p,
            h + q,
        )] == b_to[xor_index(r, q)] by {
            lemma_xor_index_halves(r, q, h);
        }
        lemma_xor_sum_same(a, b, p, h, ah, b_to, r, h);
        lemma_convolution_is_sum(al, b1, r);
        lemma_convolution_is_sum(ah, b_to, r);
    }
}

/// The shard at position `q` is missing.
pub open spec fn erased(erasure: Seq<bool>, q: int) -> bool {
    0 <= q < erasure.len() && erasure[q]
}

/// The product of the differences between the element numbered `p` and the
/// elements at the erased positions below `m`, the position `p` itself left
/// out: the value at `p` of the error locator polynomial where `p` is not
/// erased, and of its derivative where it is.
pub open spec fn locator_product(erasure: Seq<bool>, p: int, m: int) -> u16
    decreases m,
{
    if m <= 0 {
        1
    } else if erased(erasure, m - 1) && m - 1 != p {
        fmul(locator_product(erasure, p, m - 1), xor_index(p, m - 1) as u16)
    } else {
        locator_product(erasure, p, m - 1)
    }
}

/// The power of x whose exponent is the sum of the logarithms of the
/// differences is the product of the differences.
proof fn lemma_power_of_sum(t: TablesView, erasure: Seq<bool>, p: int, m: int)
    requires
        t.field_wf(),
        erasure.len() <= 65536,
        0 <= p < 65536,
        0 <= m <= 65536,
    ensures
        fpow(
            xor_sum(
                erasure_indicator(erasure, erasure.len() as int),
                t.log.update(0, 0),
                p,
                0,
                m,
            ),
        ) == locator_product(erasure, p, m),
    decreases m,
{
    let ind = erasure_indicator(erasure, erasure.len() as int);
    let logs = t.log.update(0, 0);
    lemma_fpow_add(0, 0);
    if m > 0 {
        lemma_power_of_sum(t, erasure, p, m - 1);
        let q = m - 1;
        let r = xor_index(p, q);
        lemma_xor_small(p as usize, q as usize);
        let before = xor_sum(ind, logs, p, 0, m - 1);
        let term = ind[q] * logs[r];
        assert(xor_sum(ind, logs, p, 0, m) == before + term);
        lemma_fpow_add(before, term);
        lemma_fmul_units(fpow(before));
        if erased(erasure, q) && q != p {
            lemma_fpow_log(t, r as u16);
            assert(term == t.log[r]) by (nonlinear_arith)
                requires
                    term == ind[q] * logs[r],
                    ind[q] == 1,
                    logs[r] == t.log[r],
            ;
        } else {
            assert(term == 0) by (nonlinear_arith)
                requires
                    term == ind[q] * logs[r],
                    ind[q] == 0 || logs[r] == 0,
            ;
        }
    }
}

/// Powers of x with congruent exponents are the same.
proof fn lemma_fpow_congruent(a: int, b: int)
    requires
        a % 65535 == b % 65535,
    ensures
        fpow(a) == fpow(b),
{
    reveal(fpow);
}

/// What the decoder computes from the erasure pattern: at a position that is
/// not erased, the logarithm of the value there of the error locator
/// polynomial, the product of the differences to all erased positions; at an
/// erased position, minus the logarithm of the product of the differences to
/// the other erased positions.
pub proof fn lemma_locator(t: TablesView, erasure: Seq<bool>, p: int)
    requires
        t.wf(),
        erasure.len() <= 65536,
        0 <= p < 65536,
    ensures
        eval_error_polynomial_spec(t, erasure, 65536).len() == 65536,
        !erased(erasure, p) ==> fpow(eval_error_polynomial_spec(t, erasure, 65536)[p] as int)
            == locator_product(erasure, p, 65536),
        erased(erasure, p) ==> fmul(
            fpow(eval_error_polynomial_spec(t, erasure, 65536)[p] as int),
            locator_product(erasure, p, 65536),
        ) == 1,
{
    let z = erasure.len() as int;
    assert(flagged(erasure, 65536) == z);
    let ind = erasure_indicator(erasure, z);
    let logs = t.log.update(0, 0);
    let w1 = walsh_spec(ind);
    let scaled = scale_by_log_walsh(t, w1, 65536);
    let w = walsh_spec(scaled);
    lemma_walsh_len(ind);
    lemma_walsh_len(logs);
    lemma_walsh_len(scaled);
    assert forall|i: int| 0 <= i < 65536 implies scaled[i] as int % 65535 == (walsh_spec(ind)[i]
        * walsh_spec(logs)[i]) % 65535 by {
        vstd::arithmetic::div_mod::lemma_mod_twice(w1[i] * t.log_walsh[i], 65535);
        assert(0 <= w1[i] * t.log_walsh[i]) by (nonlinear_arith)
            requires
                0 <= w1[i],
                0 <= t.log_walsh[i],
        ;
    }
    lemma_convolution_theorem(ind, logs, scaled);
    crate::util::lemma_pow2_65536();
    lemma_convolution_is_sum(ind, logs, p);
    lemma_power_of_sum(t, erasure, p, 65536);
    let sum = xor_sum(ind, logs, p, 0, 65536);
    lemma_fpow_congruent(w[p] as int, sum);
    if erased(erasure, p) {
        lemma_fpow_add(65535 - w[p], w[p] as int);
    }
}

} // verus!
