//! The code of rate above one half: its codeword, the parity followed by the
//! data, holds the values of a polynomial of degree below the number of data
//! symbols, so that the decoder recovers it.

use vstd::prelude::*;
use vstd::arithmetic::div_mod::lemma_fundamental_div_mod;
use vstd::arithmetic::div_mod::lemma_fundamental_div_mod_converse;
use crate::afft::fft_spec;
use crate::afft::ifft_spec;
use crate::afft::lemma_fft_inverts_ifft;
use crate::afft::lemma_ifft_inverts_fft;
use crate::afft::lemma_transform_len;
use crate::derivation::below;
use crate::field_laws::fmul;
use crate::field_laws::lemma_fmul_distributes;
use crate::field_laws::lemma_fmul_units;
use crate::field_laws::lemma_xor_laws;
use crate::novel_poly_basis::chunk;
use crate::novel_poly_basis::decode_main_spec;
use crate::novel_poly_basis::encode_high_spec;
use crate::novel_poly_basis::eval_error_polynomial_spec;
use crate::novel_poly_basis::high_sum;
use crate::poly::eval;
use crate::poly::fold_halves;
use crate::poly::lemma_fft_by_halves;
use crate::poly::lemma_fft_evaluates;
use crate::poly::lemma_xor_rearrange;
use crate::poly::vec_xor;
use crate::poly::vec_zero;
use crate::round_trip::erased_count;
use crate::round_trip::lemma_decode_recovers;
use crate::tables::TablesView;
use crate::util::lemma_pow2_divides;
use crate::util::lemma_pow2_half;
use crate::util::pow2;

verus! {

/// The sum of the inverse transforms of `count` blocks of `tt` symbols from
/// block `first` on, each with its window at its own position.
pub open spec fn block_sum(
    t: TablesView,
    v: Seq<u16>,
    tt: int,
    index: int,
    first: int,
    count: int,
) -> Seq<u16>
    decreases count,
{
    if count <= 0 {
        vec_zero(tt as nat)
    } else {
        let b = first + count - 1;
        vec_xor(
            block_sum(t, v, tt, index, first, count - 1),
            ifft_spec(t, v.subrange(b * tt, b * tt + tt), index + b * tt),
        )
    }
}

proof fn lemma_block_sum_len(t: TablesView, v: Seq<u16>, tt: int, index: int, first: int, count: int)
    requires
        0 <= tt,
    ensures
        block_sum(t, v, tt, index, first, count).len() == tt,
    decreases count,
{
    if count > 0 {
        lemma_block_sum_len(t, v, tt, index, first, count - 1);
    }
}

/// The sum over blocks that are the same, with the same windows, is the
/// same.
proof fn lemma_block_sum_rebase(
    t: TablesView,
    v: Seq<u16>,
    w: Seq<u16>,
    tt: int,
    index: int,
    first: int,
    count: int,
)
    requires
        0 <= tt,
        forall|b: int|
            0 <= b < count ==> #[trigger] w.subrange(b * tt, b * tt + tt) == v.subrange(
                (first + b) * tt,
                (first + b) * tt + tt,
            ),
    ensures
        block_sum(t, v, tt, index, first, count) == block_sum(
            t,
            w,
            tt,
            index + first * tt,
            0,
            count,
        ),
    decreases count,
{
    if count > 0 {
        lemma_block_sum_rebase(t, v, w, tt, index, first, count - 1);
        let b = count - 1;
        assert(w.subrange(b * tt, b * tt + tt) == v.subrange(
            (first + b) * tt,
            (first + b) * tt + tt,
        ));
        assert(index + (first + b) * tt == index + first * tt + b * tt) by (nonlinear_arith);
        assert(0 + count - 1 == b);
    }
}

/// The sum over blocks splits.
proof fn lemma_block_sum_split(
    t: TablesView,
    v: Seq<u16>,
    tt: int,
    index: int,
    first: int,
    c1: int,
    c2: int,
)
    requires
        0 <= tt,
        0 <= c1,
        0 <= c2,
        forall|b: int|
            first <= b < first + c1 + c2 ==> (#[trigger] ifft_spec(
                t,
                v.subrange(b * tt, b * tt + tt),
                index + b * tt,
            )).len() == tt,
    ensures
        block_sum(t, v, tt, index, first, c1 + c2) == vec_xor(
            block_sum(t, v, tt, index, first, c1),
            block_sum(t, v, tt, index, first + c1, c2),
        ),
    decreases c2,
{
    lemma_block_sum_len(t, v, tt, index, first, c1);
    lemma_block_sum_len(t, v, tt, index, first + c1, c2);
    lemma_block_sum_len(t, v, tt, index, first, c1 + c2);
    let left = block_sum(t, v, tt, index, first, c1 + c2);
    let right = vec_xor(
        block_sum(t, v, tt, index, first, c1),
        block_sum(t, v, tt, index, first + c1, c2),
    );
    if c2 == 0 {
        assert forall|j: int| 0 <= j < tt implies left[j] == right[j] by {
            lemma_xor_laws(left[j], 0, 0);
        }
    } else {
        lemma_block_sum_split(t, v, tt, index, first, c1, c2 - 1);
        lemma_block_sum_len(t, v, tt, index, first + c1, c2 - 1);
        lemma_block_sum_len(t, v, tt, index, first, c1 + c2 - 1);
        let b = first + c1 + c2 - 1;
        let term = ifft_spec(t, v.subrange(b * tt, b * tt + tt), index + b * tt);
        assert(term.len() == tt);
        assert forall|j: int| 0 <= j < tt implies left[j] == right[j] by {
            let x = block_sum(t, v, tt, index, first, c1)[j];
            let y = block_sum(t, v, tt, index, first + c1, c2 - 1)[j];
            lemma_xor_laws(x, y, term[j]);
        }
    }
    assert(left =~= right);
}

/// The last coefficients of the inverse transform: the sum of the inverse
/// transforms of the blocks.
proof fn lemma_top_coefficients(t: TablesView, v: Seq<u16>, tt: int, index: int)
    requires
        t.wf(),
        pow2(v.len() as int),
        pow2(tt),
        tt <= v.len(),
        0 <= index,
        index % (v.len() as int) == 0,
        index + v.len() <= 65536,
    ensures
        ifft_spec(t, v, index).len() == v.len(),
        ifft_spec(t, v, index).subrange(v.len() - tt, v.len() as int) == block_sum(
            t,
            v,
            tt,
            index,
            0,
            v.len() as int / tt,
        ),
    decreases v.len(),
{
    let n = v.len() as int;
    let g = ifft_spec(t, v, index);
    lemma_transform_len(t, v, index);
    if n == tt {
        vstd::arithmetic::div_mod::lemma_div_by_self(n);
        assert(v.subrange(0, tt) =~= v);
        let sum = block_sum(t, v, tt, index, 0, 1);
        assert(block_sum(t, v, tt, index, 0, 0) == vec_zero(tt as nat));
        assert(0int * tt == 0) by (nonlinear_arith);
        assert forall|j: int| 0 <= j < n implies g[j] == sum[j] by {
            lemma_xor_laws(g[j], 0, 0);
        }
        assert(g.subrange(0, n) =~= sum);
    } else {
        lemma_pow2_divides(tt, n);
        lemma_pow2_half(n);
        let h = n / 2;
        let m = h / tt;
        lemma_fundamental_div_mod(h, tt);
        assert(h % tt == 0) by {
            if tt < h {
                lemma_pow2_divides(tt, h);
                let q = h / (2 * tt);
                lemma_fundamental_div_mod(h, 2 * tt);
                assert(h == (2 * q) * tt) by (nonlinear_arith)
                    requires
                        h == (2 * tt) * q,
                ;
                lemma_fundamental_div_mod_converse(h, tt, 2 * q, 0);
            } else {
                vstd::arithmetic::div_mod::lemma_mod_self_0(h);
            }
        }
        assert(h == m * tt) by (nonlinear_arith)
            requires
                h == tt * m + h % tt,
                h % tt == 0,
        ;
        assert(n == (2 * m) * tt) by (nonlinear_arith)
            requires
                h == m * tt,
                n == 2 * h,
        ;
        lemma_fundamental_div_mod_converse(n, tt, 2 * m, 0);
        assert(1 <= m) by (nonlinear_arith)
            requires
                h == m * tt,
                tt <= h,
                0 < tt,
        ;
        // The halves of the values are the transforms of the folded
        // coefficients.
        lemma_fft_inverts_ifft(t, v, index);
        lemma_fft_by_halves(t, g, index);
        let s = index / h;
        let first = fold_halves(g, s as u16);
        let second = fold_halves(g, (s + 1) as u16);
        let (lo, hi) = (v.subrange(0, h), v.subrange(h, n));
        lemma_transform_len(t, first, index);
        lemma_transform_len(t, second, index + h);
        assert((fft_spec(t, first, index) + fft_spec(t, second, index + h)).subrange(0, h)
            =~= fft_spec(t, first, index));
        assert((fft_spec(t, first, index) + fft_spec(t, second, index + h)).subrange(h, n)
            =~= fft_spec(t, second, index + h));
        lemma_ifft_inverts_fft(t, first, index);
        lemma_ifft_inverts_fft(t, second, index + h);
        let a = ifft_spec(t, lo, index);
        let b = ifft_spec(t, hi, index + h);
        assert(a == first && b == second);
        // Their sum is the upper half of the coefficients.
        let upper = g.subrange(h, n);
        lemma_xor_rearrange(s as u16, 0, 0, 0);
        assert forall|j: int| 0 <= j < h implies upper[j] == a[j] ^ b[j] by {
            let y = g[h + j];
            let x = g[j];
            assert(g.subrange(0, h)[j] == x);
            assert(upper[j] == y);
            lemma_fmul_distributes(s as u16, (s + 1) as u16, y);
            lemma_xor_laws(s as u16, 1, s as u16);
            lemma_xor_laws(1, s as u16, s as u16);
            lemma_fmul_units(y);
            lemma_xor_rearrange(x, fmul(s as u16, y), x, fmul((s + 1) as u16, y));
            lemma_xor_laws(x, x, 0);
            lemma_xor_laws(fmul(s as u16, y) ^ fmul((s + 1) as u16, y), 0, 0);
        }
        // The sums over the blocks of the halves.
        lemma_top_coefficients(t, lo, tt, index);
        lemma_top_coefficients(t, hi, tt, index + h);
        assert forall|blk: int| 0 <= blk < 2 * m implies (#[trigger] ifft_spec(
            t,
            v.subrange(blk * tt, blk * tt + tt),
            index + blk * tt,
        )).len() == tt by {
            assert(0 <= blk * tt && blk * tt + tt <= n) by (nonlinear_arith)
                requires
                    0 <= blk < 2 * m,
                    n == (2 * m) * tt,
                    0 < tt,
            ;
            lemma_transform_len(t, v.subrange(blk * tt, blk * tt + tt), index + blk * tt);
        }
        lemma_block_sum_split(t, v, tt, index, 0, m, m);
        assert forall|blk: int| 0 <= blk < m implies #[trigger] lo.subrange(
            blk * tt,
            blk * tt + tt,
        ) == v.subrange((0 + blk) * tt, (0 + blk) * tt + tt) by {
            assert(0 <= blk * tt && blk * tt + tt <= h) by (nonlinear_arith)
                requires
                    0 <= blk < m,
                    h == m * tt,
                    0 < tt,
            ;
            assert(lo.subrange(blk * tt, blk * tt + tt) =~= v.subrange(blk * tt, blk * tt + tt));
        }
        assert forall|blk: int| 0 <= blk < m implies #[trigger] hi.subrange(
            blk * tt,
            blk * tt + tt,
        ) == v.subrange((m + blk) * tt, (m + blk) * tt + tt) by {
            assert(0 <= blk * tt && blk * tt + tt <= h) by (nonlinear_arith)
                requires
                    0 <= blk < m,
                    h == m * tt,
                    0 < tt,
            ;
            assert((m + blk) * tt == h + blk * tt) by (nonlinear_arith)
                requires
                    h == m * tt,
            ;
            assert(hi.subrange(blk * tt, blk * tt + tt) =~= v.subrange(
                h + blk * tt,
                h + blk * tt + tt,
            ));
        }
        lemma_block_sum_rebase(t, v, lo, tt, index, 0, m);
        lemma_block_sum_rebase(t, v, hi, tt, index, m, m);
        assert(index + 0 * tt == index) by (nonlinear_arith);
        assert(index + m * tt == index + h);
        lemma_block_sum_len(t, v, tt, index, 0, m);
        lemma_block_sum_len(t, v, tt, index, m, m);
        let want = block_sum(t, v, tt, index, 0, 2 * m);
        lemma_block_sum_len(t, v, tt, index, 0, 2 * m);
        lemma_transform_len(t, lo, index);
        lemma_transform_len(t, hi, index + h);
        assert forall|j: int| 0 <= j < tt implies g.subrange(n - tt, n)[j] == want[j] by {
            let i = h - tt + j;
            assert(g.subrange(n - tt, n)[j] == upper[i]);
            assert(a.subrange(h - tt, h)[j] == a[i]);
            assert(b.subrange(h - tt, h)[j] == b[i]);
        }
        assert(g.subrange(n - tt, n) =~= want);
    }
}

/// The sum that the encoder gathers over the chunks is the sum over the
/// blocks of the data.
proof fn lemma_high_sum(t: TablesView, data: Seq<u16>, tt: int, done: int, total: int)
    requires
        0 < tt,
        0 <= done <= total,
        data.len() == total * tt,
    ensures
        high_sum(
            t,
            data,
            tt,
            (done + 1) * tt,
            (total + 1) * tt,
            block_sum(t, data, tt, tt, 0, done),
        ) == block_sum(t, data, tt, tt, 0, total),
    decreases total - done,
{
    let i = (done + 1) * tt;
    let n = (total + 1) * tt;
    let acc = block_sum(t, data, tt, tt, 0, done);
    assert(i <= n) by (nonlinear_arith)
        requires
            i == (done + 1) * tt,
            n == (total + 1) * tt,
            done <= total,
            0 < tt,
    ;
    if done < total {
        assert(i < n) by (nonlinear_arith)
            requires
                i == (done + 1) * tt,
                n == (total + 1) * tt,
                done < total,
                0 < tt,
        ;
        assert(i - tt == done * tt) by (nonlinear_arith)
            requires
                i == (done + 1) * tt,
        ;
        assert(i + tt == (done + 2) * tt) by (nonlinear_arith)
            requires
                i == (done + 1) * tt,
        ;
        assert(i <= data.len()) by (nonlinear_arith)
            requires
                i == (done + 1) * tt,
                data.len() == total * tt,
                done < total,
                0 < tt,
        ;
        assert(0 <= done * tt) by (nonlinear_arith)
            requires
                0 <= done,
                0 < tt,
        ;
        let piece = chunk(data, i - tt, tt);
        assert(piece =~= data.subrange(done * tt, done * tt + tt));
        let term = ifft_spec(t, piece, i);
        assert(tt + done * tt == i);
        lemma_block_sum_len(t, data, tt, tt, 0, done);
        assert(block_sum(t, data, tt, tt, 0, done + 1) == vec_xor(acc, term));
        lemma_high_sum(t, data, tt, done + 1, total);
    } else {
        assert(i == n);
    }
}

/// The codeword of the code of rate above one half, the parity followed by
/// the data, holds the values of a polynomial of degree below `k`.
pub proof fn lemma_high_rate_codeword(t: TablesView, data: Seq<u16>, k: int, n: int)
    requires
        t.wf(),
        pow2(n),
        pow2(n - k),
        0 <= k,
        n <= 65536,
        data.len() == k,
    ensures
        (encode_high_spec(t, data, k, n) + data).len() == n,
        below(ifft_spec(t, encode_high_spec(t, data, k, n) + data, 0), k),
        ifft_spec(t, encode_high_spec(t, data, k, n) + data, 0).len() == n,
        forall|p: int|
            0 <= p < n ==> (#[trigger] (encode_high_spec(t, data, k, n) + data)[p]) == eval(
                ifft_spec(t, encode_high_spec(t, data, k, n) + data, 0),
                p as u16,
            ),
{
    let tt = n - k;
    let zeros = vec_zero(tt as nat);
    let sum = high_sum(t, data, tt, tt, n, zeros);
    let parity = encode_high_spec(t, data, k, n);
    let word = parity + data;
    lemma_pow2_divides_or_equal(tt, n);
    let total = k / tt;
    let blocks = n / tt;
    lemma_fundamental_div_mod(n, tt);
    assert(n == blocks * tt) by (nonlinear_arith)
        requires
            n == tt * blocks + n % tt,
            n % tt == 0,
    ;
    assert(k == (blocks - 1) * tt) by (nonlinear_arith)
        requires
            n == blocks * tt,
            k == n - tt,
    ;
    assert(1 <= blocks) by (nonlinear_arith)
        requires
            n == blocks * tt,
            tt <= n,
            0 < tt,
    ;
    lemma_fundamental_div_mod_converse(k, tt, blocks - 1, 0);
    assert(Seq::new(tt as nat, |x: int| 0u16) =~= zeros);
    assert(block_sum(t, data, tt, tt, 0, 0) == zeros);
    assert((0 + 1) * tt == tt) by (nonlinear_arith);
    assert((total + 1) * tt == n) by (nonlinear_arith)
        requires
            total == blocks - 1,
            n == blocks * tt,
    ;
    lemma_high_sum(t, data, tt, 0, total);
    assert(sum == block_sum(t, data, tt, tt, 0, total));
    lemma_block_sum_len(t, data, tt, tt, 0, total);
    lemma_transform_len(t, sum, 0);
    assert(word.len() == n);
    // The sum over the blocks of the codeword vanishes.
    vstd::arithmetic::div_mod::lemma_small_mod(0, n as nat);
    lemma_top_coefficients(t, word, tt, 0);
    assert forall|blk: int| 0 <= blk < 1 + total implies (#[trigger] ifft_spec(
        t,
        word.subrange(blk * tt, blk * tt + tt),
        0 + blk * tt,
    )).len() == tt by {
        assert(0 <= blk * tt && blk * tt + tt <= n) by (nonlinear_arith)
            requires
                0 <= blk < blocks,
                n == blocks * tt,
                0 < tt,
        ;
        lemma_transform_len(t, word.subrange(blk * tt, blk * tt + tt), 0 + blk * tt);
    }
    lemma_block_sum_split(t, word, tt, 0, 0, 1, total);
    assert forall|blk: int| 0 <= blk < total implies #[trigger] data.subrange(
        blk * tt,
        blk * tt + tt,
    ) == word.subrange((1 + blk) * tt, (1 + blk) * tt + tt) by {
        assert((1 + blk) * tt == tt + blk * tt) by (nonlinear_arith);
        assert(0 <= blk * tt && blk * tt + tt <= k) by (nonlinear_arith)
            requires
                0 <= blk < total,
                k == total * tt,
                0 < tt,
        ;
        assert(data.subrange(blk * tt, blk * tt + tt) =~= word.subrange(
            tt + blk * tt,
            tt + blk * tt + tt,
        ));
    }
    lemma_block_sum_rebase(t, word, data, tt, 0, 1, total);
    assert(0 + 1 * tt == tt) by (nonlinear_arith);
    assert(0int * tt == 0) by (nonlinear_arith);
    assert(word.subrange(0, tt) =~= parity);
    lemma_ifft_inverts_fft(t, sum, 0);
    let head = block_sum(t, word, tt, 0, 0, 1);
    assert(block_sum(t, word, tt, 0, 0, 0) == zeros);
    assert(head == vec_xor(zeros, sum));
    let coeffs = ifft_spec(t, word, 0);
    let top = block_sum(t, word, tt, 0, 0, blocks);
    assert forall|j: int| k <= j < n implies coeffs[j] == 0 by {
        let i = j - k;
        assert(coeffs.subrange(n - tt, n)[i] == coeffs[j]);
        assert(top[i] == head[i] ^ sum[i]);
        lemma_xor_laws(sum[i], 0, 0);
    }
    // The codeword is the values of its inverse transform.
    lemma_fft_inverts_ifft(t, word, 0);
    lemma_fft_evaluates(t, coeffs, 0);
}

/// A power of two that is at most another divides it.
proof fn lemma_pow2_divides_or_equal(a: int, b: int)
    requires
        pow2(a),
        pow2(b),
    ensures
        a <= b ==> b % a == 0,
        a > b ==> a >= 2 * b,
{
    if a < b {
        lemma_pow2_divides(a, b);
        let q = b / (2 * a);
        lemma_fundamental_div_mod(b, 2 * a);
        assert(b == (2 * q) * a) by (nonlinear_arith)
            requires
                b == (2 * a) * q,
        ;
        lemma_fundamental_div_mod_converse(b, a, 2 * q, 0);
    } else if a == b {
        vstd::arithmetic::div_mod::lemma_mod_self_0(a);
    } else {
        lemma_pow2_divides(b, a);
    }
}

/// Round trip at rate above one half: where the symbols that are not erased
/// are those of the parity followed by the data, and no more positions are
/// erased than there are parity symbols, the decoder leaves the symbol of
/// the codeword at every erased position and zero at the others.
pub proof fn lemma_high_rate_round_trip(
    t: TablesView,
    data: Seq<u16>,
    k: int,
    n: int,
    received: Seq<u16>,
    erasure: Seq<bool>,
)
    requires
        t.wf(),
        pow2(n),
        pow2(n - k),
        0 <= k,
        2 <= n <= 65536,
        data.len() == k,
        received.len() == n,
        erasure.len() == n,
        erased_count(erasure, n) <= n - k,
        forall|i: int|
            0 <= i < n && !erasure[i] ==> received[i] == (encode_high_spec(t, data, k, n)
                + data)[i],
    ensures
        forall|p: int|
            0 <= p < n ==> #[trigger] decode_main_spec(
                t,
                received,
                erasure,
                eval_error_polynomial_spec(t, erasure, 65536),
                n,
            )[p] == (if erasure[p] {
                (encode_high_spec(t, data, k, n) + data)[p]
            } else {
                0u16
            }),
{
    let word = encode_high_spec(t, data, k, n) + data;
    let coeffs = ifft_spec(t, word, 0);
    lemma_high_rate_codeword(t, data, k, n);
    assert forall|p: int| 0 <= p < n implies #[trigger] decode_main_spec(
        t,
        received,
        erasure,
        eval_error_polynomial_spec(t, erasure, 65536),
        n,
    )[p] == (if erasure[p] {
        word[p]
    } else {
        0u16
    }) by {
        assert(word[p] == eval(coeffs, p as u16));
        lemma_decode_recovers(t, coeffs, k, received, erasure, p);
    }
}

} // verus!
