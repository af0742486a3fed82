//! What the decoder tables hold in the Cantor basis: the normalisers are all
//! one, so the twist factors vanish and the skew factors are logarithms of
//! shifted element numbers.

use vstd::prelude::*;
use vstd::arithmetic::div_mod::lemma_fundamental_div_mod;
use vstd::arithmetic::div_mod::lemma_fundamental_div_mod_converse;
use crate::field_laws::lemma_fmul_square;
use crate::field_laws::lemma_fpow_log;
use crate::field_laws::lemma_mul_by_log;
use crate::tables::dec_base;
use crate::tables::mul_seq;
use crate::tables::mul_spec;
use crate::tables::round_base;
use crate::tables::round_pivot;
use crate::tables::skew_raw;
use crate::tables::skew_sum;
use crate::tables::start_base;
use crate::tables::twist_log;
use crate::tables::twist_sum;
use crate::tables::TablesView;
use crate::util::floor_log2;
use crate::util::lemma_block_offset;
use crate::util::lemma_floor_log2_below;
use crate::util::lemma_floor_log2_bounds;
use crate::util::lemma_shift_is_two_pow;
use crate::util::lemma_trailing_ones;
use crate::util::lemma_two_pow_grows;
use crate::util::lemma_two_pow_multiple;
use crate::util::lemma_two_pow_values;
use crate::util::two_pow;

verus! {

proof fn lemma_small_bits(q: u16, e: u16)
    by (bit_vector)
    ensures
        2u16 ^ 1 == 3,
        q >> 1 == q / 2,
        q != 1 ==> q ^ 1 != 0,
        e < 16 && q < (1u16 << e) ==> q ^ (1u16 << e) == q + (1u16 << e),
{
}

/// The basis at the start of round `m`: the entries before `m` have become
/// the logarithm of one, and entry `i` from `m` on is the element numbered
/// `2^(i + 1 - m)`.
pub proof fn lemma_dec_base(t: TablesView, m: int)
    requires
        t.field_wf(),
        0 <= m <= 15,
    ensures
        dec_base(t.log, t.exp, m).len() == 15,
        forall|i: int| 0 <= i < m ==> dec_base(t.log, t.exp, m)[i] == 65535,
        forall|i: int| m <= i < 15 ==> dec_base(t.log, t.exp, m)[i] == two_pow(i + 1 - m),
    decreases m,
{
    lemma_two_pow_values();
    if m > 0 {
        lemma_dec_base(t, m - 1);
        let base = dec_base(t.log, t.exp, m - 1);
        let next = round_base(t.log, t.exp, base, m - 1);
        assert(base[m - 1] == 2);
        lemma_small_bits(2, 0);
        lemma_mul_by_log(t, 2, 3);
        crate::field_laws::lemma_fmul_two_three();
        lemma_fpow_log(t, 1);
        let pivot = round_pivot(t.log, t.exp, base, m - 1);
        assert(mul_seq(t.log, t.exp, 2, t.log[3]) == mul_spec(t, 2, t.log[3]));
        assert(pivot == 65535);
        assert forall|i: int| m <= i < 15 implies next[i] == two_pow(i + 1 - m) by {
            let e = i + 2 - m;
            lemma_two_pow_grows(2, e);
            lemma_two_pow_grows(e, 15);
            lemma_two_pow_grows(e - 1, e - 1);
            let q = base[i];
            assert(q == two_pow(e));
            lemma_small_bits(q, 0);
            lemma_fpow_log(t, q ^ 1);
            let l = t.log[(q ^ 1) as int];
            assert((l + 65535) % 65535 == l) by {
                vstd::arithmetic::div_mod::lemma_mod_add_multiples_vanish(l as int, 65535);
                vstd::arithmetic::div_mod::lemma_small_mod(l as nat, 65535);
            }
            lemma_mul_by_log(t, q, q ^ 1);
            lemma_fmul_square(q);
            assert(mul_seq(t.log, t.exp, q, l) == mul_spec(t, q, l));
        }
    } else {
        assert forall|i: int| 0 <= i < 15 implies start_base()[i] == two_pow(i + 1) by {
            lemma_two_pow_grows(i + 1, 15);
        }
    }
}

proof fn lemma_twist_logs(t: TablesView, i: int)
    requires
        t.field_wf(),
        0 <= i < 15,
    ensures
        i < 14 ==> twist_log(t.log, t.exp, i) == 0,
        i == 14 ==> twist_log(t.log, t.exp, i) == 65535,
    decreases i,
{
    lemma_dec_base(t, 15);
    if 0 < i < 14 {
        lemma_twist_logs(t, i - 1);
    }
}

proof fn lemma_twist_sums(t: TablesView, h: int)
    requires
        t.field_wf(),
        0 <= h < 32768,
    ensures
        twist_sum(t.log, t.exp, h) == 0,
    decreases h,
{
    if h > 0 {
        lemma_floor_log2_bounds(h);
        lemma_two_pow_values();
        lemma_floor_log2_below(h, 15);
        let top = two_pow(floor_log2(h));
        lemma_twist_sums(t, h - top);
        lemma_twist_logs(t, floor_log2(h));
    }
}

/// The twist factors of the formal derivative are all the logarithm of one.
pub proof fn lemma_twists_vanish(t: TablesView)
    requires
        t.wf(),
    ensures
        forall|h: int| 0 <= h < 32768 ==> t.b[h] == 0,
{
    assert forall|h: int| 0 <= h < 32768 implies t.b[h] == 0 by {
        lemma_twist_sums(t, h);
    }
}

/// The sum that the basis of round `i` gives to an index is the part of the
/// index above bit `i`, moved down by `i` places.
proof fn lemma_skew_sum_form(t: TablesView, i: int, j: int)
    requires
        t.field_wf(),
        0 <= i < 15,
        0 <= j < 65536,
    ensures
        skew_sum(dec_base(t.log, t.exp, i), i, j) == 2 * (j / two_pow(i + 1)),
    decreases j,
{
    let base = dec_base(t.log, t.exp, i);
    let w = two_pow(i + 1);
    lemma_two_pow_values();
    lemma_two_pow_grows(0, i + 1);
    lemma_two_pow_grows(i + 1, 15);
    if j < w {
        vstd::arithmetic::div_mod::lemma_basic_div(j, w);
    } else {
        lemma_floor_log2_bounds(j);
        lemma_floor_log2_below(j, 16);
        let fl = floor_log2(j);
        let top = two_pow(fl);
        if fl < i + 1 {
            lemma_two_pow_grows(fl + 1, i + 1);
            lemma_two_pow_grows(fl, fl);
        }
        lemma_two_pow_grows(fl, 15);
        lemma_two_pow_grows(fl, fl);
        lemma_skew_sum_form(t, i, j - top);
        lemma_dec_base(t, i);
        lemma_two_pow_multiple(i + 1, fl);
        let c = two_pow(fl - i - 1);
        lemma_two_pow_grows(fl - i - 1, fl - i - 1);
        lemma_two_pow_grows(fl - i, 15);
        let rest = j - top;
        let q = rest / w;
        lemma_fundamental_div_mod(rest, w);
        assert(j == (q + c) * w + rest % w) by (nonlinear_arith)
            requires
                j == rest + c * w,
                rest == w * q + rest % w,
        ;
        lemma_block_offset(q + c, w, rest % w);
        assert(q < c) by (nonlinear_arith)
            requires
                rest == w * q + rest % w,
                0 <= rest % w,
                rest < c * w,
                0 < w,
        ;
        let low: u16 = (2 * q) as u16;
        let e: u16 = (fl - i) as u16;
        lemma_shift_is_two_pow(e as usize);
        lemma_small_bits(low, e);
        assert(base[fl - 1] == two_pow(fl - i));
    }
}

/// The skew factor of the butterflies at distance `2^i` for a block that
/// starts, window included, at `base`: the logarithm of the element numbered
/// `base / 2^i`.
pub proof fn lemma_skew_form(t: TablesView, i: int, base: int)
    requires
        t.wf(),
        0 <= i <= 15,
        0 <= base,
        base % two_pow(i + 1) == 0,
        base + two_pow(i) - 1 < 65535,
    ensures
        0 <= base / two_pow(i) < 65536,
        t.skew[base + two_pow(i) - 1] == t.log[base / two_pow(i)],
{
    let w = two_pow(i + 1);
    let d = two_pow(i);
    let j = base + d - 1;
    lemma_two_pow_values();
    lemma_two_pow_grows(0, i);
    lemma_two_pow_grows(i, 15);
    let c = base / w;
    lemma_fundamental_div_mod(base, w);
    assert(base == c * w) by (nonlinear_arith)
        requires
            base == w * c,
    ;
    lemma_block_offset(c, w, d - 1);
    lemma_trailing_ones(j, i);
    assert(base == (2 * c) * d) by (nonlinear_arith)
        requires
            base == c * w,
            w == 2 * d,
    ;
    lemma_fundamental_div_mod_converse(base, d, 2 * c, 0);
    assert(t.skew[j] == t.log[skew_raw(t.log, t.exp, j) as int]);
    if i == 15 {
        assert(c == 0) by (nonlinear_arith)
            requires
                c * w < 65535,
                w == 65536,
                0 <= c * w,
        ;
    } else {
        lemma_skew_sum_form(t, i, j);
    }
}

} // verus!
