//! Decoding recovers what encoding produced.

use vstd::prelude::*;
use crate::afft::fft_spec;
use crate::afft::lemma_fft_inverts_ifft;
use crate::afft::lemma_ifft_inverts_fft;
use crate::afft::lemma_transform_len;
use crate::derivation::below;
use crate::derivation::carry;
use crate::derivation::derived;
use crate::derivation::lemma_derive_ends;
use crate::derivation::lemma_derive_len;
use crate::derivation::lemma_derive_scale;
use crate::derivation::lemma_derive_xor;
use crate::derivation::lemma_eval_shift_up;
use crate::derivation::lemma_formal_derivative_is_derive;
use crate::derivation::lemma_product_rule;
use crate::derivation::lemma_shift_up_below;
use crate::derivation::lemma_shift_up_len;
use crate::derivation::shift_up;
use crate::field_laws::fmul;
use crate::field_laws::fpow;
use crate::field_laws::lemma_fmul_associates;
use crate::field_laws::lemma_fmul_commutes;
use crate::field_laws::lemma_fmul_distributes;
use crate::field_laws::lemma_fmul_units;
use crate::field_laws::lemma_mul_spec_is_fmul;
use crate::field_laws::lemma_xor_laws;
use crate::locator::erased;
use crate::locator::lemma_locator;
use crate::locator::locator_product;
use crate::locator::xor_index;
use crate::novel_poly_basis::codeword_spec;
use crate::novel_poly_basis::decode_main_spec;
use crate::novel_poly_basis::erasure_of;
use crate::novel_poly_basis::message;
use crate::novel_poly_basis::present_count;
use crate::novel_poly_basis::received_of;
use crate::novel_poly_basis::recovered_symbols;
use crate::novel_poly_basis::shape_error;
use crate::novel_poly_basis::shard_bytes;
use crate::novel_poly_basis::symbol_of;
use crate::shard::WrappedShard;
use crate::novel_poly_basis::encode_low_spec;
use crate::novel_poly_basis::eval_error_polynomial_spec;
use crate::novel_poly_basis::message_poly;
use crate::novel_poly_basis::scale_or_zero;
use crate::novel_poly_basis::twist_pairs;
use crate::poly::eval;
use crate::poly::lemma_eval_padded;
use crate::poly::lemma_eval_scale;
use crate::poly::lemma_eval_xor;
use crate::poly::lemma_fft_evaluates;
use crate::poly::vec_scale;
use crate::poly::vec_xor;
use crate::poly::vec_zero;
use crate::table_forms::lemma_twists_vanish;
use crate::tables::TablesView;
use crate::util::lemma_pow2_divides;
use crate::util::pow2;

verus! {

/// The number of erased positions below `m`.
pub open spec fn erased_count(erasure: Seq<bool>, m: int) -> int
    decreases m,
{
    if m <= 0 {
        0
    } else {
        erased_count(erasure, m - 1) + (if erased(erasure, m - 1) {
            1int
        } else {
            0int
        })
    }
}

/// The value at the element numbered `x` of the error locator polynomial of
/// the erased positions below `m`: the product of the differences between
/// `x` and those positions.
pub open spec fn locator_value(erasure: Seq<bool>, x: u16, m: int) -> u16
    decreases m,
{
    if m <= 0 {
        1
    } else if erased(erasure, m - 1) {
        fmul(locator_value(erasure, x, m - 1), xor_index(x as int, m - 1) as u16)
    } else {
        locator_value(erasure, x, m - 1)
    }
}

/// The coefficients of a polynomial times the error locator polynomial of
/// the erased positions below `m`.
pub open spec fn times_locator(coeffs: Seq<u16>, erasure: Seq<bool>, m: int) -> Seq<u16>
    decreases m,
{
    if m <= 0 {
        coeffs
    } else if erased(erasure, m - 1) {
        let c = times_locator(coeffs, erasure, m - 1);
        vec_xor(shift_up(c), vec_scale((m - 1) as u16, c))
    } else {
        times_locator(coeffs, erasure, m - 1)
    }
}

proof fn lemma_count_grows(erasure: Seq<bool>, m: int, n: int)
    requires
        0 <= m <= n,
    ensures
        0 <= erased_count(erasure, m) <= erased_count(erasure, n),
        erased_count(erasure, m) <= m,
    decreases n,
{
    if m < n {
        lemma_count_grows(erasure, m, n - 1);
    } else if m > 0 {
        lemma_count_grows(erasure, m - 1, m - 1);
    }
}

/// The product with the locator has the length of the polynomial, a degree
/// that is higher by the number of erased positions, and at every element
/// the value of the polynomial times the value of the locator.
proof fn lemma_times_locator(coeffs: Seq<u16>, k: int, erasure: Seq<bool>, m: int, total: int)
    requires
        pow2(coeffs.len() as int),
        coeffs.len() <= 65536,
        0 <= k,
        below(coeffs, k),
        0 <= m <= total <= 65536,
        k + erased_count(erasure, total) <= coeffs.len(),
    ensures
        times_locator(coeffs, erasure, m).len() == coeffs.len(),
        below(times_locator(coeffs, erasure, m), k + erased_count(erasure, m)),
        forall|x: u16|
            eval(times_locator(coeffs, erasure, m), x) == fmul(
                #[trigger] eval(coeffs, x),
                locator_value(erasure, x, m),
            ),
    decreases m,
{
    if m <= 0 {
        assert forall|x: u16|
            eval(times_locator(coeffs, erasure, m), x) == fmul(
                #[trigger] eval(coeffs, x),
                locator_value(erasure, x, m),
            ) by {
            lemma_fmul_units(eval(coeffs, x));
        }
    } else {
        lemma_times_locator(coeffs, k, erasure, m - 1, total);
        lemma_count_grows(erasure, m - 1, total);
        lemma_count_grows(erasure, m, total);
        if erased(erasure, m - 1) {
            let c = times_locator(coeffs, erasure, m - 1);
            let q = (m - 1) as u16;
            let degree = k + erased_count(erasure, m - 1);
            lemma_shift_up_below(c, degree);
            lemma_shift_up_len(c);
            lemma_fmul_units(0);
            lemma_xor_laws(0, 0, 0);
            assert(below(vec_scale(q, c), degree + 1)) by {
                lemma_fmul_units(q);
            }
            assert forall|x: u16|
                eval(times_locator(coeffs, erasure, m), x) == fmul(
                    #[trigger] eval(coeffs, x),
                    locator_value(erasure, x, m),
                ) by {
                lemma_locator_step(c, q, x);
                crate::locator::lemma_xor_small(x as usize, q as usize);
                lemma_fmul_associates(eval(coeffs, x), locator_value(erasure, x, m - 1), x ^ q);
                lemma_fmul_commutes(x ^ q, eval(c, x));
            }
        }
    }
}

/// The value of a polynomial times `x + q`.
proof fn lemma_locator_step(c: Seq<u16>, q: u16, x: u16)
    requires
        pow2(c.len() as int),
        c.len() <= 65536,
        carry(c) == 0,
    ensures
        eval(vec_xor(shift_up(c), vec_scale(q, c)), x) == fmul(x ^ q, eval(c, x)),
{
    lemma_shift_up_len(c);
    lemma_eval_xor(shift_up(c), vec_scale(q, c), x);
    lemma_eval_scale(q, c, x);
    lemma_eval_shift_up(c, x);
    lemma_fmul_units((x as int / (c.len() as int)) as u16);
    lemma_xor_laws(eval(shift_up(c), x), 0, 0);
    lemma_fmul_distributes(x, q, eval(c, x));
}

/// The value of the locator where no position is left out: at a position
/// that is not erased, or below which nothing is looked at, the product that
/// leaves the position out; at an erased position that is looked at, zero.
proof fn lemma_locator_value(erasure: Seq<bool>, p: int, m: int)
    requires
        0 <= p < 65536,
        0 <= m <= 65536,
    ensures
        !erased(erasure, p) || m <= p ==> locator_value(erasure, p as u16, m) == locator_product(
            erasure,
            p,
            m,
        ),
        erased(erasure, p) && m > p ==> locator_value(erasure, p as u16, m) == 0,
    decreases m,
{
    if m > 0 {
        lemma_locator_value(erasure, p, m - 1);
        lemma_fmul_units(locator_value(erasure, p as u16, m - 1));
        lemma_fmul_units(xor_index(p, m - 1) as u16);
        if m - 1 == p {
            crate::locator::lemma_xor_small(p as usize, p as usize);
            assert(xor_index(p, p) == 0);
        }
    }
}

/// No position from the length of the pattern on is erased.
proof fn lemma_locator_product_tail(erasure: Seq<bool>, p: int, m: int)
    requires
        erasure.len() <= m,
    ensures
        locator_product(erasure, p, m) == locator_product(erasure, p, erasure.len() as int),
    decreases m,
{
    if m > erasure.len() {
        lemma_locator_product_tail(erasure, p, m - 1);
    }
}


/// The derivation of a polynomial times `x + q`: the polynomial plus its
/// derivation times `x + q`.
proof fn lemma_derived_step(c: Seq<u16>, q: u16, x: u16)
    requires
        pow2(c.len() as int),
        c.len() <= 65536,
        carry(c) == 0,
    ensures
        eval(derived(vec_xor(shift_up(c), vec_scale(q, c))), x) == eval(c, x) ^ fmul(
            x ^ q,
            eval(derived(c), x),
        ),
{
    let d = derived(c);
    lemma_shift_up_len(c);
    lemma_derive_len(c);
    lemma_derive_len(shift_up(c));
    lemma_shift_up_len(d);
    lemma_derive_xor(shift_up(c), vec_scale(q, c));
    lemma_derive_scale(q, c);
    lemma_product_rule(c);
    lemma_derive_ends(c, 0);
    let ds = derived(shift_up(c));
    assert(crate::derivation::add_first(ds, 0) =~= ds) by {
        lemma_xor_laws(ds[0], 0, 0);
    }
    assert(ds == vec_xor(c, shift_up(d)));
    lemma_eval_xor(ds, vec_scale(q, d), x);
    lemma_eval_scale(q, d, x);
    lemma_eval_xor(c, shift_up(d), x);
    lemma_eval_shift_up(d, x);
    lemma_fmul_units((x as int / (c.len() as int)) as u16);
    lemma_xor_laws(eval(shift_up(d), x), 0, 0);
    lemma_fmul_distributes(x, q, eval(d, x));
    lemma_xor_laws(eval(c, x), fmul(x, eval(d, x)), fmul(q, eval(d, x)));
}

/// At an erased position, the derivation of the polynomial times the
/// locator has the value of the polynomial times the product of the
/// differences to the other erased positions.
proof fn lemma_derived_value(
    coeffs: Seq<u16>,
    k: int,
    erasure: Seq<bool>,
    p: int,
    m: int,
    total: int,
)
    requires
        pow2(coeffs.len() as int),
        coeffs.len() <= 65536,
        0 <= k,
        below(coeffs, k),
        0 <= p < m <= total <= 65536,
        erased(erasure, p),
        k + erased_count(erasure, total) <= coeffs.len(),
    ensures
        eval(derived(times_locator(coeffs, erasure, m)), p as u16) == fmul(
            eval(coeffs, p as u16),
            locator_product(erasure, p, m),
        ),
    decreases m,
{
    let x = p as u16;
    let f = eval(coeffs, x);
    let c = times_locator(coeffs, erasure, m - 1);
    lemma_times_locator(coeffs, k, erasure, m - 1, total);
    lemma_count_grows(erasure, m - 1, total);
    lemma_count_grows(erasure, m, total);
    lemma_locator_value(erasure, p, m - 1);
    assert(eval(c, x) == fmul(f, locator_value(erasure, x, m - 1)));
    if m - 1 > p {
        lemma_derived_value(coeffs, k, erasure, p, m - 1, total);
    }
    if erased(erasure, m - 1) {
        let q = (m - 1) as u16;
        lemma_shift_up_below(c, k + erased_count(erasure, m - 1));
        lemma_derived_step(c, q, x);
        crate::locator::lemma_xor_small(x as usize, q as usize);
        let d = eval(derived(c), x);
        if m - 1 == p {
            lemma_fmul_units(d);
            lemma_xor_laws(eval(c, x), 0, 0);
        } else {
            lemma_fmul_units(f);
            lemma_xor_laws(fmul(x ^ q, d), 0, 0);
            let lp = locator_product(erasure, p, m - 1);
            lemma_fmul_commutes(x ^ q, fmul(f, lp));
            lemma_fmul_associates(f, lp, x ^ q);
        }
    }
}

/// In the Cantor basis the twists of the formal derivative change nothing.
proof fn lemma_twists_identity(t: TablesView, v: Seq<u16>, inverse: bool)
    requires
        t.wf(),
        v.len() <= 65536,
    ensures
        twist_pairs(t, v, inverse) == v,
{
    lemma_twists_vanish(t);
    assert forall|i: int| 0 <= i < v.len() implies twist_pairs(t, v, inverse)[i] == v[i] by {
        lemma_mul_spec_is_fmul(t, v[i], 0);
        lemma_mul_spec_is_fmul(t, v[i], 65535);
    }
    assert(twist_pairs(t, v, inverse) =~= v);
}

/// The decoder recovers the values of a polynomial: where the symbols that
/// are not erased are the values of a polynomial of degree below `k` at the
/// elements numbered by their positions, and no more than `n - k` positions
/// are erased, the decoder leaves at every erased position the value of the
/// polynomial there, and zero at the others.
pub proof fn lemma_decode_recovers(
    t: TablesView,
    coeffs: Seq<u16>,
    k: int,
    received: Seq<u16>,
    erasure: Seq<bool>,
    p: int,
)
    requires
        t.wf(),
        pow2(coeffs.len() as int),
        2 <= coeffs.len() <= 65536,
        0 <= k,
        below(coeffs, k),
        erasure.len() == coeffs.len(),
        received.len() == coeffs.len(),
        k + erased_count(erasure, coeffs.len() as int) <= coeffs.len(),
        forall|i: int|
            0 <= i < coeffs.len() && !erasure[i] ==> received[i] == eval(coeffs, i as u16),
        0 <= p < coeffs.len(),
    ensures
        decode_main_spec(
            t,
            received,
            erasure,
            eval_error_polynomial_spec(t, erasure, 65536),
            coeffs.len() as int,
        ).len() == coeffs.len(),
        decode_main_spec(
            t,
            received,
            erasure,
            eval_error_polynomial_spec(t, erasure, 65536),
            coeffs.len() as int,
        )[p] == (if erasure[p] {
            eval(coeffs, p as u16)
        } else {
            0u16
        }),
{
    let n = coeffs.len() as int;
    let logs = eval_error_polynomial_spec(t, erasure, 65536);
    let g = times_locator(coeffs, erasure, n);
    lemma_times_locator(coeffs, k, erasure, n, n);
    vstd::arithmetic::div_mod::lemma_small_mod(0, n as nat);
    // The scaled symbols are the values of the polynomial times the locator.
    let scaled = scale_or_zero(t, received, logs, erasure, true);
    lemma_fft_evaluates(t, g, 0);
    assert forall|i: int| 0 <= i < n implies scaled[i] == fft_spec(t, g, 0)[i] by {
        let x = i as u16;
        lemma_locator(t, erasure, i);
        lemma_locator_value(erasure, i, n);
        lemma_locator_product_tail(erasure, i, 65536);
        lemma_fmul_units(eval(coeffs, x));
        if !erasure[i] {
            lemma_mul_spec_is_fmul(t, received[i], logs[i]);
        }
    }
    assert(scaled =~= fft_spec(t, g, 0));
    // Back to coefficients, through the derivative, and to values again.
    lemma_ifft_inverts_fft(t, g, 0);
    lemma_twists_identity(t, g, true);
    lemma_formal_derivative_is_derive(g);
    let h = derived(g);
    lemma_derive_len(g);
    lemma_twists_identity(t, h, false);
    lemma_fft_evaluates(t, h, 0);
    let values = fft_spec(t, h, 0);
    let decoded = scale_or_zero(t, values, logs, erasure, false);
    assert(decoded == decode_main_spec(t, received, erasure, logs, n));
    if erasure[p] {
        let x = p as u16;
        lemma_derived_value(coeffs, k, erasure, p, n, n);
        lemma_locator(t, erasure, p);
        lemma_locator_product_tail(erasure, p, 65536);
        let lp = locator_product(erasure, p, n);
        let f = eval(coeffs, x);
        lemma_mul_spec_is_fmul(t, values[p], logs[p]);
        lemma_fmul_associates(f, lp, fpow(logs[p] as int));
        lemma_fmul_commutes(lp, fpow(logs[p] as int));
        lemma_fmul_units(f);
    }
}

/// The codeword of the encoder at rate at most one half holds the values of
/// the message polynomial, whose degree is below `k`, at the elements
/// numbered by the positions.
pub proof fn lemma_codeword_is_evaluation(t: TablesView, data: Seq<u16>, k: int, n: int, p: int)
    requires
        t.wf(),
        pow2(n),
        pow2(k),
        k + k <= n <= 65536,
        data.len() == n,
        0 <= p < n,
    ensures
        message_poly(t, data, k).len() == k,
        encode_low_spec(t, data, k, n)[p] == eval(
            message_poly(t, data, k) + vec_zero((n - k) as nat),
            p as u16,
        ),
        p < k ==> encode_low_spec(t, data, k, n)[p] == data[p],
{
    let front = data.subrange(0, k);
    let poly = message_poly(t, data, k);
    lemma_transform_len(t, front, 0);
    lemma_eval_padded(poly, n, p as u16);
    lemma_pow2_divides(k, n);
    let start = p - p % k;
    let blocks = p / k;
    vstd::arithmetic::div_mod::lemma_fundamental_div_mod(p, k);
    assert(start == blocks * k) by (nonlinear_arith)
        requires
            p == k * blocks + p % k,
            start == p - p % k,
    ;
    assert(0 <= blocks) by (nonlinear_arith)
        requires
            p == k * blocks + p % k,
            0 <= p,
            p % k < k,
            0 < k,
    ;
    vstd::arithmetic::div_mod::lemma_fundamental_div_mod_converse(start, k, blocks, 0);
    assert(n % k == 0) by {
        let q = n / (2 * k);
        vstd::arithmetic::div_mod::lemma_fundamental_div_mod(n, 2 * k);
        assert(n == (2 * q) * k) by (nonlinear_arith)
            requires
                n == (2 * k) * q,
        ;
        vstd::arithmetic::div_mod::lemma_fundamental_div_mod_converse(n, k, 2 * q, 0);
    }
    crate::util::lemma_block_fits(blocks, k, n);
    lemma_fft_evaluates(t, poly, start);
    vstd::arithmetic::div_mod::lemma_mod_bound(p, k);
    assert(fft_spec(t, poly, start)[p % k] == eval(poly, (start + p % k) as u16));
    assert(start + p % k == p);
    if p < k {
        vstd::arithmetic::div_mod::lemma_small_mod(p as nat, k as nat);
        lemma_fft_inverts_ifft(t, front, 0);
        assert(start == 0);
        assert(fft_spec(t, poly, 0)[p] == front[p]);
    } else {
        assert(encode_low_spec(t, data, k, n)[p] == crate::novel_poly_basis::block_value(
            t,
            poly,
            k,
            p,
        ));
    }
}

/// Encode and decode round trip: where the symbols that are not erased are
/// those of the codeword of `data`, and no more than `n - k` positions are
/// erased, the decoder leaves the symbol of the codeword at every erased
/// position, which for the first `k` positions is the data, and zero at the
/// others.
pub proof fn lemma_round_trip(
    t: TablesView,
    data: Seq<u16>,
    k: int,
    n: int,
    received: Seq<u16>,
    erasure: Seq<bool>,
)
    requires
        t.wf(),
        pow2(n),
        pow2(k),
        k + k <= n <= 65536,
        data.len() == n,
        received.len() == n,
        erasure.len() == n,
        erased_count(erasure, n) <= n - k,
        forall|i: int| 0 <= i < n && !erasure[i] ==> received[i] == encode_low_spec(t, data, k, n)[i],
    ensures
        forall|p: int|
            0 <= p < n ==> #[trigger] decode_main_spec(
                t,
                received,
                erasure,
                eval_error_polynomial_spec(t, erasure, 65536),
                n,
            )[p] == (if erasure[p] {
                encode_low_spec(t, data, k, n)[p]
            } else {
                0u16
            }),
        forall|p: int|
            0 <= p < k && erasure[p] ==> #[trigger] decode_main_spec(
                t,
                received,
                erasure,
                eval_error_polynomial_spec(t, erasure, 65536),
                n,
            )[p] == data[p],
{
    let coeffs = message_poly(t, data, k) + vec_zero((n - k) as nat);
    lemma_transform_len(t, data.subrange(0, k), 0);
    assert forall|i: int| 0 <= i < n && !erasure[i] implies received[i] == eval(
        coeffs,
        i as u16,
    ) by {
        lemma_codeword_is_evaluation(t, data, k, n, i);
    }
    assert forall|p: int| 0 <= p < n implies #[trigger] decode_main_spec(
        t,
        received,
        erasure,
        eval_error_polynomial_spec(t, erasure, 65536),
        n,
    )[p] == (if erasure[p] {
        encode_low_spec(t, data, k, n)[p]
    } else {
        0u16
    }) by {
        lemma_codeword_is_evaluation(t, data, k, n, p);
        lemma_decode_recovers(t, coeffs, k, received, erasure, p);
    }
    assert forall|p: int| 0 <= p < k && erasure[p] implies #[trigger] decode_main_spec(
        t,
        received,
        erasure,
        eval_error_polynomial_spec(t, erasure, 65536),
        n,
    )[p] == data[p] by {
        lemma_codeword_is_evaluation(t, data, k, n, p);
    }
}


proof fn lemma_counts(shards: Seq<Option<WrappedShard>>, m: int)
    requires
        0 <= m <= shards.len(),
    ensures
        erased_count(erasure_of(shards), m) + present_count(shards, m) == m,
    decreases m,
{
    if m > 0 {
        lemma_counts(shards, m - 1);
    }
}

/// Shards round trip: where every shard that is present is the shard of the
/// codeword of a payload, and at least `k` shards are present, the symbols
/// that are recovered are the codeword. Its first `k` symbols are those of
/// the payload.
pub proof fn lemma_shards_round_trip(
    t: TablesView,
    payload: Seq<u8>,
    n: int,
    k: int,
    shards: Seq<Option<WrappedShard>>,
)
    requires
        t.wf(),
        shape_error(n, k) is None,
        shards.len() == n,
        forall|i: int|
            0 <= i < n && (#[trigger] shards[i]) is Some ==> shards[i]->Some_0@ == shard_bytes(
                codeword_spec(t, payload, n, k)[i],
            ),
        present_count(shards, n) >= k,
    ensures
        recovered_symbols(t, shards) == codeword_spec(t, payload, n, k),
        forall|i: int|
            0 <= i < k ==> #[trigger] recovered_symbols(t, shards)[i] == message(payload, n)[i],
{
    let word = codeword_spec(t, payload, n, k);
    let erasure = erasure_of(shards);
    let received = received_of(shards);
    let data = message(payload, n);
    lemma_counts(shards, n);
    assert forall|i: int| 0 <= i < n && !erasure[i] implies received[i] == word[i] by {
        let s = word[i];
        let bytes = shards[i]->Some_0@;
        assert(bytes == shard_bytes(s));
        assert(symbol_of(bytes[0], bytes[1]) == s);
    }
    if k + k <= n {
        lemma_round_trip(t, data, k, n, received, erasure);
        assert forall|i: int| 0 <= i < k implies word[i] == data[i] by {
            lemma_codeword_is_evaluation(t, data, k, n, i);
        }
    } else {
        if k < n {
            lemma_pow2_divides(k, n);
        }
        assert forall|i: int| 0 <= i < n implies !erasure[i] by {
            lemma_count_grows(erasure, i + 1, n);
            lemma_count_grows(erasure, i, i);
        }
    }
    assert(recovered_symbols(t, shards) =~= word);
}

} // verus!
