//! Encoding and erasure decoding of Reed-Solomon codes over GF(2^16) in the
//! novel polynomial basis of Lin, Han and Chung.

use vstd::prelude::*;
use itertools::Itertools;
use vstd::arithmetic::div_mod::lemma_fundamental_div_mod;
use vstd::arithmetic::div_mod::lemma_fundamental_div_mod_converse;
use crate::afft::fft_in_novel_poly_basis;
use crate::afft::fft_spec;
use crate::afft::formal_derivative;
use crate::afft::formal_derivative_spec;
use crate::afft::get_or_zero;
use crate::afft::ifft_spec;
use crate::afft::inverse_fft_in_novel_poly_basis;
use crate::afft::lemma_derivative_len;
use crate::afft::lemma_transform_len;
use crate::gf::FIELD_SIZE;
use crate::gf::MODULO;
use crate::poly::vec_xor;
use crate::shard::WrappedShard;
use crate::tables::codec_tables;
use crate::tables::lemma_tables_unique;
use crate::tables::mul_spec;
use crate::tables::mul_table;
use crate::tables::Tables;
use crate::tables::TablesView;
use crate::util::floor_log2;
use crate::util::is_power_of_2;
use crate::util::lemma_block_fits;
use crate::util::lemma_block_offset;
use crate::util::lemma_shifts;
use crate::util::lemma_floor_log2_bounds;
use crate::util::lemma_pow2_65536;
use crate::util::lemma_pow2_divides;
use crate::util::lemma_two_pow_grows;
use crate::util::lemma_two_pow_is_pow2;
use crate::util::lemma_two_pow_values;
use crate::util::lemma_wide_shift;
use crate::util::log2;
use crate::util::two_pow;
use crate::util::mem_cpy;
use crate::util::mem_zero;
use crate::util::pow2;
use crate::walsh::walsh;
use crate::walsh::walsh_spec;
use crate::walsh::lemma_walsh_len;

verus! {

/// The coefficients, in the novel basis, of the polynomial that takes the
/// first `k` values of `data` at the first `k` points.
pub open spec fn message_poly(t: TablesView, data: Seq<u16>, k: int) -> Seq<u16> {
    ifft_spec(t, data.subrange(0, k), 0)
}

/// The codeword of rate at most one half: the first `k` symbols are the
/// data, and every further block of `k` symbols holds the values of the
/// message polynomial at the `k` points that start at the block's position.
pub open spec fn encode_low_spec(t: TablesView, data: Seq<u16>, k: int, n: int) -> Seq<u16> {
    Seq::new(
        n as nat,
        |p: int|
            if p < k {
                data[p]
            } else {
                block_value(t, message_poly(t, data, k), k, p)
            },
    )
}

/// The value at position `p` of the transform of `poly` whose window starts
/// at the block of `k` positions that holds `p`.
pub open spec fn block_value(t: TablesView, poly: Seq<u16>, k: int, p: int) -> u16 {
    fft_spec(t, poly, p - p % k)[p % k]
}

/// Encodes at rate at most one half: `codeword` takes the `k` data symbols
/// at the front of `data`, followed by `n - k` parity symbols.
pub fn encode_low(t: &Tables, data: &[u16], k: usize, codeword: &mut [u16], n: usize)
    requires
        k + k <= n,
        old(codeword)@.len() == n,
        data@.len() == n,
        pow2(n as int),
        pow2(k as int),
        n <= 65536,
    ensures
        final(codeword)@ == encode_low_spec(t@, data@, k as int, n as int),
        final(codeword)@.subrange(0, k as int) == data@.subrange(0, k as int),
{
    proof {
        use_type_invariant(t);
    }
    mem_cpy(codeword, data);
    let ghost top = message_poly(t@, data@, k as int);
    proof {
        lemma_pow2_divides(k as int, n as int);
        lemma_transform_len(t@, data@.subrange(0, k as int), 0);
        assert(n as int % k as int == 0) by {
            let q = n as int / (2 * k);
            lemma_fundamental_div_mod(n as int, 2 * k);
            assert(n == (2 * q) * k) by (nonlinear_arith)
                requires
                    n == (2 * k) * q,
            ;
            lemma_fundamental_div_mod_converse(n as int, k as int, 2 * q, 0);
        }
    }
    let (first, rest) = codeword.split_at_mut(k);
    proof {
        assert(first@ =~= data@.subrange(0, k as int));
        assert(first@.subrange(0, k as int) =~= first@);
    }
    inverse_fft_in_novel_poly_basis(t, first, k, 0);
    proof {
        assert(first@.subrange(0, k as int) =~= first@);
    }
    let mut shift: usize = k;
    let ghost mut blocks: int = 1;
    while shift < n
        invariant
            t@.sized(),
            pow2(k as int),
            0 < k,
            shift == blocks * k,
            1 <= blocks,
            k <= shift <= n,
            n <= 65536,
            n as int % k as int == 0,
            first@ == top,
            top.len() == k,
            rest@.len() == n - k,
            forall|q: int|
                0 <= q < shift - k ==> rest@[q] == block_value(t@, top, k as int, q + k),
        decreases n - shift,
    {
        proof {
            lemma_block_fits(blocks, k as int, n as int);
        }
        let ghost before = rest@;
        let (done, open) = rest.split_at_mut(shift - k);
        let (at, tail) = open.split_at_mut(k);
        mem_cpy(at, first);
        proof {
            assert(at@.subrange(0, k as int) =~= top);
        }
        fft_in_novel_poly_basis(t, at, k, shift);
        proof {
            assert(at@.subrange(0, k as int) =~= at@);
            lemma_transform_len(t@, top, shift as int);
            let joined = done@ + (at@ + tail@);
            assert forall|q: int| 0 <= q < shift implies #[trigger] joined[q] == block_value(
                t@,
                top,
                k as int,
                q + k,
            ) by {
                if q < shift - k {
                    assert(done@[q] == before[q]);
                } else {
                    lemma_block_offset(blocks, k as int, q + k - shift);
                    assert((at@ + tail@)[q + k - shift] == at@[q + k - shift]);
                }
            }
        }
        shift += k;
        proof {
            blocks = blocks + 1;
            assert((blocks - 1) * k + k == blocks * k) by (nonlinear_arith);
        }
    }
    let ghost coded = first@ + rest@;
    let (first, rest) = codeword.split_at_mut(k);
    let (front, back) = data.split_at(k);
    mem_cpy(first, front);
    proof {
        let want = encode_low_spec(t@, data@, k as int, n as int);
        assert forall|p: int| 0 <= p < n implies (first@ + rest@)[p] == want[p] by {
            if p >= k {
                assert(rest@[p - k] == coded[p]);
                assert(rest@[p - k] == block_value(t@, top, k as int, (p - k) + k));
            }
        }
        assert(first@ + rest@ =~= want);
        assert((first@ + rest@).subrange(0, k as int) =~= data@.subrange(0, k as int));
    }
}


/// `tt` symbols of `data` from position `from` on; zero where `data` ends.
pub open spec fn chunk(data: Seq<u16>, from: int, tt: int) -> Seq<u16> {
    Seq::new(tt as nat, |x: int| get_or_zero(data, from + x))
}

/// `acc` plus the inverse transforms of the chunks of `tt` data symbols that
/// end at positions `i`, `i + tt`, ... below `n`, each with its window at the
/// position where it ends.
pub open spec fn high_sum(t: TablesView, data: Seq<u16>, tt: int, i: int, n: int, acc: Seq<u16>) -> Seq<
    u16,
>
    decreases (if n > i { n - i } else { 0 }),
{
    if i >= n || tt <= 0 {
        acc
    } else {
        high_sum(
            t,
            data,
            tt,
            i + tt,
            n,
            vec_xor(acc, ifft_spec(t, chunk(data, i - tt, tt), i)),
        )
    }
}

/// The `n - k` parity symbols of the code of rate above one half.
pub open spec fn encode_high_spec(t: TablesView, data: Seq<u16>, k: int, n: int) -> Seq<u16> {
    fft_spec(t, high_sum(t, data, n - k, n - k, n, Seq::new((n - k) as nat, |x: int| 0u16)), 0)
}

/// Encodes at rate above one half: the first `n - k` entries of `parity` take
/// the parity symbols of the `k` data symbols. `mem` is working space of at
/// least `n - k` entries. Data that is shorter than `k` counts as followed by
/// zeros.
pub fn encode_high(
    t: &Tables,
    data: &[u16],
    k: usize,
    parity: &mut [u16],
    mem: &mut [u16],
    n: usize,
)
    requires
        k <= n,
        pow2(n as int),
        pow2(n - k),
        n <= 65536,
        old(parity)@.len() >= n - k,
        old(mem)@.len() >= n - k,
    ensures
        final(parity)@.len() == old(parity)@.len(),
        final(parity)@.subrange(0, n - k) == encode_high_spec(t@, data@, k as int, n as int),
        final(parity)@.subrange(n - k, old(parity)@.len() as int) == old(parity)@.subrange(
            n - k,
            old(parity)@.len() as int,
        ),
        final(mem)@.len() == old(mem)@.len(),
        final(mem)@.subrange(n - k, old(mem)@.len() as int) == old(mem)@.subrange(
            n - k,
            old(mem)@.len() as int,
        ),
        k == 0 ==> final(mem)@ == old(mem)@,
        k > 0 ==> final(mem)@.subrange(0, n - k) == ifft_spec(
            t@,
            chunk(data@, k - (n - k), n - k),
            k as int,
        ),
{
    proof {
        use_type_invariant(t);
    }
    let tt: usize = n - k;
    let ghost parity0 = parity@;
    let ghost mem0 = mem@;
    let ghost zeros = Seq::new(tt as nat, |x: int| 0u16);
    let dlen: usize = data.len();
    {
        let (front, back) = parity.split_at_mut(tt);
        mem_zero(front);
    }
    proof {
        assert(parity@.subrange(0, tt as int) =~= zeros);
        if k > 0 {
            lemma_pow2_divides(tt as int, n as int);
            assert(n as int % tt as int == 0) by {
                let q = n as int / (2 * tt);
                lemma_fundamental_div_mod(n as int, 2 * tt);
                assert(n == (2 * q) * tt) by (nonlinear_arith)
                    requires
                        n == (2 * tt) * q,
                ;
                lemma_fundamental_div_mod_converse(n as int, tt as int, 2 * q, 0);
            }
        } else {
            vstd::arithmetic::div_mod::lemma_mod_self_0(n as int);
        }
    }
    let mut i: usize = tt;
    let ghost mut blocks: int = 1;
    while i < n
        invariant
            t@.sized(),
            pow2(tt as int),
            0 < tt,
            tt == n - k,
            i == blocks * tt,
            1 <= blocks,
            tt <= i <= n,
            n <= 65536,
            n as int % tt as int == 0,
            dlen == data@.len(),
            parity@.len() == parity0.len(),
            mem@.len() == mem0.len(),
            tt <= parity@.len(),
            tt <= mem@.len(),
            forall|p: int| tt <= p < parity0.len() ==> parity@[p] == parity0[p],
            forall|p: int| tt <= p < mem0.len() ==> mem@[p] == mem0[p],
            i == tt ==> mem@ == mem0,
            i > tt ==> mem@.subrange(0, tt as int) == ifft_spec(
                t@,
                chunk(data@, i - 2 * tt, tt as int),
                i - tt,
            ),
            high_sum(t@, data@, tt as int, i as int, n as int, parity@.subrange(0, tt as int))
                == high_sum(t@, data@, tt as int, tt as int, n as int, zeros),
        decreases n - i,
    {
        proof {
            lemma_block_fits(blocks, tt as int, n as int);
        }
        let ghost piece = chunk(data@, i - tt, tt as int);
        let ghost acc = parity@.subrange(0, tt as int);
        let mut x: usize = 0;
        while x < tt
            invariant
                x <= tt,
                tt <= i,
                i + tt <= 65536,
                dlen == data@.len(),
                mem@.len() == mem0.len(),
                tt <= mem@.len(),
                piece == chunk(data@, i - tt, tt as int),
                forall|p: int| 0 <= p < x ==> mem@[p] == piece[p],
                forall|p: int| tt <= p < mem0.len() ==> mem@[p] == mem0[p],
            decreases tt - x,
        {
            let from: usize = i - tt + x;
            let symbol: u16 = if from < dlen {
                data[from]
            } else {
                0u16
            };
            mem[x] = symbol;
            x += 1;
        }
        proof {
            assert(mem@.subrange(0, tt as int) =~= piece);
        }
        inverse_fft_in_novel_poly_basis(t, mem, tt, i);
        let ghost inv = ifft_spec(t@, piece, i as int);
        proof {
            lemma_transform_len(t@, piece, i as int);
            assert forall|p: int| tt <= p < mem0.len() implies mem@[p] == mem0[p] by {
                assert(mem@[p] == mem@.subrange(tt as int, mem0.len() as int)[p - tt]);
            }
        }
        let mut j: usize = 0;
        while j < tt
            invariant
                j <= tt,
                parity@.len() == parity0.len(),
                tt <= parity@.len(),
                tt <= mem@.len(),
                acc.len() == tt,
                inv.len() == tt,
                mem@.subrange(0, tt as int) == inv,
                forall|p: int| 0 <= p < j ==> parity@[p] == acc[p] ^ inv[p],
                forall|p: int| j <= p < tt ==> parity@[p] == acc[p],
                forall|p: int| tt <= p < parity0.len() ==> parity@[p] == parity0[p],
            decreases tt - j,
        {
            let here: u16 = parity[j];
            let other: u16 = mem[j];
            proof {
                assert(mem@[j as int] == mem@.subrange(0, tt as int)[j as int]);
            }
            parity[j] = here ^ other;
            j += 1;
        }
        proof {
            assert(parity@.subrange(0, tt as int) =~= vec_xor(acc, inv));
        }
        i += tt;
        proof {
            blocks = blocks + 1;
            assert((blocks - 1) * tt + tt == blocks * tt) by (nonlinear_arith);
        }
    }
    let ghost sum = parity@.subrange(0, tt as int);
    fft_in_novel_poly_basis(t, parity, tt, 0);
    proof {
        assert forall|p: int| tt <= p < parity0.len() implies parity@[p] == parity0[p] by {
            assert(parity@[p] == parity@.subrange(tt as int, parity0.len() as int)[p - tt]);
        }
        assert(parity@.subrange(tt as int, parity0.len() as int) =~= parity0.subrange(
            tt as int,
            parity0.len() as int,
        ));
        assert(mem@.subrange(tt as int, mem0.len() as int) =~= mem0.subrange(
            tt as int,
            mem0.len() as int,
        ));
    }
}

/// The erasure pattern as residues: one at the erased positions below `z`,
/// zero at all others of the 65536.
pub open spec fn erasure_indicator(erasure: Seq<bool>, z: int) -> Seq<u16> {
    Seq::new(
        65536,
        |i: int|
            if i < z && erasure[i] {
                1u16
            } else {
                0u16
            },
    )
}

/// The smaller of `n` and the number of erasure flags.
pub open spec fn flagged(erasure: Seq<bool>, n: int) -> int {
    if n <= erasure.len() {
        n
    } else {
        erasure.len() as int
    }
}

/// The first `n` entries of `w` times those of the Walsh transform of the
/// logarithms, modulo `2^16 - 1`.
pub open spec fn scale_by_log_walsh(t: TablesView, w: Seq<u16>, n: int) -> Seq<u16> {
    Seq::new(
        w.len(),
        |i: int|
            if i < n {
                ((w[i] * t.log_walsh[i]) % 65535) as u16
            } else {
                w[i]
            },
    )
}

/// The logarithms of the values of the error locator polynomial: the Walsh
/// transform of the erasure pattern, scaled by that of the logarithms and
/// transformed back, with the sign turned at the erased positions.
pub open spec fn eval_error_polynomial_spec(t: TablesView, erasure: Seq<bool>, n: int) -> Seq<u16> {
    let z = flagged(erasure, n);
    let w = walsh_spec(scale_by_log_walsh(t, walsh_spec(erasure_indicator(erasure, z)), n));
    Seq::new(
        65536,
        |i: int|
            if i < z && erasure[i] {
                (65535 - w[i]) as u16
            } else {
                w[i]
            },
    )
}

/// Evaluates the error locator polynomial of an erasure pattern at all points
/// of the field, into the first 65536 entries of `log_walsh2`.
pub fn eval_error_polynomial(t: &Tables, erasure: &[bool], log_walsh2: &mut [u16], n: usize)
    requires
        n <= 65536,
        old(log_walsh2)@.len() >= 65536,
    ensures
        final(log_walsh2)@.len() == old(log_walsh2)@.len(),
        final(log_walsh2)@.subrange(0, 65536) == eval_error_polynomial_spec(
            t@,
            erasure@,
            n as int,
        ),
        final(log_walsh2)@.subrange(65536, old(log_walsh2)@.len() as int) == old(
            log_walsh2,
        )@.subrange(65536, old(log_walsh2)@.len() as int),
{
    proof {
        use_type_invariant(t);
    }
    let ghost whole = log_walsh2@;
    let elen: usize = erasure.len();
    let z: usize = if n <= elen {
        n
    } else {
        elen
    };
    let ghost ind = erasure_indicator(erasure@, z as int);
    let mut i: usize = 0;
    while i < z
        invariant
            i <= z <= 65536,
            z <= erasure@.len(),
            log_walsh2@.len() == whole.len(),
            whole.len() >= 65536,
            ind == erasure_indicator(erasure@, z as int),
            forall|p: int| 0 <= p < i ==> log_walsh2@[p] == ind[p],
            forall|p: int| 65536 <= p < whole.len() ==> log_walsh2@[p] == whole[p],
        decreases z - i,
    {
        let flag: u16 = if erasure[i] {
            1u16
        } else {
            0u16
        };
        log_walsh2[i] = flag;
        i += 1;
    }
    let mut i: usize = z;
    while i < FIELD_SIZE
        invariant
            z <= i <= 65536,
            log_walsh2@.len() == whole.len(),
            whole.len() >= 65536,
            ind == erasure_indicator(erasure@, z as int),
            forall|p: int| 0 <= p < i ==> log_walsh2@[p] == ind[p],
            forall|p: int| 65536 <= p < whole.len() ==> log_walsh2@[p] == whole[p],
        decreases 65536 - i,
    {
        log_walsh2[i] = 0u16;
        i += 1;
    }
    proof {
        assert(log_walsh2@.subrange(0, 65536) =~= ind);
        crate::util::lemma_pow2_65536();
    }
    walsh(log_walsh2, FIELD_SIZE);
    let ghost w1 = walsh_spec(ind);
    let ghost scaled = scale_by_log_walsh(t@, w1, n as int);
    proof {
        lemma_walsh_len(ind);
        assert forall|p: int| 65536 <= p < whole.len() implies log_walsh2@[p] == whole[p] by {
            assert(log_walsh2@[p] == log_walsh2@.subrange(65536, whole.len() as int)[p - 65536]);
        }
    }
    let mut i: usize = 0;
    while i < n
        invariant
            t@.sized(),
            i <= n <= 65536,
            log_walsh2@.len() == whole.len(),
            whole.len() >= 65536,
            w1.len() == 65536,
            scaled == scale_by_log_walsh(t@, w1, n as int),
            forall|p: int| 0 <= p < i ==> log_walsh2@[p] == scaled[p],
            forall|p: int| i <= p < 65536 ==> log_walsh2@[p] == w1[p],
            forall|p: int| 65536 <= p < whole.len() ==> log_walsh2@[p] == whole[p],
        decreases n - i,
    {
        let left: u32 = log_walsh2[i] as u32;
        let right: u32 = t.log_walsh_at(i) as u32;
        assert(left * right <= 65535 * 65535) by (nonlinear_arith)
            requires
                left <= 65535,
                right <= 65535,
        ;
        let tmp: u32 = left * right;
        log_walsh2[i] = (tmp % MODULO as u32) as u16;
        i += 1;
    }
    proof {
        assert(log_walsh2@.subrange(0, 65536) =~= scaled);
    }
    walsh(log_walsh2, FIELD_SIZE);
    let ghost w3 = walsh_spec(scaled);
    let ghost want = eval_error_polynomial_spec(t@, erasure@, n as int);
    proof {
        lemma_walsh_len(scaled);
        assert forall|p: int| 65536 <= p < whole.len() implies log_walsh2@[p] == whole[p] by {
            assert(log_walsh2@[p] == log_walsh2@.subrange(65536, whole.len() as int)[p - 65536]);
        }
        assert(z == flagged(erasure@, n as int));
    }
    let mut i: usize = 0;
    while i < z
        invariant
            i <= z <= 65536,
            z <= erasure@.len(),
            z == flagged(erasure@, n as int),
            log_walsh2@.len() == whole.len(),
            whole.len() >= 65536,
            w3.len() == 65536,
            w3 == walsh_spec(scale_by_log_walsh(t@, walsh_spec(erasure_indicator(erasure@, z as int)), n as int)),
            want == eval_error_polynomial_spec(t@, erasure@, n as int),
            forall|p: int| 0 <= p < i ==> log_walsh2@[p] == want[p],
            forall|p: int| i <= p < 65536 ==> log_walsh2@[p] == w3[p],
            forall|p: int| 65536 <= p < whole.len() ==> log_walsh2@[p] == whole[p],
        decreases z - i,
    {
        if erasure[i] {
            let value: u16 = log_walsh2[i];
            log_walsh2[i] = MODULO - value;
        }
        i += 1;
    }
    proof {
        assert(log_walsh2@.subrange(0, 65536) =~= want);
        assert(log_walsh2@.subrange(65536, whole.len() as int) =~= whole.subrange(
            65536,
            whole.len() as int,
        ));
    }
}

/// The codeword with every entry multiplied by the element whose logarithm
/// the same entry of `logs` holds; zero at the erased positions where
/// `zero_erased` is set, and at the others where it is not.
pub open spec fn scale_or_zero(
    t: TablesView,
    v: Seq<u16>,
    logs: Seq<u16>,
    erasure: Seq<bool>,
    zero_erased: bool,
) -> Seq<u16> {
    Seq::new(
        v.len(),
        |i: int|
            if erasure[i] == zero_erased {
                0u16
            } else {
                mul_spec(t, v[i], logs[i])
            },
    )
}

/// Every pair of entries multiplied by its twist factor, or by the inverse of
/// that factor.
pub open spec fn twist_pairs(t: TablesView, v: Seq<u16>, inverse: bool) -> Seq<u16> {
    Seq::new(
        v.len(),
        |i: int|
            if inverse {
                mul_spec(t, v[i], (65535 - t.b[i / 2]) as u16)
            } else {
                mul_spec(t, v[i], t.b[i / 2])
            },
    )
}

/// What the decoder leaves in the codeword: zero at the known positions and
/// the recovered symbols at the erased ones. The received symbols are scaled
/// by the error locator, brought into the novel basis, differentiated between
/// two twists, evaluated again and scaled once more.
pub open spec fn decode_main_spec(
    t: TablesView,
    codeword: Seq<u16>,
    erasure: Seq<bool>,
    log_walsh2: Seq<u16>,
    n: int,
) -> Seq<u16> {
    let scaled = scale_or_zero(t, codeword, log_walsh2, erasure, true);
    let coeffs = twist_pairs(t, ifft_spec(t, scaled, 0), true);
    let derived = twist_pairs(t, formal_derivative_spec(coeffs, n), false);
    scale_or_zero(t, fft_spec(t, derived, 0), log_walsh2, erasure, false)
}

/// Recovers the erased symbols of a codeword of `n` symbols, in place: on
/// return the erased positions hold their symbols and the others hold zero.
pub fn decode_main(
    t: &Tables,
    codeword: &mut [u16],
    k: usize,
    erasure: &[bool],
    log_walsh2: &[u16],
    n: usize,
)
    requires
        old(codeword)@.len() == n,
        erasure@.len() == n,
        log_walsh2@.len() >= n,
        k <= n,
        pow2(n as int),
        2 <= n <= 65536,
    ensures
        final(codeword)@ == decode_main_spec(t@, old(codeword)@, erasure@, log_walsh2@, n as int),
        final(codeword)@.len() == n,
{
    proof {
        use_type_invariant(t);
    }
    let ghost received = codeword@;
    let ghost s1 = scale_or_zero(t@, received, log_walsh2@, erasure@, true);
    let mut i: usize = 0;
    while i < n
        invariant
            t@.sized(),
            i <= n,
            codeword@.len() == n,
            erasure@.len() == n,
            log_walsh2@.len() >= n,
            received.len() == n,
            s1 == scale_or_zero(t@, received, log_walsh2@, erasure@, true),
            forall|p: int| 0 <= p < i ==> codeword@[p] == s1[p],
            forall|p: int| i <= p < n ==> codeword@[p] == received[p],
        decreases n - i,
    {
        let value: u16 = if erasure[i] {
            0u16
        } else {
            mul_table(t, codeword[i], log_walsh2[i])
        };
        codeword[i] = value;
        i += 1;
    }
    proof {
        assert(codeword@ =~= s1);
        assert(codeword@.subrange(0, n as int) =~= codeword@);
    }
    inverse_fft_in_novel_poly_basis(t, codeword, n, 0);
    let ghost s2 = ifft_spec(t@, s1, 0);
    let ghost s3 = twist_pairs(t@, s2, true);
    proof {
        lemma_transform_len(t@, s1, 0);
        assert(codeword@.subrange(0, n as int) =~= codeword@);
        lemma_pow2_divides(1, n as int);
    }
    let mut i: usize = 0;
    while i < n
        invariant
            t@.sized(),
            i <= n <= 65536,
            i % 2 == 0,
            n % 2 == 0,
            codeword@.len() == n,
            s2.len() == n,
            s3 == twist_pairs(t@, s2, true),
            forall|p: int| 0 <= p < i ==> codeword@[p] == s3[p],
            forall|p: int| i <= p < n ==> codeword@[p] == s2[p],
        decreases n - i,
    {
        proof {
            lemma_shifts(i);
        }
        let b: u16 = MODULO - t.b_at(i >> 1);
        let first: u16 = mul_table(t, codeword[i], b);
        codeword[i] = first;
        let second: u16 = mul_table(t, codeword[i + 1], b);
        codeword[i + 1] = second;
        i += 2;
    }
    proof {
        assert(codeword@ =~= s3);
    }
    formal_derivative(codeword, n);
    let ghost s4 = formal_derivative_spec(s3, n as int);
    let ghost s5 = twist_pairs(t@, s4, false);
    proof {
        lemma_derivative_len(s3, n as int);
    }
    let mut i: usize = 0;
    while i < n
        invariant
            t@.sized(),
            i <= n <= 65536,
            i % 2 == 0,
            n % 2 == 0,
            codeword@.len() == n,
            s4.len() == n,
            s5 == twist_pairs(t@, s4, false),
            forall|p: int| 0 <= p < i ==> codeword@[p] == s5[p],
            forall|p: int| i <= p < n ==> codeword@[p] == s4[p],
        decreases n - i,
    {
        proof {
            lemma_shifts(i);
        }
        let b: u16 = t.b_at(i >> 1);
        let first: u16 = mul_table(t, codeword[i], b);
        codeword[i] = first;
        let second: u16 = mul_table(t, codeword[i + 1], b);
        codeword[i + 1] = second;
        i += 2;
    }
    proof {
        assert(codeword@ =~= s5);
        assert(codeword@.subrange(0, n as int) =~= codeword@);
    }
    fft_in_novel_poly_basis(t, codeword, n, 0);
    let ghost s6 = fft_spec(t@, s5, 0);
    let ghost s7 = scale_or_zero(t@, s6, log_walsh2@, erasure@, false);
    proof {
        lemma_transform_len(t@, s5, 0);
        assert(codeword@.subrange(0, n as int) =~= codeword@);
    }
    let mut i: usize = 0;
    while i < n
        invariant
            t@.sized(),
            i <= n,
            codeword@.len() == n,
            erasure@.len() == n,
            log_walsh2@.len() >= n,
            s6.len() == n,
            s7 == scale_or_zero(t@, s6, log_walsh2@, erasure@, false),
            forall|p: int| 0 <= p < i ==> codeword@[p] == s7[p],
            forall|p: int| i <= p < n ==> codeword@[p] == s6[p],
        decreases n - i,
    {
        let value: u16 = if erasure[i] {
            mul_table(t, codeword[i], log_walsh2[i])
        } else {
            0u16
        };
        codeword[i] = value;
        i += 1;
    }
    proof {
        assert(codeword@ =~= s7);
    }
}


/// Number of shards of the standard code.
pub const N: usize = 32;

/// Number of data shards of the standard code.
pub const K: usize = 4;

/// Why a payload was not encoded or not recovered.
#[derive(Clone, Copy, Debug, PartialEq, Eq)]
pub enum CodecError {
    /// The number of shards or of data shards is not a power of two, there
    /// are more data shards than shards, or the shards handed in are not as
    /// many as the code has.
    InvalidShape,
    /// Fewer shards are present than the code has data shards.
    InsufficientShards,
    /// A shard that is present does not hold exactly one symbol.
    ShardSizeMismatch,
    /// The code has more shards than the field has elements.
    FieldTooSmall,
}

/// What is wrong with a code of `n` shards of which `k` carry data, if
/// anything.
pub open spec fn shape_error(n: int, k: int) -> Option<CodecError> {
    if !pow2(n) || !pow2(k) || k > n {
        Some(CodecError::InvalidShape)
    } else if n > 65536 {
        Some(CodecError::FieldTooSmall)
    } else {
        None
    }
}

/// Checks the shape of a code before any work is done.
pub fn check_shape(n: usize, k: usize) -> (r: Result<(), CodecError>)
    ensures
        shape_error(n as int, k as int) is None ==> r is Ok,
        shape_error(n as int, k as int) is Some ==> r == Err::<(), CodecError>(
            shape_error(n as int, k as int)->Some_0,
        ),
{
    if !is_power_of_2(n) || !is_power_of_2(k) || k > n {
        Err(CodecError::InvalidShape)
    } else if n > FIELD_SIZE {
        Err(CodecError::FieldTooSmall)
    } else {
        Ok(())
    }
}

/// The length to which a payload of `len` bytes is padded: the power of two
/// of the logarithm of `len` where that is enough, else the next.
pub open spec fn padded_len(len: int) -> int {
    let l = two_pow(floor_log2(len));
    if l >= len {
        l
    } else {
        2 * l
    }
}

/// The payload followed by zero bytes up to its padded length.
pub open spec fn padded(payload: Seq<u8>) -> Seq<u8> {
    Seq::new(
        padded_len(payload.len() as int) as nat,
        |i: int|
            if i < payload.len() {
                payload[i]
            } else {
                0u8
            },
    )
}

/// The field element that two bytes hold, low byte first.
pub open spec fn symbol_of(low: u8, high: u8) -> u16 {
    (256 * high + low) as u16
}

/// The bytes taken two by two as field elements.
pub open spec fn pack(bytes: Seq<u8>) -> Seq<u16> {
    Seq::new(bytes.len() / 2, |i: int| symbol_of(bytes[2 * i], bytes[2 * i + 1]))
}

/// The message of `n` symbols that a payload stands for: its padded bytes as
/// field elements, followed by zeros.
pub open spec fn message(payload: Seq<u8>, n: int) -> Seq<u16> {
    let symbols = pack(padded(payload));
    Seq::new(
        n as nat,
        |i: int|
            if i < symbols.len() {
                symbols[i]
            } else {
                0u16
            },
    )
}

/// The codeword of a payload: encoded at rate at most one half where the
/// shape allows, else the message itself.
pub open spec fn codeword_spec(t: TablesView, payload: Seq<u8>, n: int, k: int) -> Seq<u16> {
    if k + k <= n {
        encode_low_spec(t, message(payload, n), k, n)
    } else {
        message(payload, n)
    }
}

/// The two bytes of a field element, low byte first.
pub open spec fn shard_bytes(symbol: u16) -> Seq<u8> {
    seq![(symbol % 256) as u8, (symbol / 256) as u8]
}

/// Shard `i` holds symbol `i`, for every symbol.
pub open spec fn shards_hold(shards: Seq<WrappedShard>, symbols: Seq<u16>) -> bool {
    &&& shards.len() == symbols.len()
    &&& forall|i: int| 0 <= i < symbols.len() ==> (#[trigger] shards[i])@ == shard_bytes(symbols[i])
}

/// The shards of a codeword are determined by it: two encodings of one
/// payload give the same bytes.
pub proof fn lemma_shards_determined(a: Seq<WrappedShard>, b: Seq<WrappedShard>, symbols: Seq<u16>)
    requires
        shards_hold(a, symbols),
        shards_hold(b, symbols),
    ensures
        a.len() == b.len(),
        forall|i: int| 0 <= i < a.len() ==> (#[trigger] a[i])@ == b[i]@,
{
}

/// The pairs of neighbouring bytes, in order: `tuple_windows` of itertools
/// over the bytes. There is one pair less than there are bytes, none for an
/// empty slice, and pair `i` holds bytes `i` and `i + 1`.
#[verifier::external_body]
fn byte_windows(bytes: &[u8]) -> (w: Vec<(u8, u8)>)
    ensures
        bytes@.len() == 0 ==> w@.len() == 0,
        bytes@.len() > 0 ==> w@.len() == bytes@.len() - 1,
        forall|i: int| 0 <= i < w@.len() ==> w@[i] == (bytes@[i], bytes@[i + 1]),
{
    bytes.iter().copied().tuple_windows::<(u8, u8)>().collect()
}

proof fn lemma_byte_bits(symbol: u16, low: u8, high: u8)
    by (bit_vector)
    ensures
        symbol & 0xFF == symbol % 256,
        symbol >> 8 == symbol / 256,
        symbol >> 8 <= 255,
        ((high as u16) << 8) | (low as u16) == 256 * high + low,
{
}

/// A power of two that holds a length holds its padded length.
proof fn lemma_padded_len(len: int, cap: int)
    requires
        0 <= len <= cap,
        pow2(cap),
    ensures
        len <= padded_len(len) <= cap,
        1 <= padded_len(len),
        0 <= floor_log2(len),
        floor_log2(len) <= 30 || cap > 0x4000_0000,
{
    if len >= 1 {
        lemma_floor_log2_bounds(len);
        let l = two_pow(floor_log2(len));
        lemma_two_pow_is_pow2(floor_log2(len));
        if l < cap {
            lemma_pow2_divides(l, cap);
        }
        if cap <= 0x4000_0000 && floor_log2(len) > 30 {
            lemma_two_pow_grows(31, floor_log2(len));
            lemma_two_pow_grows(30, 30);
            lemma_two_pow_30();
        }
    }
}

proof fn lemma_two_pow_30()
    ensures
        two_pow(30) == 0x4000_0000,
{
    lemma_two_pow_values();
    crate::util::lemma_two_pow_multiple(15, 30);
}

/// Encodes a payload into `n` shards of one symbol each, of which the first
/// `k` carry the first `k` symbols of the payload. The payload has at most
/// `2 * n` bytes.
pub fn encode_with(t: &Tables, data: &[u8], n: usize, k: usize) -> (r: Result<
    Vec<WrappedShard>,
    CodecError,
>)
    requires
        data@.len() <= 2 * n,
    ensures
        shape_error(n as int, k as int) is Some ==> r == Err::<Vec<WrappedShard>, CodecError>(
            shape_error(n as int, k as int)->Some_0,
        ),
        shape_error(n as int, k as int) is None ==> r is Ok && shards_hold(
            r->Ok_0@,
            codeword_spec(t@, data@, n as int, k as int),
        ),
{
    proof {
        use_type_invariant(t);
    }
    match check_shape(n, k) {
        Err(e) => {
            return Err(e);
        },
        Ok(_) => {},
    }
    let len: usize = data.len();
    let l: usize = log2(len);
    proof {
        crate::util::lemma_pow2_double(n as int);
        lemma_padded_len(len as int, 2 * n);
        lemma_wide_shift(l);
        lemma_two_pow_30();
    }
    let l: usize = 1 << l;
    proof {
        lemma_shifts(l);
    }
    let l: usize = if l >= len {
        l
    } else {
        l << 1
    };
    assert(l == padded_len(len as int));
    let ghost pad = padded(data@);
    let mut bytes: Vec<u8> = Vec::new();
    let mut i: usize = 0;
    while i < len
        invariant
            i <= len <= l,
            len == data@.len(),
            bytes@.len() == i,
            pad.len() == l,
            pad == padded(data@),
            forall|p: int| 0 <= p < i ==> bytes@[p] == pad[p],
        decreases len - i,
    {
        bytes.push(data[i]);
        i += 1;
    }
    let zero_bytes_to_add: usize = l - len;
    let mut i: usize = 0;
    while i < zero_bytes_to_add
        invariant
            i <= zero_bytes_to_add,
            zero_bytes_to_add == l - len,
            len == data@.len(),
            bytes@.len() == len + i,
            pad.len() == l,
            pad == padded(data@),
            forall|p: int| 0 <= p < len + i ==> bytes@[p] == pad[p],
        decreases zero_bytes_to_add - i,
    {
        bytes.push(0u8);
        i += 1;
    }
    proof {
        assert(bytes@ =~= pad);
    }
    let windows: Vec<(u8, u8)> = byte_windows(bytes.as_slice());
    let ghost msg = message(data@, n as int);
    let mut symbols: Vec<u16> = Vec::new();
    let mut w: usize = 0;
    while w < windows.len()
        invariant
            w % 2 == 0,
            w <= windows@.len() + 1,
            windows@.len() == l - 1,
            1 <= l <= 2 * n,
            pad.len() == l,
            pad == padded(data@),
            symbols@.len() == w / 2,
            msg == message(data@, n as int),
            forall|p: int| 0 <= p < windows@.len() ==> windows@[p] == (pad[p], pad[p + 1]),
            forall|p: int| 0 <= p < symbols@.len() ==> symbols@[p] == msg[p],
        decreases windows@.len() + 1 - w,
    {
        let (low, high) = windows[w];
        proof {
            lemma_byte_bits(0, low, high);
            let p = w as int / 2;
            assert(2 * p == w);
            assert(p < pack(pad).len());
            assert(pack(pad)[p] == symbol_of(pad[2 * p], pad[2 * p + 1]));
            assert(msg[p] == pack(pad)[p]);
        }
        symbols.push(((high as u16) << 8) | (low as u16));
        w += 2;
    }
    while symbols.len() < n
        invariant
            symbols@.len() <= n,
            symbols@.len() >= pack(padded(data@)).len(),
            msg == message(data@, n as int),
            forall|p: int| 0 <= p < symbols@.len() ==> symbols@[p] == msg[p],
        decreases n - symbols@.len(),
    {
        symbols.push(0u16);
    }
    proof {
        assert(symbols@ =~= msg);
    }
    let mut codeword: Vec<u16> = vec![0u16; n];
    if k + k <= n {
        encode_low(t, symbols.as_slice(), k, codeword.as_mut_slice(), n);
    } else {
        mem_cpy(codeword.as_mut_slice(), symbols.as_slice());
    }
    let ghost coded = codeword_spec(t@, data@, n as int, k as int);
    let mut shards: Vec<WrappedShard> = Vec::new();
    let mut i: usize = 0;
    while i < n
        invariant
            i <= n,
            codeword@.len() == n,
            codeword@ == coded,
            shards@.len() == i,
            forall|p: int| 0 <= p < i ==> (#[trigger] shards@[p])@ == shard_bytes(coded[p]),
        decreases n - i,
    {
        let symbol: u16 = codeword[i];
        proof {
            lemma_byte_bits(symbol, 0, 0);
        }
        let mut pair: Vec<u8> = Vec::new();
        pair.push((symbol & 0xFF) as u8);
        pair.push((symbol >> 8) as u8);
        let shard = WrappedShard::new(pair);
        proof {
            assert(shard@ =~= shard_bytes(symbol));
        }
        shards.push(shard);
        i += 1;
    }
    Ok(shards)
}

/// Encodes a payload of at most 64 bytes into the 32 shards of the standard
/// code, of which the first four carry the first eight bytes.
pub fn encode(data: &[u8]) -> (shards: Vec<WrappedShard>)
    requires
        data@.len() <= 64,
    ensures
        shards_hold(shards@, codeword_spec(codec_tables(), data@, 32, 4)),
{
    let t = Tables::new();
    proof {
        lemma_tables_unique(t@);
        reveal_with_fuel(pow2, 8);
    }
    match encode_with(&t, data, N, K) {
        Ok(shards) => shards,
        Err(_) => Vec::new(),
    }
}


/// The number of shards that are present among the first `upto`.
pub open spec fn present_count(shards: Seq<Option<WrappedShard>>, upto: int) -> int
    decreases upto,
{
    if upto <= 0 {
        0
    } else {
        present_count(shards, upto - 1) + (if shards[upto - 1] is Some {
            1int
        } else {
            0int
        })
    }
}

/// Which shards are missing.
pub open spec fn erasure_of(shards: Seq<Option<WrappedShard>>) -> Seq<bool> {
    Seq::new(shards.len(), |i: int| shards[i] is None)
}

/// The symbols of the shards that are present; zero for those that are not.
pub open spec fn received_of(shards: Seq<Option<WrappedShard>>) -> Seq<u16> {
    Seq::new(
        shards.len(),
        |i: int|
            if shards[i] is Some {
                symbol_of(shards[i]->Some_0@[0], shards[i]->Some_0@[1])
            } else {
                0u16
            },
    )
}

/// Some shard that is present does not hold exactly two bytes.
pub open spec fn odd_sized(shards: Seq<Option<WrappedShard>>, upto: int) -> bool {
    exists|i: int| 0 <= i < upto && (#[trigger] shards[i]) is Some && shards[i]->Some_0@.len() != 2
}

/// Why the shards cannot be decoded, if they cannot: in this order, the
/// shape of the code, the number of shards handed in, the size of those
/// present, and their number.
pub open spec fn receive_error(shards: Seq<Option<WrappedShard>>, n: int, k: int) -> Option<
    CodecError,
> {
    if shape_error(n, k) is Some {
        shape_error(n, k)
    } else if shards.len() != n {
        Some(CodecError::InvalidShape)
    } else if odd_sized(shards, n) {
        Some(CodecError::ShardSizeMismatch)
    } else if present_count(shards, n) < k {
        Some(CodecError::InsufficientShards)
    } else {
        None
    }
}

/// The codeword as recovered: the received symbols where the shards are
/// present, and what the decoder leaves at the positions where they are not.
pub open spec fn recovered_symbols(t: TablesView, shards: Seq<Option<WrappedShard>>) -> Seq<u16> {
    let erasure = erasure_of(shards);
    let received = received_of(shards);
    let decoded = decode_main_spec(
        t,
        received,
        erasure,
        eval_error_polynomial_spec(t, erasure, 65536),
        shards.len() as int,
    );
    Seq::new(
        shards.len(),
        |i: int|
            if erasure[i] {
                decoded[i]
            } else {
                received[i]
            },
    )
}

/// The symbols as bytes, two for each, low byte first.
pub open spec fn unpack(symbols: Seq<u16>) -> Seq<u8> {
    Seq::new(
        2 * symbols.len(),
        |j: int|
            if j % 2 == 0 {
                (symbols[j / 2] % 256) as u8
            } else {
                (symbols[j / 2] / 256) as u8
            },
    )
}

/// Recovers the codeword from the shards that are present, as `2 * n` bytes;
/// the first `2 * k` of them are the data.
pub fn reconstruct_with(
    t: &Tables,
    received_shards: Vec<Option<WrappedShard>>,
    n: usize,
    k: usize,
) -> (r: Result<Vec<u8>, CodecError>)
    ensures
        receive_error(received_shards@, n as int, k as int) is Some ==> r == Err::<
            Vec<u8>,
            CodecError,
        >(receive_error(received_shards@, n as int, k as int)->Some_0),
        receive_error(received_shards@, n as int, k as int) is None ==> r is Ok && r->Ok_0@
            == unpack(recovered_symbols(t@, received_shards@)),
{
    proof {
        use_type_invariant(t);
    }
    match check_shape(n, k) {
        Err(e) => {
            return Err(e);
        },
        Ok(_) => {},
    }
    if received_shards.len() != n {
        return Err(CodecError::InvalidShape);
    }
    let ghost shards = received_shards@;
    let ghost erasure = erasure_of(shards);
    let ghost received = received_of(shards);
    let mut erasures: Vec<bool> = Vec::new();
    let mut codeword: Vec<u16> = Vec::new();
    let mut present: usize = 0;
    let mut idx: usize = 0;
    while idx < n
        invariant
            idx <= n,
            n == shards.len(),
            shape_error(n as int, k as int) is None,
            shards == received_shards@,
            erasure == erasure_of(shards),
            received == received_of(shards),
            erasures@.len() == idx,
            codeword@.len() == idx,
            present == present_count(shards, idx as int),
            present <= idx,
            !odd_sized(shards, idx as int),
            forall|p: int| 0 <= p < idx ==> erasures@[p] == erasure[p],
            forall|p: int| 0 <= p < idx ==> codeword@[p] == received[p],
        decreases n - idx,
    {
        match &received_shards[idx] {
            Some(wrapped) => {
                let bytes: &[u8] = wrapped.as_slice();
                if bytes.len() != 2 {
                    proof {
                        assert(shards[idx as int] is Some && shards[idx as int]->Some_0@.len() != 2);
                        assert(odd_sized(shards, n as int));
                    }
                    return Err(CodecError::ShardSizeMismatch);
                }
                let low: u8 = bytes[0];
                let high: u8 = bytes[1];
                proof {
                    lemma_byte_bits(0, low, high);
                }
                erasures.push(false);
                codeword.push(((high as u16) << 8) | (low as u16));
                present += 1;
            },
            None => {
                erasures.push(true);
                codeword.push(0u16);
            },
        }
        idx += 1;
    }
    if present < k {
        return Err(CodecError::InsufficientShards);
    }
    proof {
        assert(erasures@ =~= erasure);
        assert(codeword@ =~= received);
    }
    let mut recovered: Vec<u16> = vec![0u16; n];
    mem_cpy(recovered.as_mut_slice(), codeword.as_slice());
    let mut log_walsh2: Vec<u16> = vec![0u16; 65536];
    eval_error_polynomial(t, erasures.as_slice(), log_walsh2.as_mut_slice(), FIELD_SIZE);
    proof {
        assert(log_walsh2@.subrange(0, 65536) =~= log_walsh2@);
    }
    if n >= 2 {
        decode_main(t, codeword.as_mut_slice(), n, erasures.as_slice(), log_walsh2.as_slice(), n);
    } else {
        proof {
            assert(present_count(shards, 1) == present_count(shards, 0) + (if shards[0] is Some {
                1int
            } else {
                0int
            }));
            assert(!erasure[0]);
        }
    }
    let ghost want = recovered_symbols(t@, shards);
    let mut idx: usize = 0;
    while idx < n
        invariant
            idx <= n,
            n == shards.len(),
            erasures@ == erasure,
            erasure == erasure_of(shards),
            received == received_of(shards),
            codeword@.len() == n,
            recovered@.len() == n,
            want == recovered_symbols(t@, shards),
            n >= 2 ==> codeword@ == decode_main_spec(
                t@,
                received,
                erasure,
                eval_error_polynomial_spec(t@, erasure, 65536),
                n as int,
            ),
            n < 2 ==> !erasure[0],
            forall|p: int| 0 <= p < idx ==> recovered@[p] == want[p],
            forall|p: int| idx <= p < n ==> recovered@[p] == received[p],
        decreases n - idx,
    {
        if erasures[idx] {
            let symbol: u16 = codeword[idx];
            recovered[idx] = symbol;
        }
        idx += 1;
    }
    let ghost bytes_wanted = unpack(want);
    let mut bytes: Vec<u8> = Vec::new();
    let mut idx: usize = 0;
    while idx < n
        invariant
            idx <= n,
            recovered@.len() == n,
            want.len() == n,
            bytes@.len() == 2 * idx,
            bytes_wanted == unpack(want),
            forall|p: int| 0 <= p < n ==> recovered@[p] == want[p],
            forall|j: int| 0 <= j < 2 * idx ==> bytes@[j] == bytes_wanted[j],
        decreases n - idx,
    {
        let symbol: u16 = recovered[idx];
        proof {
            lemma_byte_bits(symbol, 0, 0);
        }
        bytes.push((symbol & 0xFF) as u8);
        bytes.push((symbol >> 8) as u8);
        idx += 1;
    }
    proof {
        assert(bytes@ =~= bytes_wanted);
    }
    Ok(bytes)
}

/// Recovers the codeword of the standard code from the shards that are
/// present, as 64 bytes of which the first eight are the data. `None` where
/// there are not 32 shards, where a shard that is present does not hold
/// exactly two bytes, or where fewer than four shards are present.
pub fn reconstruct(received_shards: Vec<Option<WrappedShard>>) -> (r: Option<Vec<u8>>)
    ensures
        r is Some <==> receive_error(received_shards@, 32, 4) is None,
        r is Some ==> r->Some_0@ == unpack(recovered_symbols(codec_tables(), received_shards@)),
{
    let t = Tables::new();
    proof {
        lemma_tables_unique(t@);
    }
    match reconstruct_with(&t, received_shards, N, K) {
        Ok(bytes) => Some(bytes),
        Err(_) => None,
    }
}

} // verus!
