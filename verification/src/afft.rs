//! The additive fast Fourier transform in the novel polynomial basis, its
//! inverse, and the formal derivative of a polynomial given in that basis.

use vstd::prelude::*;
use vstd::arithmetic::div_mod::lemma_fundamental_div_mod;
use crate::gf::MODULO;
use crate::gf::FIELD_SIZE;
use crate::tables::Tables;
use crate::tables::TablesView;
use crate::tables::mul_spec;
use crate::tables::mul_table;
use crate::util::pow2;
use crate::util::lemma_block_fits;
use crate::util::lemma_block_offset;
use crate::util::lemma_pow2_double;
use crate::util::lemma_shifts;
use crate::util::lemma_pow2_divides;
use crate::util::lemma_pow2_half;

verus! {

/// The skew factor of the butterflies at distance `d` in the block that holds
/// position `p`, for a transform whose window into the table starts at `index`.
pub open spec fn block_skew(t: TablesView, p: int, d: int, index: int) -> u16 {
    t.skew[p - p % (2 * d) + d + index - 1]
}

/// `x + y * skew` in the field; a skew of `MODULO` stands for zero.
pub open spec fn twist(t: TablesView, x: u16, y: u16, skew: u16) -> u16 {
    if skew == MODULO {
        x
    } else {
        x ^ mul_spec(t, y, skew)
    }
}

/// One pass of the forward butterflies at distance `d`: the lower entry of a
/// pair takes the twisted upper one, then the upper takes the new lower one.
pub open spec fn fft_layer(t: TablesView, v: Seq<u16>, d: int, index: int) -> Seq<u16> {
    Seq::new(
        v.len(),
        |p: int|
            if p % (2 * d) < d {
                twist(t, v[p], v[p + d], block_skew(t, p, d, index))
            } else {
                v[p] ^ twist(t, v[p - d], v[p], block_skew(t, p, d, index))
            },
    )
}

/// One pass of the inverse butterflies at distance `d`: the upper entry of a
/// pair takes the lower one, then the lower takes the twisted new upper one.
pub open spec fn ifft_layer(t: TablesView, v: Seq<u16>, d: int, index: int) -> Seq<u16> {
    Seq::new(
        v.len(),
        |p: int|
            if p % (2 * d) < d {
                twist(t, v[p], v[p + d] ^ v[p], block_skew(t, p, d, index))
            } else {
                v[p] ^ v[p - d]
            },
    )
}

/// The forward passes at distances `d`, `d / 2`, ..., 1, in that order.
pub open spec fn fft_from(t: TablesView, v: Seq<u16>, d: int, index: int) -> Seq<u16>
    decreases d,
{
    if d <= 0 {
        v
    } else {
        fft_from(t, fft_layer(t, v, d, index), d / 2, index)
    }
}

/// The inverse passes at distances `d`, `2 * d`, ... below `n`, in that order.
pub open spec fn ifft_from(t: TablesView, v: Seq<u16>, d: int, n: int, index: int) -> Seq<u16>
    decreases (if n > d { n - d } else { 0 }),
{
    if d <= 0 || d >= n {
        v
    } else {
        ifft_from(t, ifft_layer(t, v, d, index), 2 * d, n, index)
    }
}

/// The transform of `v`, whose length is a power of two.
pub open spec fn fft_spec(t: TablesView, v: Seq<u16>, index: int) -> Seq<u16> {
    fft_from(t, v, v.len() as int / 2, index)
}

/// The inverse transform of `v`, whose length is a power of two.
pub open spec fn ifft_spec(t: TablesView, v: Seq<u16>, index: int) -> Seq<u16> {
    ifft_from(t, v, 1, v.len() as int, index)
}

/// Adding twice is not adding.
pub proof fn lemma_xor_cancel(x: u16, m: u16)
    by (bit_vector)
    ensures
        (x ^ m) ^ m == x,
        (m ^ x) ^ x == m,
        (m ^ (x ^ m)) == x,
{
}

/// The two entries of a pair lie in the same block.
pub proof fn lemma_pair(p: int, d: int)
    requires
        0 <= p,
        0 < d,
        p % (2 * d) < d,
    ensures
        (p + d) % (2 * d) == p % (2 * d) + d,
        (p + d) - (p + d) % (2 * d) == p - p % (2 * d),
{
    let w = 2 * d;
    let b = p / w;
    lemma_fundamental_div_mod(p, w);
    assert(w * b == b * w) by (nonlinear_arith);
    assert(0 <= b) by (nonlinear_arith)
        requires
            0 <= p,
            0 < w,
            b == p / w,
    ;
    lemma_block_offset(b, w, p % w + d);
}

/// A pass of inverse butterflies undoes the pass of forward butterflies at
/// the same distance.
proof fn lemma_layer_inverse(t: TablesView, v: Seq<u16>, d: int, index: int)
    requires
        0 < d,
        (v.len() as int) % (2 * d) == 0,
    ensures
        ifft_layer(t, fft_layer(t, v, d, index), d, index) == v,
{
    let f = fft_layer(t, v, d, index);
    let g = ifft_layer(t, f, d, index);
    let n = v.len() as int;
    assert forall|p: int| 0 <= p < n implies g[p] == v[p] by {
        let w = 2 * d;
        let b = p / w;
        lemma_fundamental_div_mod(p, w);
        assert(w * b == b * w) by (nonlinear_arith);
        let q = n / w;
        lemma_fundamental_div_mod(n, w);
        assert(w * q == q * w) by (nonlinear_arith);
        assert(b < q) by (nonlinear_arith)
            requires
                b * w + p % w == p,
                0 <= p % w,
                p < n,
                n == q * w,
                0 < w,
        ;
        assert((b + 1) * w <= q * w) by (nonlinear_arith)
            requires
                b + 1 <= q,
                0 < w,
        ;
        assert((b + 1) * w == b * w + w) by (nonlinear_arith);
        let lo = if p % w < d { p } else { p - d };
        assert(0 <= lo && lo + d < n && lo % w < d) by {
            if p % w >= d {
                assert(0 <= b) by (nonlinear_arith)
                    requires
                        0 <= p,
                        0 < w,
                        b == p / w,
                ;
                lemma_block_offset(b, w, p % w - d);
            }
        }
        lemma_pair(lo, d);
        let skew = block_skew(t, lo, d, index);
        assert(block_skew(t, lo + d, d, index) == skew);
        let a1 = twist(t, v[lo], v[lo + d], skew);
        assert(f[lo] == a1);
        assert(f[lo + d] == v[lo + d] ^ a1);
        lemma_xor_cancel(v[lo + d], a1);
        if skew != MODULO {
            lemma_xor_cancel(v[lo], mul_spec(t, v[lo + d], skew));
        }
    }
    assert(g =~= v);
}

/// The forward passes keep the length.
pub proof fn lemma_fft_from_len(t: TablesView, v: Seq<u16>, d: int, index: int)
    ensures
        fft_from(t, v, d, index).len() == v.len(),
    decreases d,
{
    if d > 0 {
        lemma_fft_from_len(t, fft_layer(t, v, d, index), d / 2, index);
    }
}

/// The inverse passes keep the length.
pub proof fn lemma_ifft_from_len(t: TablesView, v: Seq<u16>, d: int, n: int, index: int)
    ensures
        ifft_from(t, v, d, n, index).len() == v.len(),
    decreases (if n > d { n - d } else { 0 }),
{
    if !(d <= 0 || d >= n) {
        lemma_ifft_from_len(t, ifft_layer(t, v, d, index), 2 * d, n, index);
    }
}

/// The transforms keep the length.
pub proof fn lemma_transform_len(t: TablesView, v: Seq<u16>, index: int)
    ensures
        fft_spec(t, v, index).len() == v.len(),
        ifft_spec(t, v, index).len() == v.len(),
{
    lemma_fft_from_len(t, v, v.len() as int / 2, index);
    lemma_ifft_from_len(t, v, 1, v.len() as int, index);
}

/// The inverse passes from distance 1 on, applied after the forward passes
/// from distance `d` down, leave the inverse passes from `2 * d` on.
proof fn lemma_passes_cancel(t: TablesView, v: Seq<u16>, d: int, index: int)
    requires
        pow2(d),
        pow2(v.len() as int),
        d < v.len(),
    ensures
        ifft_from(t, fft_from(t, v, d, index), 1, v.len() as int, index) == ifft_from(
            t,
            v,
            2 * d,
            v.len() as int,
            index,
        ),
    decreases d,
{
    let n = v.len() as int;
    lemma_pow2_divides(d, n);
    let l = fft_layer(t, v, d, index);
    lemma_layer_inverse(t, v, d, index);
    if d == 1 {
        assert(fft_from(t, l, 0, index) == l);
        assert(fft_from(t, v, 1, index) == l);
        assert(ifft_from(t, l, 1, n, index) == ifft_from(
            t,
            ifft_layer(t, l, 1, index),
            2,
            n,
            index,
        ));
    } else {
        let h = d / 2;
        lemma_pow2_half(d);
        lemma_passes_cancel(t, l, h, index);
        assert(fft_from(t, v, d, index) == fft_from(t, l, h, index));
        assert(ifft_from(t, l, d, n, index) == ifft_from(
            t,
            ifft_layer(t, l, d, index),
            2 * d,
            n,
            index,
        ));
    }
}

/// The inverse transform undoes the transform, for every window into the skew
/// table and whatever the tables hold.
pub proof fn lemma_ifft_inverts_fft(t: TablesView, v: Seq<u16>, index: int)
    requires
        pow2(v.len() as int),
    ensures
        ifft_spec(t, fft_spec(t, v, index), index) == v,
{
    let n = v.len() as int;
    if n == 1 {
        assert(fft_from(t, v, 0, index) == v);
        assert(ifft_from(t, v, 1, 1, index) == v);
    } else {
        lemma_pow2_half(n);
        lemma_passes_cancel(t, v, n / 2, index);
        lemma_fft_from_len(t, v, n / 2, index);
    }
}


/// The entries of `data` from `size` on are those of `whole`.
spec fn tail_kept(data: Seq<u16>, whole: Seq<u16>, size: int) -> bool {
    &&& data.len() == whole.len()
    &&& forall|p: int| size <= p < whole.len() ==> data[p] == whole[p]
}

/// Inverse transform of the first `size` entries, in place, with the window
/// into the skew table starting at `index`.
pub fn inverse_fft_in_novel_poly_basis(t: &Tables, data: &mut [u16], size: usize, index: usize)
    requires
        pow2(size as int),
        size <= old(data)@.len(),
        size + index <= 65536,
    ensures
        final(data)@.len() == old(data)@.len(),
        final(data)@.subrange(0, size as int) == ifft_spec(
            t@,
            old(data)@.subrange(0, size as int),
            index as int,
        ),
        final(data)@.subrange(size as int, old(data)@.len() as int) == old(data)@.subrange(
            size as int,
            old(data)@.len() as int,
        ),
{
    proof {
        use_type_invariant(t);
    }
    let ghost whole = data@;
    let ghost orig = data@.subrange(0, size as int);
    let mut depart_no: usize = 1;
    while depart_no < size
        invariant
            t@.sized(),
            pow2(depart_no as int),
            pow2(size as int),
            depart_no <= size,
            size <= data@.len(),
            size + index <= 65536,
            orig.len() == size,
            tail_kept(data@, whole, size as int),
            ifft_from(t@, data@.subrange(0, size as int), depart_no as int, size as int, index as int)
                == ifft_spec(t@, orig, index as int),
        decreases size - depart_no,
    {
        let ghost prev = data@.subrange(0, size as int);
        let ghost layer = ifft_layer(t@, prev, depart_no as int, index as int);
        proof {
            lemma_pow2_divides(depart_no as int, size as int);
            lemma_pow2_double(depart_no as int);
            lemma_shifts(depart_no);
        }
        let width: usize = depart_no << 1;
        let mut j: usize = depart_no;
        let ghost mut blocks: int = 0;
        while j < size
            invariant
                t@.sized(),
                0 < depart_no,
                width == 2 * depart_no,
                j == blocks * width + depart_no,
                0 <= blocks,
                j <= size + depart_no,
                size as int % width as int == 0,
                size <= data@.len(),
                size + index <= 65536,
                prev.len() == size,
                layer == ifft_layer(t@, prev, depart_no as int, index as int),
                tail_kept(data@, whole, size as int),
                forall|p: int| 0 <= p < j - depart_no ==> data@[p] == layer[p],
                forall|p: int| j - depart_no <= p < size ==> data@[p] == prev[p],
            decreases size + depart_no - j,
        {
            proof {
                lemma_block_fits(blocks, width as int, size as int);
            }
            let ghost base: int = j - depart_no;
            let mut i: usize = j - depart_no;
            while i < j
                invariant
                    0 < depart_no,
                    width == 2 * depart_no,
                    base == blocks * width,
                    base == j - depart_no,
                    0 <= blocks,
                    base <= i <= j,
                    j + depart_no <= size,
                    size <= data@.len(),
                    prev.len() == size,
                    layer == ifft_layer(t@, prev, depart_no as int, index as int),
                    tail_kept(data@, whole, size as int),
                    forall|p: int| 0 <= p < base ==> data@[p] == layer[p],
                    forall|p: int| base <= p < j ==> data@[p] == prev[p],
                    forall|p: int| j <= p < i + depart_no ==> data@[p] == layer[p],
                    forall|p: int| i + depart_no <= p < size ==> data@[p] == prev[p],
                decreases j - i,
            {
                proof {
                    lemma_block_offset(blocks, width as int, i - base + depart_no);
                }
                let lower: u16 = data[i];
                let upper: u16 = data[i + depart_no];
                data[i + depart_no] = upper ^ lower;
                i += 1;
            }
            let skew: u16 = t.skew_at(j + index - 1);
            if skew != MODULO {
                let mut i: usize = j - depart_no;
                while i < j
                    invariant
                        t@.sized(),
                        skew != MODULO,
                        1 <= j + index <= 65535,
                        1 <= j + index <= 65535,
                    skew == t@.skew[j + index - 1],
                        0 < depart_no,
                        width == 2 * depart_no,
                        base == blocks * width,
                        base == j - depart_no,
                        0 <= blocks,
                        base <= i <= j,
                        j + depart_no <= size,
                        size <= data@.len(),
                        prev.len() == size,
                        layer == ifft_layer(t@, prev, depart_no as int, index as int),
                        tail_kept(data@, whole, size as int),
                        forall|p: int| 0 <= p < i ==> data@[p] == layer[p],
                        forall|p: int| i <= p < j ==> data@[p] == prev[p],
                        forall|p: int| j <= p < j + depart_no ==> data@[p] == layer[p],
                        forall|p: int| j + depart_no <= p < size ==> data@[p] == prev[p],
                    decreases j - i,
                {
                    proof {
                        lemma_block_offset(blocks, width as int, i - base);
                        lemma_block_offset(blocks, width as int, i - base + depart_no);
                    }
                    let lower: u16 = data[i];
                    let upper: u16 = data[i + depart_no];
                    proof {
                        let p = i + depart_no;
                        assert(p % (2 * depart_no as int) == i - base + depart_no);
                        assert(i as int % (2 * depart_no as int) == i - base);
                        assert(block_skew(t@, i as int, depart_no as int, index as int) == skew);
                        assert(upper == layer[p]);
                        assert(layer[p] == prev[p] ^ prev[i as int]);
                        assert(layer[i as int] == twist(t@, prev[i as int], prev[p] ^ prev[i as int], skew));
                    }
                    data[i] = lower ^ mul_table(t, upper, skew);
                    i += 1;
                }
            } else {
                proof {
                    assert forall|p: int| base <= p < j implies data@[p] == layer[p] by {
                        lemma_block_offset(blocks, width as int, p - base);
                    }
                }
            }
            j += width;
            proof {
                blocks = blocks + 1;
                assert((blocks - 1) * width + width == blocks * width) by (nonlinear_arith);
            }
        }
        proof {
            if blocks * width < size {
                lemma_block_fits(blocks, width as int, size as int);
            }
            assert(data@.subrange(0, size as int) =~= layer);
        }
        depart_no = width;
    }
    proof {
        assert(final(data)@.subrange(size as int, whole.len() as int) =~= whole.subrange(
            size as int,
            whole.len() as int,
        ));
    }
}

/// Transform of the first `size` entries, in place, with the window into the
/// skew table starting at `index`.
pub fn fft_in_novel_poly_basis(t: &Tables, data: &mut [u16], size: usize, index: usize)
    requires
        pow2(size as int),
        size <= old(data)@.len(),
        size + index <= 65536,
    ensures
        final(data)@.len() == old(data)@.len(),
        final(data)@.subrange(0, size as int) == fft_spec(
            t@,
            old(data)@.subrange(0, size as int),
            index as int,
        ),
        final(data)@.subrange(size as int, old(data)@.len() as int) == old(data)@.subrange(
            size as int,
            old(data)@.len() as int,
        ),
{
    proof {
        use_type_invariant(t);
    }
    let ghost whole = data@;
    let ghost orig = data@.subrange(0, size as int);
    proof {
        lemma_shifts(size);
        if size > 1 {
            lemma_pow2_half(size as int);
        }
    }
    let mut depart_no: usize = size >> 1_usize;
    while depart_no > 0
        invariant
            t@.sized(),
            depart_no == 0 || pow2(depart_no as int),
            pow2(size as int),
            depart_no < size,
            size <= data@.len(),
            size + index <= 65536,
            orig.len() == size,
            tail_kept(data@, whole, size as int),
            fft_from(t@, data@.subrange(0, size as int), depart_no as int, index as int) == fft_spec(
                t@,
                orig,
                index as int,
            ),
        decreases depart_no,
    {
        let ghost prev = data@.subrange(0, size as int);
        let ghost layer = fft_layer(t@, prev, depart_no as int, index as int);
        proof {
            lemma_pow2_divides(depart_no as int, size as int);
            lemma_shifts(depart_no);
        }
        let width: usize = depart_no << 1;
        let mut j: usize = depart_no;
        let ghost mut blocks: int = 0;
        while j < size
            invariant
                t@.sized(),
                0 < depart_no,
                width == 2 * depart_no,
                j == blocks * width + depart_no,
                0 <= blocks,
                j <= size + depart_no,
                size as int % width as int == 0,
                size <= data@.len(),
                size + index <= 65536,
                prev.len() == size,
                layer == fft_layer(t@, prev, depart_no as int, index as int),
                tail_kept(data@, whole, size as int),
                forall|p: int| 0 <= p < j - depart_no ==> data@[p] == layer[p],
                forall|p: int| j - depart_no <= p < size ==> data@[p] == prev[p],
            decreases size + depart_no - j,
        {
            proof {
                lemma_block_fits(blocks, width as int, size as int);
            }
            let ghost base: int = j - depart_no;
            let skew: u16 = t.skew_at(j + index - 1);
            if skew != MODULO {
                let mut i: usize = j - depart_no;
                while i < j
                    invariant
                        t@.sized(),
                        skew != MODULO,
                        1 <= j + index <= 65535,
                        1 <= j + index <= 65535,
                    skew == t@.skew[j + index - 1],
                        0 < depart_no,
                        width == 2 * depart_no,
                        base == blocks * width,
                        base == j - depart_no,
                        0 <= blocks,
                        base <= i <= j,
                        j + depart_no <= size,
                        size <= data@.len(),
                        prev.len() == size,
                        layer == fft_layer(t@, prev, depart_no as int, index as int),
                        tail_kept(data@, whole, size as int),
                        forall|p: int| 0 <= p < i ==> data@[p] == layer[p],
                        forall|p: int| i <= p < size ==> data@[p] == prev[p],
                    decreases j - i,
                {
                    proof {
                        lemma_block_offset(blocks, width as int, i - base);
                    }
                    let lower: u16 = data[i];
                    let upper: u16 = data[i + depart_no];
                    data[i] = lower ^ mul_table(t, upper, skew);
                    i += 1;
                }
            } else {
                proof {
                    assert forall|p: int| base <= p < j implies data@[p] == layer[p] by {
                        lemma_block_offset(blocks, width as int, p - base);
                    }
                }
            }
            let mut i: usize = j - depart_no;
            while i < j
                invariant
                    t@.sized(),
                    1 <= j + index <= 65535,
                    skew == t@.skew[j + index - 1],
                    0 < depart_no,
                    width == 2 * depart_no,
                    base == blocks * width,
                    base == j - depart_no,
                    0 <= blocks,
                    base <= i <= j,
                    j + depart_no <= size,
                    size <= data@.len(),
                    prev.len() == size,
                    layer == fft_layer(t@, prev, depart_no as int, index as int),
                    tail_kept(data@, whole, size as int),
                    forall|p: int| 0 <= p < j ==> data@[p] == layer[p],
                    forall|p: int| j <= p < i + depart_no ==> data@[p] == layer[p],
                    forall|p: int| i + depart_no <= p < size ==> data@[p] == prev[p],
                decreases j - i,
            {
                proof {
                    lemma_block_offset(blocks, width as int, i - base);
                    lemma_block_offset(blocks, width as int, i - base + depart_no);
                }
                let lower: u16 = data[i];
                let upper: u16 = data[i + depart_no];
                proof {
                    let p = i + depart_no;
                    assert(p % (2 * depart_no as int) == i - base + depart_no);
                    assert(i as int % (2 * depart_no as int) == i - base);
                    assert(lower == layer[i as int]);
                    assert(upper == prev[p]);
                    assert(block_skew(t@, p, depart_no as int, index as int) == skew);
                    assert(block_skew(t@, i as int, depart_no as int, index as int) == skew);
                    assert(layer[i as int] == twist(t@, prev[i as int], prev[p], skew));
                    assert(layer[p] == prev[p] ^ twist(t@, prev[p - depart_no], prev[p], skew));
                    assert(layer[p] == upper ^ lower);
                }
                data[i + depart_no] = upper ^ lower;
                i += 1;
            }
            j += width;
            proof {
                blocks = blocks + 1;
                assert((blocks - 1) * width + width == blocks * width) by (nonlinear_arith);
            }
        }
        proof {
            if blocks * width < size {
                lemma_block_fits(blocks, width as int, size as int);
            }
            assert(data@.subrange(0, size as int) =~= layer);
            if depart_no > 1 {
                lemma_pow2_half(depart_no as int);
            }
        }
        depart_no >>= 1;
    }
    proof {
        assert(final(data)@.subrange(size as int, whole.len() as int) =~= whole.subrange(
            size as int,
            whole.len() as int,
        ));
    }
}


/// A pass of forward butterflies undoes the pass of inverse butterflies at
/// the same distance.
proof fn lemma_layer_inverse_back(t: TablesView, v: Seq<u16>, d: int, index: int)
    requires
        0 < d,
        (v.len() as int) % (2 * d) == 0,
    ensures
        fft_layer(t, ifft_layer(t, v, d, index), d, index) == v,
{
    let f = ifft_layer(t, v, d, index);
    let g = fft_layer(t, f, d, index);
    let n = v.len() as int;
    assert forall|p: int| 0 <= p < n implies g[p] == v[p] by {
        let w = 2 * d;
        let b = p / w;
        lemma_fundamental_div_mod(p, w);
        assert(w * b == b * w) by (nonlinear_arith);
        assert(0 <= b) by (nonlinear_arith)
            requires
                0 <= p,
                0 < w,
                b == p / w,
        ;
        lemma_block_fits(b, w, n);
        let lo = if p % w < d { p } else { p - d };
        assert(0 <= lo && lo + d < n && lo % w < d) by {
            if p % w >= d {
                lemma_block_offset(b, w, p % w - d);
            }
        }
        lemma_pair(lo, d);
        let skew = block_skew(t, lo, d, index);
        assert(block_skew(t, lo + d, d, index) == skew);
        let b1 = v[lo + d] ^ v[lo];
        assert(f[lo + d] == b1);
        assert(f[lo] == twist(t, v[lo], b1, skew));
        lemma_xor_cancel(v[lo + d], v[lo]);
        if skew != MODULO {
            lemma_xor_cancel(v[lo], mul_spec(t, b1, skew));
        }
    }
    assert(g =~= v);
}

/// The forward passes from `n / 2` down, applied after the inverse passes
/// from distance `d` up, leave the forward passes from `d / 2` down.
proof fn lemma_passes_cancel_back(t: TablesView, v: Seq<u16>, d: int, index: int)
    requires
        pow2(d),
        pow2(v.len() as int),
        d <= v.len(),
    ensures
        fft_from(t, ifft_from(t, v, d, v.len() as int, index), v.len() as int / 2, index)
            == fft_from(t, v, d / 2, index),
    decreases v.len() - d,
{
    let n = v.len() as int;
    if d < n {
        lemma_pow2_divides(d, n);
        lemma_pow2_double(d);
        let l = ifft_layer(t, v, d, index);
        lemma_layer_inverse_back(t, v, d, index);
        lemma_passes_cancel_back(t, l, 2 * d, index);
        assert(ifft_from(t, v, d, n, index) == ifft_from(t, l, 2 * d, n, index));
        assert(fft_from(t, l, d, index) == fft_from(t, fft_layer(t, l, d, index), d / 2, index));
    }
}

/// The transform undoes the inverse transform, for every window into the skew
/// table and whatever the tables hold.
pub proof fn lemma_fft_inverts_ifft(t: TablesView, v: Seq<u16>, index: int)
    requires
        pow2(v.len() as int),
    ensures
        fft_spec(t, ifft_spec(t, v, index), index) == v,
{
    lemma_passes_cancel_back(t, v, 1, index);
    lemma_ifft_from_len(t, v, 1, v.len() as int, index);
    assert(fft_from(t, v, 0, index) == v);
}

/// The largest power of two that divides `i`.
pub open spec fn low_bit(i: int) -> int
    decreases i,
{
    if i <= 0 || i % 2 == 1 {
        1
    } else {
        2 * low_bit(i / 2)
    }
}

/// Entry `p` of `v`, or zero where `v` has no such entry.
pub open spec fn get_or_zero(v: Seq<u16>, p: int) -> u16 {
    if 0 <= p < v.len() {
        v[p]
    } else {
        0
    }
}

/// Step `i` of the derivative: with `l` the largest power of two dividing
/// `i`, the `l` entries below `i` each take the entry `l` places above.
pub open spec fn derivative_step(v: Seq<u16>, i: int) -> Seq<u16> {
    Seq::new(
        v.len(),
        |j: int|
            if i - low_bit(i) <= j < i {
                v[j] ^ get_or_zero(v, j + low_bit(i))
            } else {
                v[j]
            },
    )
}

/// Steps `i`, `i + 1`, ... below `size`, in that order.
pub open spec fn derivative_steps(v: Seq<u16>, i: int, size: int) -> Seq<u16>
    decreases (if size > i { size - i } else { 0 }),
{
    if i >= size {
        v
    } else {
        derivative_steps(derivative_step(v, i), i + 1, size)
    }
}

/// The first `size` entries each take the entry `i` places above.
pub open spec fn derivative_wrap(v: Seq<u16>, size: int, i: int) -> Seq<u16> {
    Seq::new(
        v.len(),
        |j: int|
            if j < size {
                v[j] ^ get_or_zero(v, j + i)
            } else {
                v[j]
            },
    )
}

/// The wraps at distances `i`, `2 * i`, ... below both the field size and the
/// length of `v`, in that order.
pub open spec fn derivative_wraps(v: Seq<u16>, size: int, i: int) -> Seq<u16>
    decreases (if 65536 > i { 65536 - i } else { 0 }),
{
    if i <= 0 || i >= 65536 || i >= v.len() {
        v
    } else {
        derivative_wraps(derivative_wrap(v, size, i), size, 2 * i)
    }
}

/// The formal derivative of the polynomial whose coefficients in the novel
/// basis are `v`, taken over the first `size` of them.
pub open spec fn formal_derivative_spec(v: Seq<u16>, size: int) -> Seq<u16> {
    derivative_wraps(derivative_steps(v, 1, size), size, size)
}

proof fn lemma_steps_len(v: Seq<u16>, i: int, size: int)
    ensures
        derivative_steps(v, i, size).len() == v.len(),
    decreases (if size > i { size - i } else { 0 }),
{
    if i < size {
        lemma_steps_len(derivative_step(v, i), i + 1, size);
    }
}

proof fn lemma_wraps_len(v: Seq<u16>, size: int, i: int)
    ensures
        derivative_wraps(v, size, i).len() == v.len(),
    decreases (if 65536 > i { 65536 - i } else { 0 }),
{
    if !(i <= 0 || i >= 65536 || i >= v.len()) {
        lemma_wraps_len(derivative_wrap(v, size, i), size, 2 * i);
    }
}

/// The derivative keeps the length.
pub proof fn lemma_derivative_len(v: Seq<u16>, size: int)
    ensures
        formal_derivative_spec(v, size).len() == v.len(),
{
    lemma_steps_len(v, 1, size);
    lemma_wraps_len(derivative_steps(v, 1, size), size, size);
}

proof fn lemma_low_bit_step(i: usize)
    by (bit_vector)
    requires
        0 < i <= 0x4000_0000,
    ensures
        i % 2 == 1 ==> ((i ^ ((i - 1) as usize)) + 1) as usize >> 1 == 1,
        i % 2 == 0 ==> ((i ^ ((i - 1) as usize)) + 1) as usize >> 1 == 2 * ((((i / 2) ^ ((i / 2
            - 1) as usize)) + 1) as usize >> 1),
        i ^ ((i - 1) as usize) <= 0x7FFF_FFFF,
        i % 2 == 0 ==> i / 2 > 0,
{
}

proof fn lemma_low_bit(i: usize)
    requires
        0 < i <= 0x4000_0000,
    ensures
        ((i ^ ((i - 1) as usize)) + 1) as usize >> 1 == low_bit(i as int),
        1 <= low_bit(i as int) <= i,
        i ^ ((i - 1) as usize) <= 0x7FFF_FFFF,
    decreases i,
{
    lemma_low_bit_step(i);
    if i % 2 == 0 {
        lemma_low_bit((i / 2) as usize);
    }
}

/// Formal derivative, in place, of the polynomial whose coefficients in the
/// novel basis are in `cos`.
pub fn formal_derivative(cos: &mut [u16], size: usize)
    requires
        size <= old(cos)@.len() + 1,
        size > 0 || old(cos)@.len() == 0,
        size <= 0x4000_0000,
    ensures
        final(cos)@ == formal_derivative_spec(old(cos)@, size as int),
{
    let len: usize = cos.len();
    let ghost orig = cos@;
    let mut i: usize = 1;
    while i < size
        invariant
            1 <= i,
            size <= len + 1,
            size <= 0x4000_0000,
            len == cos@.len(),
            derivative_steps(cos@, i as int, size as int) == derivative_steps(orig, 1, size as int),
        decreases size - i,
    {
        proof {
            lemma_low_bit(i);
        }
        let below: usize = i - 1;
        assert(i ^ below <= 0x7FFF_FFFF);
        let length: usize = ((i ^ below) + 1) >> 1;
        let ghost prev = cos@;
        let ghost step = derivative_step(prev, i as int);
        let mut j: usize = i - length;
        while j < i
            invariant
                i - length <= j <= i,
                1 <= length <= i,
                length == low_bit(i as int),
                i < size,
                size <= len + 1,
                size <= 0x4000_0000,
                len == cos@.len(),
                prev.len() == len,
                step == derivative_step(prev, i as int),
                forall|p: int| 0 <= p < j ==> cos@[p] == step[p],
                forall|p: int| j <= p < len ==> cos@[p] == prev[p],
            decreases i - j,
        {
            let other: u16 = if j + length < len {
                cos[j + length]
            } else {
                0u16
            };
            let here: u16 = cos[j];
            cos[j] = here ^ other;
            j += 1;
        }
        proof {
            assert(cos@ =~= step);
        }
        i += 1;
    }
    let ghost mid = cos@;
    let mut i: usize = size;
    while i < FIELD_SIZE && i < len
        invariant
            size <= i,
            size > 0 || len == 0,
            len == cos@.len(),
            derivative_wraps(cos@, size as int, i as int) == derivative_wraps(
                mid,
                size as int,
                size as int,
            ),
        decreases (if i < 65536 { 65536 - i } else { 0 }),
    {
        let ghost prev = cos@;
        let ghost wrapped = derivative_wrap(prev, size as int, i as int);
        let mut j: usize = 0;
        while j < size
            invariant
                j <= size <= i,
                i < 65536,
                i < len,
                len == cos@.len(),
                prev.len() == len,
                wrapped == derivative_wrap(prev, size as int, i as int),
                forall|p: int| 0 <= p < j ==> cos@[p] == wrapped[p],
                forall|p: int| j <= p < len ==> cos@[p] == prev[p],
            decreases size - j,
        {
            let other: u16 = if j + i < len {
                cos[j + i]
            } else {
                0u16
            };
            let here: u16 = cos[j];
            cos[j] = here ^ other;
            j += 1;
        }
        proof {
            assert(cos@ =~= wrapped);
            lemma_shifts(i);
        }
        i <<= 1;
    }
}

} // verus!
