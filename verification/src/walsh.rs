//! The Walsh-Hadamard transform over the integers modulo 2^16 - 1.
//!
//! Residues are kept in sixteen bits with end-around carry, so that both 0 and
//! 65535 stand for the residue zero.

use vstd::prelude::*;
use crate::util::pow2;
use crate::util::lemma_pow2_double;
use crate::util::lemma_block_offset;
use crate::util::lemma_pow2_divides;

verus! {

/// The modulus of the ring in which the transform works, `2^16 - 1`.
pub use crate::gf::MODULO;

/// End-around carry: brings a sum of two sixteen-bit values back to sixteen bits
/// without changing its residue modulo `2^16 - 1`.
pub open spec fn fold(s: int) -> int {
    if s < 65536 {
        s
    } else {
        s - 65535
    }
}

/// Sum of two residues.
pub open spec fn fold_add(x: u16, y: u16) -> u16 {
    fold(x + y) as u16
}

/// Difference of two residues.
pub open spec fn fold_sub(x: u16, y: u16) -> u16 {
    fold(x + 65535 - y) as u16
}

/// The transform of a sequence whose length is a power of two: the transforms
/// of the two halves, added in the lower half and subtracted in the upper.
pub open spec fn walsh_spec(v: Seq<u16>) -> Seq<u16>
    decreases v.len(),
{
    if v.len() <= 1 {
        v
    } else {
        let h = (v.len() / 2) as int;
        let x = walsh_spec(v.subrange(0, h));
        let y = walsh_spec(v.subrange(h, v.len() as int));
        Seq::new(
            v.len(),
            |i: int|
                if i < h {
                    fold_add(x[i], y[i])
                } else {
                    fold_sub(x[i - h], y[i - h])
                },
        )
    }
}

/// One pass of butterflies at distance `d` over the whole sequence.
pub open spec fn walsh_layer(v: Seq<u16>, d: int) -> Seq<u16> {
    Seq::new(
        v.len(),
        |p: int|
            if p % (2 * d) < d {
                fold_add(v[p], v[p + d])
            } else {
                fold_sub(v[p - d], v[p])
            },
    )
}

/// The passes at distances 1, 2, 4, ... below `d`, in that order.
pub open spec fn walsh_upto(v: Seq<u16>, d: int) -> Seq<u16>
    decreases d,
{
    if d <= 1 {
        v
    } else {
        walsh_layer(walsh_upto(v, d / 2), d / 2)
    }
}

/// End-around carry in bit operations.
pub proof fn lemma_fold_bits(s: u32)
    by (bit_vector)
    requires
        s <= 131070,
    ensures
        (s & 65535) + (s >> 16) == (if s < 65536 { s } else { (s - 65535) as u32 }),
        (s & 65535) + (s >> 16) <= 65535,
{
}

/// After the passes below `d`, every aligned block of `d` entries holds the
/// transform of the same block of the input.
proof fn lemma_upto_blocks(v: Seq<u16>, d: int, b: int)
    requires
        pow2(d),
        pow2(v.len() as int),
        d <= v.len(),
        0 <= b,
        (b + 1) * d <= v.len(),
    ensures
        walsh_upto(v, d).len() == v.len(),
        walsh_upto(v, d).subrange(b * d, b * d + d) == walsh_spec(v.subrange(b * d, b * d + d)),
    decreases d,
{
    let n = v.len() as int;
    assert((b + 1) * d == b * d + d) by (nonlinear_arith);
    assert(0 <= b * d) by (nonlinear_arith)
        requires
            0 <= b,
            0 < d,
    ;
    if d <= 1 {
        assert(walsh_upto(v, d) == v);
    } else {
        let h = d / 2;
        assert(pow2(h) && 2 * h == d);
        let u = walsh_upto(v, h);
        let s = b * d;
        assert(s == (2 * b) * h) by (nonlinear_arith)
            requires
                s == b * d,
                d == 2 * h,
        ;
        assert(s + h == (2 * b + 1) * h) by (nonlinear_arith)
            requires
                s == b * d,
                d == 2 * h,
        ;
        assert((2 * b + 2) * h == s + d) by (nonlinear_arith)
            requires
                s == b * d,
                d == 2 * h,
        ;
        lemma_upto_blocks(v, h, 2 * b);
        lemma_upto_blocks(v, h, 2 * b + 1);
        let blk = v.subrange(s, s + d);
        let lo = v.subrange(s, s + h);
        let hi = v.subrange(s + h, s + d);
        assert(blk.subrange(0, h) =~= lo);
        assert(blk.subrange(h, d) =~= hi);
        let x = walsh_spec(lo);
        let y = walsh_spec(hi);
        assert(u.subrange(s, s + h) == x);
        assert(u.subrange(s + h, s + d) == y);
        let out = walsh_layer(u, h).subrange(s, s + d);
        let want = walsh_spec(blk);
        assert(blk.len() == d);
        assert(want.len() == d);
        assert forall|i: int| 0 <= i < d implies out[i] == want[i] by {
            lemma_block_offset(b, d, i);
            if i < h {
                assert(u[s + i] == u.subrange(s, s + h)[i]);
                assert(u[s + i + h] == u.subrange(s + h, s + d)[i]);
            } else {
                assert(u[s + i - h] == u.subrange(s, s + h)[i - h]);
                assert(u[s + i] == u.subrange(s + h, s + d)[i - h]);
            }
        }
        assert(out =~= want);
    }
}

/// The passes up to the full length compute the transform.
pub proof fn lemma_upto_is_spec(v: Seq<u16>)
    requires
        pow2(v.len() as int),
    ensures
        walsh_upto(v, v.len() as int) == walsh_spec(v),
{
    let n = v.len() as int;
    assert((0 + 1) * n == n) by (nonlinear_arith);
    assert(0 * n == 0) by (nonlinear_arith);
    lemma_upto_blocks(v, n, 0);
    assert(walsh_upto(v, n).subrange(0, n) =~= walsh_upto(v, n));
    assert(v.subrange(0, n) =~= v);
}

/// The transform keeps the length.
pub proof fn lemma_walsh_len(v: Seq<u16>)
    ensures
        walsh_spec(v).len() == v.len(),
    decreases v.len(),
{
    if v.len() > 1 {
        let h = (v.len() / 2) as int;
        lemma_walsh_len(v.subrange(0, h));
        lemma_walsh_len(v.subrange(h, v.len() as int));
    }
}

/// Equality of residues modulo `2^16 - 1`.
#[verifier::opaque]
spec fn cong(x: int, y: int) -> bool {
    x % 65535 == y % 65535
}

proof fn lemma_cong_trans(x: int, y: int, z: int)
    requires
        cong(x, y),
        cong(y, z),
    ensures
        cong(x, z),
        cong(z, x),
{
    reveal(cong);
}

proof fn lemma_cong_add(x: int, x2: int, y: int, y2: int)
    requires
        cong(x, x2),
        cong(y, y2),
    ensures
        cong(x + y, x2 + y2),
        cong(x - y, x2 - y2),
{
    reveal(cong);
    vstd::arithmetic::div_mod::lemma_add_mod_noop(x, y, 65535);
    vstd::arithmetic::div_mod::lemma_add_mod_noop(x2, y2, 65535);
    vstd::arithmetic::div_mod::lemma_sub_mod_noop(x, y, 65535);
    vstd::arithmetic::div_mod::lemma_sub_mod_noop(x2, y2, 65535);
}

proof fn lemma_fold_residue(x: u16, y: u16)
    ensures
        cong(fold_add(x, y) as int, x + y),
        cong(fold_sub(x, y) as int, x - y),
{
    reveal(cong);
}

/// Congruent to the sum, or for `sign == -1` the difference, of `a` and `b`.
spec fn combines(c: int, a: int, b: int, sign: int) -> bool {
    if sign == 1 {
        cong(c, a + b)
    } else {
        cong(c, a - b)
    }
}

/// The transform is additive modulo `2^16 - 1`: where `c` is congruent to
/// `a + b` entry by entry (to `a - b` for `sign == -1`), so are the transforms.
proof fn lemma_walsh_additive(a: Seq<u16>, b: Seq<u16>, c: Seq<u16>, sign: int)
    requires
        pow2(a.len() as int),
        a.len() == b.len(),
        a.len() == c.len(),
        sign == 1 || sign == -1,
        forall|i: int| 0 <= i < a.len() ==> combines(c[i] as int, a[i] as int, b[i] as int, sign),
    ensures
        forall|i: int|
            0 <= i < a.len() ==> combines(
                walsh_spec(c)[i] as int,
                walsh_spec(a)[i] as int,
                walsh_spec(b)[i] as int,
                sign,
            ),
    decreases a.len(),
{
    let n = a.len() as int;
    if n > 1 {
        let h = n / 2;
        let (al, ah) = (a.subrange(0, h), a.subrange(h, n));
        let (bl, bh) = (b.subrange(0, h), b.subrange(h, n));
        let (cl, ch) = (c.subrange(0, h), c.subrange(h, n));
        lemma_walsh_additive(al, bl, cl, sign);
        lemma_walsh_additive(ah, bh, ch, sign);
        lemma_walsh_len(al);
        lemma_walsh_len(ah);
        lemma_walsh_len(bl);
        lemma_walsh_len(bh);
        lemma_walsh_len(cl);
        lemma_walsh_len(ch);
        assert forall|i: int| 0 <= i < n implies combines(
            walsh_spec(c)[i] as int,
            walsh_spec(a)[i] as int,
            walsh_spec(b)[i] as int,
            sign,
        ) by {
            let k = if i < h { i } else { i - h };
            let (a1, a2) = (walsh_spec(al)[k], walsh_spec(ah)[k]);
            let (b1, b2) = (walsh_spec(bl)[k], walsh_spec(bh)[k]);
            let (c1, c2) = (walsh_spec(cl)[k], walsh_spec(ch)[k]);
            assert(combines(c1 as int, a1 as int, b1 as int, sign));
            assert(combines(c2 as int, a2 as int, b2 as int, sign));
            lemma_fold_residue(a1, a2);
            lemma_fold_residue(b1, b2);
            lemma_fold_residue(c1, c2);
            lemma_butterfly_additive(
                walsh_spec(c)[i] as int,
                walsh_spec(a)[i] as int,
                walsh_spec(b)[i] as int,
                a1 as int,
                a2 as int,
                b1 as int,
                b2 as int,
                c1 as int,
                c2 as int,
                sign,
                i < h,
            );
        }
    }
}

proof fn lemma_butterfly_additive(
    wc: int,
    wa: int,
    wb: int,
    a1: int,
    a2: int,
    b1: int,
    b2: int,
    c1: int,
    c2: int,
    sign: int,
    lower: bool,
)
    requires
        sign == 1 || sign == -1,
        combines(c1, a1, b1, sign),
        combines(c2, a2, b2, sign),
        lower ==> cong(wa, a1 + a2) && cong(wb, b1 + b2) && cong(wc, c1 + c2),
        !lower ==> cong(wa, a1 - a2) && cong(wb, b1 - b2) && cong(wc, c1 - c2),
    ensures
        combines(wc, wa, wb, sign),
{
    reveal(cong);
    let m = 65535int;
    let e1 = if sign == 1 { a1 + b1 } else { a1 - b1 };
    let e2 = if sign == 1 { a2 + b2 } else { a2 - b2 };
    let ws = if lower { c1 + c2 } else { c1 - c2 };
    let es = if lower { e1 + e2 } else { e1 - e2 };
    let was = if lower { a1 + a2 } else { a1 - a2 };
    let wbs = if lower { b1 + b2 } else { b1 - b2 };
    lemma_cong_add(c1, e1, c2, e2);
    lemma_cong_add(wa, was, wb, wbs);
    assert(cong(ws, es));
    assert(es == (if sign == 1 { was + wbs } else { was - wbs }));
}

/// Applying the transform twice multiplies every entry by the length, modulo
/// `2^16 - 1`.
pub proof fn lemma_walsh_involution(v: Seq<u16>)
    requires
        pow2(v.len() as int),
    ensures
        walsh_spec(walsh_spec(v)).len() == v.len(),
        forall|i: int|
            0 <= i < v.len() ==> walsh_spec(walsh_spec(v))[i] as int % 65535 == (v.len() * v[i])
                % 65535,
{
    lemma_walsh_twice(v);
    lemma_walsh_len(v);
    lemma_walsh_len(walsh_spec(v));
    assert forall|i: int| 0 <= i < v.len() implies walsh_spec(walsh_spec(v))[i] as int % 65535 == (
    v.len() * v[i]) % 65535 by {
        assert(cong(walsh_spec(walsh_spec(v))[i] as int, v.len() * v[i]));
        reveal(cong);
    }
}

proof fn lemma_walsh_twice(v: Seq<u16>)
    requires
        pow2(v.len() as int),
    ensures
        forall|i: int|
            0 <= i < v.len() ==> cong(walsh_spec(walsh_spec(v))[i] as int, v.len() * v[i]),
    decreases v.len(),
{
    let n = v.len() as int;
    lemma_walsh_len(v);
    lemma_walsh_len(walsh_spec(v));
    if n <= 1 {
        assert forall|i: int| 0 <= i < n implies cong(
            walsh_spec(walsh_spec(v))[i] as int,
            n * v[i],
        ) by {
            assert(n * v[i] == v[i]) by (nonlinear_arith)
                requires
                    n == 1,
            ;
            reveal(cong);
        }
    } else {
        let h = n / 2;
        let (vl, vh) = (v.subrange(0, h), v.subrange(h, n));
        let x = walsh_spec(vl);
        let y = walsh_spec(vh);
        let w = walsh_spec(v);
        let (wl, wh) = (w.subrange(0, h), w.subrange(h, n));
        lemma_walsh_len(vl);
        lemma_walsh_len(vh);
        lemma_walsh_twice(vl);
        lemma_walsh_twice(vh);
        assert forall|i: int| 0 <= i < h implies combines(
            wl[i] as int,
            x[i] as int,
            y[i] as int,
            1,
        ) by {
            lemma_fold_residue(x[i], y[i]);
        }
        assert forall|i: int| 0 <= i < h implies combines(
            wh[i] as int,
            x[i] as int,
            y[i] as int,
            -1,
        ) by {
            lemma_fold_residue(x[i], y[i]);
        }
        lemma_walsh_additive(x, y, wl, 1);
        lemma_walsh_additive(x, y, wh, -1);
        lemma_walsh_len(wl);
        lemma_walsh_len(wh);
        lemma_walsh_len(x);
        lemma_walsh_len(y);
        assert forall|i: int| 0 <= i < n implies cong(walsh_spec(w)[i] as int, n * v[i]) by {
            let k = if i < h { i } else { i - h };
            let (p, q) = (walsh_spec(wl)[k], walsh_spec(wh)[k]);
            let (xx, yy) = (walsh_spec(x)[k] as int, walsh_spec(y)[k] as int);
            lemma_fold_residue(p, q);
            assert(combines(p as int, xx, yy, 1));
            assert(combines(q as int, xx, yy, -1));
            lemma_cong_add(p as int, xx + yy, q as int, xx - yy);
            let src = if i < h { vl[k] } else { vh[k] };
            assert(src == v[i]);
            let t = if i < h { xx } else { yy };
            assert(cong(t, h * src));
            lemma_cong_add(t, h * src, t, h * src);
            assert(n * v[i] == h * src + h * src) by (nonlinear_arith)
                requires
                    n == 2 * h,
                    src == v[i],
            ;
            let r = if i < h { (p as int) + (q as int) } else { (p as int) - (q as int) };
            assert(cong(walsh_spec(w)[i] as int, r));
            assert(cong(r, t + t));
            lemma_cong_trans(walsh_spec(w)[i] as int, r, t + t);
            lemma_cong_trans(walsh_spec(w)[i] as int, t + t, h * src + h * src);
        }
    }
}

/// The convolution of two sequences over the group of indices under
/// exclusive or, in the integers: for a length of one the product, else by
/// halves, where the index of a product lies in the lower half exactly if
/// both factors come from the same half.
pub open spec fn xor_convolution(a: Seq<u16>, b: Seq<u16>) -> Seq<int>
    decreases a.len(),
{
    if a.len() <= 1 {
        Seq::new(a.len(), |i: int| a[i] * b[i])
    } else {
        let h = (a.len() / 2) as int;
        let n = a.len() as int;
        let (al, ah) = (a.subrange(0, h), a.subrange(h, n));
        let (bl, bh) = (b.subrange(0, h), b.subrange(h, n));
        Seq::new(h as nat, |i: int| xor_convolution(al, bl)[i] + xor_convolution(ah, bh)[i])
            + Seq::new(
            (n - h) as nat,
            |i: int| xor_convolution(al, bh)[i] + xor_convolution(ah, bl)[i],
        )
    }
}

/// The residues of a sequence of integers modulo `2^16 - 1`.
pub open spec fn residues(v: Seq<int>) -> Seq<u16> {
    Seq::new(v.len(), |i: int| (v[i] % 65535) as u16)
}

proof fn lemma_cong_sym(x: int, y: int)
    requires
        cong(x, y),
    ensures
        cong(y, x),
        cong(x, x),
        cong(y, y),
{
    reveal(cong);
}

proof fn lemma_cong_mul(x: int, x2: int, y: int, y2: int)
    requires
        cong(x, x2),
        cong(y, y2),
    ensures
        cong(x * y, x2 * y2),
{
    reveal(cong);
    vstd::arithmetic::div_mod::lemma_mul_mod_noop(x, y, 65535);
    vstd::arithmetic::div_mod::lemma_mul_mod_noop(x2, y2, 65535);
}

proof fn lemma_cong_residue(x: int)
    ensures
        cong(((x % 65535) as u16) as int, x),
        cong(x, x),
{
    reveal(cong);
    vstd::arithmetic::div_mod::lemma_mod_twice(x, 65535);
}

proof fn lemma_product_of_sums(al: int, ah: int, bl: int, bh: int)
    ensures
        (al + ah) * (bl + bh) == (al * bl + ah * bh) + (al * bh + ah * bl),
        (al - ah) * (bl - bh) == (al * bl + ah * bh) - (al * bh + ah * bl),
{
    assert((al + ah) * (bl + bh) == (al * bl + ah * bh) + (al * bh + ah * bl))
        by (nonlinear_arith);
    assert((al - ah) * (bl - bh) == (al * bl + ah * bh) - (al * bh + ah * bl))
        by (nonlinear_arith);
}

/// The transform of sequences that are congruent entry by entry is
/// congruent entry by entry.
proof fn lemma_walsh_cong(u: Seq<u16>, v: Seq<u16>)
    requires
        u.len() == v.len(),
        pow2(u.len() as int),
        forall|i: int| 0 <= i < u.len() ==> cong(u[i] as int, v[i] as int),
    ensures
        forall|i: int|
            0 <= i < u.len() ==> cong(walsh_spec(u)[i] as int, walsh_spec(v)[i] as int),
    decreases u.len(),
{
    let n = u.len() as int;
    if n > 1 {
        let h = n / 2;
        let (ul, uh) = (u.subrange(0, h), u.subrange(h, n));
        let (vl, vh) = (v.subrange(0, h), v.subrange(h, n));
        assert forall|i: int| 0 <= i < h implies cong(ul[i] as int, vl[i] as int) && cong(
            uh[i] as int,
            vh[i] as int,
        ) by {
            assert(ul[i] == u[i] && vl[i] == v[i]);
            assert(uh[i] == u[i + h] && vh[i] == v[i + h]);
        }
        crate::util::lemma_pow2_half(n);
        lemma_walsh_cong(ul, vl);
        lemma_walsh_cong(uh, vh);
        lemma_walsh_len(ul);
        lemma_walsh_len(uh);
        lemma_walsh_len(vl);
        lemma_walsh_len(vh);
        assert forall|i: int| 0 <= i < n implies cong(
            walsh_spec(u)[i] as int,
            walsh_spec(v)[i] as int,
        ) by {
            let k = if i < h { i } else { i - h };
            let (p, q) = (walsh_spec(ul)[k], walsh_spec(uh)[k]);
            let (pv, qv) = (walsh_spec(vl)[k], walsh_spec(vh)[k]);
            lemma_fold_residue(p, q);
            lemma_fold_residue(pv, qv);
            assert(ul[k] == u[k] && vl[k] == v[k]);
            assert(uh[k] == u[k + h] && vh[k] == v[k + h]);
            assert(cong(p as int, pv as int));
            assert(cong(q as int, qv as int));
            lemma_cong_add(p as int, pv as int, q as int, qv as int);
            let (r, r2) = if i < h {
                (p + q, pv + qv)
            } else {
                (p - q, pv - qv)
            };
            lemma_cong_trans(walsh_spec(u)[i] as int, r, r2);
            lemma_cong_sym(walsh_spec(v)[i] as int, r2);
            lemma_cong_trans(walsh_spec(u)[i] as int, r2, walsh_spec(v)[i] as int);
        }
    }
}

/// The transform of a convolution is, modulo `2^16 - 1`, the product of the
/// transforms.
proof fn lemma_walsh_of_convolution(a: Seq<u16>, b: Seq<u16>, c: Seq<u16>)
    requires
        pow2(a.len() as int),
        a.len() == b.len(),
        a.len() == c.len(),
        forall|i: int| 0 <= i < a.len() ==> cong(c[i] as int, xor_convolution(a, b)[i]),
    ensures
        forall|i: int|
            0 <= i < a.len() ==> cong(
                walsh_spec(c)[i] as int,
                walsh_spec(a)[i] * walsh_spec(b)[i],
            ),
    decreases a.len(),
{
    let n = a.len() as int;
    if n > 1 {
        let h = n / 2;
        let (al, ah) = (a.subrange(0, h), a.subrange(h, n));
        let (bl, bh) = (b.subrange(0, h), b.subrange(h, n));
        let (cl, ch) = (c.subrange(0, h), c.subrange(h, n));
        let r1 = residues(xor_convolution(al, bl));
        let r2 = residues(xor_convolution(ah, bh));
        let r3 = residues(xor_convolution(al, bh));
        let r4 = residues(xor_convolution(ah, bl));
        assert forall|i: int| 0 <= i < h implies cong(
            r1[i] as int,
            xor_convolution(al, bl)[i],
        ) && cong(r2[i] as int, xor_convolution(ah, bh)[i]) && cong(
            r3[i] as int,
            xor_convolution(al, bh)[i],
        ) && cong(r4[i] as int, xor_convolution(ah, bl)[i]) by {
            lemma_cong_residue(xor_convolution(al, bl)[i]);
            lemma_cong_residue(xor_convolution(ah, bh)[i]);
            lemma_cong_residue(xor_convolution(al, bh)[i]);
            lemma_cong_residue(xor_convolution(ah, bl)[i]);
        }
        lemma_walsh_of_convolution(al, bl, r1);
        lemma_walsh_of_convolution(ah, bh, r2);
        lemma_walsh_of_convolution(al, bh, r3);
        lemma_walsh_of_convolution(ah, bl, r4);
        assert forall|i: int| 0 <= i < h implies combines(
            cl[i] as int,
            r1[i] as int,
            r2[i] as int,
            1,
        ) && combines(ch[i] as int, r3[i] as int, r4[i] as int, 1) by {
            lemma_cong_add(
                r1[i] as int,
                xor_convolution(al, bl)[i],
                r2[i] as int,
                xor_convolution(ah, bh)[i],
            );
            lemma_cong_add(
                r3[i] as int,
                xor_convolution(al, bh)[i],
                r4[i] as int,
                xor_convolution(ah, bl)[i],
            );
            assert(c[i] == cl[i]);
            assert(c[i + h] == ch[i]);
            assert(xor_convolution(a, b)[i] == xor_convolution(al, bl)[i] + xor_convolution(
                ah,
                bh,
            )[i]);
            assert(xor_convolution(a, b)[i + h] == xor_convolution(al, bh)[i] + xor_convolution(
                ah,
                bl,
            )[i]);
            lemma_cong_sym(c[i] as int, xor_convolution(a, b)[i]);
            lemma_cong_sym(c[i + h] as int, xor_convolution(a, b)[i + h]);
            lemma_cong_trans(
                r1[i] + r2[i],
                xor_convolution(al, bl)[i] + xor_convolution(ah, bh)[i],
                cl[i] as int,
            );
            lemma_cong_trans(
                r3[i] + r4[i],
                xor_convolution(al, bh)[i] + xor_convolution(ah, bl)[i],
                ch[i] as int,
            );
        }
        lemma_walsh_additive(r1, r2, cl, 1);
        lemma_walsh_additive(r3, r4, ch, 1);
        lemma_walsh_len(al);
        lemma_walsh_len(ah);
        lemma_walsh_len(bl);
        lemma_walsh_len(bh);
        lemma_walsh_len(cl);
        lemma_walsh_len(ch);
        lemma_walsh_len(r1);
        lemma_walsh_len(r2);
        lemma_walsh_len(r3);
        lemma_walsh_len(r4);
        assert forall|i: int| 0 <= i < n implies cong(
            walsh_spec(c)[i] as int,
            walsh_spec(a)[i] * walsh_spec(b)[i],
        ) by {
            let k = if i < h { i } else { i - h };
            lemma_convolution_step(
                i < h,
                walsh_spec(a)[i] as int,
                walsh_spec(b)[i] as int,
                walsh_spec(c)[i] as int,
                walsh_spec(al)[k],
                walsh_spec(ah)[k],
                walsh_spec(bl)[k],
                walsh_spec(bh)[k],
                walsh_spec(cl)[k],
                walsh_spec(ch)[k],
                walsh_spec(r1)[k] as int,
                walsh_spec(r2)[k] as int,
                walsh_spec(r3)[k] as int,
                walsh_spec(r4)[k] as int,
            );
        }
    } else if n == 1 {
        assert(xor_convolution(a, b)[0] == a[0] * b[0]);
    }
}

proof fn lemma_convolution_step(
    lower: bool,
    wa: int,
    wb: int,
    wc: int,
    al: u16,
    ah: u16,
    bl: u16,
    bh: u16,
    cl: u16,
    ch: u16,
    r1: int,
    r2: int,
    r3: int,
    r4: int,
)
    requires
        wa == (if lower { fold_add(al, ah) } else { fold_sub(al, ah) }),
        wb == (if lower { fold_add(bl, bh) } else { fold_sub(bl, bh) }),
        wc == (if lower { fold_add(cl, ch) } else { fold_sub(cl, ch) }),
        combines(cl as int, r1, r2, 1),
        combines(ch as int, r3, r4, 1),
        cong(r1, al * bl),
        cong(r2, ah * bh),
        cong(r3, al * bh),
        cong(r4, ah * bl),
    ensures
        cong(wc, wa * wb),
{
    lemma_fold_residue(al, ah);
    lemma_fold_residue(bl, bh);
    lemma_fold_residue(cl, ch);
    let (sa, sb) = if lower {
        (al + ah, bl + bh)
    } else {
        (al - ah, bl - bh)
    };
    lemma_cong_mul(wa, sa, wb, sb);
    lemma_product_of_sums(al as int, ah as int, bl as int, bh as int);
    let same = al * bl + ah * bh;
    let cross = al * bh + ah * bl;
    lemma_cong_add(r1, al * bl, r2, ah * bh);
    lemma_cong_add(r3, al * bh, r4, ah * bl);
    lemma_cong_trans(cl as int, r1 + r2, same);
    lemma_cong_trans(ch as int, r3 + r4, cross);
    lemma_cong_add(cl as int, same, ch as int, cross);
    let sc = if lower { cl + ch } else { cl - ch };
    let target = if lower { same + cross } else { same - cross };
    lemma_cong_trans(wc, sc, target);
    lemma_cong_residue(target);
    lemma_cong_trans(wa * wb, sa * sb, sa * sb);
    lemma_cong_trans(wc, target, wa * wb);
}

/// The convolution theorem over the full field: the transform of the
/// product, entry by entry, of the transforms of two sequences of 65536
/// entries is, modulo `2^16 - 1`, their convolution, since 65536 is one
/// modulo `2^16 - 1`.
pub proof fn lemma_convolution_theorem(a: Seq<u16>, b: Seq<u16>, product: Seq<u16>)
    requires
        a.len() == 65536,
        b.len() == 65536,
        product.len() == 65536,
        forall|i: int|
            0 <= i < 65536 ==> product[i] as int % 65535 == (walsh_spec(a)[i] * walsh_spec(b)[i])
                % 65535,
    ensures
        forall|i: int|
            0 <= i < 65536 ==> walsh_spec(product)[i] as int % 65535 == xor_convolution(a, b)[i]
                % 65535,
{
    crate::util::lemma_pow2_65536();
    let c = residues(xor_convolution(a, b));
    assert forall|i: int| 0 <= i < 65536 implies cong(c[i] as int, xor_convolution(a, b)[i]) by {
        lemma_cong_residue(xor_convolution(a, b)[i]);
    }
    lemma_walsh_of_convolution(a, b, c);
    lemma_walsh_len(a);
    lemma_walsh_len(b);
    lemma_walsh_len(c);
    assert forall|i: int| 0 <= i < 65536 implies cong(
        walsh_spec(c)[i] as int,
        product[i] as int,
    ) by {
        reveal(cong);
    }
    lemma_walsh_cong(walsh_spec(c), product);
    lemma_walsh_twice(c);
    assert forall|i: int| 0 <= i < 65536 implies walsh_spec(product)[i] as int % 65535
        == xor_convolution(a, b)[i] % 65535 by {
        let ww = walsh_spec(walsh_spec(c))[i] as int;
        assert(cong(ww, 65536 * c[i]));
        assert(cong(ww, walsh_spec(product)[i] as int));
        reveal(cong);
    }
}

/// Fast Walsh-Hadamard transform of the first `size` entries, in place.
pub fn walsh(data: &mut [u16], size: usize)
    requires
        pow2(size as int),
        size <= old(data)@.len(),
    ensures
        final(data)@.len() == old(data)@.len(),
        final(data)@.subrange(0, size as int) == walsh_spec(old(data)@.subrange(0, size as int)),
        final(data)@.subrange(size as int, old(data)@.len() as int) == old(data)@.subrange(
            size as int,
            old(data)@.len() as int,
        ),
{
    let ghost whole = data@;
    let ghost orig = data@.subrange(0, size as int);
    let mut depart_no: usize = 1;
    while depart_no < size
        invariant
            pow2(depart_no as int),
            pow2(size as int),
            depart_no <= size,
            size <= data@.len(),
            data@.len() == whole.len(),
            orig.len() == size,
            data@.subrange(0, size as int) == walsh_upto(orig, depart_no as int),
            forall|p: int| size <= p < whole.len() ==> data@[p] == whole[p],
        decreases size - depart_no,
    {
        let ghost prev = data@.subrange(0, size as int);
        let ghost layer = walsh_layer(prev, depart_no as int);
        proof {
            lemma_pow2_divides(depart_no as int, size as int);
            lemma_pow2_double(depart_no as int);
        }
        assert(depart_no << 1 == 2 * depart_no) by (bit_vector)
            requires
                2 * depart_no <= size,
        ;
        let depart_no_next: usize = depart_no << 1;
        let mut j: usize = 0;
        let ghost mut blocks: int = 0;
        while j < size
            invariant
                0 < depart_no,
                depart_no_next == 2 * depart_no,
                j == blocks * depart_no_next,
                0 <= blocks,
                j <= size,
                size % depart_no_next == 0,
                size <= data@.len(),
                data@.len() == whole.len(),
                prev.len() == size,
                layer == walsh_layer(prev, depart_no as int),
                forall|p: int| 0 <= p < j ==> data@[p] == layer[p],
                forall|p: int| j <= p < size ==> data@[p] == prev[p],
                forall|p: int| size <= p < whole.len() ==> data@[p] == whole[p],
            decreases size - j,
        {
            proof {
                let q = size as int / depart_no_next as int;
                assert(size == q * depart_no_next) by {
                    vstd::arithmetic::div_mod::lemma_fundamental_div_mod(
                        size as int,
                        depart_no_next as int,
                    );
                    assert(depart_no_next * q == q * depart_no_next) by (nonlinear_arith);
                }
                assert(blocks < q) by (nonlinear_arith)
                    requires
                        blocks * depart_no_next < q * depart_no_next,
                        0 < depart_no_next,
                ;
                assert((blocks + 1) * depart_no_next <= q * depart_no_next) by (nonlinear_arith)
                    requires
                        blocks + 1 <= q,
                        0 < depart_no_next,
                ;
                assert((blocks + 1) * depart_no_next == j + depart_no_next) by (nonlinear_arith)
                    requires
                        j == blocks * depart_no_next,
                ;
            }
            let mut i: usize = j;
            while i < depart_no + j
                invariant
                    0 < depart_no,
                    depart_no_next == 2 * depart_no,
                    j == blocks * depart_no_next,
                    0 <= blocks,
                    j <= i <= j + depart_no,
                    j + depart_no_next <= size,
                    size <= data@.len(),
                    data@.len() == whole.len(),
                    prev.len() == size,
                    layer == walsh_layer(prev, depart_no as int),
                    forall|p: int| 0 <= p < i ==> data@[p] == layer[p],
                    forall|p: int| i <= p < j + depart_no ==> data@[p] == prev[p],
                    forall|p: int| j + depart_no <= p < i + depart_no ==> data@[p] == layer[p],
                    forall|p: int| i + depart_no <= p < size ==> data@[p] == prev[p],
                    forall|p: int| size <= p < whole.len() ==> data@[p] == whole[p],
                decreases depart_no + j - i,
            {
                let x: u16 = data[i];
                let y: u16 = data[i + depart_no];
                let sum: u32 = x as u32 + y as u32;
                let tmp2: u32 = x as u32 + MODULO as u32 - y as u32;
                proof {
                    lemma_fold_bits(sum);
                    lemma_fold_bits(tmp2);
                    lemma_block_offset(blocks, depart_no_next as int, i - j);
                    lemma_block_offset(blocks, depart_no_next as int, i - j + depart_no);
                }
                data[i] = ((sum & MODULO as u32) + (sum >> 16)) as u16;
                data[i + depart_no] = ((tmp2 & MODULO as u32) + (tmp2 >> 16)) as u16;
                i += 1;
            }
            j += depart_no_next;
            proof {
                blocks = blocks + 1;
            }
        }
        proof {
            assert(data@.subrange(0, size as int) =~= layer);
            assert(depart_no_next as int / 2 == depart_no);
        }
        depart_no = depart_no_next;
    }
    proof {
        lemma_upto_is_spec(orig);
        assert(final(data)@.subrange(size as int, whole.len() as int) =~= whole.subrange(
            size as int,
            whole.len() as int,
        ));
    }
}

} // verus!
