//! The formal derivative in the novel basis as an operation on coefficient
//! vectors, and its product rule for the multiplication by x.

use vstd::prelude::*;
use vstd::arithmetic::div_mod::lemma_fundamental_div_mod;
use vstd::arithmetic::div_mod::lemma_fundamental_div_mod_converse;
use crate::afft::derivative_step;
use crate::afft::derivative_steps;
use crate::afft::formal_derivative_spec;
use crate::afft::low_bit;
use crate::field_laws::fmul;
use crate::field_laws::lemma_xor_laws;
use crate::poly::eval;
use crate::poly::vec_scale;
use crate::poly::vec_xor;
use crate::poly::vec_zero;
use crate::util::lemma_pow2_half;
use crate::util::pow2;

verus! {

/// What the formal derivative does to the coefficients of a polynomial whose
/// degree is below the length, a power of two: it derives both halves, and
/// adds the upper half to the lower, as the derivative of the subspace
/// polynomial of the half length is one. The coefficients themselves stay in
/// the sum: the result is the polynomial plus its derivative.
pub open spec fn derived(c: Seq<u16>) -> Seq<u16>
    decreases c.len(),
{
    if c.len() <= 1 {
        c
    } else {
        let h = (c.len() / 2) as int;
        vec_xor(derived(c.subrange(0, h)), c.subrange(h, c.len() as int)) + derived(
            c.subrange(h, c.len() as int),
        )
    }
}

/// `v` with the entries from `off` on replaced by those of `w`.
pub open spec fn splice(v: Seq<u16>, off: int, w: Seq<u16>) -> Seq<u16> {
    Seq::new(
        v.len(),
        |j: int|
            if off <= j < off + w.len() {
                w[j - off]
            } else {
                v[j]
            },
    )
}

/// Deriving keeps the length.
pub proof fn lemma_derive_len(c: Seq<u16>)
    ensures
        derived(c).len() == c.len(),
    decreases c.len(),
{
    if c.len() > 1 {
        let h = (c.len() / 2) as int;
        lemma_derive_len(c.subrange(0, h));
        lemma_derive_len(c.subrange(h, c.len() as int));
    }
}

proof fn lemma_steps_len(v: Seq<u16>, i: int, size: int)
    ensures
        derivative_steps(v, i, size).len() == v.len(),
    decreases (if size > i { size - i } else { 0 }),
{
    if i < size {
        lemma_steps_len(derivative_step(v, i), i + 1, size);
    }
}

/// Steps from `a` to `c` are the steps from `a` to `b` and then from `b` to
/// `c`.
proof fn lemma_steps_compose(v: Seq<u16>, a: int, b: int, c: int)
    requires
        a <= b <= c,
    ensures
        derivative_steps(v, a, c) == derivative_steps(derivative_steps(v, a, b), b, c),
    decreases b - a,
{
    if a < b {
        lemma_steps_compose(derivative_step(v, a), a + 1, b, c);
    }
}

/// The largest power of two that divides an odd multiple of a power of two
/// is that power.
proof fn lemma_low_bit_of_odd_multiple(h: int, q: int)
    requires
        pow2(h),
        0 <= q,
    ensures
        low_bit(h * (2 * q + 1)) == h,
    decreases h,
{
    let x = h * (2 * q + 1);
    if h == 1 {
        assert(x == 2 * q + 1) by (nonlinear_arith)
            requires
                x == h * (2 * q + 1),
                h == 1,
        ;
    } else {
        lemma_pow2_half(h);
        let g = h / 2;
        lemma_low_bit_of_odd_multiple(g, q);
        assert(x == 2 * (g * (2 * q + 1))) by (nonlinear_arith)
            requires
                x == h * (2 * q + 1),
                h == 2 * g,
        ;
        assert(0 < g * (2 * q + 1)) by (nonlinear_arith)
            requires
                0 < g,
                0 <= q,
        ;
    }
}

/// The steps of the derivative inside an aligned window of `m` entries
/// derive the window and leave the rest alone.
proof fn lemma_steps_derive_window(v: Seq<u16>, off: int, m: int)
    requires
        pow2(m),
        0 <= off,
        off % m == 0,
        off + m <= v.len(),
    ensures
        derivative_steps(v, off + 1, off + m) == splice(
            v,
            off,
            derived(v.subrange(off, off + m)),
        ),
    decreases m,
{
    let window = v.subrange(off, off + m);
    lemma_derive_len(window);
    if m == 1 {
        assert(splice(v, off, derived(window)) =~= v);
    } else {
        lemma_pow2_half(m);
        let h = m / 2;
        let q = off / m;
        lemma_fundamental_div_mod(off, m);
        assert(off == (2 * q) * h) by (nonlinear_arith)
            requires
                off == m * q,
                m == 2 * h,
        ;
        assert(0 <= q) by (nonlinear_arith)
            requires
                off == m * q,
                0 <= off,
                0 < m,
        ;
        lemma_fundamental_div_mod_converse(off, h, 2 * q, 0);
        assert(off + h == (2 * q + 1) * h) by (nonlinear_arith)
            requires
                off == (2 * q) * h,
        ;
        lemma_fundamental_div_mod_converse(off + h, h, 2 * q + 1, 0);
        let lo = v.subrange(off, off + h);
        let hi = v.subrange(off + h, off + m);
        assert(window.subrange(0, h) =~= lo);
        assert(window.subrange(h, m) =~= hi);
        lemma_derive_len(lo);
        lemma_derive_len(hi);
        // The steps below the middle derive the lower half.
        lemma_steps_derive_window(v, off, h);
        let v1 = splice(v, off, derived(lo));
        // The step at the middle adds the upper half to the lower.
        assert(h * (2 * q + 1) == off + h) by (nonlinear_arith)
            requires
                off + h == (2 * q + 1) * h,
        ;
        lemma_low_bit_of_odd_multiple(h, q);
        let v2 = derivative_step(v1, off + h);
        let v2_want = splice(v, off, vec_xor(derived(lo), hi));
        assert(v2 =~= v2_want);
        // The steps above the middle derive the upper half.
        assert(v2.subrange(off + h, off + m) =~= hi);
        lemma_steps_derive_window(v2, off + h, h);
        let v3 = splice(v2, off + h, derived(hi));
        assert(v3 =~= splice(v, off, derived(window)));
        lemma_steps_compose(v, off + 1, off + h, off + m);
        assert(derivative_steps(v1, off + h, off + m) == derivative_steps(
            v2,
            off + h + 1,
            off + m,
        ));
    }
}

/// The formal derivative over the whole of a vector whose length is a power
/// of two is the derivation of its coefficients.
pub proof fn lemma_formal_derivative_is_derive(c: Seq<u16>)
    requires
        pow2(c.len() as int),
    ensures
        formal_derivative_spec(c, c.len() as int) == derived(c),
{
    let n = c.len() as int;
    vstd::arithmetic::div_mod::lemma_mod_self_0(n);
    assert(0int % n == 0) by {
        vstd::arithmetic::div_mod::lemma_small_mod(0, n as nat);
    }
    lemma_steps_derive_window(c, 0, n);
    lemma_derive_len(c);
    assert(c.subrange(0, n) =~= c);
    assert(splice(c, 0, derived(c)) =~= derived(c));
    lemma_steps_len(c, 1, n);
}


/// `v` with `s` added to its first entry.
pub open spec fn add_first(v: Seq<u16>, s: u16) -> Seq<u16> {
    if v.len() == 0 {
        v
    } else {
        v.update(0, v[0] ^ s)
    }
}

/// The coefficient that the multiplication by x carries out of the vector:
/// the last one.
pub open spec fn carry(c: Seq<u16>) -> u16 {
    if c.len() == 0 {
        0
    } else {
        c[c.len() - 1]
    }
}

/// The coefficients of x times the polynomial, up to the carry. Each half is
/// multiplied by x; what the lower half carries goes to the first
/// coefficient of the upper half, and so does what the upper half carries,
/// as the square of a subspace polynomial is itself plus the next one.
pub open spec fn shift_up(c: Seq<u16>) -> Seq<u16>
    decreases c.len(),
{
    if c.len() <= 1 {
        vec_zero(c.len())
    } else {
        let h = (c.len() / 2) as int;
        let lo = c.subrange(0, h);
        let hi = c.subrange(h, c.len() as int);
        shift_up(lo) + add_first(shift_up(hi), carry(lo) ^ carry(hi))
    }
}

/// Multiplying by x keeps the length.
pub proof fn lemma_shift_up_len(c: Seq<u16>)
    ensures
        shift_up(c).len() == c.len(),
    decreases c.len(),
{
    if c.len() > 1 {
        let h = (c.len() / 2) as int;
        lemma_shift_up_len(c.subrange(0, h));
        lemma_shift_up_len(c.subrange(h, c.len() as int));
    }
}

/// Deriving is additive.
pub proof fn lemma_derive_xor(a: Seq<u16>, b: Seq<u16>)
    requires
        a.len() == b.len(),
    ensures
        derived(vec_xor(a, b)) == vec_xor(derived(a), derived(b)),
    decreases a.len(),
{
    let n = a.len() as int;
    let c = vec_xor(a, b);
    lemma_derive_len(a);
    lemma_derive_len(b);
    lemma_derive_len(c);
    if n <= 1 {
        assert(derived(c) =~= vec_xor(derived(a), derived(b)));
    } else {
        let h = n / 2;
        let (al, ah) = (a.subrange(0, h), a.subrange(h, n));
        let (bl, bh) = (b.subrange(0, h), b.subrange(h, n));
        assert(c.subrange(0, h) =~= vec_xor(al, bl));
        assert(c.subrange(h, n) =~= vec_xor(ah, bh));
        lemma_derive_xor(al, bl);
        lemma_derive_xor(ah, bh);
        lemma_derive_len(al);
        lemma_derive_len(ah);
        lemma_derive_len(bl);
        lemma_derive_len(bh);
        let want = vec_xor(derived(a), derived(b));
        assert forall|j: int| 0 <= j < n implies derived(c)[j] == want[j] by {
            if j < h {
                crate::poly::lemma_xor_rearrange(derived(al)[j], derived(bl)[j], ah[j], bh[j]);
            }
        }
        assert(derived(c) =~= want);
    }
}

/// Deriving is homogeneous.
pub proof fn lemma_derive_scale(s: u16, v: Seq<u16>)
    ensures
        derived(vec_scale(s, v)) == vec_scale(s, derived(v)),
    decreases v.len(),
{
    let n = v.len() as int;
    let c = vec_scale(s, v);
    lemma_derive_len(v);
    lemma_derive_len(c);
    if n <= 1 {
        assert(derived(c) =~= vec_scale(s, derived(v)));
    } else {
        let h = n / 2;
        let (vl, vh) = (v.subrange(0, h), v.subrange(h, n));
        assert(c.subrange(0, h) =~= vec_scale(s, vl));
        assert(c.subrange(h, n) =~= vec_scale(s, vh));
        lemma_derive_scale(s, vl);
        lemma_derive_scale(s, vh);
        lemma_derive_len(vl);
        lemma_derive_len(vh);
        let want = vec_scale(s, derived(v));
        assert forall|j: int| 0 <= j < n implies derived(c)[j] == want[j] by {
            if j < h {
                crate::field_laws::lemma_fmul_distributes(derived(vl)[j], vh[j], s);
            }
        }
        assert(derived(c) =~= want);
    }
}

/// Deriving keeps the last coefficient, and what is added to the first
/// coefficient stays added to it.
pub proof fn lemma_derive_ends(c: Seq<u16>, s: u16)
    requires
        pow2(c.len() as int),
    ensures
        carry(derived(c)) == carry(c),
        derived(add_first(c, s)) == add_first(derived(c), s),
    decreases c.len(),
{
    let n = c.len() as int;
    lemma_derive_len(c);
    lemma_derive_len(add_first(c, s));
    if n > 1 {
        lemma_pow2_half(n);
        let h = n / 2;
        let (lo, hi) = (c.subrange(0, h), c.subrange(h, n));
        lemma_derive_ends(lo, s);
        lemma_derive_ends(hi, s);
        lemma_derive_len(lo);
        lemma_derive_len(hi);
        let d = add_first(c, s);
        assert(d.subrange(0, h) =~= add_first(lo, s));
        assert(d.subrange(h, n) =~= hi);
        let want = add_first(derived(c), s);
        assert forall|j: int| 0 <= j < n implies derived(d)[j] == want[j] by {
            if j == 0 {
                lemma_xor_laws(derived(lo)[0], s, hi[0]);
                lemma_xor_laws(derived(lo)[0], hi[0], s);
                lemma_xor_laws(s, hi[0], 0);
            }
        }
        assert(derived(d) =~= want);
    }
}

/// Multiplying by x is additive.
pub proof fn lemma_shift_up_xor(a: Seq<u16>, b: Seq<u16>)
    requires
        a.len() == b.len(),
    ensures
        shift_up(vec_xor(a, b)) == vec_xor(shift_up(a), shift_up(b)),
        carry(vec_xor(a, b)) == carry(a) ^ carry(b),
    decreases a.len(),
{
    let n = a.len() as int;
    let c = vec_xor(a, b);
    lemma_shift_up_len(a);
    lemma_shift_up_len(b);
    lemma_shift_up_len(c);
    lemma_xor_laws(0, 0, 0);
    if n <= 1 {
        assert(shift_up(c) =~= vec_xor(shift_up(a), shift_up(b)));
    } else {
        let h = n / 2;
        let (al, ah) = (a.subrange(0, h), a.subrange(h, n));
        let (bl, bh) = (b.subrange(0, h), b.subrange(h, n));
        assert(c.subrange(0, h) =~= vec_xor(al, bl));
        assert(c.subrange(h, n) =~= vec_xor(ah, bh));
        lemma_shift_up_xor(al, bl);
        lemma_shift_up_xor(ah, bh);
        lemma_shift_up_len(al);
        lemma_shift_up_len(ah);
        lemma_shift_up_len(bl);
        lemma_shift_up_len(bh);
        let want = vec_xor(shift_up(a), shift_up(b));
        assert forall|j: int| 0 <= j < n implies shift_up(c)[j] == want[j] by {
            if j == h {
                let (ka, kb) = (carry(al) ^ carry(ah), carry(bl) ^ carry(bh));
                crate::poly::lemma_xor_rearrange(carry(al), carry(bl), carry(ah), carry(bh));
                crate::poly::lemma_xor_rearrange(shift_up(ah)[0], shift_up(bh)[0], ka, kb);
            }
        }
        assert(shift_up(c) =~= want);
    }
}

/// Multiplying by x is homogeneous.
pub proof fn lemma_shift_up_scale(s: u16, v: Seq<u16>)
    ensures
        shift_up(vec_scale(s, v)) == vec_scale(s, shift_up(v)),
        carry(vec_scale(s, v)) == fmul(s, carry(v)),
    decreases v.len(),
{
    let n = v.len() as int;
    let c = vec_scale(s, v);
    lemma_shift_up_len(v);
    lemma_shift_up_len(c);
    crate::field_laws::lemma_fmul_units(s);
    if n <= 1 {
        assert(shift_up(c) =~= vec_scale(s, shift_up(v)));
    } else {
        let h = n / 2;
        let (vl, vh) = (v.subrange(0, h), v.subrange(h, n));
        assert(c.subrange(0, h) =~= vec_scale(s, vl));
        assert(c.subrange(h, n) =~= vec_scale(s, vh));
        lemma_shift_up_scale(s, vl);
        lemma_shift_up_scale(s, vh);
        lemma_shift_up_len(vl);
        lemma_shift_up_len(vh);
        let want = vec_scale(s, shift_up(v));
        assert forall|j: int| 0 <= j < n implies shift_up(c)[j] == want[j] by {
            if j == h {
                crate::field_laws::lemma_fmul_distributes(carry(vl), carry(vh), s);
                crate::field_laws::lemma_fmul_distributes(
                    shift_up(vh)[0],
                    carry(vl) ^ carry(vh),
                    s,
                );
            }
        }
        assert(shift_up(c) =~= want);
    }
}

/// The product rule for the multiplication by x, on coefficients: the
/// derivation of x times a polynomial is the polynomial plus x times its
/// derivation, up to the carry, which goes to the first coefficient.
pub proof fn lemma_product_rule(c: Seq<u16>)
    requires
        pow2(c.len() as int),
    ensures
        add_first(derived(shift_up(c)), carry(c)) == vec_xor(c, shift_up(derived(c))),
    decreases c.len(),
{
    let n = c.len() as int;
    lemma_derive_len(c);
    lemma_shift_up_len(c);
    lemma_shift_up_len(derived(c));
    lemma_derive_len(shift_up(c));
    let left = add_first(derived(shift_up(c)), carry(c));
    let right = vec_xor(c, shift_up(derived(c)));
    if n == 1 {
        lemma_xor_laws(c[0], 0, 0);
        assert(left =~= right);
    } else {
        lemma_pow2_half(n);
        let h = n / 2;
        let (lo, hi) = (c.subrange(0, h), c.subrange(h, n));
        let (kl, kh) = (carry(lo), carry(hi));
        let (ml, mh) = (shift_up(lo), shift_up(hi));
        lemma_product_rule(lo);
        lemma_product_rule(hi);
        lemma_shift_up_len(lo);
        lemma_shift_up_len(hi);
        lemma_derive_len(lo);
        lemma_derive_len(hi);
        lemma_derive_len(ml);
        lemma_derive_len(mh);
        // The multiplied vector and its derivation.
        let m = shift_up(c);
        let up = add_first(mh, kl ^ kh);
        assert(m.subrange(0, h) =~= ml);
        assert(m.subrange(h, n) =~= up);
        lemma_derive_ends(mh, kl ^ kh);
        lemma_derive_len(up);
        // The derived vector and its multiple.
        let d = derived(c);
        let dl = vec_xor(derived(lo), hi);
        assert(d.subrange(0, h) =~= dl);
        assert(d.subrange(h, n) =~= derived(hi));
        lemma_shift_up_xor(derived(lo), hi);
        lemma_derive_ends(lo, 0);
        lemma_derive_ends(hi, 0);
        lemma_shift_up_len(derived(lo));
        lemma_shift_up_len(derived(hi));
        lemma_shift_up_len(dl);
        let sl = shift_up(derived(lo));
        let sh = shift_up(derived(hi));
        assert forall|j: int| 0 <= j < n implies left[j] == right[j] by {
            if j < h {
                // Lower half: derived(ml) + up on the left, lo + sl + mh on
                // the right, where derived(ml) with kl added is lo + sl.
                let x = derived(ml)[j];
                let l0 = add_first(derived(ml), kl)[j];
                assert(l0 == lo[j] ^ sl[j]);
                if j == 0 {
                    lemma_xor_bags(x, mh[0], kl, kh, lo[0], sl[0]);
                } else {
                    lemma_xor_laws(lo[j], sl[j], mh[j]);
                }
            } else {
                let i = j - h;
                let y = derived(mh)[i];
                let r0 = add_first(derived(mh), kh)[i];
                assert(r0 == hi[i] ^ sh[i]);
                if i == 0 {
                    lemma_xor_bags(y, 0, kl, kh, hi[0], sh[0]);
                }
            }
        }
        assert(left =~= right);
    }
}

/// What is added to the first coefficient is added to every value, as the
/// first basis polynomial is one.
pub proof fn lemma_eval_add_first(v: Seq<u16>, s: u16, x: u16)
    requires
        v.len() >= 1,
    ensures
        eval(add_first(v, s), x) == eval(v, x) ^ s,
    decreases v.len(),
{
    let n = v.len() as int;
    if n > 1 {
        let h = n / 2;
        let w = add_first(v, s);
        assert(w.subrange(0, h) =~= add_first(v.subrange(0, h), s));
        assert(w.subrange(h, n) =~= v.subrange(h, n));
        lemma_eval_add_first(v.subrange(0, h), s, x);
        let a = eval(v.subrange(0, h), x);
        let b = fmul((x as int / h) as u16, eval(v.subrange(h, n), x));
        lemma_xor_laws(a, s, b);
        lemma_xor_laws(a, b, s);
        lemma_xor_laws(s, b, 0);
    }
}

proof fn lemma_xor_bags(a: u16, b: u16, c: u16, d: u16, e: u16, f: u16)
    by (bit_vector)
    ensures
        ((a ^ c) ^ ((b ^ (e ^ d)) ^ (c ^ d))) ^ e == a ^ b,
        (a ^ c) ^ c == a,
        a ^ c == e ^ f ==> (a ^ (b ^ (c ^ d))) ^ d == e ^ (f ^ b),
        a ^ d == e ^ f ==> a ^ (c ^ d) == e ^ (f ^ ((c ^ d) ^ d)),
        a >> 1 == a / 2,
{
}

/// The number of an element over twice a width is half its number over the
/// width.
proof fn lemma_index_half(x: u16, h: int)
    requires
        0 < h,
    ensures
        0 <= x as int / h <= 65535,
        0 <= x as int / (2 * h) <= 65535,
        ((x as int / h) as u16 >> 1) as u16 == (x as int / (2 * h)) as u16,
{
    let q = (x as int / h) as u16;
    vstd::arithmetic::div_mod::lemma_div_pos_is_pos(x as int, h);
    vstd::arithmetic::div_mod::lemma_div_pos_is_pos(x as int, 2 * h);
    vstd::arithmetic::div_mod::lemma_div_nonincreasing(x as int, h);
    vstd::arithmetic::div_mod::lemma_div_nonincreasing(x as int, 2 * h);
    lemma_xor_bags(q, 0, 0, 0, 0, 0);
    vstd::arithmetic::div_mod::lemma_div_denominator(x as int, h, 2);
    assert(h * 2 == 2 * h);
}

/// The algebra of one step of the multiplication by x.
proof fn lemma_shift_algebra(
    x: u16,
    q: u16,
    el: u16,
    eh: u16,
    kl: u16,
    kh: u16,
    ml: u16,
    mh: u16,
)
    requires
        ml ^ fmul(kl, q) == fmul(x, el),
        mh ^ fmul(kh, q) == fmul(x, eh),
    ensures
        (ml ^ fmul(q, mh ^ (kl ^ kh))) ^ fmul(kh, (q >> 1) as u16) == fmul(x, el ^ fmul(q, eh)),
{
    let a = fmul(x, el);
    let b = fmul(x, eh);
    let t1 = fmul(kl, q);
    let t2 = fmul(kh, q);
    let t3 = fmul(kh, (q >> 1) as u16);
    let qb = fmul(q, b);
    lemma_xor_bags(ml, 0, t1, 0, 0, 0);
    lemma_xor_laws(ml, t1, 0);
    lemma_xor_laws(mh, t2, 0);
    assert(ml == a ^ t1);
    assert(mh == b ^ t2);
    crate::field_laws::lemma_fmul_distributes(mh, kl ^ kh, q);
    crate::field_laws::lemma_fmul_distributes(b, t2, q);
    crate::field_laws::lemma_fmul_distributes(kl, kh, q);
    crate::field_laws::lemma_fmul_commutes(q, kl);
    crate::field_laws::lemma_fmul_commutes(q, kh);
    // q * (kh * q) = kh * (q * q) = kh * (q / 2) + kh * q
    crate::field_laws::lemma_fmul_commutes(q, t2);
    crate::field_laws::lemma_fmul_associates(kh, q, q);
    crate::field_laws::lemma_fmul_square(q);
    crate::field_laws::lemma_fmul_distributes((q >> 1) as u16, q, kh);
    assert(fmul(q, t2) == t3 ^ t2);
    lemma_xor_bags(a, qb, t1, t2, t3, 0);
    // x * (el + q * eh) = a + q * b
    crate::field_laws::lemma_fmul_distributes(el, fmul(q, eh), x);
    crate::field_laws::lemma_fmul_associates(x, q, eh);
    crate::field_laws::lemma_fmul_commutes(x, q);
    crate::field_laws::lemma_fmul_associates(q, x, eh);
}

/// Multiplying by x multiplies every value by the element at which it is
/// taken, up to the carry, which belongs to the subspace polynomial of the
/// whole length.
pub proof fn lemma_eval_shift_up(c: Seq<u16>, x: u16)
    requires
        pow2(c.len() as int),
        c.len() <= 65536,
    ensures
        eval(shift_up(c), x) ^ fmul(carry(c), (x as int / (c.len() as int)) as u16) == fmul(
            x,
            eval(c, x),
        ),
    decreases c.len(),
{
    let n = c.len() as int;
    lemma_shift_up_len(c);
    if n == 1 {
        crate::field_laws::lemma_fmul_commutes(c[0], x);
        lemma_xor_laws(fmul(x, c[0]), 0, 0);
        assert(shift_up(c)[0] == 0);
    } else {
        lemma_pow2_half(n);
        let h = n / 2;
        let (lo, hi) = (c.subrange(0, h), c.subrange(h, n));
        lemma_eval_shift_up(lo, x);
        lemma_eval_shift_up(hi, x);
        lemma_shift_up_len(lo);
        lemma_shift_up_len(hi);
        let m = shift_up(c);
        let up = add_first(shift_up(hi), carry(lo) ^ carry(hi));
        assert(m.subrange(0, h) =~= shift_up(lo));
        assert(m.subrange(h, n) =~= up);
        lemma_eval_add_first(shift_up(hi), carry(lo) ^ carry(hi), x);
        let q = (x as int / h) as u16;
        lemma_index_half(x, h);
        lemma_shift_algebra(
            x,
            q,
            eval(lo, x),
            eval(hi, x),
            carry(lo),
            carry(hi),
            eval(shift_up(lo), x),
            eval(shift_up(hi), x),
        );
    }
}

/// All coefficients from `m` on are zero: the degree is below `m`.
pub open spec fn below(c: Seq<u16>, m: int) -> bool {
    forall|j: int| m <= j < c.len() ==> c[j] == 0
}

/// x times a polynomial has no constant term.
pub proof fn lemma_shift_up_first(c: Seq<u16>)
    requires
        c.len() >= 1,
    ensures
        shift_up(c)[0] == 0,
    decreases c.len(),
{
    if c.len() > 1 {
        let h = (c.len() / 2) as int;
        lemma_shift_up_first(c.subrange(0, h));
        lemma_shift_up_len(c.subrange(0, h));
    }
}

/// Multiplying a polynomial of degree below `m`, with `m` below the length,
/// by x carries nothing out and gives a degree below `m + 1`.
pub proof fn lemma_shift_up_below(c: Seq<u16>, m: int)
    requires
        pow2(c.len() as int),
        0 <= m < c.len(),
        below(c, m),
    ensures
        carry(c) == 0,
        below(shift_up(c), m + 1),
    decreases c.len(),
{
    let n = c.len() as int;
    lemma_shift_up_len(c);
    if n > 1 {
        lemma_pow2_half(n);
        let h = n / 2;
        let (lo, hi) = (c.subrange(0, h), c.subrange(h, n));
        lemma_shift_up_len(lo);
        lemma_shift_up_len(hi);
        lemma_xor_laws(0, 0, 0);
        if m < h {
            lemma_shift_up_below(lo, m);
            lemma_shift_up_below(hi, 0);
            lemma_shift_up_first(hi);
        } else {
            lemma_shift_up_below(hi, m - h);
        }
        assert forall|j: int| m + 1 <= j < n implies shift_up(c)[j] == 0 by {
            if j >= h {
                let i = j - h;
                assert(shift_up(c)[j] == add_first(shift_up(hi), carry(lo) ^ carry(hi))[i]);
            }
        }
    }
}

} // verus!
