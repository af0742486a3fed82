//! The precomputed tables of the codec and multiplication through them.

use vstd::prelude::*;
use crate::gf::cantor;
use crate::gf::cantor_index;
use crate::gf::pow_x;
use crate::gf::xtime;
use crate::gf::BASE;
use crate::gf::FIELD_BITS;
use crate::gf::FIELD_SIZE;
use crate::gf::GENERATOR;
use crate::gf::MODULO;
use crate::gf::gmul;
use crate::gf_lemmas::lemma_cantor_bijective;
use crate::gf_lemmas::lemma_gmul_zero;
use crate::gf_lemmas::lemma_pow_x_add;
use crate::gf_lemmas::lemma_pow_x_wraps;
use crate::gf_lemmas::lemma_subfield;
use crate::gf_lemmas::lemma_cantor_step;
use crate::gf_lemmas::lemma_pow_x_injective;
use crate::gf_lemmas::lemma_pow_x_nonzero;
use crate::gf_lemmas::lemma_pow_x_period;
use crate::gf_lemmas::lemma_pow_x_surjective;
use crate::util::floor_log2;
use crate::util::lemma_block_offset;
use crate::util::lemma_pow2_65536;
use crate::util::lemma_shift_is_two_pow;
use crate::util::lemma_top_bit;
use crate::util::lemma_trailing_ones;
use crate::util::lemma_two_pow_grows;
use crate::util::lemma_two_pow_multiple;
use crate::util::lemma_two_pow_values;
use crate::util::mem_cpy;
use crate::util::trailing_ones;
use crate::util::two_pow;
use crate::walsh::fold;
use crate::walsh::lemma_fold_bits;
use crate::walsh::walsh;
use crate::walsh::walsh_spec;

verus! {

/// The five tables: logarithms and antilogarithms of the field, the skew
/// factors of the transforms, the twist factors of the formal derivative, and
/// the Walsh transform of the logarithms.
pub struct Tables {
    log: Vec<u16>,
    exp: Vec<u16>,
    skew: Vec<u16>,
    b: Vec<u16>,
    log_walsh: Vec<u16>,
}

/// What the five tables hold.
#[verifier::ext_equal]
pub struct TablesView {
    /// Logarithms, by element number; 65536 entries.
    pub log: Seq<u16>,
    /// Antilogarithms, by logarithm; 65536 entries.
    pub exp: Seq<u16>,
    /// Skew factors, as logarithms; 65535 entries.
    pub skew: Seq<u16>,
    /// Twist factors, as logarithms; 32768 entries.
    pub b: Seq<u16>,
    /// Walsh transform of the logarithms; 65536 entries.
    pub log_walsh: Seq<u16>,
}

impl View for Tables {
    type V = TablesView;

    closed spec fn view(&self) -> TablesView {
        TablesView {
            log: self.log@,
            exp: self.exp@,
            skew: self.skew@,
            b: self.b@,
            log_walsh: self.log_walsh@,
        }
    }
}

/// The product of `a` with the element whose logarithm is `b`, read off the
/// tables: zero for `a == 0`, else the antilogarithm of the folded sum of the
/// two logarithms.
pub open spec fn mul_spec(t: TablesView, a: u16, b: u16) -> u16 {
    mul_seq(t.log, t.exp, a, b)
}

/// The same product, over the two tables as sequences.
pub open spec fn mul_seq(log: Seq<u16>, exp: Seq<u16>, a: u16, b: u16) -> u16 {
    if a == 0 {
        0
    } else {
        exp[fold(log[a as int] + b)]
    }
}

impl TablesView {
    /// Every table has its full extent.
    pub open spec fn sized(&self) -> bool {
        &&& self.log.len() == 65536
        &&& self.exp.len() == 65536
        &&& self.skew.len() == 65535
        &&& self.b.len() == 32768
        &&& self.log_walsh.len() == 65536
    }

    /// The logarithms and antilogarithms are those of the field: the
    /// logarithm of element number `j` is the exponent below 65535 of the
    /// power of x that is element `j`, with 65535 standing for the logarithm
    /// of zero; the antilogarithm of `e` is the number of the element `x^e`,
    /// and that of 65535 repeats that of zero.
    pub open spec fn field_wf(&self) -> bool {
        &&& self.sized()
        &&& self.log[0] == 65535
        &&& forall|j: int|
            1 <= j < 65536 ==> (#[trigger] self.log[j]) < 65535 && pow_x(self.log[j] as nat)
                == cantor(j as u16)
        &&& forall|e: int| 0 <= e < 65535 ==> cantor(#[trigger] self.exp[e]) == pow_x(e as nat)
        &&& self.exp[65535] == self.exp[0]
    }

    /// The three decoder tables are those that belong to the logarithms and
    /// antilogarithms.
    pub open spec fn decoder_wf(&self) -> bool {
        &&& self.sized()
        &&& self.skew == skew_spec(self.log, self.exp)
        &&& self.b == b_spec(self.log, self.exp)
        &&& self.log_walsh == log_walsh_spec(self.log)
    }

    /// All five tables are as the field defines them.
    pub open spec fn wf(&self) -> bool {
        self.field_wf() && self.decoder_wf()
    }
}

impl Tables {
    /// Every value of the type holds the logarithms and antilogarithms of
    /// the field, and tables of the full extent.
    #[verifier::type_invariant]
    pub open spec fn holds_field(&self) -> bool {
        self@.field_wf()
    }

    /// The logarithm of element `a`.
    pub fn log_of(&self, a: u16) -> (r: u16)
        ensures
            r == self@.log[a as int],
    {
        proof {
            use_type_invariant(self);
        }
        self.log[a as usize]
    }

    /// The element with logarithm `i`.
    pub fn exp_of(&self, i: u16) -> (r: u16)
        ensures
            r == self@.exp[i as int],
    {
        proof {
            use_type_invariant(self);
        }
        self.exp[i as usize]
    }

    /// Skew factor number `i`.
    pub fn skew_at(&self, i: usize) -> (r: u16)
        requires
            i < 65535,
        ensures
            r == self@.skew[i as int],
    {
        proof {
            use_type_invariant(self);
        }
        self.skew[i]
    }

    /// Twist factor number `i`.
    pub fn b_at(&self, i: usize) -> (r: u16)
        requires
            i < 32768,
        ensures
            r == self@.b[i as int],
    {
        proof {
            use_type_invariant(self);
        }
        self.b[i]
    }

    /// Entry `i` of the Walsh transform of the logarithms.
    pub fn log_walsh_at(&self, i: usize) -> (r: u16)
        requires
            i < 65536,
        ensures
            r == self@.log_walsh[i as int],
    {
        proof {
            use_type_invariant(self);
        }
        self.log_walsh[i]
    }

    /// All five tables, built from nothing.
    pub fn new() -> (t: Tables)
        ensures
            t@.wf(),
    {
        let mut t = init();
        init_dec(&mut t);
        t
    }
}

/// Multiplication through the tables is multiplication in the field: the
/// result is the number of the product of element `a` and `x^b`.
pub proof fn lemma_mul_is_product(t: TablesView, a: u16, b: u16)
    requires
        t.field_wf(),
    ensures
        cantor(mul_spec(t, a, b)) == gmul(cantor(a), pow_x(b as nat)),
{
    if a == 0 {
        lemma_gmul_zero(pow_x(b as nat));
    } else {
        let e = t.log[a as int];
        let f = fold(e + b);
        let r = t.exp[f];
        lemma_pow_x_period();
        assert(cantor(r) == pow_x(f as nat));
        if e + b >= 65536 {
            lemma_pow_x_wraps(f as nat);
        }
        assert(pow_x(f as nat) == pow_x((e + b) as nat));
        lemma_pow_x_add(e as nat, b as nat);
    }
}

/// Subfield embedding: the product of an element numbered below 16 with one
/// numbered from 1 to 255 is numbered below 256.
pub proof fn lemma_subfield_embedding(t: TablesView, i: u16, j: u16)
    requires
        t.field_wf(),
        1 <= i < 256,
        j < 16,
    ensures
        mul_spec(t, j, t.log[i as int]) & 0xFF00 == 0,
{
    let r = mul_spec(t, j, t.log[i as int]);
    lemma_mul_is_product(t, j, t.log[i as int]);
    lemma_cantor_bijective(r);
    lemma_subfield(j, i);
}

/// Multiplies `a` by the element whose logarithm is `b`.
pub fn mul_table(t: &Tables, a: u16, b: u16) -> (r: u16)
    ensures
        r == mul_spec(t@, a, b),
        cantor(r) == gmul(cantor(a), pow_x(b as nat)),
{
    proof {
        use_type_invariant(t);
        lemma_mul_is_product(t@, a, b);
    }
    if a != 0u16 {
        let s: u32 = t.log[a as usize] as u32 + b as u32;
        proof {
            lemma_fold_bits(s);
        }
        let offset: u32 = (s & 65535u32) + (s >> 16);
        t.exp[offset as usize]
    } else {
        0u16
    }
}


/// Logarithm and antilogarithm undo each other, and the antilogarithm of
/// 65535 repeats that of zero.
pub proof fn lemma_bootstrap_consistency(t: TablesView)
    requires
        t.field_wf(),
    ensures
        forall|x: int| 1 <= x < 65536 ==> t.exp[#[trigger] t.log[x] as int] == x,
        forall|i: int| 0 <= i < 65535 ==> t.log[#[trigger] t.exp[i] as int] == i,
        t.exp[65535] == t.exp[0],
{
    assert forall|x: int| 1 <= x < 65536 implies t.exp[#[trigger] t.log[x] as int]
        == x by {
        let e = t.log[x];
        let y = t.exp[e as int];
        lemma_cantor_bijective(x as u16);
        lemma_cantor_bijective(y);
    }
    assert forall|i: int| 0 <= i < 65535 implies t.log[#[trigger] t.exp[i] as int]
        == i by {
        let j = t.exp[i];
        lemma_pow_x_nonzero(i as nat);
        lemma_cantor_bijective(j);
        lemma_pow_x_injective(t.log[j as int] as nat, i as nat);
    }
}

/// The tables of the codec: the one value that is well formed.
pub open spec fn codec_tables() -> TablesView {
    choose|v: TablesView| v.wf()
}

/// Well-formed tables are the tables of the codec: the field leaves no
/// choice.
pub proof fn lemma_tables_unique(t: TablesView)
    requires
        t.wf(),
    ensures
        t == codec_tables(),
{
    let c = codec_tables();
    assert(c.wf());
    assert forall|j: int| 0 <= j < 65536 implies t.log[j] == c.log[j] by {
        if j >= 1 {
            lemma_pow_x_injective(t.log[j] as nat, c.log[j] as nat);
        }
    }
    assert(t.log =~= c.log);
    assert forall|e: int| 0 <= e < 65536 implies t.exp[e] == c.exp[e] by {
        let e0 = if e < 65535 { e } else { 0 };
        lemma_cantor_bijective(t.exp[e0]);
        lemma_cantor_bijective(c.exp[e0]);
    }
    assert(t.exp =~= c.exp);
    assert(t =~= c);
}

proof fn lemma_state_step(state: usize)
    by (bit_vector)
    requires
        state < 65536,
    ensures
        (state >> 15) != 0 ==> (((state & 0x7FFF) << 1) ^ 0x2D) == xtime(state as u16) as usize,
        (state >> 15) == 0 ==> (state << 1) == xtime(state as u16) as usize,
        xtime(state as u16) < 65536,
{
}

/// Builds the logarithm and antilogarithm tables of the field; the three
/// decoder tables are left zero.
pub fn init() -> (t: Tables)
    ensures
        t@.field_wf(),
        forall|i: int| 0 <= i < 65535 ==> t@.skew[i] == 0,
        forall|i: int| 0 <= i < 32768 ==> t@.b[i] == 0,
        forall|i: int| 0 <= i < 65536 ==> t@.log_walsh[i] == 0,
{
    let mut log: Vec<u16> = vec![0u16; 65536];
    let mut exp: Vec<u16> = vec![0u16; 65536];
    let mas: usize = 0x7FFF;
    let mut state: usize = 1;
    let mut i: usize = 0;
    proof {
        lemma_pow_x_period();
    }
    while i < 65535
        invariant
            i <= 65535,
            mas == 0x7FFF,
            exp@.len() == 65536,
            log@.len() == 65536,
            state < 65536,
            state as u16 == pow_x(i as nat),
            forall|e: int| 0 <= e < i ==> exp@[#[trigger] pow_x(e as nat) as int] == e,
            forall|p: int| 0 <= p < 65536 ==> log@[p] == 0,
        decreases 65535 - i,
    {
        proof {
            assert forall|e: int| 0 <= e < i implies #[trigger] pow_x(e as nat) != pow_x(i as nat) by {
                if pow_x(e as nat) == pow_x(i as nat) {
                    lemma_pow_x_injective(e as nat, i as nat);
                }
            }
            lemma_state_step(state);
        }
        exp[state] = i as u16;
        if (state >> 15) != 0 {
            state &= mas;
            state = (state << 1_usize) ^ (GENERATOR as usize);
        } else {
            state <<= 1;
        }
        i += 1;
    }
    proof {
        assert forall|e: int| 0 <= e < 65535 implies #[trigger] pow_x(e as nat) != 0 by {
            lemma_pow_x_nonzero(e as nat);
        }
    }
    let ghost e0 = exp@;
    exp[0] = MODULO;
    let ghost e1 = exp@;
    proof {
        assert forall|v: int| 1 <= v < 65536 implies (#[trigger] e1[v]) < 65535 && pow_x(
            e1[v] as nat,
        ) == v by {
            lemma_pow_x_surjective(v as u16);
            let e = choose|e: nat| e < 65535 && pow_x(e) == v as u16;
            let ei = e as int;
            assert(pow_x(ei as nat) == v as u16);
            assert(e0[pow_x(ei as nat) as int] == ei);
            assert(e1[v] == e0[v]);
        }
        lemma_shift_is_two_pow(0);
        lemma_two_pow_values();
        lemma_cantor_bijective(0);
    }
    log[0] = 0;
    let mut i: usize = 0;
    while i < FIELD_BITS
        invariant
            i <= 16,
            exp@ == e1,
            log@.len() == 65536,
            i < 16 ==> (1usize << i) <= 32768,
            i < 16 ==> forall|p: int| 0 <= p < (1usize << i) ==> log@[p] == cantor(p as u16),
            i == 16 ==> forall|p: int| 0 <= p < 65536 ==> log@[p] == cantor(p as u16),
        decreases 16 - i,
    {
        proof {
            lemma_two_pow_values();
            lemma_shift_is_two_pow(i);
            lemma_two_pow_grows(i as int, 15);
        }
        let span: usize = 1 << i;
        let mut j: usize = 0;
        while j < span
            invariant
                i < 16,
                j <= span,
                span == (1usize << i),
                span == (1u16 << (i as u16)) as usize,
                1 <= span <= 32768,
                exp@ == e1,
                log@.len() == 65536,
                forall|p: int| 0 <= p < span ==> log@[p] == cantor(p as u16),
                forall|p: int| span <= p < span + j ==> log@[p] == cantor(p as u16),
            decreases span - j,
        {
            proof {
                lemma_cantor_step(j as u16, i as u16);
            }
            let value: u16 = log[j] ^ BASE[i];
            log[j + span] = value;
            j += 1;
        }
        proof {
            lemma_two_pow_values();
            lemma_two_pow_grows(i as int, i as int);
            if i + 1 < 16 {
                lemma_shift_is_two_pow((i + 1) as usize);
                lemma_two_pow_grows(i as int + 1, 15);
            }
        }
        i += 1;
    }
    let mut i: usize = 0;
    while i < FIELD_SIZE
        invariant
            i <= 65536,
            exp@ == e1,
            e1.len() == 65536,
            log@.len() == 65536,
            forall|p: int| 0 <= p < i ==> log@[p] == e1[cantor(p as u16) as int],
            forall|p: int| i <= p < 65536 ==> log@[p] == cantor(p as u16),
        decreases 65536 - i,
    {
        let value: u16 = exp[log[i] as usize];
        log[i] = value;
        i += 1;
    }
    let ghost logs = log@;
    proof {
        assert forall|j: int| 1 <= j < 65536 implies (#[trigger] logs[j]) < 65535 && pow_x(
            logs[j] as nat,
        ) == cantor(j as u16) by {
            lemma_cantor_bijective(j as u16);
            assert(e1[cantor(j as u16) as int] < 65535);
        }
        assert(logs[0] == 65535);
    }
    let mut i: usize = 0;
    while i < FIELD_SIZE
        invariant
            i <= 65536,
            exp@.len() == 65536,
            log@ == logs,
            logs.len() == 65536,
            logs[0] == 65535,
            forall|j: int|
                1 <= j < 65536 ==> (#[trigger] logs[j]) < 65535 && pow_x(logs[j] as nat) == cantor(
                    j as u16,
                ),
            forall|p: int| 0 <= p < i ==> exp@[#[trigger] logs[p] as int] == p,
        decreases 65536 - i,
    {
        proof {
            assert forall|p: int| 0 <= p < i implies #[trigger] logs[p] != logs[i as int] by {
                if logs[p] == logs[i as int] {
                    if p >= 1 {
                        lemma_cantor_bijective(p as u16);
                        lemma_cantor_bijective(i as u16);
                    }
                }
            }
        }
        exp[log[i] as usize] = i as u16;
        i += 1;
    }
    let ghost e2 = exp@;
    proof {
        assert forall|e: int| 0 <= e < 65535 implies cantor(#[trigger] e2[e]) == pow_x(
            e as nat,
        ) by {
            let j = cantor_index(pow_x(e as nat));
            lemma_pow_x_nonzero(e as nat);
            lemma_cantor_bijective(pow_x(e as nat));
            lemma_cantor_bijective(j);
            assert(j != 0);
            assert(logs[j as int] < 65535);
            lemma_pow_x_injective(logs[j as int] as nat, e as nat);
            assert(e2[logs[j as int] as int] == j);
        }
    }
    let first: u16 = exp[0];
    exp[MODULO as usize] = first;
    let skew: Vec<u16> = vec![0u16; 65535];
    let b: Vec<u16> = vec![0u16; 32768];
    let log_walsh: Vec<u16> = vec![0u16; 65536];
    Tables { log, exp, skew, b, log_walsh }
}


/// The basis that the skew factors start from: the elements numbered
/// 2, 4, ..., 2^15.
pub open spec fn start_base() -> Seq<u16> {
    Seq::new(15, |i: int| two_pow(i + 1) as u16)
}

/// The logarithm that normalises entry `m` of the basis: minus the logarithm
/// of `base[m] * (base[m] + 1)`.
pub open spec fn round_pivot(log: Seq<u16>, exp: Seq<u16>, base: Seq<u16>, m: int) -> u16 {
    (65535 - log[mul_seq(log, exp, base[m], log[(base[m] ^ 1) as int]) as int]) as u16
}

/// The basis after round `m`: entry `m` becomes the normalising logarithm,
/// and every later entry `b` becomes `b * (b + 1)` times the normaliser.
pub open spec fn round_base(log: Seq<u16>, exp: Seq<u16>, base: Seq<u16>, m: int) -> Seq<u16> {
    Seq::new(
        15,
        |i: int|
            if i < m {
                base[i]
            } else if i == m {
                round_pivot(log, exp, base, m)
            } else {
                mul_seq(
                    log,
                    exp,
                    base[i],
                    ((log[(base[i] ^ 1) as int] + round_pivot(log, exp, base, m)) % 65535) as u16,
                )
            },
    )
}

/// The basis at the start of round `m`.
pub open spec fn dec_base(log: Seq<u16>, exp: Seq<u16>, m: int) -> Seq<u16>
    decreases m,
{
    if m <= 0 {
        start_base()
    } else {
        round_base(log, exp, dec_base(log, exp, m - 1), m - 1)
    }
}

/// The sum of the basis elements picked by the bits of `idx` above bit `m`,
/// where bit `b` picks entry `b - 1`.
pub open spec fn skew_sum(base: Seq<u16>, m: int, idx: int) -> u16
    decreases idx,
{
    let top = two_pow(floor_log2(idx));
    if idx < two_pow(m + 1) || !(0 < top <= idx) {
        0
    } else {
        skew_sum(base, m, idx - top) ^ base[floor_log2(idx) - 1]
    }
}

/// Skew factor `idx` as a field element: with `m` the number of trailing
/// ones of `idx`, the sum that the basis of round `m` gives; zero where there
/// is no such round.
pub open spec fn skew_raw(log: Seq<u16>, exp: Seq<u16>, idx: int) -> u16 {
    let m = trailing_ones(idx);
    if m >= 15 {
        0
    } else {
        skew_sum(dec_base(log, exp, m), m, idx)
    }
}

/// The skew factors: the logarithms of the field elements above.
pub open spec fn skew_spec(log: Seq<u16>, exp: Seq<u16>) -> Seq<u16> {
    Seq::new(65535, |idx: int| log[skew_raw(log, exp, idx) as int])
}

/// Entry `i` of the logarithms whose sums are the twist factors: running
/// sums, modulo 65535, of the negated normalisers of the basis. The last
/// entry is left as the rounds made it.
pub open spec fn twist_log(log: Seq<u16>, exp: Seq<u16>, i: int) -> u16
    decreases i,
{
    let base = dec_base(log, exp, 15);
    if i <= 0 {
        (65535 - base[0]) as u16
    } else if i < 14 {
        ((65535 - base[i] + twist_log(log, exp, i - 1)) % 65535) as u16
    } else {
        base[i]
    }
}

/// The sum, modulo 65535 and taken from the lowest bit up, of the twist
/// logarithms picked by the bits of `h`.
pub open spec fn twist_sum(log: Seq<u16>, exp: Seq<u16>, h: int) -> u16
    decreases h,
{
    let top = two_pow(floor_log2(h));
    if h <= 0 || !(0 < top <= h) {
        0
    } else {
        ((twist_sum(log, exp, h - top) + twist_log(log, exp, floor_log2(h))) % 65535) as u16
    }
}

/// The twist factors of the formal derivative, as logarithms.
pub open spec fn b_spec(log: Seq<u16>, exp: Seq<u16>) -> Seq<u16> {
    Seq::new(32768, |h: int| twist_sum(log, exp, h))
}

/// The Walsh transform of the logarithms, with that of element zero taken
/// as zero.
pub open spec fn log_walsh_spec(log: Seq<u16>) -> Seq<u16> {
    walsh_spec(log.update(0, 0))
}

/// The sum for an index with its top bit `2^(i + 1)` set adds basis entry `i`
/// to the sum for the index without it.
proof fn lemma_skew_sum_step(base: Seq<u16>, m: int, j: int, i: int)
    requires
        0 <= m <= i,
        0 <= j < two_pow(i + 1),
    ensures
        skew_sum(base, m, j + two_pow(i + 1)) == skew_sum(base, m, j) ^ base[i],
{
    lemma_top_bit(j, i + 1);
    lemma_two_pow_grows(m + 1, i + 1);
}

proof fn lemma_twist_sum_step(log: Seq<u16>, exp: Seq<u16>, j: int, i: int)
    requires
        0 <= i,
        0 <= j < two_pow(i),
    ensures
        twist_sum(log, exp, j + two_pow(i)) == ((twist_sum(log, exp, j) + twist_log(log, exp, i)) % 65535) as u16,
{
    lemma_top_bit(j, i);
    lemma_two_pow_grows(0, i);
}

/// Between two neighbours of the same number of trailing ones lies no third.
proof fn lemma_class_gap(idx: int, c: int, m: int)
    requires
        0 <= m,
        0 <= c,
        c * two_pow(m + 1) <= idx < c * two_pow(m + 1) + two_pow(m + 1),
    ensures
        trailing_ones(idx) == m <==> idx == c * two_pow(m + 1) + two_pow(m) - 1,
{
    let w = two_pow(m + 1);
    lemma_two_pow_grows(0, m);
    assert(0 <= c * w) by (nonlinear_arith)
        requires
            0 <= c,
            0 < w,
    ;
    lemma_trailing_ones(idx, m);
    lemma_block_offset(c, w, idx - c * w);
}

/// Builds the skew factors, the twist factors and the Walsh transform of the
/// logarithms from the logarithm and antilogarithm tables.
pub fn init_dec(t: &mut Tables)
    ensures
        final(t)@.log == old(t)@.log,
        final(t)@.exp == old(t)@.exp,
        final(t)@.wf(),
{
    proof {
        use_type_invariant(&*t);
    }
    let ghost log = t@.log;
    let ghost exp = t@.exp;
    let mut skew: Vec<u16> = vec![0u16; 65535];
    let mut base: [u16; 15] = [0u16; 15];
    proof {
        lemma_two_pow_values();
    }
    let mut i: usize = 1;
    while i < FIELD_BITS
        invariant
            1 <= i <= 16,
            forall|p: int| 0 <= p < i - 1 ==> base@[p] == start_base()[p],
        decreases 16 - i,
    {
        proof {
            lemma_shift_is_two_pow(i);
            lemma_two_pow_grows(i as int, 15);
        }
        base[i - 1] = 1u16 << (i as u16);
        i += 1;
    }
    proof {
        assert(base@ =~= start_base());
        assert forall|idx: int| 0 <= idx implies trailing_ones(idx) >= 0 by {
            lemma_trailing_ones(idx, 0);
        }
    }
    let mut m: usize = 0;
    while m < FIELD_BITS - 1
        invariant
            t@.sized(),
            *t == *old(t),
            log == t@.log,
            exp == t@.exp,
            m <= 15,
            skew@.len() == 65535,
            base@.len() == 15,
            base@ == dec_base(log, exp, m as int),
            forall|idx: int| 0 <= idx ==> trailing_ones(idx) >= 0,
            forall|idx: int|
                0 <= idx < 65535 && trailing_ones(idx) < m ==> #[trigger] skew@[idx] == skew_raw(
                    log,
                    exp,
                    idx,
                ),
            forall|idx: int|
                0 <= idx < 65535 && trailing_ones(idx) >= m ==> #[trigger] skew@[idx] == 0,
        decreases 15 - m,
    {
        proof {
            lemma_two_pow_values();
            lemma_shift_is_two_pow(m);
            lemma_shift_is_two_pow((m + 1) as usize);
            lemma_two_pow_grows(m as int, 15);
            lemma_two_pow_grows(m as int + 1, 15);
        }
        let step: usize = 1 << (m + 1);
        let seed: usize = (1 << m) - 1;
        let ghost before = skew@;
        let ghost round = dec_base(log, exp, m as int);
        proof {
            assert(0 * two_pow(m as int + 1) == 0) by (nonlinear_arith);
            lemma_class_gap(seed as int, 0, m as int);
        }
        skew[seed] = 0;
        proof {
            assert(skew@ =~= before);
            assert forall|idx: int|
                0 <= idx < two_pow(m as int + 1) && trailing_ones(idx) == m implies (
            #[trigger] skew@[idx]) == skew_sum(round, m as int, idx) by {
                reveal_with_fuel(skew_sum, 1);
            }
        }
        let mut i: usize = m;
        while i < FIELD_BITS - 1
            invariant
                t@.sized(),
                m <= i <= 15,
                m < 15,
                step == two_pow(m as int + 1),
                seed == two_pow(m as int) - 1,
                1 <= two_pow(m as int),
                two_pow(m as int + 1) == 2 * two_pow(m as int),
                two_pow(m as int + 1) <= 32768,
                skew@.len() == 65535,
                before.len() == 65535,
                base@ == round,
                round.len() == 15,
                forall|idx: int| 0 <= idx ==> trailing_ones(idx) >= 0,
                forall|idx: int|
                    0 <= idx < 65535 && idx < two_pow(i as int + 1) && trailing_ones(idx) == m
                        ==> #[trigger] skew@[idx] == skew_sum(round, m as int, idx),
                forall|idx: int|
                    two_pow(i as int + 1) <= idx < 65535 && trailing_ones(idx) == m
                        ==> #[trigger] skew@[idx] == 0,
                forall|idx: int|
                    0 <= idx < 65535 && trailing_ones(idx) != m ==> #[trigger] skew@[idx]
                        == before[idx],
            decreases 15 - i,
        {
            proof {
                lemma_two_pow_values();
                lemma_shift_is_two_pow((i + 1) as usize);
                lemma_two_pow_grows(i as int + 1, 15);
                lemma_two_pow_grows(i as int + 1, i as int + 1);
                lemma_two_pow_multiple(m as int + 1, i as int + 1);
                lemma_two_pow_grows(0, i as int - m);
            }
            let s: usize = 1 << (i + 1);
            let ghost q: int = two_pow(i as int - m);
            let mut j: usize = seed;
            let ghost mut c: int = 0;
            proof {
                assert(0 * step == 0int) by (nonlinear_arith);
            }
            while j < s
                invariant
                    m <= i < 15,
                    s == two_pow(i as int + 1),
                    s <= 32768,
                    s == q * step,
                    1 <= q,
                    step == two_pow(m as int + 1),
                    seed == two_pow(m as int) - 1,
                    1 <= two_pow(m as int),
                    step == 2 * two_pow(m as int),
                    j == c * step + seed,
                    0 <= c <= q,
                    two_pow(i as int + 2) == 2 * s,
                    skew@.len() == 65535,
                    before.len() == 65535,
                    base@ == round,
                    round.len() == 15,
                    forall|idx: int| 0 <= idx ==> trailing_ones(idx) >= 0,
                    forall|idx: int|
                        0 <= idx < 65535 && idx < s + c * step && trailing_ones(idx) == m
                            ==> #[trigger] skew@[idx] == skew_sum(round, m as int, idx),
                    forall|idx: int|
                        s + c * step <= idx < 65535 && trailing_ones(idx) == m
                            ==> #[trigger] skew@[idx] == 0,
                    forall|idx: int|
                        0 <= idx < 65535 && trailing_ones(idx) != m ==> #[trigger] skew@[idx]
                            == before[idx],
                decreases s + step - j,
            {
                proof {
                    assert(c < q) by (nonlinear_arith)
                        requires
                            c * step + seed < q * step,
                            0 <= seed,
                            0 < step,
                    ;
                    assert((c + 1) * step <= q * step) by (nonlinear_arith)
                        requires
                            c + 1 <= q,
                            0 < step,
                    ;
                    assert((c + 1) * step == c * step + step) by (nonlinear_arith);
                    assert((q + c) * step == s + c * step) by (nonlinear_arith)
                        requires
                            s == q * step,
                    ;
                    assert(0 <= c * step) by (nonlinear_arith)
                        requires
                            0 <= c,
                            0 < step,
                    ;
                    lemma_class_gap(j as int, c, m as int);
                    lemma_class_gap(j + s, q + c, m as int);
                    lemma_skew_sum_step(round, m as int, j as int, i as int);
                    assert forall|idx: int|
                        s + c * step <= idx < s + c * step + step implies (trailing_ones(idx) == m
                        <==> idx == j + s) by {
                        lemma_class_gap(idx, q + c, m as int);
                    }
                }
                let value: u16 = skew[j] ^ base[i];
                skew[j + s] = value;
                j += step;
                proof {
                    c = c + 1;
                }
            }
            proof {
                assert(c == q) by (nonlinear_arith)
                    requires
                        c * step + seed >= q * step,
                        c <= q,
                        seed < step,
                        0 < step,
                ;
                assert(s + c * step == 2 * s);
                lemma_two_pow_grows(0, i as int + 1);
            }
            i += 1;
        }
        proof {
            lemma_two_pow_values();
        }
        let pivot: u16 = mul_table(t, base[m], t.log[(base[m] ^ 1) as usize]);
        let normaliser: u16 = MODULO - t.log[pivot as usize];
        base[m] = normaliser;
        let ghost next = round_base(log, exp, round, m as int);
        let mut i: usize = m + 1;
        while i < FIELD_BITS - 1
            invariant
                t@.sized(),
                *t == *old(t),
            log == t@.log,
            exp == t@.exp,
                m < i <= 15,
                base@.len() == 15,
                round.len() == 15,
                normaliser == round_pivot(log, exp, round, m as int),
                next == round_base(log, exp, round, m as int),
                forall|p: int| 0 <= p < i ==> base@[p] == next[p],
                forall|p: int| i <= p < 15 ==> base@[p] == round[p],
            decreases 15 - i,
        {
            let b: u32 = (t.log[(base[i] ^ 1) as usize] as u32 + base[m] as u32) % (MODULO as u32);
            let value: u16 = mul_table(t, base[i], b as u16);
            proof {
                assert(base@[m as int] == next[m as int]);
                assert(next[m as int] == normaliser);
                assert(base@[i as int] == round[i as int]);
                assert(b == (log[(round[i as int] ^ 1) as int] + normaliser) % 65535);
                assert(value == mul_seq(log, exp, round[i as int], b as u16));
                assert(next[i as int] == value);
            }
            base[i] = value;
            i += 1;
        }
        proof {
            assert(base@ =~= next);
            assert forall|idx: int|
                0 <= idx < 65535 && trailing_ones(idx) < m + 1 implies #[trigger] skew@[idx]
                == skew_raw(log, exp, idx) by {
                if trailing_ones(idx) < m {
                    assert(skew@[idx] == before[idx]);
                }
            }
        }
        m += 1;
    }
    let ghost raw = skew@;
    let mut i: usize = 0;
    while i < 65535
        invariant
            t@.sized(),
            *t == *old(t),
            log == t@.log,
            exp == t@.exp,
            i <= 65535,
            skew@.len() == 65535,
            raw.len() == 65535,
            forall|idx: int| 0 <= idx < 65535 ==> raw[idx] == skew_raw(log, exp, idx),
            forall|p: int| 0 <= p < i ==> skew@[p] == skew_spec(log, exp)[p],
            forall|p: int| i <= p < 65535 ==> skew@[p] == raw[p],
        decreases 65535 - i,
    {
        let value: u16 = t.log[skew[i] as usize];
        proof {
            assert(skew@[i as int] == raw[i as int]);
            assert(raw[i as int] == skew_raw(log, exp, i as int));
            assert(value == log[skew_raw(log, exp, i as int) as int]);
            assert(skew_spec(log, exp)[i as int] == value);
        }
        skew[i] = value;
        i += 1;
    }
    proof {
        assert(skew@ =~= skew_spec(log, exp));
    }
    let ghost last = dec_base(log, exp, 15);
    let first: u16 = MODULO - base[0];
    base[0] = first;
    let mut i: usize = 1;
    while i < 14
        invariant
            1 <= i <= 14,
            base@.len() == 15,
            last == dec_base(log, exp, 15),
            last.len() == 15,
            forall|p: int| 0 <= p < i ==> base@[p] == twist_log(log, exp, p),
            forall|p: int| i <= p < 15 ==> base@[p] == last[p],
        decreases 14 - i,
    {
        let value: u32 = (MODULO as u32 - base[i] as u32 + base[i - 1] as u32) % (MODULO as u32);
        base[i] = value as u16;
        i += 1;
    }
    proof {
        assert forall|p: int| 0 <= p < 15 implies base@[p] == twist_log(log, exp, p) by {}
    }
    let mut b: Vec<u16> = vec![0u16; 32768];
    b[0] = 0;
    proof {
        lemma_two_pow_values();
        reveal_with_fuel(twist_sum, 1);
        assert(twist_sum(log, exp, 0) == 0);
    }
    let mut i: usize = 0;
    while i < FIELD_BITS - 1
        invariant
            i <= 15,
            b@.len() == 32768,
            base@.len() == 15,
            forall|p: int| 0 <= p < 15 ==> base@[p] == twist_log(log, exp, p),
            forall|h: int| 0 <= h < two_pow(i as int) && h < 32768 ==> b@[h] == twist_sum(log, exp, h),
        decreases 15 - i,
    {
        proof {
            lemma_two_pow_values();
            lemma_shift_is_two_pow(i);
            lemma_two_pow_grows(i as int, 14);
            lemma_two_pow_grows(i as int, i as int);
        }
        let depart: usize = 1 << i;
        let mut j: usize = 0;
        while j < depart
            invariant
                i < 15,
                j <= depart,
                depart == two_pow(i as int),
                depart <= 16384,
                b@.len() == 32768,
                base@.len() == 15,
                forall|p: int| 0 <= p < 15 ==> base@[p] == twist_log(log, exp, p),
                forall|h: int| 0 <= h < depart ==> b@[h] == twist_sum(log, exp, h),
                forall|h: int| depart <= h < depart + j ==> b@[h] == twist_sum(log, exp, h),
            decreases depart - j,
        {
            proof {
                lemma_twist_sum_step(log, exp, j as int, i as int);
            }
            let value: u32 = (b[j] as u32 + base[i] as u32) % (MODULO as u32);
            b[j + depart] = value as u16;
            j += 1;
        }
        i += 1;
    }
    proof {
        assert(b@ =~= b_spec(log, exp));
    }
    let mut log_walsh: Vec<u16> = vec![0u16; 65536];
    mem_cpy(log_walsh.as_mut_slice(), t.log.as_slice());
    log_walsh[0] = 0;
    proof {
        lemma_pow2_65536();
        assert(log_walsh@ =~= log.update(0, 0));
        assert(log_walsh@.subrange(0, 65536) =~= log_walsh@);
    }
    walsh(log_walsh.as_mut_slice(), FIELD_SIZE);
    proof {
        assert(log_walsh@.subrange(0, 65536) =~= log_walsh@);
    }
    t.skew = skew;
    t.b = b;
    t.log_walsh = log_walsh;
}

} // verus!
