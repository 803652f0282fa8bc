//! Fixed-point arithmetic for the real-valued scores of the library.
//!
//! A fixed-point quantity `x` stands for the real number `x / SCALE`.
//! Exact ratios of integers are carried as a [`Ratio`] of numerator and
//! denominator and compared by cross-multiplication, which never loses
//! precision.

use vstd::prelude::*;

verus! {

/// Scale factor of fixed-point quantities: the value `x` stands for `x / SCALE`.
pub const SCALE: u64 = 10_000;

/// Relation weight of an IS_A edge in the ontology (0.8 at scale `SCALE`).
pub const IS_A_WEIGHT: u64 = 8_000;

/// Relation weight of a PART_OF edge in the ontology (0.6 at scale `SCALE`).
pub const PART_OF_WEIGHT: u64 = 6_000;

/// Largest numerator a well-formed [`Ratio`] may carry (2^90).
pub const RATIO_NUM_MAX: u128 = 1_237_940_039_285_380_274_899_124_224;

/// Largest denominator a well-formed [`Ratio`] may carry (2^37).
pub const RATIO_DEN_MAX: u128 = 137_438_953_472;

/// An exact non-negative rational `num / den`.
///
/// A `den` of zero never arises in values the library produces: operations
/// that would divide by zero are defined to yield [`Ratio::zero`] instead.
#[derive(Clone, Copy, Debug, PartialEq, Eq, Structural)]
pub struct Ratio {
    pub num: u128,
    pub den: u128,
}

/// A well-formed ratio has a positive denominator and bounded parts, so that
/// cross-multiplied comparisons never overflow.
pub open spec fn ratio_wf(r: Ratio) -> bool {
    1 <= r.den <= RATIO_DEN_MAX && r.num <= RATIO_NUM_MAX
}

/// `a <= b` as rationals, by cross-multiplication.
pub open spec fn ratio_le(a: Ratio, b: Ratio) -> bool {
    a.num * b.den <= b.num * a.den
}

/// `a < b` as rationals, by cross-multiplication.
pub open spec fn ratio_lt(a: Ratio, b: Ratio) -> bool {
    a.num * b.den < b.num * a.den
}

impl Ratio {
    /// The rational zero.
    pub open spec fn spec_zero() -> Ratio {
        Ratio { num: 0, den: 1 }
    }

    /// The rational zero.
    #[verifier::when_used_as_spec(spec_zero)]
    pub fn zero() -> (r: Ratio)
        ensures
            r == Ratio::spec_zero(),
    {
        Ratio { num: 0, den: 1 }
    }

    /// The ratio `num / den`, mapping a zero denominator to zero.
    pub fn new(num: u128, den: u128) -> (r: Ratio)
        requires
            num <= RATIO_NUM_MAX,
            den <= RATIO_DEN_MAX,
        ensures
            den > 0 ==> r == (Ratio { num, den }),
            den == 0 ==> r == Ratio::spec_zero(),
            ratio_wf(r),
    {
        if den == 0 {
            Ratio { num: 0, den: 1 }
        } else {
            Ratio { num, den }
        }
    }

    /// Whether `self <= other` as rationals.
    pub fn le(&self, other: &Ratio) -> (r: bool)
        requires
            ratio_wf(*self),
            ratio_wf(*other),
        ensures
            r == ratio_le(*self, *other),
    {
        proof {
            lemma_ratio_mul_fits(self.num, other.den);
            lemma_ratio_mul_fits(other.num, self.den);
        }
        self.num * other.den <= other.num * self.den
    }

    /// Whether `self < other` as rationals.
    pub fn lt(&self, other: &Ratio) -> (r: bool)
        requires
            ratio_wf(*self),
            ratio_wf(*other),
        ensures
            r == ratio_lt(*self, *other),
    {
        proof {
            lemma_ratio_mul_fits(self.num, other.den);
            lemma_ratio_mul_fits(other.num, self.den);
        }
        self.num * other.den < other.num * self.den
    }

    /// The fixed-point value of a proper fraction, truncated:
    /// `num * SCALE / den` (zero when the denominator is zero).
    pub fn to_fixed(&self) -> (r: u64)
        requires
            self.num <= self.den,
            self.den <= RATIO_DEN_MAX,
        ensures
            self.den > 0 ==> r == self.num * SCALE / (self.den as int),
            self.den == 0 ==> r == 0,
            r <= SCALE,
    {
        if self.den == 0 {
            0
        } else {
            proof {
                lemma_mul_le_bound(self.num as int, SCALE as int, RATIO_DEN_MAX as int, SCALE as int);
                lemma_div_le_dividend(self.num * SCALE, self.den as int);
                lemma_fraction_bound(self.num as int, self.den as int, SCALE as int);
            }
            (self.num * (SCALE as u128) / self.den) as u64
        }
    }
}

/// Ten to the `k`-th power.
pub open spec fn pow10(k: nat) -> int
    decreases k,
{
    if k == 0 {
        1
    } else {
        10 * pow10((k - 1) as nat)
    }
}

/// How many times `m` can be divided by ten before it falls below
/// `10 * SCALE`: the integer part of the base-10 logarithm of `m / SCALE`.
pub open spec fn norm_shift(m: int) -> nat
    decreases m,
{
    if m >= 10 * (SCALE as int) {
        1 + norm_shift(m / 10)
    } else {
        0
    }
}

/// `m` shifted down to the mantissa range `[SCALE, 10 * SCALE)`.
pub open spec fn norm_val(m: int) -> int
    decreases m,
{
    if m >= 10 * (SCALE as int) {
        norm_val(m / 10)
    } else {
        m
    }
}

/// The fixed-point `k`-th power of `m`: `k` multiplications, each rescaled
/// by `SCALE` with truncation.
pub open spec fn pow_step(m: int, k: nat) -> int
    decreases k,
{
    if k == 0 {
        SCALE as int
    } else {
        pow_step(m, (k - 1) as nat) * m / (SCALE as int)
    }
}

/// One digit-extraction round of the base-10 logarithm: raise the mantissa
/// to its tenth power and read off how far it overflows the mantissa range.
pub open spec fn log10_round_digit(m: int) -> nat {
    norm_shift(pow_step(m, 10))
}

/// The mantissa left for the next round.
pub open spec fn log10_round_rest(m: int) -> int {
    norm_val(pow_step(m, 10))
}

/// The first `rounds` fraction digits of the base-10 logarithm of the
/// mantissa `m`, as an integer in `[0, 10^rounds)`.
pub open spec fn log10_frac(m: int, rounds: nat) -> int
    decreases rounds,
{
    if rounds == 0 {
        0
    } else {
        log10_round_digit(m) * pow10((rounds - 1) as nat) + log10_frac(
            log10_round_rest(m),
            (rounds - 1) as nat,
        )
    }
}

/// The base-10 logarithm of `x / SCALE` at scale `SCALE`, truncated to four
/// fraction digits computed by repeated tenth powers.
pub open spec fn log10_spec(x: int) -> int {
    norm_shift(x) * (SCALE as int) + log10_frac(norm_val(x), 4)
}

/// Powers of ten are positive.
pub proof fn lemma_pow10_pos(a: nat)
    ensures
        pow10(a) >= 1,
    decreases a,
{
    if a > 0 {
        lemma_pow10_pos((a - 1) as nat);
    }
}

/// Powers of ten are monotone.
pub proof fn lemma_pow10_mono(a: nat, b: nat)
    requires
        a <= b,
    ensures
        1 <= pow10(a) <= pow10(b),
    decreases b,
{
    lemma_pow10_pos(a);
    if a < b {
        lemma_pow10_mono(a, (b - 1) as nat);
    }
}

/// The mantissa of a value at least `SCALE` lies in `[SCALE, 10 * SCALE)`.
pub proof fn lemma_norm_val_range(m: int)
    requires
        m >= SCALE,
    ensures
        (SCALE as int) <= norm_val(m) < 10 * (SCALE as int),
    decreases m,
{
    if m >= 10 * (SCALE as int) {
        lemma_norm_val_range(m / 10);
    }
}

/// A bound on the input bounds the shift count.
pub proof fn lemma_norm_shift_bound(m: int, k: nat)
    requires
        0 <= m < 10 * (SCALE as int) * pow10(k),
    ensures
        norm_shift(m) <= k,
    decreases k,
{
    if m >= 10 * (SCALE as int) {
        assert(k > 0) by {
            if k == 0 {
                assert(pow10(0) == 1);
            }
        }
        assert(m / 10 < 10 * (SCALE as int) * pow10((k - 1) as nat)) by (nonlinear_arith)
            requires
                m < 10 * (SCALE as int) * pow10(k),
                pow10(k) == 10 * pow10((k - 1) as nat),
                m >= 0,
        ;
        lemma_norm_shift_bound(m / 10, (k - 1) as nat);
    }
}

/// Shift a value down into the mantissa range `[SCALE, 10 * SCALE)`,
/// returning the shift count and the mantissa.
fn normalize(m: u64) -> (r: (u64, u64))
    requires
        m >= SCALE,
    ensures
        r.0 == norm_shift(m as int),
        r.1 == norm_val(m as int),
        SCALE <= r.1 < 10 * SCALE,
        r.0 <= 16,
{
    let mut v = m;
    let mut s: u64 = 0;
    proof {
        assert(pow10(0) == 1);
    }
    while v >= 10 * SCALE
        invariant
            SCALE <= v,
            norm_shift(m as int) == s + norm_shift(v as int),
            norm_val(m as int) == norm_val(v as int),
            (v as int) * pow10(s as nat) <= m,
            s <= 16,
        decreases v,
    {
        proof {
            lemma_pow10_pos(s as nat);
            assert((v as int / 10) * pow10((s + 1) as nat) <= (v as int) * pow10(s as nat))
                by (nonlinear_arith)
                requires
                    v >= 10,
                    pow10((s + 1) as nat) == 10 * pow10(s as nat),
                    pow10(s as nat) >= 1,
            ;
            lemma_pow10_mono(s as nat, (s + 1) as nat);
            // the shift count can never pass 16: otherwise the input would
            // exceed what a u64 can hold
            if s + 1 > 16 {
                lemma_pow10_mono(17, (s + 1) as nat);
                assert(pow10(17) == 100_000_000_000_000_000) by {
                    reveal_with_fuel(pow10, 18);
                }
                assert((v as int / 10) * pow10((s + 1) as nat) >= (SCALE as int) * pow10(17))
                    by (nonlinear_arith)
                    requires
                        v as int / 10 >= SCALE as int,
                        pow10((s + 1) as nat) >= pow10(17),
                        pow10(17) >= 1,
                ;
            }
        }
        v = v / 10;
        s = s + 1;
    }
    (s, v)
}

/// The fixed-point tenth power of a mantissa, truncated at each step.
fn tenth_power(m: u64) -> (p: u64)
    requires
        SCALE <= m < 10 * SCALE,
    ensures
        p == pow_step(m as int, 10),
        SCALE <= p,
        (p as int) < (SCALE as int) * pow10(10),
{
    let mut acc: u64 = SCALE;
    let mut k: u64 = 0;
    proof {
        assert(pow10(0) == 1);
    }
    while k < 10
        invariant
            k <= 10,
            SCALE <= m < 10 * SCALE,
            acc == pow_step(m as int, k as nat),
            SCALE <= acc,
            (acc as int) <= (SCALE as int) * pow10(k as nat),
            k >= 1 ==> (acc as int) < (SCALE as int) * pow10(k as nat),
        decreases 10 - k,
    {
        proof {
            lemma_pow10_mono(k as nat, 10);
            assert(pow10(10) == 10_000_000_000) by {
                reveal_with_fuel(pow10, 11);
            }
            assert((acc as int) * (m as int) <= 100_000_000_000_000 * 100_000)
                by (nonlinear_arith)
                requires
                    0 <= (acc as int) <= 100_000_000_000_000,
                    0 <= (m as int) <= 100_000,
            ;
            assert((acc as int) * (m as int) / (SCALE as int) < (SCALE as int) * pow10(
                (k + 1) as nat,
            )) by (nonlinear_arith)
                requires
                    (acc as int) <= (SCALE as int) * pow10(k as nat),
                    pow10((k + 1) as nat) == 10 * pow10(k as nat),
                    pow10(k as nat) >= 1,
                    0 <= acc,
                    0 <= m < 10 * SCALE,
                    SCALE == 10_000,
            ;
            assert((acc as int) * (m as int) / (SCALE as int) >= acc as int) by (nonlinear_arith)
                requires
                    m >= SCALE,
                    SCALE >= 1,
                    acc >= 0,
            ;
        }
        acc = ((acc as u128) * (m as u128) / (SCALE as u128)) as u64;
        k = k + 1;
    }
    acc
}

/// The base-10 logarithm of `x / SCALE`, at scale `SCALE`, truncated to
/// four fraction digits.
#[verifier::rlimit(50)]
pub fn log10_fixed(x: u64) -> (r: u64)
    requires
        x >= SCALE,
    ensures
        r == log10_spec(x as int),
        r < 200_000,
{
    let (ip, m0) = normalize(x);
    let ghost mstart = m0 as int;
    let mut m = m0;
    let mut frac: u64 = 0;
    let mut round: u64 = 0;
    proof {
        assert(pow10(4) == 10_000) by {
            reveal_with_fuel(pow10, 5);
        }
    }
    while round < 4
        invariant
            round <= 4,
            SCALE <= m < 10 * SCALE,
            frac < pow10(round as nat),
            pow10(4) == 10_000,
            log10_frac(mstart, 4) == frac * pow10((4 - round) as nat) + log10_frac(
                m as int,
                (4 - round) as nat,
            ),
        decreases 4 - round,
    {
        let p = tenth_power(m);
        proof {
            assert(pow10(10) == 10 * pow10(9));
            assert(10 * (SCALE as int) * pow10(9) == (SCALE as int) * pow10(10))
                by (nonlinear_arith)
                requires
                    pow10(10) == 10 * pow10(9),
            ;
            lemma_norm_shift_bound(p as int, 9);
        }
        let (d, m2) = normalize(p);
        proof {
            assert(pow10((4 - round) as nat) == 10 * pow10((3 - round) as nat));
            assert((frac * 10 + d) * pow10((3 - round) as nat) == frac * (10 * pow10(
                (3 - round) as nat,
            )) + d * pow10((3 - round) as nat)) by (nonlinear_arith);
            assert(frac * 10 + d < 10 * pow10(round as nat)) by (nonlinear_arith)
                requires
                    frac < pow10(round as nat),
                    d <= 9,
            ;
            lemma_pow10_mono(round as nat, 4);
            lemma_pow10_mono((round + 1) as nat, 4);
        }
        frac = frac * 10 + d;
        m = m2;
        round = round + 1;
    }
    proof {
        assert(round == 4);
        assert(pow10((4 - round) as nat) == pow10(0));
        assert(pow10(0) == 1);
        assert(log10_frac(m as int, (4 - round) as nat) == 0);
        assert(log10_frac(mstart, 4) == frac * 1 + 0);
        assert(frac * 1 == frac) by (nonlinear_arith);
        assert(frac == log10_frac(mstart, 4));
        assert(mstart == norm_val(x as int));
        assert(ip == norm_shift(x as int));
        assert(ip * SCALE + frac == log10_spec(x as int));
    }
    ip * SCALE + frac
}

/// Ratio comparison is transitive; the strict form stays strict when
/// composed with the weak form on either side.
pub proof fn lemma_ratio_trans(a: Ratio, b: Ratio, c: Ratio)
    requires
        ratio_wf(a),
        ratio_wf(b),
        ratio_wf(c),
    ensures
        ratio_le(a, b) && ratio_le(b, c) ==> ratio_le(a, c),
        ratio_lt(a, b) && ratio_le(b, c) ==> ratio_lt(a, c),
        ratio_le(a, b) && ratio_lt(b, c) ==> ratio_lt(a, c),
{
    assert((a.num * b.den <= b.num * a.den && b.num * c.den <= c.num * b.den ==> a.num * c.den
        <= c.num * a.den) && (a.num * b.den < b.num * a.den && b.num * c.den <= c.num * b.den
        ==> a.num * c.den < c.num * a.den) && (a.num * b.den <= b.num * a.den && b.num * c.den
        < c.num * b.den ==> a.num * c.den < c.num * a.den)) by (nonlinear_arith)
        requires
            1 <= a.den,
            1 <= b.den,
            1 <= c.den,
            a.num >= 0,
            b.num >= 0,
            c.num >= 0,
    ;
}

/// Cross-multiplication of well-formed ratio parts fits in a `u128`.
pub proof fn lemma_ratio_mul_fits(a: u128, b: u128)
    requires
        a <= RATIO_NUM_MAX,
        b <= RATIO_DEN_MAX,
    ensures
        a * b < 0x1_0000_0000_0000_0000_0000_0000_0000_0000,
{
    assert(a * b < 0x1_0000_0000_0000_0000_0000_0000_0000_0000) by (nonlinear_arith)
        requires
            a <= 1_237_940_039_285_380_274_899_124_224u128,
            b <= 137_438_953_472u128,
    ;
}

/// Multiplication is bounded by the product of the bounds.
pub proof fn lemma_mul_le_bound(a: int, b: int, ba: int, bb: int)
    requires
        0 <= a <= ba,
        0 <= b <= bb,
    ensures
        a * b <= ba * bb,
{
    assert(a * b <= ba * bb) by (nonlinear_arith)
        requires
            0 <= a <= ba,
            0 <= b <= bb,
    ;
}

/// A truncating division never exceeds the dividend.
pub proof fn lemma_div_le_dividend(a: int, b: int)
    requires
        0 <= a,
        1 <= b,
    ensures
        0 <= a / b <= a,
{
    assert(0 <= a / b <= a) by (nonlinear_arith)
        requires
            0 <= a,
            1 <= b,
    ;
}

/// A proper fraction scaled by `s` and truncated stays at most `s`.
pub proof fn lemma_fraction_bound(n: int, d: int, s: int)
    requires
        0 <= n <= d,
        1 <= d,
        0 <= s,
    ensures
        n * s / d <= s,
{
    assert(n * s / d <= s) by (nonlinear_arith)
        requires
            0 <= n <= d,
            1 <= d,
            0 <= s,
    ;
}

} // verus!
