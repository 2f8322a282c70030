//! IEEE 754 binary32 values, held as their 32 bits, and the arithmetic on
//! them carried out in integers: every operation returns the value nearest to
//! the exact result, ties going to the even significand.

use vstd::arithmetic::div_mod::*;
use vstd::arithmetic::mul::*;
use vstd::arithmetic::power2::*;
use vstd::prelude::*;

verus! {

/// A binary32 value, held as its bit pattern: one sign bit, eight bits of
/// biased exponent, twenty-three bits of fraction.
#[derive(Debug, Clone, Copy, PartialEq, Eq, Structural)]
pub struct Binary32 {
    pub bits: u32,
}

/// The least exponent of a significand: subnormal values and the least
/// normal binade are multiples of two to this power.
pub const MIN_EXPONENT: i32 = -149;

/// The greatest exponent of a finite value's significand.
pub const MAX_EXPONENT: i32 = 104;

/// Two to the twenty-third: the least significand of a normal value.
pub const HIDDEN_BIT: u32 = 0x80_0000;

impl Binary32 {
    /// Whether the sign bit is set.
    pub open spec fn negative(self) -> bool {
        self.bits >= 0x8000_0000
    }

    /// The eight exponent bits, as a number.
    pub open spec fn biased_exponent(self) -> int {
        (self.bits as int / 0x80_0000) % 0x100
    }

    /// The twenty-three fraction bits, as a number.
    pub open spec fn fraction(self) -> int {
        self.bits as int % 0x80_0000
    }

    /// Whether the pattern is not a number.
    pub open spec fn is_nan(self) -> bool {
        self.biased_exponent() == 255 && self.fraction() != 0
    }

    /// Whether the value is infinite, of either sign.
    pub open spec fn is_infinite(self) -> bool {
        self.biased_exponent() == 255 && self.fraction() == 0
    }

    /// Whether the pattern is a number and not infinite.
    pub open spec fn is_finite(self) -> bool {
        self.biased_exponent() < 255
    }

    /// Whether the value is zero, of either sign.
    pub open spec fn is_zero(self) -> bool {
        self.biased_exponent() == 0 && self.fraction() == 0
    }

    /// The significand of a finite value: its magnitude is
    /// `significand() * 2^exponent()`.
    pub open spec fn significand(self) -> nat {
        if self.biased_exponent() == 0 {
            self.fraction() as nat
        } else {
            (self.fraction() + 0x80_0000) as nat
        }
    }

    /// The exponent of a finite value's significand.
    pub open spec fn exponent(self) -> int {
        if self.biased_exponent() == 0 {
            -149
        } else {
            self.biased_exponent() - 150
        }
    }

    /// Zero of the given sign.
    pub open spec fn zero(negative: bool) -> Binary32 {
        Binary32 { bits: if negative { 0x8000_0000 } else { 0 } }
    }

    /// Infinity of the given sign.
    pub open spec fn infinity(negative: bool) -> Binary32 {
        Binary32 { bits: if negative { 0xff80_0000 } else { 0x7f80_0000 } }
    }

    /// The one not-a-number that the operations here return.
    pub open spec fn nan() -> Binary32 {
        Binary32 { bits: 0x7fc0_0000 }
    }

    /// One.
    pub open spec fn one() -> Binary32 {
        Binary32 { bits: 0x3f80_0000 }
    }

    /// The value with the sign bit flipped.
    pub open spec fn negated(self) -> Binary32 {
        Binary32 {
            bits: if self.bits >= 0x8000_0000 {
                (self.bits - 0x8000_0000) as u32
            } else {
                (self.bits + 0x8000_0000) as u32
            },
        }
    }

    /// `self * other`, rounded.
    pub open spec fn product(self, other: Binary32) -> Binary32 {
        let negative = self.negative() != other.negative();
        if self.is_nan() || other.is_nan() {
            Binary32::nan()
        } else if self.is_infinite() || other.is_infinite() {
            if self.is_zero() || other.is_zero() {
                Binary32::nan()
            } else {
                Binary32::infinity(negative)
            }
        } else {
            round(
                negative,
                self.significand() * other.significand(),
                1,
                self.exponent() + other.exponent(),
            )
        }
    }

    /// `self + other`, rounded.
    pub open spec fn sum(self, other: Binary32) -> Binary32 {
        if self.is_nan() || other.is_nan() {
            Binary32::nan()
        } else if self.is_infinite() {
            if other.is_infinite() && self.negative() != other.negative() {
                Binary32::nan()
            } else {
                Binary32::infinity(self.negative())
            }
        } else if other.is_infinite() {
            Binary32::infinity(other.negative())
        } else {
            finite_sum(
                self.negative(),
                self.significand(),
                self.exponent(),
                other.negative(),
                other.significand(),
                other.exponent(),
            )
        }
    }

    /// `self - other`, rounded.
    pub open spec fn difference(self, other: Binary32) -> Binary32 {
        self.sum(other.negated())
    }

    /// `self / other`, rounded.
    pub open spec fn quotient(self, other: Binary32) -> Binary32 {
        let negative = self.negative() != other.negative();
        if self.is_nan() || other.is_nan() {
            Binary32::nan()
        } else if self.is_infinite() {
            if other.is_infinite() {
                Binary32::nan()
            } else {
                Binary32::infinity(negative)
            }
        } else if other.is_infinite() {
            Binary32::zero(negative)
        } else if other.is_zero() {
            if self.is_zero() {
                Binary32::nan()
            } else {
                Binary32::infinity(negative)
            }
        } else {
            round(
                negative,
                self.significand(),
                other.significand(),
                self.exponent() - other.exponent(),
            )
        }
    }

    /// The binary32 value of a sample; every sample has one exactly.
    pub open spec fn of_sample(sample: i16) -> Binary32 {
        round(sample < 0, (if sample < 0 { -sample } else { sample as int }) as nat, 1, 0)
    }

    /// The whole part of a finite value's magnitude.
    pub open spec fn whole_part(self) -> nat {
        if self.exponent() >= 0 {
            self.significand() * pow2(self.exponent() as nat)
        } else {
            self.significand() / pow2((-self.exponent()) as nat)
        }
    }

    /// The value as a sample: the fraction is dropped, a value beyond the
    /// range of a sample gives the nearest end of the range, and
    /// not-a-number gives zero.
    pub open spec fn sample(self) -> i16 {
        if self.is_nan() {
            0
        } else if self.is_infinite() {
            if self.negative() {
                (-32768) as i16
            } else {
                32767
            }
        } else if self.negative() {
            if self.whole_part() >= 32768 {
                (-32768) as i16
            } else {
                (-(self.whole_part() as int)) as i16
            }
        } else {
            if self.whole_part() >= 32767 {
                32767
            } else {
                self.whole_part() as i16
            }
        }
    }
}

/// The rounded sum of two finite values, each given by sign, significand and
/// exponent. An exact sum of zero is negative only where both terms are.
pub open spec fn finite_sum(sa: bool, ma: nat, ea: int, sb: bool, mb: nat, eb: int) -> Binary32 {
    let e = if ea <= eb { ea } else { eb };
    let a: int = if sa { -(ma * pow2((ea - e) as nat)) } else { (ma * pow2((ea - e) as nat)) as int };
    let b: int = if sb { -(mb * pow2((eb - e) as nat)) } else { (mb * pow2((eb - e) as nat)) as int };
    if a + b == 0 {
        Binary32::zero(sa && sb)
    } else if a + b < 0 {
        round(true, (-(a + b)) as nat, 1, e)
    } else {
        round(false, (a + b) as nat, 1, e)
    }
}

/// The numerator of `num / den * 2^exp` counted in units of `2^q`.
pub open spec fn scaled_numerator(num: nat, exp: int, q: int) -> nat {
    if exp >= q {
        num * pow2((exp - q) as nat)
    } else {
        num
    }
}

/// The denominator of `num / den * 2^exp` counted in units of `2^q`.
pub open spec fn scaled_denominator(den: nat, exp: int, q: int) -> nat {
    if exp >= q {
        den
    } else {
        den * pow2((q - exp) as nat)
    }
}

/// How many whole units of `2^q` fit into `num / den * 2^exp`.
pub open spec fn quotient_at(num: nat, den: nat, exp: int, q: int) -> nat {
    scaled_numerator(num, exp, q) / scaled_denominator(den, exp, q)
}

/// Whether `2^q` is the unit in which binary32 holds a value of the size of
/// `num / den * 2^exp`: the value has twenty-four significant bits in that
/// unit, or fewer where the unit is the least one.
pub open spec fn is_quantum(num: nat, den: nat, exp: int, q: int) -> bool {
    &&& q >= -149
    &&& quotient_at(num, den, exp, q) < 0x100_0000
    &&& (q == -149 || quotient_at(num, den, exp, q) >= 0x80_0000)
}

/// The exponent of the unit in which `num / den * 2^exp` is rounded.
pub open spec fn quantum(num: nat, den: nat, exp: int) -> int {
    choose|q: int| is_quantum(num, den, exp, q)
}

/// The integer nearest to `n / d`; of two equally near, the even one.
pub open spec fn nearest_even(n: nat, d: nat) -> nat {
    let f = n / d;
    let r = n % d;
    if 2 * r > d || (2 * r == d && f % 2 == 1) {
        f + 1
    } else {
        f
    }
}

/// The binary32 value of magnitude `significand * 2^exponent` and the given
/// sign, for a significand of at most twenty-four bits (or two to the
/// twenty-fourth, which rounding up may reach) that is below two to the
/// twenty-third only at the least exponent. Magnitudes beyond the finite
/// range give infinity.
pub open spec fn pack(negative: bool, significand: nat, exponent: int) -> Binary32 {
    let sign: int = if negative { 0x8000_0000 } else { 0 };
    let m: int = if significand == 0x100_0000 { 0x80_0000 } else { significand as int };
    let e: int = if significand == 0x100_0000 { exponent + 1 } else { exponent };
    if m < 0x80_0000 {
        Binary32 { bits: (sign + m) as u32 }
    } else if e > 104 {
        Binary32::infinity(negative)
    } else {
        Binary32 { bits: (sign + (e + 149) * 0x80_0000 + m) as u32 }
    }
}

/// The binary32 value nearest to `num / den * 2^exp`, with the given sign;
/// of two equally near, the one with the even significand.
pub open spec fn round(negative: bool, num: nat, den: nat, exp: int) -> Binary32 {
    let q = quantum(num, den, exp);
    pack(
        negative,
        nearest_even(scaled_numerator(num, exp, q), scaled_denominator(den, exp, q)),
        q,
    )
}

/// Raising the unit by one binary place halves the count of whole units.
pub proof fn lemma_quotient_halves(num: nat, den: nat, exp: int, q: int)
    requires
        den > 0,
    ensures
        quotient_at(num, den, exp, q + 1) == quotient_at(num, den, exp, q) / 2,
{
    if exp >= q + 1 {
        let half = num * pow2((exp - q - 1) as nat);
        lemma_pow2_unfold((exp - q) as nat);
        assert(num * pow2((exp - q) as nat) == 2 * half) by (nonlinear_arith)
            requires
                pow2((exp - q) as nat) == 2 * pow2((exp - q - 1) as nat),
                half == num * pow2((exp - q - 1) as nat),
        ;
        lemma_div_denominator((2 * half) as int, den as int, 2);
        lemma_div_multiples_vanish_quotient(2, half as int, den as int);
        assert(den * 2 == 2 * den);
    } else if exp == q {
        lemma2_to64();
        assert(num * pow2(0) == num);
        assert(den * pow2(1) == den * 2);
        lemma_div_denominator(num as int, den as int, 2);
    } else {
        let d = den * pow2((q - exp) as nat);
        lemma_pow2_pos((q - exp) as nat);
        lemma_mul_strictly_positive(den as int, pow2((q - exp) as nat) as int);
        lemma_pow2_unfold((q + 1 - exp) as nat);
        assert(den * pow2((q + 1 - exp) as nat) == d * 2) by (nonlinear_arith)
            requires
                pow2((q + 1 - exp) as nat) == 2 * pow2((q - exp) as nat),
                d == den * pow2((q - exp) as nat),
        ;
        lemma_div_denominator(num as int, d as int, 2);
    }
}

/// A larger unit holds no more whole units.
pub proof fn lemma_quotient_antitone(num: nat, den: nat, exp: int, q1: int, q2: int)
    requires
        den > 0,
        q1 <= q2,
    ensures
        quotient_at(num, den, exp, q2) <= quotient_at(num, den, exp, q1),
    decreases q2 - q1,
{
    if q1 < q2 {
        lemma_quotient_antitone(num, den, exp, q1, q2 - 1);
        lemma_quotient_halves(num, den, exp, q2 - 1);
    }
}

/// At most one unit is the quantum of a value.
pub proof fn lemma_quantum_unique(num: nat, den: nat, exp: int, q: int)
    requires
        den > 0,
        is_quantum(num, den, exp, q),
    ensures
        quantum(num, den, exp) == q,
{
    let c = quantum(num, den, exp);
    assert(is_quantum(num, den, exp, c));
    if c < q {
        lemma_quotient_halves(num, den, exp, c);
        lemma_quotient_antitone(num, den, exp, c + 1, q);
    } else if q < c {
        lemma_quotient_halves(num, den, exp, q);
        lemma_quotient_antitone(num, den, exp, q + 1, c);
    }
}


/// A smaller power of two has the smaller exponent.
pub proof fn lemma_pow2_exponent_below(k: nat, bound: nat)
    requires
        pow2(k) < pow2(bound),
    ensures
        k < bound,
{
    if k > bound {
        lemma_pow2_strictly_increases(bound, k);
    }
}

/// Values of a few powers of two beyond the thirty-second.
pub proof fn lemma_pow2_values()
    ensures
        pow2(0) == 1,
        pow2(1) == 2,
        pow2(23) == 0x80_0000,
        pow2(24) == 0x100_0000,
        pow2(32) == 0x1_0000_0000,
        pow2(40) == 0x100_0000_0000,
        pow2(64) == 0x1_0000_0000_0000_0000,
        pow2(66) == 0x4_0000_0000_0000_0000,
{
    lemma2_to64();
    lemma_pow2_adds(32, 8);
    lemma_pow2_adds(64, 2);
}

/// Zero rounds to zero.
pub proof fn lemma_round_of_zero(negative: bool, den: nat, exp: int)
    requires
        den > 0,
    ensures
        round(negative, 0, den, exp) == Binary32::zero(negative),
{
    let sd = scaled_denominator(den, exp, -149);
    if exp < -149 {
        lemma_pow2_pos((-149 - exp) as nat);
        lemma_mul_strictly_positive(den as int, pow2((-149 - exp) as nat) as int);
    }
    assert(scaled_numerator(0, exp, -149) == 0);
    lemma_div_basics_1(sd as int);
    lemma_small_mod(0, sd);
    assert(is_quantum(0, den, exp, -149));
    lemma_quantum_unique(0, den, exp, -149);
}

/// A value below a quarter of the least unit rounds to zero.
pub proof fn lemma_round_of_tiny(negative: bool, num: nat, den: nat, exp: int)
    requires
        num < 0x1_0000_0000_0000_0000,
        den > 0,
        exp <= -149 - 66,
    ensures
        round(negative, num, den, exp) == Binary32::zero(negative),
{
    let k = (-149 - exp) as nat;
    let sd = scaled_denominator(den, exp, -149);
    lemma_pow2_values();
    if k > 66 {
        lemma_pow2_strictly_increases(66, k);
    }
    assert(sd >= pow2(k)) by (nonlinear_arith)
        requires
            sd == den * pow2(k),
            den > 0,
    ;
    assert(scaled_numerator(num, exp, -149) == num);
    lemma_basic_div(num as int, sd as int);
    lemma_small_mod(num, sd);
    assert(is_quantum(num, den, exp, -149));
    lemma_quantum_unique(num, den, exp, -149);
}

/// Two to the power `k`.
fn power_of_two(k: u32) -> (r: u128)
    requires
        k <= 66,
    ensures
        r == pow2(k as nat),
{
    let mut r: u128 = 1;
    let mut i: u32 = 0;
    proof {
        lemma_pow2_values();
    }
    while i < k
        invariant
            i <= k,
            k <= 66,
            r == pow2(i as nat),
            pow2(66) == 0x4_0000_0000_0000_0000,
        decreases k - i,
    {
        proof {
            lemma_pow2_strictly_increases(i as nat, 66);
            lemma_pow2_unfold((i + 1) as nat);
        }
        r = r * 2;
        i = i + 1;
    }
    r
}

/// The bit pattern of the value `significand * 2^exponent` with the given
/// sign.
fn pack_bits(negative: bool, significand: u32, exponent: i32) -> (r: Binary32)
    requires
        significand <= 0x100_0000,
        -149 <= exponent <= 2000,
    ensures
        r == pack(negative, significand as nat, exponent as int),
{
    let sign: u32 = if negative { 0x8000_0000 } else { 0 };
    let m: u32 = if significand == 0x100_0000 { HIDDEN_BIT } else { significand };
    let e: i32 = if significand == 0x100_0000 { exponent + 1 } else { exponent };
    if m < HIDDEN_BIT {
        Binary32 { bits: sign + m }
    } else if e > MAX_EXPONENT {
        Binary32 { bits: sign + 0x7f80_0000 }
    } else {
        let biased: u32 = (e + 149) as u32;
        Binary32 { bits: sign + biased * HIDDEN_BIT + m }
    }
}

/// Rounds `num / den * 2^exp` to binary32.
fn round_ratio(negative: bool, num: u128, den: u128, exp: i32) -> (r: Binary32)
    requires
        num < 0x1_0000_0000_0000_0000,
        0 < den < 0x1_0000_0000,
        -1000 <= exp <= 1000,
    ensures
        r == round(negative, num as nat, den as nat, exp as int),
{
    if num == 0 {
        proof {
            lemma_round_of_zero(negative, den as nat, exp as int);
        }
        return Binary32 { bits: if negative { 0x8000_0000 } else { 0 } };
    }
    let mut n: u128 = num;
    let mut d: u128 = den;
    let mut q: i32 = exp;
    proof {
        lemma_pow2_values();
    }
    if exp < MIN_EXPONENT {
        let k: i32 = MIN_EXPONENT - exp;
        if k >= 66 {
            proof {
                lemma_round_of_tiny(negative, num as nat, den as nat, exp as int);
            }
            return Binary32 { bits: if negative { 0x8000_0000 } else { 0 } };
        }
        let p: u128 = power_of_two(k as u32);
        proof {
            lemma_pow2_strictly_increases(k as nat, 66);
            lemma_pow2_pos(k as nat);
        }
        assert(0 < den * p < 0x4_0000_0000_0000_0000_0000_0000) by (nonlinear_arith)
            requires
                0 < den < 0x1_0000_0000,
                0 < p < 0x4_0000_0000_0000_0000,
        ;
        d = den * p;
        q = MIN_EXPONENT;
    }
    assert(num * pow2(0) == num) by (nonlinear_arith)
        requires
            pow2(0) == 1,
    ;
    assert(n == scaled_numerator(num as nat, exp as int, q as int));
    assert(d == scaled_denominator(den as nat, exp as int, q as int));
    if n >= d * 0x100_0000 {
        while n >= d * 0x100_0000
            invariant
                -1000 <= exp <= 1000,
                exp <= q <= exp + 200,
                -149 <= q,
                n == num,
                n < 0x1_0000_0000_0000_0000,
                0 < den,
                0 < d < 0x4_0000_0000_0000_0000_0000_0000,
                d == scaled_denominator(den as nat, exp as int, q as int),
                n >= d * 0x80_0000,
                pow2(0) == 1,
                pow2(1) == 2,
                pow2(40) == 0x100_0000_0000,
            decreases n - d,
        {
            proof {
                let k = (q - exp) as nat;
                if k > 0 {
                    assert(pow2(k) <= d) by (nonlinear_arith)
                        requires
                            d == den * pow2(k),
                            den > 0,
                    ;
                    lemma_pow2_exponent_below(k, 40);
                }
                lemma_pow2_unfold(k + 1);
                assert(den * pow2(k + 1) == 2 * (den * pow2(k))) by (nonlinear_arith)
                    requires
                        pow2(k + 1) == 2 * pow2(k),
                ;
            }
            d = d * 2;
            q = q + 1;
        }
    } else {
        while q > MIN_EXPONENT && n < d * 0x80_0000
            invariant
                -1000 <= exp <= 1000,
                -149 <= q,
                q <= exp || q == -149,
                0 < n,
                0 < d < 0x4_0000_0000_0000_0000_0000_0000,
                0 < den < 0x1_0000_0000,
                n == scaled_numerator(num as nat, exp as int, q as int),
                d == scaled_denominator(den as nat, exp as int, q as int),
                n < d * 0x100_0000,
            decreases q + 149,
        {
            proof {
                let k = (exp - q) as nat;
                lemma_pow2_unfold(k + 1);
                assert(num * pow2(k + 1) == 2 * (num * pow2(k))) by (nonlinear_arith)
                    requires
                        pow2(k + 1) == 2 * pow2(k),
                ;
            }
            n = n * 2;
            q = q - 1;
        }
    }
    let f: u128 = n / d;
    let r: u128 = n % d;
    proof {
        lemma_multiply_divide_lt(n as int, d as int, 0x100_0000);
        if n >= d * 0x80_0000 {
            assert(n / d >= 0x80_0000) by (nonlinear_arith)
                requires
                    n >= d * 0x80_0000,
                    d > 0,
            ;
        }
        assert(is_quantum(num as nat, den as nat, exp as int, q as int));
        lemma_quantum_unique(num as nat, den as nat, exp as int, q as int);
    }
    let m: u128 = if 2 * r > d || (2 * r == d && f % 2 == 1) {
        f + 1
    } else {
        f
    };
    pack_bits(negative, m as u32, q)
}


/// A finite value is what its sign, significand and exponent pack to.
pub proof fn lemma_pack_of_parts(x: Binary32)
    requires
        x.is_finite(),
    ensures
        pack(x.negative(), x.significand(), x.exponent()) == x,
        x.significand() < 0x100_0000,
        -149 <= x.exponent() <= 104,
        x.exponent() > -149 ==> x.significand() >= 0x80_0000,
{
}

/// Adding a value more than twenty-five binary places below the unit of a
/// finite value leaves that value.
pub proof fn lemma_sum_far_apart(x: Binary32, y: Binary32)
    requires
        x.is_finite(),
        y.is_finite(),
        x.exponent() - y.exponent() >= 26,
    ensures
        finite_sum(
            x.negative(),
            x.significand(),
            x.exponent(),
            y.negative(),
            y.significand(),
            y.exponent(),
        ) == x,
{
    let ma = x.significand();
    let mb = y.significand();
    let ex = x.exponent();
    let ey = y.exponent();
    let d = (ex - ey) as nat;
    let p = pow2(d);
    lemma_pack_of_parts(x);
    lemma_pack_of_parts(y);
    lemma2_to64();
    if d > 26 {
        lemma_pow2_strictly_increases(26, d);
    }
    assert(p >= 0x400_0000);
    assert(pow2(0) == 1);
    assert(mb * pow2(0) == mb) by (nonlinear_arith)
        requires
            pow2(0) == 1,
    ;
    let a = ma * p;
    assert(a >= 0x80_0000 * p) by (nonlinear_arith)
        requires
            a == ma * p,
            ma >= 0x80_0000,
            p > 0,
    ;
    if x.negative() == y.negative() || mb == 0 {
        let n = (a + mb) as nat;
        assert(scaled_numerator(n, ey, ex) == n);
        assert(scaled_denominator(1, ey, ex) == p) by {
            lemma_mul_basics_3(p as int);
        }
        lemma_fundamental_div_mod_converse(n as int, p as int, ma as int, mb as int);
        assert(is_quantum(n, 1, ey, ex));
        lemma_quantum_unique(n, 1, ey, ex);
    } else if ma > 0x80_0000 {
        let n = (a - mb) as nat;
        assert(n == (ma - 1) * p + (p - mb)) by (nonlinear_arith)
            requires
                n == a - mb,
                a == ma * p,
        ;
        assert(scaled_numerator(n, ey, ex) == n);
        assert(scaled_denominator(1, ey, ex) == p) by {
            lemma_mul_basics_3(p as int);
        }
        lemma_fundamental_div_mod_converse(n as int, p as int, ma - 1, p - mb);
        assert(is_quantum(n, 1, ey, ex));
        lemma_quantum_unique(n, 1, ey, ex);
    } else {
        let n = (a - mb) as nat;
        let h = pow2((d - 1) as nat);
        lemma_pow2_unfold(d);
        assert(p == 2 * h);
        assert(n == 0xff_ffff * h + (h - mb)) by (nonlinear_arith)
            requires
                n == a - mb,
                a == ma * p,
                ma == 0x80_0000,
                p == 2 * h,
        ;
        assert(scaled_numerator(n, ey, ex - 1) == n);
        assert(scaled_denominator(1, ey, ex - 1) == h) by {
            lemma_mul_basics_3(h as int);
        }
        lemma_fundamental_div_mod_converse(n as int, h as int, 0xff_ffff, h - mb);
        assert(is_quantum(n, 1, ey, ex - 1));
        lemma_quantum_unique(n, 1, ey, ex - 1);
    }
}


/// The rounded sum of two finite values, the first of which has the exponent
/// that is not the smaller.
fn sum_ordered(x: Binary32, y: Binary32) -> (r: Binary32)
    requires
        x.is_finite(),
        y.is_finite(),
        x.exponent() >= y.exponent(),
    ensures
        r == finite_sum(
            x.negative(),
            x.significand(),
            x.exponent(),
            y.negative(),
            y.significand(),
            y.exponent(),
        ),
{
    let ey: i32 = y.exponent_value();
    let d: i32 = x.exponent_value() - ey;
    if d > 32 {
        proof {
            lemma_sum_far_apart(x, y);
        }
        return x;
    }
    let p: u128 = power_of_two(d as u32);
    let mx: u128 = x.significand_bits() as u128;
    let b: u128 = y.significand_bits() as u128;
    proof {
        lemma_pow2_values();
        if d < 32 {
            lemma_pow2_strictly_increases(d as nat, 32);
        }
        assert(b * pow2(0) == b) by (nonlinear_arith)
            requires
                pow2(0) == 1,
        ;
    }
    assert(mx * p < 0x100_0000 * 0x1_0000_0000) by (nonlinear_arith)
        requires
            mx < 0x100_0000,
            p <= 0x1_0000_0000,
    ;
    let a: u128 = mx * p;
    let sx: bool = x.sign_bit();
    let sy: bool = y.sign_bit();
    if sx == sy {
        if a + b == 0 {
            Binary32 { bits: if sx { 0x8000_0000 } else { 0 } }
        } else {
            round_ratio(sx, a + b, 1, ey)
        }
    } else if a > b {
        round_ratio(sx, a - b, 1, ey)
    } else if a < b {
        round_ratio(sy, b - a, 1, ey)
    } else {
        Binary32 { bits: 0 }
    }
}

impl Binary32 {
    /// The value with the given bit pattern.
    pub fn from_bits(bits: u32) -> (r: Binary32)
        ensures
            r.bits == bits,
    {
        Binary32 { bits }
    }

    /// The bit pattern of the value.
    pub fn to_bits(self) -> (r: u32)
        ensures
            r == self.bits,
    {
        self.bits
    }

    /// Whether the sign bit is set.
    pub fn sign_bit(self) -> (r: bool)
        ensures
            r == self.negative(),
    {
        self.bits >= 0x8000_0000
    }

    /// The eight exponent bits.
    pub fn exponent_bits(self) -> (r: u32)
        ensures
            r == self.biased_exponent(),
    {
        (self.bits / HIDDEN_BIT) % 0x100
    }

    /// The twenty-three fraction bits.
    pub fn fraction_bits(self) -> (r: u32)
        ensures
            r == self.fraction(),
    {
        self.bits % HIDDEN_BIT
    }

    /// The significand of a finite value.
    pub fn significand_bits(self) -> (r: u32)
        ensures
            r == self.significand(),
            r < 0x100_0000,
    {
        if self.exponent_bits() == 0 {
            self.fraction_bits()
        } else {
            self.fraction_bits() + HIDDEN_BIT
        }
    }

    /// The exponent of a finite value's significand.
    pub fn exponent_value(self) -> (r: i32)
        ensures
            r == self.exponent(),
            -149 <= r <= 105,
    {
        let biased: u32 = self.exponent_bits();
        if biased == 0 {
            MIN_EXPONENT
        } else {
            biased as i32 - 150
        }
    }

    /// The value with the sign bit flipped.
    pub fn negate(self) -> (r: Binary32)
        ensures
            r == self.negated(),
    {
        if self.bits >= 0x8000_0000 {
            Binary32 { bits: self.bits - 0x8000_0000 }
        } else {
            Binary32 { bits: self.bits + 0x8000_0000 }
        }
    }

    /// `self * other`, rounded to the nearest value, ties to even.
    pub fn times(self, other: Binary32) -> (r: Binary32)
        ensures
            r == self.product(other),
    {
        let xa: u32 = self.exponent_bits();
        let xb: u32 = other.exponent_bits();
        let fa: u32 = self.fraction_bits();
        let fb: u32 = other.fraction_bits();
        let negative: bool = self.sign_bit() != other.sign_bit();
        if (xa == 255 && fa != 0) || (xb == 255 && fb != 0) {
            return Binary32 { bits: 0x7fc0_0000 };
        }
        if xa == 255 || xb == 255 {
            if (xa == 0 && fa == 0) || (xb == 0 && fb == 0) {
                return Binary32 { bits: 0x7fc0_0000 };
            }
            return Binary32 { bits: if negative { 0xff80_0000 } else { 0x7f80_0000 } };
        }
        let ma: u128 = self.significand_bits() as u128;
        let mb: u128 = other.significand_bits() as u128;
        assert(ma * mb < 0x100_0000 * 0x100_0000) by (nonlinear_arith)
            requires
                ma < 0x100_0000,
                mb < 0x100_0000,
        ;
        round_ratio(negative, ma * mb, 1, self.exponent_value() + other.exponent_value())
    }

    /// `self + other`, rounded to the nearest value, ties to even.
    pub fn plus(self, other: Binary32) -> (r: Binary32)
        ensures
            r == self.sum(other),
    {
        let xa: u32 = self.exponent_bits();
        let xb: u32 = other.exponent_bits();
        if (xa == 255 && self.fraction_bits() != 0) || (xb == 255 && other.fraction_bits() != 0) {
            return Binary32 { bits: 0x7fc0_0000 };
        }
        if xa == 255 {
            if xb == 255 && self.sign_bit() != other.sign_bit() {
                return Binary32 { bits: 0x7fc0_0000 };
            }
            return self;
        }
        if xb == 255 {
            return other;
        }
        if self.exponent_value() >= other.exponent_value() {
            sum_ordered(self, other)
        } else {
            sum_ordered(other, self)
        }
    }

    /// `self - other`, rounded to the nearest value, ties to even.
    pub fn minus(self, other: Binary32) -> (r: Binary32)
        ensures
            r == self.difference(other),
    {
        self.plus(other.negate())
    }

    /// `self / other`, rounded to the nearest value, ties to even.
    pub fn divided_by(self, other: Binary32) -> (r: Binary32)
        ensures
            r == self.quotient(other),
    {
        let xa: u32 = self.exponent_bits();
        let xb: u32 = other.exponent_bits();
        let fa: u32 = self.fraction_bits();
        let fb: u32 = other.fraction_bits();
        let negative: bool = self.sign_bit() != other.sign_bit();
        if (xa == 255 && fa != 0) || (xb == 255 && fb != 0) {
            return Binary32 { bits: 0x7fc0_0000 };
        }
        if xa == 255 {
            if xb == 255 {
                return Binary32 { bits: 0x7fc0_0000 };
            }
            return Binary32 { bits: if negative { 0xff80_0000 } else { 0x7f80_0000 } };
        }
        if xb == 255 {
            return Binary32 { bits: if negative { 0x8000_0000 } else { 0 } };
        }
        if xb == 0 && fb == 0 {
            if xa == 0 && fa == 0 {
                return Binary32 { bits: 0x7fc0_0000 };
            }
            return Binary32 { bits: if negative { 0xff80_0000 } else { 0x7f80_0000 } };
        }
        round_ratio(
            negative,
            self.significand_bits() as u128,
            other.significand_bits() as u128,
            self.exponent_value() - other.exponent_value(),
        )
    }

    /// The binary32 value of a sample.
    pub fn from_sample(sample: i16) -> (r: Binary32)
        ensures
            r == Binary32::of_sample(sample),
    {
        let wide: i32 = sample as i32;
        let magnitude: i32 = if wide < 0 { -wide } else { wide };
        round_ratio(sample < 0, magnitude as u128, 1, 0)
    }

    /// The value as a sample, the fraction dropped.
    pub fn to_sample(self) -> (r: i16)
        ensures
            r == self.sample(),
    {
        let negative: bool = self.sign_bit();
        if self.exponent_bits() == 255 {
            if self.fraction_bits() != 0 {
                return 0;
            }
            return if negative { -32768 } else { 32767 };
        }
        let m: u32 = self.significand_bits();
        let e: i32 = self.exponent_value();
        proof {
            lemma_pow2_values();
        }
        if e >= 0 {
            proof {
                lemma_pow2_pos(e as nat);
                assert(m * pow2(e as nat) >= 0x80_0000) by (nonlinear_arith)
                    requires
                        m >= 0x80_0000,
                        pow2(e as nat) > 0,
                ;
            }
            return if negative { -32768 } else { 32767 };
        }
        let k: i32 = -e;
        let mut whole: u32 = 0;
        if k < 24 {
            let p: u128 = power_of_two(k as u32);
            proof {
                lemma_pow2_pos(k as nat);
                lemma_div_is_ordered_by_denominator(m as int, 1, p as int);
            }
            whole = (m as u128 / p) as u32;
        } else {
            proof {
                if k > 24 {
                    lemma_pow2_strictly_increases(24, k as nat);
                }
                lemma_basic_div(m as int, pow2(k as nat) as int);
            }
        }
        if negative {
            if whole >= 32768 {
                -32768
            } else {
                (-(whole as i32)) as i16
            }
        } else {
            if whole >= 32767 {
                32767
            } else {
                whole as i16
            }
        }
    }
}

} // verus!
