//! Where binary32 arithmetic is exact: values that need no rounding, and
//! what follows for samples, for the weights zero and one.

use crate::binary32::{
    is_quantum, lemma_pack_of_parts, lemma_pow2_exponent_below, lemma_quantum_unique,
    lemma_round_of_zero, pack, round, scaled_denominator, scaled_numerator, Binary32,
};
use vstd::arithmetic::div_mod::*;
use vstd::arithmetic::mul::*;
use vstd::arithmetic::power2::*;
use vstd::prelude::*;

verus! {

/// Whether `significand * 2^exponent` is the form in which binary32 holds a
/// finite magnitude: at most twenty-four bits, and exactly twenty-four above
/// the least exponent.
pub open spec fn is_canonical(significand: nat, exponent: int) -> bool {
    &&& significand < 0x100_0000
    &&& -149 <= exponent <= 104
    &&& (exponent > -149 ==> significand >= 0x80_0000)
}

/// The parts of a packed canonical form are the parts it was packed from.
pub proof fn lemma_parts_of_pack(negative: bool, significand: nat, exponent: int)
    requires
        is_canonical(significand, exponent),
    ensures
        pack(negative, significand, exponent).is_finite(),
        pack(negative, significand, exponent).negative() == negative,
        pack(negative, significand, exponent).significand() == significand,
        pack(negative, significand, exponent).exponent() == exponent,
{
}

/// A magnitude that binary32 holds exactly rounds to itself, in whatever
/// unit it is given.
pub proof fn lemma_round_exact(negative: bool, n: nat, x: int, m: nat, e: int)
    requires
        is_canonical(m, e),
        (x <= e && n == m * pow2((e - x) as nat)) || (x >= e && m == n * pow2((x - e) as nat)),
    ensures
        round(negative, n, 1, x) == pack(negative, m, e),
{
    lemma2_to64();
    if x >= e {
        if x == e {
            assert(m * pow2(0) == m && n * pow2(0) == n) by (nonlinear_arith)
                requires
                    pow2(0) == 1,
            ;
        }
        assert(scaled_numerator(n, x, e) == m);
        assert(scaled_denominator(1, x, e) == 1);
        assert(m / 1 == m && m % 1 == 0);
    } else {
        let p = pow2((e - x) as nat);
        lemma_pow2_pos((e - x) as nat);
        lemma_mul_basics_3(p as int);
        assert(scaled_numerator(n, x, e) == n);
        assert(scaled_denominator(1, x, e) == p);
        lemma_fundamental_div_mod_converse(n as int, p as int, m as int, 0);
    }
    assert(is_quantum(n, 1, x, e));
    lemma_quantum_unique(n, 1, x, e);
}

/// By how many binary places a magnitude below two to the twenty-fourth is
/// raised to have twenty-four bits.
pub open spec fn normal_shift(n: nat) -> nat
    decreases 0x100_0000 - n,
{
    if n == 0 || n >= 0x80_0000 {
        0
    } else {
        1 + normal_shift(2 * n)
    }
}

/// Raised by its shift, a magnitude has exactly twenty-four bits.
pub proof fn lemma_normal_shift(n: nat)
    requires
        0 < n < 0x100_0000,
    ensures
        0x80_0000 <= n * pow2(normal_shift(n)) < 0x100_0000,
        normal_shift(n) <= 23,
        n <= 0x8000 ==> normal_shift(n) >= 8,
    decreases 0x100_0000 - n,
{
    let j = normal_shift(n);
    lemma2_to64();
    if n >= 0x80_0000 {
        assert(n * pow2(0) == n) by (nonlinear_arith)
            requires
                pow2(0) == 1,
        ;
    } else {
        lemma_normal_shift(2 * n);
        let k = normal_shift(2 * n);
        lemma_pow2_unfold(k + 1);
        assert(n * pow2(k + 1) == (2 * n) * pow2(k)) by (nonlinear_arith)
            requires
                pow2(k + 1) == 2 * pow2(k),
        ;
    }
    lemma_pow2_pos(j);
    assert(pow2(j) < 0x100_0000) by (nonlinear_arith)
        requires
            n * pow2(j) < 0x100_0000,
            n >= 1,
            pow2(j) > 0,
    ;
    lemma_pow2_exponent_below(j, 24);
    if n <= 0x8000 && j < 8 {
        lemma_pow2_strictly_increases(j, 8);
        assert(n * pow2(j) < 0x8000 * 0x100) by (nonlinear_arith)
            requires
                n <= 0x8000,
                pow2(j) < 0x100,
        ;
    }
}

/// The magnitude of a sample.
pub open spec fn magnitude(sample: i16) -> nat {
    if sample < 0 {
        (-sample) as nat
    } else {
        sample as nat
    }
}

/// The binary32 value of a sample holds the sample exactly.
pub proof fn lemma_of_sample_parts(sample: i16)
    ensures
        Binary32::of_sample(sample).is_finite(),
        Binary32::of_sample(sample).negative() == (sample < 0),
        sample == 0 ==> Binary32::of_sample(sample) == Binary32::zero(false),
        sample != 0 ==> {
            let j = normal_shift(magnitude(sample));
            &&& 8 <= j <= 23
            &&& Binary32::of_sample(sample).significand() == magnitude(sample) * pow2(j)
            &&& Binary32::of_sample(sample).exponent() == -j
        },
{
    let n = magnitude(sample);
    if sample == 0 {
        lemma_round_of_zero(false, 1, 0);
    } else {
        let j = normal_shift(n);
        lemma_normal_shift(n);
        let m = n * pow2(j);
        lemma_round_exact(sample < 0, n, 0, m, -j);
        lemma_parts_of_pack(sample < 0, m, -j);
    }
}

/// A sample taken to binary32 and back is the same sample.
pub proof fn lemma_sample_round_trip(sample: i16)
    ensures
        Binary32::of_sample(sample).sample() == sample,
{
    lemma_of_sample_parts(sample);
    let x = Binary32::of_sample(sample);
    if sample != 0 {
        let n = magnitude(sample);
        let j = normal_shift(n);
        let p = pow2(j);
        lemma_pow2_pos(j);
        lemma_fundamental_div_mod_converse((n * p) as int, p as int, n as int, 0);
        assert(x.whole_part() == n);
    } else {
        lemma_pow2_pos(149);
        lemma_div_basics_1(pow2(149) as int);
        assert(x.exponent() == -149);
        assert(x.whole_part() == 0);
    }
}

/// One times a finite value is that value.
pub proof fn lemma_product_by_one(x: Binary32)
    requires
        x.is_finite(),
    ensures
        Binary32::one().product(x) == x,
        x.product(Binary32::one()) == x,
{
    lemma_pack_of_parts(x);
    lemma2_to64();
    let m = x.significand();
    assert(Binary32::one().significand() == 0x80_0000);
    assert(Binary32::one().exponent() == -23);
    assert(0x80_0000 * m == m * pow2(23) && m * 0x80_0000 == m * pow2(23)) by (nonlinear_arith)
        requires
            pow2(23) == 0x80_0000,
    ;
    lemma_round_exact(x.negative(), m * pow2(23), x.exponent() - 23, m, x.exponent());
}

/// Zero times a finite value is zero, negative where the signs differ.
pub proof fn lemma_product_by_zero(z: Binary32, x: Binary32)
    requires
        z.is_zero(),
        x.is_finite(),
    ensures
        z.product(x) == Binary32::zero(z.negative() != x.negative()),
        x.product(z) == Binary32::zero(z.negative() != x.negative()),
{
    assert(z.significand() * x.significand() == 0 && x.significand() * z.significand() == 0)
        by (nonlinear_arith)
        requires
            z.significand() == 0,
    ;
    lemma_round_of_zero(z.negative() != x.negative(), 1, z.exponent() + x.exponent());
    lemma_round_of_zero(x.negative() != z.negative(), 1, x.exponent() + z.exponent());
}

/// A finite value plus zero is that value; two zeros give the negative zero
/// only where both are negative.
pub proof fn lemma_sum_with_zero(x: Binary32, z: Binary32)
    requires
        x.is_finite(),
        z.is_zero(),
    ensures
        !x.is_zero() ==> x.sum(z) == x && z.sum(x) == x,
        x.is_zero() ==> x.sum(z) == Binary32::zero(x.negative() && z.negative()) && z.sum(x)
            == Binary32::zero(x.negative() && z.negative()),
{
    lemma_pack_of_parts(x);
    lemma2_to64();
    let m = x.significand();
    let k = (x.exponent() + 149) as nat;
    let a = m * pow2(k);
    assert(0 * pow2(0) == 0);
    if m == 0 {
        assert(a == 0) by (nonlinear_arith)
            requires
                a == m * pow2(k),
                m == 0,
        ;
    } else {
        lemma_pow2_pos(k);
        assert(a > 0) by (nonlinear_arith)
            requires
                a == m * pow2(k),
                m > 0,
                pow2(k) > 0,
        ;
        lemma_round_exact(x.negative(), a, -149, m, x.exponent());
    }
}

/// One minus zero is one, and one minus one is zero.
pub proof fn lemma_weights_at_the_ends(z: Binary32)
    requires
        z.is_zero(),
    ensures
        Binary32::one().difference(z) == Binary32::one(),
        Binary32::one().difference(Binary32::one()) == Binary32::zero(false),
{
    lemma_sum_with_zero(Binary32::one(), z.negated());
    let minus_one = Binary32::one().negated();
    assert(minus_one.bits == 0xbf80_0000);
    assert(minus_one.significand() == 0x80_0000);
    assert(minus_one.exponent() == -23);
}


/// The value of a finite binary32, counted in units of two to the power
/// minus 149, in which every finite value is whole.
pub open spec fn ulps(x: Binary32) -> int {
    let magnitude = x.significand() * pow2((x.exponent() + 149) as nat);
    if x.negative() {
        -magnitude
    } else {
        magnitude as int
    }
}

/// One half.
pub open spec fn one_half() -> Binary32 {
    Binary32 { bits: 0x3f00_0000 }
}

/// The two terms of a finite sum, in the unit of the smaller exponent, are
/// the terms' values but for the common factor of that unit.
proof fn lemma_sum_terms(x: Binary32, y: Binary32) -> (t: (int, int, int))
    requires
        x.is_finite(),
        y.is_finite(),
    ensures
        ({
            let (a, b, e) = t;
            let g = pow2((e + 149) as nat);
            &&& e == if x.exponent() <= y.exponent() { x.exponent() } else { y.exponent() }
            &&& a == if x.negative() {
                -(x.significand() * pow2((x.exponent() - e) as nat))
            } else {
                (x.significand() * pow2((x.exponent() - e) as nat)) as int
            }
            &&& b == if y.negative() {
                -(y.significand() * pow2((y.exponent() - e) as nat))
            } else {
                (y.significand() * pow2((y.exponent() - e) as nat)) as int
            }
            &&& g > 0
            &&& ulps(x) == a * g
            &&& ulps(y) == b * g
            &&& ulps(x) + ulps(y) == (a + b) * g
        }),
{
    lemma_pack_of_parts(x);
    lemma_pack_of_parts(y);
    let e = if x.exponent() <= y.exponent() { x.exponent() } else { y.exponent() };
    let g = pow2((e + 149) as nat);
    let px = pow2((x.exponent() - e) as nat);
    let py = pow2((y.exponent() - e) as nat);
    let mx = x.significand();
    let my = y.significand();
    lemma_pow2_pos((e + 149) as nat);
    lemma_pow2_adds((x.exponent() - e) as nat, (e + 149) as nat);
    lemma_pow2_adds((y.exponent() - e) as nat, (e + 149) as nat);
    let a: int = if x.negative() { -(mx * px) } else { (mx * px) as int };
    let b: int = if y.negative() { -(my * py) } else { (my * py) as int };
    assert(mx * (px * g) == (mx * px) * g && my * (py * g) == (my * py) * g) by (nonlinear_arith);
    assert((-(mx * px)) * g == -((mx * px) * g) && (-(my * py)) * g == -((my * py) * g))
        by (nonlinear_arith);
    assert((a + b) * g == a * g + b * g) by (nonlinear_arith);
    (a, b, e)
}

/// Where the exact sum of two finite values is a value that binary32 holds,
/// their sum is that value.
pub proof fn lemma_sum_exact(x: Binary32, y: Binary32, m: nat, e: int)
    requires
        x.is_finite(),
        y.is_finite(),
        is_canonical(m, e),
        ulps(x) + ulps(y) != 0,
        m * pow2((e + 149) as nat) == if ulps(x) + ulps(y) < 0 {
            -(ulps(x) + ulps(y))
        } else {
            ulps(x) + ulps(y)
        },
    ensures
        x.sum(y) == pack(ulps(x) + ulps(y) < 0, m, e),
{
    let (a, b, u) = lemma_sum_terms(x, y);
    let g = pow2((u + 149) as nat);
    let t = a + b;
    let negative = ulps(x) + ulps(y) < 0;
    assert(t != 0 && (t < 0) == negative) by (nonlinear_arith)
        requires
            ulps(x) + ulps(y) == t * g,
            g > 0,
            ulps(x) + ulps(y) != 0,
            negative == (ulps(x) + ulps(y) < 0),
    ;
    let n: nat = if t < 0 { (-t) as nat } else { t as nat };
    assert(n * g == m * pow2((e + 149) as nat)) by (nonlinear_arith)
        requires
            ulps(x) + ulps(y) == t * g,
            n == if t < 0 { -t } else { t },
            m * pow2((e + 149) as nat) == if ulps(x) + ulps(y) < 0 {
                -(ulps(x) + ulps(y))
            } else {
                ulps(x) + ulps(y)
            },
            g > 0,
    ;
    if u <= e {
        let p = pow2((e - u) as nat);
        lemma_pow2_adds((e - u) as nat, (u + 149) as nat);
        assert(n == m * p) by (nonlinear_arith)
            requires
                n * g == m * (p * g),
                g > 0,
        ;
    } else {
        let p = pow2((u - e) as nat);
        let h = pow2((e + 149) as nat);
        lemma_pow2_pos((e + 149) as nat);
        lemma_pow2_adds((u - e) as nat, (e + 149) as nat);
        assert(m == n * p) by (nonlinear_arith)
            requires
                n * (p * h) == m * h,
                h > 0,
        ;
    }
    lemma_round_exact(negative, n, u, m, e);
}

/// Where two finite values cancel, their sum is zero, negative only where
/// both are.
pub proof fn lemma_sum_cancels(x: Binary32, y: Binary32)
    requires
        x.is_finite(),
        y.is_finite(),
        ulps(x) + ulps(y) == 0,
    ensures
        x.sum(y) == Binary32::zero(x.negative() && y.negative()),
{
    let (a, b, u) = lemma_sum_terms(x, y);
    let g = pow2((u + 149) as nat);
    assert(a + b == 0) by (nonlinear_arith)
        requires
            (a + b) * g == 0,
            g > 0,
    ;
}

/// Flipping the sign flips the value.
pub proof fn lemma_ulps_of_negated(x: Binary32)
    requires
        x.is_finite(),
    ensures
        x.negated().is_finite(),
        ulps(x.negated()) == -ulps(x),
        x.negated().negative() == !x.negative(),
{
}

/// The value of a sample's binary32 form is the sample.
pub proof fn lemma_ulps_of_sample(sample: i16)
    ensures
        ulps(Binary32::of_sample(sample)) == sample * pow2(149),
{
    lemma_of_sample_parts(sample);
    if sample == 0 {
        assert(0 * pow2(0) == 0);
    } else {
        let n = magnitude(sample);
        let j = normal_shift(n);
        lemma_pow2_adds(j, (149 - j) as nat);
        assert((n * pow2(j)) * pow2((149 - j) as nat) == n * pow2(149)) by (nonlinear_arith)
            requires
                pow2(149) == pow2(j) * pow2((149 - j) as nat),
        ;
        assert((-n) * pow2(149) == -(n * pow2(149))) by (nonlinear_arith);
    }
}

/// One minus one half is one half.
pub proof fn lemma_weight_at_one_half()
    ensures
        Binary32::one().difference(one_half()) == one_half(),
        !one_half().is_zero(),
        one_half().is_finite(),
        !one_half().negative(),
        one_half().significand() == 0x80_0000,
        one_half().exponent() == -24,
{
    let x = Binary32::one();
    let y = one_half().negated();
    assert(y.bits == 0xbf00_0000);
    assert(y.significand() == 0x80_0000 && y.exponent() == -24 && y.negative());
    assert(x.significand() == 0x80_0000 && x.exponent() == -23 && !x.negative());
    lemma2_to64();
    lemma_pow2_unfold(126);
    assert(ulps(x) + ulps(y) == 0x80_0000 * pow2(125)) by (nonlinear_arith)
        requires
            ulps(x) == 0x80_0000 * pow2(126),
            ulps(y) == -(0x80_0000 * pow2(125)),
            pow2(126) == 2 * pow2(125),
    ;
    lemma_pow2_pos(125);
    assert(0x80_0000 * pow2(125) > 0) by (nonlinear_arith)
        requires
            pow2(125) > 0,
    ;
    lemma_sum_exact(x, y, 0x80_0000, -24);
}

/// One half times a finite value above the least binade, or times zero, is
/// half that value.
pub proof fn lemma_product_by_one_half(x: Binary32)
    requires
        x.is_finite(),
        x.is_zero() || x.exponent() > -149,
    ensures
        one_half().product(x).is_finite(),
        one_half().product(x).negative() == x.negative(),
        2 * ulps(one_half().product(x)) == ulps(x),
{
    lemma_weight_at_one_half();
    lemma_pack_of_parts(x);
    lemma2_to64();
    let m = x.significand();
    let e = x.exponent();
    if x.is_zero() {
        lemma_product_by_zero(x, one_half());
        assert(0 * pow2(0) == 0);
    } else {
        assert(0x80_0000 * m == m * pow2(23)) by (nonlinear_arith)
            requires
                pow2(23) == 0x80_0000,
        ;
        lemma_round_exact(x.negative(), m * pow2(23), e - 24, m, e - 1);
        lemma_parts_of_pack(x.negative(), m, e - 1);
        lemma_pow2_unfold((e + 149) as nat);
        assert(2 * (m * pow2((e + 148) as nat)) == m * pow2((e + 149) as nat))
            by (nonlinear_arith)
            requires
                pow2((e + 149) as nat) == 2 * pow2((e + 148) as nat),
        ;
    }
}

/// A finite value below the greatest binade and above the least, or zero,
/// divided by one half is twice that value.
pub proof fn lemma_quotient_by_one_half(x: Binary32)
    requires
        x.is_finite(),
        x.is_zero() || -149 < x.exponent() < 104,
    ensures
        x.quotient(one_half()).is_finite(),
        x.quotient(one_half()).negative() == x.negative(),
        ulps(x.quotient(one_half())) == 2 * ulps(x),
{
    lemma_weight_at_one_half();
    lemma_pack_of_parts(x);
    lemma2_to64();
    let m = x.significand();
    let e = x.exponent();
    if x.is_zero() {
        lemma_round_of_zero(x.negative(), 0x80_0000, e + 24);
        assert(0 * pow2(0) == 0);
    } else {
        assert(scaled_numerator(m, e + 24, e + 1) == m * 0x80_0000);
        assert(scaled_denominator(0x80_0000, e + 24, e + 1) == 0x80_0000);
        assert(is_quantum(m, 0x80_0000, e + 24, e + 1));
        lemma_quantum_unique(m, 0x80_0000, e + 24, e + 1);
        lemma_parts_of_pack(x.negative(), m, e + 1);
        lemma_pow2_unfold((e + 150) as nat);
        assert(m * pow2((e + 150) as nat) == 2 * (m * pow2((e + 149) as nat)))
            by (nonlinear_arith)
            requires
                pow2((e + 150) as nat) == 2 * pow2((e + 149) as nat),
        ;
    }
}


/// `v`, or the end of the range of a sample that is nearest to it.
pub open spec fn clamped(v: int) -> i16 {
    if v < -32768 {
        (-32768) as i16
    } else if v > 32767 {
        32767
    } else {
        v as i16
    }
}

/// A finite value that is whole is, as a sample, that whole number clamped
/// to the range of a sample.
pub proof fn lemma_sample_of_whole(x: Binary32, v: int)
    requires
        x.is_finite(),
        ulps(x) == v * pow2(149),
    ensures
        x.sample() == clamped(v),
{
    lemma_pack_of_parts(x);
    let m = x.significand();
    let e = x.exponent();
    let n: nat = if v < 0 { (-v) as nat } else { v as nat };
    let g = pow2((e + 149) as nat);
    lemma_pow2_pos(149);
    lemma_pow2_pos((e + 149) as nat);
    assert(m * g == n * pow2(149) && (v < 0 ==> x.negative()) && (v > 0 ==> !x.negative()))
        by (nonlinear_arith)
        requires
            ulps(x) == v * pow2(149),
            ulps(x) == if x.negative() { -(m * g) } else { (m * g) as int },
            n == if v < 0 { -v } else { v },
            pow2(149) > 0,
            g > 0,
    ;
    if e >= 0 {
        let p = pow2(e as nat);
        lemma_pow2_adds(e as nat, 149);
        assert(m * p == n) by (nonlinear_arith)
            requires
                m * (p * pow2(149)) == n * pow2(149),
                pow2(149) > 0,
        ;
    } else {
        let p = pow2((-e) as nat);
        lemma_pow2_pos((-e) as nat);
        lemma_pow2_adds((-e) as nat, (e + 149) as nat);
        assert(m == n * p) by (nonlinear_arith)
            requires
                m * g == n * (p * g),
                g > 0,
        ;
        lemma_fundamental_div_mod_converse(m as int, p as int, n as int, 0);
    }
    assert(x.whole_part() == n);
}

} // verus!
