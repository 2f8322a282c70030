//! What holds of the operations together: which of them undo which, and what
//! mixing and unmixing give at the ends of the balance.

use crate::binary32::Binary32;
use crate::exactness::{
    clamped, is_canonical, lemma_normal_shift, lemma_of_sample_parts, lemma_parts_of_pack,
    lemma_product_by_one, lemma_product_by_one_half, lemma_product_by_zero,
    lemma_quotient_by_one_half, lemma_sample_of_whole, lemma_sample_round_trip, lemma_sum_cancels,
    lemma_sum_exact, lemma_sum_with_zero, lemma_ulps_of_negated, lemma_ulps_of_sample,
    lemma_weight_at_one_half, lemma_weights_at_the_ends, normal_shift, one_half, ulps,
};
use vstd::arithmetic::div_mod::*;
use vstd::arithmetic::power2::*;
use crate::signal_ops::{
    insert_result, inserted, mix_result, mixed, mixed_sample, remove_result, removed,
    sample_or_silence, unmixed, unmixed_sample,
};
use crate::types::SignalError;
use vstd::prelude::*;

verus! {

/// Removing, at the same position, a signal that was inserted whole gives the
/// base back.
pub proof fn lemma_remove_undoes_insert(base: Seq<i16>, add: Seq<i16>, position: nat)
    requires
        position <= base.len(),
    ensures
        insert_result(base, add, position, 0) == Ok::<Seq<i16>, SignalError>(
            inserted(base, add, position as int, 0),
        ),
        remove_result(inserted(base, add, position as int, 0), add.len(), position) == Ok::<
            Seq<i16>,
            SignalError,
        >(base),
{
    assert(removed(inserted(base, add, position as int, 0), add.len() as int, position as int)
        =~= base);
}

/// Removing a signal of no samples changes nothing.
pub proof fn lemma_remove_nothing(combined: Seq<i16>, position: nat)
    requires
        position <= combined.len(),
    ensures
        remove_result(combined, 0, position) == Ok::<Seq<i16>, SignalError>(combined),
{
    assert(removed(combined, 0, position as int) =~= combined);
}

/// With no weight on the added sample, a mixed sample is the base sample.
pub proof fn lemma_mixed_sample_without_added_weight(balance: Binary32, base: i16, add: i16)
    requires
        balance.is_zero(),
    ensures
        mixed_sample(balance, base, add) == base,
{
    let b = Binary32::of_sample(base);
    let a = Binary32::of_sample(add);
    lemma_weights_at_the_ends(balance);
    lemma_of_sample_parts(base);
    lemma_of_sample_parts(add);
    lemma_product_by_one(b);
    lemma_product_by_zero(balance, a);
    lemma_sum_with_zero(b, balance.product(a));
    lemma_sample_round_trip(base);
}

/// With all the weight on the added sample, a mixed sample is the added
/// sample.
pub proof fn lemma_mixed_sample_with_all_added_weight(base: i16, add: i16)
    ensures
        mixed_sample(Binary32::one(), base, add) == add,
{
    let b = Binary32::of_sample(base);
    let a = Binary32::of_sample(add);
    let none = Binary32::zero(false);
    lemma_weights_at_the_ends(none);
    lemma_of_sample_parts(base);
    lemma_of_sample_parts(add);
    lemma_product_by_one(a);
    lemma_product_by_zero(none, b);
    lemma_sum_with_zero(a, none.product(b));
    lemma_sample_round_trip(add);
}

/// Mixing with a balance of zero leaves the base as it is, but for the
/// silence that pads it where the added signal reaches beyond its end.
pub proof fn lemma_mix_without_added_weight(
    base: Seq<i16>,
    add: Seq<i16>,
    position: nat,
    add_offset: nat,
    balance: Binary32,
)
    requires
        balance.is_zero(),
        add_offset <= add.len(),
    ensures
        mix_result(base, add, position, add_offset, balance) == Ok::<Seq<i16>, SignalError>(
            mixed(base, add, position as int, add_offset as int, balance),
        ),
        mixed(base, add, position as int, add_offset as int, balance).len() >= base.len(),
        forall|i: int|
            0 <= i < mixed(base, add, position as int, add_offset as int, balance).len()
                ==> #[trigger] mixed(base, add, position as int, add_offset as int, balance)[i]
                == sample_or_silence(base, i),
        position + (add.len() - add_offset) <= base.len() ==> mixed(
            base,
            add,
            position as int,
            add_offset as int,
            balance,
        ) == base,
{
    let out = mixed(base, add, position as int, add_offset as int, balance);
    assert forall|i: int| 0 <= i < out.len() implies #[trigger] out[i] == sample_or_silence(
        base,
        i,
    ) by {
        if position <= i < position + (add.len() - add_offset) {
            lemma_mixed_sample_without_added_weight(
                balance,
                sample_or_silence(base, i),
                add[add_offset + (i - position)],
            );
        }
    }
    if position + (add.len() - add_offset) <= base.len() {
        assert(out =~= base);
    }
}

/// Mixing with a balance of one puts the added signal in the place of the
/// base where the two overlap, and leaves the base as it is elsewhere.
pub proof fn lemma_mix_with_all_added_weight(
    base: Seq<i16>,
    add: Seq<i16>,
    position: nat,
    add_offset: nat,
)
    requires
        add_offset <= add.len(),
    ensures
        mix_result(base, add, position, add_offset, Binary32::one()) == Ok::<
            Seq<i16>,
            SignalError,
        >(mixed(base, add, position as int, add_offset as int, Binary32::one())),
        forall|i: int|
            0 <= i < mixed(base, add, position as int, add_offset as int, Binary32::one()).len()
                ==> #[trigger] mixed(
                base,
                add,
                position as int,
                add_offset as int,
                Binary32::one(),
            )[i] == if position <= i < position + (add.len() - add_offset) {
                add[add_offset + (i - position)]
            } else {
                sample_or_silence(base, i)
            },
{
    let out = mixed(base, add, position as int, add_offset as int, Binary32::one());
    assert forall|i: int| 0 <= i < out.len() implies #[trigger] out[i] == if position <= i
        < position + (add.len() - add_offset) {
        add[add_offset + (i - position)]
    } else {
        sample_or_silence(base, i)
    } by {
        if position <= i < position + (add.len() - add_offset) {
            lemma_mixed_sample_with_all_added_weight(
                sample_or_silence(base, i),
                add[add_offset + (i - position)],
            );
        }
    }
}

/// Unmixing with a balance of one, under which the base had no weight,
/// writes silence where the two signals overlap and keeps the rest.
pub proof fn lemma_unmix_without_base_weight(combined: Seq<i16>, signal: Seq<i16>, position: nat)
    ensures
        unmixed(combined, signal, position as int, Binary32::one()).len() == combined.len(),
        forall|i: int|
            0 <= i < combined.len() ==> #[trigger] unmixed(
                combined,
                signal,
                position as int,
                Binary32::one(),
            )[i] == if position <= i < position + signal.len() {
                0i16
            } else {
                combined[i]
            },
{
    lemma_weights_at_the_ends(Binary32::zero(false));
    assert forall|c: i16, s: i16| #[trigger] unmixed_sample(Binary32::one(), c, s) == 0 by {}
}


/// The mean of two samples, its fraction dropped.
pub open spec fn mean_toward_zero(base: i16, add: i16) -> int {
    if base + add >= 0 {
        (base + add) / 2
    } else {
        -((-(base + add)) / 2)
    }
}

/// At a balance of one half a mixed sample is the mean of the two samples,
/// its fraction dropped.
pub proof fn lemma_mixed_sample_at_one_half(base: i16, add: i16)
    ensures
        mixed_sample(one_half(), base, add) == mean_toward_zero(base, add),
{
    let b = Binary32::of_sample(base);
    let a = Binary32::of_sample(add);
    let hb = one_half().product(b);
    let ha = one_half().product(a);
    let total = base + add;
    lemma_weight_at_one_half();
    lemma_of_sample_parts(base);
    lemma_of_sample_parts(add);
    lemma_ulps_of_sample(base);
    lemma_ulps_of_sample(add);
    lemma_product_by_one_half(b);
    lemma_product_by_one_half(a);
    lemma_pow2_unfold(149);
    lemma_pow2_pos(148);
    let g = pow2(148);
    assert(ulps(hb) == base * g && ulps(ha) == add * g && ulps(hb) + ulps(ha) == total * g
        && (total < 0 <==> total * g < 0) && (total == 0 <==> total * g == 0))
        by (nonlinear_arith)
        requires
            2 * ulps(hb) == base * (2 * g),
            2 * ulps(ha) == add * (2 * g),
            total == base + add,
            g > 0,
    ;
    let r = hb.sum(ha);
    if total == 0 {
        lemma_sum_cancels(hb, ha);
        lemma_pow2_pos(149);
        lemma_div_basics_1(pow2(149) as int);
        assert(r.whole_part() == 0);
    } else {
        let s: nat = if total < 0 { (-total) as nat } else { total as nat };
        let j = normal_shift(s);
        lemma_normal_shift(s);
        let m = s * pow2(j);
        let e = -1 - j;
        lemma_pow2_adds(j, (148 - j) as nat);
        assert(m * pow2((e + 149) as nat) == s * g && s * g == if total * g < 0 {
            -(total * g)
        } else {
            total * g
        }) by (nonlinear_arith)
            requires
                m == s * pow2(j),
                e + 149 == 148 - j,
                g == pow2(j) * pow2((148 - j) as nat),
                s == if total < 0 { -total } else { total },
                g > 0,
        ;
        assert(is_canonical(m, e));
        lemma_sum_exact(hb, ha, m, e);
        lemma_parts_of_pack(total < 0, m, e);
        lemma_pow2_unfold(j + 1);
        lemma_pow2_pos(j);
        lemma_div_multiples_vanish_quotient(pow2(j) as int, s as int, 2);
        assert(m == pow2(j) * s && pow2(j + 1) == pow2(j) * 2) by (nonlinear_arith)
            requires
                m == s * pow2(j),
                pow2(j + 1) == 2 * pow2(j),
        ;
        assert(r.whole_part() == s / 2);
    }
}

/// At a balance of one half an unmixed sample is twice the combined sample
/// less the signal's, clamped to the range of a sample.
pub proof fn lemma_unmixed_sample_at_one_half(combined: i16, signal: i16)
    ensures
        unmixed_sample(one_half(), combined, signal) == clamped(2 * combined - signal),
{
    let c = Binary32::of_sample(combined);
    let s = Binary32::of_sample(signal);
    let hs = one_half().product(s);
    let total = 2 * combined - signal;
    lemma_weight_at_one_half();
    lemma_of_sample_parts(combined);
    lemma_of_sample_parts(signal);
    lemma_ulps_of_sample(combined);
    lemma_ulps_of_sample(signal);
    lemma_product_by_one_half(s);
    lemma_ulps_of_negated(hs);
    lemma_pow2_unfold(149);
    lemma_pow2_pos(148);
    let g = pow2(148);
    let n = hs.negated();
    assert(ulps(c) + ulps(n) == total * g && (total < 0 <==> total * g < 0) && (total == 0 <==> total
        * g == 0)) by (nonlinear_arith)
        requires
            ulps(c) == combined * (2 * g),
            2 * ulps(hs) == signal * (2 * g),
            ulps(n) == -ulps(hs),
            total == 2 * combined - signal,
            g > 0,
    ;
    let d = c.sum(n);
    assert(d == c.difference(hs));
    if total == 0 {
        lemma_sum_cancels(c, n);
        assert(0 * pow2(0) == 0);
        assert(ulps(d) == 0);
    } else {
        let r: nat = if total < 0 { (-total) as nat } else { total as nat };
        let j = normal_shift(r);
        lemma_normal_shift(r);
        let m = r * pow2(j);
        let e = -1 - j;
        lemma_pow2_adds(j, (148 - j) as nat);
        assert(m * pow2((e + 149) as nat) == r * g && r * g == if total * g < 0 {
            -(total * g)
        } else {
            total * g
        }) by (nonlinear_arith)
            requires
                m == r * pow2(j),
                e + 149 == 148 - j,
                g == pow2(j) * pow2((148 - j) as nat),
                r == if total < 0 { -total } else { total },
                g > 0,
        ;
        assert(is_canonical(m, e));
        lemma_sum_exact(c, n, m, e);
        lemma_parts_of_pack(total < 0, m, e);
        assert(ulps(d) == total * g) by (nonlinear_arith)
            requires
                ulps(d) == if total < 0 {
                    -(m * pow2((e + 149) as nat))
                } else {
                    (m * pow2((e + 149) as nat)) as int
                },
                m * pow2((e + 149) as nat) == r * g,
                r == if total < 0 { -total } else { total },
        ;
    }
    lemma_quotient_by_one_half(d);
    let q = d.quotient(one_half());
    assert(ulps(q) == total * pow2(149)) by (nonlinear_arith)
        requires
            ulps(q) == 2 * ulps(d),
            ulps(d) == total * g,
            pow2(149) == 2 * g,
    ;
    lemma_sample_of_whole(q, total);
}

/// At a balance of one half, unmixing a mixed sample gives the base sample
/// back to within one.
pub proof fn lemma_unmix_undoes_mix_sample_at_one_half(base: i16, add: i16)
    ensures
        -1 <= unmixed_sample(one_half(), mixed_sample(one_half(), base, add), add) - base <= 1,
{
    lemma_mixed_sample_at_one_half(base, add);
    lemma_unmixed_sample_at_one_half(mixed_sample(one_half(), base, add), add);
}

/// At a balance of one half, unmixing what was mixed into a base that
/// needed no padding gives the base back, each sample to within one.
pub proof fn lemma_unmix_undoes_mix_at_one_half(base: Seq<i16>, add: Seq<i16>, position: nat)
    requires
        position + add.len() <= base.len(),
    ensures
        ({
            let combined = mixed(base, add, position as int, 0, one_half());
            let back = unmixed(combined, add, position as int, one_half());
            &&& mix_result(base, add, position, 0, one_half()) == Ok::<Seq<i16>, SignalError>(
                combined,
            )
            &&& back.len() == base.len()
            &&& forall|i: int| 0 <= i < base.len() ==> -1 <= #[trigger] back[i] - base[i] <= 1
            &&& forall|i: int|
                0 <= i < base.len() && !(position <= i < position + add.len()) ==> #[trigger] back[i]
                    == base[i]
        }),
{
    let combined = mixed(base, add, position as int, 0, one_half());
    let back = unmixed(combined, add, position as int, one_half());
    assert forall|i: int| 0 <= i < base.len() implies -1 <= #[trigger] back[i] - base[i] <= 1 by {
        if position <= i < position + add.len() {
            lemma_unmix_undoes_mix_sample_at_one_half(base[i], add[i - position]);
        }
    }
}

} // verus!
