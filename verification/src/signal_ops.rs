//! The four sample-array operations and what they compute.

use crate::binary32::Binary32;
use crate::types::{CombineOp, SeparateOp, SignalError};
use vstd::prelude::*;
use vstd::slice::slice_subrange;

verus! {

/// What an operation returned, its samples taken as a sequence.
pub open spec fn outcome(result: Result<Vec<i16>, SignalError>) -> Result<Seq<i16>, SignalError> {
    match result {
        Ok(samples) => Ok(samples@),
        Err(e) => Err(e),
    }
}

/// The sample at index `i`, or silence where the signal has none.
pub open spec fn sample_or_silence(signal: Seq<i16>, i: int) -> i16 {
    if 0 <= i < signal.len() {
        signal[i]
    } else {
        0
    }
}

/// `base[..position] ++ add[add_offset..] ++ base[position..]`.
pub open spec fn inserted(base: Seq<i16>, add: Seq<i16>, position: int, add_offset: int) -> Seq<
    i16,
> {
    base.subrange(0, position) + add.subrange(add_offset, add.len() as int) + base.subrange(
        position,
        base.len() as int,
    )
}

/// What inserting gives: the spliced signal where the position lies in the
/// base and the offset in the added signal, an error elsewhere.
pub open spec fn insert_result(base: Seq<i16>, add: Seq<i16>, position: nat, add_offset: nat)
    -> Result<Seq<i16>, SignalError> {
    if position <= base.len() && add_offset <= add.len() {
        Ok(inserted(base, add, position as int, add_offset as int))
    } else {
        Err(SignalError::OutOfRange)
    }
}

/// `combined[..position] ++ combined[position + length..]`.
pub open spec fn removed(combined: Seq<i16>, length: int, position: int) -> Seq<i16> {
    combined.subrange(0, position) + combined.subrange(position + length, combined.len() as int)
}

/// What removing a signal of `length` samples gives: the rest where the
/// signal's range lies in the combined signal, an error elsewhere.
pub open spec fn remove_result(combined: Seq<i16>, length: nat, position: nat) -> Result<
    Seq<i16>,
    SignalError,
> {
    if position + length <= combined.len() {
        Ok(removed(combined, length as int, position as int))
    } else {
        Err(SignalError::OutOfRange)
    }
}

/// `weight_base * base + weight_add * add`, each step rounded as binary32
/// arithmetic rounds it, the fraction of the sum dropped.
pub open spec fn blended(weight_base: Binary32, weight_add: Binary32, base: i16, add: i16) -> i16 {
    weight_base.product(Binary32::of_sample(base)).sum(
        weight_add.product(Binary32::of_sample(add)),
    ).sample()
}

/// One sample of a mix: the added sample weighs `balance`, the base sample
/// one minus `balance`.
pub open spec fn mixed_sample(balance: Binary32, base: i16, add: i16) -> i16 {
    blended(Binary32::one().difference(balance), balance, base, add)
}

/// The base, padded with silence up to the end of the added signal where it
/// is shorter, with `add[add_offset..]` blended in from `position` on.
pub open spec fn mixed(
    base: Seq<i16>,
    add: Seq<i16>,
    position: int,
    add_offset: int,
    balance: Binary32,
) -> Seq<i16> {
    let end = position + (add.len() - add_offset);
    let length = if end > base.len() { end } else { base.len() as int };
    Seq::new(
        length as nat,
        |i: int|
            if position <= i < end {
                mixed_sample(balance, sample_or_silence(base, i), add[add_offset + (i - position)])
            } else {
                sample_or_silence(base, i)
            },
    )
}

/// What mixing gives: the mix where the offset lies in the added signal, an
/// error elsewhere.
pub open spec fn mix_result(
    base: Seq<i16>,
    add: Seq<i16>,
    position: nat,
    add_offset: nat,
    balance: Binary32,
) -> Result<Seq<i16>, SignalError> {
    if add_offset <= add.len() {
        Ok(mixed(base, add, position as int, add_offset as int, balance))
    } else {
        Err(SignalError::OutOfRange)
    }
}

/// `(combined - weight_add * signal) / weight_base`, each step rounded as
/// binary32 arithmetic rounds it, the fraction of the quotient dropped.
pub open spec fn unblended(weight_base: Binary32, weight_add: Binary32, combined: i16, signal: i16)
    -> i16 {
    Binary32::of_sample(combined).difference(
        weight_add.product(Binary32::of_sample(signal)),
    ).quotient(weight_base).sample()
}

/// One sample of an unmix: silence where the base had no weight in the mix,
/// else the base sample recovered from the mixed one.
pub open spec fn unmixed_sample(balance: Binary32, combined: i16, signal: i16) -> i16 {
    let weight_base = Binary32::one().difference(balance);
    if weight_base.is_zero() {
        0
    } else {
        unblended(weight_base, balance, combined, signal)
    }
}

/// The combined signal with the signal taken out of the blend from
/// `position` on, as far as the two overlap.
pub open spec fn unmixed(combined: Seq<i16>, signal: Seq<i16>, position: int, balance: Binary32)
    -> Seq<i16> {
    Seq::new(
        combined.len(),
        |i: int|
            if position <= i < position + signal.len() {
                unmixed_sample(balance, combined[i], signal[i - position])
            } else {
                combined[i]
            },
    )
}

/// What combining gives under each operation.
pub open spec fn combine_result(base: Seq<i16>, add: Seq<i16>, position: nat, op: CombineOp)
    -> Result<Seq<i16>, SignalError> {
    match op {
        CombineOp::Insert { add_offset } => insert_result(base, add, position, add_offset as nat),
        CombineOp::Mix { mix_balance, add_offset, normalize } => mix_result(
            base,
            add,
            position,
            add_offset as nat,
            mix_balance,
        ),
    }
}

/// What separating gives under each operation.
pub open spec fn separate_result(
    combined: Seq<i16>,
    signal: Seq<i16>,
    position: nat,
    op: SeparateOp,
) -> Result<Seq<i16>, SignalError> {
    match op {
        SeparateOp::Remove => remove_result(combined, signal.len(), position),
        SeparateOp::Unmix { mix_balance } => Ok(
            unmixed(combined, signal, position as int, mix_balance),
        ),
    }
}

/// Splices `add[add_offset..]` into `base` at `position`.
pub fn insert_signal(base: &[i16], add: &[i16], position: usize, add_offset: usize) -> (result:
    Result<Vec<i16>, SignalError>)
    ensures
        outcome(result) == insert_result(base@, add@, position as nat, add_offset as nat),
        result matches Ok(out) ==> out@.len() == base@.len() + (add@.len() - add_offset),
{
    if position > base.len() || add_offset > add.len() {
        return Err(SignalError::OutOfRange);
    }
    let mut out: Vec<i16> = Vec::new();
    out.extend_from_slice(slice_subrange(base, 0, position));
    out.extend_from_slice(slice_subrange(add, add_offset, add.len()));
    out.extend_from_slice(slice_subrange(base, position, base.len()));
    assert(out@ =~= inserted(base@, add@, position as int, add_offset as int));
    Ok(out)
}

/// Cuts the range `[position, position + signal.len())` out of `combined`.
pub fn remove_signal(combined: &[i16], signal: &[i16], position: usize) -> (result: Result<
    Vec<i16>,
    SignalError,
>)
    ensures
        outcome(result) == remove_result(combined@, signal@.len(), position as nat),
        result matches Ok(out) ==> out@.len() == combined@.len() - signal@.len(),
{
    if signal.len() > combined.len() || position > combined.len() - signal.len() {
        return Err(SignalError::OutOfRange);
    }
    let end: usize = position + signal.len();
    let mut out: Vec<i16> = Vec::new();
    out.extend_from_slice(slice_subrange(combined, 0, position));
    out.extend_from_slice(slice_subrange(combined, end, combined.len()));
    assert(out@ =~= removed(combined@, signal@.len() as int, position as int));
    Ok(out)
}

/// One blended sample.
pub fn blend(weight_base: Binary32, weight_add: Binary32, base: i16, add: i16) -> (r: i16)
    ensures
        r == blended(weight_base, weight_add, base, add),
{
    weight_base.times(Binary32::from_sample(base)).plus(
        weight_add.times(Binary32::from_sample(add)),
    ).to_sample()
}

/// One sample recovered from a blend in which the base had a weight.
pub fn unblend(weight_base: Binary32, weight_add: Binary32, combined: i16, signal: i16) -> (r: i16)
    ensures
        r == unblended(weight_base, weight_add, combined, signal),
{
    Binary32::from_sample(combined).minus(
        weight_add.times(Binary32::from_sample(signal)),
    ).divided_by(weight_base).to_sample()
}

/// Blends `add[add_offset..]` into `base` from `position` on. Where the added
/// signal reaches beyond the base, the base counts as silence there.
pub fn mix_signals(
    base: &[i16],
    add: &[i16],
    position: usize,
    add_offset: usize,
    mix_balance: Binary32,
    normalize: bool,
) -> (result: Result<Vec<i16>, SignalError>)
    ensures
        outcome(result) == mix_result(
            base@,
            add@,
            position as nat,
            add_offset as nat,
            mix_balance,
        ),
        result matches Ok(out) ==> out@.len() == if position + (add@.len() - add_offset)
            > base@.len() {
            position + (add@.len() - add_offset)
        } else {
            base@.len() as int
        },
{
    if add_offset > add.len() {
        return Err(SignalError::OutOfRange);
    }
    let weight_base: Binary32 = Binary32::from_bits(0x3f80_0000).minus(mix_balance);
    let ghost goal = mixed(base@, add@, position as int, add_offset as int, mix_balance);
    let mut out: Vec<i16> = Vec::new();
    while out.len() < position
        invariant
            out.len() <= position,
            goal == mixed(base@, add@, position as int, add_offset as int, mix_balance),
            add_offset <= add.len(),
            forall|k: int| 0 <= k < out.len() ==> out[k] == goal[k],
        decreases position - out.len(),
    {
        let i: usize = out.len();
        out.push(if i < base.len() { base[i] } else { 0 });
    }
    let mut j: usize = add_offset;
    while j < add.len()
        invariant
            add_offset <= j <= add.len(),
            out.len() == position + (j - add_offset),
            weight_base == Binary32::one().difference(mix_balance),
            goal == mixed(base@, add@, position as int, add_offset as int, mix_balance),
            forall|k: int| 0 <= k < out.len() ==> out[k] == goal[k],
        decreases add.len() - j,
    {
        let i: usize = out.len();
        let under: i16 = if i < base.len() { base[i] } else { 0 };
        out.push(blend(weight_base, mix_balance, under, add[j]));
        j = j + 1;
    }
    while out.len() < base.len()
        invariant
            out.len() >= position + (add.len() - add_offset),
            out.len() == position + (add.len() - add_offset) || out.len() <= base.len(),
            goal == mixed(base@, add@, position as int, add_offset as int, mix_balance),
            add_offset <= add.len(),
            forall|k: int| 0 <= k < out.len() ==> out[k] == goal[k],
        decreases base.len() - out.len(),
    {
        let i: usize = out.len();
        out.push(base[i]);
    }
    assert(out@ =~= goal);
    Ok(out)
}

/// Takes `signal` out of the blend in `combined` from `position` on, as far
/// as the two overlap; the samples outside the overlap are kept.
pub fn unmix_signal(combined: &[i16], signal: &[i16], position: usize, mix_balance: Binary32)
    -> (result: Vec<i16>)
    ensures
        result@ == unmixed(combined@, signal@, position as int, mix_balance),
        result@.len() == combined@.len(),
{
    let weight_base: Binary32 = Binary32::from_bits(0x3f80_0000).minus(mix_balance);
    let unrecoverable: bool = weight_base.exponent_bits() == 0 && weight_base.fraction_bits() == 0;
    let ghost goal = unmixed(combined@, signal@, position as int, mix_balance);
    let mut out: Vec<i16> = Vec::new();
    let mut j: usize = 0;
    while out.len() < combined.len()
        invariant
            out.len() <= combined.len(),
            j <= signal.len(),
            out.len() <= position ==> j == 0,
            out.len() > position ==> (j == out.len() - position || (j == signal.len() && j
                < out.len() - position)),
            weight_base == Binary32::one().difference(mix_balance),
            unrecoverable == weight_base.is_zero(),
            goal == unmixed(combined@, signal@, position as int, mix_balance),
            forall|k: int| 0 <= k < out.len() ==> out[k] == goal[k],
        decreases combined.len() - out.len(),
    {
        let i: usize = out.len();
        if i >= position && j < signal.len() {
            out.push(
                if unrecoverable {
                    0
                } else {
                    unblend(weight_base, mix_balance, combined[i], signal[j])
                },
            );
            j = j + 1;
        } else {
            out.push(combined[i]);
        }
    }
    assert(out@ =~= goal);
    out
}

/// Combines `base` and `add` at `position` as `op` says.
pub fn combine_signals(base: &[i16], add: &[i16], position: usize, op: CombineOp) -> (result:
    Result<Vec<i16>, SignalError>)
    ensures
        outcome(result) == combine_result(base@, add@, position as nat, op),
{
    match op {
        CombineOp::Insert { add_offset } => insert_signal(base, add, position, add_offset),
        CombineOp::Mix { mix_balance, add_offset, normalize } => mix_signals(
            base,
            add,
            position,
            add_offset,
            mix_balance,
            normalize,
        ),
    }
}

/// Takes `signal` out of `combined` at `position` as `op` says.
pub fn separate_signals(combined: &[i16], signal: &[i16], position: usize, op: SeparateOp) -> (result:
    Result<Vec<i16>, SignalError>)
    ensures
        outcome(result) == separate_result(combined@, signal@, position as nat, op),
{
    match op {
        SeparateOp::Remove => remove_signal(combined, signal, position),
        SeparateOp::Unmix { mix_balance } => Ok(unmix_signal(combined, signal, position, mix_balance)),
    }
}

} // verus!
