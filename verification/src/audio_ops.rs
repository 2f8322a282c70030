//! The operations as a caller names them, on audio with its sample rate.

use crate::binary32::Binary32;
use crate::signal_ops::{combine_result, combine_signals, separate_result, separate_signals};
use crate::types::{CombineOp, SeparateOp, SignalError};
use crate::wav_io::{audio_outcome, AudioData};
use vstd::prelude::*;

verus! {

/// The combining operation of a given name: `insert` or `mix`.
pub open spec fn combine_op_named(
    name: Seq<char>,
    mix_balance: Binary32,
    add_offset: usize,
    normalize: bool,
) -> Result<CombineOp, SignalError> {
    if name == "insert"@ {
        Ok(CombineOp::Insert { add_offset })
    } else if name == "mix"@ {
        Ok(CombineOp::Mix { mix_balance, add_offset, normalize })
    } else {
        Err(SignalError::UnknownOperation)
    }
}

/// The separating operation of a given name: `remove` or `unmix`.
pub open spec fn separate_op_named(name: Seq<char>, mix_balance: Binary32) -> Result<
    SeparateOp,
    SignalError,
> {
    if name == "remove"@ {
        Ok(SeparateOp::Remove)
    } else if name == "unmix"@ {
        Ok(SeparateOp::Unmix { mix_balance })
    } else {
        Err(SignalError::UnknownOperation)
    }
}

/// What combining two pieces of audio under a named operation gives: the
/// combined samples at the rate of the base, or the error of the name or of
/// the operation.
pub open spec fn combined_audio(
    base: (Seq<i16>, u32),
    add: (Seq<i16>, u32),
    position: nat,
    name: Seq<char>,
    mix_balance: Binary32,
    add_offset: usize,
    normalize: bool,
) -> Result<(Seq<i16>, u32), SignalError> {
    match combine_op_named(name, mix_balance, add_offset, normalize) {
        Ok(op) => match combine_result(base.0, add.0, position, op) {
            Ok(samples) => Ok((samples, base.1)),
            Err(e) => Err(e),
        },
        Err(e) => Err(e),
    }
}

/// What separating a signal from combined audio under a named operation
/// gives: the remaining samples at the rate of the combined audio, or the
/// error of the name or of the operation.
pub open spec fn separated_audio(
    combined: (Seq<i16>, u32),
    signal: (Seq<i16>, u32),
    position: nat,
    name: Seq<char>,
    mix_balance: Binary32,
) -> Result<(Seq<i16>, u32), SignalError> {
    match separate_op_named(name, mix_balance) {
        Ok(op) => match separate_result(combined.0, signal.0, position, op) {
            Ok(samples) => Ok((samples, combined.1)),
            Err(e) => Err(e),
        },
        Err(e) => Err(e),
    }
}

/// Whether two strings hold the same characters.
fn same_name(left: &str, right: &str) -> (same: bool)
    ensures
        same == (left@ == right@),
{
    let l: String = left.to_owned();
    let r: String = right.to_owned();
    l.eq(&r)
}

/// The combining operation that `operation` names, with its parameters.
pub fn combine_op_from_name(
    operation: &str,
    mix_balance: Binary32,
    add_offset: usize,
    normalize: bool,
) -> (result: Result<CombineOp, SignalError>)
    ensures
        result == combine_op_named(operation@, mix_balance, add_offset, normalize),
{
    if same_name(operation, "insert") {
        Ok(CombineOp::Insert { add_offset })
    } else if same_name(operation, "mix") {
        Ok(CombineOp::Mix { mix_balance, add_offset, normalize })
    } else {
        Err(SignalError::UnknownOperation)
    }
}

/// The separating operation that `operation` names, with its parameter.
pub fn separate_op_from_name(operation: &str, mix_balance: Binary32) -> (result: Result<
    SeparateOp,
    SignalError,
>)
    ensures
        result == separate_op_named(operation@, mix_balance),
{
    if same_name(operation, "remove") {
        Ok(SeparateOp::Remove)
    } else if same_name(operation, "unmix") {
        Ok(SeparateOp::Unmix { mix_balance })
    } else {
        Err(SignalError::UnknownOperation)
    }
}

/// Combines two pieces of audio at `position` under the operation that
/// `operation` names; the result has the sample rate of the base.
pub fn combine_audio(
    base: &AudioData,
    add: &AudioData,
    position: usize,
    operation: &str,
    mix_balance: Binary32,
    add_offset: usize,
    normalize: bool,
) -> (result: Result<AudioData, SignalError>)
    ensures
        audio_outcome(result) == combined_audio(
            base@,
            add@,
            position as nat,
            operation@,
            mix_balance,
            add_offset,
            normalize,
        ),
{
    match combine_op_from_name(operation, mix_balance, add_offset, normalize) {
        Ok(op) => match combine_signals(base.samples.as_slice(), add.samples.as_slice(), position, op) {
            Ok(samples) => Ok(AudioData { samples, sample_rate: base.sample_rate }),
            Err(e) => Err(e),
        },
        Err(e) => Err(e),
    }
}

/// Takes `signal` out of `combined` at `position` under the operation that
/// `operation` names; the result has the sample rate of the combined audio.
pub fn separate_audio(
    combined: &AudioData,
    signal: &AudioData,
    position: usize,
    operation: &str,
    mix_balance: Binary32,
) -> (result: Result<AudioData, SignalError>)
    ensures
        audio_outcome(result) == separated_audio(
            combined@,
            signal@,
            position as nat,
            operation@,
            mix_balance,
        ),
{
    match separate_op_from_name(operation, mix_balance) {
        Ok(op) => match separate_signals(
            combined.samples.as_slice(),
            signal.samples.as_slice(),
            position,
            op,
        ) {
            Ok(samples) => Ok(AudioData { samples, sample_rate: combined.sample_rate }),
            Err(e) => Err(e),
        },
        Err(e) => Err(e),
    }
}

} // verus!
