//! The operation selectors and the error a rejected operation reports.

use crate::binary32::Binary32;
use vstd::prelude::*;

verus! {

/// Why an operation was rejected.
#[derive(Debug, Clone, Copy, PartialEq, Eq, Structural)]
pub enum SignalError {
    /// A position or an offset lies outside the signal it indexes.
    OutOfRange,
    /// An operation name that is none of the known ones.
    UnknownOperation,
    /// A container that cannot be read, or a signal that none can hold.
    IoError,
}

/// The ways of combining a base signal with a signal to add.
#[derive(Debug, Clone, Copy)]
pub enum CombineOp {
    /// Splice the added signal, from `add_offset` on, into the base.
    Insert { add_offset: usize },
    /// Blend the added signal, from `add_offset` on, into the base:
    /// `mix_balance` is the weight of the added signal, one minus it the
    /// weight of the base. `normalize` is reserved for a rescaling of the
    /// blend; no rescaling is carried out, whatever its value.
    Mix { mix_balance: Binary32, add_offset: usize, normalize: bool },
}

/// The ways of taking a signal out of a combined one.
#[derive(Debug, Clone, Copy)]
pub enum SeparateOp {
    /// Cut the signal's range out.
    Remove,
    /// Undo a blend made with the weight `mix_balance`.
    Unmix { mix_balance: Binary32 },
}

} // verus!
