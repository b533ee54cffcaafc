//! Outcomes of native reactions.
use vstd::prelude::*;

verus! {

/// Why a native reaction could not run.
#[derive(Clone, Copy, Debug, PartialEq, Eq)]
pub enum NativeReactionError {
    MissingGas(&'static str),
    NonFiniteResult,
}

} // verus!
