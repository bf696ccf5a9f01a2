use vstd::prelude::*;

verus! {

/// Why a stage of the pipeline gave up.
#[derive(Clone, Copy, Debug, PartialEq, Eq, Structural)]
pub enum Error {
    /// Reading the source met a loop end with no loop start left open.
    UnbalancedLoop,
    /// Compiling met a loop end with no loop start left open.
    UnmatchedLoopEnd,
    /// An input instruction found every input byte already read.
    InputExhausted,
}

} // verus!
