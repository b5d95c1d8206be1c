//! Per-phase instrumentation hooks.
//!
//! The generation phases are named by [`PerfParts`]; [`time`] brackets one
//! phase. In this build the hook compiles away entirely: it runs the phase
//! and nothing else, at no cost. A timed build that accumulates elapsed
//! nanoseconds per phase can wrap the same keys around the same calls.

use vstd::prelude::*;

verus! {

/// The instrumented phases of move generation.
#[derive(Clone, Copy, PartialEq, Eq, Hash, Debug)]
pub enum PerfParts {
    UniqueMoves,
    UniqueMovesDouble,
    UniqueMovesNormalDice,
    UniqueOneDie,
    OneDie,
    Bar,
    Removals,
    Calc,
    GenBoards,
}

/// Runs one instrumented phase. The key names the phase for builds that
/// accumulate timings; here the call is the phase itself.
pub fn time<T, F: FnOnce() -> T>(_key: PerfParts, f: F) -> (r: T)
    requires
        f.requires(()),
    ensures
        f.ensures((), r),
{
    f()
}

} // verus!
