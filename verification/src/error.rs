use vstd::prelude::*;

verus! {

/// Every way a compile or a run can fail.
///
/// The first three variants are compile-time structural errors and carry the
/// 1-based source position of the offending character or bracket.  The
/// `InfinityLoop*` variants are runtime safety violations raised by the
/// optimized loop idioms when their drain or scan can never finish.  The
/// remaining variants are data errors and lifecycle (API misuse) errors.
#[derive(Debug, PartialEq, Eq, Structural)]
pub enum InterpreterError {
    /// A source character outside the eight-instruction alphabet, with its
    /// 1-based position.
    InstruccionUnknown(char, usize),
    /// A `]` with no `[` still open, at the `]`'s own source position.
    MalformedClosedLoop(usize),
    /// A `[` never closed; the position is the first such `[`.
    MalformedOpenLoop(usize),
    /// A drain idiom revisited its starting cell value before reaching zero:
    /// source position, the repeated cell value, and the cell index.
    InfinityLoopFound(usize, u8, usize),
    /// A scan idiom started while no cell on the whole tape holds zero.
    InfinityLoopMemoryFull(usize),
    /// A scan idiom brought the pointer back to its start without finding a
    /// zero cell: source position and the per-step pointer movement.
    InfinityLoopMovement(usize, u16),
    /// An `Input` instruction ran but no input queue was ever supplied.
    MissingArgs,
    /// `run_code` was invoked before any instruction stream was loaded.
    TokensUnknown,
    /// A second attempt to load an instruction stream.
    TokensOverwritten,
    /// A second attempt to supply the input queue.
    ArgsOverwritten,
    /// Output was requested before any run completed.
    OutputUnknown,
    /// A loop instruction reached the machine with no jump target linked.
    UnconnectedLoops,
    /// A completed run tried to store its output a second time.
    OutputOverwritten,
    /// The dispatch loop used up its entire instruction budget.
    StepLimitReached,
}

} // verus!
