use vstd::prelude::*;

use crate::command::{BufferOptions, Command, LoopOptions};
use crate::error::InterpreterError;
use crate::wrap::{wrap16, wrap8};
use vstd::arithmetic::div_mod::{lemma_mod_multiples_vanish, lemma_small_mod};

verus! {

/// Cells on the tape: the machine's whole address space.
pub const TAPE_LEN: usize = 65536;

/// How many instruction dispatches one run is given before it is cut off.
pub const STEP_LIMIT: u64 = 18446744073709551615;

/// The whole state of the tape machine between two instructions.
#[verifier::ext_equal]
pub struct MState {
    /// The 65536 memory cells.
    pub tape: Seq<u8>,
    /// The cell the machine is looking at.
    pub pointer: nat,
    /// The consumable input queue: `None` when never supplied; an exhausted
    /// queue stays `Some` and keeps yielding zero.
    pub input: Option<Seq<u8>>,
    /// Everything written so far.
    pub output: Seq<u8>,
    /// The program counter.
    pub pc: nat,
}

/// A state the machine can actually be in.
pub open spec fn state_wf(s: MState) -> bool {
    s.tape.len() == TAPE_LEN && s.pointer < TAPE_LEN
}

/// The input queue a run sees, as plain sequences.
pub open spec fn input_view(args: Option<Vec<u8>>) -> Option<Seq<u8>> {
    match args {
        None => None,
        Some(v) => Some(v@),
    }
}

/// Where every run starts: a zeroed tape, the pointer and program counter at
/// zero, nothing written yet.
pub open spec fn init_state(input: Option<Seq<u8>>) -> MState {
    MState {
        tape: Seq::new(TAPE_LEN as nat, |i: int| 0u8),
        pointer: 0,
        input,
        output: Seq::empty(),
        pc: 0,
    }
}

/// The cell value after `j` wrapping additions of `v` to `start`.
pub open spec fn drain_value(start: u8, v: u8, j: nat) -> u8 {
    wrap8(start + j * v)
}

/// The first event of a drain loop searching from round `j` on: `Some(n)`
/// when the cell reaches zero after `n` additions, `None` when it comes back
/// to `start` without ever being zero.
pub open spec fn drain_search(start: u8, v: u8, j: nat) -> Option<nat>
    decreases 257 - j when j <= 257
{
    if j > 256 {
        None
    } else if drain_value(start, v, j) == 0 {
        Some(j)
    } else if drain_value(start, v, j) == start {
        None
    } else {
        drain_search(start, v, j + 1)
    }
}

/// After 256 additions the cell is back at its starting value.
pub proof fn lemma_drain_value_full_cycle(start: u8, v: u8)
    ensures
        drain_value(start, v, 256) == start,
{
    lemma_mod_multiples_vanish(v as int, start as int, 256);
    lemma_small_mod(start as nat, 256);
}

/// Before any addition the drained cell holds its starting value.
pub proof fn lemma_drain_value_zero(start: u8, v: u8)
    ensures
        drain_value(start, v, 0) == start,
{
    assert(0 * v == 0);
    lemma_small_mod(start as nat, 256);
}

/// One more addition moves the drained cell exactly one wrapping step.
pub proof fn lemma_drain_value_step(start: u8, v: u8, j: nat)
    ensures
        drain_value(start, v, j + 1) == if drain_value(start, v, j) + v > 255 {
            (drain_value(start, v, j) + v - 256) as u8
        } else {
            (drain_value(start, v, j) + v) as u8
        },
{
    crate::wrap::lemma_wrap_seq_step(start as int, v as int, j, 256);
}

/// The tape index `k` steps of size `d` away from `p`.
pub open spec fn scan_pos(p: u16, d: u16, k: nat) -> u16 {
    wrap16(p + k * d)
}

/// The first event of a scan searching from step `k` on: `None` when the
/// pointer comes back to `p`, `Some(n)` when it finds a zero cell after `n`
/// steps first.
pub open spec fn scan_search(tape: Seq<u8>, p: u16, d: u16, k: nat) -> Option<nat>
    decreases 65537 - k when k <= 65537
{
    if k > 65536 {
        None
    } else if scan_pos(p, d, k) == p {
        None
    } else if tape[scan_pos(p, d, k) as int] == 0 {
        Some(k)
    } else {
        scan_search(tape, p, d, k + 1)
    }
}

/// After 65536 steps of any size the pointer is back where it started.
pub proof fn lemma_scan_pos_full_cycle(p: u16, d: u16)
    ensures
        scan_pos(p, d, 65536) == p,
{
    lemma_mod_multiples_vanish(d as int, p as int, 65536);
    lemma_small_mod(p as nat, 65536);
}

/// Before any step the scan stands on its starting cell.
pub proof fn lemma_scan_pos_zero(p: u16, d: u16)
    ensures
        scan_pos(p, d, 0) == p,
{
    assert(0 * d == 0);
    lemma_small_mod(p as nat, 65536);
}

/// One more step moves the scan pointer exactly one wrapping step.
pub proof fn lemma_scan_pos_step(p: u16, d: u16, k: nat)
    ensures
        scan_pos(p, d, k + 1) == if scan_pos(p, d, k) + d > 65535 {
            (scan_pos(p, d, k) + d - 65536) as u16
        } else {
            (scan_pos(p, d, k) + d) as u16
        },
{
    crate::wrap::lemma_wrap_seq_step(p as int, d as int, k, 65536);
}

/// No cell on the tape holds zero: no scan can ever finish.
pub open spec fn tape_full(tape: Seq<u8>) -> bool {
    forall|i: int| 0 <= i < tape.len() ==> tape[i] != 0
}

/// What one instruction dispatch did: the machine ran on to a new state, ran
/// off the end of the program, or failed.
pub enum Stepped {
    Run(MState),
    Done(MState),
    Fail(InterpreterError),
}

/// One scan instruction (`d` is plus or minus one as a wrapping step), from
/// state `s` whose position in the source is `pos`.
pub open spec fn scan_step(s: MState, d: u16, pos: usize) -> Stepped {
    if tape_full(s.tape) {
        Stepped::Fail(InterpreterError::InfinityLoopMemoryFull(pos))
    } else if s.tape[s.pointer as int] == 0 {
        Stepped::Run(MState { pc: s.pc + 1, ..s })
    } else {
        match scan_search(s.tape, s.pointer as u16, d, 1) {
            Some(k) => Stepped::Run(
                MState { pointer: scan_pos(s.pointer as u16, d, k) as nat, pc: s.pc + 1, ..s },
            ),
            None => Stepped::Fail(InterpreterError::InfinityLoopMovement(pos, d)),
        }
    }
}

/// One drain instruction: empty the cell at `s.pointer` by repeated wrapping
/// addition of `step`, and on success also add `bonus` to the cell at `dest`
/// once per round (for a plain drain, `dest` is the pointer itself and
/// `bonus` is zero).
pub open spec fn drain_step(s: MState, step: u8, dest: int, bonus: u8, pos: usize) -> Stepped {
    let cell = s.tape[s.pointer as int];
    if cell == 0 {
        Stepped::Run(MState { pc: s.pc + 1, ..s })
    } else {
        match drain_search(cell, step, 1) {
            Some(j) => {
                let with_bonus = if dest == s.pointer as int {
                    s.tape.update(s.pointer as int, 0)
                } else {
                    s.tape.update(s.pointer as int, 0).update(
                        dest,
                        wrap8(s.tape[dest] + j * bonus),
                    )
                };
                Stepped::Run(MState { tape: with_bonus, pc: s.pc + 1, ..s })
            },
            None => Stepped::Fail(
                InterpreterError::InfinityLoopFound(pos, cell, s.pointer as usize),
            ),
        }
    }
}

/// One instruction dispatch of the machine.
#[verifier::opaque]
pub open spec fn step1(prog: Seq<Command>, s: MState) -> Stepped {
    if s.pc >= prog.len() {
        Stepped::Done(s)
    } else {
        let p = s.pointer as int;
        let cell = s.tape[p];
        match prog[s.pc as int] {
            Command::Add(d) => Stepped::Run(
                MState { tape: s.tape.update(p, wrap8(cell + d)), pc: s.pc + 1, ..s },
            ),
            Command::Move(o) => Stepped::Run(
                MState { pointer: wrap16(s.pointer + o) as nat, pc: s.pc + 1, ..s },
            ),
            Command::Buffer(BufferOptions::Input) => match s.input {
                None => Stepped::Fail(InterpreterError::MissingArgs),
                Some(q) => if q.len() > 0 {
                    Stepped::Run(
                        MState {
                            tape: s.tape.update(p, q.last()),
                            input: Some(q.drop_last()),
                            pc: s.pc + 1,
                            ..s
                        },
                    )
                } else {
                    Stepped::Run(MState { tape: s.tape.update(p, 0), pc: s.pc + 1, ..s })
                },
            },
            Command::Buffer(BufferOptions::Output) => Stepped::Run(
                MState { output: s.output.push(cell), pc: s.pc + 1, ..s },
            ),
            Command::Loop(LoopOptions::ClearCell, _) => Stepped::Run(
                MState { tape: s.tape.update(p, 0), pc: s.pc + 1, ..s },
            ),
            Command::Loop(LoopOptions::AddToReset(v), pos) => drain_step(s, v, p, 0, pos),
            Command::Loop(LoopOptions::ToRight, pos) => scan_step(s, 1, pos),
            Command::Loop(LoopOptions::ToLeft, pos) => scan_step(s, 65535, pos),
            Command::Loop(LoopOptions::CutAdd(o, v1, v2), pos) => {
                let dest = wrap16(s.pointer + o) as int;
                if dest == p {
                    drain_step(s, wrap8(v1 + v2), p, 0, pos)
                } else {
                    drain_step(s, v1, dest, v2, pos)
                }
            },
            Command::Loop(LoopOptions::PointerStart(None), _) => Stepped::Fail(
                InterpreterError::UnconnectedLoops,
            ),
            Command::Loop(LoopOptions::PointerEnd(None), _) => Stepped::Fail(
                InterpreterError::UnconnectedLoops,
            ),
            Command::Loop(LoopOptions::PointerStart(Some(t)), _) => Stepped::Run(
                MState {
                    pc: if cell == 0 {
                        t as nat
                    } else {
                        s.pc + 1
                    },
                    ..s
                },
            ),
            Command::Loop(LoopOptions::PointerEnd(Some(t)), _) => Stepped::Run(
                MState {
                    pc: if cell != 0 {
                        t as nat
                    } else {
                        s.pc + 1
                    },
                    ..s
                },
            ),
        }
    }
}

/// Where the machine stands after at most `n` dispatches from `s`: still
/// running, done, or failed.
pub open spec fn run_n(prog: Seq<Command>, s: MState, n: nat) -> Stepped
    decreases n
{
    if n == 0 {
        Stepped::Run(s)
    } else {
        match run_n(prog, s, (n - 1) as nat) {
            Stepped::Run(t) => step1(prog, t),
            Stepped::Done(t) => Stepped::Done(t),
            Stepped::Fail(e) => Stepped::Fail(e),
        }
    }
}

/// A machine whose program counter has run off the end is done.
pub proof fn lemma_step1_done(prog: Seq<Command>, s: MState)
    requires
        s.pc >= prog.len(),
    ensures
        step1(prog, s) == Stepped::Done(s),
{
    reveal(step1);
}

/// A machine still running after `n` dispatches moves by exactly one more
/// `step1` at dispatch `n + 1`.
pub proof fn lemma_run_n_step(prog: Seq<Command>, init: MState, n: nat, s: MState)
    requires
        run_n(prog, init, n) == Stepped::Run(s),
    ensures
        run_n(prog, init, n + 1) == step1(prog, s),
{
}

/// What one dispatch of a linked loop-open does.
pub proof fn lemma_step1_open(prog: Seq<Command>, s: MState, t: usize, pos: usize)
    requires
        s.pc < prog.len(),
        prog[s.pc as int] == Command::Loop(LoopOptions::PointerStart(Some(t)), pos),
    ensures
        step1(prog, s) == Stepped::Run(
            MState {
                pc: if s.tape[s.pointer as int] == 0 {
                    t as nat
                } else {
                    s.pc + 1
                },
                ..s
            },
        ),
{
    reveal(step1);
}

/// What one dispatch of a linked loop-close does.
pub proof fn lemma_step1_close(prog: Seq<Command>, s: MState, t: usize, pos: usize)
    requires
        s.pc < prog.len(),
        prog[s.pc as int] == Command::Loop(LoopOptions::PointerEnd(Some(t)), pos),
    ensures
        step1(prog, s) == Stepped::Run(
            MState {
                pc: if s.tape[s.pointer as int] != 0 {
                    t as nat
                } else {
                    s.pc + 1
                },
                ..s
            },
        ),
{
    reveal(step1);
}

/// What one dispatch of an `Add` does.
pub proof fn lemma_step1_add(prog: Seq<Command>, s: MState, d: u8)
    requires
        s.pc < prog.len(),
        prog[s.pc as int] == Command::Add(d),
    ensures
        step1(prog, s) == Stepped::Run(
            MState {
                tape: s.tape.update(s.pointer as int, wrap8(s.tape[s.pointer as int] + d)),
                pc: s.pc + 1,
                ..s
            },
        ),
{
    reveal(step1);
}

/// What one dispatch of a `Move` does.
pub proof fn lemma_step1_move(prog: Seq<Command>, s: MState, d: u16)
    requires
        s.pc < prog.len(),
        prog[s.pc as int] == Command::Move(d),
    ensures
        step1(prog, s) == Stepped::Run(
            MState { pointer: wrap16(s.pointer + d) as nat, pc: s.pc + 1, ..s },
        ),
{
    reveal(step1);
}

/// What a successful scan search means: the cell at step `k` is zero, and at
/// no step before (nor did the pointer come back around).
pub proof fn lemma_scan_search_found(tape: Seq<u8>, p: u16, d: u16, k0: nat, k: nat)
    requires
        1 <= k0 <= 65537,
        scan_search(tape, p, d, k0) == Some(k),
    ensures
        k0 <= k <= 65536,
        tape[scan_pos(p, d, k) as int] == 0,
        forall|t: nat| k0 <= t < k ==> tape[scan_pos(p, d, t) as int] != 0,
    decreases 65537 - k0,
{
    if k0 <= 65536 && scan_pos(p, d, k0) != p && tape[scan_pos(p, d, k0) as int] != 0 {
        lemma_scan_search_found(tape, p, d, k0 + 1, k);
    }
}

/// One scan step from the position one step in equals the next step from the
/// starting position.
pub proof fn lemma_scan_pos_shift(p: u16, d: u16, t: nat)
    ensures
        scan_pos(scan_pos(p, d, 1), d, t) == scan_pos(p, d, t + 1),
{
    vstd::arithmetic::mul::lemma_mul_nonnegative(t as int, d as int);
    vstd::arithmetic::mul::lemma_mul_is_distributive_add_other_way(d as int, t as int, 1);
    vstd::arithmetic::mul::lemma_mul_basics(d as int);
    assert(1 * d == d);
    assert((t + 1) * d == t * d + d);
    crate::wrap::lemma_wrap_compose(p + d, t as int * d as int, 65536);
}

/// Dispatch counts compose: running `a + b` dispatches is running `b` more
/// from wherever `a` dispatches arrived.
pub proof fn lemma_run_n_add(prog: Seq<Command>, s: MState, t: MState, a: nat, b: nat)
    requires
        run_n(prog, s, a) == Stepped::Run(t),
    ensures
        run_n(prog, s, a + b) == run_n(prog, t, b),
    decreases b,
{
    if b > 0 {
        lemma_run_n_add(prog, s, t, a, (b - 1) as nat);
        assert(a + b == (a + (b - 1) as nat) + 1);
    }
}

/// What a successful drain search means: the cell reaches zero after exactly
/// `j` additions and at no round before.
pub proof fn lemma_drain_search_found(start: u8, v: u8, j0: nat, j: nat)
    requires
        1 <= j0 <= 257,
        drain_search(start, v, j0) == Some(j),
    ensures
        j0 <= j <= 256,
        drain_value(start, v, j) == 0,
        forall|t: nat| j0 <= t < j ==> drain_value(start, v, t) != 0,
    decreases 257 - j0,
{
    if j0 <= 256 && drain_value(start, v, j0) != 0 && drain_value(start, v, j0) != start {
        lemma_drain_search_found(start, v, j0 + 1, j);
    }
}

/// One drain round from the value one addition in equals the next round from
/// the starting value.
pub proof fn lemma_drain_value_shift(start: u8, v: u8, t: nat)
    ensures
        drain_value(drain_value(start, v, 1), v, t) == drain_value(start, v, t + 1),
{
    vstd::arithmetic::mul::lemma_mul_nonnegative(t as int, v as int);
    vstd::arithmetic::mul::lemma_mul_is_distributive_add_other_way(v as int, t as int, 1);
    vstd::arithmetic::mul::lemma_mul_basics(v as int);
    assert(1 * v == v);
    assert((t + 1) * v == t * v + v);
    crate::wrap::lemma_wrap_compose(start + v, t as int * v as int, 256);
}

/// A run of `prog` on `input` can complete with exactly the bytes `out`.
pub open spec fn run_outcome_ok(prog: Seq<Command>, input: Option<Seq<u8>>, out: Seq<u8>) -> bool {
    exists|n: nat|
        (#[trigger] run_n(prog, init_state(input), n)) is Done && run_n(
            prog,
            init_state(input),
            n,
        )->Done_0.output == out
}

/// A run of `prog` on `input` can end in exactly the error `e` (for the
/// budget error: the run is still going after the whole instruction budget).
pub open spec fn run_outcome_err(
    prog: Seq<Command>,
    input: Option<Seq<u8>>,
    e: InterpreterError,
) -> bool {
    if e == InterpreterError::StepLimitReached {
        run_n(prog, init_state(input), STEP_LIMIT as nat) is Run
    } else {
        exists|n: nat| run_n(prog, init_state(input), n) == Stepped::Fail(e)
    }
}

} // verus!
