use vstd::prelude::*;

use crate::command::{BufferOptions, Command, Commands, LoopOptions};
use crate::error::InterpreterError;
use crate::semantics::{
    drain_search, drain_value, init_state, input_view, lemma_drain_value_full_cycle,
    lemma_drain_value_step, lemma_drain_value_zero, lemma_run_n_step, lemma_scan_pos_full_cycle, lemma_step1_done,
    lemma_scan_pos_step, lemma_scan_pos_zero, run_n, run_outcome_err, run_outcome_ok, scan_pos,
    scan_search, step1, tape_full, MState, Stepped, STEP_LIMIT,
};
use crate::wrap::{lemma_wrap16_u16, lemma_wrap8_u8, wrap8};
use vstd::arithmetic::div_mod::{lemma_add_mod_noop_right, lemma_mod_bound};
use vstd::arithmetic::mul::lemma_mul_upper_bound;

verus! {

/// The bytes a run consumes or produces.
pub type Data = Vec<u8>;

/// The tape machine around one program: the instruction stream and input are
/// loaded at most once, and the output of the single real run is kept.
pub struct Interpreter {
    /// The input queue, set at most once.
    pub args: Option<Data>,
    /// The output of the completed run, set exactly once.
    pub output: Option<Data>,
    /// The linked instruction stream, set at most once.
    pub tokens: Option<Commands>,
}

/// Everything `run_code` promises, relating the machine before the call, the
/// machine after it, and the verdict.
pub open spec fn run_code_post(
    pre: Interpreter,
    post: Interpreter,
    r: Result<(), InterpreterError>,
) -> bool {
    &&& post.args == pre.args
    &&& post.tokens == pre.tokens
    &&& (pre.output is Some ==> r == Ok::<(), InterpreterError>(()) && post.output == pre.output)
    &&& (pre.output is None && pre.tokens is None ==> r == Err::<(), InterpreterError>(
        InterpreterError::TokensUnknown,
    ) && post.output == pre.output)
    &&& (pre.output is None && pre.tokens is Some ==> {
        let prog = pre.tokens->0@;
        let input = input_view(pre.args);
        match r {
            Ok(()) => post.output is Some && run_outcome_ok(prog, input, post.output->0@),
            Err(e) => post.output is None && run_outcome_err(prog, input, e),
        }
    })
}

/// The machine state the dispatch loop's live variables stand for.
pub open spec fn live_state(
    tape: Seq<u8>,
    pointer: u16,
    input: Option<Seq<u8>>,
    output: Seq<u8>,
    pc: usize,
) -> MState {
    MState { tape, pointer: pointer as nat, input, output, pc: pc as nat }
}

/// The characters that a byte sequence renders to when every invalid UTF-8
/// sequence is replaced: a function of the bytes alone.
pub uninterp spec fn lossy_utf8(bytes: Seq<u8>) -> Seq<char>;

/// Relies on String::from_utf8_lossy: the rendering depends on the bytes
/// alone, and bytes that are all ASCII come through one character per byte.
#[verifier::external_body]
fn bytes_to_lossy_string(bytes: &Vec<u8>) -> (r: String)
    ensures
        r@ == lossy_utf8(bytes@),
        (forall|i: int| 0 <= i < bytes@.len() ==> bytes@[i] < 128) ==> r@.len() == bytes@.len()
            && (forall|i: int| 0 <= i < bytes@.len() ==> r@[i] as int == bytes@[i] as int),
{
    String::from_utf8_lossy(bytes.as_slice()).to_string()
}

/// A byte-for-byte copy of `v`.
fn clone_data(v: &Vec<u8>) -> (r: Vec<u8>)
    ensures
        r@ == v@,
{
    let mut r: Vec<u8> = Vec::new();
    let mut i: usize = 0;
    while i < v.len()
        invariant
            i <= v@.len(),
            r@.len() == i,
            forall|j: int| 0 <= j < i ==> r@[j] == v@[j],
        decreases v@.len() - i,
    {
        r.push(v[i]);
        i = i + 1;
    }
    proof {
        assert(r@ =~= v@);
    }
    r
}

/// A fresh all-zero tape.
fn zero_tape() -> (r: Vec<u8>)
    ensures
        r@ == init_state(None).tape,
{
    let mut r: Vec<u8> = Vec::new();
    let mut i: usize = 0;
    while i < 65536
        invariant
            i <= 65536,
            r@.len() == i,
            forall|j: int| 0 <= j < i ==> r@[j] == 0,
        decreases 65536 - i,
    {
        r.push(0);
        i = i + 1;
    }
    proof {
        assert(r@ =~= init_state(None).tape);
    }
    r
}

/// Whether every cell of the tape is nonzero.
fn tape_all_nonzero(memory: &Vec<u8>) -> (r: bool)
    requires
        memory@.len() == 65536,
    ensures
        r == tape_full(memory@),
{
    let mut full = true;
    let mut k: usize = 0;
    while k < 65536
        invariant
            k <= 65536,
            memory@.len() == 65536,
            full <==> (forall|t: int| 0 <= t < k ==> memory@[t] != 0),
        decreases 65536 - k,
    {
        if memory[k] == 0 {
            full = false;
        }
        k = k + 1;
    }
    full
}

/// Drain `start` by repeated wrapping additions of `step`: how many rounds it
/// takes to reach zero, or `None` when the value repeats first.
fn drain_rounds(start: u8, step: u8) -> (r: Option<u32>)
    requires
        start != 0,
    ensures
        match r {
            Some(j) => 1 <= j <= 256 && drain_search(start, step, 1) == Some(j as nat),
            None => drain_search(start, step, 1) is None,
        },
{
    proof {
        lemma_drain_value_zero(start, step);
        lemma_drain_value_step(start, step, 0);
    }
    let mut curv = start.wrapping_add(step);
    let mut j: u32 = 1;
    loop
        invariant
            1 <= j <= 256,
            start != 0,
            curv == drain_value(start, step, j as nat),
            drain_search(start, step, 1) == drain_search(start, step, j as nat),
        ensures
            1 <= j <= 256,
            curv == 0 ==> drain_search(start, step, 1) == Some(j as nat),
            curv != 0 ==> drain_search(start, step, 1) is None,
        decreases 256 - j,
    {
        if curv == 0 {
            break;
        }
        if curv == start {
            break;
        }
        proof {
            lemma_drain_value_full_cycle(start, step);
            assert(j < 256);
            lemma_drain_value_step(start, step, j as nat);
        }
        curv = curv.wrapping_add(step);
        j = j + 1;
    }
    if curv == 0 {
        Some(j)
    } else {
        None
    }
}

/// Walk from `start_p` in wrapping steps of `d` to the first zero cell:
/// the landing position, or `None` when the pointer comes all the way back.
fn scan_to_zero(memory: &Vec<u8>, start_p: u16, d: u16) -> (r: Option<u16>)
    requires
        memory@.len() == 65536,
        memory@[start_p as int] != 0,
    ensures
        match scan_search(memory@, start_p, d, 1) {
            Some(k) => r == Some(scan_pos(start_p, d, k)),
            None => r is None,
        },
{
    proof {
        lemma_scan_pos_zero(start_p, d);
        lemma_scan_pos_step(start_p, d, 0);
    }
    let mut p = start_p.wrapping_add(d);
    let mut k: u32 = 1;
    loop
        invariant
            1 <= k <= 65536,
            memory@.len() == 65536,
            memory@[start_p as int] != 0,
            p == scan_pos(start_p, d, k as nat),
            scan_search(memory@, start_p, d, 1) == scan_search(memory@, start_p, d, k as nat),
        ensures
            1 <= k <= 65536,
            p == scan_pos(start_p, d, k as nat),
            p != start_p ==> scan_search(memory@, start_p, d, 1) == Some(k as nat),
            p == start_p ==> scan_search(memory@, start_p, d, 1) is None,
        decreases 65536 - k,
    {
        if p == start_p {
            break;
        }
        if memory[p as usize] == 0 {
            break;
        }
        proof {
            lemma_scan_pos_full_cycle(start_p, d);
            assert(k < 65536);
            lemma_scan_pos_step(start_p, d, k as nat);
        }
        p = p.wrapping_add(d);
        k = k + 1;
    }
    if p == start_p {
        None
    } else {
        Some(p)
    }
}

impl Default for Interpreter {
    /// A machine with nothing loaded and nothing run.
    fn default() -> (r: Self)
        ensures
            r.args is None,
            r.output is None,
            r.tokens is None,
    {
        Interpreter { args: None, output: None, tokens: None }
    }
}

impl Interpreter {
    /// A machine with nothing loaded and nothing run.
    pub fn new() -> (r: Self)
        ensures
            r.args is None,
            r.output is None,
            r.tokens is None,
    {
        Self::default()
    }

    /// Supply the input queue; a machine that already has one refuses.
    pub fn set_args(&mut self, args: Data) -> (r: Result<(), InterpreterError>)
        ensures
            final(self).output == old(self).output,
            final(self).tokens == old(self).tokens,
            old(self).args is None ==> r == Ok::<(), InterpreterError>(()) && final(self).args
                == Some(args),
            old(self).args is Some ==> r == Err::<(), InterpreterError>(
                InterpreterError::ArgsOverwritten,
            ) && final(self).args == old(self).args,
    {
        if self.args.is_some() {
            return Err(InterpreterError::ArgsOverwritten);
        }
        self.args = Some(args);
        Ok(())
    }

    /// Load the instruction stream; a machine that already has one refuses.
    pub fn set_tokens(&mut self, tokens: Commands) -> (r: Result<(), InterpreterError>)
        ensures
            final(self).output == old(self).output,
            final(self).args == old(self).args,
            old(self).tokens is None ==> r == Ok::<(), InterpreterError>(()) && final(self).tokens
                == Some(tokens),
            old(self).tokens is Some ==> r == Err::<(), InterpreterError>(
                InterpreterError::TokensOverwritten,
            ) && final(self).tokens == old(self).tokens,
    {
        if self.tokens.is_some() {
            return Err(InterpreterError::TokensOverwritten);
        }
        self.tokens = Some(tokens);
        Ok(())
    }

    /// Run the loaded program to completion once: a machine that already
    /// holds output succeeds at once, one with no program refuses, and
    /// otherwise the dispatch loop runs the small-step semantics until the
    /// program ends, fails, or the instruction budget runs out.
    /// Run the loaded program to completion once: a machine that already
    /// holds output succeeds at once, one with no program refuses, and
    /// otherwise the dispatch loop runs the small-step semantics until the
    /// program ends, fails, or the instruction budget runs out.
    #[verifier::rlimit(100)]
    pub fn run_code(&mut self) -> (r: Result<(), InterpreterError>)
        ensures
            run_code_post(*old(self), *final(self), r),
    {
        if self.output.is_some() {
            return Ok(());
        }
        let prog = match &self.tokens {
            Some(tokens) => tokens,
            None => {
                return Err(InterpreterError::TokensUnknown);
            },
        };
        let ghost self0 = *self;
        let ghost progv = prog@;
        let ghost init = init_state(input_view(self0.args));
        let mut memory = zero_tape();
        let mut memory_pointer: u16 = 0;
        let mut output: Data = Vec::new();
        let mut token_index: usize = 0;
        let mut args: Option<Data> = match &self.args {
            Some(v) => Some(clone_data(v)),
            None => None,
        };
        let mut fuel: u64 = 18446744073709551615;
        proof {
            assert(fuel == STEP_LIMIT);
            assert(live_state(memory@, memory_pointer, input_view(args), output@, token_index)
                =~= init);
            assert(run_n(progv, init, (STEP_LIMIT - fuel) as nat) == Stepped::Run(init));
        }
        loop
            invariant
                *self == self0,
                self0 == *old(self),
                self0.output is None,
                self0.tokens is Some,
                progv == self0.tokens->0@,
                prog@ == progv,
                init == init_state(input_view(self0.args)),
                memory@.len() == 65536,
                fuel <= STEP_LIMIT,
                run_n(progv, init, (STEP_LIMIT - fuel) as nat) == Stepped::Run(
                    live_state(memory@, memory_pointer, input_view(args), output@, token_index),
                ),
            decreases fuel,
        {
            let ghost pre_steps = (STEP_LIMIT - fuel) as nat;
            let ghost st = live_state(
                memory@,
                memory_pointer,
                input_view(args),
                output@,
                token_index,
            );
            if token_index >= prog.len() {
                proof {
                    lemma_run_n_step(progv, init, pre_steps, st);
                    lemma_step1_done(progv, st);
                    assert(run_n(progv, init, pre_steps + 1) == Stepped::Done(st));
                    assert(run_outcome_ok(progv, input_view(self0.args), output@));
                }
                self.output = Some(output);
                return Ok(());
            }
            if fuel == 0 {
                proof {
                    assert(run_outcome_err(
                        progv,
                        input_view(self0.args),
                        InterpreterError::StepLimitReached,
                    ));
                }
                return Err(InterpreterError::StepLimitReached);
            }
            fuel = fuel - 1;
            let stepped = Self::dispatch_one(
                prog,
                &mut memory,
                &mut memory_pointer,
                &mut output,
                &mut args,
                &mut token_index,
            );
            match stepped {
                Ok(()) => {
                    proof {
                        lemma_run_n_step(progv, init, pre_steps, st);
                        assert(run_n(progv, init, (STEP_LIMIT - fuel) as nat) == Stepped::Run(
                            live_state(
                                memory@,
                                memory_pointer,
                                input_view(args),
                                output@,
                                token_index,
                            ),
                        ));
                    }
                },
                Err(e) => {
                    proof {
                        lemma_run_n_step(progv, init, pre_steps, st);
                        assert(run_n(progv, init, pre_steps + 1) == Stepped::Fail(e));
                        assert(run_outcome_err(progv, input_view(self0.args), e));
                    }
                    return Err(e);
                },
            }
        }
    }


    /// Perform exactly one instruction dispatch of the small-step semantics
    /// on the live machine variables.
    #[verifier::rlimit(100)]
    fn dispatch_one(
        prog: &Commands,
        memory: &mut Vec<u8>,
        memory_pointer: &mut u16,
        output: &mut Data,
        args: &mut Option<Data>,
        token_index: &mut usize,
    ) -> (r: Result<(), InterpreterError>)
        requires
            *old(token_index) < prog@.len(),
            prog@.len() <= usize::MAX,
            old(memory)@.len() == 65536,
        ensures
            ({
                let st = live_state(
                    old(memory)@,
                    *old(memory_pointer),
                    input_view(*old(args)),
                    old(output)@,
                    *old(token_index),
                );
                match r {
                    Ok(()) => final(memory)@.len() == 65536 && step1(prog@, st) == Stepped::Run(
                        live_state(
                            final(memory)@,
                            *final(memory_pointer),
                            input_view(*final(args)),
                            final(output)@,
                            *final(token_index),
                        ),
                    ),
                    Err(e) => step1(prog@, st) == Stepped::Fail(e) && e
                        != InterpreterError::StepLimitReached,
                }
            }),
    {
        proof {
            reveal(step1);
        }
        let ghost st = live_state(
            old(memory)@,
            *old(memory_pointer),
            input_view(*old(args)),
            old(output)@,
            *old(token_index),
        );
        let mp = *memory_pointer;
        let ti = *token_index;
        match &prog[ti] {
            Command::Add(increment) => {
                let cell = memory[mp as usize];
                proof {
                    lemma_wrap8_u8(cell, *increment);
                }
                memory[mp as usize] = cell.wrapping_add(*increment);
                *token_index = ti + 1;
            },
            Command::Move(pointer) => {
                proof {
                    lemma_wrap16_u16(mp, *pointer);
                }
                *memory_pointer = mp.wrapping_add(*pointer);
                *token_index = ti + 1;
            },
            Command::Buffer(BufferOptions::Input) => {
                match args.as_mut() {
                    Some(bf_args) => {
                        match bf_args.pop() {
                            Some(value) => {
                                memory[mp as usize] = value;
                            },
                            None => {
                                memory[mp as usize] = 0;
                            },
                        }
                    },
                    None => {
                        return Err(InterpreterError::MissingArgs);
                    },
                }
                *token_index = ti + 1;
            },
            Command::Buffer(BufferOptions::Output) => {
                output.push(memory[mp as usize]);
                *token_index = ti + 1;
            },
            Command::Loop(LoopOptions::ClearCell, _) => {
                memory[mp as usize] = 0;
                *token_index = ti + 1;
            },
            Command::Loop(LoopOptions::AddToReset(value), index_file) => {
                let start = memory[mp as usize];
                if start != 0 {
                    match drain_rounds(start, *value) {
                        Some(_) => {
                            memory[mp as usize] = 0;
                        },
                        None => {
                            return Err(InterpreterError::InfinityLoopFound(
                                *index_file,
                                start,
                                mp as usize,
                            ));
                        },
                    }
                }
                *token_index = ti + 1;
            },
            Command::Loop(LoopOptions::CutAdd(pointer, value_1, value_2), index_file) => {
                let start = memory[mp as usize];
                if start != 0 {
                    proof {
                        lemma_wrap16_u16(mp, *pointer);
                    }
                    let dest = mp.wrapping_add(*pointer);
                    let drained = if dest == mp {
                        proof {
                            lemma_wrap8_u8(*value_1, *value_2);
                        }
                        drain_rounds(start, value_1.wrapping_add(*value_2))
                    } else {
                        drain_rounds(start, *value_1)
                    };
                    match drained {
                        Some(j) => {
                            if dest == mp {
                                memory[mp as usize] = 0;
                            } else {
                                let dval = memory[dest as usize];
                                proof {
                                    lemma_mul_upper_bound(j as int, 256, *value_2 as int, 255);
                                    lemma_mod_bound(j as int * (*value_2 as int), 256);
                                }
                                let bonus = ((j * (*value_2 as u32)) % 256) as u8;
                                proof {
                                    lemma_add_mod_noop_right(
                                        dval as int,
                                        j as int * (*value_2 as int),
                                        256,
                                    );
                                    lemma_wrap8_u8(dval, bonus);
                                    assert(dval.wrapping_add(bonus) == wrap8(
                                        dval + (j as nat) * (*value_2),
                                    ));
                                }
                                memory[mp as usize] = 0;
                                memory[dest as usize] = dval.wrapping_add(bonus);
                            }
                        },
                        None => {
                            return Err(InterpreterError::InfinityLoopFound(
                                *index_file,
                                start,
                                mp as usize,
                            ));
                        },
                    }
                }
                *token_index = ti + 1;
            },
            Command::Loop(LoopOptions::ToRight, index_file) => {
                if tape_all_nonzero(memory) {
                    return Err(InterpreterError::InfinityLoopMemoryFull(*index_file));
                }
                if memory[mp as usize] != 0 {
                    match scan_to_zero(memory, mp, 1) {
                        Some(landing) => {
                            *memory_pointer = landing;
                        },
                        None => {
                            return Err(InterpreterError::InfinityLoopMovement(*index_file, 1));
                        },
                    }
                }
                *token_index = ti + 1;
            },
            Command::Loop(LoopOptions::ToLeft, index_file) => {
                if tape_all_nonzero(memory) {
                    return Err(InterpreterError::InfinityLoopMemoryFull(*index_file));
                }
                if memory[mp as usize] != 0 {
                    match scan_to_zero(memory, mp, 65535) {
                        Some(landing) => {
                            *memory_pointer = landing;
                        },
                        None => {
                            return Err(InterpreterError::InfinityLoopMovement(*index_file, 65535));
                        },
                    }
                }
                *token_index = ti + 1;
            },
            Command::Loop(LoopOptions::PointerStart(None), _) => {
                return Err(InterpreterError::UnconnectedLoops);
            },
            Command::Loop(LoopOptions::PointerEnd(None), _) => {
                return Err(InterpreterError::UnconnectedLoops);
            },
            Command::Loop(LoopOptions::PointerStart(Some(target)), _) => {
                if memory[mp as usize] == 0 {
                    *token_index = *target;
                } else {
                    *token_index = ti + 1;
                }
            },
            Command::Loop(LoopOptions::PointerEnd(Some(target)), _) => {
                if memory[mp as usize] != 0 {
                    *token_index = *target;
                } else {
                    *token_index = ti + 1;
                }
            },
        }
        proof {
            let st2 = live_state(
                memory@,
                *memory_pointer,
                input_view(*args),
                output@,
                *token_index,
            );
            assert(step1(prog@, st) == Stepped::Run(st2));
        }
        Ok(())
    }

    /// Load the program (and input, when given) and run it: the set-once
    /// rules of loading apply first, then everything `run_code` promises.
    pub fn execute(&mut self, tokens: Commands, args: Option<Data>) -> (r: Result<
        (),
        InterpreterError,
    >)
        ensures
            ({
                let args_clash = args is Some && old(self).args is Some;
                let mid_args = if args is Some && old(self).args is None {
                    Some(args->0)
                } else {
                    old(self).args
                };
                let tokens_clash = old(self).tokens is Some;
                &&& args_clash ==> r == Err::<(), InterpreterError>(
                    InterpreterError::ArgsOverwritten,
                ) && *final(self) == *old(self)
                &&& !args_clash && tokens_clash ==> r == Err::<(), InterpreterError>(
                    InterpreterError::TokensOverwritten,
                ) && final(self).args == mid_args && final(self).tokens == old(self).tokens
                    && final(self).output == old(self).output
                &&& !args_clash && !tokens_clash ==> (run_code_post(
                    Interpreter {
                        args: mid_args,
                        output: old(self).output,
                        tokens: Some(tokens),
                    },
                    *final(self),
                    r,
                ))
            }),
    {
        if let Some(bf_args) = args {
            match self.set_args(bf_args) {
                Ok(()) => (),
                Err(e) => {
                    return Err(e);
                },
            }
        }
        match self.set_tokens(tokens) {
            Ok(()) => (),
            Err(e) => {
                return Err(e);
            },
        }
        self.run_code()
    }

    /// The bytes the completed run wrote; asking before any run completed is
    /// refused.
    pub fn get_output_as_vec(&self) -> (r: Result<Data, InterpreterError>)
        ensures
            match r {
                Ok(out) => self.output is Some && out@ == self.output->0@,
                Err(e) => self.output is None && e == InterpreterError::OutputUnknown,
            },
    {
        match &self.output {
            Some(output) => Ok(clone_data(output)),
            None => Err(InterpreterError::OutputUnknown),
        }
    }

    /// The completed run's bytes rendered as text, invalid UTF-8 replaced;
    /// asking before any run completed is refused.
    pub fn get_output_as_string(&self) -> (r: Result<String, InterpreterError>)
        ensures
            match r {
                Ok(out) => {
                    &&& self.output is Some
                    &&& out@ == lossy_utf8(self.output->0@)
                    &&& (forall|i: int|
                        0 <= i < self.output->0@.len() ==> self.output->0@[i] < 128) ==> out@.len()
                        == self.output->0@.len() && (forall|i: int|
                        0 <= i < self.output->0@.len() ==> out@[i] as int
                            == (self.output->0@)[i] as int)
                },
                Err(e) => self.output is None && e == InterpreterError::OutputUnknown,
            },
    {
        match &self.output {
            Some(output) => Ok(bytes_to_lossy_string(output)),
            None => Err(InterpreterError::OutputUnknown),
        }
    }
}

} // verus!
