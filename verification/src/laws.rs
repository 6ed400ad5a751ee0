use vstd::prelude::*;

use crate::command::{
    add_run_len, add_run_sum, fold_spec, lemma_add_run_len_bound, lemma_move_run_len_bound,
    loop_reduce_spec, loop_token_spec, move_run_len, move_run_sum, spec_is_close, spec_is_open,
    Command, LoopOptions,
};
use crate::semantics::{
    drain_search, drain_value, lemma_drain_search_found, lemma_drain_value_shift, lemma_run_n_add,
    lemma_run_n_step, lemma_scan_pos_shift, lemma_scan_search_found, lemma_step1_add,
    lemma_step1_close, lemma_step1_move, lemma_step1_open, run_n, scan_pos, scan_search, state_wf,
    tape_full, MState, Stepped,
};
use crate::wrap::{wrap16, wrap8};
use vstd::arithmetic::div_mod::{lemma_mod_multiples_vanish, lemma_small_mod};

verus! {

/// No two neighbouring tokens are both `Add` or both `Move`: every run has
/// already been folded into a single token.
pub open spec fn no_adjacent_runs(s: Seq<Command>) -> bool {
    forall|i: int|
        0 <= i < s.len() - 1 ==> !((#[trigger] s[i]) is Add && s[i + 1] is Add) && !(s[i] is Move
            && s[i + 1] is Move)
}

/// The folding pass leaves no run of length two: its output token at the
/// front has the kind of the input token it came from, and no two neighbours
/// of the output share a foldable kind.
pub proof fn lemma_fold_shape(s: Seq<Command>, i: int)
    requires
        0 <= i <= s.len(),
    ensures
        i == s.len() ==> fold_spec(s, i) == Seq::<Command>::empty(),
        i < s.len() ==> fold_spec(s, i).len() > 0 && ((fold_spec(s, i)[0] is Add) <==> (
        s[i] is Add)) && ((fold_spec(s, i)[0] is Move) <==> (s[i] is Move)),
        no_adjacent_runs(fold_spec(s, i)),
    decreases s.len() - i,
{
    if i == s.len() {
        return ;
    }
    let f = fold_spec(s, i);
    if s[i] is Add {
        lemma_add_run_len_bound(s, i);
        let next = i + add_run_len(s, i);
        lemma_fold_shape(s, next);
        let rest = fold_spec(s, next);
        assert(f == seq![Command::Add(wrap8(add_run_sum(s, i)))] + rest);
        assert forall|k: int|
            0 <= k < f.len() - 1 implies !((#[trigger] f[k]) is Add && f[k + 1] is Add) && !(
        f[k] is Move && f[k + 1] is Move) by {
            if k == 0 {
                assert(f[1] == rest[0]);
            } else {
                assert(f[k] == rest[k - 1] && f[k + 1] == rest[k]);
            }
        }
    } else if s[i] is Move {
        lemma_move_run_len_bound(s, i);
        let next = i + move_run_len(s, i);
        lemma_fold_shape(s, next);
        let rest = fold_spec(s, next);
        assert(f == seq![Command::Move(wrap16(move_run_sum(s, i)))] + rest);
        assert forall|k: int|
            0 <= k < f.len() - 1 implies !((#[trigger] f[k]) is Add && f[k + 1] is Add) && !(
        f[k] is Move && f[k + 1] is Move) by {
            if k == 0 {
                assert(f[1] == rest[0]);
            } else {
                assert(f[k] == rest[k - 1] && f[k + 1] == rest[k]);
            }
        }
    } else {
        lemma_fold_shape(s, i + 1);
        let rest = fold_spec(s, i + 1);
        assert(f == seq![s[i]] + rest);
        assert forall|k: int|
            0 <= k < f.len() - 1 implies !((#[trigger] f[k]) is Add && f[k + 1] is Add) && !(
        f[k] is Move && f[k + 1] is Move) by {
            if k == 0 {
                assert(f[1] == rest[0]);
            } else {
                assert(f[k] == rest[k - 1] && f[k + 1] == rest[k]);
            }
        }
    }
}

/// On a stream whose runs are already folded, folding changes nothing.
pub proof fn lemma_fold_identity(u: Seq<Command>, i: int)
    requires
        no_adjacent_runs(u),
        0 <= i <= u.len(),
    ensures
        fold_spec(u, i) == u.skip(i),
    decreases u.len() - i,
{
    if i == u.len() {
        assert(fold_spec(u, i) =~= u.skip(i));
    } else if u[i] is Add {
        assert(add_run_len(u, i + 1) == 0);
        assert(add_run_len(u, i) == 1);
        assert(add_run_sum(u, i + 1) == 0);
        assert(add_run_sum(u, i) == u[i]->Add_0);
        lemma_small_mod(u[i]->Add_0 as nat, 256);
        lemma_fold_identity(u, i + 1);
        assert(fold_spec(u, i) =~= u.skip(i));
    } else if u[i] is Move {
        assert(move_run_len(u, i + 1) == 0);
        assert(move_run_len(u, i) == 1);
        assert(move_run_sum(u, i + 1) == 0);
        assert(move_run_sum(u, i) == u[i]->Move_0);
        lemma_small_mod(u[i]->Move_0 as nat, 65536);
        lemma_fold_identity(u, i + 1);
        assert(fold_spec(u, i) =~= u.skip(i));
    } else {
        lemma_fold_identity(u, i + 1);
        assert(fold_spec(u, i) =~= u.skip(i));
    }
}

/// Folding is idempotent: running the run-folding pass on its own output is
/// a no-op, whatever the input stream was.
pub proof fn lemma_fold_idempotent(s: Seq<Command>)
    ensures
        fold_spec(fold_spec(s, 0), 0) == fold_spec(s, 0),
{
    lemma_fold_shape(s, 0);
    lemma_fold_identity(fold_spec(s, 0), 0);
    assert(fold_spec(s, 0).skip(0) =~= fold_spec(s, 0));
}

/// `loop_token_spec` reads only the suffix it stands in.
proof fn lemma_loop_token_shift(s: Seq<Command>, k: int, i: int, pos: usize)
    requires
        0 <= k <= i < s.len(),
    ensures
        ({
            let (c1, n1) = loop_token_spec(s, i, pos);
            let (c2, n2) = loop_token_spec(s.skip(k), i - k, pos);
            c1 == c2 && n2 == n1 - k
        }),
{
    let w = s.skip(k);
    assert(w.len() == s.len() - k);
    assert forall|m: int| 0 <= m < w.len() implies #[trigger] w[m] == s[m + k] by {}
}

/// `loop_reduce_spec` reads only the suffix it stands in.
proof fn lemma_loop_reduce_shift(s: Seq<Command>, k: int, i: int)
    requires
        0 <= k <= i <= s.len(),
    ensures
        loop_reduce_spec(s, i) == loop_reduce_spec(s.skip(k), i - k),
    decreases s.len() - i,
{
    let w = s.skip(k);
    assert(w.len() == s.len() - k);
    if i < s.len() {
        assert(w[i - k] == s[i]);
        if spec_is_open(s[i]) {
            lemma_loop_token_shift(s, k, i, s[i]->Loop_1);
            let (_, next) = loop_token_spec(s, i, s[i]->Loop_1);
            lemma_loop_reduce_shift(s, k, next);
        } else {
            lemma_loop_reduce_shift(s, k, i + 1);
        }
    } else {
        assert(loop_reduce_spec(s, i) =~= loop_reduce_spec(w, i - k));
    }
}

/// The front token of the idiom-recognition pass's output: loop tokens come
/// out as loop tokens, closes as closes, and anything else unchanged.
proof fn lemma_loop_reduce_shape(u: Seq<Command>, j: int)
    requires
        0 <= j <= u.len(),
    ensures
        j == u.len() ==> loop_reduce_spec(u, j) == Seq::<Command>::empty(),
        j < u.len() ==> ({
            let w = loop_reduce_spec(u, j);
            &&& w.len() > 0
            &&& (spec_is_close(w[0]) <==> spec_is_close(u[j]))
            &&& (w[0] is Add <==> u[j] is Add)
            &&& (w[0] is Move <==> u[j] is Move)
            &&& (u[j] is Add || u[j] is Move ==> w[0] == u[j])
        }),
{
}

/// The idiom-recognition pass never brings two `Add` or two `Move` tokens
/// together.
proof fn lemma_loop_reduce_no_adjacent(u: Seq<Command>, i: int)
    requires
        no_adjacent_runs(u),
        0 <= i <= u.len(),
    ensures
        no_adjacent_runs(loop_reduce_spec(u, i)),
    decreases u.len() - i,
{
    if i == u.len() {
        return ;
    }
    let w = loop_reduce_spec(u, i);
    let (head, next): (Command, int) = if spec_is_open(u[i]) {
        loop_token_spec(u, i, u[i]->Loop_1)
    } else if spec_is_close(u[i]) {
        (Command::Loop(LoopOptions::PointerEnd(None), u[i]->Loop_1), i + 1)
    } else {
        (u[i], i + 1)
    };
    let rest = loop_reduce_spec(u, next);
    assert(w == seq![head] + rest);
    lemma_loop_reduce_no_adjacent(u, next);
    lemma_loop_reduce_shape(u, next);
    assert forall|k: int|
        0 <= k < w.len() - 1 implies !((#[trigger] w[k]) is Add && w[k + 1] is Add) && !(
    w[k] is Move && w[k + 1] is Move) by {
        if k == 0 {
            assert(w[1] == rest[0]);
            if head is Add || head is Move {
                assert(head == u[i] && next == i + 1);
            }
        } else {
            assert(w[k] == rest[k - 1] && w[k + 1] == rest[k]);
        }
    }
}

/// Running the idiom-recognition pass on its own output changes nothing: a
/// loop it left plain still matches no idiom, and everything it rewrote is no
/// longer an open.
#[verifier::rlimit(100)]
#[verifier::spinoff_prover]
proof fn lemma_loop_reduce_fixpoint(u: Seq<Command>, i: int)
    requires
        0 <= i <= u.len(),
    ensures
        loop_reduce_spec(loop_reduce_spec(u, i), 0) == loop_reduce_spec(u, i),
    decreases u.len() - i,
{
    if i == u.len() {
        return ;
    }
    let w = loop_reduce_spec(u, i);
    let (head, next): (Command, int) = if spec_is_open(u[i]) {
        loop_token_spec(u, i, u[i]->Loop_1)
    } else if spec_is_close(u[i]) {
        (Command::Loop(LoopOptions::PointerEnd(None), u[i]->Loop_1), i + 1)
    } else {
        (u[i], i + 1)
    };
    let rest = loop_reduce_spec(u, next);
    assert(w == seq![head] + rest);
    lemma_loop_reduce_fixpoint(u, next);
    lemma_loop_reduce_shift(w, 1, 1);
    assert(w.skip(1) =~= rest);
    assert(loop_reduce_spec(w, 1) == loop_reduce_spec(rest, 0));
    if spec_is_open(head) {
        let pos = head->Loop_1;
        assert(head == Command::Loop(LoopOptions::PointerStart(None), pos) && next == i + 1);
        assert forall|m: int| 1 <= m < w.len() implies #[trigger] w[m] == rest[m - 1] by {}
        lemma_loop_reduce_shape(u, i + 1);
        if 1 < w.len() {
            assert(w[1] == rest[0]);
            assert(!spec_is_close(u[i + 1]));
            assert(!spec_is_close(w[1]));
            if w[1] is Add || w[1] is Move {
                assert(w[1] == u[i + 1]);
                assert(rest == seq![u[i + 1]] + loop_reduce_spec(u, i + 2));
                lemma_loop_reduce_shape(u, i + 2);
                if 2 < w.len() {
                    assert(w[2] == loop_reduce_spec(u, i + 2)[0]);
                    assert(i + 2 < u.len());
                    assert(spec_is_close(w[2]) <==> spec_is_close(u[i + 2]));
                    if w[2] is Add || w[2] is Move {
                        assert(w[2] == u[i + 2]);
                        assert(loop_reduce_spec(u, i + 2) == seq![u[i + 2]] + loop_reduce_spec(
                            u,
                            i + 3,
                        ));
                        lemma_loop_reduce_shape(u, i + 3);
                        if 3 < w.len() {
                            assert(w[3] == loop_reduce_spec(u, i + 3)[0]);
                            assert(i + 3 < u.len());
                            if w[3] is Add || w[3] is Move {
                                assert(w[3] == u[i + 3]);
                                assert(loop_reduce_spec(u, i + 3) == seq![u[i + 3]]
                                    + loop_reduce_spec(u, i + 4));
                                lemma_loop_reduce_shape(u, i + 4);
                                if 4 < w.len() {
                                    assert(w[4] == loop_reduce_spec(u, i + 4)[0]);
                                    assert(i + 4 < u.len());
                                    if w[4] is Add || w[4] is Move {
                                        assert(w[4] == u[i + 4]);
                                        assert(loop_reduce_spec(u, i + 4) == seq![u[i + 4]]
                                            + loop_reduce_spec(u, i + 5));
                                        lemma_loop_reduce_shape(u, i + 5);
                                        if 5 < w.len() {
                                            assert(w[5] == loop_reduce_spec(u, i + 5)[0]);
                                            assert(i + 5 < u.len());
                                            assert(spec_is_close(w[5]) <==> spec_is_close(
                                                u[i + 5],
                                            ));
                                        }
                                    }
                                }
                            }
                        }
                    }
                }
            }
        }
        assert(loop_token_spec(w, 0, pos) == (
            Command::Loop(LoopOptions::PointerStart(None), pos),
            1int,
        ));
        assert(loop_reduce_spec(w, 0) == seq![head] + loop_reduce_spec(w, 1));
        assert(loop_reduce_spec(w, 0) =~= w);
    } else if spec_is_close(head) {
        assert(head == Command::Loop(LoopOptions::PointerEnd(None), head->Loop_1));
        assert(loop_reduce_spec(w, 0) == seq![head] + loop_reduce_spec(w, 1));
        assert(loop_reduce_spec(w, 0) =~= w);
    } else {
        assert(loop_reduce_spec(w, 0) == seq![head] + loop_reduce_spec(w, 1));
        assert(loop_reduce_spec(w, 0) =~= w);
    }
}

/// The whole optimizer is idempotent: its output is a fixed point of both the
/// run-folding pass and the idiom-recognition pass, so optimizing an
/// already-optimized stream is a no-op.
pub proof fn lemma_optimizer_idempotent(s: Seq<Command>)
    ensures
        ({
            let once = loop_reduce_spec(fold_spec(s, 0), 0);
            loop_reduce_spec(fold_spec(once, 0), 0) == once
        }),
{
    let folded = fold_spec(s, 0);
    let once = loop_reduce_spec(folded, 0);
    lemma_fold_shape(s, 0);
    lemma_loop_reduce_no_adjacent(folded, 0);
    lemma_fold_identity(once, 0);
    assert(once.skip(0) =~= once);
    lemma_loop_reduce_fixpoint(folded, 0);
}

proof fn lemma_drain_down(start: u8, j: nat)
    requires
        start != 0,
        1 <= j <= start,
    ensures
        drain_search(start, 255, j) == Some(start as nat),
    decreases start - j,
{
    lemma_mod_multiples_vanish(j as int, start - j, 256);
    lemma_small_mod((start - j) as nat, 256);
    assert(j * 255 == 256 * (j as int) + (0 - j));
    assert(drain_value(start, 255, j) == (start - j) as u8);
    if j < start {
        lemma_drain_down(start, j + 1);
    }
}

proof fn lemma_drain_up(start: u8, j: nat)
    requires
        start != 0,
        1 <= j <= 256 - start,
    ensures
        drain_search(start, 1, j) == Some((256 - start) as nat),
    decreases 256 - start - j,
{
    assert(j * 1 == j);
    if j < 256 - start {
        lemma_small_mod((start + j) as nat, 256);
        assert(drain_value(start, 1, j) == (start + j) as u8);
        lemma_drain_up(start, j + 1);
    } else {
        assert(drain_value(start, 1, j) == 0);
    }
}

/// The central soundness fact behind the unconditional clear-cell rewrite: a
/// drain step of plus or minus one reaches zero from every nonzero starting
/// byte.
pub proof fn lemma_pm1_always_drains(start: u8, v: u8)
    requires
        start != 0,
        v == 1 || v == 255,
    ensures
        drain_search(start, v, 1) is Some,
{
    if v == 255 {
        lemma_drain_down(start, 1);
    } else {
        lemma_drain_up(start, 1);
    }
}

/// The three tokens of a linked loop whose body is the single `Add(v)` stand
/// at `s.pc`.
pub open spec fn add_loop_at(prog: Seq<Command>, s: MState, v: u8, p1: usize, p2: usize) -> bool {
    &&& s.pc + 2 < prog.len()
    &&& s.pc + 2 <= usize::MAX
    &&& prog[s.pc as int] == Command::Loop(
        LoopOptions::PointerStart(Some((s.pc + 2) as usize)),
        p1,
    )
    &&& prog[s.pc as int + 1] == Command::Add(v)
    &&& prog[s.pc as int + 2] == Command::Loop(LoopOptions::PointerEnd(Some(s.pc as usize)), p2)
}

#[verifier::rlimit(100)]
#[verifier::spinoff_prover]
proof fn lemma_add_loop_rounds(prog: Seq<Command>, s: MState, v: u8, p1: usize, p2: usize, j: nat)
    requires
        state_wf(s),
        add_loop_at(prog, s, v, p1, p2),
        s.tape[s.pointer as int] != 0,
        1 <= j,
        drain_value(s.tape[s.pointer as int], v, j) == 0,
        forall|t: nat| 1 <= t < j ==> drain_value(s.tape[s.pointer as int], v, t) != 0,
    ensures
        exists|n: nat|
            run_n(prog, s, n) == Stepped::Run(
                MState { tape: s.tape.update(s.pointer as int, 0), pc: s.pc + 3, ..s },
            ),
    decreases j,
{
    let p = s.pointer as int;
    let cell = s.tape[p];
    let target = MState { tape: s.tape.update(p, 0), pc: s.pc + 3, ..s };
    assert(run_n(prog, s, 0) == Stepped::Run(s));
    lemma_step1_open(prog, s, (s.pc + 2) as usize, p1);
    let s1 = MState { pc: s.pc + 1, ..s };
    lemma_run_n_step(prog, s, 0, s);
    assert(run_n(prog, s, 1) == Stepped::Run(s1));
    lemma_step1_add(prog, s1, v);
    assert(1 * v == v);
    let c1 = drain_value(cell, v, 1);
    let s2 = MState { tape: s.tape.update(p, c1), pc: s.pc + 2, ..s };
    assert(MState {
        tape: s1.tape.update(s1.pointer as int, wrap8(s1.tape[s1.pointer as int] + v)),
        pc: s1.pc + 1,
        ..s1
    } =~= s2);
    lemma_run_n_step(prog, s, 1, s1);
    assert(run_n(prog, s, 2) == Stepped::Run(s2));
    lemma_step1_close(prog, s2, s.pc as usize, p2);
    lemma_run_n_step(prog, s, 2, s2);
    if c1 == 0 {
        let s3 = MState { tape: s.tape.update(p, c1), pc: s.pc + 3, ..s };
        assert(run_n(prog, s, 3) == Stepped::Run(s3));
        assert(s3 =~= target);
        assert(run_n(prog, s, 3) == Stepped::Run(target));
    } else {
        assert(j >= 2);
        let s3 = MState { tape: s.tape.update(p, c1), pc: s.pc, ..s };
        assert(run_n(prog, s, 3) == Stepped::Run(s3));
        assert forall|t: nat| 1 <= t < (j - 1) as nat implies drain_value(c1, v, t) != 0 by {
            lemma_drain_value_shift(cell, v, t);
        }
        lemma_drain_value_shift(cell, v, (j - 1) as nat);
        lemma_add_loop_rounds(prog, s3, v, p1, p2, (j - 1) as nat);
        let n1 = choose|n: nat|
            run_n(prog, s3, n) == Stepped::Run(
                MState { tape: s3.tape.update(s3.pointer as int, 0), pc: s3.pc + 3, ..s3 },
            );
        let target3 = MState { tape: s3.tape.update(s3.pointer as int, 0), pc: s3.pc + 3, ..s3 };
        assert(target3 =~= target);
        lemma_run_n_add(prog, s, s3, 3, n1);
        assert(run_n(prog, s, 3 + n1) == Stepped::Run(target));
    }
}

/// A plain linked loop around one `Add(v)` is exactly the drain the idiom
/// instructions perform: whenever the drain reaches zero (and always when the
/// cell starts at zero), running the three-token loop ends with the current
/// cell zeroed, everything else untouched, and the program counter just past
/// the loop — the very tape effect that `ClearCell` and a successful
/// `AddToReset(v)` produce in a single dispatch.
#[verifier::rlimit(100)]
#[verifier::spinoff_prover]
pub proof fn lemma_single_add_loop_equiv(
    prog: Seq<Command>,
    s: MState,
    v: u8,
    p1: usize,
    p2: usize,
)
    requires
        state_wf(s),
        add_loop_at(prog, s, v, p1, p2),
        s.tape[s.pointer as int] == 0 || drain_search(s.tape[s.pointer as int], v, 1) is Some,
    ensures
        exists|n: nat|
            run_n(prog, s, n) == Stepped::Run(
                MState { tape: s.tape.update(s.pointer as int, 0), pc: s.pc + 3, ..s },
            ),
{
    let p = s.pointer as int;
    let cell = s.tape[p];
    let target = MState { tape: s.tape.update(p, 0), pc: s.pc + 3, ..s };
    if cell == 0 {
        assert(run_n(prog, s, 0) == Stepped::Run(s));
        lemma_step1_open(prog, s, (s.pc + 2) as usize, p1);
        let s1 = MState { pc: s.pc + 2, ..s };
        lemma_run_n_step(prog, s, 0, s);
        assert(run_n(prog, s, 1) == Stepped::Run(s1));
        lemma_step1_close(prog, s1, s.pc as usize, p2);
        let s2 = MState { pc: s.pc + 3, ..s };
        lemma_run_n_step(prog, s, 1, s1);
        assert(run_n(prog, s, 2) == Stepped::Run(s2));
        assert(s.tape.update(p, 0) =~= s.tape);
        assert(s2 =~= target);
        assert(run_n(prog, s, 2) == Stepped::Run(target));
    } else {
        let j = drain_search(cell, v, 1)->Some_0;
        assert(drain_search(cell, v, 1) == Some(j));
        lemma_drain_search_found(cell, v, 1, j);
        lemma_add_loop_rounds(prog, s, v, p1, p2, j);
    }
}

proof fn lemma_unit_scan_pos_moves(p: u16, d: u16, j: nat)
    requires
        d == 1 || d == 65535,
        1 <= j <= 65535,
    ensures
        scan_pos(p, d, j) != p,
{
    if d == 1 {
        assert(j * 1 == j);
        if p + j < 65536 {
            lemma_small_mod((p + j) as nat, 65536);
        } else {
            lemma_mod_multiples_vanish(1, p + j - 65536, 65536);
            lemma_small_mod((p + j - 65536) as nat, 65536);
        }
    } else {
        assert(j * 65535 == 65536 * (j as int) + (0 - j));
        if p >= j {
            lemma_mod_multiples_vanish(j as int, p - j, 65536);
            lemma_small_mod((p - j) as nat, 65536);
        } else {
            lemma_mod_multiples_vanish(j as int - 1, p - j + 65536, 65536);
            lemma_small_mod((p - j + 65536) as nat, 65536);
        }
    }
}

proof fn lemma_scan_reaches(tape: Seq<u8>, p: u16, d: u16, j: nat, k: nat)
    requires
        tape.len() == 65536,
        d == 1 || d == 65535,
        1 <= j <= k <= 65535,
        tape[scan_pos(p, d, k) as int] == 0,
    ensures
        scan_search(tape, p, d, j) is Some,
    decreases k - j,
{
    lemma_unit_scan_pos_moves(p, d, j);
    if tape[scan_pos(p, d, j) as int] != 0 {
        lemma_scan_reaches(tape, p, d, j + 1, k);
    }
}

/// The memory-full guard is the only thing that can stop a unit scan: as long
/// as some cell on the tape holds zero, a scan of step plus or minus one
/// finds one, so the defensive movement error can never fire.
pub proof fn lemma_pm1_scan_finds(tape: Seq<u8>, p: u16, d: u16)
    requires
        tape.len() == 65536,
        !tape_full(tape),
        tape[p as int] != 0,
        d == 1 || d == 65535,
    ensures
        scan_search(tape, p, d, 1) is Some,
{
    let z = choose|z: int| 0 <= z < tape.len() && tape[z] == 0;
    let k: int = if d == 1 {
        if z > p {
            z - p
        } else {
            z + 65536 - p
        }
    } else {
        if z < p {
            p - z
        } else {
            p + 65536 - z
        }
    };
    if d == 1 {
        assert(k * 1 == k);
        if z > p {
            lemma_small_mod(z as nat, 65536);
        } else {
            lemma_mod_multiples_vanish(1, z, 65536);
            lemma_small_mod(z as nat, 65536);
        }
    } else {
        assert(k * 65535 == 65536 * k + (0 - k));
        if z < p {
            lemma_mod_multiples_vanish(k, z, 65536);
            lemma_small_mod(z as nat, 65536);
        } else {
            lemma_mod_multiples_vanish(k - 1, z, 65536);
            lemma_small_mod(z as nat, 65536);
        }
    }
    assert(scan_pos(p, d, k as nat) == z as u16);
    lemma_scan_reaches(tape, p, d, 1, k as nat);
}

/// The three tokens of a linked loop whose body is the single `Move(d)` stand
/// at `s.pc`.
pub open spec fn move_loop_at(prog: Seq<Command>, s: MState, d: u16, p1: usize, p2: usize) -> bool {
    &&& s.pc + 2 < prog.len()
    &&& s.pc + 2 <= usize::MAX
    &&& prog[s.pc as int] == Command::Loop(
        LoopOptions::PointerStart(Some((s.pc + 2) as usize)),
        p1,
    )
    &&& prog[s.pc as int + 1] == Command::Move(d)
    &&& prog[s.pc as int + 2] == Command::Loop(LoopOptions::PointerEnd(Some(s.pc as usize)), p2)
}

#[verifier::rlimit(100)]
#[verifier::spinoff_prover]
proof fn lemma_move_loop_rounds(prog: Seq<Command>, s: MState, d: u16, p1: usize, p2: usize, k: nat)
    requires
        state_wf(s),
        move_loop_at(prog, s, d, p1, p2),
        s.tape[s.pointer as int] != 0,
        1 <= k,
        s.tape[scan_pos(s.pointer as u16, d, k) as int] == 0,
        forall|t: nat| 1 <= t < k ==> s.tape[(#[trigger] scan_pos(s.pointer as u16, d, t)) as int]
            != 0,
    ensures
        exists|n: nat|
            run_n(prog, s, n) == Stepped::Run(
                MState { pointer: scan_pos(s.pointer as u16, d, k) as nat, pc: s.pc + 3, ..s },
            ),
    decreases k,
{
    let p0 = s.pointer as u16;
    let target = MState { pointer: scan_pos(p0, d, k) as nat, pc: s.pc + 3, ..s };
    assert(run_n(prog, s, 0) == Stepped::Run(s));
    lemma_step1_open(prog, s, (s.pc + 2) as usize, p1);
    let s1 = MState { pc: s.pc + 1, ..s };
    lemma_run_n_step(prog, s, 0, s);
    assert(run_n(prog, s, 1) == Stepped::Run(s1));
    lemma_step1_move(prog, s1, d);
    assert(1 * d == d);
    let q1 = scan_pos(p0, d, 1);
    let s2 = MState { pointer: q1 as nat, pc: s.pc + 2, ..s };
    assert(MState { pointer: wrap16(s1.pointer + d) as nat, pc: s1.pc + 1, ..s1 } =~= s2);
    lemma_run_n_step(prog, s, 1, s1);
    assert(run_n(prog, s, 2) == Stepped::Run(s2));
    lemma_step1_close(prog, s2, s.pc as usize, p2);
    lemma_run_n_step(prog, s, 2, s2);
    if s.tape[q1 as int] == 0 {
        assert(k == 1);
        let s3 = MState { pointer: q1 as nat, pc: s.pc + 3, ..s };
        assert(run_n(prog, s, 3) == Stepped::Run(s3));
        assert(s3 =~= target);
        assert(run_n(prog, s, 3) == Stepped::Run(target));
    } else {
        assert(k >= 2);
        let s3 = MState { pointer: q1 as nat, pc: s.pc, ..s };
        assert(run_n(prog, s, 3) == Stepped::Run(s3));
        assert forall|t: nat|
            1 <= t < (k - 1) as nat implies s.tape[(#[trigger] scan_pos(q1, d, t)) as int] != 0 by {
            lemma_scan_pos_shift(p0, d, t);
        }
        lemma_scan_pos_shift(p0, d, (k - 1) as nat);
        lemma_move_loop_rounds(prog, s3, d, p1, p2, (k - 1) as nat);
        let n1 = choose|n: nat|
            run_n(prog, s3, n) == Stepped::Run(
                MState {
                    pointer: scan_pos(s3.pointer as u16, d, (k - 1) as nat) as nat,
                    pc: s3.pc + 3,
                    ..s3
                },
            );
        let target3 = MState {
            pointer: scan_pos(s3.pointer as u16, d, (k - 1) as nat) as nat,
            pc: s3.pc + 3,
            ..s3
        };
        assert(target3 =~= target);
        lemma_run_n_add(prog, s, s3, 3, n1);
        assert(run_n(prog, s, 3 + n1) == Stepped::Run(target));
    }
}

/// A plain linked loop around one `Move(d)` is exactly the scan the idiom
/// instructions perform: whenever the scan search finds a zero cell (and
/// always when the current cell is already zero), running the three-token
/// loop ends with the pointer on that very cell, everything else untouched,
/// and the program counter just past the loop — the tape effect of one
/// successful `ToRight`/`ToLeft` dispatch.
pub proof fn lemma_scan_loop_equiv(prog: Seq<Command>, s: MState, d: u16, p1: usize, p2: usize)
    requires
        state_wf(s),
        move_loop_at(prog, s, d, p1, p2),
        s.tape[s.pointer as int] == 0 || scan_search(s.tape, s.pointer as u16, d, 1) is Some,
    ensures
        s.tape[s.pointer as int] == 0 ==> exists|n: nat|
            run_n(prog, s, n) == Stepped::Run(MState { pc: s.pc + 3, ..s }),
        s.tape[s.pointer as int] != 0 ==> exists|n: nat|
            run_n(prog, s, n) == Stepped::Run(
                MState {
                    pointer: scan_pos(
                        s.pointer as u16,
                        d,
                        scan_search(s.tape, s.pointer as u16, d, 1)->Some_0,
                    ) as nat,
                    pc: s.pc + 3,
                    ..s
                },
            ),
{
    if s.tape[s.pointer as int] == 0 {
        assert(run_n(prog, s, 0) == Stepped::Run(s));
        lemma_step1_open(prog, s, (s.pc + 2) as usize, p1);
        let s1 = MState { pc: s.pc + 2, ..s };
        lemma_run_n_step(prog, s, 0, s);
        assert(run_n(prog, s, 1) == Stepped::Run(s1));
        lemma_step1_close(prog, s1, s.pc as usize, p2);
        let s2 = MState { pc: s.pc + 3, ..s };
        lemma_run_n_step(prog, s, 1, s1);
        assert(run_n(prog, s, 2) == Stepped::Run(s2));
    } else {
        let k = scan_search(s.tape, s.pointer as u16, d, 1)->Some_0;
        assert(scan_search(s.tape, s.pointer as u16, d, 1) == Some(k));
        lemma_scan_search_found(s.tape, s.pointer as u16, d, 1, k);
        lemma_move_loop_rounds(prog, s, d, p1, p2, k);
    }
}

/// The six tokens of a linked transfer loop (`Add(v1)`, out by `o`, `Add(v2)`,
/// back by `o2`) stand at `s.pc`, with the two moves cancelling.
pub open spec fn transfer_loop_at(
    prog: Seq<Command>,
    s: MState,
    o: u16,
    o2: u16,
    v1: u8,
    v2: u8,
    p1: usize,
    p2: usize,
) -> bool {
    &&& s.pc + 5 < prog.len()
    &&& s.pc + 5 <= usize::MAX
    &&& prog[s.pc as int] == Command::Loop(
        LoopOptions::PointerStart(Some((s.pc + 5) as usize)),
        p1,
    )
    &&& prog[s.pc as int + 1] == Command::Add(v1)
    &&& prog[s.pc as int + 2] == Command::Move(o)
    &&& prog[s.pc as int + 3] == Command::Add(v2)
    &&& prog[s.pc as int + 4] == Command::Move(o2)
    &&& prog[s.pc as int + 5] == Command::Loop(LoopOptions::PointerEnd(Some(s.pc as usize)), p2)
    &&& wrap16(o + o2) == 0
}

proof fn lemma_moves_cancel(p: u16, o: u16, o2: u16)
    requires
        wrap16(o + o2) == 0,
    ensures
        wrap16(wrap16(p + o) + o2) == p,
{
    crate::wrap::lemma_wrap_compose(p + o, o2 as int, 65536);
    lemma_small_mod(0, 65536);
    if o + o2 < 65536 {
        lemma_small_mod((o + o2) as nat, 65536);
        assert(o == 0 && o2 == 0);
        lemma_small_mod(p as nat, 65536);
    } else {
        lemma_mod_multiples_vanish(1, p as int, 65536);
        lemma_small_mod(p as nat, 65536);
        assert((o + o2 - 65536) % 65536 == wrap16(o + o2) as int) by {
            lemma_mod_multiples_vanish(1, o + o2 - 65536, 65536);
        }
        lemma_small_mod((o + o2 - 65536) as nat, 65536);
        assert(o + o2 == 65536);
    }
}

#[verifier::rlimit(100)]
#[verifier::spinoff_prover]
proof fn lemma_transfer_loop_rounds(
    prog: Seq<Command>,
    s: MState,
    o: u16,
    o2: u16,
    v1: u8,
    v2: u8,
    p1: usize,
    p2: usize,
    j: nat,
)
    requires
        state_wf(s),
        transfer_loop_at(prog, s, o, o2, v1, v2, p1, p2),
        wrap16(s.pointer + o) != s.pointer as u16,
        s.tape[s.pointer as int] != 0,
        1 <= j,
        drain_value(s.tape[s.pointer as int], v1, j) == 0,
        forall|t: nat| 1 <= t < j ==> drain_value(s.tape[s.pointer as int], v1, t) != 0,
    ensures
        exists|n: nat|
            run_n(prog, s, n) == Stepped::Run(
                MState {
                    tape: s.tape.update(s.pointer as int, 0).update(
                        wrap16(s.pointer + o) as int,
                        wrap8(s.tape[wrap16(s.pointer + o) as int] + j * v2),
                    ),
                    pc: s.pc + 6,
                    ..s
                },
            ),
    decreases j,
{
    let p = s.pointer as int;
    let cell = s.tape[p];
    let dest = wrap16(s.pointer + o);
    let d0 = s.tape[dest as int];
    let target = MState {
        tape: s.tape.update(p, 0).update(dest as int, wrap8(d0 + j * v2)),
        pc: s.pc + 6,
        ..s
    };
    assert(run_n(prog, s, 0) == Stepped::Run(s));
    lemma_step1_open(prog, s, (s.pc + 5) as usize, p1);
    let s1 = MState { pc: s.pc + 1, ..s };
    lemma_run_n_step(prog, s, 0, s);
    assert(run_n(prog, s, 1) == Stepped::Run(s1));
    lemma_step1_add(prog, s1, v1);
    assert(1 * v1 == v1);
    assert(1 * v2 == v2);
    let c1 = drain_value(cell, v1, 1);
    let tape1 = s.tape.update(p, c1);
    let s2 = MState { tape: tape1, pc: s.pc + 2, ..s };
    assert(MState {
        tape: s1.tape.update(s1.pointer as int, wrap8(s1.tape[s1.pointer as int] + v1)),
        pc: s1.pc + 1,
        ..s1
    } =~= s2);
    lemma_run_n_step(prog, s, 1, s1);
    assert(run_n(prog, s, 2) == Stepped::Run(s2));
    lemma_step1_move(prog, s2, o);
    let s3 = MState { tape: tape1, pointer: dest as nat, pc: s.pc + 3, ..s };
    assert(MState { pointer: wrap16(s2.pointer + o) as nat, pc: s2.pc + 1, ..s2 } =~= s3);
    lemma_run_n_step(prog, s, 2, s2);
    assert(run_n(prog, s, 3) == Stepped::Run(s3));
    lemma_step1_add(prog, s3, v2);
    let d1 = drain_value(d0, v2, 1);
    assert(tape1[dest as int] == d0);
    let tape2 = tape1.update(dest as int, d1);
    let s4 = MState { tape: tape2, pointer: dest as nat, pc: s.pc + 4, ..s };
    assert(MState {
        tape: s3.tape.update(s3.pointer as int, wrap8(s3.tape[s3.pointer as int] + v2)),
        pc: s3.pc + 1,
        ..s3
    } =~= s4);
    lemma_run_n_step(prog, s, 3, s3);
    assert(run_n(prog, s, 4) == Stepped::Run(s4));
    lemma_step1_move(prog, s4, o2);
    lemma_moves_cancel(s.pointer as u16, o, o2);
    lemma_small_mod(s.pointer, 65536);
    let s5 = MState { tape: tape2, pc: s.pc + 5, ..s };
    assert(MState { pointer: wrap16(s4.pointer + o2) as nat, pc: s4.pc + 1, ..s4 } =~= s5);
    lemma_run_n_step(prog, s, 4, s4);
    assert(run_n(prog, s, 5) == Stepped::Run(s5));
    lemma_step1_close(prog, s5, s.pc as usize, p2);
    assert(tape2[p] == c1);
    lemma_run_n_step(prog, s, 5, s5);
    if c1 == 0 {
        let s6 = MState { tape: tape2, pc: s.pc + 6, ..s };
        assert(run_n(prog, s, 6) == Stepped::Run(s6));
        assert(tape2 =~= s.tape.update(p, 0).update(dest as int, wrap8(d0 + 1 * v2)));
        assert(s6 =~= target);
        assert(run_n(prog, s, 6) == Stepped::Run(target));
    } else {
        assert(j >= 2);
        let s6 = MState { tape: tape2, pc: s.pc, ..s };
        assert(run_n(prog, s, 6) == Stepped::Run(s6));
        assert forall|t: nat| 1 <= t < (j - 1) as nat implies drain_value(c1, v1, t) != 0 by {
            lemma_drain_value_shift(cell, v1, t);
        }
        lemma_drain_value_shift(cell, v1, (j - 1) as nat);
        lemma_transfer_loop_rounds(prog, s6, o, o2, v1, v2, p1, p2, (j - 1) as nat);
        let dest6 = wrap16(s6.pointer + o);
        let n1 = choose|n: nat|
            run_n(prog, s6, n) == Stepped::Run(
                MState {
                    tape: s6.tape.update(s6.pointer as int, 0).update(
                        dest6 as int,
                        wrap8(s6.tape[dest6 as int] + ((j - 1) as nat) * v2),
                    ),
                    pc: s6.pc + 6,
                    ..s6
                },
            );
        let target6 = MState {
            tape: s6.tape.update(s6.pointer as int, 0).update(
                dest6 as int,
                wrap8(s6.tape[dest6 as int] + ((j - 1) as nat) * v2),
            ),
            pc: s6.pc + 6,
            ..s6
        };
        lemma_drain_value_shift(d0, v2, (j - 1) as nat);
        assert(s6.tape[dest6 as int] == d1);
        assert(wrap8(d1 + ((j - 1) as nat) * v2) == drain_value(d1, v2, (j - 1) as nat));
        assert(wrap8(d1 + ((j - 1) as nat) * v2) == wrap8(d0 + j * v2));
        assert(target6.tape =~= target.tape);
        assert(target6 =~= target);
        lemma_run_n_add(prog, s, s6, 6, n1);
        assert(run_n(prog, s, 6 + n1) == Stepped::Run(target));
    }
}

/// A plain linked transfer loop (drain the current cell by `v1`, add `v2` at
/// offset `o` once per round) is exactly the `CutAdd` idiom: whenever the
/// drain reaches zero (and always when the cell starts at zero), running the
/// six-token loop ends with the current cell zeroed, the destination cell
/// raised by one `v2` per round, and the program counter just past the loop —
/// the tape effect of one successful `CutAdd(o, v1, v2)` dispatch.
pub proof fn lemma_transfer_loop_equiv(
    prog: Seq<Command>,
    s: MState,
    o: u16,
    o2: u16,
    v1: u8,
    v2: u8,
    p1: usize,
    p2: usize,
)
    requires
        state_wf(s),
        transfer_loop_at(prog, s, o, o2, v1, v2, p1, p2),
        wrap16(s.pointer + o) != s.pointer as u16,
        s.tape[s.pointer as int] == 0 || drain_search(s.tape[s.pointer as int], v1, 1) is Some,
    ensures
        s.tape[s.pointer as int] == 0 ==> exists|n: nat|
            run_n(prog, s, n) == Stepped::Run(MState { pc: s.pc + 6, ..s }),
        s.tape[s.pointer as int] != 0 ==> exists|n: nat|
            run_n(prog, s, n) == Stepped::Run(
                MState {
                    tape: s.tape.update(s.pointer as int, 0).update(
                        wrap16(s.pointer + o) as int,
                        wrap8(
                            s.tape[wrap16(s.pointer + o) as int] + drain_search(
                                s.tape[s.pointer as int],
                                v1,
                                1,
                            )->Some_0 * v2,
                        ),
                    ),
                    pc: s.pc + 6,
                    ..s
                },
            ),
{
    if s.tape[s.pointer as int] == 0 {
        assert(run_n(prog, s, 0) == Stepped::Run(s));
        lemma_step1_open(prog, s, (s.pc + 5) as usize, p1);
        let s1 = MState { pc: s.pc + 5, ..s };
        lemma_run_n_step(prog, s, 0, s);
        assert(run_n(prog, s, 1) == Stepped::Run(s1));
        lemma_step1_close(prog, s1, s.pc as usize, p2);
        let s2 = MState { pc: s.pc + 6, ..s };
        lemma_run_n_step(prog, s, 1, s1);
        assert(run_n(prog, s, 2) == Stepped::Run(s2));
    } else {
        let j = drain_search(s.tape[s.pointer as int], v1, 1)->Some_0;
        assert(drain_search(s.tape[s.pointer as int], v1, 1) == Some(j));
        lemma_drain_search_found(s.tape[s.pointer as int], v1, 1, j);
        lemma_transfer_loop_rounds(prog, s, o, o2, v1, v2, p1, p2, j);
    }
}

/// The unconditional clear-cell rewrite never changes what a program does: a
/// linked loop whose body is one `Add(1)` or `Add(255)` always terminates,
/// and leaves exactly the state that one `ClearCell` dispatch leaves (with
/// the program counter past the three consumed tokens instead of one).
pub proof fn lemma_clear_cell_equiv(prog: Seq<Command>, s: MState, v: u8, p1: usize, p2: usize)
    requires
        state_wf(s),
        add_loop_at(prog, s, v, p1, p2),
        v == 1 || v == 255,
    ensures
        exists|n: nat|
            run_n(prog, s, n) == Stepped::Run(
                MState { tape: s.tape.update(s.pointer as int, 0), pc: s.pc + 3, ..s },
            ),
{
    if s.tape[s.pointer as int] != 0 {
        lemma_pm1_always_drains(s.tape[s.pointer as int], v);
    }
    lemma_single_add_loop_equiv(prog, s, v, p1, p2);
}

} // verus!
