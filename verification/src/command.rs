use vstd::prelude::*;

use crate::error::InterpreterError;
use crate::wrap::{lemma_wrap_add, wrap16, wrap8};

verus! {

/// The instruction stream: an ordered sequence of commands whose index is the
/// program-counter domain.
pub type Commands = Vec<Command>;

/// One primitive token, in 1:1 correspondence with a source character.
/// Bracket tokens carry their 1-based source position.
#[derive(Debug, Clone, Copy, PartialEq, Eq, Structural)]
pub enum CommandClassic {
    Increase,
    Decrease,
    Left,
    Right,
    Input,
    Output,
    OpenLoop(usize),
    ClosedLoop(usize),
}

/// The two directions of the byte buffer instructions.
#[derive(Debug, Clone, Copy, PartialEq, Eq, Structural)]
pub enum BufferOptions {
    Input,
    Output,
}

/// How a recognized loop behaves, or, for `PointerStart`/`PointerEnd`, the
/// jump target a plain loop was linked to (`None` until linking).
#[derive(Debug, Clone, Copy, PartialEq, Eq, Structural)]
pub enum LoopOptions {
    /// `[-]` or `[+]`: set the current cell to zero, unconditionally sound.
    ClearCell,
    /// `[Add(step)]` for any other step (zero stands for an empty body):
    /// drain the cell by repeated wrapping addition, guarded at runtime.
    AddToReset(u8),
    /// `[<]`: move the pointer left until a zero cell is under it.
    ToLeft,
    /// `[>]`: move the pointer right until a zero cell is under it.
    ToRight,
    /// `[Add(src) Move(o) Add(dst) Move(-o)]` or its `Move`-first twin:
    /// drain the current cell with `src` while adding `dst` to the cell at
    /// offset `o` once per round, guarded at runtime.
    CutAdd(u16, u8, u8),
    /// A plain `[`, pointing at the index of its `]` once linked.
    PointerStart(Option<usize>),
    /// A plain `]`, pointing at the index of its `[` once linked.
    PointerEnd(Option<usize>),
}

/// One instruction of the optimized stream.  `Loop` carries the 1-based
/// source position of the `[` or `]` it came from.
#[derive(Debug, Clone, Copy, PartialEq, Eq, Structural)]
pub enum Command {
    Add(u8),
    Move(u16),
    Buffer(BufferOptions),
    Loop(LoopOptions, usize),
}

/// The eight characters of the language.
pub open spec fn is_valid_char(c: char) -> bool {
    c == '+' || c == '-' || c == '<' || c == '>' || c == ',' || c == '.' || c == '[' || c == ']'
}

/// The token a valid character at 1-based position `pos` lexes to.
pub open spec fn classic_of(c: char, pos: usize) -> CommandClassic {
    if c == '+' {
        CommandClassic::Increase
    } else if c == '-' {
        CommandClassic::Decrease
    } else if c == '<' {
        CommandClassic::Left
    } else if c == '>' {
        CommandClassic::Right
    } else if c == ',' {
        CommandClassic::Input
    } else if c == '.' {
        CommandClassic::Output
    } else if c == '[' {
        CommandClassic::OpenLoop(pos)
    } else {
        CommandClassic::ClosedLoop(pos)
    }
}

/// Length of the unbroken run of `Add` tokens starting at `i`.
pub open spec fn add_run_len(s: Seq<Command>, i: int) -> nat
    decreases s.len() - i when i <= s.len()
{
    if i < 0 || i >= s.len() {
        0
    } else if s[i] is Add {
        1 + add_run_len(s, i + 1)
    } else {
        0
    }
}

/// Exact (unwrapped) sum of the run of `Add` tokens starting at `i`.
pub open spec fn add_run_sum(s: Seq<Command>, i: int) -> int
    decreases s.len() - i when i <= s.len()
{
    if i < 0 || i >= s.len() {
        0
    } else if s[i] is Add {
        s[i]->Add_0 + add_run_sum(s, i + 1)
    } else {
        0
    }
}

/// Length of the unbroken run of `Move` tokens starting at `i`.
pub open spec fn move_run_len(s: Seq<Command>, i: int) -> nat
    decreases s.len() - i when i <= s.len()
{
    if i < 0 || i >= s.len() {
        0
    } else if s[i] is Move {
        1 + move_run_len(s, i + 1)
    } else {
        0
    }
}

/// Exact (unwrapped) sum of the run of `Move` tokens starting at `i`.
pub open spec fn move_run_sum(s: Seq<Command>, i: int) -> int
    decreases s.len() - i when i <= s.len()
{
    if i < 0 || i >= s.len() {
        0
    } else if s[i] is Move {
        s[i]->Move_0 + move_run_sum(s, i + 1)
    } else {
        0
    }
}

/// An `Add` run ends inside the stream, and never on another `Add`.
pub proof fn lemma_add_run_len_bound(s: Seq<Command>, i: int)
    requires
        i <= s.len(),
    ensures
        i >= 0 ==> i + add_run_len(s, i) <= s.len(),
        i >= 0 && i + add_run_len(s, i) < s.len() ==> !(s[i + add_run_len(s, i)] is Add),
    decreases s.len() - i,
{
    if 0 <= i < s.len() && s[i] is Add {
        lemma_add_run_len_bound(s, i + 1);
    }
}

/// A `Move` run ends inside the stream, and never on another `Move`.
pub proof fn lemma_move_run_len_bound(s: Seq<Command>, i: int)
    requires
        i <= s.len(),
    ensures
        i >= 0 ==> i + move_run_len(s, i) <= s.len(),
        i >= 0 && i + move_run_len(s, i) < s.len() ==> !(s[i + move_run_len(s, i)] is Move),
    decreases s.len() - i,
{
    if 0 <= i < s.len() && s[i] is Move {
        lemma_move_run_len_bound(s, i + 1);
    }
}

/// What the run-folding pass leaves of `s` from index `i` on: each maximal
/// run of `Add` or `Move` tokens becomes one token carrying the wrapping sum
/// (kept even when the sum is zero, so that folding twice changes nothing);
/// everything else is kept as it is.
pub open spec fn fold_spec(s: Seq<Command>, i: int) -> Seq<Command>
    decreases s.len() - i when i <= s.len() via fold_spec_dec
{
    if i < 0 || i >= s.len() {
        Seq::empty()
    } else if s[i] is Add {
        seq![Command::Add(wrap8(add_run_sum(s, i)))] + fold_spec(s, i + add_run_len(s, i))
    } else if s[i] is Move {
        seq![Command::Move(wrap16(move_run_sum(s, i)))] + fold_spec(s, i + move_run_len(s, i))
    } else {
        seq![s[i]] + fold_spec(s, i + 1)
    }
}

#[via_fn]
proof fn fold_spec_dec(s: Seq<Command>, i: int) {
    lemma_add_run_len_bound(s, i);
    lemma_move_run_len_bound(s, i);
}

/// A still-unlinked (or linked) loop-open token.
pub open spec fn spec_is_open(c: Command) -> bool {
    c is Loop && c->Loop_0 is PointerStart
}

/// A still-unlinked (or linked) loop-close token.
pub open spec fn spec_is_close(c: Command) -> bool {
    c is Loop && c->Loop_0 is PointerEnd
}

/// What the loop-open at `start` becomes, and the index right after what the
/// recognition consumed.  A body of exactly one `Add(1)` or `Add(255)` is the
/// unconditionally sound `ClearCell`; one other `Add` (or an empty body,
/// taken as step zero) is the runtime-guarded `AddToReset`; one `Move` of
/// plus or minus one is a scan; a four-token transfer body whose two moves
/// cancel is `CutAdd`; everything else leaves a plain open to be linked.
pub open spec fn loop_token_spec(s: Seq<Command>, start: int, pos: usize) -> (Command, int) {
    if start + 1 < s.len() && spec_is_close(s[start + 1]) {
        (Command::Loop(LoopOptions::AddToReset(0), pos), start + 2)
    } else if start + 2 < s.len() && s[start + 1] is Add && spec_is_close(s[start + 2]) {
        let v = s[start + 1]->Add_0;
        if v == 1 || v == 255 {
            (Command::Loop(LoopOptions::ClearCell, pos), start + 3)
        } else {
            (Command::Loop(LoopOptions::AddToReset(v), pos), start + 3)
        }
    } else if start + 2 < s.len() && s[start + 1] == Command::Move(1) && spec_is_close(
        s[start + 2],
    ) {
        (Command::Loop(LoopOptions::ToRight, pos), start + 3)
    } else if start + 2 < s.len() && s[start + 1] == Command::Move(65535) && spec_is_close(
        s[start + 2],
    ) {
        (Command::Loop(LoopOptions::ToLeft, pos), start + 3)
    } else if start + 5 < s.len() && s[start + 1] is Add && s[start + 2] is Move && s[start
        + 3] is Add && s[start + 4] is Move && wrap16(
        s[start + 2]->Move_0 + s[start + 4]->Move_0,
    ) == 0 && spec_is_close(s[start + 5]) {
        (
            Command::Loop(
                LoopOptions::CutAdd(s[start + 2]->Move_0, s[start + 1]->Add_0, s[start + 3]->Add_0),
                pos,
            ),
            start + 6,
        )
    } else if start + 5 < s.len() && s[start + 1] is Move && s[start + 2] is Add && s[start
        + 3] is Move && s[start + 4] is Add && wrap16(
        s[start + 1]->Move_0 + s[start + 3]->Move_0,
    ) == 0 && spec_is_close(s[start + 5]) {
        (
            Command::Loop(
                LoopOptions::CutAdd(s[start + 1]->Move_0, s[start + 4]->Add_0, s[start + 2]->Add_0),
                pos,
            ),
            start + 6,
        )
    } else {
        (Command::Loop(LoopOptions::PointerStart(None), pos), start + 1)
    }
}

/// What the idiom-recognition pass leaves of `s` from index `i` on: every
/// loop-open is put through `loop_token_spec`, every loop-close keeps its
/// position with an empty target, everything else is kept as it is.
pub open spec fn loop_reduce_spec(s: Seq<Command>, i: int) -> Seq<Command>
    decreases s.len() - i when i <= s.len()
{
    if i < 0 || i >= s.len() {
        Seq::empty()
    } else if spec_is_open(s[i]) {
        let (cmd, next) = loop_token_spec(s, i, s[i]->Loop_1);
        seq![cmd] + loop_reduce_spec(s, next)
    } else if spec_is_close(s[i]) {
        seq![Command::Loop(LoopOptions::PointerEnd(None), s[i]->Loop_1)] + loop_reduce_spec(
            s,
            i + 1,
        )
    } else {
        seq![s[i]] + loop_reduce_spec(s, i + 1)
    }
}

/// Number of loop-opens minus loop-closes among the first `i` tokens.
pub open spec fn depth(s: Seq<Command>, i: int) -> int
    decreases i when i >= 0
{
    if i <= 0 || i > s.len() {
        0
    } else if spec_is_open(s[i - 1]) {
        depth(s, i - 1) + 1
    } else if spec_is_close(s[i - 1]) {
        depth(s, i - 1) - 1
    } else {
        depth(s, i - 1)
    }
}

/// The open at `i` and the close at `j` belong to each other: the close is
/// the first place the nesting level falls back to what it was before the
/// open.
pub open spec fn pair_matched(s: Seq<Command>, i: int, j: int) -> bool {
    &&& 0 <= i < j < s.len()
    &&& spec_is_open(s[i])
    &&& spec_is_close(s[j])
    &&& depth(s, j) == depth(s, i) + 1
    &&& forall|k: int| i < k <= j ==> depth(s, k) > depth(s, i)
}

/// A close is matched by at most one open.
pub proof fn lemma_pair_open_unique(s: Seq<Command>, i1: int, i2: int, j: int)
    requires
        pair_matched(s, i1, j),
        pair_matched(s, i2, j),
    ensures
        i1 == i2,
{
    if i1 < i2 {
        assert(depth(s, i2) > depth(s, i1));
    } else if i2 < i1 {
        assert(depth(s, i1) > depth(s, i2));
    }
}

/// An open is matched by at most one close.
pub proof fn lemma_pair_close_unique(s: Seq<Command>, i: int, j1: int, j2: int)
    requires
        pair_matched(s, i, j1),
        pair_matched(s, i, j2),
    ensures
        j1 == j2,
{
    if j1 < j2 {
        assert(depth(s, j1 + 1) == depth(s, i));
        assert(depth(s, j1 + 1) > depth(s, i));
    } else if j2 < j1 {
        assert(depth(s, j2 + 1) == depth(s, i));
        assert(depth(s, j2 + 1) > depth(s, i));
    }
}

/// The bracket scan from token `i` on, carrying the stack of open indices:
/// `Err(j)` names the first close with nothing to match it, `Ok` hands back
/// the opens still unmatched at the end, oldest first.
pub open spec fn link_scan(s: Seq<Command>, i: int, stack: Seq<int>) -> Result<Seq<int>, int>
    decreases s.len() - i when i <= s.len()
{
    if i < 0 || i >= s.len() {
        Ok(stack)
    } else if spec_is_open(s[i]) {
        link_scan(s, i + 1, stack.push(i))
    } else if spec_is_close(s[i]) {
        if stack.len() == 0 {
            Err(i)
        } else {
            link_scan(s, i + 1, stack.drop_last())
        }
    } else {
        link_scan(s, i + 1, stack)
    }
}

/// The error the linker owes for `s`: the first unmatched close reports its
/// own source position, unmatched opens report the first (oldest) of them.
pub open spec fn link_error(s: Seq<Command>, e: InterpreterError) -> bool {
    match link_scan(s, 0, Seq::empty()) {
        Err(ci) => e == InterpreterError::MalformedClosedLoop(s[ci]->Loop_1),
        Ok(st) => st.len() > 0 && e == InterpreterError::MalformedOpenLoop(s[st[0]]->Loop_1),
    }
}

/// The linker's close error names a close with nothing open before it, and
/// reports that close's own source position; every earlier close had an open
/// to match.
pub open spec fn first_unmatched_close(s: Seq<Command>, pos: usize) -> bool {
    exists|ci: int|
        {
            &&& 0 <= ci < s.len()
            &&& spec_is_close(#[trigger] s[ci])
            &&& pos == s[ci]->Loop_1
            &&& depth(s, ci) == 0
            &&& (forall|k: int| 0 <= k < ci && spec_is_close(#[trigger] s[k]) ==> depth(s, k) > 0)
        }
}

/// The linker's open error names the first (oldest) unmatched open and
/// reports its source position: its nesting level never falls back, and every
/// open before it is matched.
pub open spec fn first_unmatched_open(s: Seq<Command>, pos: usize) -> bool {
    exists|oi: int|
        {
            &&& 0 <= oi < s.len()
            &&& spec_is_open(#[trigger] s[oi])
            &&& pos == s[oi]->Loop_1
            &&& (forall|k: int| oi < k <= s.len() ==> depth(s, k) > depth(s, oi))
            &&& (forall|k: int|
                0 <= k < oi && spec_is_open(#[trigger] s[k]) ==> exists|m: int|
                    pair_matched(s, k, m))
        }
}

/// What a successful link owes: brackets balance, nothing but brackets moves,
/// and every matched pair points at each other.
pub open spec fn linked_ok(s: Seq<Command>, out: Seq<Command>) -> bool {
    &&& link_scan(s, 0, Seq::empty()) == Ok::<Seq<int>, int>(Seq::<int>::empty())
    &&& out.len() == s.len()
    &&& forall|i: int|
        0 <= i < s.len() && !spec_is_open(#[trigger] s[i]) && !spec_is_close(s[i]) ==> out[i]
            == s[i]
    &&& forall|i: int, j: int|
        #[trigger] pair_matched(s, i, j) ==> out[i] == Command::Loop(
            LoopOptions::PointerStart(Some(j as usize)),
            s[i]->Loop_1,
        ) && out[j] == Command::Loop(LoopOptions::PointerEnd(Some(i as usize)), s[j]->Loop_1)
}

/// One stack entry of the exec bracket scan is sound: it records a real open
/// below every later nesting level, at its own level `t`.
pub open spec fn stack_elem_ok(s: Seq<Command>, upto: int, st: Seq<(usize, usize)>, t: int) -> bool {
    let oi = st[t].0 as int;
    &&& 0 <= oi < upto
    &&& spec_is_open(s[oi])
    &&& st[t].1 == s[oi]->Loop_1
    &&& depth(s, oi) == t
    &&& forall|k: int| oi < k <= upto ==> depth(s, k) > t
}

/// One collected pair of the exec bracket scan is sound, with the source
/// positions it stores.
pub open spec fn pair_elem_ok(s: Seq<Command>, p: ((usize, usize), (usize, usize))) -> bool {
    &&& pair_matched(s, p.0.0 as int, p.1.0 as int)
    &&& p.0.1 == s[p.0.0 as int]->Loop_1
    &&& p.1.1 == s[p.1.0 as int]->Loop_1
}

/// The open indices a stack of the exec bracket scan holds.
pub open spec fn stack_indices(st: Seq<(usize, usize)>) -> Seq<int> {
    st.map_values(|p: (usize, usize)| p.0 as int)
}

/// Token `i` is an open or close slot of one of the pairs numbered `from` on.
pub open spec fn rewrite_slot(
    pairs: Seq<((usize, usize), (usize, usize))>,
    from: int,
    i: int,
) -> bool {
    exists|t: int|
        from <= t < pairs.len() && ((#[trigger] pairs[t]).0.0 == i || pairs[t].1.0 == i)
}

/// `c` counts as an occurrence of `token`: open matches open and close
/// matches close whatever their targets and positions, anything else must be
/// equal outright.
pub open spec fn token_matches(c: Command, token: Command) -> bool {
    ||| (spec_is_open(c) && spec_is_open(token))
    ||| (spec_is_close(c) && spec_is_close(token))
    ||| c == token
}

/// How many of the tokens from `i` on count as occurrences of `token`.
pub open spec fn count_matching(s: Seq<Command>, token: Command, i: int) -> int
    decreases s.len() - i when i <= s.len()
{
    if i < 0 || i >= s.len() {
        0
    } else {
        (if token_matches(s[i], token) {
            1int
        } else {
            0int
        }) + count_matching(s, token, i + 1)
    }
}

impl CommandClassic {
    /// Lex the source: one token per character, all eight characters
    /// recognized, anything else fatal at the first offender.
    pub fn code_to_tokens(code: String) -> (r: Result<Vec<CommandClassic>, InterpreterError>)
        ensures
            match r {
                Ok(ts) => {
                    &&& forall|i: int| 0 <= i < code@.len() ==> is_valid_char(#[trigger] code@[i])
                    &&& ts@.len() == code@.len()
                    &&& forall|i: int|
                        0 <= i < code@.len() ==> #[trigger] ts@[i] == classic_of(
                            code@[i],
                            (i + 1) as usize,
                        )
                },
                Err(e) => exists|i: int|
                    {
                        &&& 0 <= i < code@.len()
                        &&& !is_valid_char(#[trigger] code@[i])
                        &&& forall|j: int| 0 <= j < i ==> is_valid_char(#[trigger] code@[j])
                        &&& e == InterpreterError::InstruccionUnknown(code@[i], (i + 1) as usize)
                    },
            },
    {
        let n = code.as_str().unicode_len();
        let mut tokens: Vec<CommandClassic> = Vec::new();
        let mut i: usize = 0;
        while i < n
            invariant
                n == code@.len(),
                i <= n,
                tokens@.len() == i,
                forall|j: int| 0 <= j < i ==> is_valid_char(#[trigger] code@[j]),
                forall|j: int|
                    0 <= j < i ==> #[trigger] tokens@[j] == classic_of(code@[j], (j + 1) as usize),
            decreases n - i,
        {
            let c = code.as_str().get_char(i);
            match c {
                '+' => tokens.push(CommandClassic::Increase),
                '-' => tokens.push(CommandClassic::Decrease),
                '<' => tokens.push(CommandClassic::Left),
                '>' => tokens.push(CommandClassic::Right),
                ',' => tokens.push(CommandClassic::Input),
                '.' => tokens.push(CommandClassic::Output),
                '[' => tokens.push(CommandClassic::OpenLoop(i + 1)),
                ']' => tokens.push(CommandClassic::ClosedLoop(i + 1)),
                _ => {
                    return Err(InterpreterError::InstruccionUnknown(c, i + 1));
                },
            }
            i = i + 1;
        }
        Ok(tokens)
    }
}

/// The dense instruction a primitive token becomes.
pub open spec fn command_of_classic(t: CommandClassic) -> Command {
    match t {
        CommandClassic::Increase => Command::Add(1),
        CommandClassic::Decrease => Command::Add(255),
        CommandClassic::Left => Command::Move(65535),
        CommandClassic::Right => Command::Move(1),
        CommandClassic::Input => Command::Buffer(BufferOptions::Input),
        CommandClassic::Output => Command::Buffer(BufferOptions::Output),
        CommandClassic::OpenLoop(i) => Command::Loop(LoopOptions::PointerStart(None), i),
        CommandClassic::ClosedLoop(i) => Command::Loop(LoopOptions::PointerEnd(None), i),
    }
}

/// Every character of the source is one of the eight instructions.
pub open spec fn lex_ok(code: Seq<char>) -> bool {
    forall|i: int| 0 <= i < code.len() ==> is_valid_char(#[trigger] code[i])
}

/// The primitive instruction stream of a fully valid source.
pub open spec fn primitive_commands(code: Seq<char>) -> Seq<Command> {
    Seq::new(code.len(), |i: int| command_of_classic(classic_of(code[i], (i + 1) as usize)))
}

/// The stream after both optimizer passes, before linking.
pub open spec fn optimized_commands(code: Seq<char>) -> Seq<Command> {
    loop_reduce_spec(fold_spec(primitive_commands(code), 0), 0)
}

impl Command {
    /// Compile the source end to end: lex it, run-fold it, recognize loop
    /// idioms, and link the remaining loops.
    pub fn code_to_tokens(code: String) -> (r: Result<Commands, InterpreterError>)
        ensures
            match r {
                Ok(ts) => lex_ok(code@) && linked_ok(optimized_commands(code@), ts@),
                Err(e) => {
                    ||| exists|i: int|
                        {
                            &&& 0 <= i < code@.len()
                            &&& !is_valid_char(#[trigger] code@[i])
                            &&& forall|j: int| 0 <= j < i ==> is_valid_char(#[trigger] code@[j])
                            &&& e == InterpreterError::InstruccionUnknown(
                                code@[i],
                                (i + 1) as usize,
                            )
                        }
                    ||| (lex_ok(code@) && link_error(optimized_commands(code@), e))
                },
            },
    {
        let ghost source = code@;
        let classic = match CommandClassic::code_to_tokens(code) {
            Ok(t) => t,
            Err(e) => {
                return Err(e);
            },
        };
        let mut tokens: Commands = Vec::new();
        let mut i: usize = 0;
        while i < classic.len()
            invariant
                i <= classic@.len(),
                tokens@.len() == i,
                forall|j: int|
                    0 <= j < i ==> #[trigger] tokens@[j] == command_of_classic(classic@[j]),
            decreases classic@.len() - i,
        {
            let cmd = match classic[i] {
                CommandClassic::Increase => Command::Add(1),
                CommandClassic::Decrease => Command::Add(255),
                CommandClassic::Left => Command::Move(65535),
                CommandClassic::Right => Command::Move(1),
                CommandClassic::Input => Command::Buffer(BufferOptions::Input),
                CommandClassic::Output => Command::Buffer(BufferOptions::Output),
                CommandClassic::OpenLoop(p) => Command::Loop(LoopOptions::PointerStart(None), p),
                CommandClassic::ClosedLoop(p) => Command::Loop(LoopOptions::PointerEnd(None), p),
            };
            tokens.push(cmd);
            i = i + 1;
        }
        proof {
            assert(tokens@ =~= primitive_commands(source));
        }
        let tokens = Self::add_move_reduce_tokens(&tokens);
        let tokens = Self::loop_reduce_tokens(&tokens);
        Self::loop_conection(&tokens)
    }

    /// Fold the run of `Add` tokens starting at `start` into its wrapping
    /// sum, and report where the run ends.
    pub fn add_token(commands: &Commands, start: usize) -> (r: (u8, usize))
        requires
            start <= commands@.len(),
        ensures
            r.1 == start + add_run_len(commands@, start as int),
            r.0 == wrap8(add_run_sum(commands@, start as int)),
    {
        let ghost s = commands@;
        let mut counter: u8 = 0;
        let mut end: usize = start;
        let ghost mut seg: int = 0;
        loop
            invariant
                start <= end <= s.len(),
                s == commands@,
                0 <= seg,
                counter == wrap8(seg),
                add_run_sum(s, start as int) == seg + add_run_sum(s, end as int),
                add_run_len(s, start as int) == (end - start) + add_run_len(s, end as int),
            ensures
                start <= end <= s.len(),
                counter == wrap8(add_run_sum(s, start as int)),
                end == start + add_run_len(s, start as int),
            decreases s.len() - end,
        {
            if end >= commands.len() {
                break;
            }
            match &commands[end] {
                Command::Add(v) => {
                    proof {
                        lemma_wrap_add(seg, *v as int, 256);
                    }
                    counter = counter.wrapping_add(*v);
                    proof {
                        seg = seg + *v;
                    }
                    end = end + 1;
                },
                _ => {
                    break;
                },
            }
        }
        (counter, end)
    }

    /// Fold the run of `Move` tokens starting at `start` into its wrapping
    /// sum, and report where the run ends.
    pub fn move_token(commands: &Commands, start: usize) -> (r: (u16, usize))
        requires
            start <= commands@.len(),
        ensures
            r.1 == start + move_run_len(commands@, start as int),
            r.0 == wrap16(move_run_sum(commands@, start as int)),
    {
        let ghost s = commands@;
        let mut counter: u16 = 0;
        let mut end: usize = start;
        let ghost mut seg: int = 0;
        loop
            invariant
                start <= end <= s.len(),
                s == commands@,
                0 <= seg,
                counter == wrap16(seg),
                move_run_sum(s, start as int) == seg + move_run_sum(s, end as int),
                move_run_len(s, start as int) == (end - start) + move_run_len(s, end as int),
            ensures
                start <= end <= s.len(),
                counter == wrap16(move_run_sum(s, start as int)),
                end == start + move_run_len(s, start as int),
            decreases s.len() - end,
        {
            if end >= commands.len() {
                break;
            }
            match &commands[end] {
                Command::Move(v) => {
                    proof {
                        lemma_wrap_add(seg, *v as int, 65536);
                    }
                    counter = counter.wrapping_add(*v);
                    proof {
                        seg = seg + *v;
                    }
                    end = end + 1;
                },
                _ => {
                    break;
                },
            }
        }
        (counter, end)
    }

    /// Recognize the idiom (if any) of the loop opened at `start`, whose
    /// source position is `index_file`.
    pub fn loop_token(commands: &Commands, start: usize, index_file: usize) -> (r: (Command, usize))
        requires
            start < commands@.len(),
        ensures
            (r.0, r.1 as int) == loop_token_spec(commands@, start as int, index_file),
    {
        let remaining = commands.len() - start;
        if remaining >= 2 && matches!(&commands[start + 1], Command::Loop(LoopOptions::PointerEnd(_), _)) {
            return (Command::Loop(LoopOptions::AddToReset(0), index_file), start + 2);
        }
        if remaining >= 3 && matches!(&commands[start + 2], Command::Loop(LoopOptions::PointerEnd(_), _)) {
            match &commands[start + 1] {
                Command::Add(v) => {
                    if *v == 1 || *v == 255 {
                        return (Command::Loop(LoopOptions::ClearCell, index_file), start + 3);
                    } else {
                        return (Command::Loop(LoopOptions::AddToReset(*v), index_file), start + 3);
                    }
                },
                Command::Move(1u16) => {
                    return (Command::Loop(LoopOptions::ToRight, index_file), start + 3);
                },
                Command::Move(65535u16) => {
                    return (Command::Loop(LoopOptions::ToLeft, index_file), start + 3);
                },
                _ => {},
            }
        }
        if remaining >= 6 && matches!(&commands[start + 5], Command::Loop(LoopOptions::PointerEnd(_), _)) {
            if let (
                Command::Add(n),
                Command::Move(k),
                Command::Add(v),
                Command::Move(m),
            ) = (&commands[start + 1], &commands[start + 2], &commands[start + 3], &commands[start
                + 4]) {
                proof {
                    vstd::arithmetic::div_mod::lemma_small_mod(*k as nat, 65536);
                    lemma_wrap_add(*k as int, *m as int, 65536);
                }
                if k.wrapping_add(*m) == 0 {
                    return (
                        Command::Loop(LoopOptions::CutAdd(*k, *n, *v), index_file),
                        start + 6,
                    );
                }
            }
            if let (
                Command::Move(k),
                Command::Add(v),
                Command::Move(m),
                Command::Add(n),
            ) = (&commands[start + 1], &commands[start + 2], &commands[start + 3], &commands[start
                + 4]) {
                proof {
                    vstd::arithmetic::div_mod::lemma_small_mod(*k as nat, 65536);
                    lemma_wrap_add(*k as int, *m as int, 65536);
                }
                if k.wrapping_add(*m) == 0 {
                    return (
                        Command::Loop(LoopOptions::CutAdd(*k, *n, *v), index_file),
                        start + 6,
                    );
                }
            }
        }
        (Command::Loop(LoopOptions::PointerStart(None), index_file), start + 1)
    }

    /// Rewrite every recognizable loop into its idiom instruction: the second
    /// optimizer pass.
    pub fn loop_reduce_tokens(commands: &Commands) -> (r: Commands)
        ensures
            r@ == loop_reduce_spec(commands@, 0),
    {
        let ghost s = commands@;
        let mut tokens: Commands = Vec::new();
        let mut index: usize = 0;
        while index < commands.len()
            invariant
                index <= s.len(),
                s == commands@,
                loop_reduce_spec(s, 0) == tokens@ + loop_reduce_spec(s, index as int),
            decreases s.len() - index,
        {
            let ghost before = tokens@;
            match &commands[index] {
                Command::Loop(LoopOptions::PointerStart(_), i) => {
                    let (value, new_index) = Self::loop_token(commands, index, *i);
                    tokens.push(value);
                    proof {
                        assert(tokens@ =~= before + seq![value]);
                        assert(before + loop_reduce_spec(s, index as int) =~= tokens@
                            + loop_reduce_spec(s, new_index as int));
                    }
                    index = new_index;
                },
                Command::Loop(LoopOptions::PointerEnd(_), i) => {
                    let value = Command::Loop(LoopOptions::PointerEnd(None), *i);
                    tokens.push(value);
                    proof {
                        assert(tokens@ =~= before + seq![value]);
                        assert(before + loop_reduce_spec(s, index as int) =~= tokens@
                            + loop_reduce_spec(s, index + 1));
                    }
                    index = index + 1;
                },
                command => {
                    tokens.push(command.clone());
                    proof {
                        assert(tokens@ =~= before + seq![s[index as int]]);
                        assert(before + loop_reduce_spec(s, index as int) =~= tokens@
                            + loop_reduce_spec(s, index + 1));
                    }
                    index = index + 1;
                },
            }
        }
        proof {
            assert(loop_reduce_spec(s, 0) =~= tokens@);
        }
        tokens
    }

    /// Count how many tokens of `commands` count as occurrences of `token`,
    /// opens and closes matching their kind regardless of target or position.
    pub fn token_counter(commands: &[Command], token: Command) -> (r: usize)
        ensures
            r == count_matching(commands@, token, 0),
    {
        let ghost s = commands@;
        let mut counter: usize = 0;
        let mut i: usize = 0;
        while i < commands.len()
            invariant
                i <= s.len(),
                s == commands@,
                counter <= i,
                counter + count_matching(s, token, i as int) == count_matching(s, token, 0),
            decreases s.len() - i,
        {
            let c = &commands[i];
            let matched = match (c, &token) {
                (
                    Command::Loop(LoopOptions::PointerStart(_), _),
                    Command::Loop(LoopOptions::PointerStart(_), _),
                ) => true,
                (
                    Command::Loop(LoopOptions::PointerEnd(_), _),
                    Command::Loop(LoopOptions::PointerEnd(_), _),
                ) => true,
                _ => *c == token,
            };
            if matched {
                counter = counter + 1;
            }
            i = i + 1;
        }
        counter
    }

    /// Match every loop-open with its loop-close by a single stack scan and
    /// rewrite each pair to point at the other; the first unmatched close,
    /// or else the first unmatched open, aborts the compile.
    pub fn loop_conection(commands: &Commands) -> (r: Result<Commands, InterpreterError>)
        ensures
            match r {
                Ok(out) => linked_ok(commands@, out@),
                Err(e) => {
                    &&& link_error(commands@, e)
                    &&& (e matches InterpreterError::MalformedClosedLoop(pos)
                        ==> first_unmatched_close(commands@, pos))
                    &&& (e matches InterpreterError::MalformedOpenLoop(pos)
                        ==> first_unmatched_open(commands@, pos))
                },
            },
    {
        let ghost s = commands@;
        let mut open_loop: Vec<(usize, usize)> = Vec::new();
        let mut loops: Vec<((usize, usize), (usize, usize))> = Vec::new();
        let mut index: usize = 0;
        proof {
            assert(stack_indices(open_loop@) =~= Seq::<int>::empty());
        }
        while index < commands.len()
            invariant
                index <= s.len(),
                s == commands@,
                open_loop@.len() == depth(s, index as int),
                forall|k: int| 0 <= k <= index ==> depth(s, k) >= 0,
                forall|t: int|
                    0 <= t < open_loop@.len() ==> #[trigger] stack_elem_ok(
                        s,
                        index as int,
                        open_loop@,
                        t,
                    ),
                link_scan(s, 0, Seq::empty()) == link_scan(
                    s,
                    index as int,
                    stack_indices(open_loop@),
                ),
                forall|t: int| 0 <= t < loops@.len() ==> #[trigger] pair_elem_ok(s, loops@[t]),
                forall|i: int|
                    0 <= i < index && spec_is_open(#[trigger] s[i]) ==> (exists|t: int|
                        0 <= t < open_loop@.len() && (#[trigger] open_loop@[t]).0 == i) || (
                    exists|t: int|
                        0 <= t < loops@.len() && (#[trigger] loops@[t]).0.0 == i),
                forall|j: int|
                    0 <= j < index && spec_is_close(#[trigger] s[j]) ==> exists|t: int|
                        0 <= t < loops@.len() && (#[trigger] loops@[t]).1.0 == j,
            decreases s.len() - index,
        {
            let ghost old_stack = open_loop@;
            let ghost old_pairs = loops@;
            match &commands[index] {
                Command::Loop(LoopOptions::PointerStart(_), i) => {
                    open_loop.push((index, *i));
                    proof {
                        assert(stack_indices(open_loop@) =~= stack_indices(old_stack).push(
                            index as int,
                        ));
                        assert forall|t: int| 0 <= t < open_loop@.len() implies #[trigger]
                        stack_elem_ok(s, index + 1, open_loop@, t) by {
                            if t < old_stack.len() {
                                assert(stack_elem_ok(s, index as int, old_stack, t));
                            }
                        }
                        assert forall|i2: int|
                            0 <= i2 < index + 1 && spec_is_open(#[trigger] s[i2]) implies (
                        exists|t: int|
                            0 <= t < open_loop@.len() && (#[trigger] open_loop@[t]).0 == i2) || (
                        exists|t: int|
                            0 <= t < loops@.len() && (#[trigger] loops@[t]).0.0 == i2) by {
                            if i2 == index {
                                assert(open_loop@[old_stack.len() as int].0 == i2);
                            } else if exists|t: int|
                                0 <= t < old_stack.len() && (#[trigger] old_stack[t]).0 == i2 {
                                let t = choose|t: int|
                                    0 <= t < old_stack.len() && (#[trigger] old_stack[t]).0 == i2;
                                assert(open_loop@[t].0 == i2);
                            }
                        }
                    }
                    index = index + 1;
                },
                Command::Loop(LoopOptions::PointerEnd(_), i) => {
                    match open_loop.pop() {
                        Some(open_index) => {
                            loops.push((open_index, (index, *i)));
                            proof {
                                assert(stack_elem_ok(
                                    s,
                                    index as int,
                                    old_stack,
                                    old_stack.len() - 1,
                                ));
                                assert(pair_matched(s, open_index.0 as int, index as int));
                                assert(pair_elem_ok(s, (open_index, (index, *i))));
                                assert(stack_indices(open_loop@) =~= stack_indices(
                                    old_stack,
                                ).drop_last());
                                assert forall|t: int| 0 <= t < open_loop@.len() implies #[trigger]
                                stack_elem_ok(s, index + 1, open_loop@, t) by {
                                    assert(stack_elem_ok(s, index as int, old_stack, t));
                                    assert(open_loop@[t] == old_stack[t]);
                                }
                                assert forall|i2: int|
                                    0 <= i2 < index + 1 && spec_is_open(#[trigger] s[i2]) implies (
                                exists|t: int|
                                    0 <= t < open_loop@.len() && (#[trigger] open_loop@[t]).0
                                        == i2) || (exists|t: int|
                                    0 <= t < loops@.len() && (#[trigger] loops@[t]).0.0 == i2) by {
                                    if exists|t: int|
                                        0 <= t < old_stack.len() && (#[trigger] old_stack[t]).0
                                            == i2 {
                                        let t = choose|t: int|
                                            0 <= t < old_stack.len() && (#[trigger] old_stack[t]).0
                                                == i2;
                                        if t < old_stack.len() - 1 {
                                            assert(open_loop@[t].0 == i2);
                                        } else {
                                            assert(loops@[old_pairs.len() as int].0.0 == i2);
                                        }
                                    } else if exists|t: int|
                                        0 <= t < old_pairs.len() && (#[trigger] old_pairs[t]).0.0
                                            == i2 {
                                        let t = choose|t: int|
                                            0 <= t < old_pairs.len() && (#[trigger] old_pairs[t]).0.0
                                                == i2;
                                        assert(loops@[t].0.0 == i2);
                                    }
                                }
                                assert forall|j2: int|
                                    0 <= j2 < index + 1 && spec_is_close(#[trigger] s[j2]) implies
                                exists|t: int|
                                    0 <= t < loops@.len() && (#[trigger] loops@[t]).1.0 == j2 by {
                                    if j2 == index {
                                        assert(loops@[old_pairs.len() as int].1.0 == j2);
                                    } else {
                                        let t = choose|t: int|
                                            0 <= t < old_pairs.len() && (#[trigger] old_pairs[t]).1.0
                                                == j2;
                                        assert(loops@[t].1.0 == j2);
                                    }
                                }
                            }
                            index = index + 1;
                        },
                        None => {
                            proof {
                                assert(spec_is_close(s[index as int]));
                                assert(depth(s, index as int) == 0);
                                assert forall|k: int|
                                    0 <= k < index && spec_is_close(#[trigger] s[k]) implies depth(
                                    s,
                                    k,
                                ) > 0 by {
                                    let u = choose|u: int|
                                        0 <= u < loops@.len() && (#[trigger] loops@[u]).1.0 == k;
                                    assert(pair_elem_ok(s, loops@[u]));
                                    assert(depth(s, loops@[u].0.0 as int) >= 0);
                                }
                                assert(first_unmatched_close(s, *i));
                            }
                            return Err(InterpreterError::MalformedClosedLoop(*i));
                        },
                    }
                },
                _ => {
                    proof {
                        assert forall|t: int| 0 <= t < open_loop@.len() implies #[trigger]
                        stack_elem_ok(s, index + 1, open_loop@, t) by {
                            assert(stack_elem_ok(s, index as int, old_stack, t));
                        }
                    }
                    index = index + 1;
                },
            }
        }
        if open_loop.len() > 0 {
            let first = open_loop[0];
            proof {
                assert(stack_elem_ok(s, s.len() as int, open_loop@, 0));
                assert(stack_indices(open_loop@)[0] == open_loop@[0].0 as int);
                let oi = open_loop@[0].0 as int;
                assert forall|k: int|
                    0 <= k < oi && spec_is_open(#[trigger] s[k]) implies exists|m: int|
                    pair_matched(s, k, m) by {
                    if exists|t: int|
                        0 <= t < open_loop@.len() && (#[trigger] open_loop@[t]).0 == k {
                        let t = choose|t: int|
                            0 <= t < open_loop@.len() && (#[trigger] open_loop@[t]).0 == k;
                        assert(stack_elem_ok(s, s.len() as int, open_loop@, t));
                        assert(t >= 1);
                        assert(depth(s, oi) > t);
                        assert(false);
                    } else {
                        let u = choose|u: int|
                            0 <= u < loops@.len() && (#[trigger] loops@[u]).0.0 == k;
                        assert(pair_elem_ok(s, loops@[u]));
                        assert(pair_matched(s, k, loops@[u].1.0 as int));
                    }
                }
                assert(first_unmatched_open(s, first.1));
            }
            return Err(InterpreterError::MalformedOpenLoop(first.1));
        }
        proof {
            assert(stack_indices(open_loop@) =~= Seq::<int>::empty());
        }
        let mut out: Commands = Vec::new();
        let mut i: usize = 0;
        while i < commands.len()
            invariant
                i <= s.len(),
                s == commands@,
                out@.len() == i,
                forall|j: int| 0 <= j < i ==> out@[j] == s[j],
            decreases s.len() - i,
        {
            out.push(commands[i]);
            i = i + 1;
        }
        let ghost loops_orig = loops@;
        loop
            invariant
                s == commands@,
                out@.len() == s.len(),
                loops@.len() <= loops_orig.len(),
                loops@ =~= loops_orig.subrange(0, loops@.len() as int),
                forall|t: int| 0 <= t < loops_orig.len() ==> #[trigger] pair_elem_ok(s, loops_orig[t]),
                forall|t: int|
                    loops@.len() <= t < loops_orig.len() ==> out@[(#[trigger] loops_orig[t]).0.0 as int]
                        == Command::Loop(
                        LoopOptions::PointerStart(Some(loops_orig[t].1.0)),
                        loops_orig[t].0.1,
                    ) && out@[loops_orig[t].1.0 as int] == Command::Loop(
                        LoopOptions::PointerEnd(Some(loops_orig[t].0.0)),
                        loops_orig[t].1.1,
                    ),
                forall|i2: int|
                    0 <= i2 < s.len() && !rewrite_slot(loops_orig, loops@.len() as int, i2)
                        ==> out@[i2] == s[i2],
            ensures
                loops@.len() == 0,
            decreases loops@.len(),
        {
            let ghost cur = loops@;
            match loops.pop() {
                Some(pair) => {
                    let (po, pc) = pair;
                    proof {
                        assert(pair == cur[cur.len() - 1]);
                        assert(cur[cur.len() - 1] == loops_orig.subrange(0, cur.len() as int)[cur.len()
                            - 1]);
                        assert(pair == loops_orig[cur.len() - 1]);
                        assert(pair_elem_ok(s, loops_orig[cur.len() - 1]));
                    }
                    out[po.0] = Command::Loop(LoopOptions::PointerStart(Some(pc.0)), po.1);
                    out[pc.0] = Command::Loop(LoopOptions::PointerEnd(Some(po.0)), pc.1);
                    proof {
                        let w = cur.len() - 1;
                        assert forall|t: int|
                            loops@.len() <= t < loops_orig.len() implies out@[(#[trigger]
                        loops_orig[t]).0.0 as int] == Command::Loop(
                            LoopOptions::PointerStart(Some(loops_orig[t].1.0)),
                            loops_orig[t].0.1,
                        ) && out@[loops_orig[t].1.0 as int] == Command::Loop(
                            LoopOptions::PointerEnd(Some(loops_orig[t].0.0)),
                            loops_orig[t].1.1,
                        ) by {
                            let q = loops_orig[t];
                            assert(pair_elem_ok(s, q));
                            assert(pair_elem_ok(s, loops_orig[w]));
                            if t != w {
                                if q.0.0 == po.0 {
                                    lemma_pair_close_unique(
                                        s,
                                        q.0.0 as int,
                                        q.1.0 as int,
                                        pc.0 as int,
                                    );
                                }
                                if q.1.0 == pc.0 {
                                    lemma_pair_open_unique(
                                        s,
                                        q.0.0 as int,
                                        po.0 as int,
                                        q.1.0 as int,
                                    );
                                }
                            }
                        }
                    }
                },
                None => {
                    break;
                },
            }
        }
        proof {
            assert forall|i2: int, j2: int| #[trigger]
                pair_matched(s, i2, j2) implies out@[i2] == Command::Loop(
                LoopOptions::PointerStart(Some(j2 as usize)),
                s[i2]->Loop_1,
            ) && out@[j2] == Command::Loop(
                LoopOptions::PointerEnd(Some(i2 as usize)),
                s[j2]->Loop_1,
            ) by {
                let t = choose|t: int|
                    0 <= t < loops_orig.len() && (#[trigger] loops_orig[t]).0.0 == i2;
                assert(pair_elem_ok(s, loops_orig[t]));
                lemma_pair_close_unique(s, i2, j2, loops_orig[t].1.0 as int);
            }
            assert forall|i2: int|
                0 <= i2 < s.len() && !spec_is_open(#[trigger] s[i2]) && !spec_is_close(s[i2])
                    implies out@[i2] == s[i2] by {
                if rewrite_slot(loops_orig, 0, i2) {
                    let t = choose|t: int|
                        0 <= t < loops_orig.len() && ((#[trigger] loops_orig[t]).0.0 == i2
                            || loops_orig[t].1.0 == i2);
                    assert(pair_elem_ok(s, loops_orig[t]));
                }
            }
        }
        Ok(out)
    }

    /// Run-fold the whole stream: the first optimizer pass.
    pub fn add_move_reduce_tokens(commands: &Commands) -> (r: Commands)
        ensures
            r@ == fold_spec(commands@, 0),
    {
        let ghost s = commands@;
        let mut tokens: Commands = Vec::new();
        let mut index: usize = 0;
        while index < commands.len()
            invariant
                index <= s.len(),
                s == commands@,
                fold_spec(s, 0) == tokens@ + fold_spec(s, index as int),
            decreases s.len() - index,
        {
            let ghost before = tokens@;
            match &commands[index] {
                Command::Add(_) => {
                    let (value, new_index) = Self::add_token(commands, index);
                    tokens.push(Command::Add(value));
                    proof {
                        assert(tokens@ =~= before + seq![Command::Add(value)]);
                        lemma_add_run_len_bound(s, index as int);
                        assert(before + fold_spec(s, index as int) =~= tokens@ + fold_spec(
                            s,
                            new_index as int,
                        ));
                    }
                    index = new_index;
                },
                Command::Move(_) => {
                    let (value, new_index) = Self::move_token(commands, index);
                    tokens.push(Command::Move(value));
                    proof {
                        assert(tokens@ =~= before + seq![Command::Move(value)]);
                        lemma_move_run_len_bound(s, index as int);
                        assert(before + fold_spec(s, index as int) =~= tokens@ + fold_spec(
                            s,
                            new_index as int,
                        ));
                    }
                    index = new_index;
                },
                command => {
                    tokens.push(command.clone());
                    proof {
                        assert(tokens@ =~= before + seq![s[index as int]]);
                        assert(before + fold_spec(s, index as int) =~= tokens@ + fold_spec(
                            s,
                            index + 1,
                        ));
                    }
                    index = index + 1;
                },
            }
        }
        proof {
            assert(fold_spec(s, 0) =~= tokens@);
        }
        tokens
    }
}

} // verus!
