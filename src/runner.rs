//! The execution engine: runs a command sequence against a global and a local
//! bank, one command per step. Reading input and writing output are left to
//! the caller: a step hands back what was written, and asks for a line of
//! input when a read finds none buffered.
use std::collections::HashMap;
use vstd::prelude::*;
use vstd::string::*;
use crate::bank::{Bank, BankState};
use crate::brackets::{BracketsMatcher, holds_pairs, texts};
use crate::grammar::{Count, Grammar, Op, decode_spec, opposite, opposite_of};
use crate::ieee;
use crate::ieee::{
    ONE_BITS, TWO_POW_MINUS_53_BITS, ZERO_BITS, compare_spec, ieee_difference, ieee_floor, ieee_ceil,
    ieee_floor_to_int, ieee_from_int, ieee_parse, ieee_product, ieee_quotient, ieee_sum, is_nan_bits,
    is_negative_bits, is_zero_bits, has_digit,
};
use crate::utils::{Utils, lemma_numeric_prefix_bounds, lemma_numeric_prefix_is_decimal, numeric_prefix_len};

verus! {

/// What a run reports besides its state.
#[derive(Clone, Copy, Debug, PartialEq, Eq, Structural)]
pub enum Event {
    /// A number written to the output (the bit pattern of a double).
    Number(u64),
    /// A character written to the output, as its code point (always a valid
    /// Unicode scalar value).
    Char(u32),
    /// The pointer moved left of the first cell, and the tape grew at its front.
    LeftEdge,
}

/// Why a run stopped before its end.
#[derive(Clone, Debug)]
pub enum RuntimeError {
    /// Division by zero with no fallback value for the dividend's sign.
    DivisionByZero { dividend: u64 },
    /// The input held no number where one was read.
    InputParse { raw: String },
    /// The cell's value is no character.
    InvalidCharacter { value: u64 },
    /// A loop delimiter without its partner.
    UnbalancedDelimiter { index: usize },
}

/// A run-time failure as a mathematical value.
pub enum Failure {
    DivisionByZero(u64),
    InputParse(Seq<char>),
    InvalidCharacter(u64),
    UnbalancedDelimiter(usize),
}

impl View for RuntimeError {
    type V = Failure;

    open spec fn view(&self) -> Failure {
        match self {
            RuntimeError::DivisionByZero { dividend } => Failure::DivisionByZero(*dividend),
            RuntimeError::InputParse { raw } => Failure::InputParse(raw@),
            RuntimeError::InvalidCharacter { value } => Failure::InvalidCharacter(*value),
            RuntimeError::UnbalancedDelimiter { index } => Failure::UnbalancedDelimiter(*index),
        }
    }
}

/// Why an operation stopped short.
pub enum Stop {
    /// A read found no input buffered.
    NeedInput,
    /// The run fails.
    Failed(Failure),
}

/// Configuration of a run.
#[derive(Clone, Copy, Debug)]
pub struct Settings {
    /// The values a division by zero gives, for a negative (or NaN), a zero
    /// and a positive dividend; `None` makes such a division fail.
    pub sebek: [Option<u64>; 3],
    /// Whether moving left of the first cell is reported (once per run).
    pub warn_left_edge: bool,
    /// Whether the second tape of each bank starts at `1.0` rather than `0.0`.
    pub brainfuck: bool,
}

/// The state of a run as a mathematical value.
pub struct MachineState {
    pub global: BankState,
    pub local: BankState,
    /// The index of the command to run next.
    pub pc: int,
    /// Whether commands address the local bank (in grammars that toggle it).
    pub on_local: bool,
    /// Openings of the loops that are running, innermost last.
    pub loops: Seq<usize>,
    /// What is left of the last line read.
    pub input: Option<Seq<char>>,
    /// Whether the left-edge advisory was given.
    pub warned: bool,
    /// A repeated operation that stopped to wait for input: the operation,
    /// whether it addresses the local bank, and how many runs are left.
    pub pending: Option<(Op, bool, u128)>,
}

/// What stays fixed during a run.
pub struct Context {
    pub jumps: Map<usize, usize>,
    pub sebek: Seq<Option<u64>>,
    pub warn: bool,
}

/// The effect of running operations: the new state, what was written, and
/// why it stopped short, if it did.
pub struct Applied {
    pub state: MachineState,
    pub events: Seq<Event>,
    pub stop: Option<Stop>,
    /// How many runs completed.
    pub done: nat,
}

/// The bank that a command addresses.
pub open spec fn main_bank(m: MachineState, local: bool) -> BankState {
    if local {
        m.local
    } else {
        m.global
    }
}

/// The bank that a command does not address.
pub open spec fn other_bank(m: MachineState, local: bool) -> BankState {
    if local {
        m.global
    } else {
        m.local
    }
}

/// `m` with the addressed bank replaced by `b`.
pub open spec fn with_main(m: MachineState, local: bool, b: BankState) -> MachineState {
    if local {
        MachineState { local: b, ..m }
    } else {
        MachineState { global: b, ..m }
    }
}

/// `m` with the bank not addressed replaced by `b`.
pub open spec fn with_other(m: MachineState, local: bool, b: BankState) -> MachineState {
    with_main(m, !local, b)
}

/// `m` with the addressed bank's active cell set to `v`.
pub open spec fn with_main_cell(m: MachineState, local: bool, v: u64) -> MachineState {
    with_main(m, local, main_bank(m, local).with_cell(v))
}

/// Where `x` first occurs in `s`.
pub open spec fn first_index(s: Seq<usize>, x: usize) -> Option<int>
    decreases s.len(),
{
    if s.len() == 0 {
        None
    } else if first_index(s.drop_last(), x) is Some {
        first_index(s.drop_last(), x)
    } else if s.last() == x {
        Some(s.len() - 1)
    } else {
        None
    }
}

/// No position occurs twice in `s`.
pub open spec fn distinct(s: Seq<usize>) -> bool {
    forall|i: int, j: int| 0 <= i < j < s.len() ==> #[trigger] s[i] != #[trigger] s[j]
}

/// `s` without the first occurrence of `x`.
pub open spec fn remove_first(s: Seq<usize>, x: usize) -> Seq<usize> {
    match first_index(s, x) {
        Some(i) => s.remove(i),
        None => s,
    }
}

/// `s` with `x` pushed unless it is there already.
pub open spec fn push_once(s: Seq<usize>, x: usize) -> Seq<usize> {
    if first_index(s, x) is Some {
        s
    } else {
        s.push(x)
    }
}

/// Which fallback a division by zero uses: 0 for a negative (or NaN)
/// dividend, 1 for zero, 2 for a positive one.
pub open spec fn sebek_slot(d: u64) -> int {
    if is_nan_bits(d) || is_negative_bits(d) {
        0
    } else if is_zero_bits(d) {
        1
    } else {
        2
    }
}

/// A uniform double in `[0, 1)` made from the top 53 bits of a random draw.
pub open spec fn unit_value(draw: u64) -> u64 {
    ieee_product(ieee_from_int((draw >> 11u64) as u128), TWO_POW_MINUS_53_BITS)
}

/// A Unicode scalar value: from 0 to `0x10FFFF`, and no surrogate.
pub open spec fn is_scalar_value(c: i128) -> bool {
    0 <= c <= 0x10FFFF && (c < 0xD800 || c > 0xDFFF)
}

/// A run that goes on from `m`.
pub open spec fn ok(m: MachineState) -> Applied {
    Applied { state: m, events: Seq::empty(), stop: None, done: 0 }
}

/// A run that fails in state `m`.
pub open spec fn fail(m: MachineState, f: Failure) -> Applied {
    Applied { state: m, events: Seq::empty(), stop: Some(Stop::Failed(f)), done: 0 }
}

/// Leaves the innermost running loop: its opening leaves the loop stack and
/// the program counter goes to its closing delimiter.
pub open spec fn break_out(m: MachineState, ctx: Context) -> Applied {
    if m.loops.len() == 0 {
        ok(m)
    } else {
        let top = m.loops.last();
        if ctx.jumps.contains_key(top) {
            ok(MachineState { loops: m.loops.drop_last(), pc: ctx.jumps[top] as int, ..m })
        } else {
            fail(m, Failure::UnbalancedDelimiter(top))
        }
    }
}

/// Goes to the partner of the current delimiter and drops the current
/// position from the loop stack.
pub open spec fn exit_loop(m: MachineState, ctx: Context) -> Applied {
    let here = m.pc as usize;
    if ctx.jumps.contains_key(here) {
        ok(MachineState { loops: remove_first(m.loops, here), pc: ctx.jumps[here] as int, ..m })
    } else {
        fail(m, Failure::UnbalancedDelimiter(here))
    }
}

/// Reads a number from the buffered input: the longest numeric prefix is
/// consumed; where it holds a digit its value goes to the cell, and where it
/// holds none the read breaks out of the innermost loop when `or_break`
/// holds, and fails the run otherwise.
pub open spec fn read_number(m: MachineState, local: bool, or_break: bool, ctx: Context) -> Applied {
    match m.input {
        None => Applied { state: m, events: Seq::empty(), stop: Some(Stop::NeedInput), done: 0 },
        Some(inp) => {
            let k = numeric_prefix_len(inp);
            let prefix = inp.subrange(0, k);
            let rest = if k == inp.len() {
                None
            } else {
                Some(inp.subrange(k, inp.len() as int))
            };
            let m1 = MachineState { input: rest, ..m };
            if has_digit(prefix) {
                ok(with_main_cell(m1, local, ieee_parse(prefix)->0))
            } else if or_break {
                break_out(m1, ctx)
            } else {
                fail(m1, Failure::InputParse(prefix))
            }
        },
    }
}

/// Reads one character from the buffered input (`'\0'` from an empty line).
pub open spec fn read_char(m: MachineState, local: bool) -> Applied {
    match m.input {
        None => Applied { state: m, events: Seq::empty(), stop: Some(Stop::NeedInput), done: 0 },
        Some(inp) => {
            let (c, rest) = if inp.len() == 0 {
                ('\0', inp)
            } else {
                (inp[0], inp.drop_first())
            };
            let m1 = MachineState {
                input: if rest.len() == 0 {
                    None
                } else {
                    Some(rest)
                },
                ..m
            };
            ok(with_main_cell(m1, local, ieee_from_int(c as u32 as u128)))
        },
    }
}

/// Runs `op` once on the bank that `local` selects.
pub open spec fn apply(m: MachineState, op: Op, local: bool, ctx: Context, draw: u64) -> Applied {
    let main = main_bank(m, local);
    let other = other_bank(m, local);
    let cell = main.cell();
    let here = m.pc as usize;
    match op {
        Op::Increment => ok(with_main_cell(m, local, ieee_sum(cell, ONE_BITS))),
        Op::Decrement => ok(with_main_cell(m, local, ieee_difference(cell, ONE_BITS))),
        Op::Add => ok(with_main_cell(m, local, ieee_sum(cell, other.cell()))),
        Op::Subtract => ok(with_main_cell(m, local, ieee_difference(cell, other.cell()))),
        Op::Multiply => ok(with_main_cell(m, local, ieee_product(cell, other.cell()))),
        Op::Divide => if is_zero_bits(other.cell()) {
            match ctx.sebek[sebek_slot(cell)] {
                Some(v) => ok(with_main_cell(m, local, v)),
                None => fail(m, Failure::DivisionByZero(cell)),
            }
        } else {
            ok(with_main_cell(m, local, ieee_quotient(cell, other.cell())))
        },
        Op::Random => ok(with_main_cell(m, local, unit_value(draw))),
        Op::MoveRight => ok(with_main(m, local, main.moved_right())),
        Op::MoveLeft => {
            let m1 = with_main(m, local, main.moved_left());
            if main.pointer(main.active) == 0 && ctx.warn && !m.warned {
                Applied { state: MachineState { warned: true, ..m1 }, events: seq![Event::LeftEdge], stop: None, done: 0 }
            } else {
                ok(m1)
            }
        },
        Op::Floor => ok(with_main_cell(m, local, ieee_floor(cell))),
        Op::Ceil => ok(with_main_cell(m, local, ieee_ceil(cell))),
        Op::SwitchTape => ok(with_main(m, local, main.switched())),
        Op::ToggleLocal => ok(MachineState { on_local: !m.on_local, ..m }),
        Op::WhileStart => if is_zero_bits(cell) {
            exit_loop(m, ctx)
        } else {
            ok(MachineState { loops: push_once(m.loops, here), ..m })
        },
        Op::DoWhileStart => if is_zero_bits(cell) && first_index(m.loops, here) is Some {
            exit_loop(m, ctx)
        } else {
            ok(MachineState { loops: push_once(m.loops, here), ..m })
        },
        Op::LoopEnd => if is_zero_bits(cell) {
            if ctx.jumps.contains_key(here) {
                ok(MachineState { loops: remove_first(m.loops, ctx.jumps[here]), ..m })
            } else {
                ok(m)
            }
        } else if ctx.jumps.contains_key(here) {
            ok(MachineState { pc: ctx.jumps[here] as int, ..m })
        } else {
            fail(m, Failure::UnbalancedDelimiter(here))
        },
        Op::BreakEqual => if compare_spec(cell, other.cell()) == Some(core::cmp::Ordering::Equal) {
            break_out(m, ctx)
        } else {
            ok(m)
        },
        Op::BreakGreater => if compare_spec(cell, other.cell()) == Some(core::cmp::Ordering::Greater) {
            break_out(m, ctx)
        } else {
            ok(m)
        },
        Op::BreakLess => if compare_spec(cell, other.cell()) == Some(core::cmp::Ordering::Less) {
            break_out(m, ctx)
        } else {
            ok(m)
        },
        Op::ReadNumber => read_number(m, local, false, ctx),
        Op::ReadNumberOrBreak => read_number(m, local, true, ctx),
        Op::ReadChar => read_char(m, local),
        Op::WriteNumber => Applied { state: m, events: seq![Event::Number(cell)], stop: None, done: 0 },
        Op::WriteChar => {
            let code = ieee_floor_to_int(cell);
            if !is_nan_bits(cell) && is_scalar_value(code) {
                Applied { state: m, events: seq![Event::Char(code as u32)], stop: None, done: 0 }
            } else {
                fail(m, Failure::InvalidCharacter(cell))
            }
        },
        Op::Swap => with_other_swap(m, local),
        Op::QueryPointer => ok(with_main_cell(m, local, ieee_from_int(main.pointer(main.active) as u128))),
    }
}

/// Exchanges the active cells of the two banks.
pub open spec fn with_other_swap(m: MachineState, local: bool) -> Applied {
    let a = main_bank(m, local).cell();
    let b = other_bank(m, local).cell();
    let m1 = with_main_cell(m, local, b);
    ok(with_other(m1, local, other_bank(m1, local).with_cell(a)))
}

/// Runs `op` up to `n` times, stopping early where a run stops short.
pub open spec fn run_op(m: MachineState, op: Op, local: bool, n: nat, ctx: Context, draw: u64) -> Applied
    decreases n,
{
    if n == 0 {
        ok(m)
    } else {
        let r = run_op(m, op, local, (n - 1) as nat, ctx, draw);
        if r.stop is Some {
            r
        } else {
            let a = apply(r.state, op, local, ctx, draw);
            Applied {
                state: a.state,
                events: r.events + a.events,
                stop: a.stop,
                done: if a.stop is Some {
                    r.done
                } else {
                    r.done + 1
                },
            }
        }
    }
}

/// The repeat count of a decoded command against the addressed cell.
pub open spec fn resolve_count(count: Count, cell: u64) -> i128 {
    match count {
        Count::Fixed(v) => v,
        Count::FromCell => ieee_floor_to_int(cell),
    }
}

/// A negative count runs the opposite operation, or nothing where there is
/// none.
pub open spec fn effective(op: Op, c: i128) -> (Op, u128) {
    if c < 0 {
        match opposite_of(op) {
            Some(o) => (o, (-(c as int)) as u128),
            None => (op, 0),
        }
    } else {
        (op, c as u128)
    }
}

/// Runs `op` `n` times and then moves on to the next command; where a read
/// waits for input, the remaining runs are kept for the next step.
pub open spec fn finish(m: MachineState, op: Op, local: bool, n: u128, ctx: Context, draw: u64) -> Applied {
    let r = run_op(m, op, local, n as nat, ctx, draw);
    match r.stop {
        None => Applied { state: MachineState { pc: r.state.pc + 1, ..r.state }, ..r },
        Some(Stop::NeedInput) => Applied {
            state: MachineState { pending: Some((op, local, (n - r.done) as u128)), ..r.state },
            ..r
        },
        Some(Stop::Failed(_)) => r,
    }
}

/// One step: the command at the program counter (or the runs it left
/// pending), then the program counter moves past it.
pub open spec fn step_spec(m: MachineState, prefixed: bool, table: Seq<(Seq<char>, Op)>, command: Seq<char>, ctx: Context, draw: u64) -> Applied {
    match m.pending {
        Some((op, local, n)) => finish(MachineState { pending: None, ..m }, op, local, n, ctx, draw),
        None => {
            let ins = decode_spec(prefixed, table, command);
            let local = if prefixed {
                ins.local
            } else {
                m.on_local
            };
            match ins.op {
                None => ok(MachineState { pc: m.pc + 1, ..m }),
                Some(op) => {
                    let (op2, n) = effective(op, resolve_count(ins.count, main_bank(m, local).cell()));
                    finish(m, op2, local, n, ctx, draw)
                },
            }
        },
    }
}

/// Why a step stopped short, as the engine reports it.
pub enum Halt {
    NeedInput,
    Failed(RuntimeError),
}

/// The mathematical reading of a step's stop.
pub open spec fn halt_view(h: Option<Halt>) -> Option<Stop> {
    match h {
        None => None,
        Some(Halt::NeedInput) => Some(Stop::NeedInput),
        Some(Halt::Failed(e)) => Some(Stop::Failed(e@)),
    }
}

/// Where a run stands after a step.
#[derive(Debug)]
pub enum Status {
    /// More commands are to run.
    Running,
    /// A read needs a line of input: hand it over with `supply_input`.
    NeedInput,
    /// The program counter has passed the last command.
    Finished,
    /// The run failed and stops here.
    Failed(RuntimeError),
}

/// What one step wrote, and where the run stands.
#[derive(Debug)]
pub struct Outcome {
    pub events: Vec<Event>,
    pub status: Status,
}

/// The status that a stop gives.
pub open spec fn status_matches(s: Status, stop: Option<Stop>) -> bool {
    match stop {
        None => s is Running,
        Some(Stop::NeedInput) => s is NeedInput,
        Some(Stop::Failed(f)) => s matches Status::Failed(e) && e@ == f,
    }
}

proof fn lemma_first_index_prefix(s: Seq<usize>, i: int, x: usize)
    requires
        0 <= i <= s.len(),
        first_index(s.subrange(0, i), x) is Some,
    ensures
        first_index(s, x) == first_index(s.subrange(0, i), x),
    decreases s.len() - i,
{
    if i < s.len() {
        assert(s.drop_last().subrange(0, i) =~= s.subrange(0, i));
        lemma_first_index_prefix(s.drop_last(), i, x);
    } else {
        assert(s.subrange(0, i) =~= s);
    }
}

proof fn lemma_first_index_bounds(s: Seq<usize>, x: usize)
    ensures
        first_index(s, x) matches Some(i) ==> 0 <= i < s.len() && s[i] == x,
    decreases s.len(),
{
    if s.len() > 0 {
        lemma_first_index_bounds(s.drop_last(), x);
    }
}

proof fn lemma_first_index_absent(s: Seq<usize>, x: usize)
    ensures
        first_index(s, x) is None ==> forall|j: int| 0 <= j < s.len() ==> s[j] != x,
    decreases s.len(),
{
    if s.len() > 0 {
        lemma_first_index_absent(s.drop_last(), x);
        assert forall|j: int| 0 <= j < s.len() - 1 implies s.drop_last()[j] == s[j] by {}
    }
}

/// Where `x` first occurs in `s`.
fn position_of(s: &Vec<usize>, x: usize) -> (r: Option<usize>)
    ensures
        r matches Some(i) ==> first_index(s@, x) == Some(i as int),
        r is None ==> first_index(s@, x) is None,
{
    let n = s.len();
    let mut i: usize = 0;
    assert(s@.subrange(0, 0) =~= Seq::<usize>::empty());
    while i < n
        invariant
            n == s@.len(),
            i <= n,
            first_index(s@.subrange(0, i as int), x) is None,
        decreases n - i,
    {
        assert(s@.subrange(0, i + 1).drop_last() =~= s@.subrange(0, i as int));
        if s[i] == x {
            proof {
                lemma_first_index_prefix(s@, i + 1, x);
            }
            return Some(i);
        }
        i = i + 1;
    }
    assert(s@.subrange(0, n as int) =~= s@);
    None
}

proof fn lemma_run_op_stopped(m: MachineState, op: Op, local: bool, i: nat, j: nat, ctx: Context, draw: u64)
    requires
        i <= j,
        run_op(m, op, local, i, ctx, draw).stop is Some,
    ensures
        run_op(m, op, local, j, ctx, draw) == run_op(m, op, local, i, ctx, draw),
    decreases j - i,
{
    if j > i {
        lemma_run_op_stopped(m, op, local, i, (j - 1) as nat, ctx, draw);
    }
}

/// Relies on `rand::random`: 64 uniformly drawn bits.
#[verifier::external_body]
fn random_draw() -> (r: u64) {
    rand::random::<u64>()
}

/// A run of a command sequence.
pub struct Runner {
    commands: Vec<String>,
    grammar: Grammar,
    jumps: HashMap<usize, usize>,
    settings: Settings,
    program_pointer: usize,
    on_local: bool,
    loops: Vec<usize>,
    global: Bank,
    local: Bank,
    input_cache: Option<String>,
    warned: bool,
    pending: Option<(Op, bool, u128)>,
}

impl View for Runner {
    type V = MachineState;

    closed spec fn view(&self) -> MachineState {
        MachineState {
            global: self.global@,
            local: self.local@,
            pc: self.program_pointer as int,
            on_local: self.on_local,
            loops: self.loops@,
            input: match self.input_cache {
                Some(s) => Some(s@),
                None => None,
            },
            warned: self.warned,
            pending: self.pending,
        }
    }
}

impl Runner {
    /// What stays fixed during the run.
    pub closed spec fn ctx(&self) -> Context {
        Context { jumps: self.jumps@, sebek: self.settings.sebek@, warn: self.settings.warn_left_edge }
    }

    /// The command texts.
    pub closed spec fn commands_spec(&self) -> Seq<Seq<char>> {
        texts(self.commands@)
    }

    /// The grammar the commands are read in.
    pub closed spec fn grammar_spec(&self) -> (bool, Seq<(Seq<char>, Op)>) {
        (self.grammar.prefixed(), self.grammar.table_spec())
    }

    /// Well-formed banks; every jump lands on a command; the program counter
    /// is within the program.
    pub closed spec fn inv(&self) -> bool {
        &&& self.global@.wf()
        &&& self.local@.wf()
        &&& self.program_pointer <= self.commands@.len()
        &&& forall|k: usize| #[trigger] self.jumps@.contains_key(k) ==> self.jumps@[k] < self.commands@.len()
        &&& self.pending is Some ==> self.program_pointer < self.commands@.len()
        &&& self.commands_spec().len() == self.commands@.len()
        &&& distinct(self.loops@)
    }

    /// Running the command at the program counter with the random bits
    /// `draw` leads to the state `after` and gives `out`.
    pub open spec fn stepped(&self, draw: u64, after: MachineState, out: Outcome) -> bool {
        let a = step_spec(
            self@,
            self.grammar_spec().0,
            self.grammar_spec().1,
            self.commands_spec()[self@.pc],
            self.ctx(),
            draw,
        );
        &&& after == a.state
        &&& out.events@ == a.events
        &&& status_matches(out.status, a.stop)
    }

    /// The same program, grammar and configuration.
    pub open spec fn same_program(&self, other: &Runner) -> bool {
        &&& self.commands_spec() == other.commands_spec()
        &&& self.grammar_spec() == other.grammar_spec()
        &&& self.ctx() == other.ctx()
    }

    /// The state of a run that has not started: fresh banks (the second tape
    /// of each seeded with `seed`), program counter 0, nothing pending.
    pub open spec fn initial(seed: u64) -> MachineState {
        let b = BankState { tape0: seq![0u64], tape1: seq![seed], pointer0: 0, pointer1: 0, active: 0 };
        MachineState {
            global: b,
            local: b,
            pc: 0,
            on_local: false,
            loops: Seq::empty(),
            input: None,
            warned: false,
            pending: None,
        }
    }

    /// Prepares a run of `commands`: matches its loop delimiters into the jump
    /// table. Fails with `UnbalancedDelimiter` at the first opening that has
    /// no closing delimiter.
    pub fn new(commands: Vec<String>, grammar: Grammar, settings: Settings) -> (r: Result<Runner, RuntimeError>)
        ensures
            r is Err <==> exists|i: int| crate::brackets::still_open(texts(commands@), i, commands@.len() as int),
            r matches Err(e) ==> e matches RuntimeError::UnbalancedDelimiter { index }
                && crate::brackets::still_open(texts(commands@), index as int, commands@.len() as int),
            r matches Ok(run) ==> {
                &&& run.inv()
                &&& run@ == Runner::initial(if settings.brainfuck { ONE_BITS } else { ZERO_BITS })
                &&& run.commands_spec() == texts(commands@)
                &&& run.grammar_spec() == (grammar.prefixed(), grammar.table_spec())
                &&& holds_pairs(run.ctx().jumps, texts(commands@), None, commands@.len() as int)
                &&& run.ctx().sebek == settings.sebek@
                &&& run.ctx().warn == settings.warn_left_edge
            },
    {
        let mut matcher = BracketsMatcher::new();
        matcher.match_brackets(commands.as_slice());
        if let Some(i) = matcher.dangling() {
            return Err(RuntimeError::UnbalancedDelimiter { index: i });
        }
        proof {
            assert forall|i: int| !crate::brackets::still_open(texts(commands@), i, commands@.len() as int) by {
                if crate::brackets::still_open(texts(commands@), i, commands@.len() as int) {
                    let t = choose|t: int| 0 <= t < matcher.dangling_spec().len() && #[trigger] matcher.dangling_spec()[t] == i;
                }
            }
        }
        let jumps = matcher.into_jumps();
        let seed = if settings.brainfuck {
            ONE_BITS
        } else {
            ZERO_BITS
        };
        let run = Runner {
            commands,
            grammar,
            jumps,
            settings,
            program_pointer: 0,
            on_local: false,
            loops: Vec::new(),
            global: Bank::new(seed),
            local: Bank::new(seed),
            input_cache: None,
            warned: false,
            pending: None,
        };
        proof {
            assert forall|k: usize| #[trigger] run.jumps@.contains_key(k) implies run.jumps@[k] < run.commands@.len() by {
                assert(crate::brackets::paired_before(texts(run.commands@), k as int, run.jumps@[k] as int, None, run.commands@.len() as int));
            }
            assert(run@.loops =~= Seq::<usize>::empty());
            assert(run@ == Runner::initial(seed));
        }
        Ok(run)
    }

    /// A run never holds a loop opening twice on its loop stack: entering a
    /// running loop again does not push it again.
    pub proof fn lemma_loops_distinct(&self)
        requires
            self.inv(),
        ensures
            distinct(self@.loops),
    {
    }

    /// Hands the run a line of input, for the read that asked for it.
    pub fn supply_input(&mut self, line: String)
        ensures
            final(self)@ == (MachineState { input: Some(line@), ..old(self)@ }),
            old(self).inv() ==> final(self).inv(),
            final(self).same_program(old(self)),
    {
        self.input_cache = Some(line);
    }

    /// The global bank.
    pub fn global(&self) -> (r: &Bank)
        ensures
            r@ == self@.global,
    {
        &self.global
    }

    /// The local bank.
    pub fn local(&self) -> (r: &Bank)
        ensures
            r@ == self@.local,
    {
        &self.local
    }

    /// The openings of the running loops, innermost last.
    pub fn loops(&self) -> (r: &Vec<usize>)
        ensures
            r@ == self@.loops,
    {
        &self.loops
    }

    /// The index of the command to run next.
    pub fn program_pointer(&self) -> (r: usize)
        ensures
            r == self@.pc,
    {
        self.program_pointer
    }

    /// Whether commands address the local bank.
    pub fn on_local(&self) -> (r: bool)
        ensures
            r == self@.on_local,
    {
        self.on_local
    }

    /// The active cell of the bank that `local` selects.
    fn main_cell(&self, local: bool) -> (r: u64)
        requires
            self.inv(),
        ensures
            r == main_bank(self@, local).cell(),
    {
        if local {
            self.local.cell()
        } else {
            self.global.cell()
        }
    }

    /// The active cell of the bank that `local` does not select.
    fn other_cell(&self, local: bool) -> (r: u64)
        requires
            self.inv(),
        ensures
            r == other_bank(self@, local).cell(),
    {
        if local {
            self.global.cell()
        } else {
            self.local.cell()
        }
    }

    /// Sets the active cell of the bank that `local` selects.
    fn set_main_cell(&mut self, local: bool, v: u64)
        requires
            old(self).inv(),
        ensures
            final(self)@ == with_main_cell(old(self)@, local, v),
            final(self).inv(),
            final(self).same_program(old(self)),
            final(self).program_pointer == old(self).program_pointer,
            final(self).pending == old(self).pending,
    {
        if local {
            self.local.set_cell(v);
        } else {
            self.global.set_cell(v);
        }
    }

    /// Sets the active cell of the bank that `local` does not select.
    fn set_other_cell(&mut self, local: bool, v: u64)
        requires
            old(self).inv(),
        ensures
            final(self)@ == with_other(old(self)@, local, other_bank(old(self)@, local).with_cell(v)),
            final(self).inv(),
            final(self).same_program(old(self)),
            final(self).program_pointer == old(self).program_pointer,
            final(self).pending == old(self).pending,
    {
        if local {
            self.global.set_cell(v);
        } else {
            self.local.set_cell(v);
        }
    }

    /// Leaves the innermost running loop.
    fn break_out(&mut self) -> (h: Option<Halt>)
        requires
            old(self).inv(),
            old(self).program_pointer < old(self).commands_spec().len(),
        ensures
            ({
                let a = break_out(old(self)@, old(self).ctx());
                &&& final(self)@ == a.state
                &&& halt_view(h) == a.stop
                &&& a.events == Seq::<Event>::empty()
            }),
            final(self).inv(),
            final(self).program_pointer < final(self).commands_spec().len(),
            final(self).same_program(old(self)),
            final(self).pending == old(self).pending,
    {
        let n = self.loops.len();
        if n == 0 {
            return None;
        }
        let top = self.loops[n - 1];
        match self.jumps.get(&top) {
            Some(c) => {
                let c = *c;
                self.loops.pop();
                assert(self.loops@ =~= old(self).loops@.drop_last());
                self.program_pointer = c;
                None
            },
            None => Some(Halt::Failed(RuntimeError::UnbalancedDelimiter { index: top })),
        }
    }

    /// Goes to the partner of the current delimiter and drops the current
    /// position from the loop stack.
    fn exit_loop(&mut self) -> (h: Option<Halt>)
        requires
            old(self).inv(),
            old(self).program_pointer < old(self).commands_spec().len(),
        ensures
            ({
                let a = exit_loop(old(self)@, old(self).ctx());
                &&& final(self)@ == a.state
                &&& halt_view(h) == a.stop
                &&& a.events == Seq::<Event>::empty()
            }),
            final(self).inv(),
            final(self).program_pointer < final(self).commands_spec().len(),
            final(self).same_program(old(self)),
            final(self).pending == old(self).pending,
    {
        let here = self.program_pointer;
        match self.jumps.get(&here) {
            Some(j) => {
                let j = *j;
                self.remove_loop(here);
                self.program_pointer = j;
                None
            },
            None => Some(Halt::Failed(RuntimeError::UnbalancedDelimiter { index: here })),
        }
    }

    /// Drops the first occurrence of `x` from the loop stack.
    fn remove_loop(&mut self, x: usize)
        ensures
            final(self)@ == (MachineState { loops: remove_first(old(self)@.loops, x), ..old(self)@ }),
            old(self).inv() ==> final(self).inv(),
            final(self).same_program(old(self)),
            final(self).program_pointer == old(self).program_pointer,
            final(self).pending == old(self).pending,
    {
        match position_of(&self.loops, x) {
            Some(i) => {
                proof {
                    lemma_first_index_bounds(self.loops@, x);
                }
                self.loops.remove(i);
            },
            None => {},
        }
    }

    /// Reads a number from the buffered input into the addressed cell.
    fn read_number(&mut self, local: bool, or_break: bool) -> (h: Option<Halt>)
        requires
            old(self).inv(),
            old(self).program_pointer < old(self).commands_spec().len(),
        ensures
            ({
                let a = read_number(old(self)@, local, or_break, old(self).ctx());
                &&& final(self)@ == a.state
                &&& halt_view(h) == a.stop
                &&& a.events == Seq::<Event>::empty()
            }),
            final(self).inv(),
            final(self).program_pointer < final(self).commands_spec().len(),
            final(self).same_program(old(self)),
            final(self).pending == old(self).pending,
    {
        let cache: Option<String> = match &self.input_cache {
            None => None,
            Some(x) => Some(x.clone()),
        };
        match cache {
            None => Some(Halt::NeedInput),
            Some(inp) => {
                let s = inp.as_str();
                let k = Utils::numeric_part_end(s);
                let n = s.unicode_len();
                proof {
                    lemma_numeric_prefix_bounds(s@);
                }
                let prefix = s.substring_char(0, k);
                if k == n {
                    self.input_cache = None;
                } else {
                    self.input_cache = Some(String::from_str(s.substring_char(k, n)));
                }
                proof {
                    lemma_numeric_prefix_is_decimal(s@);
                    assert(prefix@ =~= s@.subrange(0, k as int));
                }
                match ieee::parse(prefix) {
                    Some(v) => {
                        self.set_main_cell(local, v);
                        None
                    },
                    None => if or_break {
                        self.break_out()
                    } else {
                        Some(Halt::Failed(RuntimeError::InputParse { raw: String::from_str(prefix) }))
                    },
                }
            },
        }
    }

    /// Reads one character from the buffered input into the addressed cell.
    fn read_char(&mut self, local: bool) -> (h: Option<Halt>)
        requires
            old(self).inv(),
            old(self).program_pointer < old(self).commands_spec().len(),
        ensures
            ({
                let a = read_char(old(self)@, local);
                &&& final(self)@ == a.state
                &&& halt_view(h) == a.stop
                &&& a.events == Seq::<Event>::empty()
            }),
            final(self).inv(),
            final(self).program_pointer < final(self).commands_spec().len(),
            final(self).same_program(old(self)),
            final(self).pending == old(self).pending,
    {
        let cache: Option<String> = match &self.input_cache {
            None => None,
            Some(x) => Some(x.clone()),
        };
        match cache {
            None => Some(Halt::NeedInput),
            Some(inp) => {
                let (c, rest) = Utils::next_char(inp.as_str());
                if rest.unicode_len() == 0 {
                    self.input_cache = None;
                } else {
                    self.input_cache = Some(String::from_str(rest));
                }
                self.set_main_cell(local, ieee::from_int(c as u32 as u128));
                None
            },
        }
    }

    /// Runs an arithmetic or cell operation `op` once.
    fn apply_cell_op(&mut self, op: Op, local: bool, draw: u64, events: &mut Vec<Event>) -> (h: Option<Halt>)
        requires
            old(self).inv(),
            old(self).program_pointer < old(self).commands_spec().len(),
            matches!(op, Op::Increment | Op::Decrement | Op::Add | Op::Subtract | Op::Multiply | Op::Divide
                | Op::Random | Op::Floor | Op::Ceil | Op::Swap | Op::QueryPointer),
        ensures
            ({
                let a = apply(old(self)@, op, local, old(self).ctx(), draw);
                &&& final(self)@ == a.state
                &&& final(events)@ == old(events)@ + a.events
                &&& halt_view(h) == a.stop
            }),
            final(self).inv(),
            final(self).program_pointer < final(self).commands_spec().len(),
            final(self).same_program(old(self)),
            final(self).pending == old(self).pending,
    {
        let ghost ev0 = events@;
        assert(ev0 + Seq::<Event>::empty() =~= ev0);
        let cell = self.main_cell(local);
        match op {
            Op::Increment => {
                self.set_main_cell(local, ieee::add(cell, ONE_BITS));
                None
            },
            Op::Decrement => {
                self.set_main_cell(local, ieee::subtract(cell, ONE_BITS));
                None
            },
            Op::Add => {
                let other = self.other_cell(local);
                self.set_main_cell(local, ieee::add(cell, other));
                None
            },
            Op::Subtract => {
                let other = self.other_cell(local);
                self.set_main_cell(local, ieee::subtract(cell, other));
                None
            },
            Op::Multiply => {
                let other = self.other_cell(local);
                self.set_main_cell(local, ieee::multiply(cell, other));
                None
            },
            Op::Divide => {
                let divisor = self.other_cell(local);
                if ieee::is_zero(divisor) {
                    let slot: usize = if ieee::is_nan(cell) || ieee::is_negative(cell) {
                        0
                    } else if ieee::is_zero(cell) {
                        1
                    } else {
                        2
                    };
                    match self.settings.sebek[slot] {
                        Some(v) => {
                            self.set_main_cell(local, v);
                            None
                        },
                        None => Some(Halt::Failed(RuntimeError::DivisionByZero { dividend: cell })),
                    }
                } else {
                    self.set_main_cell(local, ieee::divide(cell, divisor));
                    None
                }
            },
            Op::Random => {
                let scaled = ieee::from_int((draw >> 11u64) as u128);
                self.set_main_cell(local, ieee::multiply(scaled, TWO_POW_MINUS_53_BITS));
                None
            },
            Op::Floor => {
                self.set_main_cell(local, ieee::floor(cell));
                None
            },
            Op::Ceil => {
                self.set_main_cell(local, ieee::ceil(cell));
                None
            },
            Op::Swap => {
                let other = self.other_cell(local);
                self.set_main_cell(local, other);
                self.set_other_cell(local, cell);
                None
            },
            Op::QueryPointer => {
                let p = if local {
                    self.local.pointer_of(self.local.active_tape())
                } else {
                    self.global.pointer_of(self.global.active_tape())
                };
                self.set_main_cell(local, ieee::from_int(p as u128));
                None
            },
            _ => None,
        }
    }

    /// Runs a movement or control-flow operation `op` once.
    fn apply_move_op(&mut self, op: Op, local: bool, draw: u64, events: &mut Vec<Event>) -> (h: Option<Halt>)
        requires
            old(self).inv(),
            old(self).program_pointer < old(self).commands_spec().len(),
            matches!(op, Op::MoveRight | Op::MoveLeft | Op::SwitchTape | Op::ToggleLocal | Op::WhileStart
                | Op::DoWhileStart | Op::LoopEnd | Op::BreakEqual | Op::BreakGreater | Op::BreakLess),
        ensures
            ({
                let a = apply(old(self)@, op, local, old(self).ctx(), draw);
                &&& final(self)@ == a.state
                &&& final(events)@ == old(events)@ + a.events
                &&& halt_view(h) == a.stop
            }),
            final(self).inv(),
            final(self).program_pointer < final(self).commands_spec().len(),
            final(self).same_program(old(self)),
            final(self).pending == old(self).pending,
    {
        let ghost ev0 = events@;
        assert(ev0 + Seq::<Event>::empty() =~= ev0);
        let cell = self.main_cell(local);
        match op {
            Op::MoveRight => {
                if local {
                    self.local.move_right();
                } else {
                    self.global.move_right();
                }
                None
            },
            Op::MoveLeft => {
                let grew = if local {
                    self.local.move_left()
                } else {
                    self.global.move_left()
                };
                if grew && self.settings.warn_left_edge && !self.warned {
                    self.warned = true;
                    events.push(Event::LeftEdge);
                    assert(events@ =~= ev0 + seq![Event::LeftEdge]);
                }
                None
            },
            Op::SwitchTape => {
                if local {
                    self.local.switch_tape();
                } else {
                    self.global.switch_tape();
                }
                None
            },
            Op::ToggleLocal => {
                self.on_local = !self.on_local;
                None
            },
            Op::WhileStart => {
                if ieee::is_zero(cell) {
                    self.exit_loop()
                } else {
                    self.enter_loop();
                    None
                }
            },
            Op::DoWhileStart => {
                if ieee::is_zero(cell) && position_of(&self.loops, self.program_pointer).is_some() {
                    self.exit_loop()
                } else {
                    self.enter_loop();
                    None
                }
            },
            Op::LoopEnd => {
                let here = self.program_pointer;
                if ieee::is_zero(cell) {
                    match self.jumps.get(&here) {
                        Some(o) => {
                            let o = *o;
                            self.remove_loop(o);
                            None
                        },
                        None => None,
                    }
                } else {
                    match self.jumps.get(&here) {
                        Some(o) => {
                            self.program_pointer = *o;
                            None
                        },
                        None => Some(Halt::Failed(RuntimeError::UnbalancedDelimiter { index: here })),
                    }
                }
            },
            Op::BreakEqual => {
                let other = self.other_cell(local);
                match ieee::compare(cell, other) {
                    Some(core::cmp::Ordering::Equal) => self.break_out(),
                    _ => None,
                }
            },
            Op::BreakGreater => {
                let other = self.other_cell(local);
                match ieee::compare(cell, other) {
                    Some(core::cmp::Ordering::Greater) => self.break_out(),
                    _ => None,
                }
            },
            Op::BreakLess => {
                let other = self.other_cell(local);
                match ieee::compare(cell, other) {
                    Some(core::cmp::Ordering::Less) => self.break_out(),
                    _ => None,
                }
            },
            _ => None,
        }
    }

    /// Runs an input or output operation `op` once.
    fn apply_io_op(&mut self, op: Op, local: bool, draw: u64, events: &mut Vec<Event>) -> (h: Option<Halt>)
        requires
            old(self).inv(),
            old(self).program_pointer < old(self).commands_spec().len(),
            matches!(op, Op::ReadNumber | Op::ReadNumberOrBreak | Op::ReadChar | Op::WriteNumber | Op::WriteChar),
        ensures
            ({
                let a = apply(old(self)@, op, local, old(self).ctx(), draw);
                &&& final(self)@ == a.state
                &&& final(events)@ == old(events)@ + a.events
                &&& halt_view(h) == a.stop
            }),
            final(self).inv(),
            final(self).program_pointer < final(self).commands_spec().len(),
            final(self).same_program(old(self)),
            final(self).pending == old(self).pending,
    {
        let ghost ev0 = events@;
        assert(ev0 + Seq::<Event>::empty() =~= ev0);
        let cell = self.main_cell(local);
        match op {
            Op::ReadNumber => self.read_number(local, false),
            Op::ReadNumberOrBreak => self.read_number(local, true),
            Op::ReadChar => self.read_char(local),
            Op::WriteNumber => {
                events.push(Event::Number(cell));
                assert(events@ =~= ev0 + seq![Event::Number(cell)]);
                None
            },
            Op::WriteChar => {
                let v = ieee::floor_to_int(cell);
                if !ieee::is_nan(cell) && 0 <= v && v <= 0x10FFFF && (v < 0xD800 || v > 0xDFFF) {
                    let code = v as u32;
                    events.push(Event::Char(code));
                    assert(events@ =~= ev0 + seq![Event::Char(code)]);
                    None
                } else {
                    Some(Halt::Failed(RuntimeError::InvalidCharacter { value: cell }))
                }
            },
            _ => None,
        }
    }

    /// Runs `op` once on the bank that `local` selects, appending what it
    /// writes to `events`.
    fn apply_op(&mut self, op: Op, local: bool, draw: u64, events: &mut Vec<Event>) -> (h: Option<Halt>)
        requires
            old(self).inv(),
            old(self).program_pointer < old(self).commands_spec().len(),
        ensures
            ({
                let a = apply(old(self)@, op, local, old(self).ctx(), draw);
                &&& final(self)@ == a.state
                &&& final(events)@ == old(events)@ + a.events
                &&& halt_view(h) == a.stop
            }),
            final(self).inv(),
            final(self).program_pointer < final(self).commands_spec().len(),
            final(self).same_program(old(self)),
            final(self).pending == old(self).pending,
    {
        match op {
            Op::Increment | Op::Decrement | Op::Add | Op::Subtract | Op::Multiply | Op::Divide | Op::Random
            | Op::Floor | Op::Ceil | Op::Swap | Op::QueryPointer => self.apply_cell_op(op, local, draw, events),
            Op::MoveRight | Op::MoveLeft | Op::SwitchTape | Op::ToggleLocal | Op::WhileStart | Op::DoWhileStart
            | Op::LoopEnd | Op::BreakEqual | Op::BreakGreater | Op::BreakLess => self.apply_move_op(
                op,
                local,
                draw,
                events,
            ),
            Op::ReadNumber | Op::ReadNumberOrBreak | Op::ReadChar | Op::WriteNumber | Op::WriteChar => self.apply_io_op(
                op,
                local,
                draw,
                events,
            ),
        }
    }

    /// Runs `op` `n` times, then moves past the command; where a read waits
    /// for input, the remaining runs are kept pending.
    fn finish(&mut self, op: Op, local: bool, n: u128, draw: u64) -> (r: Outcome)
        requires
            old(self).inv(),
            old(self).program_pointer < old(self).commands_spec().len(),
            old(self).pending is None,
        ensures
            ({
                let a = finish(old(self)@, op, local, n, old(self).ctx(), draw);
                &&& final(self)@ == a.state
                &&& r.events@ == a.events
                &&& status_matches(r.status, a.stop)
            }),
            final(self).inv(),
            final(self).same_program(old(self)),
    {
        let ghost m0 = self@;
        let ghost ctx = self.ctx();
        let mut events: Vec<Event> = Vec::new();
        let mut i: u128 = 0;
        assert(events@ =~= Seq::<Event>::empty());
        while i < n
            invariant
                self.inv(),
                self.program_pointer < self.commands_spec().len(),
                self.same_program(old(self)),
                self.pending is None,
                ctx == old(self).ctx(),
                m0 == old(self)@,
                i <= n,
                run_op(m0, op, local, i as nat, ctx, draw) == (Applied {
                    state: self@,
                    events: events@,
                    stop: None,
                    done: i as nat,
                }),
            decreases n - i,
        {
            let h = self.apply_op(op, local, draw, &mut events);
            match h {
                None => {
                    i = i + 1;
                },
                Some(Halt::NeedInput) => {
                    proof {
                        lemma_run_op_stopped(m0, op, local, (i + 1) as nat, n as nat, ctx, draw);
                    }
                    self.pending = Some((op, local, n - i));
                    return Outcome { events, status: Status::NeedInput };
                },
                Some(Halt::Failed(e)) => {
                    proof {
                        lemma_run_op_stopped(m0, op, local, (i + 1) as nat, n as nat, ctx, draw);
                    }
                    return Outcome { events, status: Status::Failed(e) };
                },
            }
        }
        let len = self.commands.len();
        assert(self.program_pointer < len);
        self.program_pointer = self.program_pointer + 1;
        Outcome { events, status: Status::Running }
    }

    /// Runs the command at the program counter (or resumes the runs it left
    /// pending), with `draw` as the random bits for the random-fill command.
    pub fn evaluate_command(&mut self, draw: u64) -> (r: Outcome)
        requires
            old(self).inv(),
            old(self)@.pc < old(self).commands_spec().len(),
        ensures
            old(self).stepped(draw, final(self)@, r),
            final(self).inv(),
            final(self).same_program(old(self)),
    {
        let pending = self.pending.take();
        match pending {
            Some((op, local, n)) => self.finish(op, local, n, draw),
            None => {
                let ins = self.grammar.decode(self.commands[self.program_pointer].as_str());
                let local = if self.grammar.prefixed_locality() {
                    ins.local
                } else {
                    self.on_local
                };
                match ins.op {
                    None => {
                        let len = self.commands.len();
                        self.program_pointer = self.program_pointer + 1;
                        Outcome { events: Vec::new(), status: Status::Running }
                    },
                    Some(op) => {
                        let c = match ins.count {
                            Count::Fixed(v) => v,
                            Count::FromCell => ieee::floor_to_int(self.main_cell(local)),
                        };
                        let (op2, n) = if c < 0 {
                            match opposite(op) {
                                Some(o) => {
                                    let magnitude: u128 = if c == i128::MIN {
                                        0x8000_0000_0000_0000_0000_0000_0000_0000
                                    } else {
                                        (-c) as u128
                                    };
                                    (o, magnitude)
                                },
                                None => (op, 0),
                            }
                        } else {
                            (op, c as u128)
                        };
                        self.finish(op2, local, n, draw)
                    },
                }
            },
        }
    }

    /// Runs the next command, drawing fresh random bits for it; reports
    /// `Finished` once the program counter has passed the last command.
    pub fn step(&mut self) -> (r: Outcome)
        requires
            old(self).inv(),
        ensures
            final(self).inv(),
            distinct(final(self)@.loops),
            final(self).same_program(old(self)),
            old(self)@.pc >= old(self).commands_spec().len() ==> r.status is Finished && r.events@.len() == 0
                && final(self)@ == old(self)@,
            old(self)@.pc < old(self).commands_spec().len() ==> exists|draw: u64| #[trigger] old(self).stepped(
                draw,
                final(self)@,
                r,
            ),
    {
        if self.program_pointer >= self.commands.len() {
            return Outcome { events: Vec::new(), status: Status::Finished };
        }
        let draw = random_draw();
        self.evaluate_command(draw)
    }

    /// Whether the program counter has passed the last command.
    pub fn is_finished(&self) -> (r: bool)
        ensures
            r == (self@.pc >= self.commands_spec().len()),
    {
        self.program_pointer >= self.commands.len()
    }

    /// Pushes the current position on the loop stack unless it is there.
    fn enter_loop(&mut self)
        ensures
            final(self)@ == (MachineState {
                loops: push_once(old(self)@.loops, old(self).program_pointer),
                ..old(self)@
            }),
            old(self).inv() ==> final(self).inv(),
            final(self).same_program(old(self)),
            final(self).program_pointer == old(self).program_pointer,
            final(self).pending == old(self).pending,
    {
        let here = self.program_pointer;
        if position_of(&self.loops, here).is_none() {
            proof {
                lemma_first_index_absent(self.loops@, here);
            }
            self.loops.push(here);
        }
    }
}

} // verus!
