//! Properties that relate the stages to one another, stated over the models
//! that the stages' contracts use.
use vstd::prelude::*;
use crate::brackets::{
    LoopKind, balance, closes, delimiter_of, holds_pairs, lemma_balance_split, lemma_partner_unique, opening_kind,
    paired_before, still_open, weight,
};
use crate::scanner::{ScanState, Scanned, drain, lemma_scan_next_progress, scan_next, scan_wf};
use crate::validator::verdict;
use crate::grammar::{Count, Op, decode_spec};
use crate::ieee::is_zero_bits;
use crate::runner::{
    Applied, Context, Event, Failure, MachineState, Stop, apply, distinct, finish, first_index, main_bank,
    other_bank, remove_first, run_op, sebek_slot, step_spec, with_main_cell,
};

verus! {

/// In every category, no prefix closes more loops than it opens, and the
/// whole program closes all it opens.
pub open spec fn balanced(cmds: Seq<Seq<char>>) -> bool {
    forall|k: LoopKind|
        #![trigger balance(cmds, k, 0, cmds.len() as int)]
        balance(cmds, k, 0, cmds.len() as int) == 0 && forall|j: int|
            0 <= j <= cmds.len() ==> #[trigger] balance(cmds, k, 0, j) >= 0
}

proof fn lemma_find_close(cmds: Seq<Seq<char>>, i: int, m: int)
    requires
        opening_kind(cmds, i) is Some,
        i <= m < cmds.len(),
        balance(cmds, opening_kind(cmds, i)->0, i, cmds.len() as int) <= 0,
        forall|x: int| i <= x < m ==> #[trigger] balance(cmds, opening_kind(cmds, i)->0, i, x + 1) > 0,
    ensures
        exists|j: int| closes(cmds, i, j),
    decreases cmds.len() - m,
{
    let k = opening_kind(cmds, i)->0;
    assert(balance(cmds, k, i, m + 1) == balance(cmds, k, i, m) + weight(cmds, k, m));
    if m == i {
        assert(balance(cmds, k, i, i) == 0);
    } else {
        assert(balance(cmds, k, i, (m - 1) + 1) > 0);
    }
    if balance(cmds, k, i, m + 1) == 0 {
        assert(closes(cmds, i, m));
    } else {
        if m + 1 == cmds.len() {
            assert(false);
        }
        lemma_find_close(cmds, i, m + 1);
    }
}

/// In a program whose loop delimiters are balanced and properly nested in
/// every category, a jump table that holds exactly the matched pairs sends
/// every opening to its one matching closing delimiter, and sending any
/// entry twice leads back to where it started.
pub proof fn lemma_balanced_pairs(cmds: Seq<Seq<char>>, jumps: Map<usize, usize>)
    requires
        cmds.len() <= usize::MAX,
        balanced(cmds),
        holds_pairs(jumps, cmds, None, cmds.len() as int),
    ensures
        forall|i: usize| #[trigger] opening_kind(cmds, i as int) is Some ==> jumps.contains_key(i) && closes(
            cmds,
            i as int,
            jumps[i] as int,
        ) && forall|j: int| closes(cmds, i as int, j) ==> j == jumps[i],
        forall|a: usize| #[trigger] jumps.contains_key(a) ==> jumps.contains_key(jumps[a]) && jumps[jumps[a]] == a,
{
    assert forall|i: usize| #[trigger] opening_kind(cmds, i as int) is Some implies jumps.contains_key(i) && closes(
        cmds,
        i as int,
        jumps[i] as int,
    ) && forall|j: int| closes(cmds, i as int, j) ==> j == jumps[i] by {
        let k = opening_kind(cmds, i as int)->0;
        assert(balance(cmds, k, 0, cmds.len() as int) == 0);
        assert(balance(cmds, k, 0, i as int) >= 0);
        lemma_balance_split(cmds, k, 0, i as int, cmds.len() as int);
        lemma_find_close(cmds, i as int, i as int);
        let j = choose|j: int| closes(cmds, i as int, j);
        assert(paired_before(cmds, i as int, j as usize as int, None, cmds.len() as int));
        assert forall|j2: int| closes(cmds, i as int, j2) implies j2 == jumps[i] by {
            lemma_partner_unique(cmds, i as int, j, j2);
        }
    }
    assert forall|a: usize| #[trigger] jumps.contains_key(a) implies jumps.contains_key(jumps[a]) && jumps[jumps[a]]
        == a by {
        assert(paired_before(cmds, a as int, jumps[a] as int, None, cmds.len() as int));
        assert(paired_before(cmds, jumps[a] as int, a as int, None, cmds.len() as int));
    }
}

/// The delimiters of category `k` at position `j`: `Some(true)` for its
/// opening, `Some(false)` for its closing, `None` for anything else.
pub open spec fn delimiter_in(cmds: Seq<Seq<char>>, k: LoopKind, j: int) -> Option<bool> {
    match delimiter_of(cmds[j]) {
        Some((c, open)) => if c == k {
            Some(open)
        } else {
            None
        },
        None => None,
    }
}

proof fn lemma_balance_agrees(c1: Seq<Seq<char>>, c2: Seq<Seq<char>>, k: LoopKind, i: int, j: int)
    requires
        forall|x: int| i <= x < j ==> #[trigger] weight(c1, k, x) == weight(c2, k, x),
    ensures
        balance(c1, k, i, j) == balance(c2, k, i, j),
    decreases j - i,
{
    if j > i {
        lemma_balance_agrees(c1, c2, k, i, j - 1);
    }
}

/// Matching one category ignores the others: two programs of one length
/// that hold the same delimiters of category `k` at the same positions have
/// the same matched pairs of `k`, whatever else they hold.
pub proof fn lemma_category_independent(
    c1: Seq<Seq<char>>,
    c2: Seq<Seq<char>>,
    k: LoopKind,
    m1: Map<usize, usize>,
    m2: Map<usize, usize>,
)
    requires
        c1.len() == c2.len(),
        forall|j: int| 0 <= j < c1.len() ==> #[trigger] delimiter_in(c1, k, j) == delimiter_in(c2, k, j),
        holds_pairs(m1, c1, Some(k), c1.len() as int),
        holds_pairs(m2, c2, Some(k), c2.len() as int),
    ensures
        m1 == m2,
{
    let n = c1.len() as int;
    assert forall|x: int| 0 <= x < n implies #[trigger] weight(c1, k, x) == weight(c2, k, x) by {
        assert(delimiter_in(c1, k, x) == delimiter_in(c2, k, x));
    }
    assert forall|a: int, b: int| #[trigger] paired_before(c1, a, b, Some(k), n) == paired_before(c2, a, b, Some(k), n) by {
        assert forall|i: int, j: int| (closes(c1, i, j) && opening_kind(c1, i) == Some(k)) == (closes(c2, i, j)
            && opening_kind(c2, i) == Some(k)) by {
            if 0 <= i < n {
                assert(delimiter_in(c1, k, i) == delimiter_in(c2, k, i));
                if opening_kind(c1, i) == Some(k) {
                    assert(delimiter_in(c1, k, i) == Some(true));
                    assert(opening_kind(c2, i) == Some(k));
                }
                if opening_kind(c2, i) == Some(k) {
                    assert(delimiter_in(c2, k, i) == Some(true));
                    assert(opening_kind(c1, i) == Some(k));
                }
                if opening_kind(c1, i) == Some(k) && i < j < n {
                    assert forall|x: int|
                        #![trigger balance(c1, k, i, x + 1)]
                        #![trigger balance(c2, k, i, x + 1)]
                        i <= x < j implies balance(c1, k, i, x + 1) == balance(c2, k, i, x + 1) by {
                        lemma_balance_agrees(c1, c2, k, i, x + 1);
                    }
                    lemma_balance_agrees(c1, c2, k, i, j + 1);
                    assert(still_open(c1, i, j) == still_open(c2, i, j));
                }
            }
        }
    }
    assert forall|a: usize| #[trigger] m1.contains_key(a) implies m2.contains_key(a) && m2[a] == m1[a] by {
        assert(paired_before(c1, a as int, m1[a] as int, Some(k), n));
        assert(paired_before(c2, a as int, m1[a] as int, Some(k), n));
    }
    assert forall|a: usize| #[trigger] m2.contains_key(a) implies m1.contains_key(a) by {
        assert(paired_before(c2, a as int, m2[a] as int, Some(k), n));
        assert(paired_before(c1, a as int, m2[a] as int, Some(k), n));
    }
    assert(m1 =~= m2);
}

/// Position `(l1, c1)` comes before `(l2, c2)`.
pub open spec fn position_before(l1: int, c1: int, l2: int, c2: int) -> bool {
    l1 < l2 || (l1 == l2 && c1 < c2)
}

proof fn lemma_scan_positions(st: ScanState)
    requires
        scan_wf(st),
    ensures
        scan_next(st).1 matches Scanned::Token(t, l, c) ==> !position_before(l, c, st.line, st.column)
            && position_before(l, c, scan_next(st).0.line, scan_next(st).0.column),
        !position_before(scan_next(st).0.line, scan_next(st).0.column, st.line, st.column),
    decreases st.text.len() - st.position,
{
    lemma_scan_next_progress(st);
    if 0 <= st.position < st.text.len() {
        let rest = crate::scanner::rest_of(st);
        let st1 = if rest == seq!['"'] {
            ScanState { comment: !st.comment, ..st }
        } else {
            st
        };
        if !st1.comment {
            crate::scanner::lemma_first_match_index(st1.rules, rest);
            if let Some((i, t)) = crate::scanner::first_match(st1.rules, rest) {
                crate::scanner::lemma_newlines_bound(t);
                let st2 = crate::scanner::advance(st1, t);
                if st1.rules[i].1 {
                    lemma_scan_positions(st2);
                }
            }
        }
    }
}

/// Every token that a drain gives lies at or after the scanner's position,
/// and the tokens come in strictly increasing positions.
proof fn lemma_drain_positions(st: ScanState)
    requires
        scan_wf(st),
    ensures
        forall|a: int| 0 <= a < drain(st).0.len() ==> !position_before(
            #[trigger] drain(st).0[a].1,
            drain(st).0[a].2,
            st.line,
            st.column,
        ),
        forall|a: int, b: int| 0 <= a < b < drain(st).0.len() ==> position_before(
            #[trigger] drain(st).0[a].1,
            drain(st).0[a].2,
            #[trigger] drain(st).0[b].1,
            drain(st).0[b].2,
        ),
    decreases st.text.len() - st.position,
{
    lemma_scan_next_progress(st);
    lemma_scan_positions(st);
    let (st2, s) = scan_next(st);
    if let Scanned::Token(t, l, c) = s {
        lemma_drain_positions(st2);
        let rest = drain(st2).0;
        assert(drain(st).0 == seq![(t, l, c)] + rest);
        assert forall|a: int| 0 <= a < drain(st).0.len() implies !position_before(
            #[trigger] drain(st).0[a].1,
            drain(st).0[a].2,
            st.line,
            st.column,
        ) by {
            if a > 0 {
                assert(drain(st).0[a] == rest[a - 1]);
            }
        }
        assert forall|a: int, b: int| 0 <= a < b < drain(st).0.len() implies position_before(
            #[trigger] drain(st).0[a].1,
            drain(st).0[a].2,
            #[trigger] drain(st).0[b].1,
            drain(st).0[b].2,
        ) by {
            assert(drain(st).0[b] == rest[b - 1]);
            if a > 0 {
                assert(drain(st).0[a] == rest[a - 1]);
            }
        }
    }
}

/// Scanning and extracting agree: the scanner gives its tokens in strictly
/// increasing positions, so putting the texts of the tokens it does not
/// skip back in order of position, and dropping comments and statement
/// terminators, gives exactly the extractor's command sequence.
pub proof fn lemma_extraction_round_trip(st: ScanState)
    requires
        scan_wf(st),
    ensures
        forall|a: int, b: int| 0 <= a < b < drain(st).0.len() ==> position_before(
            #[trigger] drain(st).0[a].1,
            drain(st).0[a].2,
            #[trigger] drain(st).0[b].1,
            drain(st).0[b].2,
        ),
        crate::parser::commands_of(drain(st).0) == drain(st).0.filter(
            |t: (Seq<char>, int, int)| crate::parser::is_command(t.0),
        ),
{
    lemma_drain_positions(st);
    lemma_commands_are_filter(drain(st).0);
}

proof fn lemma_commands_are_filter(toks: Seq<(Seq<char>, int, int)>)
    ensures
        crate::parser::commands_of(toks) == toks.filter(|t: (Seq<char>, int, int)| crate::parser::is_command(t.0)),
    decreases toks.len(),
{
    reveal(Seq::filter);
    if toks.len() > 0 {
        lemma_commands_are_filter(toks.drop_last());
    }
}

/// Validation depends on nothing but the scanner it is given: two scanners
/// freshly made over the same text with the same rules get the same
/// verdict.
pub proof fn lemma_validation_repeatable(s1: ScanState, s2: ScanState)
    requires
        s1.text == s2.text,
        s1.rules == s2.rules,
        s1.line == 1 && s2.line == 1,
        s1.column == 1 && s2.column == 1,
        !s1.comment && !s2.comment,
        s1.position == 0 && s2.position == 0,
    ensures
        verdict(s1) == verdict(s2),
{
    assert(s1 == s2);
}

/// A step whose command decodes to one run of `op`, with nothing pending,
/// runs `op` once on the bank it addresses and then moves on.
pub proof fn lemma_step_runs_once(
    m: MachineState,
    prefixed: bool,
    table: Seq<(Seq<char>, Op)>,
    command: Seq<char>,
    ctx: Context,
    draw: u64,
    op: Op,
)
    requires
        m.pending is None,
        decode_spec(prefixed, table, command).count == Count::Fixed(1),
        decode_spec(prefixed, table, command).op == Some(op),
    ensures
        step_spec(m, prefixed, table, command, ctx, draw) == finish(
            m,
            op,
            if prefixed {
                decode_spec(prefixed, table, command).local
            } else {
                m.on_local
            },
            1,
            ctx,
            draw,
        ),
{
}

/// Division by zero: with no fallback for the dividend's sign, the division
/// fails with `DivisionByZero` naming the dividend and changes nothing, so the
/// run stops before any later command; with a fallback, the cell takes that
/// value and the run moves on to the next command.
pub proof fn lemma_division_by_zero(m: MachineState, local: bool, ctx: Context, draw: u64)
    requires
        0 <= sebek_slot(main_bank(m, local).cell()) < ctx.sebek.len(),
        is_zero_bits(other_bank(m, local).cell()),
    ensures
        ({
            let d = main_bank(m, local).cell();
            let f = finish(m, Op::Divide, local, 1, ctx, draw);
            &&& ctx.sebek[sebek_slot(d)] is None ==> f.state == m && f.events.len() == 0 && f.stop == Some(
                Stop::Failed(Failure::DivisionByZero(d)),
            )
            &&& ctx.sebek[sebek_slot(d)] matches Some(v) ==> f.stop is None && f.events.len() == 0 && f.state == (
            MachineState { pc: m.pc + 1, ..with_main_cell(m, local, v) })
        }),
{
    assert(run_op(m, Op::Divide, local, 0, ctx, draw).events =~= Seq::<Event>::empty());
    let d = main_bank(m, local).cell();
    let f = finish(m, Op::Divide, local, 1, ctx, draw);
    assert(f.events =~= Seq::<Event>::empty() + apply(m, Op::Divide, local, ctx, draw).events);
}

/// Moving left at the first cell puts a zero cell in front of the tape and
/// keeps the pointer at 0; it is no failure, and the advisory comes only when
/// it is switched on and was not given yet.
pub proof fn lemma_move_left_at_edge(m: MachineState, local: bool, ctx: Context, draw: u64)
    requires
        0 <= main_bank(m, local).active < 2,
        main_bank(m, local).pointer(main_bank(m, local).active) == 0,
    ensures
        ({
            let b = main_bank(m, local);
            let f = finish(m, Op::MoveLeft, local, 1, ctx, draw);
            let nb = main_bank(f.state, local);
            &&& f.stop is None
            &&& f.state.pc == m.pc + 1
            &&& nb.tape(b.active) == seq![0u64] + b.tape(b.active)
            &&& nb.pointer(b.active) == 0
            &&& nb.tape(1 - b.active) == b.tape(1 - b.active)
            &&& other_bank(f.state, local) == other_bank(m, local)
            &&& f.events == if ctx.warn && !m.warned {
                seq![Event::LeftEdge]
            } else {
                Seq::<Event>::empty()
            }
            &&& f.state.warned == (m.warned || ctx.warn)
        }),
{
    let a = apply(m, Op::MoveLeft, local, ctx, draw);
    assert(run_op(m, Op::MoveLeft, local, 0, ctx, draw).events =~= Seq::<Event>::empty());
    assert(finish(m, Op::MoveLeft, local, 1, ctx, draw).events =~= Seq::<Event>::empty() + a.events);
    assert(Seq::<Event>::empty() + seq![Event::LeftEdge] =~= seq![Event::LeftEdge]);
    assert(Seq::<Event>::empty() + Seq::<Event>::empty() =~= Seq::<Event>::empty());
}

/// The advisory appears at most once in `e`.
pub open spec fn at_most_one_advisory(e: Seq<Event>) -> bool {
    forall|i: int, j: int| 0 <= i < j < e.len() ==> !(#[trigger] e[i] == Event::LeftEdge && #[trigger] e[j] == Event::LeftEdge)
}

proof fn lemma_apply_advisory(m: MachineState, op: Op, local: bool, ctx: Context, draw: u64)
    ensures
        ({
            let a = apply(m, op, local, ctx, draw);
            &&& a.events.len() <= 1
            &&& a.events.contains(Event::LeftEdge) ==> !m.warned && ctx.warn && a.state.warned
            &&& m.warned ==> a.state.warned
        }),
{
    let a = apply(m, op, local, ctx, draw);
    if op == Op::MoveLeft {
        assert(a.events.len() <= 1);
    }
    if a.events.contains(Event::LeftEdge) {
        let k = choose|k: int| 0 <= k < a.events.len() && a.events[k] == Event::LeftEdge;
        assert(op == Op::MoveLeft);
    }
}

/// The left-edge advisory is given at most once in a run: repeating an
/// operation gives it at most once, never once it was given, never when it
/// is switched off, and once given it stays given.
pub proof fn lemma_advisory_at_most_once(m: MachineState, op: Op, local: bool, n: nat, ctx: Context, draw: u64)
    ensures
        ({
            let r = run_op(m, op, local, n, ctx, draw);
            &&& at_most_one_advisory(r.events)
            &&& m.warned ==> r.state.warned && !r.events.contains(Event::LeftEdge)
            &&& !ctx.warn ==> !r.events.contains(Event::LeftEdge)
            &&& r.events.contains(Event::LeftEdge) ==> r.state.warned
        }),
    decreases n,
{
    if n > 0 {
        lemma_advisory_at_most_once(m, op, local, (n - 1) as nat, ctx, draw);
        let r = run_op(m, op, local, (n - 1) as nat, ctx, draw);
        if r.stop is None {
            lemma_apply_advisory(r.state, op, local, ctx, draw);
            let a = apply(r.state, op, local, ctx, draw);
            let e = r.events + a.events;
            assert forall|x: Event| e.contains(x) implies r.events.contains(x) || a.events.contains(x) by {
                let k = choose|k: int| 0 <= k < e.len() && e[k] == x;
                if k < r.events.len() {
                    assert(r.events[k] == x);
                } else {
                    assert(a.events[k - r.events.len()] == x);
                }
            }
            assert forall|i: int, j: int| 0 <= i < j < e.len() implies !(#[trigger] e[i] == Event::LeftEdge
                && #[trigger] e[j] == Event::LeftEdge) by {
                if e[i] == Event::LeftEdge && e[j] == Event::LeftEdge {
                    if j < r.events.len() {
                        assert(r.events[i] == e[i] && r.events[j] == e[j]);
                    } else if i < r.events.len() {
                        assert(r.events.contains(Event::LeftEdge)) by {
                            assert(r.events[i] == Event::LeftEdge);
                        }
                        assert(a.events.contains(Event::LeftEdge)) by {
                            assert(a.events[j - r.events.len()] == Event::LeftEdge);
                        }
                    } else {
                        assert(a.events.len() <= 1);
                    }
                }
            }
            if m.warned {
                assert(!e.contains(Event::LeftEdge));
            }
        }
    }
}

proof fn lemma_first_index_some(s: Seq<usize>, x: usize)
    ensures
        first_index(s, x) matches Some(i) ==> 0 <= i < s.len() && s[i] == x,
        first_index(s, x) is None ==> !s.contains(x),
    decreases s.len(),
{
    if s.len() > 0 {
        lemma_first_index_some(s.drop_last(), x);
        if first_index(s, x) is None {
            assert forall|j: int| 0 <= j < s.len() implies s[j] != x by {
                if j < s.len() - 1 {
                    assert(s.drop_last()[j] == s[j]);
                }
            }
        }
    }
}

/// A loop that ends because its cell is zero leaves the loop stack: after
/// the closing delimiter its opening is no longer running.
pub proof fn lemma_loop_exit_clears(m: MachineState, local: bool, ctx: Context, draw: u64)
    requires
        distinct(m.loops),
        is_zero_bits(main_bank(m, local).cell()),
        ctx.jumps.contains_key(m.pc as usize),
    ensures
        apply(m, Op::LoopEnd, local, ctx, draw).stop is None,
        !apply(m, Op::LoopEnd, local, ctx, draw).state.loops.contains(ctx.jumps[m.pc as usize]),
        distinct(apply(m, Op::LoopEnd, local, ctx, draw).state.loops),
{
    let o = ctx.jumps[m.pc as usize];
    let s = m.loops;
    let r = remove_first(s, o);
    lemma_first_index_some(s, o);
    if let Some(i) = first_index(s, o) {
        assert forall|j: int| 0 <= j < r.len() implies r[j] != o by {
            if j < i {
                assert(r[j] == s[j]);
            } else {
                assert(r[j] == s[j + 1]);
            }
        }
        assert forall|a: int, b: int| 0 <= a < b < r.len() implies #[trigger] r[a] != #[trigger] r[b] by {
            let sa = if a < i { a } else { a + 1 };
            let sb = if b < i { b } else { b + 1 };
            assert(r[a] == s[sa] && r[b] == s[sb]);
        }
    }
}

/// A run of the commands `cmds`, one step per random draw in `draws`,
/// until the program counter leaves the program, a step fails, or a read
/// waits for input: its final state, everything written, and why it stopped.
pub open spec fn run_steps(
    m: MachineState,
    prefixed: bool,
    table: Seq<(Seq<char>, Op)>,
    cmds: Seq<Seq<char>>,
    ctx: Context,
    draws: Seq<u64>,
) -> Applied
    decreases draws.len(),
{
    if draws.len() == 0 || !(0 <= m.pc < cmds.len()) {
        Applied { state: m, events: Seq::empty(), stop: None, done: 0 }
    } else {
        let a = step_spec(m, prefixed, table, cmds[m.pc], ctx, draws[0]);
        if a.stop is Some {
            a
        } else {
            let r = run_steps(a.state, prefixed, table, cmds, ctx, draws.drop_first());
            Applied { state: r.state, events: a.events + r.events, stop: r.stop, done: 0 }
        }
    }
}

/// The operation and bank of a command that decodes to a single run of `op`.
pub open spec fn runs_once(prefixed: bool, table: Seq<(Seq<char>, Op)>, command: Seq<char>, op: Op) -> bool {
    decode_spec(prefixed, table, command).count == Count::Fixed(1) && decode_spec(prefixed, table, command).op
        == Some(op)
}

/// The bank that command `command` addresses in state `m`.
pub open spec fn addressed(m: MachineState, prefixed: bool, table: Seq<(Seq<char>, Op)>, command: Seq<char>) -> bool {
    if prefixed {
        decode_spec(prefixed, table, command).local
    } else {
        m.on_local
    }
}

/// A run that reaches a division by zero with no fallback for the
/// dividend's sign stops there with `DivisionByZero` naming the dividend:
/// nothing changed, nothing written, and no later command runs.
pub proof fn lemma_run_stops_at_division_by_zero(
    m: MachineState,
    prefixed: bool,
    table: Seq<(Seq<char>, Op)>,
    cmds: Seq<Seq<char>>,
    ctx: Context,
    draws: Seq<u64>,
)
    requires
        0 <= m.pc < cmds.len(),
        draws.len() > 0,
        m.pending is None,
        runs_once(prefixed, table, cmds[m.pc], Op::Divide),
        ({
            let l = addressed(m, prefixed, table, cmds[m.pc]);
            &&& is_zero_bits(other_bank(m, l).cell())
            &&& 0 <= sebek_slot(main_bank(m, l).cell()) < ctx.sebek.len()
            &&& ctx.sebek[sebek_slot(main_bank(m, l).cell())] is None
        }),
    ensures
        ({
            let r = run_steps(m, prefixed, table, cmds, ctx, draws);
            let d = main_bank(m, addressed(m, prefixed, table, cmds[m.pc])).cell();
            &&& r.state == m
            &&& r.events.len() == 0
            &&& r.stop == Some(Stop::Failed(Failure::DivisionByZero(d)))
        }),
{
    let l = addressed(m, prefixed, table, cmds[m.pc]);
    lemma_step_runs_once(m, prefixed, table, cmds[m.pc], ctx, draws[0], Op::Divide);
    lemma_division_by_zero(m, l, ctx, draws[0]);
}

/// A run that reaches a division by zero with a fallback for the dividend's
/// sign puts that value in the cell and goes on with the next command,
/// writing nothing for the division.
pub proof fn lemma_run_continues_after_fallback(
    m: MachineState,
    prefixed: bool,
    table: Seq<(Seq<char>, Op)>,
    cmds: Seq<Seq<char>>,
    ctx: Context,
    draws: Seq<u64>,
    v: u64,
)
    requires
        0 <= m.pc < cmds.len(),
        draws.len() > 0,
        m.pending is None,
        runs_once(prefixed, table, cmds[m.pc], Op::Divide),
        ({
            let l = addressed(m, prefixed, table, cmds[m.pc]);
            &&& is_zero_bits(other_bank(m, l).cell())
            &&& 0 <= sebek_slot(main_bank(m, l).cell()) < ctx.sebek.len()
            &&& ctx.sebek[sebek_slot(main_bank(m, l).cell())] == Some(v)
        }),
    ensures
        ({
            let l = addressed(m, prefixed, table, cmds[m.pc]);
            let next = MachineState { pc: m.pc + 1, ..with_main_cell(m, l, v) };
            let r = run_steps(m, prefixed, table, cmds, ctx, draws);
            let rest = run_steps(next, prefixed, table, cmds, ctx, draws.drop_first());
            &&& r.state == rest.state
            &&& r.events == rest.events
            &&& r.stop == rest.stop
        }),
{
    let l = addressed(m, prefixed, table, cmds[m.pc]);
    lemma_step_runs_once(m, prefixed, table, cmds[m.pc], ctx, draws[0], Op::Divide);
    lemma_division_by_zero(m, l, ctx, draws[0]);
    let next = MachineState { pc: m.pc + 1, ..with_main_cell(m, l, v) };
    let rest = run_steps(next, prefixed, table, cmds, ctx, draws.drop_first());
    assert(Seq::<Event>::empty() + rest.events =~= rest.events);
}

proof fn lemma_events_concat(e1: Seq<Event>, e2: Seq<Event>)
    requires
        at_most_one_advisory(e1),
        at_most_one_advisory(e2),
        !(e1.contains(Event::LeftEdge) && e2.contains(Event::LeftEdge)),
    ensures
        at_most_one_advisory(e1 + e2),
        (e1 + e2).contains(Event::LeftEdge) <==> (e1.contains(Event::LeftEdge) || e2.contains(Event::LeftEdge)),
{
    let e = e1 + e2;
    assert forall|x: Event| e.contains(x) implies e1.contains(x) || e2.contains(x) by {
        let k = choose|k: int| 0 <= k < e.len() && e[k] == x;
        if k < e1.len() {
            assert(e1[k] == x);
        } else {
            assert(e2[k - e1.len()] == x);
        }
    }
    assert forall|x: Event| e1.contains(x) || e2.contains(x) implies e.contains(x) by {
        if e1.contains(x) {
            let k = choose|k: int| 0 <= k < e1.len() && e1[k] == x;
            assert(e[k] == x);
        } else {
            let k = choose|k: int| 0 <= k < e2.len() && e2[k] == x;
            assert(e[k + e1.len()] == x);
        }
    }
    assert forall|i: int, j: int| 0 <= i < j < e.len() implies !(#[trigger] e[i] == Event::LeftEdge
        && #[trigger] e[j] == Event::LeftEdge) by {
        if e[i] == Event::LeftEdge && e[j] == Event::LeftEdge {
            if j < e1.len() {
                assert(e1[i] == e[i] && e1[j] == e[j]);
            } else if i < e1.len() {
                assert(e1[i] == Event::LeftEdge);
                assert(e2[j - e1.len()] == Event::LeftEdge);
            } else {
                assert(e2[i - e1.len()] == e[i] && e2[j - e1.len()] == e[j]);
            }
        }
    }
}

proof fn lemma_step_advisory(
    m: MachineState,
    prefixed: bool,
    table: Seq<(Seq<char>, Op)>,
    command: Seq<char>,
    ctx: Context,
    draw: u64,
)
    ensures
        ({
            let a = step_spec(m, prefixed, table, command, ctx, draw);
            &&& at_most_one_advisory(a.events)
            &&& m.warned ==> a.state.warned && !a.events.contains(Event::LeftEdge)
            &&& !ctx.warn ==> !a.events.contains(Event::LeftEdge)
            &&& a.events.contains(Event::LeftEdge) ==> a.state.warned
        }),
{
    match m.pending {
        Some((op, local, n)) => {
            let m1 = MachineState { pending: None, ..m };
            lemma_advisory_at_most_once(m1, op, local, n as nat, ctx, draw);
        },
        None => {
            let ins = decode_spec(prefixed, table, command);
            let local = if prefixed {
                ins.local
            } else {
                m.on_local
            };
            match ins.op {
                None => {
                    assert(!Seq::<Event>::empty().contains(Event::LeftEdge));
                },
                Some(op) => {
                    let (op2, n) = crate::runner::effective(
                        op,
                        crate::runner::resolve_count(ins.count, main_bank(m, local).cell()),
                    );
                    lemma_advisory_at_most_once(m, op2, local, n as nat, ctx, draw);
                },
            }
        },
    }
}

/// The left-edge advisory is given at most once in a whole run, never when
/// it is switched off, and never again once it was given.
pub proof fn lemma_run_advisory_at_most_once(
    m: MachineState,
    prefixed: bool,
    table: Seq<(Seq<char>, Op)>,
    cmds: Seq<Seq<char>>,
    ctx: Context,
    draws: Seq<u64>,
)
    ensures
        ({
            let r = run_steps(m, prefixed, table, cmds, ctx, draws);
            &&& at_most_one_advisory(r.events)
            &&& m.warned ==> !r.events.contains(Event::LeftEdge)
            &&& !ctx.warn ==> !r.events.contains(Event::LeftEdge)
            &&& m.warned ==> r.state.warned
            &&& r.events.contains(Event::LeftEdge) ==> r.state.warned
        }),
    decreases draws.len(),
{
    if draws.len() == 0 || !(0 <= m.pc < cmds.len()) {
        assert(!Seq::<Event>::empty().contains(Event::LeftEdge));
    } else {
        let a = step_spec(m, prefixed, table, cmds[m.pc], ctx, draws[0]);
        lemma_step_advisory(m, prefixed, table, cmds[m.pc], ctx, draws[0]);
        if a.stop is None {
            lemma_run_advisory_at_most_once(a.state, prefixed, table, cmds, ctx, draws.drop_first());
            let r = run_steps(a.state, prefixed, table, cmds, ctx, draws.drop_first());
            lemma_events_concat(a.events, r.events);
        }
    }
}

} // verus!
