//! What a command text means: its operation, its repeat count and whether it
//! addresses the local bank. The token texts of each language version are
//! data, a table from text to operation.
use vstd::prelude::*;
use vstd::string::*;
use crate::utils::is_digit;

verus! {

/// The operations of the execution engine.
#[derive(Clone, Copy, Debug, PartialEq, Eq, Structural)]
pub enum Op {
    Increment,
    Decrement,
    Add,
    Subtract,
    Multiply,
    Divide,
    Random,
    MoveRight,
    MoveLeft,
    Floor,
    Ceil,
    SwitchTape,
    ToggleLocal,
    WhileStart,
    DoWhileStart,
    LoopEnd,
    BreakEqual,
    BreakGreater,
    BreakLess,
    ReadNumber,
    ReadNumberOrBreak,
    ReadChar,
    WriteNumber,
    WriteChar,
    Swap,
    QueryPointer,
}

/// The algebraic inverse of an operation, used for negative repeat counts.
pub open spec fn opposite_of(op: Op) -> Option<Op> {
    match op {
        Op::Increment => Some(Op::Decrement),
        Op::Decrement => Some(Op::Increment),
        Op::Add => Some(Op::Subtract),
        Op::Subtract => Some(Op::Add),
        Op::Multiply => Some(Op::Divide),
        Op::Divide => Some(Op::Multiply),
        Op::MoveRight => Some(Op::MoveLeft),
        Op::MoveLeft => Some(Op::MoveRight),
        _ => None,
    }
}

/// The inverse of `op`, if it has one.
pub fn opposite(op: Op) -> (r: Option<Op>)
    ensures
        r == opposite_of(op),
{
    match op {
        Op::Increment => Some(Op::Decrement),
        Op::Decrement => Some(Op::Increment),
        Op::Add => Some(Op::Subtract),
        Op::Subtract => Some(Op::Add),
        Op::Multiply => Some(Op::Divide),
        Op::Divide => Some(Op::Multiply),
        Op::MoveRight => Some(Op::MoveLeft),
        Op::MoveLeft => Some(Op::MoveRight),
        _ => None,
    }
}

/// How many times a command runs, before negative counts are resolved.
#[derive(Clone, Copy, Debug, PartialEq, Eq, Structural)]
pub enum Count {
    /// A literal count (or `1` when the count text is not a number).
    Fixed(i128),
    /// An empty count: the floor of the active cell.
    FromCell,
}

/// A decoded command: whether a locality prefix marked it, its count, and its
/// operation (`None` for a text that the grammar does not know).
#[derive(Clone, Copy, Debug, PartialEq, Eq, Structural)]
pub struct Instr {
    pub local: bool,
    pub count: Count,
    pub op: Option<Op>,
}

/// The value of a run of decimal digits.
pub open spec fn digits_value(s: Seq<char>) -> int
    decreases s.len(),
{
    if s.len() == 0 {
        0
    } else {
        digits_value(s.drop_last()) * 10 + (s.last() as int - '0' as int)
    }
}

/// `s` is one or more decimal digits.
pub open spec fn all_digits(s: Seq<char>) -> bool {
    s.len() > 0 && forall|i: int| 0 <= i < s.len() ==> is_digit(#[trigger] s[i])
}

/// The `i128` that `s` denotes as an optionally signed decimal numeral, if it
/// is one and the value fits.
pub open spec fn parse_int_spec(s: Seq<char>) -> Option<i128> {
    let (negative, digits) = sign_split(s);
    let v = if negative {
        -digits_value(digits)
    } else {
        digits_value(digits)
    };
    if all_digits(digits) && i128::MIN <= v <= i128::MAX {
        Some(v as i128)
    } else {
        None
    }
}

/// A numeral's sign (`true` for `-`) and its digits.
pub open spec fn sign_split(s: Seq<char>) -> (bool, Seq<char>) {
    if s.len() > 0 && s[0] == '-' {
        (true, s.drop_first())
    } else if s.len() > 0 && s[0] == '+' {
        (false, s.drop_first())
    } else {
        (false, s)
    }
}

/// The positions of `|` in `t`, in order.
pub open spec fn bar_positions(t: Seq<char>) -> Seq<int>
    decreases t.len(),
{
    if t.len() == 0 {
        Seq::empty()
    } else if t.last() == '|' {
        bar_positions(t.drop_last()).push(t.len() - 1)
    } else {
        bar_positions(t.drop_last())
    }
}

/// The operation that `table` gives the text `base`: the first entry whose
/// text it is.
pub open spec fn lookup_spec(table: Seq<(Seq<char>, Op)>, base: Seq<char>) -> Option<Op>
    decreases table.len(),
{
    if table.len() == 0 {
        None
    } else if lookup_spec(table.drop_last(), base) is Some {
        lookup_spec(table.drop_last(), base)
    } else if table.last().0 == base {
        Some(table.last().1)
    } else {
        None
    }
}

/// The text of a command without its locality prefix, and whether it had one.
pub open spec fn strip_local(prefixed: bool, t: Seq<char>) -> (bool, Seq<char>) {
    if prefixed && t.len() > 0 && t[0] == '\'' {
        (true, t.drop_first())
    } else {
        (false, t)
    }
}

/// What a command text means under a grammar: a text split by `|` into
/// exactly three parts has its middle part as count and its last part as
/// operation; any other text is its own operation, run once.
pub open spec fn decode_spec(prefixed: bool, table: Seq<(Seq<char>, Op)>, t: Seq<char>) -> Instr {
    let (local, rest) = strip_local(prefixed, t);
    let bars = bar_positions(rest);
    if bars.len() == 2 {
        let count_text = rest.subrange(bars[0] + 1, bars[1]);
        let base = rest.subrange(bars[1] + 1, rest.len() as int);
        let count = if count_text.len() == 0 {
            Count::FromCell
        } else {
            match parse_int_spec(count_text) {
                Some(v) => Count::Fixed(v),
                None => Count::Fixed(1),
            }
        };
        Instr { local, count, op: lookup_spec(table, base) }
    } else {
        Instr { local, count: Count::Fixed(1), op: lookup_spec(table, rest) }
    }
}

/// Whether two texts are equal.
pub fn same_text(a: &str, b: &str) -> (r: bool)
    ensures
        r == (a@ == b@),
{
    let n = a.unicode_len();
    if n != b.unicode_len() {
        return false;
    }
    let mut i: usize = 0;
    while i < n
        invariant
            n == a@.len() == b@.len(),
            i <= n,
            forall|j: int| 0 <= j < i ==> a@[j] == b@[j],
        decreases n - i,
    {
        if a.get_char(i) != b.get_char(i) {
            return false;
        }
        i = i + 1;
    }
    assert(a@ =~= b@);
    true
}

proof fn lemma_bar_positions_step(t: Seq<char>, i: int)
    requires
        0 <= i < t.len(),
    ensures
        bar_positions(t.subrange(0, i + 1)) == if t[i] == '|' {
            bar_positions(t.subrange(0, i)).push(i)
        } else {
            bar_positions(t.subrange(0, i))
        },
{
    assert(t.subrange(0, i + 1).drop_last() =~= t.subrange(0, i));
}

proof fn lemma_bar_positions_bounds(t: Seq<char>)
    ensures
        forall|k: int| 0 <= k < bar_positions(t).len() ==> 0 <= #[trigger] bar_positions(t)[k] < t.len(),
        forall|k1: int, k2: int| 0 <= k1 < k2 < bar_positions(t).len() ==> #[trigger] bar_positions(t)[k1]
            < #[trigger] bar_positions(t)[k2],
    decreases t.len(),
{
    if t.len() > 0 {
        lemma_bar_positions_bounds(t.drop_last());
        let b = bar_positions(t.drop_last());
        assert forall|k: int| 0 <= k < b.len() implies 0 <= #[trigger] b[k] < t.len() - 1 by {}
    }
}

/// The positions of `|` in `t`.
fn bars_of(t: &str) -> (r: Vec<usize>)
    ensures
        r@.len() == bar_positions(t@).len(),
        forall|k: int| 0 <= k < r@.len() ==> r@[k] as int == #[trigger] bar_positions(t@)[k],
{
    let n = t.unicode_len();
    let mut r: Vec<usize> = Vec::new();
    let mut i: usize = 0;
    assert(t@.subrange(0, 0) =~= Seq::<char>::empty());
    while i < n
        invariant
            n == t@.len(),
            i <= n,
            r@.len() == bar_positions(t@.subrange(0, i as int)).len(),
            forall|k: int| 0 <= k < r@.len() ==> r@[k] as int == #[trigger] bar_positions(t@.subrange(0, i as int))[k],
        decreases n - i,
    {
        proof {
            lemma_bar_positions_step(t@, i as int);
        }
        if t.get_char(i) == '|' {
            r.push(i);
        }
        i = i + 1;
    }
    assert(t@.subrange(0, n as int) =~= t@);
    r
}

proof fn lemma_digits_value_step(s: Seq<char>, i: int)
    requires
        0 <= i < s.len(),
    ensures
        digits_value(s.subrange(0, i + 1)) == digits_value(s.subrange(0, i)) * 10 + (s[i] as int - '0' as int),
{
    assert(s.subrange(0, i + 1).drop_last() =~= s.subrange(0, i));
}

proof fn lemma_digits_value_nonneg(s: Seq<char>)
    requires
        forall|i: int| 0 <= i < s.len() ==> is_digit(#[trigger] s[i]),
    ensures
        digits_value(s) >= 0,
    decreases s.len(),
{
    if s.len() > 0 {
        lemma_digits_value_nonneg(s.drop_last());
    }
}

proof fn lemma_digits_value_prefix_grows(s: Seq<char>, k: int)
    requires
        0 <= k <= s.len(),
        forall|i: int| 0 <= i < s.len() ==> is_digit(#[trigger] s[i]),
    ensures
        digits_value(s) >= digits_value(s.subrange(0, k)),
    decreases s.len(),
{
    if k < s.len() {
        assert(s.drop_last().subrange(0, k) =~= s.subrange(0, k));
        lemma_digits_value_prefix_grows(s.drop_last(), k);
        lemma_digits_value_nonneg(s.drop_last());
    } else {
        assert(s.subrange(0, k) =~= s);
    }
}

/// The largest magnitude an `i128` can have: `2^127`.
const MAGNITUDE_LIMIT: u128 = 0x8000_0000_0000_0000_0000_0000_0000_0000;

/// Reads an optionally signed decimal `i128`, as Rust's integer parsing does.
pub fn parse_int(s: &str) -> (r: Option<i128>)
    ensures
        r == parse_int_spec(s@),
{
    let n = s.unicode_len();
    let mut start: usize = 0;
    let mut negative = false;
    if n > 0 {
        let c = s.get_char(0);
        if c == '-' {
            negative = true;
            start = 1;
        } else if c == '+' {
            start = 1;
        }
    }
    let ghost digits = s@.subrange(start as int, n as int);
    proof {
        if start == 1 {
            assert(digits =~= s@.drop_first());
        } else {
            assert(digits =~= s@);
        }
        assert(sign_split(s@) == (negative, digits));
    }
    if start == n {
        return None;
    }
    let mut acc: u128 = 0;
    let mut i: usize = start;
    assert(digits.subrange(0, 0) =~= Seq::<char>::empty());
    while i < n
        invariant
            n == s@.len(),
            start <= i <= n,
            start < n,
            digits == s@.subrange(start as int, n as int),
            sign_split(s@) == (negative, digits),
            acc as int == digits_value(digits.subrange(0, i - start)),
            acc <= MAGNITUDE_LIMIT,
            forall|j: int| 0 <= j < i - start ==> is_digit(#[trigger] digits[j]),
        decreases n - i,
    {
        let c = s.get_char(i);
        assert(c == digits[i - start]);
        if !('0' <= c && c <= '9') {
            assert(!all_digits(digits));
            return None;
        }
        let d = (c as u32 - '0' as u32) as u128;
        proof {
            lemma_digits_value_step(digits, i - start);
        }
        if acc > (MAGNITUDE_LIMIT - d) / 10 {
            proof {
                assert(acc * 10 + d > MAGNITUDE_LIMIT) by (nonlinear_arith)
                    requires
                        acc > (MAGNITUDE_LIMIT - d) / 10,
                        d <= 9,
                ;
                // the value only grows with more digits
                if all_digits(digits) {
                    lemma_digits_value_prefix_grows(digits, i - start + 1);
                }
            }
            return None;
        }
        assert(acc * 10 + d <= MAGNITUDE_LIMIT) by (nonlinear_arith)
            requires
                acc <= (MAGNITUDE_LIMIT - d) / 10,
                d <= 9,
        ;
        acc = acc * 10 + d;
        i = i + 1;
    }
    assert(digits.subrange(0, n - start) =~= digits);
    proof {
        lemma_digits_value_nonneg(digits);
    }
    if negative {
        if acc == MAGNITUDE_LIMIT {
            Some(i128::MIN)
        } else {
            Some(-(acc as i128))
        }
    } else if acc == MAGNITUDE_LIMIT {
        None
    } else {
        Some(acc as i128)
    }
}

/// The commands of the first language version: a `'` before a command makes
/// it address the local bank.
pub open spec fn classic_table() -> Seq<(Seq<char>, Op)> {
    seq![
        ("!"@, Op::Increment),
        ("~"@, Op::Decrement),
        ("+"@, Op::Add),
        ("-"@, Op::Subtract),
        ("*"@, Op::Multiply),
        ("/"@, Op::Divide),
        ("`"@, Op::Random),
        (">"@, Op::MoveRight),
        ("<"@, Op::MoveLeft),
        ("_"@, Op::Floor),
        ("&"@, Op::Ceil),
        ("^"@, Op::SwitchTape),
        ("["@, Op::WhileStart),
        ("[@"@, Op::DoWhileStart),
        ("]"@, Op::LoopEnd),
        ("@]"@, Op::LoopEnd),
        ("$."@, Op::ReadNumber),
        ("$,"@, Op::ReadChar),
        ("\\."@, Op::WriteNumber),
        ("\\,"@, Op::WriteChar),
        ("?="@, Op::BreakEqual),
        ("?>"@, Op::BreakGreater),
        ("?<"@, Op::BreakLess),
        (";"@, Op::Swap),
    ]
}

/// The commands of the latest language version, where `'` toggles which bank
/// the commands address.
pub open spec fn modern_table() -> Seq<(Seq<char>, Op)> {
    seq![
        ("!"@, Op::Increment),
        ("~"@, Op::Decrement),
        ("+"@, Op::Add),
        ("-"@, Op::Subtract),
        ("*"@, Op::Multiply),
        ("/"@, Op::Divide),
        ("'"@, Op::ToggleLocal),
        ("`"@, Op::Random),
        (">"@, Op::MoveRight),
        ("<"@, Op::MoveLeft),
        ("_"@, Op::Floor),
        ("&"@, Op::Ceil),
        ("^"@, Op::SwitchTape),
        ("$,"@, Op::ReadNumber),
        ("?$,"@, Op::ReadNumberOrBreak),
        (","@, Op::ReadChar),
        ("$."@, Op::WriteNumber),
        ("."@, Op::WriteChar),
        ("["@, Op::WhileStart),
        ("]"@, Op::LoopEnd),
        ("@]"@, Op::LoopEnd),
        ("[@"@, Op::DoWhileStart),
        ("?="@, Op::BreakEqual),
        ("?>"@, Op::BreakGreater),
        ("?<"@, Op::BreakLess),
        ("??"@, Op::QueryPointer),
        (";"@, Op::Swap),
    ]
}

proof fn lemma_lookup_prefix(table: Seq<(Seq<char>, Op)>, i: int, base: Seq<char>)
    requires
        0 <= i <= table.len(),
        lookup_spec(table.subrange(0, i), base) is Some,
    ensures
        lookup_spec(table, base) == lookup_spec(table.subrange(0, i), base),
    decreases table.len() - i,
{
    if i < table.len() {
        assert(table.drop_last().subrange(0, i) =~= table.subrange(0, i));
        lemma_lookup_prefix(table.drop_last(), i, base);
    } else {
        assert(table.subrange(0, i) =~= table);
    }
}

/// A language version's command texts, and how locality is expressed.
pub struct Grammar {
    prefixed_locality: bool,
    table: Vec<(String, Op)>,
}

impl Grammar {
    /// Whether a `'` before a command marks it as local.
    pub closed spec fn prefixed(&self) -> bool {
        self.prefixed_locality
    }

    /// The table from command text to operation.
    pub closed spec fn table_spec(&self) -> Seq<(Seq<char>, Op)> {
        self.table@.map_values(|e: (String, Op)| (e.0@, e.1))
    }

    /// A grammar from its table; `prefixed_locality` says whether a `'`
    /// before a command marks it as local.
    pub fn new(prefixed_locality: bool, table: Vec<(String, Op)>) -> (r: Grammar)
        ensures
            r.prefixed() == prefixed_locality,
            r.table_spec() == table@.map_values(|e: (String, Op)| (e.0@, e.1)),
    {
        Grammar { prefixed_locality, table }
    }

    /// The grammar of the first language version.
    pub fn classic() -> (r: Grammar)
        ensures
            r.prefixed(),
            r.table_spec() == classic_table(),
    {
        let mut table: Vec<(String, Op)> = Vec::new();
        table.push((String::from_str("!"), Op::Increment));
        table.push((String::from_str("~"), Op::Decrement));
        table.push((String::from_str("+"), Op::Add));
        table.push((String::from_str("-"), Op::Subtract));
        table.push((String::from_str("*"), Op::Multiply));
        table.push((String::from_str("/"), Op::Divide));
        table.push((String::from_str("`"), Op::Random));
        table.push((String::from_str(">"), Op::MoveRight));
        table.push((String::from_str("<"), Op::MoveLeft));
        table.push((String::from_str("_"), Op::Floor));
        table.push((String::from_str("&"), Op::Ceil));
        table.push((String::from_str("^"), Op::SwitchTape));
        table.push((String::from_str("["), Op::WhileStart));
        table.push((String::from_str("[@"), Op::DoWhileStart));
        table.push((String::from_str("]"), Op::LoopEnd));
        table.push((String::from_str("@]"), Op::LoopEnd));
        table.push((String::from_str("$."), Op::ReadNumber));
        table.push((String::from_str("$,"), Op::ReadChar));
        table.push((String::from_str("\\."), Op::WriteNumber));
        table.push((String::from_str("\\,"), Op::WriteChar));
        table.push((String::from_str("?="), Op::BreakEqual));
        table.push((String::from_str("?>"), Op::BreakGreater));
        table.push((String::from_str("?<"), Op::BreakLess));
        table.push((String::from_str(";"), Op::Swap));
        let r = Grammar { prefixed_locality: true, table };
        assert(r.table_spec() =~= classic_table());
        r
    }

    /// The grammar of the latest language version.
    pub fn modern() -> (r: Grammar)
        ensures
            !r.prefixed(),
            r.table_spec() == modern_table(),
    {
        let mut table: Vec<(String, Op)> = Vec::new();
        table.push((String::from_str("!"), Op::Increment));
        table.push((String::from_str("~"), Op::Decrement));
        table.push((String::from_str("+"), Op::Add));
        table.push((String::from_str("-"), Op::Subtract));
        table.push((String::from_str("*"), Op::Multiply));
        table.push((String::from_str("/"), Op::Divide));
        table.push((String::from_str("'"), Op::ToggleLocal));
        table.push((String::from_str("`"), Op::Random));
        table.push((String::from_str(">"), Op::MoveRight));
        table.push((String::from_str("<"), Op::MoveLeft));
        table.push((String::from_str("_"), Op::Floor));
        table.push((String::from_str("&"), Op::Ceil));
        table.push((String::from_str("^"), Op::SwitchTape));
        table.push((String::from_str("$,"), Op::ReadNumber));
        table.push((String::from_str("?$,"), Op::ReadNumberOrBreak));
        table.push((String::from_str(","), Op::ReadChar));
        table.push((String::from_str("$."), Op::WriteNumber));
        table.push((String::from_str("."), Op::WriteChar));
        table.push((String::from_str("["), Op::WhileStart));
        table.push((String::from_str("]"), Op::LoopEnd));
        table.push((String::from_str("@]"), Op::LoopEnd));
        table.push((String::from_str("[@"), Op::DoWhileStart));
        table.push((String::from_str("?="), Op::BreakEqual));
        table.push((String::from_str("?>"), Op::BreakGreater));
        table.push((String::from_str("?<"), Op::BreakLess));
        table.push((String::from_str("??"), Op::QueryPointer));
        table.push((String::from_str(";"), Op::Swap));
        let r = Grammar { prefixed_locality: false, table };
        assert(r.table_spec() =~= modern_table());
        r
    }

    /// Whether a `'` before a command marks it as local.
    pub fn prefixed_locality(&self) -> (r: bool)
        ensures
            r == self.prefixed(),
    {
        self.prefixed_locality
    }

    /// The operation of the command text `base`.
    pub fn lookup(&self, base: &str) -> (r: Option<Op>)
        ensures
            r == lookup_spec(self.table_spec(), base@),
    {
        let ghost t = self.table_spec();
        let n = self.table.len();
        let mut i: usize = 0;
        assert(t.subrange(0, 0) =~= Seq::<(Seq<char>, Op)>::empty());
        while i < n
            invariant
                n == self.table@.len(),
                t == self.table_spec(),
                i <= n,
                lookup_spec(t.subrange(0, i as int), base@) is None,
            decreases n - i,
        {
            assert(t.subrange(0, i + 1).drop_last() =~= t.subrange(0, i as int));
            if same_text(self.table[i].0.as_str(), base) {
                proof {
                    lemma_lookup_prefix(t, i + 1, base@);
                }
                return Some(self.table[i].1);
            }
            i = i + 1;
        }
        assert(t.subrange(0, n as int) =~= t);
        None
    }

    /// What the command text `text` means under this grammar.
    pub fn decode(&self, text: &str) -> (r: Instr)
        ensures
            r == decode_spec(self.prefixed(), self.table_spec(), text@),
    {
        let n = text.unicode_len();
        let local = self.prefixed_locality && n > 0 && text.get_char(0) == '\'';
        let rest = if local {
            text.substring_char(1, n)
        } else {
            text.substring_char(0, n)
        };
        assert(local ==> rest@ =~= text@.drop_first());
        assert(!local ==> rest@ =~= text@);
        assert(strip_local(self.prefixed(), text@) == (local, rest@));
        let m = rest.unicode_len();
        let bars = bars_of(rest);
        proof {
            lemma_bar_positions_bounds(rest@);
        }
        if bars.len() == 2 {
            let count_text = rest.substring_char(bars[0] + 1, bars[1]);
            let base = rest.substring_char(bars[1] + 1, m);
            let count = if count_text.unicode_len() == 0 {
                Count::FromCell
            } else {
                match parse_int(count_text) {
                    Some(v) => Count::Fixed(v),
                    None => Count::Fixed(1),
                }
            };
            Instr { local, count, op: self.lookup(base) }
        } else {
            Instr { local, count: Count::Fixed(1), op: self.lookup(rest) }
        }
    }
}

} // verus!
