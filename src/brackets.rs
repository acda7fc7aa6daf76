//! Pairs every loop-opening command with its closing command, separately for
//! each of the four loop categories.
use std::collections::HashMap;
use vstd::prelude::*;

verus! {

/// The four categories of loop delimiters.
#[derive(Clone, Copy, Debug, PartialEq, Eq, Structural)]
pub enum LoopKind {
    /// `[` ... `]`
    While,
    /// `[@` ... `@]`
    DoWhile,
    /// `'[` ... `']`
    WhileLocal,
    /// `'[@` ... `'@]`
    DoWhileLocal,
}

/// The delimiter that the command text `t` is, if any: its category, and
/// whether it opens (`true`) or closes a loop.
pub open spec fn delimiter_of(t: Seq<char>) -> Option<(LoopKind, bool)> {
    if t == seq!['['] {
        Some((LoopKind::While, true))
    } else if t == seq![']'] {
        Some((LoopKind::While, false))
    } else if t == seq!['[', '@'] {
        Some((LoopKind::DoWhile, true))
    } else if t == seq!['@', ']'] {
        Some((LoopKind::DoWhile, false))
    } else if t == seq!['\'', '['] {
        Some((LoopKind::WhileLocal, true))
    } else if t == seq!['\'', ']'] {
        Some((LoopKind::WhileLocal, false))
    } else if t == seq!['\'', '[', '@'] {
        Some((LoopKind::DoWhileLocal, true))
    } else if t == seq!['\'', '@', ']'] {
        Some((LoopKind::DoWhileLocal, false))
    } else {
        None
    }
}

/// The texts of a command sequence.
pub open spec fn texts(code: Seq<String>) -> Seq<Seq<char>> {
    code.map_values(|s: String| s@)
}

/// How command `j` changes the nesting depth of category `k`: `1` for its
/// opening, `-1` for its closing, `0` for anything else.
pub open spec fn weight(cmds: Seq<Seq<char>>, k: LoopKind, j: int) -> int {
    match delimiter_of(cmds[j]) {
        Some((c, open)) => if c == k {
            if open {
                1
            } else {
                -1
            }
        } else {
            0
        },
        None => 0,
    }
}

/// Openings minus closings of category `k` among the commands `i .. j`.
pub open spec fn balance(cmds: Seq<Seq<char>>, k: LoopKind, i: int, j: int) -> int
    decreases j - i,
{
    if j <= i {
        0
    } else {
        balance(cmds, k, i, j - 1) + weight(cmds, k, j - 1)
    }
}

/// The category that command `i` opens, if it is an opening delimiter.
pub open spec fn opening_kind(cmds: Seq<Seq<char>>, i: int) -> Option<LoopKind> {
    if 0 <= i < cmds.len() {
        match delimiter_of(cmds[i]) {
            Some((k, true)) => Some(k),
            _ => None,
        }
    } else {
        None
    }
}

/// Command `i` opens a loop that none of the commands before `p` closes.
pub open spec fn still_open(cmds: Seq<Seq<char>>, i: int, p: int) -> bool {
    &&& opening_kind(cmds, i) is Some
    &&& i < p
    &&& forall|m: int| i <= m < p ==> #[trigger] balance(cmds, opening_kind(cmds, i)->0, i, m + 1) > 0
}

/// Command `j` is the closing delimiter that matches the opening `i`: the
/// first command at which the depth of `i`'s category, counted from `i`,
/// comes back to zero.
pub open spec fn closes(cmds: Seq<Seq<char>>, i: int, j: int) -> bool {
    &&& j < cmds.len()
    &&& still_open(cmds, i, j)
    &&& balance(cmds, opening_kind(cmds, i)->0, i, j + 1) == 0
}

/// `a` and `b` are a matched pair, seen from either end, whose opening
/// belongs to `kind` (to any category when `kind` is `None`), and both lie
/// before `p`.
pub open spec fn paired_before(cmds: Seq<Seq<char>>, a: int, b: int, kind: Option<LoopKind>, p: int) -> bool {
    ||| (closes(cmds, a, b) && b < p && (kind is None || opening_kind(cmds, a) == kind))
    ||| (closes(cmds, b, a) && a < p && (kind is None || opening_kind(cmds, b) == kind))
}

/// `m` holds exactly the matched pairs of `kind` that lie before `p`, in both
/// directions.
pub open spec fn holds_pairs(m: Map<usize, usize>, cmds: Seq<Seq<char>>, kind: Option<LoopKind>, p: int) -> bool {
    &&& forall|a: usize| #[trigger] m.contains_key(a) ==> paired_before(cmds, a as int, m[a] as int, kind, p)
    &&& forall|a: usize, b: usize| #[trigger] paired_before(cmds, a as int, b as int, kind, p) ==> m.contains_key(a) && m[a] == b
}

/// Counting over `i .. j` is counting over `i .. m` and then `m .. j`.
pub proof fn lemma_balance_split(cmds: Seq<Seq<char>>, k: LoopKind, i: int, m: int, j: int)
    requires
        i <= m <= j,
    ensures
        balance(cmds, k, i, j) == balance(cmds, k, i, m) + balance(cmds, k, m, j),
    decreases j - m,
{
    if j > m {
        lemma_balance_split(cmds, k, i, m, j - 1);
    }
}

proof fn lemma_balance_bounds(cmds: Seq<Seq<char>>, k: LoopKind, i: int, j: int)
    requires
        i <= j,
    ensures
        i - j <= balance(cmds, k, i, j) <= j - i,
    decreases j - i,
{
    if j > i {
        lemma_balance_bounds(cmds, k, i, j - 1);
    }
}

/// No command closes two openings.
proof fn lemma_closing_unique(cmds: Seq<Seq<char>>, i1: int, i2: int, j: int)
    requires
        closes(cmds, i1, j),
        closes(cmds, i2, j),
    ensures
        i1 == i2,
{
    if i1 != i2 {
        let (a, b) = if i1 < i2 {
            (i1, i2)
        } else {
            (i2, i1)
        };
        let k = opening_kind(cmds, a)->0;
        let kb = opening_kind(cmds, b)->0;
        assert(balance(cmds, kb, b, b + 1) == balance(cmds, kb, b, b) + weight(cmds, kb, b));
        assert(balance(cmds, k, b, j + 1) == 0) by {
            // the depth of b's category went from 1 back to 0 at j, so cmds[j]
            // closes that category; it closes a's too, hence they agree
            lemma_weight_at_close(cmds, b, j);
            lemma_weight_at_close(cmds, a, j);
        }
        assert(balance(cmds, k, a, b) > 0) by {
            assert(balance(cmds, k, a, (b - 1) + 1) > 0);
        }
        lemma_balance_split(cmds, k, a, b, j + 1);
    }
}

/// At the command that closes `i`, the depth of `i`'s category falls by one.
proof fn lemma_weight_at_close(cmds: Seq<Seq<char>>, i: int, j: int)
    requires
        closes(cmds, i, j),
    ensures
        weight(cmds, opening_kind(cmds, i)->0, j) == -1,
        delimiter_of(cmds[j]) == Some((opening_kind(cmds, i)->0, false)),
{
    let k = opening_kind(cmds, i)->0;
    assert(balance(cmds, k, i, (j - 1) + 1) > 0);
    assert(balance(cmds, k, i, j + 1) == balance(cmds, k, i, j) + weight(cmds, k, j));
}

/// No opening is closed twice.
pub proof fn lemma_partner_unique(cmds: Seq<Seq<char>>, i: int, j1: int, j2: int)
    requires
        closes(cmds, i, j1),
        closes(cmds, i, j2),
    ensures
        j1 == j2,
{
    let k = opening_kind(cmds, i)->0;
    if j1 < j2 {
        assert(balance(cmds, k, i, j1 + 1) > 0);
    } else if j2 < j1 {
        assert(balance(cmds, k, i, j2 + 1) > 0);
    }
}

/// A closing delimiter is never an opening one.
proof fn lemma_close_not_opening(cmds: Seq<Seq<char>>, i: int, j: int)
    requires
        closes(cmds, i, j),
    ensures
        opening_kind(cmds, j) is None,
{
    lemma_weight_at_close(cmds, i, j);
}

/// Classifies a command text as a loop delimiter.
pub fn delimiter(t: &str) -> (r: Option<(LoopKind, bool)>)
    ensures
        r == delimiter_of(t@),
{
    let n = t.unicode_len();
    if n == 0 || n > 3 {
        return None;
    }
    let c0 = t.get_char(0);
    if n == 1 {
        if c0 == '[' {
            assert(t@ =~= seq!['[']);
            return Some((LoopKind::While, true));
        } else if c0 == ']' {
            assert(t@ =~= seq![']']);
            return Some((LoopKind::While, false));
        }
        return None;
    }
    let c1 = t.get_char(1);
    if n == 2 {
        if c0 == '[' && c1 == '@' {
            assert(t@ =~= seq!['[', '@']);
            return Some((LoopKind::DoWhile, true));
        } else if c0 == '@' && c1 == ']' {
            assert(t@ =~= seq!['@', ']']);
            return Some((LoopKind::DoWhile, false));
        } else if c0 == '\'' && c1 == '[' {
            assert(t@ =~= seq!['\'', '[']);
            return Some((LoopKind::WhileLocal, true));
        } else if c0 == '\'' && c1 == ']' {
            assert(t@ =~= seq!['\'', ']']);
            return Some((LoopKind::WhileLocal, false));
        }
        return None;
    }
    let c2 = t.get_char(2);
    if c0 == '\'' && c1 == '[' && c2 == '@' {
        assert(t@ =~= seq!['\'', '[', '@']);
        Some((LoopKind::DoWhileLocal, true))
    } else if c0 == '\'' && c1 == '@' && c2 == ']' {
        assert(t@ =~= seq!['\'', '@', ']']);
        Some((LoopKind::DoWhileLocal, false))
    } else {
        None
    }
}

/// Matches loop delimiters: one map of matched pairs per category, and the
/// union of the four as a jump table.
pub struct BracketsMatcher {
    while_pairs: HashMap<usize, usize>,
    do_while_pairs: HashMap<usize, usize>,
    while_local_pairs: HashMap<usize, usize>,
    do_while_local_pairs: HashMap<usize, usize>,
    jumps: HashMap<usize, usize>,
    /// Openings not closed yet: category, position and current depth.
    brackets_mem: Vec<(LoopKind, usize, usize)>,
}

impl BracketsMatcher {
    /// The pairs recorded for category `k`.
    pub closed spec fn pairs_of(&self, k: LoopKind) -> Map<usize, usize> {
        match k {
            LoopKind::While => self.while_pairs@,
            LoopKind::DoWhile => self.do_while_pairs@,
            LoopKind::WhileLocal => self.while_local_pairs@,
            LoopKind::DoWhileLocal => self.do_while_local_pairs@,
        }
    }

    /// The pairs of all categories.
    pub closed spec fn jumps_spec(&self) -> Map<usize, usize> {
        self.jumps@
    }

    /// The openings that the last matching left without a partner.
    pub closed spec fn dangling_spec(&self) -> Seq<usize> {
        self.brackets_mem@.map_values(|e: (LoopKind, usize, usize)| e.1)
    }

    /// A matcher that has matched nothing.
    pub fn new() -> (r: Self)
        ensures
            forall|k: LoopKind| r.pairs_of(k) == Map::<usize, usize>::empty(),
            r.jumps_spec() == Map::<usize, usize>::empty(),
            r.dangling_spec().len() == 0,
    {
        let r = BracketsMatcher {
            while_pairs: HashMap::new(),
            do_while_pairs: HashMap::new(),
            while_local_pairs: HashMap::new(),
            do_while_local_pairs: HashMap::new(),
            jumps: HashMap::new(),
            brackets_mem: Vec::new(),
        };
        assert(r.dangling_spec() =~= Seq::<usize>::empty());
        r
    }

    /// The matched pairs of category `k`, in both directions.
    pub fn pairs(&self, k: LoopKind) -> (r: &HashMap<usize, usize>)
        ensures
            r@ == self.pairs_of(k),
    {
        match k {
            LoopKind::While => &self.while_pairs,
            LoopKind::DoWhile => &self.do_while_pairs,
            LoopKind::WhileLocal => &self.while_local_pairs,
            LoopKind::DoWhileLocal => &self.do_while_local_pairs,
        }
    }

    /// The matched pairs of every category, in both directions.
    pub fn jumps(&self) -> (r: &HashMap<usize, usize>)
        ensures
            r@ == self.jumps_spec(),
    {
        &self.jumps
    }

    /// The jump table, taken out of the matcher.
    pub fn into_jumps(self) -> (r: HashMap<usize, usize>)
        ensures
            r@ == self.jumps_spec(),
    {
        self.jumps
    }

    /// The first opening that found no closing delimiter, if any.
    pub fn dangling(&self) -> (r: Option<usize>)
        ensures
            r == (if self.dangling_spec().len() == 0 {
                None
            } else {
                Some(self.dangling_spec()[0])
            }),
    {
        if self.brackets_mem.len() == 0 {
            None
        } else {
            Some(self.brackets_mem[0].1)
        }
    }

    /// How `delimiter` changes the depth of an open loop of category `open`:
    /// up for the same opening, down for its closing, not for other
    /// categories.
    fn num_equals(open: LoopKind, delimiter: (LoopKind, bool)) -> (r: i8)
        ensures
            r == (if delimiter.0 != open {
                0
            } else if delimiter.1 {
                1
            } else {
                -1int
            }),
    {
        if delimiter.0 != open {
            0
        } else if delimiter.1 {
            1
        } else {
            -1
        }
    }

    /// Records the pair `a`, `b` in both directions, in the map of `k` and
    /// in the jump table.
    fn record(&mut self, k: LoopKind, a: usize, b: usize)
        ensures
            forall|c: LoopKind| #[trigger] final(self).pairs_of(c) == if c == k {
                old(self).pairs_of(c).insert(a, b).insert(b, a)
            } else {
                old(self).pairs_of(c)
            },
            final(self).jumps_spec() == old(self).jumps_spec().insert(a, b).insert(b, a),
            final(self).brackets_mem == old(self).brackets_mem,
    {
        match k {
            LoopKind::While => {
                self.while_pairs.insert(a, b);
                self.while_pairs.insert(b, a);
            },
            LoopKind::DoWhile => {
                self.do_while_pairs.insert(a, b);
                self.do_while_pairs.insert(b, a);
            },
            LoopKind::WhileLocal => {
                self.while_local_pairs.insert(a, b);
                self.while_local_pairs.insert(b, a);
            },
            LoopKind::DoWhileLocal => {
                self.do_while_local_pairs.insert(a, b);
                self.do_while_local_pairs.insert(b, a);
            },
        }
        self.jumps.insert(a, b);
        self.jumps.insert(b, a);
    }

    /// What the matching loop keeps true once the commands before `p` are
    /// processed.
    closed spec fn matched_before(&self, cmds: Seq<Seq<char>>, p: int) -> bool {
        &&& forall|k: LoopKind| holds_pairs(#[trigger] self.pairs_of(k), cmds, Some(k), p)
        &&& holds_pairs(self.jumps_spec(), cmds, None, p)
        &&& forall|t: int| 0 <= t < self.brackets_mem@.len() ==> {
            let e = #[trigger] self.brackets_mem@[t];
            &&& still_open(cmds, e.1 as int, p)
            &&& opening_kind(cmds, e.1 as int) == Some(e.0)
            &&& e.2 as int == balance(cmds, e.0, e.1 as int, p)
        }
        &&& forall|i: int| still_open(cmds, i, p)
            ==> exists|t: int| 0 <= t < self.brackets_mem@.len() && #[trigger] self.brackets_mem@[t].1 == i
        &&& forall|t1: int, t2: int| 0 <= t1 < t2 < self.brackets_mem@.len()
            ==> #[trigger] self.brackets_mem@[t1].1 < #[trigger] self.brackets_mem@[t2].1
    }

    /// A command that is no delimiter changes nothing but the position.
    proof fn lemma_advance_quiet(&self, cmds: Seq<Seq<char>>, p: int)
        requires
            0 <= p < cmds.len(),
            delimiter_of(cmds[p]) is None,
            self.matched_before(cmds, p),
        ensures
            self.matched_before(cmds, p + 1),
    {
        assert forall|i: int, k: LoopKind| i <= p implies #[trigger] balance(cmds, k, i, p + 1)
            == balance(cmds, k, i, p) by {
            assert(weight(cmds, k, p) == 0);
        }
        assert forall|a: int, b: int| closes(cmds, a, b) implies b != p by {
            if b == p {
                lemma_weight_at_close(cmds, a, b);
            }
        }
        assert forall|i: int| #[trigger] still_open(cmds, i, p + 1) implies exists|t: int|
            0 <= t < self.brackets_mem@.len() && #[trigger] self.brackets_mem@[t].1 == i by {
            assert(i != p);
            assert(still_open(cmds, i, p));
        }
        assert forall|i: int| still_open(cmds, i, p) implies still_open(cmds, i, p + 1) by {
            let k = opening_kind(cmds, i)->0;
            assert(balance(cmds, k, i, (p - 1) + 1) > 0);
        }
        assert forall|k: Option<LoopKind>, a: int, b: int|
            #[trigger] paired_before(cmds, a, b, k, p + 1) <==> paired_before(cmds, a, b, k, p) by {}
        assert forall|t: int| 0 <= t < self.brackets_mem@.len() implies {
            let e = #[trigger] self.brackets_mem@[t];
            &&& still_open(cmds, e.1 as int, p + 1)
            &&& e.2 as int == balance(cmds, e.0, e.1 as int, p + 1)
        } by {
            let e = self.brackets_mem@[t];
            assert(still_open(cmds, e.1 as int, p));
        }
    }

    /// Processes the delimiter `d` at position `p`: every open loop's depth
    /// follows it, the one loop it closes (if any) is recorded, and a new
    /// opening joins the open loops.
    fn step_delimiter(&mut self, Ghost(cmds): Ghost<Seq<Seq<char>>>, p: usize, d: (LoopKind, bool))
        requires
            p < cmds.len() <= usize::MAX,
            delimiter_of(cmds[p as int]) == Some(d),
            old(self).matched_before(cmds, p as int),
        ensures
            final(self).matched_before(cmds, p + 1),
    {
        let ghost base = *self;
        let ghost old_mem = self.brackets_mem@;
        let mut kept: Vec<(LoopKind, usize, usize)> = Vec::new();
        let mut resolved: Option<usize> = None;
        let len = self.brackets_mem.len();
        let mut t: usize = 0;
        proof {
            assert forall|i: int, k: LoopKind| i <= p implies #[trigger] balance(cmds, k, i, p + 1)
                == balance(cmds, k, i, p as int) + weight(cmds, k, p as int) by {}
        }
        while t < len
            invariant
                len == old_mem.len(),
                t <= len,
                self.brackets_mem@ == old_mem,
                base.matched_before(cmds, p as int),
                base.brackets_mem@ == old_mem,
                p < cmds.len() <= usize::MAX,
                delimiter_of(cmds[p as int]) == Some(d),
                forall|i: int, k: LoopKind| i <= p ==> #[trigger] balance(cmds, k, i, p + 1)
                    == balance(cmds, k, i, p as int) + weight(cmds, k, p as int),
                forall|s: int| 0 <= s < kept@.len() ==> {
                    let e = #[trigger] kept@[s];
                    &&& still_open(cmds, e.1 as int, p + 1)
                    &&& opening_kind(cmds, e.1 as int) == Some(e.0)
                    &&& e.2 as int == balance(cmds, e.0, e.1 as int, p + 1)
                },
                t == 0 ==> kept@.len() == 0,
                t > 0 ==> forall|s: int| 0 <= s < kept@.len() ==> #[trigger] kept@[s].1 <= old_mem[t - 1].1,
                forall|s1: int, s2: int| 0 <= s1 < s2 < kept@.len() ==> #[trigger] kept@[s1].1 < #[trigger] kept@[s2].1,
                forall|u: int| 0 <= u < t && still_open(cmds, #[trigger] old_mem[u].1 as int, p + 1)
                    ==> exists|s: int| 0 <= s < kept@.len() && #[trigger] kept@[s].1 == old_mem[u].1,
                forall|u: int| 0 <= u < t && closes(cmds, #[trigger] old_mem[u].1 as int, p as int)
                    ==> resolved == Some(old_mem[u].1),
                resolved matches Some(i) ==> closes(cmds, i as int, p as int),
                resolved is None ==> (forall|k: LoopKind| #[trigger] self.pairs_of(k) == base.pairs_of(k))
                    && self.jumps_spec() == base.jumps_spec(),
                resolved matches Some(i) ==> (forall|k: LoopKind| #[trigger] self.pairs_of(k) == if Some(k)
                    == opening_kind(cmds, i as int) {
                    base.pairs_of(k).insert(i, p).insert(p, i)
                } else {
                    base.pairs_of(k)
                }) && self.jumps_spec() == base.jumps_spec().insert(i, p).insert(p, i),
            decreases len - t,
        {
            let e = self.brackets_mem[t];
            proof {
                assert(still_open(cmds, e.1 as int, p as int));
                assert(balance(cmds, e.0, e.1 as int, (p - 1) + 1) > 0);
                lemma_balance_bounds(cmds, e.0, e.1 as int, p as int);
            }
            let change = Self::num_equals(e.0, d);
            let depth = if change > 0 {
                e.2 + 1
            } else if change < 0 {
                e.2 - 1
            } else {
                e.2
            };
            assert(depth == balance(cmds, e.0, e.1 as int, p + 1));
            if depth == 0 && d.0 == e.0 && !d.1 {
                proof {
                    assert(closes(cmds, e.1 as int, p as int)) by {
                        assert forall|m: int| e.1 <= m < p implies #[trigger] balance(cmds, e.0, e.1 as int, m + 1) > 0 by {
                            assert(still_open(cmds, e.1 as int, p as int));
                        }
                    }
                    if resolved is Some {
                        lemma_closing_unique(cmds, resolved->0 as int, e.1 as int, p as int);
                    }
                    assert forall|u: int| 0 <= u < t && closes(cmds, #[trigger] old_mem[u].1 as int, p as int)
                        implies false by {
                        lemma_closing_unique(cmds, old_mem[u].1 as int, e.1 as int, p as int);
                    }
                }
                self.record(e.0, e.1, p);
                resolved = Some(e.1);
                proof {
                    assert(balance(cmds, e.0, e.1 as int, p + 1) == 0);
                    assert(!still_open(cmds, e.1 as int, p + 1));
                }
            } else {
                proof {
                    if depth > 0 {
                        assert forall|m: int| e.1 <= m < p + 1 implies #[trigger] balance(cmds, e.0, e.1 as int, m + 1) > 0 by {
                            assert(still_open(cmds, e.1 as int, p as int));
                        }
                    }
                    if closes(cmds, e.1 as int, p as int) {
                        lemma_weight_at_close(cmds, e.1 as int, p as int);
                    }
                }
                if depth > 0 {
                    let ghost before = kept@;
                    kept.push((e.0, e.1, depth));
                    proof {
                        assert(kept@[kept@.len() - 1].1 == old_mem[t as int].1);
                        assert forall|u: int| 0 <= u < t + 1 && still_open(cmds, #[trigger] old_mem[u].1 as int, p + 1)
                            implies exists|s: int| 0 <= s < kept@.len() && #[trigger] kept@[s].1 == old_mem[u].1 by {
                            if u < t {
                                let s = choose|s: int| 0 <= s < before.len() && #[trigger] before[s].1 == old_mem[u].1;
                                assert(kept@[s] == before[s]);
                            } else {
                                assert(kept@[kept@.len() - 1].1 == old_mem[u].1);
                            }
                        }
                    }
                } else {
                    proof {
                        assert(balance(cmds, e.0, e.1 as int, p + 1) == 0);
                        assert(!still_open(cmds, e.1 as int, p + 1));
                    }
                }
            }
            t = t + 1;
        }
        proof {
            // every opening still open at p is one of the recorded open loops
            assert forall|a: int| closes(cmds, a, p as int) implies resolved == Some(a as usize) by {
                let u = choose|u: int| 0 <= u < old_mem.len() && #[trigger] old_mem[u].1 == a;
                assert(old_mem[u].1 == a);
            }
        }
        let ghost looped = *self;
        self.brackets_mem = kept;
        proof {
            assert forall|k: LoopKind| #[trigger] self.pairs_of(k) == looped.pairs_of(k) by {}
            assert(self.jumps_spec() == looped.jumps_spec());
        }
        if d.1 {
            proof {
                assert forall|s: int| 0 <= s < self.brackets_mem@.len() implies #[trigger] self.brackets_mem@[s].1 < p by {
                    let e = self.brackets_mem@[s];
                    assert(still_open(cmds, e.1 as int, p + 1));
                    if e.1 == p {
                        assert(still_open(cmds, p as int, p as int));
                    }
                    assert(still_open(cmds, e.1 as int, p + 1));
                }
                assert(balance(cmds, d.0, p as int, p as int) == 0);
                assert(balance(cmds, d.0, p as int, p + 1) == 1);
            }
            self.brackets_mem.push((d.0, p, 1));
        }
        proof {
            let q = p + 1;
            // open loops: those kept, and a new opening
            assert forall|i: int| #[trigger] still_open(cmds, i, q) implies exists|s: int|
                0 <= s < self.brackets_mem@.len() && #[trigger] self.brackets_mem@[s].1 == i by {
                if i == p {
                    let s = self.brackets_mem@.len() - 1;
                    assert(self.brackets_mem@[s].1 == i);
                } else {
                    let k = opening_kind(cmds, i)->0;
                    assert(still_open(cmds, i, p as int)) by {
                        assert forall|m: int| i <= m < p implies #[trigger] balance(cmds, k, i, m + 1) > 0 by {
                            assert(i <= m < q);
                        }
                    }
                    let u = choose|u: int| 0 <= u < old_mem.len() && #[trigger] old_mem[u].1 == i;
                    assert(still_open(cmds, old_mem[u].1 as int, q));
                    let s = choose|s: int| 0 <= s < kept@.len() && #[trigger] kept@[s].1 == old_mem[u].1;
                    assert(self.brackets_mem@[s].1 == i);
                }
            }
            // a pair recorded before p is untouched by the one closed at p
            assert forall|a: int, b: int| #[trigger] closes(cmds, a, b) && b < p implies
                resolved != Some(a as usize) && resolved != Some(b as usize) by {
                if resolved == Some(a as usize) {
                    lemma_partner_unique(cmds, a, b, p as int);
                }
                if resolved == Some(b as usize) {
                    lemma_close_not_opening(cmds, a, b);
                }
            }
            assert forall|a: int, b: int| #[trigger] closes(cmds, a, b) implies a < b && b != p || resolved == Some(
                a as usize,
            ) by {}
            assert forall|kind: Option<LoopKind>, a: int, b: int| #[trigger] paired_before(cmds, a, b, kind, q)
                && !paired_before(cmds, a, b, kind, p as int) implies resolved is Some && ((a == resolved->0 && b
                == p) || (b == resolved->0 && a == p)) && (kind is None || opening_kind(cmds, resolved->0 as int)
                == kind) by {}
            assert forall|kind: Option<LoopKind>, a: int, b: int| #[trigger] paired_before(cmds, a, b, kind, p as int)
                implies paired_before(cmds, a, b, kind, q) && resolved != Some(a as usize) && a != p by {
                if closes(cmds, a, b) && b < p {
                } else {
                    assert(closes(cmds, b, a) && a < p);
                    if resolved == Some(a as usize) {
                        lemma_close_not_opening(cmds, b, a);
                    }
                }
            }
            assert forall|k: LoopKind| holds_pairs(#[trigger] self.pairs_of(k), cmds, Some(k), q) by {
                let m = self.pairs_of(k);
                let bm = base.pairs_of(k);
                assert(m == looped.pairs_of(k));
                assert(holds_pairs(bm, cmds, Some(k), p as int));
                assert forall|a: usize| #[trigger] m.contains_key(a) implies paired_before(cmds, a as int, m[a] as int, Some(k), q) by {
                    if resolved is Some && Some(k) == opening_kind(cmds, resolved->0 as int) && (a == p || a == resolved->0) {
                    } else {
                        assert(bm.contains_key(a));
                    }
                }
                assert forall|a: usize, b: usize| #[trigger] paired_before(cmds, a as int, b as int, Some(k), q)
                    implies m.contains_key(a) && m[a] == b by {
                    if !paired_before(cmds, a as int, b as int, Some(k), p as int) {
                    } else {
                        assert(bm.contains_key(a) && bm[a] == b);
                        if resolved is Some && Some(k) == opening_kind(cmds, resolved->0 as int) {
                            assert(a != resolved->0);
                        }
                    }
                }
            }
            let jm = self.jumps_spec();
            let bj = base.jumps_spec();
            assert(holds_pairs(bj, cmds, None, p as int));
            assert forall|a: usize| #[trigger] jm.contains_key(a) implies paired_before(cmds, a as int, jm[a] as int, None, q) by {
                if resolved is Some && (a == p || a == resolved->0) {
                } else {
                    assert(bj.contains_key(a));
                }
            }
            assert forall|a: usize, b: usize| #[trigger] paired_before(cmds, a as int, b as int, None, q)
                implies jm.contains_key(a) && jm[a] == b by {
                if !paired_before(cmds, a as int, b as int, None, p as int) {
                } else {
                    assert(bj.contains_key(a) && bj[a] == b);
                }
            }
        }
    }

    /// Matches the loop delimiters of `code`, replacing any earlier result.
    /// Afterwards each category's map holds exactly the matched pairs of that
    /// category in both directions, the jump table holds all of them, and the
    /// openings left without a partner are the dangling ones.
    pub fn match_brackets(&mut self, code: &[String])
        ensures
            forall|k: LoopKind| holds_pairs(#[trigger] final(self).pairs_of(k), texts(code@), Some(k), code@.len() as int),
            holds_pairs(final(self).jumps_spec(), texts(code@), None, code@.len() as int),
            forall|t: int| 0 <= t < final(self).dangling_spec().len()
                ==> still_open(texts(code@), #[trigger] final(self).dangling_spec()[t] as int, code@.len() as int),
            forall|i: int| still_open(texts(code@), i, code@.len() as int)
                ==> exists|t: int| 0 <= t < final(self).dangling_spec().len() && #[trigger] final(self).dangling_spec()[t] == i,
            forall|t1: int, t2: int| 0 <= t1 < t2 < final(self).dangling_spec().len()
                ==> #[trigger] final(self).dangling_spec()[t1] < #[trigger] final(self).dangling_spec()[t2],
    {
        *self = BracketsMatcher::new();
        let ghost cmds = texts(code@);
        let n = code.len();
        let mut p: usize = 0;
        while p < n
            invariant
                n == code@.len(),
                cmds == texts(code@),
                p <= n,
                self.matched_before(cmds, p as int),
            decreases n - p,
        {
            let delimiter = delimiter(code[p].as_str());
            assert(cmds[p as int] == code@[p as int]@);
            match delimiter {
                None => {
                    proof {
                        self.lemma_advance_quiet(cmds, p as int);
                    }
                },
                Some(d) => {
                    self.step_delimiter(Ghost(cmds), p, d);
                },
            }
            p = p + 1;
        }
        assert(self.dangling_spec().len() == self.brackets_mem@.len());
        assert forall|t: int| 0 <= t < self.dangling_spec().len() implies #[trigger] self.dangling_spec()[t]
            == self.brackets_mem@[t].1 by {}
        assert forall|i: int| still_open(cmds, i, n as int) implies exists|t: int|
            0 <= t < self.dangling_spec().len() && #[trigger] self.dangling_spec()[t] == i by {
            let t = choose|t: int| 0 <= t < self.brackets_mem@.len() && #[trigger] self.brackets_mem@[t].1 == i;
            assert(self.dangling_spec()[t] == i);
        }
    }
}

} // verus!
