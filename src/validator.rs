//! The validator: drains a scanner and checks that the program scans and ends
//! with a statement terminator.
use vstd::prelude::*;
use vstd::string::*;
use crate::scanner::{
    Lexer, ScanState, Scanned, SyntaxError, SyntaxErrorKind, drain, lemma_scan_next_progress, scan_next, scan_wf,
};

verus! {

/// A token text that holds the statement terminator `:`.
pub open spec fn has_terminator(t: Seq<char>) -> bool {
    t.contains(':')
}

/// What validating a scanner's text gives: the position and kind of the
/// first syntax error, or success.
pub open spec fn verdict(st: ScanState) -> Result<(), (int, int, SyntaxErrorKind)> {
    let (toks, err, fin) = drain(st);
    match err {
        Some((l, c)) => Err((l, c, SyntaxErrorKind::NoRuleMatches)),
        None => if toks.len() == 0 {
            Err((fin.line, fin.column, SyntaxErrorKind::TerminatorExpected))
        } else if !has_terminator(toks.last().0) {
            Err((toks.last().1, toks.last().2, SyntaxErrorKind::TerminatorExpected))
        } else {
            Ok(())
        },
    }
}

/// One token of a drain, and what follows it.
pub proof fn lemma_drain_step(st: ScanState)
    requires
        scan_wf(st),
    ensures
        scan_next(st).1 matches Scanned::Token(t, l, c) ==> drain(st) == ({
            let rest = drain(scan_next(st).0);
            (seq![(t, l, c)] + rest.0, rest.1, rest.2)
        }),
{
    lemma_scan_next_progress(st);
}

/// Whether the text `t` holds `:`.
pub fn contains_terminator(t: &str) -> (r: bool)
    ensures
        r == has_terminator(t@),
{
    let n = t.unicode_len();
    let mut i: usize = 0;
    while i < n
        invariant
            n == t@.len(),
            i <= n,
            forall|j: int| 0 <= j < i ==> t@[j] != ':',
        decreases n - i,
    {
        if t.get_char(i) == ':' {
            assert(t@[i as int] == ':');
            return true;
        }
        i = i + 1;
    }
    false
}

/// Checks that a program scans and ends with a statement terminator.
pub struct Validator {}

impl Validator {
    /// Drains `lexer`. Fails with the scanner's error, or, when the last
    /// token (or, without tokens, the end of the text) holds no `:`, with
    /// `TerminatorExpected` at that token's position.
    pub fn run(lexer: Lexer) -> (r: Result<u8, SyntaxError>)
        requires
            lexer.inv(),
        ensures
            match verdict(lexer@) {
                Ok(()) => r matches Ok(0u8),
                Err((l, c, k)) => r matches Err(e) && e.line == l && e.column == c && e.kind == k && e.source@
                    == lexer.source_spec(),
            },
    {
        let ghost source = lexer.source_spec();
        let ghost start = lexer@;
        let mut cursor = lexer;
        let ghost mut seen: Seq<(Seq<char>, int, int)> = Seq::empty();
        let mut last: Option<(bool, usize, usize)> = None;
        loop
            invariant
                cursor.inv(),
                cursor.source_spec() == source,
                start == lexer@,
                source == lexer.source_spec(),
                drain(start) == ({
                    let d = drain(cursor@);
                    (seen + d.0, d.1, d.2)
                }),
                seen.len() == 0 <==> last is None,
                last matches Some((term, l, c)) ==> term == has_terminator(seen.last().0) && l == seen.last().1
                    && c == seen.last().2,
            decreases cursor@.text.len() - cursor@.position,
        {
            let ghost before = cursor@;
            proof {
                cursor.lemma_inv_wf();
                lemma_drain_step(before);
                lemma_scan_next_progress(before);
            }
            match cursor.next() {
                Err(e) => {
                    assert(drain(before).0 == Seq::<(Seq<char>, int, int)>::empty());
                    assert(drain(before).1 == Some((e.line as int, e.column as int)));
                    assert(seen + Seq::<(Seq<char>, int, int)>::empty() =~= seen);
                    return Err(e);
                },
                Ok(None) => {
                    assert(drain(before).0 == Seq::<(Seq<char>, int, int)>::empty());
                    assert(drain(before).1 is None);
                    assert(drain(before).2 == cursor@);
                    assert(seen + Seq::<(Seq<char>, int, int)>::empty() =~= seen);
                    match last {
                        None => {
                            return Err(
                                SyntaxError {
                                    line: cursor.line(),
                                    column: cursor.column(),
                                    source: cursor.source(),
                                    kind: SyntaxErrorKind::TerminatorExpected,
                                },
                            );
                        },
                        Some((term, l, c)) => {
                            if term {
                                return Ok(0);
                            }
                            return Err(
                                SyntaxError {
                                    line: l,
                                    column: c,
                                    source: cursor.source(),
                                    kind: SyntaxErrorKind::TerminatorExpected,
                                },
                            );
                        },
                    }
                },
                Ok(Some(tok)) => {
                    let term = contains_terminator(tok.text.as_str());
                    proof {
                        let item = (tok.text@, tok.line as int, tok.column as int);
                        assert(seen.push(item) + drain(cursor@).0 =~= seen + (seq![item] + drain(cursor@).0));
                        seen = seen.push(item);
                    }
                    last = Some((term, tok.line, tok.column));
                },
            }
        }
    }
}

} // verus!
