//! The command extractor: drains a scanner and keeps the tokens that are
//! commands, dropping comments and statement terminators.
use vstd::prelude::*;
use vstd::string::*;
use crate::brackets::texts;
use crate::scanner::{Lexer, SyntaxError, SyntaxErrorKind, Token, drain, lemma_scan_next_progress};
use crate::validator::lemma_drain_step;

verus! {

/// A comment token: quoted text.
pub open spec fn is_comment(t: Seq<char>) -> bool {
    t.len() > 0 && t[0] == '"' && t.last() == '"'
}

/// A bare statement terminator: `:` followed by at most two line-break
/// characters.
pub open spec fn is_terminator(t: Seq<char>) -> bool {
    &&& 1 <= t.len() <= 3
    &&& t[0] == ':'
    &&& forall|i: int| 1 <= i < t.len() ==> #[trigger] t[i] == '\r' || t[i] == '\n'
}

/// A token that is a command: neither a comment nor a bare statement
/// terminator.
pub open spec fn is_command(t: Seq<char>) -> bool {
    !is_comment(t) && !is_terminator(t)
}

/// The command tokens of `toks`, in order.
pub open spec fn commands_of(toks: Seq<(Seq<char>, int, int)>) -> Seq<(Seq<char>, int, int)>
    decreases toks.len(),
{
    if toks.len() == 0 {
        Seq::empty()
    } else if is_command(toks.last().0) {
        commands_of(toks.drop_last()).push(toks.last())
    } else {
        commands_of(toks.drop_last())
    }
}

/// The texts of tokens.
pub open spec fn token_texts(toks: Seq<(Seq<char>, int, int)>) -> Seq<Seq<char>> {
    toks.map_values(|t: (Seq<char>, int, int)| t.0)
}

impl View for Token {
    type V = (Seq<char>, int, int);

    open spec fn view(&self) -> (Seq<char>, int, int) {
        (self.text@, self.line as int, self.column as int)
    }
}

/// The tokens' views.
pub open spec fn token_views(toks: Seq<Token>) -> Seq<(Seq<char>, int, int)> {
    toks.map_values(|t: Token| t@)
}

/// Whether the text `t` is quoted: starts and ends with `"`.
fn quoted(t: &str) -> (r: bool)
    ensures
        r == is_comment(t@),
{
    let n = t.unicode_len();
    n > 0 && t.get_char(0) == '"' && t.get_char(n - 1) == '"'
}

/// Whether the text `t` is a bare statement terminator.
fn bare_terminator(t: &str) -> (r: bool)
    ensures
        r == is_terminator(t@),
{
    let n = t.unicode_len();
    if n < 1 || n > 3 || t.get_char(0) != ':' {
        return false;
    }
    let mut i: usize = 1;
    while i < n
        invariant
            n == t@.len(),
            1 <= i <= n,
            forall|j: int| 1 <= j < i ==> #[trigger] t@[j] == '\r' || t@[j] == '\n',
        decreases n - i,
    {
        let c = t.get_char(i);
        if c != '\r' && c != '\n' {
            return false;
        }
        i = i + 1;
    }
    true
}

/// Extracts the command sequence of a program.
pub struct Parser {
    pub commands: Vec<String>,
    pub commands_info: Vec<Token>,
}

impl Parser {
    /// An extractor that holds no commands yet.
    pub fn new() -> (r: Parser)
        ensures
            r.commands@.len() == 0,
            r.commands_info@.len() == 0,
    {
        Parser { commands: Vec::new(), commands_info: Vec::new() }
    }

    /// Drains `lexer`, appending each command token (its text to `commands`,
    /// the whole token to `commands_info`), and fails with the scanner's
    /// error, if it gives one, after the commands before it.
    pub fn run(&mut self, lexer: Lexer) -> (r: Result<u8, SyntaxError>)
        requires
            lexer.inv(),
            token_texts(token_views(old(self).commands_info@)) == texts(old(self).commands@),
        ensures
            ({
                let (toks, err, fin) = drain(lexer@);
                &&& texts(final(self).commands@) == texts(old(self).commands@) + token_texts(commands_of(toks))
                &&& token_views(final(self).commands_info@) == token_views(old(self).commands_info@) + commands_of(toks)
                &&& match err {
                    None => r matches Ok(0u8),
                    Some((l, c)) => r matches Err(e) && e.line == l && e.column == c && e.kind
                        == SyntaxErrorKind::NoRuleMatches && e.source@ == lexer.source_spec(),
                }
            }),
            token_texts(token_views(final(self).commands_info@)) == texts(final(self).commands@),
            forall|i: int| old(self).commands_info@.len() <= i < final(self).commands_info@.len()
                ==> (#[trigger] final(self).commands_info@[i]).source@ == lexer.source_spec(),
    {
        let ghost source = lexer.source_spec();
        let ghost start = lexer@;
        let ghost cmds0 = texts(self.commands@);
        let ghost infos0 = token_views(self.commands_info@);
        let ghost mut seen: Seq<(Seq<char>, int, int)> = Seq::empty();
        let mut cursor = lexer;
        assert(cmds0 + token_texts(commands_of(seen)) =~= cmds0);
        assert(infos0 + commands_of(seen) =~= infos0);
        loop
            invariant
                cursor.inv(),
                cursor.source_spec() == source,
                start == lexer@,
                source == lexer.source_spec(),
                cmds0 == texts(old(self).commands@),
                infos0 == token_views(old(self).commands_info@),
                drain(start) == ({
                    let d = drain(cursor@);
                    (seen + d.0, d.1, d.2)
                }),
                texts(self.commands@) == cmds0 + token_texts(commands_of(seen)),
                token_views(self.commands_info@) == infos0 + commands_of(seen),
                token_texts(token_views(self.commands_info@)) == texts(self.commands@),
                self.commands_info@.len() >= old(self).commands_info@.len(),
                forall|i: int| old(self).commands_info@.len() <= i < self.commands_info@.len()
                    ==> (#[trigger] self.commands_info@[i]).source@ == source,
            decreases cursor@.text.len() - cursor@.position,
        {
            let ghost before = cursor@;
            proof {
                cursor.lemma_inv_wf();
                lemma_drain_step(before);
                lemma_scan_next_progress(before);
            }
            match cursor.next() {
                Err(e) => {
                    assert(drain(before).0 == Seq::<(Seq<char>, int, int)>::empty());
                    assert(seen + Seq::<(Seq<char>, int, int)>::empty() =~= seen);
                    return Err(e);
                },
                Ok(None) => {
                    assert(drain(before).0 == Seq::<(Seq<char>, int, int)>::empty());
                    assert(seen + Seq::<(Seq<char>, int, int)>::empty() =~= seen);
                    return Ok(0);
                },
                Ok(Some(tok)) => {
                    let ghost item = tok@;
                    proof {
                        assert(seen.push(item) + drain(cursor@).0 =~= seen + (seq![item] + drain(cursor@).0));
                        assert(seen.push(item).drop_last() =~= seen);
                    }
                    let keep = !quoted(tok.text.as_str()) && !bare_terminator(tok.text.as_str());
                    if keep {
                        let text = tok.text.clone();
                        let ghost c0 = self.commands@;
                        let ghost i0 = self.commands_info@;
                        self.commands.push(text);
                        self.commands_info.push(tok);
                        proof {
                            assert(texts(self.commands@) =~= texts(c0).push(item.0));
                            assert(token_views(self.commands_info@) =~= token_views(i0).push(item));
                            assert(token_texts(commands_of(seen.push(item))) =~= token_texts(commands_of(seen)).push(
                                item.0,
                            ));
                            assert(token_texts(token_views(self.commands_info@)) =~= token_texts(token_views(i0)).push(
                                item.0,
                            ));
                        }
                    }
                    proof {
                        seen = seen.push(item);
                    }
                },
            }
        }
    }
}

} // verus!
