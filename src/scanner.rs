//! The scanner: turns source text into positioned tokens, trying an ordered
//! list of pattern rules at the cursor. The patterns are regular expressions
//! run by the `regex` crate.
use regex::Regex;
use vstd::prelude::*;
use vstd::string::*;

verus! {

#[verifier::external_type_specification]
#[verifier::external_body]
pub struct ExRegex(regex::Regex);

#[verifier::external_type_specification]
#[verifier::external_body]
pub struct ExRegexError(regex::Error);

/// Whether `pattern` is a regular expression that `regex` accepts.
pub uninterp spec fn pattern_compiles(pattern: Seq<char>) -> bool;

/// The leftmost-first match of the regular expression `pattern` in `hay`: the
/// byte offset where it starts, and the matched text.
pub uninterp spec fn leftmost_match(pattern: Seq<char>, hay: Seq<char>) -> Option<(usize, Seq<char>)>;

/// Relies on `regex::Regex::new`: compiles a pattern, or says why it cannot.
#[verifier::external_body]
fn compile(pattern: &str) -> (r: Result<Regex, regex::Error>)
    ensures
        r is Ok == pattern_compiles(pattern@),
{
    Regex::new(pattern)
}

/// Relies on `regex::Regex::find` over the rule's regex, which `Rule::new`
/// compiled from the rule's pattern text: the leftmost-first match, as its
/// start offset and its text; a match that starts at offset 0 is a prefix of
/// the haystack.
#[verifier::external_body]
fn find_match(rule: &Rule, hay: &str) -> (r: Option<(usize, String)>)
    ensures
        r is Some == leftmost_match(rule@.0, hay@) is Some,
        r matches Some((s, t)) ==> leftmost_match(rule@.0, hay@) == Some((s, t@)),
        r matches Some((s, t)) ==> (s == 0 ==> t@.len() <= hay@.len() && t@ == hay@.subrange(0, t@.len() as int)),
{
    rule.pattern.find(hay).map(|m| (m.start(), m.as_str().to_string()))
}

/// The texts of the successive non-overlapping leftmost-first matches of the
/// regular expression `pattern` in `hay`.
pub uninterp spec fn all_matches(pattern: Seq<char>, hay: Seq<char>) -> Seq<Seq<char>>;

/// Relies on `regex::Regex::find_iter` over the rule's regex, which
/// `Rule::new` compiled from the rule's pattern text: the texts of all its
/// matches in `hay`, in order.
#[verifier::external_body]
pub(crate) fn find_all(rule: &Rule, hay: &str) -> (r: Vec<String>)
    ensures
        r@.map_values(|x: String| x@) == all_matches(rule@.0, hay@),
{
    rule.pattern.find_iter(hay).map(|m| m.as_str().to_string()).collect()
}

/// A pattern that the regular-expression engine refuses.
#[derive(Clone, Debug)]
pub struct InvalidPattern {
    pub pattern: String,
}

/// A scanning rule: a pattern, and whether what it matches is skipped.
pub struct Rule {
    source: String,
    pattern: Regex,
    ignore: bool,
}

impl View for Rule {
    type V = (Seq<char>, bool);

    closed spec fn view(&self) -> (Seq<char>, bool) {
        (self.source@, self.ignore)
    }
}

impl Rule {
    /// A rule for the regular expression `pattern`; fails when the pattern
    /// does not compile.
    pub fn new(pattern: &str, ignore: bool) -> (r: Result<Rule, InvalidPattern>)
        ensures
            r is Ok == pattern_compiles(pattern@),
            r matches Ok(rule) ==> rule@ == (pattern@, ignore),
            r matches Err(e) ==> e.pattern@ == pattern@,
    {
        match compile(pattern) {
            Ok(re) => Ok(Rule { source: String::from_str(pattern), pattern: re, ignore }),
            Err(_) => Err(InvalidPattern { pattern: String::from_str(pattern) }),
        }
    }

    /// Whether what this rule matches is skipped.
    pub fn is_ignored(&self) -> (r: bool)
        ensures
            r == self@.1,
    {
        self.ignore
    }
}

/// A token: its text, and the line and column where it starts.
pub struct Token {
    pub text: String,
    pub line: usize,
    pub column: usize,
    pub source: String,
}

/// What kind of syntax error was found.
#[derive(Clone, Copy, Debug, PartialEq, Eq, Structural)]
pub enum SyntaxErrorKind {
    /// No rule matches the text at the cursor.
    NoRuleMatches,
    /// The program does not end with a statement terminator `:`.
    TerminatorExpected,
}

/// A syntax error and where it was found.
#[derive(Clone, Debug)]
pub struct SyntaxError {
    pub line: usize,
    pub column: usize,
    pub source: String,
    pub kind: SyntaxErrorKind,
}

/// The state of a scanner as a mathematical value.
pub struct ScanState {
    pub text: Seq<char>,
    pub rules: Seq<(Seq<char>, bool)>,
    pub line: int,
    pub column: int,
    pub comment: bool,
    pub position: int,
}

/// What one call of the scanner gives.
pub enum Scanned {
    /// No more tokens.
    End,
    /// A token's text, line and column.
    Token(Seq<char>, int, int),
    /// No rule matched; the line and column of the cursor.
    Error(int, int),
}

/// A scanner at the start of `text`: line 1, column 1, not in a comment.
pub open spec fn fresh(text: Seq<char>, rules: Seq<(Seq<char>, bool)>) -> ScanState {
    ScanState { text, rules, line: 1, column: 1, comment: false, position: 0 }
}

/// Line terminators in `t`.
pub open spec fn count_newlines(t: Seq<char>) -> int
    decreases t.len(),
{
    if t.len() == 0 {
        0
    } else {
        count_newlines(t.drop_last()) + if t.last() == '\n' {
            1int
        } else {
            0
        }
    }
}

/// How many bytes the UTF-8 encoding of `c` takes.
pub open spec fn char_width(c: char) -> int {
    if (c as u32) < 0x80 {
        1
    } else if (c as u32) < 0x800 {
        2
    } else if (c as u32) < 0x10000 {
        3
    } else {
        4
    }
}

/// How many bytes the UTF-8 encoding of `t` takes.
pub open spec fn utf8_len(t: Seq<char>) -> int
    decreases t.len(),
{
    if t.len() == 0 {
        0
    } else {
        utf8_len(t.drop_last()) + char_width(t.last())
    }
}

/// Bytes (in UTF-8) after the last line terminator of `t` (all of them when
/// it has none).
pub open spec fn after_last_newline(t: Seq<char>) -> int
    decreases t.len(),
{
    if t.len() == 0 {
        0
    } else if t.last() == '\n' {
        0
    } else {
        after_last_newline(t.drop_last()) + char_width(t.last())
    }
}

/// The text that `rule` matches at the start of `rest`: its match must start
/// there, be a non-empty prefix of `rest`.
pub open spec fn rule_match(rule: (Seq<char>, bool), rest: Seq<char>) -> Option<Seq<char>> {
    match leftmost_match(rule.0, rest) {
        Some((s, t)) => if s == 0 && 0 < t.len() <= rest.len() && t == rest.subrange(0, t.len() as int) {
            Some(t)
        } else {
            None
        },
        None => None,
    }
}

/// The first rule (in order) that matches at the start of `rest`, and what it
/// matches.
pub open spec fn first_match(rules: Seq<(Seq<char>, bool)>, rest: Seq<char>) -> Option<(int, Seq<char>)>
    decreases rules.len(),
{
    if rules.len() == 0 {
        None
    } else if first_match(rules.drop_last(), rest) is Some {
        first_match(rules.drop_last(), rest)
    } else {
        match rule_match(rules.last(), rest) {
            Some(t) => Some((rules.len() - 1, t)),
            None => None,
        }
    }
}

/// The cursor moved past the matched text `t`: the line counts its line
/// terminators; the column, counted in UTF-8 bytes, restarts after the last
/// of them, or moves on by the byte length of `t` when it has none.
pub open spec fn advance(st: ScanState, t: Seq<char>) -> ScanState {
    let k = count_newlines(t);
    ScanState {
        position: st.position + t.len(),
        line: st.line + k,
        column: if k > 0 {
            after_last_newline(t) + 1
        } else {
            st.column + utf8_len(t)
        },
        ..st
    }
}

/// What remains to be scanned.
pub open spec fn rest_of(st: ScanState) -> Seq<char> {
    st.text.subrange(st.position, st.text.len() as int)
}

/// One call of the scanner: the next token that no ignore rule skips, the
/// end, or an error where no rule matches. A remainder that is exactly one
/// `"` toggles comment mode, and in comment mode the scanner gives no token.
pub open spec fn scan_next(st: ScanState) -> (ScanState, Scanned)
    decreases st.text.len() - st.position,
{
    if st.position < 0 || st.position >= st.text.len() {
        (st, Scanned::End)
    } else {
        let rest = rest_of(st);
        let st1 = if rest == seq!['"'] {
            ScanState { comment: !st.comment, ..st }
        } else {
            st
        };
        if st1.comment {
            (st1, Scanned::End)
        } else {
            match first_match(st1.rules, rest) {
                None => (st1, Scanned::Error(st1.line, st1.column)),
                Some((i, t)) => {
                    let st2 = advance(st1, t);
                    if st1.rules[i].1 {
                        proof {
                            lemma_first_match_index(st1.rules, rest);
                        }
                        scan_next(st2)
                    } else {
                        (st2, Scanned::Token(t, st1.line, st1.column))
                    }
                },
            }
        }
    }
}

/// A drained scanner: its tokens (text, line, column), the error that ended
/// it, if any, and its final state.
pub open spec fn drain(st: ScanState) -> (Seq<(Seq<char>, int, int)>, Option<(int, int)>, ScanState)
    decreases st.text.len() - st.position,
{
    let (st2, s) = scan_next(st);
    match s {
        Scanned::End => (Seq::empty(), None, st2),
        Scanned::Error(l, c) => (Seq::empty(), Some((l, c)), st2),
        Scanned::Token(t, l, c) => if st2.text.len() == st.text.len() && st.position < st2.position
            <= st2.text.len() {
            let (toks, e, fin) = drain(st2);
            (seq![(t, l, c)] + toks, e, fin)
        } else {
            (seq![(t, l, c)], None, st2)
        },
    }
}

/// Line terminators and the bytes after the last of them are at most four
/// per character, as is the byte length; a non-empty text takes bytes.
pub proof fn lemma_newlines_bound(t: Seq<char>)
    ensures
        0 <= count_newlines(t),
        0 <= after_last_newline(t),
        count_newlines(t) + after_last_newline(t) <= 4 * t.len(),
        t.len() <= utf8_len(t) <= 4 * t.len(),
        count_newlines(t) == 0 ==> after_last_newline(t) == utf8_len(t),
    decreases t.len(),
{
    if t.len() > 0 {
        lemma_newlines_bound(t.drop_last());
    }
}

/// The first matching rule is a rule, and it matches.
pub proof fn lemma_first_match_index(rules: Seq<(Seq<char>, bool)>, rest: Seq<char>)
    ensures
        first_match(rules, rest) matches Some((i, t)) ==> 0 <= i < rules.len() && rule_match(rules[i], rest)
            == Some(t),
    decreases rules.len(),
{
    if rules.len() > 0 {
        lemma_first_match_index(rules.drop_last(), rest);
    }
}

/// The scanner's counters stay within what they count.
pub open spec fn scan_wf(st: ScanState) -> bool {
    &&& 0 <= st.position <= st.text.len()
    &&& st.line >= 1
    &&& st.column >= 1
    &&& (st.line - 1) + (st.column - 1) <= 4 * st.position
}

/// Scanning keeps the text and rules, moves only forward, keeps the counters
/// in bounds, and a token is never empty.
pub proof fn lemma_scan_next_progress(st: ScanState)
    requires
        scan_wf(st),
    ensures
        scan_wf(scan_next(st).0),
        scan_next(st).0.text == st.text,
        scan_next(st).0.rules == st.rules,
        st.position <= scan_next(st).0.position,
        scan_next(st).1 matches Scanned::Token(t, l, c) ==> st.position < scan_next(st).0.position && t.len() > 0,
    decreases st.text.len() - st.position,
{
    if 0 <= st.position < st.text.len() {
        let rest = rest_of(st);
        let st1 = if rest == seq!['"'] {
            ScanState { comment: !st.comment, ..st }
        } else {
            st
        };
        if !st1.comment {
            lemma_first_match_index(st1.rules, rest);
            if let Some((i, t)) = first_match(st1.rules, rest) {
                lemma_newlines_bound(t);
                let st2 = advance(st1, t);
                if st1.rules[i].1 {
                    lemma_scan_next_progress(st2);
                }
            }
        }
    }
}

/// A scanner over a text with a list of rules.
pub struct Lexer {
    text: String,
    rules: Vec<Rule>,
    line: usize,
    column: usize,
    comment: bool,
    file_path: String,
    position: usize,
    length: usize,
}

impl View for Lexer {
    type V = ScanState;

    closed spec fn view(&self) -> ScanState {
        ScanState {
            text: self.text@,
            rules: self.rules@.map_values(|r: Rule| r@),
            line: self.line as int,
            column: self.column as int,
            comment: self.comment,
            position: self.position as int,
        }
    }
}

impl Lexer {
    /// The name of the source the text comes from.
    pub closed spec fn source_spec(&self) -> Seq<char> {
        self.file_path@
    }

    /// The counters are in bounds and the cached length is the text's.
    pub closed spec fn inv(&self) -> bool {
        &&& scan_wf(self@)
        &&& self.length == self.text@.len()
        &&& 4 * self.length < usize::MAX
    }

    /// A scanner at the start of `text`: line 1, column 1, not in a comment.
    pub fn new(text: String, rules: Vec<Rule>, file_path: String) -> (r: Lexer)
        requires
            4 * text@.len() < usize::MAX,
        ensures
            r.inv(),
            r@ == fresh(text@, rules@.map_values(|r: Rule| r@)),
            r.source_spec() == file_path@,
    {
        let length = text.unicode_len();
        Lexer { text, rules, line: 1, column: 1, comment: false, file_path, position: 0, length }
    }

    /// A well-formed scanner has its counters in bounds.
    pub proof fn lemma_inv_wf(&self)
        requires
            self.inv(),
        ensures
            scan_wf(self@),
    {
    }

    /// The line of the cursor.
    pub fn line(&self) -> (r: usize)
        ensures
            r == self@.line,
    {
        self.line
    }

    /// The column of the cursor.
    pub fn column(&self) -> (r: usize)
        ensures
            r == self@.column,
    {
        self.column
    }

    /// The name of the source the text comes from.
    pub fn source(&self) -> (r: String)
        ensures
            r@ == self.source_spec(),
    {
        self.file_path.clone()
    }

    /// Finds the first rule that matches at the start of `rest`.
    fn match_rules(&self, rest: &str) -> (r: Option<(usize, String)>)
        ensures
            r matches Some((i, t)) ==> first_match(self@.rules, rest@) == Some((i as int, t@)),
            r is None ==> first_match(self@.rules, rest@) is None,
    {
        let ghost rules = self@.rules;
        let n = self.rules.len();
        let m = rest.unicode_len();
        let mut i: usize = 0;
        assert(rules.subrange(0, 0) =~= Seq::<(Seq<char>, bool)>::empty());
        while i < n
            invariant
                n == self.rules@.len(),
                rules == self@.rules,
                m == rest@.len(),
                i <= n,
                first_match(rules.subrange(0, i as int), rest@) is None,
            decreases n - i,
        {
            assert(rules.subrange(0, i + 1).drop_last() =~= rules.subrange(0, i as int));
            assert(rules[i as int] == self.rules@[i as int]@);
            match find_match(&self.rules[i], rest) {
                Some((s, t)) => {
                    let len = t.unicode_len();
                    if s == 0 && len > 0 && len <= m {
                        proof {
                            lemma_first_match_prefix(rules, i + 1, rest@);
                        }
                        return Some((i, t));
                    }
                },
                None => {},
            }
            i = i + 1;
        }
        assert(rules.subrange(0, n as int) =~= rules);
        None
    }

    /// The next token, `None` at the end, or the error where no rule matches.
    pub fn next(&mut self) -> (r: Result<Option<Token>, SyntaxError>)
        requires
            old(self).inv(),
        ensures
            final(self).inv(),
            final(self)@ == scan_next(old(self)@).0,
            final(self).source_spec() == old(self).source_spec(),
            match scan_next(old(self)@).1 {
                Scanned::End => r matches Ok(None),
                Scanned::Token(t, l, c) => r matches Ok(Some(tok)) && tok.text@ == t && tok.line == l && tok.column
                    == c && tok.source@ == old(self).source_spec(),
                Scanned::Error(l, c) => r matches Err(e) && e.line == l && e.column == c && e.kind
                    == SyntaxErrorKind::NoRuleMatches && e.source@ == old(self).source_spec(),
            },
    {
        loop
            invariant
                self.inv(),
                self.source_spec() == old(self).source_spec(),
                scan_next(self@) == scan_next(old(self)@),
            decreases self.length - self.position,
        {
            let ghost here = self@;
            if self.position >= self.length {
                return Ok(None);
            }
            let rest = self.text.as_str().substring_char(self.position, self.length);
            assert(rest@ == rest_of(self@));
            if rest.unicode_len() == 1 && rest.get_char(0) == '"' {
                assert(rest@ =~= seq!['"']);
                self.comment = !self.comment;
            } else {
                assert(rest@ != seq!['"']);
            }
            if self.comment {
                return Ok(None);
            }
            match self.match_rules(rest) {
                None => {
                    return Err(
                        SyntaxError {
                            line: self.line,
                            column: self.column,
                            source: self.file_path.clone(),
                            kind: SyntaxErrorKind::NoRuleMatches,
                        },
                    );
                },
                Some((i, t)) => {
                    let line = self.line;
                    let column = self.column;
                    proof {
                        lemma_first_match_index(self@.rules, rest@);
                        lemma_newlines_bound(t@);
                    }
                    let ignore = self.rules[i].is_ignored();
                    assert(ignore == self@.rules[i as int].1);
                    self.advance_past(t.as_str());
                    if !ignore {
                        return Ok(Some(Token { text: t, line, column, source: self.file_path.clone() }));
                    }
                    proof {
                        lemma_scan_next_progress(here);
                    }
                },
            }
        }
    }

    /// Moves the cursor past `t`, counting lines and columns.
    fn advance_past(&mut self, t: &str)
        requires
            old(self).inv(),
            !old(self).comment,
            0 < t@.len() <= old(self).length - old(self).position,
        ensures
            final(self).inv(),
            final(self)@ == advance(old(self)@, t@),
            final(self).source_spec() == old(self).source_spec(),
            final(self).length == old(self).length,
    {
        let n = t.unicode_len();
        let mut newlines: usize = 0;
        let mut after: usize = 0;
        let mut bytes: usize = 0;
        let mut i: usize = 0;
        assert(t@.subrange(0, 0) =~= Seq::<char>::empty());
        while i < n
            invariant
                n == t@.len(),
                4 * n < usize::MAX,
                i <= n,
                newlines == count_newlines(t@.subrange(0, i as int)),
                after == after_last_newline(t@.subrange(0, i as int)),
                bytes == utf8_len(t@.subrange(0, i as int)),
                newlines + after <= 4 * i,
                bytes <= 4 * i,
            decreases n - i,
        {
            assert(t@.subrange(0, i + 1).drop_last() =~= t@.subrange(0, i as int));
            let c = t.get_char(i);
            let code = c as u32;
            let width: usize = if code < 0x80 {
                1
            } else if code < 0x800 {
                2
            } else if code < 0x10000 {
                3
            } else {
                4
            };
            if c == '\n' {
                newlines = newlines + 1;
                after = 0;
            } else {
                after = after + width;
            }
            bytes = bytes + width;
            i = i + 1;
        }
        assert(t@.subrange(0, n as int) =~= t@);
        proof {
            lemma_newlines_bound(t@);
        }
        self.position = self.position + n;
        self.line = self.line + newlines;
        if newlines > 0 {
            self.column = after + 1;
        } else {
            self.column = self.column + bytes;
        }
    }
}

proof fn lemma_first_match_prefix(rules: Seq<(Seq<char>, bool)>, i: int, rest: Seq<char>)
    requires
        0 <= i <= rules.len(),
        first_match(rules.subrange(0, i), rest) is Some,
    ensures
        first_match(rules, rest) == first_match(rules.subrange(0, i), rest),
    decreases rules.len() - i,
{
    if i < rules.len() {
        assert(rules.drop_last().subrange(0, i) =~= rules.subrange(0, i));
        lemma_first_match_prefix(rules.drop_last(), i, rest);
    } else {
        assert(rules.subrange(0, i) =~= rules);
    }
}

} // verus!
