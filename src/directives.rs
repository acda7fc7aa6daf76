//! Directives embedded in a program's source: lines such as
//! `#version 0.2.0:` or `#sebek 1|0|-1:` that configure a run.
use vstd::prelude::*;
use vstd::string::*;
use crate::grammar::same_text;
use crate::versions::{after, after_char, before, before_char, char_index, find_char};
use crate::scanner::{Rule, all_matches, find_all, pattern_compiles};

verus! {

/// The text `s` with its letters made small, as Rust's `str::to_lowercase`
/// gives it.
pub uninterp spec fn lower_of(s: Seq<char>) -> Seq<char>;

/// Relies on `str::to_lowercase`: the result depends on the characters alone.
#[verifier::external_body]
fn lowercase(s: &str) -> (r: String)
    ensures
        r@ == lower_of(s@),
{
    s.to_lowercase()
}

/// `s` without the white space at its two ends, as Rust's `str::trim`
/// gives it.
pub uninterp spec fn trimmed(s: Seq<char>) -> Seq<char>;

/// Relies on `str::trim`: the result depends on the characters alone.
#[verifier::external_body]
fn trim(s: &str) -> (r: &str)
    ensures
        r@ == trimmed(s@),
{
    s.trim()
}

/// The pattern of the lines that hold directives: a `#` at the start of a
/// line, up to and with the line's end.
pub const DIRECTIVE_LINES: &'static str = "(?m)^#[^\\n]*\\n?";

/// What one directive asks for.
pub enum Directive {
    /// Run under this language version.
    Version(Seq<char>),
    /// Hide the console window, or show it.
    NoConsole(bool),
    /// Switch off the advisory for moving left of the first cell.
    DisableTooLeftPointer,
    /// Fallback values for division by zero, as text.
    Sebek(Seq<char>),
    /// Nothing this interpreter knows.
    Nothing,
}

/// A directive's words: without its leading character and its final `:`.
pub open spec fn directive_body(s: Seq<char>) -> Seq<char> {
    if s.len() >= 2 && s.last() == ':' {
        s.subrange(1, s.len() - 1)
    } else if s.len() >= 1 {
        s.subrange(1, s.len() as int)
    } else {
        s
    }
}

/// The directive that the statement `s` (a `#` line, trimmed) gives: its
/// first word, in any case, names it, and its second word, if any, is the
/// argument.
pub open spec fn directive(s: Seq<char>) -> Directive {
    let body = directive_body(s);
    let key = lower_of(before(body, ' '));
    let has_arg = char_index(body, ' ') is Some;
    let arg = before(after(body, ' '), ' ');
    if key == "version"@ {
        if has_arg {
            Directive::Version(arg)
        } else {
            Directive::Nothing
        }
    } else if key == "noconsole"@ || key == "no-console"@ || key == "no_console"@ {
        if has_arg {
            Directive::NoConsole(lower_of(arg) != "false"@)
        } else {
            Directive::NoConsole(true)
        }
    } else if key == "disablewarnings"@ || key == "disable-warnings"@ || key == "disable_warnings"@ {
        if has_arg && (lower_of(arg) == "too-left-pointer"@ || lower_of(arg) == "tooleftpointer"@) {
            Directive::DisableTooLeftPointer
        } else {
            Directive::Nothing
        }
    } else if key == "sebek"@ {
        if has_arg {
            Directive::Sebek(arg)
        } else {
            Directive::Nothing
        }
    } else {
        Directive::Nothing
    }
}

/// The settings of a program's directives as a mathematical value.
pub struct DirectivesView {
    pub version: Option<Seq<char>>,
    pub no_console: bool,
    pub too_left_pointer: bool,
    pub sebek: Option<Seq<char>>,
}

/// The settings before any directive.
pub open spec fn no_directives() -> DirectivesView {
    DirectivesView { version: None, no_console: false, too_left_pointer: false, sebek: None }
}

/// The settings `d` after the directive of the statement `s`.
pub open spec fn applied(d: DirectivesView, s: Seq<char>) -> DirectivesView {
    match directive(s) {
        Directive::Version(v) => DirectivesView { version: Some(v), ..d },
        Directive::NoConsole(b) => DirectivesView { no_console: b, ..d },
        Directive::DisableTooLeftPointer => DirectivesView { too_left_pointer: true, ..d },
        Directive::Sebek(t) => DirectivesView { sebek: Some(t), ..d },
        Directive::Nothing => d,
    }
}

/// The settings `d` after the directives of `stmts`, in order.
pub open spec fn applied_all(d: DirectivesView, stmts: Seq<Seq<char>>) -> DirectivesView
    decreases stmts.len(),
{
    if stmts.len() == 0 {
        d
    } else {
        applied(applied_all(d, stmts.drop_last()), stmts.last())
    }
}

/// The directive statements of a program: its directive lines, trimmed.
pub open spec fn statements_of(code: Seq<char>) -> Seq<Seq<char>> {
    all_matches(DIRECTIVE_LINES@, code).map_values(|m: Seq<char>| trimmed(m))
}

/// The settings that a program's directives give.
pub struct Directives {
    pub version: Option<String>,
    pub no_console: bool,
    pub too_left_pointer: bool,
    pub sebek: Option<String>,
}

impl View for Directives {
    type V = DirectivesView;

    open spec fn view(&self) -> DirectivesView {
        DirectivesView {
            version: match self.version {
                Some(v) => Some(v@),
                None => None,
            },
            no_console: self.no_console,
            too_left_pointer: self.too_left_pointer,
            sebek: match self.sebek {
                Some(t) => Some(t@),
                None => None,
            },
        }
    }
}

impl Directives {
    /// No directive seen yet.
    pub fn new() -> (r: Directives)
        ensures
            r@ == no_directives(),
            r.version is None,
            !r.no_console,
            !r.too_left_pointer,
            r.sebek is None,
    {
        Directives { version: None, no_console: false, too_left_pointer: false, sebek: None }
    }

    /// The settings that the directives of the program `code` give: each
    /// line that starts with `#`, trimmed, applied in order (where the
    /// directive pattern compiles, which it does).
    pub fn read(code: &str) -> (r: Directives)
        ensures
            pattern_compiles(DIRECTIVE_LINES@) ==> r@ == applied_all(no_directives(), statements_of(code@)),
    {
        let mut d = Directives::new();
        let rule = match Rule::new(DIRECTIVE_LINES, false) {
            Ok(rule) => rule,
            Err(_) => return d,
        };
        let lines = find_all(&rule, code);
        let ghost stmts = statements_of(code@);
        let n = lines.len();
        let mut i: usize = 0;
        assert(stmts.subrange(0, 0) =~= Seq::<Seq<char>>::empty());
        while i < n
            invariant
                n == lines@.len(),
                stmts.len() == n,
                lines@.map_values(|x: String| x@) == all_matches(DIRECTIVE_LINES@, code@),
                stmts == statements_of(code@),
                i <= n,
                d@ == applied_all(no_directives(), stmts.subrange(0, i as int)),
            decreases n - i,
        {
            let s = trim(lines[i].as_str());
            assert(s@ == stmts[i as int]);
            assert(stmts.subrange(0, i + 1).drop_last() =~= stmts.subrange(0, i as int));
            d.apply(s);
            i = i + 1;
        }
        assert(stmts.subrange(0, n as int) =~= stmts);
        d
    }

    /// Applies the directive of the statement `statement` (a `#` line,
    /// trimmed); a later directive overrides an earlier one.
    pub fn apply(&mut self, statement: &str)
        ensures
            final(self)@ == applied(old(self)@, statement@),
            match directive(statement@) {
                Directive::Version(v) => final(self).version matches Some(x) && x@ == v && final(self).no_console
                    == old(self).no_console && final(self).too_left_pointer == old(self).too_left_pointer
                    && final(self).sebek == old(self).sebek,
                Directive::NoConsole(b) => final(self).no_console == b && final(self).version == old(self).version
                    && final(self).too_left_pointer == old(self).too_left_pointer && final(self).sebek
                    == old(self).sebek,
                Directive::DisableTooLeftPointer => final(self).too_left_pointer && final(self).version == old(
                    self,
                ).version && final(self).no_console == old(self).no_console && final(self).sebek == old(
                    self,
                ).sebek,
                Directive::Sebek(t) => final(self).sebek matches Some(x) && x@ == t && final(self).version == old(
                    self,
                ).version && final(self).no_console == old(self).no_console && final(self).too_left_pointer
                    == old(self).too_left_pointer,
                Directive::Nothing => *final(self) == *old(self),
            },
    {
        let n = statement.unicode_len();
        let body = if n >= 2 && statement.get_char(n - 1) == ':' {
            statement.substring_char(1, n - 1)
        } else if n >= 1 {
            statement.substring_char(1, n)
        } else {
            statement
        };
        assert(body@ == directive_body(statement@));
        let key = lowercase(before_char(body, ' '));
        let has_arg = find_char(body, ' ').is_some();
        let arg = before_char(after_char(body, ' '), ' ');
        let k = key.as_str();
        if same_text(k, "version") {
            if has_arg {
                self.version = Some(String::from_str(arg));
            }
        } else if same_text(k, "noconsole") || same_text(k, "no-console") || same_text(k, "no_console") {
            if has_arg {
                let a = lowercase(arg);
                self.no_console = !same_text(a.as_str(), "false");
            } else {
                self.no_console = true;
            }
        } else if same_text(k, "disablewarnings") || same_text(k, "disable-warnings") || same_text(
            k,
            "disable_warnings",
        ) {
            if has_arg {
                let a = lowercase(arg);
                if same_text(a.as_str(), "too-left-pointer") || same_text(a.as_str(), "tooleftpointer") {
                    self.too_left_pointer = true;
                }
            }
        } else if same_text(k, "sebek") {
            if has_arg {
                self.sebek = Some(String::from_str(arg));
            }
        }
    }
}

} // verus!
