//! The front end: validates a program and extracts its command sequence.
use vstd::prelude::*;
use vstd::string::*;
use crate::brackets::texts;
use crate::parser::{Parser, commands_of, token_texts};
use crate::scanner::{Lexer, Rule, SyntaxError, SyntaxErrorKind, drain, fresh};
use crate::validator::{Validator, verdict};

verus! {

/// The scanning rules of the first language version, in order: a pattern and
/// whether what it matches is skipped.
pub open spec fn classic_rule_table() -> Seq<(Seq<char>, bool)> {
    seq![
        ("^'?(\\|-?[0-9]*\\|)*!"@, false),
        ("^'?(\\|-?[0-9]*\\|)*~"@, false),
        ("^'?(\\|-?[0-9]*\\|)*\\+"@, false),
        ("^'?(\\|-?[0-9]*\\|)*-"@, false),
        ("^'?(\\|-?[0-9]*\\|)*\\*"@, false),
        ("^'?(\\|-?[0-9]*\\|)*/"@, false),
        ("^'?`"@, false),
        ("^'?(\\|-?[0-9]*\\|)*>"@, false),
        ("^'?(\\|-?[0-9]*\\|)*<"@, false),
        ("^'?_"@, false),
        ("^'?&"@, false),
        ("^'?\\^"@, false),
        ("^'?\\[@?"@, false),
        ("^'?@?\\]"@, false),
        ("^'?\\$\\."@, false),
        ("^'?\\$,"@, false),
        ("^'?\\\\\\."@, false),
        ("^'?\\\\,"@, false),
        ("^'?(\\|-?[0-9]*\\|)*\\?="@, false),
        ("^'?(\\|-?[0-9]*\\|)*\\?>"@, false),
        ("^'?(\\|-?[0-9]*\\|)*\\?<"@, false),
        ("^'?;"@, false),
        ("^:\\r?\\n?"@, false),
        ("^\"[^\"]*\""@, false),
        ("^[ \\t\\f\\v]"@, true),
    ]
}

/// The scanning rules of the first language version: the patterns, and
/// whether each one's matches are skipped.
pub fn classic_patterns() -> (r: (Vec<String>, Vec<bool>))
    ensures
        r.0@.len() == r.1@.len() == classic_rule_table().len(),
        forall|i: int| 0 <= i < r.0@.len() ==> (#[trigger] r.0@[i]@, r.1@[i]) == classic_rule_table()[i],
{
    let mut patterns: Vec<String> = Vec::new();
    let mut ignored: Vec<bool> = Vec::new();
    patterns.push(String::from_str("^'?(\\|-?[0-9]*\\|)*!"));
    ignored.push(false);
    patterns.push(String::from_str("^'?(\\|-?[0-9]*\\|)*~"));
    ignored.push(false);
    patterns.push(String::from_str("^'?(\\|-?[0-9]*\\|)*\\+"));
    ignored.push(false);
    patterns.push(String::from_str("^'?(\\|-?[0-9]*\\|)*-"));
    ignored.push(false);
    patterns.push(String::from_str("^'?(\\|-?[0-9]*\\|)*\\*"));
    ignored.push(false);
    patterns.push(String::from_str("^'?(\\|-?[0-9]*\\|)*/"));
    ignored.push(false);
    patterns.push(String::from_str("^'?`"));
    ignored.push(false);
    patterns.push(String::from_str("^'?(\\|-?[0-9]*\\|)*>"));
    ignored.push(false);
    patterns.push(String::from_str("^'?(\\|-?[0-9]*\\|)*<"));
    ignored.push(false);
    patterns.push(String::from_str("^'?_"));
    ignored.push(false);
    patterns.push(String::from_str("^'?&"));
    ignored.push(false);
    patterns.push(String::from_str("^'?\\^"));
    ignored.push(false);
    patterns.push(String::from_str("^'?\\[@?"));
    ignored.push(false);
    patterns.push(String::from_str("^'?@?\\]"));
    ignored.push(false);
    patterns.push(String::from_str("^'?\\$\\."));
    ignored.push(false);
    patterns.push(String::from_str("^'?\\$,"));
    ignored.push(false);
    patterns.push(String::from_str("^'?\\\\\\."));
    ignored.push(false);
    patterns.push(String::from_str("^'?\\\\,"));
    ignored.push(false);
    patterns.push(String::from_str("^'?(\\|-?[0-9]*\\|)*\\?="));
    ignored.push(false);
    patterns.push(String::from_str("^'?(\\|-?[0-9]*\\|)*\\?>"));
    ignored.push(false);
    patterns.push(String::from_str("^'?(\\|-?[0-9]*\\|)*\\?<"));
    ignored.push(false);
    patterns.push(String::from_str("^'?;"));
    ignored.push(false);
    patterns.push(String::from_str("^:\\r?\\n?"));
    ignored.push(false);
    patterns.push(String::from_str("^\"[^\"]*\""));
    ignored.push(false);
    patterns.push(String::from_str("^[ \\t\\f\\v]"));
    ignored.push(true);
    proof {
        let t = classic_rule_table();
        assert forall|i: int| 0 <= i < patterns@.len() implies (#[trigger] patterns@[i]@, ignored@[i]) == t[i] by {}
    }
    (patterns, ignored)
}

/// Validates `text` with a scanner over `validate_rules`, then extracts its
/// commands with a fresh scanner over `extract_rules`: fails with the
/// validator's error, or with the extractor's, and gives the command texts
/// otherwise.
pub fn load_program(text: &str, source: &str, validate_rules: Vec<Rule>, extract_rules: Vec<Rule>) -> (r: Result<
    Vec<String>,
    SyntaxError,
>)
    requires
        4 * text@.len() < usize::MAX,
    ensures
        ({
            let v = verdict(fresh(text@, validate_rules@.map_values(|x: Rule| x@)));
            let d = drain(fresh(text@, extract_rules@.map_values(|x: Rule| x@)));
            match v {
                Err((l, c, k)) => r matches Err(e) && e.line == l && e.column == c && e.kind == k && e.source@
                    == source@,
                Ok(()) => match d.1 {
                    Some((l, c)) => r matches Err(e) && e.line == l && e.column == c && e.kind
                        == SyntaxErrorKind::NoRuleMatches && e.source@ == source@,
                    None => r matches Ok(cmds) && texts(cmds@) == token_texts(commands_of(d.0)),
                },
            }
        }),
{
    let first = Lexer::new(String::from_str(text), validate_rules, String::from_str(source));
    match Validator::run(first) {
        Err(e) => return Err(e),
        Ok(_) => {},
    }
    let second = Lexer::new(String::from_str(text), extract_rules, String::from_str(source));
    let mut parser = Parser::new();
    proof {
        assert(texts(parser.commands@) =~= Seq::<Seq<char>>::empty());
        assert(crate::parser::token_texts(crate::parser::token_views(parser.commands_info@)) =~= Seq::<Seq<char>>::empty());
    }
    match parser.run(second) {
        Err(e) => Err(e),
        Ok(_) => {
            assert(texts(parser.commands@) =~= token_texts(commands_of(drain(fresh(text@, extract_rules@.map_values(|x: Rule| x@))).0)));
            Ok(parser.commands)
        },
    }
}

} // verus!
