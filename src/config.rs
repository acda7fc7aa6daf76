//! The per-version command grammar as data: each command's pattern and
//! whether it takes a repeat count or a locality prefix, compiled into the
//! scanner's ordered rule list.
use vstd::prelude::*;
use vstd::string::*;
use crate::scanner::{InvalidPattern, Rule, pattern_compiles};

verus! {

/// Which advisories are switched off.
#[derive(Clone, Copy, Debug, PartialEq, Eq, Structural)]
pub struct Warnings {
    /// The advisory given when the pointer moves left of the first cell.
    pub too_left_pointer: bool,
}

/// One command of a language version.
pub struct CommandConfig {
    pub command: String,
    /// The command's own pattern.
    pub regex: String,
    /// Whether a repeat count may precede the command.
    pub chainable: bool,
    pub chain_optimisable: bool,
    /// Whether a locality prefix may precede the command.
    pub can_be_local: bool,
}

/// The commands of a language version, with the patterns of the repeat
/// count and of the locality prefix.
pub struct VersionCommandsConfig {
    pub chain_regex: String,
    pub local_regex: String,
    pub commands: Vec<CommandConfig>,
}

/// The command grammars of all language versions, by version string.
pub struct CommandsConfig {
    pub version_commands_configs: Vec<(String, VersionCommandsConfig)>,
}

/// The whole configuration.
pub struct ConfigHandler {
    pub commands: CommandsConfig,
}

/// The pattern of a source-embedded directive: a line that starts with `#`.
pub const PREPROCESSOR_REGEX: &'static str = "^#[^\\n]*\\n?";

/// The anchored pattern of one command: the locality prefix where it may
/// have one, then the repeat count where it may have one, then its own
/// pattern.
pub open spec fn command_pattern(local_regex: Seq<char>, chain_regex: Seq<char>, c: CommandConfig) -> Seq<char> {
    "^"@ + (if c.can_be_local {
        local_regex
    } else {
        Seq::empty()
    }) + (if c.chainable {
        chain_regex
    } else {
        Seq::empty()
    }) + c.regex@
}

impl VersionCommandsConfig {
    /// The rule patterns of this version, in order: one per command, then the
    /// directive pattern.
    pub fn rule_patterns(&self) -> (r: Vec<String>)
        ensures
            r@.len() == self.commands@.len() + 1,
            forall|i: int| 0 <= i < self.commands@.len() ==> #[trigger] r@[i]@ == command_pattern(
                self.local_regex@,
                self.chain_regex@,
                self.commands@[i],
            ),
            r@[self.commands@.len() as int]@ == PREPROCESSOR_REGEX@,
    {
        let mut r: Vec<String> = Vec::new();
        let n = self.commands.len();
        let mut i: usize = 0;
        while i < n
            invariant
                n == self.commands@.len(),
                i <= n,
                r@.len() == i,
                forall|j: int| 0 <= j < i ==> #[trigger] r@[j]@ == command_pattern(
                    self.local_regex@,
                    self.chain_regex@,
                    self.commands@[j],
                ),
            decreases n - i,
        {
            let c = &self.commands[i];
            let mut p = String::from_str("^");
            if c.can_be_local {
                p.append(self.local_regex.as_str());
            }
            if c.chainable {
                p.append(self.chain_regex.as_str());
            }
            p.append(c.regex.as_str());
            assert(p@ =~= command_pattern(self.local_regex@, self.chain_regex@, self.commands@[i as int]));
            r.push(p);
            i = i + 1;
        }
        r.push(String::from_str(PREPROCESSOR_REGEX));
        r
    }
}

impl CommandsConfig {
    /// The commands of version `version`, if the configuration has them (the
    /// first entry for that version).
    pub fn get(&self, version: &str) -> (r: Option<&VersionCommandsConfig>)
        ensures
            r is Some <==> exists|i: int| 0 <= i < self.version_commands_configs@.len()
                && #[trigger] self.version_commands_configs@[i].0@ == version@,
            r matches Some(c) ==> exists|i: int|
                0 <= i < self.version_commands_configs@.len() && self.version_commands_configs@[i].0@ == version@
                    && #[trigger] self.version_commands_configs@[i].1 == *c && forall|j: int|
                    0 <= j < i ==> self.version_commands_configs@[j].0@ != version@,
    {
        let n = self.version_commands_configs.len();
        let mut i: usize = 0;
        while i < n
            invariant
                n == self.version_commands_configs@.len(),
                i <= n,
                forall|j: int| 0 <= j < i ==> #[trigger] self.version_commands_configs@[j].0@ != version@,
            decreases n - i,
        {
            if crate::grammar::same_text(self.version_commands_configs[i].0.as_str(), version) {
                return Some(&self.version_commands_configs[i].1);
            }
            i = i + 1;
        }
        None
    }
}

/// Rules made from `patterns`, each skipping what it matches where
/// `ignored` says so; fails at the first pattern that does not compile.
pub fn compile_rules(patterns: &Vec<String>, ignored: &Vec<bool>) -> (r: Result<Vec<Rule>, InvalidPattern>)
    requires
        ignored@.len() == patterns@.len(),
    ensures
        r is Ok <==> forall|i: int| 0 <= i < patterns@.len() ==> pattern_compiles(#[trigger] patterns@[i]@),
        r matches Ok(rules) ==> rules@.len() == patterns@.len() && forall|i: int| 0 <= i < rules@.len()
            ==> #[trigger] rules@[i]@ == (patterns@[i]@, ignored@[i]),
        r matches Err(e) ==> exists|i: int| 0 <= i < patterns@.len() && !pattern_compiles(#[trigger] patterns@[i]@)
            && e.pattern@ == patterns@[i]@,
{
    let mut rules: Vec<Rule> = Vec::new();
    let n = patterns.len();
    let mut i: usize = 0;
    while i < n
        invariant
            n == patterns@.len(),
            n == ignored@.len(),
            i <= n,
            rules@.len() == i,
            forall|j: int| 0 <= j < i ==> pattern_compiles(#[trigger] patterns@[j]@),
            forall|j: int| 0 <= j < i ==> #[trigger] rules@[j]@ == (patterns@[j]@, ignored@[j]),
        decreases n - i,
    {
        match Rule::new(patterns[i].as_str(), ignored[i]) {
            Ok(rule) => rules.push(rule),
            Err(e) => return Err(e),
        }
        i = i + 1;
    }
    Ok(rules)
}

} // verus!
