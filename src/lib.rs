//! An interpreter for a small tape-based esoteric language: a rule-driven
//! scanner, a validator and command extractor, a loop-delimiter matcher and a
//! two-bank execution engine, each with its behaviour stated and proved.

pub mod bank;
pub mod brackets;
pub mod config;
pub mod directives;
pub mod grammar;
pub mod ieee;
pub mod laws;
pub mod parser;
pub mod program;
pub mod runner;
pub mod scanner;
pub mod utils;
pub mod validator;
pub mod versions;

pub use bank::Bank;
pub use brackets::{BracketsMatcher, LoopKind};
pub use directives::Directives;
pub use config::{CommandConfig, CommandsConfig, ConfigHandler, VersionCommandsConfig, Warnings};
pub use grammar::{Count, Grammar, Instr, Op};
pub use parser::Parser;
pub use program::{classic_patterns, load_program};
pub use runner::{Event, Outcome, Runner, RuntimeError, Settings, Status};
pub use scanner::{InvalidPattern, Lexer, Rule, SyntaxError, SyntaxErrorKind, Token};
pub use utils::Utils;
pub use validator::Validator;
pub use versions::{Handler, Version, Versions};
