//! A lexer generator: regular-expression rules are compiled through a Thompson
//! NFA and subset construction into a transition table, which a longest-match
//! scanner then drives over an input.
//!
//! - `config` reads a rule file into patterns and handlers.
//! - `regex_expr` turns a pattern into postfix tokens.
//! - `nfa` builds the automaton of each rule and joins the rules.
//! - `dfa` makes the deterministic automaton and its table.
//! - `scanner` finds the longest match at each place of an input.
//! - `compiler` runs the steps from patterns to table.
//!
//! What is proved of them beyond their contracts stands in `shape` (the form
//! of the fragments), `language` (what a fragment reads), `simulation` (the
//! table follows the NFA), `correctness` (the table accepts what the patterns
//! match, and the earliest rule fires) and `counting`.

pub mod compiler;
pub mod config;
pub mod correctness;
pub mod counting;
pub mod dfa;
pub mod language;
pub mod nfa;
pub mod regex_expr;
pub mod scanner;
pub mod shape;
pub mod simulation;

pub use compiler::compile;
pub use config::{parse_config, Config, ConfigError};
pub use dfa::{Dfa, DfaVertexRef, LookupState, LookupTable};
pub use nfa::{Nfa, NfaBuilder, NfaVertexRef};
pub use regex_expr::{Charactor, RegexError, RegexExpr};
pub use scanner::{Rlex, Token};
