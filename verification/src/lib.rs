//! A router for HTTP request paths.
//!
//! Path templates such as `/users/{id}`, `/report-{id}.json`, `/search/{q?}`
//! or `/files/{rest*}` are checked against a grammar and brought into a
//! canonical form ([`validate`]), split into segments ([`tokenize`]), and
//! indexed in one trie for each method ([`Router::register`]). A lookup
//! ([`Router::route`]) percent-decodes the request path, walks the trie of
//! the method, and returns the route that comes first in the order of
//! precedence, with the values of its parameters.
//!
//! The modules, from the leaves up:
//! - [`text`]: character classes and helpers on character sequences;
//! - [`grammar`], [`scanner`]: the template grammar and its scanner;
//! - [`canonical`]: the canonical form and the validator;
//! - [`analysis`], [`tokenizer`], [`segment_record`]: what the tokenizer
//!   says of a template;
//! - [`pattern`], [`matching`]: which templates match a path, and the order
//!   of precedence among them;
//! - [`segment`]: the trie;
//! - [`path`]: request paths;
//! - [`router`]: the route table;
//! - [`structure`], [`laws`]: what holds of every template, every table and
//!   every lookup.

pub mod analysis;
pub mod canonical;
pub mod grammar;
pub mod laws;
pub mod matching;
pub mod method;
pub mod path;
pub mod pattern;
pub mod router;
pub mod scanner;
pub mod segment;
pub mod segment_record;
pub mod structure;
pub mod text;
pub mod tokenizer;

pub use analysis::{Analysis, Descriptor};
pub use canonical::validate;
pub use grammar::{GrammarError, Reason};
pub use method::Method;
pub use router::{Binding, Outcome, Route, RouteConfig, RouteError, Router};
pub use scanner::Token;
pub use segment::Segment;
pub use segment_record::{parse_params, SegmentRecord};
pub use tokenizer::tokenize;
