//! A verified core of a lazy expression evaluator in the style of the Nix
//! language: a thunk arena with one-shot memoisation and black-hole cycle
//! detection, an evaluator reducing expressions to weak head normal form
//! under a stack of lexical and dynamic scopes, a value algebra with
//! string/path-context tracking, operator semantics, and the hash and
//! search-path codecs that surround it.

pub mod attrs;
pub mod bindings;
pub mod ctx;
pub mod error;
pub mod eval;
pub mod expr;
pub mod goal;
pub mod hash;
pub mod nixpath;
pub mod operators;
pub mod strings;
pub mod strutil;
pub mod thunk;
pub mod value;
