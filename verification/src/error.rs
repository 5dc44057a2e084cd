//! Failure kinds raised during evaluation, each tagged with the expression
//! node at which it arose so a host can render a source diagnostic.

use vstd::prelude::*;

verus! {

/// Index of an expression node inside [`crate::expr::ExprArena`].
pub type ExprId = usize;

/// What went wrong during evaluation.
#[derive(Debug, Clone, PartialEq, Eq)]
pub enum ErrorKind {
    /// A value of the wrong shape reached an operation.
    TypeError { expected: String, got: String },
    /// A variable was not bound by any scope in the context.
    UnboundVariable(String),
    /// Selection without a fallback missed the named attribute.
    MissingAttribute(String),
    /// Two bindings at the same level introduced the same key.
    DuplicateAttribute(String),
    /// An `assert` condition evaluated to `false`.
    AssertionFailed,
    /// Forcing a thunk re-entered the same thunk (black-hole reentry).
    InfiniteLoop,
    /// Following value forwarding returned to an already-visited thunk.
    ReferenceCycle,
    /// A formal-pattern call received keys the pattern does not declare.
    TooManyArgs,
    /// A formal without a default was absent from the argument set.
    MissingArg(String),
    /// Application of a value that is neither a lambda nor a primop.
    NotAFunction(String),
    /// The value cannot be coerced to a string under the given options.
    CoerceError(String),
    /// A string carrying store references was appended to a path.
    StringContextConflict,
    /// Integer division by zero.
    DivideByZero,
    /// The `throw` primop was forced.
    Throw(String),
    /// Evaluation exceeded the caller-supplied recursion budget.
    RecursionLimit,
    /// Coercing a path with `copy_to_store` set needs the store collaborator.
    StoreCopyRequired(String),
    /// An error bubbled up from an I/O collaborator.
    IOError(String),
    /// An error bubbled up from the parser collaborator.
    ParseError(String),
}

/// An evaluation failure: a kind plus the innermost expression node at which
/// it was raised, when one is known.
#[derive(Debug, Clone)]
pub struct Error {
    pub kind: ErrorKind,
    pub at: Option<ExprId>,
}

impl Error {
    /// An error raised outside any particular expression node.
    pub fn new(kind: ErrorKind) -> (r: Error)
        ensures
            r.kind == kind,
            r.at is None,
    {
        Error { kind, at: None }
    }

    /// An error raised at the given expression node.
    pub fn at(kind: ErrorKind, at: ExprId) -> (r: Error)
        ensures
            r.kind == kind,
            r.at == Some(at),
    {
        Error { kind, at: Some(at) }
    }
}

} // verus!
