//! Typed execution errors. Internal-consistency defects are a variant of
//! their own, distinct from user-facing query errors, so a caller can tell a
//! malformed query from a bug in the engine.

use vstd::prelude::*;

verus! {

/// An error raised while executing an operator tree.
#[derive(Debug)]
pub enum ExecError {
    /// An expression produced a value of the wrong type, e.g. a filter
    /// predicate that is not boolean.
    TypeMismatch(String),
    /// A referenced column is absent, or two schemas disagree.
    SchemaError(String),
    /// A source reader failed; carried through from the caller that read the
    /// source.
    Io(String),
    /// Raw text could not be decoded into a typed value.
    ParseError(String),
    /// An internal-consistency defect, e.g. an aggregation result whose
    /// length differs from the number of groups. Not a user-correctable
    /// condition.
    Internal(String),
}

impl ExecError {
    /// A short, human-readable account of the error.
    pub fn describe(&self) -> (r: &String)
        ensures
            match *self {
                ExecError::TypeMismatch(ref m) => r@ == m@,
                ExecError::SchemaError(ref m) => r@ == m@,
                ExecError::Io(ref m) => r@ == m@,
                ExecError::ParseError(ref m) => r@ == m@,
                ExecError::Internal(ref m) => r@ == m@,
            },
    {
        match self {
            ExecError::TypeMismatch(m) => m,
            ExecError::SchemaError(m) => m,
            ExecError::Io(m) => m,
            ExecError::ParseError(m) => m,
            ExecError::Internal(m) => m,
        }
    }

    /// True for the internal-consistency variant, the defect signal.
    pub fn is_internal(&self) -> (r: bool)
        ensures
            r == (*self is Internal),
    {
        match self {
            ExecError::Internal(_) => true,
            _ => false,
        }
    }
}

} // verus!
