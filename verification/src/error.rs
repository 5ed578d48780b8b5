//! How evaluation and parsing fail.
use crate::ast::Type;
use vstd::prelude::*;

verus! {

/// A failure of evaluation. The variants whose names end in `T` say only what
/// kind of failure it is; the others also say where in the source it came up.
#[derive(Debug)]
pub enum RuntimeError {
    /// A value does not have the shape or content that a pattern asks for.
    PatternMismatchT,
    PatternMismatch { pos: (usize, usize), message: String, file: Option<String> },
    /// An operation met operands for which it is not defined.
    ValueErrorT,
    ValueError { pos: (usize, usize), message: String, file: Option<String> },
    /// A cast was told a source type, the first, that the value, of the
    /// second, does not have.
    TypeMismatchT(Type, Type),
    TypeMismatch { pos: (usize, usize), expected: Type, found: Type, file: Option<String> },
}

impl RuntimeError {
    /// Places a failure in the source: a bare kind gets the position, the
    /// file and the message; a failure that is placed already stays as it is.
    pub fn new(t: RuntimeError, pos: (usize, usize), file: Option<String>, message: &str) -> (r:
        RuntimeError)
        ensures
            match t {
                RuntimeError::PatternMismatchT => r matches RuntimeError::PatternMismatch {
                    pos: p,
                    message: m,
                    file: f,
                } && p == pos && m@ == message@ && f == file,
                RuntimeError::ValueErrorT => r matches RuntimeError::ValueError {
                    pos: p,
                    message: m,
                    file: f,
                } && p == pos && m@ == message@ && f == file,
                RuntimeError::TypeMismatchT(expected, found) => r == (RuntimeError::TypeMismatch {
                    pos,
                    expected,
                    found,
                    file,
                }),
                _ => r == t,
            },
    {
        match t {
            RuntimeError::PatternMismatchT => RuntimeError::PatternMismatch {
                pos,
                message: message.to_owned(),
                file,
            },
            RuntimeError::ValueErrorT => RuntimeError::ValueError {
                pos,
                message: message.to_owned(),
                file,
            },
            RuntimeError::TypeMismatchT(expected, found) => RuntimeError::TypeMismatch {
                pos,
                expected,
                found,
                file,
            },
            placed => placed,
        }
    }
}

/// A failure of parsing, placed in the source.
#[derive(Debug)]
pub enum LangError {
    SyntaxError { pos: (usize, usize), message: String, file: Option<String> },
}

/// The kinds of parsing failure.
#[derive(Debug, Clone, Copy, PartialEq, Eq, Structural)]
pub enum LangErrorT {
    SyntaxError,
}

} // verus!
