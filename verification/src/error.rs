//! The error taxonomy of the compiler. Every error is fatal to the current
//! compilation: the first one encountered aborts the remaining stages, and no
//! partial output is produced.

use crate::token::TokenType;
use vstd::prelude::*;

verus! {

#[derive(Debug, Clone, PartialEq, Eq)]
pub enum CompileError {
    /// A character sequence matching no lexical rule, with its byte span in
    /// the source text.
    LexError { start: usize, end: usize },
    /// An unexpected token at token index `at`: `expected` is the wanted kind
    /// (`None` for an expression), `found` the kind met (`None` at end of
    /// input).
    ParseError { expected: Option<TokenType>, found: Option<TokenType>, at: usize },
    /// A literal at token index `at` that spells no value of its parameter's
    /// type: a sign or fractional part on an integer parameter, a value past
    /// 256 bits, or an address of other than 40 hexadecimal digits.
    LiteralError { at: usize },
    /// Two macro definitions share a name.
    DuplicateMacroError,
    /// No macro is named `main`.
    MissingMainError,
    /// An invocation names a macro that is not defined.
    UndefinedMacroError,
    /// A macro reaches itself again along a chain of invocations.
    CyclicMacroError,
    /// A numeric field of the instruction at index `at` of the expanded list
    /// exceeds its declared bit width.
    EncodingOverflowError { at: usize },
}

} // verus!
