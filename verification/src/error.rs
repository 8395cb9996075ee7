//! The error taxonomy of the interpreter.
//!
//! Every failure of the lexer, the parser or the machine is one of these
//! variants; none of the library's verified functions panics.

use vstd::prelude::*;

verus! {

/// An evaluation, lexing or parsing failure.
#[derive(Clone, Copy, PartialEq, Eq, Structural, Debug)]
pub enum LispError {
    /// The lexer met a character sequence that is no token.
    LexError,
    /// A form is malformed: wrong shape or arity for a special form,
    /// or a token stream that no value can be read from.
    SyntaxError,
    /// A primitive received a value of an incompatible kind.
    TypeMismatch,
    /// An identifier was found nowhere on the environment chain.
    UnboundVariable,
    /// The callee slot holds a value that cannot be applied.
    InvalidApplication,
    /// The machine found its own invariant violated.
    InternalError,
    /// The token stream ended where a value was expected.
    UnexpectedEnd,
    /// The step allowance handed to `eval` was spent before the machine halted.
    OutOfSteps,
}

impl LispError {
    /// The textual form of the error, as the driver reports it.
    pub fn text(&self) -> (r: &'static str)
        ensures
            r@ == self.text_model(),
    {
        proof {
            reveal_strlit("lexer error");
            reveal_strlit("syntax error");
            reveal_strlit("type mismatch");
            reveal_strlit("unbound variable");
            reveal_strlit("invalid application");
            reveal_strlit("internal error");
            reveal_strlit("unexpected end of input");
            reveal_strlit("out of steps");
        }
        match self {
            LispError::LexError => "lexer error",
            LispError::SyntaxError => "syntax error",
            LispError::TypeMismatch => "type mismatch",
            LispError::UnboundVariable => "unbound variable",
            LispError::InvalidApplication => "invalid application",
            LispError::InternalError => "internal error",
            LispError::UnexpectedEnd => "unexpected end of input",
            LispError::OutOfSteps => "out of steps",
        }
    }

    /// What `text` returns, as a sequence of characters.
    pub open spec fn text_model(self) -> Seq<char> {
        match self {
            LispError::LexError => "lexer error"@,
            LispError::SyntaxError => "syntax error"@,
            LispError::TypeMismatch => "type mismatch"@,
            LispError::UnboundVariable => "unbound variable"@,
            LispError::InvalidApplication => "invalid application"@,
            LispError::InternalError => "internal error"@,
            LispError::UnexpectedEnd => "unexpected end of input"@,
            LispError::OutOfSteps => "out of steps"@,
        }
    }
}

} // verus!
