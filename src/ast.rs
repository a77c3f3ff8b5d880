use vstd::prelude::*;
use crate::value::Decimal;

verus! {

/// A half-open range `[start, end)` of character positions in the source text.
#[derive(Clone, Copy, Debug, PartialEq, Eq, Structural)]
pub struct Span {
    pub start: usize,
    pub end: usize,
}

/// A node of the syntax tree.
#[derive(Debug, PartialEq)]
pub enum Node {
    NumericLiteral(Decimal),
    StringLiteral(String),
    BooleanLiteral(bool),
    Ident(String),
    Op(String),
    Call(Box<Spanned>, Vec<Spanned>),
    While(Box<Spanned>, Vec<Spanned>),
    Range(i64, i64),
    Variable(String, Box<Spanned>),
}

/// A node paired with the stretch of source text it was read from.
pub type Spanned = (Node, Span);

/// Why evaluating a node failed.
#[derive(Debug, Clone, PartialEq)]
pub enum EvaluationError {
    FunctionNotFound(String),
    VariableNotFound(String),
    /// A bare operator run reached evaluation; it has no meaning of its own.
    Unsupported(String),
}

pub type SpannedEvaluationError = (EvaluationError, Span);

impl EvaluationError {
    pub open spec fn spec_message(&self) -> Seq<char> {
        match self {
            EvaluationError::FunctionNotFound(n) => "function "@ + n@ + " not found"@,
            EvaluationError::VariableNotFound(n) => "variable "@ + n@ + " not found"@,
            EvaluationError::Unsupported(op) => "unsupported operator "@ + op@,
        }
    }

    /// A one-line description of the error.
    pub fn message(&self) -> (r: String)
        ensures
            r@ == self.spec_message(),
    {
        match self {
            EvaluationError::FunctionNotFound(n) => {
                let mut s = String::from_str("function ");
                s.append(n.as_str());
                s.append(" not found");
                s
            },
            EvaluationError::VariableNotFound(n) => {
                let mut s = String::from_str("variable ");
                s.append(n.as_str());
                s.append(" not found");
                s
            },
            EvaluationError::Unsupported(op) => {
                let mut s = String::from_str("unsupported operator ");
                s.append(op.as_str());
                s
            },
        }
    }
}

/// Why a stretch of source text could not be read.
#[derive(Debug, Clone, PartialEq)]
pub enum SyntaxReason {
    /// A delimiter opened at `span` was never closed.
    Unclosed { delimiter: char, span: Span },
    /// Something other than what the grammar accepts here; `found` is `None` at the end of input.
    Unexpected { found: Option<char>, expected: Vec<String> },
    /// A malformed literal.
    Custom(String),
}

#[derive(Debug, Clone, PartialEq)]
pub struct SyntaxError {
    pub span: Span,
    pub reason: SyntaxReason,
}

} // verus!
