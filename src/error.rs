use vstd::prelude::*;

verus! {

/// Why an expression produced no value.
#[derive(Debug, Clone, Copy, PartialEq, Eq, Structural)]
pub enum EvaluationError {
    /// A character that is not part of the expression alphabet was met
    /// under the rejecting policy, or a literal does not fit in `usize`.
    LexicalError,
    /// The tokens do not form `literal (operator literal)*`.
    StructuralError,
    /// A division by zero, or a value that does not fit in `i64`.
    ArithmeticError,
}

} // verus!
