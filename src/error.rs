use vstd::prelude::*;

verus! {

/// Everything that can stop a statement from compiling or a task from running.
#[derive(Debug)]
pub enum QueryError {
    /// A statement other than `SELECT` or `FOREACH`.
    UnsupportedStatement(String),
    /// An expression form the compiler does not accept, with its text.
    UnsupportedExpression(String),
    /// A projection that is not an expression (a wildcard, for instance).
    UnsupportedSelectItem,
    /// A numeric literal that is neither a signed 64-bit integer nor a decimal.
    InvalidNumber(String),
    /// The `FROM` clause is missing.
    MissingSource,
    /// The `FROM` clause joins tables.
    JoinsNotSupported,
    /// The `FROM` clause names something other than a table.
    UnsupportedTable,
    /// The loop expression of a `FOREACH` has no alias.
    ForeachAliasRequired,
    /// A user alias collides with a reserved root name.
    ReservedAlias(String),
    /// A task does not have as many inputs as its action needs.
    MissingContext(usize),
    /// The argument positions of a task's inputs are not `1..=k`.
    WeightMismatch,
    /// Accessors left without a producer, each given by its path.
    InvalidAccesses(Vec<Vec<String>>),
    /// The task graph has a cycle.
    Cycle,
    /// `-x` on a value that is not a number.
    UnaryMinusNotNumber,
    /// `!x` on a value that is not a boolean.
    NotRequiresBoolean,
    /// A unary operator that is not evaluated.
    UnsupportedUnaryOp(String),
    /// A binary operator that is not evaluated.
    UnsupportedBinaryOp(String),
    /// A binary operator applied to operands that are not both numbers.
    NonNumericOperands,
    /// Arithmetic or comparison with a floating-point operand.
    FloatOperand,
    /// An integer result outside the range of JSON integers.
    NumericOverflow,
    /// Division by zero.
    DivisionByZero,
    /// A function call; functions are reserved.
    FunctionNotImplemented(String),
    /// The loop expression of a `FOREACH` gave no single value.
    ForeachSingleValue,
    /// The loop expression of a `FOREACH` gave a value that is not an array.
    ForeachNotArray,
}

} // verus!
