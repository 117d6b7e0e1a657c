use vstd::prelude::*;

verus! {

/// Unary operators of the query language.
pub enum UnaryOperator {
    Plus,
    Minus,
    Not,
    /// Any other operator, by its text.
    Other(String),
}

/// Binary operators of the query language.
pub enum BinaryOperator {
    Plus,
    Minus,
    Multiply,
    Divide,
    Eq,
    Lt,
    LtEq,
    Gt,
    GtEq,
    /// Any other operator, by its text.
    Other(String),
}

/// A parsed expression.
pub enum SqlExpr {
    /// `x`
    Identifier(String),
    /// `a.b.c`
    CompoundIdentifier(Vec<String>),
    /// `op e`
    UnaryOp(UnaryOperator, Box<SqlExpr>),
    /// `l op r`
    BinaryOp(Box<SqlExpr>, BinaryOperator, Box<SqlExpr>),
    /// A numeric literal, by its text.
    Number(String),
    /// A single-quoted string literal.
    SingleQuotedString(String),
    /// `(e)`
    Nested(Box<SqlExpr>),
    /// Any other expression, by its text.
    Unsupported(String),
}

/// One projection of a statement.
pub enum SelectItem {
    UnnamedExpr(SqlExpr),
    ExprWithAlias(SqlExpr, String),
    /// A wildcard or another projection that is not an expression.
    Other,
}

/// The relation of a `FROM` entry.
pub enum TableFactor {
    /// A named table.
    Table(String),
    /// A derived table, a function or another relation.
    Other,
}

/// One entry of a `FROM` clause: a relation and the number of joins on it.
pub struct TableWithJoins {
    pub relation: TableFactor,
    pub joins: usize,
}

/// `SELECT projection FROM from [WHERE selection]`
pub struct Select {
    pub projection: Vec<SelectItem>,
    pub from: Vec<TableWithJoins>,
    pub selection: Option<SqlExpr>,
}

/// `FOREACH select_item RETURN return_items [WHEN when_expr] FROM from_table [WHERE where_expr]`
pub struct ForeachStatement {
    pub select_item: SelectItem,
    pub return_items: Option<Vec<SelectItem>>,
    pub when_expr: Option<SqlExpr>,
    pub from_table: TableWithJoins,
    pub where_expr: Option<SqlExpr>,
}

/// A parsed statement.
pub enum Statement {
    Select(Select),
    Foreach(ForeachStatement),
    /// Any other statement, by its text.
    Other(String),
}

} // verus!
