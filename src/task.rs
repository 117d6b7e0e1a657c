use vstd::prelude::*;
use crate::ast::{BinaryOperator, UnaryOperator};

verus! {

/// A constant of the query text.
pub enum SQLLiteral {
    Integer(i64),
    /// A decimal literal, by its text.
    Float(String),
    String(String),
}

/// The operation a task performs.
pub enum TaskAction {
    /// Produces a constant.
    Literal(SQLLiteral),
    /// Copies its parent's value.
    Link,
    /// Reads `parent[path[0]][path[1]]...`.
    Accessor(Vec<String>),
    UnaryOp(UnaryOperator),
    BinaryOp(BinaryOperator),
    /// Reserved: a function call by name.
    Function(String),
    /// Holds the input document.
    Root,
    /// Collects the required outputs.
    Finalize,
    /// Marks a task removed by alias resolution.
    Stale,
}

/// The parents a task reads, in argument order.
pub enum TaskContext {
    SingleParent(usize),
    DualParent(usize, usize),
    MultiParent(Vec<usize>),
}

/// A node of the task graph.
pub struct QueryTask {
    pub alias: Option<String>,
    pub action: TaskAction,
    pub required: bool,
    pub context: Option<TaskContext>,
}

/// The text of an alias.
pub open spec fn alias_view(a: Option<String>) -> Option<Seq<char>> {
    match a {
        Some(s) => Some(s@),
        None => None,
    }
}

/// How many inputs an action takes; `None` for any number.
pub open spec fn arity(a: TaskAction) -> Option<nat> {
    match a {
        TaskAction::Accessor(_) => Some(1),
        TaskAction::Link => Some(1),
        TaskAction::UnaryOp(_) => Some(1),
        TaskAction::BinaryOp(_) => Some(2),
        TaskAction::Function(_) => None,
        _ => Some(0),
    }
}

/// Whether the evaluator runs a task with this action.
pub open spec fn is_computing(a: TaskAction) -> bool {
    a is Accessor || a is Link || a is UnaryOp || a is BinaryOp || a is Function
}

/// The parents of a context, in argument order.
pub open spec fn context_parents(c: TaskContext) -> Seq<usize> {
    match c {
        TaskContext::SingleParent(p) => seq![p],
        TaskContext::DualParent(p, q) => seq![p, q],
        TaskContext::MultiParent(v) => v@,
    }
}

impl TaskAction {
    pub fn is_computing_exec(&self) -> (r: bool)
        ensures
            r == is_computing(*self),
    {
        match self {
            TaskAction::Accessor(_) | TaskAction::Link | TaskAction::UnaryOp(_)
            | TaskAction::BinaryOp(_) | TaskAction::Function(_) => true,
            _ => false,
        }
    }
}

impl QueryTask {
    /// A task with no alias, no context and the given action.
    pub fn with_action(action: TaskAction, required: bool) -> (r: QueryTask)
        ensures
            r.alias is None,
            r.action == action,
            r.required == required,
            r.context is None,
    {
        QueryTask { alias: None, action, required, context: None }
    }
}

} // verus!
