use vstd::prelude::*;
use vstd::string::*;
use crate::ast::{BinaryOperator, SelectItem, SqlExpr, TableFactor, TableWithJoins, UnaryOperator};
use crate::error::QueryError;
use crate::resolve::{has_input, incoming_ok, inputs_fit};
use crate::graph::{graph_add_edge, graph_add_node, graph_edges, graph_nodes, graph_ok, graph_slots, nat_range, TaskGraph};
use crate::literal::{is_decimal_text, is_integer_text, number_literal, reads_number};
use crate::task::{alias_view, QueryTask, SQLLiteral, TaskAction};

verus! {

/// While the graph is built: one node per task, under the task's index, and
/// no slot left vacant.
pub open spec fn builder_ok(g: TaskGraph, tasks: Seq<QueryTask>) -> bool {
    &&& graph_ok(g)
    &&& graph_slots(g) == tasks.len()
    &&& graph_nodes(g) == nat_range(tasks.len())
}

/// A task as the builder makes it for an expression.
pub open spec fn is_expr_task(t: QueryTask) -> bool {
    &&& !(t.action is Root)
    &&& !(t.action is Finalize)
    &&& !(t.action is Stale)
    &&& !(t.action is Link)
    &&& t.context is None
    &&& !t.required
}

/// `(g1, t1)` is `(g0, t0)` with tasks appended, and with edges added that
/// point into the appended tasks only.
pub open spec fn extends(g0: TaskGraph, t0: Seq<QueryTask>, g1: TaskGraph, t1: Seq<QueryTask>) -> bool {
    &&& t0.len() <= t1.len()
    &&& t1.subrange(0, t0.len() as int) == t0
    &&& forall|e: nat| #[trigger] graph_edges(g0).contains_key(e) ==> graph_edges(g1).contains_key(e)
        && graph_edges(g1)[e] == graph_edges(g0)[e]
    &&& forall|e: nat| #[trigger] graph_edges(g1).contains_key(e) && !graph_edges(g0).contains_key(e)
        ==> graph_edges(g1)[e].1 >= t0.len()
    &&& forall|i: int| t0.len() <= i < t1.len() ==> is_expr_task(#[trigger] t1[i])
}

pub proof fn lemma_extends_refl(g: TaskGraph, t: Seq<QueryTask>)
    ensures
        extends(g, t, g, t),
{
    assert(t.subrange(0, t.len() as int) =~= t);
}

pub proof fn lemma_extends_trans(
    g0: TaskGraph,
    t0: Seq<QueryTask>,
    g1: TaskGraph,
    t1: Seq<QueryTask>,
    g2: TaskGraph,
    t2: Seq<QueryTask>,
)
    requires
        extends(g0, t0, g1, t1),
        extends(g1, t1, g2, t2),
    ensures
        extends(g0, t0, g2, t2),
{
    assert(t2.subrange(0, t0.len() as int) =~= t1.subrange(0, t0.len() as int));
    assert forall|i: int| t0.len() <= i < t2.len() implies is_expr_task(#[trigger] t2[i]) by {
        if i < t1.len() {
            assert(t2[i] == t2.subrange(0, t1.len() as int)[i]);
        }
    }
}

/// The action of the node an expression becomes; a parenthesised expression
/// becomes the node of its content.
pub open spec fn action_for(e: SqlExpr, a: TaskAction) -> bool
    decreases e,
{
    match e {
        SqlExpr::Identifier(id) => a matches TaskAction::Accessor(p) && p@.len() == 1 && p@[0] == id,
        SqlExpr::CompoundIdentifier(ids) => a matches TaskAction::Accessor(p) && p@ == ids@,
        SqlExpr::UnaryOp(op, _) => a == TaskAction::UnaryOp(op),
        SqlExpr::BinaryOp(_, op, _) => a == TaskAction::BinaryOp(op),
        SqlExpr::Number(s) => a matches TaskAction::Literal(l) && reads_number(s@, Ok(l)),
        SqlExpr::SingleQuotedString(s) => a == TaskAction::Literal(SQLLiteral::String(s)),
        SqlExpr::Nested(x) => action_for(*x, a),
        SqlExpr::Unsupported(_) => false,
    }
}

/// The operands of an operator expression, looking through parentheses.
pub open spec fn operands(e: SqlExpr) -> Seq<SqlExpr>
    decreases e,
{
    match e {
        SqlExpr::UnaryOp(_, x) => seq![*x],
        SqlExpr::BinaryOp(l, _, r) => seq![*l, *r],
        SqlExpr::Nested(x) => operands(*x),
        _ => seq![],
    }
}

/// Node `n` takes as argument `w` a node made after `lo` for expression `e`.
pub open spec fn has_operand(g: TaskGraph, tasks: Seq<QueryTask>, n: nat, lo: int, e: SqlExpr, w: int) -> bool {
    exists|m: usize| #[trigger] has_input(g, n, m, w) && lo <= m < n && action_for(e, tasks[m as int].action)
}

/// Every edge goes from a lower index to a higher one, or into the sink at
/// index 1; none leaves the sink.
pub open spec fn edges_ordered(g: TaskGraph) -> bool {
    forall|e: nat| #[trigger] graph_edges(g).contains_key(e) ==> {
        &&& graph_edges(g)[e].0 != 1
        &&& (graph_edges(g)[e].1 == 1 || graph_edges(g)[e].0 < graph_edges(g)[e].1)
    }
}

/// Every edge leaves a node built for an expression (index 2 or more).
pub open spec fn sources_built(g: TaskGraph) -> bool {
    forall|e: nat| #[trigger] graph_edges(g).contains_key(e) ==> graph_edges(g)[e].0 >= 2
}

/// From index `lo` on, every task but an accessor has the inputs its action takes.
pub open spec fn settled_from(g: TaskGraph, tasks: Seq<QueryTask>, lo: int) -> bool {
    forall|m: int| lo <= m < tasks.len() && !((#[trigger] tasks[m]).action is Accessor)
        ==> inputs_fit(g, tasks[m].action, m as nat)
}

/// An expression without identifiers.
pub open spec fn literal_only(e: SqlExpr) -> bool
    decreases e,
{
    match e {
        SqlExpr::Identifier(_) => false,
        SqlExpr::CompoundIdentifier(_) => false,
        SqlExpr::UnaryOp(_, x) => literal_only(*x),
        SqlExpr::BinaryOp(l, _, r) => literal_only(*l) && literal_only(*r),
        SqlExpr::Nested(x) => literal_only(*x),
        _ => true,
    }
}

/// Whether every identifier of an expression is a path of two names or more
/// that starts at the root alias `ra`.
pub open spec fn root_paths(e: SqlExpr, ra: Seq<char>) -> bool
    decreases e,
{
    match e {
        SqlExpr::Identifier(_) => false,
        SqlExpr::CompoundIdentifier(ids) => ids.len() >= 2 && ids@[0]@ == ra,
        SqlExpr::UnaryOp(_, x) => root_paths(*x, ra),
        SqlExpr::BinaryOp(l, _, r) => root_paths(*l, ra) && root_paths(*r, ra),
        SqlExpr::Nested(x) => root_paths(*x, ra),
        _ => true,
    }
}

/// From index `lo` on, no edge enters an accessor, and every accessor path
/// is a root path of `ra` when `rooted` holds.
pub open spec fn accessors_unfed(g: TaskGraph, tasks: Seq<QueryTask>, lo: int) -> bool {
    forall|m: int| lo <= m < tasks.len() && (#[trigger] tasks[m]).action is Accessor ==> !has_inputs_b(g, m as nat)
}

/// From index `lo` on, every accessor path has two names or more and starts at `ra`.
pub open spec fn accessors_rooted(tasks: Seq<QueryTask>, lo: int, ra: Seq<char>) -> bool {
    forall|m: int| lo <= m < tasks.len() && (#[trigger] tasks[m]).action is Accessor
        ==> tasks[m].action->Accessor_0@.len() >= 2 && tasks[m].action->Accessor_0@[0]@ == ra
}

/// From index `lo` on, every accessor path starts at `ra` and has two names
/// or more, unless it is the projection's own node `r`.
pub open spec fn item_accessors_rooted(tasks: Seq<QueryTask>, lo: int, ra: Seq<char>, r: Result<usize, QueryError>) -> bool {
    forall|m: int| lo <= m < tasks.len() && (#[trigger] tasks[m]).action is Accessor
        ==> tasks[m].action->Accessor_0@.len() >= 1 && tasks[m].action->Accessor_0@[0]@ == ra
            && (tasks[m].action->Accessor_0@.len() >= 2 || r == Ok::<usize, QueryError>(m as usize))
}

/// Some edge goes into `n`.
pub open spec fn has_inputs_b(g: TaskGraph, n: nat) -> bool {
    exists|e: nat| #[trigger] graph_edges(g).contains_key(e) && graph_edges(g)[e].1 == n
}

/// Inputs that fit stay fitting while no edge into the node comes or goes.
pub proof fn lemma_fit_kept(g0: TaskGraph, g1: TaskGraph, a: TaskAction, m: nat)
    requires
        inputs_fit(g0, a, m),
        forall|e: nat| #[trigger] graph_edges(g0).contains_key(e) ==> graph_edges(g1).contains_key(e)
            && graph_edges(g1)[e] == graph_edges(g0)[e],
        forall|e: nat| #[trigger] graph_edges(g1).contains_key(e) && graph_edges(g1)[e].1 == m
            ==> graph_edges(g0).contains_key(e),
    ensures
        inputs_fit(g1, a, m),
{
    let p = choose|p: Seq<usize>| #[trigger] incoming_ok(g0, m, p) && (crate::task::arity(a) matches Some(k) ==> p.len() == k);
    assert forall|j: int| 0 <= j < p.len() implies has_input(g1, m, #[trigger] p[j], j + 1) by {
        assert(has_input(g0, m, p[j], j + 1));
        let e = choose|e: nat| #[trigger] graph_edges(g0).contains_key(e) && graph_edges(g0)[e] == (p[j] as nat, m, (j + 1) as nat);
        assert(graph_edges(g1).contains_key(e));
    }
    assert(incoming_ok(g1, m, p));
}

/// After an extension, the earlier tasks from `lo` on still have their inputs.
pub proof fn lemma_settled_extends(g0: TaskGraph, t0: Seq<QueryTask>, g1: TaskGraph, t1: Seq<QueryTask>, lo: int)
    requires
        settled_from(g0, t0, lo),
        extends(g0, t0, g1, t1),
        0 <= lo,
    ensures
        forall|m: int| lo <= m < t0.len() && !((#[trigger] t1[m]).action is Accessor)
            ==> inputs_fit(g1, t1[m].action, m as nat),
{
    assert forall|m: int| lo <= m < t0.len() && !((#[trigger] t1[m]).action is Accessor)
        implies inputs_fit(g1, t1[m].action, m as nat) by {
        assert(t1.subrange(0, t0.len() as int)[m] == t1[m]);
        assert(t1[m] == t0[m]);
        assert forall|e: nat| #[trigger] graph_edges(g1).contains_key(e) && graph_edges(g1)[e].1 == m as nat
            implies graph_edges(g0).contains_key(e) by {
            if !graph_edges(g0).contains_key(e) {
                assert(graph_edges(g1)[e].1 >= t0.len());
            }
        }
        lemma_fit_kept(g0, g1, t0[m].action, m as nat);
    }
}

/// A fresh node that no edge enters takes no input.
pub proof fn lemma_fresh_fits(g: TaskGraph, a: TaskAction, m: nat)
    requires
        crate::task::arity(a) == Some(0nat),
        forall|e: nat| #[trigger] graph_edges(g).contains_key(e) ==> graph_edges(g)[e].1 != m,
    ensures
        inputs_fit(g, a, m),
{
    let p = Seq::<usize>::empty();
    assert(incoming_ok(g, m, p));
}

/// A node that one new edge enters takes that edge's source as its one input.
proof fn lemma_one_input_fits(gb: TaskGraph, g: TaskGraph, a: TaskAction, n: nat, p: usize, e1: nat)
    requires
        crate::task::arity(a) == Some(1nat),
        forall|e: nat| #[trigger] graph_edges(gb).contains_key(e) ==> graph_edges(gb)[e].1 != n,
        !graph_edges(gb).contains_key(e1),
        graph_edges(g) == graph_edges(gb).insert(e1, (p as nat, n, 1nat)),
    ensures
        inputs_fit(g, a, n),
{
    let ps = seq![p];
    assert(graph_edges(g).contains_key(e1));
    assert(has_input(g, n, ps[0], 1));
    assert(incoming_ok(g, n, ps));
}

/// A node that two new edges enter, as arguments 1 and 2, takes their sources.
proof fn lemma_two_inputs_fit(gb: TaskGraph, gm: TaskGraph, g: TaskGraph, a: TaskAction, n: nat, p: usize, q: usize, e1: nat, e2: nat)
    requires
        crate::task::arity(a) == Some(2nat),
        forall|e: nat| #[trigger] graph_edges(gb).contains_key(e) ==> graph_edges(gb)[e].1 != n,
        !graph_edges(gb).contains_key(e1),
        graph_edges(gm) == graph_edges(gb).insert(e1, (p as nat, n, 1nat)),
        !graph_edges(gm).contains_key(e2),
        graph_edges(g) == graph_edges(gm).insert(e2, (q as nat, n, 2nat)),
    ensures
        inputs_fit(g, a, n),
{
    let ps = seq![p, q];
    assert(graph_edges(g).contains_key(e1));
    assert(graph_edges(g).contains_key(e2));
    assert(has_input(g, n, ps[0], 1));
    assert(has_input(g, n, ps[1], 2));
    assert(incoming_ok(g, n, ps));
}

/// An expression without its parentheses.
pub open spec fn unwrapped(e: SqlExpr) -> SqlExpr
    decreases e,
{
    match e {
        SqlExpr::Nested(x) => unwrapped(*x),
        _ => e,
    }
}

/// An expression that becomes a single node: an identifier, a path, a
/// constant or an unsupported form, in any number of parentheses.
pub open spec fn is_leaf(e: SqlExpr) -> bool {
    !(unwrapped(e) is UnaryOp) && !(unwrapped(e) is BinaryOp)
}

/// Whether the builder accepts an expression.
pub open spec fn expr_ok(e: SqlExpr) -> bool
    decreases e,
{
    match e {
        SqlExpr::Identifier(_) => true,
        SqlExpr::CompoundIdentifier(ids) => ids.len() > 0,
        SqlExpr::UnaryOp(_, x) => expr_ok(*x),
        SqlExpr::BinaryOp(l, _, r) => expr_ok(*l) && expr_ok(*r),
        SqlExpr::Number(s) => is_integer_text(s@) || is_decimal_text(s@),
        SqlExpr::SingleQuotedString(_) => true,
        SqlExpr::Nested(x) => expr_ok(*x),
        SqlExpr::Unsupported(_) => false,
    }
}

/// The alias a projection gives its expression.
pub open spec fn item_alias(item: SelectItem) -> Option<Seq<char>> {
    match item {
        SelectItem::ExprWithAlias(_, a) => Some(a@),
        _ => None,
    }
}

/// The path of a projection that is a single identifier path (named or not).
pub open spec fn item_path(item: SelectItem) -> Option<Seq<String>> {
    match item {
        SelectItem::UnnamedExpr(SqlExpr::CompoundIdentifier(ids)) => Some(ids@),
        SelectItem::ExprWithAlias(SqlExpr::CompoundIdentifier(ids), _) => Some(ids@),
        _ => None,
    }
}

/// A projection whose expression has no identifier.
pub open spec fn item_literal_only(item: SelectItem) -> bool {
    match item {
        SelectItem::UnnamedExpr(e) => literal_only(e),
        SelectItem::ExprWithAlias(e, _) => literal_only(e),
        SelectItem::Other => true,
    }
}

/// A projection whose identifiers are all root paths of `ra`, or that is the
/// root alias itself.
pub open spec fn item_root_paths(item: SelectItem, ra: Seq<char>) -> bool {
    match item {
        SelectItem::UnnamedExpr(e) => root_paths(e, ra) || (e matches SqlExpr::Identifier(x) && x@ == ra),
        SelectItem::ExprWithAlias(e, _) => root_paths(e, ra) || (e matches SqlExpr::Identifier(x) && x@ == ra),
        SelectItem::Other => true,
    }
}

/// Whether the builder accepts a projection.
pub open spec fn item_ok(item: SelectItem) -> bool {
    match item {
        SelectItem::UnnamedExpr(e) => expr_ok(e),
        SelectItem::ExprWithAlias(e, _) => expr_ok(e),
        SelectItem::Other => false,
    }
}

/// Appends a task as a new node.
pub fn add_task(g: &mut TaskGraph, tasks: &mut Vec<QueryTask>, task: QueryTask) -> (r: usize)
    requires
        builder_ok(*old(g), old(tasks)@),
    ensures
        builder_ok(*final(g), final(tasks)@),
        r == old(tasks).len(),
        final(tasks)@ == old(tasks)@.push(task),
        graph_edges(*final(g)) == graph_edges(*old(g)),
        is_expr_task(task) ==> extends(*old(g), old(tasks)@, *final(g), final(tasks)@),
{
    let r = graph_add_node(g);
    tasks.push(task);
    proof {
        assert(graph_nodes(*g) =~= nat_range(tasks.len() as nat));
        assert(tasks@.subrange(0, old(tasks)@.len() as int) =~= old(tasks)@);
    }
    r
}

/// Adds the subgraph of an expression; the node it returns carries `alias`.
pub fn add_expr(
    g: &mut TaskGraph,
    tasks: &mut Vec<QueryTask>,
    expr: &SqlExpr,
    alias: Option<String>,
) -> (r: Result<usize, QueryError>)
    requires
        builder_ok(*old(g), old(tasks)@),
    ensures
        builder_ok(*final(g), final(tasks)@),
        extends(*old(g), old(tasks)@, *final(g), final(tasks)@),
        r is Ok <==> expr_ok(*expr),
        r matches Err(e) ==> e is UnsupportedExpression || e is InvalidNumber,
        r matches Ok(n) ==> old(tasks).len() <= n < final(tasks).len()
            && final(tasks)@[n as int].alias == alias
            && !final(tasks)@[n as int].required
            && action_for(*expr, final(tasks)@[n as int].action)
            && forall|j: int| 0 <= j < operands(*expr).len() ==> has_operand(
                *final(g), final(tasks)@, n as nat, old(tasks).len() as int, #[trigger] operands(*expr)[j], j + 1),
        forall|i: int| old(tasks).len() <= i < final(tasks).len() && (#[trigger] final(tasks)@[i]).alias is Some
            ==> r == Ok::<usize, QueryError>(i as usize),
        edges_ordered(*old(g)) && old(tasks).len() >= 2 ==> edges_ordered(*final(g)),
        sources_built(*old(g)) && old(tasks).len() >= 2 ==> sources_built(*final(g)),
        settled_from(*final(g), final(tasks)@, old(tasks).len() as int),
        literal_only(*expr) ==> forall|m: int| old(tasks).len() <= m < final(tasks).len()
            ==> !((#[trigger] final(tasks)@[m]).action is Accessor),
        accessors_unfed(*final(g), final(tasks)@, old(tasks).len() as int),
        forall|ra: Seq<char>| #[trigger] root_paths(*expr, ra)
            ==> accessors_rooted(final(tasks)@, old(tasks).len() as int, ra),
        is_leaf(*expr) && r is Ok
            ==> final(tasks).len() == old(tasks).len() + 1 && graph_edges(*final(g)) == graph_edges(*old(g)),
        is_leaf(*expr) && r is Err ==> final(tasks)@ == old(tasks)@ && *final(g) == *old(g),
        unwrapped(*expr) matches SqlExpr::Unsupported(t) ==> r == Err::<usize, QueryError>(QueryError::UnsupportedExpression(t)),
    decreases expr,
{
    proof {
        lemma_extends_refl(*g, tasks@);
    }
    let ghost g0 = *g;
    let ghost t0 = tasks@;
    match expr {
        SqlExpr::Identifier(id) => {
            let mut path: Vec<String> = Vec::new();
            path.push(id.clone());
            let task = QueryTask { alias, action: TaskAction::Accessor(path), required: false, context: None };
            let n = add_task(g, tasks, task);
            proof {
                assert(action_for(*expr, tasks@[n as int].action));
                assert(operands(*expr).len() == 0);
            }
            Ok(n)
        },
        SqlExpr::CompoundIdentifier(ids) => {
            if ids.len() == 0 {
                return Err(QueryError::UnsupportedExpression(String::from_str("empty identifier")));
            }
            let path = ids.clone();
            proof {
                assert(path@ =~= ids@);
            }
            let task = QueryTask { alias, action: TaskAction::Accessor(path), required: false, context: None };
            let n = add_task(g, tasks, task);
            proof {
                assert forall|ra: Seq<char>| #[trigger] root_paths(*expr, ra)
                    implies accessors_rooted(tasks@, t0.len() as int, ra) by {
                    assert(tasks@[n as int].action->Accessor_0@ == ids@);
                }
                assert(action_for(*expr, tasks@[n as int].action));
                assert(operands(*expr).len() == 0);
            }
            Ok(n)
        },
        SqlExpr::UnaryOp(op, inner) => {
            let pr = add_expr(g, tasks, inner, None);
            proof {
                assert forall|ra: Seq<char>| #[trigger] root_paths(*expr, ra)
                    implies accessors_rooted(tasks@, t0.len() as int, ra) by {
                    assert(root_paths(**inner, ra));
                }
            }
            let p = pr?;
            let ghost g1 = *g;
            let ghost t1 = tasks@;
            let action = match op {
                UnaryOperator::Plus => UnaryOperator::Plus,
                UnaryOperator::Minus => UnaryOperator::Minus,
                UnaryOperator::Not => UnaryOperator::Not,
                UnaryOperator::Other(s) => UnaryOperator::Other(s.clone()),
            };
            let task = QueryTask { alias, action: TaskAction::UnaryOp(action), required: false, context: None };
            let n = add_task(g, tasks, task);
            let ghost gb = *g;
            proof {
                assert forall|e: nat| #[trigger] graph_edges(gb).contains_key(e) implies graph_edges(gb)[e].1 != n as nat by {
                    assert(graph_edges(g1).contains_key(e));
                    assert(graph_nodes(g1).contains(graph_edges(g1)[e].1));
                }
            }
            let e1 = graph_add_edge(g, p, n, 1);
            proof {
                lemma_one_input_fits(gb, *g, tasks@[n as int].action, n as nat, p, e1 as nat);
                assert(tasks@.subrange(0, t1.len() as int) =~= t1);
                lemma_extends_trans(g0, t0, g1, t1, *g, tasks@);
                assert(graph_edges(*g).contains_key(e1 as nat));
                assert(has_input(*g, n as nat, p, 1));
                assert(tasks@[p as int] == t1[p as int]);
                assert(operands(*expr)[0] == **inner);
                assert(has_operand(*g, tasks@, n as nat, t0.len() as int, operands(*expr)[0], 1));
                assert forall|i: int| t0.len() <= i < tasks@.len() && (#[trigger] tasks@[i]).alias is Some
                    implies i == n by {
                    if i < t1.len() {
                        assert(tasks@[i] == t1[i]);
                    }
                }
                lemma_settled_extends(g1, t1, *g, tasks@, t0.len() as int);
                assert(settled_from(*g, tasks@, t0.len() as int));
                assert forall|ra: Seq<char>| #[trigger] root_paths(*expr, ra)
                    implies accessors_rooted(tasks@, t0.len() as int, ra) by {
                    assert(accessors_rooted(t1, t0.len() as int, ra));
                    assert forall|m: int| t0.len() <= m < t1.len() implies #[trigger] tasks@[m] == t1[m] by {
                        assert(tasks@.subrange(0, t1.len() as int)[m] == tasks@[m]);
                    }
                }
            }
            Ok(n)
        },
        SqlExpr::BinaryOp(left, op, right) => {
            let ar = add_expr(g, tasks, left, None);
            proof {
                assert forall|ra: Seq<char>| #[trigger] root_paths(*expr, ra)
                    implies accessors_rooted(tasks@, t0.len() as int, ra) by {
                    assert(root_paths(**left, ra));
                }
            }
            let a = ar?;
            let ghost g1 = *g;
            let ghost t1 = tasks@;
            let b_res = add_expr(g, tasks, right, None);
            let ghost g2 = *g;
            let ghost t2 = tasks@;
            proof {
                lemma_extends_trans(g0, t0, g1, t1, g2, t2);
                assert forall|i: int| t0.len() <= i < t1.len() && (#[trigger] t2[i]).alias is Some implies false by {
                    assert(t2.subrange(0, t1.len() as int)[i] == t2[i]);
                    assert(t2[i] == t1[i]);
                }
                lemma_settled_extends(g1, t1, g2, t2, t0.len() as int);
                assert forall|m: int| t0.len() <= m < t1.len() implies #[trigger] t2[m] == t1[m] by {
                    assert(t2.subrange(0, t1.len() as int)[m] == t2[m]);
                }
                assert(settled_from(g2, t2, t0.len() as int));
                assert forall|ra: Seq<char>| #[trigger] root_paths(*expr, ra)
                    implies accessors_rooted(t2, t0.len() as int, ra) by {
                    assert(root_paths(**left, ra));
                    assert(root_paths(**right, ra));
                    assert(accessors_rooted(t1, t0.len() as int, ra));
                    assert forall|m: int| t0.len() <= m < t2.len() && (#[trigger] t2[m]).action is Accessor
                        implies t2[m].action->Accessor_0@.len() >= 2 && t2[m].action->Accessor_0@[0]@ == ra by {
                        if m < t1.len() {
                            assert(t2.subrange(0, t1.len() as int)[m] == t2[m]);
                        }
                    }
                }
            }
            let b = b_res?;
            let action = copy_binary_operator(op);
            let task = QueryTask { alias, action: TaskAction::BinaryOp(action), required: false, context: None };
            let n = add_task(g, tasks, task);
            let ghost gb = *g;
            proof {
                assert forall|e: nat| #[trigger] graph_edges(gb).contains_key(e) implies graph_edges(gb)[e].1 != n as nat by {
                    assert(graph_edges(g2).contains_key(e));
                    assert(graph_nodes(g2).contains(graph_edges(g2)[e].1));
                }
            }
            let e1 = graph_add_edge(g, a, n, 1);
            let ghost g3 = *g;
            let e2 = graph_add_edge(g, b, n, 2);
            proof {
                lemma_two_inputs_fit(gb, g3, *g, tasks@[n as int].action, n as nat, a, b, e1 as nat, e2 as nat);
                lemma_settled_extends(g2, t2, *g, tasks@, t0.len() as int);
                assert(tasks@.subrange(0, t2.len() as int) =~= t2);
                lemma_extends_trans(g0, t0, g2, t2, *g, tasks@);
                assert(graph_edges(g3).contains_key(e1 as nat));
                assert(graph_edges(*g).contains_key(e1 as nat));
                assert(graph_edges(*g).contains_key(e2 as nat));
                assert(has_input(*g, n as nat, a, 1));
                assert(has_input(*g, n as nat, b, 2));
                assert(t2[a as int] == t1[a as int]) by {
                    assert(t2.subrange(0, t1.len() as int)[a as int] == t2[a as int]);
                }
                assert(tasks@[a as int] == t2[a as int]);
                assert(tasks@[b as int] == t2[b as int]);
                assert(operands(*expr)[0] == **left);
                assert(operands(*expr)[1] == **right);
                assert(has_operand(*g, tasks@, n as nat, t0.len() as int, operands(*expr)[0], 1));
                assert(has_operand(*g, tasks@, n as nat, t0.len() as int, operands(*expr)[1], 2));
                assert forall|i: int| t0.len() <= i < tasks@.len() && (#[trigger] tasks@[i]).alias is Some
                    implies i == n by {
                    if i < t2.len() {
                        assert(tasks@[i] == t2[i]);
                        if i < t1.len() {
                            assert(t2.subrange(0, t1.len() as int)[i] == t2[i]);
                        }
                    }
                }
                assert forall|m: int| t0.len() <= m < t2.len() implies #[trigger] tasks@[m] == t2[m] by {
                    assert(tasks@.subrange(0, t2.len() as int)[m] == tasks@[m]);
                }
                assert(settled_from(*g, tasks@, t0.len() as int));
                assert forall|ra: Seq<char>| #[trigger] root_paths(*expr, ra)
                    implies accessors_rooted(tasks@, t0.len() as int, ra) by {
                    assert(accessors_rooted(t2, t0.len() as int, ra));
                }
            }
            Ok(n)
        },
        SqlExpr::Number(text) => {
            let lit = number_literal(text);
            match lit {
                Ok(l) => {
                    let task = QueryTask { alias, action: TaskAction::Literal(l), required: false, context: None };
                    let n = add_task(g, tasks, task);
                    proof {
                        assert forall|e: nat| #[trigger] graph_edges(*g).contains_key(e) implies graph_edges(*g)[e].1 != n as nat by {
                            assert(graph_edges(g0).contains_key(e));
                            assert(graph_nodes(g0).contains(graph_edges(g0)[e].1));
                        }
                        lemma_fresh_fits(*g, tasks@[n as int].action, n as nat);
                        assert(action_for(*expr, tasks@[n as int].action));
                        assert(operands(*expr).len() == 0);
                    }
                    Ok(n)
                },
                Err(e) => Err(e),
            }
        },
        SqlExpr::SingleQuotedString(s) => {
            let task = QueryTask {
                alias,
                action: TaskAction::Literal(SQLLiteral::String(s.clone())),
                required: false,
                context: None,
            };
            let n = add_task(g, tasks, task);
            proof {
                assert forall|e: nat| #[trigger] graph_edges(*g).contains_key(e) implies graph_edges(*g)[e].1 != n as nat by {
                    assert(graph_edges(g0).contains_key(e));
                    assert(graph_nodes(g0).contains(graph_edges(g0)[e].1));
                }
                lemma_fresh_fits(*g, tasks@[n as int].action, n as nat);
                assert(action_for(*expr, tasks@[n as int].action));
                assert(operands(*expr).len() == 0);
            }
            Ok(n)
        },
        SqlExpr::Nested(inner) => {
            let r = add_expr(g, tasks, inner, alias);
            proof {
                assert forall|ra: Seq<char>| #[trigger] root_paths(*expr, ra)
                    implies accessors_rooted(tasks@, t0.len() as int, ra) by {
                    assert(root_paths(**inner, ra));
                }
                assert(operands(*expr) == operands(**inner));
            }
            r
        },
        SqlExpr::Unsupported(text) => Err(QueryError::UnsupportedExpression(text.clone())),
    }
}

pub fn copy_binary_operator(op: &BinaryOperator) -> (r: BinaryOperator)
    ensures
        r == *op,
{
    match op {
        BinaryOperator::Plus => BinaryOperator::Plus,
        BinaryOperator::Minus => BinaryOperator::Minus,
        BinaryOperator::Multiply => BinaryOperator::Multiply,
        BinaryOperator::Divide => BinaryOperator::Divide,
        BinaryOperator::Eq => BinaryOperator::Eq,
        BinaryOperator::Lt => BinaryOperator::Lt,
        BinaryOperator::LtEq => BinaryOperator::LtEq,
        BinaryOperator::Gt => BinaryOperator::Gt,
        BinaryOperator::GtEq => BinaryOperator::GtEq,
        BinaryOperator::Other(s) => BinaryOperator::Other(s.clone()),
    }
}

/// Adds the subgraph of a projection; an `AS name` becomes the alias of its node.
pub fn add_select_item(g: &mut TaskGraph, tasks: &mut Vec<QueryTask>, item: &SelectItem) -> (r: Result<usize, QueryError>)
    requires
        builder_ok(*old(g), old(tasks)@),
    ensures
        builder_ok(*final(g), final(tasks)@),
        extends(*old(g), old(tasks)@, *final(g), final(tasks)@),
        r is Ok <==> item_ok(*item),
        r matches Err(e) ==> e is UnsupportedExpression || e is InvalidNumber || e is UnsupportedSelectItem,
        forall|i: int| old(tasks).len() <= i < final(tasks).len() && (#[trigger] final(tasks)@[i]).alias is Some
            ==> r == Ok::<usize, QueryError>(i as usize),
        r matches Ok(n) ==> old(tasks).len() <= n < final(tasks).len()
            && alias_view(final(tasks)@[n as int].alias) == item_alias(*item)
            && !final(tasks)@[n as int].required
            && match *item {
                SelectItem::UnnamedExpr(e) => action_for(e, final(tasks)@[n as int].action),
                SelectItem::ExprWithAlias(e, _) => action_for(e, final(tasks)@[n as int].action),
                SelectItem::Other => false,
            },
        edges_ordered(*old(g)) && old(tasks).len() >= 2 ==> edges_ordered(*final(g)),
        sources_built(*old(g)) && old(tasks).len() >= 2 ==> sources_built(*final(g)),
        settled_from(*final(g), final(tasks)@, old(tasks).len() as int),
        item_literal_only(*item) ==> forall|m: int| old(tasks).len() <= m < final(tasks).len()
            ==> !((#[trigger] final(tasks)@[m]).action is Accessor),
        *item is Other ==> (r matches Err(QueryError::UnsupportedSelectItem)) && final(tasks)@ == old(tasks)@
            && *final(g) == *old(g),
        accessors_unfed(*final(g), final(tasks)@, old(tasks).len() as int),
        item_path(*item) is Some && r is Ok ==> final(tasks).len() == old(tasks).len() + 1
            && final(tasks)@[old(tasks).len() as int].action is Accessor
            && final(tasks)@[old(tasks).len() as int].action->Accessor_0@ == item_path(*item)->Some_0,
        forall|ra: Seq<char>| #[trigger] item_root_paths(*item, ra)
            ==> item_accessors_rooted(final(tasks)@, old(tasks).len() as int, ra, r),
{
    match item {
        SelectItem::UnnamedExpr(e) => {
            let r = add_expr(g, tasks, e, None);
            proof {
                assert forall|ra: Seq<char>| #[trigger] item_root_paths(*item, ra)
                    implies item_accessors_rooted(tasks@, old(tasks).len() as int, ra, r) by {
                    if root_paths(*e, ra) {
                        assert(accessors_rooted(tasks@, old(tasks).len() as int, ra));
                    } else {
                        assert(tasks.len() == old(tasks).len() + 1);
                    }
                }
            }
            r
        },
        SelectItem::ExprWithAlias(e, a) => {
            let r = add_expr(g, tasks, e, Some(a.clone()));
            proof {
                assert forall|ra: Seq<char>| #[trigger] item_root_paths(*item, ra)
                    implies item_accessors_rooted(tasks@, old(tasks).len() as int, ra, r) by {
                    if root_paths(*e, ra) {
                        assert(accessors_rooted(tasks@, old(tasks).len() as int, ra));
                    } else {
                        assert(tasks.len() == old(tasks).len() + 1);
                    }
                }
            }
            r
        },
        SelectItem::Other => {
            proof {
                lemma_extends_refl(*g, tasks@);
            }
            Err(QueryError::UnsupportedSelectItem)
        },
    }
}

/// The name of the single source of a `FROM` entry.
pub fn get_table_name(table: &TableWithJoins) -> (r: Result<String, QueryError>)
    ensures
        table.joins > 0 ==> r matches Err(QueryError::JoinsNotSupported),
        table.joins == 0 ==> match table.relation {
            TableFactor::Table(name) => r == Ok::<String, QueryError>(name),
            TableFactor::Other => r matches Err(QueryError::UnsupportedTable),
        },
{
    if table.joins > 0 {
        return Err(QueryError::JoinsNotSupported);
    }
    match &table.relation {
        TableFactor::Table(name) => Ok(name.clone()),
        TableFactor::Other => Err(QueryError::UnsupportedTable),
    }
}

} // verus!
