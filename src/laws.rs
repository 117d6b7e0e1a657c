use vstd::prelude::*;
use crate::ast::BinaryOperator;
use crate::error::QueryError;
use crate::compile::BuiltQueryForeach;
use crate::execute::{
    eval_select, foreach_result, harvest, lemma_parents_in_range, run, start_values, step, NestedQueryResult,
    SimpleQueryResult,
};
use crate::graph::{graph_edges, graph_nodes, is_acyclic};
use crate::json::{int_value, JsonV, NumV};
use crate::ops::{binary_result, is_arithmetic, is_comparison};
use crate::plan::Query;
use crate::resolve::{has_input, incoming_ok, task_parents};
use crate::task::{arity, QueryTask, TaskContext};

verus! {

/// The task graph of every compiled plan is acyclic.
pub proof fn lemma_plan_acyclic(q: Query)
    requires
        q.wf(),
    ensures
        is_acyclic(q.task_graph),
{
}

/// Every node of a compiled plan but the sink has as many inputs as its
/// action takes, with argument positions exactly `1..=k`: each input's
/// position is in range, no two inputs share one, and each is taken.
pub proof fn lemma_inputs_match_arity(q: Query, n: nat)
    requires
        q.wf(),
        graph_nodes(q.task_graph).contains(n),
        !(q.tasks@[n as int].action is Finalize),
    ensures
        arity(q.tasks@[n as int].action) matches Some(k) ==> task_parents(q.tasks@[n as int]).len() == k,
        incoming_ok(q.task_graph, n, task_parents(q.tasks@[n as int])),
{
}

/// Every accessor of a compiled plan reads a producer: it has one parent,
/// joined to it by an edge of weight 1.
pub proof fn lemma_accessor_has_producer(q: Query, n: nat)
    requires
        q.wf(),
        graph_nodes(q.task_graph).contains(n),
        q.tasks@[n as int].action is Accessor,
    ensures
        q.tasks@[n as int].context matches Some(TaskContext::SingleParent(p))
            && has_input(q.task_graph, n, p, 1)
            && graph_nodes(q.task_graph).contains(p as nat),
{
    let p = q.tasks@[n as int].context->Some_0->SingleParent_0;
    assert(task_parents(q.tasks@[n as int])[0] == p);
    let e = choose|e: nat| #[trigger] graph_edges(q.task_graph).contains_key(e)
        && graph_edges(q.task_graph)[e] == (p as nat, n, 1nat);
    assert(graph_nodes(q.task_graph).contains(graph_edges(q.task_graph)[e].0));
}

/// Two evaluations of one plan on one input give the same result.
pub proof fn lemma_evaluation_deterministic(
    q: Query,
    input: JsonV,
    r1: Result<SimpleQueryResult, QueryError>,
    r2: Result<SimpleQueryResult, QueryError>,
)
    requires
        match (r1, eval_select(q, input)) {
            (Ok(res), Ok(v)) => res@ == v,
            (Err(e), Err(f)) => e == f,
            _ => false,
        },
        match (r2, eval_select(q, input)) {
            (Ok(res), Ok(v)) => res@ == v,
            (Err(e), Err(f)) => e == f,
            _ => false,
        },
    ensures
        r1 is Ok <==> r2 is Ok,
        r1 matches Ok(a) ==> r2 matches Ok(b) && a@ == b@,
        r1 matches Err(a) ==> r2 matches Err(b) && a == b,
{
}

/// Whether no task in the execution list reads the root slot.
pub open spec fn reads_no_input(q: Query) -> bool {
    forall|k: int, j: int| 0 <= k < q.order.len() && 0 <= j < task_parents(q.tasks@[q.order@[k] as int]).len()
        ==> #[trigger] task_parents(q.tasks@[q.order@[k] as int])[j] != 0
}

/// Two value lists that differ at most in the root slot.
pub open spec fn agree_but_root(a: Seq<JsonV>, b: Seq<JsonV>) -> bool {
    &&& a.len() == b.len()
    &&& forall|i: int| 0 < i < a.len() ==> #[trigger] a[i] == b[i]
}

proof fn lemma_run_ignores_root(q: Query, a: Seq<JsonV>, b: Seq<JsonV>, k: int)
    requires
        q.wf(),
        reads_no_input(q),
        agree_but_root(a, b),
        a.len() == q.tasks.len(),
        0 <= k <= q.order.len(),
    ensures
        match (run(q.tasks@, q.order@, a, k), run(q.tasks@, q.order@, b, k)) {
            (Ok(x), Ok(y)) => agree_but_root(x, y) && x.len() == a.len(),
            (Err(e), Err(f)) => e == f,
            _ => false,
        },
    decreases k,
{
    if k > 0 {
        lemma_run_ignores_root(q, a, b, k - 1);
        let ra = run(q.tasks@, q.order@, a, k - 1);
        let rb = run(q.tasks@, q.order@, b, k - 1);
        if ra is Ok {
            let x = ra->Ok_0;
            let y = rb->Ok_0;
            let n = q.order@[k - 1];
            let t = q.tasks@[n as int];
            lemma_parents_in_range(q, n as nat);
            assert(n != 0) by {
                if n == 0 {
                    assert(q.tasks@[0].action is Root);
                }
            }
            match t.context {
                Some(TaskContext::SingleParent(p)) => {
                    assert(task_parents(t)[0] == p);
                    assert(task_parents(q.tasks@[q.order@[k - 1] as int])[0] != 0);
                    assert(x[p as int] == y[p as int]);
                },
                Some(TaskContext::DualParent(p, r)) => {
                    assert(task_parents(t)[0] == p);
                    assert(task_parents(t)[1] == r);
                    assert(task_parents(q.tasks@[q.order@[k - 1] as int])[0] != 0);
                    assert(task_parents(q.tasks@[q.order@[k - 1] as int])[1] != 0);
                    assert(x[p as int] == y[p as int]);
                    assert(x[r as int] == y[r as int]);
                },
                _ => {},
            }
            let sa = step(t, x, n as int);
            let sb = step(t, y, n as int);
            if sa is Ok && sb is Ok {
                assert(agree_but_root(sa->Ok_0, sb->Ok_0));
            }
        }
    }
}

/// A plan none of whose tasks reads the input gives the same result on every input.
pub proof fn lemma_literal_only_ignores_input(q: Query, a: JsonV, b: JsonV)
    requires
        q.wf(),
        reads_no_input(q),
    ensures
        eval_select(q, a) == eval_select(q, b),
{
    let sa = start_values(q, a);
    let sb = start_values(q, b);
    lemma_run_ignores_root(q, sa, sb, q.order.len() as int);
    let ra = run(q.tasks@, q.order@, sa, q.order.len() as int);
    let rb = run(q.tasks@, q.order@, sb, q.order.len() as int);
    if ra is Ok {
        let x = ra->Ok_0;
        let y = rb->Ok_0;
        let items = q.query_select.select_items@;
        assert forall|i: int| 0 <= i < items.len() implies x[#[trigger] items[i] as int] == y[items[i] as int] by {
            assert(2 <= items[i] < q.tasks.len());
        }
        assert(harvest(q, x).result =~= harvest(q, y).result);
    }
}

/// The condition of a result is absent exactly when the plan has no `WHERE`,
/// and is otherwise the value its predicate computed.
pub proof fn lemma_cond_is_where(q: Query, input: JsonV)
    requires
        q.wf(),
    ensures
        eval_select(q, input) matches Ok(v) ==> {
            &&& (v.cond is None <==> q.query_select.where_expr is None)
            &&& q.query_select.where_expr matches Some(w) ==> v.cond == Some(
                run(q.tasks@, q.order@, start_values(q, input), q.order.len() as int)->Ok_0[w as int],
            )
        },
{
}

/// Arithmetic on two numbers gives a number; a comparison gives a boolean,
/// and on two integers always succeeds; arithmetic on two integers succeeds
/// whenever the exact result is a JSON integer (and the divisor is not zero).
pub proof fn lemma_numeric_closure(op: BinaryOperator, a: NumV, b: NumV)
    ensures
        is_arithmetic(op) ==> (binary_result(op, JsonV::Num(a), JsonV::Num(b)) matches Ok(v) ==> v is Num),
        is_comparison(op) ==> (binary_result(op, JsonV::Num(a), JsonV::Num(b)) matches Ok(v) ==> v is Bool),
        is_comparison(op) && a is Int && b is Int ==> binary_result(op, JsonV::Num(a), JsonV::Num(b)) is Ok,
        op is Plus && a is Int && b is Int && int_value(a->Int_0 + b->Int_0) is Ok
            ==> binary_result(op, JsonV::Num(a), JsonV::Num(b)) is Ok,
        op is Minus && a is Int && b is Int && int_value(a->Int_0 - b->Int_0) is Ok
            ==> binary_result(op, JsonV::Num(a), JsonV::Num(b)) is Ok,
        op is Multiply && a is Int && b is Int && int_value(a->Int_0 * b->Int_0) is Ok
            ==> binary_result(op, JsonV::Num(a), JsonV::Num(b)) is Ok,
{
}

/// A `FOREACH` whose outer `WHERE` is false gives no rows, and still reports
/// the condition.
pub proof fn lemma_false_guard_no_rows(query: BuiltQueryForeach, input: JsonV, r: Result<NestedQueryResult, QueryError>)
    requires
        foreach_result(query, input, r),
        eval_select(query.main, input) matches Ok(outer) && outer.cond == Some(JsonV::Bool(false)),
    ensures
        r matches Ok(n) && n.result.len() == 0,
{
}

} // verus!
