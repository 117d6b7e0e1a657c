use vstd::prelude::*;
use vstd::string::*;
use crate::error::QueryError;
use crate::json::{descend, Json, JsonV};
use crate::ops::{binary_result, execute_binary_op, execute_unary_op, unary_result};
use crate::plan::{initial_value, Query};
use crate::compile::{built_from, compiles_surely, parse_statement, BuiltQuery, BuiltQueryForeach};
use crate::resolve::reserved_root;
use crate::ast::Statement;
use crate::graph::{graph_edges, graph_nodes};
use crate::resolve::{context_fits, has_input, task_parents};
use crate::task::{context_parents, is_computing};
use crate::task::{QueryTask, TaskAction, TaskContext};

verus! {

/// The result of a `SELECT`: (alias, value) pairs and the predicate's value.
pub struct SimpleQueryResult {
    pub result: Vec<(String, Json)>,
    pub cond: Option<Json>,
}

/// The mathematical value of a `SELECT` result.
pub struct SimpleV {
    pub result: Seq<(Seq<char>, JsonV)>,
    pub cond: Option<JsonV>,
}

impl View for SimpleQueryResult {
    type V = SimpleV;

    open spec fn view(&self) -> SimpleV {
        SimpleV {
            result: Seq::new(self.result.len() as nat, |i: int| (self.result@[i].0@, self.result@[i].1@)),
            cond: match self.cond {
                Some(c) => Some(c@),
                None => None,
            },
        }
    }
}

/// The view of a path of names.
pub open spec fn path_view(p: Vec<String>) -> Seq<Seq<char>> {
    p@.map_values(|s: String| s@)
}

/// One task applied to the values: its slot gets what its action computes
/// from its parents' slots.
pub open spec fn step(t: QueryTask, vals: Seq<JsonV>, n: int) -> Result<Seq<JsonV>, QueryError> {
    match t.context {
        Some(TaskContext::SingleParent(p)) => match t.action {
            TaskAction::Accessor(path) => Ok(vals.update(n, descend(vals[p as int], path_view(path)))),
            TaskAction::Link => Ok(vals.update(n, vals[p as int])),
            TaskAction::UnaryOp(op) => match unary_result(op, vals[p as int]) {
                Ok(v) => Ok(vals.update(n, v)),
                Err(e) => Err(e),
            },
            _ => Ok(vals),
        },
        Some(TaskContext::DualParent(p, q)) => match t.action {
            TaskAction::BinaryOp(op) => match binary_result(op, vals[p as int], vals[q as int]) {
                Ok(v) => Ok(vals.update(n, v)),
                Err(e) => Err(e),
            },
            _ => Ok(vals),
        },
        Some(TaskContext::MultiParent(_)) => match t.action {
            TaskAction::Function(name) => Err(QueryError::FunctionNotImplemented(name)),
            _ => Ok(vals),
        },
        None => Ok(vals),
    }
}

/// The values after the first `k` tasks of the execution list, or the first error.
pub open spec fn run(tasks: Seq<QueryTask>, order: Seq<usize>, vals: Seq<JsonV>, k: int) -> Result<Seq<JsonV>, QueryError>
    decreases k,
{
    if k <= 0 {
        Ok(vals)
    } else {
        match run(tasks, order, vals, k - 1) {
            Ok(v) => step(tasks[order[k - 1] as int], v, order[k - 1] as int),
            Err(e) => Err(e),
        }
    }
}

/// The values before evaluation: the input in the root slot, the literals in theirs.
pub open spec fn start_values(q: Query, input: JsonV) -> Seq<JsonV> {
    Seq::new(q.tasks.len() as nat, |i: int| initial_value(q.tasks@[i])).update(0, input)
}

/// The label of a projection: its alias, or the empty string.
pub open spec fn label(t: QueryTask) -> Seq<char> {
    match t.alias {
        Some(a) => a@,
        None => Seq::empty(),
    }
}

/// The projections and the predicate, read from the values.
pub open spec fn harvest(q: Query, vals: Seq<JsonV>) -> SimpleV {
    let items = q.query_select.select_items@;
    SimpleV {
        result: Seq::new(items.len(), |i: int| (label(q.tasks@[items[i] as int]), vals[items[i] as int])),
        cond: match q.query_select.where_expr {
            Some(w) => Some(vals[w as int]),
            None => None,
        },
    }
}

/// What evaluating a plan on an input gives.
pub open spec fn eval_select(q: Query, input: JsonV) -> Result<SimpleV, QueryError> {
    match run(q.tasks@, q.order@, start_values(q, input), q.order.len() as int) {
        Ok(vals) => Ok(harvest(q, vals)),
        Err(e) => Err(e),
    }
}

/// The result of the plan's projections and predicate from a filled buffer.
pub fn get_results(query: &Query, json_context: &Vec<Json>) -> (r: SimpleQueryResult)
    requires
        query.wf(),
        json_context.len() == query.tasks.len(),
    ensures
        r@ == harvest(*query, json_context@.map_values(|j: Json| j@)),
{
    let items = &query.query_select.select_items;
    let ghost vals = json_context@.map_values(|j: Json| j@);
    let mut result: Vec<(String, Json)> = Vec::new();
    let mut i: usize = 0;
    while i < items.len()
        invariant
            query.wf(),
            items == &query.query_select.select_items,
            json_context.len() == query.tasks.len(),
            vals == json_context@.map_values(|j: Json| j@),
            i <= items.len(),
            result.len() == i,
            forall|k: int| 0 <= k < i ==> (#[trigger] result@[k]).0@ == label(query.tasks@[items@[k] as int])
                && result@[k].1@ == vals[items@[k] as int],
        decreases items.len() - i,
    {
        let n = items[i];
        let alias = match &query.tasks[n].alias {
            Some(a) => a.clone(),
            None => String::new(),
        };
        result.push((alias, json_context[n].copy()));
        i = i + 1;
    }
    let cond = match query.query_select.where_expr {
        Some(w) => Some(json_context[w].copy()),
        None => None,
    };
    let r = SimpleQueryResult { result, cond };
    proof {
        assert(r@.result =~= harvest(*query, vals).result);
    }
    r
}

/// Every task the plan runs is an accessor that reads the root.
pub open spec fn runs_root_accessors(q: Query) -> bool {
    forall|j: int| 0 <= j < q.order.len() ==> {
        &&& (#[trigger] q.tasks@[q.order@[j] as int]).action is Accessor
        &&& q.tasks@[q.order@[j] as int].context == Some(TaskContext::SingleParent(0))
    }
}

/// When every task the plan runs reads its path from the root, the run
/// succeeds, each such task holds its path read from the input, and every
/// other slot keeps its starting value.
pub proof fn lemma_root_accessors_run(q: Query, input: JsonV, k: int)
    requires
        q.wf(),
        runs_root_accessors(q),
        0 <= k <= q.order.len(),
    ensures
        run(q.tasks@, q.order@, start_values(q, input), k) matches Ok(v) && v.len() == q.tasks.len()
            && forall|m: int| 0 <= m < q.tasks.len() ==> #[trigger] v[m] == (if exists|j: int| 0 <= j < k && #[trigger] q.order@[j] == m {
                descend(input, path_view(q.tasks@[m].action->Accessor_0))
            } else {
                start_values(q, input)[m]
            }),
    decreases k,
{
    if k > 0 {
        lemma_root_accessors_run(q, input, k - 1);
        let v = run(q.tasks@, q.order@, start_values(q, input), k - 1)->Ok_0;
        let n = q.order@[k - 1];
        let t = q.tasks@[n as int];
        assert(t.action is Accessor && t.context == Some(TaskContext::SingleParent(0)));
        assert(!(exists|j: int| 0 <= j < k - 1 && #[trigger] q.order@[j] == 0)) by {
            if exists|j: int| 0 <= j < k - 1 && #[trigger] q.order@[j] == 0 {
                let j = choose|j: int| 0 <= j < k - 1 && q.order@[j] == 0;
                assert(q.tasks@[q.order@[j] as int].action is Accessor);
            }
        }
        assert(v[0] == input);
        let w = v.update(n as int, descend(input, path_view(t.action->Accessor_0)));
        assert(run(q.tasks@, q.order@, start_values(q, input), k) == Ok::<Seq<JsonV>, QueryError>(w));
        assert forall|m: int| 0 <= m < q.tasks.len() implies #[trigger] w[m] == (if exists|j: int| 0 <= j < k && #[trigger] q.order@[j] == m {
            descend(input, path_view(q.tasks@[m].action->Accessor_0))
        } else {
            start_values(q, input)[m]
        }) by {
            if m == n {
                assert(q.order@[k - 1] == m);
            } else {
                if exists|j: int| 0 <= j < k && #[trigger] q.order@[j] == m {
                    let j = choose|j: int| 0 <= j < k && q.order@[j] == m;
                    assert(j != k - 1);
                    assert(exists|j2: int| 0 <= j2 < k - 1 && #[trigger] q.order@[j2] == m);
                }
            }
        }
    } else {
        assert(start_values(q, input).len() == q.tasks.len());
    }
}

/// An error stops the run: every longer prefix ends in the same error.
pub proof fn lemma_run_error(tasks: Seq<QueryTask>, order: Seq<usize>, vals: Seq<JsonV>, k: int, m: int)
    requires
        0 <= k <= m,
        run(tasks, order, vals, k) is Err,
    ensures
        run(tasks, order, vals, m) == run(tasks, order, vals, k),
    decreases m - k,
{
    if m > k {
        lemma_run_error(tasks, order, vals, k, m - 1);
    }
}

/// The parents of a node that the plan runs are nodes of the plan.
pub proof fn lemma_parents_in_range(q: Query, n: nat)
    requires
        q.wf(),
        graph_nodes(q.task_graph).contains(n),
        is_computing(q.tasks@[n as int].action),
    ensures
        context_fits(q.tasks@[n as int]),
        forall|j: int| 0 <= j < task_parents(q.tasks@[n as int]).len()
            ==> #[trigger] task_parents(q.tasks@[n as int])[j] < q.tasks.len(),
{
    let ps = task_parents(q.tasks@[n as int]);
    assert forall|j: int| 0 <= j < ps.len() implies #[trigger] ps[j] < q.tasks.len() by {
        assert(has_input(q.task_graph, n, ps[j], j + 1));
        let e = choose|e: nat| #[trigger] graph_edges(q.task_graph).contains_key(e)
            && graph_edges(q.task_graph)[e] == (ps[j] as nat, n, (j + 1) as nat);
        assert(graph_nodes(q.task_graph).contains(graph_edges(q.task_graph)[e].0));
    }
}

/// Evaluates the plan on an input document. The plan is left as it was: the
/// evaluation works on its own copy of the value buffer.
pub fn execute_query_select(query: &Query, data: &Json) -> (r: Result<SimpleQueryResult, QueryError>)
    requires
        query.wf(),
    ensures
        match (r, eval_select(*query, data@)) {
            (Ok(res), Ok(v)) => res@ == v,
            (Err(e), Err(f)) => e == f,
            _ => false,
        },
{
    let n = query.tasks.len();
    let mut buf: Vec<Json> = Vec::new();
    let mut i: usize = 0;
    while i < n
        invariant
            query.wf(),
            n == query.tasks.len(),
            i <= n,
            buf.len() == i,
            forall|j: int| 0 <= j < i ==> (#[trigger] buf@[j])@ == initial_value(query.tasks@[j]),
        decreases n - i,
    {
        buf.push(query.json_context[i].copy());
        i = i + 1;
    }
    buf.set(0, data.copy());
    let ghost tasks = query.tasks@;
    let ghost order = query.order@;
    proof {
        assert(buf@.map_values(|j: Json| j@) =~= start_values(*query, data@));
    }
    let mut k: usize = 0;
    while k < query.order.len()
        invariant
            query.wf(),
            n == query.tasks.len(),
            tasks == query.tasks@,
            order == query.order@,
            buf.len() == n,
            k <= query.order.len(),
            run(tasks, order, start_values(*query, data@), k as int) == Ok::<Seq<JsonV>, QueryError>(
                buf@.map_values(|j: Json| j@),
            ),
        decreases query.order.len() - k,
    {
        let idx = query.order[k];
        let task = &query.tasks[idx];
        let ghost before = buf@.map_values(|j: Json| j@);
        proof {
            lemma_parents_in_range(*query, idx as nat);
            assert(task_parents(*task) == context_parents(task.context->Some_0));
        }
        let value: Option<Json> = match &task.context {
            Some(TaskContext::SingleParent(p)) => {
                proof {
                    assert(task_parents(*task)[0] == *p);
                }
                match &task.action {
                    TaskAction::Accessor(path) => Some(buf[*p].descend_path(path)),
                    TaskAction::Link => Some(buf[*p].copy()),
                    TaskAction::UnaryOp(op) => match execute_unary_op(&buf[*p], op) {
                        Ok(v) => Some(v),
                        Err(e) => {
                            proof {
                                lemma_run_error(tasks, order, start_values(*query, data@), k + 1, order.len() as int);
                            }
                            return Err(e);
                        },
                    },
                    _ => None,
                }
            },
            Some(TaskContext::DualParent(p, q)) => {
                proof {
                    assert(task_parents(*task)[0] == *p);
                    assert(task_parents(*task)[1] == *q);
                }
                match &task.action {
                    TaskAction::BinaryOp(op) => match execute_binary_op(&buf[*p], &buf[*q], op) {
                        Ok(v) => Some(v),
                        Err(e) => {
                            proof {
                                lemma_run_error(tasks, order, start_values(*query, data@), k + 1, order.len() as int);
                            }
                            return Err(e);
                        },
                    },
                    _ => None,
                }
            },
            Some(TaskContext::MultiParent(_)) => match &task.action {
                TaskAction::Function(name) => {
                    proof {
                        lemma_run_error(tasks, order, start_values(*query, data@), k + 1, order.len() as int);
                    }
                    return Err(QueryError::FunctionNotImplemented(name.clone()));
                },
                _ => None,
            },
            None => None,
        };
        if let Some(v) = value {
            buf.set(idx, v);
        }
        proof {
            assert(buf@.map_values(|j: Json| j@) =~= step(tasks[idx as int], before, idx as int)->Ok_0);
        }
        k = k + 1;
    }
    let res = get_results(query, &buf);
    Ok(res)
}

/// The result of a `FOREACH`: one row per element, and the outer predicate's value.
pub struct NestedQueryResult {
    pub result: Vec<Result<SimpleQueryResult, QueryError>>,
    pub cond: Option<Json>,
}

/// The result of a statement.
pub enum QueryResult {
    Simple(SimpleQueryResult),
    Nested(NestedQueryResult),
}

/// Whether an outer predicate lets the loop run: only `false` stops it.
pub open spec fn guard_passes(cond: Option<JsonV>) -> bool {
    cond != Some(JsonV::Bool(false))
}

/// Row `i` is what the inner plan gives on `items[i]`.
pub open spec fn rows_match(rows: Seq<Result<SimpleQueryResult, QueryError>>, inner: Query, items: Seq<JsonV>) -> bool {
    &&& rows.len() == items.len()
    &&& forall|i: int| 0 <= i < rows.len() ==> match (#[trigger] rows[i], eval_select(inner, items[i])) {
        (Ok(res), Ok(v)) => res@ == v,
        (Err(e), Err(f)) => e == f,
        _ => false,
    }
}

pub open spec fn opt_view(c: Option<Json>) -> Option<JsonV> {
    match c {
        Some(j) => Some(j@),
        None => None,
    }
}

/// What evaluating a `FOREACH` gives: the outer plan's error; no rows when
/// the outer predicate is `false`; an error when the loop expression is
/// not one array; otherwise one row per element, as the inner plan gives it.
pub open spec fn foreach_result(query: BuiltQueryForeach, input: JsonV, r: Result<NestedQueryResult, QueryError>) -> bool {
    match eval_select(query.main, input) {
        Err(e) => r == Err::<NestedQueryResult, QueryError>(e),
        Ok(outer) => if !guard_passes(outer.cond) {
            r matches Ok(n) && n.result.len() == 0 && opt_view(n.cond) == outer.cond
        } else if outer.result.len() != 1 {
            r matches Err(QueryError::ForeachSingleValue)
        } else {
            match outer.result[0].1 {
                JsonV::Array(items) => r matches Ok(n) && opt_view(n.cond) == outer.cond
                    && rows_match(n.result@, query.foreach, items),
                _ => r matches Err(QueryError::ForeachNotArray),
            }
        },
    }
}

/// Evaluates a `FOREACH`: the outer plan, then the inner plan once per array
/// element. An error of the inner plan stays in its row.
pub fn execute_query_foreach(query: &BuiltQueryForeach, data: &Json) -> (r: Result<NestedQueryResult, QueryError>)
    requires
        query.wf(),
    ensures
        foreach_result(*query, data@, r),
{
    let outer = execute_query_select(&query.main, data)?;
    let pass = !matches!(&outer.cond, Some(Json::Bool(false)));
    if !pass {
        return Ok(NestedQueryResult { result: Vec::new(), cond: outer.cond });
    }
    if outer.result.len() != 1 {
        return Err(QueryError::ForeachSingleValue);
    }
    let mut rows: Vec<Result<SimpleQueryResult, QueryError>> = Vec::new();
    match &outer.result[0].1 {
        Json::Array(items) => {
            let ghost iv = outer.result@[0].1@->Array_0;
            let mut i: usize = 0;
            while i < items.len()
                invariant
                    query.wf(),
                    i <= items.len(),
                    outer.result@[0].1 == Json::Array(*items),
                    iv == outer.result@[0].1@->Array_0,
                    iv.len() == items.len(),
                    rows.len() == i,
                    forall|k: int| 0 <= k < i ==> match (#[trigger] rows@[k], eval_select(query.foreach, iv[k])) {
                        (Ok(res), Ok(v)) => res@ == v,
                        (Err(e), Err(f)) => e == f,
                        _ => false,
                    },
                decreases items.len() - i,
            {
                proof {
                    assert(iv[i as int] == items@[i as int]@);
                }
                rows.push(execute_query_select(&query.foreach, &items[i]));
                i = i + 1;
            }
            Ok(NestedQueryResult { result: rows, cond: outer.cond })
        },
        _ => Err(QueryError::ForeachNotArray),
    }
}

/// What evaluating a compiled statement gives: the plan's result for a
/// `SELECT`, the `FOREACH` result otherwise.
pub open spec fn query_outcome(query: BuiltQuery, input: JsonV, r: Result<QueryResult, QueryError>) -> bool {
    match query {
        BuiltQuery::SELECT(q) => match (r, eval_select(q, input)) {
            (Ok(QueryResult::Simple(res)), Ok(v)) => res@ == v,
            (Err(e), Err(f)) => e == f,
            _ => false,
        },
        BuiltQuery::FOREACH(f) => match r {
            Ok(QueryResult::Nested(n)) => foreach_result(f, input, Ok(n)),
            Err(e) => foreach_result(f, input, Err(e)),
            Ok(QueryResult::Simple(_)) => false,
        },
    }
}

/// Evaluates a compiled statement on an input document.
pub fn execute_query(query: &BuiltQuery, data: &Json) -> (r: Result<QueryResult, QueryError>)
    requires
        query.wf(),
    ensures
        query_outcome(*query, data@, r),
{
    match query {
        BuiltQuery::SELECT(q) => match execute_query_select(q, data) {
            Ok(res) => Ok(QueryResult::Simple(res)),
            Err(e) => Err(e),
        },
        BuiltQuery::FOREACH(f) => match execute_query_foreach(f, data) {
            Ok(res) => Ok(QueryResult::Nested(res)),
            Err(e) => Err(e),
        },
    }
}

/// Whether a statement compiles: what `parse_statement` gives on it may be a plan.
pub open spec fn compiles(stmt: Statement) -> bool {
    exists|b: BuiltQuery| parse_statement.ensures((&stmt,), Ok::<BuiltQuery, QueryError>(b))
}

/// Compiles every statement, then evaluates each in order. A statement that
/// does not compile makes the whole call fail, before anything runs; an
/// evaluation error stays in its entry.
pub fn execute_statements(stmts: &Vec<Statement>, data: &Json) -> (r: Result<Vec<Result<QueryResult, QueryError>>, QueryError>)
    ensures
        r matches Ok(rs) ==> rs.len() == stmts.len() && exists|bs: Seq<BuiltQuery>| {
            &&& bs.len() == stmts.len()
            &&& forall|i: int| 0 <= i < bs.len() ==> (#[trigger] built_from(stmts@[i], bs[i])) && bs[i].wf()
                && query_outcome(bs[i], data@, rs@[i])
        },
        (exists|i: int| 0 <= i < stmts.len() && #[trigger] stmts@[i] is Other) ==> r is Err,
        (forall|i: int| 0 <= i < stmts.len() ==> compiles_surely(#[trigger] stmts@[i])) ==> r is Ok,
        r is Ok ==> forall|i: int| 0 <= i < stmts.len() ==> #[trigger] compiles(stmts@[i]),
        r matches Err(e) ==> exists|i: int| 0 <= i < stmts.len()
            && (forall|j: int| 0 <= j < i ==> #[trigger] compiles(stmts@[j]))
            && parse_statement.ensures((&stmts@[i],), Err::<BuiltQuery, QueryError>(e)),
{
    let mut built: Vec<BuiltQuery> = Vec::new();
    let mut i: usize = 0;
    while i < stmts.len()
        invariant
            i <= stmts.len(),
            built.len() == i,
            forall|j: int| 0 <= j < i ==> !(#[trigger] stmts@[j] is Other),
            forall|j: int| 0 <= j < i ==> (#[trigger] built_from(stmts@[j], built@[j])) && built@[j].wf(),
            forall|j: int| 0 <= j < i ==> #[trigger] compiles(stmts@[j]),
        decreases stmts.len() - i,
    {
        let br = parse_statement(&stmts[i]);
        proof {
            assert(parse_statement.ensures((&stmts@[i as int],), br));
        }
        let b = match br {
            Ok(b) => b,
            Err(e) => {
                return Err(e);
            },
        };
        proof {
            assert(compiles(stmts@[i as int]));
        }
        built.push(b);
        i = i + 1;
    }
    let mut results: Vec<Result<QueryResult, QueryError>> = Vec::new();
    assert(built.len() == stmts.len());
    assert(i == stmts.len());
    assert forall|j: int| 0 <= j < built.len() implies (#[trigger] built_from(stmts@[j], built@[j])) && built@[j].wf() by {
        assert(0 <= j < i);
        assert(built_from(stmts@[j], built@[j]));
        assert(built@[j].wf());
    }
    let mut k: usize = 0;
    while k < built.len()
        invariant
            k <= built.len(),
            built.len() == stmts.len(),
            results.len() == k,
            forall|j: int| 0 <= j < built.len() ==> (#[trigger] built_from(stmts@[j], built@[j])) && built@[j].wf(),
            forall|j: int| 0 <= j < k ==> query_outcome(built@[j], data@, #[trigger] results@[j]),
        decreases built.len() - k,
    {
        assert(built_from(stmts@[k as int], built@[k as int]));
        results.push(execute_query(&built[k], data));
        k = k + 1;
    }
    proof {
        let bs = built@;
        assert forall|j: int| 0 <= j < bs.len() implies (#[trigger] built_from(stmts@[j], bs[j])) && bs[j].wf()
            && query_outcome(bs[j], data@, results@[j]) by {
            assert(built_from(stmts@[j], bs[j]));
            assert(query_outcome(built@[j], data@, results@[j]));
        }
    }
    Ok(results)
}

} // verus!
