use vstd::prelude::*;
use crate::error::QueryError;
use crate::graph::{graph_nodes, graph_toposort, has_edge, is_acyclic, is_topological_order, TaskGraph};
use crate::json::{Json, JsonNumber, JsonV, NumV};
use crate::resolve::{all_inputs_fit, context_fits, incoming_ok, contexts_ok, has_input, populate_context, task_parents, tasks_ok};
use crate::task::TaskContext;
use crate::graph::graph_edges;
use crate::task::{is_computing, QueryTask, SQLLiteral, TaskAction};

verus! {

/// The projections, source and predicate of a compiled `SELECT`.
pub struct QuerySelect {
    /// The node of each projection, in order.
    pub select_items: Vec<usize>,
    /// The source name, not interpreted.
    pub from: String,
    /// The node of the `WHERE` predicate.
    pub where_expr: Option<usize>,
}

/// A compiled `SELECT`: the task graph, its tasks by node index, the value
/// buffer with the literals filled in, and the tasks to run, in order.
pub struct Query {
    pub task_graph: TaskGraph,
    pub tasks: Vec<QueryTask>,
    pub query_select: QuerySelect,
    pub json_context: Vec<Json>,
    pub order: Vec<usize>,
}

/// The value a literal stands for.
pub open spec fn literal_value(l: SQLLiteral) -> JsonV {
    match l {
        SQLLiteral::Integer(i) => JsonV::Num(NumV::Int(i as int)),
        SQLLiteral::Float(s) => JsonV::Num(NumV::Float(s@)),
        SQLLiteral::String(s) => JsonV::Str(s@),
    }
}

/// The value a slot holds before evaluation: its literal, or null.
pub open spec fn initial_value(t: QueryTask) -> JsonV {
    match t.action {
        TaskAction::Literal(l) => literal_value(l),
        _ => JsonV::Null,
    }
}

/// The parents that task `t` reads are computing tasks, the root or literals.
pub open spec fn reads_sources(tasks: Seq<QueryTask>, t: QueryTask) -> bool {
    forall|j: int| 0 <= j < task_parents(t).len() ==> {
        &&& #[trigger] task_parents(t)[j] < tasks.len()
        &&& (is_computing(tasks[task_parents(t)[j] as int].action) || tasks[task_parents(t)[j] as int].action is Root
            || tasks[task_parents(t)[j] as int].action is Literal)
    }
}

/// No edge leaves the sink.
pub open spec fn sink_feeds_nothing(g: TaskGraph, tasks: Seq<QueryTask>) -> bool {
    forall|e: nat| #[trigger] graph_edges(g).contains_key(e) ==> !(tasks[graph_edges(g)[e].0 as int].action is Finalize)
}

/// `p` is a task that is neither the sink nor removed.
pub open spec fn parent_ok_spec(tasks: Seq<QueryTask>, p: usize) -> bool {
    p < tasks.len() && !(tasks[p as int].action is Finalize) && !(tasks[p as int].action is Stale)
}

/// Whether task `i` is a node: a task that was not removed.
fn graph_nodes_contains(tasks: &Vec<QueryTask>, i: usize) -> (r: bool)
    requires
        i < tasks.len(),
    ensures
        r == !(tasks@[i as int].action is Stale),
{
    !matches!(tasks[i].action, TaskAction::Stale)
}

fn parent_ok(tasks: &Vec<QueryTask>, p: usize) -> (r: bool)
    ensures
        r == parent_ok_spec(tasks@, p),
{
    p < tasks.len() && !matches!(tasks[p].action, TaskAction::Finalize) && !matches!(tasks[p].action, TaskAction::Stale)
}

impl Query {
    /// A compiled plan: the graph is acyclic, every node reads exactly its
    /// inputs, the buffer holds the literals, and the execution list holds
    /// the computing tasks in an order that puts every node after its inputs.
    pub open spec fn wf(&self) -> bool {
        let n = self.tasks.len();
        &&& tasks_ok(self.task_graph, self.tasks@)
        &&& contexts_ok(self.task_graph, self.tasks@)
        &&& is_acyclic(self.task_graph)
        &&& n >= 2
        &&& self.tasks@[0].action is Root
        &&& self.tasks@[1].action is Finalize
        &&& self.json_context.len() == n
        &&& forall|i: int| 0 <= i < n ==> (#[trigger] self.json_context@[i])@ == initial_value(self.tasks@[i])
        &&& forall|k: int| 0 <= k < self.order.len() ==> {
            &&& #[trigger] self.order@[k] < n
            &&& graph_nodes(self.task_graph).contains(self.order@[k] as nat)
            &&& is_computing(self.tasks@[self.order@[k] as int].action)
        }
        &&& forall|n: nat| #[trigger] graph_nodes(self.task_graph).contains(n) && is_computing(self.tasks@[n as int].action)
            ==> exists|k: int| 0 <= k < self.order.len() && self.order@[k] == n
        &&& forall|i: int, j: int| 0 <= i < self.order.len() && 0 <= j < self.order.len()
            && has_edge(self.task_graph, #[trigger] self.order@[i] as nat, #[trigger] self.order@[j] as nat) ==> i < j
        &&& self.order@.no_duplicates()
        &&& forall|k: int| 0 <= k < self.order.len() ==> reads_sources(self.tasks@, #[trigger] self.tasks@[self.order@[k] as int])
        &&& forall|k: int| 0 <= k < self.query_select.select_items.len()
            ==> 2 <= #[trigger] self.query_select.select_items@[k] < n
        &&& self.query_select.where_expr matches Some(w) ==> 2 <= w < n
    }
}

/// The value of a literal.
fn literal_json(l: &SQLLiteral) -> (r: Json)
    ensures
        r@ == literal_value(*l),
{
    match l {
        SQLLiteral::Integer(i) => Json::Number(JsonNumber::from_int(*i as i128)),
        SQLLiteral::Float(s) => Json::Number(JsonNumber::Float(s.clone())),
        SQLLiteral::String(s) => Json::Str(s.clone()),
    }
}

/// Every node of the graph, each before the targets of its edges; an error
/// when the graph has a cycle.
pub fn toposort(task_graph: &TaskGraph) -> (r: Result<Vec<usize>, QueryError>)
    ensures
        r matches Ok(s) ==> is_topological_order(*task_graph, s@),
        r matches Err(e) ==> e is Cycle && !is_acyclic(*task_graph),
{
    match graph_toposort(task_graph) {
        Some(s) => Ok(s),
        None => Err(QueryError::Cycle),
    }
}

impl Query {
    /// Binds contexts, sorts the graph, fills the literal slots and lists the
    /// tasks to run. The buffer has one slot per task slot, so it covers the
    /// highest node index. An edge out of the sink is a malformed graph (the
    /// sink only collects outputs): a task that would read it is reported as
    /// missing its context, like the other arity and weight violations.
    pub fn initalize_execution_context(
        task_graph: TaskGraph,
        tasks: Vec<QueryTask>,
        query_select: QuerySelect,
    ) -> (r: Result<Query, QueryError>)
        requires
            tasks_ok(task_graph, tasks@),
            tasks.len() >= 2,
            tasks@[0].action is Root,
            tasks@[1].action is Finalize,
            forall|i: int| 0 <= i < tasks.len() ==> (#[trigger] tasks@[i]).context is None,
            forall|k: int| 0 <= k < query_select.select_items.len() ==> 2 <= #[trigger] query_select.select_items@[k] < tasks.len(),
            query_select.where_expr matches Some(w) ==> 2 <= w < tasks.len(),
        ensures
            r matches Err(e) ==> e is MissingContext || e is WeightMismatch || e is InvalidAccesses || e is Cycle,
            r matches Ok(q) ==> forall|n: nat| #[trigger] graph_nodes(q.task_graph).contains(n) ==> n < q.json_context.len(),
            all_inputs_fit(task_graph, tasks@) && is_acyclic(task_graph) && sink_feeds_nothing(task_graph, tasks@) ==> r is Ok,
            r matches Ok(q) ==> q.wf() && q.task_graph == task_graph && q.query_select == query_select
                && q.tasks.len() == tasks.len()
                && forall|i: int| 0 <= i < tasks.len() ==> (#[trigger] q.tasks@[i]).alias == tasks@[i].alias
                    && q.tasks@[i].action == tasks@[i].action && q.tasks@[i].required == tasks@[i].required,
    {
        let ghost t_in = tasks@;
        let mut ts = tasks;
        populate_context(&task_graph, &mut ts)?;
        proof {
            assert(sink_feeds_nothing(task_graph, t_in) ==> sink_feeds_nothing(task_graph, ts@)) by {
                assert forall|m: int| 0 <= m < ts.len() implies (#[trigger] ts@[m]).action == t_in[m].action by {}
            }
        }
        // every task that runs reads computing ts, the root or literals
        let mut i: usize = 0;
        while i < ts.len()
            invariant
                i <= ts.len(),
                tasks_ok(task_graph, ts@),
                contexts_ok(task_graph, ts@),
                sink_feeds_nothing(task_graph, t_in) ==> sink_feeds_nothing(task_graph, ts@),
                t_in == tasks@,
                forall|j: int| 0 <= j < i && graph_nodes(task_graph).contains(j as nat) && is_computing((#[trigger] ts@[j]).action)
                    ==> reads_sources(ts@, ts@[j]),
            decreases ts.len() - i,
        {
            if ts[i].action.is_computing_exec() && graph_nodes_contains(&ts, i) {
                let ghost ps = task_parents(ts@[i as int]);
                let ok = match &ts[i].context {
                    Some(TaskContext::SingleParent(p)) => {
                        let r = parent_ok(&ts, *p);
                        proof {
                            assert(ps =~= seq![*p]);
                            if !r {
                                assert(!parent_ok_spec(ts@, ps[0]));
                            }
                        }
                        r
                    },
                    Some(TaskContext::DualParent(p, q)) => {
                        let r1 = parent_ok(&ts, *p);
                        let r2 = parent_ok(&ts, *q);
                        proof {
                            assert(ps =~= seq![*p, *q]);
                            if !r1 {
                                assert(!parent_ok_spec(ts@, ps[0]));
                            }
                            if !r2 {
                                assert(!parent_ok_spec(ts@, ps[1]));
                            }
                        }
                        r1 && r2
                    },
                    Some(TaskContext::MultiParent(v)) => {
                        let mut all = true;
                        let mut k: usize = 0;
                        while k < v.len()
                            invariant
                                k <= v.len(),
                                all == forall|m: int| 0 <= m < k ==> parent_ok_spec(ts@, #[trigger] v@[m]),
                            decreases v.len() - k,
                        {
                            let pk = parent_ok(&ts, v[k]);
                            proof {
                                assert(parent_ok_spec(ts@, v@[k as int]) == pk);
                                if all && !pk {
                                    assert(!parent_ok_spec(ts@, v@[k as int]));
                                }
                            }
                            all = all && pk;
                            k = k + 1;
                        }
                        proof {
                            assert(ps == v@);
                        }
                        all
                    },
                    None => true,
                };
                proof {
                    assert(graph_nodes(task_graph).contains(i as nat));
                    assert(incoming_ok(task_graph, i as nat, ps));
                    assert(ok == forall|m: int| 0 <= m < ps.len() ==> parent_ok_spec(ts@, #[trigger] ps[m]));
                    if sink_feeds_nothing(task_graph, t_in) {
                        assert forall|m: int| 0 <= m < ps.len() implies parent_ok_spec(ts@, #[trigger] ps[m]) by {
                            assert(has_input(task_graph, i as nat, ps[m], m + 1));
                            let e = choose|e: nat| #[trigger] graph_edges(task_graph).contains_key(e)
                                && graph_edges(task_graph)[e] == (ps[m] as nat, i as nat, (m + 1) as nat);
                            assert(graph_nodes(task_graph).contains(graph_edges(task_graph)[e].0));
                        }
                    }
                }
                if !ok {
                    proof {
                        assert(!sink_feeds_nothing(task_graph, t_in));
                    }
                    return Err(QueryError::MissingContext(i));
                }
            }
            i = i + 1;
        }
        let sorted = toposort(&task_graph)?;
        proof {
            assert(is_topological_order(task_graph, sorted@));
        }
        let n = ts.len();
        let mut json_context: Vec<Json> = Vec::new();
        let mut i: usize = 0;
        while i < n
            invariant
                i <= n,
                n == ts.len(),
                json_context.len() == i,
                forall|j: int| 0 <= j < i ==> (#[trigger] json_context@[j])@ == initial_value(ts@[j]),
            decreases n - i,
        {
            let v = match &ts[i].action {
                TaskAction::Literal(l) => literal_json(l),
                _ => Json::Null,
            };
            json_context.push(v);
            i = i + 1;
        }
        let mut order: Vec<usize> = Vec::new();
        // where each listed task stands in the sorted nodes
        let ghost mut pos: Seq<int> = Seq::empty();
        let mut k: usize = 0;
        while k < sorted.len()
            invariant
                k <= sorted.len(),
                n == ts.len(),
                tasks_ok(task_graph, ts@),
                is_topological_order(task_graph, sorted@),
                forall|j: int| 0 <= j < order.len() ==> {
                    &&& #[trigger] order@[j] < n
                    &&& graph_nodes(task_graph).contains(order@[j] as nat)
                    &&& is_computing(ts@[order@[j] as int].action)
                },
                forall|j: int| 0 <= j < k && is_computing(ts@[sorted@[j] as int].action)
                    ==> exists|m: int| 0 <= m < order.len() && order@[m] == #[trigger] sorted@[j],
                pos.len() == order.len(),
                forall|m: int| 0 <= m < order.len() ==> 0 <= #[trigger] pos[m] < k && order@[m] == sorted@[pos[m]],
                forall|m1: int, m2: int| 0 <= m1 < m2 < order.len() ==> #[trigger] pos[m1] < #[trigger] pos[m2],
            decreases sorted.len() - k,
        {
            let idx = sorted[k];
            proof {
                assert(graph_nodes(task_graph).contains(idx as nat));
            }
            if ts[idx].action.is_computing_exec() {
                let ghost old_order = order@;
                order.push(idx);
                proof {
                    pos = pos.push(k as int);
                    assert forall|j: int| 0 <= j < k + 1 && is_computing(ts@[sorted@[j] as int].action)
                        implies exists|m: int| 0 <= m < order.len() && order@[m] == #[trigger] sorted@[j] by {
                        if j == k {
                            assert(order@[order.len() - 1] == sorted@[j]);
                        } else {
                            let m = choose|m: int| 0 <= m < old_order.len() && old_order[m] == #[trigger] sorted@[j];
                            assert(order@[m] == old_order[m]);
                        }
                    }
                }
            }
            k = k + 1;
        }
        let q = Query { task_graph, tasks: ts, query_select, json_context, order };
        proof {
            assert forall|i: int, j: int| 0 <= i < q.order.len() && 0 <= j < q.order.len() && i != j
                implies q.order@[i] != q.order@[j] by {
                assert(q.order@[i] == sorted@[pos[i]]);
                assert(q.order@[j] == sorted@[pos[j]]);
                if i < j {
                    assert(pos[i] < pos[j]);
                } else {
                    assert(pos[j] < pos[i]);
                }
            }
            assert(q.order@.no_duplicates());
            assert forall|k: int| 0 <= k < q.order.len() implies reads_sources(q.tasks@, #[trigger] q.tasks@[q.order@[k] as int]) by {
                assert(graph_nodes(q.task_graph).contains(q.order@[k] as nat));
            }
            assert forall|i: int, j: int| 0 <= i < q.order.len() && 0 <= j < q.order.len()
                && has_edge(q.task_graph, #[trigger] q.order@[i] as nat, #[trigger] q.order@[j] as nat) implies i < j by {
                assert(q.order@[i] == sorted@[pos[i]]);
                assert(q.order@[j] == sorted@[pos[j]]);
                assert(pos[i] < pos[j]);
                if i >= j {
                    if i > j {
                        assert(pos[j] < pos[i]);
                    }
                }
            }
            assert forall|m: nat| #[trigger] graph_nodes(q.task_graph).contains(m) && is_computing(q.tasks@[m as int].action)
                implies exists|k: int| 0 <= k < q.order.len() && q.order@[k] == m by {
                assert(exists|i: int| 0 <= i < sorted@.len() && #[trigger] sorted@[i] == m);
                let j = choose|j: int| 0 <= j < sorted@.len() && #[trigger] sorted@[j] == m;
                assert(is_computing(q.tasks@[sorted@[j] as int].action));
                let w = choose|w: int| 0 <= w < order.len() && order@[w] == #[trigger] sorted@[j];
                assert(q.order@[w] == m);
            }
        }
        Ok(q)
    }
}

} // verus!
