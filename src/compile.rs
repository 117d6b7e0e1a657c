use vstd::prelude::*;
use vstd::string::*;
use crate::ast::{ForeachStatement, Select, SelectItem, SqlExpr, Statement, TableFactor, TableWithJoins};
use crate::builder::{
    accessors_rooted, accessors_unfed, has_inputs_b, item_accessors_rooted, item_path, item_root_paths, root_paths, sources_built,
    add_expr, add_select_item, add_task, builder_ok, edges_ordered, expr_ok, extends, get_table_name,
    is_expr_task, item_alias, item_literal_only, item_ok, lemma_extends_refl, lemma_extends_trans,
    lemma_fit_kept, lemma_fresh_fits, lemma_settled_extends, literal_only, settled_from,
};
use crate::error::QueryError;
use crate::graph::{graph_add_edge, graph_edges, graph_new, graph_nodes, has_edge, is_acyclic, is_topological_order, nat_range, TaskGraph};
use crate::plan::{Query, QuerySelect};
use crate::execute::{eval_select, run, start_values, SimpleV};
use crate::json::{descend, JsonV};
use crate::resolve::{dealias, find_parent_with_alias, has_input, reserved_root, tasks_ok, uses_alias};
use crate::task::{alias_view, QueryTask, TaskAction, TaskContext};

verus! {

/// Some projection is named `a`.
pub open spec fn names_alias(items: Seq<&SelectItem>, a: Seq<char>) -> bool {
    exists|k: int| 0 <= k < items.len() && item_alias(*#[trigger] items[k]) == Some(a)
}

/// A graph whose edges all go forward or into the sink has no cycle: the
/// order of the indices, with the sink moved last, is topological.
pub proof fn lemma_ordered_acyclic(g: TaskGraph, n: nat)
    requires
        edges_ordered(g),
        2 <= n <= usize::MAX,
        graph_nodes(g) == nat_range(n),
    ensures
        is_acyclic(g),
{
    let s = Seq::new(n, |i: int| if i == 0 { 0usize } else if i == n - 1 { 1usize } else { (i + 1) as usize });
    let pos = |m: int| if m == 0 { 0int } else if m == 1 { n - 1 } else { m - 1 };
    assert forall|i: int| 0 <= i < n implies pos(#[trigger] s[i] as int) == i by {
        if i != 0 && i != n - 1 {
            assert(s[i] as int == i + 1);
        }
    }
    assert(s.no_duplicates()) by {
        assert forall|i: int, j: int| 0 <= i < s.len() && 0 <= j < s.len() && i != j implies s[i] != s[j] by {
            assert(pos(s[i] as int) == i);
            assert(pos(s[j] as int) == j);
        }
    }
    assert forall|m: nat| graph_nodes(g).contains(m) <==> exists|i: int| 0 <= i < s.len() && #[trigger] s[i] == m by {
        if graph_nodes(g).contains(m) {
            let i = pos(m as int);
            assert(s[i] == m);
        }
        if exists|i: int| 0 <= i < s.len() && #[trigger] s[i] == m {
            let i = choose|i: int| 0 <= i < s.len() && #[trigger] s[i] == m;
            assert(m < n);
        }
    }
    assert forall|i: int, j: int|
        0 <= i < s.len() && 0 <= j < s.len() && has_edge(g, #[trigger] s[i] as nat, #[trigger] s[j] as nat) implies i < j by {
        let e = choose|e: nat| #[trigger] graph_edges(g).contains_key(e) && graph_edges(g)[e].0 == s[i] as nat
            && graph_edges(g)[e].1 == s[j] as nat;
        assert(pos(s[i] as int) == i);
        assert(pos(s[j] as int) == j);
    }
    assert(is_topological_order(g, s));
}

/// Accessors of a plan whose graph came out of alias resolution read their producers.
proof fn lemma_accessors_read_producers(
    q: Query,
    g: TaskGraph,
    tf: Seq<QueryTask>,
    td: Seq<QueryTask>,
    td2: Seq<QueryTask>,
    ra: Seq<char>,
)
    requires
        q.wf(),
        q.task_graph == g,
        q.tasks.len() == tf.len(),
        tf.len() == td.len(),
        td2.len() == td.len(),
        td.len() <= usize::MAX,
        forall|i: int| 0 <= i < tf.len() ==> (#[trigger] q.tasks@[i]).alias == tf[i].alias
            && q.tasks@[i].action == tf[i].action,
        forall|i: int| 0 <= i < tf.len() ==> (#[trigger] tf[i]).action == td2[i].action,
        forall|i: int| 0 <= i < tf.len() && td[i].alias is Some ==> (#[trigger] tf[i]).alias == td[i].alias,
        forall|i: int| 0 <= i < td.len() ==> crate::resolve::rebinds(td, ra, i, (#[trigger] td2[i]).action),
        crate::resolve::accessor_inputs_from_producers(g, td, ra),
        forall|i: int| 0 <= i < td.len() ==> !((#[trigger] td[i]).action is Link),
    ensures
        forall|n: nat| #[trigger] graph_nodes(q.task_graph).contains(n) && q.tasks@[n as int].action is Link
            ==> crate::resolve::producer_at(td, ra, n as int) is Some
                && q.tasks@[n as int].context == Some(TaskContext::SingleParent(crate::resolve::producer_at(td, ra, n as int)->Some_0)),
        forall|n: nat| #[trigger] graph_nodes(q.task_graph).contains(n) && q.tasks@[n as int].action is Accessor
            ==> accessor_reads_producer(q, n),
        forall|n: nat| #[trigger] graph_nodes(q.task_graph).contains(n) && q.tasks@[n as int].action is Accessor
            ==> crate::resolve::producer_at(td, ra, n as int) is Some
                && q.tasks@[n as int].context == Some(TaskContext::SingleParent(crate::resolve::producer_at(td, ra, n as int)->Some_0)),
{
    assert forall|n: nat| #[trigger] graph_nodes(q.task_graph).contains(n) && q.tasks@[n as int].action is Accessor
        implies accessor_reads_producer(q, n) by {
        let t = q.tasks@[n as int];
        assert(n < q.tasks.len());
        assert(crate::resolve::context_fits(t));
        let p = t.context->Some_0->SingleParent_0;
        assert(crate::resolve::task_parents(t)[0] == p);
        assert(has_input(q.task_graph, n, p, 1));
        let e = choose|e: nat| #[trigger] graph_edges(q.task_graph).contains_key(e)
            && graph_edges(q.task_graph)[e] == (p as nat, n, 1nat);
        assert(crate::resolve::rebinds(td, ra, n as int, td2[n as int].action));
        assert(td[n as int].action is Accessor);
        crate::resolve::lemma_producer_is_root_or_aliased(td, ra, n as int);
        if p != 0 {
            assert(td[p as int].alias is Some);
            assert(tf[p as int].alias == td[p as int].alias);
        }
    }
    assert forall|n: nat| #[trigger] graph_nodes(q.task_graph).contains(n) && q.tasks@[n as int].action is Accessor
        implies crate::resolve::producer_at(td, ra, n as int) is Some
            && q.tasks@[n as int].context == Some(TaskContext::SingleParent(crate::resolve::producer_at(td, ra, n as int)->Some_0)) by {
        let t = q.tasks@[n as int];
        assert(n < q.tasks.len());
        assert(crate::resolve::context_fits(t));
        let p = t.context->Some_0->SingleParent_0;
        assert(crate::resolve::task_parents(t)[0] == p);
        assert(has_input(q.task_graph, n, p, 1));
        let e = choose|e: nat| #[trigger] graph_edges(q.task_graph).contains_key(e)
            && graph_edges(q.task_graph)[e] == (p as nat, n, 1nat);
        assert(crate::resolve::rebinds(td, ra, n as int, td2[n as int].action));
        assert(td[n as int].action is Accessor);
    }
    assert forall|n: nat| #[trigger] graph_nodes(q.task_graph).contains(n) && q.tasks@[n as int].action is Link
        implies crate::resolve::producer_at(td, ra, n as int) is Some
            && q.tasks@[n as int].context == Some(TaskContext::SingleParent(crate::resolve::producer_at(td, ra, n as int)->Some_0)) by {
        let t = q.tasks@[n as int];
        assert(n < q.tasks.len());
        assert(crate::resolve::context_fits(t));
        let p = t.context->Some_0->SingleParent_0;
        assert(crate::resolve::task_parents(t)[0] == p);
        assert(has_input(q.task_graph, n, p, 1));
        let e = choose|e: nat| #[trigger] graph_edges(q.task_graph).contains_key(e)
            && graph_edges(q.task_graph)[e] == (p as nat, n, 1nat);
        assert(crate::resolve::rebinds(td, ra, n as int, td2[n as int].action));
        assert(!(td[n as int].action is Link));
        assert(td[n as int].action is Accessor);
    }
}

/// A linked node reads one node and carries that node's alias.
pub open spec fn linked_to_producer(q: Query, n: nat) -> bool {
    q.tasks@[n as int].context matches Some(TaskContext::SingleParent(p)) && q.tasks@[n as int].alias == q.tasks@[p as int].alias
}

/// Projection `j` is the accessor at index `2 + j`, with the projection's path.
pub open spec fn path_item_at(tasks: Seq<QueryTask>, items: Seq<usize>, projection: Seq<&SelectItem>, j: int) -> bool {
    &&& items[j] == 2 + j
    &&& tasks[2 + j].action is Accessor
    &&& tasks[2 + j].action->Accessor_0@ == item_path(*projection[j])->Some_0
}

/// Every projection built so far is the accessor at index `2 + j`.
pub open spec fn path_items_ok(tasks: Seq<QueryTask>, items: Seq<usize>, projection: Seq<&SelectItem>) -> bool {
    forall|j: int| 0 <= j < items.len() ==> #[trigger] path_item_at(tasks, items, projection, j)
}

/// Projections and predicate whose identifiers are all root paths of `ra`.
pub open spec fn rooted_parts(projection: Seq<&SelectItem>, selection: Option<&SqlExpr>, ra: Seq<char>) -> bool {
    &&& forall|k: int| 0 <= k < projection.len() ==> item_root_paths(*#[trigger] projection[k], ra)
    &&& match selection {
        Some(e) => root_paths(*e, ra),
        None => true,
    }
}

/// A `SELECT` of named or unnamed root paths of two names or more, without `WHERE`.
pub open spec fn path_select(projection: Seq<&SelectItem>, selection: Option<&SqlExpr>, ra: Seq<char>) -> bool {
    &&& selection is None
    &&& forall|k: int| 0 <= k < projection.len() ==> (item_path(*#[trigger] projection[k]) matches Some(p)
        && p.len() >= 2 && p[0]@ == ra)
}

/// The label of a projection: its alias, or the empty text.
pub open spec fn path_label(item: SelectItem) -> Seq<char> {
    match item_alias(item) {
        Some(a) => a,
        None => Seq::empty(),
    }
}

/// What a path `SELECT` gives on a document: each path read from the
/// document after its first name, labelled, and no condition.
pub open spec fn path_result(projection: Seq<&SelectItem>, d: JsonV) -> SimpleV {
    SimpleV {
        result: Seq::new(projection.len(), |k: int| (
            path_label(*projection[k]),
            descend(d, item_path(*projection[k])->Some_0.subrange(1, item_path(*projection[k])->Some_0.len() as int)
                .map_values(|s: String| s@)),
        )),
        cond: None,
    }
}

/// A projection that is a path of two names or more from `ra`, named or not.
pub open spec fn item_is_path(item: SelectItem, ra: Seq<char>) -> bool {
    item_path(item) matches Some(p) && p.len() >= 2 && p[0]@ == ra
}

/// When a half of a `FOREACH` is made of paths only (the loop expression
/// from `payload` without `WHERE`; the `RETURN` items from the loop alias
/// without `WHEN`), its plan reads those paths from the document.
pub open spec fn halves_read_paths(f: ForeachStatement, b: BuiltQueryForeach) -> bool {
    &&& f.where_expr is None && item_is_path(f.select_item, reserved_root())
        ==> forall|d: JsonV| #[trigger] eval_select(b.main, d) == Ok::<SimpleV, QueryError>(paths_result(seq![f.select_item], d))
    &&& match loop_alias(f) {
        Some(a) => f.when_expr is None && (forall|k: int| 0 <= k < return_list(f).len() ==> item_is_path(#[trigger] return_list(f)[k], a))
            ==> forall|d: JsonV| #[trigger] eval_select(b.foreach, d) == Ok::<SimpleV, QueryError>(paths_result(return_list(f), d)),
        None => true,
    }
}

/// A `SELECT` of named or unnamed root paths of two names or more, without `WHERE`.
pub open spec fn select_of_paths(select: Select, ra: Seq<char>) -> bool {
    &&& select.selection is None
    &&& forall|k: int| 0 <= k < select.projection.len() ==> (item_path(#[trigger] select.projection@[k]) matches Some(p)
        && p.len() >= 2 && p[0]@ == ra)
}

/// What a path `SELECT` gives on a document, over its list of projections.
pub open spec fn paths_result(projection: Seq<SelectItem>, d: JsonV) -> SimpleV {
    SimpleV {
        result: Seq::new(projection.len(), |k: int| (
            path_label(projection[k]),
            descend(d, item_path(projection[k])->Some_0.subrange(1, item_path(projection[k])->Some_0.len() as int)
                .map_values(|s: String| s@)),
        )),
        cond: None,
    }
}

/// A plan compiled from a path `SELECT` reads each path from the document.
proof fn lemma_path_select_built(
    q: Query,
    projection: Seq<&SelectItem>,
    tb: Seq<QueryTask>,
    td: Seq<QueryTask>,
    td2: Seq<QueryTask>,
    tf: Seq<QueryTask>,
    ra: Seq<char>,
)
    requires
        q.wf(),
        path_select(projection, None, ra),
        q.query_select.where_expr is None,
        q.query_select.select_items.len() == projection.len(),
        tb.len() == projection.len() + 2,
        td.len() == tb.len() && td2.len() == tb.len() && tf.len() == tb.len() && q.tasks.len() == tb.len(),
        td.len() <= usize::MAX,
        path_items_ok(tb, q.query_select.select_items@, projection),
        forall|j: int| 0 <= j < projection.len()
            ==> alias_view(tb[#[trigger] q.query_select.select_items@[j] as int].alias) == item_alias(*projection[j]),
        forall|i: int| 0 <= i < tb.len() ==> (#[trigger] td[i]).action == tb[i].action && td[i].alias == tb[i].alias,
        forall|i: int| 0 <= i < td.len() ==> crate::resolve::rebinds(td, ra, i, (#[trigger] td2[i]).action) && td2[i].alias == td[i].alias,
        forall|i: int| 0 <= i < tf.len() ==> (#[trigger] tf[i]).action == td2[i].action,
        forall|i: int| 0 <= i < td2.len() && !(td2[i].action is Link) ==> (#[trigger] tf[i]).alias == td2[i].alias,
        forall|i: int| 0 <= i < tf.len() ==> (#[trigger] q.tasks@[i]).alias == tf[i].alias && q.tasks@[i].action == tf[i].action,
        forall|n: nat| #[trigger] graph_nodes(q.task_graph).contains(n) && q.tasks@[n as int].action is Accessor
            ==> crate::resolve::producer_at(td, ra, n as int) is Some
                && q.tasks@[n as int].context == Some(TaskContext::SingleParent(crate::resolve::producer_at(td, ra, n as int)->Some_0)),
    ensures
        forall|d: JsonV| #[trigger] eval_select(q, d) == Ok::<SimpleV, QueryError>(path_result(projection, d)),
{
    assert forall|k: int| 0 <= k < projection.len() implies {
        let n = 2 + k;
        &&& #[trigger] q.query_select.select_items@[k] == n
        &&& item_path(*projection[k]) is Some
        &&& q.tasks@[n].action is Accessor
        &&& q.tasks@[n].action->Accessor_0@ == item_path(*projection[k])->Some_0.subrange(1, item_path(*projection[k])->Some_0.len() as int)
        &&& q.tasks@[n].context == Some(TaskContext::SingleParent(0))
        &&& crate::execute::label(q.tasks@[n]) == path_label(*projection[k])
    } by {
        let n = 2 + k;
        assert(path_item_at(tb, q.query_select.select_items@, projection, k));
        assert(item_path(*projection[k]) is Some);
        let p = item_path(*projection[k])->Some_0;
        assert(crate::resolve::rebinds(td, ra, n, td2[n].action));
        assert(crate::resolve::producer_at(td, ra, n) == Some(0usize));
        assert(graph_nodes(q.task_graph).contains(n as nat));
        assert(alias_view(tb[n].alias) == item_alias(*projection[k]));
        assert(q.tasks@[n].alias == tb[n].alias);
    }
    assert forall|d: JsonV| #[trigger] eval_select(q, d) == Ok::<SimpleV, QueryError>(path_result(projection, d)) by {
        lemma_path_plan_meaning(q, projection, d);
    }
}

/// A plan whose projections are root accessors at indices `2, 3, ...`
/// evaluates to each path read from the document.
proof fn lemma_path_plan_meaning(q: Query, projection: Seq<&SelectItem>, d: JsonV)
    requires
        q.wf(),
        q.query_select.where_expr is None,
        q.query_select.select_items.len() == projection.len(),
        q.tasks.len() == projection.len() + 2,
        forall|k: int| 0 <= k < projection.len() ==> {
            let n = 2 + k;
            &&& #[trigger] q.query_select.select_items@[k] == n
            &&& item_path(*projection[k]) is Some
            &&& q.tasks@[n].action is Accessor
            &&& q.tasks@[n].action->Accessor_0@ == item_path(*projection[k])->Some_0.subrange(1, item_path(*projection[k])->Some_0.len() as int)
            &&& q.tasks@[n].context == Some(TaskContext::SingleParent(0))
            &&& crate::execute::label(q.tasks@[n]) == path_label(*projection[k])
        },
    ensures
        eval_select(q, d) == Ok::<SimpleV, QueryError>(path_result(projection, d)),
{
    assert(crate::execute::runs_root_accessors(q)) by {
        assert forall|j: int| 0 <= j < q.order.len() implies {
            &&& (#[trigger] q.tasks@[q.order@[j] as int]).action is Accessor
            &&& q.tasks@[q.order@[j] as int].context == Some(TaskContext::SingleParent(0))
        } by {
            let n = q.order@[j] as int;
            assert(n != 0 && n != 1);
            let k = n - 2;
            assert(q.query_select.select_items@[k] == n);
        }
    }
    crate::execute::lemma_root_accessors_run(q, d, q.order.len() as int);
    let v = run(q.tasks@, q.order@, start_values(q, d), q.order.len() as int)->Ok_0;
    let h = crate::execute::harvest(q, v);
    assert forall|k: int| 0 <= k < projection.len() implies #[trigger] h.result[k] == path_result(projection, d).result[k] by {
        let n = 2 + k;
        assert(q.query_select.select_items@[k] == n);
        assert(graph_nodes(q.task_graph).contains(n as nat));
        assert(exists|j: int| 0 <= j < q.order.len() && #[trigger] q.order@[j] == n);
        let p = q.tasks@[n].action->Accessor_0;
        assert(crate::execute::path_view(p) =~= item_path(*projection[k])->Some_0.subrange(1, item_path(*projection[k])->Some_0.len() as int)
            .map_values(|s: String| s@));
    }
    assert(h.result =~= path_result(projection, d).result);
}

/// Projections and predicate without any identifier.
pub open spec fn plain_literal(projection: Seq<&SelectItem>, selection: Option<&SqlExpr>) -> bool {
    &&& forall|k: int| 0 <= k < projection.len() ==> item_literal_only(*#[trigger] projection[k])
    &&& match selection {
        Some(e) => literal_only(*e),
        None => true,
    }
}

/// No task of a plan whose edges all leave built nodes reads the root.
proof fn lemma_plan_ignores_root(q: Query)
    requires
        q.wf(),
        sources_built(q.task_graph),
    ensures
        crate::laws::reads_no_input(q),
{
    assert forall|k: int, j: int| 0 <= k < q.order.len() && 0 <= j < crate::resolve::task_parents(q.tasks@[q.order@[k] as int]).len()
        implies #[trigger] crate::resolve::task_parents(q.tasks@[q.order@[k] as int])[j] != 0 by {
        let n = q.order@[k];
        let ps = crate::resolve::task_parents(q.tasks@[n as int]);
        assert(graph_nodes(q.task_graph).contains(n as nat));
        assert(has_input(q.task_graph, n as nat, ps[j], j + 1));
        let e = choose|e: nat| #[trigger] graph_edges(q.task_graph).contains_key(e)
            && graph_edges(q.task_graph)[e] == (ps[j] as nat, n as nat, (j + 1) as nat);
    }
}

/// The alias a linked projection inherits: that of the node it reads.
pub open spec fn inherited_alias(td: Seq<QueryTask>, td2: Seq<QueryTask>, ra: Seq<char>, i: int) -> Option<String> {
    td2[crate::resolve::producer_at(td, ra, i)->Some_0 as int].alias
}

/// A link left by alias resolution reads its producer, which is also where
/// the walk for a name stops.
proof fn lemma_link_parent(
    g: TaskGraph,
    td: Seq<QueryTask>,
    td2: Seq<QueryTask>,
    ts: Seq<QueryTask>,
    ra: Seq<char>,
    n: int,
)
    requires
        0 <= n < td2.len(),
        td.len() == td2.len() && ts.len() == td2.len() && td.len() <= usize::MAX,
        td2[n].action is Link,
        forall|i: int| 0 <= i < td.len() ==> !((#[trigger] td[i]).action is Link),
        td[0].action is Root && td[0].alias is None,
        crate::resolve::accessor_inputs_from_producers(g, td, ra),
        crate::resolve::aliases_required(td),
        forall|i: int| 0 <= i < td.len() ==> crate::resolve::rebinds(td, ra, i, (#[trigger] td2[i]).action)
            && td2[i].alias == td[i].alias,
        forall|i: int| 0 <= i < td.len() ==> #[trigger] crate::resolve::bound_to_producer(g, td2, td, ra, i),
        forall|i: int| 0 <= i < td.len() && td[i].required ==> !((#[trigger] td2[i]).action is Stale),
        tasks_ok(g, ts),
        forall|i: int| 0 <= i < td2.len() ==> (#[trigger] ts[i]).action == td2[i].action,
        forall|i: int| 0 <= i < td2.len() && td2[i].alias is Some ==> (#[trigger] ts[i]).alias == td2[i].alias,
        forall|i: int| 0 <= i < td2.len() && !(td2[i].action is Link) ==> (#[trigger] ts[i]).alias == td2[i].alias,
    ensures
        crate::resolve::producer_at(td, ra, n) is Some,
        parent_walk_result(g, ts, n) == Some(crate::resolve::producer_at(td, ra, n)->Some_0),
        ts[crate::resolve::producer_at(td, ra, n)->Some_0 as int].alias == inherited_alias(td, td2, ra, n),
{
    assert(crate::resolve::rebinds(td, ra, n, td2[n].action));
    assert(!(td[n].action is Link));
    assert(crate::resolve::producer_at(td, ra, n) is Some);
    let p = crate::resolve::producer_at(td, ra, n)->Some_0;
    crate::resolve::lemma_producer_is_root_or_aliased(td, ra, n);
    assert(p < td.len()) by {
        crate::resolve::lemma_producer_below_pub(td, ra, n);
    }
    assert(!(td2[p as int].action is Stale)) by {
        if p != 0 {
            assert(td[p as int].required);
        } else {
            assert(crate::resolve::rebinds(td, ra, 0, td2[0].action));
        }
    }
    assert(!(td2[n].action is Stale));
    assert(crate::resolve::bound_to_producer(g, td2, td, ra, n));
    assert(has_input(g, n as nat, p, 1));
    let e0 = choose|e: nat| #[trigger] graph_edges(g).contains_key(e) && graph_edges(g)[e] == (p as nat, n as nat, 1nat);
    assert forall|e: nat| #[trigger] graph_edges(g).contains_key(e) && graph_edges(g)[e].1 == n as nat
        implies graph_edges(g)[e].0 == p as nat by {}
    crate::resolve::lemma_only_input_is_first(g, n as nat, p, e0);
    if p != 0 {
        assert(td2[p as int].alias is Some);
    } else {
        assert(crate::resolve::rebinds(td, ra, 0, td2[0].action));
    }
}

/// The walk from `n` for the nearest named or computing ancestor.
pub open spec fn parent_walk_result(g: TaskGraph, ts: Seq<QueryTask>, n: int) -> Option<usize> {
    crate::resolve::parent_walk(g, ts, n as usize, ts.len() as nat)
}

/// An accessor of a compiled plan reads the root or a task that carries an alias.
pub open spec fn accessor_reads_producer(q: Query, n: nat) -> bool {
    q.tasks@[n as int].context matches Some(crate::task::TaskContext::SingleParent(p))
        && (p == 0 || q.tasks@[p as int].alias is Some)
}

/// The projections and the predicate are required and feed the sink.
pub open spec fn sink_wired(g: TaskGraph, tasks: Seq<QueryTask>, items: Seq<usize>, w: Option<usize>) -> bool {
    &&& forall|k: int| 0 <= k < items.len() ==> tasks[#[trigger] items[k] as int].required && has_input(g, 1, items[k], 1)
    &&& w matches Some(x) ==> tasks[x as int].required && has_input(g, 1, x, 1)
}

/// A `SELECT` that the compiler always accepts: well-formed projections and
/// predicate whose identifiers are all paths of two names or more from the
/// root alias, one table without joins, and no reserved alias.
pub open spec fn literal_select(
    projection: Seq<&SelectItem>,
    from: Option<&TableWithJoins>,
    selection: Option<&SqlExpr>,
    root_alias: Seq<char>,
) -> bool {
    &&& forall|k: int| 0 <= k < projection.len() ==> item_ok(*#[trigger] projection[k]) && item_root_paths(*projection[k], root_alias)
    &&& match selection {
        Some(e) => expr_ok(*e) && root_paths(*e, root_alias),
        None => true,
    }
    &&& match from {
        Some(t) => t.joins == 0 && t.relation is Table,
        None => false,
    }
    &&& !names_alias(projection, reserved_root())
    &&& !names_alias(projection, root_alias)
}

/// After alias resolution of root-path accessors, every node has its inputs,
/// the graph has no cycle, and the sink feeds nothing.
proof fn lemma_rooted_fits(tb: Seq<QueryTask>, gd: TaskGraph, td: Seq<QueryTask>, g: TaskGraph, ts: Seq<QueryTask>, ra: Seq<char>)
    requires
        2 <= td.len() <= usize::MAX,
        ts.len() == td.len(),
        td[0].action is Root,
        td[1].action is Finalize,
        tb.len() == td.len(),
        forall|m: int| 0 <= m < td.len() ==> (#[trigger] td[m]).action == tb[m].action,
        forall|m: int| 2 <= m < td.len() ==> is_expr_task(#[trigger] tb[m]),
        tasks_ok(gd, td),
        edges_ordered(gd),
        settled_from(gd, td, 2),
        accessors_unfed(gd, td, 2),
        crate::resolve::rooted_accessors(td, ra),
        tasks_ok(g, ts),
        crate::resolve::root_edges_only(gd, td, g, td.len() as int),
        forall|i: int| 0 <= i < td.len() ==> crate::resolve::rebinds(td, ra, i, (#[trigger] ts[i]).action),
        forall|i: int| 0 <= i < td.len() ==> #[trigger] crate::resolve::bound_to_producer(g, ts, td, ra, i),
        forall|e: nat| #[trigger] graph_edges(gd).contains_key(e)
            && !(ts[graph_edges(gd)[e].0 as int].action is Stale)
            && !(ts[graph_edges(gd)[e].1 as int].action is Stale)
            ==> graph_edges(g).contains_key(e) && graph_edges(g)[e] == graph_edges(gd)[e],
    ensures
        crate::resolve::all_inputs_fit(g, ts),
        is_acyclic(g),
        crate::plan::sink_feeds_nothing(g, ts),
{
    let n = td.len();
    assert forall|m: int| 0 <= m < n implies !((#[trigger] ts[m]).action is Stale)
        && (td[m].action is Accessor ==> ts[m].action is Accessor || ts[m].action is Link)
        && (!(td[m].action is Accessor) ==> ts[m].action == td[m].action) by {
        assert(crate::resolve::rebinds(td, ra, m, ts[m].action));
        if m >= 2 {
            assert(is_expr_task(tb[m]) && td[m].action == tb[m].action);
        }
    }
    assert(graph_nodes(g) =~= nat_range(n as nat));
    assert(graph_nodes(gd) =~= nat_range(n as nat)) by {
        assert forall|m: nat| graph_nodes(gd).contains(m) <==> nat_range(n as nat).contains(m) by {
            if m < n && m >= 2 {
                assert(is_expr_task(tb[m as int]) && td[m as int].action == tb[m as int].action);
            }
        }
    }
    assert forall|e: nat| #[trigger] graph_edges(gd).contains_key(e)
        implies graph_edges(g).contains_key(e) && graph_edges(g)[e] == graph_edges(gd)[e] by {
        assert(graph_nodes(gd).contains(graph_edges(gd)[e].0));
        assert(graph_nodes(gd).contains(graph_edges(gd)[e].1));
    }
    assert forall|e: nat| #[trigger] graph_edges(g).contains_key(e) && !graph_edges(gd).contains_key(e)
        implies graph_edges(g)[e].0 == 0 && graph_edges(g)[e].2 == 1 && graph_edges(g)[e].1 >= 2
            && td[graph_edges(g)[e].1 as int].action is Accessor by {}
    assert(edges_ordered(g));
    lemma_ordered_acyclic(g, n as nat);
    assert forall|e: nat| #[trigger] graph_edges(g).contains_key(e)
        implies !(ts[graph_edges(g)[e].0 as int].action is Finalize) by {
        if graph_edges(gd).contains_key(e) {
            assert(graph_edges(gd)[e].0 != 1);
            let s = graph_edges(gd)[e].0 as int;
            assert(graph_nodes(gd).contains(s as nat));
            if s >= 2 {
                assert(is_expr_task(tb[s]) && td[s].action == tb[s].action);
            }
        }
    }
    assert forall|m: nat| #[trigger] graph_nodes(g).contains(m) && !(ts[m as int].action is Finalize)
        implies crate::resolve::inputs_fit(g, ts[m as int].action, m) by {
        if m == 0 {
            assert forall|e: nat| #[trigger] graph_edges(g).contains_key(e) implies graph_edges(g)[e].1 != 0 by {
                if graph_edges(gd).contains_key(e) {
                    assert(graph_edges(gd)[e].0 != 1);
                }
            }
            lemma_fresh_fits(g, ts[0].action, 0);
        } else if m >= 2 {
            if td[m as int].action is Accessor {
                assert(crate::resolve::bound_to_producer(g, ts, td, ra, m as int));
                assert(crate::resolve::producer_at(td, ra, m as int) == Some(0usize));
                let p = seq![0usize];
                assert(has_input(g, m, p[0], 1));
                assert forall|e: nat| #[trigger] graph_edges(g).contains_key(e) && graph_edges(g)[e].1 == m
                    implies !graph_edges(gd).contains_key(e) by {
                    if graph_edges(gd).contains_key(e) {
                        assert(has_inputs_b(gd, m));
                    }
                }
                assert(crate::resolve::incoming_ok(g, m, p));
            } else {
                assert(is_expr_task(tb[m as int]) && td[m as int].action == tb[m as int].action);
                assert(crate::resolve::inputs_fit(gd, td[m as int].action, m));
                assert forall|e: nat| #[trigger] graph_edges(g).contains_key(e) && graph_edges(g)[e].1 == m
                    implies graph_edges(gd).contains_key(e) by {}
                lemma_fit_kept(gd, g, td[m as int].action, m);
            }
        }
    }
}

/// Extending the tasks keeps earlier accessors without inputs.
proof fn lemma_unfed_extends(g0: TaskGraph, t0: Seq<QueryTask>, g1: TaskGraph, t1: Seq<QueryTask>)
    requires
        accessors_unfed(g0, t0, 2),
        accessors_unfed(g1, t1, t0.len() as int),
        extends(g0, t0, g1, t1),
    ensures
        accessors_unfed(g1, t1, 2),
{
    assert forall|m: int| 2 <= m < t1.len() && (#[trigger] t1[m]).action is Accessor implies !has_inputs_b(g1, m as nat) by {
        if m < t0.len() {
            assert(t1.subrange(0, t0.len() as int)[m] == t1[m]);
            if has_inputs_b(g1, m as nat) {
                let e = choose|e: nat| #[trigger] graph_edges(g1).contains_key(e) && graph_edges(g1)[e].1 == m as nat;
                if !graph_edges(g0).contains_key(e) {
                    assert(graph_edges(g1)[e].1 >= t0.len());
                }
                assert(has_inputs_b(g0, m as nat));
            }
        }
    }
}

/// From index 2 on, every accessor path starts at `ra`, and has two names or
/// more unless its node is one of the projections `items`.
pub open spec fn items_rooted(tasks: Seq<QueryTask>, ra: Seq<char>, items: Seq<usize>) -> bool {
    forall|m: int| 2 <= m < tasks.len() && (#[trigger] tasks[m]).action is Accessor
        ==> tasks[m].action->Accessor_0@.len() >= 1 && tasks[m].action->Accessor_0@[0]@ == ra
            && (tasks[m].action->Accessor_0@.len() >= 2 || exists|j: int| 0 <= j < items.len() && items[j] == m)
}

/// Adding a projection whose accessors are rooted keeps all accessors rooted.
proof fn lemma_items_rooted_item(
    t1: Seq<QueryTask>,
    t2: Seq<QueryTask>,
    ra: Seq<char>,
    items1: Seq<usize>,
    n: usize,
)
    requires
        t1.len() <= t2.len(),
        t2.subrange(0, t1.len() as int) == t1,
        items_rooted(t1, ra, items1),
        item_accessors_rooted(t2, t1.len() as int, ra, Ok::<usize, QueryError>(n)),
        t2.len() <= usize::MAX,
    ensures
        items_rooted(t2, ra, items1.push(n)),
{
    let items2 = items1.push(n);
    assert forall|m: int| 2 <= m < t2.len() && (#[trigger] t2[m]).action is Accessor
        implies t2[m].action->Accessor_0@.len() >= 1 && t2[m].action->Accessor_0@[0]@ == ra
            && (t2[m].action->Accessor_0@.len() >= 2 || exists|j: int| 0 <= j < items2.len() && items2[j] == m) by {
        if m < t1.len() {
            assert(t2.subrange(0, t1.len() as int)[m] == t2[m]);
            if t2[m].action->Accessor_0@.len() < 2 {
                let j = choose|j: int| 0 <= j < items1.len() && items1[j] == m;
                assert(items2[j] == m);
            }
        } else {
            if t2[m].action->Accessor_0@.len() < 2 {
                assert(Ok::<usize, QueryError>(n) == Ok::<usize, QueryError>(m as usize));
                assert(n as int == m);
                assert(items2[items1.len() as int] == m);
            }
        }
    }
}

/// Adding an expression whose accessors are root paths keeps all accessors rooted.
proof fn lemma_items_rooted_expr(t1: Seq<QueryTask>, t2: Seq<QueryTask>, ra: Seq<char>, items: Seq<usize>)
    requires
        t1.len() <= t2.len(),
        t2.subrange(0, t1.len() as int) == t1,
        items_rooted(t1, ra, items),
        accessors_rooted(t2, t1.len() as int, ra),
    ensures
        items_rooted(t2, ra, items),
{
    assert forall|m: int| 2 <= m < t2.len() && (#[trigger] t2[m]).action is Accessor
        implies t2[m].action->Accessor_0@.len() >= 1 && t2[m].action->Accessor_0@[0]@ == ra
            && (t2[m].action->Accessor_0@.len() >= 2 || exists|j: int| 0 <= j < items.len() && items[j] == m) by {
        if m < t1.len() {
            assert(t2.subrange(0, t1.len() as int)[m] == t2[m]);
        }
    }
}

/// Wiring a node to the sink keeps the edges ordered and the inputs of every
/// other node.
proof fn lemma_required_keeps(g0: TaskGraph, t0: Seq<QueryTask>, g1: TaskGraph, t1: Seq<QueryTask>, n: usize)
    requires
        edges_ordered(g0),
        settled_from(g0, t0, 2),
        accessors_unfed(g0, t0, 2),
        sources_built(g0),
        n >= 2,
        t1.len() == t0.len(),
        forall|i: int| 0 <= i < t0.len() ==> (#[trigger] t1[i]).action == t0[i].action,
        forall|e: nat| #[trigger] graph_edges(g0).contains_key(e) ==> graph_edges(g1).contains_key(e)
            && graph_edges(g1)[e] == graph_edges(g0)[e],
        forall|e: nat| #[trigger] graph_edges(g1).contains_key(e) && !graph_edges(g0).contains_key(e)
            ==> graph_edges(g1)[e] == (n as nat, 1nat, 1nat),
    ensures
        edges_ordered(g1),
        settled_from(g1, t1, 2),
        accessors_unfed(g1, t1, 2),
        sources_built(g1),
{
    assert forall|m: int| 2 <= m < t1.len() && (#[trigger] t1[m]).action is Accessor implies !has_inputs_b(g1, m as nat) by {
        if has_inputs_b(g1, m as nat) {
            let e = choose|e: nat| #[trigger] graph_edges(g1).contains_key(e) && graph_edges(g1)[e].1 == m as nat;
            if graph_edges(g0).contains_key(e) {
                assert(t1[m].action == t0[m].action);
                assert(has_inputs_b(g0, m as nat));
            }
        }
    }
    assert forall|e: nat| #[trigger] graph_edges(g1).contains_key(e) implies {
        &&& graph_edges(g1)[e].0 != 1
        &&& (graph_edges(g1)[e].1 == 1 || graph_edges(g1)[e].0 < graph_edges(g1)[e].1)
    } by {
        if graph_edges(g0).contains_key(e) {
            assert(graph_edges(g0)[e].0 != 1);
        }
    }
    assert forall|m: int| 2 <= m < t1.len() && !((#[trigger] t1[m]).action is Accessor)
        implies crate::resolve::inputs_fit(g1, t1[m].action, m as nat) by {
        assert(t1[m].action == t0[m].action);
        assert(crate::resolve::inputs_fit(g0, t0[m].action, m as nat));
        lemma_fit_kept(g0, g1, t0[m].action, m as nat);
    }
}

/// Marks node `n` required and wires it to the sink.
fn require_node(g: &mut TaskGraph, tasks: &mut Vec<QueryTask>, n: usize)
    requires
        builder_ok(*old(g), old(tasks)@),
        2 <= n < old(tasks).len(),
        old(tasks)@[1].action is Finalize,
    ensures
        builder_ok(*final(g), final(tasks)@),
        final(tasks).len() == old(tasks).len(),
        forall|i: int| 0 <= i < old(tasks).len() ==> (#[trigger] final(tasks)@[i]).alias == old(tasks)@[i].alias
            && final(tasks)@[i].action == old(tasks)@[i].action
            && final(tasks)@[i].context == old(tasks)@[i].context
            && (i != n ==> final(tasks)@[i].required == old(tasks)@[i].required),
        final(tasks)@[n as int].required,
        forall|e: nat| #[trigger] graph_edges(*old(g)).contains_key(e) ==> graph_edges(*final(g)).contains_key(e)
            && graph_edges(*final(g))[e] == graph_edges(*old(g))[e],
        forall|e: nat| #[trigger] graph_edges(*final(g)).contains_key(e) && !graph_edges(*old(g)).contains_key(e)
            ==> graph_edges(*final(g))[e] == (n as nat, 1nat, 1nat),
        has_input(*final(g), 1, n, 1),
{
    let mut tmp = QueryTask::with_action(TaskAction::Stale, false);
    tasks.set_and_swap(n, &mut tmp);
    tmp.required = true;
    tasks.set_and_swap(n, &mut tmp);
    let e = graph_add_edge(g, n, 1, 1);
    assert(graph_edges(*g).contains_key(e as nat));
}

/// Compiles the parts of a `SELECT` into a plan whose root alias is `root_alias`.
#[verifier::rlimit(100)]
#[verifier::spinoff_prover]
pub fn build_select_parts(
    projection: &Vec<&SelectItem>,
    from: Option<&TableWithJoins>,
    selection: Option<&SqlExpr>,
    root_alias: &String,
) -> (r: Result<Query, QueryError>)
    ensures
        r matches Ok(q) ==> q.wf()
            && q.query_select.select_items.len() == projection.len()
            && (q.query_select.where_expr is Some <==> selection is Some)
            && forall|k: int| 0 <= k < projection.len() && item_alias(*projection@[k]) is Some ==>
                alias_view(q.tasks@[#[trigger] q.query_select.select_items@[k] as int].alias) == item_alias(*projection@[k]),
        names_alias(projection@, reserved_root()) ==> r is Err,
        names_alias(projection@, root_alias@) ==> r is Err,
        (exists|k: int| 0 <= k < projection.len() && !item_ok(*#[trigger] projection@[k])) ==> r is Err,
        selection matches Some(e) && !expr_ok(*e) ==> r is Err,
        from is None ==> r is Err,
        literal_select(projection@, from, selection, root_alias@) ==> r is Ok,
        r matches Ok(q) ==> from is Some && from->Some_0.relation == TableFactor::Table(q.query_select.from),
        r matches Ok(q) ==> sink_wired(q.task_graph, q.tasks@, q.query_select.select_items@, q.query_select.where_expr),
        r matches Ok(q) ==> forall|k: int| 0 <= k < projection.len() && q.tasks@[q.query_select.select_items@[k] as int].action is Link
            && item_alias(*projection@[k]) is None ==> #[trigger] linked_to_producer(q, q.query_select.select_items@[k] as nat),
        path_select(projection@, selection, root_alias@) ==> (r matches Ok(q)
            ==> forall|d: JsonV| #[trigger] eval_select(q, d) == Ok::<SimpleV, QueryError>(path_result(projection@, d))),
        plain_literal(projection@, selection) ==> (r matches Ok(q) ==> crate::laws::reads_no_input(q)),
        (forall|k: int| 0 <= k < projection.len() ==> item_ok(*#[trigger] projection@[k]))
            && (from matches Some(t) && (t.joins > 0 || t.relation is Other)) ==> r is Err,
        r matches Ok(q) ==> forall|n: nat| #[trigger] graph_nodes(q.task_graph).contains(n)
            && q.tasks@[n as int].action is Accessor ==> accessor_reads_producer(q, n),
        r matches Ok(q) ==> forall|k: int| 0 <= k < q.query_select.select_items.len()
            ==> q.tasks@[#[trigger] q.query_select.select_items@[k] as int].required
                && has_input(q.task_graph, 1, q.query_select.select_items@[k], 1),
        r matches Ok(q) ==> q.query_select.where_expr matches Some(w) ==> q.tasks@[w as int].required
            && has_input(q.task_graph, 1, w, 1),
        r matches Err(e) ==> (e is UnsupportedSelectItem || e is UnsupportedExpression || e is InvalidNumber)
            ==> (exists|k: int| 0 <= k < projection.len() && !item_ok(*#[trigger] projection@[k]))
                || (selection matches Some(x) && !expr_ok(*x)),
        r matches Err(e) ==> (e is MissingSource || e is JoinsNotSupported || e is UnsupportedTable)
            ==> from is None || (from matches Some(t) && (t.joins > 0 || t.relation is Other)),
        r matches Err(e) ==> e is ReservedAlias
            ==> names_alias(projection@, reserved_root()) || names_alias(projection@, root_alias@),
        r matches Err(e) ==> e is UnsupportedSelectItem || e is UnsupportedExpression || e is InvalidNumber
            || e is MissingSource || e is JoinsNotSupported || e is UnsupportedTable || e is ReservedAlias
            || e is MissingContext || e is WeightMismatch || e is InvalidAccesses || e is Cycle,
{
    let mut g = graph_new();
    let mut tasks: Vec<QueryTask> = Vec::new();
    proof {
        assert(graph_nodes(g) =~= nat_range(0));
    }
    add_task(&mut g, &mut tasks, QueryTask::with_action(TaskAction::Root, true));
    add_task(&mut g, &mut tasks, QueryTask::with_action(TaskAction::Finalize, true));
    let ghost g0 = g;
    let ghost t0 = tasks@;
    let ghost hyp = literal_select(projection@, from, selection, root_alias@);
    let ghost rooted = rooted_parts(projection@, selection, root_alias@);
    let ghost ps = path_select(projection@, selection, root_alias@);
    proof {
        if ps {
            assert forall|k: int| 0 <= k < projection.len() implies item_root_paths(*#[trigger] projection@[k], root_alias@) by {
                assert(item_path(*projection@[k]) is Some);
            }
        }
    }
    let ghost lit = plain_literal(projection@, selection);
    proof {
        lemma_extends_refl(g, tasks@);
        assert(graph_edges(g).dom().is_empty());
        assert(edges_ordered(g));
        assert(sources_built(g));
    }
    let mut select_items: Vec<usize> = Vec::new();
    let mut k: usize = 0;
    while k < projection.len()
        invariant
            k <= projection.len(),
            builder_ok(g, tasks@),
            extends(g0, t0, g, tasks@),
            t0.len() == 2,
            t0[0].action is Root,
            t0[1].action is Finalize,
            select_items.len() == k,
            forall|j: int| 0 <= j < k ==> 2 <= #[trigger] select_items@[j] < tasks.len()
                && alias_view(tasks@[select_items@[j] as int].alias) == item_alias(*projection@[j]),
            forall|j: int| 0 <= j < k ==> item_ok(*#[trigger] projection@[j]),
            forall|i: int| 0 <= i < tasks.len() && (#[trigger] tasks@[i]).alias is Some
                ==> exists|j: int| 0 <= j < k && select_items@[j] == i,
            hyp == literal_select(projection@, from, selection, root_alias@),
            edges_ordered(g),
            settled_from(g, tasks@, 2),
            rooted == rooted_parts(projection@, selection, root_alias@),
            ps == path_select(projection@, selection, root_alias@),
            rooted ==> items_rooted(tasks@, root_alias@, select_items@),
            ps ==> rooted,
            ps ==> tasks.len() == 2 + k && path_items_ok(tasks@, select_items@, projection@),
            accessors_unfed(g, tasks@, 2),
            lit == plain_literal(projection@, selection),
            sources_built(g),
            lit ==> forall|m: int| 2 <= m < tasks.len() ==> !((#[trigger] tasks@[m]).action is Accessor),
        decreases projection.len() - k,
    {
        let ghost g1 = g;
        let ghost t1 = tasks@;
        let res = add_select_item(&mut g, &mut tasks, projection[k]);
        proof {
            lemma_settled_extends(g1, t1, g, tasks@, 2);
            assert forall|m: int| 2 <= m < tasks.len() && !((#[trigger] tasks@[m]).action is Accessor)
                implies crate::resolve::inputs_fit(g, tasks@[m].action, m as nat) by {
                if m >= t1.len() {
                    assert(settled_from(g, tasks@, t1.len() as int));
                }
            }
            lemma_unfed_extends(g1, t1, g, tasks@);
            if lit {
                assert(item_literal_only(*projection@[k as int]));
                assert forall|m: int| 2 <= m < tasks.len() implies !((#[trigger] tasks@[m]).action is Accessor) by {
                    if m < t1.len() {
                        assert(tasks@.subrange(0, t1.len() as int)[m] == tasks@[m]);
                    }
                }
            }
            lemma_extends_trans(g0, t0, g1, t1, g, tasks@);
            assert forall|j: int| 0 <= j < k implies tasks@[#[trigger] select_items@[j] as int] == t1[select_items@[j] as int] by {
                assert(tasks@.subrange(0, t1.len() as int)[select_items@[j] as int] == tasks@[select_items@[j] as int]);
            }
        }
        let n = res?;
        let ghost old_items = select_items@;
        select_items.push(n);
        proof {
            if rooted {
                assert(item_root_paths(*projection@[k as int], root_alias@));
                assert(tasks@.subrange(0, t1.len() as int) == t1);
                lemma_items_rooted_item(t1, tasks@, root_alias@, old_items, n);
                assert(select_items@ == old_items.push(n));
            }
            if ps {
                assert(item_path(*projection@[k as int]) is Some);
                assert(t1.len() == 2 + k);
                assert(tasks.len() == 2 + k + 1);
                assert(n == 2 + k);
                assert(tasks@[2 + k as int].action->Accessor_0@ == item_path(*projection@[k as int])->Some_0);
                assert forall|j: int| 0 <= j < select_items.len() implies path_item_at(tasks@, select_items@, projection@, j) by {
                    if j < k {
                        assert(path_item_at(t1, old_items, projection@, j));
                        assert(tasks@.subrange(0, t1.len() as int)[2 + j] == tasks@[2 + j]);
                    }
                }
            }
            assert forall|i: int| 0 <= i < tasks.len() && (#[trigger] tasks@[i]).alias is Some
                implies exists|j: int| 0 <= j < k + 1 && select_items@[j] == i by {
                if i < t1.len() {
                    assert(tasks@[i] == t1[i]) by {
                        assert(tasks@.subrange(0, t1.len() as int)[i] == tasks@[i]);
                    }
                    let j = choose|j: int| 0 <= j < k && old_items[j] == i;
                    assert(select_items@[j] == i);
                } else {
                    assert(select_items@[k as int] == i);
                }
            }
        }
        k = k + 1;
    }
    let from = match from {
        Some(t) => get_table_name(t)?,
        None => return Err(QueryError::MissingSource),
    };
    let ghost g1 = g;
    let ghost t1 = tasks@;
    let where_expr = match selection {
        Some(e) => {
            let w = add_expr(&mut g, &mut tasks, e, None)?;
            Some(w)
        },
        None => {
            proof {
                lemma_extends_refl(g, tasks@);
            }
            None
        },
    };
    proof {
        lemma_extends_trans(g0, t0, g1, t1, g, tasks@);
        assert forall|j: int| 0 <= j < select_items.len() implies tasks@[#[trigger] select_items@[j] as int] == t1[select_items@[j] as int] by {
            assert(tasks@.subrange(0, t1.len() as int)[select_items@[j] as int] == tasks@[select_items@[j] as int]);
        }
        assert(tasks@[0] == tasks@.subrange(0, 2)[0]);
        assert(tasks@[1] == tasks@.subrange(0, 2)[1]);
        lemma_settled_extends(g1, t1, g, tasks@, 2);
        assert forall|m: int| 2 <= m < tasks.len() && !((#[trigger] tasks@[m]).action is Accessor)
            implies crate::resolve::inputs_fit(g, tasks@[m].action, m as nat) by {
            if m >= t1.len() {
                assert(settled_from(g, tasks@, t1.len() as int));
            }
        }
        lemma_unfed_extends(g1, t1, g, tasks@);
        if rooted {
            if let Some(e) = selection {
                assert(root_paths(*e, root_alias@));
            }
            assert(tasks@.subrange(0, t1.len() as int) == t1);
            lemma_items_rooted_expr(t1, tasks@, root_alias@, select_items@);
        }
        if lit {
            assert forall|m: int| 2 <= m < tasks.len() implies !((#[trigger] tasks@[m]).action is Accessor) by {
                if m < t1.len() {
                    assert(tasks@.subrange(0, t1.len() as int)[m] == tasks@[m]);
                }
            }
        }
        assert forall|m: int| 2 <= m < tasks.len() implies is_expr_task(#[trigger] tasks@[m]) by {
            assert(tasks@.subrange(0, 2) == t0);
        }
    }
    let ghost tb = tasks@;
    let mut k: usize = 0;
    while k < select_items.len()
        invariant
            k <= select_items.len(),
            builder_ok(g, tasks@),
            tasks.len() == tb.len(),
            tasks@[1].action is Finalize,
            forall|j: int| 0 <= j < select_items.len() ==> 2 <= #[trigger] select_items@[j] < tasks.len(),
            forall|i: int| 0 <= i < tb.len() ==> (#[trigger] tasks@[i]).alias == tb[i].alias
                && tasks@[i].action == tb[i].action
                && tasks@[i].context == tb[i].context,
            edges_ordered(g),
            settled_from(g, tasks@, 2),
            accessors_unfed(g, tasks@, 2),
            sources_built(g),
            forall|j: int| 0 <= j < k ==> tasks@[#[trigger] select_items@[j] as int].required
                && has_input(g, 1, select_items@[j], 1),
        decreases select_items.len() - k,
    {
        let ghost gp = g;
        let ghost tp = tasks@;
        require_node(&mut g, &mut tasks, select_items[k]);
        proof {
            lemma_required_keeps(gp, tp, g, tasks@, select_items@[k as int]);
            assert forall|j: int| 0 <= j < k + 1 implies tasks@[#[trigger] select_items@[j] as int].required
                && has_input(g, 1, select_items@[j], 1) by {
                if j < k {
                    assert(has_input(gp, 1, select_items@[j], 1));
                    let e = choose|e: nat| #[trigger] graph_edges(gp).contains_key(e)
                        && graph_edges(gp)[e] == (select_items@[j] as nat, 1nat, 1nat);
                    assert(graph_edges(g).contains_key(e));
                }
            }
        }
        k = k + 1;
    }
    if let Some(w) = where_expr {
        let ghost gp = g;
        let ghost tp = tasks@;
        require_node(&mut g, &mut tasks, w);
        proof {
            lemma_required_keeps(gp, tp, g, tasks@, w);
            assert forall|j: int| 0 <= j < select_items.len() implies tasks@[#[trigger] select_items@[j] as int].required
                && has_input(g, 1, select_items@[j], 1) by {
                assert(has_input(gp, 1, select_items@[j], 1));
                let e = choose|e: nat| #[trigger] graph_edges(gp).contains_key(e)
                    && graph_edges(gp)[e] == (select_items@[j] as nat, 1nat, 1nat);
                assert(graph_edges(g).contains_key(e));
            }
        }
    }
    proof {
        assert(sink_wired(g, tasks@, select_items@, where_expr));
        assert forall|n: nat| #[trigger] graph_nodes(g).contains(n) <==> n < tasks.len() && !(tasks@[n as int].action is Stale) by {
            if n >= 2 && n < tasks.len() {
                assert(is_expr_task(tb[n as int]));
            }
        }
        assert forall|i: int| 0 <= i < tasks.len() implies !((#[trigger] tasks@[i]).action is Stale) && tasks@[i].context is None by {
            if i >= 2 {
                assert(is_expr_task(tb[i]));
            }
        }
        if names_alias(projection@, reserved_root()) {
            let j = choose|j: int| 0 <= j < projection.len() && item_alias(*#[trigger] projection@[j]) == Some(reserved_root());
            if j < select_items.len() {
                assert(alias_view(tasks@[select_items@[j] as int].alias) == Some(reserved_root()));
                assert(uses_alias(tasks@, reserved_root()));
            }
        }
        if names_alias(projection@, root_alias@) {
            let j = choose|j: int| 0 <= j < projection.len() && item_alias(*#[trigger] projection@[j]) == Some(root_alias@);
            if j < select_items.len() {
                assert(alias_view(tasks@[select_items@[j] as int].alias) == Some(root_alias@));
                assert(uses_alias(tasks@, root_alias@));
            }
        }
    }
    proof {
        assert forall|i: int| 0 <= i < tasks.len() && (#[trigger] tb[i]).alias is Some
            implies exists|j: int| 0 <= j < select_items.len() && select_items@[j] == i by {
            if i < t1.len() {
                assert(tb.subrange(0, t1.len() as int)[i] == tb[i]);
                assert(tb[i] == t1[i]);
            } else {
                assert(where_expr == Some(i as usize));
            }
        }
        if uses_alias(tasks@, reserved_root()) {
            let i = choose|i: int| 0 <= i < tasks.len() && alias_view(#[trigger] tasks@[i].alias) == Some(reserved_root());
            assert(tb[i].alias == tasks@[i].alias);
            let j = choose|j: int| 0 <= j < select_items.len() && select_items@[j] == i;
            assert(item_alias(*projection@[j]) == Some(reserved_root()));
        }
        if uses_alias(tasks@, root_alias@) {
            let i = choose|i: int| 0 <= i < tasks.len() && alias_view(#[trigger] tasks@[i].alias) == Some(root_alias@);
            assert(tb[i].alias == tasks@[i].alias);
            let j = choose|j: int| 0 <= j < select_items.len() && select_items@[j] == i;
            assert(item_alias(*projection@[j]) == Some(root_alias@));
        }
    }
    let ghost gd = g;
    let ghost td = tasks@;
    assert(sink_wired(gd, td, select_items@, where_expr));
    proof {
        assert forall|i: int| 0 <= i < td.len() && (#[trigger] td[i]).alias is Some implies td[i].required by {
            assert(tb[i].alias == td[i].alias);
            let j = choose|j: int| 0 <= j < select_items.len() && select_items@[j] == i;
            assert(td[select_items@[j] as int].required);
        }
        assert(crate::resolve::aliases_required(td));
        assert forall|e: nat| #[trigger] graph_edges(gd).contains_key(e) implies !(td[graph_edges(gd)[e].1 as int].action is Accessor) by {
            let t = graph_edges(gd)[e].1 as int;
            assert(graph_nodes(gd).contains(t as nat));
            if t >= 2 && td[t].action is Accessor {
                assert(has_inputs_b(gd, t as nat));
            }
            if t < 2 {
                assert(tb[t] == t0[t]) by {
                    assert(tb.subrange(0, 2)[t] == tb[t]);
                }
                assert(tb[t].action == td[t].action);
            }
        }
        assert(tb[0] == t0[0]) by {
            assert(tb.subrange(0, 2)[0] == tb[0]);
        }
        assert(tb[0].action == td[0].action);
        if lit {
            assert forall|i: int| 0 <= i < td.len() implies #[trigger] crate::resolve::producer_at(td, root_alias@, i) is None by {
                if i >= 2 {
                    assert(tb[i].action == td[i].action);
                } else {
                    assert(tb[i] == t0[i]) by {
                        assert(tb.subrange(0, 2)[i] == tb[i]);
                    }
                    assert(tb[i].action == td[i].action);
                }
            }
        }
    }
    proof {
        if rooted {
            assert forall|i: int| 0 <= i < td.len() && (#[trigger] td[i]).action is Accessor
                implies td[i].action->Accessor_0@.len() >= 1 && td[i].action->Accessor_0@[0]@ == root_alias@
                    && (td[i].action->Accessor_0@.len() == 1 ==> td[i].required) by {
                assert(tb[i].action == td[i].action);
                if i < 2 {
                    assert(tb[i] == t0[i]) by {
                        assert(tb.subrange(0, 2)[i] == tb[i]);
                    }
                } else {
                    assert(items_rooted(tb, root_alias@, select_items@));
                    if td[i].action->Accessor_0@.len() < 2 {
                        let j = choose|j: int| 0 <= j < select_items@.len() && select_items@[j] == i;
                        assert(td[select_items@[j] as int].required);
                    }
                }
            }
            assert(crate::resolve::rooted_accessors(td, root_alias@));
        }
    }
    dealias(&mut g, &mut tasks, root_alias)?;
    let ghost td2 = tasks@;
    proof {
        assert forall|x: usize| x < td.len() && td[x as int].required && has_input(gd, 1, x, 1)
            implies has_input(g, 1, x, 1) by {
            let e = choose|e: nat| #[trigger] graph_edges(gd).contains_key(e) && graph_edges(gd)[e] == (x as nat, 1nat, 1nat);
            assert(!(tasks@[x as int].action is Stale));
            assert(!(tasks@[1].action is Stale));
            assert(graph_edges(g).contains_key(e));
        }
        assert forall|k: int| 0 <= k < select_items.len() implies tasks@[#[trigger] select_items@[k] as int].required
            && has_input(g, 1, select_items@[k], 1) by {
            assert(td[select_items@[k] as int].required && has_input(gd, 1, select_items@[k], 1));
        }
        assert(sink_wired(g, tasks@, select_items@, where_expr));
    }
    // a projection that only names another keeps that name
    let mut k: usize = 0;
    while k < select_items.len()
        invariant
            k <= select_items.len(),
            tasks_ok(g, tasks@),
            tasks.len() == tb.len(),
            tasks@[0].action is Root,
            tasks@[1].action is Finalize,
            forall|j: int| 0 <= j < select_items.len() ==> 2 <= #[trigger] select_items@[j] < tasks.len(),
            forall|i: int| 0 <= i < tasks.len() ==> (#[trigger] tasks@[i]).context is None,
            forall|i: int| 0 <= i < tasks.len() && tb[i].alias is Some ==> (#[trigger] tasks@[i]).alias == tb[i].alias,
            sink_wired(g, tasks@, select_items@, where_expr),
            forall|i: int| 0 <= i < td2.len() && !(td2[i].action is Link) ==> (#[trigger] tasks@[i]).alias == td2[i].alias,
            tasks.len() == td2.len(),
            forall|i: int| 0 <= i < td2.len() ==> (#[trigger] tasks@[i]).action == td2[i].action,
            forall|i: int| 0 <= i < td2.len() && td2[i].alias is Some ==> (#[trigger] tasks@[i]).alias == td2[i].alias,
            td.len() == tb.len(),
            forall|m: int| 2 <= m < td.len() ==> !((#[trigger] td[m]).action is Link),
            forall|m: int| 0 <= m < td.len() ==> !((#[trigger] td[m]).action is Link),
            td[0].action is Root && td[0].alias is None,
            td.len() <= usize::MAX,
            crate::resolve::accessor_inputs_from_producers(g, td, root_alias@),
            crate::resolve::aliases_required(td),
            forall|i: int| 0 <= i < td.len() ==> crate::resolve::rebinds(td, root_alias@, i, (#[trigger] td2[i]).action)
                && td2[i].alias == td[i].alias,
            forall|i: int| 0 <= i < td.len() ==> #[trigger] crate::resolve::bound_to_producer(g, td2, td, root_alias@, i),
            forall|i: int| 0 <= i < td.len() && td[i].required ==> !((#[trigger] td2[i]).action is Stale),
            forall|j: int| 0 <= j < k && td2[select_items@[j] as int].action is Link && td2[select_items@[j] as int].alias is None
                ==> tasks@[#[trigger] select_items@[j] as int].alias == inherited_alias(td, td2, root_alias@, select_items@[j] as int),
            forall|i: int| 0 <= i < td2.len() && !(exists|j: int| 0 <= j < k && select_items@[j] == i)
                ==> (#[trigger] tasks@[i]).alias == td2[i].alias,
        decreases select_items.len() - k,
    {
        let n = select_items[k];
        let ghost before = tasks@;
        if matches!(tasks[n].action, TaskAction::Link) && tasks[n].alias.is_none() {
            proof {
                lemma_link_parent(g, td, td2, tasks@, root_alias@, n as int);
            }
            if let Some(p) = find_parent_with_alias(&g, &tasks, n) {
                let alias = match &tasks[p].alias {
                    Some(a) => Some(a.clone()),
                    None => None,
                };
                let mut tmp = QueryTask::with_action(TaskAction::Stale, false);
                tasks.set_and_swap(n, &mut tmp);
                tmp.alias = alias;
                tasks.set_and_swap(n, &mut tmp);
            }
        }
        proof {
            assert forall|j: int| 0 <= j < k + 1 && td2[select_items@[j] as int].action is Link
                && td2[select_items@[j] as int].alias is None
                implies tasks@[#[trigger] select_items@[j] as int].alias == inherited_alias(td, td2, root_alias@, select_items@[j] as int) by {
                let m = select_items@[j] as int;
                if exists|j1: int| 0 <= j1 < k && select_items@[j1] == m {
                    let j1 = choose|j1: int| 0 <= j1 < k && select_items@[j1] == m;
                    assert(before[m].alias == inherited_alias(td, td2, root_alias@, m));
                    if m == n as int {
                        if before[m].alias is None {
                        }
                    } else {
                        assert(tasks@[m] == before[m]);
                    }
                } else if j == k {
                    assert(before[m].alias == td2[m].alias);
                } else {
                    assert(select_items@[j] == m);
                }
            }
            assert forall|i: int| 0 <= i < td2.len() && !(exists|j: int| 0 <= j < k + 1 && select_items@[j] == i)
                implies (#[trigger] tasks@[i]).alias == td2[i].alias by {
                assert(select_items@[k as int] != i);
                assert(!(exists|j: int| 0 <= j < k && select_items@[j] == i));
                assert(tasks@[i] == before[i]);
            }
        }
        k = k + 1;
    }
    proof {
        assert forall|j: int| 0 <= j < select_items.len() && item_alias(*projection@[j]) is Some implies
            alias_view(tasks@[#[trigger] select_items@[j] as int].alias) == item_alias(*projection@[j]) by {
            assert(alias_view(tb[select_items@[j] as int].alias) == item_alias(*projection@[j]));
        }
    }
    proof {
        if hyp {
            lemma_rooted_fits(tb, gd, td, g, td2, root_alias@);
            assert forall|m: nat| #[trigger] graph_nodes(g).contains(m) && !(tasks@[m as int].action is Finalize)
                implies crate::resolve::inputs_fit(g, tasks@[m as int].action, m) by {
                assert(tasks@[m as int].action == td2[m as int].action);
            }
            assert forall|e: nat| #[trigger] graph_edges(g).contains_key(e)
                implies !(tasks@[graph_edges(g)[e].0 as int].action is Finalize) by {
                assert(graph_nodes(g).contains(graph_edges(g)[e].0));
                assert(tasks@[graph_edges(g)[e].0 as int].action == td2[graph_edges(g)[e].0 as int].action);
            }
        }
    }
    let ghost gf = g;
    let ghost tf = tasks@;
    let query_select = QuerySelect { select_items, from, where_expr };
    let r = Query::initalize_execution_context(g, tasks, query_select);
    proof {
        if r is Ok {
            lemma_accessors_read_producers(r->Ok_0, gf, tf, td, td2, root_alias@);
            let q = r->Ok_0;
            assert forall|k: int| 0 <= k < projection.len() && q.tasks@[q.query_select.select_items@[k] as int].action is Link
                && item_alias(*projection@[k]) is None implies #[trigger] linked_to_producer(q, q.query_select.select_items@[k] as nat) by {
                let n = q.query_select.select_items@[k] as int;
                assert(q.query_select.select_items@[k] == select_items@[k]);
                assert(graph_nodes(q.task_graph).contains(n as nat));
                let p = crate::resolve::producer_at(td, root_alias@, n)->Some_0;
                assert(alias_view(tb[n].alias) == item_alias(*projection@[k]));
                assert(tb[n].alias == td[n].alias);
                assert(td2[n].alias is None);
                assert(td2[n].action is Link);
                assert(tf[n].alias == inherited_alias(td, td2, root_alias@, n));
                crate::resolve::lemma_producer_is_root_or_aliased(td, root_alias@, n);
                crate::resolve::lemma_producer_below_pub(td, root_alias@, n);
                if p != 0 {
                    assert(td2[p as int].alias is Some);
                } else {
                    assert(crate::resolve::rebinds(td, root_alias@, 0, td2[0].action));
                }
            }
            if ps {
                lemma_path_select_built(r->Ok_0, projection@, tb, td, td2, tf, root_alias@);
            }
            if lit {
                assert(gf == gd);
                lemma_plan_ignores_root(r->Ok_0);
            }
        }
    }
    r
}

/// The projections of a statement, by reference.
fn item_refs(items: &Vec<SelectItem>) -> (r: Vec<&SelectItem>)
    ensures
        r@.len() == items@.len(),
        forall|k: int| 0 <= k < items.len() ==> *#[trigger] r@[k] == items@[k],
{
    let mut r: Vec<&SelectItem> = Vec::new();
    let mut k: usize = 0;
    while k < items.len()
        invariant
            k <= items.len(),
            r@.len() == k,
            forall|j: int| 0 <= j < k ==> *#[trigger] r@[j] == items@[j],
        decreases items.len() - k,
    {
        r.push(&items[k]);
        k = k + 1;
    }
    r
}

/// Some projection of a list is named `a`.
pub open spec fn list_names_alias(items: Seq<SelectItem>, a: Seq<char>) -> bool {
    exists|k: int| 0 <= k < items.len() && item_alias(#[trigger] items[k]) == Some(a)
}

/// What a plan compiled from a `SELECT` is known to be: well formed, one node
/// per projection, a predicate node exactly when there is a `WHERE`, and each
/// aliased projection labelled by its alias.
pub open spec fn plan_of_select(s: Select, q: Query) -> bool {
    &&& q.wf()
    &&& q.query_select.select_items.len() == s.projection.len()
    &&& (q.query_select.where_expr is Some <==> s.selection is Some)
    &&& forall|k: int| 0 <= k < s.projection.len() && item_alias(s.projection@[k]) is Some ==>
        alias_view(q.tasks@[#[trigger] q.query_select.select_items@[k] as int].alias) == item_alias(s.projection@[k])
    &&& forall|n: nat| #[trigger] graph_nodes(q.task_graph).contains(n) && q.tasks@[n as int].action is Accessor
        ==> accessor_reads_producer(q, n)
    &&& sink_wired(q.task_graph, q.tasks@, q.query_select.select_items@, q.query_select.where_expr)
    &&& s.from.len() == 1 && s.from@[0].relation == TableFactor::Table(q.query_select.from)
    &&& plain_list(s.projection@, s.selection) ==> crate::laws::reads_no_input(q)
    &&& forall|k: int| 0 <= k < s.projection.len() && q.tasks@[q.query_select.select_items@[k] as int].action is Link
        && item_alias(s.projection@[k]) is None ==> #[trigger] linked_to_producer(q, q.query_select.select_items@[k] as nat)
}

/// Projections and predicate of a `SELECT` without any identifier.
pub open spec fn plain_list(projection: Seq<SelectItem>, selection: Option<SqlExpr>) -> bool {
    &&& forall|k: int| 0 <= k < projection.len() ==> item_literal_only(#[trigger] projection[k])
    &&& match selection {
        Some(e) => literal_only(e),
        None => true,
    }
}

/// What a statement compiles to: a `SELECT` plan as above (reading its paths
/// when it is made of paths), or a `FOREACH` whose outer and inner plans have
/// a predicate exactly for `WHERE` and `WHEN` and read their paths when made of
/// paths.
pub open spec fn built_from(stmt: Statement, b: BuiltQuery) -> bool {
    match (stmt, b) {
        (Statement::Select(s), BuiltQuery::SELECT(q)) => plan_of_select(s, q)
            && (select_of_paths(s, reserved_root())
                ==> forall|d: JsonV| #[trigger] eval_select(q, d) == Ok::<SimpleV, QueryError>(paths_result(s.projection@, d))),
        (Statement::Foreach(f), BuiltQuery::FOREACH(x)) => x.wf()
            && (x.main.query_select.where_expr is Some <==> f.where_expr is Some)
            && (x.foreach.query_select.where_expr is Some <==> f.when_expr is Some)
            && halves_read_paths(f, x),
        _ => false,
    }
}

/// A statement that always compiles.
pub open spec fn compiles_surely(stmt: Statement) -> bool {
    match stmt {
        Statement::Select(s) => select_always_compiles(s, reserved_root()),
        Statement::Foreach(f) => foreach_always_compiles(f),
        Statement::Other(_) => false,
    }
}

/// A `SELECT` that always compiles: well-formed projections and predicate
/// whose identifiers are root paths such as `payload.a.b`, one table without
/// joins, and no reserved alias.
pub open spec fn select_always_compiles(select: Select, root_alias: Seq<char>) -> bool {
    &&& select.from.len() == 1
    &&& select.from@[0].joins == 0
    &&& select.from@[0].relation is Table
    &&& forall|k: int| 0 <= k < select.projection.len()
        ==> item_ok(#[trigger] select.projection@[k]) && item_root_paths(select.projection@[k], root_alias)
    &&& match select.selection {
        Some(e) => expr_ok(e) && root_paths(e, root_alias),
        None => true,
    }
    &&& !list_names_alias(select.projection@, reserved_root())
    &&& !list_names_alias(select.projection@, root_alias)
}

/// Compiles a `SELECT` into a plan whose root alias is `root_alias`.
pub fn build_select_query(select: &Select, root_alias: &String) -> (r: Result<Query, QueryError>)
    ensures
        r matches Ok(q) ==> plan_of_select(*select, q),
        list_names_alias(select.projection@, reserved_root()) ==> r is Err,
        list_names_alias(select.projection@, root_alias@) ==> r is Err,
        (exists|k: int| 0 <= k < select.projection.len() && !item_ok(#[trigger] select.projection@[k])) ==> r is Err,
        select.selection matches Some(e) && !expr_ok(e) ==> r is Err,
        select.from.len() == 0 ==> r is Err,
        select.from.len() > 1 ==> r matches Err(QueryError::JoinsNotSupported),
        select.from.len() == 1 && (select.from@[0].joins > 0 || select.from@[0].relation is Other) ==> r is Err,
        select_of_paths(*select, root_alias@) ==> (r matches Ok(q)
            ==> forall|d: JsonV| #[trigger] eval_select(q, d) == Ok::<SimpleV, QueryError>(paths_result(select.projection@, d))),
        select_always_compiles(*select, root_alias@) ==> r is Ok,
{
    if select.from.len() > 1 {
        return Err(QueryError::JoinsNotSupported);
    }
    let items = item_refs(&select.projection);
    let from = if select.from.len() > 0 { Some(&select.from[0]) } else { None };
    proof {
        if list_names_alias(select.projection@, reserved_root()) {
            let k = choose|k: int| 0 <= k < select.projection.len() && item_alias(#[trigger] select.projection@[k]) == Some(reserved_root());
            assert(item_alias(*items@[k]) == Some(reserved_root()));
        }
        if list_names_alias(select.projection@, root_alias@) {
            let k = choose|k: int| 0 <= k < select.projection.len() && item_alias(#[trigger] select.projection@[k]) == Some(root_alias@);
            assert(item_alias(*items@[k]) == Some(root_alias@));
        }
        if names_alias(items@, reserved_root()) {
            let k = choose|k: int| 0 <= k < items.len() && item_alias(*#[trigger] items@[k]) == Some(reserved_root());
            assert(item_alias(select.projection@[k]) == Some(reserved_root()));
        }
        if names_alias(items@, root_alias@) {
            let k = choose|k: int| 0 <= k < items.len() && item_alias(*#[trigger] items@[k]) == Some(root_alias@);
            assert(item_alias(select.projection@[k]) == Some(root_alias@));
        }
        if exists|k: int| 0 <= k < select.projection.len() && !item_ok(#[trigger] select.projection@[k]) {
            let k = choose|k: int| 0 <= k < select.projection.len() && !item_ok(#[trigger] select.projection@[k]);
            assert(!item_ok(*items@[k]));
        }
    }
    let sel = select.selection.as_ref();
    let r = build_select_parts(&items, from, sel, root_alias);
    proof {
        assert forall|k: int| 0 <= k < items@.len() implies *#[trigger] items@[k] == select.projection@[k] by {}
        if plain_list(select.projection@, select.selection) {
            assert forall|k: int| 0 <= k < items@.len() implies item_literal_only(*#[trigger] items@[k]) by {
                assert(*items@[k] == select.projection@[k]);
            }
            assert(plain_literal(items@, sel));
        }
        if select_of_paths(*select, root_alias@) {
            assert forall|k: int| 0 <= k < items@.len() implies (item_path(*#[trigger] items@[k]) matches Some(p)
                && p.len() >= 2 && p[0]@ == root_alias@) by {
                assert(*items@[k] == select.projection@[k]);
            }
            assert(path_select(items@, sel, root_alias@));
            if r is Ok {
                let q = r->Ok_0;
                assert forall|d: JsonV| #[trigger] eval_select(q, d) == Ok::<SimpleV, QueryError>(paths_result(select.projection@, d)) by {
                    assert(eval_select(q, d) == Ok::<SimpleV, QueryError>(path_result(items@, d)));
                    assert forall|k: int| 0 <= k < items@.len() implies *#[trigger] items@[k] == select.projection@[k] by {}
                    assert(path_result(items@, d).result =~= paths_result(select.projection@, d).result);
                }
            }
        }
    }
    r
}

/// A compiled `FOREACH`: the outer plan yields the array and the outer
/// predicate; the inner plan runs once per element, rooted at the loop alias.
pub struct BuiltQueryForeach {
    pub main: Query,
    pub foreach: Query,
}

impl BuiltQueryForeach {
    pub open spec fn wf(&self) -> bool {
        &&& self.main.wf()
        &&& self.foreach.wf()
        &&& self.main.query_select.select_items.len() == 1
    }
}

/// A compiled statement.
pub enum BuiltQuery {
    SELECT(Query),
    FOREACH(BuiltQueryForeach),
}

impl BuiltQuery {
    pub open spec fn wf(&self) -> bool {
        match self {
            BuiltQuery::SELECT(q) => q.wf(),
            BuiltQuery::FOREACH(f) => f.wf(),
        }
    }
}

/// The name a `FOREACH` gives the current element.
pub open spec fn loop_alias(f: ForeachStatement) -> Option<Seq<char>> {
    item_alias(f.select_item)
}

/// An expression the compiler accepts whose identifiers are root paths of `ra`.
pub open spec fn rooted_expr(e: Option<SqlExpr>, ra: Seq<char>) -> bool {
    match e {
        Some(x) => expr_ok(x) && root_paths(x, ra),
        None => true,
    }
}

/// The `RETURN` items of a `FOREACH`, none when absent.
pub open spec fn return_list(f: ForeachStatement) -> Seq<SelectItem> {
    match f.return_items {
        Some(v) => v@,
        None => Seq::empty(),
    }
}

/// A `FOREACH` that always compiles: an aliased loop expression, not named
/// `payload`, over root paths of `payload`; `RETURN` items and `WHEN` over
/// root paths of the loop alias, naming neither `payload` nor the loop alias;
/// one table without joins.
pub open spec fn foreach_always_compiles(f: ForeachStatement) -> bool {
    match f.select_item {
        SelectItem::ExprWithAlias(e, a) => {
            let items = return_list(f);
            &&& a@ != reserved_root()
            &&& expr_ok(e) && root_paths(e, reserved_root())
            &&& rooted_expr(f.where_expr, reserved_root())
            &&& f.from_table.joins == 0 && f.from_table.relation is Table
            &&& forall|k: int| 0 <= k < items.len() ==> item_ok(#[trigger] items[k]) && item_root_paths(items[k], a@)
            &&& rooted_expr(f.when_expr, a@)
            &&& !list_names_alias(items, reserved_root())
            &&& !list_names_alias(items, a@)
        },
        _ => false,
    }
}

/// Compiles a `FOREACH`: an outer plan over the loop expression and the
/// outer `WHERE`, and an inner plan over the `RETURN` items and `WHEN`,
/// rooted at the loop alias.
pub fn build_foreach_query(f: &ForeachStatement) -> (r: Result<BuiltQueryForeach, QueryError>)
    ensures
        r matches Ok(b) ==> b.wf()
            && (b.main.query_select.where_expr is Some <==> f.where_expr is Some)
            && (b.foreach.query_select.where_expr is Some <==> f.when_expr is Some),
        loop_alias(*f) is None ==> r matches Err(QueryError::ForeachAliasRequired),
        loop_alias(*f) == Some(reserved_root()) ==> r is Err,
        f.return_items matches Some(items) && list_names_alias(items@, reserved_root()) ==> r is Err,
        f.return_items matches Some(items) && loop_alias(*f) matches Some(a) && list_names_alias(items@, a) ==> r is Err,
        foreach_always_compiles(*f) ==> r is Ok,
        r matches Ok(b) ==> halves_read_paths(*f, b),
{
    let alias = match &f.select_item {
        SelectItem::ExprWithAlias(_, a) => a.clone(),
        _ => return Err(QueryError::ForeachAliasRequired),
    };
    let root = String::from_str("payload");
    proof {
        reveal_strlit("payload");
        assert(root@ =~= reserved_root());
    }
    let outer_items: Vec<&SelectItem> = vec![&f.select_item];
    proof {
        if loop_alias(*f) == Some(reserved_root()) {
            assert(item_alias(*outer_items@[0]) == Some(reserved_root()));
        }
    }
    let where_ref = f.where_expr.as_ref();
    proof {
        if foreach_always_compiles(*f) {
            assert(*outer_items@[0] == f.select_item);
            if names_alias(outer_items@, reserved_root()) {
                let k = choose|k: int| 0 <= k < outer_items.len() && item_alias(*#[trigger] outer_items@[k]) == Some(reserved_root());
                assert(k == 0);
            }
            assert(literal_select(outer_items@, Some(&f.from_table), where_ref, root@));
        }
    }
    let main_r = build_select_parts(&outer_items, Some(&f.from_table), where_ref, &root);
    proof {
        if main_r is Ok && f.where_expr is None && item_is_path(f.select_item, reserved_root()) {
            assert(*outer_items@[0] == f.select_item);
            assert(path_select(outer_items@, where_ref, root@));
            let q = main_r->Ok_0;
            assert forall|d: JsonV| #[trigger] eval_select(q, d) == Ok::<SimpleV, QueryError>(paths_result(seq![f.select_item], d)) by {
                assert(eval_select(q, d) == Ok::<SimpleV, QueryError>(path_result(outer_items@, d)));
                assert(path_result(outer_items@, d).result =~= paths_result(seq![f.select_item], d).result);
            }
        }
    }
    let main = main_r?;
    let inner_items: Vec<&SelectItem> = match &f.return_items {
        Some(items) => item_refs(items),
        None => Vec::new(),
    };
    proof {
        if f.return_items is Some {
            let items = f.return_items->Some_0;
            if list_names_alias(items@, reserved_root()) {
                let k = choose|k: int| 0 <= k < items.len() && item_alias(#[trigger] items@[k]) == Some(reserved_root());
                assert(item_alias(*inner_items@[k]) == Some(reserved_root()));
            }
            if list_names_alias(items@, alias@) {
                let k = choose|k: int| 0 <= k < items.len() && item_alias(#[trigger] items@[k]) == Some(alias@);
                assert(item_alias(*inner_items@[k]) == Some(alias@));
            }
        }
    }
    let when_ref = f.when_expr.as_ref();
    proof {
        if foreach_always_compiles(*f) {
            let items = return_list(*f);
            assert(inner_items@.len() == items.len());
            assert forall|k: int| 0 <= k < inner_items@.len() implies *#[trigger] inner_items@[k] == items[k] by {}
            if names_alias(inner_items@, reserved_root()) {
                let k = choose|k: int| 0 <= k < inner_items.len() && item_alias(*#[trigger] inner_items@[k]) == Some(reserved_root());
                assert(item_alias(items[k]) == Some(reserved_root()));
            }
            if names_alias(inner_items@, alias@) {
                let k = choose|k: int| 0 <= k < inner_items.len() && item_alias(*#[trigger] inner_items@[k]) == Some(alias@);
                assert(item_alias(items[k]) == Some(alias@));
            }
            assert(literal_select(inner_items@, Some(&f.from_table), when_ref, alias@));
        }
    }
    let inner_r = build_select_parts(&inner_items, Some(&f.from_table), when_ref, &alias);
    proof {
        let items = return_list(*f);
        if inner_r is Ok && f.when_expr is None
            && (forall|k: int| 0 <= k < items.len() ==> item_is_path(#[trigger] items[k], alias@)) {
            assert(inner_items@.len() == items.len());
            assert forall|k: int| 0 <= k < inner_items@.len() implies *#[trigger] inner_items@[k] == items[k] by {}
            assert forall|k: int| 0 <= k < inner_items@.len() implies (item_path(*#[trigger] inner_items@[k]) matches Some(p)
                && p.len() >= 2 && p[0]@ == alias@) by {
                assert(item_is_path(items[k], alias@));
            }
            assert(path_select(inner_items@, when_ref, alias@));
            let q = inner_r->Ok_0;
            assert forall|d: JsonV| #[trigger] eval_select(q, d) == Ok::<SimpleV, QueryError>(paths_result(items, d)) by {
                assert(eval_select(q, d) == Ok::<SimpleV, QueryError>(path_result(inner_items@, d)));
                assert(path_result(inner_items@, d).result =~= paths_result(items, d).result);
            }
        }
    }
    let foreach = inner_r?;
    Ok(BuiltQueryForeach { main, foreach })
}

/// Compiles one statement; a `SELECT` is rooted at `payload`.
pub fn parse_statement(stmt: &Statement) -> (r: Result<BuiltQuery, QueryError>)
    ensures
        r matches Ok(b) ==> b.wf() && built_from(*stmt, b),
        stmt is Other ==> r matches Err(QueryError::UnsupportedStatement(_)),
        stmt matches Statement::Select(s) && list_names_alias(s.projection@, reserved_root()) ==> r is Err,
        compiles_surely(*stmt) ==> r is Ok,
{
    match stmt {
        Statement::Select(select) => {
            let root = String::from_str("payload");
            proof {
                reveal_strlit("payload");
                assert(root@ =~= reserved_root());
            }
            let q = build_select_query(select, &root)?;
            Ok(BuiltQuery::SELECT(q))
        },
        Statement::Foreach(f) => {
            let b = build_foreach_query(f)?;
            Ok(BuiltQuery::FOREACH(b))
        },
        Statement::Other(text) => Err(QueryError::UnsupportedStatement(text.clone())),
    }
}

} // verus!
