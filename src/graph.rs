use vstd::prelude::*;
use petgraph::stable_graph::{NodeIndex, StableGraph};
use petgraph::visit::EdgeRef;
use petgraph::{Directed, Direction};

verus! {

#[verifier::external_type_specification]
#[verifier::external_body]
#[verifier::reject_recursive_types(N)]
#[verifier::reject_recursive_types(E)]
#[verifier::reject_recursive_types(Ty)]
#[verifier::reject_recursive_types(Ix)]
pub struct ExStableGraph<N, E, Ty, Ix>(StableGraph<N, E, Ty, Ix>);

#[verifier::external_type_specification]
#[verifier::external_body]
pub struct ExDirected(Directed);

/// The task graph: nodes carry no weight (tasks are kept beside the graph,
/// under the same index); an edge carries its 1-based argument position.
pub type TaskGraph = StableGraph<(), usize, Directed, usize>;

/// The indices of the nodes present in the graph.
pub uninterp spec fn graph_nodes(g: StableGraph<(), usize, Directed, usize>) -> Set<nat>;

/// The edges present in the graph: edge index to (source, target, weight).
pub uninterp spec fn graph_edges(g: StableGraph<(), usize, Directed, usize>) -> Map<nat, (nat, nat, nat)>;

/// The number of node slots the graph has allocated, present or vacant.
pub uninterp spec fn graph_slots(g: StableGraph<(), usize, Directed, usize>) -> nat;

/// `{0, 1, ..., n - 1}`
pub open spec fn nat_range(n: nat) -> Set<nat> {
    Set::new(|i: nat| i < n)
}

/// What holds of every graph: the nodes lie in the allocated slots, and every
/// edge joins two present nodes.
pub open spec fn graph_ok(g: TaskGraph) -> bool {
    &&& graph_nodes(g).finite()
    &&& graph_edges(g).dom().finite()
    &&& forall|n: nat| #[trigger] graph_nodes(g).contains(n) ==> n < graph_slots(g)
    &&& forall|e: nat| #[trigger] graph_edges(g).contains_key(e) ==> {
        &&& graph_nodes(g).contains(graph_edges(g)[e].0)
        &&& graph_nodes(g).contains(graph_edges(g)[e].1)
    }
}

/// Whether some edge goes from `a` to `b`.
pub open spec fn has_edge(g: TaskGraph, a: nat, b: nat) -> bool {
    exists|e: nat| #[trigger] graph_edges(g).contains_key(e) && graph_edges(g)[e].0 == a && graph_edges(g)[e].1 == b
}

/// `s` lists every node once, each before the targets of its edges.
pub open spec fn is_topological_order(g: TaskGraph, s: Seq<usize>) -> bool {
    &&& s.no_duplicates()
    &&& forall|n: nat| graph_nodes(g).contains(n) <==> exists|i: int| 0 <= i < s.len() && #[trigger] s[i] == n
    &&& forall|i: int, j: int|
        0 <= i < s.len() && 0 <= j < s.len() && has_edge(g, #[trigger] s[i] as nat, #[trigger] s[j] as nat) ==> i < j
}

/// The graph has no cycle: some order of its nodes puts every edge forward.
pub open spec fn is_acyclic(g: TaskGraph) -> bool {
    exists|s: Seq<usize>| is_topological_order(g, s)
}

/// Relies on StableGraph::default: a graph with no node and no edge.
#[verifier::external_body]
pub(crate) fn graph_new() -> (r: TaskGraph)
    ensures
        graph_nodes(r).is_empty(),
        graph_edges(r).dom().is_empty(),
        graph_slots(r) == 0,
        graph_ok(r),
{
    StableGraph::default()
}

/// Relies on StableGraph::add_node: the new node takes a vacant slot if there
/// is one, and the next slot otherwise.
#[verifier::external_body]
pub(crate) fn graph_add_node(g: &mut TaskGraph) -> (r: usize)
    ensures
        !graph_nodes(*old(g)).contains(r as nat),
        graph_nodes(*final(g)) == graph_nodes(*old(g)).insert(r as nat),
        graph_edges(*final(g)) == graph_edges(*old(g)),
        graph_nodes(*old(g)) == nat_range(graph_slots(*old(g))) ==> r == graph_slots(*old(g))
            && graph_slots(*final(g)) == graph_slots(*old(g)) + 1,
        graph_ok(*final(g)),
{
    g.add_node(()).index()
}

/// Relies on StableGraph::add_edge: a new edge under an index not in use.
#[verifier::external_body]
pub(crate) fn graph_add_edge(g: &mut TaskGraph, a: usize, b: usize, weight: usize) -> (r: usize)
    requires
        graph_nodes(*old(g)).contains(a as nat),
        graph_nodes(*old(g)).contains(b as nat),
    ensures
        !graph_edges(*old(g)).contains_key(r as nat),
        graph_edges(*final(g)) == graph_edges(*old(g)).insert(r as nat, (a as nat, b as nat, weight as nat)),
        graph_nodes(*final(g)) == graph_nodes(*old(g)),
        graph_slots(*final(g)) == graph_slots(*old(g)),
        graph_ok(*final(g)),
{
    g.add_edge(NodeIndex::new(a), NodeIndex::new(b), weight).index()
}

/// Relies on StableGraph::remove_node: the node goes, with every edge to or
/// from it; its slot stays allocated.
#[verifier::external_body]
pub(crate) fn graph_remove_node(g: &mut TaskGraph, a: usize)
    ensures
        graph_nodes(*final(g)) == graph_nodes(*old(g)).remove(a as nat),
        graph_edges(*final(g)) == graph_edges(*old(g)).restrict(
            graph_edges(*old(g)).dom().filter(
                |e: nat| graph_edges(*old(g))[e].0 != a as nat && graph_edges(*old(g))[e].1 != a as nat,
            ),
        ),
        graph_slots(*final(g)) == graph_slots(*old(g)),
        graph_ok(*final(g)),
{
    g.remove_node(NodeIndex::new(a));
}

/// Relies on StableGraph::edges_directed with `Incoming`: each edge into `a`
/// once, as (edge index, source, weight).
#[verifier::external_body]
pub(crate) fn graph_incoming(g: &TaskGraph, a: usize) -> (r: Vec<(usize, usize, usize)>)
    ensures
        forall|i: int| 0 <= i < r.len() ==> {
            &&& graph_edges(*g).contains_key(#[trigger] r[i].0 as nat)
            &&& graph_edges(*g)[r[i].0 as nat] == (r[i].1 as nat, a as nat, r[i].2 as nat)
        },
        forall|e: nat| #[trigger] graph_edges(*g).contains_key(e) && graph_edges(*g)[e].1 == a as nat
            ==> exists|i: int| 0 <= i < r.len() && r[i].0 as nat == e,
        forall|i: int, j: int| 0 <= i < r.len() && 0 <= j < r.len() && i != j ==> r[i].0 != r[j].0,
{
    g.edges_directed(NodeIndex::new(a), Direction::Incoming)
        .map(|e| (e.id().index(), e.source().index(), *e.weight()))
        .collect()
}

/// Relies on StableGraph::edges_directed with `Outgoing`: each edge out of `a`
/// once, as (edge index, target, weight).
#[verifier::external_body]
pub(crate) fn graph_outgoing(g: &TaskGraph, a: usize) -> (r: Vec<(usize, usize, usize)>)
    ensures
        forall|i: int| 0 <= i < r.len() ==> {
            &&& graph_edges(*g).contains_key(#[trigger] r[i].0 as nat)
            &&& graph_edges(*g)[r[i].0 as nat] == (a as nat, r[i].1 as nat, r[i].2 as nat)
        },
        forall|e: nat| #[trigger] graph_edges(*g).contains_key(e) && graph_edges(*g)[e].0 == a as nat
            ==> exists|i: int| 0 <= i < r.len() && r[i].0 as nat == e,
        forall|i: int, j: int| 0 <= i < r.len() && 0 <= j < r.len() && i != j ==> r[i].0 != r[j].0,
{
    g.edges_directed(NodeIndex::new(a), Direction::Outgoing)
        .map(|e| (e.id().index(), e.target().index(), *e.weight()))
        .collect()
}

/// Relies on petgraph::algo::toposort: every node in an order that puts each
/// node before its successors, or nothing when the graph has a cycle.
#[verifier::external_body]
pub(crate) fn graph_toposort(g: &TaskGraph) -> (r: Option<Vec<usize>>)
    ensures
        r matches Some(s) ==> is_topological_order(*g, s@),
        r is None ==> !is_acyclic(*g),
{
    match petgraph::algo::toposort(g, None) {
        Ok(v) => Some(v.into_iter().map(|n| n.index()).collect()),
        Err(_) => None,
    }
}

} // verus!
