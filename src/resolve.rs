use vstd::prelude::*;
use vstd::string::*;
use crate::error::QueryError;
use crate::graph::{
    graph_add_edge, graph_edges, graph_incoming, graph_nodes, graph_ok, graph_outgoing,
    graph_remove_node, graph_slots, nat_range, TaskGraph,
};
use crate::task::{alias_view, arity, context_parents, QueryTask, TaskAction, TaskContext};

verus! {

/// The reserved name of the input root.
pub open spec fn reserved_root() -> Seq<char> {
    seq!['p', 'a', 'y', 'l', 'o', 'a', 'd']
}

/// The graph and the tasks agree: every task has a slot, and exactly the
/// tasks that are not stale are nodes.
pub open spec fn tasks_ok(g: TaskGraph, tasks: Seq<QueryTask>) -> bool {
    &&& graph_ok(g)
    &&& graph_slots(g) == tasks.len()
    &&& forall|n: nat| #[trigger] graph_nodes(g).contains(n) <==> n < tasks.len() && !(tasks[n as int].action is Stale)
}

/// Whether some task carries the alias `a`.
pub open spec fn uses_alias(tasks: Seq<QueryTask>, a: Seq<char>) -> bool {
    exists|i: int| 0 <= i < tasks.len() && alias_view(#[trigger] tasks[i].alias) == Some(a)
}

/// The node that the last alias entry named `key` points to.
pub open spec fn lookup(entries: Seq<(String, usize)>, key: Seq<char>) -> Option<usize>
    decreases entries.len(),
{
    if entries.len() == 0 {
        None
    } else if entries.last().0@ == key {
        Some(entries.last().1)
    } else {
        lookup(entries.drop_last(), key)
    }
}

fn lookup_alias(entries: &Vec<(String, usize)>, key: &String) -> (r: Option<usize>)
    ensures
        r == lookup(entries@, key@),
{
    let mut i: usize = entries.len();
    assert(entries@.subrange(0, i as int) =~= entries@);
    while i > 0
        invariant
            i <= entries.len(),
            lookup(entries@, key@) == lookup(entries@.subrange(0, i as int), key@),
        decreases i,
    {
        proof {
            assert(entries@.subrange(0, i as int).drop_last() =~= entries@.subrange(0, i - 1));
        }
        if entries[i - 1].0 == *key {
            return Some(entries[i - 1].1);
        }
        i = i - 1;
    }
    None
}

fn copy_alias(a: &Option<String>) -> (r: Option<String>)
    ensures
        r == *a,
{
    match a {
        Some(s) => Some(s.clone()),
        None => None,
    }
}

fn copy_path(p: &Vec<String>, from: usize) -> (r: Vec<String>)
    requires
        from <= p.len(),
    ensures
        r@ == p@.subrange(from as int, p.len() as int),
{
    let mut r: Vec<String> = Vec::new();
    let mut i: usize = from;
    while i < p.len()
        invariant
            from <= i <= p.len(),
            r@ == p@.subrange(from as int, i as int),
        decreases p.len() - i,
    {
        r.push(p[i].clone());
        proof {
            assert(r@ =~= p@.subrange(from as int, i + 1));
        }
        i = i + 1;
    }
    r
}

/// The last task, among the first `k`, that carries the alias `key`.
pub open spec fn last_with_alias(tasks: Seq<QueryTask>, key: Seq<char>, k: int) -> Option<usize>
    decreases k,
{
    if k <= 0 {
        None
    } else if alias_view(tasks[k - 1].alias) == Some(key) {
        Some((k - 1) as usize)
    } else {
        last_with_alias(tasks, key, k - 1)
    }
}

/// The node an accessor's path starts from: the root for the root alias,
/// otherwise the last task carrying the path's first name as its alias.
pub open spec fn producer_of(tasks: Seq<QueryTask>, root_alias: Seq<char>, path: Seq<String>) -> Option<usize> {
    if path.len() == 0 {
        None
    } else if path[0]@ == root_alias {
        Some(0)
    } else {
        last_with_alias(tasks, path[0]@, tasks.len() as int)
    }
}

/// What alias resolution makes of task `i`: an accessor with a producer
/// drops its first name, or becomes a link (if required) or stale (if not)
/// when that name was all it had; every other task keeps its action.
pub open spec fn rebinds(tasks: Seq<QueryTask>, root_alias: Seq<char>, i: int, action: TaskAction) -> bool {
    match tasks[i].action {
        TaskAction::Accessor(path) => match producer_of(tasks, root_alias, path@) {
            None => action == tasks[i].action,
            Some(_) => if path.len() > 1 {
                action matches TaskAction::Accessor(p) && p@ == path@.subrange(1, path@.len() as int)
            } else if tasks[i].required {
                action == TaskAction::Link
            } else {
                action == TaskAction::Stale
            },
        },
        _ => action == tasks[i].action,
    }
}

/// The producer of a rebound accessor.
pub open spec fn producer_at(tasks: Seq<QueryTask>, root_alias: Seq<char>, i: int) -> Option<usize> {
    match tasks[i].action {
        TaskAction::Accessor(path) => producer_of(tasks, root_alias, path@),
        _ => None,
    }
}

/// Every task that carries an alias is required.
pub open spec fn aliases_required(tasks: Seq<QueryTask>) -> bool {
    forall|i: int| 0 <= i < tasks.len() && (#[trigger] tasks[i]).alias is Some ==> tasks[i].required
}

/// No edge enters an accessor.
pub open spec fn no_accessor_inputs(g: TaskGraph, tasks: Seq<QueryTask>) -> bool {
    forall|e: nat| #[trigger] graph_edges(g).contains_key(e) ==> !(tasks[graph_edges(g)[e].1 as int].action is Accessor)
}

/// Every edge into an accessor of `t0` has weight 1 and comes from the
/// accessor's producer.
pub open spec fn accessor_inputs_from_producers(g: TaskGraph, t0: Seq<QueryTask>, ra: Seq<char>) -> bool {
    forall|e: nat| #[trigger] graph_edges(g).contains_key(e) && t0[graph_edges(g)[e].1 as int].action is Accessor
        ==> graph_edges(g)[e].2 == 1 && (producer_at(t0, ra, graph_edges(g)[e].1 as int) matches Some(a)
            && a as nat == graph_edges(g)[e].0)
}

/// A producer is the root or a task that carries an alias.
pub proof fn lemma_producer_is_root_or_aliased(t0: Seq<QueryTask>, ra: Seq<char>, i: int)
    requires
        t0.len() <= usize::MAX,
    ensures
        producer_at(t0, ra, i) matches Some(a) ==> a == 0 || t0[a as int].alias is Some,
{
    if let TaskAction::Accessor(path) = t0[i].action {
        if path@.len() > 0 && path@[0]@ != ra {
            lemma_last_with_alias_names(t0, path@[0]@, t0.len() as int);
        }
    }
}

proof fn lemma_last_with_alias_names(tasks: Seq<QueryTask>, key: Seq<char>, k: int)
    requires
        k <= usize::MAX,
    ensures
        last_with_alias(tasks, key, k) matches Some(j) ==> alias_view(tasks[j as int].alias) == Some(key),
    decreases k,
{
    if k > 0 {
        lemma_last_with_alias_names(tasks, key, k - 1);
    }
}

/// Every accessor path starts at the root alias, and has two names or more
/// unless the accessor is required (a projection naming the root itself).
pub open spec fn rooted_accessors(tasks: Seq<QueryTask>, ra: Seq<char>) -> bool {
    forall|i: int| 0 <= i < tasks.len() && (#[trigger] tasks[i]).action is Accessor
        ==> tasks[i].action->Accessor_0@.len() >= 1 && tasks[i].action->Accessor_0@[0]@ == ra
            && (tasks[i].action->Accessor_0@.len() == 1 ==> tasks[i].required)
}

/// Each edge of `g` is an edge of `g0`, or an edge of weight 1 from the root
/// into an accessor of `t0` below `bound`; no two of the latter share a target.
pub open spec fn root_edges_only(g0: TaskGraph, t0: Seq<QueryTask>, g: TaskGraph, bound: int) -> bool {
    &&& forall|e: nat| #[trigger] graph_edges(g).contains_key(e) ==> {
        ||| graph_edges(g0).contains_key(e) && graph_edges(g)[e] == graph_edges(g0)[e]
        ||| !graph_edges(g0).contains_key(e) && graph_edges(g)[e].0 == 0 && graph_edges(g)[e].2 == 1
            && graph_edges(g)[e].1 < bound && t0[graph_edges(g)[e].1 as int].action is Accessor
    }
    &&& forall|e1: nat, e2: nat| #[trigger] graph_edges(g).contains_key(e1) && #[trigger] graph_edges(g).contains_key(e2)
        && !graph_edges(g0).contains_key(e1) && !graph_edges(g0).contains_key(e2)
        && graph_edges(g)[e1].1 == graph_edges(g)[e2].1 ==> e1 == e2
}

/// If task `j` and its producer both survive, the producer feeds `j` as argument 1.
pub open spec fn bound_to_producer(g: TaskGraph, now: Seq<QueryTask>, t0: Seq<QueryTask>, ra: Seq<char>, j: int) -> bool {
    match producer_at(t0, ra, j) {
        Some(a) => !(now[j].action is Stale) && !(now[a as int].action is Stale) ==> has_input(g, j as nat, a, 1),
        None => true,
    }
}

/// If the source of edge `e` of `g0` was removed, its target (if it survives)
/// reads the source's producer (if that survives) at the same position.
pub open spec fn handed_over(g: TaskGraph, now: Seq<QueryTask>, t0: Seq<QueryTask>, ra: Seq<char>, g0: TaskGraph, e: nat) -> bool {
    let src = graph_edges(g0)[e].0;
    let tgt = graph_edges(g0)[e].1;
    match producer_at(t0, ra, src as int) {
        Some(a) => now[src as int].action is Stale && a as nat != src && !(now[a as int].action is Stale)
            && !(now[tgt as int].action is Stale) ==> has_input(g, tgt, a, graph_edges(g0)[e].2 as int),
        None => true,
    }
}

proof fn lemma_has_input_kept_by_add(g0: TaskGraph, g1: TaskGraph, x: nat, y: usize, w: int, fresh: nat, v: (nat, nat, nat))
    requires
        has_input(g0, x, y, w),
        !graph_edges(g0).contains_key(fresh),
        graph_edges(g1) == graph_edges(g0).insert(fresh, v),
    ensures
        has_input(g1, x, y, w),
{
    let e = choose|e: nat| #[trigger] graph_edges(g0).contains_key(e) && graph_edges(g0)[e] == (y as nat, x, w as nat);
    assert(graph_edges(g1).contains_key(e));
}

proof fn lemma_has_input_kept_by_remove(g0: TaskGraph, g1: TaskGraph, j: nat, x: nat, y: usize, w: int)
    requires
        has_input(g0, x, y, w),
        x != j,
        y as nat != j,
        graph_edges(g1) == graph_edges(g0).restrict(
            graph_edges(g0).dom().filter(|e: nat| graph_edges(g0)[e].0 != j && graph_edges(g0)[e].1 != j),
        ),
    ensures
        has_input(g1, x, y, w),
{
    let e = choose|e: nat| #[trigger] graph_edges(g0).contains_key(e) && graph_edges(g0)[e] == (y as nat, x, w as nat);
    assert(graph_edges(g0).dom().filter(|e: nat| graph_edges(g0)[e].0 != j && graph_edges(g0)[e].1 != j).contains(e));
    assert(graph_edges(g1).contains_key(e));
}

proof fn lemma_last_with_alias_below(tasks: Seq<QueryTask>, key: Seq<char>, k: int)
    ensures
        last_with_alias(tasks, key, k) matches Some(j) ==> j < k,
    decreases k,
{
    if k > 0 {
        lemma_last_with_alias_below(tasks, key, k - 1);
    }
}

pub proof fn lemma_producer_below_pub(t0: Seq<QueryTask>, ra: Seq<char>, j: int)
    requires
        t0.len() > 0,
    ensures
        producer_at(t0, ra, j) matches Some(a) ==> a < t0.len(),
{
    lemma_producer_below(t0, ra, j);
}

proof fn lemma_producer_below(t0: Seq<QueryTask>, ra: Seq<char>, j: int)
    requires
        t0.len() > 0,
    ensures
        producer_at(t0, ra, j) matches Some(a) ==> a < t0.len(),
{
    if let TaskAction::Accessor(path) = t0[j].action {
        if path@.len() > 0 {
            lemma_last_with_alias_below(t0, path@[0]@, t0.len() as int);
        }
    }
}

proof fn lemma_last_with_alias_sound(tasks: Seq<QueryTask>, key: Seq<char>, k: int)
    requires
        last_with_alias(tasks, key, k) is Some,
        k <= tasks.len(),
    ensures
        uses_alias(tasks, key),
    decreases k,
{
    if alias_view(tasks[k - 1].alias) == Some(key) {
        assert(alias_view(tasks[k - 1].alias) == Some(key));
    } else {
        lemma_last_with_alias_sound(tasks, key, k - 1);
    }
}

proof fn lemma_last_with_alias_found(tasks: Seq<QueryTask>, key: Seq<char>, j: int, k: int)
    requires
        0 <= j < k <= tasks.len(),
        alias_view(tasks[j].alias) == Some(key),
    ensures
        last_with_alias(tasks, key, k) is Some,
    decreases k,
{
    if alias_view(tasks[k - 1].alias) != Some(key) {
        lemma_last_with_alias_found(tasks, key, j, k - 1);
    }
}

/// Rebinds the accessors whose first name is an alias (or the root alias) to
/// the node that produces it, and removes the accessors that only named a value,
/// handing their consumers to the producer.
pub fn dealias(g: &mut TaskGraph, tasks: &mut Vec<QueryTask>, root_alias: &String) -> (r: Result<(), QueryError>)
    requires
        tasks_ok(*old(g), old(tasks)@),
        old(tasks).len() > 0,
        forall|i: int| 0 <= i < old(tasks).len() ==> !((#[trigger] old(tasks)@[i]).action is Stale)
            && old(tasks)@[i].context is None,
    ensures
        tasks_ok(*final(g), final(tasks)@),
        final(tasks).len() == old(tasks).len(),
        forall|i: int| 0 <= i < old(tasks).len() ==> (#[trigger] final(tasks)@[i]).alias == old(tasks)@[i].alias
            && final(tasks)@[i].required == old(tasks)@[i].required
            && final(tasks)@[i].context is None,
        forall|i: int| 0 <= i < old(tasks).len() && !(old(tasks)@[i].action is Accessor)
            ==> (#[trigger] final(tasks)@[i]).action == old(tasks)@[i].action,
        forall|i: int| 0 <= i < old(tasks).len() && old(tasks)@[i].required
            ==> !(#[trigger] final(tasks)@[i].action is Stale),
        uses_alias(old(tasks)@, reserved_root()) ==> r matches Err(QueryError::ReservedAlias(_)),
        uses_alias(old(tasks)@, root_alias@) ==> r matches Err(QueryError::ReservedAlias(_)),
        !uses_alias(old(tasks)@, reserved_root()) && !uses_alias(old(tasks)@, root_alias@) ==> r is Ok,
        r is Err ==> *final(g) == *old(g) && final(tasks)@ == old(tasks)@,
        r is Ok ==> forall|i: int| 0 <= i < old(tasks).len()
            ==> rebinds(old(tasks)@, root_alias@, i, (#[trigger] final(tasks)@[i]).action),
        r is Ok ==> forall|i: int| 0 <= i < old(tasks).len()
            ==> #[trigger] bound_to_producer(*final(g), final(tasks)@, old(tasks)@, root_alias@, i),
        r is Ok ==> forall|e: nat| #[trigger] graph_edges(*old(g)).contains_key(e)
            && !(final(tasks)@[graph_edges(*old(g))[e].0 as int].action is Stale)
            && !(final(tasks)@[graph_edges(*old(g))[e].1 as int].action is Stale)
            ==> graph_edges(*final(g)).contains_key(e) && graph_edges(*final(g))[e] == graph_edges(*old(g))[e],
        r is Ok ==> forall|e: nat| #[trigger] graph_edges(*old(g)).contains_key(e)
            ==> handed_over(*final(g), final(tasks)@, old(tasks)@, root_alias@, *old(g), e),
        (forall|i: int| 0 <= i < old(tasks).len() ==> #[trigger] producer_at(old(tasks)@, root_alias@, i) is None)
            ==> *final(g) == *old(g) && final(tasks)@ == old(tasks)@,
        rooted_accessors(old(tasks)@, root_alias@)
            ==> root_edges_only(*old(g), old(tasks)@, *final(g), old(tasks).len() as int),
        aliases_required(old(tasks)@) && !(old(tasks)@[0].action is Accessor) && no_accessor_inputs(*old(g), old(tasks)@)
            ==> accessor_inputs_from_producers(*final(g), old(tasks)@, root_alias@),
{
    let n = tasks.len();
    let ghost g0 = *g;
    let ghost t0 = tasks@;
    let ghost ra = root_alias@;
    // alias -> producing node, in node order; a later entry hides an earlier one
    let mut entries: Vec<(String, usize)> = Vec::new();
    let mut i: usize = 0;
    while i < n
        invariant
            i <= n,
            n == tasks.len(),
            tasks@ == t0,
            *g == g0,
            forall|j: int| 0 <= j < entries.len() ==> (#[trigger] entries@[j]).1 < n,
            forall|key: Seq<char>| #[trigger] lookup(entries@, key) == last_with_alias(t0, key, i as int),
        decreases n - i,
    {
        match &tasks[i].alias {
            Some(a) => {
                let ghost before = entries@;
                entries.push((a.clone(), i));
                proof {
                    assert(entries@.drop_last() =~= before);
                    assert forall|key: Seq<char>| #[trigger] lookup(entries@, key) == last_with_alias(t0, key, i + 1) by {
                        assert(lookup(before, key) == last_with_alias(t0, key, i as int));
                    }
                }
            },
            None => {
                proof {
                    assert forall|key: Seq<char>| #[trigger] lookup(entries@, key) == last_with_alias(t0, key, i + 1) by {
                        assert(lookup(entries@, key) == last_with_alias(t0, key, i as int));
                    }
                }
            },
        }
        i = i + 1;
    }
    let reserved = String::from_str("payload");
    proof {
        reveal_strlit("payload");
        assert(reserved@ =~= reserved_root());
        if uses_alias(t0, reserved_root()) {
            let j = choose|j: int| 0 <= j < t0.len() && alias_view(#[trigger] t0[j].alias) == Some(reserved_root());
            lemma_last_with_alias_found(t0, reserved_root(), j, n as int);
        }
        if uses_alias(t0, ra) {
            let j = choose|j: int| 0 <= j < t0.len() && alias_view(#[trigger] t0[j].alias) == Some(ra);
            lemma_last_with_alias_found(t0, ra, j, n as int);
        }
    }
    if lookup_alias(&entries, &reserved).is_some() {
        proof {
            lemma_last_with_alias_sound(t0, reserved_root(), n as int);
        }
        return Err(QueryError::ReservedAlias(reserved));
    }
    if lookup_alias(&entries, root_alias).is_some() {
        proof {
            lemma_last_with_alias_sound(t0, ra, n as int);
        }
        return Err(QueryError::ReservedAlias(root_alias.clone()));
    }
    proof {
        assert(!uses_alias(t0, reserved_root()) && !uses_alias(t0, ra)) by {
            if uses_alias(t0, reserved_root()) {
                let j = choose|j: int| 0 <= j < t0.len() && alias_view(#[trigger] t0[j].alias) == Some(reserved_root());
                lemma_last_with_alias_found(t0, reserved_root(), j, n as int);
            }
            if uses_alias(t0, ra) {
                let j = choose|j: int| 0 <= j < t0.len() && alias_view(#[trigger] t0[j].alias) == Some(ra);
                lemma_last_with_alias_found(t0, ra, j, n as int);
            }
        }
    }
    let mut i: usize = 0;
    while i < n
        invariant
            i <= n,
            n == tasks.len(),
            t0.len() == n,
            ra == root_alias@,
            tasks_ok(*g, tasks@),
            forall|j: int| 0 <= j < entries.len() ==> (#[trigger] entries@[j]).1 < n,
            forall|key: Seq<char>| #[trigger] lookup(entries@, key) == last_with_alias(t0, key, n as int),
            forall|j: int| 0 <= j < n ==> (#[trigger] tasks@[j]).alias == t0[j].alias
                && tasks@[j].required == t0[j].required
                && tasks@[j].context is None,
            forall|j: int| 0 <= j < n && !(t0[j].action is Accessor) ==> (#[trigger] tasks@[j]).action == t0[j].action,
            forall|j: int| 0 <= j < n && t0[j].required ==> !(#[trigger] tasks@[j].action is Stale),
            forall|j: int| i <= j < n ==> #[trigger] tasks@[j] == t0[j],
            forall|j: int| 0 <= j < i ==> rebinds(t0, ra, j, (#[trigger] tasks@[j]).action),
            forall|j: int| 0 <= j < i ==> #[trigger] bound_to_producer(*g, tasks@, t0, ra, j),
            forall|e: nat| #[trigger] graph_edges(g0).contains_key(e)
                && !(tasks@[graph_edges(g0)[e].0 as int].action is Stale)
                && !(tasks@[graph_edges(g0)[e].1 as int].action is Stale)
                ==> graph_edges(*g).contains_key(e) && graph_edges(*g)[e] == graph_edges(g0)[e],
            forall|e: nat| #[trigger] graph_edges(g0).contains_key(e) && graph_edges(g0)[e].0 < i
                ==> handed_over(*g, tasks@, t0, ra, g0, e),
            forall|e: nat| #[trigger] graph_edges(g0).contains_key(e) ==> graph_edges(g0)[e].0 < n && graph_edges(g0)[e].1 < n,
            (forall|j: int| 0 <= j < n ==> #[trigger] producer_at(t0, ra, j) is None) ==> *g == g0 && tasks@ == t0,
            rooted_accessors(t0, ra) ==> root_edges_only(g0, t0, *g, i as int),
            rooted_accessors(t0, ra) ==> forall|j: int| 0 <= j < n ==> !((#[trigger] tasks@[j]).action is Stale),
            aliases_required(t0) && !(t0[0].action is Accessor) && no_accessor_inputs(g0, t0)
                ==> accessor_inputs_from_producers(*g, t0, ra),
        decreases n - i,
    {
        let ghost g_before = *g;
        let ghost t_before = tasks@;
        let mut new_action: Option<TaskAction> = None;
        let mut producer: usize = 0;
        if let TaskAction::Accessor(path) = &tasks[i].action {
            if path.len() > 0 {
                let target = if path[0] == *root_alias {
                    Some(0usize)
                } else {
                    lookup_alias(&entries, &path[0])
                };
                if let Some(a) = target {
                    producer = a;
                    if path.len() > 1 {
                        new_action = Some(TaskAction::Accessor(copy_path(path, 1)));
                    } else if tasks[i].required {
                        new_action = Some(TaskAction::Link);
                    } else {
                        new_action = Some(TaskAction::Stale);
                    }
                }
            }
        }
        proof {
            assert(tasks@[i as int] == t0[i as int]);
            if new_action is None {
                assert(producer_at(t0, ra, i as int) is None);
            } else {
                assert(producer_at(t0, ra, i as int) == Some(producer));
            }
        }
        if let Some(action) = new_action {
            let stale = matches!(action, TaskAction::Stale);
            let producer_present = producer < n && !matches!(tasks[producer].action, TaskAction::Stale);
            let task = QueryTask {
                alias: copy_alias(&tasks[i].alias),
                action,
                required: tasks[i].required,
                context: None,
            };
            if stale {
                // the consumers of this node read the producer instead
                let outs = graph_outgoing(g, i);
                proof {
                    assert forall|j: int| 0 <= j < outs.len() implies graph_nodes(*g).contains(#[trigger] outs@[j].1 as nat) by {
                        assert(graph_edges(*g).contains_key(outs@[j].0 as nat));
                    }
                }
                let ghost h2 = aliases_required(t0) && !(t0[0].action is Accessor) && no_accessor_inputs(g0, t0);
                proof {
                    if h2 {
                        assert forall|j: int| 0 <= j < outs.len() implies !(t0[(#[trigger] outs@[j]).1 as int].action is Accessor) by {
                            assert(graph_edges(*g).contains_key(outs@[j].0 as nat));
                            if t0[outs@[j].1 as int].action is Accessor {
                                lemma_producer_is_root_or_aliased(t0, ra, outs@[j].1 as int);
                                assert(t0[i as int] == t_before[i as int]);
                            }
                        }
                    }
                }
                if producer_present && producer != i {
                    let mut k: usize = 0;
                    while k < outs.len()
                        invariant
                            h2 ==> accessor_inputs_from_producers(*g, t0, ra),
                            h2 ==> forall|j: int| 0 <= j < outs.len() ==> !(t0[(#[trigger] outs@[j]).1 as int].action is Accessor),
                            k <= outs.len(),
                            tasks_ok(*g, tasks@),
                            tasks@ == t_before,
                            n == tasks.len(),
                            producer < n,
                            producer != i,
                            !(tasks@[producer as int].action is Stale),
                            forall|j: int| 0 <= j < outs.len() ==> graph_nodes(*g).contains(#[trigger] outs@[j].1 as nat),
                            forall|e: nat| #[trigger] graph_edges(g_before).contains_key(e)
                                ==> graph_edges(*g).contains_key(e) && graph_edges(*g)[e] == graph_edges(g_before)[e],
                            forall|j: int| 0 <= j < k ==> has_input(*g, (#[trigger] outs@[j]).1 as nat, producer, outs@[j].2 as int),
                        decreases outs.len() - k,
                    {
                        let ghost gk = *g;
                        let fresh = graph_add_edge(g, producer, outs[k].1, outs[k].2);
                        proof {
                            assert(graph_edges(*g).contains_key(fresh as nat));
                            assert(has_input(*g, outs@[k as int].1 as nat, producer, outs@[k as int].2 as int));
                            assert forall|j: int| 0 <= j < k + 1 implies has_input(*g, (#[trigger] outs@[j]).1 as nat, producer, outs@[j].2 as int) by {
                                if j < k {
                                    lemma_has_input_kept_by_add(gk, *g, outs@[j].1 as nat, producer, outs@[j].2 as int, fresh as nat,
                                        (producer as nat, outs@[k as int].1 as nat, outs@[k as int].2 as nat));
                                }
                            }
                        }
                        k = k + 1;
                    }
                }
                let ghost g_mid = *g;
                proof {
                    if !(producer_present && producer != i) {
                        assert forall|e: nat| #[trigger] graph_edges(g_before).contains_key(e)
                            implies graph_edges(*g).contains_key(e) && graph_edges(*g)[e] == graph_edges(g_before)[e] by {}
                    }
                }
                graph_remove_node(g, i);
                tasks.set(i, task);
                proof {
                    let ii = i as nat;
                    assert(tasks@[i as int].action is Stale);
                    assert(graph_nodes(*g) == graph_nodes(g_mid).remove(ii));
                    assert forall|m: nat| #[trigger] graph_nodes(*g).contains(m) <==> m < tasks.len() && !(tasks@[m as int].action is Stale) by {
                        if m != ii {
                            assert(graph_nodes(g_mid).contains(m) == graph_nodes(g_before).contains(m));
                        }
                    }
                    // inputs bound earlier survive
                    assert forall|j: int| 0 <= j < i + 1 implies #[trigger] bound_to_producer(*g, tasks@, t0, ra, j) by {
                      if producer_at(t0, ra, j) is Some && !(tasks@[j].action is Stale)
                        && !(tasks@[producer_at(t0, ra, j)->Some_0 as int].action is Stale) {
                        let a = producer_at(t0, ra, j)->Some_0;
                        lemma_producer_below(t0, ra, j);
                        assert(j != i);
                        assert(a != i);
                        assert(bound_to_producer(g_before, t_before, t0, ra, j));
                        assert(t_before[j] == tasks@[j]);
                        assert(t_before[a as int] == tasks@[a as int]);
                        assert(has_input(g_before, j as nat, a, 1));
                        let e = choose|e: nat| #[trigger] graph_edges(g_before).contains_key(e)
                            && graph_edges(g_before)[e] == (a as nat, j as nat, 1nat);
                        assert(graph_edges(g_mid).contains_key(e));
                        lemma_has_input_kept_by_remove(g_mid, *g, ii, j as nat, a, 1);
                      }
                    }
                    assert forall|e: nat| #[trigger] graph_edges(g0).contains_key(e)
                        && !(tasks@[graph_edges(g0)[e].0 as int].action is Stale)
                        && !(tasks@[graph_edges(g0)[e].1 as int].action is Stale)
                        implies graph_edges(*g).contains_key(e) && graph_edges(*g)[e] == graph_edges(g0)[e] by {
                        assert(graph_edges(g0)[e].0 != ii && graph_edges(g0)[e].1 != ii);
                        assert(graph_edges(g_mid).contains_key(e));
                        assert(graph_edges(g_mid).dom().filter(|x: nat| graph_edges(g_mid)[x].0 != ii && graph_edges(g_mid)[x].1 != ii).contains(e));
                    }
                    assert forall|e: nat| #[trigger] graph_edges(g0).contains_key(e) && graph_edges(g0)[e].0 < i + 1
                        implies handed_over(*g, tasks@, t0, ra, g0, e) by {
                      let src0 = graph_edges(g0)[e].0;
                      let tgt0 = graph_edges(g0)[e].1;
                      if producer_at(t0, ra, src0 as int) is Some && tasks@[src0 as int].action is Stale
                        && producer_at(t0, ra, src0 as int)->Some_0 as nat != src0
                        && !(tasks@[producer_at(t0, ra, src0 as int)->Some_0 as int].action is Stale)
                        && !(tasks@[tgt0 as int].action is Stale) {
                        let src = graph_edges(g0)[e].0;
                        let tgt = graph_edges(g0)[e].1;
                        let w = graph_edges(g0)[e].2;
                        let a = producer_at(t0, ra, src as int)->Some_0;
                        lemma_producer_below(t0, ra, src as int);
                        assert(tgt != ii);
                        assert(a != i);
                        if src == ii {
                            assert(a == producer);
                            assert(!(t_before[tgt as int].action is Stale));
                            assert(graph_edges(g_before).contains_key(e));
                            let k = choose|k: int| 0 <= k < outs.len() && outs@[k].0 as nat == e;
                            assert(graph_edges(g_before)[outs@[k].0 as nat] == (ii, outs@[k].1 as nat, outs@[k].2 as nat));
                            assert(has_input(g_mid, outs@[k].1 as nat, producer, outs@[k].2 as int));
                        } else {
                            assert(handed_over(g_before, t_before, t0, ra, g0, e));
                            assert(t_before[src as int] == tasks@[src as int]);
                            assert(t_before[tgt as int] == tasks@[tgt as int]);
                            assert(t_before[a as int] == tasks@[a as int]);
                            assert(has_input(g_before, tgt, a, w as int));
                            let x = choose|x: nat| #[trigger] graph_edges(g_before).contains_key(x)
                                && graph_edges(g_before)[x] == (a as nat, tgt, w);
                            assert(graph_edges(g_mid).contains_key(x));
                        }
                        lemma_has_input_kept_by_remove(g_mid, *g, ii, tgt, a, w as int);
                      }
                    }
                }
            } else {
                tasks.set(i, task);
                if producer_present {
                    let ghost g_mid = *g;
                    let fresh = graph_add_edge(g, producer, i, 1);
                    proof {
                        assert(graph_edges(*g).contains_key(fresh as nat));
                        assert(has_input(*g, i as nat, producer, 1));
                        assert forall|j: int| 0 <= j < i implies #[trigger] bound_to_producer(*g, tasks@, t0, ra, j) by {
                            assert(bound_to_producer(g_before, t_before, t0, ra, j));
                            lemma_producer_below(t0, ra, j);
                            assert(forall|m: int| 0 <= m < n ==> ((#[trigger] tasks@[m]).action is Stale <==> t_before[m].action is Stale));
                            if producer_at(t0, ra, j) is Some && !(tasks@[j].action is Stale)
                                && !(tasks@[producer_at(t0, ra, j)->Some_0 as int].action is Stale) {
                                let a = producer_at(t0, ra, j)->Some_0;
                                lemma_has_input_kept_by_add(g_mid, *g, j as nat, a, 1, fresh as nat, (producer as nat, i as nat, 1nat));
                            }
                        }
                        assert forall|e: nat| #[trigger] graph_edges(g0).contains_key(e) && graph_edges(g0)[e].0 < i + 1
                            implies handed_over(*g, tasks@, t0, ra, g0, e) by {
                            let src0 = graph_edges(g0)[e].0;
                            if src0 < i {
                                assert(handed_over(g_before, t_before, t0, ra, g0, e));
                                lemma_producer_below(t0, ra, src0 as int);
                                assert(forall|m: int| 0 <= m < n ==> ((#[trigger] tasks@[m]).action is Stale <==> t_before[m].action is Stale));
                                if producer_at(t0, ra, src0 as int) is Some && tasks@[src0 as int].action is Stale
                                    && producer_at(t0, ra, src0 as int)->Some_0 as nat != src0
                                    && !(tasks@[producer_at(t0, ra, src0 as int)->Some_0 as int].action is Stale)
                                    && !(tasks@[graph_edges(g0)[e].1 as int].action is Stale) {
                                    let a = producer_at(t0, ra, src0 as int)->Some_0;
                                    lemma_has_input_kept_by_add(g_mid, *g, graph_edges(g0)[e].1, a, graph_edges(g0)[e].2 as int,
                                        fresh as nat, (producer as nat, i as nat, 1nat));
                                }
                            }
                        }
                    }
                } else {
                    proof {
                    assert(forall|m: int| 0 <= m < n ==> ((#[trigger] tasks@[m]).action is Stale <==> t_before[m].action is Stale));
                    assert forall|j: int| 0 <= j < i + 1 implies #[trigger] bound_to_producer(*g, tasks@, t0, ra, j) by {
                        lemma_producer_below(t0, ra, j);
                        if j < i {
                            assert(bound_to_producer(g_before, t_before, t0, ra, j));
                        }
                    }
                    assert forall|e: nat| #[trigger] graph_edges(g0).contains_key(e) && graph_edges(g0)[e].0 < i + 1
                        implies handed_over(*g, tasks@, t0, ra, g0, e) by {
                        lemma_producer_below(t0, ra, graph_edges(g0)[e].0 as int);
                        if graph_edges(g0)[e].0 < i {
                            assert(handed_over(g_before, t_before, t0, ra, g0, e));
                        }
                    }
                }
                }
            }
        } else {
            proof {
                assert(forall|m: int| 0 <= m < n ==> ((#[trigger] tasks@[m]).action is Stale <==> t_before[m].action is Stale));
                assert forall|j: int| 0 <= j < i + 1 implies #[trigger] bound_to_producer(*g, tasks@, t0, ra, j) by {
                    lemma_producer_below(t0, ra, j);
                    if j < i {
                        assert(bound_to_producer(g_before, t_before, t0, ra, j));
                    }
                }
                assert forall|e: nat| #[trigger] graph_edges(g0).contains_key(e) && graph_edges(g0)[e].0 < i + 1
                    implies handed_over(*g, tasks@, t0, ra, g0, e) by {
                    lemma_producer_below(t0, ra, graph_edges(g0)[e].0 as int);
                    if graph_edges(g0)[e].0 < i {
                        assert(handed_over(g_before, t_before, t0, ra, g0, e));
                    }
                }
            }
        }
        i = i + 1;
    }
    Ok(())
}

/// The inputs of node `n` are its context's parents: the edge with weight `w`
/// comes from `parents[w - 1]`, and each position `1..=parents.len()` has
/// exactly one edge.
pub open spec fn incoming_ok(g: TaskGraph, n: nat, parents: Seq<usize>) -> bool {
    &&& forall|e: nat| #[trigger] graph_edges(g).contains_key(e) && graph_edges(g)[e].1 == n ==> {
        &&& 1 <= graph_edges(g)[e].2 <= parents.len()
        &&& parents[graph_edges(g)[e].2 - 1] as nat == graph_edges(g)[e].0
    }
    &&& forall|j: int| 0 <= j < parents.len() ==> has_input(g, n, #[trigger] parents[j], j + 1)
    &&& forall|e1: nat, e2: nat|
        #[trigger] graph_edges(g).contains_key(e1) && #[trigger] graph_edges(g).contains_key(e2)
            && graph_edges(g)[e1].1 == n && graph_edges(g)[e2].1 == n && e1 != e2
            ==> graph_edges(g)[e1].2 != graph_edges(g)[e2].2
}

/// Some edge brings `p` into `n` as argument `w`.
pub open spec fn has_input(g: TaskGraph, n: nat, p: usize, w: int) -> bool {
    exists|e: nat| #[trigger] graph_edges(g).contains_key(e) && graph_edges(g)[e] == (p as nat, n, w as nat)
}

/// The parents a task reads.
pub open spec fn task_parents(t: QueryTask) -> Seq<usize> {
    match t.context {
        Some(c) => context_parents(c),
        None => seq![],
    }
}

/// The context has the shape the action reads.
pub open spec fn context_fits(t: QueryTask) -> bool {
    match t.action {
        TaskAction::Accessor(_) => t.context matches Some(TaskContext::SingleParent(_)),
        TaskAction::Link => t.context matches Some(TaskContext::SingleParent(_)),
        TaskAction::UnaryOp(_) => t.context matches Some(TaskContext::SingleParent(_)),
        TaskAction::BinaryOp(_) => t.context matches Some(TaskContext::DualParent(_, _)),
        TaskAction::Function(_) => t.context matches Some(TaskContext::MultiParent(_)),
        _ => t.context is None,
    }
}

/// Every node but the sink reads exactly its inputs, in argument order.
pub open spec fn contexts_ok(g: TaskGraph, tasks: Seq<QueryTask>) -> bool {
    forall|n: nat| #[trigger] graph_nodes(g).contains(n) && !(tasks[n as int].action is Finalize) ==> {
        &&& context_fits(tasks[n as int])
        &&& incoming_ok(g, n, task_parents(tasks[n as int]))
    }
}

/// `inc` lists each edge into `n` once, as (edge index, source, weight).
pub open spec fn lists_incoming(g: TaskGraph, n: nat, inc: Seq<(usize, usize, usize)>) -> bool {
    &&& forall|i: int| 0 <= i < inc.len() ==> {
        &&& graph_edges(g).contains_key(#[trigger] inc[i].0 as nat)
        &&& graph_edges(g)[inc[i].0 as nat] == (inc[i].1 as nat, n, inc[i].2 as nat)
    }
    &&& forall|e: nat| #[trigger] graph_edges(g).contains_key(e) && graph_edges(g)[e].1 == n
        ==> exists|i: int| 0 <= i < inc.len() && inc[i].0 as nat == e
    &&& forall|i: int, j: int| 0 <= i < inc.len() && 0 <= j < inc.len() && i != j ==> inc[i].0 != inc[j].0
}

/// A map from `0..m` into `0..k` that is one-to-one needs `m <= k`.
proof fn lemma_injection_bound(m: int, k: int, f: spec_fn(int) -> int)
    requires
        0 <= m,
        0 <= k,
        forall|t: int| 0 <= t < m ==> 0 <= #[trigger] f(t) < k,
        forall|t1: int, t2: int| 0 <= t1 < m && 0 <= t2 < m && #[trigger] f(t1) == #[trigger] f(t2) ==> t1 == t2,
    ensures
        m <= k,
{
    let x = vstd::set_lib::set_int_range(0, m);
    let y = x.map(f);
    vstd::set_lib::lemma_int_range(0, m);
    vstd::set_lib::lemma_int_range(0, k);
    assert(vstd::relations::injective_on(f, x));
    vstd::set_lib::lemma_map_size(x, y, f);
    assert(y.subset_of(vstd::set_lib::set_int_range(0, k)));
    vstd::set_lib::lemma_len_subset(y, vstd::set_lib::set_int_range(0, k));
}

/// Node `n` has inputs that a context can list: some parent list of the
/// action's arity names them all, one per argument position.
pub open spec fn inputs_fit(g: TaskGraph, action: TaskAction, n: nat) -> bool {
    exists|p: Seq<usize>| #[trigger] incoming_ok(g, n, p) && (arity(action) matches Some(k) ==> p.len() == k)
}

/// A list of the edges into `n` has as many entries as any parent list that
/// names those edges.
proof fn lemma_inputs_count(g: TaskGraph, n: nat, inc: Seq<(usize, usize, usize)>, p: Seq<usize>)
    requires
        incoming_ok(g, n, p),
        forall|i: int| 0 <= i < inc.len() ==> {
            &&& graph_edges(g).contains_key(#[trigger] inc[i].0 as nat)
            &&& graph_edges(g)[inc[i].0 as nat] == (inc[i].1 as nat, n, inc[i].2 as nat)
        },
        forall|e: nat| #[trigger] graph_edges(g).contains_key(e) && graph_edges(g)[e].1 == n
            ==> exists|i: int| 0 <= i < inc.len() && inc[i].0 as nat == e,
        forall|i: int, j: int| 0 <= i < inc.len() && 0 <= j < inc.len() && i != j ==> inc[i].0 != inc[j].0,
    ensures
        inc.len() == p.len(),
{
    let ge = graph_edges(g);
    let f = |t: int| inc[t].2 as int - 1;
    assert forall|t: int| 0 <= t < inc.len() implies 0 <= #[trigger] f(t) < p.len() by {
        assert(ge.contains_key(inc[t].0 as nat));
    }
    assert forall|t1: int, t2: int| 0 <= t1 < inc.len() && 0 <= t2 < inc.len() && #[trigger] f(t1) == #[trigger] f(t2)
        implies t1 == t2 by {
        if t1 != t2 {
            assert(ge.contains_key(inc[t1].0 as nat) && ge.contains_key(inc[t2].0 as nat));
        }
    }
    lemma_injection_bound(inc.len() as int, p.len() as int, f);
    let h = |j: int| {
        let e = choose|e: nat| #[trigger] ge.contains_key(e) && ge[e] == (p[j] as nat, n, (j + 1) as nat);
        choose|i: int| 0 <= i < inc.len() && inc[i].0 as nat == e
    };
    assert forall|j: int| 0 <= j < p.len() implies 0 <= #[trigger] h(j) < inc.len() by {
        assert(has_input(g, n, p[j], j + 1));
        let e = choose|e: nat| #[trigger] ge.contains_key(e) && ge[e] == (p[j] as nat, n, (j + 1) as nat);
        assert(exists|i: int| 0 <= i < inc.len() && inc[i].0 as nat == e);
    }
    assert forall|j1: int, j2: int| 0 <= j1 < p.len() && 0 <= j2 < p.len() && #[trigger] h(j1) == #[trigger] h(j2)
        implies j1 == j2 by {
        assert(has_input(g, n, p[j1], j1 + 1));
        assert(has_input(g, n, p[j2], j2 + 1));
        let e1 = choose|e: nat| #[trigger] ge.contains_key(e) && ge[e] == (p[j1] as nat, n, (j1 + 1) as nat);
        let e2 = choose|e: nat| #[trigger] ge.contains_key(e) && ge[e] == (p[j2] as nat, n, (j2 + 1) as nat);
        assert(exists|i: int| 0 <= i < inc.len() && inc[i].0 as nat == e1);
        assert(exists|i: int| 0 <= i < inc.len() && inc[i].0 as nat == e2);
        assert(inc[h(j1)].0 as nat == e1);
        assert(inc[h(j2)].0 as nat == e2);
    }
    lemma_injection_bound(p.len() as int, inc.len() as int, h);
}

/// The sources of the edges into `n`, ordered by weight, when the weights
/// are exactly `1..=inc.len()`.
fn order_by_weight(g: &TaskGraph, n: usize, inc: &Vec<(usize, usize, usize)>) -> (r: Option<Vec<usize>>)
    requires
        lists_incoming(*g, n as nat, inc@),
    ensures
        r matches Some(p) ==> p.len() == inc.len() && incoming_ok(*g, n as nat, p@),
        (exists|p: Seq<usize>| p.len() == inc.len() && #[trigger] incoming_ok(*g, n as nat, p)) ==> r is Some,
{
    let m = inc.len();
    let mut slots: Vec<Option<usize>> = Vec::new();
    let mut j: usize = 0;
    while j < m
        invariant
            j <= m,
            slots.len() == j,
            forall|k: int| 0 <= k < j ==> slots@[k] is None,
        decreases m - j,
    {
        slots.push(None);
        j = j + 1;
    }
    let mut t: usize = 0;
    while t < m
        invariant
            lists_incoming(*g, n as nat, inc@),
            t <= m,
            m == inc.len(),
            slots.len() == m,
            forall|k: int| 0 <= k < m && (#[trigger] slots@[k]) is Some ==>
                exists|u: int| 0 <= u < t && inc@[u].2 == k + 1 && inc@[u].1 == slots@[k]->Some_0,
            forall|u: int| 0 <= u < t ==> 1 <= (#[trigger] inc@[u]).2 <= m && slots@[inc@[u].2 - 1] == Some(inc@[u].1),
            forall|u1: int, u2: int| 0 <= u1 < u2 < t ==> (#[trigger] inc@[u1]).2 != (#[trigger] inc@[u2]).2,
        decreases m - t,
    {
        let w = inc[t].2;
        if w < 1 || w > m {
            proof {
                if exists|p: Seq<usize>| p.len() == inc.len() && #[trigger] incoming_ok(*g, n as nat, p) {
                    let p = choose|p: Seq<usize>| p.len() == inc.len() && #[trigger] incoming_ok(*g, n as nat, p);
                    assert(graph_edges(*g).contains_key(inc@[t as int].0 as nat));
                }
            }
            return None;
        }
        if slots[w - 1].is_some() {
            proof {
                if exists|p: Seq<usize>| p.len() == inc.len() && #[trigger] incoming_ok(*g, n as nat, p) {
                    let p = choose|p: Seq<usize>| p.len() == inc.len() && #[trigger] incoming_ok(*g, n as nat, p);
                    let u = choose|u: int| 0 <= u < t && inc@[u].2 == (w - 1) + 1 && inc@[u].1 == slots@[w - 1]->Some_0;
                    assert(inc@[u].0 != inc@[t as int].0);
                    assert(graph_edges(*g).contains_key(inc@[u].0 as nat));
                    assert(graph_edges(*g).contains_key(inc@[t as int].0 as nat));
                }
            }
            return None;
        }
        let ghost before = slots@;
        slots.set(w - 1, Some(inc[t].1));
        proof {
            assert forall|k: int| 0 <= k < m && (#[trigger] slots@[k]) is Some implies
                exists|u: int| 0 <= u < t + 1 && inc@[u].2 == k + 1 && inc@[u].1 == slots@[k]->Some_0 by {
                if k == w - 1 {
                    assert(inc@[t as int].2 == k + 1);
                } else {
                    assert(before[k] is Some);
                }
            }
            assert forall|u: int| 0 <= u < t + 1 implies 1 <= (#[trigger] inc@[u]).2 <= m
                && slots@[inc@[u].2 - 1] == Some(inc@[u].1) by {
                if u < t {
                    assert(before[inc@[u].2 - 1] == Some(inc@[u].1));
                }
            }
        }
        t = t + 1;
    }
    let mut p: Vec<usize> = Vec::new();
    let mut j: usize = 0;
    while j < m
        invariant
            lists_incoming(*g, n as nat, inc@),
            j <= m,
            m == inc.len(),
            slots.len() == m,
            forall|u: int| 0 <= u < m ==> 1 <= (#[trigger] inc@[u]).2 <= m && slots@[inc@[u].2 - 1] == Some(inc@[u].1),
            p.len() == j,
            forall|k: int| 0 <= k < j ==> slots@[k] == Some(#[trigger] p@[k]),
        decreases m - j,
    {
        match slots[j] {
            Some(s) => p.push(s),
            None => {
                proof {
                    if exists|q: Seq<usize>| q.len() == inc.len() && #[trigger] incoming_ok(*g, n as nat, q) {
                        let q = choose|q: Seq<usize>| q.len() == inc.len() && #[trigger] incoming_ok(*g, n as nat, q);
                        assert(has_input(*g, n as nat, q[j as int], j + 1));
                        let e = choose|e: nat| #[trigger] graph_edges(*g).contains_key(e)
                            && graph_edges(*g)[e] == (q[j as int] as nat, n as nat, (j + 1) as nat);
                        let u = choose|u: int| 0 <= u < inc.len() && inc@[u].0 as nat == e;
                        assert(slots@[inc@[u].2 - 1] == Some(inc@[u].1));
                    }
                }
                return None;
            },
        }
        j = j + 1;
    }
    proof {
        let ge = graph_edges(*g);
        assert forall|e: nat| #[trigger] ge.contains_key(e) && ge[e].1 == n as nat implies {
            &&& 1 <= ge[e].2 <= p@.len()
            &&& p@[ge[e].2 - 1] as nat == ge[e].0
        } by {
            let u = choose|u: int| 0 <= u < inc.len() && inc@[u].0 as nat == e;
            assert(slots@[inc@[u].2 - 1] == Some(inc@[u].1));
        }
        assert forall|k: int| 0 <= k < p@.len() implies has_input(*g, n as nat, #[trigger] p@[k], k + 1) by {
            assert(slots@[k] == Some(p@[k]));
            let u = choose|u: int| 0 <= u < m && inc@[u].2 == k + 1 && inc@[u].1 == slots@[k]->Some_0;
            assert(ge.contains_key(inc@[u].0 as nat));
        }
        assert forall|e1: nat, e2: nat|
            #[trigger] ge.contains_key(e1) && #[trigger] ge.contains_key(e2)
                && ge[e1].1 == n as nat && ge[e2].1 == n as nat && e1 != e2
            implies ge[e1].2 != ge[e2].2 by {
            let u1 = choose|u: int| 0 <= u < inc.len() && inc@[u].0 as nat == e1;
            let u2 = choose|u: int| 0 <= u < inc.len() && inc@[u].0 as nat == e2;
            assert(inc@[u1] == inc@[u1]);
            assert(inc@[u2] == inc@[u2]);
            if u1 < u2 {
                assert(inc@[u1].2 != inc@[u2].2);
            } else {
                assert(inc@[u2].2 != inc@[u1].2);
            }
        }
    }
    Some(p)
}

/// Some edge goes into `n`.
pub open spec fn has_inputs(g: TaskGraph, n: nat) -> bool {
    exists|e: nat| #[trigger] graph_edges(g).contains_key(e) && graph_edges(g)[e].1 == n
}

/// A node's inputs are settled: either an accessor with no input at all (an
/// identifier nothing produces), or a context that fits the action and lists
/// the node's inputs in argument order.
pub open spec fn node_settled(g: TaskGraph, tasks: Seq<QueryTask>, n: nat) -> bool {
    ||| tasks[n as int].action is Finalize
    ||| (tasks[n as int].action is Accessor && tasks[n as int].context is None && !has_inputs(g, n))
    ||| (context_fits(tasks[n as int]) && incoming_ok(g, n, task_parents(tasks[n as int])))
}

/// An accessor node that no edge enters: an identifier nothing produces.
pub open spec fn is_orphan(g: TaskGraph, tasks: Seq<QueryTask>, n: nat) -> bool {
    graph_nodes(g).contains(n) && tasks[n as int].action is Accessor && !has_inputs(g, n)
}

/// Every node but the sink and the orphans has inputs that a context can list.
pub open spec fn fits_except_orphans(g: TaskGraph, tasks: Seq<QueryTask>) -> bool {
    forall|n: nat| #[trigger] graph_nodes(g).contains(n) && !(tasks[n as int].action is Finalize)
        && !is_orphan(g, tasks, n) ==> inputs_fit(g, tasks[n as int].action, n)
}

/// The paths of the orphans among the first `k` tasks, in order.
pub open spec fn orphan_paths(g: TaskGraph, tasks: Seq<QueryTask>, k: int) -> Seq<Seq<String>>
    decreases k,
{
    if k <= 0 {
        seq![]
    } else if is_orphan(g, tasks, (k - 1) as nat) {
        orphan_paths(g, tasks, k - 1).push(tasks[k - 1].action->Accessor_0@)
    } else {
        orphan_paths(g, tasks, k - 1)
    }
}

/// The view of a list of paths.
pub open spec fn paths_view(ps: Vec<Vec<String>>) -> Seq<Seq<String>> {
    ps@.map_values(|p: Vec<String>| p@)
}

/// Every node but the sink has inputs that a context can list.
pub open spec fn all_inputs_fit(g: TaskGraph, tasks: Seq<QueryTask>) -> bool {
    forall|n: nat| #[trigger] graph_nodes(g).contains(n) && !(tasks[n as int].action is Finalize)
        ==> inputs_fit(g, tasks[n as int].action, n)
}

/// Binds each task's context to its inputs ordered by argument position, and
/// rejects tasks with missing inputs, misnumbered inputs, or accessors that
/// nothing produces.
pub fn populate_context(g: &TaskGraph, tasks: &mut Vec<QueryTask>) -> (r: Result<(), QueryError>)
    requires
        tasks_ok(*g, old(tasks)@),
        forall|i: int| 0 <= i < old(tasks).len() ==> (#[trigger] old(tasks)@[i]).context is None,
    ensures
        tasks_ok(*g, final(tasks)@),
        final(tasks).len() == old(tasks).len(),
        forall|i: int| 0 <= i < old(tasks).len() ==> (#[trigger] final(tasks)@[i]).alias == old(tasks)@[i].alias
            && final(tasks)@[i].action == old(tasks)@[i].action
            && final(tasks)@[i].required == old(tasks)@[i].required,
        r is Ok ==> contexts_ok(*g, final(tasks)@),
        r matches Err(e) ==> e is MissingContext || e is WeightMismatch || e is InvalidAccesses,
        all_inputs_fit(*g, old(tasks)@) ==> r is Ok,
        r matches Err(QueryError::InvalidAccesses(ps)) ==> paths_view(ps) == orphan_paths(*g, old(tasks)@, old(tasks).len() as int)
            && ps.len() > 0,
        fits_except_orphans(*g, old(tasks)@) && orphan_paths(*g, old(tasks)@, old(tasks).len() as int).len() > 0
            ==> r matches Err(QueryError::InvalidAccesses(_)),
        (exists|i: nat| #[trigger] graph_nodes(*g).contains(i) && old(tasks)@[i as int].action is Accessor
            && !(exists|e: nat| #[trigger] graph_edges(*g).contains_key(e) && graph_edges(*g)[e].1 == i)) ==> r is Err,
{
    let n = tasks.len();
    let mut i: usize = 0;
    while i < n
        invariant
            i <= n,
            n == tasks.len(),
            n == old(tasks).len(),
            tasks_ok(*g, tasks@),
            forall|j: int| 0 <= j < n ==> (#[trigger] tasks@[j]).alias == old(tasks)@[j].alias
                && tasks@[j].action == old(tasks)@[j].action
                && tasks@[j].required == old(tasks)@[j].required,
            forall|j: nat| j < i && #[trigger] graph_nodes(*g).contains(j) ==> node_settled(*g, tasks@, j),
            forall|j: int| i <= j < n ==> (#[trigger] tasks@[j]).context is None,
        decreases n - i,
    {
        let skip = match &tasks[i].action {
            TaskAction::Stale | TaskAction::Finalize => true,
            _ => false,
        };
        if !skip {
            let inc = graph_incoming(g, i);
            proof {
                assert(lists_incoming(*g, i as nat, inc@));
                if inc.len() > 0 {
                    assert(graph_edges(*g).contains_key(inc@[0].0 as nat));
                    assert(has_inputs(*g, i as nat));
                }
                if all_inputs_fit(*g, old(tasks)@) {
                    assert(fits_except_orphans(*g, old(tasks)@));
                }
                if fits_except_orphans(*g, old(tasks)@) && graph_nodes(*g).contains(i as nat)
                    && !is_orphan(*g, old(tasks)@, i as nat) {
                    let p = choose|p: Seq<usize>| #[trigger] incoming_ok(*g, i as nat, p)
                        && (arity(old(tasks)@[i as int].action) matches Some(k) ==> p.len() == k);
                    lemma_inputs_count(*g, i as nat, inc@, p);
                    assert(old(tasks)@[i as int].action == tasks@[i as int].action);
                }
            }
            let orphan = matches!(tasks[i].action, TaskAction::Accessor(_)) && inc.len() == 0;
            proof {
                if orphan {
                    assert forall|e: nat| #[trigger] graph_edges(*g).contains_key(e) implies graph_edges(*g)[e].1 != i as nat by {
                        if graph_edges(*g)[e].1 == i as nat {
                            let u = choose|u: int| 0 <= u < inc.len() && inc@[u].0 as nat == e;
                        }
                    }
                }
            }
            if !orphan {
                let expected: Option<usize> = match &tasks[i].action {
                    TaskAction::Accessor(_) | TaskAction::Link | TaskAction::UnaryOp(_) => Some(1),
                    TaskAction::BinaryOp(_) => Some(2),
                    TaskAction::Function(_) => None,
                    _ => Some(0),
                };
                if let Some(k) = expected {
                    if inc.len() != k {
                        return Err(QueryError::MissingContext(i));
                    }
                }
                let parents = match order_by_weight(g, i, &inc) {
                    Some(p) => p,
                    None => return Err(QueryError::WeightMismatch),
                };
                let ghost pp = parents@;
                let ctx: Option<TaskContext> = match &tasks[i].action {
                    TaskAction::Accessor(_) | TaskAction::Link | TaskAction::UnaryOp(_) => {
                        Some(TaskContext::SingleParent(parents[0]))
                    },
                    TaskAction::BinaryOp(_) => Some(TaskContext::DualParent(parents[0], parents[1])),
                    TaskAction::Function(_) => Some(TaskContext::MultiParent(parents)),
                    _ => None,
                };
                let mut tmp = QueryTask::with_action(TaskAction::Stale, false);
                tasks.set_and_swap(i, &mut tmp);
                tmp.context = ctx;
                tasks.set_and_swap(i, &mut tmp);
                proof {
                    assert(task_parents(tasks@[i as int]) =~= pp);
                    assert(node_settled(*g, tasks@, i as nat));
                }
            }
        }
        i = i + 1;
    }
    // accessors that nothing produces
    let mut missing: Vec<Vec<String>> = Vec::new();
    let mut i: usize = 0;
    while i < n
        invariant
            i <= n,
            n == tasks.len(),
            forall|j: nat| j < n && #[trigger] graph_nodes(*g).contains(j) ==> node_settled(*g, tasks@, j),
            missing.len() == 0 ==> forall|j: nat| j < i && #[trigger] graph_nodes(*g).contains(j)
                ==> !(tasks@[j as int].action is Accessor && tasks@[j as int].context is None),
            n == old(tasks).len(),
            tasks_ok(*g, tasks@),
            forall|j: int| 0 <= j < n ==> (#[trigger] tasks@[j]).action == old(tasks)@[j].action,
            all_inputs_fit(*g, old(tasks)@) ==> missing.len() == 0,
            paths_view(missing) == orphan_paths(*g, old(tasks)@, i as int),
        decreases n - i,
    {
        let ghost ii = i as nat;
        let ghost node_orphan = is_orphan(*g, old(tasks)@, ii);
        proof {
            if graph_nodes(*g).contains(ii) && tasks@[i as int].action is Accessor {
                assert(node_settled(*g, tasks@, ii));
                if tasks@[i as int].context is Some {
                    assert(context_fits(tasks@[i as int]));
                    let t = tasks@[i as int];
                    assert(task_parents(t).len() == 1);
                    assert(has_input(*g, ii, task_parents(t)[0], 1));
                    let e = choose|e: nat| #[trigger] graph_edges(*g).contains_key(e)
                        && graph_edges(*g)[e] == (task_parents(t)[0] as nat, ii, 1nat);
                    assert(has_inputs(*g, ii));
                }
            }
        }
        if !matches!(tasks[i].action, TaskAction::Stale) && tasks[i].context.is_none() {
            if let TaskAction::Accessor(path) = &tasks[i].action {
                proof {
                    assert(graph_nodes(*g).contains(ii));
                    assert(node_settled(*g, tasks@, ii));
                    assert(node_orphan);
                    if all_inputs_fit(*g, old(tasks)@) {
                        assert(old(tasks)@[i as int].action == tasks@[i as int].action);
                        let p = choose|p: Seq<usize>| #[trigger] incoming_ok(*g, ii, p)
                            && (arity(old(tasks)@[i as int].action) matches Some(k) ==> p.len() == k);
                        assert(has_input(*g, ii, p[0], 1));
                        let e = choose|e: nat| #[trigger] graph_edges(*g).contains_key(e)
                            && graph_edges(*g)[e] == (p[0] as nat, ii, 1nat);
                        assert(has_inputs(*g, ii));
                    }
                }
                let ghost before = missing;
                let copy = copy_path(path, 0);
                missing.push(copy);
                proof {
                    assert(copy@ =~= path@);
                    assert(paths_view(missing) =~= paths_view(before).push(path@));
                }
            } else {
                proof {
                    assert(!node_orphan);
                }
            }
        } else {
            proof {
                assert(!node_orphan);
            }
        }
        i = i + 1;
    }
    proof {
        if fits_except_orphans(*g, old(tasks)@) && orphan_paths(*g, old(tasks)@, n as int).len() > 0 {
            assert(missing.len() > 0);
        }
    }
    if missing.len() > 0 {
        return Err(QueryError::InvalidAccesses(missing));
    }
    proof {
        assert forall|j: nat| #[trigger] graph_nodes(*g).contains(j) && old(tasks)@[j as int].action is Accessor
            implies exists|e: nat| #[trigger] graph_edges(*g).contains_key(e) && graph_edges(*g)[e].1 == j by {
            let t = tasks@[j as int];
            assert(node_settled(*g, tasks@, j));
            assert(task_parents(t).len() == 1);
            assert(has_input(*g, j, task_parents(t)[0], 1));
        }
    }
    Ok(())
}

/// `p` is the first input of `n`: the source of the edge into `n` with the
/// least edge index.
pub open spec fn is_first_input(g: TaskGraph, n: nat, p: usize) -> bool {
    exists|e: nat| #[trigger] graph_edges(g).contains_key(e) && graph_edges(g)[e].1 == n
        && graph_edges(g)[e].0 == p as nat
        && forall|e2: nat| #[trigger] graph_edges(g).contains_key(e2) && graph_edges(g)[e2].1 == n ==> e <= e2
}

/// The first input of `n`, if it has an input.
pub open spec fn first_input(g: TaskGraph, n: nat) -> Option<usize> {
    if exists|p: usize| is_first_input(g, n, p) {
        Some(choose|p: usize| is_first_input(g, n, p))
    } else {
        None
    }
}

/// From `cur`, the nearest ancestor along first inputs that has an alias or
/// is not a link, within `fuel` steps.
pub open spec fn parent_walk(g: TaskGraph, tasks: Seq<QueryTask>, cur: usize, fuel: nat) -> Option<usize>
    decreases fuel,
{
    if fuel == 0 {
        None
    } else {
        match first_input(g, cur as nat) {
            None => None,
            Some(p) => if tasks[p as int].alias is None && tasks[p as int].action is Link {
                parent_walk(g, tasks, p, (fuel - 1) as nat)
            } else {
                Some(p)
            },
        }
    }
}

/// A node with an input from `p` only has `p` as its first input.
pub proof fn lemma_only_input_is_first(g: TaskGraph, n: nat, p: usize, e0: nat)
    requires
        graph_edges(g).contains_key(e0),
        graph_edges(g)[e0].1 == n,
        forall|e: nat| #[trigger] graph_edges(g).contains_key(e) && graph_edges(g)[e].1 == n ==> graph_edges(g)[e].0 == p as nat,
    ensures
        first_input(g, n) == Some(p),
    decreases e0,
{
    if forall|e2: nat| #[trigger] graph_edges(g).contains_key(e2) && graph_edges(g)[e2].1 == n ==> e0 <= e2 {
        assert(is_first_input(g, n, p));
        lemma_first_input_unique(g, n, p);
    } else {
        let e1 = choose|e2: nat| #[trigger] graph_edges(g).contains_key(e2) && graph_edges(g)[e2].1 == n && !(e0 <= e2);
        lemma_only_input_is_first(g, n, p, e1);
    }
}

proof fn lemma_first_input_unique(g: TaskGraph, n: nat, p: usize)
    requires
        is_first_input(g, n, p),
    ensures
        first_input(g, n) == Some(p),
{
    let q = choose|q: usize| is_first_input(g, n, q);
    let e1 = choose|e: nat| #[trigger] graph_edges(g).contains_key(e) && graph_edges(g)[e].1 == n
        && graph_edges(g)[e].0 == p as nat
        && forall|e2: nat| #[trigger] graph_edges(g).contains_key(e2) && graph_edges(g)[e2].1 == n ==> e <= e2;
    let e2 = choose|e: nat| #[trigger] graph_edges(g).contains_key(e) && graph_edges(g)[e].1 == n
        && graph_edges(g)[e].0 == q as nat
        && forall|e3: nat| #[trigger] graph_edges(g).contains_key(e3) && graph_edges(g)[e3].1 == n ==> e <= e3;
    assert(e1 <= e2 && e2 <= e1);
}

/// The first input of `n`, read from the edges into it.
fn first_input_of(g: &TaskGraph, n: usize) -> (r: Option<usize>)
    requires
        graph_ok(*g),
    ensures
        r == first_input(*g, n as nat),
{
    let inc = graph_incoming(g, n);
    if inc.len() == 0 {
        proof {
            if exists|p: usize| is_first_input(*g, n as nat, p) {
                let p = choose|p: usize| is_first_input(*g, n as nat, p);
                let e = choose|e: nat| #[trigger] graph_edges(*g).contains_key(e) && graph_edges(*g)[e].1 == n as nat
                    && graph_edges(*g)[e].0 == p as nat
                    && forall|e2: nat| #[trigger] graph_edges(*g).contains_key(e2) && graph_edges(*g)[e2].1 == n as nat ==> e <= e2;
                assert(exists|i: int| 0 <= i < inc.len() && inc@[i].0 as nat == e);
            }
        }
        return None;
    }
    let mut best: usize = 0;
    let mut i: usize = 1;
    while i < inc.len()
        invariant
            1 <= i <= inc.len(),
            best < i,
            forall|k: int| 0 <= k < i ==> inc@[best as int].0 <= (#[trigger] inc@[k]).0,
        decreases inc.len() - i,
    {
        if inc[i].0 < inc[best].0 {
            best = i;
        }
        i = i + 1;
    }
    proof {
        let e = inc@[best as int].0 as nat;
        assert(graph_edges(*g).contains_key(e));
        assert forall|e2: nat| #[trigger] graph_edges(*g).contains_key(e2) && graph_edges(*g)[e2].1 == n as nat
            implies e <= e2 by {
            let k = choose|k: int| 0 <= k < inc.len() && inc@[k].0 as nat == e2;
            assert(inc@[best as int].0 <= inc@[k].0);
        }
        assert(is_first_input(*g, n as nat, inc@[best as int].1));
        lemma_first_input_unique(*g, n as nat, inc@[best as int].1);
    }
    Some(inc[best].1)
}

/// Walks up from `idx` along first inputs to the nearest ancestor that has an
/// alias or is not a link. A chain longer than the number of tasks repeats a
/// node, so the walk stops after that many steps.
pub fn find_parent_with_alias(g: &TaskGraph, tasks: &Vec<QueryTask>, idx: usize) -> (r: Option<usize>)
    requires
        tasks_ok(*g, tasks@),
    ensures
        r == parent_walk(*g, tasks@, idx, tasks.len() as nat),
        r matches Some(p) ==> p < tasks.len() && graph_nodes(*g).contains(p as nat)
            && (tasks@[p as int].alias is Some || !(tasks@[p as int].action is Link)),
{
    let mut cur = idx;
    let mut steps: usize = 0;
    while steps < tasks.len()
        invariant
            tasks_ok(*g, tasks@),
            steps <= tasks.len(),
            parent_walk(*g, tasks@, idx, tasks.len() as nat) == parent_walk(*g, tasks@, cur, (tasks.len() - steps) as nat),
        decreases tasks.len() - steps,
    {
        let first = first_input_of(g, cur);
        match first {
            None => return None,
            Some(p) => {
                proof {
                    let q = choose|q: usize| is_first_input(*g, cur as nat, q);
                    let e = choose|e: nat| #[trigger] graph_edges(*g).contains_key(e) && graph_edges(*g)[e].1 == cur as nat
                        && graph_edges(*g)[e].0 == q as nat
                        && forall|e2: nat| #[trigger] graph_edges(*g).contains_key(e2) && graph_edges(*g)[e2].1 == cur as nat ==> e <= e2;
                    assert(graph_nodes(*g).contains(graph_edges(*g)[e].0));
                }
                if tasks[p].alias.is_none() && matches!(tasks[p].action, TaskAction::Link) {
                    cur = p;
                    steps = steps + 1;
                } else {
                    return Some(p);
                }
            },
        }
    }
    None
}

} // verus!
