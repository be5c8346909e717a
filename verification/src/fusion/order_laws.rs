//! What a reading order does not depend on, and what it never loses.

use vstd::prelude::*;

use crate::chars::{text_before, text_order_is_strict_weak, text_order_is_total};
use crate::fusion::edges::EdgeModel;
use crate::fusion::order::{
    ascending, before_upto, found_at, lemma_ids_tell_apart, lemma_slot, lemma_with_node, links_of,
    node_before, normalized, ranks_of, resolved, slot, unknown_from, with_node, KeyOrder,
    NodeModel, Resolved,
};
use crate::fusion::precedence::{
    all_active, cyclic, given_up, knotted, leads_knot, next_upto, placed_from, ready, untangled,
    Link,
};
use crate::fusion::precedence_laws::acyclic;
use crate::sorting::{is_ordered, ordered_arrangement_is_unique, sorting_forgets_arrival, Order};

verus! {

/// The nodes of a graph once the first `n` of a list were registered in turn.
pub open spec fn registered(list: Seq<NodeModel>, n: int) -> Seq<NodeModel>
    decreases n,
{
    if n <= 0 {
        Seq::empty()
    } else {
        with_node(registered(list, n - 1), list[n - 1])
    }
}

/// Whether no two nodes share an identity.
pub open spec fn told_apart(list: Seq<NodeModel>) -> bool {
    forall|i: int, j: int|
        #![trigger list[i], list[j]]
        0 <= i < j < list.len() ==> list[i].id != list[j].id
}

/// Nodes by their identities.
pub struct IdOrder;

impl Order<NodeModel> for IdOrder {
    open spec fn lt(&self, a: NodeModel, b: NodeModel) -> bool {
        text_before(a.id, b.id)
    }

    proof fn is_strict_weak(&self, a: NodeModel, b: NodeModel, c: NodeModel) {
        text_order_is_strict_weak(a.id, b.id, c.id);
    }
}

/// Registering nodes keeps each of them once, in the order of their identities.
proof fn lemma_registered(list: Seq<NodeModel>, n: int)
    requires
        0 <= n <= list.len(),
        told_apart(list),
    ensures
        ascending(registered(list, n)),
        registered(list, n).to_multiset() == list.take(n).to_multiset(),
    decreases n,
{
    broadcast use vstd::seq_lib::group_to_multiset_ensures;

    if n <= 0 {
        assert(list.take(0) =~= Seq::<NodeModel>::empty());
    } else {
        lemma_registered(list, n - 1);
        let before = registered(list, n - 1);
        let x = list[n - 1];
        lemma_with_node(before, x);
        lemma_slot(before, x.id, 0);
        let at = slot(before, x.id, 0);
        if at < before.len() && before[at].id == x.id {
            assert(before.contains(before[at]));
            assert(list.take(n - 1).to_multiset().count(before[at]) > 0);
            let k = list.take(n - 1).index_of(before[at]);
            assert(list[k] == before[at]);
            assert(false);
        }
        vstd::seq_lib::to_multiset_insert(before, at, x);
        assert(list.take(n) =~= list.take(n - 1).push(x));
    }
}

/// The nodes of a graph do not depend on the order in which they were registered.
pub proof fn nodes_forget_arrival(a: Seq<NodeModel>, b: Seq<NodeModel>)
    requires
        told_apart(a),
        told_apart(b),
        a.to_multiset() == b.to_multiset(),
    ensures
        registered(a, a.len() as int) == registered(b, b.len() as int),
{
    broadcast use vstd::seq_lib::group_to_multiset_ensures;

    lemma_registered(a, a.len() as int);
    lemma_registered(b, b.len() as int);
    assert(a.take(a.len() as int) =~= a);
    assert(b.take(b.len() as int) =~= b);
    let x = registered(a, a.len() as int);
    let y = registered(b, b.len() as int);
    lemma_ascending_ordered(x);
    lemma_ascending_ordered(y);
    assert forall|i: int, j: int|
        #![trigger x[i], x[j]]
        0 <= i < x.len() && 0 <= j < x.len() && x[i] != x[j] implies IdOrder.lt(x[i], x[j])
        || IdOrder.lt(x[j], x[i]) by {
        if i < j {
            assert(text_before(x[i].id, x[j].id));
        } else {
            assert(text_before(x[j].id, x[i].id));
        }
    }
    ordered_arrangement_is_unique(x, y, IdOrder);
}

/// Ascending nodes are ordered.
proof fn lemma_ascending_ordered(nodes: Seq<NodeModel>)
    requires
        ascending(nodes),
    ensures
        is_ordered(nodes, IdOrder),
{
    assert forall|i: int, j: int| #![trigger nodes[i], nodes[j]] 0 <= i < j < nodes.len() implies
        !IdOrder.lt(nodes[j], nodes[i]) by {
        text_order_is_strict_weak(nodes[i].id, nodes[j].id, nodes[i].id);
    }
}

/// An endpoint is missing exactly where some constraint names a block without a node.
proof fn lemma_unknown_is(nodes: Seq<NodeModel>, edges: Seq<EdgeModel>, i: int)
    requires
        0 <= i <= edges.len(),
    ensures
        unknown_from(nodes, edges, i) is None <==> forall|k: int|
            i <= k < edges.len() ==> found_at(nodes, (#[trigger] edges[k]).from, 0) is Some
                && found_at(nodes, edges[k].to, 0) is Some,
    decreases edges.len() - i,
{
    if i < edges.len() {
        lemma_unknown_is(nodes, edges, i + 1);
        if unknown_from(nodes, edges, i) is None {
            assert forall|k: int| i <= k < edges.len() implies found_at(
                nodes,
                (#[trigger] edges[k]).from,
                0,
            ) is Some && found_at(nodes, edges[k].to, 0) is Some by {
                if k > i {
                    assert(edges[k] == edges[k]);
                }
            }
        } else {
            let e = edges[i];
        }
    }
}

/// A missing endpoint is missing whatever the order of the constraints.
proof fn lemma_unknown_same(nodes: Seq<NodeModel>, a: Seq<EdgeModel>, b: Seq<EdgeModel>)
    requires
        a.to_multiset() == b.to_multiset(),
        unknown_from(nodes, a, 0) is None,
    ensures
        unknown_from(nodes, b, 0) is None,
{
    broadcast use vstd::seq_lib::group_to_multiset_ensures;

    lemma_unknown_is(nodes, a, 0);
    assert forall|k: int| 0 <= k < b.len() implies found_at(nodes, (#[trigger] b[k]).from, 0)
        is Some && found_at(nodes, b[k].to, 0) is Some by {
        assert(b.contains(b[k]));
        assert(a.to_multiset().count(b[k]) > 0);
        let i = a.index_of(b[k]);
        assert(a[i] == b[k]);
    }
    lemma_unknown_is(nodes, b, 0);
}

/// What is resolved depends neither on the order in which nodes were registered nor on that of
/// the constraints, where constraints of one key are equal. Which of several missing blocks is
/// named is the one exception.
pub proof fn resolution_forgets_arrival(
    ns: Seq<NodeModel>,
    ms: Seq<NodeModel>,
    a: Seq<EdgeModel>,
    b: Seq<EdgeModel>,
)
    requires
        told_apart(ns),
        told_apart(ms),
        ns.to_multiset() == ms.to_multiset(),
        a.to_multiset() == b.to_multiset(),
        forall|i: int, j: int|
            #![trigger a[i], a[j]]
            0 <= i < a.len() && 0 <= j < a.len() && a[i].stable_key == a[j].stable_key ==> a[i]
                == a[j],
    ensures
        ({
            let x = resolved(registered(ns, ns.len() as int), a);
            let y = resolved(registered(ms, ms.len() as int), b);
            x == y || (x is Unknown && y is Unknown)
        }),
{
    broadcast use vstd::seq_lib::group_to_multiset_ensures;

    nodes_forget_arrival(ns, ms);
    let nodes = registered(ns, ns.len() as int);
    assert forall|i: int, j: int|
        #![trigger a[i], a[j]]
        0 <= i < a.len() && 0 <= j < a.len() && a[i] != a[j] implies KeyOrder.lt(a[i], a[j])
        || KeyOrder.lt(a[j], a[i]) by {
        text_order_is_total(a[i].stable_key, a[j].stable_key);
    }
    sorting_forgets_arrival(a, b, KeyOrder);
    a.to_multiset_ensures();
    b.to_multiset_ensures();
    assert(a.len() == b.len());
    assert(normalized(a) == normalized(b));
    if unknown_from(nodes, a, 0) is None {
        lemma_unknown_same(nodes, a, b);
    }
    if unknown_from(nodes, b, 0) is None {
        lemma_unknown_same(nodes, b, a);
    }
}

/// The order in which ready nodes are taken tells nodes of different identities apart, and is
/// strict and transitive.
proof fn lemma_node_order(a: NodeModel, b: NodeModel, c: NodeModel)
    ensures
        !node_before(a, a),
        node_before(a, b) && node_before(b, c) ==> node_before(a, c),
        a.id != b.id ==> node_before(a, b) || node_before(b, a),
{
    text_order_is_strict_weak(a.path, b.path, c.path);
    text_order_is_strict_weak(a.path, b.path, a.path);
    text_order_is_strict_weak(a.id, b.id, c.id);
    text_order_is_strict_weak(a.id, a.id, a.id);
    if a.path != b.path {
        text_order_is_total(a.path, b.path);
    }
    if a.id != b.id {
        text_order_is_total(a.id, b.id);
    }
}

/// What is taken before a node is taken before everything behind it.
proof fn lemma_counts(nodes: Seq<NodeModel>, i: int, j: int, n: int)
    requires
        0 <= i < nodes.len(),
        0 <= j < nodes.len(),
        0 <= n <= nodes.len(),
        node_before(nodes[i], nodes[j]),
    ensures
        before_upto(nodes, nodes[i], n) <= n,
        before_upto(nodes, nodes[j], n) <= n,
        before_upto(nodes, nodes[i], n) + (if i < n {
            1int
        } else {
            0
        }) <= before_upto(nodes, nodes[j], n),
    decreases n,
{
    if n > 0 {
        lemma_counts(nodes, i, j, n - 1);
        lemma_node_order(nodes[n - 1], nodes[i], nodes[j]);
        lemma_node_order(nodes[i], nodes[i], nodes[j]);
    }
}

/// The node that comes next has the lowest rank of all that are ready.
proof fn lemma_next_least(
    links: Seq<Link>,
    active: Seq<bool>,
    ranks: Seq<usize>,
    placed: Seq<usize>,
    n: int,
    v: int,
)
    requires
        0 <= n <= usize::MAX,
        0 <= v < n,
        ready(links, active, placed, v),
    ensures
        next_upto(links, active, ranks, placed, n) matches Some(w) && w < n && ranks[w as int]
            <= ranks[v],
    decreases n,
{
    if v < n - 1 {
        lemma_next_least(links, active, ranks, placed, n - 1, v);
    } else {
        lemma_next_below(links, active, ranks, placed, n - 1);
    }
}

/// The node that comes next is one of those looked at.
proof fn lemma_next_below(
    links: Seq<Link>,
    active: Seq<bool>,
    ranks: Seq<usize>,
    placed: Seq<usize>,
    n: int,
)
    requires
        n <= usize::MAX,
    ensures
        next_upto(links, active, ranks, placed, n) matches Some(w) ==> w < n,
    decreases n,
{
    if n > 0 {
        lemma_next_below(links, active, ranks, placed, n - 1);
    }
}

/// Every node that is placed came next when it was placed.
proof fn lemma_placed_step(
    links: Seq<Link>,
    active: Seq<bool>,
    ranks: Seq<usize>,
    placed: Seq<usize>,
    n: int,
    i: int,
)
    ensures
        ({
            let order = placed_from(links, active, ranks, placed, n);
            &&& placed.len() <= order.len()
            &&& order.take(placed.len() as int) == placed
            &&& placed.len() <= i < order.len() ==> next_upto(
                links,
                active,
                ranks,
                order.take(i),
                n,
            ) == Some(order[i])
        }),
    decreases n - placed.len(),
{
    let order = placed_from(links, active, ranks, placed, n);
    let next = next_upto(links, active, ranks, placed, n);
    if placed.len() < n && next is Some {
        let more = placed.push(next->0);
        lemma_placed_step(links, active, ranks, more, n, i);
        let m = placed.len() as int;
        assert(order.take(m + 1)[m] == order[m]);
        assert(order.take(m) =~= placed) by {
            assert forall|k: int| 0 <= k < m implies order[k] == placed[k] by {
                assert(order.take(m + 1)[k] == more[k]);
            }
        }
    } else {
        assert(order.take(placed.len() as int) =~= placed);
    }
}

/// The constraints between `n` nodes that are left in force.
pub open spec fn in_force(links: Seq<Link>, n: int) -> Seq<bool> {
    match untangled(links, all_active(links), Seq::empty(), n) {
        None => Seq::empty(),
        Some((active, _)) => active,
    }
}

/// Each position of a reading order holds the first, in the order in which ready nodes are taken,
/// of the nodes whose predecessors under the constraints left in force are all placed before it.
pub proof fn first_ready_node_comes_next(
    nodes: Seq<NodeModel>,
    edges: Seq<EdgeModel>,
    i: int,
    v: int,
)
    requires
        nodes.len() <= usize::MAX,
        ascending(nodes),
        resolved(nodes, edges) is Ordered,
        0 <= i < resolved(nodes, edges)->places.len(),
        0 <= v < nodes.len(),
        ({
            let links = links_of(nodes, normalized(edges));
            let n = nodes.len() as int;
            ready(links, in_force(links, n), resolved(nodes, edges)->places.take(i), v)
        }),
    ensures
        ({
            let next = resolved(nodes, edges)->places[i] as int;
            0 <= next < nodes.len() && (next == v || node_before(nodes[next], nodes[v]))
        }),
{
    let links = links_of(nodes, normalized(edges));
    let n = nodes.len() as int;
    let active = in_force(links, n);
    let ranks = ranks_of(nodes);
    let places = resolved(nodes, edges)->places;
    lemma_placed_step(links, active, ranks, Seq::empty(), n, i);
    lemma_next_least(links, active, ranks, places.take(i), n, v);
    let next = places[i] as int;
    if next != v {
        if nodes[next].id == nodes[v].id {
            lemma_ids_tell_apart(nodes, next, v);
        }
        lemma_node_order(nodes[next], nodes[v], nodes[v]);
        if node_before(nodes[v], nodes[next]) {
            lemma_counts(nodes, v, next, n);
        }
    }
}

/// Without a cycle, no node leads a knot.
proof fn lemma_nothing_given_up(links: Seq<Link>, active: Seq<bool>, n: int)
    requires
        acyclic(links, active),
    ensures
        given_up(links, active, n) == Some(Seq::<int>::empty()),
    decreases n,
{
    if n > 0 {
        lemma_nothing_given_up(links, active, n - 1);
        if leads_knot(links, active, n - 1) {
            assert(cyclic(links, active, n - 1));
            let e = choose|e: int|
                0 <= e < links.len() && #[trigger] knotted(links, active, e, n - 1);
            assert(false);
        }
    }
}

/// Constraints without a cycle lose none: the order is found and nothing is given up.
pub proof fn acyclic_constraints_lose_none(nodes: Seq<NodeModel>, edges: Seq<EdgeModel>)
    requires
        unknown_from(nodes, edges, 0) is None,
        ({
            let links = links_of(nodes, normalized(edges));
            acyclic(links, all_active(links))
        }),
    ensures
        resolved(nodes, edges) matches Resolved::Ordered { places, removed } && removed.len() == 0,
{
    let links = links_of(nodes, normalized(edges));
    lemma_nothing_given_up(links, all_active(links), nodes.len() as int);
}

} // verus!
