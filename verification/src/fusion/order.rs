//! The reading order of the blocks of a page.

use vstd::prelude::*;

use crate::blocks::{Block, BlockId, LabelSource};
use crate::chars::{str_before, str_same, text_before, text_order_is_strict_weak, text_order_is_total};
use crate::error::OrderError;
use crate::fusion::edges::{
    add_caption_edges, add_fallback_insertion_edges, add_geometry_edges,
    add_rotated_marginal_edges, add_xy_cut_edges, caption_edges, edge_models, geometry_edges,
    insertion_edges, list_seats, marginal_edges, seats_of, xy_cut_edges, EdgeModel, EdgeSource,
    OrderEdge, Seat,
};
use crate::fusion::model_edges::{add_model_edges, after_mark, marked, model_edges};
use crate::fusion::precedence::{
    all_active, links_within, numbers, place, placed_from, untangle, untangled, Link,
};
use crate::fusion::precedence_laws::{placement_is_complete, untangling_removes_cycles};
use crate::geometry::{Bbox, POINT};
use crate::sorting::{lemma_sorted_seen, sort, sorted, sorting_orders_and_keeps, Order, Sorter};


verus! {

/// Stable node metadata used to break ties.
#[derive(Debug)]
pub struct OrderNode {
    pub block_id: BlockId,
    pub bbox: Bbox,
    pub xy_path: Option<String>,
    pub source_priority: u8,
}

/// What decides where a node stands among those that could come next.
#[verifier::ext_equal]
pub struct NodeModel {
    pub id: Seq<char>,
    pub bbox: Bbox,
    pub path: Seq<char>,
    pub priority: u8,
}

impl View for OrderNode {
    type V = NodeModel;

    open spec fn view(&self) -> NodeModel {
        NodeModel {
            id: self.block_id@,
            bbox: self.bbox,
            path: match self.xy_path {
                None => Seq::empty(),
                Some(path) => path@,
            },
            priority: self.source_priority,
        }
    }
}

/// What a list of nodes says.
pub open spec fn node_models(nodes: Seq<OrderNode>) -> Seq<NodeModel> {
    nodes.map_values(|n: OrderNode| n@)
}

/// The band of half a point that a coordinate lies in.
pub open spec fn band(top: i32) -> int {
    top as int / (POINT as int / 2)
}

/// Whether a node is taken before another where both could come next.
pub open spec fn node_before(a: NodeModel, b: NodeModel) -> bool {
    if a.path != b.path {
        text_before(a.path, b.path)
    } else if band(a.bbox.top) != band(b.bbox.top) {
        band(a.bbox.top) < band(b.bbox.top)
    } else if a.bbox.top != b.bbox.top {
        a.bbox.top < b.bbox.top
    } else if a.bbox.left != b.bbox.left {
        a.bbox.left < b.bbox.left
    } else if a.priority != b.priority {
        a.priority < b.priority
    } else {
        text_before(a.id, b.id)
    }
}

impl OrderNode {
    /// Whether the node is taken before another where both could come next.
    pub fn precedes(&self, other: &OrderNode) -> (yes: bool)
        ensures
            yes == node_before(self@, other@),
    {
        let nothing: String = String::new();
        assert(nothing@ =~= Seq::empty());
        let a: &str = match &self.xy_path {
            None => nothing.as_str(),
            Some(path) => path.as_str(),
        };
        let b: &str = match &other.xy_path {
            None => nothing.as_str(),
            Some(path) => path.as_str(),
        };
        if !str_same(a, b) {
            str_before(a, b)
        } else if quantized_band(self.bbox.top) != quantized_band(other.bbox.top) {
            quantized_band(self.bbox.top) < quantized_band(other.bbox.top)
        } else if self.bbox.top != other.bbox.top {
            self.bbox.top < other.bbox.top
        } else if self.bbox.left != other.bbox.left {
            self.bbox.left < other.bbox.left
        } else if self.source_priority != other.source_priority {
            self.source_priority < other.source_priority
        } else {
            str_before(self.block_id.as_str(), other.block_id.as_str())
        }
    }
}

/// The band of half a point that a coordinate lies in.
pub fn quantized_band(top: i32) -> (index: i64)
    ensures
        index == band(top),
{
    let half: i64 = POINT as i64 / 2;
    let t: i64 = top as i64;
    if t >= 0 {
        t / half
    } else {
        let up: i64 = (-t + half - 1) / half;
        -up
    }
}

/// Whether nodes stand in the order of their identities, each once.
pub open spec fn ascending(nodes: Seq<NodeModel>) -> bool {
    forall|i: int, j: int|
        #![trigger nodes[i], nodes[j]]
        0 <= i < j < nodes.len() ==> text_before(nodes[i].id, nodes[j].id)
}

/// Where an identity stands, or would stand, in the order of identities, from `i` on.
pub open spec fn slot(nodes: Seq<NodeModel>, id: Seq<char>, i: int) -> int
    decreases nodes.len() - i,
{
    if i >= nodes.len() || !text_before(nodes[i].id, id) {
        i
    } else {
        slot(nodes, id, i + 1)
    }
}

/// Nodes with one more, which takes the place of one of the same identity.
pub open spec fn with_node(nodes: Seq<NodeModel>, x: NodeModel) -> Seq<NodeModel> {
    let at = slot(nodes, x.id, 0);
    if at < nodes.len() && nodes[at].id == x.id {
        nodes.update(at, x)
    } else {
        nodes.insert(at, x)
    }
}

/// Facts about the place of an identity.
pub proof fn lemma_slot(nodes: Seq<NodeModel>, id: Seq<char>, i: int)
    requires
        0 <= i <= nodes.len(),
    ensures
        i <= slot(nodes, id, i) <= nodes.len(),
        forall|k: int| i <= k < slot(nodes, id, i) ==> text_before(#[trigger] nodes[k].id, id),
        slot(nodes, id, i) < nodes.len() ==> !text_before(nodes[slot(nodes, id, i)].id, id),
    decreases nodes.len() - i,
{
    if i < nodes.len() && text_before(nodes[i].id, id) {
        lemma_slot(nodes, id, i + 1);
    }
}

/// One more node keeps the order of identities.
pub proof fn lemma_with_node(nodes: Seq<NodeModel>, x: NodeModel)
    requires
        ascending(nodes),
    ensures
        ascending(with_node(nodes, x)),
{
    let at = slot(nodes, x.id, 0);
    let after = with_node(nodes, x);
    lemma_slot(nodes, x.id, 0);
    if at < nodes.len() && nodes[at].id == x.id {
        assert(forall|i: int| 0 <= i < nodes.len() ==> (#[trigger] after[i]).id == nodes[i].id);
        assert forall|i: int, j: int|
            #![trigger after[i], after[j]]
            0 <= i < j < after.len() implies text_before(after[i].id, after[j].id) by {
            assert(text_before(nodes[i].id, nodes[j].id));
        }
    } else {
        assert forall|i: int, j: int|
            #![trigger after[i], after[j]]
            0 <= i < j < after.len() implies text_before(after[i].id, after[j].id) by {
            let p = if i < at {
                i
            } else {
                i - 1
            };
            let q = if j < at {
                j
            } else {
                j - 1
            };
            if i != at {
                assert(after[i] == nodes[p]);
            }
            if j != at {
                assert(after[j] == nodes[q]);
            }
            if i != at && j != at {
                assert(text_before(nodes[p].id, nodes[q].id));
            } else if i == at {
                text_order_is_total(nodes[at].id, x.id);
                assert(text_before(x.id, nodes[at].id));
                if q > at {
                    assert(text_before(nodes[at].id, nodes[q].id));
                    text_order_is_strict_weak(x.id, nodes[at].id, nodes[q].id);
                }
            } else {
                assert(text_before(nodes[p].id, x.id));
            }
        }
    }
}

/// Two places of nodes in order that hold one identity are the same place.
pub proof fn lemma_ids_tell_apart(nodes: Seq<NodeModel>, i: int, j: int)
    requires
        ascending(nodes),
        0 <= i < nodes.len(),
        0 <= j < nodes.len(),
        nodes[i].id == nodes[j].id,
    ensures
        i == j,
{
    text_order_is_strict_weak(nodes[i].id, nodes[i].id, nodes[i].id);
    if i < j {
        assert(text_before(nodes[i].id, nodes[j].id));
    } else if j < i {
        assert(text_before(nodes[j].id, nodes[i].id));
    }
}

/// Where a node of the given identity is, from `i` on.
pub open spec fn found_at(nodes: Seq<NodeModel>, id: Seq<char>, i: int) -> Option<int>
    decreases nodes.len() - i,
{
    if i >= nodes.len() {
        None
    } else if nodes[i].id == id {
        Some(i)
    } else {
        found_at(nodes, id, i + 1)
    }
}

/// The first endpoint without a node, from constraint `i` on.
pub open spec fn unknown_from(nodes: Seq<NodeModel>, edges: Seq<EdgeModel>, i: int) -> Option<
    Seq<char>,
>
    decreases edges.len() - i,
{
    if i >= edges.len() {
        None
    } else if found_at(nodes, edges[i].from, 0) is None {
        Some(edges[i].from)
    } else if found_at(nodes, edges[i].to, 0) is None {
        Some(edges[i].to)
    } else {
        unknown_from(nodes, edges, i + 1)
    }
}

/// Constraints by their keys.
#[derive(Debug, Clone, Copy, PartialEq, Eq, Structural)]
pub struct KeyOrder;

impl Order<EdgeModel> for KeyOrder {
    open spec fn lt(&self, a: EdgeModel, b: EdgeModel) -> bool {
        text_before(a.stable_key, b.stable_key)
    }

    proof fn is_strict_weak(&self, a: EdgeModel, b: EdgeModel, c: EdgeModel) {
        text_order_is_strict_weak(a.stable_key, b.stable_key, c.stable_key);
    }
}

impl Order<OrderEdge> for KeyOrder {
    open spec fn lt(&self, a: OrderEdge, b: OrderEdge) -> bool {
        text_before(a.stable_key@, b.stable_key@)
    }

    proof fn is_strict_weak(&self, a: OrderEdge, b: OrderEdge, c: OrderEdge) {
        text_order_is_strict_weak(a.stable_key@, b.stable_key@, c.stable_key@);
    }
}

impl Sorter<OrderEdge> for KeyOrder {
    fn precedes(&self, a: &OrderEdge, b: &OrderEdge) -> (yes: bool) {
        str_before(a.stable_key.as_str(), b.stable_key.as_str())
    }
}

/// The first `n` constraints without those of the same key as the one kept before.
pub open spec fn first_of_keys(s: Seq<EdgeModel>, n: int) -> Seq<EdgeModel>
    decreases n,
{
    if n <= 0 {
        Seq::empty()
    } else {
        let before = first_of_keys(s, n - 1);
        if before.len() > 0 && before.last().stable_key == s[n - 1].stable_key {
            before
        } else {
            before.push(s[n - 1])
        }
    }
}

/// Constraints in the order of their keys, the first of each key.
pub open spec fn normalized(edges: Seq<EdgeModel>) -> Seq<EdgeModel> {
    first_of_keys(sorted(edges, KeyOrder), edges.len() as int)
}

/// Constraints between numbered nodes.
pub open spec fn links_of(nodes: Seq<NodeModel>, edges: Seq<EdgeModel>) -> Seq<Link> {
    Seq::new(
        edges.len(),
        |e: int|
            Link {
                from: found_at(nodes, edges[e].from, 0)->0 as usize,
                to: found_at(nodes, edges[e].to, 0)->0 as usize,
                strong: edges[e].source.strong(),
                weight: edges[e].preservation_weight,
                rank: edges[e].source.priority(),
            },
    )
}

/// How many of the first `n` nodes are taken before `x`.
pub open spec fn before_upto(nodes: Seq<NodeModel>, x: NodeModel, n: int) -> nat
    decreases n,
{
    if n <= 0 {
        0
    } else {
        before_upto(nodes, x, n - 1) + if node_before(nodes[n - 1], x) {
            1nat
        } else {
            0
        }
    }
}

/// For each node, how many are taken before it.
pub open spec fn ranks_of(nodes: Seq<NodeModel>) -> Seq<usize> {
    Seq::new(nodes.len(), |i: int| before_upto(nodes, nodes[i], nodes.len() as int) as usize)
}

/// Evidence kept of a constraint that was given up.
#[derive(Debug)]
pub struct RemovedOrderEdge {
    pub from: BlockId,
    pub to: BlockId,
    pub source: EdgeSource,
    pub preservation_weight: u32,
    pub reason: String,
}

/// What is said of a constraint that was given up.
#[verifier::ext_equal]
pub struct RemovedModel {
    pub from: Seq<char>,
    pub to: Seq<char>,
    pub source: EdgeSource,
    pub preservation_weight: u32,
    pub reason: Seq<char>,
}

impl View for RemovedOrderEdge {
    type V = RemovedModel;

    open spec fn view(&self) -> RemovedModel {
        RemovedModel {
            from: self.from@,
            to: self.to@,
            source: self.source,
            preservation_weight: self.preservation_weight,
            reason: self.reason@,
        }
    }
}

/// What is said of constraints that were given up.
pub open spec fn removed_models(removed: Seq<RemovedOrderEdge>) -> Seq<RemovedModel> {
    removed.map_values(|r: RemovedOrderEdge| r@)
}

/// What is kept of a constraint that is given up.
pub open spec fn removed_of(e: EdgeModel) -> RemovedModel {
    RemovedModel {
        from: e.from,
        to: e.to,
        source: e.source,
        preservation_weight: e.preservation_weight,
        reason: e.reason,
    }
}

/// Stable node order and all weak constraints given up to obtain it.
#[derive(Debug)]
pub struct OrderResolution {
    pub ordered_ids: Vec<BlockId>,
    pub removed_edges: Vec<RemovedOrderEdge>,
}

/// What identities say.
pub open spec fn id_texts(ids: Seq<BlockId>) -> Seq<Seq<char>> {
    ids.map_values(|id: BlockId| id@)
}

/// The outcome of ordering nodes by constraints.
#[verifier::ext_equal]
pub enum Resolved {
    /// A constraint names a block that is not there.
    Unknown { id: Seq<char> },
    /// Constraints that may not be given up contradict each other.
    Conflict,
    /// Positions of nodes in reading order, and what was given up.
    Ordered { places: Seq<usize>, removed: Seq<RemovedModel> },
}

/// The outcome of ordering nodes by constraints.
pub open spec fn resolved(nodes: Seq<NodeModel>, edges: Seq<EdgeModel>) -> Resolved {
    let kept = normalized(edges);
    let links = links_of(nodes, kept);
    let n = nodes.len() as int;
    match unknown_from(nodes, edges, 0) {
        Some(id) => Resolved::Unknown { id },
        None => match untangled(links, all_active(links), Seq::empty(), n) {
            None => Resolved::Conflict,
            Some((active, gone)) => Resolved::Ordered {
                places: placed_from(links, active, ranks_of(nodes), Seq::empty(), n),
                removed: Seq::new(gone.len(), |i: int| removed_of(kept[gone[i]])),
            },
        },
    }
}

/// The identities of nodes at positions.
pub open spec fn ids_at(nodes: Seq<NodeModel>, places: Seq<usize>) -> Seq<Seq<char>> {
    Seq::new(places.len(), |i: int| nodes[places[i] as int].id)
}

/// Ordering graph of one page, keyed by block identities.
#[derive(Debug)]
pub struct OrderGraph {
    pub nodes: Vec<OrderNode>,
    pub edges: Vec<OrderEdge>,
}

/// The node of a seat.
pub open spec fn node_of(seat: Seat) -> NodeModel {
    NodeModel {
        id: seat.id@,
        bbox: seat.bbox,
        path: match seat.fallback {
            None => Seq::empty(),
            Some(region) => match marked(region@, 'f', 0) {
                None => Seq::empty(),
                Some(path) => path,
            },
        },
        priority: match seat.label_source {
            LabelSource::Model => 0,
            LabelSource::Fallback => 1,
            LabelSource::Heuristic => 2,
            LabelSource::Pdf => 3,
        },
    }
}

/// The nodes of the first `n` seats.
pub open spec fn nodes_upto(seats: Seq<Seat>, n: int) -> Seq<NodeModel>
    decreases n,
{
    if n <= 0 {
        Seq::empty()
    } else {
        with_node(nodes_upto(seats, n - 1), node_of(seats[n - 1]))
    }
}

/// The nodes of seats.
pub open spec fn nodes_of(seats: Seq<Seat>) -> Seq<NodeModel> {
    nodes_upto(seats, seats.len() as int)
}

/// All the constraints between seats.
pub open spec fn edges_of(seats: Seq<Seat>) -> Seq<EdgeModel> {
    let n = seats.len() as int;
    let model = model_edges(Seq::empty(), seats);
    let cut = xy_cut_edges(marginal_edges(model, seats), seats);
    insertion_edges(caption_edges(geometry_edges(cut, seats, n), seats, n), seats)
}

/// Where a node of the given identity is.
fn find_node(nodes: &Vec<OrderNode>, id: &BlockId) -> (at: Option<usize>)
    ensures
        match (at, found_at(node_models(nodes@), id@, 0)) {
            (None, None) => true,
            (Some(at), Some(expected)) => at == expected && at < nodes@.len() && nodes@[at as int]@.id
                == id@,
            _ => false,
        },
{
    let ghost models = node_models(nodes@);
    let mut i: usize = 0;
    while i < nodes.len()
        invariant
            models == node_models(nodes@),
            i <= nodes@.len(),
            found_at(models, id@, 0) == found_at(models, id@, i as int),
        decreases nodes@.len() - i,
    {
        assert(models[i as int] == nodes@[i as int]@);
        if str_same(nodes[i].block_id.as_str(), id.as_str()) {
            return Some(i);
        }
        i = i + 1;
    }
    None
}

/// For each node, how many are taken before it.
fn list_ranks(nodes: &Vec<OrderNode>) -> (ranks: Vec<usize>)
    ensures
        ranks@ == ranks_of(node_models(nodes@)),
{
    let ghost models = node_models(nodes@);
    let n: usize = nodes.len();
    let mut ranks: Vec<usize> = Vec::new();
    let mut i: usize = 0;
    while i < n
        invariant
            models == node_models(nodes@),
            n == nodes@.len(),
            i <= n,
            ranks@ == ranks_of(models).take(i as int),
        decreases n - i,
    {
        let mut count: usize = 0;
        let mut k: usize = 0;
        while k < n
            invariant
                models == node_models(nodes@),
                n == nodes@.len(),
                i < n,
                count <= k <= n,
                count == before_upto(models, models[i as int], k as int),
            decreases n - k,
        {
            assert(models[k as int] == nodes@[k as int]@ && models[i as int]
                == nodes@[i as int]@);
            if nodes[k].precedes(&nodes[i]) {
                count = count + 1;
            }
            k = k + 1;
        }
        ranks.push(count);
        i = i + 1;
        assert(ranks@ =~= ranks_of(models).take(i as int));
    }
    assert(ranks_of(models).take(n as int) =~= ranks_of(models));
    ranks
}

/// Constraints in the order of their keys, the first of each key.
fn normalize(edges: Vec<OrderEdge>) -> (kept: Vec<OrderEdge>)
    ensures
        edge_models(kept@) == normalized(edge_models(edges@)),
{
    proof {
        lemma_sorted_seen(
            edges@,
            edges@.len() as int,
            |e: OrderEdge| e@,
            KeyOrder,
            KeyOrder,
        );
        sorting_orders_and_keeps(edges@, KeyOrder);
    }
    let ghost given = edge_models(edges@);
    let ordered: Vec<OrderEdge> = sort(edges, &KeyOrder);
    let ghost all = edge_models(ordered@);
    assert(all == sorted(given, KeyOrder));
    assert(all.len() == given.len()) by {
        sorting_orders_and_keeps(given, KeyOrder);
    }
    let mut kept: Vec<OrderEdge> = Vec::new();
    assert(edge_models(kept@) =~= Seq::empty());
    let mut i: usize = 0;
    while i < ordered.len()
        invariant
            i <= ordered@.len(),
            all == edge_models(ordered@),
            edge_models(kept@) == first_of_keys(all, i as int),
        decreases ordered@.len() - i,
    {
        let next: &OrderEdge = &ordered[i];
        assert(next@ == all[i as int]);
        let last: usize = kept.len();
        assert(edge_models(kept@).len() == kept@.len());
        let repeated: bool = last > 0 && str_same(
            kept[last - 1].stable_key.as_str(),
            next.stable_key.as_str(),
        );
        proof {
            if last > 0 {
                assert(edge_models(kept@).last() == kept@[last - 1]@);
            }
        }
        if !repeated {
            let ghost before = kept@;
            kept.push(next.copy());
            assert(edge_models(kept@) =~= edge_models(before).push(next@));
        }
        i = i + 1;
    }
    kept
}

/// A constraint kept is one of those given.
proof fn lemma_kept(s: Seq<EdgeModel>, n: int)
    requires
        0 <= n <= s.len(),
    ensures
        first_of_keys(s, n).len() <= n,
        forall|i: int|
            #![trigger first_of_keys(s, n)[i]]
            0 <= i < first_of_keys(s, n).len() ==> exists|k: int|
                0 <= k < n && s[k] == first_of_keys(s, n)[i],
    decreases n,
{
    if n > 0 {
        lemma_kept(s, n - 1);
        let before = first_of_keys(s, n - 1);
        let after = first_of_keys(s, n);
        assert forall|i: int| #![trigger after[i]] 0 <= i < after.len() implies exists|k: int|
            0 <= k < n && s[k] == after[i] by {
            if i < before.len() {
                assert(after[i] == before[i]);
                let k = choose|k: int| 0 <= k < n - 1 && s[k] == before[i];
                assert(s[k] == after[i]);
            } else {
                assert(s[n - 1] == after[i]);
            }
        }
    }
}

/// Every constraint kept was given.
pub proof fn lemma_normalized(edges: Seq<EdgeModel>)
    ensures
        normalized(edges).len() <= edges.len(),
        forall|i: int|
            #![trigger normalized(edges)[i]]
            0 <= i < normalized(edges).len() ==> edges.contains(normalized(edges)[i]),
{
    sorting_orders_and_keeps(edges, KeyOrder);
    let s = sorted(edges, KeyOrder);
    lemma_kept(s, edges.len() as int);
    assert forall|i: int|
        #![trigger normalized(edges)[i]]
        0 <= i < normalized(edges).len() implies edges.contains(normalized(edges)[i]) by {
        let k = choose|k: int| 0 <= k < s.len() && s[k] == normalized(edges)[i];
        assert(s.to_multiset() =~= edges.to_multiset());
        s.to_multiset_ensures();
        edges.to_multiset_ensures();
        assert(s.contains(s[k]));
        assert(s.to_multiset().count(s[k]) > 0);
    }
}

/// Where a node is found, it is.
pub proof fn lemma_found(nodes: Seq<NodeModel>, id: Seq<char>, i: int)
    requires
        0 <= i,
    ensures
        match found_at(nodes, id, i) {
            None => forall|k: int| i <= k < nodes.len() ==> (#[trigger] nodes[k]).id != id,
            Some(at) => i <= at < nodes.len() && nodes[at].id == id,
        },
    decreases nodes.len() - i,
{
    if i < nodes.len() && nodes[i].id != id {
        lemma_found(nodes, id, i + 1);
    }
}

/// Without an unknown endpoint, every endpoint has a node.
proof fn lemma_all_known(nodes: Seq<NodeModel>, edges: Seq<EdgeModel>, i: int, k: int)
    requires
        0 <= i <= k < edges.len(),
        unknown_from(nodes, edges, i) is None,
    ensures
        found_at(nodes, edges[k].from, 0) is Some,
        found_at(nodes, edges[k].to, 0) is Some,
    decreases edges.len() - i,
{
    if i < k {
        lemma_all_known(nodes, edges, i + 1, k);
    }
}

/// Constraints of which every endpoint has a node are between numbered nodes.
pub proof fn lemma_links_within(nodes: Seq<NodeModel>, edges: Seq<EdgeModel>)
    requires
        unknown_from(nodes, edges, 0) is None,
        nodes.len() <= usize::MAX,
    ensures
        links_within(links_of(nodes, normalized(edges)), nodes.len() as int),
{
    let kept = normalized(edges);
    lemma_normalized(edges);
    assert forall|e: int| 0 <= e < kept.len() implies (#[trigger] links_of(nodes, kept)[e]).from
        < nodes.len() && links_of(nodes, kept)[e].to < nodes.len() by {
        assert(edges.contains(kept[e]));
        let k = edges.index_of(kept[e]);
        lemma_all_known(nodes, edges, 0, k);
        lemma_found(nodes, kept[e].from, 0);
        lemma_found(nodes, kept[e].to, 0);
    }
}

/// The identities of nodes at positions.
fn list_ids(nodes: &Vec<OrderNode>, places: &Vec<usize>) -> (ids: Vec<BlockId>)
    requires
        forall|i: int| 0 <= i < places@.len() ==> #[trigger] places@[i] < nodes@.len(),
    ensures
        id_texts(ids@) == ids_at(node_models(nodes@), places@),
{
    let ghost all = ids_at(node_models(nodes@), places@);
    let mut ids: Vec<BlockId> = Vec::new();
    let mut i: usize = 0;
    assert(id_texts(ids@) =~= all.take(0));
    while i < places.len()
        invariant
            all == ids_at(node_models(nodes@), places@),
            forall|i: int| 0 <= i < places@.len() ==> #[trigger] places@[i] < nodes@.len(),
            i <= places@.len(),
            id_texts(ids@) == all.take(i as int),
        decreases places@.len() - i,
    {
        let ghost before = ids@;
        let id: BlockId = nodes[places[i]].block_id.copy();
        ids.push(id);
        assert(id_texts(ids@) =~= id_texts(before).push(id@));
        i = i + 1;
        assert(id_texts(ids@) =~= all.take(i as int));
    }
    assert(all.take(places@.len() as int) =~= all);
    ids
}

/// The endpoints of a constraint kept are those of its link.
pub proof fn lemma_endpoints(nodes: Seq<NodeModel>, edges: Seq<EdgeModel>, e: int)
    requires
        unknown_from(nodes, edges, 0) is None,
        nodes.len() <= usize::MAX,
        0 <= e < normalized(edges).len(),
    ensures
        ({
            let kept = normalized(edges)[e];
            let link = links_of(nodes, normalized(edges))[e];
            link.from < nodes.len() && link.to < nodes.len() && nodes[link.from as int].id
                == kept.from && nodes[link.to as int].id == kept.to
        }),
{
    let kept = normalized(edges);
    lemma_normalized(edges);
    assert(edges.contains(kept[e]));
    let k = edges.index_of(kept[e]);
    lemma_all_known(nodes, edges, 0, k);
    lemma_found(nodes, kept[e].from, 0);
    lemma_found(nodes, kept[e].to, 0);
}

impl OrderGraph {
    /// Whether the nodes stand in the order of their identities, each once.
    pub open spec fn wf(self) -> bool {
        ascending(node_models(self.nodes@))
    }

    /// A graph without nodes.
    pub fn new() -> (graph: OrderGraph)
        ensures
            graph.wf(),
            graph.nodes@.len() == 0,
            graph.edges@.len() == 0,
    {
        OrderGraph { nodes: Vec::new(), edges: Vec::new() }
    }

    /// Registers one node, or replaces the one with the same identity.
    pub fn insert_node(&mut self, node: OrderNode)
        requires
            old(self).wf(),
        ensures
            final(self).wf(),
            node_models(final(self).nodes@) == with_node(node_models(old(self).nodes@), node@),
            final(self).edges == old(self).edges,
    {
        let ghost before = node_models(self.nodes@);
        let ghost x = node@;
        let mut i: usize = 0;
        while i < self.nodes.len() && str_before(
            self.nodes[i].block_id.as_str(),
            node.block_id.as_str(),
        )
            invariant
                before == node_models(self.nodes@),
                self.edges == old(self).edges,
                i <= self.nodes@.len(),
                x == node@,
                slot(before, x.id, 0) == slot(before, x.id, i as int),
            decreases self.nodes@.len() - i,
        {
            assert(before[i as int] == self.nodes@[i as int]@);
            i = i + 1;
        }
        proof {
            if i < self.nodes@.len() {
                assert(before[i as int] == self.nodes@[i as int]@);
            }
            assert(slot(before, x.id, 0) == i);
            lemma_with_node(before, x);
        }
        if i < self.nodes.len() && str_same(
            self.nodes[i].block_id.as_str(),
            node.block_id.as_str(),
        ) {
            self.nodes.set(i, node);
            assert(node_models(self.nodes@) =~= before.update(i as int, x));
        } else {
            self.nodes.insert(i, node);
            assert(node_models(self.nodes@) =~= before.insert(i as int, x));
        }
    }

    /// Registers one constraint; duplicates are dropped before resolution.
    pub fn insert_edge(&mut self, edge: OrderEdge)
        ensures
            final(self).nodes == old(self).nodes,
            final(self).edges@ == old(self).edges@.push(edge),
    {
        self.edges.push(edge);
    }

    /// Builds all the ordering constraints from final unsorted blocks.
    pub fn from_blocks(blocks: &Vec<Block>) -> (graph: OrderGraph)
        ensures
            graph.wf(),
            node_models(graph.nodes@) == nodes_of(seats_of(blocks@)),
            edge_models(graph.edges@) == edges_of(seats_of(blocks@)),
    {
        let seats: Vec<Seat> = list_seats(blocks);
        let mut graph = OrderGraph::new();
        assert(node_models(graph.nodes@) =~= Seq::empty());
        assert(edge_models(graph.edges@) =~= Seq::empty());
        let mut i: usize = 0;
        while i < seats.len()
            invariant
                graph.wf(),
                edge_models(graph.edges@) == Seq::<EdgeModel>::empty(),
                i <= seats@.len(),
                node_models(graph.nodes@) == nodes_upto(seats@, i as int),
            decreases seats@.len() - i,
        {
            let seat: &Seat = &seats[i];
            let xy_path: Option<String> = match &seat.fallback {
                None => None,
                Some(region) => after_mark(region.as_str(), 'f'),
            };
            let source_priority: u8 = match seat.label_source {
                LabelSource::Model => 0,
                LabelSource::Fallback => 1,
                LabelSource::Heuristic => 2,
                LabelSource::Pdf => 3,
            };
            let node = OrderNode {
                block_id: seat.id.copy(),
                bbox: seat.bbox,
                xy_path,
                source_priority,
            };
            assert(node@ =~= node_of(*seat));
            graph.insert_node(node);
            i = i + 1;
        }
        add_model_edges(&mut graph.edges, &seats);
        add_rotated_marginal_edges(&mut graph.edges, &seats);
        add_xy_cut_edges(&mut graph.edges, &seats);
        add_geometry_edges(&mut graph.edges, &seats);
        add_caption_edges(&mut graph.edges, &seats);
        add_fallback_insertion_edges(&mut graph.edges, &seats);
        graph
    }

    /// Resolves cycles by giving up the weakest removable constraint of each
    /// knot, then sorts stably.
    pub fn resolve(self) -> (result: Result<OrderResolution, OrderError>)
        requires
            self.wf(),
        ensures
            ({
                let nodes = node_models(self.nodes@);
                match (resolved(nodes, edge_models(self.edges@)), result) {
                    (Resolved::Unknown { id }, Err(OrderError::UnknownBlock { block_id })) =>
                    block_id@ == id,
                    (Resolved::Conflict, Err(OrderError::InternalOrderConflict)) => true,
                    (Resolved::Ordered { places, removed }, Ok(resolution)) => id_texts(
                        resolution.ordered_ids@,
                    ) == ids_at(nodes, places) && removed_models(resolution.removed_edges@)
                        == removed,
                    _ => false,
                }
            }),
    {
        let ghost nodes = node_models(self.nodes@);
        let ghost edges = edge_models(self.edges@);
        let mut i: usize = 0;
        while i < self.edges.len()
            invariant
                nodes == node_models(self.nodes@),
                edges == edge_models(self.edges@),
                i <= self.edges@.len(),
                unknown_from(nodes, edges, 0) == unknown_from(nodes, edges, i as int),
            decreases self.edges@.len() - i,
        {
            assert(edges[i as int] == self.edges@[i as int]@);
            if find_node(&self.nodes, &self.edges[i].from).is_none() {
                return Err(
                    OrderError::UnknownBlock { block_id: self.edges[i].from.copy().text },
                );
            }
            if find_node(&self.nodes, &self.edges[i].to).is_none() {
                return Err(OrderError::UnknownBlock { block_id: self.edges[i].to.copy().text });
            }
            i = i + 1;
        }
        let kept: Vec<OrderEdge> = normalize(self.edges);
        let ghost constraints = normalized(edges);
        assert(constraints.len() == kept@.len());
        let mut links: Vec<Link> = Vec::new();
        let n: usize = self.nodes.len();
        proof {
            lemma_links_within(nodes, edges);
        }
        let mut e: usize = 0;
        while e < kept.len()
            invariant
                nodes == node_models(self.nodes@),
                n == self.nodes@.len(),
                constraints == edge_models(kept@),
                constraints == normalized(edges),
                unknown_from(nodes, edges, 0) is None,
                e <= kept@.len(),
                links@ == links_of(nodes, constraints).take(e as int),
            decreases kept@.len() - e,
        {
            let c: &OrderEdge = &kept[e];
            assert(constraints[e as int] == c@);
            proof {
                lemma_normalized(edges);
                assert(edges.contains(constraints[e as int]));
                let k = edges.index_of(constraints[e as int]);
                lemma_all_known(nodes, edges, 0, k);
            }
            let from: usize = find_node(&self.nodes, &c.from).unwrap();
            let to: usize = find_node(&self.nodes, &c.to).unwrap();
            links.push(
                Link {
                    from,
                    to,
                    strong: c.source.is_strong(),
                    weight: c.preservation_weight,
                    rank: c.source.rank(),
                },
            );
            e = e + 1;
            assert(links@ =~= links_of(nodes, constraints).take(e as int));
        }
        assert(links@ =~= links_of(nodes, constraints));
        let (active, gone): (Vec<bool>, Vec<usize>) = match untangle(&links, n) {
            None => {
                return Err(OrderError::InternalOrderConflict);
            },
            Some(left) => left,
        };
        let ranks: Vec<usize> = list_ranks(&self.nodes);
        let places: Vec<usize> = place(&links, &active, &ranks);
        proof {
            untangling_removes_cycles(links@, all_active(links@), Seq::empty(), n as int);
            placement_is_complete(links@, active@, ranks@, Seq::empty(), n as int);
        }
        let ordered_ids: Vec<BlockId> = list_ids(&self.nodes, &places);
        let mut removed_edges: Vec<RemovedOrderEdge> = Vec::new();
        let ghost want = Seq::new(
            numbers(gone@).len(),
            |i: int| removed_of(constraints[numbers(gone@)[i]]),
        );
        let mut g: usize = 0;
        assert(removed_models(removed_edges@) =~= want.take(0));
        while g < gone.len()
            invariant
                constraints == edge_models(kept@),
                kept@.len() == links@.len(),
                forall|i: int| 0 <= i < gone@.len() ==> #[trigger] gone@[i] < links@.len(),
                want == Seq::new(
                    numbers(gone@).len(),
                    |i: int| removed_of(constraints[numbers(gone@)[i]]),
                ),
                g <= gone@.len(),
                removed_models(removed_edges@) == want.take(g as int),
            decreases gone@.len() - g,
        {
            let c: &OrderEdge = &kept[gone[g]];
            assert(constraints[gone@[g as int] as int] == c@);
            let note = RemovedOrderEdge {
                from: c.from.copy(),
                to: c.to.copy(),
                source: c.source,
                preservation_weight: c.preservation_weight,
                reason: c.reason.clone(),
            };
            assert(note@ =~= want[g as int]);
            let ghost before = removed_edges@;
            removed_edges.push(note);
            g = g + 1;
            assert(removed_models(removed_edges@) =~= removed_models(before).push(note@));
            assert(removed_models(removed_edges@) =~= want.take(g as int));
        }
        assert(want.take(gone@.len() as int) =~= want);
        Ok(OrderResolution { ordered_ids, removed_edges })
    }
}

impl Default for OrderGraph {
    fn default() -> (graph: OrderGraph)
        ensures
            graph.wf(),
            graph.nodes@.len() == 0,
            graph.edges@.len() == 0,
    {
        OrderGraph::new()
    }
}

} // verus!
