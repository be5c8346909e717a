//! Blocks moved into their reading order, and what holds of that order.

use vstd::prelude::*;

use crate::blocks::{Block, BlockId};
use crate::chars::str_same;
use crate::error::OrderError;
use crate::fusion::edges::{
    caption_edge, caption_edges, chain_upto, edge, geometry_edges, insertion_upto, last_main_upto,
    marginal_edges, nearest_upto, neighbour_edges, object_upto, picked_upto, seat_of, seats_of,
    with_edge, xy_cut_edges, EdgeModel, EdgeSource, Seat, SeatOrder,
};
use crate::fusion::model_edges::{
    inner_edges, inner_upto, model_edges, of_region, outer_upto, region_names, region_seats,
    spans_upto, RegionSpan, SpanOrder,
};
use crate::fusion::order::{
    ascending, edges_of, found_at, id_texts, ids_at, lemma_endpoints, lemma_found,
    lemma_ids_tell_apart, lemma_links_within, lemma_slot, lemma_with_node, links_of, node_of,
    nodes_of, nodes_upto, normalized, ranks_of, removed_models, removed_of, resolved, slot,
    unknown_from,
    with_node, NodeModel, OrderGraph, OrderResolution, RemovedOrderEdge, Resolved,
};
use crate::fusion::precedence::{all_active, untangled};
use crate::fusion::precedence_laws::{
    acyclic, irreducible_iff_strong_cycle, placement_is_complete, strong_only,
    untangling_removes_cycles,
};
use crate::sorting::{sorted, sorting_orders_and_keeps, Order};

verus! {

/// Ordered blocks and the evidence of constraints given up.
#[derive(Debug)]
pub struct OrderedBlocks {
    pub blocks: Vec<Block>,
    pub removed_edges: Vec<RemovedOrderEdge>,
}

/// The first identity, from `i` on, that an earlier block already has.
pub open spec fn repeated_from(blocks: Seq<Block>, i: int) -> Option<Seq<char>>
    decreases blocks.len() - i,
{
    if i >= blocks.len() {
        None
    } else if exists|k: int| 0 <= k < i && (#[trigger] blocks[k]).id@ == blocks[i].id@ {
        Some(blocks[i].id@)
    } else {
        repeated_from(blocks, i + 1)
    }
}

/// Where the block of an identity is, from `i` on.
pub open spec fn block_at(blocks: Seq<Block>, id: Seq<char>, i: int) -> int
    decreases blocks.len() - i,
{
    if i >= blocks.len() || blocks[i].id@ == id {
        i
    } else {
        block_at(blocks, id, i + 1)
    }
}

/// A position as a final order.
pub open spec fn ordinal(k: int) -> u32 {
    if k <= u32::MAX {
        k as u32
    } else {
        u32::MAX
    }
}

/// The blocks of identities, each with its position.
pub open spec fn arranged(blocks: Seq<Block>, ids: Seq<Seq<char>>) -> Seq<Block> {
    Seq::new(
        ids.len(),
        |k: int| Block { final_order: ordinal(k), ..blocks[block_at(blocks, ids[k], 0)] },
    )
}

/// Facts about where the block of an identity is.
proof fn lemma_block_at(blocks: Seq<Block>, id: Seq<char>, i: int, k: int)
    requires
        0 <= i <= k < blocks.len(),
        blocks[k].id@ == id,
    ensures
        i <= block_at(blocks, id, i) <= k,
        blocks[block_at(blocks, id, i)].id@ == id,
    decreases blocks.len() - i,
{
    if blocks[i].id@ != id {
        lemma_block_at(blocks, id, i + 1, k);
    }
}

/// Whether a node has an identity.
pub open spec fn is_noded(nodes: Seq<NodeModel>, id: Seq<char>) -> bool {
    exists|i: int| 0 <= i < nodes.len() && (#[trigger] nodes[i]).id == id
}

/// Whether one of the first `n` seats has an identity.
pub open spec fn seated_upto(seats: Seq<Seat>, id: Seq<char>, n: int) -> bool {
    exists|k: int| 0 <= k < n && (#[trigger] seats[k]).id@ == id
}

/// One more node adds its identity alone.
proof fn lemma_noded(nodes: Seq<NodeModel>, x: NodeModel, id: Seq<char>)
    ensures
        is_noded(with_node(nodes, x), id) <==> is_noded(nodes, id) || id == x.id,
{
    let after = with_node(nodes, x);
    let at = slot(nodes, x.id, 0);
    lemma_slot(nodes, x.id, 0);
    let same = at < nodes.len() && nodes[at].id == x.id;
    assert(after[at].id == x.id);
    if is_noded(nodes, id) {
        let p = choose|p: int| 0 <= p < nodes.len() && (#[trigger] nodes[p]).id == id;
        let i = if same || p < at {
            p
        } else {
            p + 1
        };
        assert(after[i].id == id);
    }
    if is_noded(after, id) {
        let i = choose|i: int| 0 <= i < after.len() && (#[trigger] after[i]).id == id;
        if i != at {
            let p = if same || i < at {
                i
            } else {
                i - 1
            };
            assert(nodes[p].id == id);
        }
    }
}

/// The nodes of the first `n` seats have their identities, and no others.
proof fn lemma_nodes_from_seats(seats: Seq<Seat>, id: Seq<char>, n: int)
    requires
        0 <= n <= seats.len(),
    ensures
        is_noded(nodes_upto(seats, n), id) <==> seated_upto(seats, id, n),
    decreases n,
{
    if n > 0 {
        lemma_nodes_from_seats(seats, id, n - 1);
        lemma_noded(nodes_upto(seats, n - 1), node_of(seats[n - 1]), id);
        if seated_upto(seats, id, n) {
            let k = choose|k: int| 0 <= k < n && (#[trigger] seats[k]).id@ == id;
            if k < n - 1 {
                assert(seated_upto(seats, id, n - 1));
            }
        }
        if seated_upto(seats, id, n - 1) {
            let k = choose|k: int| 0 <= k < n - 1 && (#[trigger] seats[k]).id@ == id;
            assert(seats[k].id@ == id);
        }
        assert(id == seats[n - 1].id@ ==> seated_upto(seats, id, n));
    } else {
        assert(!is_noded(nodes_upto(seats, n), id));
    }
}

/// The nodes of the first `n` seats stand in order, at most one for each seat.
pub proof fn lemma_nodes_ascend(seats: Seq<Seat>, n: int)
    requires
        0 <= n <= seats.len(),
    ensures
        nodes_upto(seats, n).len() <= n,
        ascending(nodes_upto(seats, n)),
    decreases n,
{
    if n > 0 {
        lemma_nodes_ascend(seats, n - 1);
        let x = node_of(seats[n - 1]);
        lemma_slot(nodes_upto(seats, n - 1), x.id, 0);
        lemma_with_node(nodes_upto(seats, n - 1), x);
    }
}

/// The first identity that an earlier block already has.
fn find_repeated(blocks: &Vec<Block>) -> (found: Option<BlockId>)
    ensures
        match found {
            None => repeated_from(blocks@, 0) is None,
            Some(id) => repeated_from(blocks@, 0) == Some(id@),
        },
{
    let mut i: usize = 0;
    while i < blocks.len()
        invariant
            i <= blocks@.len(),
            repeated_from(blocks@, 0) == repeated_from(blocks@, i as int),
        decreases blocks@.len() - i,
    {
        let mut k: usize = 0;
        while k < i
            invariant
                i < blocks@.len(),
                k <= i,
                repeated_from(blocks@, 0) == repeated_from(blocks@, i as int),
                forall|p: int| 0 <= p < k ==> (#[trigger] blocks@[p]).id@ != blocks@[i as int].id@,
            decreases i - k,
        {
            if str_same(blocks[k].id.as_str(), blocks[i].id.as_str()) {
                assert(blocks@[k as int].id@ == blocks@[i as int].id@);
                return Some(blocks[i].id.copy());
            }
            k = k + 1;
        }
        i = i + 1;
    }
    None
}

/// Without a repetition, identities tell blocks apart.
proof fn lemma_no_repeat(blocks: Seq<Block>, i: int, a: int, b: int)
    requires
        0 <= i <= b < blocks.len(),
        0 <= a < b,
        repeated_from(blocks, i) is None,
    ensures
        blocks[a].id@ != blocks[b].id@,
    decreases blocks.len() - i,
{
    if i < b {
        lemma_no_repeat(blocks, i + 1, a, b);
    } else if blocks[a].id@ == blocks[b].id@ {
        assert(exists|k: int| 0 <= k < i && (#[trigger] blocks[k]).id@ == blocks[i].id@);
    }
}

/// Where the block of an identity is.
fn find_block(ids: &Vec<BlockId>, id: &BlockId, Ghost(blocks): Ghost<Seq<Block>>) -> (at: usize)
    requires
        ids@.len() == blocks.len(),
        forall|k: int| 0 <= k < ids@.len() ==> (#[trigger] ids@[k])@ == blocks[k].id@,
    ensures
        at == block_at(blocks, id@, 0),
        at <= ids@.len(),
{
    let mut i: usize = 0;
    while i < ids.len()
        invariant
            ids@.len() == blocks.len(),
            forall|k: int| 0 <= k < ids@.len() ==> (#[trigger] ids@[k])@ == blocks[k].id@,
            i <= ids@.len(),
            block_at(blocks, id@, 0) == block_at(blocks, id@, i as int),
        decreases ids@.len() - i,
    {
        assert(ids@[i as int]@ == blocks[i as int].id@);
        if str_same(ids[i].as_str(), id.as_str()) {
            return i;
        }
        i = i + 1;
    }
    i
}

/// Moves the blocks of identities into the order of the identities.
fn arrange(blocks: Vec<Block>, ids: &Vec<BlockId>) -> (ordered: Vec<Block>)
    requires
        repeated_from(blocks@, 0) is None,
        id_texts(ids@).no_duplicates(),
        forall|i: int| 0 <= i < ids@.len() ==> exists|k: int|
            0 <= k < blocks@.len() && (#[trigger] blocks@[k]).id@ == (#[trigger] ids@[i])@,
    ensures
        ordered@ == arranged(blocks@, id_texts(ids@)),
{
    let ghost given = blocks@;
    let ghost names = id_texts(ids@);
    let mut known: Vec<BlockId> = Vec::new();
    let mut i: usize = 0;
    while i < blocks.len()
        invariant
            given == blocks@,
            i <= blocks@.len(),
            known@.len() == i,
            forall|k: int| 0 <= k < i ==> (#[trigger] known@[k])@ == given[k].id@,
        decreases blocks@.len() - i,
    {
        known.push(blocks[i].id.copy());
        i = i + 1;
    }
    let mut slots: Vec<Option<Block>> = Vec::new();
    let n: usize = blocks.len();
    let mut source: Vec<Block> = blocks;
    while source.len() > 0
        invariant
            n == given.len(),
            source@.len() <= n,
            source@ == given.take(source@.len() as int),
            slots@.len() == n - source@.len(),
            forall|k: int|
                0 <= k < slots@.len() ==> #[trigger] slots@[k] == Some(given[n - 1 - k]),
        decreases source@.len(),
    {
        let ghost before = source@;
        let block: Block = source.pop().unwrap();
        assert(block == given[before.len() - 1]);
        slots.push(Some(block));
        assert(source@ =~= given.take(source@.len() as int));
    }
    let ghost reached = |k: int| block_at(given, names[k], 0);
    let mut ordered: Vec<Block> = Vec::new();
    let mut k: usize = 0;
    assert(ordered@ =~= arranged(given, names).take(0));
    while k < ids.len()
        invariant
            n == given.len(),
            names == id_texts(ids@),
            names.no_duplicates(),
            repeated_from(given, 0) is None,
            forall|i: int| 0 <= i < ids@.len() ==> exists|k: int|
                0 <= k < given.len() && (#[trigger] given[k]).id@ == (#[trigger] ids@[i])@,
            known@.len() == given.len(),
            forall|k: int| 0 <= k < n ==> (#[trigger] known@[k])@ == given[k].id@,
            reached == (|k: int| block_at(given, names[k], 0)),
            slots@.len() == n,
            k <= ids@.len(),
            forall|j: int|
                0 <= j < n ==> #[trigger] slots@[j] == Some(given[n - 1 - j]) || exists|p: int|
                    0 <= p < k && #[trigger] reached(p) == n - 1 - j,
            ordered@ == arranged(given, names).take(k as int),
        decreases ids@.len() - k,
    {
        let at: usize = find_block(&known, &ids[k], Ghost(given));
        proof {
            assert(names[k as int] == ids@[k as int]@);
            let b = choose|b: int|
                0 <= b < given.len() && (#[trigger] given[b]).id@ == ids@[k as int]@;
            lemma_block_at(given, names[k as int], 0, b);
            assert(reached(k as int) == at);
            assert(at < n);
            assert forall|p: int| 0 <= p < k implies #[trigger] reached(p) != at by {
                assert(names[p] == ids@[p]@);
                let c = choose|c: int|
                    0 <= c < given.len() && (#[trigger] given[c]).id@ == ids@[p]@;
                lemma_block_at(given, names[p], 0, c);
                assert(names[p] != names[k as int]);
            }
            assert(slots@[n - 1 - at] == Some(given[at as int]));
        }
        let ghost held = slots@;
        let mut block: Block = slots[n - 1 - at].take().unwrap();
        assert(block == given[at as int]);
        block.final_order = if k <= u32::MAX as usize {
            k as u32
        } else {
            u32::MAX
        };
        assert(block == arranged(given, names)[k as int]);
        ordered.push(block);
        proof {
            assert forall|j: int| 0 <= j < n implies #[trigger] slots@[j] == Some(
                given[n - 1 - j],
            ) || exists|p: int| 0 <= p < k + 1 && #[trigger] reached(p) == n - 1 - j by {
                if j == n - 1 - at {
                    assert(reached(k as int) == n - 1 - j);
                } else {
                    assert(slots@[j] == held[j]);
                    if held[j] != Some(given[n - 1 - j]) {
                        let p = choose|p: int| 0 <= p < k && #[trigger] reached(p) == n - 1 - j;
                        assert(reached(p) == n - 1 - j);
                    }
                }
            }
        }
        k = k + 1;
        assert(ordered@ =~= arranged(given, names).take(k as int));
    }
    assert(arranged(given, names).take(names.len() as int) =~= arranged(given, names));
    ordered
}

/// Identities at distinct positions of nodes in order are distinct.
pub proof fn lemma_ids_distinct(nodes: Seq<NodeModel>, places: Seq<usize>)
    requires
        ascending(nodes),
        places.no_duplicates(),
        forall|i: int| 0 <= i < places.len() ==> #[trigger] places[i] < nodes.len(),
    ensures
        ids_at(nodes, places).no_duplicates(),
{
    let ids = ids_at(nodes, places);
    assert forall|i: int, j: int|
        0 <= i < ids.len() && 0 <= j < ids.len() && i != j implies ids[i] != ids[j] by {
        if ids[i] == ids[j] {
            lemma_ids_tell_apart(nodes, places[i] as int, places[j] as int);
        }
    }
}

/// Whether constraints only name blocks of seats.
pub open spec fn names_seats(edges: Seq<EdgeModel>, seats: Seq<Seat>) -> bool {
    forall|e: int| #![trigger edges[e]] 0 <= e < edges.len() ==> is_seated(seats, edges[e].from) && is_seated(seats, edges[e].to)
}

/// Whether an identity is that of a seat.
pub open spec fn is_seated(seats: Seq<Seat>, id: Seq<char>) -> bool {
    exists|k: int| 0 <= k < seats.len() && (#[trigger] seats[k]).id@ == id
}

/// Whether all of a list are seats of another.
spec fn within(s: Seq<Seat>, seats: Seq<Seat>) -> bool {
    forall|i: int| 0 <= i < s.len() ==> is_seated(seats, (#[trigger] s[i]).id@)
}

proof fn lemma_with_edge(edges: Seq<EdgeModel>, e: EdgeModel, seats: Seq<Seat>)
    requires
        names_seats(edges, seats),
        is_seated(seats, e.from),
        is_seated(seats, e.to),
    ensures
        names_seats(with_edge(edges, e), seats),
{
    let after = with_edge(edges, e);
    assert forall|i: int| #![trigger after[i]] 0 <= i < after.len() implies is_seated(seats, after[i].from)
        && is_seated(seats, after[i].to) by {
        if i < edges.len() {
            assert(after[i] == edges[i]);
        }
    }
}

proof fn lemma_picked(seats: Seq<Seat>, want: spec_fn(Seat) -> bool, n: int)
    requires
        0 <= n <= seats.len(),
    ensures
        within(picked_upto(seats, want, n), seats),
    decreases n,
{
    if n > 0 {
        lemma_picked(seats, want, n - 1);
        let before = picked_upto(seats, want, n - 1);
        let after = picked_upto(seats, want, n);
        assert forall|i: int| 0 <= i < after.len() implies is_seated(
            seats,
            (#[trigger] after[i]).id@,
        ) by {
            if i < before.len() {
                assert(after[i] == before[i]);
            } else {
                assert(seats[n - 1].id@ == after[i].id@);
            }
        }
    }
}

proof fn lemma_sorted_within(s: Seq<Seat>, seats: Seq<Seat>, order: SeatOrder)
    requires
        within(s, seats),
    ensures
        sorted(s, order).len() == s.len(),
        within(sorted(s, order), seats),
{
    sorting_orders_and_keeps(s, order);
    let t = sorted(s, order);
    s.to_multiset_ensures();
    t.to_multiset_ensures();
    assert forall|i: int| 0 <= i < t.len() implies is_seated(seats, (#[trigger] t[i]).id@) by {
        assert(t.contains(t[i]));
        assert(t.to_multiset().count(t[i]) > 0);
        assert(s.contains(t[i]));
        let k = s.index_of(t[i]);
        assert(is_seated(seats, s[k].id@));
    }
}

proof fn lemma_chain(
    edges: Seq<EdgeModel>,
    s: Seq<Seat>,
    source: EdgeSource,
    reason: Seq<char>,
    n: int,
    seats: Seq<Seat>,
)
    requires
        names_seats(edges, seats),
        within(s, seats),
        n <= s.len(),
    ensures
        names_seats(chain_upto(edges, s, source, reason, n), seats),
    decreases n,
{
    if n > 1 {
        lemma_chain(edges, s, source, reason, n - 1, seats);
        assert(is_seated(seats, s[n - 2].id@) && is_seated(seats, s[n - 1].id@));
        lemma_with_edge(
            chain_upto(edges, s, source, reason, n - 1),
            edge(s[n - 2].id@, s[n - 1].id@, source, reason, None),
            seats,
        );
    }
}

proof fn lemma_inner(edges: Seq<EdgeModel>, s: Seq<Seat>, n: int, seats: Seq<Seat>)
    requires
        names_seats(edges, seats),
        within(s, seats),
        n <= s.len(),
    ensures
        names_seats(inner_upto(edges, s, n), seats),
    decreases n,
{
    if n > 1 {
        lemma_inner(edges, s, n - 1, seats);
        assert(is_seated(seats, s[n - 2].id@) && is_seated(seats, s[n - 1].id@));
        let all = inner_upto(edges, s, n);
        let before = inner_upto(edges, s, n - 1);
        if all.len() > before.len() {
            lemma_with_edge(before, all.last(), seats);
        }
    }
}

proof fn lemma_region(seats: Seq<Seat>, name: Seq<char>)
    ensures
        within(region_seats(seats, name), seats),
{
    lemma_picked(seats, of_region(name), seats.len() as int);
    lemma_sorted_within(
        picked_upto(seats, of_region(name), seats.len() as int),
        seats,
        SeatOrder::Corner,
    );
}

proof fn lemma_inner_edges(
    edges: Seq<EdgeModel>,
    seats: Seq<Seat>,
    names: Seq<Seq<char>>,
    n: int,
)
    requires
        names_seats(edges, seats),
    ensures
        names_seats(inner_edges(edges, seats, names, n), seats),
    decreases n,
{
    if n > 0 {
        lemma_inner_edges(edges, seats, names, n - 1);
        let s = region_seats(seats, names[n - 1]);
        lemma_region(seats, names[n - 1]);
        lemma_inner(inner_edges(edges, seats, names, n - 1), s, s.len() as int, seats);
    }
}

/// Whether spans only name blocks of seats.
spec fn spans_seated(spans: Seq<RegionSpan>, seats: Seq<Seat>) -> bool {
    forall|i: int| #![trigger spans[i]] 0 <= i < spans.len() ==> is_seated(seats, spans[i].first@) && is_seated(
        seats,
        spans[i].last@,
    )
}

proof fn lemma_spans(seats: Seq<Seat>, names: Seq<Seq<char>>, n: int)
    ensures
        spans_seated(spans_upto(seats, names, n), seats),
    decreases n,
{
    if n > 0 {
        lemma_spans(seats, names, n - 1);
        let before = spans_upto(seats, names, n - 1);
        let after = spans_upto(seats, names, n);
        let s = region_seats(seats, names[n - 1]);
        lemma_region(seats, names[n - 1]);
        assert forall|i: int| #![trigger after[i]] 0 <= i < after.len() implies is_seated(seats, after[i].first@)
            && is_seated(seats, after[i].last@) by {
            if i < before.len() {
                assert(after[i] == before[i]);
            } else {
                assert(s.len() > 0);
                assert(is_seated(seats, s[0].id@));
                assert(is_seated(seats, s[s.len() - 1].id@));
            }
        }
    }
}

proof fn lemma_outer(edges: Seq<EdgeModel>, spans: Seq<RegionSpan>, n: int, seats: Seq<Seat>)
    requires
        names_seats(edges, seats),
        spans_seated(spans, seats),
        n <= spans.len(),
    ensures
        names_seats(outer_upto(edges, spans, n), seats),
    decreases n,
{
    if n > 1 {
        lemma_outer(edges, spans, n - 1, seats);
        assert(is_seated(seats, spans[n - 2].last@) && is_seated(seats, spans[n - 1].first@));
        let all = outer_upto(edges, spans, n);
        let before = outer_upto(edges, spans, n - 1);
        if all.len() > before.len() {
            lemma_with_edge(before, all.last(), seats);
        }
    }
}

proof fn lemma_model(edges: Seq<EdgeModel>, seats: Seq<Seat>)
    requires
        names_seats(edges, seats),
    ensures
        names_seats(model_edges(edges, seats), seats),
{
    let names = region_names(seats);
    let n = names.len() as int;
    let list = spans_upto(seats, names, n);
    let spans = sorted(list, SpanOrder);
    lemma_inner_edges(edges, seats, names, n);
    lemma_spans(seats, names, n);
    sorting_orders_and_keeps(list, SpanOrder);
    list.to_multiset_ensures();
    spans.to_multiset_ensures();
    assert forall|i: int| #![trigger spans[i]] 0 <= i < spans.len() implies is_seated(seats, spans[i].first@)
        && is_seated(seats, spans[i].last@) by {
        assert(spans.contains(spans[i]));
        assert(spans.to_multiset().count(spans[i]) > 0);
        assert(list.contains(spans[i]));
        let k = list.index_of(spans[i]);
        assert(list[k] == spans[i]);
    }
    lemma_outer(inner_edges(edges, seats, names, n), spans, spans.len() as int, seats);
}

proof fn lemma_last_main(s: Seq<Seat>, n: int)
    requires
        n <= s.len(),
    ensures
        last_main_upto(s, n) matches Some(at) ==> 0 <= at < n,
    decreases n,
{
    if n > 0 {
        lemma_last_main(s, n - 1);
    }
}

proof fn lemma_nearest(s: Seq<Seat>, source: Seat, below: bool, n: int)
    requires
        n <= s.len(),
    ensures
        nearest_upto(s, source, below, n) matches Some(at) ==> 0 <= at < n,
    decreases n,
{
    if n > 0 {
        lemma_nearest(s, source, below, n - 1);
    }
}

proof fn lemma_object(s: Seq<Seat>, caption: Seat, n: int)
    requires
        n <= s.len(),
    ensures
        object_upto(s, caption, n) matches Some(at) ==> 0 <= at < n,
    decreases n,
{
    if n > 0 {
        lemma_object(s, caption, n - 1);
    }
}

proof fn lemma_seated(seats: Seq<Seat>, k: int)
    requires
        0 <= k < seats.len(),
    ensures
        is_seated(seats, seats[k].id@),
{
}

proof fn lemma_marginal(edges: Seq<EdgeModel>, seats: Seq<Seat>)
    requires
        names_seats(edges, seats),
    ensures
        names_seats(marginal_edges(edges, seats), seats),
{
    let n = seats.len() as int;
    let want = |x: Seat| x.marginal;
    let list = picked_upto(seats, want, n);
    lemma_picked(seats, want, n);
    lemma_sorted_within(list, seats, SeatOrder::Corner);
    let m = sorted(list, SeatOrder::Corner);
    if m.len() > 0 {
        assert(is_seated(seats, m[0].id@));
        lemma_last_main(seats, n);
        let first = match last_main_upto(seats, n) {
            None => edges,
            Some(at) => with_edge(
                edges,
                edge(
                    seats[at].id@,
                    m[0].id@,
                    EdgeSource::StrongVertical,
                    "main flow before rotated marginal content"@,
                    None,
                ),
            ),
        };
        if let Some(at) = last_main_upto(seats, n) {
            lemma_seated(seats, at);
            lemma_with_edge(
                edges,
                edge(
                    seats[at].id@,
                    m[0].id@,
                    EdgeSource::StrongVertical,
                    "main flow before rotated marginal content"@,
                    None,
                ),
                seats,
            );
        }
        lemma_chain(
            first,
            m,
            EdgeSource::IntraRegion,
            "rotated marginal content order"@,
            m.len() as int,
            seats,
        );
    }
}

proof fn lemma_xy_cut(edges: Seq<EdgeModel>, seats: Seq<Seat>)
    requires
        names_seats(edges, seats),
    ensures
        names_seats(xy_cut_edges(edges, seats), seats),
{
    let want = |x: Seat| x.fallback is Some;
    let list = picked_upto(seats, want, seats.len() as int);
    lemma_picked(seats, want, seats.len() as int);
    lemma_sorted_within(list, seats, SeatOrder::Fallback);
    let s = sorted(list, SeatOrder::Fallback);
    lemma_chain(
        edges,
        s,
        EdgeSource::XyCut,
        "adjacent residual XY-cut leaves"@,
        s.len() as int,
        seats,
    );
}

proof fn lemma_neighbours(edges: Seq<EdgeModel>, seats: Seq<Seat>, k: int)
    requires
        names_seats(edges, seats),
        0 <= k < seats.len(),
    ensures
        names_seats(neighbour_edges(edges, seats, seats[k]), seats),
{
    let n = seats.len() as int;
    let source = seats[k];
    lemma_seated(seats, k);
    lemma_nearest(seats, source, true, n);
    lemma_nearest(seats, source, false, n);
    let first = match nearest_upto(seats, source, true, n) {
        None => edges,
        Some(at) => with_edge(
            edges,
            edge(
                source.id@,
                seats[at].id@,
                EdgeSource::StrongVertical,
                "nearest non-overlapping vertical geometry"@,
                None,
            ),
        ),
    };
    if let Some(at) = nearest_upto(seats, source, true, n) {
        lemma_seated(seats, at);
        lemma_with_edge(
            edges,
            edge(
                source.id@,
                seats[at].id@,
                EdgeSource::StrongVertical,
                "nearest non-overlapping vertical geometry"@,
                None,
            ),
            seats,
        );
    }
    if let Some(at) = nearest_upto(seats, source, false, n) {
        lemma_seated(seats, at);
        lemma_with_edge(
            first,
            edge(
                source.id@,
                seats[at].id@,
                EdgeSource::BandHorizontal,
                "nearest same-band left-to-right geometry"@,
                None,
            ),
            seats,
        );
    }
}

proof fn lemma_geometry(edges: Seq<EdgeModel>, seats: Seq<Seat>, n: int)
    requires
        names_seats(edges, seats),
        n <= seats.len(),
    ensures
        names_seats(geometry_edges(edges, seats, n), seats),
    decreases n,
{
    if n > 0 {
        lemma_geometry(edges, seats, n - 1);
        lemma_neighbours(geometry_edges(edges, seats, n - 1), seats, n - 1);
    }
}

proof fn lemma_captions(edges: Seq<EdgeModel>, seats: Seq<Seat>, n: int)
    requires
        names_seats(edges, seats),
        n <= seats.len(),
    ensures
        names_seats(caption_edges(edges, seats, n), seats),
    decreases n,
{
    if n > 0 {
        lemma_captions(edges, seats, n - 1);
        let before = caption_edges(edges, seats, n - 1);
        let caption = seats[n - 1];
        lemma_seated(seats, n - 1);
        lemma_object(seats, caption, seats.len() as int);
        let after = caption_edge(before, seats, caption);
        if let Some(at) = object_upto(seats, caption, seats.len() as int) {
            lemma_seated(seats, at);
            if after.len() > before.len() {
                lemma_with_edge(before, after.last(), seats);
            }
        }
    }
}

proof fn lemma_insertion(edges: Seq<EdgeModel>, s: Seq<Seat>, n: int, seats: Seq<Seat>)
    requires
        names_seats(edges, seats),
        within(s, seats),
        n <= s.len(),
    ensures
        names_seats(insertion_upto(edges, s, n), seats),
    decreases n,
{
    if n > 1 {
        lemma_insertion(edges, s, n - 1, seats);
        assert(is_seated(seats, s[n - 2].id@) && is_seated(seats, s[n - 1].id@));
        let before = insertion_upto(edges, s, n - 1);
        let after = insertion_upto(edges, s, n);
        if after.len() > before.len() {
            lemma_with_edge(before, after.last(), seats);
        }
    }
}

proof fn lemma_unknown(nodes: Seq<NodeModel>, edges: Seq<EdgeModel>, i: int)
    requires
        0 <= i,
        forall|e: int|
            #![trigger edges[e]]
            0 <= e < edges.len() ==> found_at(nodes, edges[e].from, 0) is Some && found_at(
                nodes,
                edges[e].to,
                0,
            ) is Some,
    ensures
        unknown_from(nodes, edges, i) is None,
    decreases edges.len() - i,
{
    if i < edges.len() {
        assert(found_at(nodes, edges[i].from, 0) is Some);
        lemma_unknown(nodes, edges, i + 1);
    }
}

proof fn lemma_found_seated(seats: Seq<Seat>, id: Seq<char>)
    requires
        is_seated(seats, id),
    ensures
        found_at(nodes_of(seats), id, 0) is Some,
{
    let nodes = nodes_of(seats);
    lemma_nodes_from_seats(seats, id, seats.len() as int);
    assert(seated_upto(seats, id, seats.len() as int));
    lemma_found(nodes, id, 0);
    let i = choose|i: int| 0 <= i < nodes.len() && (#[trigger] nodes[i]).id == id;
    assert(nodes[i].id == id);
}

/// The identity of a node is that of a seat.
proof fn lemma_node_seated(seats: Seq<Seat>, i: int) -> (k: int)
    requires
        0 <= i < nodes_of(seats).len(),
    ensures
        0 <= k < seats.len(),
        seats[k].id@ == nodes_of(seats)[i].id,
{
    let id = nodes_of(seats)[i].id;
    lemma_nodes_from_seats(seats, id, seats.len() as int);
    assert(is_noded(nodes_of(seats), id));
    choose|k: int| 0 <= k < seats.len() && (#[trigger] seats[k]).id@ == id
}

/// The constraints between the blocks of a page name no block that is not there.
pub proof fn constraints_name_blocks(seats: Seq<Seat>)
    ensures
        names_seats(edges_of(seats), seats),
        unknown_from(nodes_of(seats), edges_of(seats), 0) is None,
{
    let n = seats.len() as int;
    let none = Seq::<EdgeModel>::empty();
    assert(names_seats(none, seats));
    lemma_model(none, seats);
    let model = model_edges(none, seats);
    lemma_marginal(model, seats);
    lemma_xy_cut(marginal_edges(model, seats), seats);
    let cut = xy_cut_edges(marginal_edges(model, seats), seats);
    lemma_geometry(cut, seats, n);
    lemma_captions(geometry_edges(cut, seats, n), seats, n);
    let all = caption_edges(geometry_edges(cut, seats, n), seats, n);
    assert(within(seats, seats)) by {
        assert forall|i: int| 0 <= i < seats.len() implies is_seated(
            seats,
            (#[trigger] seats[i]).id@,
        ) by {
            lemma_seated(seats, i);
        }
    }
    lemma_sorted_within(seats, seats, SeatOrder::Corner);
    lemma_insertion(all, sorted(seats, SeatOrder::Corner), n, seats);
    let edges = edges_of(seats);
    let nodes = nodes_of(seats);
    assert forall|e: int| #![trigger edges[e]] 0 <= e < edges.len() implies found_at(
        nodes,
        edges[e].from,
        0,
    ) is Some && found_at(nodes, edges[e].to, 0) is Some by {
        lemma_found_seated(seats, edges[e].from);
        lemma_found_seated(seats, edges[e].to);
    }
    lemma_unknown(nodes, edges, 0);
}

/// A reading order holds every node once, puts both ends of every constraint
/// that was not given up in their order, and gives up no strong constraint.
pub proof fn reading_orders_keep_constraints(nodes: Seq<NodeModel>, edges: Seq<EdgeModel>)
    requires
        nodes.len() <= usize::MAX,
    ensures
        resolved(nodes, edges) matches Resolved::Ordered { places, removed } ==> {
            &&& places.len() == nodes.len()
            &&& places.no_duplicates()
            &&& forall|i: int| 0 <= i < places.len() ==> #[trigger] places[i] < nodes.len()
            &&& forall|i: int| 0 <= i < removed.len() ==> !(#[trigger] removed[i]).source.strong()
            &&& forall|e: int|
                #![trigger normalized(edges)[e]]
                0 <= e < normalized(edges).len() ==> {
                    ||| removed.contains(removed_of(normalized(edges)[e]))
                    ||| exists|i: int, j: int|
                        0 <= i < j < places.len() && #[trigger] ids_at(nodes, places)[i]
                            == normalized(edges)[e].from && #[trigger] ids_at(nodes, places)[j]
                            == normalized(edges)[e].to
                }
        },
{
    if let Resolved::Ordered { places, removed } = resolved(nodes, edges) {
        let kept = normalized(edges);
        let links = links_of(nodes, kept);
        let n = nodes.len() as int;
        lemma_links_within(nodes, edges);
        let all = all_active(links);
        let none = Seq::<int>::empty();
        untangling_removes_cycles(links, all, none, n);
        let (active, gone) = untangled(links, all, none, n)->0;
        let ranks = ranks_of(nodes);
        placement_is_complete(links, active, ranks, Seq::empty(), n);
        assert forall|e: int| #![trigger normalized(edges)[e]] 0 <= e < kept.len() implies {
            ||| removed.contains(removed_of(normalized(edges)[e]))
            ||| exists|i: int, j: int|
                0 <= i < j < places.len() && #[trigger] ids_at(nodes, places)[i]
                    == normalized(edges)[e].from && #[trigger] ids_at(nodes, places)[j]
                    == normalized(edges)[e].to
        } by {
            let l = links[e];
            lemma_found(nodes, kept[e].from, 0);
            lemma_found(nodes, kept[e].to, 0);
            lemma_endpoints(nodes, edges, e);
            if active[e] {
                let j = lemma_held(places, n, l.to);
                let i = choose|i: int| 0 <= i < j && places[i] == l.from;
                let ids = ids_at(nodes, places);
                assert(ids[i] == kept[e].from && ids[j] == kept[e].to);
            } else {
                assert(all[e]);
                let g = choose|g: int| none.len() <= g < gone.len() && gone[g] == e;
                assert(removed[g] == removed_of(kept[e]));
            }
        }
    }
}

/// `n` different positions below `n` are all of them.
proof fn lemma_held(places: Seq<usize>, n: int, v: usize) -> (at: int)
    requires
        places.len() == n,
        places.no_duplicates(),
        forall|i: int| 0 <= i < n ==> #[trigger] places[i] < n,
        v < n,
    ensures
        0 <= at < n,
        places[at] == v,
{
    if !places.contains(v) {
        let s = places.map_values(|x: usize| x as int);
        let all = vstd::set_lib::set_int_range(0, n);
        vstd::set_lib::lemma_int_range(0, n);
        s.unique_seq_to_set();
        assert(s.no_duplicates());
        assert(s.to_set().subset_of(all.remove(v as int))) by {
            assert forall|x: int| s.to_set().contains(x) implies all.remove(v as int).contains(x) by {
                let i = choose|i: int| 0 <= i < s.len() && s[i] == x;
                assert(places[i] == x);
                assert(places.contains(places[i]));
            }
        }
        vstd::set_lib::lemma_len_subset(s.to_set(), all.remove(v as int));
    }
    places.index_of(v)
}

/// An order is refused exactly where the strong constraints alone contain a cycle.
pub proof fn conflicts_are_strong_cycles(nodes: Seq<NodeModel>, edges: Seq<EdgeModel>)
    requires
        nodes.len() <= usize::MAX,
        unknown_from(nodes, edges, 0) is None,
    ensures
        ({
            let links = links_of(nodes, normalized(edges));
            resolved(nodes, edges) is Conflict <==> !acyclic(
                links,
                strong_only(links, all_active(links)),
            )
        }),
{
    let links = links_of(nodes, normalized(edges));
    lemma_links_within(nodes, edges);
    irreducible_iff_strong_cycle(links, all_active(links), Seq::empty(), nodes.len() as int);
}

/// Resolves order constraints and moves each block into its one final position.
pub fn order_blocks(blocks: Vec<Block>) -> (result: Result<OrderedBlocks, OrderError>)
    ensures
        ({
            let seats = seats_of(blocks@);
            let nodes = nodes_of(seats);
            match (resolved(nodes, edges_of(seats)), repeated_from(blocks@, 0), result) {
                (Resolved::Conflict, _, Err(OrderError::InternalOrderConflict)) => true,
                (
                    Resolved::Ordered { places, removed },
                    Some(id),
                    Err(OrderError::DuplicateBlock { block_id }),
                ) => block_id@ == id,
                (Resolved::Ordered { places, removed }, None, Ok(ordered)) => ordered.blocks@
                    == arranged(blocks@, ids_at(nodes, places)) && removed_models(
                    ordered.removed_edges@,
                ) == removed,
                _ => false,
            }
        }),
{
    let ghost seats = seats_of(blocks@);
    let ghost nodes = nodes_of(seats);
    let ghost edges = edges_of(seats);
    let graph = OrderGraph::from_blocks(&blocks);
    let total: usize = blocks.len();
    proof {
        assert(seats.len() == total);
        constraints_name_blocks(seats);
        lemma_nodes_ascend(seats, seats.len() as int);
        reading_orders_keep_constraints(nodes, edges);
    }
    let resolution: OrderResolution = match graph.resolve() {
        Err(error) => {
            return Err(error);
        },
        Ok(resolution) => resolution,
    };
    if let Some(id) = find_repeated(&blocks) {
        return Err(OrderError::DuplicateBlock { block_id: id.text });
    }
    proof {
        let places = resolved(nodes, edges)->places;
        lemma_ids_distinct(nodes, places);
        let ids = resolution.ordered_ids@;
        assert(id_texts(ids).len() == ids.len());
        assert(id_texts(ids) == ids_at(nodes, places));
        assert forall|i: int| 0 <= i < ids.len() implies exists|k: int|
            0 <= k < blocks@.len() && (#[trigger] blocks@[k]).id@ == (#[trigger] ids[i])@ by {
            assert(id_texts(ids)[i] == ids[i]@);
            assert(ids_at(nodes, places)[i] == nodes[places[i] as int].id);
            assert(places[i] < nodes.len());
            let p = places[i] as int;
            let k = lemma_node_seated(seats, p);
            assert(seats[k] == seat_of(blocks@[k]));
            assert(blocks@[k].id@ == ids[i]@);
        }
    }
    let ordered: Vec<Block> = arrange(blocks, &resolution.ordered_ids);
    Ok(OrderedBlocks { blocks: ordered, removed_edges: resolution.removed_edges })
}

/// Every block of a page with distinct identities stands in the reading order
/// exactly once, with nothing but its position changed.
pub proof fn every_block_is_read_once(blocks: Seq<Block>, k: int)
    requires
        blocks.len() <= usize::MAX,
        repeated_from(blocks, 0) is None,
        0 <= k < blocks.len(),
    ensures
        resolved(nodes_of(seats_of(blocks)), edges_of(seats_of(blocks))) matches Resolved::Ordered {
            places,
            removed,
        } ==> {
            let read = arranged(blocks, ids_at(nodes_of(seats_of(blocks)), places));
            &&& read.len() == blocks.len()
            &&& exists|i: int|
                0 <= i < read.len() && #[trigger] read[i] == (Block {
                    final_order: ordinal(i),
                    ..blocks[k]
                }) && forall|j: int|
                    0 <= j < read.len() && (#[trigger] read[j]).id@ == blocks[k].id@ ==> j == i
        },
{
    let seats = seats_of(blocks);
    let nodes = nodes_of(seats);
    let edges = edges_of(seats);
    if let Resolved::Ordered { places, removed } = resolved(nodes, edges) {
        lemma_nodes_ascend(seats, seats.len() as int);
        reading_orders_keep_constraints(nodes, edges);
        lemma_ids_distinct(nodes, places);
        lemma_node_count(blocks, blocks.len() as int);
        let ids = ids_at(nodes, places);
        let read = arranged(blocks, ids);
        assert(seats[k].id@ == blocks[k].id@);
        lemma_seated(seats, k);
        lemma_found_seated(seats, blocks[k].id@);
        lemma_found(nodes, blocks[k].id@, 0);
        let p = found_at(nodes, blocks[k].id@, 0)->0;
        let i = lemma_held(places, nodes.len() as int, p as usize);
        assert(ids[i] == blocks[k].id@);
        lemma_block_at(blocks, ids[i], 0, k);
        let at = block_at(blocks, ids[i], 0);
        if at < k {
            lemma_no_repeat(blocks, 0, at, k);
        }
        assert(read[i] == (Block { final_order: ordinal(i), ..blocks[k] }));
        assert forall|j: int|
            0 <= j < read.len() && (#[trigger] read[j]).id@ == blocks[k].id@ implies j == i by {
            let q = places[j] as int;
            let s = lemma_node_seated(seats, q);
            assert(seats[s] == seat_of(blocks[s]));
            assert(blocks[s].id@ == ids[j]);
            lemma_block_at(blocks, ids[j], 0, s);
            assert(ids[j] == ids[i]);
        }
    }
}

/// Blocks with distinct identities have a node each.
proof fn lemma_node_count(blocks: Seq<Block>, n: int)
    requires
        repeated_from(blocks, 0) is None,
        0 <= n <= blocks.len(),
    ensures
        nodes_upto(seats_of(blocks), n).len() == n,
    decreases n,
{
    if n > 0 {
        let seats = seats_of(blocks);
        lemma_node_count(blocks, n - 1);
        let before = nodes_upto(seats, n - 1);
        let x = node_of(seats[n - 1]);
        lemma_slot(before, x.id, 0);
        let at = slot(before, x.id, 0);
        if at < before.len() && before[at].id == x.id {
            lemma_nodes_from_seats(seats, x.id, n - 1);
            assert(is_noded(before, x.id));
            let k = choose|k: int| 0 <= k < n - 1 && (#[trigger] seats[k]).id@ == x.id;
            assert(seats[k] == seat_of(blocks[k]) && seats[n - 1] == seat_of(blocks[n - 1]));
            lemma_no_repeat(blocks, 0, k, n - 1);
        }
    }
}

/// A reading order holds no more blocks than there are.
pub proof fn lemma_places(blocks: Seq<Block>)
    requires
        blocks.len() <= usize::MAX,
    ensures
        resolved(nodes_of(seats_of(blocks)), edges_of(seats_of(blocks))) matches Resolved::Ordered {
            places,
            removed,
        } ==> places.len() <= blocks.len(),
{
    let seats = seats_of(blocks);
    lemma_nodes_ascend(seats, seats.len() as int);
    reading_orders_keep_constraints(nodes_of(seats), edges_of(seats));
}

} // verus!
