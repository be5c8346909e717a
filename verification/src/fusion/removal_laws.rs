//! Which constraint is given up, and which block is taken next.

use vstd::prelude::*;

use super::edges::{EdgeModel, EdgeSource, OrderPolicy};
use super::order::{ascending, links_of, normalized, resolved, NodeModel};
use super::order_laws::{first_ready_node_comes_next, in_force};
use super::precedence::{
    given_up, in_cycle, knotted, leads_knot, lemma_reaches_chains, lemma_weakest, reaches, ready,
    weakest, weakest_upto, Link,
};
use crate::chars::text_before;

verus! {

/// The weakest constraint of a knot weighs no more than any other that may be given up there.
proof fn lemma_least_weight(links: Seq<Link>, active: Seq<bool>, v: int, n: int, f: int)
    requires
        0 <= f < n <= links.len(),
        !links[f].strong,
        knotted(links, active, f, v),
    ensures
        weakest_upto(links, active, v, n) matches Some(e) && 0 <= e < n && (links[e].weight
            < links[f].weight || (links[e].weight == links[f].weight && (links[e].rank
            < links[f].rank || (links[e].rank == links[f].rank && e <= f)))),
    decreases n,
{
    lemma_weakest(links, active, v, n - 1);
    if f < n - 1 {
        lemma_least_weight(links, active, v, n - 1, f);
    }
}

/// Each constraint given up is the weakest of some knot.
proof fn lemma_given_up_from(links: Seq<Link>, active: Seq<bool>, n: int, i: int) -> (v: int)
    requires
        given_up(links, active, n) is Some,
        0 <= i < given_up(links, active, n)->0.len(),
    ensures
        0 <= v < n,
        leads_knot(links, active, v),
        weakest(links, active, v) == Some(given_up(links, active, n)->0[i]),
    decreases n,
{
    let before = given_up(links, active, n - 1)->0;
    if i < before.len() {
        lemma_given_up_from(links, active, n - 1, i)
    } else {
        n - 1
    }
}

/// Of all the constraints of a cycle that may be given up, the one that goes weighs least; of
/// those that weigh as little it has the lowest rank, and of those the first key. One that may
/// never be given up stays.
pub proof fn lightest_constraints_go_first(
    links: Seq<Link>,
    active: Seq<bool>,
    n: int,
    i: int,
    f: int,
)
    requires
        given_up(links, active, n) is Some,
        0 <= i < given_up(links, active, n)->0.len(),
        0 <= f < links.len(),
        in_cycle(links, active, f),
        !links[f].strong,
        ({
            let e = given_up(links, active, n)->0[i];
            reaches(links, active, links[e].from as int, links[f].from as int) && reaches(
                links,
                active,
                links[f].from as int,
                links[e].from as int,
            )
        }),
    ensures
        ({
            let e = given_up(links, active, n)->0[i];
            &&& 0 <= e < links.len()
            &&& !links[e].strong
            &&& in_cycle(links, active, e)
            &&& links[e].weight <= links[f].weight
            &&& links[e].weight == links[f].weight ==> links[e].rank <= links[f].rank
            &&& links[e].weight == links[f].weight && links[e].rank == links[f].rank ==> e <= f
        }),
{
    let e = given_up(links, active, n)->0[i];
    let v = lemma_given_up_from(links, active, n, i);
    lemma_weakest(links, active, v, links.len() as int);
    let (a, b) = (links[e].from as int, links[f].from as int);
    lemma_reaches_chains(links, active, b, a, v);
    lemma_reaches_chains(links, active, v, a, b);
    assert(knotted(links, active, f, v));
    lemma_least_weight(links, active, v, links.len() as int, f);
}

/// Constraints by the places of blocks above each other and inside regions may never be given
/// up. Of the others those of the model weigh what the model is sure of, at most the whole; those
/// between fallback regions weigh more than those of captions, these more than those between
/// columns, and these more than those that insert fallback blocks. Of equal weights those of the
/// model go first.
pub proof fn constraints_weigh_by_source(confidence: u32)
    ensures
        forall|s: EdgeSource| #[trigger]
            s.strong() <==> s == EdgeSource::StrongVertical || s == EdgeSource::IntraRegion,
        OrderPolicy::weight_of(EdgeSource::StrongVertical, None) == 1_000_000,
        OrderPolicy::weight_of(EdgeSource::IntraRegion, Some(confidence)) == 1_000_000,
        confidence <= 1_000_000 ==> OrderPolicy::weight_of(EdgeSource::Model, Some(confidence))
            == confidence,
        confidence >= 1_000_000 ==> OrderPolicy::weight_of(EdgeSource::Model, Some(confidence))
            == 1_000_000,
        OrderPolicy::weight_of(EdgeSource::Model, None) == 0,
        OrderPolicy::weight_of(EdgeSource::XyCut, None) == 850_000,
        OrderPolicy::weight_of(EdgeSource::CaptionRelation, Some(confidence)) == 800_000,
        OrderPolicy::weight_of(EdgeSource::BandHorizontal, None) == 650_000,
        OrderPolicy::weight_of(EdgeSource::FallbackInsertion, None) == 600_000,
        EdgeSource::Model.priority() < EdgeSource::FallbackInsertion.priority(),
        EdgeSource::FallbackInsertion.priority() < EdgeSource::BandHorizontal.priority(),
        EdgeSource::BandHorizontal.priority() < EdgeSource::CaptionRelation.priority(),
        EdgeSource::CaptionRelation.priority() < EdgeSource::XyCut.priority(),
        EdgeSource::XyCut.priority() < EdgeSource::IntraRegion.priority(),
        EdgeSource::IntraRegion.priority() < EdgeSource::StrongVertical.priority(),
{
}

/// Of the blocks that could come next, the one is taken whose fallback path is first, then the
/// one in the highest band of half a point, then the highest, then the leftmost, then the one
/// whose source counts most, then the one with the first identity.
pub proof fn upper_left_blocks_come_next(
    nodes: Seq<NodeModel>,
    edges: Seq<EdgeModel>,
    i: int,
    v: int,
)
    requires
        nodes.len() <= usize::MAX,
        ascending(nodes),
        resolved(nodes, edges) is Ordered,
        0 <= i < resolved(nodes, edges)->places.len(),
        0 <= v < nodes.len(),
        ({
            let links = links_of(nodes, normalized(edges));
            let n = nodes.len() as int;
            ready(links, in_force(links, n), resolved(nodes, edges)->places.take(i), v)
        }),
    ensures
        ({
            let next = resolved(nodes, edges)->places[i] as int;
            let (a, b) = (nodes[next], nodes[v]);
            &&& 0 <= next < nodes.len()
            &&& a.path != b.path ==> text_before(a.path, b.path)
            &&& a.path == b.path ==> a.bbox.top as int / 5_000 <= b.bbox.top as int / 5_000
            &&& a.path == b.path && a.bbox.top as int / 5_000 == b.bbox.top as int / 5_000
                ==> a.bbox.top <= b.bbox.top
            &&& a.path == b.path && a.bbox.top == b.bbox.top ==> a.bbox.left <= b.bbox.left
            &&& a.path == b.path && a.bbox.top == b.bbox.top && a.bbox.left == b.bbox.left
                ==> a.priority <= b.priority
            &&& a.path == b.path && a.bbox.top == b.bbox.top && a.bbox.left == b.bbox.left
                && a.priority == b.priority && next != v ==> text_before(a.id, b.id)
        }),
{
    first_ready_node_comes_next(nodes, edges, i, v);
}

} // verus!
