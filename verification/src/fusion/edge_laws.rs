//! Which constraints hold between the blocks of a page, by their places and the model.

use vstd::prelude::*;

use super::edges::{
    caption_edge, caption_edges, chain_upto, edge, geometry_edges, insertion_upto, last_main_upto,
    marginal_edges, nearest_upto, neighbour_edges, object_upto, picked, picked_upto, with_edge,
    xy_cut_edges, EdgeModel, EdgeSource, Seat, SeatOrder,
};
use super::model_edges::{
    all_marginal, inner_edges, inner_upto, known, least_upto, lesser, model_edges, named_upto,
    of_region, outer_upto, region_names, region_seats, span_of, spans_upto, RegionSpan, SpanOrder,
};
use super::order::{
    edges_of, first_of_keys, ids_at, lemma_endpoints, lemma_normalized, links_of, nodes_of,
    normalized, resolved, KeyOrder, NodeModel, Resolved,
};
use super::order_laws::acyclic_constraints_lose_none;
use super::precedence::{all_active, in_cycle, leaves, path, Link};
use super::precedence_laws::acyclic;
use super::reading::{
    constraints_name_blocks, lemma_ids_distinct, lemma_nodes_ascend,
    reading_orders_keep_constraints,
};
use crate::blocks::LabelSource;
use crate::chars::{text_before, text_order_is_strict_weak};
use crate::geometry::Bbox;
use crate::sorting::{
    deduped_upto, lemma_once, lemma_twice, neighbours_stand_together, sorted, sorting_holds_the_same,
    sorting_orders_and_keeps, Order,
};
use crate::texts::{text_set, text_sets_ascend, TextOrder};

verus! {

/// One more constraint is held, and all before it.
proof fn lemma_with(edges: Seq<EdgeModel>, x: EdgeModel, e: EdgeModel)
    ensures
        with_edge(edges, x).contains(e) <==> edges.contains(e) || (x.from != x.to && x == e),
{
    let t = edges.push(x);
    if edges.contains(e) {
        let i = edges.index_of(e);
        assert(t[i] == e);
    }
    if x == e {
        assert(t[edges.len() as int] == e);
    }
    if t.contains(e) {
        let i = t.index_of(e);
        if i < edges.len() {
            assert(edges[i] == e);
        }
    }
}

/// Whether a constraint is between two neighbours of a list.
pub open spec fn joins(
    s: Seq<Seat>,
    source: EdgeSource,
    reason: Seq<char>,
    e: EdgeModel,
    k: int,
) -> bool {
    s[k - 1].id@ != s[k].id@ && e == edge(s[k - 1].id@, s[k].id@, source, reason, None)
}

proof fn lemma_chain_holds(
    edges: Seq<EdgeModel>,
    s: Seq<Seat>,
    source: EdgeSource,
    reason: Seq<char>,
    n: int,
    e: EdgeModel,
)
    requires
        n <= s.len(),
    ensures
        chain_upto(edges, s, source, reason, n).contains(e) <==> edges.contains(e) || exists|k: int|
            1 <= k < n && #[trigger] joins(s, source, reason, e, k),
    decreases n,
{
    if n > 1 {
        lemma_chain_holds(edges, s, source, reason, n - 1, e);
        lemma_with(
            chain_upto(edges, s, source, reason, n - 1),
            edge(s[n - 2].id@, s[n - 1].id@, source, reason, None),
            e,
        );
        assert(chain_upto(edges, s, source, reason, n).contains(e) <==> chain_upto(
            edges,
            s,
            source,
            reason,
            n - 1,
        ).contains(e) || joins(s, source, reason, e, n - 1));
        if exists|k: int| 1 <= k < n && #[trigger] joins(s, source, reason, e, k) {
            let k = choose|k: int| 1 <= k < n && #[trigger] joins(s, source, reason, e, k);
            if k < n - 1 {
                assert(joins(s, source, reason, e, k));
            }
        }
    }
}

/// Whether a constraint is between two neighbours in a region.
spec fn joins_inside(s: Seq<Seat>, e: EdgeModel, k: int) -> bool {
    s[k - 1].id@ != s[k].id@ && e == edge(
        s[k - 1].id@,
        s[k].id@,
        EdgeSource::IntraRegion,
        "children of one model region"@,
        Some(lesser(known(s[k - 1].confidence), known(s[k].confidence))),
    )
}

proof fn lemma_inner_holds(edges: Seq<EdgeModel>, s: Seq<Seat>, n: int, e: EdgeModel)
    requires
        n <= s.len(),
    ensures
        inner_upto(edges, s, n).contains(e) <==> edges.contains(e) || exists|k: int|
            1 <= k < n && #[trigger] joins_inside(s, e, k),
    decreases n,
{
    if n > 1 {
        lemma_inner_holds(edges, s, n - 1, e);
        lemma_with(
            inner_upto(edges, s, n - 1),
            edge(
                s[n - 2].id@,
                s[n - 1].id@,
                EdgeSource::IntraRegion,
                "children of one model region"@,
                Some(lesser(known(s[n - 2].confidence), known(s[n - 1].confidence))),
            ),
            e,
        );
        assert(inner_upto(edges, s, n).contains(e) <==> inner_upto(edges, s, n - 1).contains(e)
            || joins_inside(s, e, n - 1));
        if exists|k: int| 1 <= k < n && #[trigger] joins_inside(s, e, k) {
            let k = choose|k: int| 1 <= k < n && #[trigger] joins_inside(s, e, k);
            if k < n - 1 {
                assert(joins_inside(s, e, k));
            }
        }
    }
}

/// Whether a constraint is between two neighbours in one of several regions.
spec fn joins_region(seats: Seq<Seat>, names: Seq<Seq<char>>, e: EdgeModel, r: int, k: int) -> bool {
    let s = region_seats(seats, names[r]);
    1 <= k < s.len() && joins_inside(s, e, k)
}

proof fn lemma_regions_hold(
    edges: Seq<EdgeModel>,
    seats: Seq<Seat>,
    names: Seq<Seq<char>>,
    n: int,
    e: EdgeModel,
)
    ensures
        inner_edges(edges, seats, names, n).contains(e) <==> edges.contains(e) || exists|
            r: int,
            k: int,
        |
            0 <= r < n && #[trigger] joins_region(seats, names, e, r, k),
    decreases n,
{
    if n > 0 {
        lemma_regions_hold(edges, seats, names, n - 1, e);
        let s = region_seats(seats, names[n - 1]);
        lemma_inner_holds(inner_edges(edges, seats, names, n - 1), s, s.len() as int, e);
        if exists|k: int| 1 <= k < s.len() && #[trigger] joins_inside(s, e, k) {
            let k = choose|k: int| 1 <= k < s.len() && #[trigger] joins_inside(s, e, k);
            assert(joins_region(seats, names, e, n - 1, k));
        }
        if exists|r: int, k: int| 0 <= r < n && #[trigger] joins_region(seats, names, e, r, k) {
            let (r, k) = choose|r: int, k: int|
                0 <= r < n && #[trigger] joins_region(seats, names, e, r, k);
            if r < n - 1 {
                assert(joins_region(seats, names, e, r, k));
            } else {
                assert(joins_inside(s, e, k));
            }
        }
        if exists|r: int, k: int| 0 <= r < n - 1 && #[trigger] joins_region(
            seats,
            names,
            e,
            r,
            k,
        ) {
            let (r, k) = choose|r: int, k: int|
                0 <= r < n - 1 && #[trigger] joins_region(seats, names, e, r, k);
            assert(joins_region(seats, names, e, r, k));
        }
    }
}

/// Whether a constraint is between two neighbouring regions.
spec fn joins_spans(spans: Seq<RegionSpan>, e: EdgeModel, k: int) -> bool {
    spans[k - 1].last@ != spans[k].first@ && e == edge(
        spans[k - 1].last@,
        spans[k].first@,
        EdgeSource::Model,
        "adjacent model region order"@,
        Some(lesser(spans[k - 1].confidence, spans[k].confidence)),
    )
}

proof fn lemma_outer_holds(edges: Seq<EdgeModel>, spans: Seq<RegionSpan>, n: int, e: EdgeModel)
    requires
        n <= spans.len(),
    ensures
        outer_upto(edges, spans, n).contains(e) <==> edges.contains(e) || exists|k: int|
            1 <= k < n && #[trigger] joins_spans(spans, e, k),
    decreases n,
{
    if n > 1 {
        lemma_outer_holds(edges, spans, n - 1, e);
        lemma_with(
            outer_upto(edges, spans, n - 1),
            edge(
                spans[n - 2].last@,
                spans[n - 1].first@,
                EdgeSource::Model,
                "adjacent model region order"@,
                Some(lesser(spans[n - 2].confidence, spans[n - 1].confidence)),
            ),
            e,
        );
        assert(outer_upto(edges, spans, n).contains(e) <==> outer_upto(
            edges,
            spans,
            n - 1,
        ).contains(e) || joins_spans(spans, e, n - 1));
        if exists|k: int| 1 <= k < n && #[trigger] joins_spans(spans, e, k) {
            let k = choose|k: int| 1 <= k < n && #[trigger] joins_spans(spans, e, k);
            if k < n - 1 {
                assert(joins_spans(spans, e, k));
            }
        }
    }
}

/// The spans of the regions of seats, in the order of the model.
spec fn ordered_spans(seats: Seq<Seat>) -> Seq<RegionSpan> {
    let names = region_names(seats);
    sorted(spans_upto(seats, names, names.len() as int), SpanOrder)
}

/// Whether a constraint comes from the regions of the model.
spec fn from_model(seats: Seq<Seat>, e: EdgeModel) -> bool {
    (exists|r: int, k: int|
        0 <= r < region_names(seats).len() && #[trigger] joins_region(
            seats,
            region_names(seats),
            e,
            r,
            k,
        )) || (exists|k: int|
        1 <= k < ordered_spans(seats).len() && #[trigger] joins_spans(ordered_spans(seats), e, k))
}

proof fn lemma_model_holds(seats: Seq<Seat>, e: EdgeModel)
    ensures
        model_edges(Seq::empty(), seats).contains(e) <==> from_model(seats, e),
{
    let names = region_names(seats);
    let n = names.len() as int;
    let spans = ordered_spans(seats);
    let none = Seq::<EdgeModel>::empty();
    lemma_regions_hold(none, seats, names, n, e);
    lemma_outer_holds(inner_edges(none, seats, names, n), spans, spans.len() as int, e);
}

/// Whether a constraint puts rotated marginal content behind the main flow.
spec fn from_margin(seats: Seq<Seat>, e: EdgeModel) -> bool {
    let m = sorted(picked(seats, |x: Seat| x.marginal), SeatOrder::Corner);
    m.len() > 0 && ((exists|k: int|
        1 <= k < m.len() && #[trigger] joins(
            m,
            EdgeSource::IntraRegion,
            "rotated marginal content order"@,
            e,
            k,
        )) || (last_main_upto(seats, seats.len() as int) matches Some(at) && seats[at].id@
        != m[0].id@ && e == edge(
        seats[at].id@,
        m[0].id@,
        EdgeSource::StrongVertical,
        "main flow before rotated marginal content"@,
        None,
    )))
}

proof fn lemma_marginal_holds(edges: Seq<EdgeModel>, seats: Seq<Seat>, e: EdgeModel)
    ensures
        marginal_edges(edges, seats).contains(e) <==> edges.contains(e) || from_margin(seats, e),
{
    let m = sorted(picked(seats, |x: Seat| x.marginal), SeatOrder::Corner);
    if m.len() > 0 {
        let first = match last_main_upto(seats, seats.len() as int) {
            None => edges,
            Some(at) => with_edge(
                edges,
                edge(
                    seats[at].id@,
                    m[0].id@,
                    EdgeSource::StrongVertical,
                    "main flow before rotated marginal content"@,
                    None,
                ),
            ),
        };
        if let Some(at) = last_main_upto(seats, seats.len() as int) {
            lemma_with(
                edges,
                edge(
                    seats[at].id@,
                    m[0].id@,
                    EdgeSource::StrongVertical,
                    "main flow before rotated marginal content"@,
                    None,
                ),
                e,
            );
        }
        lemma_chain_holds(
            first,
            m,
            EdgeSource::IntraRegion,
            "rotated marginal content order"@,
            m.len() as int,
            e,
        );
    }
}

/// Whether a constraint is between neighbours of which one is a fallback block.
spec fn inserts(s: Seq<Seat>, e: EdgeModel, k: int) -> bool {
    &&& s[k - 1].label_source == LabelSource::Fallback || s[k].label_source == LabelSource::Fallback
    &&& joins(s, EdgeSource::FallbackInsertion, "fallback block geometry insertion"@, e, k)
}

proof fn lemma_insertion_holds(edges: Seq<EdgeModel>, s: Seq<Seat>, n: int, e: EdgeModel)
    requires
        n <= s.len(),
    ensures
        insertion_upto(edges, s, n).contains(e) <==> edges.contains(e) || exists|k: int|
            1 <= k < n && #[trigger] inserts(s, e, k),
    decreases n,
{
    if n > 1 {
        lemma_insertion_holds(edges, s, n - 1, e);
        lemma_with(
            insertion_upto(edges, s, n - 1),
            edge(
                s[n - 2].id@,
                s[n - 1].id@,
                EdgeSource::FallbackInsertion,
                "fallback block geometry insertion"@,
                None,
            ),
            e,
        );
        assert(insertion_upto(edges, s, n).contains(e) <==> insertion_upto(
            edges,
            s,
            n - 1,
        ).contains(e) || inserts(s, e, n - 1));
        if exists|k: int| 1 <= k < n && #[trigger] inserts(s, e, k) {
            let k = choose|k: int| 1 <= k < n && #[trigger] inserts(s, e, k);
            if k < n - 1 {
                assert(inserts(s, e, k));
            }
        }
    }
}

/// Whether a constraint is that of a block and the nearest below it, or beside it.
spec fn nears(s: Seq<Seat>, e: EdgeModel, i: int) -> bool {
    let n = s.len() as int;
    (nearest_upto(s, s[i], true, n) matches Some(at) && s[i].id@ != s[at].id@ && e == edge(
        s[i].id@,
        s[at].id@,
        EdgeSource::StrongVertical,
        "nearest non-overlapping vertical geometry"@,
        None,
    )) || (nearest_upto(s, s[i], false, n) matches Some(at) && s[i].id@ != s[at].id@ && e == edge(
        s[i].id@,
        s[at].id@,
        EdgeSource::BandHorizontal,
        "nearest same-band left-to-right geometry"@,
        None,
    ))
}

proof fn lemma_geometry_holds(edges: Seq<EdgeModel>, s: Seq<Seat>, n: int, e: EdgeModel)
    requires
        n <= s.len(),
    ensures
        geometry_edges(edges, s, n).contains(e) <==> edges.contains(e) || exists|i: int|
            0 <= i < n && #[trigger] nears(s, e, i),
    decreases n,
{
    if n > 0 {
        lemma_geometry_holds(edges, s, n - 1, e);
        let before = geometry_edges(edges, s, n - 1);
        let len = s.len() as int;
        let source = s[n - 1];
        let middle = match nearest_upto(s, source, true, len) {
            None => before,
            Some(at) => with_edge(
                before,
                edge(
                    source.id@,
                    s[at].id@,
                    EdgeSource::StrongVertical,
                    "nearest non-overlapping vertical geometry"@,
                    None,
                ),
            ),
        };
        if let Some(at) = nearest_upto(s, source, true, len) {
            lemma_with(
                before,
                edge(
                    source.id@,
                    s[at].id@,
                    EdgeSource::StrongVertical,
                    "nearest non-overlapping vertical geometry"@,
                    None,
                ),
                e,
            );
        }
        if let Some(at) = nearest_upto(s, source, false, len) {
            lemma_with(
                middle,
                edge(
                    source.id@,
                    s[at].id@,
                    EdgeSource::BandHorizontal,
                    "nearest same-band left-to-right geometry"@,
                    None,
                ),
                e,
            );
        }
        assert(neighbour_edges(before, s, source).contains(e) <==> before.contains(e) || nears(
            s,
            e,
            n - 1,
        ));
        if exists|i: int| 0 <= i < n && #[trigger] nears(s, e, i) {
            let i = choose|i: int| 0 <= i < n && #[trigger] nears(s, e, i);
            if i < n - 1 {
                assert(nears(s, e, i));
            }
        }
    }
}

/// Whether a constraint is that of a caption and the visual object nearest to it.
spec fn captions(s: Seq<Seat>, e: EdgeModel, i: int) -> bool {
    s[i].caption && (object_upto(s, s[i], s.len() as int) matches Some(at) && s[i].id@ != s[at].id@
        && e == if s[i].bbox.top >= s[at].bbox.bottom {
        edge(
            s[at].id@,
            s[i].id@,
            EdgeSource::CaptionRelation,
            "visual object before lower caption"@,
            s[i].confidence,
        )
    } else {
        edge(
            s[i].id@,
            s[at].id@,
            EdgeSource::CaptionRelation,
            "upper caption before visual object"@,
            s[i].confidence,
        )
    })
}

proof fn lemma_captions_hold(edges: Seq<EdgeModel>, s: Seq<Seat>, n: int, e: EdgeModel)
    requires
        n <= s.len(),
    ensures
        caption_edges(edges, s, n).contains(e) <==> edges.contains(e) || exists|i: int|
            0 <= i < n && #[trigger] captions(s, e, i),
    decreases n,
{
    if n > 0 {
        lemma_captions_hold(edges, s, n - 1, e);
        let before = caption_edges(edges, s, n - 1);
        let c = s[n - 1];
        if let Some(at) = object_upto(s, c, s.len() as int) {
            lemma_with(
                before,
                edge(
                    s[at].id@,
                    c.id@,
                    EdgeSource::CaptionRelation,
                    "visual object before lower caption"@,
                    c.confidence,
                ),
                e,
            );
            lemma_with(
                before,
                edge(
                    c.id@,
                    s[at].id@,
                    EdgeSource::CaptionRelation,
                    "upper caption before visual object"@,
                    c.confidence,
                ),
                e,
            );
        }
        assert(c.caption ==> (caption_edge(before, s, c).contains(e) <==> before.contains(e)
            || captions(s, e, n - 1)));
        if exists|i: int| 0 <= i < n && #[trigger] captions(s, e, i) {
            let i = choose|i: int| 0 <= i < n && #[trigger] captions(s, e, i);
            if i < n - 1 {
                assert(captions(s, e, i));
            }
        }
    }
}

/// The fallback blocks of seats, by region and identity.
spec fn fallback_seats(seats: Seq<Seat>) -> Seq<Seat> {
    sorted(picked(seats, |x: Seat| x.fallback is Some), SeatOrder::Fallback)
}

/// The constraints of a page are those of the model, of the margin, of fallback regions, of
/// neighbours, of captions and of fallback blocks.
proof fn lemma_edges_hold(seats: Seq<Seat>, e: EdgeModel)
    ensures
        edges_of(seats).contains(e) <==> {
            ||| from_model(seats, e)
            ||| from_margin(seats, e)
            ||| exists|k: int|
                1 <= k < fallback_seats(seats).len() && #[trigger] joins(
                    fallback_seats(seats),
                    EdgeSource::XyCut,
                    "adjacent residual XY-cut leaves"@,
                    e,
                    k,
                )
            ||| exists|i: int| 0 <= i < seats.len() && #[trigger] nears(seats, e, i)
            ||| exists|i: int| 0 <= i < seats.len() && #[trigger] captions(seats, e, i)
            ||| exists|k: int|
                1 <= k < seats.len() && #[trigger] inserts(sorted(seats, SeatOrder::Corner), e, k)
        },
{
    let n = seats.len() as int;
    let model = model_edges(Seq::empty(), seats);
    let margin = marginal_edges(model, seats);
    let f = fallback_seats(seats);
    let cut = xy_cut_edges(margin, seats);
    let near = geometry_edges(cut, seats, n);
    let captioned = caption_edges(near, seats, n);
    sorting_orders_and_keeps(seats, SeatOrder::Corner);
    lemma_model_holds(seats, e);
    lemma_marginal_holds(model, seats, e);
    lemma_chain_holds(
        margin,
        f,
        EdgeSource::XyCut,
        "adjacent residual XY-cut leaves"@,
        f.len() as int,
        e,
    );
    lemma_geometry_holds(cut, seats, n, e);
    lemma_captions_hold(near, seats, n, e);
    lemma_insertion_holds(captioned, sorted(seats, SeatOrder::Corner), n, e);
}

/// Whether a block is read before another by its place: it starts higher, or as high and further
/// left, or at the same corner and has the earlier identity.
pub open spec fn reads_before(a: Seat, b: Seat) -> bool {
    ||| a.bbox.top < b.bbox.top
    ||| a.bbox.top == b.bbox.top && a.bbox.left < b.bbox.left
    ||| a.bbox.top == b.bbox.top && a.bbox.left == b.bbox.left && text_before(a.id@, b.id@)
}

/// Whether a seat belongs to the region of a name.
pub open spec fn sits_in(seat: Seat, name: Seq<char>) -> bool {
    seat.region is Some && seat.region->0@ == name
}

/// Whether seat `f` is the first of a region.
pub open spec fn heads_region(seats: Seq<Seat>, name: Seq<char>, f: int) -> bool {
    &&& 0 <= f < seats.len()
    &&& sits_in(seats[f], name)
    &&& forall|g: int|
        0 <= g < seats.len() && g != f && sits_in(#[trigger] seats[g], name) ==> reads_before(
            seats[f],
            seats[g],
        )
}

/// Whether seat `l` is the last of a region.
pub open spec fn ends_region(seats: Seq<Seat>, name: Seq<char>, l: int) -> bool {
    &&& 0 <= l < seats.len()
    &&& sits_in(seats[l], name)
    &&& forall|g: int|
        0 <= g < seats.len() && g != l && sits_in(#[trigger] seats[g], name) ==> reads_before(
            seats[g],
            seats[l],
        )
}

/// The place that the model gave a block; blocks without one come last.
pub open spec fn place_of(seat: Seat) -> int {
    match seat.model_order {
        Some(order) => order as int,
        None => 0x7fff_ffff_ffff_ffff,
    }
}

/// Picked seats are those with a property.
proof fn lemma_picked_holds(s: Seq<Seat>, want: spec_fn(Seat) -> bool, n: int, x: Seat)
    requires
        0 <= n <= s.len(),
    ensures
        picked_upto(s, want, n).contains(x) <==> want(x) && exists|i: int|
            0 <= i < n && #[trigger] s[i] == x,
    decreases n,
{
    if n > 0 {
        lemma_picked_holds(s, want, n - 1, x);
        let before = picked_upto(s, want, n - 1);
        let t = before.push(s[n - 1]);
        if before.contains(x) {
            let i = before.index_of(x);
            assert(t[i] == x);
            let j = choose|j: int| 0 <= j < n - 1 && #[trigger] s[j] == x;
            assert(s[j] == x);
        }
        if s[n - 1] == x && want(x) {
            assert(t[before.len() as int] == x);
        }
        if t.contains(x) {
            let i = t.index_of(x);
            if i < before.len() {
                assert(before[i] == x);
            }
        }
        if want(x) && exists|i: int| 0 <= i < n && #[trigger] s[i] == x {
            let i = choose|i: int| 0 <= i < n && #[trigger] s[i] == x;
            if i < n - 1 {
                assert(s[i] == x);
            }
        }
    }
}

/// The seats of a region are all of it.
proof fn lemma_region_holds(seats: Seq<Seat>, name: Seq<char>, x: Seat)
    ensures
        region_seats(seats, name).contains(x) <==> sits_in(x, name) && exists|i: int|
            0 <= i < seats.len() && #[trigger] seats[i] == x,
{
    let list = picked_upto(seats, of_region(name), seats.len() as int);
    lemma_picked_holds(seats, of_region(name), seats.len() as int, x);
    sorting_holds_the_same(list, SeatOrder::Corner, x);
}

/// The first and the last seat of a region stand at its ends.
proof fn lemma_region_ends(seats: Seq<Seat>, name: Seq<char>, f: int, l: int)
    requires
        heads_region(seats, name, f),
        ends_region(seats, name, l),
    ensures
        region_seats(seats, name).len() > 0,
        region_seats(seats, name)[0] == seats[f],
        region_seats(seats, name).last() == seats[l],
{
    let s = region_seats(seats, name);
    let list = picked_upto(seats, of_region(name), seats.len() as int);
    sorting_orders_and_keeps(list, SeatOrder::Corner);
    lemma_region_holds(seats, name, seats[f]);
    lemma_region_holds(seats, name, seats[l]);
    let u = s.index_of(seats[f]);
    let v = s.index_of(seats[l]);
    let last = s.len() - 1;
    assert(s.contains(s[0]) && s.contains(s[last]));
    lemma_region_holds(seats, name, s[0]);
    lemma_region_holds(seats, name, s[last]);
    let i = choose|i: int| 0 <= i < seats.len() && #[trigger] seats[i] == s[0];
    let j = choose|j: int| 0 <= j < seats.len() && #[trigger] seats[j] == s[last];
    if u != 0 {
        assert(!SeatOrder::Corner.lt(s[u], s[0]));
        assert(i == f || reads_before(seats[f], seats[i]));
    }
    if v != last {
        assert(!SeatOrder::Corner.lt(s[last], s[v]));
        assert(j == l || reads_before(seats[j], seats[l]));
    }
}

/// Sets of texts hold every text.
proof fn lemma_deduped_has(s: Seq<Seq<char>>, n: int, x: Seq<char>)
    requires
        0 <= n <= s.len(),
    ensures
        deduped_upto(s, n).contains(x) <==> exists|i: int| 0 <= i < n && #[trigger] s[i] == x,
        n > 0 ==> deduped_upto(s, n).len() > 0 && deduped_upto(s, n).last() == s[n - 1],
    decreases n,
{
    if n > 0 {
        lemma_deduped_has(s, n - 1, x);
        let before = deduped_upto(s, n - 1);
        let t = before.push(s[n - 1]);
        if before.len() > 0 && before.last() == s[n - 1] {
            assert(before[before.len() - 1] == s[n - 1]);
        }
        if before.contains(x) {
            let i = before.index_of(x);
            assert(t[i] == x);
            let j = choose|j: int| 0 <= j < n - 1 && #[trigger] s[j] == x;
            assert(s[j] == x);
        }
        if s[n - 1] == x {
            assert(t[before.len() as int] == x);
        }
        if t.contains(x) {
            let i = t.index_of(x);
            if i < before.len() {
                assert(before[i] == x);
            }
        }
        if exists|i: int| 0 <= i < n && #[trigger] s[i] == x {
            let i = choose|i: int| 0 <= i < n && #[trigger] s[i] == x;
            if i < n - 1 {
                assert(s[i] == x);
            }
        }
    }
}

proof fn lemma_named(seats: Seq<Seat>, n: int, x: Seq<char>)
    requires
        0 <= n <= seats.len(),
    ensures
        named_upto(seats, n).contains(x) <==> exists|i: int|
            0 <= i < n && sits_in(#[trigger] seats[i], x),
    decreases n,
{
    if n > 0 {
        lemma_named(seats, n - 1, x);
        let before = named_upto(seats, n - 1);
        if let Some(r) = seats[n - 1].region {
            let t = before.push(r@);
            if before.contains(x) {
                let i = before.index_of(x);
                assert(t[i] == x);
            }
            if r@ == x {
                assert(t[before.len() as int] == x);
            }
            if t.contains(x) {
                let i = t.index_of(x);
                if i < before.len() {
                    assert(before[i] == x);
                }
            }
        }
        if before.contains(x) {
            let j = choose|j: int| 0 <= j < n - 1 && sits_in(#[trigger] seats[j], x);
            assert(sits_in(seats[j], x));
        }
        if exists|i: int| 0 <= i < n && sits_in(#[trigger] seats[i], x) {
            let i = choose|i: int| 0 <= i < n && sits_in(#[trigger] seats[i], x);
            if i < n - 1 {
                assert(sits_in(seats[i], x));
            }
        }
    }
}

/// The names of regions are those that seats name, each once.
proof fn lemma_names(seats: Seq<Seat>, x: Seq<char>)
    ensures
        region_names(seats).contains(x) <==> exists|i: int|
            0 <= i < seats.len() && sits_in(#[trigger] seats[i], x),
        region_names(seats).no_duplicates(),
{
    let all = named_upto(seats, seats.len() as int);
    let s = sorted(all, TextOrder);
    lemma_named(seats, seats.len() as int, x);
    sorting_holds_the_same(all, TextOrder, x);
    lemma_deduped_has(s, s.len() as int, x);
    assert(region_names(seats).contains(x) <==> s.contains(x)) by {
        if s.contains(x) {
            let i = s.index_of(x);
            assert(s[i] == x);
        }
    }
    text_sets_ascend(all);
    let names = region_names(seats);
    assert forall|i: int, j: int|
        0 <= i < names.len() && 0 <= j < names.len() && i != j implies names[i] != names[j] by {
        text_order_is_strict_weak(names[i], names[i], names[i]);
        if i < j {
            assert(text_before(text_set(all)[i], text_set(all)[j]));
        } else {
            assert(text_before(text_set(all)[j], text_set(all)[i]));
        }
    }
}

/// Where the span of a region stands.
proof fn lemma_span_place(seats: Seq<Seat>, names: Seq<Seq<char>>, n: int, r: int)
    requires
        0 <= r < n <= names.len(),
        !all_marginal(region_seats(seats, names[r])),
    ensures
        spans_upto(seats, names, r).len() < spans_upto(seats, names, n).len(),
        spans_upto(seats, names, n)[spans_upto(seats, names, r).len() as int] == span_of(
            region_seats(seats, names[r]),
            names[r],
        ),
    decreases n,
{
    if r < n - 1 {
        lemma_span_place(seats, names, n - 1, r);
    }
}

/// Every span is that of a region.
proof fn lemma_span_from(seats: Seq<Seat>, names: Seq<Seq<char>>, n: int, q: int) -> (r: int)
    requires
        0 <= n <= names.len(),
        0 <= q < spans_upto(seats, names, n).len(),
    ensures
        0 <= r < n,
        !all_marginal(region_seats(seats, names[r])),
        spans_upto(seats, names, r).len() == q,
        spans_upto(seats, names, n)[q] == span_of(region_seats(seats, names[r]), names[r]),
    decreases n,
{
    if q < spans_upto(seats, names, n - 1).len() {
        lemma_span_from(seats, names, n - 1, q)
    } else {
        n - 1
    }
}

/// The least known confidence of a region.
proof fn lemma_least(s: Seq<Seat>, n: int)
    requires
        0 <= n <= s.len(),
    ensures
        least_upto(s, n) <= 1_000_000,
        forall|i: int|
            0 <= i < n && (#[trigger] s[i]).confidence is Some ==> least_upto(s, n)
                <= s[i].confidence->0,
        least_upto(s, n) == 1_000_000 || exists|i: int|
            0 <= i < n && (#[trigger] s[i]).confidence == Some(least_upto(s, n)),
    decreases n,
{
    if n > 0 {
        lemma_least(s, n - 1);
        let before = least_upto(s, n - 1);
        if before != 1_000_000 {
            let i = choose|i: int| 0 <= i < n - 1 && (#[trigger] s[i]).confidence == Some(before);
            assert(s[i].confidence == Some(before));
        }
        assert(s[n - 1].confidence == s[n - 1].confidence);
    }
}

/// A region that holds a seat of the main flow is not marginal as a whole.
proof fn lemma_not_marginal(seats: Seq<Seat>, name: Seq<char>, i: int)
    requires
        0 <= i < seats.len(),
        sits_in(seats[i], name),
        !seats[i].marginal,
    ensures
        !all_marginal(region_seats(seats, name)),
{
    lemma_region_holds(seats, name, seats[i]);
    let s = region_seats(seats, name);
    let k = s.index_of(seats[i]);
    assert(s[k] == seats[i]);
}

/// Where the model puts a region before another and no third between them, the last block of the
/// former comes before the first of the latter: by a constraint as strong as the least confident
/// of the blocks of both.
pub proof fn model_order_is_followed(
    seats: Seq<Seat>,
    x: Seq<char>,
    y: Seq<char>,
    fx: int,
    lx: int,
    fy: int,
    ly: int,
    mx: int,
    my: int,
)
    requires
        x != y,
        heads_region(seats, x, fx),
        ends_region(seats, x, lx),
        heads_region(seats, y, fy),
        ends_region(seats, y, ly),
        0 <= mx < seats.len() && sits_in(seats[mx], x) && !seats[mx].marginal,
        0 <= my < seats.len() && sits_in(seats[my], y) && !seats[my].marginal,
        seats[lx].id@ != seats[fy].id@,
        place_of(seats[fx]) < place_of(seats[fy]),
        forall|g: int|
            0 <= g < seats.len() && (#[trigger] seats[g]).region is Some && !sits_in(seats[g], x)
                && !sits_in(seats[g], y) ==> place_of(seats[g]) < place_of(seats[fx]) || place_of(
                seats[g],
            ) > place_of(seats[fy]),
    ensures
        exists|i: int|
            0 <= i < edges_of(seats).len() && {
                let e = #[trigger] edges_of(seats)[i];
                &&& e.from == seats[lx].id@
                &&& e.to == seats[fy].id@
                &&& e.source == EdgeSource::Model
                &&& e.source_confidence == Some(e.preservation_weight)
                &&& e.preservation_weight <= 1_000_000
                &&& forall|g: int|
                    0 <= g < seats.len() && (sits_in(#[trigger] seats[g], x) || sits_in(
                        seats[g],
                        y,
                    )) && seats[g].confidence is Some ==> e.preservation_weight
                        <= seats[g].confidence->0
                &&& e.preservation_weight == 1_000_000 || exists|g: int|
                    0 <= g < seats.len() && (sits_in(#[trigger] seats[g], x) || sits_in(
                        seats[g],
                        y,
                    )) && seats[g].confidence == Some(e.preservation_weight)
            },
{
    let names = region_names(seats);
    let n = names.len() as int;
    let spans = spans_upto(seats, names, n);
    lemma_names(seats, x);
    lemma_names(seats, y);
    assert(sits_in(seats[fx], x) && sits_in(seats[fy], y));
    let rx = names.index_of(x);
    let ry = names.index_of(y);
    lemma_region_ends(seats, x, fx, lx);
    lemma_region_ends(seats, y, fy, ly);
    lemma_not_marginal(seats, x, mx);
    lemma_not_marginal(seats, y, my);
    lemma_span_place(seats, names, n, rx);
    lemma_span_place(seats, names, n, ry);
    let i = spans_upto(seats, names, rx).len() as int;
    let j = spans_upto(seats, names, ry).len() as int;
    let (a, b) = (span_of(region_seats(seats, x), x), span_of(region_seats(seats, y), y));
    assert(spans[i] == a && spans[j] == b);
    assert(a.order == place_of(seats[fx]) && b.order == place_of(seats[fy]));
    assert forall|q: int| 0 <= q < spans.len() && q != i && q != j implies SpanOrder.lt(
        #[trigger] spans[q],
        spans[i],
    ) || SpanOrder.lt(spans[j], spans[q]) by {
        let r = lemma_span_from(seats, names, n, q);
        assert(r != rx && r != ry);
        let z = names[r];
        assert(z != x && z != y);
        let s = region_seats(seats, z);
        assert(names.contains(z));
        lemma_names(seats, z);
        let g = choose|g: int| 0 <= g < seats.len() && sits_in(#[trigger] seats[g], z);
        lemma_region_holds(seats, z, seats[g]);
        assert(s.len() > 0);
        assert(s.contains(s[0]));
        lemma_region_holds(seats, z, s[0]);
        let h = choose|h: int| 0 <= h < seats.len() && #[trigger] seats[h] == s[0];
        assert(seats[h].region is Some);
    }
    let k = neighbours_stand_together(spans, SpanOrder, i, j);
    let t = ordered_spans(seats);
    assert(t[k] == a && t[k + 1] == b);
    let c = lesser(a.confidence, b.confidence);
    let e = edge(
        a.last@,
        b.first@,
        EdgeSource::Model,
        "adjacent model region order"@,
        Some(c),
    );
    assert(joins_spans(t, e, k + 1));
    lemma_edges_hold(seats, e);
    let all = edges_of(seats);
    let m = all.index_of(e);
    assert(all[m] == e);
    let (sx, sy) = (region_seats(seats, x), region_seats(seats, y));
    lemma_least(sx, sx.len() as int);
    lemma_least(sy, sy.len() as int);
    assert(e.preservation_weight == c);
    assert forall|g: int|
        0 <= g < seats.len() && (sits_in(#[trigger] seats[g], x) || sits_in(seats[g], y))
            && seats[g].confidence is Some implies e.preservation_weight
        <= seats[g].confidence->0 by {
        if sits_in(seats[g], x) {
            lemma_region_holds(seats, x, seats[g]);
            let p = sx.index_of(seats[g]);
            assert(sx[p] == seats[g]);
        } else {
            lemma_region_holds(seats, y, seats[g]);
            let p = sy.index_of(seats[g]);
            assert(sy[p] == seats[g]);
        }
    }
    if c != 1_000_000 {
        if c == a.confidence {
            let p = choose|p: int| 0 <= p < sx.len() && (#[trigger] sx[p]).confidence == Some(c);
            assert(sx.contains(sx[p]));
            lemma_region_holds(seats, x, sx[p]);
            let g = choose|g: int| 0 <= g < seats.len() && #[trigger] seats[g] == sx[p];
            assert(sits_in(seats[g], x) && seats[g].confidence == Some(c));
        } else {
            let p = choose|p: int| 0 <= p < sy.len() && (#[trigger] sy[p]).confidence == Some(c);
            assert(sy.contains(sy[p]));
            lemma_region_holds(seats, y, sy[p]);
            let g = choose|g: int| 0 <= g < seats.len() && #[trigger] seats[g] == sy[p];
            assert(sits_in(seats[g], y) && seats[g].confidence == Some(c));
        }
    }
}

/// No constraint of the model goes from a region to one that the model puts before it: it leads
/// from the last block of a region to the first of another, whose place is no earlier than that
/// of the first block of the former.
pub proof fn model_order_is_never_reversed(seats: Seq<Seat>, i: int) -> (found: (int, int, int))
    requires
        0 <= i < edges_of(seats).len(),
        edges_of(seats)[i].source == EdgeSource::Model,
    ensures
        ({
            let e = edges_of(seats)[i];
            let (first, last, next) = found;
            &&& 0 <= first < seats.len() && 0 <= last < seats.len() && 0 <= next < seats.len()
            &&& seats[first].region is Some && seats[next].region is Some
            &&& sits_in(seats[last], seats[first].region->0@)
            &&& e.from == seats[last].id@
            &&& e.to == seats[next].id@
            &&& place_of(seats[first]) <= place_of(seats[next])
            &&& forall|g: int|
                0 <= g < seats.len() && sits_in(#[trigger] seats[g], seats[first].region->0@)
                    ==> !reads_before(seats[g], seats[first]) && !reads_before(
                    seats[last],
                    seats[g],
                )
            &&& forall|g: int|
                0 <= g < seats.len() && sits_in(#[trigger] seats[g], seats[next].region->0@)
                    ==> !reads_before(seats[g], seats[next])
        }),
{
    let e = edges_of(seats)[i];
    assert(edges_of(seats).contains(e));
    lemma_edges_hold(seats, e);
    let t = ordered_spans(seats);
    let names = region_names(seats);
    let n = names.len() as int;
    let spans = spans_upto(seats, names, n);
    let k = choose|k: int| 1 <= k < t.len() && #[trigger] joins_spans(t, e, k);
    assert(joins_spans(t, e, k));
    sorting_orders_and_keeps(spans, SpanOrder);
    assert(!SpanOrder.lt(t[k], t[k - 1]));
    assert(t.contains(t[k]) && t.contains(t[k - 1]));
    sorting_holds_the_same(spans, SpanOrder, t[k]);
    sorting_holds_the_same(spans, SpanOrder, t[k - 1]);
    let p = lemma_span_from(seats, names, n, spans.index_of(t[k - 1]));
    let q = lemma_span_from(seats, names, n, spans.index_of(t[k]));
    let (f, l) = lemma_span_seats(seats, names[p]);
    let (g, h) = lemma_span_seats(seats, names[q]);
    (f, l, g)
}

/// The ends of a region are seats of it.
proof fn lemma_span_seats(seats: Seq<Seat>, name: Seq<char>) -> (ends: (int, int))
    requires
        !all_marginal(region_seats(seats, name)),
    ensures
        ({
            let s = region_seats(seats, name);
            let (f, l) = ends;
            &&& s.len() > 0
            &&& 0 <= f < seats.len() && seats[f] == s[0] && sits_in(seats[f], name)
            &&& 0 <= l < seats.len() && seats[l] == s.last() && sits_in(seats[l], name)
            &&& forall|g: int|
                0 <= g < seats.len() && sits_in(#[trigger] seats[g], name) ==> !reads_before(
                    seats[g],
                    seats[f],
                ) && !reads_before(seats[l], seats[g])
        }),
{
    let s = region_seats(seats, name);
    let list = picked_upto(seats, of_region(name), seats.len() as int);
    sorting_orders_and_keeps(list, SeatOrder::Corner);
    let last = s.len() - 1;
    assert(s.contains(s[0]) && s.contains(s[last]));
    lemma_region_holds(seats, name, s[0]);
    lemma_region_holds(seats, name, s[last]);
    let f = choose|i: int| 0 <= i < seats.len() && #[trigger] seats[i] == s[0];
    let l = choose|j: int| 0 <= j < seats.len() && #[trigger] seats[j] == s[last];
    assert forall|g: int| 0 <= g < seats.len() && sits_in(#[trigger] seats[g], name) implies
        !reads_before(seats[g], seats[f]) && !reads_before(seats[l], seats[g]) by {
        lemma_region_holds(seats, name, seats[g]);
        let k = s.index_of(seats[g]);
        SeatOrder::Corner.is_strict_weak(s[k], s[k], s[k]);
        if k > 0 {
            assert(!SeatOrder::Corner.lt(s[k], s[0]));
        }
        if k < last {
            assert(!SeatOrder::Corner.lt(s[last], s[k]));
        }
    }
    (f, l)
}

/// Whether a box lies below another: it starts where the other ends or lower, and shares some
/// width with it.
pub open spec fn lies_below(a: Bbox, c: Bbox) -> bool {
    &&& a.bottom <= c.top
    &&& a.left < a.right && c.left < c.right
    &&& a.left < c.right && c.left < a.right
}

/// Whether a box lies right of another: it starts where the other ends or further right, and
/// shares at least half of the lower height with it.
pub open spec fn lies_beside(a: Bbox, c: Bbox) -> bool {
    let top = if a.top > c.top {
        a.top
    } else {
        c.top
    };
    let bottom = if a.bottom < c.bottom {
        a.bottom
    } else {
        c.bottom
    };
    &&& a.right <= c.left
    &&& a.top < a.bottom && c.top < c.bottom
    &&& 2 * (bottom - top) >= a.bottom - a.top || 2 * (bottom - top) >= c.bottom - c.top
}

/// Whether a block is met before another to the right: it starts further left, or as far and
/// higher, or at the same corner and has the earlier identity.
pub open spec fn met_before(a: Seat, b: Seat) -> bool {
    ||| a.bbox.left < b.bbox.left
    ||| a.bbox.left == b.bbox.left && a.bbox.top < b.bbox.top
    ||| a.bbox.left == b.bbox.left && a.bbox.top == b.bbox.top && text_before(a.id@, b.id@)
}

proof fn lemma_nearest(s: Seq<Seat>, source: Seat, n: int)
    requires
        0 <= n <= s.len(),
    ensures
        match nearest_upto(s, source, true, n) {
            None => forall|d: int|
                0 <= d < n ==> !((#[trigger] s[d]).id@ != source.id@ && lies_below(
                    source.bbox,
                    s[d].bbox,
                )),
            Some(c) => 0 <= c < n && s[c].id@ != source.id@ && lies_below(source.bbox, s[c].bbox)
                && forall|d: int|
                0 <= d < n && (#[trigger] s[d]).id@ != source.id@ && lies_below(
                    source.bbox,
                    s[d].bbox,
                ) ==> !reads_before(s[d], s[c]),
        },
        match nearest_upto(s, source, false, n) {
            None => forall|d: int|
                0 <= d < n ==> !((#[trigger] s[d]).id@ != source.id@ && lies_beside(
                    source.bbox,
                    s[d].bbox,
                )),
            Some(c) => 0 <= c < n && s[c].id@ != source.id@ && lies_beside(source.bbox, s[c].bbox)
                && forall|d: int|
                0 <= d < n && (#[trigger] s[d]).id@ != source.id@ && lies_beside(
                    source.bbox,
                    s[d].bbox,
                ) ==> !met_before(s[d], s[c]),
        },
    decreases n,
{
    if n > 0 {
        lemma_nearest(s, source, n - 1);
        let x = s[n - 1];
        text_order_is_strict_weak(x.id@, x.id@, x.id@);
        if let Some(c) = nearest_upto(s, source, true, n - 1) {
            assert forall|d: int| 0 <= d < n - 1 && !reads_before(#[trigger] s[d], s[c])
                && reads_before(x, s[c]) implies !reads_before(s[d], x) by {
                text_order_is_strict_weak(s[d].id@, x.id@, s[c].id@);
            }
        }
        if let Some(c) = nearest_upto(s, source, false, n - 1) {
            assert forall|d: int| 0 <= d < n - 1 && !met_before(#[trigger] s[d], s[c])
                && met_before(x, s[c]) implies !met_before(s[d], x) by {
                text_order_is_strict_weak(s[d].id@, x.id@, s[c].id@);
            }
        }
    }
}

/// Whether a page holds a constraint of a weight between two blocks.
pub open spec fn holds_edge(
    seats: Seq<Seat>,
    from: Seat,
    to: Seat,
    source: EdgeSource,
    weight: u32,
) -> bool {
    exists|i: int|
        0 <= i < edges_of(seats).len() && (#[trigger] edges_of(seats)[i]).from == from.id@
            && edges_of(seats)[i].to == to.id@ && edges_of(seats)[i].source == source
            && edges_of(seats)[i].preservation_weight == weight
}

proof fn lemma_holds_edge(seats: Seq<Seat>, e: EdgeModel, from: Seat, to: Seat)
    requires
        edges_of(seats).contains(e),
        e.from == from.id@,
        e.to == to.id@,
    ensures
        holds_edge(seats, from, to, e.source, e.preservation_weight),
{
    let i = edges_of(seats).index_of(e);
    assert(edges_of(seats)[i] == e);
}

/// A block comes before the first of those that lie below it, by a constraint that is never given
/// up, and before the first of those that lie beside it, by one of sixty-five hundredths.
pub proof fn neighbours_follow(seats: Seq<Seat>, i: int, c: int)
    requires
        0 <= i < seats.len(),
        0 <= c < seats.len(),
        seats[c].id@ != seats[i].id@,
    ensures
        lies_below(seats[i].bbox, seats[c].bbox) && (forall|d: int|
            0 <= d < seats.len() && d != c && (#[trigger] seats[d]).id@ != seats[i].id@
                && lies_below(seats[i].bbox, seats[d].bbox) ==> reads_before(seats[c], seats[d]))
            ==> holds_edge(seats, seats[i], seats[c], EdgeSource::StrongVertical, 1_000_000),
        lies_beside(seats[i].bbox, seats[c].bbox) && (forall|d: int|
            0 <= d < seats.len() && d != c && (#[trigger] seats[d]).id@ != seats[i].id@
                && lies_beside(seats[i].bbox, seats[d].bbox) ==> met_before(seats[c], seats[d]))
            ==> holds_edge(seats, seats[i], seats[c], EdgeSource::BandHorizontal, 650_000),
{
    let n = seats.len() as int;
    lemma_nearest(seats, seats[i], n);
    if lies_below(seats[i].bbox, seats[c].bbox) && (forall|d: int|
        0 <= d < seats.len() && d != c && (#[trigger] seats[d]).id@ != seats[i].id@ && lies_below(
            seats[i].bbox,
            seats[d].bbox,
        ) ==> reads_before(seats[c], seats[d])) {
        let at = nearest_upto(seats, seats[i], true, n)->0;
        assert(at == c);
        let e = edge(
            seats[i].id@,
            seats[c].id@,
            EdgeSource::StrongVertical,
            "nearest non-overlapping vertical geometry"@,
            None,
        );
        assert(nears(seats, e, i));
        lemma_edges_hold(seats, e);
        lemma_holds_edge(seats, e, seats[i], seats[c]);
    }
    if lies_beside(seats[i].bbox, seats[c].bbox) && (forall|d: int|
        0 <= d < seats.len() && d != c && (#[trigger] seats[d]).id@ != seats[i].id@ && lies_beside(
            seats[i].bbox,
            seats[d].bbox,
        ) ==> met_before(seats[c], seats[d])) {
        let at = nearest_upto(seats, seats[i], false, n)->0;
        assert(at == c);
        let e = edge(
            seats[i].id@,
            seats[c].id@,
            EdgeSource::BandHorizontal,
            "nearest same-band left-to-right geometry"@,
            None,
        );
        assert(nears(seats, e, i));
        lemma_edges_hold(seats, e);
        lemma_holds_edge(seats, e, seats[i], seats[c]);
    }
}

/// A constraint by place leads down the page or to marginal content, one between columns to the
/// right.
pub proof fn neighbours_are_never_reversed(seats: Seq<Seat>, i: int) -> (found: (int, int))
    requires
        0 <= i < edges_of(seats).len(),
        edges_of(seats)[i].source == EdgeSource::StrongVertical || edges_of(seats)[i].source
            == EdgeSource::BandHorizontal,
    ensures
        ({
            let e = edges_of(seats)[i];
            let (a, b) = found;
            &&& 0 <= a < seats.len() && 0 <= b < seats.len()
            &&& e.from == seats[a].id@ && e.to == seats[b].id@
            &&& e.source == EdgeSource::StrongVertical ==> lies_below(
                seats[a].bbox,
                seats[b].bbox,
            ) || (!seats[a].marginal && seats[b].marginal)
            &&& e.source == EdgeSource::BandHorizontal ==> lies_beside(
                seats[a].bbox,
                seats[b].bbox,
            )
        }),
{
    let e = edges_of(seats)[i];
    let n = seats.len() as int;
    assert(edges_of(seats).contains(e));
    lemma_edges_hold(seats, e);
    if from_margin(seats, e) {
        let at = last_main_upto(seats, n)->0;
        lemma_last_main(seats, n);
        let (m, b) = lemma_first_marginal(seats);
        (at, b)
    } else {
        let k = choose|k: int| 0 <= k < seats.len() && #[trigger] nears(seats, e, k);
        assert(nears(seats, e, k));
        lemma_nearest(seats, seats[k], n);
        if e.source == EdgeSource::StrongVertical {
            (k, nearest_upto(seats, seats[k], true, n)->0)
        } else {
            (k, nearest_upto(seats, seats[k], false, n)->0)
        }
    }
}

/// The last block of the main flow.
proof fn lemma_last_main(s: Seq<Seat>, n: int)
    requires
        0 <= n <= s.len(),
    ensures
        match last_main_upto(s, n) {
            None => forall|d: int| 0 <= d < n ==> (#[trigger] s[d]).marginal,
            Some(c) => 0 <= c < n && !s[c].marginal && forall|d: int|
                0 <= d < n && !(#[trigger] s[d]).marginal ==> s[d].bbox.bottom < s[c].bbox.bottom
                    || (s[d].bbox.bottom == s[c].bbox.bottom && s[d].bbox.right
                    <= s[c].bbox.right),
        },
    decreases n,
{
    if n > 0 {
        lemma_last_main(s, n - 1);
    }
}

/// The first block of the margin, and where it is.
proof fn lemma_first_marginal(seats: Seq<Seat>) -> (found: (Seat, int))
    requires
        sorted(picked(seats, |x: Seat| x.marginal), SeatOrder::Corner).len() > 0,
    ensures
        found.0 == sorted(picked(seats, |x: Seat| x.marginal), SeatOrder::Corner)[0],
        0 <= found.1 < seats.len(),
        seats[found.1] == found.0,
        found.0.marginal,
        forall|g: int|
            0 <= g < seats.len() && (#[trigger] seats[g]).marginal ==> !reads_before(
                seats[g],
                found.0,
            ),
{
    let want = |x: Seat| x.marginal;
    let list = picked(seats, want);
    let m = sorted(list, SeatOrder::Corner);
    let n = seats.len() as int;
    sorting_orders_and_keeps(list, SeatOrder::Corner);
    let x = m[0];
    assert(m.contains(x));
    sorting_holds_the_same(list, SeatOrder::Corner, x);
    lemma_picked_holds(seats, want, n, x);
    let b = choose|b: int| 0 <= b < n && #[trigger] seats[b] == x;
    assert forall|g: int| 0 <= g < n && (#[trigger] seats[g]).marginal implies !reads_before(
        seats[g],
        x,
    ) by {
        lemma_picked_holds(seats, want, n, seats[g]);
        sorting_holds_the_same(list, SeatOrder::Corner, seats[g]);
        let k = m.index_of(seats[g]);
        SeatOrder::Corner.is_strict_weak(x, x, x);
        if k > 0 {
            assert(!SeatOrder::Corner.lt(m[k], m[0]));
        }
    }
    (x, b)
}

/// Rotated content at the margin comes behind the lowest block of the main flow.
pub proof fn margins_come_last(seats: Seq<Seat>, main: int, margin: int)
    requires
        0 <= main < seats.len() && !seats[main].marginal,
        0 <= margin < seats.len() && seats[margin].marginal,
        seats[main].id@ != seats[margin].id@,
        forall|d: int|
            0 <= d < seats.len() && d != main && !(#[trigger] seats[d]).marginal
                ==> seats[d].bbox.bottom < seats[main].bbox.bottom || (seats[d].bbox.bottom
                == seats[main].bbox.bottom && seats[d].bbox.right < seats[main].bbox.right),
        forall|d: int|
            0 <= d < seats.len() && d != margin && (#[trigger] seats[d]).marginal ==> reads_before(
                seats[margin],
                seats[d],
            ),
    ensures
        holds_edge(seats, seats[main], seats[margin], EdgeSource::StrongVertical, 1_000_000),
{
    let n = seats.len() as int;
    let want = |x: Seat| x.marginal;
    let list = picked(seats, want);
    let m = sorted(list, SeatOrder::Corner);
    lemma_last_main(seats, n);
    let at = last_main_upto(seats, n)->0;
    assert(at == main);
    lemma_picked_holds(seats, want, n, seats[margin]);
    sorting_holds_the_same(list, SeatOrder::Corner, seats[margin]);
    let (x, b) = lemma_first_marginal(seats);
    assert(x == seats[margin]);
    let e = edge(
        seats[main].id@,
        seats[margin].id@,
        EdgeSource::StrongVertical,
        "main flow before rotated marginal content"@,
        None,
    );
    assert(from_margin(seats, e));
    lemma_edges_hold(seats, e);
    lemma_holds_edge(seats, e, seats[main], seats[margin]);
}

/// The blank between two boxes, one above the other; none where they overlap.
pub open spec fn blank_between(a: Bbox, b: Bbox) -> int {
    if a.bottom < b.top {
        b.top - a.bottom
    } else if b.bottom < a.top {
        a.top - b.bottom
    } else {
        0
    }
}

proof fn lemma_object(s: Seq<Seat>, c: Seat, n: int)
    requires
        0 <= n <= s.len(),
    ensures
        match object_upto(s, c, n) {
            None => forall|d: int| 0 <= d < n ==> !(#[trigger] s[d]).visual,
            Some(o) => 0 <= o < n && s[o].visual && forall|d: int|
                0 <= d < n && (#[trigger] s[d]).visual ==> blank_between(c.bbox, s[o].bbox)
                    <= blank_between(c.bbox, s[d].bbox) && (blank_between(c.bbox, s[o].bbox)
                    == blank_between(c.bbox, s[d].bbox) ==> !text_before(s[d].id@, s[o].id@)),
        },
    decreases n,
{
    if n > 0 {
        lemma_object(s, c, n - 1);
        let x = s[n - 1];
        text_order_is_strict_weak(x.id@, x.id@, x.id@);
        if let Some(o) = object_upto(s, c, n - 1) {
            assert forall|d: int|
                0 <= d < n - 1 && !text_before(#[trigger] s[d].id@, s[o].id@) && text_before(
                    x.id@,
                    s[o].id@,
                ) implies !text_before(s[d].id@, x.id@) by {
                text_order_is_strict_weak(s[d].id@, x.id@, s[o].id@);
            }
        }
    }
}

/// A caption comes behind the picture, chart or table nearest to it where it lies below, and
/// before it where it does not, by a constraint of eight tenths.
pub proof fn captions_stay_with_their_objects(seats: Seq<Seat>, i: int, o: int)
    requires
        0 <= i < seats.len() && seats[i].caption,
        0 <= o < seats.len() && seats[o].visual,
        seats[i].id@ != seats[o].id@,
        forall|d: int|
            0 <= d < seats.len() && d != o && (#[trigger] seats[d]).visual ==> blank_between(
                seats[i].bbox,
                seats[o].bbox,
            ) < blank_between(seats[i].bbox, seats[d].bbox) || (blank_between(
                seats[i].bbox,
                seats[o].bbox,
            ) == blank_between(seats[i].bbox, seats[d].bbox) && text_before(
                seats[o].id@,
                seats[d].id@,
            )),
    ensures
        seats[i].bbox.top >= seats[o].bbox.bottom ==> holds_edge(
            seats,
            seats[o],
            seats[i],
            EdgeSource::CaptionRelation,
            800_000,
        ),
        seats[i].bbox.top < seats[o].bbox.bottom ==> holds_edge(
            seats,
            seats[i],
            seats[o],
            EdgeSource::CaptionRelation,
            800_000,
        ),
{
    let n = seats.len() as int;
    let c = seats[i];
    lemma_object(seats, c, n);
    let at = object_upto(seats, c, n)->0;
    assert(at == o);
    let e = if c.bbox.top >= seats[o].bbox.bottom {
        edge(
            seats[o].id@,
            c.id@,
            EdgeSource::CaptionRelation,
            "visual object before lower caption"@,
            c.confidence,
        )
    } else {
        edge(
            c.id@,
            seats[o].id@,
            EdgeSource::CaptionRelation,
            "upper caption before visual object"@,
            c.confidence,
        )
    };
    assert(captions(seats, e, i));
    lemma_edges_hold(seats, e);
    if c.bbox.top >= seats[o].bbox.bottom {
        lemma_holds_edge(seats, e, seats[o], c);
    } else {
        lemma_holds_edge(seats, e, c, seats[o]);
    }
}

/// Only captions and pictures, charts or tables are held together as captions.
pub proof fn only_captions_are_captioned(seats: Seq<Seat>, i: int) -> (found: (int, int))
    requires
        0 <= i < edges_of(seats).len(),
        edges_of(seats)[i].source == EdgeSource::CaptionRelation,
    ensures
        ({
            let e = edges_of(seats)[i];
            let (c, o) = found;
            &&& 0 <= c < seats.len() && 0 <= o < seats.len()
            &&& seats[c].caption && seats[o].visual
            &&& seats[c].bbox.top >= seats[o].bbox.bottom ==> e.from == seats[o].id@ && e.to
                == seats[c].id@
            &&& seats[c].bbox.top < seats[o].bbox.bottom ==> e.from == seats[c].id@ && e.to
                == seats[o].id@
        }),
{
    let e = edges_of(seats)[i];
    let n = seats.len() as int;
    assert(edges_of(seats).contains(e));
    lemma_edges_hold(seats, e);
    let c = choose|c: int| 0 <= c < seats.len() && #[trigger] captions(seats, e, c);
    assert(captions(seats, e, c));
    lemma_object(seats, seats[c], n);
    (c, object_upto(seats, seats[c], n)->0)
}

/// Whether a fallback block stands before another: by the spelling of its region, then by its
/// identity.
pub open spec fn region_before(a: Seat, b: Seat) -> bool {
    a.fallback is Some && b.fallback is Some && (text_before(a.fallback->0@, b.fallback->0@) || (
    a.fallback->0@ == b.fallback->0@ && text_before(a.id@, b.id@)))
}

/// Positions of picked seats come from those of the seats.
proof fn lemma_picked_from(s: Seq<Seat>, want: spec_fn(Seat) -> bool, n: int, q: int) -> (i: int)
    requires
        0 <= n <= s.len(),
        0 <= q < picked_upto(s, want, n).len(),
    ensures
        0 <= i < n,
        want(s[i]),
        picked_upto(s, want, n)[q] == s[i],
        picked_upto(s, want, i).len() == q,
    decreases n,
{
    if q < picked_upto(s, want, n - 1).len() {
        lemma_picked_from(s, want, n - 1, q)
    } else {
        n - 1
    }
}

proof fn lemma_picked_place(s: Seq<Seat>, want: spec_fn(Seat) -> bool, n: int, i: int)
    requires
        0 <= i < n <= s.len(),
        want(s[i]),
    ensures
        picked_upto(s, want, i).len() < picked_upto(s, want, n).len(),
        picked_upto(s, want, n)[picked_upto(s, want, i).len() as int] == s[i],
    decreases n,
{
    if i < n - 1 {
        lemma_picked_place(s, want, n - 1, i);
    }
}

/// Blocks of fallback regions follow each other in the order of their regions, by constraints of
/// eighty-five hundredths.
pub proof fn fallback_regions_follow(seats: Seq<Seat>, i: int, j: int)
    requires
        0 <= i < seats.len(),
        0 <= j < seats.len(),
        seats[i].id@ != seats[j].id@,
        region_before(seats[i], seats[j]),
        forall|d: int|
            0 <= d < seats.len() && d != i && d != j && (#[trigger] seats[d]).fallback is Some
                ==> region_before(seats[d], seats[i]) || region_before(seats[j], seats[d]),
    ensures
        holds_edge(seats, seats[i], seats[j], EdgeSource::XyCut, 850_000),
{
    let n = seats.len() as int;
    let want = |x: Seat| x.fallback is Some;
    let list = picked(seats, want);
    lemma_picked_place(seats, want, n, i);
    lemma_picked_place(seats, want, n, j);
    let p = picked_upto(seats, want, i).len() as int;
    let q = picked_upto(seats, want, j).len() as int;
    lemma_region_order(seats[i], seats[j]);
    assert forall|d: int| 0 <= d < list.len() && d != p && d != q implies SeatOrder::Fallback.lt(
        #[trigger] list[d],
        list[p],
    ) || SeatOrder::Fallback.lt(list[q], list[d]) by {
        let k = lemma_picked_from(seats, want, n, d);
        assert(k != i && k != j);
        lemma_region_order(seats[k], seats[i]);
        lemma_region_order(seats[j], seats[k]);
    }
    let k = neighbours_stand_together(list, SeatOrder::Fallback, p, q);
    let f = fallback_seats(seats);
    assert(f == sorted(list, SeatOrder::Fallback));
    let e = edge(
        seats[i].id@,
        seats[j].id@,
        EdgeSource::XyCut,
        "adjacent residual XY-cut leaves"@,
        None,
    );
    assert(joins(f, EdgeSource::XyCut, "adjacent residual XY-cut leaves"@, e, k + 1));
    lemma_edges_hold(seats, e);
    lemma_holds_edge(seats, e, seats[i], seats[j]);
}

proof fn lemma_region_order(a: Seat, b: Seat)
    ensures
        region_before(a, b) ==> SeatOrder::Fallback.lt(a, b),
{
    if region_before(a, b) {
        let (x, y) = (a.fallback->0@, b.fallback->0@);
        text_order_is_strict_weak(x, y, x);
        text_order_is_strict_weak(y, x, y);
    }
}

/// A block without a detected region is held between its neighbours by place, by constraints of
/// six tenths.
pub proof fn fallback_blocks_are_inserted(seats: Seq<Seat>, i: int, j: int)
    requires
        0 <= i < seats.len(),
        0 <= j < seats.len(),
        seats[i].id@ != seats[j].id@,
        seats[i].label_source == LabelSource::Fallback || seats[j].label_source
            == LabelSource::Fallback,
        reads_before(seats[i], seats[j]),
        forall|d: int|
            0 <= d < seats.len() && d != i && d != j ==> reads_before(#[trigger] seats[d], seats[i])
                || reads_before(seats[j], seats[d]),
    ensures
        holds_edge(seats, seats[i], seats[j], EdgeSource::FallbackInsertion, 600_000),
{
    assert forall|d: int| 0 <= d < seats.len() && d != i && d != j implies SeatOrder::Corner.lt(
        #[trigger] seats[d],
        seats[i],
    ) || SeatOrder::Corner.lt(seats[j], seats[d]) by {}
    let k = neighbours_stand_together(seats, SeatOrder::Corner, i, j);
    let s = sorted(seats, SeatOrder::Corner);
    sorting_orders_and_keeps(seats, SeatOrder::Corner);
    let e = edge(
        seats[i].id@,
        seats[j].id@,
        EdgeSource::FallbackInsertion,
        "fallback block geometry insertion"@,
        None,
    );
    assert(inserts(s, e, k + 1));
    lemma_edges_hold(seats, e);
    lemma_holds_edge(seats, e, seats[i], seats[j]);
}

/// The blocks of one region follow each other from top to bottom, by constraints that are never
/// given up.
pub proof fn regions_read_from_the_top(seats: Seq<Seat>, name: Seq<char>, i: int, j: int)
    requires
        0 <= i < seats.len() && sits_in(seats[i], name),
        0 <= j < seats.len() && sits_in(seats[j], name),
        seats[i].id@ != seats[j].id@,
        reads_before(seats[i], seats[j]),
        forall|d: int|
            0 <= d < seats.len() && d != i && d != j && sits_in(#[trigger] seats[d], name)
                ==> reads_before(seats[d], seats[i]) || reads_before(seats[j], seats[d]),
    ensures
        holds_edge(seats, seats[i], seats[j], EdgeSource::IntraRegion, 1_000_000),
{
    let n = seats.len() as int;
    let want = of_region(name);
    let list = picked_upto(seats, want, n);
    lemma_picked_place(seats, want, n, i);
    lemma_picked_place(seats, want, n, j);
    let p = picked_upto(seats, want, i).len() as int;
    let q = picked_upto(seats, want, j).len() as int;
    assert forall|d: int| 0 <= d < list.len() && d != p && d != q implies SeatOrder::Corner.lt(
        #[trigger] list[d],
        list[p],
    ) || SeatOrder::Corner.lt(list[q], list[d]) by {
        let k = lemma_picked_from(seats, want, n, d);
        assert(k != i && k != j);
        assert(sits_in(seats[k], name));
    }
    let k = neighbours_stand_together(list, SeatOrder::Corner, p, q);
    let s = region_seats(seats, name);
    let names = region_names(seats);
    lemma_names(seats, name);
    assert(names.contains(name));
    let r = names.index_of(name);
    let e = edge(
        seats[i].id@,
        seats[j].id@,
        EdgeSource::IntraRegion,
        "children of one model region"@,
        Some(lesser(known(seats[i].confidence), known(seats[j].confidence))),
    );
    assert(joins_inside(s, e, k + 1));
    assert(joins_region(seats, names, e, r, k + 1));
    lemma_edges_hold(seats, e);
    lemma_holds_edge(seats, e, seats[i], seats[j]);
}

/// Where every constraint leads to a higher number, no path leads to a lower one.
proof fn lemma_path_climbs(
    links: Seq<Link>,
    active: Seq<bool>,
    rank: spec_fn(int) -> int,
    a: int,
    b: int,
    k: nat,
)
    requires
        forall|e: int|
            0 <= e < links.len() ==> rank((#[trigger] links[e]).from as int) < rank(
                links[e].to as int,
            ),
        path(links, active, a, b, k),
    ensures
        rank(a) <= rank(b),
    decreases k,
{
    if a != b {
        let e = choose|e: int| #[trigger]
            leaves(links, active, e, a) && path(links, active, links[e].to as int, b, (k - 1) as nat);
        lemma_path_climbs(links, active, rank, links[e].to as int, b, (k - 1) as nat);
    }
}

/// Every key is kept.
proof fn lemma_keys_kept(s: Seq<EdgeModel>, n: int, i: int) -> (k: int)
    requires
        0 <= i < n <= s.len(),
    ensures
        0 <= k < first_of_keys(s, n).len(),
        first_of_keys(s, n)[k].stable_key == s[i].stable_key,
    decreases n,
{
    let before = first_of_keys(s, n - 1);
    if i < n - 1 {
        lemma_keys_kept(s, n - 1, i)
    } else if before.len() > 0 && before.last().stable_key == s[n - 1].stable_key {
        before.len() - 1
    } else {
        before.len() as int
    }
}

/// Where keys tell constraints apart, every constraint is kept.
proof fn lemma_all_kept(edges: Seq<EdgeModel>, e: EdgeModel) -> (k: int)
    requires
        edges.contains(e),
        forall|i: int, j: int|
            #![trigger edges[i], edges[j]]
            0 <= i < edges.len() && 0 <= j < edges.len() && edges[i].stable_key
                == edges[j].stable_key ==> edges[i] == edges[j],
    ensures
        0 <= k < normalized(edges).len(),
        normalized(edges)[k] == e,
{
    let s = sorted(edges, KeyOrder);
    sorting_orders_and_keeps(edges, KeyOrder);
    sorting_holds_the_same(edges, KeyOrder, e);
    let i = s.index_of(e);
    let k = lemma_keys_kept(s, edges.len() as int, i);
    lemma_normalized(edges);
    let f = normalized(edges)[k];
    assert(edges.contains(f));
    let (p, q) = (edges.index_of(e), edges.index_of(f));
    assert(edges[p] == e && edges[q] == f);
    k
}

/// Where ids of a list differ somewhere, they differ between two neighbours.
proof fn lemma_step(s: Seq<Seat>, u: int, v: int) -> (k: int)
    requires
        0 <= u < v < s.len(),
        s[u].id@ != s[v].id@,
    ensures
        u < k <= v,
        s[k - 1].id@ != s[k].id@,
    decreases v - u,
{
    if s[v - 1].id@ != s[v].id@ {
        v
    } else {
        lemma_step(s, u, v - 1)
    }
}

/// Whether all that holds between the blocks of a page is the order of the model: identities and
/// keys tell blocks and constraints apart, and every constraint comes from the model.
pub open spec fn only_model_speaks(seats: Seq<Seat>) -> bool {
    &&& seats.len() <= usize::MAX
    &&& forall|i: int, j: int|
        #![trigger seats[i], seats[j]]
        0 <= i < j < seats.len() ==> seats[i].id@ != seats[j].id@
    &&& forall|i: int|
        0 <= i < edges_of(seats).len() ==> (#[trigger] edges_of(seats)[i]).source
            == EdgeSource::Model
    &&& forall|i: int, j: int|
        #![trigger edges_of(seats)[i], edges_of(seats)[j]]
        0 <= i < edges_of(seats).len() && 0 <= j < edges_of(seats).len() && edges_of(
            seats,
        )[i].stable_key == edges_of(seats)[j].stable_key ==> edges_of(seats)[i] == edges_of(
            seats,
        )[j]
}

/// Where only the model speaks, a region has one block.
proof fn lemma_one_block(seats: Seq<Seat>, name: Seq<char>, a: int, b: int)
    requires
        only_model_speaks(seats),
        0 <= a < seats.len() && sits_in(seats[a], name),
        0 <= b < seats.len() && sits_in(seats[b], name),
    ensures
        a == b,
{
    if a != b {
        let s = region_seats(seats, name);
        let (x, y) = (seats[a], seats[b]);
        assert(x.id@ != y.id@) by {
            if a < b {
                assert(seats[a].id@ != seats[b].id@);
            } else {
                assert(seats[b].id@ != seats[a].id@);
            }
        }
        lemma_region_holds(seats, name, x);
        lemma_region_holds(seats, name, y);
        let u = s.index_of(x);
        let v = s.index_of(y);
        assert(s[u] == x && s[v] == y);
        let k = if u < v {
            lemma_step(s, u, v)
        } else {
            lemma_step(s, v, u)
        };
        let names = region_names(seats);
        lemma_names(seats, name);
        assert(names.contains(name));
        let r = names.index_of(name);
        let e = edge(
            s[k - 1].id@,
            s[k].id@,
            EdgeSource::IntraRegion,
            "children of one model region"@,
            Some(lesser(known(s[k - 1].confidence), known(s[k].confidence))),
        );
        assert(joins_inside(s, e, k));
        assert(joins_region(seats, names, e, r, k));
        lemma_edges_hold(seats, e);
        let i = edges_of(seats).index_of(e);
        assert(edges_of(seats)[i] == e);
    }
}

/// Where only the model speaks, the span at a place is one block of one region.
proof fn lemma_span_block(seats: Seq<Seat>, k: int) -> (g: int)
    requires
        only_model_speaks(seats),
        0 <= k < ordered_spans(seats).len(),
    ensures
        0 <= g < seats.len(),
        seats[g].region is Some,
        ordered_spans(seats)[k].first == seats[g].id,
        ordered_spans(seats)[k].last == seats[g].id,
        ordered_spans(seats)[k].order == place_of(seats[g]),
{
    let names = region_names(seats);
    let n = names.len() as int;
    let spans = spans_upto(seats, names, n);
    let t = ordered_spans(seats);
    assert(t.contains(t[k]));
    sorting_holds_the_same(spans, SpanOrder, t[k]);
    let q = spans.index_of(t[k]);
    let r = lemma_span_from(seats, names, n, q);
    let (f, l) = lemma_span_seats(seats, names[r]);
    lemma_one_block(seats, names[r], f, l);
    f
}

/// Where only the model speaks, spans are different blocks.
proof fn lemma_spans_apart(seats: Seq<Seat>, a: int, b: int)
    requires
        only_model_speaks(seats),
        0 <= a < ordered_spans(seats).len(),
        0 <= b < ordered_spans(seats).len(),
        a != b,
    ensures
        ordered_spans(seats)[a].first@ != ordered_spans(seats)[b].first@,
{
    let names = region_names(seats);
    let n = names.len() as int;
    let spans = spans_upto(seats, names, n);
    let t = ordered_spans(seats);
    if t[a].first@ == t[b].first@ {
        sorting_orders_and_keeps(spans, SpanOrder);
        assert(t.contains(t[a]) && t.contains(t[b]));
        sorting_holds_the_same(spans, SpanOrder, t[a]);
        sorting_holds_the_same(spans, SpanOrder, t[b]);
        let p = spans.index_of(t[a]);
        let q = spans.index_of(t[b]);
        lemma_spans_differ(seats, p, q);
        assert(t[a] == t[b]);
        lemma_twice(t, a, b);
        assert forall|m: int| 0 <= m < spans.len() && m != p implies #[trigger] spans[m]
            != spans[p] by {
            if spans[m] == spans[p] {
                lemma_spans_differ(seats, m, p);
            }
        }
        lemma_once(spans, p);
    }
}

proof fn lemma_spans_differ(seats: Seq<Seat>, p: int, q: int)
    requires
        only_model_speaks(seats),
        ({
            let names = region_names(seats);
            let spans = spans_upto(seats, names, names.len() as int);
            0 <= p < spans.len() && 0 <= q < spans.len() && spans[p].first@ == spans[q].first@
        }),
    ensures
        p == q,
{
    let names = region_names(seats);
    let n = names.len() as int;
    let spans = spans_upto(seats, names, n);
    let r = lemma_span_from(seats, names, n, p);
    let m = lemma_span_from(seats, names, n, q);
    let (f, l) = lemma_span_seats(seats, names[r]);
    let (g, h) = lemma_span_seats(seats, names[m]);
    assert(seats[f].id@ == seats[g].id@);
    assert(f == g) by {
        if f < g {
            assert(seats[f].id@ != seats[g].id@);
        } else if g < f {
            assert(seats[g].id@ != seats[f].id@);
        }
    }
    assert(names[r] == names[m]);
    lemma_names(seats, names[r]);
    assert(r == m);
}

/// The constraint between two neighbouring spans.
spec fn span_edge(t: Seq<RegionSpan>, k: int) -> EdgeModel {
    edge(
        t[k - 1].last@,
        t[k].first@,
        EdgeSource::Model,
        "adjacent model region order"@,
        Some(lesser(t[k - 1].confidence, t[k].confidence)),
    )
}

/// Where only the model speaks, its constraints contain no cycle.
proof fn lemma_model_acyclic(seats: Seq<Seat>)
    requires
        only_model_speaks(seats),
    ensures
        ({
            let links = links_of(nodes_of(seats), normalized(edges_of(seats)));
            acyclic(links, all_active(links))
        }),
{
    let nodes = nodes_of(seats);
    let edges = edges_of(seats);
    let kept = normalized(edges);
    let links = links_of(nodes, kept);
    let active = all_active(links);
    let t = ordered_spans(seats);
    let rank = |v: int| choose|k: int| 0 <= k < t.len() && (#[trigger] t[k]).first@ == nodes[v].id;
    constraints_name_blocks(seats);
    lemma_nodes_ascend(seats, seats.len() as int);
    lemma_normalized(edges);
    assert forall|e: int| 0 <= e < links.len() implies rank((#[trigger] links[e]).from as int)
        < rank(links[e].to as int) by {
        lemma_endpoints(nodes, edges, e);
        let x = kept[e];
        assert(edges.contains(x));
        lemma_edges_hold(seats, x);
        let i = edges.index_of(x);
        assert(edges[i].source == EdgeSource::Model);
        let k = choose|k: int| 1 <= k < t.len() && #[trigger] joins_spans(t, x, k);
        assert(joins_spans(t, x, k));
        let g = lemma_span_block(seats, k - 1);
        let (u, v) = (links[e].from as int, links[e].to as int);
        assert(t[k - 1].first@ == nodes[u].id);
        assert(t[k].first@ == nodes[v].id);
        let (a, b) = (rank(u), rank(v));
        if a != k - 1 {
            lemma_spans_apart(seats, a, k - 1);
        }
        if b != k {
            lemma_spans_apart(seats, b, k);
        }
    }
    assert forall|e: int| 0 <= e < links.len() implies !#[trigger] in_cycle(
        links,
        active,
        e,
    ) by {
        if in_cycle(links, active, e) {
            let (a, b) = (links[e].to as int, links[e].from as int);
            let k = choose|k: nat| path(links, active, a, b, k);
            lemma_path_climbs(links, active, rank, a, b, k);
        }
    }
}

/// Where only the model speaks, spans are read in their order.
proof fn lemma_spans_read(
    seats: Seq<Seat>,
    nodes: Seq<NodeModel>,
    places: Seq<usize>,
    a: int,
    b: int,
) -> (at: (int, int))
    requires
        only_model_speaks(seats),
        nodes == nodes_of(seats),
        resolved(nodes, edges_of(seats)) matches Resolved::Ordered { places: found, removed }
            && found == places && removed.len() == 0,
        0 <= a < b < ordered_spans(seats).len(),
    ensures
        0 <= at.0 < at.1 < places.len(),
        ids_at(nodes, places)[at.0] == ordered_spans(seats)[a].first@,
        ids_at(nodes, places)[at.1] == ordered_spans(seats)[b].first@,
    decreases b - a,
{
    let t = ordered_spans(seats);
    let edges = edges_of(seats);
    let ids = ids_at(nodes, places);
    lemma_nodes_ascend(seats, seats.len() as int);
    reading_orders_keep_constraints(nodes, edges);
    lemma_ids_distinct(nodes, places);
    let e = span_edge(t, b);
    let g = lemma_span_block(seats, b - 1);
    lemma_spans_apart(seats, b - 1, b);
    assert(joins_spans(t, e, b));
    lemma_edges_hold(seats, e);
    let k = lemma_all_kept(edges, e);
    let kept = normalized(edges)[k];
    let (u, v) = choose|i: int, j: int|
        0 <= i < j < places.len() && #[trigger] ids[i] == kept.from && #[trigger] ids[j]
            == kept.to;
    assert(ids[u] == t[b - 1].first@ && ids[v] == t[b].first@);
    if a == b - 1 {
        (u, v)
    } else {
        let (p, q) = lemma_spans_read(seats, nodes, places, a, b - 1);
        assert(ids[q] == ids[u]);
        assert(q == u);
        (p, v)
    }
}

/// Where the span of a block stands.
proof fn lemma_block_span(seats: Seq<Seat>, i: int) -> (k: int)
    requires
        only_model_speaks(seats),
        0 <= i < seats.len(),
        seats[i].region is Some,
        !seats[i].marginal,
    ensures
        0 <= k < ordered_spans(seats).len(),
        ordered_spans(seats)[k].first@ == seats[i].id@,
        ordered_spans(seats)[k].order == place_of(seats[i]),
{
    let names = region_names(seats);
    let n = names.len() as int;
    let x = seats[i].region->0@;
    let spans = spans_upto(seats, names, n);
    lemma_names(seats, x);
    assert(sits_in(seats[i], x));
    assert(names.contains(x));
    let r = names.index_of(x);
    lemma_not_marginal(seats, x, i);
    lemma_span_place(seats, names, n, r);
    let q = spans_upto(seats, names, r).len() as int;
    let (f, l) = lemma_span_seats(seats, x);
    lemma_one_block(seats, x, f, i);
    assert(spans.contains(spans[q]));
    sorting_holds_the_same(spans, SpanOrder, spans[q]);
    ordered_spans(seats).index_of(spans[q])
}

/// On a page where only the model speaks, nothing is given up, and a block is read before every
/// block to which the model gave a later place.
pub proof fn model_order_is_read(seats: Seq<Seat>, i: int, j: int)
    requires
        only_model_speaks(seats),
        0 <= i < seats.len() && seats[i].region is Some && !seats[i].marginal,
        0 <= j < seats.len() && seats[j].region is Some && !seats[j].marginal,
        place_of(seats[i]) < place_of(seats[j]),
    ensures
        resolved(nodes_of(seats), edges_of(seats)) matches Resolved::Ordered { places, removed }
            && removed.len() == 0 && exists|u: int, v: int|
            0 <= u < v < places.len() && #[trigger] ids_at(nodes_of(seats), places)[u]
                == seats[i].id@ && #[trigger] ids_at(nodes_of(seats), places)[v] == seats[j].id@,
{
    let nodes = nodes_of(seats);
    let t = ordered_spans(seats);
    let names = region_names(seats);
    constraints_name_blocks(seats);
    lemma_model_acyclic(seats);
    acyclic_constraints_lose_none(nodes, edges_of(seats));
    let a = lemma_block_span(seats, i);
    let b = lemma_block_span(seats, j);
    sorting_orders_and_keeps(spans_upto(seats, names, names.len() as int), SpanOrder);
    if b < a {
        assert(!SpanOrder.lt(t[a], t[b]));
    }
    if let Resolved::Ordered { places, removed } = resolved(nodes, edges_of(seats)) {
        let (u, v) = lemma_spans_read(seats, nodes, places, a, b);
        let ids = ids_at(nodes, places);
        assert(ids[u] == seats[i].id@ && ids[v] == seats[j].id@);
    }
}

} // verus!
