//! Constraints from the regions a layout model detected.

use vstd::prelude::*;

use crate::blocks::BlockId;
use crate::chars::{chars_of, str_before, str_same, text_before, text_order_is_strict_weak};
use crate::fusion::edges::{
    edge, edge_models, picked_upto, push_edge, with_edge, EdgeModel, EdgeSource, OrderEdge, Seat,
    SeatOrder,
};
use crate::numerals::{read_number, spelled_number};
use crate::sorting::{sort, sorted, Order, Sorter};
use crate::texts::{push_to, sort_texts, text_set, texts};
use crate::types::WHOLE;

verus! {

/// What follows the first colon that stands before `mark`, from `i` on.
pub open spec fn marked(s: Seq<char>, mark: char, i: int) -> Option<Seq<char>>
    decreases s.len() - i,
{
    if i + 1 >= s.len() {
        None
    } else if s[i] == ':' && s[i + 1] == mark {
        Some(s.skip(i + 2))
    } else {
        marked(s, mark, i + 1)
    }
}

/// What follows the first colon that stands before `mark`.
pub fn after_mark(text: &str, mark: char) -> (rest: Option<String>)
    ensures
        match rest {
            None => marked(text@, mark, 0) is None,
            Some(r) => marked(text@, mark, 0) == Some(r@),
        },
{
    let all: Vec<char> = chars_of(text);
    let n: usize = all.len();
    let mut i: usize = 0;
    while n - i > 1
        invariant
            n == all@.len(),
            all@ == text@,
            i <= n,
            marked(all@, mark, 0) == marked(all@, mark, i as int),
        decreases n - i,
    {
        if all[i] == ':' && all[i + 1] == mark {
            let mut rest: String = String::new();
            let mut k: usize = i + 2;
            while k < n
                invariant
                    n == all@.len(),
                    i + 2 <= k <= n,
                    rest@ == all@.subrange(i + 2, k as int),
                decreases n - k,
            {
                rest.push(all[k]);
                k = k + 1;
                assert(rest@ =~= all@.subrange(i + 2, k as int));
            }
            assert(rest@ =~= all@.skip(i + 2));
            return Some(rest);
        }
        i = i + 1;
    }
    None
}

/// The place of a region among the regions of its page, by its identity.
pub open spec fn region_place(id: Seq<char>) -> u32 {
    match marked(id, 'm', 0) {
        None => u32::MAX,
        Some(rest) => match spelled_number(rest) {
            None => u32::MAX,
            Some(v) => v as u32,
        },
    }
}

/// The place of a region among the regions of its page, by its identity.
pub fn model_region_index(region_id: &str) -> (index: u32)
    ensures
        index == region_place(region_id@),
{
    match after_mark(region_id, 'm') {
        None => u32::MAX,
        Some(rest) => match read_number(rest.as_str()) {
            None => u32::MAX,
            Some(v) => v,
        },
    }
}

/// The blocks of one region, from its first to its last.
#[derive(Debug)]
pub struct RegionSpan {
    pub order: i64,
    pub index: u32,
    pub first: BlockId,
    pub last: BlockId,
    pub confidence: u32,
}

/// Regions by the order of the model, their place and their first block.
#[derive(Debug, Clone, Copy, PartialEq, Eq, Structural)]
pub struct SpanOrder;

impl Order<RegionSpan> for SpanOrder {
    open spec fn lt(&self, a: RegionSpan, b: RegionSpan) -> bool {
        a.order < b.order || (a.order == b.order && (a.index < b.index || (a.index == b.index
            && text_before(a.first@, b.first@))))
    }

    proof fn is_strict_weak(&self, a: RegionSpan, b: RegionSpan, c: RegionSpan) {
        text_order_is_strict_weak(a.first@, b.first@, c.first@);
    }
}

impl Sorter<RegionSpan> for SpanOrder {
    fn precedes(&self, a: &RegionSpan, b: &RegionSpan) -> (yes: bool) {
        a.order < b.order || (a.order == b.order && (a.index < b.index || (a.index == b.index
            && str_before(a.first.as_str(), b.first.as_str()))))
    }
}

/// The regions that the first `n` seats name.
pub open spec fn named_upto(seats: Seq<Seat>, n: int) -> Seq<Seq<char>>
    decreases n,
{
    if n <= 0 {
        Seq::empty()
    } else {
        match seats[n - 1].region {
            None => named_upto(seats, n - 1),
            Some(r) => named_upto(seats, n - 1).push(r@),
        }
    }
}

/// The regions that seats name, in order and without repetition.
pub open spec fn region_names(seats: Seq<Seat>) -> Seq<Seq<char>> {
    text_set(named_upto(seats, seats.len() as int))
}

/// Whether a seat belongs to a region.
pub open spec fn of_region(name: Seq<char>) -> spec_fn(Seat) -> bool {
    |x: Seat| x.region is Some && x.region->0@ == name
}

/// The seats of a region, from top to bottom and left to right.
pub open spec fn region_seats(seats: Seq<Seat>, name: Seq<char>) -> Seq<Seat> {
    sorted(picked_upto(seats, of_region(name), seats.len() as int), SeatOrder::Corner)
}

/// A confidence; none counts as zero.
pub open spec fn known(confidence: Option<u32>) -> u32 {
    match confidence {
        None => 0,
        Some(c) => c,
    }
}

/// The smaller number.
pub open spec fn lesser(a: u32, b: u32) -> u32 {
    if a < b {
        a
    } else {
        b
    }
}

/// Constraints between neighbours of the first `n` seats of a region.
pub open spec fn inner_upto(edges: Seq<EdgeModel>, s: Seq<Seat>, n: int) -> Seq<EdgeModel>
    decreases n,
{
    if n <= 1 {
        edges
    } else {
        with_edge(
            inner_upto(edges, s, n - 1),
            edge(
                s[n - 2].id@,
                s[n - 1].id@,
                EdgeSource::IntraRegion,
                "children of one model region"@,
                Some(lesser(known(s[n - 2].confidence), known(s[n - 1].confidence))),
            ),
        )
    }
}

/// Constraints inside each of the first `n` regions.
pub open spec fn inner_edges(
    edges: Seq<EdgeModel>,
    seats: Seq<Seat>,
    names: Seq<Seq<char>>,
    n: int,
) -> Seq<EdgeModel>
    decreases n,
{
    if n <= 0 {
        edges
    } else {
        let s = region_seats(seats, names[n - 1]);
        inner_upto(inner_edges(edges, seats, names, n - 1), s, s.len() as int)
    }
}

/// The least known confidence of the first `n` seats; no more than the whole.
pub open spec fn least_upto(s: Seq<Seat>, n: int) -> u32
    decreases n,
{
    if n <= 0 {
        WHOLE
    } else {
        match s[n - 1].confidence {
            None => least_upto(s, n - 1),
            Some(c) => lesser(least_upto(s, n - 1), c),
        }
    }
}

/// Whether all the seats are narrow rotated content.
pub open spec fn all_marginal(s: Seq<Seat>) -> bool {
    forall|i: int| 0 <= i < s.len() ==> (#[trigger] s[i]).marginal
}

/// From the first to the last block of a region.
pub open spec fn span_of(s: Seq<Seat>, name: Seq<char>) -> RegionSpan {
    RegionSpan {
        order: match s[0].model_order {
            None => i64::MAX,
            Some(order) => order,
        },
        index: region_place(name),
        first: s[0].id,
        last: s.last().id,
        confidence: least_upto(s, s.len() as int),
    }
}

/// The spans of the first `n` regions, but for those of rotated marginal content alone.
pub open spec fn spans_upto(seats: Seq<Seat>, names: Seq<Seq<char>>, n: int) -> Seq<RegionSpan>
    decreases n,
{
    if n <= 0 {
        Seq::empty()
    } else {
        let before = spans_upto(seats, names, n - 1);
        let s = region_seats(seats, names[n - 1]);
        if all_marginal(s) {
            before
        } else {
            before.push(span_of(s, names[n - 1]))
        }
    }
}

/// Constraints between neighbours of the first `n` regions.
pub open spec fn outer_upto(edges: Seq<EdgeModel>, spans: Seq<RegionSpan>, n: int) -> Seq<EdgeModel>
    decreases n,
{
    if n <= 1 {
        edges
    } else {
        with_edge(
            outer_upto(edges, spans, n - 1),
            edge(
                spans[n - 2].last@,
                spans[n - 1].first@,
                EdgeSource::Model,
                "adjacent model region order"@,
                Some(lesser(spans[n - 2].confidence, spans[n - 1].confidence)),
            ),
        )
    }
}

/// Constraints inside and between detected regions.
pub open spec fn model_edges(edges: Seq<EdgeModel>, seats: Seq<Seat>) -> Seq<EdgeModel> {
    let names = region_names(seats);
    let n = names.len() as int;
    let spans = sorted(spans_upto(seats, names, n), SpanOrder);
    outer_upto(inner_edges(edges, seats, names, n), spans, spans.len() as int)
}

/// The smaller number.
fn min_u32(a: u32, b: u32) -> (least: u32)
    ensures
        least == lesser(a, b),
{
    if a < b {
        a
    } else {
        b
    }
}

/// The regions that seats name, in order and without repetition.
fn list_names(seats: &Vec<Seat>) -> (names: Vec<String>)
    ensures
        texts(names@) == region_names(seats@),
{
    let mut named: Vec<String> = Vec::new();
    let mut i: usize = 0;
    assert(texts(named@) =~= Seq::empty());
    while i < seats.len()
        invariant
            i <= seats@.len(),
            texts(named@) == named_upto(seats@, i as int),
        decreases seats@.len() - i,
    {
        if let Some(region) = &seats[i].region {
            push_to(&mut named, region.clone());
        }
        i = i + 1;
    }
    sort_texts(named)
}

/// The seats of a region, from top to bottom and left to right.
fn list_region(seats: &Vec<Seat>, name: &str) -> (found: Vec<Seat>)
    ensures
        found@ == region_seats(seats@, name@),
{
    let mut found: Vec<Seat> = Vec::new();
    let ghost want = of_region(name@);
    let mut i: usize = 0;
    while i < seats.len()
        invariant
            want == of_region(name@),
            i <= seats@.len(),
            found@ == picked_upto(seats@, want, i as int),
        decreases seats@.len() - i,
    {
        let mine: bool = match &seats[i].region {
            None => false,
            Some(region) => str_same(region.as_str(), name),
        };
        assert(mine == want(seats@[i as int]));
        if mine {
            found.push(seats[i].copy());
        }
        i = i + 1;
    }
    sort(found, &SeatOrder::Corner)
}

/// A confidence; none counts as zero.
fn known_or_zero(confidence: Option<u32>) -> (value: u32)
    ensures
        value == known(confidence),
{
    match confidence {
        None => 0,
        Some(c) => c,
    }
}

/// Adds constraints between neighbours of one region.
fn push_inner(edges: &mut Vec<OrderEdge>, s: &Vec<Seat>)
    ensures
        edge_models(final(edges)@) == inner_upto(edge_models(old(edges)@), s@, s@.len() as int),
{
    let ghost before = edge_models(edges@);
    let mut i: usize = 1;
    while i < s.len()
        invariant
            1 <= i,
            i <= s@.len() || (i == 1 && s@.len() == 0),
            edge_models(edges@) == inner_upto(before, s@, i as int),
        decreases s@.len() - i,
    {
        let least: u32 = min_u32(
            known_or_zero(s[i - 1].confidence),
            known_or_zero(s[i].confidence),
        );
        push_edge(
            edges,
            &s[i - 1].id,
            &s[i].id,
            EdgeSource::IntraRegion,
            "children of one model region",
            Some(least),
        );
        i = i + 1;
    }
}

/// From the first to the last block of a region, unless it is marginal.
fn find_span(s: &Vec<Seat>, name: &str) -> (span: Option<RegionSpan>)
    ensures
        match span {
            None => all_marginal(s@),
            Some(found) => !all_marginal(s@) && found == span_of(s@, name@),
        },
{
    let n: usize = s.len();
    let mut marginal: bool = true;
    let mut confidence: u32 = WHOLE;
    let mut i: usize = 0;
    while i < n
        invariant
            n == s@.len(),
            i <= n,
            marginal == (forall|k: int| 0 <= k < i ==> (#[trigger] s@[k]).marginal),
            confidence == least_upto(s@, i as int),
        decreases n - i,
    {
        if !s[i].marginal {
            assert(!s@[i as int].marginal);
            marginal = false;
        }
        if let Some(c) = s[i].confidence {
            confidence = min_u32(confidence, c);
        }
        i = i + 1;
    }
    if marginal {
        return None;
    }
    Some(
        RegionSpan {
            order: match s[0].model_order {
                None => i64::MAX,
                Some(order) => order,
            },
            index: model_region_index(name),
            first: s[0].id.copy(),
            last: s[n - 1].id.copy(),
            confidence,
        },
    )
}

/// Adds adjacent model-region and intra-region constraints only.
pub fn add_model_edges(edges: &mut Vec<OrderEdge>, seats: &Vec<Seat>)
    ensures
        edge_models(final(edges)@) == model_edges(edge_models(old(edges)@), seats@),
{
    let ghost before = edge_models(edges@);
    let names: Vec<String> = list_names(seats);
    let ghost known_names = texts(names@);
    let mut spans: Vec<RegionSpan> = Vec::new();
    let mut i: usize = 0;
    while i < names.len()
        invariant
            known_names == texts(names@),
            i <= names@.len(),
            edge_models(edges@) == inner_edges(before, seats@, known_names, i as int),
            spans@ == spans_upto(seats@, known_names, i as int),
        decreases names@.len() - i,
    {
        let name: &str = names[i].as_str();
        assert(name@ == known_names[i as int]);
        let s: Vec<Seat> = list_region(seats, name);
        push_inner(edges, &s);
        if let Some(span) = find_span(&s, name) {
            spans.push(span);
        }
        i = i + 1;
    }
    assert(known_names.len() == names@.len());
    let spans: Vec<RegionSpan> = sort(spans, &SpanOrder);
    let ghost inner = edge_models(edges@);
    let mut k: usize = 1;
    while k < spans.len()
        invariant
            1 <= k,
            k <= spans@.len() || (k == 1 && spans@.len() == 0),
            edge_models(edges@) == outer_upto(inner, spans@, k as int),
        decreases spans@.len() - k,
    {
        push_edge(
            edges,
            &spans[k - 1].last,
            &spans[k].first,
            EdgeSource::Model,
            "adjacent model region order",
            Some(min_u32(spans[k - 1].confidence, spans[k].confidence)),
        );
        k = k + 1;
    }
}

} // verus!
