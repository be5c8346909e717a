//! Constraints on the reading order of blocks.

use vstd::math::{abs, max, min};
use vstd::prelude::*;

use crate::blocks::{Block, BlockId, LabelSource, Line};
use crate::chars::{
    push_decimal, push_text, str_before, str_same, text_before, text_of_decimal,
    text_order_is_strict_weak,
};
use crate::geometry::{distance, max_i64, min_i64, Bbox};
use crate::layout::LayoutLabel;
use crate::line::axes::QUARTER;
use crate::sorting::{sort, sorted, sorting_orders_and_keeps, Order, Sorter};
use crate::types::{copy_text, WritingDirection, DEGREE, WHOLE};

verus! {

/// Provenance category for one page-local ordering constraint.
#[derive(Debug, Clone, Copy, PartialEq, Eq, Structural)]
pub enum EdgeSource {
    Model,
    FallbackInsertion,
    BandHorizontal,
    CaptionRelation,
    XyCut,
    IntraRegion,
    StrongVertical,
}

impl EdgeSource {
    /// The fixed removal priority used after edge weight ties.
    pub open spec fn priority(self) -> u8 {
        match self {
            EdgeSource::Model => 0,
            EdgeSource::FallbackInsertion => 1,
            EdgeSource::BandHorizontal => 2,
            EdgeSource::CaptionRelation => 3,
            EdgeSource::XyCut => 4,
            EdgeSource::IntraRegion => 5,
            EdgeSource::StrongVertical => 6,
        }
    }

    /// Whether giving the constraint up would violate a structural invariant.
    pub open spec fn strong(self) -> bool {
        self == EdgeSource::StrongVertical || self == EdgeSource::IntraRegion
    }

    /// The fixed removal priority used after edge weight ties.
    pub fn rank(self) -> (rank: u8)
        ensures
            rank == self.priority(),
    {
        match self {
            EdgeSource::Model => 0,
            EdgeSource::FallbackInsertion => 1,
            EdgeSource::BandHorizontal => 2,
            EdgeSource::CaptionRelation => 3,
            EdgeSource::XyCut => 4,
            EdgeSource::IntraRegion => 5,
            EdgeSource::StrongVertical => 6,
        }
    }

    /// Whether giving the constraint up would violate a structural invariant.
    pub fn is_strong(self) -> (yes: bool)
        ensures
            yes == self.strong(),
    {
        matches!(self, EdgeSource::StrongVertical | EdgeSource::IntraRegion)
    }
}

/// Schema-stable preservation weights for all supported ordering evidence.
#[derive(Debug, Clone, Copy, PartialEq, Eq, Structural)]
pub struct OrderPolicy;

impl OrderPolicy {
    /// The preservation weight for one source and optional confidence, in millionths.
    pub open spec fn weight_of(source: EdgeSource, confidence: Option<u32>) -> u32 {
        match source {
            EdgeSource::StrongVertical | EdgeSource::IntraRegion => WHOLE,
            EdgeSource::Model => match confidence {
                None => 0,
                Some(c) => if c > WHOLE {
                    WHOLE
                } else {
                    c
                },
            },
            EdgeSource::XyCut => 850_000,
            EdgeSource::CaptionRelation => 800_000,
            EdgeSource::BandHorizontal => 650_000,
            EdgeSource::FallbackInsertion => 600_000,
        }
    }

    /// The preservation weight for one source and optional confidence, in millionths.
    pub fn weight(source: EdgeSource, confidence: Option<u32>) -> (weight: u32)
        ensures
            weight == OrderPolicy::weight_of(source, confidence),
    {
        match source {
            EdgeSource::StrongVertical | EdgeSource::IntraRegion => WHOLE,
            EdgeSource::Model => match confidence {
                None => 0,
                Some(c) => if c > WHOLE {
                    WHOLE
                } else {
                    c
                },
            },
            EdgeSource::XyCut => 850_000,
            EdgeSource::CaptionRelation => 800_000,
            EdgeSource::BandHorizontal => 650_000,
            EdgeSource::FallbackInsertion => 600_000,
        }
    }
}

/// One directed ordering constraint with complete removal evidence.
#[derive(Debug)]
pub struct OrderEdge {
    pub from: BlockId,
    pub to: BlockId,
    pub source: EdgeSource,
    pub reason: String,
    pub source_confidence: Option<u32>,
    pub preservation_weight: u32,
    pub stable_key: String,
}

impl OrderEdge {
    /// An equal constraint.
    pub fn copy(&self) -> (copy: OrderEdge)
        ensures
            copy == *self,
    {
        OrderEdge {
            from: self.from.copy(),
            to: self.to.copy(),
            source: self.source,
            reason: self.reason.clone(),
            source_confidence: self.source_confidence,
            preservation_weight: self.preservation_weight,
            stable_key: self.stable_key.clone(),
        }
    }
}

/// What an ordering constraint says.
#[verifier::ext_equal]
pub struct EdgeModel {
    pub from: Seq<char>,
    pub to: Seq<char>,
    pub source: EdgeSource,
    pub reason: Seq<char>,
    pub source_confidence: Option<u32>,
    pub preservation_weight: u32,
    pub stable_key: Seq<char>,
}

impl View for OrderEdge {
    type V = EdgeModel;

    open spec fn view(&self) -> EdgeModel {
        EdgeModel {
            from: self.from@,
            to: self.to@,
            source: self.source,
            reason: self.reason@,
            source_confidence: self.source_confidence,
            preservation_weight: self.preservation_weight,
            stable_key: self.stable_key@,
        }
    }
}

/// What a list of ordering constraints says.
pub open spec fn edge_models(edges: Seq<OrderEdge>) -> Seq<EdgeModel> {
    edges.map_values(|e: OrderEdge| e@)
}

/// The canonical key of a constraint.
pub open spec fn edge_key(from: Seq<char>, to: Seq<char>, source: EdgeSource) -> Seq<char> {
    from + ">"@ + to + ":"@ + text_of_decimal(source.priority() as nat)
}

/// A constraint with a canonical key and the weight of the policy.
pub open spec fn edge(
    from: Seq<char>,
    to: Seq<char>,
    source: EdgeSource,
    reason: Seq<char>,
    confidence: Option<u32>,
) -> EdgeModel {
    EdgeModel {
        from,
        to,
        source,
        reason,
        source_confidence: confidence,
        preservation_weight: OrderPolicy::weight_of(source, confidence),
        stable_key: edge_key(from, to, source),
    }
}

/// Constraints and one more, unless it is between a block and itself.
pub open spec fn with_edge(edges: Seq<EdgeModel>, e: EdgeModel) -> Seq<EdgeModel> {
    if e.from == e.to {
        edges
    } else {
        edges.push(e)
    }
}

/// Adds a constraint, unless it is between a block and itself.
pub fn push_edge(
    edges: &mut Vec<OrderEdge>,
    from: &BlockId,
    to: &BlockId,
    source: EdgeSource,
    reason: &str,
    confidence: Option<u32>,
)
    ensures
        edge_models(final(edges)@) == with_edge(
            edge_models(old(edges)@),
            edge(from@, to@, source, reason@, confidence),
        ),
{
    if str_same(from.as_str(), to.as_str()) {
        return;
    }
    let mut stable_key: String = String::new();
    push_text(&mut stable_key, from.as_str());
    push_text(&mut stable_key, ">");
    push_text(&mut stable_key, to.as_str());
    push_text(&mut stable_key, ":");
    push_decimal(&mut stable_key, source.rank() as u64);
    let mut why: String = String::new();
    push_text(&mut why, reason);
    assert(stable_key@ =~= edge_key(from@, to@, source));
    assert(why@ =~= reason@);
    let made = OrderEdge {
        from: from.copy(),
        to: to.copy(),
        source,
        reason: why,
        source_confidence: confidence,
        preservation_weight: OrderPolicy::weight(source, confidence),
        stable_key,
    };
    assert(made@ =~= edge(from@, to@, source, reason@, confidence));
    let ghost before = edges@;
    edges.push(made);
    assert(edge_models(edges@) =~= edge_models(before).push(made@));
}

/// What of a block decides where it is read.
#[derive(Debug)]
pub struct Seat {
    pub id: BlockId,
    pub bbox: Bbox,
    pub confidence: Option<u32>,
    pub region: Option<String>,
    pub model_order: Option<i64>,
    pub fallback: Option<String>,
    pub label_source: LabelSource,
    /// Narrow rotated content at the margin.
    pub marginal: bool,
    /// A chart, an image or a table.
    pub visual: bool,
    /// The title of a figure.
    pub caption: bool,
}

/// Whether an angle is within two degrees of a quarter or three quarters of a turn.
pub open spec fn upended(angle: int) -> bool {
    abs(abs(angle) - QUARTER) <= 2 * DEGREE || abs(abs(angle) - 3 * QUARTER) <= 2 * DEGREE
}

/// Whether a line runs down or up the page.
pub open spec fn is_upright_line(line: Line) -> bool {
    line.direction == WritingDirection::Vertical || upended(line.rotation.angle as int)
}

/// Whether a block is narrow rotated content that does not lead the main flow.
pub open spec fn is_marginal(block: Block) -> bool {
    &&& block.label is AsideText || exists|i: int|
        0 <= i < block.lines@.len() && is_upright_line(#[trigger] block.lines@[i])
    &&& block.bbox.high() >= 3 * block.bbox.wide()
}

/// What of a block decides where it is read.
pub open spec fn seat_of(block: Block) -> Seat {
    Seat {
        id: block.id,
        bbox: block.bbox,
        confidence: block.confidence,
        region: block.model_region_id,
        model_order: block.model_order,
        fallback: block.fallback_region_id,
        label_source: block.label_source,
        marginal: is_marginal(block),
        visual: block.label is Chart || block.label is Image || block.label is Table,
        caption: block.label is FigureTitle,
    }
}

/// What of blocks decides where they are read.
pub open spec fn seats_of(blocks: Seq<Block>) -> Seq<Seat> {
    Seq::new(blocks.len(), |i: int| seat_of(blocks[i]))
}

impl Seat {
    /// An equal seat.
    pub fn copy(&self) -> (copy: Seat)
        ensures
            copy == *self,
    {
        Seat {
            id: self.id.copy(),
            bbox: self.bbox,
            confidence: self.confidence,
            region: copy_text(&self.region),
            model_order: self.model_order,
            fallback: copy_text(&self.fallback),
            label_source: self.label_source,
            marginal: self.marginal,
            visual: self.visual,
            caption: self.caption,
        }
    }
}

/// Whether an angle is within two degrees of a quarter or three quarters of a turn.
fn is_upended(angle: i32) -> (yes: bool)
    ensures
        yes == upended(angle as int),
{
    let a: i64 = if angle < 0 {
        -(angle as i64)
    } else {
        angle as i64
    };
    distance(a, QUARTER as i64) <= 2 * (DEGREE as i128) || distance(a, 3 * (QUARTER as i64)) <= 2
        * (DEGREE as i128)
}

/// Whether a block is narrow rotated content that does not lead the main flow.
pub fn is_rotated_marginal(block: &Block) -> (yes: bool)
    ensures
        yes == is_marginal(*block),
{
    if block.bbox.height() < 3 * block.bbox.width() {
        return false;
    }
    if matches!(block.label, LayoutLabel::AsideText) {
        return true;
    }
    let mut i: usize = 0;
    while i < block.lines.len()
        invariant
            i <= block.lines@.len(),
            forall|k: int| 0 <= k < i ==> !is_upright_line(#[trigger] block.lines@[k]),
            block.bbox.high() >= 3 * block.bbox.wide(),
        decreases block.lines@.len() - i,
    {
        let line: &Line = &block.lines[i];
        if matches!(line.direction, WritingDirection::Vertical) || is_upended(line.rotation.angle) {
            assert(is_upright_line(block.lines@[i as int]));
            return true;
        }
        i = i + 1;
    }
    false
}

/// What of blocks decides where they are read.
pub fn list_seats(blocks: &Vec<Block>) -> (seats: Vec<Seat>)
    ensures
        seats@ == seats_of(blocks@),
{
    let mut seats: Vec<Seat> = Vec::new();
    let mut i: usize = 0;
    while i < blocks.len()
        invariant
            i <= blocks@.len(),
            seats@ == seats_of(blocks@).take(i as int),
        decreases blocks@.len() - i,
    {
        let block: &Block = &blocks[i];
        let visual: bool = matches!(
            block.label,
            LayoutLabel::Chart | LayoutLabel::Image | LayoutLabel::Table
        );
        seats.push(
            Seat {
                id: block.id.copy(),
                bbox: block.bbox,
                confidence: block.confidence,
                region: copy_text(&block.model_region_id),
                model_order: block.model_order,
                fallback: copy_text(&block.fallback_region_id),
                label_source: block.label_source,
                marginal: is_rotated_marginal(block),
                visual,
                caption: matches!(block.label, LayoutLabel::FigureTitle),
            },
        );
        i = i + 1;
        assert(seats@ =~= seats_of(blocks@).take(i as int));
    }
    assert(seats_of(blocks@).take(blocks@.len() as int) =~= seats_of(blocks@));
    seats
}

/// Orders of seats.
#[derive(Debug, Clone, Copy, PartialEq, Eq, Structural)]
pub enum SeatOrder {
    /// By top edge, left edge and identity.
    Corner,
    /// By fallback region and identity.
    Fallback,
}

/// The spelling of an optional text; nothing for none.
pub open spec fn spelled(text: Option<String>) -> Seq<char> {
    match text {
        Some(t) => t@,
        None => Seq::empty(),
    }
}

impl Order<Seat> for SeatOrder {
    open spec fn lt(&self, a: Seat, b: Seat) -> bool {
        match self {
            SeatOrder::Corner => a.bbox.top < b.bbox.top || (a.bbox.top == b.bbox.top && (
            a.bbox.left < b.bbox.left || (a.bbox.left == b.bbox.left && text_before(
                a.id@,
                b.id@,
            )))),
            SeatOrder::Fallback => text_before(spelled(a.fallback), spelled(b.fallback)) || (
            !text_before(spelled(b.fallback), spelled(a.fallback)) && text_before(a.id@, b.id@)),
        }
    }

    proof fn is_strict_weak(&self, a: Seat, b: Seat, c: Seat) {
        text_order_is_strict_weak(a.id@, b.id@, c.id@);
        text_order_is_strict_weak(spelled(a.fallback), spelled(b.fallback), spelled(c.fallback));
        text_order_is_strict_weak(spelled(c.fallback), spelled(b.fallback), spelled(a.fallback));
        text_order_is_strict_weak(spelled(a.fallback), spelled(c.fallback), spelled(b.fallback));
        text_order_is_strict_weak(spelled(b.fallback), spelled(a.fallback), spelled(c.fallback));
        text_order_is_strict_weak(spelled(c.fallback), spelled(a.fallback), spelled(b.fallback));
        text_order_is_strict_weak(spelled(b.fallback), spelled(c.fallback), spelled(a.fallback));
    }
}

/// Whether an optional text stands before another; none is the empty text.
fn spelled_before(a: &Option<String>, b: &Option<String>) -> (yes: bool)
    ensures
        yes == text_before(spelled(*a), spelled(*b)),
{
    let nothing: String = String::new();
    assert(nothing@ =~= Seq::empty());
    let x: &str = match a {
        Some(t) => t.as_str(),
        None => nothing.as_str(),
    };
    let y: &str = match b {
        Some(t) => t.as_str(),
        None => nothing.as_str(),
    };
    str_before(x, y)
}

impl Sorter<Seat> for SeatOrder {
    fn precedes(&self, a: &Seat, b: &Seat) -> (yes: bool) {
        match self {
            SeatOrder::Corner => a.bbox.top < b.bbox.top || (a.bbox.top == b.bbox.top && (
            a.bbox.left < b.bbox.left || (a.bbox.left == b.bbox.left && str_before(
                a.id.as_str(),
                b.id.as_str(),
            )))),
            SeatOrder::Fallback => spelled_before(&a.fallback, &b.fallback) || (!spelled_before(
                &b.fallback,
                &a.fallback,
            ) && str_before(a.id.as_str(), b.id.as_str())),
        }
    }
}

/// Constraints between neighbours of the first `n` seats of a list.
pub open spec fn chain_upto(
    edges: Seq<EdgeModel>,
    s: Seq<Seat>,
    source: EdgeSource,
    reason: Seq<char>,
    n: int,
) -> Seq<EdgeModel>
    decreases n,
{
    if n <= 1 {
        edges
    } else {
        with_edge(
            chain_upto(edges, s, source, reason, n - 1),
            edge(s[n - 2].id@, s[n - 1].id@, source, reason, None),
        )
    }
}

/// Adds constraints between neighbours.
fn push_chain(edges: &mut Vec<OrderEdge>, s: &Vec<Seat>, source: EdgeSource, reason: &str)
    ensures
        edge_models(final(edges)@) == chain_upto(
            edge_models(old(edges)@),
            s@,
            source,
            reason@,
            s@.len() as int,
        ),
{
    let ghost before = edge_models(edges@);
    let mut i: usize = 1;
    while i < s.len()
        invariant
            1 <= i,
            i <= s@.len() || (i == 1 && s@.len() == 0),
            edge_models(edges@) == chain_upto(before, s@, source, reason@, i as int),
        decreases s@.len() - i,
    {
        push_edge(edges, &s[i - 1].id, &s[i].id, source, reason, None);
        i = i + 1;
    }
}

/// The seats, of the first `n`, with some property.
pub open spec fn picked_upto(s: Seq<Seat>, want: spec_fn(Seat) -> bool, n: int) -> Seq<Seat>
    decreases n,
{
    if n <= 0 {
        Seq::empty()
    } else {
        let before = picked_upto(s, want, n - 1);
        if want(s[n - 1]) {
            before.push(s[n - 1])
        } else {
            before
        }
    }
}

/// The seats with some property.
pub open spec fn picked(s: Seq<Seat>, want: spec_fn(Seat) -> bool) -> Seq<Seat> {
    picked_upto(s, want, s.len() as int)
}

/// Constraints between neighbouring fallback regions.
pub open spec fn xy_cut_edges(edges: Seq<EdgeModel>, seats: Seq<Seat>) -> Seq<EdgeModel> {
    let s = sorted(picked(seats, |x: Seat| x.fallback is Some), SeatOrder::Fallback);
    chain_upto(edges, s, EdgeSource::XyCut, "adjacent residual XY-cut leaves"@, s.len() as int)
}

/// Adds stable pre-order constraints between adjacent fallback blocks.
pub fn add_xy_cut_edges(edges: &mut Vec<OrderEdge>, seats: &Vec<Seat>)
    ensures
        edge_models(final(edges)@) == xy_cut_edges(edge_models(old(edges)@), seats@),
{
    let mut found: Vec<Seat> = Vec::new();
    let ghost want = |x: Seat| x.fallback is Some;
    let mut i: usize = 0;
    while i < seats.len()
        invariant
            want == (|x: Seat| x.fallback is Some),
            i <= seats@.len(),
            found@ == picked_upto(seats@, want, i as int),
        decreases seats@.len() - i,
    {
        if seats[i].fallback.is_some() {
            found.push(seats[i].copy());
        }
        i = i + 1;
    }
    let s: Vec<Seat> = sort(found, &SeatOrder::Fallback);
    push_chain(edges, &s, EdgeSource::XyCut, "adjacent residual XY-cut leaves");
}

/// Constraints between neighbours of which one is a fallback block, for the first `n` seats.
pub open spec fn insertion_upto(edges: Seq<EdgeModel>, s: Seq<Seat>, n: int) -> Seq<EdgeModel>
    decreases n,
{
    if n <= 1 {
        edges
    } else {
        let before = insertion_upto(edges, s, n - 1);
        if s[n - 2].label_source == LabelSource::Fallback || s[n - 1].label_source
            == LabelSource::Fallback {
            with_edge(
                before,
                edge(
                    s[n - 2].id@,
                    s[n - 1].id@,
                    EdgeSource::FallbackInsertion,
                    "fallback block geometry insertion"@,
                    None,
                ),
            )
        } else {
            before
        }
    }
}

/// Constraints that insert fallback blocks by place.
pub open spec fn insertion_edges(edges: Seq<EdgeModel>, seats: Seq<Seat>) -> Seq<EdgeModel> {
    insertion_upto(edges, sorted(seats, SeatOrder::Corner), seats.len() as int)
}

/// Equal copies of seats.
fn copy_seats(seats: &Vec<Seat>) -> (copies: Vec<Seat>)
    ensures
        copies@ == seats@,
{
    let mut copies: Vec<Seat> = Vec::new();
    let mut i: usize = 0;
    while i < seats.len()
        invariant
            i <= seats@.len(),
            copies@ == seats@.take(i as int),
        decreases seats@.len() - i,
    {
        copies.push(seats[i].copy());
        i = i + 1;
        assert(copies@ =~= seats@.take(i as int));
    }
    assert(seats@.take(seats@.len() as int) =~= seats@);
    copies
}

/// Adds weak geometry insertion constraints around residual fallback blocks.
pub fn add_fallback_insertion_edges(edges: &mut Vec<OrderEdge>, seats: &Vec<Seat>)
    ensures
        edge_models(final(edges)@) == insertion_edges(edge_models(old(edges)@), seats@),
{
    let ghost before = edge_models(edges@);
    let s: Vec<Seat> = sort(copy_seats(seats), &SeatOrder::Corner);
    proof {
        sorting_orders_and_keeps(seats@, SeatOrder::Corner);
    }
    let mut i: usize = 1;
    while i < s.len()
        invariant
            1 <= i,
            i <= s@.len() || (i == 1 && s@.len() == 0),
            edge_models(edges@) == insertion_upto(before, s@, i as int),
        decreases s@.len() - i,
    {
        let near: bool = matches!(s[i - 1].label_source, LabelSource::Fallback) || matches!(
            s[i].label_source,
            LabelSource::Fallback
        );
        if near {
            push_edge(
                edges,
                &s[i - 1].id,
                &s[i].id,
                EdgeSource::FallbackInsertion,
                "fallback block geometry insertion",
                None,
            );
        }
        i = i + 1;
    }
}

/// Whether a seat lies below another and shares some width with it.
pub open spec fn is_below(source: Seat, candidate: Seat) -> bool {
    &&& candidate.id@ != source.id@
    &&& source.bbox.bottom <= candidate.bbox.top
    &&& source.bbox.overlap_x(candidate.bbox) > 0
}

/// Whether a seat lies right of another and shares half of the lower height with it.
pub open spec fn is_beside(source: Seat, candidate: Seat) -> bool {
    let height = min(source.bbox.high(), candidate.bbox.high());
    &&& candidate.id@ != source.id@
    &&& source.bbox.right <= candidate.bbox.left
    &&& height > 0
    &&& 2 * max(source.bbox.overlap_y(candidate.bbox), 0) >= height
}

/// Whether a seat is found before another one below a block.
pub open spec fn sooner_below(a: Seat, b: Seat) -> bool {
    a.bbox.top < b.bbox.top || (a.bbox.top == b.bbox.top && (a.bbox.left < b.bbox.left || (
    a.bbox.left == b.bbox.left && text_before(a.id@, b.id@))))
}

/// Whether a seat is found before another one beside a block.
pub open spec fn sooner_beside(a: Seat, b: Seat) -> bool {
    a.bbox.left < b.bbox.left || (a.bbox.left == b.bbox.left && (a.bbox.top < b.bbox.top || (
    a.bbox.top == b.bbox.top && text_before(a.id@, b.id@))))
}

/// The nearest seat below or beside a block, among the first `n`.
pub open spec fn nearest_upto(s: Seq<Seat>, source: Seat, below: bool, n: int) -> Option<int>
    decreases n,
{
    if n <= 0 {
        None
    } else {
        let before = nearest_upto(s, source, below, n - 1);
        let fits = if below {
            is_below(source, s[n - 1])
        } else {
            is_beside(source, s[n - 1])
        };
        if !fits {
            before
        } else {
            match before {
                None => Some(n - 1),
                Some(best) => if (below && sooner_below(s[n - 1], s[best])) || (!below
                    && sooner_beside(s[n - 1], s[best])) {
                    Some(n - 1)
                } else {
                    before
                },
            }
        }
    }
}

/// Constraints of one block by the places of its neighbours.
pub open spec fn neighbour_edges(edges: Seq<EdgeModel>, s: Seq<Seat>, source: Seat) -> Seq<
    EdgeModel,
> {
    let n = s.len() as int;
    let first = match nearest_upto(s, source, true, n) {
        None => edges,
        Some(at) => with_edge(
            edges,
            edge(
                source.id@,
                s[at].id@,
                EdgeSource::StrongVertical,
                "nearest non-overlapping vertical geometry"@,
                None,
            ),
        ),
    };
    match nearest_upto(s, source, false, n) {
        None => first,
        Some(at) => with_edge(
            first,
            edge(
                source.id@,
                s[at].id@,
                EdgeSource::BandHorizontal,
                "nearest same-band left-to-right geometry"@,
                None,
            ),
        ),
    }
}

/// Constraints of the first `n` blocks by the places of their neighbours.
pub open spec fn geometry_edges(edges: Seq<EdgeModel>, s: Seq<Seat>, n: int) -> Seq<EdgeModel>
    decreases n,
{
    if n <= 0 {
        edges
    } else {
        neighbour_edges(geometry_edges(edges, s, n - 1), s, s[n - 1])
    }
}

/// The nearest seat below or beside a block.
fn find_nearest(s: &Vec<Seat>, source: &Seat, below: bool) -> (found: Option<usize>)
    ensures
        match (found, nearest_upto(s@, *source, below, s@.len() as int)) {
            (None, None) => true,
            (Some(at), Some(expected)) => at == expected && at < s@.len(),
            _ => false,
        },
{
    let mut best: Option<usize> = None;
    let mut i: usize = 0;
    while i < s.len()
        invariant
            i <= s@.len(),
            match (best, nearest_upto(s@, *source, below, i as int)) {
                (None, None) => true,
                (Some(at), Some(expected)) => at == expected && at < i,
                _ => false,
            },
        decreases s@.len() - i,
    {
        let c: &Seat = &s[i];
        let other: bool = !str_same(c.id.as_str(), source.id.as_str());
        let fits: bool = if below {
            other && source.bbox.bottom <= c.bbox.top && source.bbox.horizontal_overlap(&c.bbox) > 0
        } else {
            let height: i64 = min_i64(source.bbox.height(), c.bbox.height());
            other && source.bbox.right <= c.bbox.left && height > 0 && 2 * max_i64(
                source.bbox.vertical_overlap(&c.bbox),
                0,
            ) >= height
        };
        if fits {
            let better: bool = match best {
                None => true,
                Some(at) => {
                    let b: &Seat = &s[at];
                    if below {
                        c.bbox.top < b.bbox.top || (c.bbox.top == b.bbox.top && (c.bbox.left
                            < b.bbox.left || (c.bbox.left == b.bbox.left && str_before(
                            c.id.as_str(),
                            b.id.as_str(),
                        ))))
                    } else {
                        c.bbox.left < b.bbox.left || (c.bbox.left == b.bbox.left && (c.bbox.top
                            < b.bbox.top || (c.bbox.top == b.bbox.top && str_before(
                            c.id.as_str(),
                            b.id.as_str(),
                        ))))
                    }
                },
            };
            if better {
                best = Some(i);
            }
        }
        i = i + 1;
    }
    best
}

/// Adds only nearest neighbours to keep geometry constraints linear in blocks.
pub fn add_geometry_edges(edges: &mut Vec<OrderEdge>, seats: &Vec<Seat>)
    ensures
        edge_models(final(edges)@) == geometry_edges(
            edge_models(old(edges)@),
            seats@,
            seats@.len() as int,
        ),
{
    let ghost before = edge_models(edges@);
    let mut i: usize = 0;
    while i < seats.len()
        invariant
            i <= seats@.len(),
            edge_models(edges@) == geometry_edges(before, seats@, i as int),
        decreases seats@.len() - i,
    {
        let source: &Seat = &seats[i];
        if let Some(at) = find_nearest(seats, source, true) {
            push_edge(
                edges,
                &source.id,
                &seats[at].id,
                EdgeSource::StrongVertical,
                "nearest non-overlapping vertical geometry",
                None,
            );
        }
        if let Some(at) = find_nearest(seats, source, false) {
            push_edge(
                edges,
                &source.id,
                &seats[at].id,
                EdgeSource::BandHorizontal,
                "nearest same-band left-to-right geometry",
                None,
            );
        }
        i = i + 1;
    }
}

/// The shortest vertical gap between two boxes, or zero where they overlap.
pub open spec fn vertical_gap(a: Bbox, b: Bbox) -> int {
    if a.bottom < b.top {
        b.top - a.bottom
    } else if b.bottom < a.top {
        a.top - b.bottom
    } else {
        0
    }
}

/// The shortest vertical gap between two boxes, or zero where they overlap.
pub fn vertical_distance(a: &Bbox, b: &Bbox) -> (gap: i64)
    ensures
        gap == vertical_gap(*a, *b),
{
    if a.bottom < b.top {
        b.top as i64 - a.bottom as i64
    } else if b.bottom < a.top {
        a.top as i64 - b.bottom as i64
    } else {
        0
    }
}

/// The visual object nearest to a caption, among the first `n` seats.
pub open spec fn object_upto(s: Seq<Seat>, caption: Seat, n: int) -> Option<int>
    decreases n,
{
    if n <= 0 {
        None
    } else {
        let before = object_upto(s, caption, n - 1);
        if !s[n - 1].visual {
            before
        } else {
            match before {
                None => Some(n - 1),
                Some(best) => {
                    let a = vertical_gap(caption.bbox, s[n - 1].bbox);
                    let b = vertical_gap(caption.bbox, s[best].bbox);
                    if a < b || (a == b && text_before(s[n - 1].id@, s[best].id@)) {
                        Some(n - 1)
                    } else {
                        before
                    }
                },
            }
        }
    }
}

/// The constraint of one caption.
pub open spec fn caption_edge(edges: Seq<EdgeModel>, s: Seq<Seat>, caption: Seat) -> Seq<
    EdgeModel,
> {
    match object_upto(s, caption, s.len() as int) {
        None => edges,
        Some(at) => if caption.bbox.top >= s[at].bbox.bottom {
            with_edge(
                edges,
                edge(
                    s[at].id@,
                    caption.id@,
                    EdgeSource::CaptionRelation,
                    "visual object before lower caption"@,
                    caption.confidence,
                ),
            )
        } else {
            with_edge(
                edges,
                edge(
                    caption.id@,
                    s[at].id@,
                    EdgeSource::CaptionRelation,
                    "upper caption before visual object"@,
                    caption.confidence,
                ),
            )
        },
    }
}

/// The constraints of the captions among the first `n` seats.
pub open spec fn caption_edges(edges: Seq<EdgeModel>, s: Seq<Seat>, n: int) -> Seq<EdgeModel>
    decreases n,
{
    if n <= 0 {
        edges
    } else if s[n - 1].caption {
        caption_edge(caption_edges(edges, s, n - 1), s, s[n - 1])
    } else {
        caption_edges(edges, s, n - 1)
    }
}

/// The visual object nearest to a caption.
fn find_object(s: &Vec<Seat>, caption: &Seat) -> (found: Option<usize>)
    ensures
        match (found, object_upto(s@, *caption, s@.len() as int)) {
            (None, None) => true,
            (Some(at), Some(expected)) => at == expected && at < s@.len(),
            _ => false,
        },
{
    let mut best: Option<usize> = None;
    let mut i: usize = 0;
    while i < s.len()
        invariant
            i <= s@.len(),
            match (best, object_upto(s@, *caption, i as int)) {
                (None, None) => true,
                (Some(at), Some(expected)) => at == expected && at < i,
                _ => false,
            },
        decreases s@.len() - i,
    {
        if s[i].visual {
            let better: bool = match best {
                None => true,
                Some(at) => {
                    let a: i64 = vertical_distance(&caption.bbox, &s[i].bbox);
                    let b: i64 = vertical_distance(&caption.bbox, &s[at].bbox);
                    a < b || (a == b && str_before(s[i].id.as_str(), s[at].id.as_str()))
                },
            };
            if better {
                best = Some(i);
            }
        }
        i = i + 1;
    }
    best
}

/// Adds a local caption constraint to the nearest visual object when available.
pub fn add_caption_edges(edges: &mut Vec<OrderEdge>, seats: &Vec<Seat>)
    ensures
        edge_models(final(edges)@) == caption_edges(
            edge_models(old(edges)@),
            seats@,
            seats@.len() as int,
        ),
{
    let ghost before = edge_models(edges@);
    let mut i: usize = 0;
    while i < seats.len()
        invariant
            i <= seats@.len(),
            edge_models(edges@) == caption_edges(before, seats@, i as int),
        decreases seats@.len() - i,
    {
        let caption: &Seat = &seats[i];
        if caption.caption {
            if let Some(at) = find_object(seats, caption) {
                if caption.bbox.top >= seats[at].bbox.bottom {
                    push_edge(
                        edges,
                        &seats[at].id,
                        &caption.id,
                        EdgeSource::CaptionRelation,
                        "visual object before lower caption",
                        caption.confidence,
                    );
                } else {
                    push_edge(
                        edges,
                        &caption.id,
                        &seats[at].id,
                        EdgeSource::CaptionRelation,
                        "upper caption before visual object",
                        caption.confidence,
                    );
                }
            }
        }
        i = i + 1;
    }
}

/// Whether a seat of the main flow comes behind another one.
pub open spec fn lies_behind(a: Seat, b: Seat) -> bool {
    a.bbox.bottom > b.bbox.bottom || (a.bbox.bottom == b.bbox.bottom && (a.bbox.right > b.bbox.right
        || (a.bbox.right == b.bbox.right && !text_before(b.id@, a.id@))))
}

/// The last seat of the main flow among the first `n`.
pub open spec fn last_main_upto(s: Seq<Seat>, n: int) -> Option<int>
    decreases n,
{
    if n <= 0 {
        None
    } else {
        let before = last_main_upto(s, n - 1);
        if s[n - 1].marginal {
            before
        } else {
            match before {
                None => Some(n - 1),
                Some(best) => if lies_behind(s[n - 1], s[best]) {
                    Some(n - 1)
                } else {
                    before
                },
            }
        }
    }
}

/// Constraints that put rotated marginal content behind the main flow.
pub open spec fn marginal_edges(edges: Seq<EdgeModel>, seats: Seq<Seat>) -> Seq<EdgeModel> {
    let m = sorted(picked(seats, |x: Seat| x.marginal), SeatOrder::Corner);
    if m.len() == 0 {
        edges
    } else {
        let first = match last_main_upto(seats, seats.len() as int) {
            None => edges,
            Some(at) => with_edge(
                edges,
                edge(
                    seats[at].id@,
                    m[0].id@,
                    EdgeSource::StrongVertical,
                    "main flow before rotated marginal content"@,
                    None,
                ),
            ),
        };
        chain_upto(
            first,
            m,
            EdgeSource::IntraRegion,
            "rotated marginal content order"@,
            m.len() as int,
        )
    }
}

/// The last seat of the main flow.
fn find_last_main(s: &Vec<Seat>) -> (found: Option<usize>)
    ensures
        match (found, last_main_upto(s@, s@.len() as int)) {
            (None, None) => true,
            (Some(at), Some(expected)) => at == expected && at < s@.len(),
            _ => false,
        },
{
    let mut best: Option<usize> = None;
    let mut i: usize = 0;
    while i < s.len()
        invariant
            i <= s@.len(),
            match (best, last_main_upto(s@, i as int)) {
                (None, None) => true,
                (Some(at), Some(expected)) => at == expected && at < i,
                _ => false,
            },
        decreases s@.len() - i,
    {
        if !s[i].marginal {
            let better: bool = match best {
                None => true,
                Some(at) => {
                    let a: &Seat = &s[i];
                    let b: &Seat = &s[at];
                    a.bbox.bottom > b.bbox.bottom || (a.bbox.bottom == b.bbox.bottom && (
                    a.bbox.right > b.bbox.right || (a.bbox.right == b.bbox.right && !str_before(
                        b.id.as_str(),
                        a.id.as_str(),
                    ))))
                },
            };
            if better {
                best = Some(i);
            }
        }
        i = i + 1;
    }
    best
}

/// Places narrow rotated margin content after the connected main page flow.
pub fn add_rotated_marginal_edges(edges: &mut Vec<OrderEdge>, seats: &Vec<Seat>)
    ensures
        edge_models(final(edges)@) == marginal_edges(edge_models(old(edges)@), seats@),
{
    let mut found: Vec<Seat> = Vec::new();
    let ghost want = |x: Seat| x.marginal;
    let mut i: usize = 0;
    while i < seats.len()
        invariant
            want == (|x: Seat| x.marginal),
            i <= seats@.len(),
            found@ == picked_upto(seats@, want, i as int),
        decreases seats@.len() - i,
    {
        if seats[i].marginal {
            found.push(seats[i].copy());
        }
        i = i + 1;
    }
    let m: Vec<Seat> = sort(found, &SeatOrder::Corner);
    if m.len() == 0 {
        return;
    }
    if let Some(at) = find_last_main(seats) {
        push_edge(
            edges,
            &seats[at].id,
            &m[0].id,
            EdgeSource::StrongVertical,
            "main flow before rotated marginal content",
            None,
        );
    }
    push_chain(edges, &m, EdgeSource::IntraRegion, "rotated marginal content order");
}

} // verus!
