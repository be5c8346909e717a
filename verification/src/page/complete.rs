//! The last steps of a page: order, annotations, diagnostics and conservation.

use vstd::prelude::*;

use crate::blocks::{Block, BlockId, LabelSource, Line};
use crate::chars::{
    push_decimal, push_text, str_before, str_same, text_before, text_of_decimal,
    text_order_is_strict_weak,
};
use crate::error::{OrderError, PageAnalysisError};
use crate::fusion::edges::{seats_of, EdgeSource};
use crate::fusion::order::{
    edges_of, ids_at, nodes_of, removed_models, resolved, RemovedModel, RemovedOrderEdge, Resolved,
};
use crate::fusion::reading::{arranged, order_blocks, ordinal, repeated_from, OrderedBlocks};
use crate::geometry::Bbox;
use crate::label_policy::{policy_of, LabelPolicy};
use crate::layout::LayoutLabel;
use crate::numerals::{fixed_text, push_fixed, push_share, share_text};
use crate::result::PageResult;
use crate::sorting::{lemma_sorted_seen, sort, sorted, sorting_orders_and_keeps, Order, Sorter};
use crate::texts::{push_to, texts, TextOrder};
use crate::types::{
    warn, warning_models, PageWarning, TextItem, TextSource, WarningModel,
};

verus! {

/// Block ownership and evidence of a page once its tables are done.
#[derive(Debug)]
pub struct PageTableDraft {
    pub page_number: u32,
    pub width: i32,
    pub height: i32,
    pub rotation: i32,
    pub blocks: Vec<Block>,
    pub warnings: Vec<PageWarning>,
    /// Identities of the native facts of the page, in order.
    pub expected_native_ids: Vec<String>,
    pub references: Vec<Block>,
    pub watermarks: Vec<Block>,
    /// The texts that blocks derive from their lines as bibliography text, by their identities.
    /// How a block derives its text is the affair of whoever makes blocks; one that is not listed
    /// derives the text that it has.
    pub reference_texts: Vec<(BlockId, String)>,
    /// Inline formulas without a line of content.
    pub unmatched_formulas: Vec<BlockId>,
    pub assignment_diagnostics: Vec<String>,
    /// The share of the page that native text covers, as it is reported.
    pub native_text_coverage: String,
    pub model_revision: Option<String>,
}

/// Whether a block should hold text and has none.
pub open spec fn is_empty_region(block: Block) -> bool {
    block.lines@.len() == 0 && (policy_of(block.label) == LabelPolicy::FlowText || policy_of(
        block.label,
    ) == LabelPolicy::Title)
}

/// What is said of a block without text.
pub open spec fn empty_warning(id: Seq<char>) -> WarningModel {
    WarningModel {
        code: "EmptyModelRegion"@,
        stage: "semantic"@,
        message: "content layout "@ + id + " contains no extracted text"@,
    }
}

/// What is said of an inline formula without a line.
pub open spec fn unmatched_warning(id: Seq<char>) -> WarningModel {
    WarningModel {
        code: "UnmatchedInlineFormula"@,
        stage: "formula"@,
        message: "inline formula region "@ + id + " has no corresponding content line"@,
    }
}

/// What is said of overlapping blocks.
pub open spec fn overlap_warning(count: nat) -> WarningModel {
    WarningModel {
        code: "ContentLayoutOverlap"@,
        stage: "semantic"@,
        message: "retained "@ + text_of_decimal(count)
            + " partially overlapping content layout pairs; see content.overlap diagnostics"@,
    }
}

/// Warnings about those of the first `n` blocks that hold no text.
pub open spec fn empties_upto(blocks: Seq<Block>, n: int) -> Seq<WarningModel>
    decreases n,
{
    if n <= 0 {
        Seq::empty()
    } else if is_empty_region(blocks[n - 1]) {
        empties_upto(blocks, n - 1).push(empty_warning(blocks[n - 1].id@))
    } else {
        empties_upto(blocks, n - 1)
    }
}

/// Warnings about inline formulas without a line.
pub open spec fn unmatched_of(ids: Seq<BlockId>) -> Seq<WarningModel> {
    Seq::new(ids.len(), |i: int| unmatched_warning(ids[i]@))
}

/// Whether a reference covers half of a block.
pub open spec fn is_referenced(block: Block, references: Seq<Block>) -> bool {
    exists|r: int| 0 <= r < references.len() && #[trigger] half_under(block, references[r])
}

/// Whether this reference covers half of a block.
pub open spec fn half_under(block: Block, reference: Block) -> bool {
    2 * block.bbox.shared_area(reference.bbox) >= block.bbox.size()
}

/// The text that a block derives as bibliography text, among the texts from `i` on.
pub open spec fn reference_text(texts: Seq<(BlockId, String)>, id: Seq<char>, i: int) -> Option<
    String,
>
    decreases texts.len() - i,
{
    if i >= texts.len() {
        None
    } else if texts[i].0@ == id {
        Some(texts[i].1)
    } else {
        reference_text(texts, id, i + 1)
    }
}

/// A block with the label of bibliography text where a reference covers it, and with the text
/// that it derives under this label.
pub open spec fn relabelled(
    block: Block,
    references: Seq<Block>,
    texts: Seq<(BlockId, String)>,
) -> Block {
    if block.label is Text && is_referenced(block, references) {
        Block {
            label: LayoutLabel::ReferenceContent,
            label_source: LabelSource::Heuristic,
            text: match reference_text(texts, block.id@, 0) {
                None => block.text,
                Some(text) => text,
            },
            ..block
        }
    } else {
        block
    }
}

/// Blocks numbered from a position on.
pub open spec fn numbered(blocks: Seq<Block>, start: int) -> Seq<Block> {
    Seq::new(blocks.len(), |i: int| Block { final_order: ordinal(start + i), ..blocks[i] })
}

/// The blocks of a page: the body in reading order, then the references, then
/// the watermarks.
pub open spec fn finished(
    body: Seq<Block>,
    references: Seq<Block>,
    watermarks: Seq<Block>,
    texts: Seq<(BlockId, String)>,
) -> Seq<Block> {
    Seq::new(body.len(), |i: int| relabelled(body[i], references, texts)) + numbered(
        references,
        body.len() as int,
    ) + numbered(watermarks, (body.len() + references.len()) as int)
}

/// A key and its value.
pub open spec fn pair_of(pair: (String, String)) -> (Seq<char>, Seq<char>) {
    (pair.0@, pair.1@)
}

/// Keys and their values.
pub open spec fn pairs_of(list: Seq<(String, String)>) -> Seq<(Seq<char>, Seq<char>)> {
    list.map_values(|p: (String, String)| pair_of(p))
}

/// Keys in the order of their bytes.
#[derive(Debug, Clone, Copy, PartialEq, Eq, Structural)]
pub struct PairOrder;

impl Order<(Seq<char>, Seq<char>)> for PairOrder {
    open spec fn lt(&self, a: (Seq<char>, Seq<char>), b: (Seq<char>, Seq<char>)) -> bool {
        text_before(a.0, b.0)
    }

    proof fn is_strict_weak(
        &self,
        a: (Seq<char>, Seq<char>),
        b: (Seq<char>, Seq<char>),
        c: (Seq<char>, Seq<char>),
    ) {
        text_order_is_strict_weak(a.0, b.0, c.0);
    }
}

impl Order<(String, String)> for PairOrder {
    open spec fn lt(&self, a: (String, String), b: (String, String)) -> bool {
        text_before(a.0@, b.0@)
    }

    proof fn is_strict_weak(&self, a: (String, String), b: (String, String), c: (String, String)) {
        text_order_is_strict_weak(a.0@, b.0@, c.0@);
    }
}

impl Sorter<(String, String)> for PairOrder {
    fn precedes(&self, a: &(String, String), b: &(String, String)) -> (yes: bool) {
        str_before(a.0.as_str(), b.0.as_str())
    }
}

/// Warnings by stage, code and message.
#[derive(Debug, Clone, Copy, PartialEq, Eq, Structural)]
pub struct WarningOrder;

/// Whether a warning stands before another.
pub open spec fn warning_lt(a: WarningModel, b: WarningModel) -> bool {
    if a.stage != b.stage {
        text_before(a.stage, b.stage)
    } else if a.code != b.code {
        text_before(a.code, b.code)
    } else {
        text_before(a.message, b.message)
    }
}

proof fn lemma_warning_order(a: WarningModel, b: WarningModel, c: WarningModel)
    ensures
        !warning_lt(a, a),
        warning_lt(a, b) && warning_lt(b, c) ==> warning_lt(a, c),
        !warning_lt(a, b) && !warning_lt(b, c) ==> !warning_lt(a, c),
{
    lemma_chain(a.stage, b.stage, c.stage);
    lemma_chain(a.code, b.code, c.code);
    lemma_chain(a.message, b.message, c.message);
}

/// What lets different texts be told apart in an order by several texts.
proof fn lemma_chain(a: Seq<char>, b: Seq<char>, c: Seq<char>)
    ensures
        !text_before(a, a),
        text_before(a, b) && text_before(b, c) ==> text_before(a, c) && a != c,
        !text_before(a, b) && !text_before(b, c) ==> !text_before(a, c),
        a != b ==> text_before(a, b) || text_before(b, a),
        b != c ==> text_before(b, c) || text_before(c, b),
        a != c ==> text_before(a, c) || text_before(c, a),
        !(text_before(a, b) && text_before(b, a)),
        !(text_before(b, c) && text_before(c, b)),
        !(text_before(a, c) && text_before(c, a)),
{
    text_order_is_strict_weak(a, b, c);
    text_order_is_strict_weak(a, b, a);
    text_order_is_strict_weak(b, c, b);
    text_order_is_strict_weak(a, c, a);
    if a != b {
        crate::chars::text_order_is_total(a, b);
    }
    if b != c {
        crate::chars::text_order_is_total(b, c);
    }
    if a != c {
        crate::chars::text_order_is_total(a, c);
    }
}

impl Order<WarningModel> for WarningOrder {
    open spec fn lt(&self, a: WarningModel, b: WarningModel) -> bool {
        warning_lt(a, b)
    }

    proof fn is_strict_weak(&self, a: WarningModel, b: WarningModel, c: WarningModel) {
        lemma_warning_order(a, b, c);
    }
}

impl Order<PageWarning> for WarningOrder {
    open spec fn lt(&self, a: PageWarning, b: PageWarning) -> bool {
        warning_lt(a@, b@)
    }

    proof fn is_strict_weak(&self, a: PageWarning, b: PageWarning, c: PageWarning) {
        lemma_warning_order(a@, b@, c@);
    }
}

impl Sorter<PageWarning> for WarningOrder {
    fn precedes(&self, a: &PageWarning, b: &PageWarning) -> (yes: bool) {
        if !str_same(a.stage.as_str(), b.stage.as_str()) {
            str_before(a.stage.as_str(), b.stage.as_str())
        } else if !str_same(a.code.as_str(), b.code.as_str()) {
            str_before(a.code.as_str(), b.code.as_str())
        } else {
            str_before(a.message.as_str(), b.message.as_str())
        }
    }
}

/// A key with a number.
pub open spec fn numbered_key(name: Seq<char>, index: nat) -> Seq<char> {
    name + text_of_decimal(index)
}

/// The name of where a constraint comes from.
pub open spec fn source_name(source: EdgeSource) -> Seq<char> {
    match source {
        EdgeSource::Model => "Model"@,
        EdgeSource::FallbackInsertion => "FallbackInsertion"@,
        EdgeSource::BandHorizontal => "BandHorizontal"@,
        EdgeSource::CaptionRelation => "CaptionRelation"@,
        EdgeSource::XyCut => "XyCut"@,
        EdgeSource::IntraRegion => "IntraRegion"@,
        EdgeSource::StrongVertical => "StrongVertical"@,
    }
}

/// What is reported of a constraint that was given up.
pub open spec fn removed_text(edge: RemovedModel) -> Seq<char> {
    edge.from + ">"@ + edge.to + " source="@ + source_name(edge.source) + " weight="@ + share_text(
        edge.preservation_weight as nat,
    ) + " reason="@ + edge.reason
}

/// What assignment reported, as diagnostics.
pub open spec fn assignment_pairs(messages: Seq<Seq<char>>) -> Seq<(Seq<char>, Seq<char>)> {
    Seq::new(messages.len(), |i: int| (numbered_key("assignment."@, i as nat), messages[i]))
}

/// Constraints given up, as diagnostics.
pub open spec fn removed_pairs(removed: Seq<RemovedModel>) -> Seq<(Seq<char>, Seq<char>)> {
    Seq::new(
        removed.len(),
        |i: int| (numbered_key("order.removed_edge."@, i as nat), removed_text(removed[i])),
    )
}

/// Whether two blocks of the body share an area.
pub open spec fn overlap(a: Block, b: Block) -> bool {
    !a.detached() && !b.detached() && a.bbox.overlap_x(b.bbox) > 0 && a.bbox.overlap_y(b.bbox) > 0
}

/// The share of two boxes in their common area, in millionths, to the nearest.
pub open spec fn common_share(a: Bbox, b: Bbox) -> nat {
    let common = a.shared_area(b);
    let whole = a.size() + b.size() - common;
    ((2_000_000 * common + whole) / (2 * whole)) as nat
}

/// What is reported of two blocks that overlap.
pub open spec fn overlap_text(a: Block, b: Block) -> Seq<char> {
    a.id@ + " overlaps "@ + b.id@ + " with IoU "@ + fixed_text(common_share(a.bbox, b.bbox))
}

/// The overlaps of block `i` with the blocks behind it, up to `n`.
pub open spec fn overlaps_with(
    list: Seq<(Seq<char>, Seq<char>)>,
    blocks: Seq<Block>,
    i: int,
    n: int,
) -> Seq<(Seq<char>, Seq<char>)>
    decreases n - i,
{
    if n <= i + 1 {
        list
    } else {
        let before = overlaps_with(list, blocks, i, n - 1);
        if overlap(blocks[i], blocks[n - 1]) {
            before.push(
                (
                    numbered_key("content.overlap."@, before.len()),
                    overlap_text(blocks[i], blocks[n - 1]),
                ),
            )
        } else {
            before
        }
    }
}

/// The overlaps of the first `n` blocks with the blocks behind them.
pub open spec fn overlaps_upto(blocks: Seq<Block>, n: int) -> Seq<(Seq<char>, Seq<char>)>
    decreases n,
{
    if n <= 0 {
        Seq::empty()
    } else {
        overlaps_with(overlaps_upto(blocks, n - 1), blocks, n - 1, blocks.len() as int)
    }
}

/// The overlaps of blocks.
pub open spec fn overlaps_of(blocks: Seq<Block>) -> Seq<(Seq<char>, Seq<char>)> {
    overlaps_upto(blocks, blocks.len() as int)
}

/// All diagnostics of a page, in the order of their keys.
pub open spec fn diagnostics_of(
    draft: PageTableDraft,
    removed: Seq<RemovedModel>,
    blocks: Seq<Block>,
) -> Seq<(Seq<char>, Seq<char>)> {
    let first = assignment_pairs(texts(draft.assignment_diagnostics@)) + removed_pairs(removed);
    let covered = first.push(("native_text_coverage"@, draft.native_text_coverage@));
    let revised = match draft.model_revision {
        None => covered,
        Some(revision) => covered.push(("model_revision"@, revision@)),
    };
    sorted(revised + overlaps_of(blocks), PairOrder)
}

/// All warnings of a page, in order.
pub open spec fn warnings_of(draft: PageTableDraft, blocks: Seq<Block>) -> Seq<WarningModel> {
    let first = warning_models(draft.warnings@) + empties_upto(
        draft.blocks@,
        draft.blocks@.len() as int,
    ) + unmatched_of(draft.unmatched_formulas@);
    let count = overlaps_of(blocks).len();
    sorted(
        if count > 0 {
            first.push(overlap_warning(count))
        } else {
            first
        },
        WarningOrder,
    )
}

/// The native identities among the first `n` facts.
pub open spec fn native_ids(items: Seq<TextItem>, n: int) -> Seq<Seq<char>>
    decreases n,
{
    if n <= 0 {
        Seq::empty()
    } else if items[n - 1].source == TextSource::Native {
        native_ids(items, n - 1).push(items[n - 1].id@)
    } else {
        native_ids(items, n - 1)
    }
}

/// The native identities of the first `n` lines.
pub open spec fn line_ids(lines: Seq<Line>, n: int) -> Seq<Seq<char>>
    decreases n,
{
    if n <= 0 {
        Seq::empty()
    } else {
        line_ids(lines, n - 1) + native_ids(
            lines[n - 1].text_items@,
            lines[n - 1].text_items@.len() as int,
        )
    }
}

/// The native identities of the first `n` blocks.
pub open spec fn block_ids(blocks: Seq<Block>, n: int) -> Seq<Seq<char>>
    decreases n,
{
    if n <= 0 {
        Seq::empty()
    } else {
        block_ids(blocks, n - 1) + line_ids(
            blocks[n - 1].lines@,
            blocks[n - 1].lines@.len() as int,
        )
    }
}

/// Appends the native identities of facts.
fn add_native_ids(ids: &mut Vec<String>, items: &Vec<TextItem>)
    ensures
        texts(final(ids)@) == texts(old(ids)@) + native_ids(items@, items@.len() as int),
{
    let ghost before = texts(ids@);
    let mut i: usize = 0;
    assert(texts(ids@) =~= before + native_ids(items@, 0));
    while i < items.len()
        invariant
            i <= items@.len(),
            texts(ids@) == before + native_ids(items@, i as int),
        decreases items@.len() - i,
    {
        let item: &TextItem = &items[i];
        i = i + 1;
        if matches!(item.source, TextSource::Native) {
            let id: String = item.id.copy().text;
            push_to(ids, id);
        }
        assert(texts(ids@) =~= before + native_ids(items@, i as int));
    }
}

/// Puts texts in order.
fn order_texts(list: Vec<String>) -> (ordered: Vec<String>)
    ensures
        texts(ordered@) == sorted(texts(list@), TextOrder),
{
    proof {
        lemma_sorted_seen(list@, list@.len() as int, |t: String| t@, TextOrder, TextOrder);
    }
    sort(list, &TextOrder)
}

/// The native identities of facts, in order.
pub fn list_native_ids(items: &Vec<TextItem>) -> (ids: Vec<String>)
    ensures
        texts(ids@) == sorted(native_ids(items@, items@.len() as int), TextOrder),
{
    let mut ids: Vec<String> = Vec::new();
    add_native_ids(&mut ids, items);
    assert(texts(ids@) =~= native_ids(items@, items@.len() as int));
    order_texts(ids)
}

/// The native identities of blocks, in order.
pub fn list_block_ids(blocks: &Vec<Block>) -> (ids: Vec<String>)
    ensures
        texts(ids@) == sorted(block_ids(blocks@, blocks@.len() as int), TextOrder),
{
    let mut ids: Vec<String> = Vec::new();
    assert(texts(ids@) =~= Seq::empty());
    let mut b: usize = 0;
    while b < blocks.len()
        invariant
            b <= blocks@.len(),
            texts(ids@) == block_ids(blocks@, b as int),
        decreases blocks@.len() - b,
    {
        let lines: &Vec<Line> = &blocks[b].lines;
        let ghost before = texts(ids@);
        let mut l: usize = 0;
        assert(texts(ids@) =~= before + line_ids(lines@, 0));
        while l < lines.len()
            invariant
                l <= lines@.len(),
                texts(ids@) == before + line_ids(lines@, l as int),
            decreases lines@.len() - l,
        {
            let ghost so_far = texts(ids@);
            add_native_ids(&mut ids, &lines[l].text_items);
            l = l + 1;
            assert(texts(ids@) =~= before + line_ids(lines@, l as int));
        }
        b = b + 1;
    }
    order_texts(ids)
}

/// Whether two lists hold the same texts in the same order.
fn same_texts(a: &Vec<String>, b: &Vec<String>) -> (yes: bool)
    ensures
        yes == (texts(a@) == texts(b@)),
{
    let ghost x = texts(a@);
    let ghost y = texts(b@);
    assert(x.len() == a@.len() && y.len() == b@.len());
    if a.len() != b.len() {
        return false;
    }
    let mut i: usize = 0;
    while i < a.len()
        invariant
            x == texts(a@),
            y == texts(b@),
            a@.len() == b@.len(),
            i <= a@.len(),
            forall|k: int| 0 <= k < i ==> #[trigger] x[k] == y[k],
        decreases a@.len() - i,
    {
        assert(x[i as int] == a@[i as int]@ && y[i as int] == b@[i as int]@);
        if !str_same(a[i].as_str(), b[i].as_str()) {
            return false;
        }
        i = i + 1;
    }
    assert(x =~= y);
    true
}

/// A warning about a block.
fn block_warning(code: &str, stage: &str, head: &str, id: &str, tail: &str) -> (warning:
    PageWarning)
    ensures
        warning@ == (WarningModel {
            code: code@,
            stage: stage@,
            message: head@ + id@ + tail@,
        }),
{
    let mut message: String = String::new();
    push_text(&mut message, head);
    push_text(&mut message, id);
    push_text(&mut message, tail);
    assert(message@ =~= head@ + id@ + tail@);
    PageWarning::new(code, stage, message)
}

/// Warns of blocks without text and of formulas without a line.
fn warn_regions(warnings: &mut Vec<PageWarning>, blocks: &Vec<Block>, formulas: &Vec<BlockId>)
    ensures
        warning_models(final(warnings)@) == warning_models(old(warnings)@) + empties_upto(
            blocks@,
            blocks@.len() as int,
        ) + unmatched_of(formulas@),
{
    let ghost said = warning_models(warnings@);
    let mut i: usize = 0;
    assert(warning_models(warnings@) =~= said + empties_upto(blocks@, 0));
    while i < blocks.len()
        invariant
            i <= blocks@.len(),
            warning_models(warnings@) == said + empties_upto(blocks@, i as int),
        decreases blocks@.len() - i,
    {
        let block: &Block = &blocks[i];
        let policy: LabelPolicy = LabelPolicy::of(&block.label);
        i = i + 1;
        if block.lines.len() == 0 && matches!(policy, LabelPolicy::FlowText | LabelPolicy::Title) {
            let warning: PageWarning = block_warning(
                "EmptyModelRegion",
                "semantic",
                "content layout ",
                block.id.as_str(),
                " contains no extracted text",
            );
            assert(warning@ =~= empty_warning(block.id@));
            warn(warnings, warning);
        }
        assert(warning_models(warnings@) =~= said + empties_upto(blocks@, i as int));
    }
    let ghost so_far = warning_models(warnings@);
    let ghost want = unmatched_of(formulas@);
    let mut k: usize = 0;
    assert(warning_models(warnings@) =~= so_far + want.take(0));
    while k < formulas.len()
        invariant
            want == unmatched_of(formulas@),
            k <= formulas@.len(),
            warning_models(warnings@) == so_far + want.take(k as int),
        decreases formulas@.len() - k,
    {
        let warning: PageWarning = block_warning(
            "UnmatchedInlineFormula",
            "formula",
            "inline formula region ",
            formulas[k].as_str(),
            " has no corresponding content line",
        );
        assert(warning@ =~= want[k as int]);
        warn(warnings, warning);
        k = k + 1;
        assert(warning_models(warnings@) =~= so_far + want.take(k as int));
    }
    assert(want.take(formulas@.len() as int) =~= want);
}

/// Whether a reference covers half of a block.
fn is_under_reference(block: &Block, references: &Vec<Block>) -> (yes: bool)
    ensures
        yes == is_referenced(*block, references@),
{
    let area: i128 = block.bbox.area();
    let mut r: usize = 0;
    while r < references.len()
        invariant
            area == block.bbox.size(),
            r <= references@.len(),
            forall|k: int| 0 <= k < r ==> !#[trigger] half_under(*block, references@[k]),
        decreases references@.len() - r,
    {
        if 2 * block.bbox.intersection_area(&references[r].bbox) >= area {
            assert(half_under(*block, references@[r as int]));
            return true;
        }
        r = r + 1;
    }
    false
}

/// A position as a final order.
fn to_ordinal(k: usize) -> (order: u32)
    ensures
        order == ordinal(k as int),
{
    if k as u64 <= u32::MAX as u64 {
        k as u32
    } else {
        u32::MAX
    }
}

/// The text that a block derives as bibliography text.
fn find_reference_text(texts: &Vec<(BlockId, String)>, id: &BlockId) -> (text: Option<String>)
    ensures
        text == reference_text(texts@, id@, 0),
{
    let mut i: usize = 0;
    while i < texts.len()
        invariant
            i <= texts@.len(),
            reference_text(texts@, id@, 0) == reference_text(texts@, id@, i as int),
        decreases texts@.len() - i,
    {
        if str_same(texts[i].0.as_str(), id.as_str()) {
            return Some(texts[i].1.clone());
        }
        i = i + 1;
    }
    None
}

/// Labels bibliography text, then appends references and watermarks.
fn finish_blocks(
    body: Vec<Block>,
    references: Vec<Block>,
    watermarks: Vec<Block>,
    texts: &Vec<(BlockId, String)>,
) -> (blocks: Vec<Block>)
    requires
        body@.len() + references@.len() + watermarks@.len() <= usize::MAX,
    ensures
        blocks@ == finished(body@, references@, watermarks@, texts@),
{
    let ghost given = body@;
    let ghost marks = references@;
    let n: usize = body.len();
    let mut blocks: Vec<Block> = body;
    let mut i: usize = 0;
    while i < n
        invariant
            n == given.len(),
            marks == references@,
            blocks@.len() == n,
            i <= n,
            forall|k: int| 0 <= k < i ==> #[trigger] blocks@[k] == relabelled(given[k], marks, texts@),
            forall|k: int| i <= k < n ==> #[trigger] blocks@[k] == given[k],
        decreases n - i,
    {
        if matches!(blocks[i].label, LayoutLabel::Text) && is_under_reference(
            &blocks[i],
            &references,
        ) {
            let text: Option<String> = find_reference_text(texts, &blocks[i].id);
            blocks[i].label = LayoutLabel::ReferenceContent;
            blocks[i].label_source = LabelSource::Heuristic;
            if let Some(text) = text {
                blocks[i].text = text;
            }
        }
        assert(blocks@[i as int] == relabelled(given[i as int], marks, texts@));
        i = i + 1;
    }
    let ghost head = Seq::new(given.len(), |i: int| relabelled(given[i], marks, texts@));
    assert(blocks@ =~= head);
    append_numbered(&mut blocks, references);
    append_numbered(&mut blocks, watermarks);
    assert(blocks@ =~= finished(given, marks, watermarks@, texts@));
    blocks
}

/// Appends blocks with their positions.
fn append_numbered(blocks: &mut Vec<Block>, more: Vec<Block>)
    requires
        old(blocks)@.len() + more@.len() <= usize::MAX,
    ensures
        final(blocks)@ == old(blocks)@ + numbered(more@, old(blocks)@.len() as int),
{
    let ghost given = blocks@;
    let ghost rest = more@;
    let ghost want = numbered(rest, given.len() as int);
    let total: usize = more.len();
    let mut left: Vec<Block> = more;
    let mut slots: Vec<Block> = Vec::new();
    while left.len() > 0
        invariant
            left@.len() + slots@.len() == rest.len(),
            left@ == rest.take(left@.len() as int),
            forall|k: int|
                0 <= k < slots@.len() ==> #[trigger] slots@[k] == rest[rest.len() - 1 - k],
        decreases left@.len(),
    {
        let block: Block = left.pop().unwrap();
        slots.push(block);
        assert(left@ =~= rest.take(left@.len() as int));
    }
    assert(blocks@ =~= given + want.take(0));
    while slots.len() > 0
        invariant
            total == rest.len(),
            given.len() + rest.len() <= usize::MAX,
            want == numbered(rest, given.len() as int),
            slots@.len() <= rest.len(),
            forall|k: int|
                0 <= k < slots@.len() ==> #[trigger] slots@[k] == rest[rest.len() - 1 - k],
            blocks@ == given + want.take(rest.len() - slots@.len()),
        decreases slots@.len(),
    {
        let ghost done = (rest.len() - slots@.len()) as int;
        let mut block: Block = slots.pop().unwrap();
        assert(block == rest[done]);
        let place: usize = blocks.len();
        block.final_order = to_ordinal(place);
        assert(block == want[done]);
        blocks.push(block);
        assert(blocks@ =~= given + want.take(done + 1));
    }
    assert(want.take(rest.len() as int) =~= want);
}

/// Appends a key and its value.
fn push_pair(list: &mut Vec<(String, String)>, key: String, value: String)
    ensures
        pairs_of(final(list)@) == pairs_of(old(list)@).push((key@, value@)),
{
    let ghost before = list@;
    list.push((key, value));
    assert(pairs_of(list@) =~= pairs_of(before).push((key@, value@)));
}

/// A key with a number.
fn make_key(name: &str, index: usize) -> (key: String)
    ensures
        key@ == numbered_key(name@, index as nat),
{
    let mut key: String = String::new();
    push_text(&mut key, name);
    push_decimal(&mut key, index as u64);
    assert(key@ =~= numbered_key(name@, index as nat));
    key
}

/// The name of where a constraint comes from.
fn name_source(source: EdgeSource) -> (name: &'static str)
    ensures
        name@ == source_name(source),
{
    match source {
        EdgeSource::Model => "Model",
        EdgeSource::FallbackInsertion => "FallbackInsertion",
        EdgeSource::BandHorizontal => "BandHorizontal",
        EdgeSource::CaptionRelation => "CaptionRelation",
        EdgeSource::XyCut => "XyCut",
        EdgeSource::IntraRegion => "IntraRegion",
        EdgeSource::StrongVertical => "StrongVertical",
    }
}

/// What is reported of a constraint that was given up.
fn describe_removed(edge: &RemovedOrderEdge) -> (text: String)
    ensures
        text@ == removed_text(edge@),
{
    let mut text: String = String::new();
    push_text(&mut text, edge.from.as_str());
    push_text(&mut text, ">");
    push_text(&mut text, edge.to.as_str());
    push_text(&mut text, " source=");
    push_text(&mut text, name_source(edge.source));
    push_text(&mut text, " weight=");
    push_share(&mut text, edge.preservation_weight);
    push_text(&mut text, " reason=");
    push_text(&mut text, edge.reason.as_str());
    assert(text@ =~= removed_text(edge@));
    text
}

/// Boxes that share an area have one.
proof fn lemma_common(a: Bbox, b: Bbox)
    requires
        a.overlap_x(b) > 0,
        a.overlap_y(b) > 0,
    ensures
        0 < a.shared_area(b) <= a.size(),
        a.shared_area(b) <= b.size(),
{
    let x = a.overlap_x(b);
    let y = a.overlap_y(b);
    let aw = a.wide();
    let ah = a.high();
    let bw = b.wide();
    let bh = b.high();
    assert(0 < x * y <= aw * ah && x * y <= bw * bh) by (nonlinear_arith)
        requires
            0 < x <= aw,
            x <= bw,
            0 < y <= ah,
            y <= bh,
    ;
}

/// The share of two boxes in their common area, in millionths.
fn measure_common(a: &Bbox, b: &Bbox) -> (share: u32)
    requires
        a.overlap_x(*b) > 0,
        a.overlap_y(*b) > 0,
    ensures
        share == common_share(*a, *b),
{
    proof {
        lemma_common(*a, *b);
    }
    let common: i128 = a.intersection_area(b);
    let x: i128 = a.area();
    let y: i128 = b.area();
    let whole: i128 = x + y - common;
    let top: i128 = 2_000_000 * common + whole;
    proof {
        let c = common as int;
        let w = whole as int;
        assert((2_000_000 * c + w) / (2 * w) <= 1_000_000) by (nonlinear_arith)
            requires
                0 < c <= w,
        ;
        assert(0 <= (2_000_000 * c + w) / (2 * w)) by (nonlinear_arith)
            requires
                0 < c <= w,
        ;
    }
    (top / (2 * whole)) as u32
}

/// What is reported of two blocks that overlap.
fn describe_overlap(a: &Block, b: &Block) -> (text: String)
    requires
        overlap(*a, *b),
    ensures
        text@ == overlap_text(*a, *b),
{
    let mut text: String = String::new();
    push_text(&mut text, a.id.as_str());
    push_text(&mut text, " overlaps ");
    push_text(&mut text, b.id.as_str());
    push_text(&mut text, " with IoU ");
    push_fixed(&mut text, measure_common(&a.bbox, &b.bbox));
    assert(text@ =~= overlap_text(*a, *b));
    text
}

/// The overlaps of blocks.
fn list_overlaps(blocks: &Vec<Block>) -> (list: Vec<(String, String)>)
    ensures
        pairs_of(list@) == overlaps_of(blocks@),
{
    let n: usize = blocks.len();
    let mut list: Vec<(String, String)> = Vec::new();
    assert(pairs_of(list@) =~= Seq::empty());
    let mut i: usize = 0;
    while i < n
        invariant
            n == blocks@.len(),
            i <= n,
            pairs_of(list@) == overlaps_upto(blocks@, i as int),
        decreases n - i,
    {
        let ghost before = pairs_of(list@);
        let a: &Block = &blocks[i];
        let mut j: usize = i + 1;
        while j < n
            invariant
                n == blocks@.len(),
                i < j <= n,
                *a == blocks@[i as int],
                pairs_of(list@) == overlaps_with(before, blocks@, i as int, j as int),
            decreases n - j,
        {
            let b: &Block = &blocks[j];
            j = j + 1;
            if !a.is_detached() && !b.is_detached() && a.bbox.horizontal_overlap(&b.bbox) > 0
                && a.bbox.vertical_overlap(&b.bbox) > 0 {
                assert(pairs_of(list@).len() == list@.len());
                let key: String = make_key("content.overlap.", list.len());
                let value: String = describe_overlap(a, b);
                push_pair(&mut list, key, value);
            }
        }
        i = i + 1;
    }
    list
}

/// All diagnostics but those of overlaps.
fn list_diagnostics(
    messages: Vec<String>,
    removed: &Vec<RemovedOrderEdge>,
    coverage: String,
    revision: Option<String>,
) -> (list: Vec<(String, String)>)
    ensures
        ({
            let first = assignment_pairs(texts(messages@)) + removed_pairs(
                removed_models(removed@),
            );
            let covered = first.push(("native_text_coverage"@, coverage@));
            pairs_of(list@) == (match revision {
                None => covered,
                Some(text) => covered.push(("model_revision"@, text@)),
            })
        }),
{
    let ghost said = assignment_pairs(texts(messages@));
    let ghost given_up = removed_pairs(removed_models(removed@));
    let mut list: Vec<(String, String)> = Vec::new();
    let mut i: usize = 0;
    assert(pairs_of(list@) =~= said.take(0));
    while i < messages.len()
        invariant
            said == assignment_pairs(texts(messages@)),
            i <= messages@.len(),
            pairs_of(list@) == said.take(i as int),
        decreases messages@.len() - i,
    {
        push_pair(&mut list, make_key("assignment.", i), messages[i].clone());
        assert(said[i as int] == (
            numbered_key("assignment."@, i as nat),
            texts(messages@)[i as int],
        ));
        i = i + 1;
        assert(pairs_of(list@) =~= said.take(i as int));
    }
    assert(pairs_of(list@) =~= said);
    let mut k: usize = 0;
    assert(pairs_of(list@) =~= said + given_up.take(0));
    while k < removed.len()
        invariant
            given_up == removed_pairs(removed_models(removed@)),
            k <= removed@.len(),
            pairs_of(list@) == said + given_up.take(k as int),
        decreases removed@.len() - k,
    {
        push_pair(&mut list, make_key("order.removed_edge.", k), describe_removed(&removed[k]));
        assert(removed_models(removed@)[k as int] == removed@[k as int]@);
        k = k + 1;
        assert(pairs_of(list@) =~= said + given_up.take(k as int));
    }
    assert(given_up.take(removed@.len() as int) =~= given_up);
    let mut key: String = String::new();
    push_text(&mut key, "native_text_coverage");
    assert(key@ =~= "native_text_coverage"@);
    push_pair(&mut list, key, coverage);
    if let Some(text) = revision {
        let mut key: String = String::new();
        push_text(&mut key, "model_revision");
        assert(key@ =~= "model_revision"@);
        push_pair(&mut list, key, text);
    }
    list
}

/// What becomes of a page.
pub open spec fn completes(draft: PageTableDraft, outcome: Result<PageResult, PageAnalysisError>) -> bool {
    let seats = seats_of(draft.blocks@);
    let nodes = nodes_of(seats);
    match (resolved(nodes, edges_of(seats)), repeated_from(draft.blocks@, 0)) {
        (Resolved::Unknown { id }, _) => false,
        (Resolved::Conflict, _) => outcome matches Err(
            PageAnalysisError::Order(OrderError::InternalOrderConflict),
        ),
        (Resolved::Ordered { places, removed }, Some(id)) => outcome matches Err(
            PageAnalysisError::Order(OrderError::DuplicateBlock { block_id }),
        ) && block_id@ == id,
        (Resolved::Ordered { places, removed }, None) => {
            let body = arranged(draft.blocks@, ids_at(nodes, places));
            let all = finished(
                body,
                draft.references@,
                draft.watermarks@,
                draft.reference_texts@,
            );
            let found = sorted(block_ids(all, all.len() as int), TextOrder);
            match outcome {
                Ok(page) => {
                    &&& found == texts(draft.expected_native_ids@)
                    &&& page.page_number == draft.page_number
                    &&& page.width == draft.width
                    &&& page.height == draft.height
                    &&& page.rotation == draft.rotation
                    &&& page.blocks@ == all
                    &&& page.images@.len() == 0
                    &&& warning_models(page.warnings@) == warnings_of(draft, all)
                    &&& pairs_of(page.diagnostics@) == diagnostics_of(draft, removed, all)
                },
                Err(PageAnalysisError::NativeTextConservation { page_number }) => found != texts(
                    draft.expected_native_ids@,
                ) && page_number == draft.page_number,
                Err(_) => false,
            }
        },
    }
}

impl PageTableDraft {
    /// Finalizes order, annotations and diagnostics, and checks that no native
    /// fact was lost or owned twice.
    pub fn complete(self) -> (outcome: Result<PageResult, PageAnalysisError>)
        requires
            self.blocks@.len() + self.references@.len() + self.watermarks@.len() <= usize::MAX,
        ensures
            completes(self, outcome),
    {
        let ghost draft = self;
        let mut warnings: Vec<PageWarning> = self.warnings;
        warn_regions(&mut warnings, &self.blocks, &self.unmatched_formulas);
        proof {
            crate::fusion::reading::lemma_places(draft.blocks@);
        }
        let ordered: OrderedBlocks = match order_blocks(self.blocks) {
            Err(error) => {
                return Err(PageAnalysisError::Order(error));
            },
            Ok(ordered) => ordered,
        };
        let blocks: Vec<Block> = finish_blocks(
            ordered.blocks,
            self.references,
            self.watermarks,
            &self.reference_texts,
        );
        let mut diagnostics: Vec<(String, String)> = list_diagnostics(
            self.assignment_diagnostics,
            &ordered.removed_edges,
            self.native_text_coverage,
            self.model_revision,
        );
        let mut overlaps: Vec<(String, String)> = list_overlaps(&blocks);
        let count: usize = overlaps.len();
        let ghost first = diagnostics@;
        let ghost more = overlaps@;
        assert(pairs_of(more).len() == count);
        diagnostics.append(&mut overlaps);
        assert(pairs_of(diagnostics@) =~= pairs_of(first) + pairs_of(more));
        if count > 0 {
            let mut message: String = String::new();
            push_text(&mut message, "retained ");
            push_decimal(&mut message, count as u64);
            push_text(
                &mut message,
                " partially overlapping content layout pairs; see content.overlap diagnostics",
            );
            let warning: PageWarning = PageWarning::new(
                "ContentLayoutOverlap",
                "semantic",
                message,
            );
            assert(warning@ =~= overlap_warning(count as nat));
            warn(&mut warnings, warning);
        }
        proof {
            lemma_sorted_seen(
                diagnostics@,
                diagnostics@.len() as int,
                |p: (String, String)| pair_of(p),
                PairOrder,
                PairOrder,
            );
            lemma_sorted_seen(
                warnings@,
                warnings@.len() as int,
                |w: PageWarning| w@,
                WarningOrder,
                WarningOrder,
            );
            assert(warnings@.map_values(|w: PageWarning| w@) =~= warning_models(warnings@));
        }
        let found: Vec<String> = list_block_ids(&blocks);
        if !same_texts(&found, &self.expected_native_ids) {
            return Err(
                PageAnalysisError::NativeTextConservation { page_number: self.page_number },
            );
        }
        let warnings: Vec<PageWarning> = sort(warnings, &WarningOrder);
        assert(warnings@.map_values(|w: PageWarning| w@) =~= warning_models(warnings@));
        let diagnostics: Vec<(String, String)> = sort(diagnostics, &PairOrder);
        Ok(
            PageResult {
                page_number: self.page_number,
                width: self.width,
                height: self.height,
                rotation: self.rotation,
                blocks,
                images: Vec::new(),
                warnings,
                diagnostics,
            },
        )
    }
}

/// On a finished page the native facts of its blocks are those of the page, each
/// as often as it was there.
pub proof fn native_text_is_conserved(
    draft: PageTableDraft,
    page: PageResult,
    items: Seq<TextItem>,
)
    requires
        completes(draft, Ok(page)),
        texts(draft.expected_native_ids@) == sorted(native_ids(items, items.len() as int), TextOrder),
    ensures
        block_ids(page.blocks@, page.blocks@.len() as int).to_multiset() == native_ids(
            items,
            items.len() as int,
        ).to_multiset(),
{
    sorting_orders_and_keeps(block_ids(page.blocks@, page.blocks@.len() as int), TextOrder);
    sorting_orders_and_keeps(native_ids(items, items.len() as int), TextOrder);
}

/// References and watermarks stand behind the whole body, and change neither its order nor
/// anything but the labels of its blocks and the texts that these derive. A block that is no
/// plain text, or that no reference covers by half, keeps its text.
pub proof fn annotations_follow_the_body(
    body: Seq<Block>,
    references: Seq<Block>,
    watermarks: Seq<Block>,
    texts: Seq<(BlockId, String)>,
    i: int,
)
    requires
        0 <= i < body.len(),
    ensures
        ({
            let all = finished(body, references, watermarks, texts);
            &&& all[i].id == body[i].id
            &&& all[i].bbox == body[i].bbox
            &&& all[i].lines == body[i].lines
            &&& all[i].final_order == body[i].final_order
            &&& !(body[i].label is Text && is_referenced(body[i], references)) ==> all[i]
                == body[i]
            &&& forall|k: int|
                0 <= k < references.len() ==> (#[trigger] references[k]).id == all[body.len()
                    + k].id
            &&& forall|k: int|
                0 <= k < watermarks.len() ==> (#[trigger] watermarks[k]).id == all[body.len()
                    + references.len() + k].id
        }),
{
}

} // verus!
