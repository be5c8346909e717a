//! Sidecar relations between blocks of different pages.

use vstd::prelude::*;

use crate::blocks::{Block, BlockId, Line, LineId};
use crate::chars::{
    chars_of, lowercase, lowered, push_text, str_before, str_same, text_before,
    text_order_is_strict_weak, trim, trim_of,
};
use crate::context::builder::DocumentContext;
use crate::error::ContextError;
use crate::layout::LayoutLabel;
use crate::result::PageResult;
use crate::sorting::{
    is_ordered, lemma_sorted_seen, sort, sorted, sorting_forgets_arrival,
    sorting_orders_and_keeps, Order, Sorter,
};
use crate::texts::{push_to, sort_texts, text_set, texts};
use crate::types::TextItem;

verus! {

/// A reference to one block and its first line that owns neither.
#[derive(Debug)]
pub struct NodeRef {
    pub page_number: u32,
    pub block_id: BlockId,
    pub line_id: Option<LineId>,
}

impl NodeRef {
    /// An equal reference.
    pub fn copy(&self) -> (copy: NodeRef)
        ensures
            copy == *self,
    {
        NodeRef {
            page_number: self.page_number,
            block_id: self.block_id.copy(),
            line_id: match &self.line_id {
                None => None,
                Some(id) => Some(id.copy()),
            },
        }
    }
}

/// How two blocks are related.
#[derive(Debug, Clone, Copy, PartialEq, Eq, Structural)]
pub enum RelationKind {
    RepeatedChrome,
    ParagraphContinuation,
    TableContinuationCandidate,
    HeadingHierarchy,
}

impl RelationKind {
    /// The place of the kind among the kinds.
    pub open spec fn place(self) -> int {
        match self {
            RelationKind::RepeatedChrome => 0,
            RelationKind::ParagraphContinuation => 1,
            RelationKind::TableContinuationCandidate => 2,
            RelationKind::HeadingHierarchy => 3,
        }
    }

    fn rank(self) -> (rank: u8)
        ensures
            rank == self.place(),
    {
        match self {
            RelationKind::RepeatedChrome => 0,
            RelationKind::ParagraphContinuation => 1,
            RelationKind::TableContinuationCandidate => 2,
            RelationKind::HeadingHierarchy => 3,
        }
    }
}

/// What speaks for a relation.
#[derive(Debug, Clone, Copy, PartialEq, Eq, Structural)]
pub enum RelationEvidence {
    OpenSentenceAtPageBreak,
    AdjacentPageTables,
    NonIncreasingHeadingSize,
}

impl RelationEvidence {
    /// Name of the evidence.
    pub open spec fn text(self) -> Seq<char> {
        match self {
            RelationEvidence::OpenSentenceAtPageBreak => "open_sentence_at_page_break"@,
            RelationEvidence::AdjacentPageTables => "adjacent_page_tables"@,
            RelationEvidence::NonIncreasingHeadingSize => "non_increasing_heading_size"@,
        }
    }

    /// Name of the evidence.
    pub fn name(&self) -> (name: &'static str)
        ensures
            name@ == self.text(),
    {
        match self {
            RelationEvidence::OpenSentenceAtPageBreak => "open_sentence_at_page_break",
            RelationEvidence::AdjacentPageTables => "adjacent_page_tables",
            RelationEvidence::NonIncreasingHeadingSize => "non_increasing_heading_size",
        }
    }
}

/// One relation between two blocks; `score` is in millionths.
#[derive(Debug)]
pub struct DocumentRelation {
    pub kind: RelationKind,
    pub source: NodeRef,
    pub target: NodeRef,
    pub score: Option<u32>,
    pub evidence: Option<RelationEvidence>,
}

/// All relations of a document.
#[derive(Debug)]
pub struct DocumentRelations {
    pub relations: Vec<DocumentRelation>,
}

/// A page by its number and where it is.
#[derive(Debug, Clone, Copy, PartialEq, Eq, Structural)]
pub struct PageKey {
    pub number: u32,
    pub index: usize,
}

/// Pages by their numbers.
#[derive(Debug, Clone, Copy, PartialEq, Eq, Structural)]
pub struct NumberOrder;

impl Order<PageKey> for NumberOrder {
    open spec fn lt(&self, a: PageKey, b: PageKey) -> bool {
        a.number < b.number
    }

    proof fn is_strict_weak(&self, a: PageKey, b: PageKey, c: PageKey) {
    }
}

impl Sorter<PageKey> for NumberOrder {
    fn precedes(&self, a: &PageKey, b: &PageKey) -> (yes: bool) {
        a.number < b.number
    }
}

impl Order<PageResult> for NumberOrder {
    open spec fn lt(&self, a: PageResult, b: PageResult) -> bool {
        a.page_number < b.page_number
    }

    proof fn is_strict_weak(&self, a: PageResult, b: PageResult, c: PageResult) {
    }
}

/// Pages in the order of their numbers.
pub open spec fn ordered_pages(pages: Seq<PageResult>) -> Seq<PageResult> {
    sorted(pages, NumberOrder)
}

/// Where pages are.
spec fn page_keys(pages: Seq<PageResult>) -> Seq<PageKey> {
    Seq::new(pages.len(), |i: int| PageKey { number: pages[i].page_number, index: i as usize })
}

/// Sorting where pages are is sorting the pages.
proof fn lemma_keys(pages: Seq<PageResult>)
    requires
        pages.len() <= usize::MAX,
    ensures
        sorted(page_keys(pages), NumberOrder).len() == pages.len(),
        ordered_pages(pages).len() == pages.len(),
        forall|k: int|
            0 <= k < pages.len() ==> (#[trigger] sorted(page_keys(pages), NumberOrder)[k]).index
                < pages.len() && pages[sorted(page_keys(pages), NumberOrder)[k].index as int]
                == ordered_pages(pages)[k],
{
    let keys = page_keys(pages);
    let see = |k: PageKey| PageResult { page_number: k.number, ..pages[k.index as int] };
    lemma_sorted_seen(keys, keys.len() as int, see, NumberOrder, NumberOrder);
    assert(keys.map_values(see) =~= pages);
    sorting_orders_and_keeps(keys, NumberOrder);
    let s = sorted(keys, NumberOrder);
    keys.to_multiset_ensures();
    s.to_multiset_ensures();
    assert(s.map_values(see) == ordered_pages(pages));
    assert forall|k: int| 0 <= k < pages.len() implies (#[trigger] s[k]).index < pages.len()
        && pages[s[k].index as int] == ordered_pages(pages)[k] by {
        assert(s.contains(s[k]));
        assert(s.to_multiset().count(s[k]) > 0);
        assert(keys.contains(s[k]));
        let i = keys.index_of(s[k]);
        assert(keys[i] == s[k]);
        assert(s.map_values(see)[k] == see(s[k]));
    }
}

/// Nodes by page and identity.
#[derive(Debug, Clone, Copy, PartialEq, Eq, Structural)]
pub struct NodeOrder;

/// Whether a node stands before another.
pub open spec fn node_lt(a: NodeRef, b: NodeRef) -> bool {
    a.page_number < b.page_number || (a.page_number == b.page_number && text_before(
        a.block_id@,
        b.block_id@,
    ))
}

impl Order<NodeRef> for NodeOrder {
    open spec fn lt(&self, a: NodeRef, b: NodeRef) -> bool {
        node_lt(a, b)
    }

    proof fn is_strict_weak(&self, a: NodeRef, b: NodeRef, c: NodeRef) {
        text_order_is_strict_weak(a.block_id@, b.block_id@, c.block_id@);
    }
}

/// Whether a node stands before another.
fn node_before(a: &NodeRef, b: &NodeRef) -> (yes: bool)
    ensures
        yes == node_lt(*a, *b),
{
    a.page_number < b.page_number || (a.page_number == b.page_number && str_before(
        a.block_id.as_str(),
        b.block_id.as_str(),
    ))
}

impl Sorter<NodeRef> for NodeOrder {
    fn precedes(&self, a: &NodeRef, b: &NodeRef) -> (yes: bool) {
        node_before(a, b)
    }
}

/// Relations by kind, source and target.
#[derive(Debug, Clone, Copy, PartialEq, Eq, Structural)]
pub struct RelationOrder;

impl Order<DocumentRelation> for RelationOrder {
    open spec fn lt(&self, a: DocumentRelation, b: DocumentRelation) -> bool {
        a.kind.place() < b.kind.place() || (a.kind.place() == b.kind.place() && (node_lt(
            a.source,
            b.source,
        ) || (!node_lt(b.source, a.source) && node_lt(a.target, b.target))))
    }

    proof fn is_strict_weak(
        &self,
        a: DocumentRelation,
        b: DocumentRelation,
        c: DocumentRelation,
    ) {
        NodeOrder.is_strict_weak(a.source, b.source, c.source);
        NodeOrder.is_strict_weak(a.source, c.source, b.source);
        NodeOrder.is_strict_weak(b.source, a.source, c.source);
        NodeOrder.is_strict_weak(b.source, c.source, a.source);
        NodeOrder.is_strict_weak(c.source, a.source, b.source);
        NodeOrder.is_strict_weak(c.source, b.source, a.source);
        NodeOrder.is_strict_weak(a.target, b.target, c.target);
    }
}

impl Sorter<DocumentRelation> for RelationOrder {
    fn precedes(&self, a: &DocumentRelation, b: &DocumentRelation) -> (yes: bool) {
        a.kind.rank() < b.kind.rank() || (a.kind.rank() == b.kind.rank() && (node_before(
            &a.source,
            &b.source,
        ) || (!node_before(&b.source, &a.source) && node_before(&a.target, &b.target))))
    }
}

/// A reference to a block of a page.
pub open spec fn node_of(page_number: u32, block: Block) -> NodeRef {
    NodeRef {
        page_number,
        block_id: block.id,
        line_id: if block.lines@.len() > 0 {
            Some(block.lines@[0].id)
        } else {
            None
        },
    }
}

/// The first `n` lines of a block as they are compared between pages.
pub open spec fn print_upto(lines: Seq<Line>, n: int) -> Seq<char>
    decreases n,
{
    if n <= 0 {
        Seq::empty()
    } else {
        let before = print_upto(lines, n - 1);
        let text = lowered(trim_of(lines[n - 1].text@));
        if text.len() == 0 {
            before
        } else if before.len() == 0 {
            text
        } else {
            before + " "@ + text
        }
    }
}

/// A block as it is compared between pages.
pub open spec fn block_print(block: Block) -> Seq<char> {
    print_upto(block.lines@, block.lines@.len() as int)
}

/// Whether a text is repeated at the top or bottom of pages.
pub open spec fn is_chrome(context: DocumentContext, print: Seq<char>) -> bool {
    texts(context.repeated_header_fingerprints@).contains(print) || texts(
        context.repeated_footer_fingerprints@,
    ).contains(print)
}

/// The repeated blocks among the first `n` of a page.
pub open spec fn page_prints(context: DocumentContext, page: PageResult, n: int) -> Seq<
    (Seq<char>, NodeRef),
>
    decreases n,
{
    if n <= 0 {
        Seq::empty()
    } else {
        let before = page_prints(context, page, n - 1);
        let block = page.blocks@[n - 1];
        if !(block.label is Watermark) && is_chrome(context, block_print(block)) {
            before.push((block_print(block), node_of(page.page_number, block)))
        } else {
            before
        }
    }
}

/// The repeated blocks of the first `n` pages.
pub open spec fn all_prints(context: DocumentContext, pages: Seq<PageResult>, n: int) -> Seq<
    (Seq<char>, NodeRef),
>
    decreases n,
{
    if n <= 0 {
        Seq::empty()
    } else {
        all_prints(context, pages, n - 1) + page_prints(
            context,
            pages[n - 1],
            pages[n - 1].blocks@.len() as int,
        )
    }
}

/// The texts of repeated blocks.
pub open spec fn print_texts(prints: Seq<(Seq<char>, NodeRef)>) -> Seq<Seq<char>> {
    prints.map_values(|p: (Seq<char>, NodeRef)| p.0)
}

/// Those of the first `n` repeated blocks that show a text.
pub open spec fn nodes_with(prints: Seq<(Seq<char>, NodeRef)>, text: Seq<char>, n: int) -> Seq<
    NodeRef,
>
    decreases n,
{
    if n <= 0 {
        Seq::empty()
    } else if prints[n - 1].0 == text {
        nodes_with(prints, text, n - 1).push(prints[n - 1].1)
    } else {
        nodes_with(prints, text, n - 1)
    }
}

/// Relations between neighbours of the first `n` nodes.
pub open spec fn chrome_upto(list: Seq<DocumentRelation>, nodes: Seq<NodeRef>, n: int) -> Seq<
    DocumentRelation,
>
    decreases n,
{
    if n <= 1 {
        list
    } else {
        chrome_upto(list, nodes, n - 1).push(
            DocumentRelation {
                kind: RelationKind::RepeatedChrome,
                source: nodes[n - 2],
                target: nodes[n - 1],
                score: None,
                evidence: None,
            },
        )
    }
}

/// Relations between repeated blocks of each of the first `n` texts.
pub open spec fn chrome_relations(
    prints: Seq<(Seq<char>, NodeRef)>,
    names: Seq<Seq<char>>,
    n: int,
) -> Seq<DocumentRelation>
    decreases n,
{
    if n <= 0 {
        Seq::empty()
    } else {
        let nodes = sorted(
            nodes_with(prints, names[n - 1], prints.len() as int),
            NodeOrder,
        );
        chrome_upto(chrome_relations(prints, names, n - 1), nodes, nodes.len() as int)
    }
}

/// Whether a block is prose.
pub open spec fn is_prose(block: Block) -> bool {
    (block.label is Abstract || block.label is AsideText || block.label is Content
        || block.label is Footnote || block.label is ReferenceContent || block.label is Text
        || block.label is VerticalText || block.label is VisionFootnote) && block.lines@.len() > 0
}

/// Whether a block is a title.
pub open spec fn is_title(block: Block) -> bool {
    (block.label is DocTitle || block.label is FigureTitle || block.label is ParagraphTitle)
        && block.lines@.len() > 0
}

/// What a search among blocks looks for.
#[derive(Debug, Clone, Copy, PartialEq, Eq, Structural)]
pub enum Wanted {
    Prose,
    Table,
}

/// Whether a block is what is looked for.
pub open spec fn fits(block: Block, wanted: Wanted) -> bool {
    match wanted {
        Wanted::Prose => is_prose(block),
        Wanted::Table => block.label is Table,
    }
}

/// The first block, from `i` on, that is looked for.
pub open spec fn first_from(blocks: Seq<Block>, wanted: Wanted, i: int) -> Option<int>
    decreases blocks.len() - i,
{
    if i >= blocks.len() {
        None
    } else if fits(blocks[i], wanted) {
        Some(i)
    } else {
        first_from(blocks, wanted, i + 1)
    }
}

/// The last of the first `n` blocks that is looked for.
pub open spec fn last_upto(blocks: Seq<Block>, wanted: Wanted, n: int) -> Option<int>
    decreases n,
{
    if n <= 0 {
        None
    } else if fits(blocks[n - 1], wanted) {
        Some(n - 1)
    } else {
        last_upto(blocks, wanted, n - 1)
    }
}

/// Whether a character ends a sentence.
pub open spec fn ends_sentence(c: char) -> bool {
    c == '.' || c == '?' || c == '!' || c == '\u{3002}' || c == '\u{FF01}' || c == '\u{FF1F}' || c
        == '\u{FF1B}' || c == ';' || c == '\u{FF1A}' || c == ':'
}

/// Whether a text stops in the middle of a sentence.
pub open spec fn is_open(text: Seq<char>) -> bool {
    text.len() > 0 && !ends_sentence(text.last())
}

/// The relation of a kind between two neighbouring pages, if there is one.
pub open spec fn continuation(source: PageResult, target: PageResult, wanted: Wanted) -> Option<
    DocumentRelation,
> {
    match (
        last_upto(source.blocks@, wanted, source.blocks@.len() as int),
        first_from(target.blocks@, wanted, 0),
    ) {
        (Some(a), Some(b)) => if wanted == Wanted::Prose && !is_open(source.blocks@[a].text@) {
            None
        } else {
            Some(
                DocumentRelation {
                    kind: if wanted == Wanted::Prose {
                        RelationKind::ParagraphContinuation
                    } else {
                        RelationKind::TableContinuationCandidate
                    },
                    source: node_of(source.page_number, source.blocks@[a]),
                    target: node_of(target.page_number, target.blocks@[b]),
                    score: if wanted == Wanted::Prose {
                        Some(700_000)
                    } else {
                        Some(750_000)
                    },
                    evidence: if wanted == Wanted::Prose {
                        Some(RelationEvidence::OpenSentenceAtPageBreak)
                    } else {
                        Some(RelationEvidence::AdjacentPageTables)
                    },
                },
            )
        },
        _ => None,
    }
}

/// Relations and one more, if there is one.
pub open spec fn with_relation(list: Seq<DocumentRelation>, more: Option<DocumentRelation>) -> Seq<
    DocumentRelation,
> {
    match more {
        None => list,
        Some(relation) => list.push(relation),
    }
}

/// Relations between neighbours of the first `n` pages.
pub open spec fn continued_upto(
    list: Seq<DocumentRelation>,
    pages: Seq<PageResult>,
    n: int,
) -> Seq<DocumentRelation>
    decreases n,
{
    if n <= 1 {
        list
    } else {
        let before = continued_upto(list, pages, n - 1);
        with_relation(
            with_relation(before, continuation(pages[n - 2], pages[n - 1], Wanted::Prose)),
            continuation(pages[n - 2], pages[n - 1], Wanted::Table),
        )
    }
}

/// How many characters a fact weighs; none where it states no size.
pub open spec fn item_weight(item: TextItem) -> int {
    if item.size() is None {
        0
    } else if item.raw_text@.len() == 0 {
        1
    } else {
        item.raw_text@.len() as int
    }
}

/// What a fact adds to the sum of sizes.
pub open spec fn item_sum(item: TextItem) -> int {
    match item.size() {
        None => 0,
        Some(size) => size * item_weight(item),
    }
}

/// The weight of the first `n` facts.
pub open spec fn items_weight(items: Seq<TextItem>, n: int) -> int
    decreases n,
{
    if n <= 0 {
        0
    } else {
        items_weight(items, n - 1) + item_weight(items[n - 1])
    }
}

/// The sum of sizes of the first `n` facts.
pub open spec fn items_sum(items: Seq<TextItem>, n: int) -> int
    decreases n,
{
    if n <= 0 {
        0
    } else {
        items_sum(items, n - 1) + item_sum(items[n - 1])
    }
}

/// The weight of the first `n` lines.
pub open spec fn lines_weight(lines: Seq<Line>, n: int) -> int
    decreases n,
{
    if n <= 0 {
        0
    } else {
        lines_weight(lines, n - 1) + items_weight(
            lines[n - 1].text_items@,
            lines[n - 1].text_items@.len() as int,
        )
    }
}

/// The sum of sizes of the first `n` lines.
pub open spec fn lines_sum(lines: Seq<Line>, n: int) -> int
    decreases n,
{
    if n <= 0 {
        0
    } else {
        lines_sum(lines, n - 1) + items_sum(
            lines[n - 1].text_items@,
            lines[n - 1].text_items@.len() as int,
        )
    }
}

/// Most characters that a title may hold.
pub const TITLE_LIMIT: i128 = 0x4000_0000_0000;

/// The font size of a title is a fraction: the sum of the sizes of its
/// characters, or the height of its box, over their number.
pub open spec fn title_sum(block: Block) -> int {
    if lines_weight(block.lines@, block.lines@.len() as int) > 0 {
        lines_sum(block.lines@, block.lines@.len() as int)
    } else {
        block.bbox.high()
    }
}

/// The number under the font size of a title.
pub open spec fn title_weight(block: Block) -> int {
    let weight = lines_weight(block.lines@, block.lines@.len() as int);
    if weight > 0 {
        weight
    } else {
        1
    }
}

/// A title and its font size as a fraction.
pub struct TitleModel {
    pub node: NodeRef,
    pub sum: int,
    pub weight: int,
}

/// The titles among the first `n` blocks of a page.
pub open spec fn page_titles(page: PageResult, n: int) -> Seq<TitleModel>
    decreases n,
{
    if n <= 0 {
        Seq::empty()
    } else {
        let before = page_titles(page, n - 1);
        let block = page.blocks@[n - 1];
        if is_title(block) {
            before.push(
                TitleModel {
                    node: node_of(page.page_number, block),
                    sum: title_sum(block),
                    weight: title_weight(block),
                },
            )
        } else {
            before
        }
    }
}

/// The titles of the first `n` pages.
pub open spec fn all_titles(pages: Seq<PageResult>, n: int) -> Seq<TitleModel>
    decreases n,
{
    if n <= 0 {
        Seq::empty()
    } else {
        all_titles(pages, n - 1) + page_titles(pages[n - 1], pages[n - 1].blocks@.len() as int)
    }
}

/// Relations between neighbours of the first `n` titles, unless the size grows.
pub open spec fn hierarchy_upto(
    list: Seq<DocumentRelation>,
    titles: Seq<TitleModel>,
    n: int,
) -> Seq<DocumentRelation>
    decreases n,
{
    if n <= 1 {
        list
    } else {
        let before = hierarchy_upto(list, titles, n - 1);
        let a = titles[n - 2];
        let b = titles[n - 1];
        if a.sum * b.weight < b.sum * a.weight {
            before
        } else {
            before.push(
                DocumentRelation {
                    kind: RelationKind::HeadingHierarchy,
                    source: a.node,
                    target: b.node,
                    score: Some(800_000),
                    evidence: Some(RelationEvidence::NonIncreasingHeadingSize),
                },
            )
        }
    }
}

/// The relations of pages in the order of their numbers.
pub open spec fn relations_of(context: DocumentContext, pages: Seq<PageResult>) -> Seq<
    DocumentRelation,
> {
    let n = pages.len() as int;
    let prints = all_prints(context, pages, n);
    let names = text_set(print_texts(prints));
    let chrome = chrome_relations(prints, names, names.len() as int);
    let titles = all_titles(pages, n);
    sorted(
        hierarchy_upto(continued_upto(chrome, pages, n), titles, titles.len() as int),
        RelationOrder,
    )
}

/// Whether the titles of pages are not longer than a machine can sum up.
pub open spec fn titles_fit(pages: Seq<PageResult>) -> bool {
    forall|p: int, b: int|
        0 <= p < pages.len() && 0 <= b < pages[p].blocks@.len() ==> lines_weight(
            (#[trigger] pages[p].blocks@[b]).lines@,
            pages[p].blocks@[b].lines@.len() as int,
        ) <= TITLE_LIMIT
}

/// A reference to a block of a page.
fn make_node(page_number: u32, block: &Block) -> (node: NodeRef)
    ensures
        node == node_of(page_number, *block),
{
    NodeRef {
        page_number,
        block_id: block.id.copy(),
        line_id: if block.lines.len() > 0 {
            Some(block.lines[0].id.copy())
        } else {
            None
        },
    }
}

/// A block as it is compared between pages.
fn make_print(block: &Block) -> (print: String)
    ensures
        print@ == block_print(*block),
{
    let mut print: String = String::new();
    assert(print@ =~= Seq::empty());
    let mut i: usize = 0;
    while i < block.lines.len()
        invariant
            i <= block.lines@.len(),
            print@ == print_upto(block.lines@, i as int),
        decreases block.lines@.len() - i,
    {
        let text: String = lowercase(trim(block.lines[i].text.as_str()));
        let ghost before = print@;
        if text.as_str().unicode_len() > 0 {
            if print.as_str().unicode_len() > 0 {
                push_text(&mut print, " ");
                push_text(&mut print, text.as_str());
                assert(print@ =~= before + " "@ + text@);
            } else {
                push_text(&mut print, text.as_str());
                assert(print@ =~= text@);
            }
        }
        i = i + 1;
    }
    print
}

/// Whether a list holds a text.
fn holds_text(list: &Vec<String>, text: &str) -> (yes: bool)
    ensures
        yes == texts(list@).contains(text@),
{
    let ghost all = texts(list@);
    let mut i: usize = 0;
    while i < list.len()
        invariant
            all == texts(list@),
            i <= list@.len(),
            forall|k: int| 0 <= k < i ==> #[trigger] all[k] != text@,
        decreases list@.len() - i,
    {
        assert(all[i as int] == list@[i as int]@);
        if str_same(list[i].as_str(), text) {
            assert(all.contains(all[i as int]));
            return true;
        }
        i = i + 1;
    }
    false
}

/// A repeated block and its text.
#[derive(Debug)]
struct Print {
    text: String,
    node: NodeRef,
}

/// What is known of repeated blocks.
spec fn print_models(prints: Seq<Print>) -> Seq<(Seq<char>, NodeRef)> {
    Seq::new(prints.len(), |i: int| (prints[i].text@, prints[i].node))
}

/// The places of pages in the order of their numbers.
fn order_pages(pages: &Vec<PageResult>) -> (order: Vec<usize>)
    ensures
        order@.len() == pages@.len(),
        ordered_pages(pages@).len() == pages@.len(),
        forall|k: int|
            0 <= k < order@.len() ==> #[trigger] order@[k] < pages@.len() && pages@[order@[k] as int]
                == ordered_pages(pages@)[k],
{
    let ghost want = page_keys(pages@);
    let mut keys: Vec<PageKey> = Vec::new();
    let mut i: usize = 0;
    while i < pages.len()
        invariant
            want == page_keys(pages@),
            i <= pages@.len(),
            keys@ == want.take(i as int),
        decreases pages@.len() - i,
    {
        keys.push(PageKey { number: pages[i].page_number, index: i });
        i = i + 1;
        assert(keys@ =~= want.take(i as int));
    }
    assert(keys@ =~= want);
    let n: usize = pages.len();
    let sorted_keys: Vec<PageKey> = sort(keys, &NumberOrder);
    proof {
        lemma_keys(pages@);
    }
    let mut order: Vec<usize> = Vec::new();
    let mut k: usize = 0;
    while k < n
        invariant
            n == pages@.len(),
            sorted_keys@.len() == n,
            k <= n,
            order@.len() == k,
            forall|p: int| 0 <= p < k ==> #[trigger] order@[p] == sorted_keys@[p].index,
        decreases n - k,
    {
        order.push(sorted_keys[k].index);
        k = k + 1;
    }
    assert forall|k: int| 0 <= k < order@.len() implies #[trigger] order@[k] < pages@.len()
        && pages@[order@[k] as int] == ordered_pages(pages@)[k] by {
        assert(order@[k] == sorted_keys@[k].index);
    }
    order
}

/// The repeated blocks of pages.
fn list_prints(
    context: &DocumentContext,
    pages: &Vec<PageResult>,
    order: &Vec<usize>,
    Ghost(ordered): Ghost<Seq<PageResult>>,
) -> (prints: Vec<Print>)
    requires
        order@.len() == ordered.len(),
        forall|k: int|
            0 <= k < order@.len() ==> #[trigger] order@[k] < pages@.len() && pages@[order@[k] as int]
                == ordered[k],
    ensures
        print_models(prints@) == all_prints(*context, ordered, ordered.len() as int),
{
    let mut prints: Vec<Print> = Vec::new();
    assert(print_models(prints@) =~= Seq::empty());
    let mut p: usize = 0;
    while p < order.len()
        invariant
            order@.len() == ordered.len(),
            forall|k: int|
                0 <= k < order@.len() ==> #[trigger] order@[k] < pages@.len()
                    && pages@[order@[k] as int] == ordered[k],
            p <= order@.len(),
            print_models(prints@) == all_prints(*context, ordered, p as int),
        decreases order@.len() - p,
    {
        let page: &PageResult = &pages[order[p]];
        assert(*page == ordered[p as int]);
        let ghost before = print_models(prints@);
        let mut b: usize = 0;
        assert(print_models(prints@) =~= before + page_prints(*context, *page, 0));
        while b < page.blocks.len()
            invariant
                b <= page.blocks@.len(),
                print_models(prints@) == before + page_prints(*context, *page, b as int),
            decreases page.blocks@.len() - b,
        {
            let block: &Block = &page.blocks[b];
            b = b + 1;
            if !matches!(block.label, LayoutLabel::Watermark) {
                let text: String = make_print(block);
                if holds_text(&context.repeated_header_fingerprints, text.as_str()) || holds_text(
                    &context.repeated_footer_fingerprints,
                    text.as_str(),
                ) {
                    let ghost so_far = prints@;
                    prints.push(Print { text, node: make_node(page.page_number, block) });
                    assert(print_models(prints@) =~= print_models(so_far).push(
                        (block_print(*block), node_of(page.page_number, *block)),
                    ));
                    assert(print_models(prints@) =~= before + page_prints(
                        *context,
                        *page,
                        b as int,
                    ));
                }
            }
        }
        p = p + 1;
    }
    prints
}

/// Relations between repeated blocks.
fn relate_chrome(prints: &Vec<Print>) -> (relations: Vec<DocumentRelation>)
    ensures
        ({
            let models = print_models(prints@);
            let names = text_set(print_texts(models));
            relations@ == chrome_relations(models, names, names.len() as int)
        }),
{
    let ghost models = print_models(prints@);
    let mut found: Vec<String> = Vec::new();
    let mut i: usize = 0;
    assert(texts(found@) =~= print_texts(models).take(0));
    while i < prints.len()
        invariant
            models == print_models(prints@),
            i <= prints@.len(),
            texts(found@) == print_texts(models).take(i as int),
        decreases prints@.len() - i,
    {
        push_to(&mut found, prints[i].text.clone());
        i = i + 1;
        assert(texts(found@) =~= print_texts(models).take(i as int));
    }
    assert(print_texts(models).take(prints@.len() as int) =~= print_texts(models));
    let names: Vec<String> = sort_texts(found);
    let ghost known = texts(names@);
    let mut relations: Vec<DocumentRelation> = Vec::new();
    let mut k: usize = 0;
    while k < names.len()
        invariant
            models == print_models(prints@),
            known == texts(names@),
            k <= names@.len(),
            relations@ == chrome_relations(models, known, k as int),
        decreases names@.len() - k,
    {
        let name: &str = names[k].as_str();
        assert(name@ == known[k as int]);
        let mut nodes: Vec<NodeRef> = Vec::new();
        let mut p: usize = 0;
        while p < prints.len()
            invariant
                models == print_models(prints@),
                p <= prints@.len(),
                nodes@ == nodes_with(models, name@, p as int),
            decreases prints@.len() - p,
        {
            assert(models[p as int] == (prints@[p as int].text@, prints@[p as int].node));
            if str_same(prints[p].text.as_str(), name) {
                nodes.push(prints[p].node.copy());
            }
            p = p + 1;
        }
        let nodes: Vec<NodeRef> = sort(nodes, &NodeOrder);
        let ghost before = relations@;
        let mut q: usize = 1;
        while q < nodes.len()
            invariant
                1 <= q,
                q <= nodes@.len() || (q == 1 && nodes@.len() == 0),
                relations@ == chrome_upto(before, nodes@, q as int),
            decreases nodes@.len() - q,
        {
            relations.push(
                DocumentRelation {
                    kind: RelationKind::RepeatedChrome,
                    source: nodes[q - 1].copy(),
                    target: nodes[q].copy(),
                    score: None,
                    evidence: None,
                },
            );
            q = q + 1;
        }
        k = k + 1;
    }
    relations
}

/// Whether a block is prose.
pub fn is_flow_text(block: &Block) -> (yes: bool)
    ensures
        yes == is_prose(*block),
{
    matches!(
        block.label,
        LayoutLabel::Abstract | LayoutLabel::AsideText | LayoutLabel::Content
            | LayoutLabel::Footnote | LayoutLabel::ReferenceContent | LayoutLabel::Text
            | LayoutLabel::VerticalText | LayoutLabel::VisionFootnote
    ) && block.lines.len() > 0
}

/// Whether a block is a title.
pub fn is_heading(block: &Block) -> (yes: bool)
    ensures
        yes == is_title(*block),
{
    matches!(
        block.label,
        LayoutLabel::DocTitle | LayoutLabel::FigureTitle | LayoutLabel::ParagraphTitle
    ) && block.lines.len() > 0
}

/// Whether a block is what is looked for.
fn does_fit(block: &Block, wanted: Wanted) -> (yes: bool)
    ensures
        yes == fits(*block, wanted),
{
    match wanted {
        Wanted::Prose => is_flow_text(block),
        Wanted::Table => matches!(block.label, LayoutLabel::Table),
    }
}

/// Whether a text stops in the middle of a sentence.
fn is_unfinished(text: &str) -> (yes: bool)
    ensures
        yes == is_open(text@),
{
    let all: Vec<char> = chars_of(text);
    let n: usize = all.len();
    if n == 0 {
        return false;
    }
    let c: char = all[n - 1];
    !(c == '.' || c == '?' || c == '!' || c == '\u{3002}' || c == '\u{FF01}' || c == '\u{FF1F}' || c
        == '\u{FF1B}' || c == ';' || c == '\u{FF1A}' || c == ':')
}

/// The relation of a kind between two neighbouring pages, if there is one.
fn relate_pages(source: &PageResult, target: &PageResult, wanted: Wanted) -> (relation: Option<
    DocumentRelation,
>)
    ensures
        relation == continuation(*source, *target, wanted),
{
    let mut n: usize = source.blocks.len();
    while n > 0 && !does_fit(&source.blocks[n - 1], wanted)
        invariant
            n <= source.blocks@.len(),
            last_upto(source.blocks@, wanted, source.blocks@.len() as int) == last_upto(
                source.blocks@,
                wanted,
                n as int,
            ),
        decreases n,
    {
        n = n - 1;
    }
    let mut i: usize = 0;
    while i < target.blocks.len() && !does_fit(&target.blocks[i], wanted)
        invariant
            i <= target.blocks@.len(),
            first_from(target.blocks@, wanted, 0) == first_from(target.blocks@, wanted, i as int),
        decreases target.blocks@.len() - i,
    {
        i = i + 1;
    }
    if n == 0 || i >= target.blocks.len() {
        return None;
    }
    let a: &Block = &source.blocks[n - 1];
    let b: &Block = &target.blocks[i];
    match wanted {
        Wanted::Prose => {
            if !is_unfinished(a.text.as_str()) {
                return None;
            }
            Some(
                DocumentRelation {
                    kind: RelationKind::ParagraphContinuation,
                    source: make_node(source.page_number, a),
                    target: make_node(target.page_number, b),
                    score: Some(700_000),
                    evidence: Some(RelationEvidence::OpenSentenceAtPageBreak),
                },
            )
        },
        Wanted::Table => Some(
            DocumentRelation {
                kind: RelationKind::TableContinuationCandidate,
                source: make_node(source.page_number, a),
                target: make_node(target.page_number, b),
                score: Some(750_000),
                evidence: Some(RelationEvidence::AdjacentPageTables),
            },
        ),
    }
}

/// A title and its font size as a fraction.
#[derive(Debug)]
struct Title {
    node: NodeRef,
    sum: i128,
    weight: i128,
}

/// What is known of titles.
spec fn title_models(titles: Seq<Title>) -> Seq<TitleModel> {
    Seq::new(
        titles.len(),
        |i: int|
            TitleModel {
                node: titles[i].node,
                sum: titles[i].sum as int,
                weight: titles[i].weight as int,
            },
    )
}

/// Weights are not negative and bound sums.
proof fn lemma_items(items: Seq<TextItem>, k: int, n: int)
    requires
        0 <= k <= n,
    ensures
        0 <= items_weight(items, k) <= items_weight(items, n),
        -0x8000_0000 * items_weight(items, n) <= items_sum(items, n) <= 0x8000_0000 * items_weight(
            items,
            n,
        ),
    decreases n,
{
    if n > 0 {
        lemma_items(
            items,
            if k < n {
                k
            } else {
                k - 1
            },
            n - 1,
        );
        let item = items[n - 1];
        let w = item_weight(item);
        if item.size() is Some {
            let s = item.size()->0 as int;
            assert(-0x8000_0000 * w <= s * w <= 0x8000_0000 * w) by (nonlinear_arith)
                requires
                    w >= 0,
                    -0x8000_0000 <= s <= 0x8000_0000,
            ;
        }
    }
}

/// Weights of lines are not negative and bound sums.
proof fn lemma_lines(lines: Seq<Line>, k: int, n: int)
    requires
        0 <= k <= n,
    ensures
        0 <= lines_weight(lines, k) <= lines_weight(lines, n),
        -0x8000_0000 * lines_weight(lines, n) <= lines_sum(lines, n) <= 0x8000_0000 * lines_weight(
            lines,
            n,
        ),
    decreases n,
{
    if n > 0 {
        lemma_lines(
            lines,
            if k < n {
                k
            } else {
                k - 1
            },
            n - 1,
        );
        let items = lines[n - 1].text_items@;
        lemma_items(items, 0, items.len() as int);
    }
}

/// The font size of a title as a fraction.
fn measure_title(block: &Block) -> (size: (i128, i128))
    requires
        lines_weight(block.lines@, block.lines@.len() as int) <= TITLE_LIMIT,
    ensures
        size.0 == title_sum(*block),
        size.1 == title_weight(*block),
        1 <= size.1 <= TITLE_LIMIT,
        -0x8000_0000 * TITLE_LIMIT <= size.0 <= 0x8000_0000 * TITLE_LIMIT,
{
    let ghost lines = block.lines@;
    let ghost total = lines_weight(lines, lines.len() as int);
    let mut sum: i128 = 0;
    let mut weight: i128 = 0;
    let mut l: usize = 0;
    while l < block.lines.len()
        invariant
            lines == block.lines@,
            total == lines_weight(lines, lines.len() as int),
            total <= TITLE_LIMIT,
            l <= lines.len(),
            sum == lines_sum(lines, l as int),
            weight == lines_weight(lines, l as int),
        decreases lines.len() - l,
    {
        let items: &Vec<TextItem> = &block.lines[l].text_items;
        proof {
            lemma_lines(lines, l + 1, lines.len() as int);
            lemma_lines(lines, l as int, l as int);
        }
        let ghost sum_before = sum as int;
        let ghost weight_before = weight as int;
        let mut i: usize = 0;
        while i < items.len()
            invariant
                total <= TITLE_LIMIT,
                0 <= weight_before,
                weight_before + items_weight(items@, items@.len() as int) <= total,
                -0x8000_0000 * weight_before <= sum_before <= 0x8000_0000 * weight_before,
                i <= items@.len(),
                sum == sum_before + items_sum(items@, i as int),
                weight == weight_before + items_weight(items@, i as int),
            decreases items@.len() - i,
        {
            proof {
                lemma_items(items@, i as int, items@.len() as int);
                lemma_items(items@, i + 1, items@.len() as int);
                lemma_items(items@, i as int, i as int);
                lemma_items(items@, i + 1, i + 1);
            }
            if let Some(size) = items[i].font_size() {
                let all: Vec<char> = items[i].raw_text.chars();
                let count: i128 = if all.len() == 0 {
                    1
                } else {
                    all.len() as i128
                };
                assert(count == item_weight(items@[i as int]));
                assert(size * count == item_sum(items@[i as int]));
                sum = sum + size as i128 * count;
                weight = weight + count;
            }
            i = i + 1;
        }
        l = l + 1;
    }
    proof {
        lemma_lines(lines, lines.len() as int, lines.len() as int);
    }
    if weight > 0 {
        (sum, weight)
    } else {
        (block.bbox.height() as i128, 1)
    }
}

/// Two fractions are compared without leaving 128 bits.
proof fn lemma_cross(sum: int, weight: int)
    requires
        1 <= weight <= TITLE_LIMIT,
        -0x8000_0000 * TITLE_LIMIT <= sum <= 0x8000_0000 * TITLE_LIMIT,
    ensures
        i128::MIN < sum * weight < i128::MAX,
{
    let limit = 0x8000_0000int * 0x4000_0000_0000int;
    assert(-limit * 0x4000_0000_0000 <= sum * weight <= limit * 0x4000_0000_0000)
        by (nonlinear_arith)
        requires
            1 <= weight <= 0x4000_0000_0000,
            -limit <= sum <= limit,
            limit >= 0,
    ;
}

/// Relations between titles of pages.
fn relate_titles(
    relations: &mut Vec<DocumentRelation>,
    pages: &Vec<PageResult>,
    order: &Vec<usize>,
    Ghost(ordered): Ghost<Seq<PageResult>>,
)
    requires
        titles_fit(pages@),
        order@.len() == ordered.len(),
        forall|k: int|
            0 <= k < order@.len() ==> #[trigger] order@[k] < pages@.len() && pages@[order@[k] as int]
                == ordered[k],
    ensures
        ({
            let titles = all_titles(ordered, ordered.len() as int);
            final(relations)@ == hierarchy_upto(old(relations)@, titles, titles.len() as int)
        }),
{
    let mut titles: Vec<Title> = Vec::new();
    assert(title_models(titles@) =~= Seq::empty());
    let mut p: usize = 0;
    while p < order.len()
        invariant
            titles_fit(pages@),
            order@.len() == ordered.len(),
            forall|k: int|
                0 <= k < order@.len() ==> #[trigger] order@[k] < pages@.len()
                    && pages@[order@[k] as int] == ordered[k],
            p <= order@.len(),
            title_models(titles@) == all_titles(ordered, p as int),
            forall|i: int|
                0 <= i < titles@.len() ==> 1 <= (#[trigger] titles@[i]).weight <= TITLE_LIMIT
                    && -0x8000_0000 * TITLE_LIMIT <= titles@[i].sum <= 0x8000_0000 * TITLE_LIMIT,
        decreases order@.len() - p,
    {
        let page: &PageResult = &pages[order[p]];
        assert(*page == ordered[p as int]);
        let ghost place = order@[p as int] as int;
        let ghost before = title_models(titles@);
        let mut b: usize = 0;
        assert(title_models(titles@) =~= before + page_titles(*page, 0));
        while b < page.blocks.len()
            invariant
                titles_fit(pages@),
                0 <= place < pages@.len(),
                *page == pages@[place],
                b <= page.blocks@.len(),
                title_models(titles@) == before + page_titles(*page, b as int),
                forall|i: int|
                    0 <= i < titles@.len() ==> 1 <= (#[trigger] titles@[i]).weight <= TITLE_LIMIT
                        && -0x8000_0000 * TITLE_LIMIT <= titles@[i].sum <= 0x8000_0000
                        * TITLE_LIMIT,
            decreases page.blocks@.len() - b,
        {
            let block: &Block = &page.blocks[b];
            assert(pages@[place].blocks@[b as int] == *block);
            b = b + 1;
            if is_heading(block) {
                let (sum, weight): (i128, i128) = measure_title(block);
                let ghost so_far = titles@;
                titles.push(Title { node: make_node(page.page_number, block), sum, weight });
                assert(title_models(titles@) =~= title_models(so_far).push(
                    TitleModel {
                        node: node_of(page.page_number, *block),
                        sum: title_sum(*block),
                        weight: title_weight(*block),
                    },
                ));
                assert(title_models(titles@) =~= before + page_titles(*page, b as int));
            }
        }
        p = p + 1;
    }
    let ghost models = title_models(titles@);
    let ghost given = relations@;
    let mut q: usize = 1;
    while q < titles.len()
        invariant
            models == title_models(titles@),
            forall|i: int|
                0 <= i < titles@.len() ==> 1 <= (#[trigger] titles@[i]).weight <= TITLE_LIMIT
                    && -0x8000_0000 * TITLE_LIMIT <= titles@[i].sum <= 0x8000_0000 * TITLE_LIMIT,
            1 <= q,
            q <= titles@.len() || (q == 1 && titles@.len() == 0),
            relations@ == hierarchy_upto(given, models, q as int),
        decreases titles@.len() - q,
    {
        let a: &Title = &titles[q - 1];
        let b: &Title = &titles[q];
        assert(models[q - 1].sum == a.sum && models[q as int].sum == b.sum);
        proof {
            assert(1 <= titles@[q - 1].weight && 1 <= titles@[q as int].weight);
            lemma_cross(a.sum as int, b.weight as int);
            lemma_cross(b.sum as int, a.weight as int);
        }
        if !(a.sum * b.weight < b.sum * a.weight) {
            relations.push(
                DocumentRelation {
                    kind: RelationKind::HeadingHierarchy,
                    source: a.node.copy(),
                    target: b.node.copy(),
                    score: Some(800_000),
                    evidence: Some(RelationEvidence::NonIncreasingHeadingSize),
                },
            );
        }
        q = q + 1;
    }
}

/// Read-only document linker that emits sidecar relations without mutating pages.
#[derive(Debug, Clone, Copy, PartialEq, Eq, Structural)]
pub struct DocumentLinker;

impl DocumentLinker {
    /// Creates a stateless document linker.
    pub fn new() -> (linker: DocumentLinker)
        ensures
            linker == DocumentLinker,
    {
        DocumentLinker
    }

    /// Deterministic sidecar relations for immutable page results.
    pub fn link(&self, context: &DocumentContext, pages: &Vec<PageResult>) -> (linked: Result<
        DocumentRelations,
        ContextError,
    >)
        requires
            titles_fit(pages@),
        ensures
            linked matches Ok(found) && found.relations@ == relations_of(
                *context,
                ordered_pages(pages@),
            ),
    {
        let ghost ordered = ordered_pages(pages@);
        let order: Vec<usize> = order_pages(pages);
        let prints: Vec<Print> = list_prints(context, pages, &order, Ghost(ordered));
        let mut relations: Vec<DocumentRelation> = relate_chrome(&prints);
        let ghost chrome = relations@;
        let mut p: usize = 1;
        while p < order.len()
            invariant
                order@.len() == ordered.len(),
                forall|k: int|
                    0 <= k < order@.len() ==> #[trigger] order@[k] < pages@.len()
                        && pages@[order@[k] as int] == ordered[k],
                1 <= p,
                p <= order@.len() || (p == 1 && order@.len() == 0),
                relations@ == continued_upto(chrome, ordered, p as int),
            decreases order@.len() - p,
        {
            let source: &PageResult = &pages[order[p - 1]];
            let target: &PageResult = &pages[order[p]];
            assert(*source == ordered[p - 1] && *target == ordered[p as int]);
            if let Some(relation) = relate_pages(source, target, Wanted::Prose) {
                relations.push(relation);
            }
            if let Some(relation) = relate_pages(source, target, Wanted::Table) {
                relations.push(relation);
            }
            p = p + 1;
        }
        relate_titles(&mut relations, pages, &order, Ghost(ordered));
        Ok(DocumentRelations { relations: sort(relations, &RelationOrder) })
    }
}

impl Default for DocumentLinker {
    fn default() -> (linker: DocumentLinker)
        ensures
            linker == DocumentLinker,
    {
        DocumentLinker
    }
}

/// The relations of a document stand in the order of kind, source and target.
pub proof fn relations_are_ordered(context: DocumentContext, pages: Seq<PageResult>)
    ensures
        is_ordered(relations_of(context, pages), RelationOrder),
{
    let n = pages.len() as int;
    let prints = all_prints(context, pages, n);
    let names = text_set(print_texts(prints));
    let chrome = chrome_relations(prints, names, names.len() as int);
    let titles = all_titles(pages, n);
    sorting_orders_and_keeps(
        hierarchy_upto(continued_upto(chrome, pages, n), titles, titles.len() as int),
        RelationOrder,
    );
}

/// The relations of a document do not depend on the order in which its pages
/// are handed in.
pub proof fn links_forget_arrival(
    context: DocumentContext,
    a: Seq<PageResult>,
    b: Seq<PageResult>,
)
    requires
        a.to_multiset() == b.to_multiset(),
        forall|i: int, j: int|
            #![trigger a[i], a[j]]
            0 <= i < j < a.len() ==> a[i].page_number != a[j].page_number,
    ensures
        relations_of(context, ordered_pages(a)) == relations_of(context, ordered_pages(b)),
{
    sorting_forgets_arrival(a, b, NumberOrder);
}

} // verus!
