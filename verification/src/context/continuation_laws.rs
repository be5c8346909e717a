//! Which blocks of neighbouring pages continue each other, and which titles descend.

use vstd::prelude::*;

use super::relations::{
    all_prints, all_titles, chrome_relations, chrome_upto, continuation, continued_upto,
    first_from, hierarchy_upto, items_sum, items_weight, last_upto, lines_sum, lines_weight,
    nodes_with, page_titles, print_texts, relations_of, title_sum, title_weight,
    DocumentRelation, NodeOrder, NodeRef, RelationEvidence, RelationKind, RelationOrder,
    TitleModel, Wanted,
};
use crate::blocks::{Block, Line};
use crate::context::builder::DocumentContext;
use crate::layout::LayoutLabel;
use crate::result::PageResult;
use crate::sorting::{sorted, sorting_holds_the_same};
use crate::texts::text_set;
use crate::types::TextItem;

verus! {

/// Whether a block carries running text: it has lines, and its label is that of an abstract, an
/// aside, content, a footnote, a reference, text, vertical text or a note to a picture.
pub open spec fn carries_prose(block: Block) -> bool {
    block.lines@.len() > 0 && match block.label {
        LayoutLabel::Abstract
        | LayoutLabel::AsideText
        | LayoutLabel::Content
        | LayoutLabel::Footnote
        | LayoutLabel::ReferenceContent
        | LayoutLabel::Text
        | LayoutLabel::VerticalText
        | LayoutLabel::VisionFootnote => true,
        _ => false,
    }
}

/// Whether block `a` of page `p - 1` is the last there to carry running text, and block `b` of
/// page `p` the first.
pub open spec fn prose_meets(pages: Seq<PageResult>, p: int, a: int, b: int) -> bool {
    &&& 1 <= p < pages.len()
    &&& 0 <= a < pages[p - 1].blocks@.len()
    &&& carries_prose(pages[p - 1].blocks@[a])
    &&& forall|k: int|
        a < k < pages[p - 1].blocks@.len() ==> !carries_prose(#[trigger] pages[p - 1].blocks@[k])
    &&& 0 <= b < pages[p].blocks@.len()
    &&& carries_prose(pages[p].blocks@[b])
    &&& forall|k: int| 0 <= k < b ==> !carries_prose(#[trigger] pages[p].blocks@[k])
}

/// Whether block `a` of page `p - 1` is the last table there, and block `b` of page `p` the first.
pub open spec fn tables_meet(pages: Seq<PageResult>, p: int, a: int, b: int) -> bool {
    &&& 1 <= p < pages.len()
    &&& 0 <= a < pages[p - 1].blocks@.len()
    &&& pages[p - 1].blocks@[a].label == LayoutLabel::Table
    &&& forall|k: int|
        a < k < pages[p - 1].blocks@.len() ==> (#[trigger] pages[p - 1].blocks@[k]).label
            != LayoutLabel::Table
    &&& 0 <= b < pages[p].blocks@.len()
    &&& pages[p].blocks@[b].label == LayoutLabel::Table
    &&& forall|k: int|
        0 <= k < b ==> (#[trigger] pages[p].blocks@[k]).label != LayoutLabel::Table
}

/// The last block up to `n` that is looked for is looked for, and none behind it is.
proof fn lemma_last_fits(blocks: Seq<Block>, n: int)
    requires
        0 <= n <= blocks.len(),
    ensures
        last_upto(blocks, Wanted::Prose, n) matches Some(a) ==> 0 <= a < n && carries_prose(
            blocks[a],
        ) && forall|k: int| a < k < n ==> !carries_prose(#[trigger] blocks[k]),
        last_upto(blocks, Wanted::Prose, n) is None ==> forall|k: int|
            0 <= k < n ==> !carries_prose(#[trigger] blocks[k]),
        last_upto(blocks, Wanted::Table, n) matches Some(a) ==> 0 <= a < n && blocks[a].label
            == LayoutLabel::Table && forall|k: int|
            a < k < n ==> (#[trigger] blocks[k]).label != LayoutLabel::Table,
        last_upto(blocks, Wanted::Table, n) is None ==> forall|k: int|
            0 <= k < n ==> (#[trigger] blocks[k]).label != LayoutLabel::Table,
    decreases n,
{
    if n > 0 {
        lemma_last_fits(blocks, n - 1);
    }
}

/// The first block from `i` on that is looked for is looked for, and none before it is.
proof fn lemma_first_fits(blocks: Seq<Block>, i: int)
    requires
        0 <= i <= blocks.len(),
    ensures
        first_from(blocks, Wanted::Prose, i) matches Some(b) ==> i <= b < blocks.len()
            && carries_prose(blocks[b]) && forall|k: int|
            i <= k < b ==> !carries_prose(#[trigger] blocks[k]),
        first_from(blocks, Wanted::Prose, i) is None ==> forall|k: int|
            i <= k < blocks.len() ==> !carries_prose(#[trigger] blocks[k]),
        first_from(blocks, Wanted::Table, i) matches Some(b) ==> i <= b < blocks.len()
            && blocks[b].label == LayoutLabel::Table && forall|k: int|
            i <= k < b ==> (#[trigger] blocks[k]).label != LayoutLabel::Table,
        first_from(blocks, Wanted::Table, i) is None ==> forall|k: int|
            i <= k < blocks.len() ==> (#[trigger] blocks[k]).label != LayoutLabel::Table,
    decreases blocks.len() - i,
{
    if i < blocks.len() {
        lemma_first_fits(blocks, i + 1);
    }
}

/// Relations between repeated blocks are of no other kind.
proof fn lemma_chrome_kinds(prints: Seq<(Seq<char>, NodeRef)>, names: Seq<Seq<char>>, n: int)
    ensures
        forall|i: int|
            0 <= i < chrome_relations(prints, names, n).len() ==> (#[trigger] chrome_relations(
                prints,
                names,
                n,
            )[i]).kind == RelationKind::RepeatedChrome,
    decreases n,
{
    if n > 0 {
        lemma_chrome_kinds(prints, names, n - 1);
        let nodes = sorted(nodes_with(prints, names[n - 1], prints.len() as int), NodeOrder);
        lemma_chrome_upto_kinds(chrome_relations(prints, names, n - 1), nodes, nodes.len() as int);
    }
}

proof fn lemma_chrome_upto_kinds(list: Seq<DocumentRelation>, nodes: Seq<NodeRef>, n: int)
    requires
        forall|i: int|
            0 <= i < list.len() ==> (#[trigger] list[i]).kind == RelationKind::RepeatedChrome,
    ensures
        forall|i: int|
            0 <= i < chrome_upto(list, nodes, n).len() ==> (#[trigger] chrome_upto(
                list,
                nodes,
                n,
            )[i]).kind == RelationKind::RepeatedChrome,
    decreases n,
{
    if n > 1 {
        lemma_chrome_upto_kinds(list, nodes, n - 1);
    }
}

/// Whether a relation is what pages `p - 1` and `p` give.
spec fn is_continued(pages: Seq<PageResult>, r: DocumentRelation, p: int) -> bool {
    continuation(pages[p - 1], pages[p], Wanted::Prose) == Some(r) || continuation(
        pages[p - 1],
        pages[p],
        Wanted::Table,
    ) == Some(r)
}

/// What neighbours of the first `n` pages give is added, and nothing else.
proof fn lemma_continued_holds(
    list: Seq<DocumentRelation>,
    pages: Seq<PageResult>,
    n: int,
    r: DocumentRelation,
)
    requires
        n <= pages.len(),
    ensures
        continued_upto(list, pages, n).contains(r) <==> list.contains(r) || exists|p: int|
            1 <= p < n && #[trigger] is_continued(pages, r, p),
    decreases n,
{
    if n > 1 {
        lemma_continued_holds(list, pages, n - 1, r);
        let before = continued_upto(list, pages, n - 1);
        let x = continuation(pages[n - 2], pages[n - 1], Wanted::Prose);
        let y = continuation(pages[n - 2], pages[n - 1], Wanted::Table);
        let after = continued_upto(list, pages, n);
        let middle = super::relations::with_relation(before, x);
        assert(middle.contains(r) <==> before.contains(r) || x == Some(r)) by {
            if let Some(v) = x {
                lemma_push_holds(before, v, r);
            }
        }
        assert(after.contains(r) <==> middle.contains(r) || y == Some(r)) by {
            if let Some(v) = y {
                lemma_push_holds(middle, v, r);
            }
        }
        assert(is_continued(pages, r, n - 1) <==> x == Some(r) || y == Some(r));
        if exists|p: int| 1 <= p < n && #[trigger] is_continued(pages, r, p) {
            let p = choose|p: int| 1 <= p < n && #[trigger] is_continued(pages, r, p);
            if p < n - 1 {
                assert(1 <= p < n - 1 && is_continued(pages, r, p));
            }
        }
    }
}

proof fn lemma_push_holds<T>(s: Seq<T>, x: T, r: T)
    ensures
        s.push(x).contains(r) <==> s.contains(r) || x == r,
{
    let t = s.push(x);
    if s.contains(r) {
        let i = s.index_of(r);
        assert(t[i] == r);
    }
    if x == r {
        assert(t[s.len() as int] == r);
    }
    if t.contains(r) {
        let i = t.index_of(r);
        if i < s.len() {
            assert(s[i] == r);
        }
    }
}

/// Relations between titles are added, and nothing else.
proof fn lemma_hierarchy_holds(
    list: Seq<DocumentRelation>,
    titles: Seq<TitleModel>,
    n: int,
    r: DocumentRelation,
)
    requires
        n <= titles.len(),
    ensures
        hierarchy_upto(list, titles, n).contains(r) <==> list.contains(r) || exists|q: int|
            1 <= q < n && #[trigger] descends(titles, r, q),
    decreases n,
{
    if n > 1 {
        lemma_hierarchy_holds(list, titles, n - 1, r);
        let before = hierarchy_upto(list, titles, n - 1);
        let a = titles[n - 2];
        let b = titles[n - 1];
        if !(a.sum * b.weight < b.sum * a.weight) {
            lemma_push_holds(
                before,
                DocumentRelation {
                    kind: RelationKind::HeadingHierarchy,
                    source: a.node,
                    target: b.node,
                    score: Some(800_000),
                    evidence: Some(RelationEvidence::NonIncreasingHeadingSize),
                },
                r,
            );
        }
        assert(descends(titles, r, n - 1) ==> hierarchy_upto(list, titles, n).contains(r));
        if exists|q: int| 1 <= q < n && #[trigger] descends(titles, r, q) {
            let q = choose|q: int| 1 <= q < n && #[trigger] descends(titles, r, q);
            if q < n - 1 {
                assert(1 <= q < n - 1 && descends(titles, r, q));
            }
        }
    }
}

/// Whether a relation says that title `q` is no larger than the one before it.
spec fn descends(titles: Seq<TitleModel>, r: DocumentRelation, q: int) -> bool {
    let (a, b) = (titles[q - 1], titles[q]);
    &&& b.sum * a.weight <= a.sum * b.weight
    &&& r == (DocumentRelation {
        kind: RelationKind::HeadingHierarchy,
        source: a.node,
        target: b.node,
        score: Some(800_000),
        evidence: Some(RelationEvidence::NonIncreasingHeadingSize),
    })
}

/// The relations between repeated blocks are those of the running texts.
pub proof fn lemma_chrome_holds(
    context: DocumentContext,
    pages: Seq<PageResult>,
    r: DocumentRelation,
)
    requires
        r.kind == RelationKind::RepeatedChrome,
    ensures
        ({
            let prints = all_prints(context, pages, pages.len() as int);
            let names = text_set(print_texts(prints));
            relations_of(context, pages).contains(r) <==> chrome_relations(
                prints,
                names,
                names.len() as int,
            ).contains(r)
        }),
{
    let n = pages.len() as int;
    let prints = all_prints(context, pages, n);
    let names = text_set(print_texts(prints));
    let chrome = chrome_relations(prints, names, names.len() as int);
    let titles = all_titles(pages, n);
    let list = continued_upto(chrome, pages, n);
    lemma_continued_holds(chrome, pages, n, r);
    lemma_hierarchy_holds(list, titles, titles.len() as int, r);
    sorting_holds_the_same(
        hierarchy_upto(list, titles, titles.len() as int),
        RelationOrder,
        r,
    );
}

/// The relations of a document are those of its repeated blocks, of neighbouring pages and of
/// its titles.
proof fn lemma_relations_hold(
    context: DocumentContext,
    pages: Seq<PageResult>,
    r: DocumentRelation,
)
    requires
        r.kind != RelationKind::RepeatedChrome,
    ensures
        relations_of(context, pages).contains(r) <==> (exists|p: int|
            1 <= p < pages.len() && #[trigger] is_continued(pages, r, p)) || (exists|q: int|
            1 <= q < all_titles(pages, pages.len() as int).len() && #[trigger] descends(
                all_titles(pages, pages.len() as int),
                r,
                q,
            )),
{
    let n = pages.len() as int;
    let prints = all_prints(context, pages, n);
    let names = text_set(print_texts(prints));
    let chrome = chrome_relations(prints, names, names.len() as int);
    let titles = all_titles(pages, n);
    let list = continued_upto(chrome, pages, n);
    lemma_chrome_kinds(prints, names, names.len() as int);
    lemma_continued_holds(chrome, pages, n, r);
    lemma_hierarchy_holds(list, titles, titles.len() as int, r);
    sorting_holds_the_same(
        hierarchy_upto(list, titles, titles.len() as int),
        RelationOrder,
        r,
    );
    if chrome.contains(r) {
        let i = chrome.index_of(r);
        assert(chrome[i].kind == RelationKind::RepeatedChrome);
    }
}

/// The last running text of a page continues in the first of the next page, where it is not
/// empty and its last character does not end a sentence: it is no full stop, question mark,
/// exclamation mark, semicolon or colon, neither narrow nor wide. Where it is empty or ends so,
/// no running text of that page continues.
pub proof fn open_sentences_continue(
    context: DocumentContext,
    pages: Seq<PageResult>,
    p: int,
    a: int,
    b: int,
)
    requires
        prose_meets(pages, p, a, b),
        forall|q: int|
            0 <= q < pages.len() && q != p - 1 ==> (#[trigger] pages[q]).page_number != pages[p
                - 1].page_number,
    ensures
        ({
            let source = pages[p - 1].blocks@[a];
            let target = pages[p].blocks@[b];
            let text = source.text@;
            let c = text[text.len() - 1];
            let ended = text.len() == 0 || c == '.' || c == '?' || c == '!' || c == '。' || c == '！'
                || c == '？' || c == '；' || c == ';' || c == '：' || c == ':';
            let found = relations_of(context, pages);
            &&& !ended ==> found.contains(
                DocumentRelation {
                    kind: RelationKind::ParagraphContinuation,
                    source: NodeRef {
                        page_number: pages[p - 1].page_number,
                        block_id: source.id,
                        line_id: Some(source.lines@[0].id),
                    },
                    target: NodeRef {
                        page_number: pages[p].page_number,
                        block_id: target.id,
                        line_id: Some(target.lines@[0].id),
                    },
                    score: Some(700_000),
                    evidence: Some(RelationEvidence::OpenSentenceAtPageBreak),
                },
            )
            &&& ended ==> forall|i: int|
                0 <= i < found.len() && (#[trigger] found[i]).kind
                    == RelationKind::ParagraphContinuation ==> found[i].source.page_number
                    != pages[p - 1].page_number
        }),
{
    let source = pages[p - 1].blocks@[a];
    let target = pages[p].blocks@[b];
    let found = relations_of(context, pages);
    lemma_last_fits(pages[p - 1].blocks@, pages[p - 1].blocks@.len() as int);
    lemma_first_fits(pages[p].blocks@, 0);
    assert(last_upto(pages[p - 1].blocks@, Wanted::Prose, pages[p - 1].blocks@.len() as int)
        == Some(a));
    assert(first_from(pages[p].blocks@, Wanted::Prose, 0) == Some(b));
    if let Some(r) = continuation(pages[p - 1], pages[p], Wanted::Prose) {
        assert(is_continued(pages, r, p));
        lemma_relations_hold(context, pages, r);
    } else {
        assert forall|i: int|
            0 <= i < found.len() && (#[trigger] found[i]).kind
                == RelationKind::ParagraphContinuation implies found[i].source.page_number
            != pages[p - 1].page_number by {
            let r = found[i];
            assert(found.contains(r));
            lemma_relations_hold(context, pages, r);
            let q = choose|q: int| 1 <= q < pages.len() && #[trigger] is_continued(pages, r, q);
            assert(is_continued(pages, r, q));
            if q - 1 != p - 1 {
                assert(pages[q - 1].page_number != pages[p - 1].page_number);
            }
        }
    }
}

/// A paragraph continues only from the last running text of a page into the first of the next,
/// and only where the former does not end a sentence.
pub proof fn paragraphs_continue_nowhere_else(
    context: DocumentContext,
    pages: Seq<PageResult>,
    i: int,
) -> (found: (int, int, int))
    requires
        0 <= i < relations_of(context, pages).len(),
        relations_of(context, pages)[i].kind == RelationKind::ParagraphContinuation,
    ensures
        prose_meets(pages, found.0, found.1, found.2),
        ({
            let r = relations_of(context, pages)[i];
            let source = pages[found.0 - 1].blocks@[found.1];
            let target = pages[found.0].blocks@[found.2];
            let c = source.text@[source.text@.len() - 1];
            &&& r.source.page_number == pages[found.0 - 1].page_number
            &&& r.source.block_id == source.id
            &&& r.target.page_number == pages[found.0].page_number
            &&& r.target.block_id == target.id
            &&& r.score == Some(700_000u32)
            &&& r.evidence == Some(RelationEvidence::OpenSentenceAtPageBreak)
            &&& source.text@.len() > 0
            &&& c != '.' && c != '?' && c != '!' && c != '。' && c != '！' && c != '？' && c != '；'
                && c != ';' && c != '：' && c != ':'
        }),
{
    let list = relations_of(context, pages);
    let r = list[i];
    assert(list.contains(r));
    lemma_relations_hold(context, pages, r);
    let p = choose|p: int| 1 <= p < pages.len() && #[trigger] is_continued(pages, r, p);
    assert(is_continued(pages, r, p));
    lemma_last_fits(pages[p - 1].blocks@, pages[p - 1].blocks@.len() as int);
    lemma_first_fits(pages[p].blocks@, 0);
    let a = last_upto(pages[p - 1].blocks@, Wanted::Prose, pages[p - 1].blocks@.len() as int)->0;
    let b = first_from(pages[p].blocks@, Wanted::Prose, 0)->0;
    (p, a, b)
}

/// The last table of a page may continue in the first of the next page.
pub proof fn tables_may_continue(
    context: DocumentContext,
    pages: Seq<PageResult>,
    p: int,
    a: int,
    b: int,
)
    requires
        tables_meet(pages, p, a, b),
    ensures
        ({
            let source = pages[p - 1].blocks@[a];
            let target = pages[p].blocks@[b];
            relations_of(context, pages).contains(
                DocumentRelation {
                    kind: RelationKind::TableContinuationCandidate,
                    source: NodeRef {
                        page_number: pages[p - 1].page_number,
                        block_id: source.id,
                        line_id: if source.lines@.len() > 0 {
                            Some(source.lines@[0].id)
                        } else {
                            None
                        },
                    },
                    target: NodeRef {
                        page_number: pages[p].page_number,
                        block_id: target.id,
                        line_id: if target.lines@.len() > 0 {
                            Some(target.lines@[0].id)
                        } else {
                            None
                        },
                    },
                    score: Some(750_000),
                    evidence: Some(RelationEvidence::AdjacentPageTables),
                },
            )
        }),
{
    lemma_last_fits(pages[p - 1].blocks@, pages[p - 1].blocks@.len() as int);
    lemma_first_fits(pages[p].blocks@, 0);
    assert(last_upto(pages[p - 1].blocks@, Wanted::Table, pages[p - 1].blocks@.len() as int)
        == Some(a));
    assert(first_from(pages[p].blocks@, Wanted::Table, 0) == Some(b));
    let r = continuation(pages[p - 1], pages[p], Wanted::Table)->0;
    assert(is_continued(pages, r, p));
    lemma_relations_hold(context, pages, r);
}

/// A table continues only from the last table of a page into the first of the next.
pub proof fn tables_continue_nowhere_else(
    context: DocumentContext,
    pages: Seq<PageResult>,
    i: int,
) -> (found: (int, int, int))
    requires
        0 <= i < relations_of(context, pages).len(),
        relations_of(context, pages)[i].kind == RelationKind::TableContinuationCandidate,
    ensures
        tables_meet(pages, found.0, found.1, found.2),
        ({
            let r = relations_of(context, pages)[i];
            &&& r.source.page_number == pages[found.0 - 1].page_number
            &&& r.source.block_id == pages[found.0 - 1].blocks@[found.1].id
            &&& r.target.page_number == pages[found.0].page_number
            &&& r.target.block_id == pages[found.0].blocks@[found.2].id
        }),
{
    let list = relations_of(context, pages);
    let r = list[i];
    assert(list.contains(r));
    lemma_relations_hold(context, pages, r);
    let p = choose|p: int| 1 <= p < pages.len() && #[trigger] is_continued(pages, r, p);
    assert(is_continued(pages, r, p));
    lemma_last_fits(pages[p - 1].blocks@, pages[p - 1].blocks@.len() as int);
    lemma_first_fits(pages[p].blocks@, 0);
    let a = last_upto(pages[p - 1].blocks@, Wanted::Table, pages[p - 1].blocks@.len() as int)->0;
    let b = first_from(pages[p].blocks@, Wanted::Table, 0)->0;
    (p, a, b)
}

/// Whether a block heads what follows: it has lines, and its label is that of the title of the
/// document, of a figure or of a paragraph.
pub open spec fn heads(block: Block) -> bool {
    block.lines@.len() > 0 && match block.label {
        LayoutLabel::DocTitle | LayoutLabel::FigureTitle | LayoutLabel::ParagraphTitle => true,
        _ => false,
    }
}

/// Whether block `b` of page `q` is the next title behind block `a` of page `p`.
pub open spec fn next_title(pages: Seq<PageResult>, p: int, a: int, q: int, b: int) -> bool {
    &&& 0 <= p <= q < pages.len()
    &&& 0 <= a < pages[p].blocks@.len()
    &&& 0 <= b < pages[q].blocks@.len()
    &&& p == q ==> a < b
    &&& heads(pages[p].blocks@[a])
    &&& heads(pages[q].blocks@[b])
    &&& forall|m: int, k: int|
        #![trigger pages[m].blocks@[k]]
        0 <= m < pages.len() && 0 <= k < pages[m].blocks@.len() && (m > p || (m == p && k > a)) && (
        m < q || (m == q && k < b)) ==> !heads(pages[m].blocks@[k])
}

/// Where a title stands among the titles of its page.
proof fn lemma_page_title_place(page: PageResult, n: int, a: int)
    requires
        0 <= a < n <= page.blocks@.len(),
        heads(page.blocks@[a]),
    ensures
        page_titles(page, a).len() < page_titles(page, n).len(),
        page_titles(page, n)[page_titles(page, a).len() as int] == (TitleModel {
            node: super::relations::node_of(page.page_number, page.blocks@[a]),
            sum: title_sum(page.blocks@[a]),
            weight: title_weight(page.blocks@[a]),
        }),
    decreases n,
{
    if a < n - 1 {
        lemma_page_title_place(page, n - 1, a);
    }
}

/// Blocks that head nothing add no title.
proof fn lemma_no_titles(page: PageResult, from: int, to: int)
    requires
        0 <= from <= to <= page.blocks@.len(),
        forall|k: int| from <= k < to ==> !heads(#[trigger] page.blocks@[k]),
    ensures
        page_titles(page, to).len() == page_titles(page, from).len(),
    decreases to,
{
    if from < to {
        lemma_no_titles(page, from, to - 1);
    }
}

/// Where a title stands among the titles of the pages.
proof fn lemma_title_place(pages: Seq<PageResult>, n: int, p: int, a: int)
    requires
        0 <= p < n <= pages.len(),
        0 <= a < pages[p].blocks@.len(),
        heads(pages[p].blocks@[a]),
    ensures
        all_titles(pages, p).len() + page_titles(pages[p], a).len() < all_titles(pages, n).len(),
        all_titles(pages, n)[(all_titles(pages, p).len() + page_titles(pages[p], a).len()) as int]
            == (TitleModel {
            node: super::relations::node_of(pages[p].page_number, pages[p].blocks@[a]),
            sum: title_sum(pages[p].blocks@[a]),
            weight: title_weight(pages[p].blocks@[a]),
        }),
    decreases n,
{
    lemma_page_title_place(pages[p], pages[p].blocks@.len() as int, a);
    if p < n - 1 {
        lemma_title_place(pages, n - 1, p, a);
    }
}

/// Pages without titles add none.
proof fn lemma_no_title_pages(pages: Seq<PageResult>, from: int, to: int)
    requires
        0 <= from <= to <= pages.len(),
        forall|m: int, k: int|
            #![trigger pages[m].blocks@[k]]
            from <= m < to && 0 <= k < pages[m].blocks@.len() ==> !heads(pages[m].blocks@[k]),
    ensures
        all_titles(pages, to).len() == all_titles(pages, from).len(),
    decreases to,
{
    if from < to {
        lemma_no_title_pages(pages, from, to - 1);
        let page = pages[to - 1];
        assert forall|k: int| 0 <= k < page.blocks@.len() implies !heads(
            #[trigger] page.blocks@[k],
        ) by {
            assert(!heads(pages[to - 1].blocks@[k]));
        }
        lemma_no_titles(page, 0, page.blocks@.len() as int);
    }
}

/// The next title behind a title is the next in the list of titles.
proof fn lemma_next_title(pages: Seq<PageResult>, p: int, a: int, q: int, b: int) -> (t: int)
    requires
        next_title(pages, p, a, q, b),
    ensures
        1 <= t < all_titles(pages, pages.len() as int).len(),
        all_titles(pages, pages.len() as int)[t - 1] == (TitleModel {
            node: super::relations::node_of(pages[p].page_number, pages[p].blocks@[a]),
            sum: title_sum(pages[p].blocks@[a]),
            weight: title_weight(pages[p].blocks@[a]),
        }),
        all_titles(pages, pages.len() as int)[t] == (TitleModel {
            node: super::relations::node_of(pages[q].page_number, pages[q].blocks@[b]),
            sum: title_sum(pages[q].blocks@[b]),
            weight: title_weight(pages[q].blocks@[b]),
        }),
{
    let n = pages.len() as int;
    lemma_title_place(pages, n, p, a);
    lemma_title_place(pages, n, q, b);
    assert(page_titles(pages[p], a + 1).len() == page_titles(pages[p], a).len() + 1);
    if p == q {
        assert forall|k: int| a + 1 <= k < b implies !heads(#[trigger] pages[p].blocks@[k]) by {}
        lemma_no_titles(pages[p], a + 1, b);
    } else {
        let end = pages[p].blocks@.len() as int;
        assert forall|k: int| a + 1 <= k < end implies !heads(#[trigger] pages[p].blocks@[k]) by {}
        lemma_no_titles(pages[p], a + 1, end);
        lemma_no_title_pages(pages, p + 1, q);
        assert forall|k: int| 0 <= k < b implies !heads(#[trigger] pages[q].blocks@[k]) by {}
        lemma_no_titles(pages[q], 0, b);
        assert(all_titles(pages, p + 1).len() == all_titles(pages, p).len() + page_titles(
            pages[p],
            end,
        ).len());
    }
    (all_titles(pages, q).len() + page_titles(pages[q], b).len()) as int
}

/// A title stands under the one before it where its letters are no larger: the sum of the sizes
/// of its letters over their number.
pub proof fn smaller_titles_stand_under_larger(
    context: DocumentContext,
    pages: Seq<PageResult>,
    p: int,
    a: int,
    q: int,
    b: int,
)
    requires
        next_title(pages, p, a, q, b),
        title_sum(pages[q].blocks@[b]) * title_weight(pages[p].blocks@[a]) <= title_sum(
            pages[p].blocks@[a],
        ) * title_weight(pages[q].blocks@[b]),
    ensures
        ({
            let source = pages[p].blocks@[a];
            let target = pages[q].blocks@[b];
            relations_of(context, pages).contains(
                DocumentRelation {
                    kind: RelationKind::HeadingHierarchy,
                    source: NodeRef {
                        page_number: pages[p].page_number,
                        block_id: source.id,
                        line_id: Some(source.lines@[0].id),
                    },
                    target: NodeRef {
                        page_number: pages[q].page_number,
                        block_id: target.id,
                        line_id: Some(target.lines@[0].id),
                    },
                    score: Some(800_000),
                    evidence: Some(RelationEvidence::NonIncreasingHeadingSize),
                },
            )
        }),
{
    let source = pages[p].blocks@[a];
    let target = pages[q].blocks@[b];
    let t = lemma_next_title(pages, p, a, q, b);
    let r = DocumentRelation {
        kind: RelationKind::HeadingHierarchy,
        source: super::relations::node_of(pages[p].page_number, source),
        target: super::relations::node_of(pages[q].page_number, target),
        score: Some(800_000),
        evidence: Some(RelationEvidence::NonIncreasingHeadingSize),
    };
    assert(descends(all_titles(pages, pages.len() as int), r, t));
    lemma_relations_hold(context, pages, r);
}

/// Whether block `a` of page `p` is a title that a list of titles holds at place `t`.
spec fn is_placed(pages: Seq<PageResult>, t: int, n: int, p: int, a: int) -> bool {
    &&& 0 <= p < n
    &&& 0 <= a < pages[p].blocks@.len()
    &&& heads(pages[p].blocks@[a])
    &&& all_titles(pages, n)[t] == (TitleModel {
        node: super::relations::node_of(pages[p].page_number, pages[p].blocks@[a]),
        sum: title_sum(pages[p].blocks@[a]),
        weight: title_weight(pages[p].blocks@[a]),
    })
}

proof fn lemma_page_title_from(page: PageResult, n: int, t: int) -> (a: int)
    requires
        0 <= n <= page.blocks@.len(),
        0 <= t < page_titles(page, n).len(),
    ensures
        0 <= a < n,
        heads(page.blocks@[a]),
        page_titles(page, n)[t] == (TitleModel {
            node: super::relations::node_of(page.page_number, page.blocks@[a]),
            sum: title_sum(page.blocks@[a]),
            weight: title_weight(page.blocks@[a]),
        }),
    decreases n,
{
    if t < page_titles(page, n - 1).len() {
        lemma_page_title_from(page, n - 1, t)
    } else {
        n - 1
    }
}

proof fn lemma_title_from(pages: Seq<PageResult>, n: int, t: int) -> (place: (int, int))
    requires
        0 <= n <= pages.len(),
        0 <= t < all_titles(pages, n).len(),
    ensures
        is_placed(pages, t, n, place.0, place.1),
    decreases n,
{
    let before = all_titles(pages, n - 1).len();
    if t < before {
        let place = lemma_title_from(pages, n - 1, t);
        place
    } else {
        let page = pages[n - 1];
        let a = lemma_page_title_from(page, page.blocks@.len() as int, t - before);
        (n - 1, a)
    }
}

/// No title stands under one with smaller letters.
pub proof fn larger_titles_never_stand_under_smaller(
    context: DocumentContext,
    pages: Seq<PageResult>,
    i: int,
) -> (found: (int, int, int, int))
    requires
        0 <= i < relations_of(context, pages).len(),
        relations_of(context, pages)[i].kind == RelationKind::HeadingHierarchy,
    ensures
        ({
            let r = relations_of(context, pages)[i];
            let (p, a, q, b) = found;
            &&& 0 <= p < pages.len() && 0 <= a < pages[p].blocks@.len()
            &&& 0 <= q < pages.len() && 0 <= b < pages[q].blocks@.len()
            &&& heads(pages[p].blocks@[a]) && heads(pages[q].blocks@[b])
            &&& r.source.page_number == pages[p].page_number
            &&& r.source.block_id == pages[p].blocks@[a].id
            &&& r.target.page_number == pages[q].page_number
            &&& r.target.block_id == pages[q].blocks@[b].id
            &&& title_sum(pages[q].blocks@[b]) * title_weight(pages[p].blocks@[a]) <= title_sum(
                pages[p].blocks@[a],
            ) * title_weight(pages[q].blocks@[b])
        }),
{
    let list = relations_of(context, pages);
    let n = pages.len() as int;
    let r = list[i];
    assert(list.contains(r));
    lemma_relations_hold(context, pages, r);
    let titles = all_titles(pages, n);
    let t = choose|t: int| 1 <= t < titles.len() && #[trigger] descends(titles, r, t);
    assert(descends(titles, r, t));
    let x = lemma_title_from(pages, n, t - 1);
    let y = lemma_title_from(pages, n, t);
    (x.0, x.1, y.0, y.1)
}

proof fn lemma_even_items(items: Seq<TextItem>, size: i32, n: int)
    requires
        0 <= n <= items.len(),
        forall|k: int|
            0 <= k < n ==> (#[trigger] items[k]).style is Some && items[k].style->0.font_size
                == Some(size),
    ensures
        items_sum(items, n) == size * items_weight(items, n),
        items_weight(items, n) >= n,
    decreases n,
{
    if n > 0 {
        lemma_even_items(items, size, n - 1);
        assert(items[n - 1].size() == Some(size));
        let (w, x) = (
            items_weight(items, n - 1),
            super::relations::item_weight(items[n - 1]),
        );
        assert(size * (w + x) == size * w + size * x) by (nonlinear_arith);
    }
}

proof fn lemma_even_lines(lines: Seq<Line>, size: i32, n: int)
    requires
        0 <= n <= lines.len(),
        forall|m: int, k: int|
            #![trigger lines[m].text_items@[k]]
            0 <= m < n && 0 <= k < lines[m].text_items@.len() ==> lines[m].text_items@[k].style is Some
                && lines[m].text_items@[k].style->0.font_size == Some(size),
    ensures
        lines_sum(lines, n) == size * lines_weight(lines, n),
        lines_weight(lines, n) >= 0,
        forall|m: int|
            #![trigger lines[m]]
            0 <= m < n && lines[m].text_items@.len() > 0 ==> lines_weight(lines, n) > 0,
    decreases n,
{
    if n > 0 {
        lemma_even_lines(lines, size, n - 1);
        let items = lines[n - 1].text_items@;
        assert forall|k: int| 0 <= k < items.len() implies (#[trigger] items[k]).style is Some
            && items[k].style->0.font_size == Some(size) by {
            assert(lines[n - 1].text_items@[k] == items[k]);
        }
        lemma_even_items(items, size, items.len() as int);
        let (w, x) = (lines_weight(lines, n - 1), items_weight(items, items.len() as int));
        assert(size * (w + x) == size * w + size * x) by (nonlinear_arith);
    }
}

/// The letters of a title set in one size are of that size; those of a title without any are as
/// large as its box is high.
pub proof fn titles_are_as_large_as_their_letters(block: Block, size: i32)
    requires
        forall|m: int, k: int|
            #![trigger block.lines@[m].text_items@[k]]
            0 <= m < block.lines@.len() && 0 <= k < block.lines@[m].text_items@.len()
                ==> block.lines@[m].text_items@[k].style is Some
                && block.lines@[m].text_items@[k].style->0.font_size == Some(size),
    ensures
        (exists|m: int|
            #![trigger block.lines@[m]]
            0 <= m < block.lines@.len() && block.lines@[m].text_items@.len() > 0) ==> title_sum(
            block,
        ) == size * title_weight(block),
        (forall|m: int|
            #![trigger block.lines@[m]]
            0 <= m < block.lines@.len() ==> block.lines@[m].text_items@.len() == 0) ==> title_sum(
            block,
        ) == (block.bbox.bottom - block.bbox.top) * title_weight(block),
        title_weight(block) > 0,
{
    lemma_even_lines(block.lines@, size, block.lines@.len() as int);
    if forall|m: int|
        #![trigger block.lines@[m]]
        0 <= m < block.lines@.len() ==> block.lines@[m].text_items@.len() == 0 {
        lemma_weightless(block.lines@, block.lines@.len() as int);
    }
}

proof fn lemma_weightless(lines: Seq<Line>, n: int)
    requires
        0 <= n <= lines.len(),
        forall|m: int|
            #![trigger lines[m]]
            0 <= m < lines.len() ==> lines[m].text_items@.len() == 0,
    ensures
        lines_weight(lines, n) == 0,
    decreases n,
{
    if n > 0 {
        lemma_weightless(lines, n - 1);
        assert(lines[n - 1].text_items@.len() == 0);
    }
}

} // verus!
