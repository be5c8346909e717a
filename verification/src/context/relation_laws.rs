//! Relations speak of blocks that exist.

use vstd::prelude::*;

use super::relations::{
    all_prints, all_titles, chrome_relations, chrome_upto, continuation, continued_upto,
    first_from, hierarchy_upto, last_upto, node_of, nodes_with, ordered_pages, page_prints,
    page_titles, print_texts, relations_of, DocumentRelation, NodeOrder, NodeRef, NumberOrder,
    RelationOrder, TitleModel, Wanted,
};
use crate::blocks::Block;
use crate::context::builder::DocumentContext;
use crate::result::PageResult;
use crate::sorting::{sorted, sorting_orders_and_keeps, Order};
use crate::texts::text_set;

verus! {

/// Whether a reference is to block `k` of page `p`.
pub open spec fn names_block(pages: Seq<PageResult>, node: NodeRef, p: int, k: int) -> bool {
    &&& 0 <= p < pages.len()
    &&& 0 <= k < pages[p].blocks@.len()
    &&& node == node_of(pages[p].page_number, pages[p].blocks@[k])
}

/// Whether a reference is to some block of the pages.
pub open spec fn names_some(pages: Seq<PageResult>, node: NodeRef) -> bool {
    exists|p: int, k: int| #[trigger] names_block(pages, node, p, k)
}

/// Whether both ends of every relation are blocks of the pages.
spec fn all_named(pages: Seq<PageResult>, list: Seq<DocumentRelation>) -> bool {
    forall|i: int|
        0 <= i < list.len() ==> names_some(pages, (#[trigger] list[i]).source) && names_some(
            pages,
            list[i].target,
        )
}

/// Whether every reference is to a block of the pages.
spec fn nodes_named(pages: Seq<PageResult>, nodes: Seq<NodeRef>) -> bool {
    forall|i: int| 0 <= i < nodes.len() ==> names_some(pages, #[trigger] nodes[i])
}

/// Whether every repeated block is a block of the pages.
spec fn prints_named(pages: Seq<PageResult>, prints: Seq<(Seq<char>, NodeRef)>) -> bool {
    forall|i: int| 0 <= i < prints.len() ==> names_some(pages, (#[trigger] prints[i]).1)
}

/// Whether every title is a block of the pages.
spec fn titles_named(pages: Seq<PageResult>, titles: Seq<TitleModel>) -> bool {
    forall|i: int| 0 <= i < titles.len() ==> names_some(pages, (#[trigger] titles[i]).node)
}

/// Sorted values are those that were sorted.
proof fn lemma_sorted_from<T, O: Order<T>>(s: Seq<T>, order: O, i: int) -> (k: int)
    requires
        0 <= i < sorted(s, order).len(),
    ensures
        0 <= k < s.len(),
        sorted(s, order)[i] == s[k],
{
    broadcast use vstd::seq_lib::group_to_multiset_ensures;

    sorting_orders_and_keeps(s, order);
    let x = sorted(s, order)[i];
    assert(sorted(s, order).contains(x));
    assert(s.to_multiset().count(x) > 0);
    assert(s.contains(x));
    s.index_of(x)
}

/// Repeated blocks of a page are blocks of it.
proof fn lemma_page_prints(context: DocumentContext, pages: Seq<PageResult>, p: int, n: int)
    requires
        0 <= p < pages.len(),
        n <= pages[p].blocks@.len(),
    ensures
        prints_named(pages, page_prints(context, pages[p], n)),
    decreases n,
{
    if n > 0 {
        lemma_page_prints(context, pages, p, n - 1);
        let node = node_of(pages[p].page_number, pages[p].blocks@[n - 1]);
        assert(names_block(pages, node, p, n - 1));
    }
}

/// Repeated blocks of pages are blocks of them.
proof fn lemma_all_prints(context: DocumentContext, pages: Seq<PageResult>, n: int)
    requires
        n <= pages.len(),
    ensures
        prints_named(pages, all_prints(context, pages, n)),
    decreases n,
{
    if n > 0 {
        lemma_all_prints(context, pages, n - 1);
        lemma_page_prints(context, pages, n - 1, pages[n - 1].blocks@.len() as int);
    }
}

/// References to repeated blocks of one text are references to blocks.
proof fn lemma_nodes_with(
    pages: Seq<PageResult>,
    prints: Seq<(Seq<char>, NodeRef)>,
    text: Seq<char>,
    n: int,
)
    requires
        prints_named(pages, prints),
        n <= prints.len(),
    ensures
        nodes_named(pages, nodes_with(prints, text, n)),
    decreases n,
{
    if n > 0 {
        lemma_nodes_with(pages, prints, text, n - 1);
    }
}

/// Relations between neighbours of a list of blocks are relations between blocks.
proof fn lemma_chrome_upto(
    pages: Seq<PageResult>,
    list: Seq<DocumentRelation>,
    nodes: Seq<NodeRef>,
    n: int,
)
    requires
        all_named(pages, list),
        nodes_named(pages, nodes),
        n <= nodes.len(),
    ensures
        all_named(pages, chrome_upto(list, nodes, n)),
    decreases n,
{
    if n > 1 {
        lemma_chrome_upto(pages, list, nodes, n - 1);
        assert(names_some(pages, nodes[n - 2]) && names_some(pages, nodes[n - 1]));
    }
}

/// Relations between repeated blocks are relations between blocks.
proof fn lemma_chrome(
    pages: Seq<PageResult>,
    prints: Seq<(Seq<char>, NodeRef)>,
    names: Seq<Seq<char>>,
    n: int,
)
    requires
        prints_named(pages, prints),
    ensures
        all_named(pages, chrome_relations(prints, names, n)),
    decreases n,
{
    if n > 0 {
        lemma_chrome(pages, prints, names, n - 1);
        let found = nodes_with(prints, names[n - 1], prints.len() as int);
        lemma_nodes_with(pages, prints, names[n - 1], prints.len() as int);
        let nodes = sorted(found, NodeOrder);
        assert forall|i: int| 0 <= i < nodes.len() implies names_some(
            pages,
            #[trigger] nodes[i],
        ) by {
            let k = lemma_sorted_from(found, NodeOrder, i);
            assert(names_some(pages, found[k]));
        }
        lemma_chrome_upto(
            pages,
            chrome_relations(prints, names, n - 1),
            nodes,
            nodes.len() as int,
        );
    }
}

/// The last block that is looked for is a block.
proof fn lemma_last(blocks: Seq<Block>, wanted: Wanted, n: int)
    requires
        n <= blocks.len(),
    ensures
        last_upto(blocks, wanted, n) matches Some(k) ==> 0 <= k < n,
    decreases n,
{
    if n > 0 {
        lemma_last(blocks, wanted, n - 1);
    }
}

/// The first block that is looked for is a block.
proof fn lemma_first(blocks: Seq<Block>, wanted: Wanted, i: int)
    requires
        0 <= i,
    ensures
        first_from(blocks, wanted, i) matches Some(k) ==> i <= k < blocks.len(),
    decreases blocks.len() - i,
{
    if i < blocks.len() {
        lemma_first(blocks, wanted, i + 1);
    }
}

/// A continuation is a relation between blocks.
proof fn lemma_continuation(pages: Seq<PageResult>, p: int, wanted: Wanted)
    requires
        1 <= p < pages.len(),
    ensures
        continuation(pages[p - 1], pages[p], wanted) matches Some(relation) ==> names_some(
            pages,
            relation.source,
        ) && names_some(pages, relation.target),
{
    let source = pages[p - 1];
    let target = pages[p];
    lemma_last(source.blocks@, wanted, source.blocks@.len() as int);
    lemma_first(target.blocks@, wanted, 0);
    if let Some(relation) = continuation(source, target, wanted) {
        let a = last_upto(source.blocks@, wanted, source.blocks@.len() as int)->0;
        let b = first_from(target.blocks@, wanted, 0)->0;
        assert(names_block(pages, relation.source, p - 1, a));
        assert(names_block(pages, relation.target, p, b));
    }
}

/// Continuations are relations between blocks.
proof fn lemma_continued(pages: Seq<PageResult>, list: Seq<DocumentRelation>, n: int)
    requires
        all_named(pages, list),
        n <= pages.len(),
    ensures
        all_named(pages, continued_upto(list, pages, n)),
    decreases n,
{
    if n > 1 {
        lemma_continued(pages, list, n - 1);
        lemma_continuation(pages, n - 1, Wanted::Prose);
        lemma_continuation(pages, n - 1, Wanted::Table);
    }
}

/// Titles of a page are blocks of it.
proof fn lemma_page_titles(pages: Seq<PageResult>, p: int, n: int)
    requires
        0 <= p < pages.len(),
        n <= pages[p].blocks@.len(),
    ensures
        titles_named(pages, page_titles(pages[p], n)),
    decreases n,
{
    if n > 0 {
        lemma_page_titles(pages, p, n - 1);
        let node = node_of(pages[p].page_number, pages[p].blocks@[n - 1]);
        assert(names_block(pages, node, p, n - 1));
    }
}

/// Titles of pages are blocks of them.
proof fn lemma_all_titles(pages: Seq<PageResult>, n: int)
    requires
        n <= pages.len(),
    ensures
        titles_named(pages, all_titles(pages, n)),
    decreases n,
{
    if n > 0 {
        lemma_all_titles(pages, n - 1);
        lemma_page_titles(pages, n - 1, pages[n - 1].blocks@.len() as int);
    }
}

/// Relations between titles are relations between blocks.
proof fn lemma_hierarchy(
    pages: Seq<PageResult>,
    list: Seq<DocumentRelation>,
    titles: Seq<TitleModel>,
    n: int,
)
    requires
        all_named(pages, list),
        titles_named(pages, titles),
        n <= titles.len(),
    ensures
        all_named(pages, hierarchy_upto(list, titles, n)),
    decreases n,
{
    if n > 1 {
        lemma_hierarchy(pages, list, titles, n - 1);
        assert(names_some(pages, titles[n - 2].node) && names_some(pages, titles[n - 1].node));
    }
}

/// Relations of pages in order name blocks of these.
proof fn lemma_relations(context: DocumentContext, pages: Seq<PageResult>)
    ensures
        all_named(pages, relations_of(context, pages)),
{
    let n = pages.len() as int;
    let prints = all_prints(context, pages, n);
    let names = text_set(print_texts(prints));
    let chrome = chrome_relations(prints, names, names.len() as int);
    let titles = all_titles(pages, n);
    lemma_all_prints(context, pages, n);
    lemma_chrome(pages, prints, names, names.len() as int);
    lemma_continued(pages, chrome, n);
    lemma_all_titles(pages, n);
    let list = hierarchy_upto(continued_upto(chrome, pages, n), titles, titles.len() as int);
    lemma_hierarchy(pages, continued_upto(chrome, pages, n), titles, titles.len() as int);
    let relations = relations_of(context, pages);
    assert forall|i: int| 0 <= i < relations.len() implies names_some(
        pages,
        (#[trigger] relations[i]).source,
    ) && names_some(pages, relations[i].target) by {
        let k = lemma_sorted_from(list, RelationOrder, i);
        assert(names_some(pages, list[k].source) && names_some(pages, list[k].target));
    }
}

/// Both ends of every relation of a document are blocks of the pages that were handed in, under
/// the numbers of these pages, the identities of these blocks and those of their first lines.
pub proof fn relations_name_blocks(context: DocumentContext, pages: Seq<PageResult>, i: int)
    requires
        0 <= i < relations_of(context, ordered_pages(pages)).len(),
    ensures
        ({
            let relation = relations_of(context, ordered_pages(pages))[i];
            names_some(pages, relation.source) && names_some(pages, relation.target)
        }),
{
    let ordered = ordered_pages(pages);
    lemma_relations(context, ordered);
    let relation = relations_of(context, ordered)[i];
    lemma_named_before_sorting(pages, relation.source);
    lemma_named_before_sorting(pages, relation.target);
}

/// A block of the pages in order is a block of the pages.
proof fn lemma_named_before_sorting(pages: Seq<PageResult>, node: NodeRef)
    requires
        names_some(ordered_pages(pages), node),
    ensures
        names_some(pages, node),
{
    let (p, k) = choose|p: int, k: int| #[trigger] names_block(ordered_pages(pages), node, p, k);
    let q = lemma_sorted_from(pages, NumberOrder, p);
    assert(names_block(pages, node, q, k));
}

} // verus!
