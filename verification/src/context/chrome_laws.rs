//! How running texts of pages are linked.

use vstd::prelude::*;

use super::builder::DocumentContext;
use super::context_laws::text_sets_hold_every_text;
use super::continuation_laws::lemma_chrome_holds;
use super::relations::{
    all_prints, block_print, chrome_relations, chrome_upto, is_chrome, node_lt, node_of,
    nodes_with, page_prints, print_texts, relations_of, DocumentRelation, NodeOrder, NodeRef,
    RelationKind,
};
use crate::result::PageResult;
use crate::sorting::{sorted, sorting_holds_the_same, sorting_orders_and_keeps, Order};
use crate::texts::text_set;

verus! {

/// Whether a block of a page shows a running text: it is no watermark, and the document repeats
/// its text at the top or at the bottom of pages.
pub open spec fn runs_on(context: DocumentContext, page: PageResult, b: int) -> bool {
    0 <= b < page.blocks@.len() && !(page.blocks@[b].label is Watermark) && is_chrome(
        context,
        block_print(page.blocks@[b]),
    )
}

proof fn lemma_push<T>(s: Seq<T>, x: T, r: T)
    ensures
        s.push(x).contains(r) <==> s.contains(r) || x == r,
{
    let t = s.push(x);
    if s.contains(r) {
        assert(t[s.index_of(r)] == r);
    }
    if x == r {
        assert(t[s.len() as int] == r);
    }
    if t.contains(r) {
        let i = t.index_of(r);
        if i < s.len() {
            assert(s[i] == r);
        }
    }
}

proof fn lemma_page_prints(
    context: DocumentContext,
    page: PageResult,
    n: int,
    x: (Seq<char>, NodeRef),
)
    requires
        0 <= n <= page.blocks@.len(),
    ensures
        page_prints(context, page, n).contains(x) <==> exists|b: int|
            0 <= b < n && #[trigger] runs_on(context, page, b) && x == (
                block_print(page.blocks@[b]),
                node_of(page.page_number, page.blocks@[b]),
            ),
    decreases n,
{
    if n > 0 {
        lemma_page_prints(context, page, n - 1, x);
        let before = page_prints(context, page, n - 1);
        let block = page.blocks@[n - 1];
        let here = (block_print(block), node_of(page.page_number, block));
        if runs_on(context, page, n - 1) {
            lemma_push(before, here, x);
        }
        if page_prints(context, page, n).contains(x) && !before.contains(x) {
            assert(runs_on(context, page, n - 1) && x == here);
        }
    }
}

proof fn lemma_all_prints(
    context: DocumentContext,
    pages: Seq<PageResult>,
    n: int,
    x: (Seq<char>, NodeRef),
)
    requires
        0 <= n <= pages.len(),
    ensures
        all_prints(context, pages, n).contains(x) <==> exists|p: int, b: int|
            0 <= p < n && #[trigger] runs_on(context, pages[p], b) && x == (
                block_print(pages[p].blocks@[b]),
                node_of(pages[p].page_number, pages[p].blocks@[b]),
            ),
    decreases n,
{
    if n > 0 {
        lemma_all_prints(context, pages, n - 1, x);
        let page = pages[n - 1];
        lemma_page_prints(context, page, page.blocks@.len() as int, x);
        let before = all_prints(context, pages, n - 1);
        let here = page_prints(context, page, page.blocks@.len() as int);
        let all = all_prints(context, pages, n);
        assert(all == before + here);
        if before.contains(x) {
            assert(all[before.index_of(x)] == x);
        }
        if here.contains(x) {
            assert(all[before.len() + here.index_of(x)] == x);
        }
        if all.contains(x) {
            let k = all.index_of(x);
            if k < before.len() {
                assert(before[k] == x);
            } else {
                assert(here[k - before.len()] == x);
            }
        }
        if exists|p: int, b: int|
            0 <= p < n && #[trigger] runs_on(context, pages[p], b) && x == (
                block_print(pages[p].blocks@[b]),
                node_of(pages[p].page_number, pages[p].blocks@[b]),
            ) {
            let (p, b) = choose|p: int, b: int|
                0 <= p < n && #[trigger] runs_on(context, pages[p], b) && x == (
                    block_print(pages[p].blocks@[b]),
                    node_of(pages[p].page_number, pages[p].blocks@[b]),
                );
            if p == n - 1 {
                assert(runs_on(context, page, b));
            }
        }
        if here.contains(x) {
            let b = choose|b: int|
                0 <= b < page.blocks@.len() && #[trigger] runs_on(context, page, b) && x == (
                    block_print(page.blocks@[b]),
                    node_of(page.page_number, page.blocks@[b]),
                );
            assert(runs_on(context, pages[n - 1], b));
        }
    }
}

proof fn lemma_nodes_with(prints: Seq<(Seq<char>, NodeRef)>, text: Seq<char>, n: int, x: NodeRef)
    requires
        0 <= n <= prints.len(),
    ensures
        nodes_with(prints, text, n).contains(x) <==> exists|k: int|
            0 <= k < n && #[trigger] prints[k] == (text, x),
    decreases n,
{
    if n > 0 {
        lemma_nodes_with(prints, text, n - 1, x);
        if prints[n - 1].0 == text {
            lemma_push(nodes_with(prints, text, n - 1), prints[n - 1].1, x);
        }
        if nodes_with(prints, text, n).contains(x) && !nodes_with(prints, text, n - 1).contains(
            x,
        ) {
            assert(prints[n - 1] == (text, x));
        }
    }
}

/// The link of two nodes.
spec fn link(a: NodeRef, b: NodeRef) -> DocumentRelation {
    DocumentRelation {
        kind: RelationKind::RepeatedChrome,
        source: a,
        target: b,
        score: None,
        evidence: None,
    }
}

/// Whether a relation links a node to the one before it.
spec fn linked_at(nodes: Seq<NodeRef>, k: int, r: DocumentRelation) -> bool {
    1 <= k < nodes.len() && r == link(nodes[k - 1], nodes[k])
}

proof fn lemma_chrome_upto(
    list: Seq<DocumentRelation>,
    nodes: Seq<NodeRef>,
    n: int,
    r: DocumentRelation,
)
    requires
        n <= nodes.len(),
    ensures
        chrome_upto(list, nodes, n).contains(r) <==> list.contains(r) || exists|k: int|
            1 <= k < n && #[trigger] linked_at(nodes, k, r),
    decreases n,
{
    if n > 1 {
        lemma_chrome_upto(list, nodes, n - 1, r);
        lemma_push(chrome_upto(list, nodes, n - 1), link(nodes[n - 2], nodes[n - 1]), r);
        if chrome_upto(list, nodes, n).contains(r) && !chrome_upto(list, nodes, n - 1).contains(r) {
            assert(linked_at(nodes, n - 1, r));
        }
    }
}

/// The nodes of a running text, in their order.
spec fn nodes_of(prints: Seq<(Seq<char>, NodeRef)>, text: Seq<char>) -> Seq<NodeRef> {
    sorted(nodes_with(prints, text, prints.len() as int), NodeOrder)
}

/// Whether a relation links neighbours of a running text.
spec fn links(prints: Seq<(Seq<char>, NodeRef)>, text: Seq<char>, r: DocumentRelation) -> bool {
    exists|k: int| #[trigger] linked_at(nodes_of(prints, text), k, r)
}

proof fn lemma_chrome_relations(
    prints: Seq<(Seq<char>, NodeRef)>,
    names: Seq<Seq<char>>,
    n: int,
    r: DocumentRelation,
)
    requires
        0 <= n <= names.len(),
    ensures
        chrome_relations(prints, names, n).contains(r) <==> exists|m: int|
            0 <= m < n && #[trigger] links(prints, names[m], r),
    decreases n,
{
    if n > 0 {
        lemma_chrome_relations(prints, names, n - 1, r);
        let nodes = nodes_of(prints, names[n - 1]);
        lemma_chrome_upto(
            chrome_relations(prints, names, n - 1),
            nodes,
            nodes.len() as int,
            r,
        );
        if links(prints, names[n - 1], r) {
            let k = choose|k: int| #[trigger] linked_at(nodes, k, r);
            assert(1 <= k < nodes.len());
        }
    }
}

proof fn lemma_node(
    context: DocumentContext,
    pages: Seq<PageResult>,
    text: Seq<char>,
    x: NodeRef,
)
    ensures
        nodes_of(all_prints(context, pages, pages.len() as int), text).contains(x) <==> exists|
            p: int,
            b: int,
        |
            0 <= p < pages.len() && #[trigger] runs_on(context, pages[p], b) && block_print(
                pages[p].blocks@[b],
            ) == text && x == node_of(pages[p].page_number, pages[p].blocks@[b]),
{
    let prints = all_prints(context, pages, pages.len() as int);
    lemma_nodes_with(prints, text, prints.len() as int, x);
    sorting_holds_the_same(
        nodes_with(prints, text, prints.len() as int),
        NodeOrder,
        x,
    );
    lemma_all_prints(context, pages, pages.len() as int, (text, x));
    if exists|k: int| 0 <= k < prints.len() && #[trigger] prints[k] == (text, x) {
        let k = choose|k: int| 0 <= k < prints.len() && #[trigger] prints[k] == (text, x);
        assert(prints.contains((text, x)));
    }
    if prints.contains((text, x)) {
        let k = prints.index_of((text, x));
        assert(prints[k] == (text, x));
    }
}

/// Each link of repeated blocks goes from a block of a running text to the next one with the same
/// text: both run on, the second does not stand before the first, and no other block with the
/// text stands between them.
pub proof fn running_texts_are_linked_in_turn(
    context: DocumentContext,
    pages: Seq<PageResult>,
    i: int,
) -> (found: (int, int, int, int))
    requires
        0 <= i < relations_of(context, pages).len(),
        relations_of(context, pages)[i].kind == RelationKind::RepeatedChrome,
    ensures
        0 <= found.0 < pages.len(),
        0 <= found.2 < pages.len(),
        runs_on(context, pages[found.0], found.1),
        runs_on(context, pages[found.2], found.3),
        ({
            let r = relations_of(context, pages)[i];
            let source = pages[found.0].blocks@[found.1];
            let target = pages[found.2].blocks@[found.3];
            &&& block_print(source) == block_print(target)
            &&& r.source.page_number == pages[found.0].page_number
            &&& r.source.block_id == source.id
            &&& r.target.page_number == pages[found.2].page_number
            &&& r.target.block_id == target.id
            &&& r.source.page_number <= r.target.page_number
            &&& !node_lt(r.target, r.source)
            &&& forall|p: int, b: int|
                0 <= p < pages.len() && #[trigger] runs_on(context, pages[p], b) && block_print(
                    pages[p].blocks@[b],
                ) == block_print(source) ==> !(node_lt(
                    r.source,
                    node_of(pages[p].page_number, pages[p].blocks@[b]),
                ) && node_lt(node_of(pages[p].page_number, pages[p].blocks@[b]), r.target))
        }),
{
    let r = relations_of(context, pages)[i];
    let n = pages.len() as int;
    let prints = all_prints(context, pages, n);
    let names = text_set(print_texts(prints));
    assert(relations_of(context, pages).contains(r));
    lemma_chrome_holds(context, pages, r);
    lemma_chrome_relations(prints, names, names.len() as int, r);
    let m = choose|m: int| 0 <= m < names.len() && #[trigger] links(prints, names[m], r);
    let text = names[m];
    let nodes = nodes_of(prints, text);
    let k = choose|k: int| #[trigger] linked_at(nodes, k, r);
    sorting_orders_and_keeps(nodes_with(prints, text, prints.len() as int), NodeOrder);
    assert(!NodeOrder.lt(nodes[k], nodes[k - 1]));
    assert(nodes.contains(nodes[k - 1]));
    assert(nodes.contains(nodes[k]));
    lemma_node(context, pages, text, nodes[k - 1]);
    lemma_node(context, pages, text, nodes[k]);
    let (p, a) = choose|p: int, b: int|
        0 <= p < pages.len() && #[trigger] runs_on(context, pages[p], b) && block_print(
            pages[p].blocks@[b],
        ) == text && nodes[k - 1] == node_of(pages[p].page_number, pages[p].blocks@[b]);
    let (q, c) = choose|p: int, b: int|
        0 <= p < pages.len() && #[trigger] runs_on(context, pages[p], b) && block_print(
            pages[p].blocks@[b],
        ) == text && nodes[k] == node_of(pages[p].page_number, pages[p].blocks@[b]);
    assert forall|u: int, b: int|
        0 <= u < pages.len() && #[trigger] runs_on(context, pages[u], b) && block_print(
            pages[u].blocks@[b],
        ) == text implies !(node_lt(
        r.source,
        node_of(pages[u].page_number, pages[u].blocks@[b]),
    ) && node_lt(node_of(pages[u].page_number, pages[u].blocks@[b]), r.target)) by {
        let x = node_of(pages[u].page_number, pages[u].blocks@[b]);
        lemma_node(context, pages, text, x);
        assert(nodes.contains(x));
        let j = nodes.index_of(x);
        if j < k - 1 {
            assert(!NodeOrder.lt(nodes[k - 1], nodes[j]));
        } else if j > k {
            assert(!NodeOrder.lt(nodes[j], nodes[k]));
        } else {
            NodeOrder.is_strict_weak(x, x, x);
        }
    }
    (p, a, q, c)
}

/// A block of a running text behind another with the same text is linked to one before it.
pub proof fn later_running_texts_are_linked(
    context: DocumentContext,
    pages: Seq<PageResult>,
    p: int,
    a: int,
    q: int,
    b: int,
)
    requires
        0 <= p < pages.len(),
        0 <= q < pages.len(),
        runs_on(context, pages[p], a),
        runs_on(context, pages[q], b),
        block_print(pages[p].blocks@[a]) == block_print(pages[q].blocks@[b]),
        pages[p].page_number < pages[q].page_number,
    ensures
        exists|r: DocumentRelation| #[trigger]
            relations_of(context, pages).contains(r) && r.kind == RelationKind::RepeatedChrome
                && r.target.page_number == pages[q].page_number && r.target.block_id
                == pages[q].blocks@[b].id,
{
    let n = pages.len() as int;
    let prints = all_prints(context, pages, n);
    let names = text_set(print_texts(prints));
    let text = block_print(pages[q].blocks@[b]);
    let x = node_of(pages[p].page_number, pages[p].blocks@[a]);
    let y = node_of(pages[q].page_number, pages[q].blocks@[b]);
    lemma_node(context, pages, text, x);
    lemma_node(context, pages, text, y);
    let nodes = nodes_of(prints, text);
    sorting_orders_and_keeps(nodes_with(prints, text, prints.len() as int), NodeOrder);
    let i = nodes.index_of(x);
    let k = nodes.index_of(y);
    if k < i {
        assert(!NodeOrder.lt(nodes[i], nodes[k]));
    }
    assert(k >= 1);
    let r = link(nodes[k - 1], nodes[k]);
    assert(linked_at(nodes, k, r));
    assert(links(prints, text, r));
    lemma_all_prints(context, pages, n, (text, y));
    let at = prints.index_of((text, y));
    assert(print_texts(prints)[at] == text);
    assert(print_texts(prints).contains(text));
    text_sets_hold_every_text(print_texts(prints), text);
    let m = names.index_of(text);
    assert(links(prints, names[m], r));
    lemma_chrome_relations(prints, names, names.len() as int, r);
    lemma_chrome_holds(context, pages, r);
    assert(relations_of(context, pages).contains(r));
}

} // verus!
