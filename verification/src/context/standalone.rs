//! The context of a page that is parsed alone.

use vstd::prelude::*;

use crate::chars::{digit, push_decimal, text_of_decimal};
use crate::context::builder::{
    context_of, DocumentContext, DocumentContextBuilder, PageOrder,
};
use crate::error::ContextError;
use crate::extract::metadata::{ExtractedPage, PageProbe};
use crate::numerals::{decimal_value, spelled_number};
use crate::page::prepare::{agrees, stands_alone, value_from};
use crate::sorting::{sorted, sorting_orders_and_keeps};

verus! {

/// Whether a context holds the statistics of a page as the first of one, and names the page.
pub open spec fn is_context_of(context: DocumentContext, page: ExtractedPage) -> bool {
    &&& exists|probe: PageProbe| #[trigger]
        probe.reads(page) && probe.page_number == 1 && context@ == context_of(seq![probe], 1)
    &&& context.page_count == 1
    &&& context.metadata@.len() == 1
    &&& context.metadata@[0].0@ == "standalone_page_number"@
    &&& context.metadata@[0].1@ == text_of_decimal(page.page_number as nat)
}

/// One probe is in order.
proof fn lemma_single(probe: PageProbe)
    ensures
        sorted(seq![probe], PageOrder) == seq![probe],
{
    sorting_orders_and_keeps(seq![probe], PageOrder);
    let s = sorted(seq![probe], PageOrder);
    s.to_multiset_ensures();
    seq![probe].to_multiset_ensures();
    assert(s.len() == 1);
    assert(s.to_multiset().count(s[0]) > 0);
    assert(seq![probe].contains(s[0]));
    assert(s =~= seq![probe]);
}

impl DocumentContext {
    /// The context of a page that is parsed alone: its statistics are local to one page, its
    /// number is kept.
    pub fn standalone(page: &ExtractedPage, model_revision: String) -> (context: Result<
        DocumentContext,
        ContextError,
    >)
        requires
            page.text_items@.len() <= u32::MAX,
        ensures
            match context {
                Ok(made) => page.width > 0 && page.height > 0 && is_context_of(made, *page)
                    && made.model_revision == Some(model_revision),
                Err(ContextError::InvalidProbe { page_number, reason }) => !(page.width > 0
                    && page.height > 0) && page_number == 1 && reason@
                    == "page number and dimensions must be valid"@,
                Err(_) => false,
            },
    {
        let mut number: String = String::new();
        push_decimal(&mut number, page.page_number as u64);
        assert(number@ =~= text_of_decimal(page.page_number as nat));
        let mut builder: DocumentContextBuilder = DocumentContextBuilder::new(1);
        builder.metadata.push(("standalone_page_number".to_string(), number));
        builder.model_revision = Some(model_revision);
        let mut probe: PageProbe = PageProbe::new(page);
        probe.page_number = 1;
        let ghost held = probe;
        assert(held.reads(*page));
        match builder.push_page(probe) {
            Err(error) => {
                return Err(error);
            },
            Ok(()) => {},
        }
        assert(builder.probes@ =~= seq![held]);
        proof {
            lemma_single(held);
        }
        builder.build()
    }
}

/// The decimal spelling of a number has digits, and their value is the number.
proof fn lemma_spelling(n: nat)
    ensures
        text_of_decimal(n).len() > 0,
        decimal_value(text_of_decimal(n), text_of_decimal(n).len() as int) == Some(n),
        '0' <= text_of_decimal(n)[0] <= '9',
    decreases n,
{
    if n < 10 {
        let s = text_of_decimal(n);
        assert(s.len() == 1);
        assert(decimal_value(s, 0) == Some(0nat));
    } else {
        lemma_spelling(n / 10);
        let t = text_of_decimal(n / 10);
        let s = text_of_decimal(n);
        assert(s == t.push(digit(n % 10)));
        lemma_prefix(t, s, t.len() as int);
    }
}

/// The value of leading digits does not depend on what follows.
proof fn lemma_prefix(s: Seq<char>, t: Seq<char>, n: int)
    requires
        0 <= n <= s.len() <= t.len(),
        forall|i: int| 0 <= i < s.len() ==> s[i] == t[i],
    ensures
        decimal_value(s, n) == decimal_value(t, n),
    decreases n,
{
    if n > 0 {
        lemma_prefix(s, t, n - 1);
    }
}

/// A page parsed alone keeps its number and is accepted with its own context, whatever the number.
pub proof fn standalone_pages_are_accepted(context: DocumentContext, page: ExtractedPage)
    requires
        is_context_of(context, page),
        page.page_number > 0,
        page.width > 0,
        page.height > 0,
        page.rotation == 0 || page.rotation == 90 || page.rotation == 180 || page.rotation == 270,
    ensures
        stands_alone(context, page.page_number),
        agrees(page, context),
{
    let s = text_of_decimal(page.page_number as nat);
    lemma_spelling(page.page_number as nat);
    assert(s.skip(0) =~= s);
    assert(spelled_number(s) == Some(page.page_number as nat));
    assert(value_from(context.metadata@, "standalone_page_number"@, 0) == Some(s));
}

} // verus!
