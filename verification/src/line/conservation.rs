//! Every source fact is owned by exactly one line, whatever atoms stood for it.

use vstd::multiset::Multiset;
use vstd::prelude::*;

use super::assemble::{assembled, seen_width};
use super::bidi::ItemOrder;
use super::formula::{
    formula_lines, formula_of, formula_rows, formula_runs, lemma_absorbing_keeps, region_upto,
    row_atom, ruled_lines, with_formulas, with_rows, FormulaRegion,
};
use super::fraction::{
    axis_of, bar_page, bar_side, bars_of, fraction_atom, fraction_parts, in_power, left_over, position_of, power_runs,
    powers_upto, prepared, restored, restored_upto, runs_in, side_of, side_order, side_runs,
    small_runs, taken_sources, top_most, with_bar, with_bars, Axis, Bar,
};
use super::fragment::{lemma_owned_by_multiset, lemma_owned_push, owned, owned_upto, FragmentModel};
use super::inline::{
    absorbing, hang_line, hung, hung_sources, is_operator, is_taken, limbs, lemma_limit_owner, limit_owner, limit_side, limited,
    limited_items, limited_sources, source_of, takes_limits, InlineModel,
};

use super::ownership::assembly_keeps_runs;
use super::scripts::{attaching_keeps_runs, lemma_singles_keep, owner_of, singles, with_scripts};
use crate::config::FusionConfig;
use crate::sorting::{sorted, sorting_orders_and_keeps};
use crate::types::{TableRule, TextItem};

verus! {

/// Source facts by the identity of the atom that stands for them.
pub type Sources = Map<Seq<char>, Seq<TextItem>>;

/// Whether no two runs share an identity.
pub open spec fn distinct_ids(items: Seq<TextItem>) -> bool {
    forall|i: int, j: int|
        #![trigger items[i], items[j]]
        0 <= i < j < items.len() ==> items[i].id@ != items[j].id@
}

/// Whether runs of a collection with one identity are one run.
spec fn told(runs: Multiset<TextItem>) -> bool {
    &&& forall|x: TextItem, y: TextItem|
        #![trigger runs.count(x), runs.count(y)]
        runs.count(x) > 0 && runs.count(y) > 0 && x.id@ == y.id@ ==> x == y
    &&& forall|x: TextItem| #[trigger] runs.count(x) <= 1
}

/// Runs with distinct identities are told apart.
proof fn lemma_told(items: Seq<TextItem>)
    requires
        distinct_ids(items),
    ensures
        told(items.to_multiset()),
{
    items.to_multiset_ensures();
    assert(items.no_duplicates()) by {
        assert forall|i: int, j: int|
            0 <= i < items.len() && 0 <= j < items.len() && i != j implies items[i] != items[j] by {
            if i < j {
                assert(items[i].id@ != items[j].id@);
            } else {
                assert(items[j].id@ != items[i].id@);
            }
        }
    }
    items.lemma_multiset_has_no_duplicates();
    let runs = items.to_multiset();
    assert forall|x: TextItem| #[trigger] runs.count(x) <= 1 by {
        if runs.count(x) > 0 {
            assert(runs.contains(x));
        }
    }
    assert forall|x: TextItem, y: TextItem|
        #![trigger runs.count(x), runs.count(y)]
        runs.count(x) > 0 && runs.count(y) > 0 && x.id@ == y.id@ implies x == y by {
        assert(items.contains(x) && items.contains(y));
        let i = items.index_of(x);
        let j = items.index_of(y);
        if i < j {
            assert(items[i].id@ != items[j].id@);
        } else if j < i {
            assert(items[j].id@ != items[i].id@);
        }
    }
}

/// Two equal runs in a list are counted twice.
proof fn lemma_twice(items: Seq<TextItem>, i: int, j: int)
    requires
        0 <= i < j < items.len(),
        items[i] == items[j],
    ensures
        items.to_multiset().count(items[i]) >= 2,
{
    if items.to_multiset().count(items[i]) < 2 {
        items.to_multiset_ensures();
        let x = items[i];
        let rest = items.remove(i);
        rest.to_multiset_ensures();
        assert(rest[j - 1] == x);
        assert(rest.contains(x));
        assert(rest.to_multiset().count(x) > 0);
        assert(items.to_multiset() =~= rest.to_multiset().insert(x)) by {
            items.to_multiset_ensures();
            assert(items.remove(i).to_multiset() =~= items.to_multiset().remove(items[i]));
            assert(items.contains(x));
            assert(items.to_multiset().count(x) > 0);
        }
    }
}

/// Runs that are told apart have distinct identities.
proof fn lemma_distinct(items: Seq<TextItem>)
    requires
        told(items.to_multiset()),
    ensures
        distinct_ids(items),
{
    items.to_multiset_ensures();
    let runs = items.to_multiset();
    assert forall|i: int, j: int|
        #![trigger items[i], items[j]]
        0 <= i < j < items.len() implies items[i].id@ != items[j].id@ by {
        if items[i].id@ == items[j].id@ {
            assert(items.contains(items[i]) && items.contains(items[j]));
            assert(runs.count(items[i]) > 0 && runs.count(items[j]) > 0);
            lemma_twice(items, i, j);
        }
    }
}

/// Part of a collection that is told apart is told apart.
proof fn lemma_told_part(part: Multiset<TextItem>, runs: Multiset<TextItem>)
    requires
        told(runs),
        part.subset_of(runs),
    ensures
        told(part),
{
    assert forall|x: TextItem| #[trigger] part.count(x) <= runs.count(x) by {}
    assert forall|x: TextItem, y: TextItem|
        #![trigger part.count(x), part.count(y)]
        part.count(x) > 0 && part.count(y) > 0 && x.id@ == y.id@ implies x == y by {
        assert(runs.count(x) > 0 && runs.count(y) > 0);
    }
}

/// The source facts behind the first `n` runs.
pub open spec fn facts_upto(items: Seq<TextItem>, n: int, sources: Sources) -> Multiset<TextItem>
    decreases n,
{
    if n <= 0 {
        Multiset::empty()
    } else {
        facts_upto(items, n - 1, sources).add(source_of(sources, items[n - 1]).to_multiset())
    }
}

/// The source facts behind runs.
pub open spec fn facts(items: Seq<TextItem>, sources: Sources) -> Multiset<TextItem> {
    facts_upto(items, items.len() as int, sources)
}

/// Facts depend on the runs and on what is recorded for them only.
proof fn lemma_facts_same(a: Seq<TextItem>, b: Seq<TextItem>, n: int, s: Sources, t: Sources)
    requires
        0 <= n <= a.len(),
        n <= b.len(),
        forall|i: int| 0 <= i < n ==> source_of(s, #[trigger] a[i]) == source_of(t, b[i]),
    ensures
        facts_upto(a, n, s) == facts_upto(b, n, t),
    decreases n,
{
    if n > 0 {
        lemma_facts_same(a, b, n - 1, s, t);
        assert(source_of(s, a[n - 1]) == source_of(t, b[n - 1]));
    }
}

/// One more run brings its facts.
proof fn lemma_facts_push(items: Seq<TextItem>, x: TextItem, s: Sources)
    ensures
        facts(items.push(x), s) == facts(items, s).add(source_of(s, x).to_multiset()),
{
    lemma_facts_same(items, items.push(x), items.len() as int, s, s);
}

/// Facts of two lists add up.
proof fn lemma_facts_concat(a: Seq<TextItem>, b: Seq<TextItem>, s: Sources)
    ensures
        facts(a + b, s) == facts(a, s).add(facts(b, s)),
    decreases b.len(),
{
    if b.len() == 0 {
        assert(a + b =~= a);
        assert(facts(b, s) =~= Multiset::empty());
        assert(facts(a, s).add(facts(b, s)) =~= facts(a, s));
    } else {
        let front = b.drop_last();
        lemma_facts_concat(a, front, s);
        assert(a + b =~= (a + front).push(b.last()));
        assert(b =~= front.push(b.last()));
        lemma_facts_push(a + front, b.last(), s);
        lemma_facts_push(front, b.last(), s);
        assert(facts(a + b, s) =~= facts(a, s).add(facts(b, s)));
    }
}

/// A run that leaves takes its facts along.
proof fn lemma_facts_remove(items: Seq<TextItem>, at: int, s: Sources)
    requires
        0 <= at < items.len(),
    ensures
        facts(items, s) == facts(items.remove(at), s).add(source_of(s, items[at]).to_multiset()),
{
    let a = items.take(at);
    let b = items.skip(at + 1);
    assert(items =~= a.push(items[at]) + b);
    assert(items.remove(at) =~= a + b);
    lemma_facts_concat(a.push(items[at]), b, s);
    lemma_facts_push(a, items[at], s);
    lemma_facts_concat(a, b, s);
    assert(facts(items, s) =~= facts(items.remove(at), s).add(
        source_of(s, items[at]).to_multiset(),
    ));
}

/// Facts do not depend on the order of the runs.
proof fn lemma_facts_arrange(a: Seq<TextItem>, b: Seq<TextItem>, s: Sources)
    requires
        a.to_multiset() == b.to_multiset(),
    ensures
        facts(a, s) == facts(b, s),
    decreases a.len(),
{
    a.to_multiset_ensures();
    b.to_multiset_ensures();
    assert(a.len() == b.len());
    if a.len() > 0 {
        let x = a.last();
        assert(a.contains(x));
        assert(a.to_multiset().count(x) > 0);
        assert(b.contains(x));
        let at = b.index_of(x);
        let front = a.remove(a.len() - 1);
        assert(front.to_multiset() =~= b.remove(at).to_multiset());
        lemma_facts_arrange(front, b.remove(at), s);
        lemma_facts_remove(a, a.len() - 1, s);
        lemma_facts_remove(b, at, s);
    }
}

/// Runs without recorded facts are their own facts.
proof fn lemma_facts_plain(items: Seq<TextItem>, n: int, s: Sources)
    requires
        0 <= n <= items.len(),
        forall|i: int| 0 <= i < n ==> !s.contains_key((#[trigger] items[i]).id@),
    ensures
        facts_upto(items, n, s) == items.take(n).to_multiset(),
    decreases n,
{
    items.take(n).to_multiset_ensures();
    if n > 0 {
        lemma_facts_plain(items, n - 1, s);
        assert(items.take(n) =~= items.take(n - 1).push(items[n - 1]));
        items.take(n - 1).to_multiset_ensures();
        lemma_one(items[n - 1]);
        assert(!s.contains_key(items[n - 1].id@));
        assert(facts_upto(items, n, s) =~= items.take(n).to_multiset());
    } else {
        assert(facts_upto(items, n, s) =~= items.take(n).to_multiset());
    }
}

/// A list of one run.
proof fn lemma_one(x: TextItem)
    ensures
        seq![x].to_multiset() == Multiset::singleton(x),
        forall|m: Multiset<TextItem>| #[trigger]
            m.insert(x) == m.add(seq![x].to_multiset()),
{
    assert(seq![x] =~= Seq::empty().push(x));
    Seq::<TextItem>::empty().to_multiset_ensures();
    assert(seq![x].to_multiset() =~= Multiset::singleton(x));
    assert forall|m: Multiset<TextItem>| #[trigger]
        m.insert(x) == m.add(seq![x].to_multiset()) by {
        assert(m.insert(x) =~= m.add(seq![x].to_multiset()));
    }
}

/// Whether one of the first `n` runs has an identity.
spec fn named(items: Seq<TextItem>, n: int, id: Seq<char>) -> bool {
    exists|i: int| 0 <= i < n && (#[trigger] items[i]).id@ == id
}

/// Whether records are what earlier ones leave once the first `n` runs took theirs.
spec fn left_by(rest: Sources, s: Sources, items: Seq<TextItem>, n: int) -> bool {
    forall|id: Seq<char>|
        #![trigger rest.contains_key(id)]
        #![trigger s.contains_key(id)]
        (rest.contains_key(id) <==> s.contains_key(id) && !named(items, n, id)) && (
        rest.contains_key(id) ==> rest[id] == s[id])
}

/// Taking the facts of distinct runs gives the facts behind them, and leaves the others.
proof fn lemma_taken(parts: Seq<TextItem>, n: int, s: Sources)
    requires
        0 <= n <= parts.len(),
        distinct_ids(parts),
    ensures
        taken_sources(parts, n, s).0.to_multiset() == facts_upto(parts, n, s),
        left_by(taken_sources(parts, n, s).1, s, parts, n),
    decreases n,
{
    if n <= 0 {
        Seq::<TextItem>::empty().to_multiset_ensures();
        assert(taken_sources(parts, n, s).0.to_multiset() =~= facts_upto(parts, n, s));
    } else {
        lemma_taken(parts, n - 1, s);
        let (before, rest) = taken_sources(parts, n - 1, s);
        let x = parts[n - 1];
        assert(!named(parts, n - 1, x.id@));
        assert(rest.contains_key(x.id@) == s.contains_key(x.id@));
        assert(source_of(rest, x) == source_of(s, x));
        lemma_joined(before, source_of(rest, x));
        let after = rest.remove(x.id@);
        assert forall|id: Seq<char>|
            #![trigger after.contains_key(id)]
            #![trigger s.contains_key(id)]
            (after.contains_key(id) <==> s.contains_key(id) && !named(parts, n, id)) && (
            after.contains_key(id) ==> after[id] == s[id]) by {
            assert(rest.contains_key(id) <==> s.contains_key(id) && !named(parts, n - 1, id));
            if named(parts, n - 1, id) {
                let i = choose|i: int| 0 <= i < n - 1 && (#[trigger] parts[i]).id@ == id;
                assert(0 <= i < n && parts[i].id@ == id);
            }
            if named(parts, n, id) {
                let i = choose|i: int| 0 <= i < n && (#[trigger] parts[i]).id@ == id;
                if i < n - 1 {
                    assert(named(parts, n - 1, id));
                }
            }
            if id == x.id@ {
                assert(parts[n - 1].id@ == id);
            }
        }
    }
}

/// Lists joined hold what both hold.
proof fn lemma_joined(a: Seq<TextItem>, b: Seq<TextItem>)
    ensures
        (a + b).to_multiset() == a.to_multiset().add(b.to_multiset()),
{
    vstd::seq_lib::lemma_multiset_commutative(a, b);
}

/// The runs of fragments are those they own.
proof fn lemma_runs_owned(fs: Seq<FragmentModel>, n: int)
    requires
        0 <= n <= fs.len(),
    ensures
        runs_in(fs, n).to_multiset() == owned_upto(fs, n),
    decreases n,
{
    if n > 0 {
        lemma_runs_owned(fs, n - 1);
        lemma_joined(runs_in(fs, n - 1), fs[n - 1].items);
    } else {
        Seq::<TextItem>::empty().to_multiset_ensures();
        assert(runs_in(fs, n).to_multiset() =~= owned_upto(fs, n));
    }
}

/// Runs of earlier fragments come first.
proof fn lemma_runs_prefix(fs: Seq<FragmentModel>, n: int)
    requires
        0 < n <= fs.len(),
        distinct_ids(runs_in(fs, n)),
    ensures
        distinct_ids(runs_in(fs, n - 1)),
        distinct_ids(fs[n - 1].items),
        forall|k: int| 0 <= k < fs[n - 1].items.len() ==> !named(
            runs_in(fs, n - 1),
            runs_in(fs, n - 1).len() as int,
            (#[trigger] fs[n - 1].items[k]).id@,
        ),
{
    let a = runs_in(fs, n - 1);
    let b = fs[n - 1].items;
    let c = runs_in(fs, n);
    assert(c == a + b);
    assert forall|i: int, j: int| #![trigger a[i], a[j]] 0 <= i < j < a.len() implies a[i].id@
        != a[j].id@ by {
        assert(c[i] == a[i] && c[j] == a[j]);
    }
    assert forall|i: int, j: int| #![trigger b[i], b[j]] 0 <= i < j < b.len() implies b[i].id@
        != b[j].id@ by {
        assert(c[a.len() + i] == b[i] && c[a.len() + j] == b[j]);
    }
    assert forall|k: int| 0 <= k < b.len() implies !named(
        a,
        a.len() as int,
        (#[trigger] b[k]).id@,
    ) by {
        if named(a, a.len() as int, b[k].id@) {
            let i = choose|i: int| 0 <= i < a.len() && (#[trigger] a[i]).id@ == b[k].id@;
            assert(c[i] == a[i] && c[a.len() + k] == b[k]);
        }
    }
}

/// Restored fragments own the facts behind their runs.
proof fn lemma_restored(fs: Seq<FragmentModel>, n: int, s: Sources)
    requires
        0 <= n <= fs.len(),
        distinct_ids(runs_in(fs, n)),
    ensures
        restored_upto(fs, n, s).0.len() == n,
        owned(restored_upto(fs, n, s).0) == facts(runs_in(fs, n), s),
        left_by(restored_upto(fs, n, s).1, s, runs_in(fs, n), runs_in(fs, n).len() as int),
    decreases n,
{
    if n > 0 {
        lemma_runs_prefix(fs, n);
        lemma_restored(fs, n - 1, s);
        let (before, rest) = restored_upto(fs, n - 1, s);
        let f = fs[n - 1];
        let m = f.items.len() as int;
        let a = runs_in(fs, n - 1);
        let c = runs_in(fs, n);
        lemma_taken(f.items, m, rest);
        let (items, left) = taken_sources(f.items, m, rest);
        assert forall|k: int| 0 <= k < m implies source_of(rest, #[trigger] f.items[k])
            == source_of(s, f.items[k]) by {
            assert(rest.contains_key(f.items[k].id@) == s.contains_key(f.items[k].id@));
        }
        lemma_facts_same(f.items, f.items, m, rest, s);
        lemma_facts_concat(a, f.items, s);
        lemma_owned_push(before, FragmentModel { items, ..f });
        assert forall|id: Seq<char>|
            #![trigger left.contains_key(id)]
            #![trigger s.contains_key(id)]
            (left.contains_key(id) <==> s.contains_key(id) && !named(c, c.len() as int, id)) && (
            left.contains_key(id) ==> left[id] == s[id]) by {
            assert(rest.contains_key(id) <==> s.contains_key(id) && !named(
                a,
                a.len() as int,
                id,
            ));
            assert(left.contains_key(id) <==> rest.contains_key(id) && !named(f.items, m, id));
            if named(a, a.len() as int, id) {
                let i = choose|i: int| 0 <= i < a.len() && (#[trigger] a[i]).id@ == id;
                assert(c[i].id@ == id);
            }
            if named(f.items, m, id) {
                let i = choose|i: int| 0 <= i < m && (#[trigger] f.items[i]).id@ == id;
                assert(c[a.len() + i].id@ == id);
            }
            if named(c, c.len() as int, id) {
                let i = choose|i: int| 0 <= i < c.len() && (#[trigger] c[i]).id@ == id;
                if i < a.len() {
                    assert(a[i].id@ == id);
                } else {
                    assert(f.items[i - a.len()].id@ == id);
                }
            }
        }
    }
}

/// Lines of atoms own the facts behind the atoms once these are restored.
proof fn lemma_lines_restored(
    fs: Seq<FragmentModel>,
    items: Seq<TextItem>,
    s: Sources,
)
    requires
        owned(fs) == items.to_multiset(),
        distinct_ids(items),
    ensures
        owned(restored(fs, s)) == facts(items, s),
{
    let n = fs.len() as int;
    lemma_runs_owned(fs, n);
    lemma_told(items);
    lemma_distinct(runs_in(fs, n));
    lemma_restored(fs, n, s);
    lemma_facts_arrange(runs_in(fs, n), items, s);
}

/// Whether inline geometry stands for facts, each once.
spec fn stands_for(m: InlineModel, all: Multiset<TextItem>) -> bool {
    &&& distinct_ids(m.items)
    &&& facts(m.items, m.originals) == all
}

/// A hanging glyph that was put on its line stands for itself.
proof fn lemma_hung_sources(items: Seq<TextItem>, n: int)
    requires
        0 <= n <= items.len(),
        distinct_ids(items),
    ensures
        forall|i: int|
            0 <= i < items.len() ==> {
                let s = hung_sources(items, n);
                let id = (#[trigger] items[i]).id@;
                &&& s.contains_key(id) ==> s[id] == seq![items[i]]
                &&& s.contains_key(id) <==> i < n && hang_line(items, i) is Some
            },
    decreases n,
{
    if n > 0 {
        lemma_hung_sources(items, n - 1);
        let before = hung_sources(items, n - 1);
        let s = hung_sources(items, n);
        assert forall|i: int| 0 <= i < items.len() implies ({
            let id = (#[trigger] items[i]).id@;
            &&& s.contains_key(id) ==> s[id] == seq![items[i]]
            &&& s.contains_key(id) <==> i < n && hang_line(items, i) is Some
        }) by {
            let x = items[n - 1];
            assert(before.contains_key(items[i].id@) <==> i < n - 1 && hang_line(
                items,
                i,
            ) is Some);
            if i < n - 1 {
                assert(items[i].id@ != x.id@);
            } else if i > n - 1 {
                assert(x.id@ != items[i].id@);
            }
        }
    }
}

/// Runs with hanging glyphs put on their lines stand for the runs.
proof fn lemma_hung(items: Seq<TextItem>)
    requires
        distinct_ids(items),
    ensures
        stands_for(
            InlineModel {
                items: hung(items),
                originals: hung_sources(items, items.len() as int),
            },
            items.to_multiset(),
        ),
{
    let n = items.len() as int;
    let s = hung_sources(items, n);
    let h = hung(items);
    lemma_hung_sources(items, n);
    assert forall|i: int, j: int| #![trigger h[i], h[j]] 0 <= i < j < h.len() implies h[i].id@
        != h[j].id@ by {
        assert(items[i].id@ != items[j].id@);
    }
    let none: Sources = Map::empty();
    assert forall|i: int| 0 <= i < n implies source_of(s, #[trigger] h[i]) == source_of(
        none,
        items[i],
    ) by {
        let id = items[i].id@;
        assert(s.contains_key(id) ==> s[id] == seq![items[i]]);
    }
    lemma_facts_same(h, items, n, s, none);
    lemma_facts_plain(items, n, none);
    assert(items.take(n) =~= items);
}

/// The limits that the operators among the first `k` took of the first `n` runs.
spec fn limits_of(m: InlineModel, k: int, n: int) -> Multiset<TextItem>
    decreases k,
{
    if k <= 0 {
        Multiset::empty()
    } else if takes_limits(m, k - 1) {
        limits_of(m, k - 1, n).add(limit_side(m, k - 1, false, n).to_multiset()).add(
            limit_side(m, k - 1, true, n).to_multiset(),
        )
    } else {
        limits_of(m, k - 1, n)
    }
}

/// Whether run `i` was taken by one of the first `k` operators.
spec fn taken_by(m: InlineModel, k: int, i: int) -> bool {
    limit_owner(m, i) matches Some((op, _)) && 0 <= op < k && takes_limits(m, op)
}

/// A further run is the limit of one operator at most.
proof fn lemma_limits_step(m: InlineModel, k: int, n: int)
    requires
        0 < n <= m.items.len(),
        0 <= k,
    ensures
        limits_of(m, k, n) == (if taken_by(m, k, n - 1) {
            limits_of(m, k, n - 1).insert(m.items[n - 1])
        } else {
            limits_of(m, k, n - 1)
        }),
    decreases k,
{
    if k > 0 {
        lemma_limits_step(m, k - 1, n);
        let lower = limit_side(m, k - 1, false, n - 1);
        let upper = limit_side(m, k - 1, true, n - 1);
        lower.to_multiset_ensures();
        upper.to_multiset_ensures();
        let x = m.items[n - 1];
        if takes_limits(m, k - 1) {
            if limit_owner(m, n - 1) == Some((k - 1, false)) {
                assert(limit_side(m, k - 1, false, n) == lower.push(x));
                assert(limit_side(m, k - 1, true, n) == upper);
                assert(!taken_by(m, k - 1, n - 1));
                assert(limits_of(m, k, n) =~= limits_of(m, k, n - 1).insert(x));
            } else if limit_owner(m, n - 1) == Some((k - 1, true)) {
                assert(limit_side(m, k - 1, false, n) == lower);
                assert(limit_side(m, k - 1, true, n) == upper.push(x));
                assert(!taken_by(m, k - 1, n - 1));
                assert(limits_of(m, k, n) =~= limits_of(m, k, n - 1).insert(x));
            } else {
                assert(taken_by(m, k, n - 1) == taken_by(m, k - 1, n - 1)) by {
                    if limit_owner(m, n - 1) is Some {
                        let (op, above) = limit_owner(m, n - 1)->0;
                        assert(op != k - 1);
                    }
                }
                if taken_by(m, k, n - 1) {
                    assert(limits_of(m, k, n) =~= limits_of(m, k, n - 1).insert(x));
                }
            }
        } else {
            assert(taken_by(m, k, n - 1) == taken_by(m, k - 1, n - 1));
        }
    }
}

/// Without runs there are no limits.
proof fn lemma_limits_none(m: InlineModel, k: int)
    ensures
        limits_of(m, k, 0) == Multiset::<TextItem>::empty(),
    decreases k,
{
    if k > 0 {
        lemma_limits_none(m, k - 1);
        Seq::<TextItem>::empty().to_multiset_ensures();
        assert(limits_of(m, k, 0) =~= Multiset::<TextItem>::empty());
    }
}

/// Facts behind the first `n` runs that no operator took, and the limits among them, are all.
proof fn lemma_limits_part(m: InlineModel, n: int)
    requires
        0 <= n <= m.items.len(),
    ensures
        facts_upto(m.items, n, m.originals) == untaken_upto(m, n).add(
            limits_of(m, m.items.len() as int, n),
        ),
    decreases n,
{
    let all = m.items.len() as int;
    if n > 0 {
        lemma_limits_part(m, n - 1);
        lemma_limits_step(m, all, n);
        let x = m.items[n - 1];
        lemma_one(x);
        if is_taken(m, n - 1) {
            lemma_limit_owner(m, n - 1);
            assert(taken_by(m, all, n - 1));
            assert(!is_operator(m, n - 1));
            assert(source_of(m.originals, x) == seq![x]);
            assert(limits_of(m, all, n) == limits_of(m, all, n - 1).insert(x));
            assert(limits_of(m, all, n - 1).insert(x) == limits_of(m, all, n - 1).add(
                seq![x].to_multiset(),
            ));
            assert(facts_upto(m.items, n, m.originals) =~= untaken_upto(m, n).add(
                limits_of(m, all, n),
            ));
        } else {
            assert(!taken_by(m, all, n - 1));
            assert(facts_upto(m.items, n, m.originals) =~= untaken_upto(m, n).add(
                limits_of(m, all, n),
            ));
        }
    } else {
        lemma_limits_none(m, all);
        assert(facts_upto(m.items, n, m.originals) =~= untaken_upto(m, n).add(
            limits_of(m, all, n),
        ));
    }
}

/// The facts behind those of the first `n` runs that no operator took.
spec fn untaken_upto(m: InlineModel, n: int) -> Multiset<TextItem>
    decreases n,
{
    if n <= 0 {
        Multiset::empty()
    } else if is_taken(m, n - 1) {
        untaken_upto(m, n - 1)
    } else {
        untaken_upto(m, n - 1).add(source_of(m.originals, m.items[n - 1]).to_multiset())
    }
}

/// What is recorded for a run once the first `n` runs took their limits.
proof fn lemma_limited_sources(m: InlineModel, n: int, i: int)
    requires
        distinct_ids(m.items),
        0 <= n <= m.items.len(),
        0 <= i < m.items.len(),
    ensures
        source_of(limited_sources(m, n), m.items[i]) == (if i < n && takes_limits(m, i) {
            source_of(m.originals, m.items[i]) + limbs(m, i)
        } else {
            source_of(m.originals, m.items[i])
        }),
        is_operator(m, i) ==> limited_sources(m, n).contains_key(m.items[i].id@),
    decreases n,
{
    if n > 0 {
        lemma_limited_sources(m, n - 1, i);
        lemma_limited_sources(m, n - 1, n - 1);
        if i < n - 1 {
            assert(m.items[i].id@ != m.items[n - 1].id@);
        } else if i > n - 1 {
            assert(m.items[n - 1].id@ != m.items[i].id@);
        }
    }
}

/// The limits of an operator are those of its two sides.
proof fn lemma_limbs(m: InlineModel, op: int)
    ensures
        limbs(m, op).to_multiset() == limit_side(
            m,
            op,
            false,
            m.items.len() as int,
        ).to_multiset().add(limit_side(m, op, true, m.items.len() as int).to_multiset()),
{
    let lower = limit_side(m, op, false, m.items.len() as int);
    let upper = limit_side(m, op, true, m.items.len() as int);
    sorting_orders_and_keeps(lower, ItemOrder::Rightwards);
    sorting_orders_and_keeps(upper, ItemOrder::Rightwards);
    lemma_joined(sorted(lower, ItemOrder::Rightwards), sorted(upper, ItemOrder::Rightwards));
}

/// The first `n` runs with limits joined stand for what none took and for all their limits.
proof fn lemma_limited_upto(m: InlineModel, n: int)
    requires
        distinct_ids(m.items),
        0 <= n <= m.items.len(),
    ensures
        distinct_ids(limited_items(m, n)),
        forall|k: int|
            0 <= k < limited_items(m, n).len() ==> named(
                m.items,
                n,
                (#[trigger] limited_items(m, n)[k]).id@,
            ),
        facts(limited_items(m, n), limited(m).originals) == untaken_upto(m, n).add(
            limits_of(m, n, m.items.len() as int),
        ),
    decreases n,
{
    let s = limited(m).originals;
    let all = m.items.len() as int;
    if n > 0 {
        lemma_limited_upto(m, n - 1);
        let before = limited_items(m, n - 1);
        let after = limited_items(m, n);
        let x = m.items[n - 1];
        assert forall|k: int| 0 <= k < before.len() implies named(
            m.items,
            n,
            (#[trigger] before[k]).id@,
        ) && before[k].id@ != x.id@ by {
            assert(named(m.items, n - 1, before[k].id@));
            let i = choose|i: int|
                0 <= i < n - 1 && (#[trigger] m.items[i]).id@ == before[k].id@;
            assert(m.items[i].id@ != m.items[n - 1].id@);
            assert(0 <= i < n && m.items[i].id@ == before[k].id@);
        }
        if is_taken(m, n - 1) {
            lemma_limit_owner(m, n - 1);
            assert(!is_operator(m, n - 1));
            assert(!takes_limits(m, n - 1));
        } else {
            let parts = limbs(m, n - 1);
            let atom = if takes_limits(m, n - 1) {
                absorbing(x, parts, parts.len() as int)
            } else {
                x
            };
            lemma_absorbing_keeps(x, parts, parts.len() as int);
            assert(atom.id == x.id);
            assert(after == before.push(atom));
            assert(m.items[n - 1].id@ == atom.id@);
            lemma_limited_sources(m, all, n - 1);
            lemma_facts_push(before, atom, s);
            if takes_limits(m, n - 1) {
                assert(s.contains_key(x.id@));
                lemma_joined(source_of(m.originals, x), parts);
                lemma_limbs(m, n - 1);
                assert(facts(after, s) =~= untaken_upto(m, n).add(limits_of(m, n, all)));
            } else {
                assert(source_of(s, atom) == source_of(m.originals, x));
                assert(facts(after, s) =~= untaken_upto(m, n).add(limits_of(m, n, all)));
            }
        }
    } else {
        assert(facts(limited_items(m, n), s) =~= untaken_upto(m, n).add(limits_of(m, n, all)));
    }
}

/// What a run stands for stays recorded once it took limits.
proof fn lemma_limited(m: InlineModel, all: Multiset<TextItem>)
    requires
        stands_for(m, all),
    ensures
        stands_for(limited(m), all),
{
    let n = m.items.len() as int;
    lemma_limited_upto(m, n);
    lemma_limits_part(m, n);
}

/// The runs of the power of a fraction among the first `n`.
spec fn power_upto(items: Seq<TextItem>, bar: Bar, power: Seq<TextItem>, n: int) -> Seq<TextItem>
    decreases n,
{
    if n <= 0 {
        Seq::empty()
    } else if side_of(items[n - 1], bar) is None && in_power(items, power, n - 1) {
        power_upto(items, bar, power, n - 1).push(items[n - 1])
    } else {
        power_upto(items, bar, power, n - 1)
    }
}

/// Each of the first `n` runs lies on one side of a bar, is of the power or is left over.
proof fn lemma_bar_parts(items: Seq<TextItem>, bar: Bar, power: Seq<TextItem>, n: int)
    requires
        0 <= n <= items.len(),
    ensures
        items.take(n).to_multiset() == bar_side(items, bar, true, n).to_multiset().add(
            bar_side(items, bar, false, n).to_multiset(),
        ).add(power_upto(items, bar, power, n).to_multiset()).add(
            left_over(items, bar, power, n).to_multiset(),
        ),
    decreases n,
{
    let upper = bar_side(items, bar, true, n);
    let lower = bar_side(items, bar, false, n);
    let kept = power_upto(items, bar, power, n);
    let rest = left_over(items, bar, power, n);
    if n > 0 {
        lemma_bar_parts(items, bar, power, n - 1);
        assert(items.take(n) =~= items.take(n - 1).push(items[n - 1]));
        items.take(n - 1).to_multiset_ensures();
        bar_side(items, bar, true, n - 1).to_multiset_ensures();
        bar_side(items, bar, false, n - 1).to_multiset_ensures();
        power_upto(items, bar, power, n - 1).to_multiset_ensures();
        left_over(items, bar, power, n - 1).to_multiset_ensures();
    } else {
        assert(items.take(n) =~= Seq::empty());
        Seq::<TextItem>::empty().to_multiset_ensures();
    }
    assert(items.take(n).to_multiset() =~= upper.to_multiset().add(lower.to_multiset()).add(
        kept.to_multiset(),
    ).add(rest.to_multiset()));
}

/// Where a run with an identity is found.
proof fn lemma_found(items: Seq<TextItem>, i: int, at: int)
    requires
        distinct_ids(items),
        0 <= i <= at < items.len(),
    ensures
        position_of(items, i, items[at].id@) == Some(at),
    decreases at - i,
{
    if i < at {
        assert(items[i].id@ != items[at].id@);
        lemma_found(items, i + 1, at);
    }
}

/// What is found has the identity.
proof fn lemma_position_is(items: Seq<TextItem>, i: int, id: Seq<char>)
    requires
        0 <= i,
    ensures
        position_of(items, i, id) matches Some(at) ==> i <= at < items.len() && items[at].id@ == id,
    decreases items.len() - i,
{
    if i < items.len() && items[i].id@ != id {
        lemma_position_is(items, i + 1, id);
    }
}

/// The small runs off a bar are runs off the bar, each once.
proof fn lemma_small_runs(items: Seq<TextItem>, bar: Bar, font: int, n: int)
    requires
        0 <= n <= items.len(),
    ensures
        small_runs(items, bar, font, n).to_multiset().subset_of(items.take(n).to_multiset()),
        forall|k: int|
            0 <= k < small_runs(items, bar, font, n).len() ==> side_of(
                #[trigger] small_runs(items, bar, font, n)[k],
                bar,
            ) is None,
    decreases n,
{
    if n > 0 {
        lemma_small_runs(items, bar, font, n - 1);
        assert(items.take(n) =~= items.take(n - 1).push(items[n - 1]));
        items.take(n - 1).to_multiset_ensures();
        let before = small_runs(items, bar, font, n - 1);
        let after = small_runs(items, bar, font, n);
        before.to_multiset_ensures();
        assert forall|x: TextItem| #[trigger]
            after.to_multiset().count(x) <= items.take(n).to_multiset().count(x) by {
            assert(before.to_multiset().count(x) <= items.take(n - 1).to_multiset().count(x));
        }
    } else {
        Seq::<TextItem>::empty().to_multiset_ensures();
        assert(items.take(n) =~= Seq::empty());
    }
}

/// Powers are fragments among those considered.
proof fn lemma_powers(
    fs: Seq<FragmentModel>,
    n: int,
    items: Seq<TextItem>,
    bar: Bar,
    axis: Axis,
    top: int,
)
    requires
        0 <= n <= fs.len(),
    ensures
        forall|k: int|
            0 <= k < powers_upto(fs, n, items, bar, axis, top).len() ==> fs.contains(
                #[trigger] powers_upto(fs, n, items, bar, axis, top)[k],
            ),
    decreases n,
{
    if n > 0 {
        lemma_powers(fs, n - 1, items, bar, axis, top);
        let before = powers_upto(fs, n - 1, items, bar, axis, top);
        let after = powers_upto(fs, n, items, bar, axis, top);
        assert forall|k: int| 0 <= k < after.len() implies fs.contains(#[trigger] after[k]) by {
            if k < before.len() {
                assert(fs.contains(before[k]));
            } else {
                assert(after[k] == fs[n - 1]);
            }
        }
    }
}

/// What one fragment owns, all own.
proof fn lemma_owns_part(fs: Seq<FragmentModel>, at: int, n: int)
    requires
        0 <= at < n <= fs.len(),
    ensures
        fs[at].items.to_multiset().subset_of(owned_upto(fs, n)),
    decreases n,
{
    if at < n - 1 {
        lemma_owns_part(fs, at, n - 1);
    }
}

/// The runs of a power are runs off the bar, each once.
proof fn lemma_power_runs(items: Seq<TextItem>, bar: Bar, axis: Axis, top: int)
    requires
        distinct_ids(items),
    ensures
        ({
            let power = power_runs(items, bar, axis, top);
            &&& power.to_multiset().subset_of(items.to_multiset())
            &&& forall|k: int|
                0 <= k < power.len() ==> side_of(#[trigger] power[k], bar) is None
        }),
{
    let n = items.len() as int;
    let small = small_runs(items, bar, axis.font as int, n);
    let page = bar_page(bar);
    let ones = singles(small, small.len() as int, page);
    let fs = with_scripts(ones, page);
    let powers = powers_upto(fs, fs.len() as int, items, bar, axis, top);
    let power = power_runs(items, bar, axis, top);
    lemma_small_runs(items, bar, axis.font as int, n);
    assert(items.take(n) =~= items);
    Seq::<TextItem>::empty().to_multiset_ensures();
    if powers.len() == 1 {
        lemma_powers(fs, fs.len() as int, items, bar, axis, top);
        assert(fs.contains(powers[0]));
        let at = fs.index_of(powers[0]);
        lemma_owns_part(fs, at, fs.len() as int);
        attaching_keeps_runs(ones, page);
        lemma_singles_keep(small, small.len() as int, page);
        assert(small.take(small.len() as int) =~= small);
        assert(power.to_multiset().subset_of(small.to_multiset()));
        power.to_multiset_ensures();
        small.to_multiset_ensures();
        assert forall|k: int| 0 <= k < power.len() implies side_of(#[trigger] power[k], bar)
            is None by {
            assert(power.contains(power[k]));
            assert(power.to_multiset().count(power[k]) > 0);
            assert(small.to_multiset().count(power[k]) > 0);
            assert(small.contains(power[k]));
            let j = small.index_of(power[k]);
            assert(side_of(small[j], bar) is None);
        }
        assert forall|x: TextItem| #[trigger]
            power.to_multiset().count(x) <= items.to_multiset().count(x) by {
            assert(power.to_multiset().count(x) <= small.to_multiset().count(x));
            assert(small.to_multiset().count(x) <= items.to_multiset().count(x));
        }
    }
}

/// Runs are part of the power exactly if they are of its runs.
proof fn lemma_power_members(items: Seq<TextItem>, power: Seq<TextItem>, i: int)
    requires
        distinct_ids(items),
        power.to_multiset().subset_of(items.to_multiset()),
        0 <= i < items.len(),
    ensures
        in_power(items, power, i) <==> power.contains(items[i]),
{
    items.to_multiset_ensures();
    power.to_multiset_ensures();
    lemma_told(items);
    if in_power(items, power, i) {
        let k = choose|k: int|
            0 <= k < power.len() && position_of(items, 0, (#[trigger] power[k]).id@) == Some(i);
        lemma_position_is(items, 0, power[k].id@);
        assert(power.contains(power[k]) && items.contains(items[i]));
        assert(power.to_multiset().count(power[k]) > 0);
        assert(items.to_multiset().count(power[k]) > 0);
        assert(items.to_multiset().count(items[i]) > 0);
        assert(power[k] == items[i]);
    }
    if power.contains(items[i]) {
        let k = power.index_of(items[i]);
        lemma_found(items, 0, i);
        assert(position_of(items, 0, power[k].id@) == Some(i));
    }
}

/// How often a run is among those of the power.
proof fn lemma_power_count(
    items: Seq<TextItem>,
    bar: Bar,
    power: Seq<TextItem>,
    n: int,
    x: TextItem,
)
    requires
        distinct_ids(items),
        power.to_multiset().subset_of(items.to_multiset()),
        forall|k: int| 0 <= k < power.len() ==> side_of(#[trigger] power[k], bar) is None,
        0 <= n <= items.len(),
    ensures
        power_upto(items, bar, power, n).to_multiset().count(x) == (if power.contains(x) {
            items.take(n).to_multiset().count(x)
        } else {
            0
        }),
    decreases n,
{
    if n > 0 {
        lemma_power_count(items, bar, power, n - 1, x);
        lemma_power_members(items, power, n - 1);
        assert(items.take(n) =~= items.take(n - 1).push(items[n - 1]));
        items.take(n - 1).to_multiset_ensures();
        power_upto(items, bar, power, n - 1).to_multiset_ensures();
        if power.contains(items[n - 1]) {
            let k = power.index_of(items[n - 1]);
            assert(side_of(power[k], bar) is None);
        }
    } else {
        Seq::<TextItem>::empty().to_multiset_ensures();
        assert(items.take(n) =~= Seq::empty());
    }
}

/// The runs of the power are found among the runs.
proof fn lemma_power_found(items: Seq<TextItem>, bar: Bar, power: Seq<TextItem>)
    requires
        distinct_ids(items),
        power.to_multiset().subset_of(items.to_multiset()),
        forall|k: int| 0 <= k < power.len() ==> side_of(#[trigger] power[k], bar) is None,
    ensures
        power_upto(items, bar, power, items.len() as int).to_multiset() == power.to_multiset(),
{
    let n = items.len() as int;
    let kept = power_upto(items, bar, power, n);
    assert(items.take(n) =~= items);
    lemma_told(items);
    power.to_multiset_ensures();
    assert forall|x: TextItem| #[trigger] kept.to_multiset().count(x) == power.to_multiset().count(
        x,
    ) by {
        lemma_power_count(items, bar, power, n, x);
        assert(power.to_multiset().count(x) <= items.to_multiset().count(x) <= 1);
        assert(power.contains(x) <==> power.to_multiset().count(x) > 0);
    }
    assert(kept.to_multiset() =~= power.to_multiset());
}

/// One side of a bar as it is read has the runs of the side.
proof fn lemma_side_runs(side: Seq<TextItem>, page_width: int)
    ensures
        side_runs(side, page_width).to_multiset() == side.to_multiset(),
{
    let ones = singles(side, side.len() as int, page_width);
    let fs = with_scripts(ones, page_width);
    let ordered = sorted(fs, side_order(fs));
    lemma_singles_keep(side, side.len() as int, page_width);
    assert(side.take(side.len() as int) =~= side);
    attaching_keeps_runs(ones, page_width);
    sorting_orders_and_keeps(fs, side_order(fs));
    lemma_owned_by_multiset(fs, ordered);
    lemma_runs_owned(ordered, ordered.len() as int);
}

/// The parts of a fraction and what is left over are the runs.
proof fn lemma_fraction_parts(items: Seq<TextItem>, bar: Bar, axis: Axis, confirmed: bool)
    requires
        distinct_ids(items),
    ensures
        ({
            let (parts, power) = fraction_parts(items, bar, axis, confirmed);
            items.to_multiset() == parts.to_multiset().add(
                left_over(items, bar, power, items.len() as int).to_multiset(),
            )
        }),
{
    let n = items.len() as int;
    let (parts, power) = fraction_parts(items, bar, axis, confirmed);
    let upper = bar_side(items, bar, true, n);
    let lower = bar_side(items, bar, false, n);
    let a = side_runs(upper, bar_page(bar));
    let b = side_runs(lower, bar_page(bar));
    let rest = left_over(items, bar, power, n);
    lemma_side_runs(upper, bar_page(bar));
    lemma_side_runs(lower, bar_page(bar));
    let sides = a + b;
    if confirmed && sides.len() > 0 {
        lemma_power_runs(items, bar, axis, top_most(sides, sides.len() as int));
    } else {
        Seq::<TextItem>::empty().to_multiset_ensures();
    }
    lemma_power_found(items, bar, power);
    lemma_bar_parts(items, bar, power, n);
    assert(items.take(n) =~= items);
    lemma_joined(a, b);
    lemma_joined(sides, power);
    assert(items.to_multiset() =~= parts.to_multiset().add(rest.to_multiset()));
}

/// An atom with the identity of its first part stands for the facts behind its parts.
proof fn lemma_atom_stands(m: InlineModel, parts: Seq<TextItem>, left: Seq<TextItem>, atom: TextItem)
    requires
        distinct_ids(m.items),
        m.items.to_multiset() == parts.to_multiset().add(left.to_multiset()),
        parts.len() > 0,
        atom.id == parts[0].id,
    ensures
        ({
            let (sources, rest) = taken_sources(parts, parts.len() as int, m.originals);
            stands_for(
                InlineModel { items: left.push(atom), originals: rest.insert(atom.id@, sources) },
                facts(m.items, m.originals),
            )
        }),
{
    let (sources, rest) = taken_sources(parts, parts.len() as int, m.originals);
    let joined = parts + left;
    let p = parts.len() as int;
    lemma_joined(parts, left);
    lemma_told(m.items);
    lemma_distinct(joined);
    lemma_facts_arrange(m.items, joined, m.originals);
    lemma_facts_concat(parts, left, m.originals);
    assert forall|i: int, j: int| #![trigger parts[i], parts[j]] 0 <= i < j < p implies parts[i].id@
        != parts[j].id@ by {
        assert(joined[i] == parts[i] && joined[j] == parts[j]);
    }
    lemma_taken(parts, p, m.originals);
    let s = rest.insert(atom.id@, sources);
    assert forall|i: int| 0 <= i < left.len() implies source_of(s, #[trigger] left[i]) == source_of(
        m.originals,
        left[i],
    ) && left[i].id@ != atom.id@ by {
        let id = left[i].id@;
        assert(joined[0] == parts[0] && joined[p + i] == left[i]);
        assert(!named(parts, p, id)) by {
            if named(parts, p, id) {
                let k = choose|k: int| 0 <= k < p && (#[trigger] parts[k]).id@ == id;
                assert(joined[k] == parts[k]);
            }
        }
        assert(rest.contains_key(id) == m.originals.contains_key(id));
    }
    lemma_facts_same(left, left, left.len() as int, s, m.originals);
    lemma_facts_push(left, atom, s);
    assert(source_of(s, atom) == sources);
    assert(facts(left.push(atom), s) =~= facts(m.items, m.originals));
    let after = left.push(atom);
    assert forall|i: int, j: int|
        #![trigger after[i], after[j]]
        0 <= i < j < after.len() implies after[i].id@ != after[j].id@ by {
        if j < left.len() {
            assert(joined[p + i] == left[i] && joined[p + j] == left[j]);
        } else {
            assert(left[i].id@ != atom.id@);
        }
    }
}

/// A fraction stands for the facts behind its parts.
proof fn lemma_with_bar(m: InlineModel, bar: Bar, confirmed: bool, all: Multiset<TextItem>)
    requires
        stands_for(m, all),
    ensures
        stands_for(with_bar(m, bar, confirmed), all),
{
    reveal(with_bar);
    let n = m.items.len() as int;
    if bar_side(m.items, bar, true, n).len() > 0 && bar_side(m.items, bar, false, n).len() > 0
        && axis_of(m.items, bar, confirmed) is Some {
        let axis = axis_of(m.items, bar, confirmed)->0;
        let (parts, power) = fraction_parts(m.items, bar, axis, confirmed);
        if parts.len() > 0 {
            let atom = fraction_atom(parts, axis);
            let left = left_over(m.items, bar, power, n);
            lemma_fraction_parts(m.items, bar, axis, confirmed);
            lemma_absorbing_keeps(parts[0], parts.skip(1), parts.len() - 1);
            lemma_atom_stands(m, parts, left, atom);
        }
    }
}

/// Fractions stand for the facts behind their parts.
proof fn lemma_with_bars(
    m: InlineModel,
    bars: Seq<Bar>,
    n: int,
    confirmed: bool,
    all: Multiset<TextItem>,
)
    requires
        stands_for(m, all),
    ensures
        stands_for(with_bars(m, bars, n, confirmed), all),
    decreases n,
{
    if n > 0 {
        lemma_with_bars(m, bars, n - 1, confirmed, all);
        lemma_with_bar(with_bars(m, bars, n - 1, confirmed), bars[n - 1], confirmed, all);
    }
}

/// Inline geometry of runs stands for the runs.
proof fn lemma_prepared(items: Seq<TextItem>, rules: Seq<TableRule>, confirmed: bool)
    requires
        distinct_ids(items),
    ensures
        stands_for(prepared(items, rules, confirmed), items.to_multiset()),
{
    reveal(prepared);
    let all = items.to_multiset();
    let placed = InlineModel {
        items: hung(items),
        originals: hung_sources(items, items.len() as int),
    };
    lemma_hung(items);
    lemma_limited(placed, all);
    let bars = bars_of(rules);
    lemma_with_bars(limited(placed), bars, bars.len() as int, confirmed, all);
}

/// Restoring gives back what preparing took in: fragments that own the prepared runs own the
/// source facts once these are restored, whatever the fragments, each fact exactly once.
pub proof fn restoring_gives_back_facts(
    items: Seq<TextItem>,
    rules: Seq<TableRule>,
    confirmed: bool,
    fs: Seq<FragmentModel>,
)
    requires
        distinct_ids(items),
        owned(fs) == prepared(items, rules, confirmed).items.to_multiset(),
    ensures
        owned(restored(fs, prepared(items, rules, confirmed).originals)) == items.to_multiset(),
{
    lemma_prepared(items, rules, confirmed);
    let m = prepared(items, rules, confirmed);
    lemma_lines_restored(fs, m.items, m.originals);
}

/// Assembled lines of inline geometry own the runs it was made of.
proof fn lemma_prepared_lines(
    items: Seq<TextItem>,
    config: FusionConfig,
    rules: Seq<TableRule>,
    confirmed: bool,
)
    requires
        distinct_ids(items),
        assembled(prepared(items, rules, confirmed).items, config) is Ok,
    ensures
        ({
            let m = prepared(items, rules, confirmed);
            owned(restored(assembled(m.items, config)->Ok_0, m.originals)) == items.to_multiset()
        }),
{
    let m = prepared(items, rules, confirmed);
    assembly_keeps_runs(m.items, config);
    restoring_gives_back_facts(items, rules, confirmed, assembled(m.items, config)->Ok_0);
}

/// Lines beside rules own every source fact exactly once, though fractions, operators and
/// hanging glyphs are ordered as atoms.
pub proof fn ruled_lines_keep_facts(
    items: Seq<TextItem>,
    config: FusionConfig,
    rules: Seq<TableRule>,
)
    requires
        distinct_ids(items),
        ruled_lines(items, config, rules) is Ok,
    ensures
        owned(ruled_lines(items, config, rules)->Ok_0) == items.to_multiset(),
{
    reveal(ruled_lines);
    lemma_prepared_lines(items, config, rules, false);
}

/// The runs of prose and of the first `r` formulas among the first `n` fragments.
spec fn claimed(fs: Seq<FragmentModel>, regions: Seq<FormulaRegion>, r: int, n: int) -> Multiset<
    TextItem,
>
    decreases r,
{
    if r <= 0 {
        formula_runs(fs, regions, None, n).to_multiset()
    } else {
        claimed(fs, regions, r - 1, n).add(
            formula_runs(fs, regions, Some(r - 1), n).to_multiset(),
        )
    }
}

/// The formula of a fragment is one of the regions.
proof fn lemma_formula_of(fs: Seq<FragmentModel>, regions: Seq<FormulaRegion>, i: int)
    ensures
        formula_of(fs, regions, i) matches Some(r) ==> 0 <= r < regions.len(),
    decreases i32::MAX - fs[i].metrics.font_size,
{
    if fs[i].items.len() > 0 {
        lemma_region(fs[i].items[0], regions, regions.len() as int);
    }
    if owner_of(fs, i) is Some {
        let p = owner_of(fs, i)->0;
        if fs[p].metrics.font_size > fs[i].metrics.font_size {
            lemma_formula_of(fs, regions, p);
        }
    }
}

/// The region of a run is one of those considered.
proof fn lemma_region(item: TextItem, regions: Seq<FormulaRegion>, n: int)
    ensures
        region_upto(item, regions, n) matches Some(r) ==> 0 <= r < n,
    decreases n,
{
    if n > 0 {
        lemma_region(item, regions, n - 1);
    }
}

/// A further fragment belongs to the prose or to one formula.
proof fn lemma_claimed_step(fs: Seq<FragmentModel>, regions: Seq<FormulaRegion>, r: int, n: int)
    requires
        0 < n <= fs.len(),
        0 <= r,
    ensures
        claimed(fs, regions, r, n) == (match formula_of(fs, regions, n - 1) {
            None => claimed(fs, regions, r, n - 1).add(fs[n - 1].items.to_multiset()),
            Some(q) => if 0 <= q < r {
                claimed(fs, regions, r, n - 1).add(fs[n - 1].items.to_multiset())
            } else {
                claimed(fs, regions, r, n - 1)
            },
        }),
    decreases r,
{
    let own = if r <= 0 {
        None
    } else {
        Some(r - 1)
    };
    lemma_joined(formula_runs(fs, regions, own, n - 1), fs[n - 1].items);
    if r > 0 {
        lemma_claimed_step(fs, regions, r - 1, n);
        let more = fs[n - 1].items.to_multiset();
        match formula_of(fs, regions, n - 1) {
            None => {
                assert(claimed(fs, regions, r, n) =~= claimed(fs, regions, r, n - 1).add(more));
            },
            Some(q) => {
                if 0 <= q < r {
                    assert(claimed(fs, regions, r, n) =~= claimed(fs, regions, r, n - 1).add(
                        more,
                    ));
                }
            },
        }
    }
}

/// Prose and formulas share the fragments out.
proof fn lemma_claimed_all(fs: Seq<FragmentModel>, regions: Seq<FormulaRegion>, n: int)
    requires
        0 <= n <= fs.len(),
    ensures
        claimed(fs, regions, regions.len() as int, n) == owned_upto(fs, n),
    decreases n,
{
    if n > 0 {
        lemma_claimed_all(fs, regions, n - 1);
        lemma_claimed_step(fs, regions, regions.len() as int, n);
        lemma_formula_of(fs, regions, n - 1);
    } else {
        lemma_claimed_none(fs, regions, regions.len() as int);
    }
}

/// Without fragments there is nothing to claim.
proof fn lemma_claimed_none(fs: Seq<FragmentModel>, regions: Seq<FormulaRegion>, r: int)
    ensures
        claimed(fs, regions, r, 0) == Multiset::<TextItem>::empty(),
    decreases r,
{
    Seq::<TextItem>::empty().to_multiset_ensures();
    if r > 0 {
        lemma_claimed_none(fs, regions, r - 1);
    }
    assert(claimed(fs, regions, r, 0) =~= Multiset::<TextItem>::empty());
}

/// Whether a collection holds a run with an identity.
spec fn holds_id(runs: Multiset<TextItem>, id: Seq<char>) -> bool {
    exists|x: TextItem| #[trigger] runs.count(x) > 0 && x.id@ == id
}

/// Whether inline geometry stands for facts of which nothing else is recorded.
spec fn covers(m: InlineModel, all: Multiset<TextItem>) -> bool {
    &&& stands_for(m, all)
    &&& forall|k: int| 0 <= k < m.items.len() ==> holds_id(all, (#[trigger] m.items[k]).id@)
}

/// A row that joins stands for its runs.
proof fn lemma_row_joins(
    m: InlineModel,
    atom: TextItem,
    runs: Seq<TextItem>,
    sofar: Multiset<TextItem>,
)
    requires
        covers(m, sofar),
        told(sofar.add(runs.to_multiset())),
        runs.len() > 0,
        atom.id == runs[0].id,
    ensures
        covers(
            InlineModel {
                items: m.items.push(atom),
                originals: m.originals.insert(atom.id@, runs),
            },
            sofar.add(runs.to_multiset()),
        ),
{
    let all = sofar.add(runs.to_multiset());
    let s = m.originals.insert(atom.id@, runs);
    let after = m.items.push(atom);
    runs.to_multiset_ensures();
    assert(runs.contains(runs[0]));
    assert(runs.to_multiset().count(runs[0]) > 0);
    assert(all.count(runs[0]) == sofar.count(runs[0]) + runs.to_multiset().count(runs[0]));
    assert forall|k: int| 0 <= k < m.items.len() implies (#[trigger] m.items[k]).id@ != atom.id@
        && holds_id(all, m.items[k].id@) by {
        assert(holds_id(sofar, m.items[k].id@));
        let x = choose|x: TextItem| #[trigger] sofar.count(x) > 0 && x.id@ == m.items[k].id@;
        assert(all.count(x) > 0);
        if m.items[k].id@ == atom.id@ {
            assert(all.count(runs[0]) > 0);
            assert(x == runs[0]);
        }
    }
    assert forall|k: int| 0 <= k < m.items.len() implies source_of(s, #[trigger] m.items[k])
        == source_of(m.originals, m.items[k]) by {
        assert(m.items[k].id@ != atom.id@);
    }
    lemma_facts_same(m.items, m.items, m.items.len() as int, s, m.originals);
    lemma_facts_push(m.items, atom, s);
    assert forall|i: int, j: int|
        #![trigger after[i], after[j]]
        0 <= i < j < after.len() implies after[i].id@ != after[j].id@ by {
        if j < m.items.len() {
            assert(m.items[i].id@ != m.items[j].id@);
        } else {
            assert(m.items[i].id@ != atom.id@);
        }
    }
    assert forall|k: int| 0 <= k < after.len() implies holds_id(all, (#[trigger] after[k]).id@) by {
        if k < m.items.len() {
            assert(holds_id(all, m.items[k].id@));
        } else {
            assert(all.count(runs[0]) > 0);
        }
    }
}

/// Rows that join stand for their runs.
proof fn lemma_rows_join(
    m: InlineModel,
    rows: Seq<FragmentModel>,
    n: int,
    prose: Seq<TextItem>,
    inline: bool,
    sofar: Multiset<TextItem>,
)
    requires
        covers(m, sofar),
        0 <= n <= rows.len(),
        told(sofar.add(owned_upto(rows, n))),
    ensures
        covers(with_rows(m, rows, n, prose, inline), sofar.add(owned_upto(rows, n))),
    decreases n,
{
    if n > 0 {
        let less = sofar.add(owned_upto(rows, n - 1));
        let all = sofar.add(owned_upto(rows, n));
        let row = rows[n - 1];
        assert(all =~= less.add(row.items.to_multiset()));
        lemma_told_part(less, all);
        lemma_rows_join(m, rows, n - 1, prose, inline, sofar);
        row.items.to_multiset_ensures();
        if row.items.len() > 0 {
            let before = with_rows(m, rows, n - 1, prose, inline);
            let atom = row_atom(row, prose, inline);
            lemma_absorbing_keeps(row.items[0], row.items.skip(1), row.items.len() - 1);
            lemma_row_joins(before, atom, row.items, less);
        } else {
            assert(row.items.to_multiset() =~= Multiset::empty());
            assert(all =~= less);
        }
    } else {
        assert(sofar.add(owned_upto(rows, n)) =~= sofar);
    }
}

/// Prose with the first `n` formulas stands for the runs of both.
proof fn lemma_formulas_join(
    fs: Seq<FragmentModel>,
    regions: Seq<FormulaRegion>,
    n: int,
    config: FusionConfig,
    rules: Seq<TableRule>,
)
    requires
        0 <= n,
        told(claimed(fs, regions, n, fs.len() as int)),
        with_formulas(fs, regions, n, config, rules) is Ok,
    ensures
        covers(
            with_formulas(fs, regions, n, config, rules)->Ok_0,
            claimed(fs, regions, n, fs.len() as int),
        ),
    decreases n,
{
    reveal_with_fuel(with_formulas, 2);
    let prose = formula_runs(fs, regions, None, fs.len() as int);
    let all = claimed(fs, regions, n, fs.len() as int);
    if n <= 0 {
        lemma_distinct(prose);
        let none: Sources = Map::empty();
        lemma_facts_plain(prose, prose.len() as int, none);
        assert(prose.take(prose.len() as int) =~= prose);
        prose.to_multiset_ensures();
        assert forall|k: int| 0 <= k < prose.len() implies holds_id(
            all,
            (#[trigger] prose[k]).id@,
        ) by {
            assert(prose.contains(prose[k]));
            assert(all.count(prose[k]) > 0);
        }
    } else {
        let sofar = claimed(fs, regions, n - 1, fs.len() as int);
        let items = formula_runs(fs, regions, Some(n - 1), fs.len() as int);
        assert(all == sofar.add(items.to_multiset()));
        lemma_told_part(sofar, all);
        lemma_told_part(items.to_multiset(), all);
        lemma_formulas_join(fs, regions, n - 1, config, rules);
        let before = with_formulas(fs, regions, n - 1, config, rules)->Ok_0;
        if items.len() > 0 {
            let rows = formula_rows(items, config, rules)->Ok_0;
            assert(owned(rows) == items.to_multiset()) by {
                reveal(formula_rows);
                lemma_distinct(items);
                lemma_prepared_lines(items, config, rules, true);
            }
            lemma_rows_join(
                before,
                rows,
                rows.len() as int,
                prose,
                regions[n - 1].inline,
                sofar,
            );
        } else {
            items.to_multiset_ensures();
            assert(items.to_multiset() =~= Multiset::empty());
            assert(all =~= sofar);
        }
    }
}

/// Lines around formulas own every source fact exactly once, though each row of a formula is
/// ordered as one atom.
pub proof fn formula_lines_keep_facts(
    items: Seq<TextItem>,
    config: FusionConfig,
    rules: Seq<TableRule>,
    regions: Seq<FormulaRegion>,
)
    requires
        distinct_ids(items),
        formula_lines(items, config, rules, regions) is Ok,
    ensures
        owned(formula_lines(items, config, rules, regions)->Ok_0) == items.to_multiset(),
{
    reveal(formula_lines);
    if regions.len() == 0 {
        ruled_lines_keep_facts(items, config, rules);
    } else {
        let width = seen_width(items);
        let r = regions.len() as int;
        let fs = singles(items, items.len() as int, width);
        lemma_singles_keep(items, items.len() as int, width);
        assert(items.take(items.len() as int) =~= items);
        lemma_claimed_all(fs, regions, fs.len() as int);
        lemma_told(items);
        lemma_formulas_join(fs, regions, r, config, rules);
        let m = with_formulas(fs, regions, r, config, rules)->Ok_0;
        ruled_lines_keep_facts(m.items, config, rules);
        lemma_lines_restored(ruled_lines(m.items, config, rules)->Ok_0, m.items, m.originals);
    }
}

} // verus!
