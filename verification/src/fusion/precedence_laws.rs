//! What holds of untangled constraints and of the order they leave.

use vstd::prelude::*;
use vstd::set_lib::*;

use super::precedence::{
    count_set, cyclic, given_up, in_cycle, knotted, leads_knot, leaves, lemma_count_less,
    lemma_given_up, lemma_link_reaches, lemma_reaches_chains, lemma_reaches_self, lemma_weakest,
    links_within, next_upto, numbers, path, placed_from, reaches, ready, tied, untangled, weakest,
    without, Link,
};

verus! {

/// The constraints in force that may never be given up.
pub open spec fn strong_only(links: Seq<Link>, active: Seq<bool>) -> Seq<bool> {
    Seq::new(active.len(), |e: int| active[e] && links[e].strong)
}

/// Whether no constraint in force is part of a cycle.
pub open spec fn acyclic(links: Seq<Link>, active: Seq<bool>) -> bool {
    forall|e: int| 0 <= e < links.len() ==> !#[trigger] in_cycle(links, active, e)
}

/// More constraints in force lead at least as far.
proof fn lemma_path_subset(
    links: Seq<Link>,
    less: Seq<bool>,
    more: Seq<bool>,
    a: int,
    b: int,
    k: nat,
)
    requires
        forall|e: int| 0 <= e < links.len() && #[trigger] less[e] ==> more[e],
        path(links, less, a, b, k),
    ensures
        path(links, more, a, b, k),
    decreases k,
{
    if a != b {
        let e = choose|e: int| #[trigger]
            leaves(links, less, e, a) && path(links, less, links[e].to as int, b, (k - 1) as nat);
        assert(less[e] && more[e]);
        lemma_path_subset(links, less, more, links[e].to as int, b, (k - 1) as nat);
        assert(leaves(links, more, e, a));
    }
}

/// A cycle stays one when more constraints are in force.
proof fn lemma_cycle_subset(links: Seq<Link>, less: Seq<bool>, more: Seq<bool>, e: int)
    requires
        forall|f: int| 0 <= f < links.len() && #[trigger] less[f] ==> more[f],
        in_cycle(links, less, e),
    ensures
        in_cycle(links, more, e),
{
    let k = choose|k: nat| path(links, less, links[e].to as int, links[e].from as int, k);
    lemma_path_subset(links, less, more, links[e].to as int, links[e].from as int, k);
    assert(less[e] && more[e]);
}

/// Some node leads the knot of any node on a cycle.
proof fn lemma_leader_exists(links: Seq<Link>, active: Seq<bool>, v: int) -> (u: int)
    requires
        0 <= v,
        cyclic(links, active, v),
    ensures
        0 <= u <= v,
        leads_knot(links, active, u),
        tied(links, active, u, v),
    decreases v,
{
    if leads_knot(links, active, v) {
        lemma_reaches_self(links, active, v);
        v
    } else {
        let w = choose|w: int| 0 <= w < v && #[trigger] tied(links, active, w, v);
        let e = choose|e: int| 0 <= e < links.len() && #[trigger] knotted(links, active, e, v);
        lemma_reaches_chains(links, active, links[e].from as int, v, w);
        lemma_reaches_chains(links, active, w, v, links[e].from as int);
        assert(knotted(links, active, e, w));
        let u = lemma_leader_exists(links, active, w);
        lemma_reaches_chains(links, active, u, w, v);
        lemma_reaches_chains(links, active, v, w, u);
        u
    }
}

/// A round without anything given up has no node that leads a knot.
proof fn lemma_no_leader(links: Seq<Link>, active: Seq<bool>, n: int, v: int)
    requires
        given_up(links, active, n) == Some(Seq::<int>::empty()),
        0 <= v < n,
    ensures
        !leads_knot(links, active, v),
    decreases n,
{
    let before = given_up(links, active, n - 1)->0;
    if leads_knot(links, active, n - 1) {
        assert(before.push(weakest(links, active, n - 1)->0).len() > 0);
    } else if v < n - 1 {
        lemma_no_leader(links, active, n - 1, v);
    }
}

/// A round in which nothing is given up leaves no cycle.
proof fn lemma_quiet_round(links: Seq<Link>, active: Seq<bool>, n: int)
    requires
        links_within(links, n),
        given_up(links, active, n) == Some(Seq::<int>::empty()),
    ensures
        acyclic(links, active),
{
    assert forall|e: int| 0 <= e < links.len() implies !#[trigger] in_cycle(links, active, e) by {
        if in_cycle(links, active, e) {
            let v = links[e].from as int;
            lemma_reaches_self(links, active, v);
            assert(knotted(links, active, e, v));
            let u = lemma_leader_exists(links, active, v);
            lemma_no_leader(links, active, n, u);
        }
    }
}

/// What untangling leaves: strong constraints stay in force, nothing is brought
/// into force, everything given up was in force and weak, and no cycle is left.
pub proof fn untangling_removes_cycles(
    links: Seq<Link>,
    active: Seq<bool>,
    removed: Seq<int>,
    n: int,
)
    requires
        links_within(links, n),
        active.len() == links.len(),
        untangled(links, active, removed, n) is Some,
    ensures
        ({
            let (left, gone) = untangled(links, active, removed, n)->0;
            &&& left.len() == links.len()
            &&& acyclic(links, left)
            &&& forall|e: int|
                0 <= e < links.len() && (#[trigger] links[e]).strong ==> left[e] == active[e]
            &&& forall|e: int| 0 <= e < links.len() && #[trigger] left[e] ==> active[e]
            &&& removed.is_prefix_of(gone)
            &&& forall|i: int|
                removed.len() <= i < gone.len() ==> ({
                    let e = #[trigger] gone[i];
                    0 <= e < links.len() && !links[e].strong && active[e] && !left[e]
                })
            &&& forall|e: int|
                0 <= e < links.len() && #[trigger] active[e] && !left[e] ==> exists|i: int|
                    removed.len() <= i < gone.len() && gone[i] == e
        }),
    decreases count_set(active, active.len() as int),
{
    let round = given_up(links, active, n)->0;
    let next = without(active, round);
    if round.len() == 0 {
        assert(round =~= Seq::<int>::empty());
        lemma_quiet_round(links, active, n);
    } else {
        lemma_given_up_all(links, active, n);
        untangling_removes_cycles(links, next, removed + round, n);
        let (left, gone) = untangled(links, active, removed, n)->0;
        assert forall|e: int| 0 <= e < links.len() && (#[trigger] links[e]).strong implies left[e]
            == active[e] by {
            if active[e] && round.contains(e) {
                let i = round.index_of(e);
                assert(!links[round[i]].strong);
            }
            assert(next[e] == active[e]);
        }
        assert forall|e: int| 0 <= e < links.len() && #[trigger] left[e] implies active[e] by {
            assert(next[e]);
        }
        assert forall|i: int| removed.len() <= i < gone.len() implies ({
            let e = #[trigger] gone[i];
            0 <= e < links.len() && !links[e].strong && active[e] && !left[e]
        }) by {
            let e = gone[i];
            if i < removed.len() + round.len() {
                assert((removed + round)[i] == e);
                assert(round[i - removed.len()] == e);
                assert(round.contains(e));
                assert(!next[e]);
                if left[e] {
                    assert(next[e]);
                }
            } else {
                assert(next[e]);
            }
        }
        assert(removed.is_prefix_of(gone)) by {
            assert((removed + round).is_prefix_of(gone));
            assert(gone.take(removed.len() as int) =~= removed);
        }
        assert forall|e: int| 0 <= e < links.len() && #[trigger] active[e] && !left[e] implies exists|
            i: int,
        |
            removed.len() <= i < gone.len() && gone[i] == e by {
            if next[e] {
                let i = choose|i: int|
                    (removed + round).len() <= i < gone.len() && gone[i] == e;
                assert(gone[i] == e);
            } else {
                let k = round.index_of(e);
                assert((removed + round)[removed.len() + k] == e);
                assert(gone[removed.len() + k] == e);
            }
        }
    }
}

/// Everything given up in a round is in force, on a cycle, and not strong.
proof fn lemma_given_up_all(links: Seq<Link>, active: Seq<bool>, n: int)
    requires
        given_up(links, active, n) is Some,
    ensures
        forall|i: int|
            0 <= i < given_up(links, active, n)->0.len() ==> ({
                let e = #[trigger] given_up(links, active, n)->0[i];
                0 <= e < links.len() && !links[e].strong && in_cycle(links, active, e)
            }),
{
    if n >= 0 {
        lemma_given_up(links, active, n);
    }
}

/// A path inside a knot of strong constraints uses only strong ones.
proof fn lemma_strong_path(links: Seq<Link>, active: Seq<bool>, x: int, b: int, v: int, k: nat)
    requires
        active.len() == links.len(),
        path(links, active, x, b, k),
        reaches(links, active, b, x),
        tied(links, active, b, v),
        forall|e: int|
            0 <= e < links.len() && #[trigger] knotted(links, active, e, v) ==> links[e].strong,
    ensures
        path(links, strong_only(links, active), x, b, k),
    decreases k,
{
    if x != b {
        let e = choose|e: int| #[trigger]
            leaves(links, active, e, x) && path(
                links,
                active,
                links[e].to as int,
                b,
                (k - 1) as nat,
            );
        let y = links[e].to as int;
        lemma_link_reaches(links, active, e);
        lemma_reaches_chains(links, active, b, x, y);
        assert(reaches(links, active, y, b));
        lemma_reaches_chains(links, active, y, b, x);
        assert(reaches(links, active, x, b));
        lemma_reaches_chains(links, active, x, b, v);
        lemma_reaches_chains(links, active, v, b, x);
        assert(knotted(links, active, e, v));
        lemma_strong_path(links, active, y, b, v, (k - 1) as nat);
        assert(leaves(links, strong_only(links, active), e, x));
    }
}

/// A knot with nothing to give up is a cycle of strong constraints.
proof fn lemma_stuck_round(links: Seq<Link>, active: Seq<bool>, n: int) -> (e: int)
    requires
        active.len() == links.len(),
        given_up(links, active, n) is None,
    ensures
        in_cycle(links, strong_only(links, active), e),
    decreases n,
{
    if given_up(links, active, n - 1) is None {
        lemma_stuck_round(links, active, n - 1)
    } else {
        let v = n - 1;
        lemma_weakest(links, active, v, links.len() as int);
        let e = choose|e: int| 0 <= e < links.len() && #[trigger] knotted(links, active, e, v);
        let a = links[e].to as int;
        let b = links[e].from as int;
        let k = choose|k: nat| path(links, active, a, b, k);
        lemma_link_reaches(links, active, e);
        lemma_strong_path(links, active, a, b, v, k);
        e
    }
}

/// Untangling fails exactly when the strong constraints alone contain a cycle.
pub proof fn irreducible_iff_strong_cycle(
    links: Seq<Link>,
    active: Seq<bool>,
    removed: Seq<int>,
    n: int,
)
    requires
        links_within(links, n),
        active.len() == links.len(),
    ensures
        untangled(links, active, removed, n) is None <==> !acyclic(
            links,
            strong_only(links, active),
        ),
    decreases count_set(active, active.len() as int),
{
    match given_up(links, active, n) {
        None => {
            let e = lemma_stuck_round(links, active, n);
            assert(in_cycle(links, strong_only(links, active), e));
        },
        Some(round) => {
            let next = without(active, round);
            if round.len() == 0 {
                untangling_removes_cycles(links, active, removed, n);
                assert forall|e: int| 0 <= e < links.len() implies !#[trigger] in_cycle(
                    links,
                    strong_only(links, active),
                    e,
                ) by {
                    if in_cycle(links, strong_only(links, active), e) {
                        lemma_cycle_subset(links, strong_only(links, active), active, e);
                    }
                }
            } else {
                lemma_given_up_all(links, active, n);
                let e0 = round[0];
                assert(round.contains(e0));
                assert(active[e0] && !next[e0]);
                lemma_count_less(active, next, active.len() as int);
                assert(strong_only(links, next) =~= strong_only(links, active)) by {
                    assert forall|e: int| 0 <= e < links.len() implies strong_only(links, next)[e]
                        == strong_only(links, active)[e] by {
                        if round.contains(e) {
                            let i = round.index_of(e);
                            assert(!links[round[i]].strong);
                        }
                    }
                }
                irreducible_iff_strong_cycle(links, next, removed + round, n);
            }
        },
    }
}

/// Whether every placed node is one of `n`, placed once, after everything that
/// must come before it.
pub open spec fn well_placed(
    links: Seq<Link>,
    active: Seq<bool>,
    placed: Seq<usize>,
    n: int,
) -> bool {
    &&& placed.no_duplicates()
    &&& forall|i: int| 0 <= i < placed.len() ==> #[trigger] placed[i] < n
    &&& forall|i: int, e: int|
        #![trigger placed[i], links[e]]
        0 <= i < placed.len() && 0 <= e < links.len() && active[e] && links[e].to == placed[i]
            ==> exists|j: int| 0 <= j < i && placed[j] == links[e].from
}

/// A node that comes next is ready.
proof fn lemma_next_ready(
    links: Seq<Link>,
    active: Seq<bool>,
    ranks: Seq<usize>,
    placed: Seq<usize>,
    n: int,
)
    requires
        0 <= n <= usize::MAX,
    ensures
        next_upto(links, active, ranks, placed, n) matches Some(v) ==> v < n && ready(
            links,
            active,
            placed,
            v as int,
        ),
        forall|v: int|
            0 <= v < n && #[trigger] ready(links, active, placed, v) ==> (next_upto(
                links,
                active,
                ranks,
                placed,
                n,
            ) is Some),
    decreases n,
{
    if n > 0 {
        lemma_next_ready(links, active, ranks, placed, n - 1);
    }
}

/// The nodes not placed from which `v` can be reached.
spec fn waiting(links: Seq<Link>, active: Seq<bool>, placed: Seq<usize>, n: int, v: int) -> Set<int> {
    set_int_range(0, n).filter(
        |u: int| !placed.contains(u as usize) && reaches(links, active, u, v),
    )
}

/// Without cycles some node is ready as long as one is not placed.
proof fn lemma_some_ready(
    links: Seq<Link>,
    active: Seq<bool>,
    placed: Seq<usize>,
    n: int,
    v: int,
) -> (u: int)
    requires
        links_within(links, n),
        active.len() == links.len(),
        acyclic(links, active),
        0 <= v < n <= usize::MAX,
        !placed.contains(v as usize),
    ensures
        0 <= u < n,
        ready(links, active, placed, u),
    decreases waiting(links, active, placed, n, v).len(),
{
    if ready(links, active, placed, v) {
        v
    } else {
        let e = choose|e: int|
            0 <= e < links.len() && active[e] && (#[trigger] links[e]).to == v && !placed.contains(
                links[e].from,
            );
        let u = links[e].from as int;
        let all = waiting(links, active, placed, n, v);
        let some = waiting(links, active, placed, n, u);
        lemma_int_range(0, n);
        lemma_link_reaches(links, active, e);
        assert(some.subset_of(all)) by {
            assert forall|w: int| some.contains(w) implies all.contains(w) by {
                lemma_reaches_chains(links, active, w, u, v);
            }
        }
        lemma_reaches_self(links, active, v);
        assert(all.contains(v));
        assert(!some.contains(v)) by {
            if some.contains(v) {
                assert(in_cycle(links, active, e));
            }
        }
        assert(all.finite() && some.finite());
        vstd::set_lib::lemma_len_subset(some, all.remove(v));
        lemma_some_ready(links, active, placed, n, u)
    }
}

/// Some node is not placed while fewer than all are.
proof fn lemma_some_open(placed: Seq<usize>, n: int) -> (v: int)
    requires
        placed.no_duplicates(),
        forall|i: int| 0 <= i < placed.len() ==> #[trigger] placed[i] < n,
        placed.len() < n <= usize::MAX,
    ensures
        0 <= v < n,
        !placed.contains(v as usize),
{
    if forall|v: int| 0 <= v < n ==> #[trigger] placed.contains(v as usize) {
        let whole = set_int_range(0, n);
        lemma_int_range(0, n);
        let got = numbers(placed).to_set();
        assert forall|v: int| whole.contains(v) implies got.contains(v) by {
            assert(placed.contains(v as usize));
            let k = placed.index_of(v as usize);
            assert(numbers(placed)[k] == v);
            assert(numbers(placed).contains(v));
        }
        vstd::seq_lib::seq_to_set_is_finite(numbers(placed));
        vstd::set_lib::lemma_len_subset(whole, got);
        numbers(placed).lemma_cardinality_of_set();
        assert(false);
    }
    choose|v: int| 0 <= v < n && !#[trigger] placed.contains(v as usize)
}

/// Without cycles every node is placed, exactly once, after everything that
/// must come before it.
pub proof fn placement_is_complete(
    links: Seq<Link>,
    active: Seq<bool>,
    ranks: Seq<usize>,
    placed: Seq<usize>,
    n: int,
)
    requires
        links_within(links, n),
        active.len() == links.len(),
        acyclic(links, active),
        0 <= n <= usize::MAX,
        placed.len() <= n,
        well_placed(links, active, placed, n),
    ensures
        ({
            let order = placed_from(links, active, ranks, placed, n);
            order.len() == n && well_placed(links, active, order, n)
        }),
    decreases n - placed.len(),
{
    if placed.len() < n {
        let v = lemma_some_open(placed, n);
        let u = lemma_some_ready(links, active, placed, n, v);
        lemma_next_ready(links, active, ranks, placed, n);
        let w = next_upto(links, active, ranks, placed, n)->0;
        let next = placed.push(w);
        assert(well_placed(links, active, next, n)) by {
            assert forall|i: int, e: int|
                #![trigger next[i], links[e]]
                0 <= i < next.len() && 0 <= e < links.len() && active[e] && links[e].to
                    == next[i] implies exists|j: int| 0 <= j < i && next[j] == links[e].from by {
                if i < placed.len() {
                    assert(placed[i] == next[i]);
                    let j = choose|j: int| 0 <= j < i && placed[j] == links[e].from;
                    assert(next[j] == links[e].from);
                } else {
                    assert(placed.contains(links[e].from));
                    let j = placed.index_of(links[e].from);
                    assert(next[j] == links[e].from);
                }
            }
            assert(next.no_duplicates()) by {
                assert forall|i: int, j: int|
                    0 <= i < next.len() && 0 <= j < next.len() && i != j implies next[i]
                    != next[j] by {
                    if i < placed.len() && j < placed.len() {
                    } else if i < placed.len() {
                        assert(placed.contains(placed[i]));
                    } else if j < placed.len() {
                        assert(placed.contains(placed[j]));
                    }
                }
            }
        }
        placement_is_complete(links, active, ranks, next, n);
    }
}

} // verus!
