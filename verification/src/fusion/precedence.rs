//! Precedence constraints between numbered nodes: which weak ones are given up
//! so that no cycle is left, and the order the others leave.

use vstd::prelude::*;

verus! {

/// One constraint: `from` comes before `to`.
#[derive(Debug, Clone, Copy, PartialEq, Eq, Structural)]
pub struct Link {
    pub from: usize,
    pub to: usize,
    /// Whether the constraint may never be given up.
    pub strong: bool,
    /// Constraints of less weight are given up first,
    pub weight: u32,
    /// then those of lower rank, then those listed first.
    pub rank: u8,
}

/// Whether every constraint is between two of `n` nodes.
pub open spec fn links_within(links: Seq<Link>, n: int) -> bool {
    forall|e: int| 0 <= e < links.len() ==> (#[trigger] links[e]).from < n && links[e].to < n
}

/// Whether constraint `e` is in force and leads out of `a`.
pub open spec fn leaves(links: Seq<Link>, active: Seq<bool>, e: int, a: int) -> bool {
    0 <= e < links.len() && active[e] && links[e].from == a
}

/// Whether at most `k` constraints in force lead from `a` to `b`.
pub open spec fn path(links: Seq<Link>, active: Seq<bool>, a: int, b: int, k: nat) -> bool
    decreases k,
{
    a == b || (k > 0 && exists|e: int| #[trigger]
        leaves(links, active, e, a) && path(links, active, links[e].to as int, b, (k - 1) as nat))
}

/// Whether constraints in force lead from `a` to `b`, or the two are one.
pub open spec fn reaches(links: Seq<Link>, active: Seq<bool>, a: int, b: int) -> bool {
    exists|k: nat| path(links, active, a, b, k)
}

/// Whether two nodes must each come before the other, or are one.
pub open spec fn tied(links: Seq<Link>, active: Seq<bool>, a: int, b: int) -> bool {
    reaches(links, active, a, b) && reaches(links, active, b, a)
}

/// Whether constraint `e` is in force and part of a cycle.
pub open spec fn in_cycle(links: Seq<Link>, active: Seq<bool>, e: int) -> bool {
    0 <= e < links.len() && active[e] && reaches(
        links,
        active,
        links[e].to as int,
        links[e].from as int,
    )
}

/// Whether constraint `e` is part of a cycle in the knot of node `v`.
pub open spec fn knotted(links: Seq<Link>, active: Seq<bool>, e: int, v: int) -> bool {
    in_cycle(links, active, e) && tied(links, active, links[e].from as int, v)
}

/// Whether node `v` is on a cycle.
pub open spec fn cyclic(links: Seq<Link>, active: Seq<bool>, v: int) -> bool {
    exists|e: int| 0 <= e < links.len() && #[trigger] knotted(links, active, e, v)
}

/// Whether node `v` is the first of the nodes of a knot.
pub open spec fn leads_knot(links: Seq<Link>, active: Seq<bool>, v: int) -> bool {
    cyclic(links, active, v) && forall|u: int| 0 <= u < v ==> !#[trigger] tied(links, active, u, v)
}

/// Whether constraint `e` is given up before `f`.
pub open spec fn weaker(links: Seq<Link>, e: int, f: int) -> bool {
    let a = links[e];
    let b = links[f];
    a.weight < b.weight || (a.weight == b.weight && (a.rank < b.rank || (a.rank == b.rank && e
        < f)))
}

/// The weakest constraint among the first `n` that may be given up in the knot of `v`.
pub open spec fn weakest_upto(links: Seq<Link>, active: Seq<bool>, v: int, n: int) -> Option<int>
    decreases n,
{
    if n <= 0 {
        None
    } else {
        let before = weakest_upto(links, active, v, n - 1);
        if links[n - 1].strong || !knotted(links, active, n - 1, v) {
            before
        } else {
            match before {
                None => Some(n - 1),
                Some(best) => if weaker(links, n - 1, best) {
                    Some(n - 1)
                } else {
                    Some(best)
                },
            }
        }
    }
}

/// The constraint given up in the knot of `v`, if any may be.
pub open spec fn weakest(links: Seq<Link>, active: Seq<bool>, v: int) -> Option<int> {
    weakest_upto(links, active, v, links.len() as int)
}

/// The constraints given up in the knots of the first `n` nodes, one for each
/// knot, in the order of their first nodes; `None` where a knot has none to give.
pub open spec fn given_up(links: Seq<Link>, active: Seq<bool>, n: int) -> Option<Seq<int>>
    decreases n,
{
    if n <= 0 {
        Some(Seq::empty())
    } else {
        match given_up(links, active, n - 1) {
            None => None,
            Some(before) => if leads_knot(links, active, n - 1) {
                match weakest(links, active, n - 1) {
                    None => None,
                    Some(e) => Some(before.push(e)),
                }
            } else {
                Some(before)
            },
        }
    }
}

/// The constraints left in force.
pub open spec fn without(active: Seq<bool>, removed: Seq<int>) -> Seq<bool> {
    Seq::new(active.len(), |e: int| active[e] && !removed.contains(e))
}

/// How many of the first `n` flags are set.
pub open spec fn count_set(flags: Seq<bool>, n: int) -> nat
    decreases n,
{
    if n <= 0 {
        0
    } else {
        count_set(flags, n - 1) + if flags[n - 1] {
            1nat
        } else {
            0
        }
    }
}

/// What is left in force once no cycle is left, and what was given up on the
/// way; `None` where constraints that may not be given up contradict each other.
pub open spec fn untangled(links: Seq<Link>, active: Seq<bool>, removed: Seq<int>, n: int) -> Option<
    (Seq<bool>, Seq<int>),
>
    decreases count_set(active, active.len() as int),
{
    match given_up(links, active, n) {
        None => None,
        Some(round) => {
            let next = without(active, round);
            if round.len() == 0 {
                Some((active, removed))
            } else if count_set(next, next.len() as int) < count_set(active, active.len() as int) {
                untangled(links, next, removed + round, n)
            } else {
                None
            }
        },
    }
}

/// Whether node `v` is not placed yet and everything that must come before it is.
pub open spec fn ready(links: Seq<Link>, active: Seq<bool>, placed: Seq<usize>, v: int) -> bool {
    &&& !placed.contains(v as usize)
    &&& forall|e: int|
        0 <= e < links.len() && active[e] && (#[trigger] links[e]).to == v ==> placed.contains(
            links[e].from,
        )
}

/// The ready node of lowest rank among the first `n`.
pub open spec fn next_upto(
    links: Seq<Link>,
    active: Seq<bool>,
    ranks: Seq<usize>,
    placed: Seq<usize>,
    n: int,
) -> Option<usize>
    decreases n,
{
    if n <= 0 {
        None
    } else {
        let before = next_upto(links, active, ranks, placed, n - 1);
        if !ready(links, active, placed, n - 1) {
            before
        } else {
            match before {
                None => Some((n - 1) as usize),
                Some(best) => if ranks[n - 1] < ranks[best as int] {
                    Some((n - 1) as usize)
                } else {
                    Some(best)
                },
            }
        }
    }
}

/// The nodes after `placed`, each time the ready one of lowest rank.
pub open spec fn placed_from(
    links: Seq<Link>,
    active: Seq<bool>,
    ranks: Seq<usize>,
    placed: Seq<usize>,
    n: int,
) -> Seq<usize>
    decreases n - placed.len(),
{
    if placed.len() >= n {
        placed
    } else {
        match next_upto(links, active, ranks, placed, n) {
            None => placed,
            Some(v) => placed_from(links, active, ranks, placed.push(v), n),
        }
    }
}

/// More constraints may be used where fewer suffice.
proof fn lemma_path_grows(links: Seq<Link>, active: Seq<bool>, a: int, b: int, k: nat, m: nat)
    requires
        path(links, active, a, b, k),
        k <= m,
    ensures
        path(links, active, a, b, m),
    decreases k,
{
    if a != b {
        let e = choose|e: int| #[trigger]
            leaves(links, active, e, a) && path(
                links,
                active,
                links[e].to as int,
                b,
                (k - 1) as nat,
            );
        lemma_path_grows(links, active, links[e].to as int, b, (k - 1) as nat, (m - 1) as nat);
        assert(leaves(links, active, e, a));
    }
}

/// Paths can be put one behind the other.
proof fn lemma_path_chains(
    links: Seq<Link>,
    active: Seq<bool>,
    a: int,
    b: int,
    c: int,
    k: nat,
    m: nat,
)
    requires
        path(links, active, a, b, k),
        path(links, active, b, c, m),
    ensures
        path(links, active, a, c, k + m),
    decreases k,
{
    if a == b {
        lemma_path_grows(links, active, b, c, m, k + m);
    } else {
        let e = choose|e: int| #[trigger]
            leaves(links, active, e, a) && path(
                links,
                active,
                links[e].to as int,
                b,
                (k - 1) as nat,
            );
        lemma_path_chains(links, active, links[e].to as int, b, c, (k - 1) as nat, m);
        assert(leaves(links, active, e, a));
        assert(path(links, active, links[e].to as int, c, (k + m - 1) as nat));
    }
}

/// Every node reaches itself.
pub proof fn lemma_reaches_self(links: Seq<Link>, active: Seq<bool>, a: int)
    ensures
        reaches(links, active, a, a),
{
    assert(path(links, active, a, a, 0));
}

/// Reaching chains.
pub proof fn lemma_reaches_chains(links: Seq<Link>, active: Seq<bool>, a: int, b: int, c: int)
    requires
        reaches(links, active, a, b),
        reaches(links, active, b, c),
    ensures
        reaches(links, active, a, c),
{
    let k = choose|k: nat| path(links, active, a, b, k);
    let m = choose|m: nat| path(links, active, b, c, m);
    lemma_path_chains(links, active, a, b, c, k, m);
}

/// A constraint in force leads from its source to its target.
pub proof fn lemma_link_reaches(links: Seq<Link>, active: Seq<bool>, e: int)
    requires
        0 <= e < links.len(),
        active[e],
    ensures
        reaches(links, active, links[e].from as int, links[e].to as int),
{
    let a = links[e].from as int;
    let b = links[e].to as int;
    assert(leaves(links, active, e, a));
    assert(path(links, active, b, b, 0));
    assert(path(links, active, a, b, 1));
}

/// Whether a set of nodes is left by no constraint in force.
spec fn is_closed(links: Seq<Link>, active: Seq<bool>, seen: Seq<bool>) -> bool {
    forall|e: int|
        0 <= e < links.len() && active[e] && seen[(#[trigger] links[e]).from as int]
            ==> seen[links[e].to as int]
}

/// A closed set holds everything that its members reach.
proof fn lemma_closed_holds(
    links: Seq<Link>,
    active: Seq<bool>,
    seen: Seq<bool>,
    a: int,
    b: int,
    k: nat,
)
    requires
        is_closed(links, active, seen),
        seen[a],
        path(links, active, a, b, k),
    ensures
        seen[b],
    decreases k,
{
    if a != b {
        let e = choose|e: int| #[trigger]
            leaves(links, active, e, a) && path(
                links,
                active,
                links[e].to as int,
                b,
                (k - 1) as nat,
            );
        assert(links[e].from == a);
        lemma_closed_holds(links, active, seen, links[e].to as int, b, (k - 1) as nat);
    }
}

/// Setting one more flag raises the count by one.
proof fn lemma_count_set(flags: Seq<bool>, at: int, n: int)
    requires
        0 <= at < n <= flags.len(),
        !flags[at],
    ensures
        count_set(flags.update(at, true), n) == count_set(flags, n) + 1,
    decreases n,
{
    let next = flags.update(at, true);
    if at == n - 1 {
        lemma_count_same(flags, next, n - 1);
    } else {
        lemma_count_set(flags, at, n - 1);
    }
}

proof fn lemma_count_same(a: Seq<bool>, b: Seq<bool>, n: int)
    requires
        0 <= n <= a.len(),
        n <= b.len(),
        forall|i: int| 0 <= i < n ==> a[i] == #[trigger] b[i],
    ensures
        count_set(a, n) == count_set(b, n),
    decreases n,
{
    if n > 0 {
        lemma_count_same(a, b, n - 1);
        assert(a[n - 1] == b[n - 1]);
    }
}

/// A count lies between zero and the number of flags.
proof fn lemma_count_bounds(flags: Seq<bool>, n: int)
    requires
        0 <= n,
    ensures
        0 <= count_set(flags, n) <= n,
    decreases n,
{
    if n > 0 {
        lemma_count_bounds(flags, n - 1);
    }
}

/// Flags that were cleared are no longer counted.
pub proof fn lemma_count_less(a: Seq<bool>, b: Seq<bool>, n: int)
    requires
        0 <= n <= a.len(),
        n <= b.len(),
        forall|i: int| 0 <= i < n && #[trigger] b[i] ==> a[i],
    ensures
        count_set(b, n) <= count_set(a, n),
        (exists|i: int| 0 <= i < n && #[trigger] a[i] && !b[i]) ==> count_set(b, n) < count_set(
            a,
            n,
        ),
    decreases n,
{
    if n > 0 {
        lemma_count_less(a, b, n - 1);
        if exists|i: int| 0 <= i < n && #[trigger] a[i] && !b[i] {
            let i = choose|i: int| 0 <= i < n && #[trigger] a[i] && !b[i];
            if i < n - 1 {
                assert(a[i] && !b[i]);
            }
        }
    }
}

/// Which nodes `start` reaches.
fn reach_from(links: &Vec<Link>, active: &Vec<bool>, n: usize, start: usize) -> (seen: Vec<bool>)
    requires
        links_within(links@, n as int),
        active@.len() == links@.len(),
        start < n,
    ensures
        seen@.len() == n,
        forall|v: int|
            0 <= v < n ==> #[trigger] seen@[v] == reaches(links@, active@, start as int, v),
{
    let mut seen: Vec<bool> = Vec::new();
    let mut i: usize = 0;
    while i < n
        invariant
            i <= n,
            seen@.len() == i,
            forall|v: int| 0 <= v < i ==> !#[trigger] seen@[v],
        decreases n - i,
    {
        seen.push(false);
        i = i + 1;
    }
    seen.set(start, true);
    proof {
        lemma_reaches_self(links@, active@, start as int);
        lemma_count_bounds(seen@, n as int);
    }
    let mut changed: bool = true;
    while changed
        invariant
            links_within(links@, n as int),
            active@.len() == links@.len(),
            start < n,
            seen@.len() == n,
            seen@[start as int],
            forall|v: int|
                0 <= v < n && #[trigger] seen@[v] ==> reaches(links@, active@, start as int, v),
            !changed ==> is_closed(links@, active@, seen@),
            0 <= count_set(seen@, n as int) <= n,
        decreases
            n - count_set(seen@, n as int),
            (if changed {
                1int
            } else {
                0
            }),
    {
        let ghost before = seen@;
        changed = false;
        let mut e: usize = 0;
        while e < links.len()
            invariant
                links_within(links@, n as int),
                active@.len() == links@.len(),
                start < n,
                e <= links@.len(),
                seen@.len() == n,
                seen@[start as int],
                forall|v: int|
                    0 <= v < n && #[trigger] seen@[v] ==> reaches(
                        links@,
                        active@,
                        start as int,
                        v,
                    ),
                !changed ==> seen@ == before,
                changed ==> count_set(seen@, n as int) > count_set(before, n as int),
                !changed ==> forall|f: int|
                    0 <= f < e && active@[f] && seen@[(#[trigger] links@[f]).from as int]
                        ==> seen@[links@[f].to as int],
                0 <= count_set(seen@, n as int) <= n,
            decreases links@.len() - e,
        {
            let link: Link = links[e];
            if active[e] && seen[link.from] && !seen[link.to] {
                proof {
                    lemma_link_reaches(links@, active@, e as int);
                    lemma_reaches_chains(
                        links@,
                        active@,
                        start as int,
                        link.from as int,
                        link.to as int,
                    );
                    lemma_count_set(seen@, link.to as int, n as int);
                    lemma_count_bounds(seen@.update(link.to as int, true), n as int);
                }
                seen.set(link.to, true);
                changed = true;
            }
            e = e + 1;
        }
    }
    proof {
        assert forall|v: int| 0 <= v < n implies #[trigger] seen@[v] == reaches(
            links@,
            active@,
            start as int,
            v,
        ) by {
            if reaches(links@, active@, start as int, v) {
                let k = choose|k: nat| path(links@, active@, start as int, v, k);
                lemma_closed_holds(links@, active@, seen@, start as int, v, k);
            }
        }
    }
    seen
}

/// Which nodes reach which.
fn reach_all(links: &Vec<Link>, active: &Vec<bool>, n: usize) -> (table: Vec<Vec<bool>>)
    requires
        links_within(links@, n as int),
        active@.len() == links@.len(),
    ensures
        is_table(table@, links@, active@, n as int),
{
    let mut table: Vec<Vec<bool>> = Vec::new();
    let mut a: usize = 0;
    while a < n
        invariant
            links_within(links@, n as int),
            active@.len() == links@.len(),
            a <= n,
            table@.len() == a,
            forall|u: int, v: int|
                #![trigger table@[u]@[v]]
                0 <= u < a && 0 <= v < n ==> table@[u]@[v] == reaches(links@, active@, u, v),
            forall|u: int| 0 <= u < a ==> (#[trigger] table@[u])@.len() == n,
        decreases n - a,
    {
        table.push(reach_from(links, active, n, a));
        a = a + 1;
    }
    table
}

/// Whether a table says which nodes reach which.
spec fn is_table(table: Seq<Vec<bool>>, links: Seq<Link>, active: Seq<bool>, n: int) -> bool {
    &&& table.len() == n
    &&& forall|u: int| 0 <= u < n ==> (#[trigger] table[u])@.len() == n
    &&& forall|u: int, v: int|
        #![trigger table[u]@[v]]
        0 <= u < n && 0 <= v < n ==> table[u]@[v] == reaches(links, active, u, v)
}

/// Whether constraint `e` is part of a cycle in the knot of node `v`.
fn is_knotted(table: &Vec<Vec<bool>>, links: &Vec<Link>, active: &Vec<bool>, n: usize, e: usize, v: usize) -> (yes: bool)
    requires
        is_table(table@, links@, active@, n as int),
        links_within(links@, n as int),
        active@.len() == links@.len(),
        e < links@.len(),
        v < n,
    ensures
        yes == knotted(links@, active@, e as int, v as int),
{
    let link: Link = links[e];
    assert(table@[link.to as int]@.len() == n);
    assert(table@[link.from as int]@.len() == n);
    assert(table@[v as int]@.len() == n);
    active[e] && table[link.to][link.from] && table[link.from][v] && table[v][link.from]
}

/// Whether node `v` is the first of the nodes of a knot.
fn is_leader(table: &Vec<Vec<bool>>, links: &Vec<Link>, active: &Vec<bool>, n: usize, v: usize) -> (yes: bool)
    requires
        is_table(table@, links@, active@, n as int),
        links_within(links@, n as int),
        active@.len() == links@.len(),
        v < n,
    ensures
        yes == leads_knot(links@, active@, v as int),
{
    let mut u: usize = 0;
    while u < v
        invariant
            is_table(table@, links@, active@, n as int),
            u <= v < n,
            forall|w: int| 0 <= w < u ==> !#[trigger] tied(links@, active@, w, v as int),
        decreases v - u,
    {
        assert(table@[u as int]@.len() == n);
        assert(table@[v as int]@.len() == n);
        if table[u][v] && table[v][u] {
            assert(tied(links@, active@, u as int, v as int));
            return false;
        }
        u = u + 1;
    }
    let mut e: usize = 0;
    while e < links.len()
        invariant
            is_table(table@, links@, active@, n as int),
            links_within(links@, n as int),
            active@.len() == links@.len(),
            v < n,
            e <= links@.len(),
            forall|w: int| 0 <= w < v ==> !#[trigger] tied(links@, active@, w, v as int),
            forall|f: int| 0 <= f < e ==> !#[trigger] knotted(links@, active@, f, v as int),
        decreases links@.len() - e,
    {
        if is_knotted(table, links, active, n, e, v) {
            return true;
        }
        e = e + 1;
    }
    false
}

/// The constraint given up in the knot of `v`.
fn find_weakest(table: &Vec<Vec<bool>>, links: &Vec<Link>, active: &Vec<bool>, n: usize, v: usize) -> (found: Option<
    usize,
>)
    requires
        is_table(table@, links@, active@, n as int),
        links_within(links@, n as int),
        active@.len() == links@.len(),
        v < n,
    ensures
        match found {
            None => weakest(links@, active@, v as int) is None,
            Some(e) => weakest(links@, active@, v as int) == Some(e as int) && e < links@.len(),
        },
{
    let mut best: Option<usize> = None;
    let mut e: usize = 0;
    while e < links.len()
        invariant
            is_table(table@, links@, active@, n as int),
            links_within(links@, n as int),
            active@.len() == links@.len(),
            v < n,
            e <= links@.len(),
            match best {
                None => weakest_upto(links@, active@, v as int, e as int) is None,
                Some(b) => weakest_upto(links@, active@, v as int, e as int) == Some(b as int) && b
                    < e,
            },
        decreases links@.len() - e,
    {
        if !links[e].strong && is_knotted(table, links, active, n, e, v) {
            match best {
                None => {
                    best = Some(e);
                },
                Some(b) => {
                    let x: Link = links[e];
                    let y: Link = links[b];
                    if x.weight < y.weight || (x.weight == y.weight && x.rank < y.rank) {
                        best = Some(e);
                    }
                },
            }
        }
        e = e + 1;
    }
    best
}

/// One constraint for each knot.
fn find_given_up(links: &Vec<Link>, active: &Vec<bool>, n: usize) -> (round: Option<Vec<usize>>)
    requires
        links_within(links@, n as int),
        active@.len() == links@.len(),
    ensures
        match round {
            None => given_up(links@, active@, n as int) is None,
            Some(list) => given_up(links@, active@, n as int) == Some(numbers(list@)) && forall|
                i: int,
            |
                0 <= i < list@.len() ==> #[trigger] list@[i] < links@.len(),
        },
{
    let table: Vec<Vec<bool>> = reach_all(links, active, n);
    let mut list: Vec<usize> = Vec::new();
    let mut v: usize = 0;
    assert(numbers(list@) =~= Seq::empty());
    while v < n
        invariant
            is_table(table@, links@, active@, n as int),
            links_within(links@, n as int),
            active@.len() == links@.len(),
            v <= n,
            given_up(links@, active@, v as int) == Some(numbers(list@)),
            forall|i: int| 0 <= i < list@.len() ==> #[trigger] list@[i] < links@.len(),
        decreases n - v,
    {
        if is_leader(&table, links, active, n, v) {
            match find_weakest(&table, links, active, n, v) {
                None => {
                    proof {
                        lemma_given_up_stops(links@, active@, v + 1, n as int);
                    }
                    return None;
                },
                Some(e) => {
                    let ghost before = numbers(list@);
                    list.push(e);
                    assert(numbers(list@) =~= before.push(e as int));
                },
            }
        }
        v = v + 1;
    }
    Some(list)
}

/// Positions as numbers.
pub open spec fn numbers(list: Seq<usize>) -> Seq<int> {
    Seq::new(list.len(), |i: int| list[i] as int)
}

/// A knot with nothing to give up ends the round.
proof fn lemma_given_up_stops(links: Seq<Link>, active: Seq<bool>, part: int, n: int)
    requires
        0 <= part <= n,
        given_up(links, active, part) is None,
    ensures
        given_up(links, active, n) is None,
    decreases n - part,
{
    if part < n {
        lemma_given_up_stops(links, active, part, n - 1);
    }
}

/// What may be given up is in force, on a cycle of the knot, and not strong.
pub proof fn lemma_weakest(links: Seq<Link>, active: Seq<bool>, v: int, n: int)
    requires
        0 <= n <= links.len(),
    ensures
        weakest_upto(links, active, v, n) matches Some(e) ==> 0 <= e < n && !links[e].strong
            && knotted(links, active, e, v),
        weakest_upto(links, active, v, n) is None ==> forall|e: int|
            0 <= e < n && #[trigger] knotted(links, active, e, v) ==> links[e].strong,
    decreases n,
{
    if n > 0 {
        lemma_weakest(links, active, v, n - 1);
    }
}

/// Everything given up is in force, on a cycle, and not strong.
pub proof fn lemma_given_up(links: Seq<Link>, active: Seq<bool>, n: int)
    requires
        0 <= n,
        given_up(links, active, n) is Some,
    ensures
        forall|i: int|
            0 <= i < given_up(links, active, n)->0.len() ==> ({
                let e = #[trigger] given_up(links, active, n)->0[i];
                0 <= e < links.len() && !links[e].strong && in_cycle(links, active, e)
            }),
    decreases n,
{
    if n > 0 {
        lemma_given_up(links, active, n - 1);
        if leads_knot(links, active, n - 1) {
            lemma_weakest(links, active, n - 1, links.len() as int);
        }
    }
}

/// Takes constraints out of force.
fn deactivate(active: &mut Vec<bool>, round: &Vec<usize>)
    requires
        forall|i: int| 0 <= i < round@.len() ==> #[trigger] round@[i] < old(active)@.len(),
    ensures
        final(active)@ == without(old(active)@, numbers(round@)),
{
    let ghost before = active@;
    let mut i: usize = 0;
    while i < round.len()
        invariant
            i <= round@.len(),
            active@.len() == before.len(),
            forall|k: int| 0 <= k < round@.len() ==> #[trigger] round@[k] < before.len(),
            forall|e: int|
                0 <= e < before.len() ==> #[trigger] active@[e] == (before[e] && !(exists|k: int|
                    0 <= k < i && round@[k] == e)),
        decreases round@.len() - i,
    {
        active.set(round[i], false);
        i = i + 1;
    }
    proof {
        let removed = numbers(round@);
        assert forall|e: int| 0 <= e < before.len() implies #[trigger] active@[e] == without(
            before,
            removed,
        )[e] by {
            if removed.contains(e) {
                let k = removed.index_of(e);
                assert(round@[k] == e);
            } else if exists|k: int| 0 <= k < round@.len() && round@[k] == e {
                let k = choose|k: int| 0 <= k < round@.len() && round@[k] == e;
                assert(removed[k] == e);
            }
        }
        assert(active@ =~= without(before, removed));
    }
}

/// Gives up weak constraints until no cycle is left.
pub fn untangle(links: &Vec<Link>, n: usize) -> (result: Option<(Vec<bool>, Vec<usize>)>)
    requires
        links_within(links@, n as int),
    ensures
        match result {
            None => untangled(links@, all_active(links@), Seq::empty(), n as int) is None,
            Some((active, removed)) => untangled(
                links@,
                all_active(links@),
                Seq::empty(),
                n as int,
            ) == Some((active@, numbers(removed@))) && active@.len() == links@.len() && forall|
                i: int,
            |
                0 <= i < removed@.len() ==> #[trigger] removed@[i] < links@.len(),
        },
{
    let mut active: Vec<bool> = Vec::new();
    let mut e: usize = 0;
    while e < links.len()
        invariant
            e <= links@.len(),
            active@.len() == e,
            forall|i: int| 0 <= i < e ==> #[trigger] active@[i],
        decreases links@.len() - e,
    {
        active.push(true);
        e = e + 1;
    }
    assert(active@ =~= all_active(links@));
    let mut removed: Vec<usize> = Vec::new();
    assert(numbers(removed@) =~= Seq::empty());
    let ghost goal = untangled(links@, all_active(links@), Seq::empty(), n as int);
    loop
        invariant
            links_within(links@, n as int),
            active@.len() == links@.len(),
            goal == untangled(links@, all_active(links@), Seq::empty(), n as int),
            untangled(links@, active@, numbers(removed@), n as int) == goal,
            forall|i: int| 0 <= i < removed@.len() ==> #[trigger] removed@[i] < links@.len(),
        decreases count_set(active@, active@.len() as int),
    {
        let ghost before = active@;
        match find_given_up(links, &active, n) {
            None => {
                return None;
            },
            Some(round) => {
                if round.len() == 0 {
                    return Some((active, removed));
                }
                let ghost dropped = numbers(round@);
                deactivate(&mut active, &round);
                proof {
                    lemma_given_up(links@, before, n as int);
                    assert(dropped[0] == round@[0]);
                    assert(dropped.contains(dropped[0]));
                    let e0 = dropped[0];
                    assert(before[e0] && !active@[e0]);
                    lemma_count_less(before, active@, before.len() as int);
                }
                let ghost sofar = numbers(removed@);
                let mut more: Vec<usize> = round;
                removed.append(&mut more);
                assert(numbers(removed@) =~= sofar + dropped);
            },
        }
    }
}

/// Every constraint in force.
pub open spec fn all_active(links: Seq<Link>) -> Seq<bool> {
    Seq::new(links.len(), |e: int| true)
}

/// Places every node, each time the ready one of lowest rank.
pub fn place(links: &Vec<Link>, active: &Vec<bool>, ranks: &Vec<usize>) -> (placed: Vec<usize>)
    requires
        links_within(links@, ranks@.len() as int),
        active@.len() == links@.len(),
    ensures
        placed@ == placed_from(links@, active@, ranks@, Seq::empty(), ranks@.len() as int),
{
    let n: usize = ranks.len();
    let mut placed: Vec<usize> = Vec::new();
    let mut done: Vec<bool> = Vec::new();
    let mut i: usize = 0;
    while i < n
        invariant
            i <= n,
            done@.len() == i,
            forall|v: int| 0 <= v < i ==> !#[trigger] done@[v],
        decreases n - i,
    {
        done.push(false);
        i = i + 1;
    }
    let ghost goal = placed_from(links@, active@, ranks@, Seq::empty(), n as int);
    while placed.len() < n
        invariant
            n == ranks@.len(),
            links_within(links@, n as int),
            active@.len() == links@.len(),
            goal == placed_from(links@, active@, ranks@, Seq::empty(), n as int),
            goal == placed_from(links@, active@, ranks@, placed@, n as int),
            done@.len() == n,
            forall|v: int| 0 <= v < n ==> #[trigger] done@[v] == placed@.contains(v as usize),
        ensures
            placed@ == goal,
        decreases n - placed@.len(),
    {
        let open: Vec<bool> = find_ready(links, active, &done, n, Ghost(placed@));
        let mut best: Option<usize> = None;
        let mut v: usize = 0;
        while v < n
            invariant
                n == ranks@.len(),
                v <= n,
                open@.len() == n,
                forall|u: int|
                    0 <= u < n ==> #[trigger] open@[u] == ready(links@, active@, placed@, u),
                best == next_upto(links@, active@, ranks@, placed@, v as int),
                best matches Some(b) ==> b < v,
            decreases n - v,
        {
            if open[v] {
                match best {
                    None => {
                        best = Some(v);
                    },
                    Some(b) => {
                        if ranks[v] < ranks[b] {
                            best = Some(v);
                        }
                    },
                }
            }
            v = v + 1;
        }
        match best {
            None => {
                break;
            },
            Some(b) => {
                let ghost before = placed@;
                placed.push(b);
                done.set(b, true);
                proof {
                    assert forall|u: int| 0 <= u < n implies #[trigger] done@[u]
                        == placed@.contains(u as usize) by {
                        if u == b {
                            assert(placed@[before.len() as int] == b);
                        } else if before.contains(u as usize) {
                            let k = before.index_of(u as usize);
                            assert(placed@[k] == u as usize);
                        } else if placed@.contains(u as usize) {
                            let k = placed@.index_of(u as usize);
                            if k < before.len() {
                                assert(before[k] == u as usize);
                            }
                        }
                    }
                }
            },
        }
    }
    placed
}

/// Which nodes are ready.
fn find_ready(links: &Vec<Link>, active: &Vec<bool>, done: &Vec<bool>, n: usize, placed: Ghost<Seq<usize>>) -> (open: Vec<
    bool,
>)
    requires
        links_within(links@, n as int),
        active@.len() == links@.len(),
        done@.len() == n,
        forall|v: int| 0 <= v < n ==> #[trigger] done@[v] == placed@.contains(v as usize),
    ensures
        open@.len() == n,
        forall|u: int| 0 <= u < n ==> #[trigger] open@[u] == ready(links@, active@, placed@, u),
{
    let mut open: Vec<bool> = Vec::new();
    let mut v: usize = 0;
    while v < n
        invariant
            v <= n,
            done@.len() == n,
            open@.len() == v,
            forall|u: int| 0 <= u < v ==> #[trigger] open@[u] == !done@[u],
        decreases n - v,
    {
        open.push(!done[v]);
        v = v + 1;
    }
    let mut e: usize = 0;
    while e < links.len()
        invariant
            links_within(links@, n as int),
            active@.len() == links@.len(),
            done@.len() == n,
            open@.len() == n,
            e <= links@.len(),
            forall|v: int| 0 <= v < n ==> #[trigger] done@[v] == placed@.contains(v as usize),
            forall|u: int|
                0 <= u < n ==> #[trigger] open@[u] == (!done@[u] && forall|f: int|
                    0 <= f < e && active@[f] && (#[trigger] links@[f]).to == u
                        ==> done@[links@[f].from as int]),
        decreases links@.len() - e,
    {
        if active[e] && !done[links[e].from] {
            open.set(links[e].to, false);
        }
        e = e + 1;
    }
    proof {
        assert forall|u: int| 0 <= u < n implies #[trigger] open@[u] == ready(
            links@,
            active@,
            placed@,
            u,
        ) by {
            if open@[u] {
                assert forall|f: int|
                    0 <= f < links@.len() && active@[f] && (#[trigger] links@[f]).to == u implies placed@.contains(
                links@[f].from) by {
                    assert(done@[links@[f].from as int]);
                }
            } else if !done@[u] {
                let f = choose|f: int|
                    0 <= f < links@.len() && active@[f] && (#[trigger] links@[f]).to == u
                        && !done@[links@[f].from as int];
                assert(!placed@.contains(links@[f].from));
            }
        }
    }
    open
}

} // verus!
