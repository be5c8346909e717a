//! Stable sorting by a strict weak order.

use vstd::prelude::*;

verus! {

/// A strict weak order on values of one type.
pub trait Order<T> {
    /// Whether `a` must stand before `b`.
    spec fn lt(&self, a: T, b: T) -> bool;

    /// Nothing stands before itself, and both the order and its absence chain.
    proof fn is_strict_weak(&self, a: T, b: T, c: T)
        ensures
            !self.lt(a, a),
            self.lt(a, b) && self.lt(b, c) ==> self.lt(a, c),
            !self.lt(a, b) && !self.lt(b, c) ==> !self.lt(a, c),
    ;
}

/// An order that can be decided.
pub trait Sorter<T>: Order<T> {
    /// Decides whether `a` must stand before `b`.
    fn precedes(&self, a: &T, b: &T) -> (yes: bool)
        ensures
            yes == self.lt(*a, *b),
    ;
}

/// `s` with `x` placed behind everything that need not stand after it.
pub open spec fn inserted<T, O: Order<T>>(s: Seq<T>, x: T, order: O) -> Seq<T>
    decreases s.len(),
{
    if s.len() > 0 && order.lt(x, s.last()) {
        inserted(s.drop_last(), x, order).push(s.last())
    } else {
        s.push(x)
    }
}

/// The stable sort of the first `n` values: equal values keep their order.
pub open spec fn sorted_upto<T, O: Order<T>>(s: Seq<T>, n: int, order: O) -> Seq<T>
    decreases n,
{
    if n <= 0 {
        Seq::empty()
    } else {
        inserted(sorted_upto(s, n - 1, order), s[n - 1], order)
    }
}

/// The stable sort of a sequence.
pub open spec fn sorted<T, O: Order<T>>(s: Seq<T>, order: O) -> Seq<T> {
    sorted_upto(s, s.len() as int, order)
}

/// Whether no value stands before one that must precede it.
pub open spec fn is_ordered<T, O: Order<T>>(s: Seq<T>, order: O) -> bool {
    forall|i: int, j: int| #![trigger s[i], s[j]] 0 <= i < j < s.len() ==> !order.lt(s[j], s[i])
}

/// The first `n` values, without those equal to the one before them.
pub open spec fn deduped_upto<T>(s: Seq<T>, n: int) -> Seq<T>
    decreases n,
{
    if n <= 0 {
        Seq::empty()
    } else {
        let before = deduped_upto(s, n - 1);
        if before.len() > 0 && before.last() == s[n - 1] {
            before
        } else {
            before.push(s[n - 1])
        }
    }
}

/// The values without those equal to the one before them.
pub open spec fn deduped<T>(s: Seq<T>) -> Seq<T> {
    deduped_upto(s, s.len() as int)
}

/// Inserting one value keeps the others and the order.
pub proof fn lemma_inserted<T, O: Order<T>>(s: Seq<T>, x: T, order: O)
    requires
        is_ordered(s, order),
    ensures
        inserted(s, x, order).len() == s.len() + 1,
        inserted(s, x, order).to_multiset() == s.to_multiset().insert(x),
        is_ordered(inserted(s, x, order), order),
    decreases s.len(),
{
    broadcast use vstd::seq_lib::group_to_multiset_ensures;

    let r = inserted(s, x, order);
    if s.len() > 0 && order.lt(x, s.last()) {
        let rest = s.drop_last();
        let last = s.last();
        lemma_inserted(rest, x, order);
        let part = inserted(rest, x, order);
        assert(s =~= rest.push(last));
        assert(r == part.push(last));
        assert(rest.push(last).to_multiset() =~= rest.to_multiset().insert(last));
        assert(r.to_multiset() =~= s.to_multiset().insert(x));
        assert forall|i: int, j: int| #![trigger r[i], r[j]] 0 <= i < j < r.len() implies !order.lt(
            r[j],
            r[i],
        ) by {
            if j == part.len() {
                assert(part.to_multiset().count(part[i]) > 0) by {
                    assert(part.contains(part[i]));
                }
                let y = part[i];
                assert(rest.to_multiset().insert(x).count(y) > 0);
                if y == x {
                    order.is_strict_weak(x, last, x);
                } else {
                    assert(rest.to_multiset().count(y) > 0);
                    assert(rest.contains(y));
                    let k = rest.index_of(y);
                    assert(s[k] == y && s[s.len() - 1] == last);
                }
            } else {
                assert(r[i] == part[i] && r[j] == part[j]);
            }
        }
    } else {
        assert(r == s.push(x));
        assert(r.to_multiset() =~= s.to_multiset().insert(x));
        assert forall|i: int, j: int| #![trigger r[i], r[j]] 0 <= i < j < r.len() implies !order.lt(
            r[j],
            r[i],
        ) by {
            if j == s.len() {
                if i < s.len() - 1 {
                    assert(s[i] == r[i]);
                    assert(!order.lt(s[s.len() - 1], s[i]));
                    order.is_strict_weak(x, s.last(), s[i]);
                }
            } else {
                assert(r[i] == s[i] && r[j] == s[j]);
            }
        }
    }
}

/// Sorting keeps exactly the given values and leaves them ordered.
pub proof fn sorting_orders_and_keeps<T, O: Order<T>>(s: Seq<T>, order: O)
    ensures
        sorted(s, order).len() == s.len(),
        sorted(s, order).to_multiset() == s.to_multiset(),
        is_ordered(sorted(s, order), order),
{
    lemma_sorted_upto(s, s.len() as int, order);
    assert(s.take(s.len() as int) =~= s);
}

/// Sorting keeps every value.
pub proof fn sorting_holds_the_same<T, O: Order<T>>(s: Seq<T>, order: O, x: T)
    ensures
        sorted(s, order).contains(x) <==> s.contains(x),
{
    broadcast use vstd::seq_lib::group_to_multiset_ensures;

    sorting_orders_and_keeps(s, order);
    assert(sorted(s, order).to_multiset().count(x) > 0 <==> s.to_multiset().count(x) > 0);
}

/// Where a value stands at two places, it counts twice.
pub proof fn lemma_twice<T>(s: Seq<T>, i: int, j: int)
    requires
        0 <= i < s.len(),
        0 <= j < s.len(),
        i != j,
        s[i] == s[j],
    ensures
        s.to_multiset().count(s[i]) >= 2,
{
    broadcast use vstd::seq_lib::group_to_multiset_ensures;

    let rest = s.remove(i);
    let k = if j < i {
        j
    } else {
        j - 1
    };
    assert(rest[k] == s[j]);
    assert(rest.contains(s[i]));
    assert(rest.to_multiset().count(s[i]) > 0);
    assert(rest.to_multiset() =~= s.to_multiset().remove(s[i]));
    assert(s.contains(s[i]));
}

/// Where a value stands at one place alone, it counts once.
pub proof fn lemma_once<T>(s: Seq<T>, i: int)
    requires
        0 <= i < s.len(),
        forall|k: int| 0 <= k < s.len() && k != i ==> #[trigger] s[k] != s[i],
    ensures
        s.to_multiset().count(s[i]) == 1,
{
    broadcast use vstd::seq_lib::group_to_multiset_ensures;

    let rest = s.remove(i);
    assert(!rest.contains(s[i])) by {
        if rest.contains(s[i]) {
            let k = rest.index_of(s[i]);
            let p = if k < i {
                k
            } else {
                k + 1
            };
            assert(s[p] == s[i]);
        }
    }
    assert(rest.to_multiset().count(s[i]) == 0);
    assert(rest.to_multiset() =~= s.to_multiset().remove(s[i]));
    assert(s.contains(s[i]));
    assert(s.to_multiset().count(s[i]) > 0);
}

/// Two values stand next to each other once sorted, where one must precede the other and every
/// third value must precede the first or follow the second.
pub proof fn neighbours_stand_together<T, O: Order<T>>(s: Seq<T>, order: O, i: int, j: int) -> (k:
    int)
    requires
        0 <= i < s.len(),
        0 <= j < s.len(),
        order.lt(s[i], s[j]),
        forall|q: int|
            0 <= q < s.len() && q != i && q != j ==> order.lt(#[trigger] s[q], s[i]) || order.lt(
                s[j],
                s[q],
            ),
    ensures
        0 <= k,
        k + 1 < sorted(s, order).len(),
        sorted(s, order)[k] == s[i],
        sorted(s, order)[k + 1] == s[j],
{
    let t = sorted(s, order);
    let (x, y) = (s[i], s[j]);
    sorting_orders_and_keeps(s, order);
    order.is_strict_weak(x, y, x);
    order.is_strict_weak(y, x, y);
    assert forall|q: int| 0 <= q < s.len() && q != i implies #[trigger] s[q] != x by {
        if q != j && s[q] == x {
            assert(order.lt(y, x));
        }
    }
    assert forall|q: int| 0 <= q < s.len() && q != j implies #[trigger] s[q] != y by {
        if q != i && s[q] == y {
            assert(order.lt(y, x));
        }
    }
    lemma_once(s, i);
    lemma_once(s, j);
    sorting_holds_the_same(s, order, x);
    sorting_holds_the_same(s, order, y);
    assert(s.contains(x) && s.contains(y));
    let u = t.index_of(x);
    let v = t.index_of(y);
    assert(t[u] == x && t[v] == y);
    if v > u + 1 {
        let z = t[u + 1];
        assert(!order.lt(z, x) && !order.lt(y, z));
        assert(t.contains(z));
        sorting_holds_the_same(s, order, z);
        let q = s.index_of(z);
        assert(s[q] == z);
        if q == i {
            lemma_twice(t, u, u + 1);
        } else if q == j {
            lemma_twice(t, v, u + 1);
        }
    }
    u
}

/// Whether an order does not tell a value from `c`.
pub open spec fn tied<T, O: Order<T>>(order: O, c: T) -> spec_fn(T) -> bool {
    |v: T| !order.lt(v, c) && !order.lt(c, v)
}

/// Inserting a value appends it to those that the order does not tell from it.
proof fn lemma_inserted_ties<T, O: Order<T>>(s: Seq<T>, x: T, order: O, c: T)
    requires
        is_ordered(s, order),
    ensures
        inserted(s, x, order).filter(tied(order, c)) == s.push(x).filter(tied(order, c)),
    decreases s.len(),
{
    reveal(Seq::filter);
    let like = tied(order, c);
    let pushed = s.push(x);
    assert(pushed.drop_last() =~= s);
    if s.len() > 0 && order.lt(x, s.last()) {
        let rest = s.drop_last();
        let last = s.last();
        let part = inserted(rest, x, order);
        assert forall|p: int, q: int|
            #![trigger rest[p], rest[q]]
            0 <= p < q < rest.len() implies !order.lt(rest[q], rest[p]) by {
            assert(rest[p] == s[p] && rest[q] == s[q]);
        }
        lemma_inserted_ties(rest, x, order, c);
        assert(part.push(last).drop_last() =~= part);
        assert(rest.push(x).drop_last() =~= rest);
        order.is_strict_weak(x, c, last);
        order.is_strict_weak(x, last, c);
        order.is_strict_weak(last, c, x);
        order.is_strict_weak(c, x, last);
        order.is_strict_weak(c, last, x);
        order.is_strict_weak(last, x, c);
        assert(!(like(x) && like(last)));
        let kept = rest.filter(like);
        assert(rest.push(x).filter(like) == if like(x) {
            kept.push(x)
        } else {
            kept
        });
        assert(s.filter(like) == if like(last) {
            kept.push(last)
        } else {
            kept
        });
        assert(pushed.filter(like) == if like(x) {
            s.filter(like).push(x)
        } else {
            s.filter(like)
        });
        assert(part.push(last).filter(like) == if like(last) {
            part.filter(like).push(last)
        } else {
            part.filter(like)
        });
    }
}

proof fn lemma_ties_upto<T, O: Order<T>>(s: Seq<T>, n: int, order: O, c: T)
    requires
        0 <= n <= s.len(),
    ensures
        sorted_upto(s, n, order).filter(tied(order, c)) == s.take(n).filter(tied(order, c)),
    decreases n,
{
    reveal(Seq::filter);
    let like = tied(order, c);
    if n > 0 {
        lemma_ties_upto(s, n - 1, order, c);
        lemma_sorted_upto(s, n - 1, order);
        let before = sorted_upto(s, n - 1, order);
        lemma_inserted_ties(before, s[n - 1], order, c);
        assert(before.push(s[n - 1]).drop_last() =~= before);
        assert(s.take(n).drop_last() =~= s.take(n - 1));
        assert(s.take(n).last() == s[n - 1]);
    } else {
        assert(s.take(0) =~= Seq::empty());
    }
}

/// Values that the order does not tell apart keep the order in which they were listed.
pub proof fn sorting_leaves_ties_alone<T, O: Order<T>>(s: Seq<T>, order: O, c: T)
    ensures
        sorted(s, order).filter(tied(order, c)) == s.filter(tied(order, c)),
{
    lemma_ties_upto(s, s.len() as int, order, c);
    assert(s.take(s.len() as int) =~= s);
}

/// What holds of a sorted prefix.
proof fn lemma_sorted_upto<T, O: Order<T>>(s: Seq<T>, n: int, order: O)
    requires
        0 <= n <= s.len(),
    ensures
        sorted_upto(s, n, order).len() == n,
        sorted_upto(s, n, order).to_multiset() == s.take(n).to_multiset(),
        is_ordered(sorted_upto(s, n, order), order),
    decreases n,
{
    broadcast use vstd::seq_lib::group_to_multiset_ensures;

    if n > 0 {
        lemma_sorted_upto(s, n - 1, order);
        lemma_inserted(sorted_upto(s, n - 1, order), s[n - 1], order);
        assert(s.take(n) =~= s.take(n - 1).push(s[n - 1]));
    } else {
        assert(s.take(0) =~= Seq::<T>::empty());
    }
}

/// Two ordered arrangements of the same values are equal where the order tells
/// every two different values apart.
pub proof fn ordered_arrangement_is_unique<T, O: Order<T>>(a: Seq<T>, b: Seq<T>, order: O)
    requires
        a.to_multiset() == b.to_multiset(),
        is_ordered(a, order),
        is_ordered(b, order),
        forall|i: int, j: int|
            #![trigger a[i], a[j]]
            0 <= i < a.len() && 0 <= j < a.len() && a[i] != a[j] ==> order.lt(a[i], a[j])
                || order.lt(a[j], a[i]),
    ensures
        a == b,
    decreases a.len(),
{
    broadcast use vstd::seq_lib::group_to_multiset_ensures;

    assert(a.len() == a.to_multiset().len());
    assert(b.len() == b.to_multiset().len());
    if a.len() > 0 {
        let x = a.last();
        let y = b.last();
        assert(a.contains(x));
        assert(b.to_multiset().count(x) > 0);
        assert(b.contains(x));
        assert(b.contains(y));
        assert(a.to_multiset().count(y) > 0);
        assert(a.contains(y));
        let i = a.index_of(y);
        let j = b.index_of(x);
        if x != y {
            assert(!order.lt(x, y)) by {
                assert(a[i] == y && a[a.len() - 1] == x);
            }
            assert(!order.lt(y, x)) by {
                assert(b[j] == x && b[b.len() - 1] == y);
            }
        }
        let a2 = a.drop_last();
        let b2 = b.drop_last();
        assert(a =~= a2.push(x));
        assert(b =~= b2.push(x));
        assert(a2.to_multiset() =~= a.to_multiset().remove(x));
        assert(b2.to_multiset() =~= b.to_multiset().remove(x));
        assert forall|i: int, j: int|
            #![trigger a2[i], a2[j]]
            0 <= i < a2.len() && 0 <= j < a2.len() && a2[i] != a2[j] implies order.lt(
            a2[i],
            a2[j],
        ) || order.lt(a2[j], a2[i]) by {
            assert(a[i] == a2[i] && a[j] == a2[j]);
        }
        assert(is_ordered(a2, order)) by {
            assert forall|i: int, j: int| #![trigger a2[i], a2[j]] 0 <= i < j < a2.len() implies
                !order.lt(a2[j], a2[i]) by {
                assert(a[i] == a2[i] && a[j] == a2[j]);
            }
        }
        assert(is_ordered(b2, order)) by {
            assert forall|i: int, j: int| #![trigger b2[i], b2[j]] 0 <= i < j < b2.len() implies
                !order.lt(b2[j], b2[i]) by {
                assert(b[i] == b2[i] && b[j] == b2[j]);
            }
        }
        ordered_arrangement_is_unique(a2, b2, order);
    } else {
        assert(a =~= b);
    }
}

/// Sorting forgets the order in which the values came, where the order tells
/// every two different values apart.
pub proof fn sorting_forgets_arrival<T, O: Order<T>>(a: Seq<T>, b: Seq<T>, order: O)
    requires
        a.to_multiset() == b.to_multiset(),
        forall|i: int, j: int|
            #![trigger a[i], a[j]]
            0 <= i < a.len() && 0 <= j < a.len() && a[i] != a[j] ==> order.lt(a[i], a[j])
                || order.lt(a[j], a[i]),
    ensures
        sorted(a, order) == sorted(b, order),
{
    broadcast use vstd::seq_lib::group_to_multiset_ensures;

    sorting_orders_and_keeps(a, order);
    sorting_orders_and_keeps(b, order);
    let s = sorted(a, order);
    assert forall|i: int, j: int|
        #![trigger s[i], s[j]]
        0 <= i < s.len() && 0 <= j < s.len() && s[i] != s[j] implies order.lt(s[i], s[j])
        || order.lt(s[j], s[i]) by {
        assert(s.contains(s[i]) && s.contains(s[j]));
        assert(a.to_multiset().count(s[i]) > 0 && a.to_multiset().count(s[j]) > 0);
        assert(a.contains(s[i]) && a.contains(s[j]));
        let p = a.index_of(s[i]);
        let q = a.index_of(s[j]);
        assert(a[p] == s[i] && a[q] == s[j]);
    }
    ordered_arrangement_is_unique(s, sorted(b, order), order);
}

/// Sorting commutes with looking at values in a way that keeps the order.
pub proof fn lemma_sorted_seen<T, U, O: Order<T>, P: Order<U>>(
    s: Seq<T>,
    n: int,
    see: spec_fn(T) -> U,
    order: O,
    seen: P,
)
    requires
        0 <= n <= s.len(),
        forall|a: T, b: T| #[trigger] order.lt(a, b) == seen.lt(see(a), see(b)),
    ensures
        sorted_upto(s, n, order).map_values(see) == sorted_upto(s.map_values(see), n, seen),
    decreases n,
{
    if n > 0 {
        lemma_sorted_seen(s, n - 1, see, order, seen);
        lemma_inserted_seen(sorted_upto(s, n - 1, order), s[n - 1], see, order, seen);
    } else {
        assert(sorted_upto(s, 0, order).map_values(see) =~= sorted_upto(
            s.map_values(see),
            0,
            seen,
        ));
    }
}

proof fn lemma_inserted_seen<T, U, O: Order<T>, P: Order<U>>(
    s: Seq<T>,
    x: T,
    see: spec_fn(T) -> U,
    order: O,
    seen: P,
)
    requires
        forall|a: T, b: T| #[trigger] order.lt(a, b) == seen.lt(see(a), see(b)),
    ensures
        inserted(s, x, order).map_values(see) == inserted(s.map_values(see), see(x), seen),
    decreases s.len(),
{
    if s.len() > 0 && order.lt(x, s.last()) {
        lemma_inserted_seen(s.drop_last(), x, see, order, seen);
        assert(s.map_values(see).drop_last() =~= s.drop_last().map_values(see));
        assert(s.map_values(see).last() == see(s.last()));
        assert(inserted(s, x, order).map_values(see) =~= inserted(
            s.drop_last(),
            x,
            order,
        ).map_values(see).push(see(s.last())));
    } else {
        if s.len() > 0 {
            assert(!order.lt(x, s.last()));
            assert(s.map_values(see).last() == see(s.last()));
        }
        assert(s.push(x).map_values(see) =~= s.map_values(see).push(see(x)));
    }
}

/// Where `x` goes: everything from the result on must stand after it.
fn insertion_point<T, O: Sorter<T>>(items: &Vec<T>, x: &T, order: &O) -> (at: usize)
    ensures
        at <= items@.len(),
        inserted(items@, *x, *order) == items@.insert(at as int, *x),
{
    let mut at: usize = items.len();
    assert(items@.take(at as int) =~= items@);
    assert(items@.skip(at as int) =~= Seq::empty());
    assert(inserted(items@, *x, *order) =~= inserted(items@.take(at as int), *x, *order)
        + items@.skip(at as int));
    while at > 0 && order.precedes(x, &items[at - 1])
        invariant
            at <= items@.len(),
            inserted(items@, *x, *order) == inserted(items@.take(at as int), *x, *order)
                + items@.skip(at as int),
        decreases at,
    {
        proof {
            let front = items@.take(at as int);
            assert(front.last() == items@[at - 1]);
            assert(front.drop_last() =~= items@.take(at - 1));
            assert(inserted(front, *x, *order) + items@.skip(at as int) =~= inserted(
                items@.take(at - 1),
                *x,
                *order,
            ) + items@.skip(at - 1));
        }
        at = at - 1;
    }
    proof {
        let front = items@.take(at as int);
        assert(inserted(front, *x, *order) =~= front.push(*x));
        assert(front.push(*x) + items@.skip(at as int) =~= items@.insert(at as int, *x));
    }
    at
}

/// Sorts stably.
pub fn sort<T, O: Sorter<T>>(items: Vec<T>, order: &O) -> (result: Vec<T>)
    ensures
        result@ == sorted(items@, *order),
{
    let ghost all = items@;
    let mut rest: Vec<T> = items;
    let mut flipped: Vec<T> = Vec::new();
    while rest.len() > 0
        invariant
            rest@.len() + flipped@.len() == all.len(),
            rest@ == all.take(rest@.len() as int),
            forall|k: int|
                0 <= k < flipped@.len() ==> #[trigger] flipped@[k] == all[all.len() - 1 - k],
        decreases rest@.len(),
    {
        match rest.pop() {
            Some(x) => {
                flipped.push(x);
                assert(rest@ =~= all.take(rest@.len() as int));
            },
            None => {},
        }
    }
    let mut result: Vec<T> = Vec::new();
    while flipped.len() > 0
        invariant
            flipped@.len() <= all.len(),
            forall|k: int|
                0 <= k < flipped@.len() ==> #[trigger] flipped@[k] == all[all.len() - 1 - k],
            result@ == sorted_upto(all, all.len() - flipped@.len(), *order),
        decreases flipped@.len(),
    {
        match flipped.pop() {
            Some(x) => {
                let at: usize = insertion_point(&result, &x, order);
                result.insert(at, x);
            },
            None => {},
        }
    }
    result
}

} // verus!
