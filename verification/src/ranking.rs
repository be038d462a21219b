//! Putting lists in order, so that items of equal rank keep their places.

use vstd::prelude::*;

verus! {

// ---------------------------------------------------------------------------
// Orders

/// Whether `ahead` is a strict total order.
pub open spec fn is_order<V>(ahead: spec_fn(V, V) -> bool) -> bool {
    &&& forall|a: V, b: V| #[trigger] ahead(a, b) ==> !ahead(b, a)
    &&& forall|a: V, b: V, c: V|
        !#[trigger] ahead(a, b) && !#[trigger] ahead(b, c) ==> !ahead(a, c)
    &&& forall|a: V, b: V| a == b || #[trigger] ahead(a, b) || ahead(b, a)
}

/// A key by which items are put in order.
pub trait Rank: View + Sized {
    /// Whether an item of rank `a` stands ahead of one of rank `b`.
    spec fn ahead(a: Self::V, b: Self::V) -> bool;

    /// Ranks are totally ordered.
    proof fn is_total_order()
        ensures
            is_order(|a: Self::V, b: Self::V| Self::ahead(a, b)),
    ;

    /// Whether this rank stands ahead of another.
    fn is_ahead(&self, other: &Self) -> (r: bool)
        ensures
            r == Self::ahead(self@, other@),
    ;
}

/// The order of a kind of rank.
pub open spec fn order_of<K: Rank>() -> spec_fn(K::V, K::V) -> bool {
    |a: K::V, b: K::V| K::ahead(a, b)
}

// ---------------------------------------------------------------------------
// Ordered lists

/// The items of one rank, in order.
pub open spec fn of_rank<V, T>(list: Seq<(V, T)>, rank: V) -> Seq<(V, T)> {
    list.filter(|x: (V, T)| x.0 == rank)
}

/// Whether no item stands behind one that it is ahead of.
pub open spec fn in_order<V, T>(ahead: spec_fn(V, V) -> bool, list: Seq<(V, T)>) -> bool {
    forall|i: int, j: int|
        0 <= i < j < list.len() ==> !ahead((#[trigger] list[j]).0, (#[trigger] list[i]).0)
}

/// Whether `sorted` is `list` put in order: items of one rank keep their order,
/// and nothing is added or lost.
pub open spec fn ordered_from<V, T>(
    ahead: spec_fn(V, V) -> bool,
    list: Seq<(V, T)>,
    sorted: Seq<(V, T)>,
) -> bool {
    &&& in_order(ahead, sorted)
    &&& forall|rank: V| #[trigger] of_rank(sorted, rank) == of_rank(list, rank)
}

proof fn lemma_of_rank_front<V, T>(x: (V, T), rest: Seq<(V, T)>, rank: V)
    ensures
        of_rank(seq![x] + rest, rank) == (if x.0 == rank {
            seq![x] + of_rank(rest, rank)
        } else {
            of_rank(rest, rank)
        }),
{
    let keep = |y: (V, T)| y.0 == rank;
    Seq::filter_distributes_over_add(seq![x], rest, keep);
    reveal_with_fuel(Seq::filter, 2);
    assert(seq![x].drop_last() =~= Seq::<(V, T)>::empty());
    if x.0 != rank {
        assert(Seq::<(V, T)>::empty() + of_rank(rest, rank) =~= of_rank(rest, rank));
    }
}

proof fn lemma_of_rank_none<V, T>(list: Seq<(V, T)>, rank: V)
    requires
        forall|i: int| 0 <= i < list.len() ==> (#[trigger] list[i]).0 != rank,
    ensures
        of_rank(list, rank) == Seq::<(V, T)>::empty(),
    decreases list.len(),
{
    reveal(Seq::filter);
    if list.len() > 0 {
        lemma_of_rank_none(list.drop_last(), rank);
        assert(list.last() == list[list.len() - 1]);
    }
}

/// Placing `x` in front of the first item that is not ahead of it keeps a list
/// in order, and puts `x` in front of the items of its rank.
proof fn lemma_place<V, T>(
    ahead: spec_fn(V, V) -> bool,
    list: Seq<(V, T)>,
    x: (V, T),
    p: int,
)
    requires
        is_order(ahead),
        in_order(ahead, list),
        0 <= p <= list.len(),
        forall|j: int| 0 <= j < p ==> ahead((#[trigger] list[j]).0, x.0),
        p < list.len() ==> !ahead(list[p].0, x.0),
    ensures
        in_order(ahead, list.insert(p, x)),
        forall|rank: V| #[trigger]
            of_rank(list.insert(p, x), rank) == of_rank(seq![x] + list, rank),
{
    let placed = list.insert(p, x);
    let front = list.take(p);
    let back = list.skip(p);
    assert forall|i: int, j: int| 0 <= i < j < placed.len() implies !ahead(
        (#[trigger] placed[j]).0,
        (#[trigger] placed[i]).0,
    ) by {
        if j < p {
            assert(placed[i] == list[i] && placed[j] == list[j]);
        } else if j == p {
            assert(placed[i] == list[i]);
            assert(ahead(list[i].0, x.0));
        } else if i < p {
            assert(placed[i] == list[i] && placed[j] == list[j - 1]);
        } else if i == p {
            assert(placed[j] == list[j - 1]);
            if j - 1 > p {
                assert(!ahead(list[j - 1].0, list[p].0));
                assert(!ahead(list[p].0, x.0));
            }
        } else {
            assert(placed[i] == list[i - 1] && placed[j] == list[j - 1]);
        }
    }
    assert forall|rank: V| #[trigger]
        of_rank(placed, rank) == of_rank(seq![x] + list, rank) by {
        let keep = |y: (V, T)| y.0 == rank;
        assert(placed =~= front + (seq![x] + back));
        assert(list =~= front + back);
        Seq::filter_distributes_over_add(front, seq![x] + back, keep);
        Seq::filter_distributes_over_add(front, back, keep);
        lemma_of_rank_front(x, back, rank);
        lemma_of_rank_front(x, list, rank);
        if x.0 == rank {
            assert forall|i: int| 0 <= i < front.len() implies (#[trigger] front[i]).0 != rank by {
                assert(front[i] == list[i]);
                assert(ahead(list[i].0, x.0));
            }
            lemma_of_rank_none(front, rank);
            let e = Seq::<(V, T)>::empty();
            assert(e + (seq![x] + of_rank(back, rank)) =~= seq![x] + of_rank(back, rank));
            assert(e + of_rank(back, rank) =~= of_rank(back, rank));
        }
    }
}

/// What ordering gives is fixed: two lists that are both `list` put in order
/// are the same.
pub proof fn order_is_unique<V, T>(
    ahead: spec_fn(V, V) -> bool,
    list: Seq<(V, T)>,
    a: Seq<(V, T)>,
    b: Seq<(V, T)>,
)
    requires
        is_order(ahead),
        ordered_from(ahead, list, a),
        ordered_from(ahead, list, b),
    ensures
        a == b,
{
    assert forall|rank: V| #[trigger] of_rank(a, rank) == of_rank(b, rank) by {
        assert(of_rank(a, rank) == of_rank(list, rank));
        assert(of_rank(b, rank) == of_rank(list, rank));
    }
    lemma_same_groups(ahead, a, b);
}

proof fn lemma_same_groups<V, T>(
    ahead: spec_fn(V, V) -> bool,
    a: Seq<(V, T)>,
    b: Seq<(V, T)>,
)
    requires
        is_order(ahead),
        in_order(ahead, a),
        in_order(ahead, b),
        forall|rank: V| #[trigger] of_rank(a, rank) == of_rank(b, rank),
    ensures
        a == b,
    decreases a.len(),
{
    if a.len() == 0 {
        if b.len() > 0 {
            assert(b =~= seq![b[0]] + b.skip(1));
            lemma_of_rank_front(b[0], b.skip(1), b[0].0);
            lemma_of_rank_none(a, b[0].0);
            assert(of_rank(a, b[0].0) == of_rank(b, b[0].0));
            assert(false);
        }
        assert(a =~= b);
    } else {
        let i = a[0].0;
        assert(a =~= seq![a[0]] + a.skip(1));
        lemma_of_rank_front(a[0], a.skip(1), i);
        assert(of_rank(a, i) == of_rank(b, i));
        if b.len() == 0 {
            lemma_of_rank_none(b, i);
            assert(false);
        }
        let k = b[0].0;
        assert(b =~= seq![b[0]] + b.skip(1));
        lemma_of_rank_front(b[0], b.skip(1), k);
        assert(of_rank(a, k) == of_rank(b, k));
        if i != k {
            // Each head occurs in the other list, behind its head.
            lemma_member(b, i);
            lemma_member(a, k);
            let p = choose|p: int| 0 <= p < b.len() && (#[trigger] b[p]).0 == i;
            let q = choose|q: int| 0 <= q < a.len() && (#[trigger] a[q]).0 == k;
            assert(p > 0 && q > 0);
            assert(!ahead(b[p].0, b[0].0));
            assert(!ahead(a[q].0, a[0].0));
            assert(ahead(i, k) || ahead(k, i));
            assert(false);
        }
        assert(of_rank(a, i)[0] == a[0]);
        assert(of_rank(b, i)[0] == b[0]);
        let ra = a.skip(1);
        let rb = b.skip(1);
        assert forall|rank: V| #[trigger] of_rank(ra, rank) == of_rank(rb, rank) by {
            lemma_of_rank_front(a[0], ra, rank);
            lemma_of_rank_front(b[0], rb, rank);
            assert(of_rank(a, rank) == of_rank(b, rank));
            if rank == i {
                assert(of_rank(ra, rank) =~= of_rank(a, rank).skip(1));
                assert(of_rank(rb, rank) =~= of_rank(b, rank).skip(1));
            }
        }
        assert(in_order(ahead, ra)) by {
            assert forall|x: int, y: int| 0 <= x < y < ra.len() implies !ahead(
                (#[trigger] ra[y]).0,
                (#[trigger] ra[x]).0,
            ) by {
                assert(!ahead(a[y + 1].0, a[x + 1].0));
            }
        }
        assert(in_order(ahead, rb)) by {
            assert forall|x: int, y: int| 0 <= x < y < rb.len() implies !ahead(
                (#[trigger] rb[y]).0,
                (#[trigger] rb[x]).0,
            ) by {
                assert(!ahead(b[y + 1].0, b[x + 1].0));
            }
        }
        lemma_same_groups(ahead, ra, rb);
    }
}

proof fn lemma_member<V, T>(list: Seq<(V, T)>, rank: V)
    requires
        of_rank(list, rank).len() > 0,
    ensures
        exists|p: int| 0 <= p < list.len() && (#[trigger] list[p]).0 == rank,
{
    if forall|p: int| 0 <= p < list.len() ==> (#[trigger] list[p]).0 != rank {
        lemma_of_rank_none(list, rank);
    }
}

/// Ordering keeps every item exactly as often as it was there.
pub proof fn ordering_is_a_permutation<V, T>(
    ahead: spec_fn(V, V) -> bool,
    list: Seq<(V, T)>,
    sorted: Seq<(V, T)>,
)
    requires
        ordered_from(ahead, list, sorted),
    ensures
        sorted.to_multiset() == list.to_multiset(),
{
    assert forall|x: (V, T)| sorted.to_multiset().count(x) == list.to_multiset().count(x) by {
        lemma_count_in_group(sorted, x);
        lemma_count_in_group(list, x);
        assert(of_rank(sorted, x.0) == of_rank(list, x.0));
    }
    assert(sorted.to_multiset() =~= list.to_multiset());
}

proof fn lemma_count_in_group<V, T>(list: Seq<(V, T)>, x: (V, T))
    ensures
        list.to_multiset().count(x) == of_rank(list, x.0).to_multiset().count(x),
    decreases list.len(),
{
    broadcast use vstd::seq_lib::group_to_multiset_ensures;

    let keep = |y: (V, T)| y.0 == x.0;
    if list.len() == 0 {
        lemma_of_rank_none(list, x.0);
        assert(list =~= Seq::<(V, T)>::empty());
    } else {
        let init = list.drop_last();
        lemma_count_in_group(init, x);
        assert(list =~= init.push(list.last()));
        init.lemma_filter_push(list.last(), keep);
    }
}

/// Every item that was put in order was in the list.
pub proof fn ordered_items_were_there<V, T>(
    ahead: spec_fn(V, V) -> bool,
    list: Seq<(V, T)>,
    sorted: Seq<(V, T)>,
    i: int,
)
    requires
        ordered_from(ahead, list, sorted),
        0 <= i < sorted.len(),
    ensures
        list.contains(sorted[i]),
        sorted.len() == list.len(),
{
    broadcast use vstd::seq_lib::group_to_multiset_ensures;

    ordering_is_a_permutation(ahead, list, sorted);
    assert(sorted.contains(sorted[i]));
    assert(sorted.to_multiset().count(sorted[i]) > 0);
    assert(sorted.to_multiset().len() == sorted.len());
    assert(list.to_multiset().len() == list.len());
}

/// The items of a list, each replaced by what `f` makes of it.
pub open spec fn mapped<V, T, U>(list: Seq<(V, T)>, f: spec_fn(T) -> U) -> Seq<(V, U)> {
    list.map_values(|x: (V, T)| (x.0, f(x.1)))
}

/// Ordering does not look at the items: replacing each by what `f` makes of it
/// commutes with ordering.
pub proof fn ordering_commutes_with_mapping<V, T, U>(
    ahead: spec_fn(V, V) -> bool,
    list: Seq<(V, T)>,
    sorted: Seq<(V, T)>,
    f: spec_fn(T) -> U,
)
    requires
        ordered_from(ahead, list, sorted),
    ensures
        ordered_from(ahead, mapped(list, f), mapped(sorted, f)),
{
    assert forall|i: int, j: int| 0 <= i < j < mapped(sorted, f).len() implies !ahead(
        (#[trigger] mapped(sorted, f)[j]).0,
        (#[trigger] mapped(sorted, f)[i]).0,
    ) by {
        assert(!ahead(sorted[j].0, sorted[i].0));
    }
    assert forall|rank: V| #[trigger]
        of_rank(mapped(sorted, f), rank) == of_rank(mapped(list, f), rank) by {
        lemma_of_rank_mapped(list, f, rank);
        lemma_of_rank_mapped(sorted, f, rank);
        assert(of_rank(sorted, rank) == of_rank(list, rank));
    }
}

proof fn lemma_of_rank_mapped<V, T, U>(list: Seq<(V, T)>, f: spec_fn(T) -> U, rank: V)
    ensures
        of_rank(mapped(list, f), rank) == mapped(of_rank(list, rank), f),
    decreases list.len(),
{
    reveal(Seq::filter);
    if list.len() == 0 {
        assert(mapped(list, f) =~= Seq::<(V, U)>::empty());
        assert(mapped(of_rank(list, rank), f) =~= Seq::<(V, U)>::empty());
    } else {
        let init = list.drop_last();
        lemma_of_rank_mapped(init, f, rank);
        assert(mapped(list, f).drop_last() =~= mapped(init, f));
        if list.last().0 == rank {
            assert(mapped(of_rank(init, rank).push(list.last()), f) =~= mapped(
                of_rank(init, rank),
                f,
            ).push((list.last().0, f(list.last().1))));
        }
    }
}

// ---------------------------------------------------------------------------
// Putting a list in order

/// An item with its rank.
pub struct Ranked<K, T> {
    pub rank: K,
    pub item: T,
}

/// The items of a list with the views of their ranks.
pub open spec fn ranks<K: Rank, T>(list: Seq<Ranked<K, T>>) -> Seq<(K::V, T)> {
    list.map_values(|x: Ranked<K, T>| (x.rank@, x.item))
}

/// Puts a list in order; items of one rank keep their order.
pub fn put_in_order<K: Rank, T>(list: Vec<Ranked<K, T>>) -> (r: Vec<Ranked<K, T>>)
    ensures
        ordered_from(order_of::<K>(), ranks(list@), ranks(r@)),
{
    let ghost all = ranks(list@);
    let ghost ahead = order_of::<K>();
    let mut rest = list;
    let mut out: Vec<Ranked<K, T>> = Vec::new();
    proof {
        K::is_total_order();
        assert(all.skip(all.len() as int) =~= Seq::<(K::V, T)>::empty());
        assert(ranks(out@) =~= Seq::<(K::V, T)>::empty());
        assert(ranks(rest@) =~= all.take(all.len() as int));
    }
    while rest.len() > 0
        invariant
            ahead == order_of::<K>(),
            is_order(ahead),
            rest@.len() <= all.len(),
            ranks(rest@) == all.take(rest@.len() as int),
            in_order(ahead, ranks(out@)),
            forall|rank: K::V| #[trigger]
                of_rank(ranks(out@), rank) == of_rank(all.skip(rest@.len() as int), rank),
        decreases rest@.len(),
    {
        let ghost before = rest@;
        match rest.pop() {
            None => {},
            Some(x) => {
                let mut p: usize = 0;
                while p < out.len() && out[p].rank.is_ahead(&x.rank)
                    invariant
                        p <= out@.len(),
                        forall|j: int|
                            0 <= j < p ==> K::ahead((#[trigger] ranks(out@)[j]).0, x.rank@),
                    decreases out@.len() - p,
                {
                    p = p + 1;
                }
                let ghost sorted = out@;
                out.insert(p, x);
                proof {
                    let n = rest@.len() as int;
                    let y = (x.rank@, x.item);
                    assert(ranks(before)[n] == y);
                    assert(ranks(rest@) =~= all.take(n));
                    assert(all[n] == y);
                    assert(ranks(out@) =~= ranks(sorted).insert(p as int, y));
                    lemma_place(ahead, ranks(sorted), y, p as int);
                    assert(all.skip(n) =~= seq![y] + all.skip(n + 1));
                    assert forall|rank: K::V| #[trigger]
                        of_rank(ranks(out@), rank) == of_rank(all.skip(n), rank) by {
                        assert(of_rank(ranks(sorted).insert(p as int, y), rank) == of_rank(
                            seq![y] + ranks(sorted),
                            rank,
                        ));
                        lemma_of_rank_front(y, ranks(sorted), rank);
                        lemma_of_rank_front(y, all.skip(n + 1), rank);
                        assert(of_rank(ranks(sorted), rank) == of_rank(all.skip(n + 1), rank));
                    }
                }
            },
        }
    }
    assert(all.skip(0) =~= all);
    out
}

/// The items of one rank are all of them, in order: one more item of the rank
/// stands behind the others, and an item of another rank makes no difference.
pub proof fn groups_grow_at_the_end<V, T>(list: Seq<(V, T)>, x: (V, T), rank: V)
    ensures
        of_rank(Seq::<(V, T)>::empty(), rank) == Seq::<(V, T)>::empty(),
        x.0 == rank ==> of_rank(list.push(x), rank) == of_rank(list, rank).push(x),
        x.0 != rank ==> of_rank(list.push(x), rank) == of_rank(list, rank),
{
    reveal(Seq::filter);
    list.lemma_filter_push(x, |y: (V, T)| y.0 == rank);
}

} // verus!
