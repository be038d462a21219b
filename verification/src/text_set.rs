//! Sets of texts, kept in order.

use vstd::prelude::*;

use crate::text;

verus! {

/// Whether `a` stands before `b` in the order of their code points, which is
/// also the order of their bytes in UTF-8.
pub open spec fn before(a: Seq<char>, b: Seq<char>) -> bool
    decreases a.len(),
{
    if b.len() == 0 {
        false
    } else if a.len() == 0 {
        true
    } else if a[0] != b[0] {
        a[0] < b[0]
    } else {
        before(a.skip(1), b.skip(1))
    }
}

/// Whether every entry of a list stands before all that follow it.
pub open spec fn ascending(list: Seq<Seq<char>>) -> bool {
    forall|i: int, j: int| 0 <= i < j < list.len() ==> before(#[trigger] list[i], #[trigger] list[j])
}

/// No text stands before itself.
pub proof fn before_is_irreflexive(a: Seq<char>)
    ensures
        !before(a, a),
    decreases a.len(),
{
    if a.len() > 0 {
        before_is_irreflexive(a.skip(1));
    }
}

/// What stands before a text stands before all that follow it.
pub proof fn before_is_transitive(a: Seq<char>, b: Seq<char>, c: Seq<char>)
    requires
        before(a, b),
        before(b, c),
    ensures
        before(a, c),
    decreases a.len(),
{
    if a.len() > 0 && a[0] == b[0] && b[0] == c[0] {
        before_is_transitive(a.skip(1), b.skip(1), c.skip(1));
    }
}

/// Of two different texts one stands before the other.
pub proof fn before_is_total(a: Seq<char>, b: Seq<char>)
    ensures
        a == b || before(a, b) || before(b, a),
    decreases a.len(),
{
    if a.len() == 0 || b.len() == 0 {
        if a.len() == 0 && b.len() == 0 {
            assert(a =~= b);
        }
    } else if a[0] == b[0] {
        before_is_total(a.skip(1), b.skip(1));
        if a.skip(1) == b.skip(1) {
            assert(a =~= seq![a[0]] + a.skip(1));
            assert(b =~= seq![b[0]] + b.skip(1));
        }
    }
}

/// Two ascending lists of the same texts are the same list.
pub proof fn ascending_lists_are_unique(a: Seq<Seq<char>>, b: Seq<Seq<char>>)
    requires
        ascending(a),
        ascending(b),
        a.to_set() == b.to_set(),
    ensures
        a == b,
    decreases a.len(),
{
    if a.len() == 0 {
        if b.len() > 0 {
            assert(b.to_set().contains(b[0]));
            assert(a.to_set().contains(b[0]));
        }
        assert(a =~= b);
    } else {
        assert(a.to_set().contains(a[0]));
        assert(b.to_set().contains(a[0]));
        let k = choose|k: int| 0 <= k < b.len() && b[k] == a[0];
        assert(b.to_set().contains(b[0]));
        assert(a.to_set().contains(b[0]));
        let m = choose|m: int| 0 <= m < a.len() && a[m] == b[0];
        if k != 0 {
            assert(before(b[0], b[k]));
            if m > 0 {
                assert(before(a[0], a[m]));
                before_is_transitive(a[0], b[0], a[0]);
            }
            before_is_irreflexive(a[0]);
            assert(false);
        }
        let ra = a.skip(1);
        let rb = b.skip(1);
        assert(ascending(ra)) by {
            assert forall|i: int, j: int| 0 <= i < j < ra.len() implies before(
                #[trigger] ra[i],
                #[trigger] ra[j],
            ) by {
                assert(before(a[i + 1], a[j + 1]));
            }
        }
        assert(ascending(rb)) by {
            assert forall|i: int, j: int| 0 <= i < j < rb.len() implies before(
                #[trigger] rb[i],
                #[trigger] rb[j],
            ) by {
                assert(before(b[i + 1], b[j + 1]));
            }
        }
        assert forall|x: Seq<char>| ra.to_set().contains(x) <==> rb.to_set().contains(x) by {
            if ra.contains(x) {
                let i = choose|i: int| 0 <= i < ra.len() && ra[i] == x;
                assert(a[i + 1] == x);
                assert(a.to_set().contains(x));
                assert(b.to_set().contains(x));
                let j = choose|j: int| 0 <= j < b.len() && b[j] == x;
                assert(before(a[0], a[i + 1]));
                before_is_irreflexive(a[0]);
                assert(j > 0);
                assert(rb[j - 1] == x);
            }
            if rb.contains(x) {
                let j = choose|j: int| 0 <= j < rb.len() && rb[j] == x;
                assert(b[j + 1] == x);
                assert(b.to_set().contains(x));
                assert(a.to_set().contains(x));
                let i = choose|i: int| 0 <= i < a.len() && a[i] == x;
                assert(before(b[0], b[j + 1]));
                before_is_irreflexive(b[0]);
                assert(i > 0);
                assert(ra[i - 1] == x);
            }
        }
        assert(ra.to_set() =~= rb.to_set());
        ascending_lists_are_unique(ra, rb);
        assert(a =~= seq![a[0]] + ra);
        assert(b =~= seq![b[0]] + rb);
    }
}

/// Whether `a` stands before `b`.
pub fn stands_before(a: &str, b: &str) -> (r: bool)
    ensures
        r == before(a@, b@),
{
    let x = text::chars_of(a);
    let y = text::chars_of(b);
    let mut i: usize = 0;
    assert(x@.skip(0) == x@);
    assert(y@.skip(0) == y@);
    while i < x.len() && i < y.len()
        invariant
            i <= x@.len(),
            i <= y@.len(),
            x@ == a@,
            y@ == b@,
            before(x@, y@) == before(x@.skip(i as int), y@.skip(i as int)),
        decreases x@.len() - i,
    {
        let ghost s = x@.skip(i as int);
        let ghost t = y@.skip(i as int);
        assert(s[0] == x@[i as int] && t[0] == y@[i as int]);
        if x[i] != y[i] {
            return x[i] < y[i];
        }
        assert(s.skip(1) == x@.skip(i + 1));
        assert(t.skip(1) == y@.skip(i + 1));
        i = i + 1;
    }
    i < y.len()
}

/// A set of texts.
#[derive(Debug, Clone, PartialEq, Eq)]
pub struct TextSet {
    items: Vec<String>,
}

impl View for TextSet {
    type V = Set<Seq<char>>;

    closed spec fn view(&self) -> Set<Seq<char>> {
        text::views(self.items@).to_set()
    }
}

impl TextSet {
    /// The entries are kept in ascending order.
    pub closed spec fn wf(&self) -> bool {
        ascending(text::views(self.items@))
    }

    /// The empty set.
    pub fn new() -> (r: TextSet)
        ensures
            r.wf(),
            r@ == Set::<Seq<char>>::empty(),
    {
        let r = TextSet { items: Vec::new() };
        assert(r@ =~= Set::<Seq<char>>::empty());
        r
    }

    /// The place of `x`: the number of entries that stand before it.
    fn place(&self, x: &str) -> (r: usize)
        requires
            self.wf(),
        ensures
            r <= self.items@.len(),
            forall|j: int| 0 <= j < r ==> before(#[trigger] text::views(self.items@)[j], x@),
            forall|j: int|
                r <= j < self.items@.len() ==> !before(#[trigger] text::views(self.items@)[j], x@),
    {
        let ghost all = text::views(self.items@);
        let mut i: usize = 0;
        while i < self.items.len() && stands_before(self.items[i].as_str(), x)
            invariant
                i <= self.items@.len(),
                all == text::views(self.items@),
                forall|j: int| 0 <= j < i ==> before(#[trigger] all[j], x@),
            decreases self.items@.len() - i,
        {
            i = i + 1;
        }
        assert forall|j: int| i <= j < all.len() implies !before(#[trigger] all[j], x@) by {
            if j > i && before(all[j], x@) {
                assert(before(all[i as int], all[j]));
                before_is_transitive(all[i as int], all[j], x@);
            }
        }
        i
    }

    /// Whether `x` is in the set.
    pub fn contains(&self, x: &str) -> (r: bool)
        requires
            self.wf(),
        ensures
            r == self@.contains(x@),
    {
        let ghost all = text::views(self.items@);
        let i = self.place(x);
        if i < self.items.len() && text::same(self.items[i].as_str(), x) {
            assert(all[i as int] == x@);
            true
        } else {
            proof {
                if all.contains(x@) {
                    let k = choose|k: int| 0 <= k < all.len() && all[k] == x@;
                    before_is_irreflexive(x@);
                    if k > i {
                        assert(before(all[i as int], all[k]));
                    }
                }
            }
            false
        }
    }

    /// Puts `x` into the set, and tells whether it was not in it before.
    pub fn insert(&mut self, x: &str) -> (r: bool)
        requires
            old(self).wf(),
        ensures
            final(self).wf(),
            final(self)@ == old(self)@.insert(x@),
            r == !old(self)@.contains(x@),
    {
        if self.contains(x) {
            assert(self@ =~= old(self)@.insert(x@));
            return false;
        }
        let ghost all = text::views(self.items@);
        let i = self.place(x);
        self.items.insert(i, x.to_owned());
        proof {
            let now = text::views(self.items@);
            assert(now =~= all.insert(i as int, x@));
            assert forall|a: int, b: int| 0 <= a < b < now.len() implies before(
                #[trigger] now[a],
                #[trigger] now[b],
            ) by {
                if a < i && b > i {
                    assert(before(all[a], all[b - 1]));
                } else if a < i && b < i {
                    assert(before(all[a], all[b]));
                } else if a == i {
                    let later = all[b - 1];
                    before_is_total(later, x@);
                    assert(all.contains(later));
                    assert(later != x@);
                } else if a > i {
                    assert(before(all[a - 1], all[b - 1]));
                }
            }
            assert forall|t: Seq<char>| now.to_set().contains(t) <==> all.to_set().insert(
                x@,
            ).contains(t) by {
                if now.contains(t) {
                    let k = choose|k: int| 0 <= k < now.len() && now[k] == t;
                    if k < i {
                        assert(all[k] == t);
                    } else if k > i {
                        assert(all[k - 1] == t);
                    }
                }
                if all.contains(t) {
                    let k = choose|k: int| 0 <= k < all.len() && all[k] == t;
                    if k < i {
                        assert(now[k] == t);
                    } else {
                        assert(now[k + 1] == t);
                    }
                }
                assert(now[i as int] == x@);
            }
            assert(self@ =~= old(self)@.insert(x@));
        }
        true
    }

    /// The texts of the set in ascending order.
    pub fn to_list(&self) -> (r: Vec<String>)
        requires
            self.wf(),
        ensures
            ascending(text::views(r@)),
            text::views(r@).to_set() == self@,
    {
        let mut out: Vec<String> = Vec::new();
        let mut i: usize = 0;
        while i < self.items.len()
            invariant
                i <= self.items@.len(),
                out@ == self.items@.take(i as int),
            decreases self.items@.len() - i,
        {
            out.push(self.items[i].clone());
            assert(self.items@.take(i + 1) == self.items@.take(i as int).push(
                self.items@[i as int],
            ));
            i = i + 1;
        }
        assert(self.items@.take(self.items@.len() as int) == self.items@);
        out
    }

    /// The set of the texts of a list.
    pub fn from_list(list: &Vec<String>) -> (r: TextSet)
        ensures
            r.wf(),
            r@ == text::views(list@).to_set(),
    {
        let ghost all = text::views(list@);
        let mut out = TextSet::new();
        let mut i: usize = 0;
        assert(all.take(0).to_set() =~= Set::<Seq<char>>::empty());
        while i < list.len()
            invariant
                i <= list@.len(),
                all == text::views(list@),
                out.wf(),
                out@ == all.take(i as int).to_set(),
            decreases list@.len() - i,
        {
            let _ = out.insert(list[i].as_str());
            proof {
                assert(all.take(i + 1) == all.take(i as int).push(all[i as int]));
                all.take(i as int).lemma_push_to_set_commute(all[i as int]);
            }
            i = i + 1;
        }
        assert(all.take(list@.len() as int) == all);
        out
    }

    /// How many texts the set holds.
    pub fn len(&self) -> (r: usize)
        requires
            self.wf(),
        ensures
            r == self@.len(),
    {
        proof {
            let all = text::views(self.items@);
            assert(all.no_duplicates()) by {
                assert forall|i: int, j: int| 0 <= i < j < all.len() implies all[i] != all[j] by {
                    assert(before(all[i], all[j]));
                    before_is_irreflexive(all[i]);
                }
            }
            all.unique_seq_to_set();
        }
        self.items.len()
    }
}

/// Texts stand in the order of a dictionary: where two first differ, the one
/// with the lesser character stands before the other, whatever follows; and a
/// text stands before all that it begins.
pub proof fn before_is_the_order_of_a_dictionary(
    same: Seq<char>,
    c: char,
    d: char,
    x: Seq<char>,
    y: Seq<char>,
)
    ensures
        c < d ==> before(same.push(c) + x, same.push(d) + y) && !before(
            same.push(d) + y,
            same.push(c) + x,
        ),
        before(same, same.push(c) + x),
        !before(same.push(c) + x, same),
    decreases same.len(),
{
    let a = same.push(c) + x;
    let b = same.push(d) + y;
    if same.len() == 0 {
        assert(a[0] == c && b[0] == d);
    } else {
        let rest = same.skip(1);
        before_is_the_order_of_a_dictionary(rest, c, d, x, y);
        assert(a[0] == same[0] && b[0] == same[0]);
        assert(a.skip(1) =~= rest.push(c) + x);
        assert(b.skip(1) =~= rest.push(d) + y);
    }
}

} // verus!
