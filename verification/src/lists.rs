//! Lists without repeated entries, in the order of first appearance.

use vstd::prelude::*;

use crate::text;

verus! {

/// `list` with `x` at its end, unless `x` is already in it.
pub open spec fn with_new<T>(list: Seq<T>, x: T) -> Seq<T> {
    if list.contains(x) {
        list
    } else {
        list.push(x)
    }
}

/// `list` followed by those of `more` that are not in it yet, in order.
pub open spec fn merged<T>(list: Seq<T>, more: Seq<T>) -> Seq<T>
    decreases more.len(),
{
    if more.len() == 0 {
        list
    } else {
        with_new(merged(list, more.drop_last()), more.last())
    }
}

/// Merging keeps what was there first, adds every new entry, and adds nothing
/// else. Where the first list has no repetitions, neither has the result.
pub proof fn merged_holds_both<T>(list: Seq<T>, more: Seq<T>)
    ensures
        list.is_prefix_of(merged(list, more)),
        forall|x: T| #[trigger]
            merged(list, more).contains(x) <==> list.contains(x) || more.contains(x),
        list.no_duplicates() ==> merged(list, more).no_duplicates(),
    decreases more.len(),
{
    if more.len() > 0 {
        let init = more.drop_last();
        merged_holds_both(list, init);
        let m = merged(list, init);
        let r = merged(list, more);
        assert(more == init.push(more.last()));
        assert forall|x: T| #[trigger] r.contains(x) <==> list.contains(x) || more.contains(x) by {
            broadcast use vstd::seq_lib::group_seq_properties;

            assert(init.push(more.last()).contains(x) <==> init.contains(x) || x == more.last());
            assert(m.push(more.last()).contains(x) <==> m.contains(x) || x == more.last());
        }
        assert forall|i: int| 0 <= i < list.len() implies list[i] == r[i] by {
            assert(list[i] == m[i]);
        }
    }
}

/// Whether `list` holds the text `x`.
pub fn contains_text(list: &Vec<String>, x: &str) -> (r: bool)
    ensures
        r == text::views(list@).contains(x@),
{
    let mut i: usize = 0;
    while i < list.len()
        invariant
            i <= list@.len(),
            forall|j: int| 0 <= j < i ==> text::views(list@)[j] != x@,
        decreases list@.len() - i,
    {
        if text::same(list[i].as_str(), x) {
            assert(text::views(list@)[i as int] == x@);
            return true;
        }
        i = i + 1;
    }
    false
}

/// Puts `x` at the end of `list` unless it is already in it.
pub fn push_new(list: &mut Vec<String>, x: &str)
    ensures
        text::views(final(list)@) == with_new(text::views(old(list)@), x@),
{
    if !contains_text(list, x) {
        let ghost before = list@;
        list.push(x.to_owned());
        assert(text::views(list@) == text::views(before).push(x@));
    }
}

/// Puts those of `more` that are not in `list` yet at its end, in order.
pub fn merge(list: Vec<String>, more: &Vec<String>) -> (r: Vec<String>)
    ensures
        text::views(r@) == merged(text::views(list@), text::views(more@)),
{
    let mut out = list;
    let ghost first = text::views(out@);
    let ghost rest = text::views(more@);
    let mut i: usize = 0;
    assert(rest.take(0) == Seq::<Seq<char>>::empty());
    while i < more.len()
        invariant
            i <= more@.len(),
            rest == text::views(more@),
            text::views(out@) == merged(first, rest.take(i as int)),
        decreases more@.len() - i,
    {
        assert(rest.take(i + 1).drop_last() == rest.take(i as int));
        assert(rest.take(i + 1).last() == more@[i as int]@);
        push_new(&mut out, more[i].as_str());
        i = i + 1;
    }
    assert(rest.take(more@.len() as int) == rest);
    out
}

/// Merging takes the entries of the second list one by one, in order: an entry
/// that is there already changes nothing, and any other is added at the end.
pub proof fn merging_adds_new_entries_at_the_end<T>(list: Seq<T>, more: Seq<T>, x: T)
    ensures
        merged(list, Seq::empty()) == list,
        list.contains(x) || more.contains(x) ==> merged(list, more.push(x)) == merged(list, more),
        !list.contains(x) && !more.contains(x) ==> merged(list, more.push(x)) == merged(
            list,
            more,
        ).push(x),
{
    merged_holds_both(list, more);
    assert(more.push(x).drop_last() =~= more);
}

} // verus!
