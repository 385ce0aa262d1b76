//! Sequences woven together: how results that several producers send at the
//! same time come to stand in one stream.

use vstd::prelude::*;

verus! {

/// The items of `whole` that come from `part`, in their order, where
/// `origin` says for each item of `whole` from which part it comes.
pub open spec fn picked<T>(whole: Seq<T>, origin: Seq<int>, part: int) -> Seq<T>
    decreases whole.len(),
{
    if whole.len() == 0 || origin.len() != whole.len() {
        Seq::empty()
    } else {
        let before = picked(whole.drop_last(), origin.drop_last(), part);
        if origin.last() == part {
            before.push(whole.last())
        } else {
            before
        }
    }
}

/// With each item of `whole` taken from the part that `origin` names for it,
/// every one of `parts` is used up, item for item and in its own order.
pub open spec fn weaves<T>(whole: Seq<T>, origin: Seq<int>, parts: Seq<Seq<T>>) -> bool {
    &&& origin.len() == whole.len()
    &&& forall|i: int| 0 <= i < origin.len() ==> 0 <= #[trigger] origin[i] < parts.len()
    &&& forall|part: int|
        0 <= part < parts.len() ==> #[trigger] picked(whole, origin, part) == parts[part]
}

/// `whole` is `parts` woven together: it holds the items of every part, each
/// part in its own order, and nothing else. How the parts are mixed is open.
pub open spec fn woven<T>(whole: Seq<T>, parts: Seq<Seq<T>>) -> bool {
    exists|origin: Seq<int>| weaves(whole, origin, parts)
}

/// One more item at the end goes to the end of the part it comes from, and
/// leaves the other parts as they were.
pub proof fn lemma_picked_push<T>(whole: Seq<T>, origin: Seq<int>, item: T, from: int, part: int)
    requires
        origin.len() == whole.len(),
    ensures
        picked(whole.push(item), origin.push(from), part) == if part == from {
            picked(whole, origin, part).push(item)
        } else {
            picked(whole, origin, part)
        },
{
    assert(whole.push(item).drop_last() =~= whole);
    assert(origin.push(from).drop_last() =~= origin);
}

/// A part from which no item comes is empty.
pub proof fn lemma_picked_nothing<T>(whole: Seq<T>, origin: Seq<int>, part: int)
    requires
        origin.len() == whole.len(),
        forall|i: int| 0 <= i < origin.len() ==> origin[i] != part,
    ensures
        picked(whole, origin, part) == Seq::<T>::empty(),
    decreases whole.len(),
{
    if whole.len() > 0 {
        lemma_picked_nothing(whole.drop_last(), origin.drop_last(), part);
    }
}

/// The items of each part keep their order: the item at `at` in the whole
/// stands in its part behind exactly those items of that part that stand
/// before it in the whole.
pub proof fn lemma_picked_keeps_order<T>(whole: Seq<T>, origin: Seq<int>, part: int, at: int)
    requires
        origin.len() == whole.len(),
        0 <= at < whole.len(),
        origin[at] == part,
    ensures
        picked(whole.take(at), origin.take(at), part).len() < picked(whole, origin, part).len(),
        picked(whole, origin, part)[picked(whole.take(at), origin.take(at), part).len() as int]
            == whole[at],
        picked(whole.take(at), origin.take(at), part) == picked(whole, origin, part).take(
            picked(whole.take(at), origin.take(at), part).len() as int,
        ),
    decreases whole.len(),
{
    let shorter = whole.drop_last();
    let shorter_origin = origin.drop_last();
    if at == whole.len() - 1 {
        assert(whole.take(at) =~= shorter);
        assert(origin.take(at) =~= shorter_origin);
        assert(picked(whole, origin, part).take(picked(shorter, shorter_origin, part).len() as int)
            =~= picked(shorter, shorter_origin, part));
    } else {
        lemma_picked_keeps_order(shorter, shorter_origin, part, at);
        assert(shorter.take(at) =~= whole.take(at));
        assert(shorter_origin.take(at) =~= origin.take(at));
        let before = picked(whole.take(at), origin.take(at), part);
        assert(picked(whole, origin, part).take(before.len() as int) =~= picked(
            shorter,
            shorter_origin,
            part,
        ).take(before.len() as int));
    }
}

} // verus!
