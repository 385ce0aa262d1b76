//! Sums of multisets and of numbers along a sequence.

use vstd::prelude::*;
use vstd::multiset::Multiset;

verus! {

/// The sum of the first `count` of `parts`.
pub open spec fn total<T>(parts: Seq<Multiset<T>>, count: nat) -> Multiset<T>
    decreases count,
{
    if count == 0 || count > parts.len() {
        Multiset::empty()
    } else {
        total(parts, (count - 1) as nat).add(parts[count - 1])
    }
}

/// The sum of the first `count` of `parts`.
pub open spec fn weigh(parts: Seq<nat>, count: nat) -> nat
    decreases count,
{
    if count == 0 || count > parts.len() {
        0
    } else {
        weigh(parts, (count - 1) as nat) + parts[count - 1]
    }
}

/// Sequences that agree on their first `count` parts have the same sum of
/// them.
pub proof fn lemma_total_of_equal_parts<T>(
    parts: Seq<Multiset<T>>,
    others: Seq<Multiset<T>>,
    count: nat,
)
    requires
        count <= parts.len(),
        count <= others.len(),
        forall|i: int| 0 <= i < count ==> parts[i] == others[i],
    ensures
        total(parts, count) == total(others, count),
    decreases count,
{
    if count > 0 {
        lemma_total_of_equal_parts(parts, others, (count - 1) as nat);
    }
}

/// One more part, wherever it is put, adds itself to the sum.
pub proof fn lemma_total_with_insertion<T>(
    parts: Seq<Multiset<T>>,
    position: int,
    extra: Multiset<T>,
    count: nat,
)
    requires
        0 <= position < count <= parts.len() + 1,
    ensures
        total(parts.insert(position, extra), count) == total(parts, (count - 1) as nat).add(extra),
    decreases count,
{
    let longer = parts.insert(position, extra);
    if count == position + 1 {
        lemma_total_of_equal_parts(longer, parts, position as nat);
    } else {
        lemma_total_with_insertion(parts, position, extra, (count - 1) as nat);
        assert(longer[count - 1] == parts[count - 2]);
        assert(total(longer, count) =~= total(parts, (count - 1) as nat).add(extra));
    }
}

/// A part that grows by `extra` makes the sum grow by as much.
pub proof fn lemma_total_with_growth<T>(
    parts: Seq<Multiset<T>>,
    others: Seq<Multiset<T>>,
    at: int,
    extra: Multiset<T>,
    count: nat,
)
    requires
        parts.len() == others.len(),
        0 <= at < count <= parts.len(),
        forall|i: int| 0 <= i < parts.len() && i != at ==> others[i] == parts[i],
        others[at] == parts[at].add(extra),
    ensures
        total(others, count) == total(parts, count).add(extra),
    decreases count,
{
    if count == at + 1 {
        lemma_total_of_equal_parts(others, parts, at as nat);
        assert(total(others, count) =~= total(parts, count).add(extra));
    } else {
        lemma_total_with_growth(parts, others, at, extra, (count - 1) as nat);
        assert(total(others, count) =~= total(parts, count).add(extra));
    }
}

/// Each of the first `count` parts is within their sum.
pub proof fn lemma_total_holds_part<T>(parts: Seq<Multiset<T>>, index: int, count: nat)
    requires
        0 <= index < count <= parts.len(),
    ensures
        parts[index].subset_of(total(parts, count)),
    decreases count,
{
    if index < count - 1 {
        lemma_total_holds_part(parts, index, (count - 1) as nat);
    }
}

/// A part taken out, wherever it stood, takes itself from the sum.
pub proof fn lemma_total_with_removal<T>(parts: Seq<Multiset<T>>, position: int)
    requires
        0 <= position < parts.len(),
    ensures
        total(parts, parts.len()) == total(parts.remove(position), (parts.len() - 1) as nat).add(
            parts[position],
        ),
{
    let shorter = parts.remove(position);
    assert(shorter.insert(position, parts[position]) =~= parts);
    lemma_total_with_insertion(shorter, position, parts[position], parts.len());
}

/// Sequences that agree on their first `count` parts have the same sum of
/// them.
pub proof fn lemma_weigh_of_equal_parts(parts: Seq<nat>, others: Seq<nat>, count: nat)
    requires
        count <= parts.len(),
        count <= others.len(),
        forall|i: int| 0 <= i < count ==> parts[i] == others[i],
    ensures
        weigh(parts, count) == weigh(others, count),
    decreases count,
{
    if count > 0 {
        lemma_weigh_of_equal_parts(parts, others, (count - 1) as nat);
    }
}

/// One more part, wherever it is put, adds itself to the sum.
pub proof fn lemma_weigh_with_insertion(parts: Seq<nat>, position: int, extra: nat, count: nat)
    requires
        0 <= position < count <= parts.len() + 1,
    ensures
        weigh(parts.insert(position, extra), count) == weigh(parts, (count - 1) as nat) + extra,
    decreases count,
{
    let longer = parts.insert(position, extra);
    if count == position + 1 {
        lemma_weigh_of_equal_parts(longer, parts, position as nat);
    } else {
        lemma_weigh_with_insertion(parts, position, extra, (count - 1) as nat);
        assert(longer[count - 1] == parts[count - 2]);
    }
}

/// A part taken out, wherever it stood, takes itself from the sum.
pub proof fn lemma_weigh_with_removal(parts: Seq<nat>, position: int)
    requires
        0 <= position < parts.len(),
    ensures
        weigh(parts, parts.len()) == weigh(parts.remove(position), (parts.len() - 1) as nat)
            + parts[position],
{
    let shorter = parts.remove(position);
    assert(shorter.insert(position, parts[position]) =~= parts);
    lemma_weigh_with_insertion(shorter, position, parts[position], parts.len());
}

} // verus!
