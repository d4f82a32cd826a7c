//! Order-preserving removal of repeated items, as a mathematical function on
//! sequences, with the facts the rest of the crate needs about it.

use vstd::prelude::*;

verus! {

/// `base`, followed by each item of `items` that occurs neither in `base` nor
/// earlier in `items`, in the order of first occurrence.
pub open spec fn absorb<T>(base: Seq<T>, items: Seq<T>) -> Seq<T>
    decreases items.len(),
{
    if items.len() == 0 {
        base
    } else {
        let sofar = absorb(base, items.drop_last());
        if sofar.contains(items.last()) {
            sofar
        } else {
            sofar.push(items.last())
        }
    }
}

/// The items of `items` without repetition, each at the place of its first
/// occurrence.
pub open spec fn first_occurrences<T>(items: Seq<T>) -> Seq<T> {
    absorb(Seq::<T>::empty(), items)
}

/// Absorbing one more item either changes nothing or appends that item.
pub proof fn lemma_absorb_push<T>(base: Seq<T>, items: Seq<T>, x: T)
    ensures
        absorb(base, items.push(x)) == if absorb(base, items).contains(x) {
            absorb(base, items)
        } else {
            absorb(base, items).push(x)
        },
{
    assert(items.push(x).drop_last() =~= items);
}

/// An item is in the result exactly when it is in the base or among the items.
pub proof fn lemma_absorb_contains<T>(base: Seq<T>, items: Seq<T>, x: T)
    ensures
        absorb(base, items).contains(x) <==> base.contains(x) || items.contains(x),
    decreases items.len(),
{
    if items.len() > 0 {
        let front = items.drop_last();
        lemma_absorb_contains(base, front, x);
        lemma_absorb_contains(base, front, items.last());
        let sofar = absorb(base, front);
        assert(items =~= front.push(items.last()));
        if items.contains(x) {
            let i = choose|i: int| 0 <= i < items.len() && items[i] == x;
            if i < front.len() {
                assert(front[i] == x);
            }
        }
        if front.contains(x) {
            let i = choose|i: int| 0 <= i < front.len() && front[i] == x;
            assert(items[i] == x);
        }
        if !sofar.contains(items.last()) {
            let grown = sofar.push(items.last());
            assert(grown[sofar.len() as int] == items.last());
            if sofar.contains(x) {
                let i = choose|i: int| 0 <= i < sofar.len() && sofar[i] == x;
                assert(grown[i] == x);
            }
        }
        assert(items[items.len() - 1] == items.last());
    }
}

/// A base without repetition gives a result without repetition.
pub proof fn lemma_absorb_no_duplicates<T>(base: Seq<T>, items: Seq<T>)
    requires
        base.no_duplicates(),
    ensures
        absorb(base, items).no_duplicates(),
    decreases items.len(),
{
    if items.len() > 0 {
        lemma_absorb_no_duplicates(base, items.drop_last());
    }
}

/// Absorbing a concatenation is absorbing its parts in turn.
pub proof fn lemma_absorb_concat<T>(base: Seq<T>, a: Seq<T>, b: Seq<T>)
    ensures
        absorb(base, a + b) == absorb(absorb(base, a), b),
    decreases b.len(),
{
    if b.len() == 0 {
        assert(a + b =~= a);
    } else {
        lemma_absorb_concat(base, a, b.drop_last());
        assert((a + b).drop_last() =~= a + b.drop_last());
        assert((a + b).last() == b.last());
    }
}

/// Removing repetitions leaves as many items as there are distinct ones.
pub proof fn lemma_first_occurrences_count<T>(items: Seq<T>)
    ensures
        first_occurrences(items).no_duplicates(),
        first_occurrences(items).to_set() == items.to_set(),
        first_occurrences(items).len() == items.to_set().len(),
{
    let kept = first_occurrences(items);
    lemma_absorb_no_duplicates(Seq::<T>::empty(), items);
    assert forall|x: T| kept.to_set().contains(x) <==> items.to_set().contains(x) by {
        lemma_absorb_contains(Seq::<T>::empty(), items, x);
    }
    assert(kept.to_set() =~= items.to_set());
    kept.unique_seq_to_set();
}

} // verus!
