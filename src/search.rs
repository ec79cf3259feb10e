//! First occurrence of a value in a sequence, and facts about it.
use vstd::prelude::*;

verus! {

/// Position of the first occurrence of `x` in `list`, if any.
pub open spec fn first_index_of<A>(list: Seq<A>, x: A) -> Option<int>
    decreases list.len(),
{
    if list.len() == 0 {
        None
    } else {
        match first_index_of(list.drop_last(), x) {
            Some(i) => Some(i),
            None => if list.last() == x { Some(list.len() - 1) } else { None },
        }
    }
}

/// A first occurrence found in a prefix is the first occurrence in the whole.
pub proof fn lemma_first_index_prefix<A>(list: Seq<A>, x: A, k: int)
    requires
        0 <= k <= list.len(),
        first_index_of(list.take(k), x) is Some,
    ensures
        first_index_of(list, x) == first_index_of(list.take(k), x),
    decreases list.len() - k,
{
    if k < list.len() {
        assert(list.take(k + 1).drop_last() =~= list.take(k));
        lemma_first_index_prefix(list, x, k + 1);
    } else {
        assert(list.take(k) =~= list);
    }
}

/// A value with no occurrence differs from every element.
pub proof fn lemma_not_found_distinct<A>(list: Seq<A>, x: A)
    requires
        first_index_of(list, x) is None,
    ensures
        forall|i: int| 0 <= i < list.len() ==> list[i] != x,
    decreases list.len(),
{
    if list.len() > 0 {
        lemma_not_found_distinct(list.drop_last(), x);
        assert forall|i: int| 0 <= i < list.len() implies list[i] != x by {
            if i < list.len() - 1 {
                assert(list[i] == list.drop_last()[i]);
            }
        }
    }
}

/// A found position lies within the list and holds the value, and no
/// earlier position does.
pub proof fn lemma_first_index_found<A>(list: Seq<A>, x: A)
    requires
        first_index_of(list, x) is Some,
    ensures
        0 <= first_index_of(list, x)->0 < list.len(),
        list[first_index_of(list, x)->0] == x,
        forall|j: int| 0 <= j < first_index_of(list, x)->0 ==> list[j] != x,
    decreases list.len(),
{
    if first_index_of(list.drop_last(), x) is Some {
        lemma_first_index_found(list.drop_last(), x);
    } else {
        lemma_not_found_distinct(list.drop_last(), x);
    }
    assert forall|j: int| 0 <= j < first_index_of(list, x)->0 implies list[j] != x by {
        assert(list[j] == list.drop_last()[j]);
    }
}

} // verus!
