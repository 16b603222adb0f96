//! What holds of the linked list whatever is done with it.
//!
//! Each law is stated over the sequence that models a list and over the spec
//! functions that the contracts of the list's operations use, so it applies to
//! every list that those operations can produce.

use vstd::prelude::*;
use vstd::std_specs::cmp::PartialEqSpec;
use crate::linked_list::{cloned_values, clone_is_exact, equal_values, LinkedList};

verus! {

/// The model of a list that held `start` and then took `values` by
/// `push_front`, one after the other.
pub open spec fn after_pushes<T>(start: Seq<T>, values: Seq<T>) -> Seq<T>
    decreases values.len(),
{
    if values.len() == 0 {
        start
    } else {
        LinkedList::<T>::spec_push_front(after_pushes(start, values.drop_last()), values.last())
    }
}

/// The model of a list that held `s` and then went through `count` calls of
/// `pop_front`.
pub open spec fn after_pops<T>(s: Seq<T>, count: nat) -> Seq<T>
    decreases count,
{
    if count == 0 {
        s
    } else {
        after_pops(LinkedList::<T>::spec_pop_front(s).1, (count - 1) as nat)
    }
}

/// Pushing puts the values in front of what was there, the last one pushed
/// first.
pub proof fn law_pushes_reverse<T>(start: Seq<T>, values: Seq<T>)
    ensures
        after_pushes(start, values) == values.reverse() + start,
    decreases values.len(),
{
    if values.len() > 0 {
        law_pushes_reverse(start, values.drop_last());
        assert(after_pushes(start, values) =~= values.reverse() + start);
    } else {
        assert(after_pushes(start, values) =~= values.reverse() + start);
    }
}

/// Popping `count` times removes the first `count` values, or all of them
/// where the list holds fewer.
pub proof fn law_pops_drop_front<T>(s: Seq<T>, count: nat)
    ensures
        count <= s.len() ==> after_pops(s, count) == s.subrange(count as int, s.len() as int),
        count >= s.len() ==> after_pops(s, count) == Seq::<T>::empty(),
    decreases count,
{
    if count == 0 {
        assert(s.subrange(0, s.len() as int) =~= s);
        if s.len() == 0 {
            assert(s =~= Seq::<T>::empty());
        }
    } else {
        let rest = LinkedList::<T>::spec_pop_front(s).1;
        law_pops_drop_front(rest, (count - 1) as nat);
        if s.len() == 0 {
            assert(rest =~= Seq::<T>::empty());
        } else if count <= s.len() {
            assert(rest.subrange(count - 1, rest.len() as int) =~= s.subrange(
                count as int,
                s.len() as int,
            ));
        }
    }
}

/// After `push_front` of `values[0]`, ..., `values[n - 1]` on an empty list
/// the size is `n`; the next `n` calls of `pop_front` return `values[n - 1]`,
/// ..., `values[0]` in that order, each from a list that is one shorter; and
/// every call after those returns `None` from an empty list.
pub proof fn law_push_then_pop<T>(values: Seq<T>)
    ensures
        after_pushes(Seq::<T>::empty(), values).len() == values.len(),
        forall|k: nat|
            k < values.len() ==> #[trigger] LinkedList::<T>::spec_pop_front(
                after_pops(after_pushes(Seq::<T>::empty(), values), k),
            ).0 == Some(values[values.len() - 1 - k]),
        forall|k: nat|
            k <= values.len() ==> (#[trigger] after_pops(
                after_pushes(Seq::<T>::empty(), values),
                k,
            )).len() == values.len() - k,
        forall|k: nat|
            k >= values.len() ==> #[trigger] LinkedList::<T>::spec_pop_front(
                after_pops(after_pushes(Seq::<T>::empty(), values), k),
            ) == (None::<T>, Seq::<T>::empty()),
{
    let full = after_pushes(Seq::<T>::empty(), values);
    law_pushes_reverse(Seq::<T>::empty(), values);
    assert(full =~= values.reverse());
    assert forall|k: nat| true implies {
        &&& k < values.len() ==> LinkedList::<T>::spec_pop_front(after_pops(full, k)).0 == Some(
            values[values.len() - 1 - k],
        )
        &&& k <= values.len() ==> after_pops(full, k).len() == values.len() - k
        &&& k >= values.len() ==> LinkedList::<T>::spec_pop_front(after_pops(full, k)) == (
            None::<T>,
            Seq::<T>::empty(),
        )
    } by {
        law_pops_drop_front(full, k);
    }
}

/// A list that is popped as often as it has values, or more often, ends up
/// empty.
pub proof fn law_drain_empties<T>(s: Seq<T>, count: nat)
    requires
        count >= s.len(),
    ensures
        after_pops(s, count).len() == 0,
{
    law_pops_drop_front(s, count);
}

/// Where every clone of a `T` equals the value it was made from, a list and its clone hold
/// the same values, and so do the clones that walks over the two hand out.
pub proof fn law_clone_round_trip<T: Clone>(
    source: Seq<T>,
    copy: Seq<T>,
    from_source: Seq<T>,
    from_copy: Seq<T>,
)
    requires
        clone_is_exact::<T>(),
        cloned_values(source, copy),
        cloned_values(source, from_source),
        cloned_values(copy, from_copy),
    ensures
        copy == source,
        from_source == from_copy,
{
    assert(copy =~= source);
    assert(from_source =~= source);
    assert(from_copy =~= copy);
}

/// A list whose values each equal themselves equals itself, and equals every
/// list with the same values, such as one built by the same pushes.
pub proof fn law_eq_reflexive<T: PartialEq>(a: LinkedList<T>, b: LinkedList<T>)
    requires
        forall|i: int| 0 <= i < a@.len() ==> (#[trigger] a@[i]).eq_spec(&a@[i]),
        a@ == b@,
    ensures
        a.eq_spec(&a),
        a.eq_spec(&b),
{
}

/// A list never equals the list that one more `push_front` makes of it.
pub proof fn law_extra_push_unequal<T: PartialEq>(a: LinkedList<T>, b: LinkedList<T>, value: T)
    requires
        b@ == LinkedList::<T>::spec_push_front(a@, value),
    ensures
        !a.eq_spec(&b),
        !b.eq_spec(&a),
{
}

} // verus!
