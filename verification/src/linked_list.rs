//! A singly linked list whose nodes are owned one by the other.
//!
//! A list is modelled by the sequence of its values from head to tail; every
//! contract below speaks of that sequence.

use vstd::prelude::*;
use vstd::std_specs::cmp::{PartialEqSpec, PartialEqSpecImpl};
use vstd::std_specs::iter::IteratorSpecImpl;
use vstd::string::to_string_from_display_ensures;
use std::fmt::Display;

verus! {

/// One link of the chain: a value and the rest of the chain.
///
/// A node is modelled by the values reachable from it, its own first, so the
/// model of a node is never empty.
pub struct Node<T> {
    value: T,
    next: Option<Box<Node<T>>>,
}

impl<T> View for Node<T> {
    type V = Seq<T>;

    closed spec fn view(&self) -> Seq<T> {
        seq![self.value] + Node::values(self.next)
    }
}

impl<T> Node<T> {
    /// The values held by a chain, first node first; an absent link holds none.
    pub closed spec fn values(link: Option<Box<Node<T>>>) -> Seq<T>
        decreases link,
    {
        match link {
            None => Seq::empty(),
            Some(node) => seq![node.value] + Node::values(node.next),
        }
    }

    /// The chain that starts at a node holds what the node is modelled by,
    /// and no chain holds nothing.
    pub proof fn lemma_values(link: Option<Box<Node<T>>>)
        ensures
            link is None ==> Node::values(link) == Seq::<T>::empty(),
            link is Some ==> Node::values(link) == link->0@,
    {
    }

    /// A node that holds `value` in front of the chain `next`.
    pub fn new(value: T, next: Option<Box<Node<T>>>) -> (node: Node<T>)
        ensures
            node@ == seq![value] + Node::values(next),
    {
        Node::<T> { value: value, next: next }
    }
}

/// A chain together with the number of its nodes.
struct Chain<T> {
    head: Option<Box<Node<T>>>,
    size: usize,
}

impl<T> Chain<T> {
    #[verifier::type_invariant]
    spec fn counted(self) -> bool {
        self.size == Node::values(self.head).len()
    }

    /// Detaches the first node, if there is one, and hands out its value.
    fn unlink_front(head: &mut Option<Box<Node<T>>>, size: &mut usize) -> (value: Option<T>)
        requires
            *old(size) == Node::values(*old(head)).len(),
        ensures
            *final(size) == Node::values(*final(head)).len(),
            (value, Node::values(*final(head))) == LinkedList::<T>::spec_pop_front(
                Node::values(*old(head)),
            ),
        no_unwind
    {
        let mut front: Option<Box<Node<T>>> = None;
        core::mem::swap(&mut front, head);
        match front {
            None => None,
            Some(node) => {
                let node: Node<T> = *node;
                assert(Node::values(Some(Box::new(node))).drop_first() == Node::values(node.next));
                *head = node.next;
                *size = *size - 1;
                Some(node.value)
            },
        }
    }

    /// Puts a detached node in front of the chain.
    fn link_front(head: &mut Option<Box<Node<T>>>, size: &mut usize, node: Box<Node<T>>)
        requires
            *old(size) == Node::values(*old(head)).len(),
            *old(size) < usize::MAX,
            node.next is None,
        ensures
            *final(size) == Node::values(*final(head)).len(),
            Node::values(*final(head)) == seq![node.value] + Node::values(*old(head)),
        no_unwind
    {
        let mut node = node;
        core::mem::swap(&mut node.next, head);
        *head = Some(node);
        *size = *size + 1;
    }
}

/// A sequence of values that grows and shrinks at its front.
pub struct LinkedList<T> {
    chain: Chain<T>,
}

impl<T> View for LinkedList<T> {
    type V = Seq<T>;

    closed spec fn view(&self) -> Seq<T> {
        Node::values(self.chain.head)
    }
}

impl<T> LinkedList<T> {
    /// The sequence `s` with `value` put in front.
    pub open spec fn spec_push_front(s: Seq<T>, value: T) -> Seq<T> {
        seq![value] + s
    }

    /// What leaves the front of `s`, and what is left of `s`.
    pub open spec fn spec_pop_front(s: Seq<T>) -> (Option<T>, Seq<T>) {
        if s.len() == 0 {
            (None, s)
        } else {
            (Some(s[0]), s.drop_first())
        }
    }

    /// The number of values, as `get_size` returns it.
    pub open spec fn spec_get_size(&self) -> usize {
        self@.len() as usize
    }

    /// The empty list.
    pub fn new() -> (list: LinkedList<T>)
        ensures
            list@ == Seq::<T>::empty(),
    {
        LinkedList::<T> { chain: Chain { head: None, size: 0 } }
    }

    /// The number of values in the list.
    #[verifier::when_used_as_spec(spec_get_size)]
    pub fn get_size(&self) -> (n: usize)
        ensures
            n == self@.len(),
            n == self.spec_get_size(),
    {
        proof {
            use_type_invariant(&self.chain);
        }
        self.chain.size
    }

    /// Whether the list holds no value.
    pub fn is_empty(&self) -> (b: bool)
        ensures
            b <==> self.get_size() == 0,
            b <==> self@.len() == 0,
    {
        self.get_size() == 0
    }

    /// Removes the first value and returns it; an empty list stays as it is
    /// and gives `None`.
    pub fn pop_front(&mut self) -> (value: Option<T>)
        ensures
            (value, final(self)@) == Self::spec_pop_front(old(self)@),
    {
        proof {
            use_type_invariant(&self.chain);
        }
        Chain::unlink_front(&mut self.chain.head, &mut self.chain.size)
    }

    /// Puts `value` in front of the values already held.
    pub fn push_front(&mut self, value: T)
        requires
            old(self)@.len() < usize::MAX,
        ensures
            final(self)@ == Self::spec_push_front(old(self)@, value),
    {
        proof {
            use_type_invariant(&self.chain);
        }
        let new_node: Box<Node<T>> = Box::new(Node::new(value, None));
        Chain::link_front(&mut self.chain.head, &mut self.chain.size, new_node);
    }
}

impl<T> Drop for LinkedList<T> {
    /// Releases the nodes one after the other, so that the depth of the call
    /// stack does not grow with the length of the list; no node is left in
    /// the list for an implicit teardown.
    fn drop(&mut self)
        ensures
            final(self)@ == Seq::<T>::empty(),
        opens_invariants none
        no_unwind
    {
        let mut chain: Chain<T> = Chain { head: None, size: 0 };
        core::mem::swap(&mut chain, &mut self.chain);
        let Chain { head, size: _ } = chain;
        let mut current: Option<Box<Node<T>>> = head;
        loop
            decreases Node::values(current).len(),
        {
            match current {
                None => {
                    break ;
                },
                Some(node) => {
                    let mut node = node;
                    current = None;
                    core::mem::swap(&mut current, &mut node.next);
                },
            }
        }
    }
}

/// Whether `copy` has the length of `source` and holds, place for place, a
/// clone of what `source` holds.
pub open spec fn cloned_values<T: Clone>(source: Seq<T>, copy: Seq<T>) -> bool {
    &&& copy.len() == source.len()
    &&& forall|i: int| 0 <= i < source.len() ==> cloned::<T>(#[trigger] source[i], copy[i])
}

impl<T: Clone> Node<T> {
    /// Clones of the values of a chain, from its first node to its last.
    fn clone_values(link: &Option<Box<Node<T>>>) -> (copies: Vec<T>)
        ensures
            cloned_values(Node::values(*link), copies@),
    {
        let ghost all = Node::values(*link);
        let mut copies: Vec<T> = Vec::new();
        let mut current: &Option<Box<Node<T>>> = link;
        proof {
            assert(all.subrange(0, all.len() as int) == all);
        }
        loop
            invariant
                copies@.len() <= all.len(),
                Node::values(*current) == all.subrange(copies@.len() as int, all.len() as int),
                cloned_values(all.subrange(0, copies@.len() as int), copies@),
            ensures
                cloned_values(all, copies@),
            decreases Node::values(*current).len(),
        {
            match current {
                Some(node) => {
                    let copy: T = node.value.clone();
                    proof {
                        let done = copies@.len() as int;
                        let here = Node::values(*current);
                        assert(here == seq![node.value] + Node::values(node.next));
                        assert(node.value == here[0]);
                        assert(Node::values(node.next) == here.drop_first());
                        assert(Node::values(node.next) == all.subrange(done + 1, all.len() as int));
                        assert forall|i: int| 0 <= i < done + 1 implies cloned::<T>(
                            #[trigger] all.subrange(0, done + 1)[i],
                            copies@.push(copy)[i],
                        ) by {
                            if i < done {
                                assert(all.subrange(0, done)[i] == all.subrange(0, done + 1)[i]);
                            }
                        }
                    }
                    copies.push(copy);
                    current = &node.next;
                },
                None => {
                    proof {
                        assert(all.subrange(0, copies@.len() as int) == all);
                    }
                    break ;
                },
            }
        }
        copies
    }
}

impl<T> Node<T> {
    /// The chain that holds `values` in their order, built from its last node
    /// to its first.
    fn chain_of(values: Vec<T>) -> (link: Option<Box<Node<T>>>)
        ensures
            Node::values(link) == values@,
    {
        let ghost all = values@;
        let mut values = values;
        let mut link: Option<Box<Node<T>>> = None;
        while values.len() > 0
            invariant
                values@ + Node::values(link) == all,
            decreases values.len(),
        {
            let ghost front = values@;
            let ghost rest = Node::values(link);
            let value: T = values.pop().unwrap();
            link = Some(Box::new(Node::new(value, link)));
            proof {
                assert(Node::values(link) == seq![value] + rest);
                assert(values@ + Node::values(link) == front + rest);
            }
        }
        proof {
            assert(values@ + Node::values(link) == Node::values(link));
        }
        link
    }
}

impl<T: Clone> Clone for Node<T> {
    /// A node with a clone of this node's value in front of a copy of the rest
    /// of the chain; the values are cloned from head to tail.
    fn clone(&self) -> (res: Self)
        ensures
            cloned_values(self@, res@),
    {
        let value: T = self.value.clone();
        let copies: Vec<T> = Node::clone_values(&self.next);
        let res = Node::<T> { value: value, next: Node::chain_of(copies) };
        proof {
            assert forall|i: int| 0 <= i < self@.len() implies cloned::<T>(
                #[trigger] self@[i],
                res@[i],
            ) by {
                if i > 0 {
                    assert(self@[i] == Node::values(self.next)[i - 1]);
                    assert(res@[i] == Node::values(res.next)[i - 1]);
                }
            }
        }
        res
    }
}

impl<T: Clone> Clone for LinkedList<T> {
    /// A list of the same length that shares no node with this one and holds,
    /// place for place, a clone of each value; the values are cloned from
    /// head to tail.
    fn clone(&self) -> (res: Self)
        ensures
            cloned_values(self@, res@),
    {
        proof {
            use_type_invariant(&self.chain);
        }
        let copies: Vec<T> = Node::clone_values(&self.chain.head);
        LinkedList::<T> { chain: Chain { head: Node::chain_of(copies), size: self.chain.size } }
    }
}

/// Whether `a` and `b` have one length and hold, place for place, values
/// that `==` takes for equal.
pub open spec fn equal_values<T: PartialEq>(a: Seq<T>, b: Seq<T>) -> bool {
    &&& a.len() == b.len()
    &&& forall|i: int| 0 <= i < a.len() ==> (#[trigger] a[i]).eq_spec(&b[i])
}

impl<T: PartialEq> Node<T> {
    /// Compares two chains value by value from their first nodes on, and
    /// stops at the first difference.
    fn equal_chains(a: &Option<Box<Node<T>>>, b: &Option<Box<Node<T>>>) -> (r: bool)
        ensures
            T::obeys_eq_spec() ==> r == equal_values(Node::values(*a), Node::values(*b)),
            Node::values(*a).len() != Node::values(*b).len() ==> !r,
    {
        let ghost left = Node::values(*a);
        let ghost right = Node::values(*b);
        let ghost mut done: int = 0;
        let mut x: &Option<Box<Node<T>>> = a;
        let mut y: &Option<Box<Node<T>>> = b;
        let mut r: bool = true;
        proof {
            assert(left.subrange(0, left.len() as int) == left);
            assert(right.subrange(0, right.len() as int) == right);
        }
        loop
            invariant
                0 <= done <= left.len(),
                done <= right.len(),
                Node::values(*x) == left.subrange(done, left.len() as int),
                Node::values(*y) == right.subrange(done, right.len() as int),
                T::obeys_eq_spec() ==> forall|i: int|
                    0 <= i < done ==> (#[trigger] left[i]).eq_spec(&right[i]),
            ensures
                T::obeys_eq_spec() ==> r == equal_values(left, right),
                left.len() != right.len() ==> !r,
            decreases Node::values(*x).len(),
        {
            match (x, y) {
                (None, None) => {
                    r = true;
                    break ;
                },
                (Some(n), Some(m)) => {
                    proof {
                        let here = Node::values(*x);
                        let there = Node::values(*y);
                        assert(here == seq![n.value] + Node::values(n.next));
                        assert(there == seq![m.value] + Node::values(m.next));
                        assert(n.value == here[0] && m.value == there[0]);
                        assert(n.value == left[done] && m.value == right[done]);
                        assert(Node::values(n.next) == here.drop_first());
                        assert(Node::values(m.next) == there.drop_first());
                        assert(Node::values(n.next) == left.subrange(done + 1, left.len() as int));
                        assert(Node::values(m.next) == right.subrange(
                            done + 1,
                            right.len() as int,
                        ));
                    }
                    if !(n.value == m.value) {
                        r = false;
                        break ;
                    }
                    x = &n.next;
                    y = &m.next;
                    proof {
                        done = done + 1;
                    }
                },
                _ => {
                    proof {
                        let here = Node::values(*x);
                        let there = Node::values(*y);
                        assert(here.len() == 0 || there.len() == 0);
                        assert(here.len() != there.len());
                    }
                    r = false;
                    break ;
                },
            }
        }
        r
    }
}

impl<T: PartialEq> PartialEq for Node<T> {
    /// Two nodes are equal when their values are and the chains behind them
    /// hold equal values in equal number. Chains of different lengths are
    /// unequal whatever `==` means for the values.
    fn eq(&self, other: &Self) -> (r: bool)
        ensures
            self@.len() != other@.len() ==> !r,
    {
        if self.value == other.value {
            let rest: bool = Node::equal_chains(&self.next, &other.next);
            proof {
                if T::obeys_eq_spec() {
                    if rest {
                        assert forall|i: int| 0 <= i < self@.len() implies (#[trigger] self@[i]).eq_spec(
                            &other@[i],
                        ) by {
                            if i > 0 {
                                assert(self@[i] == Node::values(self.next)[i - 1]);
                                assert(other@[i] == Node::values(other.next)[i - 1]);
                            }
                        }
                    } else {
                        if equal_values(self@, other@) {
                            let a = Node::values(self.next);
                            let b = Node::values(other.next);
                            assert(a.len() == b.len());
                            assert forall|i: int| 0 <= i < a.len() implies (#[trigger] a[i]).eq_spec(
                                &b[i],
                            ) by {
                                assert(a[i] == self@[i + 1]);
                                assert(b[i] == other@[i + 1]);
                            }
                        }
                    }
                }
            }
            rest
        } else {
            proof {
                assert(self@[0] == self.value);
                assert(other@[0] == other.value);
            }
            false
        }
    }
}

impl<T: PartialEq> PartialEqSpecImpl for Node<T> {
    open spec fn obeys_eq_spec() -> bool {
        T::obeys_eq_spec()
    }

    open spec fn eq_spec(&self, other: &Self) -> bool {
        equal_values(self@, other@)
    }
}

impl<T: PartialEq> PartialEq for LinkedList<T> {
    /// Two lists are equal when they have one size and their values are
    /// equal place for place. Lists of different sizes are unequal whatever
    /// `==` means for the values.
    fn eq(&self, other: &Self) -> (r: bool)
        ensures
            self@.len() != other@.len() ==> !r,
    {
        proof {
            use_type_invariant(&self.chain);
            use_type_invariant(&other.chain);
        }
        Node::equal_chains(&self.chain.head, &other.chain.head) && self.chain.size
            == other.chain.size
    }
}

impl<T: PartialEq> PartialEqSpecImpl for LinkedList<T> {
    open spec fn obeys_eq_spec() -> bool {
        T::obeys_eq_spec()
    }

    open spec fn eq_spec(&self, other: &Self) -> bool {
        equal_values(self@, other@)
    }
}

/// The line made of `parts`, each one behind a single space: the line of no
/// part is empty, and every other line begins with a space.
pub open spec fn spaced(parts: Seq<Seq<char>>) -> Seq<char>
    decreases parts.len(),
{
    if parts.len() == 0 {
        Seq::empty()
    } else {
        spaced(parts.drop_last()) + seq![' '] + parts.last()
    }
}

/// Whether `parts` holds, place for place, a text that `Display` gives for the
/// value at that place.
pub open spec fn shown_values<T: Display>(values: Seq<T>, parts: Seq<String>) -> bool {
    &&& parts.len() == values.len()
    &&& forall|i: int|
        0 <= i < values.len() ==> to_string_from_display_ensures::<T>(
            &values[i],
            #[trigger] parts[i],
        )
}

impl<T: Display> LinkedList<T> {
    /// The values from head to tail on one line, each shown by its `Display`
    /// and each behind a single space, the first one too.
    pub fn to_string(&self) -> (text: String)
        ensures
            exists|parts: Seq<String>|
                shown_values(self@, parts) && text@ == spaced(parts.map_values(|p: String| p@)),
            self@.len() == 0 ==> text@.len() == 0,
    {
        let mut current: &Option<Box<Node<T>>> = &self.chain.head;
        let mut result: String = String::new();
        let ghost mut parts: Seq<String> = Seq::empty();
        proof {
            assert(self@.subrange(0, self@.len() as int) == self@);
        }
        loop
            invariant
                0 <= parts.len() <= self@.len(),
                Node::values(*current) == self@.subrange(parts.len() as int, self@.len() as int),
                shown_values(self@.subrange(0, parts.len() as int), parts),
                result@ == spaced(parts.map_values(|p: String| p@)),
            ensures
                shown_values(self@, parts),
                result@ == spaced(parts.map_values(|p: String| p@)),
            decreases Node::values(*current).len(),
        {
            match current {
                Some(node) => {
                    let piece: String = node.value.to_string();
                    proof {
                        reveal_strlit(" ");
                        let longer = parts.push(piece);
                        let texts = longer.map_values(|p: String| p@);
                        assert(texts.drop_last() == parts.map_values(|p: String| p@));
                        assert(texts.last() == piece@);
                        let here = Node::values(*current);
                        assert(here == seq![node.value] + Node::values(node.next));
                        assert(node.value == here[0]);
                        assert(Node::values(node.next) == here.drop_first());
                        assert(Node::values(node.next) == self@.subrange(
                            longer.len() as int,
                            self@.len() as int,
                        ));
                        parts = longer;
                    }
                    result.append(" ");
                    result.append(piece.as_str());
                    current = &node.next;
                },
                None => {
                    proof {
                        assert(self@.subrange(0, parts.len() as int) == self@);
                    }
                    break ;
                },
            }
        }
        result
    }
}

impl<T> Iterator for LinkedList<T> {
    type Item = T;

    /// Draining iteration: each call removes the first value and returns it,
    /// until the list is empty.
    fn next(&mut self) -> (ret: Option<T>)
        ensures
            (ret, final(self)@) == Self::spec_pop_front(old(self)@),
    {
        self.pop_front()
    }
}

impl<T> IteratorSpecImpl for LinkedList<T> {
    open spec fn obeys_prophetic_iter_laws(&self) -> bool {
        true
    }

    open spec fn remaining(&self) -> Seq<T> {
        self@
    }

    open spec fn will_return_none(&self) -> bool {
        true
    }

    open spec fn decrease(&self) -> Option<nat> {
        Some(self@.len())
    }

    open spec fn initial_value_relation(&self, init: &Self) -> bool {
        init@ == self@
    }

    open spec fn peek(&self, index: int) -> Option<T> {
        if 0 <= index < self@.len() {
            Some(self@[index])
        } else {
            None
        }
    }
}

/// A walk over a list that leaves the list as it is and hands out a clone of
/// each value, from head to tail.
///
/// It is modelled by the values that it has not visited yet.
pub struct LinkedListIterator<'a, T> {
    current: &'a Option<Box<Node<T>>>,
}

impl<'a, T> View for LinkedListIterator<'a, T> {
    type V = Seq<T>;

    closed spec fn view(&self) -> Seq<T> {
        Node::values(*self.current)
    }
}

/// Whether every clone of a `T` equals the value it was made from.
pub open spec fn clone_is_exact<T: Clone>() -> bool {
    forall|a: T, b: T| #[trigger] cloned::<T>(a, b) ==> a == b
}

impl<'a, T: Clone> Iterator for LinkedListIterator<'a, T> {
    type Item = T;

    /// Steps over the next value and returns a clone of it; `None` once every
    /// value has been visited.
    fn next(&mut self) -> (ret: Option<T>)
        ensures
            old(self)@.len() == 0 ==> ret is None && final(self)@ == old(self)@,
            old(self)@.len() > 0 ==> ret is Some && cloned::<T>(old(self)@[0], ret->0)
                && final(self)@ == old(self)@.drop_first(),
    {
        match self.current {
            Some(node) => {
                proof {
                    assert(old(self)@ == seq![node.value] + Node::values(node.next));
                    assert(old(self)@.drop_first() == Node::values(node.next));
                }
                self.current = &node.next;
                let copy: T = node.value.clone();
                assert(cloned::<T>(node.value, copy));
                Some(copy)
            },
            None => None,
        }
    }
}

impl<'a, T: Clone> IteratorSpecImpl for LinkedListIterator<'a, T> {
    open spec fn obeys_prophetic_iter_laws(&self) -> bool {
        clone_is_exact::<T>()
    }

    open spec fn remaining(&self) -> Seq<T> {
        self@
    }

    open spec fn will_return_none(&self) -> bool {
        true
    }

    open spec fn decrease(&self) -> Option<nat> {
        Some(self@.len())
    }

    open spec fn initial_value_relation(&self, init: &Self) -> bool {
        init@ == self@
    }

    open spec fn peek(&self, index: int) -> Option<T> {
        if 0 <= index < self@.len() {
            Some(self@[index])
        } else {
            None
        }
    }
}

impl<'a, T: Clone> IntoIterator for &'a LinkedList<T> {
    type Item = T;

    type IntoIter = LinkedListIterator<'a, T>;

    /// A walk that starts at the head of the list.
    fn into_iter(self) -> (iter: LinkedListIterator<'a, T>)
        ensures
            iter@ == self@,
    {
        LinkedListIterator { current: &self.chain.head }
    }
}

} // verus!
