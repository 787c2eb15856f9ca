//! A singly linked list with owned nodes.
//!
//! Supports appending at the tail, deleting the first node, and in-place
//! reversal. Every operation is specified against [`ListNode::as_seq`],
//! the sequence of the list's elements in order.

use vstd::prelude::*;

verus! {

/// A singly linked list: either empty (`Nil`) or a value followed by the
/// rest of the list, which the node owns outright.
#[derive(Debug, PartialEq, Eq)]
pub enum ListNode<T> {
    Nil,
    Cons(T, Box<ListNode<T>>),
}

impl<T> ListNode<T> {
    /// The sequence of elements in the list, front to back.
    pub open spec fn as_seq(self) -> Seq<T>
        decreases self,
    {
        match self {
            ListNode::Nil => Seq::empty(),
            ListNode::Cons(v, rest) => seq![v] + rest.as_seq(),
        }
    }

    /// Creates a new empty list.
    pub fn new() -> (l: Self)
        ensures
            l == ListNode::<T>::Nil,
    {
        ListNode::Nil
    }

    /// Deletes the first node of the list, in place; an empty list stays
    /// empty.
    pub fn delete(&mut self)
        ensures
            old(self).as_seq().len() == 0 ==> *final(self) == *old(self),
            old(self).as_seq().len() > 0 ==> final(self).as_seq() == old(
                self,
            ).as_seq().drop_first(),
    {
        let mut owned = ListNode::Nil;
        core::mem::swap(self, &mut owned);
        match owned {
            ListNode::Nil => {},
            ListNode::Cons(v, next) => {
                *self = *next;
                proof {
                    assert((seq![v] + next.as_seq()).drop_first() =~= next.as_seq());
                }
            },
        }
    }

    /// Appends a new node with `value` at the tail of the list, in place.
    pub fn insert(&mut self, value: T)
        ensures
            final(self).as_seq() == old(self).as_seq().push(value),
        decreases *old(self),
    {
        let mut owned = ListNode::Nil;
        core::mem::swap(self, &mut owned);
        match owned {
            ListNode::Nil => {
                *self = ListNode::Cons(value, Box::new(ListNode::Nil));
                proof {
                    assert(seq![value] + Seq::<T>::empty() =~= Seq::<T>::empty().push(value));
                }
            },
            ListNode::Cons(v, mut next) => {
                let ghost rest = *next;
                (&mut *next).insert(value);
                *self = ListNode::Cons(v, next);
                proof {
                    assert(seq![v] + rest.as_seq().push(value) =~= (seq![v]
                        + rest.as_seq()).push(value));
                }
            },
        }
    }

    /// Reverses the list in place, without cloning any node.
    pub fn reverse(&mut self)
        ensures
            final(self).as_seq() == old(self).as_seq().reverse(),
    {
        let mut owned = ListNode::Nil;
        core::mem::swap(self, &mut owned);
        let rev = Self::reverse_onto(owned, ListNode::Nil);
        *self = rev;
        proof {
            assert(old(self).as_seq().reverse() + Seq::<T>::empty() =~= old(
                self,
            ).as_seq().reverse());
        }
    }

    /// Moves the nodes of `node` one by one onto the front of `acc`,
    /// reversing their order.
    fn reverse_onto(node: ListNode<T>, acc: ListNode<T>) -> (r: ListNode<T>)
        ensures
            r.as_seq() == node.as_seq().reverse() + acc.as_seq(),
        decreases node,
    {
        match node {
            ListNode::Nil => {
                proof {
                    assert(Seq::<T>::empty().reverse() + acc.as_seq() =~= acc.as_seq());
                }
                acc
            },
            ListNode::Cons(v, next) => {
                let r = Self::reverse_onto(*next, ListNode::Cons(v, Box::new(acc)));
                proof {
                    assert((seq![v] + next.as_seq()).reverse() =~= next.as_seq().reverse()
                        + seq![v]);
                    assert(node.as_seq().reverse() + acc.as_seq() =~= next.as_seq().reverse() + (
                    seq![v] + acc.as_seq()));
                }
                r
            },
        }
    }

    /// Builds a list holding the values of the vector, in the same order.
    pub fn from_vec(values: Vec<T>) -> (l: ListNode<T>)
        ensures
            l.as_seq() == values@,
    {
        let ghost all = values@;
        let mut values = values;
        let mut list = ListNode::Nil;
        proof {
            assert(all + ListNode::<T>::Nil.as_seq() =~= all);
        }
        while values.len() > 0
            invariant
                values@ + list.as_seq() == all,
            decreases values@.len(),
        {
            let ghost before = values@;
            let ghost prev = list;
            let x = values.pop().unwrap();
            list = ListNode::Cons(x, Box::new(list));
            proof {
                assert(values@ + list.as_seq() =~= before + prev.as_seq());
            }
        }
        proof {
            assert(values@ + list.as_seq() =~= list.as_seq());
        }
        list
    }

    /// Flattens the list into a vector holding the same values in the same
    /// order, consuming the list.
    pub fn into_vec(self) -> (out: Vec<T>)
        ensures
            out@ == self.as_seq(),
    {
        let mut out = Vec::new();
        let ghost l = self;
        Self::append_to(self, &mut out);
        proof {
            assert(Seq::<T>::empty() + l.as_seq() =~= l.as_seq());
        }
        out
    }

    /// Appends the elements of `node` to `out`, front to back.
    fn append_to(node: ListNode<T>, out: &mut Vec<T>)
        ensures
            final(out)@ == old(out)@ + node.as_seq(),
        decreases node,
    {
        match node {
            ListNode::Nil => {
                proof {
                    assert(old(out)@ + ListNode::<T>::Nil.as_seq() =~= old(out)@);
                }
            },
            ListNode::Cons(v, next) => {
                let ghost v0 = v;
                out.push(v);
                Self::append_to(*next, out);
                proof {
                    assert(old(out)@ + node.as_seq() =~= old(out)@.push(v0) + next.as_seq());
                }
            },
        }
    }
}

impl<T> Default for ListNode<T> {
    /// The default list is empty.
    fn default() -> (l: Self)
        ensures
            l == ListNode::<T>::Nil,
    {
        ListNode::Nil
    }
}

} // verus!
