//! A queue that hands out its greatest element first, kept as a sorted list.

use vstd::laws_cmp::obeys_cmp;
use vstd::prelude::*;
use vstd::std_specs::cmp::PartialOrdIs;

verus! {

/// Whether each element of `s` is at most every element after it.
pub open spec fn ascending<T: Ord>(s: Seq<T>) -> bool {
    forall|i: int, j: int|
        #![trigger s[i], s[j]]
        0 <= i < j < s.len() ==> s[i].is_le(&s[j])
}

/// `[T]::sort`: the same elements, each as often as before, in ascending
/// order. The order of `T` has to be a total order.
#[verifier::external_body]
fn sort_items<T: Ord>(v: &mut Vec<T>)
    requires
        obeys_cmp::<T>(),
    ensures
        final(v)@.to_multiset() == old(v)@.to_multiset(),
        ascending(final(v)@),
{
    v.sort();
}

/// A queue of elements in ascending order; the greatest leaves first.
#[derive(Debug)]
pub struct PriorityQueue<T: Ord> {
    elements: Vec<T>,
}

impl<T: Ord> View for PriorityQueue<T> {
    type V = Seq<T>;

    closed spec fn view(&self) -> Seq<T> {
        self.elements@
    }
}

impl<T: Ord> PriorityQueue<T> {
    /// Whether the elements stand in ascending order.
    pub open spec fn wf(&self) -> bool {
        ascending(self@)
    }

    /// A queue without elements.
    pub fn new() -> (q: Self)
        ensures
            q@.len() == 0,
            q.wf(),
    {
        Self { elements: Vec::new() }
    }

    /// Adds an element and restores the ascending order.
    pub fn enqueue(&mut self, item: T)
        requires
            obeys_cmp::<T>(),
        ensures
            final(self).wf(),
            final(self)@.to_multiset() == old(self)@.to_multiset().insert(item),
            final(self)@.len() == old(self)@.len() + 1,
    {
        broadcast use vstd::seq_lib::group_to_multiset_ensures;

        self.elements.push(item);
        let ghost pushed = self.elements@;
        sort_items(&mut self.elements);
        proof {
            pushed.to_multiset_ensures();
            self.elements@.to_multiset_ensures();
        }
    }

    /// Removes and returns the last element, which no other exceeds.
    pub fn dequeue(&mut self) -> (top: Option<T>)
        requires
            old(self).wf(),
        ensures
            final(self).wf(),
            old(self)@.len() == 0 ==> top is None && final(self)@ == old(self)@,
            old(self)@.len() > 0 ==> top == Some(old(self)@.last()) && final(self)@ == old(
                self,
            )@.drop_last(),
            top is Some ==> forall|i: int|
                0 <= i < final(self)@.len() ==> (#[trigger] final(self)@[i]).is_le(&top->0),
    {
        self.elements.pop()
    }

    /// Whether the queue has no elements.
    pub fn is_empty(&self) -> (r: bool)
        ensures
            r == (self@.len() == 0),
    {
        self.elements.is_empty()
    }

    /// The last element, which no other exceeds.
    pub fn peek(&self) -> (top: Option<&T>)
        requires
            self.wf(),
        ensures
            self@.len() == 0 ==> top is None,
            self@.len() > 0 ==> top == Some(&self@.last()),
            top is Some ==> forall|i: int|
                0 <= i < self@.len() - 1 ==> (#[trigger] self@[i]).is_le(top->0),
    {
        self.elements.last()
    }

    /// How many elements the queue has.
    pub fn count(&self) -> (n: usize)
        ensures
            n == self@.len(),
    {
        self.elements.len()
    }

    /// The elements in ascending order.
    pub fn get_all(&self) -> (all: &Vec<T>)
        ensures
            all@ == self@,
    {
        &self.elements
    }
}

} // verus!
