//! A max-heap of `i32` values in an array of fixed size, a priority queue on
//! top of it, and heap operations on plain lists.

use vstd::multiset::Multiset;
use vstd::prelude::*;

verus! {

/// Where the parent of place `c` stands.
pub open spec fn parent_of(c: int) -> int {
    (c - 1) / 2
}

/// Whether no value of `s` exceeds the value at its parent place.
pub open spec fn heap_ordered(s: Seq<i32>) -> bool {
    forall|c: int| 1 <= c < s.len() ==> s[parent_of(c)] >= #[trigger] s[c]
}

/// Whether no value of `s` exceeds its parent's, except that the value at
/// place `i` may exceed its parent's; the values below `i` do not exceed the
/// value above `i`.
spec fn ordered_but_up(s: Seq<i32>, i: int) -> bool {
    &&& forall|c: int| 1 <= c < s.len() && c != i ==> s[parent_of(c)] >= #[trigger] s[c]
    &&& forall|c: int|
        1 <= c < s.len() && parent_of(c) == i && i >= 1 ==> s[parent_of(i)] >= #[trigger] s[c]
}

/// Whether no value of the first `n` values of `s` exceeds its parent's,
/// except that the values below place `i` may exceed the value at `i`; they
/// do not exceed the value above `i`.
spec fn ordered_but_down(s: Seq<i32>, n: int, i: int) -> bool {
    &&& forall|c: int| 1 <= c < n && parent_of(c) != i ==> s[parent_of(c)] >= #[trigger] s[c]
    &&& forall|c: int|
        1 <= c < n && parent_of(c) == i && i >= 1 ==> s[parent_of(i)] >= #[trigger] s[c]
}

/// The list with the values at two places exchanged.
pub open spec fn exchanged(s: Seq<i32>, a: int, b: int) -> Seq<i32> {
    s.update(a, s[b]).update(b, s[a])
}

/// The list after the value at place `i` rose: as long as it exceeds the
/// value at its parent place, the two change places.
pub open spec fn risen(s: Seq<i32>, i: int) -> Seq<i32>
    decreases i,
{
    if 0 < i < s.len() && s[i] > s[parent_of(i)] {
        risen(exchanged(s, i, parent_of(i)), parent_of(i))
    } else {
        s
    }
}

/// Whether no child of the value at place `i` exceeds it.
pub open spec fn in_place(s: Seq<i32>, i: int) -> bool {
    &&& 2 * i + 1 < s.len() ==> s[i] >= s[2 * i + 1]
    &&& 2 * i + 2 < s.len() ==> s[i] >= s[2 * i + 2]
}

/// The place of the greater child of place `i`, the right one where both
/// hold the same value.
pub open spec fn greater_child(s: Seq<i32>, i: int) -> int {
    if 2 * i + 2 < s.len() && !(s[2 * i + 1] > s[2 * i + 2]) {
        2 * i + 2
    } else {
        2 * i + 1
    }
}

/// The list after the value at place `i` settled: as long as a child
/// exceeds it, it changes places with its greater child.
pub open spec fn settled(s: Seq<i32>, i: int) -> Seq<i32>
    decreases s.len() - i,
{
    if 0 <= i < s.len() && !in_place(s, i) {
        settled(exchanged(s, i, greater_child(s, i)), greater_child(s, i))
    } else {
        s
    }
}

/// In a heap no value exceeds the first.
pub proof fn lemma_heap_top(s: Seq<i32>, i: int)
    requires
        heap_ordered(s),
        0 <= i < s.len(),
    ensures
        s[i] <= s[0],
    decreases i,
{
    if i > 0 {
        lemma_heap_top(s, parent_of(i));
    }
}

/// Exchanging two values of a list keeps what the list holds.
pub proof fn lemma_swap_keeps(s: Seq<i32>, a: int, b: int)
    requires
        0 <= a < s.len(),
        0 <= b < s.len(),
    ensures
        s.update(a, s[b]).update(b, s[a]).to_multiset() == s.to_multiset(),
{
    broadcast use vstd::seq_lib::group_to_multiset_ensures;

    let t = s.update(a, s[b]).update(b, s[a]);
    if a == b {
        assert(t =~= s);
    } else {
        assert(s.update(a, s[b]).to_multiset() =~= s.to_multiset().insert(s[b]).remove(s[a]));
        assert(t.to_multiset() =~= s.update(a, s[b]).to_multiset().insert(s[a]).remove(s[b]));
        assert(t.to_multiset() =~= s.to_multiset());
    }
}

/// A max-heap in an array of fixed size.
#[derive(Debug)]
pub struct Heap {
    items: Vec<i32>,
    size: usize,
}

impl Heap {
    /// The array of the heap: the values of the heap in the order of their
    /// places, then the free places.
    pub closed spec fn slots(&self) -> Seq<i32> {
        self.items@
    }

    /// How many values the heap holds.
    pub closed spec fn held(&self) -> nat {
        self.size as nat
    }

    /// The values in the heap, in the order of their places.
    pub open spec fn live(&self) -> Seq<i32> {
        self.slots().take(self.held() as int)
    }

    /// How many values the heap can take.
    pub open spec fn capacity(&self) -> nat {
        self.slots().len()
    }

    /// What the heap holds, each value as often as it was inserted and not
    /// yet removed.
    pub open spec fn contents(&self) -> Multiset<i32> {
        self.live().to_multiset()
    }

    /// The heap holds no more values than it can take, and no value exceeds
    /// the value at its parent place.
    pub open spec fn wf(&self) -> bool {
        &&& self.held() <= self.slots().len()
        &&& heap_ordered(self.live())
    }

    /// An empty heap that can take `length` values; every place holds 0.
    pub fn new(length: usize) -> (h: Self)
        ensures
            h.wf(),
            h.held() == 0,
            h.slots().len() == length,
            forall|i: int| 0 <= i < length ==> #[trigger] h.slots()[i] == 0,
    {
        let mut items: Vec<i32> = Vec::new();
        let mut i: usize = 0;
        while i < length
            invariant
                i <= length,
                items@.len() == i,
                forall|j: int| 0 <= j < i ==> #[trigger] items@[j] == 0,
            decreases length - i,
        {
            items.push(0);
            i += 1;
        }
        Self { items, size: 0 }
    }

    /// The array of the heap: the values of the heap in the order of their
    /// places, then the places that are free.
    pub fn items(&self) -> (r: &Vec<i32>)
        ensures
            r@ == self.slots(),
    {
        &self.items
    }

    /// How many values the heap holds.
    pub fn len(&self) -> (n: usize)
        requires
            self.wf(),
        ensures
            n == self.live().len(),
    {
        self.size
    }

    /// Adds a value unless the heap is full.
    pub fn insert(&mut self, value: i32)
        requires
            old(self).wf(),
        ensures
            final(self).wf(),
            final(self).capacity() == old(self).capacity(),
            old(self).live().len() == old(self).capacity() ==> final(self).live() == old(self).live(),
            old(self).live().len() < old(self).capacity() ==> final(self).contents() == old(self).contents().insert(value) && final(self).live().len() == old(self).live().len() + 1,
            old(self).live().len() < old(self).capacity() ==> final(self).live() == risen(
                old(self).live().push(value),
                old(self).live().len() as int,
            ),
            old(self).live().len() == old(self).capacity() ==> final(self).slots() == old(
                self,
            ).slots(),
            old(self).live().len() < old(self).capacity() ==> final(self).slots().skip(
                old(self).held() as int + 1,
            ) == old(self).slots().skip(old(self).held() as int + 1),
    {
        broadcast use vstd::seq_lib::group_to_multiset_ensures;

        if self.is_full() {
            return ;
        }
        let ghost before = self.live();
        let at = self.size;
        let room = self.items.len();
        assert(at < room);
        self.items[at] = value;
        self.size = at + 1;
        proof {
            assert(self.items@.skip(at + 1) =~= old(self).items@.skip(at + 1));
            assert(self.live() =~= before.push(value));
            assert forall|c: int|
                1 <= c < self.live().len() && c != self.size - 1 implies self.live()[parent_of(c)]
                >= #[trigger] self.live()[c] by {
                assert(before[parent_of(c)] >= before[c]);
            }
        }
        self.bubble_up();
    }

    /// Removes and returns the greatest value; -1 where the heap is empty.
    pub fn remove(&mut self) -> (root: i32)
        requires
            old(self).wf(),
        ensures
            final(self).wf(),
            final(self).capacity() == old(self).capacity(),
            old(self).live().len() == 0 ==> root == -1 && final(self).slots() == old(self).slots()
                && final(self).held() == 0,
            old(self).live().len() > 0 ==> final(self).slots().skip(old(self).held() - 1) == old(
                self,
            ).slots().skip(old(self).held() - 1),
            old(self).live().len() > 0 ==> {
                &&& old(self).contents().count(root) > 0
                &&& forall|x: i32| old(self).contents().count(x) > 0 ==> x <= root
                &&& final(self).contents() == old(self).contents().remove(root)
                &&& final(self).live().len() == old(self).live().len() - 1
                &&& final(self).live() == settled(
                    old(self).live().update(0, old(self).live().last()).drop_last(),
                    0,
                )
            },
    {
        broadcast use vstd::seq_lib::group_to_multiset_ensures;

        if self.is_empty() {
            return -1;
        }
        let ghost before = self.live();
        let root = self.items[0];
        let last = self.items[self.size - 1];
        self.items[0] = last;
        self.size -= 1;
        proof {
            let n = self.size as int;
            assert(self.items@.skip(n) =~= old(self).items@.skip(n));
            assert(before[0] == root && before[n] == last);
            assert forall|x: i32| before.to_multiset().count(x) > 0 implies x <= root by {
                let i = choose|i: int| 0 <= i < before.len() && before[i] == x;
                lemma_heap_top(before, i);
            }
            lemma_swap_keeps(before, 0, n);
            let swapped = before.update(0, last).update(n, root);
            assert(swapped.drop_last() =~= self.live());
            assert(self.live() =~= before.update(0, before.last()).drop_last());
            assert(swapped =~= self.live().push(root));
            assert(self.contents() =~= before.to_multiset().remove(root));
            assert forall|c: int| 1 <= c < n && parent_of(c) != 0 implies self.live()[parent_of(
                c,
            )] >= #[trigger] self.live()[c] by {
                assert(before[parent_of(c)] >= before[c]);
            }
        }
        self.bubble_down();
        root
    }

    /// Lets the value at the top sink to its place. The place after the last
    /// value counts as a child; it holds the sinking value, so the value
    /// never moves there.
    fn bubble_down(&mut self)
        requires
            old(self).size < old(self).items@.len(),
            old(self).items@[old(self).size as int] == old(self).items@[0],
            ordered_but_down(old(self).live(), old(self).size as int, 0),
        ensures
            final(self).wf(),
            final(self).size == old(self).size,
            final(self).items@.len() == old(self).items@.len(),
            final(self).contents() == old(self).contents(),
            final(self).live() == settled(old(self).live(), 0),
            final(self).items@.skip(old(self).size as int) == old(self).items@.skip(
                old(self).size as int,
            ),
    {
        let mut index: usize = 0;
        let ghost n = self.size as int;
        while index <= self.size && !self.is_valid_parent(index)
            invariant
                n == self.size,
                self.size == old(self).size,
                self.size < self.items@.len(),
                self.items@.len() == old(self).items@.len(),
                index <= n,
                self.items@[n] == self.items@[index as int],
                ordered_but_down(self.live(), n, index as int),
                self.contents() == old(self).contents(),
                settled(old(self).live(), 0) == settled(self.live(), index as int),
                self.items@.skip(n) == old(self).items@.skip(n),
                index <= self.size ==> child_order(self.items@, n, index as int) == in_place(
                    self.live(),
                    index as int,
                ),
            decreases n - index,
        {
            let larger_child_index = self.largest_child_index(index);
            let ghost before = self.live();
            self.swap(index, larger_child_index);
            proof {
                let i = index as int;
                let c = larger_child_index as int;
                assert(self.live() =~= before.update(i, before[c]).update(c, before[i]));
                assert(self.live() == exchanged(before, i, greater_child(before, i)));
                assert(self.items@.skip(n) =~= old(self).items@.skip(n));
                assert(child_order(self.items@, n, c) == in_place(self.live(), c));
                lemma_swap_keeps(before, i, c);
                assert forall|x: int| 1 <= x < n && parent_of(x) != c implies self.live()[parent_of(
                    x,
                )] >= #[trigger] self.live()[x] by {
                    if parent_of(x) == i {
                        if x != c {
                            assert(before[c] >= before[x]);
                        }
                    } else if x == i {
                        assert(before[parent_of(i)] >= before[c]);
                    } else {
                        assert(before[parent_of(x)] >= before[x]);
                    }
                }
                assert forall|x: int|
                    1 <= x < n && parent_of(x) == c && c >= 1 implies self.live()[parent_of(c)]
                    >= #[trigger] self.live()[x] by {
                    assert(before[parent_of(x)] >= before[x]);
                }
            }
            index = larger_child_index;
        }
        proof {
            assert forall|c: int| 1 <= c < n implies self.live()[parent_of(c)]
                >= #[trigger] self.live()[c] by {}
        }
    }

    /// The place of the greater child of the value at `index`, the right one
    /// where both are equal; `index` itself where it has no child.
    fn largest_child_index(&self, index: usize) -> (r: usize)
        requires
            self.size < self.items@.len(),
            index <= self.size,
            self.items@[self.size as int] == self.items@[index as int],
            !child_order(self.items@, self.size as int, index as int),
        ensures
            index < r < self.size,
            r == greater_child(self.live(), index as int),
            parent_of(r as int) == index,
            self.items@[r as int] > self.items@[index as int],
            forall|c: int|
                1 <= c < self.size && parent_of(c) == index ==> self.items@[r as int]
                    >= #[trigger] self.items@[c],
    {
        if !self.has_left_child(index) {
            return index;
        }
        if !self.has_right_child(index) {
            return self.left_child_index(index);
        }
        if self.left_child(index) > self.right_child(index) {
            self.left_child_index(index)
        } else {
            self.right_child_index(index)
        }
    }

    /// Whether the left child place of `index` is a place of the heap or the
    /// place after its last value.
    fn has_left_child(&self, index: usize) -> (r: bool)
        requires
            index <= self.size,
        ensures
            r == (index * 2 + 1 <= self.size),
    {
        index < self.size - index
    }

    /// Whether the right child place of `index` is a place of the heap or the
    /// place after its last value.
    fn has_right_child(&self, index: usize) -> (r: bool)
        requires
            index <= self.size,
        ensures
            r == (index * 2 + 2 <= self.size),
    {
        index < self.size - index && index + 1 < self.size - index
    }

    /// Whether the value at `index` is not exceeded by its children, the
    /// place after the last value counted as a child.
    fn is_valid_parent(&self, index: usize) -> (r: bool)
        requires
            self.size < self.items@.len(),
            index <= self.size,
        ensures
            r == child_order(self.items@, self.size as int, index as int),
    {
        if !self.has_left_child(index) {
            return true;
        }
        let is_valid = self.items[index] >= self.left_child(index);
        if self.has_right_child(index) {
            is_valid && self.items[index] >= self.right_child(index)
        } else {
            is_valid
        }
    }

    /// The value at the left child place of `index`.
    fn left_child(&self, index: usize) -> (v: i32)
        requires
            index * 2 + 1 < self.items@.len(),
        ensures
            v == self.items@[index * 2 + 1],
    {
        let n = self.items.len();
        self.items[self.left_child_index(index)]
    }

    /// The value at the right child place of `index`.
    fn right_child(&self, index: usize) -> (v: i32)
        requires
            index * 2 + 2 < self.items@.len(),
        ensures
            v == self.items@[index * 2 + 2],
    {
        let len = self.items.len();
        assert(index * 2 + 2 < len);
        self.items[self.right_child_index(index)]
    }

    /// The left child place of `index`.
    fn left_child_index(&self, index: usize) -> (r: usize)
        requires
            index * 2 + 1 <= usize::MAX,
        ensures
            r == index * 2 + 1,
    {
        index * 2 + 1
    }

    /// The right child place of `index`.
    fn right_child_index(&self, index: usize) -> (r: usize)
        requires
            index * 2 + 2 <= usize::MAX,
        ensures
            r == index * 2 + 2,
    {
        index * 2 + 2
    }

    /// Whether the heap can take no more values.
    fn is_full(&self) -> (r: bool)
        ensures
            r == (self.size == self.items@.len()),
    {
        self.size == self.items.len()
    }

    /// Whether the heap holds no value.
    pub fn is_empty(&self) -> (r: bool)
        requires
            self.wf(),
        ensures
            r == (self.live().len() == 0),
    {
        self.size == 0
    }

    /// Lets the last value rise to its place.
    fn bubble_up(&mut self)
        requires
            1 <= old(self).size <= old(self).items@.len(),
            ordered_but_up(old(self).live(), old(self).size - 1),
        ensures
            final(self).wf(),
            final(self).size == old(self).size,
            final(self).items@.len() == old(self).items@.len(),
            final(self).contents() == old(self).contents(),
            final(self).live() == risen(old(self).live(), old(self).size - 1),
            final(self).items@.skip(old(self).size as int) == old(self).items@.skip(
                old(self).size as int,
            ),
    {
        let mut index = self.size - 1;
        while index > 0 && self.items[index] > self.items[self.parent(index)]
            invariant
                self.size == old(self).size,
                self.items@.len() == old(self).items@.len(),
                1 <= self.size <= self.items@.len(),
                index < self.size,
                ordered_but_up(self.live(), index as int),
                self.contents() == old(self).contents(),
                risen(old(self).live(), old(self).size - 1) == risen(self.live(), index as int),
                self.items@.skip(self.size as int) == old(self).items@.skip(self.size as int),
            decreases index,
        {
            let p = self.parent(index);
            let ghost before = self.live();
            proof {
                assert(before[index as int] == self.items@[index as int]);
                assert(before[p as int] == self.items@[p as int]);
            }
            self.swap(index, p);
            proof {
                let i = index as int;
                let q = p as int;
                assert(self.live() =~= before.update(i, before[q]).update(q, before[i]));
                assert(self.items@.skip(self.size as int) =~= old(self).items@.skip(
                    self.size as int,
                ));
                lemma_swap_keeps(before, i, q);
                assert forall|c: int| 1 <= c < self.live().len() && c != q implies self.live()[parent_of(
                    c,
                )] >= #[trigger] self.live()[c] by {
                    if c == i {
                    } else if parent_of(c) == i {
                        assert(before[parent_of(i)] >= before[c]);
                    } else if parent_of(c) == q {
                        assert(before[q] >= before[c]);
                    } else {
                        assert(before[parent_of(c)] >= before[c]);
                    }
                }
                assert forall|c: int|
                    1 <= c < self.live().len() && parent_of(c) == q && q >= 1 implies self.live()[parent_of(
                    q,
                )] >= #[trigger] self.live()[c] by {
                    assert(before[parent_of(q)] >= before[q]);
                    if c != i {
                        assert(before[q] >= before[c]);
                    }
                }
            }
            index = p;
        }
        proof {
            assert forall|c: int| 1 <= c < self.live().len() implies self.live()[parent_of(c)]
                >= #[trigger] self.live()[c] by {}
        }
    }

    /// Exchanges the values at two places.
    fn swap(&mut self, first: usize, second: usize)
        requires
            first < old(self).items@.len(),
            second < old(self).items@.len(),
        ensures
            final(self).size == old(self).size,
            final(self).items@ == old(self).items@.update(
                first as int,
                old(self).items@[second as int],
            ).update(second as int, old(self).items@[first as int]),
    {
        let temp = self.items[first];
        self.items[first] = self.items[second];
        self.items[second] = temp;
    }

    /// The parent place of `index`.
    fn parent(&self, index: usize) -> (p: usize)
        requires
            index >= 1,
        ensures
            p == parent_of(index as int),
    {
        (index - 1) / 2
    }

    /// The place of the last value that has a child, in a heap of at least
    /// two values.
    pub fn last_parent(&self) -> (p: usize)
        requires
            self.wf(),
            self.live().len() >= 2,
        ensures
            p == self.live().len() / 2 - 1,
    {
        self.size / 2 - 1
    }

    /// The greatest value; -1 where the heap is empty.
    pub fn max(&self) -> (m: i32)
        requires
            self.wf(),
        ensures
            self.live().len() == 0 ==> m == -1,
            self.live().len() > 0 ==> self.contents().count(m) > 0 && forall|x: i32|
                self.contents().count(x) > 0 ==> x <= m,
    {
        broadcast use vstd::seq_lib::group_to_multiset_ensures;

        if self.is_empty() {
            return -1;
        }
        proof {
            let s = self.live();
            assert(s[0] == self.items@[0]);
            assert forall|x: i32| s.to_multiset().count(x) > 0 implies x <= s[0] by {
                let i = choose|i: int| 0 <= i < s.len() && s[i] == x;
                lemma_heap_top(s, i);
            }
        }
        self.items[0]
    }
}

/// Whether, among the first `n + 1` values of `s`, the value at place `i` is
/// not exceeded by the values at its child places.
spec fn child_order(s: Seq<i32>, n: int, i: int) -> bool {
    &&& 2 * i + 1 <= n ==> s[i] >= s[2 * i + 1]
    &&& 2 * i + 2 <= n ==> s[i] >= s[2 * i + 2]
}

/// A priority queue that hands out its greatest value first, on top of a
/// heap of fixed size.
#[derive(Debug)]
pub struct PriorityQueueWithHeap {
    heap: Heap,
}

impl PriorityQueueWithHeap {
    /// The heap below the queue.
    pub closed spec fn heap(&self) -> Heap {
        self.heap
    }

    /// An empty queue that can take `length` values.
    pub fn new(length: usize) -> (q: Self)
        ensures
            q.heap().wf(),
            q.heap().held() == 0,
            q.heap().slots().len() == length,
            forall|i: int| 0 <= i < length ==> #[trigger] q.heap().slots()[i] == 0,
    {
        Self { heap: Heap::new(length) }
    }

    /// Adds a value unless the queue is full.
    pub fn enqueue(&mut self, item: i32)
        requires
            old(self).heap().wf(),
        ensures
            final(self).heap().wf(),
            final(self).heap().capacity() == old(self).heap().capacity(),
            old(self).heap().live().len() == old(self).heap().capacity() ==> final(self).heap().live() == old(self).heap().live(),
            old(self).heap().live().len() < old(self).heap().capacity() ==> final(self).heap().contents() == old(self).heap().contents().insert(item) && final(self).heap().live().len() == old(self).heap().live().len() + 1,
            old(self).heap().live().len() < old(self).heap().capacity() ==> final(self).heap().live()
                == risen(old(self).heap().live().push(item), old(self).heap().live().len() as int),
    {
        self.heap.insert(item);
    }

    /// Removes and returns the greatest value; -1 where the queue is empty.
    pub fn dequeue(&mut self) -> (top: i32)
        requires
            old(self).heap().wf(),
        ensures
            final(self).heap().wf(),
            final(self).heap().capacity() == old(self).heap().capacity(),
            old(self).heap().live().len() == 0 ==> top == -1 && final(self).heap().live() == old(self).heap().live(),
            old(self).heap().live().len() > 0 ==> {
                &&& old(self).heap().contents().count(top) > 0
                &&& forall|x: i32| old(self).heap().contents().count(x) > 0 ==> x <= top
                &&& final(self).heap().contents() == old(self).heap().contents().remove(top)
                &&& final(self).heap().live().len() == old(self).heap().live().len() - 1
                &&& final(self).heap().live() == settled(
                    old(self).heap().live().update(0, old(self).heap().live().last()).drop_last(),
                    0,
                )
            },
    {
        self.heap.remove()
    }

    /// Whether the queue holds no value.
    pub fn is_empty(&self) -> (r: bool)
        requires
            self.heap().wf(),
        ensures
            r == (self.heap().live().len() == 0),
    {
        self.heap.is_empty()
    }
}

/// The list after the value at place `i` sank: as long as a child holds a
/// greater value, the value changes places with the greater child, the left
/// one where both are equal.
pub open spec fn sunk(s: Seq<i32>, i: int) -> Seq<i32>
    decreases s.len() - i,
{
    let l = 2 * i + 1;
    let r = 2 * i + 2;
    let a = if 0 <= i && l < s.len() && s[l] > s[i] {
        l
    } else {
        i
    };
    let b = if 0 <= i && r < s.len() && s[r] > s[a] {
        r
    } else {
        a
    };
    if b == i {
        s
    } else {
        sunk(s.update(i, s[b]).update(b, s[i]), b)
    }
}

/// The list after the values at the places from `i` down to 0 sank, one
/// after the other.
pub open spec fn sunk_from(s: Seq<i32>, i: int) -> Seq<i32>
    decreases i + 1,
{
    if i < 0 {
        s
    } else {
        sunk_from(sunk(s, i), i - 1)
    }
}

/// Sinking a value keeps the length of the list and what it holds.
pub proof fn lemma_sunk_keeps(s: Seq<i32>, i: int)
    ensures
        sunk(s, i).len() == s.len(),
        sunk(s, i).to_multiset() == s.to_multiset(),
    decreases s.len() - i,
{
    let l = 2 * i + 1;
    let r = 2 * i + 2;
    let a = if 0 <= i && l < s.len() && s[l] > s[i] {
        l
    } else {
        i
    };
    let b = if 0 <= i && r < s.len() && s[r] > s[a] {
        r
    } else {
        a
    };
    if b != i {
        lemma_swap_keeps(s, i, b);
        lemma_sunk_keeps(s.update(i, s[b]).update(b, s[i]), b);
    }
}

/// Sinking values one after the other keeps the length of the list and what
/// it holds.
pub proof fn lemma_sunk_from_keeps(s: Seq<i32>, i: int)
    ensures
        sunk_from(s, i).len() == s.len(),
        sunk_from(s, i).to_multiset() == s.to_multiset(),
    decreases i + 1,
{
    if i >= 0 {
        lemma_sunk_keeps(s, i);
        lemma_sunk_from_keeps(sunk(s, i), i - 1);
    }
}

/// Whether no value of `s` exceeds the value at its parent place, as far as
/// the parent place is `lo` or later.
pub open spec fn ordered_from(s: Seq<i32>, lo: int) -> bool {
    forall|c: int| 1 <= c < s.len() && parent_of(c) >= lo ==> s[parent_of(c)] >= #[trigger] s[c]
}

/// Whether `s` is ordered from `lo` on, except that the values below place
/// `i` may exceed the value at `i`; they do not exceed the value above `i`.
spec fn ordered_around(s: Seq<i32>, lo: int, i: int) -> bool {
    &&& forall|c: int|
        1 <= c < s.len() && parent_of(c) >= lo && parent_of(c) != i ==> s[parent_of(c)]
            >= #[trigger] s[c]
    &&& forall|c: int|
        1 <= c < s.len() && parent_of(c) == i && i >= 1 && parent_of(i) >= lo ==> s[parent_of(i)]
            >= #[trigger] s[c]
}

/// Sinking the one value that may stand too high gives a list that is
/// ordered.
proof fn lemma_sunk_orders(s: Seq<i32>, lo: int, i: int)
    requires
        0 <= lo <= i,
        ordered_around(s, lo, i),
    ensures
        ordered_from(sunk(s, i), lo),
    decreases s.len() - i,
{
    let l = 2 * i + 1;
    let r = 2 * i + 2;
    let a = if 0 <= i && l < s.len() && s[l] > s[i] {
        l
    } else {
        i
    };
    let b = if 0 <= i && r < s.len() && s[r] > s[a] {
        r
    } else {
        a
    };
    if b == i {
        assert forall|c: int| 1 <= c < s.len() && parent_of(c) >= lo implies s[parent_of(c)]
            >= #[trigger] s[c] by {
            if parent_of(c) == i {
                assert(c == l || c == r);
            }
        }
    } else {
        let t = s.update(i, s[b]).update(b, s[i]);
        assert(parent_of(b) == i);
        assert forall|c: int|
            1 <= c < t.len() && parent_of(c) >= lo && parent_of(c) != b implies t[parent_of(c)]
            >= #[trigger] t[c] by {
            if parent_of(c) == i {
                assert(c == l || c == r);
            } else if c == i {
                assert(s[parent_of(i)] >= s[b]);
            } else {
                assert(s[parent_of(c)] >= s[c]);
            }
        }
        assert forall|c: int|
            1 <= c < t.len() && parent_of(c) == b && b >= 1 && parent_of(b) >= lo implies t[parent_of(
            b,
        )] >= #[trigger] t[c] by {
            assert(s[parent_of(c)] >= s[c]);
        }
        lemma_sunk_orders(t, lo, b);
    }
}

/// Makes a heap of the list: the values at all places that have a child
/// sink, from the last such place back to the first.
pub fn heapify(numbers: &mut Vec<i32>)
    requires
        2 * old(numbers)@.len() <= usize::MAX,
    ensures
        heap_ordered(final(numbers)@),
        final(numbers)@.len() == old(numbers)@.len(),
        final(numbers)@.to_multiset() == old(numbers)@.to_multiset(),
        final(numbers)@ == sunk_from(old(numbers)@, old(numbers)@.len() / 2 - 1),
{
    let len = numbers.len();
    let mut i = len / 2;
    proof {
        lemma_sunk_from_keeps(numbers@, len / 2 - 1);
        assert forall|c: int| 1 <= c < numbers@.len() && parent_of(c) >= i implies numbers@[parent_of(
            c,
        )] >= #[trigger] numbers@[c] by {
            assert(parent_of(c) < len / 2);
        }
    }
    while i > 0
        invariant
            i <= len / 2,
            numbers@.len() == len,
            2 * len <= usize::MAX,
            ordered_from(numbers@, i as int),
            sunk_from(numbers@, i - 1) == sunk_from(old(numbers)@, len / 2 - 1),
        decreases i,
    {
        i -= 1;
        proof {
            lemma_sunk_keeps(numbers@, i as int);
            lemma_sunk_orders(numbers@, i as int, i as int);
        }
        _heapify(numbers, i);
    }
}

/// Lets the value at place `index` sink.
pub fn _heapify(numbers: &mut Vec<i32>, index: usize)
    requires
        2 * index + 2 <= usize::MAX,
        2 * old(numbers)@.len() <= usize::MAX,
    ensures
        final(numbers)@ == sunk(old(numbers)@, index as int),
    decreases old(numbers)@.len() - index,
{
    let mut larger_index = index;
    let left_index = index * 2 + 1;
    if left_index < numbers.len() && numbers[left_index] > numbers[larger_index] {
        larger_index = left_index;
    }
    let right_index = index * 2 + 2;
    if right_index < numbers.len() && numbers[right_index] > numbers[larger_index] {
        larger_index = right_index;
    }
    if index == larger_index {
        return ;
    }
    let first = numbers[index];
    let second = numbers[larger_index];
    numbers[index] = second;
    numbers[larger_index] = first;
    _heapify(numbers, larger_index);
}

/// Whether `r` is the `k`-th greatest value of `m`: `m` without some `k - 1`
/// of its values, none of them smaller than `r`, holds `r` and nothing
/// greater.
pub open spec fn kth_largest(m: Multiset<i32>, k: int, r: i32) -> bool {
    exists|above: Multiset<i32>|
        {
            &&& #[trigger] above.subset_of(m)
            &&& above.len() == k - 1
            &&& forall|x: i32| above.count(x) > 0 ==> x >= r
            &&& m.sub(above).count(r) > 0
            &&& forall|y: i32| m.sub(above).count(y) > 0 ==> y <= r
        }
}

/// The `k`-th greatest of the numbers, counting from 1 and counting equal
/// numbers each; -1 where there is no such number.
pub fn get_kth_largest(numbers: &Vec<i32>, k: i32) -> (r: i32)
    requires
        numbers@.len() <= i32::MAX,
    ensures
        k < 1 || k > numbers@.len() ==> r == -1,
        1 <= k <= numbers@.len() ==> kth_largest(numbers@.to_multiset(), k as int, r),
{
    broadcast use vstd::seq_lib::group_to_multiset_ensures;

    let len = numbers.len();
    if k < 1 || k as usize > len {
        return -1;
    }
    let mut heap = Heap::new(len);
    let mut i: usize = 0;
    proof {
        assert(numbers@.take(0) =~= Seq::<i32>::empty());
    }
    while i < len
        invariant
            i <= len,
            len == numbers@.len(),
            heap.wf(),
            heap.capacity() == len,
            heap.live().len() == i,
            heap.contents() == numbers@.take(i as int).to_multiset(),
        decreases len - i,
    {
        proof {
            assert(numbers@.take(i + 1) =~= numbers@.take(i as int).push(numbers@[i as int]));
            numbers@.take(i as int).to_multiset_ensures();
        }
        heap.insert(numbers[i]);
        i += 1;
    }
    let ghost m = numbers@.to_multiset();
    let ghost mut above: Multiset<i32> = Multiset::empty();
    proof {
        assert(numbers@.take(len as int) =~= numbers@);
        assert(m.sub(above) =~= m);
    }
    let mut j: i32 = 0;
    while j < k - 1
        invariant
            0 <= j <= k - 1,
            1 <= k <= len,
            len == numbers@.len(),
            len <= i32::MAX,
            m == numbers@.to_multiset(),
            heap.wf(),
            heap.live().len() == len - j,
            heap.contents() == m.sub(above),
            above.subset_of(m),
            above.len() == j,
            forall|x: i32, y: i32| above.count(x) > 0 && heap.contents().count(y) > 0 ==> x >= y,
        decreases k - 1 - j,
    {
        let ghost held = heap.contents();
        let top = heap.remove();
        proof {
            let more = above.insert(top);
            assert(more.subset_of(m)) by {
                assert forall|x: i32| more.count(x) <= m.count(x) by {
                    assert(held.count(x) == m.sub(above).count(x));
                    assert(above.count(x) <= m.count(x));
                }
            }
            assert(held.remove(top) =~= m.sub(more));
            assert forall|x: i32, y: i32|
                more.count(x) > 0 && heap.contents().count(y) > 0 implies x >= y by {
                assert(held.count(y) > 0);
                if above.count(x) > 0 {
                } else {
                    assert(x == top);
                }
            }
            above = more;
        }
        j += 1;
    }
    let r = heap.max();
    proof {
        assert(kth_largest(m, k as int, r)) by {
            assert(above.subset_of(m));
        }
    }
    r
}

} // verus!
