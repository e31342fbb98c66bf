//! A binary search tree of `i32` values, and the factorial.

use vstd::prelude::*;

verus! {

/// The mathematical value of a tree: empty, or a value between two trees.
pub enum Shape {
    Empty,
    Fork { left: Box<Shape>, value: i32, right: Box<Shape> },
}

/// A shape of one value.
pub open spec fn single(value: i32) -> Shape {
    Shape::Fork { left: Box::new(Shape::Empty), value, right: Box::new(Shape::Empty) }
}

/// The shape after `v` was inserted: below the first free place met by going
/// left of every greater value and right of every other.
pub open spec fn inserted(s: Shape, v: i32) -> Shape
    decreases s,
{
    match s {
        Shape::Empty => single(v),
        Shape::Fork { left, value, right } => if v < value {
            Shape::Fork { left: Box::new(inserted(*left, v)), value, right }
        } else {
            Shape::Fork { left, value, right: Box::new(inserted(*right, v)) }
        },
    }
}

/// Whether a search that goes left of greater values and right of smaller
/// ones meets `v`.
pub open spec fn found(s: Shape, v: i32) -> bool
    decreases s,
{
    match s {
        Shape::Empty => false,
        Shape::Fork { left, value, right } => if v < value {
            found(*left, v)
        } else if v > value {
            found(*right, v)
        } else {
            true
        },
    }
}

/// The values of a shape: the value of a fork, then its left, then its right.
pub open spec fn pre_order(s: Shape) -> Seq<i32>
    decreases s,
{
    match s {
        Shape::Empty => Seq::empty(),
        Shape::Fork { left, value, right } => seq![value] + pre_order(*left) + pre_order(*right),
    }
}

/// The values of a shape from left to right.
pub open spec fn in_order(s: Shape) -> Seq<i32>
    decreases s,
{
    match s {
        Shape::Empty => Seq::empty(),
        Shape::Fork { left, value, right } => in_order(*left) + seq![value] + in_order(*right),
    }
}

/// The greater of two integers.
pub open spec fn larger(a: int, b: int) -> int {
    if a >= b {
        a
    } else {
        b
    }
}

/// The smaller of two integers.
pub open spec fn smaller(a: int, b: int) -> int {
    if a <= b {
        a
    } else {
        b
    }
}

/// The number of edges on the longest way down; -1 for the empty shape.
pub open spec fn height(s: Shape) -> int
    decreases s,
{
    match s {
        Shape::Empty => -1,
        Shape::Fork { left, value, right } => 1 + larger(height(*left), height(*right)),
    }
}

/// The number of values.
pub open spec fn size(s: Shape) -> int
    decreases s,
{
    match s {
        Shape::Empty => 0,
        Shape::Fork { left, value, right } => 1 + size(*left) + size(*right),
    }
}

/// The number of forks without a fork below.
pub open spec fn leaves(s: Shape) -> int
    decreases s,
{
    match s {
        Shape::Empty => 0,
        Shape::Fork { left, value, right } => if *left is Empty && *right is Empty {
            1
        } else {
            leaves(*left) + leaves(*right)
        },
    }
}

/// The value met last when always going left; `i32::MAX` for the empty shape.
pub open spec fn leftmost(s: Shape) -> i32
    decreases s,
{
    match s {
        Shape::Empty => i32::MAX,
        Shape::Fork { left, value, right } => if *left is Empty {
            value
        } else {
            leftmost(*left)
        },
    }
}

/// The least value; `i32::MAX` for the empty shape.
pub open spec fn least(s: Shape) -> int
    decreases s,
{
    match s {
        Shape::Empty => i32::MAX as int,
        Shape::Fork { left, value, right } => smaller(
            smaller(least(*left), least(*right)),
            value as int,
        ),
    }
}

/// The greatest value; `i32::MIN` for the empty shape.
pub open spec fn greatest(s: Shape) -> int
    decreases s,
{
    match s {
        Shape::Empty => i32::MIN as int,
        Shape::Fork { left, value, right } => larger(
            larger(greatest(*left), greatest(*right)),
            value as int,
        ),
    }
}

/// Whether every value lies in `lo ..= hi`, every value left of a fork is
/// smaller than the fork's and every value right of it greater.
pub open spec fn search_ordered(s: Shape, lo: int, hi: int) -> bool
    decreases s,
{
    match s {
        Shape::Empty => true,
        Shape::Fork { left, value, right } => lo <= value <= hi && search_ordered(
            *left,
            lo,
            value - 1,
        ) && search_ordered(*right, value + 1, hi),
    }
}

/// The values that stand `d` edges below the top, from left to right.
pub open spec fn at_distance(s: Shape, d: int) -> Seq<i32>
    decreases s,
{
    match s {
        Shape::Empty => Seq::empty(),
        Shape::Fork { left, value, right } => (if d == 0 {
            seq![value]
        } else {
            Seq::empty()
        }) + at_distance(*left, d - 1) + at_distance(*right, d - 1),
    }
}

/// The values level by level from the top down to level `upto`, each level
/// from left to right.
pub open spec fn level_order(s: Shape, upto: int) -> Seq<i32>
    decreases upto + 1,
{
    if upto < 0 {
        Seq::empty()
    } else {
        level_order(s, upto - 1) + at_distance(s, upto)
    }
}

/// The shape with the two sides of its top exchanged.
pub open spec fn swapped(s: Shape) -> Shape {
    match s {
        Shape::Empty => Shape::Empty,
        Shape::Fork { left, value, right } => Shape::Fork { left: right, value, right: left },
    }
}

/// The product of the integers from 1 to `n`.
pub open spec fn product_to(n: nat) -> nat
    decreases n,
{
    if n == 0 {
        1
    } else {
        n * product_to((n - 1) as nat)
    }
}

/// Whether no value of `q` is followed by a smaller one.
pub open spec fn sorted(q: Seq<i32>) -> bool {
    forall|i: int, j: int| 0 <= i < j < q.len() ==> q[i] <= q[j]
}

/// Whether no value of `q` exceeds `x`.
pub open spec fn all_at_most(q: Seq<i32>, x: int) -> bool {
    forall|i: int| 0 <= i < q.len() ==> q[i] <= x
}

/// Whether no value of `q` is below `x`.
pub open spec fn all_at_least(q: Seq<i32>, x: int) -> bool {
    forall|i: int| 0 <= i < q.len() ==> q[i] >= x
}

/// A list made of a sorted list of values at most `x`, then `x`, then a
/// sorted list of values at least `x` is sorted, and the other way round.
pub proof fn lemma_sorted_around(a: Seq<i32>, x: i32, b: Seq<i32>)
    ensures
        sorted(a + seq![x] + b) <==> sorted(a) && sorted(b) && all_at_most(a, x as int)
            && all_at_least(b, x as int),
{
    let q = a + seq![x] + b;
    let n = a.len() as int;
    if sorted(q) {
        assert forall|i: int, j: int| 0 <= i < j < a.len() implies a[i] <= a[j] by {
            assert(q[i] == a[i] && q[j] == a[j]);
        }
        assert forall|i: int, j: int| 0 <= i < j < b.len() implies b[i] <= b[j] by {
            assert(q[n + 1 + i] == b[i] && q[n + 1 + j] == b[j]);
        }
        assert forall|i: int| 0 <= i < a.len() implies a[i] <= x by {
            assert(q[i] == a[i] && q[n] == x);
        }
        assert forall|i: int| 0 <= i < b.len() implies b[i] >= x by {
            assert(q[n + 1 + i] == b[i] && q[n] == x);
        }
    }
    if sorted(a) && sorted(b) && all_at_most(a, x as int) && all_at_least(b, x as int) {
        assert forall|i: int, j: int| 0 <= i < j < q.len() implies q[i] <= q[j] by {
            if i < n {
                assert(q[i] == a[i]);
            } else if i > n {
                assert(q[i] == b[i - n - 1]);
            }
            if j < n {
                assert(q[j] == a[j]);
            } else if j > n {
                assert(q[j] == b[j - n - 1]);
            }
        }
    }
}

/// A bound on the values of a list is a bound on everything the list holds.
pub proof fn lemma_bound_by_count(q: Seq<i32>, r: Seq<i32>, x: int)
    requires
        forall|v: i32| r.to_multiset().count(v) > 0 ==> q.to_multiset().count(v) > 0 || v <= x,
        all_at_most(q, x),
    ensures
        all_at_most(r, x),
{
    broadcast use vstd::seq_lib::group_to_multiset_ensures;

    assert forall|i: int| 0 <= i < r.len() implies r[i] <= x by {
        assert(r.to_multiset().count(r[i]) > 0);
        if q.to_multiset().count(r[i]) > 0 {
            let j = choose|j: int| 0 <= j < q.len() && q[j] == r[i];
        }
    }
}

/// A lower bound on the values of a list is a bound on everything the list
/// holds.
pub proof fn lemma_floor_by_count(q: Seq<i32>, r: Seq<i32>, x: int)
    requires
        forall|v: i32| r.to_multiset().count(v) > 0 ==> q.to_multiset().count(v) > 0 || v >= x,
        all_at_least(q, x),
    ensures
        all_at_least(r, x),
{
    broadcast use vstd::seq_lib::group_to_multiset_ensures;

    assert forall|i: int| 0 <= i < r.len() implies r[i] >= x by {
        assert(r.to_multiset().count(r[i]) > 0);
        if q.to_multiset().count(r[i]) > 0 {
            let j = choose|j: int| 0 <= j < q.len() && q[j] == r[i];
        }
    }
}

/// A shape of one value holds that value alone.
pub proof fn lemma_in_order_single(v: i32)
    ensures
        in_order(single(v)) == seq![v],
        in_order(inserted(Shape::Empty, v)) == seq![v],
{
    reveal_with_fuel(in_order, 3);
    assert(in_order(single(v)) =~= seq![v]);
}

/// Inserting a value adds it, once, to what the shape holds.
pub proof fn lemma_inserted_holds(s: Shape, v: i32)
    ensures
        in_order(inserted(s, v)).to_multiset() == in_order(s).to_multiset().insert(v),
    decreases s,
{
    vstd::seq_lib::lemma_multiset_commutative(seq![v], Seq::<i32>::empty());
    match s {
        Shape::Empty => {
            lemma_in_order_single(v);
            assert(in_order(s) =~= Seq::<i32>::empty());
            assert(seq![v] =~= Seq::<i32>::empty().push(v));
            Seq::<i32>::empty().to_multiset_ensures();
        },
        Shape::Fork { left, value, right } => {
            let l = in_order(*left);
            let r = in_order(*right);
            if v < value {
                lemma_inserted_holds(*left, v);
                let l2 = in_order(inserted(*left, v));
                vstd::seq_lib::lemma_multiset_commutative(l2, seq![value] + r);
                vstd::seq_lib::lemma_multiset_commutative(l, seq![value] + r);
                assert(l2 + seq![value] + r =~= l2 + (seq![value] + r));
                assert(l + seq![value] + r =~= l + (seq![value] + r));
                assert(in_order(inserted(s, v)).to_multiset() =~= in_order(s).to_multiset().insert(
                    v,
                ));
            } else {
                lemma_inserted_holds(*right, v);
                let r2 = in_order(inserted(*right, v));
                vstd::seq_lib::lemma_multiset_commutative(l + seq![value], r2);
                vstd::seq_lib::lemma_multiset_commutative(l + seq![value], r);
                assert(in_order(inserted(s, v)).to_multiset() =~= in_order(s).to_multiset().insert(
                    v,
                ));
            }
        },
    }
}

/// Inserting a value into a shape whose values stand in ascending order
/// from left to right keeps them so.
pub proof fn lemma_inserted_sorted(s: Shape, v: i32)
    requires
        sorted(in_order(s)),
    ensures
        sorted(in_order(inserted(s, v))),
    decreases s,
{
    match s {
        Shape::Empty => {
            lemma_in_order_single(v);
        },
        Shape::Fork { left, value, right } => {
            let l = in_order(*left);
            let r = in_order(*right);
            lemma_sorted_around(l, value, r);
            if v < value {
                lemma_inserted_sorted(*left, v);
                lemma_inserted_holds(*left, v);
                let l2 = in_order(inserted(*left, v));
                lemma_bound_by_count(l, l2, value as int);
                lemma_sorted_around(l2, value, r);
            } else {
                lemma_inserted_sorted(*right, v);
                lemma_inserted_holds(*right, v);
                let r2 = in_order(inserted(*right, v));
                lemma_floor_by_count(r, r2, value as int);
                lemma_sorted_around(l, value, r2);
            }
        },
    }
}

/// A search for a value that was inserted meets it.
pub proof fn lemma_inserted_found(s: Shape, v: i32)
    ensures
        found(inserted(s, v), v),
    decreases s,
{
    match s {
        Shape::Empty => {},
        Shape::Fork { left, value, right } => {
            if v < value {
                lemma_inserted_found(*left, v);
            } else if v > value {
                lemma_inserted_found(*right, v);
            }
        },
    }
}

/// In a shape whose values stand in ascending order from left to right, a
/// search meets exactly the values of the shape.
pub proof fn lemma_found_iff_held(s: Shape, v: i32)
    requires
        sorted(in_order(s)),
    ensures
        found(s, v) <==> in_order(s).contains(v),
    decreases s,
{
    match s {
        Shape::Empty => {},
        Shape::Fork { left, value, right } => {
            let l = in_order(*left);
            let r = in_order(*right);
            let q = in_order(s);
            let n = l.len() as int;
            lemma_sorted_around(l, value, r);
            lemma_found_iff_held(*left, v);
            lemma_found_iff_held(*right, v);
            assert(q[n] == value);
            if l.contains(v) {
                let i = choose|i: int| 0 <= i < l.len() && l[i] == v;
                assert(q[i] == v);
            }
            if r.contains(v) {
                let i = choose|i: int| 0 <= i < r.len() && r[i] == v;
                assert(q[n + 1 + i] == v);
            }
            if q.contains(v) {
                let i = choose|i: int| 0 <= i < q.len() && q[i] == v;
                if i < n {
                    assert(l[i] == v);
                } else if i > n {
                    assert(r[i - n - 1] == v);
                }
            }
            if v < value {
                if r.contains(v) {
                    let i = choose|i: int| 0 <= i < r.len() && r[i] == v;
                }
            } else if v > value {
                if l.contains(v) {
                    let i = choose|i: int| 0 <= i < l.len() && l[i] == v;
                }
            }
        },
    }
}

/// The values of a shape in strict search order stand in ascending order
/// from left to right.
pub proof fn lemma_search_ordered_sorted(s: Shape, lo: int, hi: int)
    requires
        search_ordered(s, lo, hi),
    ensures
        sorted(in_order(s)),
        all_at_least(in_order(s), lo),
        all_at_most(in_order(s), hi),
    decreases s,
{
    match s {
        Shape::Empty => {},
        Shape::Fork { left, value, right } => {
            let l = in_order(*left);
            let r = in_order(*right);
            let q = in_order(s);
            let n = l.len() as int;
            lemma_search_ordered_sorted(*left, lo, value - 1);
            lemma_search_ordered_sorted(*right, value + 1, hi);
            lemma_sorted_around(l, value, r);
            assert forall|i: int| 0 <= i < q.len() implies lo <= #[trigger] q[i] && q[i] <= hi by {
                if i < n {
                    assert(q[i] == l[i]);
                } else if i > n {
                    assert(q[i] == r[i - n - 1]);
                }
            }
        },
    }
}

/// A node of the tree: a value and what hangs left and right of it.
#[derive(Debug)]
pub struct Node {
    value: i32,
    left: Option<Box<Node>>,
    right: Option<Box<Node>>,
}

/// A binary tree that `insert` keeps in search order.
#[derive(Debug)]
pub struct Tree {
    root: Option<Box<Node>>,
}

/// The shape of what hangs at a link.
pub closed spec fn shape_of(link: Option<Box<Node>>) -> Shape
    decreases link,
{
    match link {
        None => Shape::Empty,
        Some(node) => Shape::Fork {
            left: Box::new(shape_of(node.left)),
            value: node.value,
            right: Box::new(shape_of(node.right)),
        },
    }
}

impl View for Node {
    type V = Shape;

    closed spec fn view(&self) -> Shape {
        Shape::Fork {
            left: Box::new(shape_of(self.left)),
            value: self.value,
            right: Box::new(shape_of(self.right)),
        }
    }
}

impl View for Tree {
    type V = Shape;

    closed spec fn view(&self) -> Shape {
        shape_of(self.root)
    }
}

impl Clone for Node {
    fn clone(&self) -> (r: Self)
        ensures
            r@ == self@,
        decreases self,
    {
        Node { value: self.value, left: copy_link(&self.left), right: copy_link(&self.right) }
    }
}

/// A copy of what hangs at a link.
fn copy_link(link: &Option<Box<Node>>) -> (r: Option<Box<Node>>)
    ensures
        shape_of(r) == shape_of(*link),
    decreases link,
{
    match link {
        None => None,
        Some(node) => Some(
            Box::new(
                Node {
                    value: node.value,
                    left: copy_link(&node.left),
                    right: copy_link(&node.right),
                },
            ),
        ),
    }
}

impl Clone for Tree {
    fn clone(&self) -> (r: Self)
        ensures
            r@ == self@,
    {
        Tree { root: copy_link(&self.root) }
    }
}

impl Node {
    /// A node without anything below it.
    pub fn new(value: i32) -> (n: Self)
        ensures
            n@ == single(value),
    {
        Node { value, left: None, right: None }
    }

    /// A node with the given value between what is given for its two sides.
    pub fn from_parts(value: i32, left: Option<Node>, right: Option<Node>) -> (n: Self)
        ensures
            n@ == (Shape::Fork {
                left: Box::new(
                    match left {
                        Some(l) => l@,
                        None => Shape::Empty,
                    },
                ),
                value,
                right: Box::new(
                    match right {
                        Some(r) => r@,
                        None => Shape::Empty,
                    },
                ),
            }),
    {
        let left = match left {
            Some(l) => Some(Box::new(l)),
            None => None,
        };
        let right = match right {
            Some(r) => Some(Box::new(r)),
            None => None,
        };
        Node { value, left, right }
    }

    /// The value of the node.
    pub fn value(&self) -> (v: i32)
        ensures
            self@ matches Shape::Fork { value, .. } && v == value,
    {
        self.value
    }

    /// What hangs left of the node.
    pub fn left(&self) -> (l: Option<&Node>)
        ensures
            self@ matches Shape::Fork { left, .. } && match l {
                Some(n) => n@ == *left,
                None => *left is Empty,
            },
    {
        match &self.left {
            Some(b) => Some(&**b),
            None => None,
        }
    }

    /// What hangs right of the node.
    pub fn right(&self) -> (r: Option<&Node>)
        ensures
            self@ matches Shape::Fork { right, .. } && match r {
                Some(n) => n@ == *right,
                None => *right is Empty,
            },
    {
        match &self.right {
            Some(b) => Some(&**b),
            None => None,
        }
    }
}

/// The height of what hangs at a link.
fn height_at(link: &Option<Box<Node>>) -> (h: i32)
    requires
        height(shape_of(*link)) < i32::MAX,
    ensures
        h == height(shape_of(*link)),
    decreases link,
{
    match link {
        Some(node) => {
            let l = height_at(&node.left);
            let r = height_at(&node.right);
            if l >= r {
                1 + l
            } else {
                1 + r
            }
        },
        None => -1,
    }
}

/// The height of a shape is at least -1.
pub proof fn lemma_height_floor(s: Shape)
    ensures
        height(s) >= -1,
    decreases s,
{
    match s {
        Shape::Empty => {},
        Shape::Fork { left, value, right } => {
            lemma_height_floor(*left);
            lemma_height_floor(*right);
        },
    }
}

/// Sizes and leaf counts are not negative, and there are no more leaves than
/// values.
pub proof fn lemma_size_floor(s: Shape)
    ensures
        0 <= leaves(s) <= size(s),
    decreases s,
{
    match s {
        Shape::Empty => {},
        Shape::Fork { left, value, right } => {
            lemma_size_floor(*left);
            lemma_size_floor(*right);
        },
    }
}

/// The least and the greatest value are `i32` values.
pub proof fn lemma_extremes(s: Shape)
    ensures
        i32::MIN <= least(s) <= i32::MAX,
        i32::MIN <= greatest(s) <= i32::MAX,
    decreases s,
{
    match s {
        Shape::Empty => {},
        Shape::Fork { left, value, right } => {
            lemma_extremes(*left);
            lemma_extremes(*right);
        },
    }
}

/// The least value of what hangs at a link.
fn min_at(link: &Option<Box<Node>>) -> (m: i32)
    ensures
        m == least(shape_of(*link)),
    decreases link,
{
    proof {
        lemma_extremes(shape_of(*link));
    }
    match link {
        Some(node) => {
            let l = min_at(&node.left);
            let r = min_at(&node.right);
            let lr = if l <= r {
                l
            } else {
                r
            };
            if lr <= node.value {
                lr
            } else {
                node.value
            }
        },
        None => i32::MAX,
    }
}

/// The greatest value of what hangs at a link.
fn max_at(link: &Option<Box<Node>>) -> (m: i32)
    ensures
        m == greatest(shape_of(*link)),
    decreases link,
{
    match link {
        Some(node) => {
            let l = max_at(&node.left);
            let r = max_at(&node.right);
            let lr = if l >= r {
                l
            } else {
                r
            };
            if lr >= node.value {
                lr
            } else {
                node.value
            }
        },
        None => i32::MIN,
    }
}

/// Whether the same values hang at two links in the same places.
fn equal_at(first: &Option<Box<Node>>, second: &Option<Box<Node>>) -> (r: bool)
    ensures
        r == (shape_of(*first) == shape_of(*second)),
    decreases first,
{
    match first {
        Some(node) => match second {
            Some(other) => node.value == other.value && equal_at(&node.left, &other.left)
                && equal_at(&node.right, &other.right),
            None => false,
        },
        None => match second {
            None => true,
            _ => false,
        },
    }
}

/// Whether what hangs at a link is in strict search order within `min ..= max`.
fn ordered_at(link: &Option<Box<Node>>, min: i64, max: i64) -> (r: bool)
    requires
        i32::MIN - 1 <= min <= i32::MAX + 1,
        i32::MIN - 1 <= max <= i32::MAX + 1,
    ensures
        r == search_ordered(shape_of(*link), min as int, max as int),
    decreases link,
{
    match link {
        Some(node) => {
            let value = node.value as i64;
            if value < min || value > max {
                return false;
            }
            ordered_at(&node.left, min, value - 1) && ordered_at(&node.right, value + 1, max)
        },
        None => true,
    }
}

/// Appends to `list` the values that stand `distance` edges below a link.
fn collect_at(link: &Option<Box<Node>>, distance: i32, list: &mut Vec<i32>)
    requires
        distance - (height(shape_of(*link)) + 1) >= i32::MIN,
    ensures
        final(list)@ == old(list)@ + at_distance(shape_of(*link), distance as int),
    decreases link,
{
    match link {
        Some(node) => {
            proof {
                lemma_height_floor(shape_of(node.left));
                lemma_height_floor(shape_of(node.right));
            }
            if distance == 0 {
                list.push(node.value);
            }
            collect_at(&node.left, distance - 1, list);
            collect_at(&node.right, distance - 1, list);
            proof {
                assert(list@ =~= old(list)@ + at_distance(shape_of(*link), distance as int));
            }
        },
        None => {
            assert(list@ =~= old(list)@ + at_distance(shape_of(*link), distance as int));
        },
    }
}

/// The number of values that hang at a link.
fn size_at(link: &Option<Box<Node>>) -> (n: i32)
    requires
        size(shape_of(*link)) <= i32::MAX,
    ensures
        n == size(shape_of(*link)),
    decreases link,
{
    match link {
        Some(node) => {
            proof {
                lemma_size_floor(shape_of(node.left));
                lemma_size_floor(shape_of(node.right));
            }
            1 + size_at(&node.left) + size_at(&node.right)
        },
        None => 0,
    }
}

/// The number of leaves that hang at a link.
fn leaves_at(link: &Option<Box<Node>>) -> (n: i32)
    requires
        leaves(shape_of(*link)) <= i32::MAX,
    ensures
        n == leaves(shape_of(*link)),
    decreases link,
{
    match link {
        Some(node) => {
            if node.left.is_none() && node.right.is_none() {
                return 1;
            }
            proof {
                lemma_size_floor(shape_of(node.left));
                lemma_size_floor(shape_of(node.right));
            }
            leaves_at(&node.left) + leaves_at(&node.right)
        },
        None => 0,
    }
}

/// Appends to `out` the values that hang at a link, from left to right.
fn in_order_at(link: &Option<Box<Node>>, out: &mut Vec<i32>)
    ensures
        final(out)@ == old(out)@ + in_order(shape_of(*link)),
    decreases link,
{
    match link {
        Some(node) => {
            in_order_at(&node.left, out);
            out.push(node.value);
            in_order_at(&node.right, out);
            proof {
                assert(out@ =~= old(out)@ + in_order(shape_of(*link)));
            }
        },
        None => {
            assert(out@ =~= old(out)@ + in_order(shape_of(*link)));
        },
    }
}

/// Appends to `out` the values that hang at a link, each fork before its
/// sides.
fn pre_order_at(link: &Option<Box<Node>>, out: &mut Vec<i32>)
    ensures
        final(out)@ == old(out)@ + pre_order(shape_of(*link)),
    decreases link,
{
    match link {
        Some(node) => {
            out.push(node.value);
            pre_order_at(&node.left, out);
            pre_order_at(&node.right, out);
            proof {
                assert(out@ =~= old(out)@ + pre_order(shape_of(*link)));
            }
        },
        None => {
            assert(out@ =~= old(out)@ + pre_order(shape_of(*link)));
        },
    }
}

impl Tree {
    /// A tree without values.
    pub fn new() -> (t: Self)
        ensures
            t@ == Shape::Empty,
    {
        Tree { root: None }
    }

    /// The tree with the given top node, or without values.
    pub fn from_root(root: Option<Node>) -> (t: Self)
        ensures
            t@ == (match root {
                Some(n) => n@,
                None => Shape::Empty,
            }),
    {
        match root {
            Some(n) => Tree { root: Some(Box::new(n)) },
            None => Tree { root: None },
        }
    }

    /// The top node, if the tree has values.
    pub fn root(&self) -> (r: Option<&Node>)
        ensures
            match r {
                Some(n) => n@ == self@,
                None => self@ is Empty,
            },
    {
        match &self.root {
            Some(b) => Some(&**b),
            None => None,
        }
    }

    /// Inserts a value where a search for it ends: left of every greater
    /// value on its way, right of every other.
    pub fn insert(&mut self, value: i32)
        ensures
            final(self)@ == inserted(old(self)@, value),
    {
        let mut current = &mut self.root;
        loop
            invariant
                shape_of(*final(current)) == inserted(shape_of(*current), value) ==> shape_of(
                    after_borrow(self.root),
                ) == inserted(shape_of(old(self).root), value),
            decreases *current,
        {
            match current {
                Some(cur) => {
                    if value < cur.value {
                        current = &mut cur.left;
                    } else {
                        current = &mut cur.right;
                    }
                },
                None => {
                    *current = Some(Box::new(Node::new(value)));
                    return ;
                },
            }
        }
    }

    /// Whether a search that goes left of greater values and right of
    /// smaller ones meets `value`.
    pub fn find(&self, value: i32) -> (r: bool)
        ensures
            r == found(self@, value),
    {
        let mut current = &self.root;
        loop
            invariant
                found(self@, value) == found(shape_of(*current), value),
            decreases current,
        {
            match current {
                Some(cur) => {
                    if value < cur.value {
                        current = &cur.left;
                    } else if value > cur.value {
                        current = &cur.right;
                    } else {
                        return true;
                    }
                },
                None => {
                    return false;
                },
            }
        }
    }

    /// The values with each fork before what hangs below it, left before
    /// right.
    pub fn traverse_pre_order(&self) -> (out: Vec<i32>)
        ensures
            out@ == pre_order(self@),
    {
        let mut out: Vec<i32> = Vec::new();
        pre_order_at(&self.root, &mut out);
        out
    }

    /// The values from left to right: what hangs left of a fork, then the
    /// fork, then what hangs right of it.
    pub fn traverse_in_order(&self) -> (out: Vec<i32>)
        ensures
            out@ == in_order(self@),
    {
        let mut out: Vec<i32> = Vec::new();
        in_order_at(&self.root, &mut out);
        out
    }

    /// The number of edges on the longest way down from the top; -1 for a
    /// tree without values.
    pub fn count_height(&self) -> (h: i32)
        requires
            height(self@) < i32::MAX,
        ensures
            h == height(self@),
    {
        height_at(&self.root)
    }

    /// The value met last when always going left from the top; `i32::MAX` for
    /// a tree without values.
    pub fn find_min_value(&self) -> (m: i32)
        ensures
            m == leftmost(self@),
    {
        let mut current = &self.root;
        let mut last = i32::MAX;
        loop
            invariant
                leftmost(self@) == if shape_of(*current) is Empty {
                    last
                } else {
                    leftmost(shape_of(*current))
                },
            decreases current,
        {
            match current {
                Some(cur) => {
                    last = cur.value;
                    current = &cur.left;
                },
                None => {
                    return last;
                },
            }
        }
    }

    /// The least value of the tree; `i32::MAX` for a tree without values.
    pub fn min_value(&self) -> (m: i32)
        ensures
            m == least(self@),
    {
        min_at(&self.root)
    }

    /// The greatest value of the tree; `i32::MIN` for a tree without values.
    pub fn find_max(&self) -> (m: i32)
        ensures
            m == greatest(self@),
    {
        max_at(&self.root)
    }

    /// Whether two trees have the same values in the same places.
    pub fn equals(&self, other: &Tree) -> (r: bool)
        ensures
            r == (self@ == other@),
    {
        equal_at(&self.root, &other.root)
    }

    /// Whether every value left of a fork is smaller than the fork's value
    /// and every value right of it greater.
    pub fn is_binary_search_tree(&self) -> (r: bool)
        ensures
            r == search_ordered(self@, i32::MIN as int, i32::MAX as int),
    {
        ordered_at(&self.root, i32::MIN as i64, i32::MAX as i64)
    }

    /// Exchanges the two sides of the top.
    pub fn swap_root(&mut self)
        ensures
            final(self)@ == swapped(old(self)@),
    {
        match self.root.take() {
            Some(mut node) => {
                let temp = node.right.take();
                node.right = node.left.take();
                node.left = temp;
                self.root = Some(node);
            },
            None => {},
        }
    }

    /// The values that stand `distance` edges below the top, from left to
    /// right.
    pub fn print_node_at_distance(&self, distance: i32) -> (list: Vec<i32>)
        requires
            distance - (height(self@) + 1) >= i32::MIN,
        ensures
            list@ == at_distance(self@, distance as int),
    {
        let mut list: Vec<i32> = Vec::new();
        collect_at(&self.root, distance, &mut list);
        list
    }

    /// The values level by level from the top down, each level from left to
    /// right.
    pub fn traverse_level_order(&self) -> (out: Vec<i32>)
        requires
            height(self@) < i32::MAX,
        ensures
            out@ == level_order(self@, height(self@)),
    {
        let h = self.count_height();
        let mut out: Vec<i32> = Vec::new();
        let mut i: i32 = 0;
        proof {
            lemma_height_floor(self@);
        }
        while i <= h
            invariant
                0 <= i <= h + 1,
                h == height(self@),
                h < i32::MAX,
                out@ == level_order(self@, i - 1),
            decreases h + 1 - i,
        {
            collect_at(&self.root, i, &mut out);
            i += 1;
        }
        out
    }

    /// The number of values.
    pub fn size(&self) -> (n: i32)
        requires
            size(self@) <= i32::MAX,
        ensures
            n == size(self@),
    {
        size_at(&self.root)
    }

    /// The number of forks without a fork below.
    pub fn count_leaves(&self) -> (n: i32)
        requires
            leaves(self@) <= i32::MAX,
        ensures
            n == leaves(self@),
    {
        leaves_at(&self.root)
    }
}

/// The product of the integers from 1 to `number`.
pub fn factorial(number: i32) -> (r: i32)
    requires
        0 <= number <= 12,
    ensures
        r == product_to(number as nat),
    decreases number,
{
    proof {
        lemma_product_small(number as nat);
    }
    if number == 0 {
        return 1;
    }
    proof {
        lemma_product_small((number - 1) as nat);
    }
    number * factorial(number - 1)
}

/// The products up to 12 fit in `i32`.
pub proof fn lemma_product_small(n: nat)
    requires
        n <= 12,
    ensures
        product_to(n) <= 479001600,
        n <= 11 ==> product_to(n) * 12 <= 479001600,
{
    assert(product_to(0) == 1);
    assert(product_to(1) == 1);
    assert(product_to(2) == 2);
    assert(product_to(3) == 6);
    assert(product_to(4) == 24);
    assert(product_to(5) == 120);
    assert(product_to(6) == 720);
    assert(product_to(7) == 5040);
    assert(product_to(8) == 40320);
    assert(product_to(9) == 362880);
    assert(product_to(10) == 3628800);
    assert(product_to(11) == 39916800);
    assert(product_to(12) == 479001600);
}

} // verus!
