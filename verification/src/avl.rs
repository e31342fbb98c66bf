//! A self-balancing binary search tree of `i32` values that records a height
//! in every node and turns subtrees by the recorded heights.
//!
//! Heights are `i32` values. Sums and differences of heights wrap around at
//! the ends of `i32`.

use crate::tree::{lemma_bound_by_count, lemma_floor_by_count, lemma_sorted_around, sorted};
use vstd::prelude::*;

verus! {

/// The mathematical value of a tree: empty, or a value and a recorded height
/// between two trees.
pub enum AvlShape {
    Empty,
    Fork { left: Box<AvlShape>, value: i32, height: i32, right: Box<AvlShape> },
}

/// The height recorded at the top of a shape; -1 for the empty shape.
pub open spec fn height_of(s: AvlShape) -> i32 {
    match s {
        AvlShape::Empty => -1i32,
        AvlShape::Fork { height, .. } => height,
    }
}

/// One more than `h`, wrapping around at `i32::MAX`.
pub open spec fn one_more(h: i32) -> i32 {
    if h < i32::MAX {
        (h + 1) as i32
    } else {
        i32::MIN
    }
}

/// `a - b`, wrapping around at the ends of `i32`.
pub open spec fn wrapped_difference(a: i32, b: i32) -> i32 {
    if a - b > i32::MAX {
        (a - b - 0x1_0000_0000) as i32
    } else if a - b < i32::MIN {
        (a - b + 0x1_0000_0000) as i32
    } else {
        (a - b) as i32
    }
}

/// The height to record above two shapes: one more than the greater of
/// their recorded heights.
pub open spec fn height_above(l: AvlShape, r: AvlShape) -> i32 {
    if height_of(l) >= height_of(r) {
        one_more(height_of(l))
    } else {
        one_more(height_of(r))
    }
}

/// The recorded height of the left side less that of the right side.
pub open spec fn factor(s: AvlShape) -> i32 {
    match s {
        AvlShape::Empty => 0,
        AvlShape::Fork { left, right, .. } => wrapped_difference(
            height_of(*left),
            height_of(*right),
        ),
    }
}

/// A shape of one value, with height 0.
pub open spec fn lone(value: i32) -> AvlShape {
    AvlShape::Fork {
        left: Box::new(AvlShape::Empty),
        value,
        height: 0,
        right: Box::new(AvlShape::Empty),
    }
}

/// The shape turned to the left: its right side becomes the top and the old
/// top the left side of the new one. First the old top, then the new top
/// records the height above its two sides. `None` where there is no right
/// side.
pub open spec fn turned_left(s: AvlShape) -> Option<AvlShape> {
    match s {
        AvlShape::Fork { left, value, height, right } => match *right {
            AvlShape::Fork { left: inner, value: top, height: _, right: outer } => {
                let down = AvlShape::Fork {
                    left,
                    value,
                    height: height_above(*left, *inner),
                    right: inner,
                };
                Some(
                    AvlShape::Fork {
                        left: Box::new(down),
                        value: top,
                        height: height_above(down, *outer),
                        right: outer,
                    },
                )
            },
            AvlShape::Empty => None,
        },
        AvlShape::Empty => None,
    }
}

/// The shape turned to the right, the mirror image of [`turned_left`].
pub open spec fn turned_right(s: AvlShape) -> Option<AvlShape> {
    match s {
        AvlShape::Fork { left, value, height, right } => match *left {
            AvlShape::Fork { left: outer, value: top, height: _, right: inner } => {
                let down = AvlShape::Fork {
                    left: inner,
                    value,
                    height: height_above(*inner, *right),
                    right,
                };
                Some(
                    AvlShape::Fork {
                        left: outer,
                        value: top,
                        height: height_above(*outer, down),
                        right: Box::new(down),
                    },
                )
            },
            AvlShape::Empty => None,
        },
        AvlShape::Empty => None,
    }
}

/// The shape with its left side replaced.
pub open spec fn with_left(s: AvlShape, l: AvlShape) -> AvlShape {
    match s {
        AvlShape::Fork { left, value, height, right } => AvlShape::Fork {
            left: Box::new(l),
            value,
            height,
            right,
        },
        AvlShape::Empty => AvlShape::Empty,
    }
}

/// The shape with its right side replaced.
pub open spec fn with_right(s: AvlShape, r: AvlShape) -> AvlShape {
    match s {
        AvlShape::Fork { left, value, height, right } => AvlShape::Fork {
            left,
            value,
            height,
            right: Box::new(r),
        },
        AvlShape::Empty => AvlShape::Empty,
    }
}

/// The shape after balancing its top. Where the left side is recorded more
/// than one higher than the right, the shape is turned right, after its left
/// side was turned left if that side leans right. Where the right side is
/// recorded more than one higher, the mirror image. Where a turn has nothing
/// to turn, and in every other case, the shape stays as it is.
pub open spec fn balanced(s: AvlShape) -> AvlShape {
    match s {
        AvlShape::Fork { left, value, height, right } => if factor(s) > 1 {
            if *left is Empty {
                s
            } else if factor(*left) < 0 {
                match turned_left(*left) {
                    Some(l) => turned_right(with_left(s, l))->0,
                    None => s,
                }
            } else {
                turned_right(s)->0
            }
        } else if factor(s) < -1 {
            if *right is Empty {
                s
            } else if factor(*right) > 0 {
                match turned_right(*right) {
                    Some(r) => turned_left(with_right(s, r))->0,
                    None => s,
                }
            } else {
                turned_left(s)->0
            }
        } else {
            s
        },
        AvlShape::Empty => s,
    }
}

/// The shape after `v` was inserted: `v` goes left of every greater value on
/// its way down and right of every other; on the way back up every fork
/// records the height above its sides and is balanced.
pub open spec fn avl_inserted(s: AvlShape, v: i32) -> AvlShape
    decreases s,
{
    match s {
        AvlShape::Empty => lone(v),
        AvlShape::Fork { left, value, height, right } => if v < value {
            let l = avl_inserted(*left, v);
            balanced(
                AvlShape::Fork { left: Box::new(l), value, height: height_above(l, *right), right },
            )
        } else {
            let r = avl_inserted(*right, v);
            balanced(
                AvlShape::Fork { left, value, height: height_above(*left, r), right: Box::new(r) },
            )
        },
    }
}

/// The values of a shape from left to right.
pub open spec fn values(s: AvlShape) -> Seq<i32>
    decreases s,
{
    match s {
        AvlShape::Empty => Seq::empty(),
        AvlShape::Fork { left, value, height, right } => values(*left) + seq![value] + values(
            *right,
        ),
    }
}

/// The number of edges on the longest way down; -1 for the empty shape.
pub open spec fn true_height(s: AvlShape) -> int
    decreases s,
{
    match s {
        AvlShape::Empty => -1,
        AvlShape::Fork { left, right, .. } => if true_height(*left) >= true_height(*right) {
            1 + true_height(*left)
        } else {
            1 + true_height(*right)
        },
    }
}

/// Whether every fork records its true height and has sides whose heights
/// differ by at most 1.
pub open spec fn sound(s: AvlShape) -> bool
    decreases s,
{
    match s {
        AvlShape::Empty => true,
        AvlShape::Fork { left, value, height, right } => {
            &&& height == true_height(s)
            &&& -1 <= true_height(*left) - true_height(*right) <= 1
            &&& sound(*left)
            &&& sound(*right)
        },
    }
}

/// The true height of a shape is at least -1.
pub proof fn lemma_true_height_floor(s: AvlShape)
    ensures
        true_height(s) >= -1,
        s is Fork ==> true_height(s) >= 0,
    decreases s,
{
    match s {
        AvlShape::Empty => {},
        AvlShape::Fork { left, value, height, right } => {
            lemma_true_height_floor(*left);
            lemma_true_height_floor(*right);
        },
    }
}

/// A sound shape records its true height at the top.
pub proof fn lemma_sound_height(s: AvlShape)
    requires
        sound(s),
    ensures
        height_of(s) == true_height(s),
{
}

/// The fork of two shapes that records the height above them.
pub open spec fn fork(l: AvlShape, v: i32, r: AvlShape) -> AvlShape {
    AvlShape::Fork { left: Box::new(l), value: v, height: height_above(l, r), right: Box::new(r) }
}

/// The fork of two sound shapes whose heights differ by at most 1 is sound
/// and one higher than the higher of them.
pub proof fn lemma_fork(l: AvlShape, v: i32, r: AvlShape)
    requires
        sound(l),
        sound(r),
        -1 <= true_height(l) - true_height(r) <= 1,
        true_height(l) < i32::MAX - 1,
        true_height(r) < i32::MAX - 1,
    ensures
        sound(fork(l, v, r)),
        true_height(fork(l, v, r)) == 1 + if true_height(l) >= true_height(r) {
            true_height(l)
        } else {
            true_height(r)
        },
{
    lemma_sound_height(l);
    lemma_sound_height(r);
    lemma_true_height_floor(l);
    lemma_true_height_floor(r);
}

/// The sides of a sound fork are sound, and their heights differ by at
/// most 1.
pub proof fn lemma_sides(s: AvlShape)
    requires
        sound(s),
        s is Fork,
    ensures
        s matches AvlShape::Fork { left, right, .. } && sound(*left) && sound(*right) && -1
            <= true_height(*left) - true_height(*right) <= 1 && true_height(s) == 1 + larger_side(
            s,
        ) && true_height(*left) >= -1 && true_height(*right) >= -1,
{
    match s {
        AvlShape::Fork { left, value, height, right } => {
            lemma_true_height_floor(*left);
            lemma_true_height_floor(*right);
        },
        AvlShape::Empty => {},
    }
}

/// Balancing a fork of two sound sides whose heights differ by at most 2,
/// which records the height above them, gives a sound shape of the same
/// height or one less.
pub proof fn lemma_balanced_sound(l: AvlShape, v: i32, r: AvlShape)
    requires
        sound(l),
        sound(r),
        -2 <= true_height(l) - true_height(r) <= 2,
        true_height(l) < i32::MAX - 1,
        true_height(r) < i32::MAX - 1,
    ensures
        sound(balanced(fork(l, v, r))),
        true_height(balanced(fork(l, v, r))) <= 1 + larger_side(fork(l, v, r)),
        true_height(balanced(fork(l, v, r))) >= larger_side(fork(l, v, r)),
        -1 <= true_height(l) - true_height(r) <= 1 ==> true_height(balanced(fork(l, v, r))) == 1
            + larger_side(fork(l, v, r)),
{
    let s = fork(l, v, r);
    lemma_sound_height(l);
    lemma_sound_height(r);
    lemma_true_height_floor(l);
    lemma_true_height_floor(r);
    let d = true_height(l) - true_height(r);
    assert(factor(s) == d);
    if d == 2 {
        lemma_sides(l);
        match l {
            AvlShape::Fork { left: ll, value: lv, height: lh, right: lr } => {
                lemma_sound_height(*ll);
                lemma_sound_height(*lr);
                assert(factor(l) == true_height(*ll) - true_height(*lr));
                if factor(l) < 0 {
                    lemma_sides(*lr);
                    match *lr {
                        AvlShape::Fork { left: a, value: bv, height: bh, right: c } => {
                            lemma_fork(*ll, lv, *a);
                            lemma_fork(*c, v, r);
                            let down1 = fork(*ll, lv, *a);
                            let down2 = fork(*c, v, r);
                            lemma_fork(down1, bv, down2);
                            assert(turned_left(l) == Some(fork(down1, bv, *c)));
                            assert(with_left(s, fork(down1, bv, *c)) == (AvlShape::Fork {
                                left: Box::new(fork(down1, bv, *c)),
                                value: v,
                                height: height_above(l, r),
                                right: Box::new(r),
                            }));
                            assert(turned_right(with_left(s, fork(down1, bv, *c))) == Some(
                                fork(down1, bv, down2),
                            ));
                            assert(balanced(s) == fork(down1, bv, down2));
                        },
                        AvlShape::Empty => {},
                    }
                } else {
                    lemma_fork(*lr, v, r);
                    let down = fork(*lr, v, r);
                    lemma_fork(*ll, lv, down);
                    assert(turned_right(s) == Some(fork(*ll, lv, down)));
                    assert(balanced(s) == fork(*ll, lv, down));
                }
            },
            AvlShape::Empty => {},
        }
    } else if d == -2 {
        lemma_sides(r);
        match r {
            AvlShape::Fork { left: rl, value: rv, height: rh, right: rr } => {
                lemma_sound_height(*rl);
                lemma_sound_height(*rr);
                assert(factor(r) == true_height(*rl) - true_height(*rr));
                if factor(r) > 0 {
                    lemma_sides(*rl);
                    match *rl {
                        AvlShape::Fork { left: a, value: bv, height: bh, right: c } => {
                            lemma_fork(l, v, *a);
                            lemma_fork(*c, rv, *rr);
                            let down1 = fork(l, v, *a);
                            let down2 = fork(*c, rv, *rr);
                            lemma_fork(down1, bv, down2);
                            assert(turned_right(r) == Some(fork(*a, bv, down2)));
                            assert(with_right(s, fork(*a, bv, down2)) == (AvlShape::Fork {
                                left: Box::new(l),
                                value: v,
                                height: height_above(l, r),
                                right: Box::new(fork(*a, bv, down2)),
                            }));
                            assert(turned_left(with_right(s, fork(*a, bv, down2))) == Some(
                                fork(down1, bv, down2),
                            ));
                            assert(balanced(s) == fork(down1, bv, down2));
                        },
                        AvlShape::Empty => {},
                    }
                } else {
                    lemma_fork(l, v, *rl);
                    let down = fork(l, v, *rl);
                    lemma_fork(down, rv, *rr);
                    assert(turned_left(s) == Some(fork(down, rv, *rr)));
                    assert(balanced(s) == fork(down, rv, *rr));
                }
            },
            AvlShape::Empty => {},
        }
    } else {
        lemma_fork(l, v, r);
        assert(balanced(s) == s);
    }
}

/// The true height of the higher side of a fork; -1 for the empty shape.
pub open spec fn larger_side(s: AvlShape) -> int {
    match s {
        AvlShape::Empty => -1,
        AvlShape::Fork { left, right, .. } => if true_height(*left) >= true_height(*right) {
            true_height(*left)
        } else {
            true_height(*right)
        },
    }
}

/// Inserting a value into a sound shape gives a sound shape of the same
/// height or one more.
pub proof fn lemma_avl_inserted_sound(s: AvlShape, v: i32)
    requires
        sound(s),
        true_height(s) < i32::MAX - 2,
    ensures
        sound(avl_inserted(s, v)),
        true_height(s) <= true_height(avl_inserted(s, v)) <= true_height(s) + 1,
    decreases s,
{
    match s {
        AvlShape::Empty => {
            lemma_fork(AvlShape::Empty, v, AvlShape::Empty);
            assert(lone(v) == fork(AvlShape::Empty, v, AvlShape::Empty));
        },
        AvlShape::Fork { left, value, height, right } => {
            lemma_sides(s);
            if v < value {
                lemma_avl_inserted_sound(*left, v);
                let l = avl_inserted(*left, v);
                lemma_balanced_sound(l, value, *right);
                assert(avl_inserted(s, v) == balanced(fork(l, value, *right)));
            } else {
                lemma_avl_inserted_sound(*right, v);
                let r = avl_inserted(*right, v);
                lemma_balanced_sound(*left, value, r);
                assert(avl_inserted(s, v) == balanced(fork(*left, value, r)));
            }
        },
    }
}

/// A turn keeps the values of a shape in their order from left to right.
pub proof fn lemma_turned_values(s: AvlShape)
    ensures
        turned_left(s) is Some ==> values(turned_left(s)->0) == values(s),
        turned_right(s) is Some ==> values(turned_right(s)->0) == values(s),
{
    reveal_with_fuel(values, 3);
    if turned_left(s) is Some {
        assert(values(turned_left(s)->0) =~= values(s));
    }
    if turned_right(s) is Some {
        assert(values(turned_right(s)->0) =~= values(s));
    }
}

/// Balancing keeps the values of a shape in their order from left to right.
pub proof fn lemma_balanced_values(s: AvlShape)
    ensures
        values(balanced(s)) == values(s),
{
    match s {
        AvlShape::Fork { left, value, height, right } => {
            if factor(s) > 1 {
                if *left is Empty {
                } else if factor(*left) < 0 {
                    match turned_left(*left) {
                        Some(l) => {
                            lemma_turned_values(*left);
                            lemma_turned_values(with_left(s, l));
                            assert(values(with_left(s, l)) =~= values(s));
                        },
                        None => {},
                    }
                } else {
                    lemma_turned_values(s);
                }
            } else if factor(s) < -1 {
                if *right is Empty {
                } else if factor(*right) > 0 {
                    match turned_right(*right) {
                        Some(r) => {
                            lemma_turned_values(*right);
                            lemma_turned_values(with_right(s, r));
                            assert(values(with_right(s, r)) =~= values(s));
                        },
                        None => {},
                    }
                } else {
                    lemma_turned_values(s);
                }
            }
        },
        AvlShape::Empty => {},
    }
}

/// Inserting a value adds it, once, to what the shape holds.
#[verifier::rlimit(50)]
pub proof fn lemma_avl_inserted_holds(s: AvlShape, v: i32)
    ensures
        values(avl_inserted(s, v)).to_multiset() == values(s).to_multiset().insert(v),
    decreases s,
{
    match s {
        AvlShape::Empty => {
            reveal_with_fuel(values, 3);
            assert(values(avl_inserted(s, v)) =~= Seq::<i32>::empty().push(v));
            assert(values(s) =~= Seq::<i32>::empty());
            Seq::<i32>::empty().to_multiset_ensures();
        },
        AvlShape::Fork { left, value, height, right } => {
            let l = values(*left);
            let r = values(*right);
            if v < value {
                lemma_avl_inserted_holds(*left, v);
                let grown = avl_inserted(*left, v);
                let l2 = values(grown);
                let top = AvlShape::Fork {
                    left: Box::new(grown),
                    value,
                    height: height_above(grown, *right),
                    right,
                };
                lemma_balanced_values(top);
                vstd::seq_lib::lemma_multiset_commutative(l2, seq![value] + r);
                vstd::seq_lib::lemma_multiset_commutative(l, seq![value] + r);
                assert(l2 + seq![value] + r =~= l2 + (seq![value] + r));
                assert(l + seq![value] + r =~= l + (seq![value] + r));
                assert(values(top).to_multiset() =~= values(s).to_multiset().insert(v));
            } else {
                lemma_avl_inserted_holds(*right, v);
                let grown = avl_inserted(*right, v);
                let r2 = values(grown);
                let top = AvlShape::Fork {
                    left,
                    value,
                    height: height_above(*left, grown),
                    right: Box::new(grown),
                };
                lemma_balanced_values(top);
                vstd::seq_lib::lemma_multiset_commutative(l + seq![value], r2);
                vstd::seq_lib::lemma_multiset_commutative(l + seq![value], r);
                assert(values(top).to_multiset() =~= values(s).to_multiset().insert(v));
            }
        },
    }
}

/// Inserting a value into a shape whose values stand in ascending order
/// from left to right keeps them so.
pub proof fn lemma_avl_inserted_sorted(s: AvlShape, v: i32)
    requires
        sorted(values(s)),
    ensures
        sorted(values(avl_inserted(s, v))),
    decreases s,
{
    match s {
        AvlShape::Empty => {
            reveal_with_fuel(values, 3);
            assert(values(avl_inserted(s, v)) =~= seq![v]);
        },
        AvlShape::Fork { left, value, height, right } => {
            let l = values(*left);
            let r = values(*right);
            lemma_sorted_around(l, value, r);
            if v < value {
                let grown = avl_inserted(*left, v);
                let l2 = values(grown);
                lemma_avl_inserted_sorted(*left, v);
                lemma_avl_inserted_holds(*left, v);
                lemma_bound_by_count(l, l2, value as int);
                lemma_sorted_around(l2, value, r);
                lemma_balanced_values(
                    AvlShape::Fork {
                        left: Box::new(grown),
                        value,
                        height: height_above(grown, *right),
                        right,
                    },
                );
            } else {
                let grown = avl_inserted(*right, v);
                let r2 = values(grown);
                lemma_avl_inserted_sorted(*right, v);
                lemma_avl_inserted_holds(*right, v);
                lemma_floor_by_count(r, r2, value as int);
                lemma_sorted_around(l, value, r2);
                lemma_balanced_values(
                    AvlShape::Fork {
                        left,
                        value,
                        height: height_above(*left, grown),
                        right: Box::new(grown),
                    },
                );
            }
        },
    }
}

/// A node of the tree: a value, a recorded height, and what hangs left and
/// right of it.
#[derive(Debug)]
pub struct AvlNode {
    height: i32,
    value: i32,
    left: Option<Box<AvlNode>>,
    right: Option<Box<AvlNode>>,
}

/// A binary search tree that balances itself by recorded heights.
#[derive(Debug)]
pub struct AvlTree {
    root: Option<Box<AvlNode>>,
}

/// The shape of what hangs at a link.
pub closed spec fn avl_shape_of(link: Option<Box<AvlNode>>) -> AvlShape
    decreases link,
{
    match link {
        None => AvlShape::Empty,
        Some(node) => AvlShape::Fork {
            left: Box::new(avl_shape_of(node.left)),
            value: node.value,
            height: node.height,
            right: Box::new(avl_shape_of(node.right)),
        },
    }
}

impl View for AvlNode {
    type V = AvlShape;

    closed spec fn view(&self) -> AvlShape {
        AvlShape::Fork {
            left: Box::new(avl_shape_of(self.left)),
            value: self.value,
            height: self.height,
            right: Box::new(avl_shape_of(self.right)),
        }
    }
}

impl View for AvlTree {
    type V = AvlShape;

    closed spec fn view(&self) -> AvlShape {
        avl_shape_of(self.root)
    }
}

impl AvlNode {
    /// A node of height 0 without anything below it.
    pub fn new(value: i32) -> (n: Self)
        ensures
            n@ == lone(value),
    {
        Self { height: 0, value, left: None, right: None }
    }

    /// A node with the given height and value between what is given for its
    /// two sides.
    pub fn from_parts(
        height: i32,
        value: i32,
        left: Option<AvlNode>,
        right: Option<AvlNode>,
    ) -> (n: Self)
        ensures
            n@ == (AvlShape::Fork {
                left: Box::new(
                    match left {
                        Some(l) => l@,
                        None => AvlShape::Empty,
                    },
                ),
                value,
                height,
                right: Box::new(
                    match right {
                        Some(r) => r@,
                        None => AvlShape::Empty,
                    },
                ),
            }),
    {
        let left = match left {
            Some(l) => Some(Box::new(l)),
            None => None,
        };
        let right = match right {
            Some(r) => Some(Box::new(r)),
            None => None,
        };
        AvlNode { height, value, left, right }
    }

    /// The value of the node.
    pub fn value(&self) -> (v: i32)
        ensures
            self@ matches AvlShape::Fork { value, .. } && v == value,
    {
        self.value
    }

    /// The height recorded in the node.
    pub fn recorded_height(&self) -> (h: i32)
        ensures
            h == height_of(self@),
    {
        self.height
    }

    /// What hangs left of the node.
    pub fn left(&self) -> (l: Option<&AvlNode>)
        ensures
            self@ matches AvlShape::Fork { left, .. } && match l {
                Some(n) => n@ == *left,
                None => *left is Empty,
            },
    {
        match &self.left {
            Some(b) => Some(&**b),
            None => None,
        }
    }

    /// What hangs right of the node.
    pub fn right(&self) -> (r: Option<&AvlNode>)
        ensures
            self@ matches AvlShape::Fork { right, .. } && match r {
                Some(n) => n@ == *right,
                None => *right is Empty,
            },
    {
        match &self.right {
            Some(b) => Some(&**b),
            None => None,
        }
    }
}

impl AvlTree {
    /// A tree without values.
    pub fn new() -> (t: Self)
        ensures
            t@ == AvlShape::Empty,
            sound(t@),
            sorted(values(t@)),
    {
        Self { root: None }
    }

    /// The tree with the given top node, or without values.
    pub fn from_root(root: Option<AvlNode>) -> (t: Self)
        ensures
            t@ == (match root {
                Some(n) => n@,
                None => AvlShape::Empty,
            }),
    {
        match root {
            Some(n) => AvlTree { root: Some(Box::new(n)) },
            None => AvlTree { root: None },
        }
    }

    /// The top node, if the tree has values.
    pub fn root(&self) -> (r: Option<&AvlNode>)
        ensures
            match r {
                Some(n) => n@ == self@,
                None => self@ is Empty,
            },
    {
        match &self.root {
            Some(b) => Some(&**b),
            None => None,
        }
    }

    /// Inserts a value and balances every fork on the way back up.
    pub fn insert(&mut self, value: i32)
        ensures
            final(self)@ == avl_inserted(old(self)@, value),
            values(final(self)@).to_multiset() == values(old(self)@).to_multiset().insert(value),
            sorted(values(old(self)@)) ==> sorted(values(final(self)@)),
            sound(old(self)@) && true_height(old(self)@) < i32::MAX - 2 ==> sound(final(self)@)
                && true_height(old(self)@) <= true_height(final(self)@) <= true_height(old(self)@)
                + 1,
    {
        proof {
            lemma_avl_inserted_holds(self@, value);
            if sorted(values(self@)) {
                lemma_avl_inserted_sorted(self@, value);
            }
            if sound(self@) && true_height(self@) < i32::MAX - 2 {
                lemma_avl_inserted_sound(self@, value);
            }
        }
        let root = self.root.take();
        self.root = Self::_insert(root, value);
    }

    /// Inserts a value below `root` and balances every fork on the way back up.
    fn _insert(root: Option<Box<AvlNode>>, value: i32) -> (r: Option<Box<AvlNode>>)
        ensures
            avl_shape_of(r) == avl_inserted(avl_shape_of(root), value),
        decreases root,
    {
        match root {
            Some(mut root) => {
                if value < root.value {
                    root.left = Self::_insert(root.left.take(), value);
                } else {
                    root.right = Self::_insert(root.right.take(), value);
                }
                root.height = Self::height_over(&root.left, &root.right);
                Some(Self::balance(root))
            },
            None => Some(Box::new(AvlNode::new(value))),
        }
    }

    /// The height recorded at a link; -1 where nothing hangs there.
    fn height(node: &Option<Box<AvlNode>>) -> (h: i32)
        ensures
            h == height_of(avl_shape_of(*node)),
    {
        match node {
            Some(n) => n.height,
            None => -1,
        }
    }

    /// The height to record above two links.
    fn height_over(left: &Option<Box<AvlNode>>, right: &Option<Box<AvlNode>>) -> (h: i32)
        ensures
            h == height_above(avl_shape_of(*left), avl_shape_of(*right)),
    {
        let l = Self::height(left);
        let r = Self::height(right);
        if l >= r {
            l.wrapping_add(1)
        } else {
            r.wrapping_add(1)
        }
    }

    /// The recorded height of the left side less that of the right side.
    fn balance_factor(node: &Box<AvlNode>) -> (f: i32)
        ensures
            f == factor(node@),
    {
        Self::height(&node.left).wrapping_sub(Self::height(&node.right))
    }

    /// Whether the left side is recorded more than one higher than the right.
    fn is_left_heavy(node: &Box<AvlNode>) -> (r: bool)
        ensures
            r == (factor(node@) > 1),
    {
        Self::balance_factor(node) > 1
    }

    /// Whether the right side is recorded more than one higher than the left.
    fn is_right_heavy(node: &Box<AvlNode>) -> (r: bool)
        ensures
            r == (factor(node@) < -1),
    {
        Self::balance_factor(node) < -1
    }

    /// Balances the top of what `root` holds.
    fn balance(mut root: Box<AvlNode>) -> (r: Box<AvlNode>)
        ensures
            r@ == balanced(root@),
    {
        if Self::is_left_heavy(&root) {
            match root.left.take() {
                Some(left) => {
                    if Self::balance_factor(&left) < 0 {
                        if left.right.is_none() {
                            root.left = Some(left);
                            return root;
                        }
                        root.left = Some(Self::rotate_left(left));
                    } else {
                        root.left = Some(left);
                    }
                    Self::rotate_right(root)
                },
                None => root,
            }
        } else if Self::is_right_heavy(&root) {
            match root.right.take() {
                Some(right) => {
                    if Self::balance_factor(&right) > 0 {
                        if right.left.is_none() {
                            root.right = Some(right);
                            return root;
                        }
                        root.right = Some(Self::rotate_right(right));
                    } else {
                        root.right = Some(right);
                    }
                    Self::rotate_left(root)
                },
                None => root,
            }
        } else {
            root
        }
    }

    /// Turns what `node` holds to the left.
    fn rotate_left(mut node: Box<AvlNode>) -> (r: Box<AvlNode>)
        requires
            !(node.right is None),
        ensures
            Some(r@) == turned_left(node@),
    {
        let mut new_root = node.right.take().unwrap();
        node.right = new_root.left.take();
        Self::set_height(&mut node);
        new_root.left = Some(node);
        Self::set_height(&mut new_root);
        new_root
    }

    /// Turns what `node` holds to the right.
    fn rotate_right(mut node: Box<AvlNode>) -> (r: Box<AvlNode>)
        requires
            !(node.left is None),
        ensures
            Some(r@) == turned_right(node@),
    {
        let mut new_root = node.left.take().unwrap();
        node.left = new_root.right.take();
        Self::set_height(&mut node);
        new_root.right = Some(node);
        Self::set_height(&mut new_root);
        new_root
    }

    /// Records in `node` the height above its two sides.
    fn set_height(node: &mut Box<AvlNode>)
        ensures
            final(node)@ == (match old(node)@ {
                AvlShape::Fork { left, value, height, right } => AvlShape::Fork {
                    left,
                    value,
                    height: height_above(*left, *right),
                    right,
                },
                AvlShape::Empty => AvlShape::Empty,
            }),
    {
        node.height = Self::height_over(&node.left, &node.right);
    }
}

} // verus!
