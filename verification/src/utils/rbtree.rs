//! A red-black tree that keeps a sequence of elements.
//!
//! Every node knows how many elements its subtree holds, so the element at a
//! given position can be found, inserted or removed by walking down a single
//! path. Insertion rebalances as it returns from the walk; removal follows
//! the same scheme with the usual recoloring on the way back up.
use vstd::arithmetic::power2::{lemma_pow2_strictly_increases, lemma_pow2_unfold, pow2};
use vstd::prelude::*;

verus! {

/// An element that carries a weight; every subtree keeps the sum of the
/// weights of its elements, so that the sum over a prefix of the sequence
/// is found by walking down a single path.
pub trait Weighted {
    spec fn weight_spec(&self) -> int;

    fn weight(&self) -> (w: i64)
        ensures
            w == self.weight_spec(),
    ;
}

/// The sum of the weights of the elements of `s`.
pub open spec fn sum_weights<T: Weighted>(s: Seq<T>) -> int
    decreases s.len(),
{
    if s.len() == 0 {
        0
    } else {
        sum_weights(s.drop_last()) + s.last().weight_spec()
    }
}

/// The sum of the weights of a concatenation.
pub proof fn lemma_sum_concat<T: Weighted>(a: Seq<T>, b: Seq<T>)
    ensures
        sum_weights(a + b) == sum_weights(a) + sum_weights(b),
    decreases b.len(),
{
    if b.len() > 0 {
        assert((a + b).drop_last() =~= a + b.drop_last());
        lemma_sum_concat(a, b.drop_last());
    } else {
        assert(a + b =~= a);
    }
}

/// An upper bound on the magnitude of every weight.
spec fn weight_bound() -> int {
    0x8000_0000_0000_0000
}

/// The color of a node.
#[derive(Debug, Clone, Copy, PartialEq, Eq, Structural)]
pub enum Color {
    Red,
    Black,
}

/// A node of a red-black tree.
#[derive(Debug)]
pub struct Node<T: Weighted> {
    color: Color,
    /// The number of elements in the subtree rooted at this node.
    size: usize,
    /// The sum of the weights of the elements in the subtree.
    sum: i128,
    left: Option<Box<Node<T>>>,
    element: T,
    right: Option<Box<Node<T>>>,
}

/// The elements of a subtree, in order.
spec fn elems<T: Weighted>(t: Option<Box<Node<T>>>) -> Seq<T>
    decreases t,
{
    match t {
        None => Seq::empty(),
        Some(n) => elems(n.left) + seq![n.element] + elems(n.right),
    }
}

/// Every node of the subtree records the size of its subtree.
spec fn wf<T: Weighted>(t: Option<Box<Node<T>>>) -> bool
    decreases t,
{
    match t {
        None => true,
        Some(n) => {
            &&& wf(n.left)
            &&& wf(n.right)
            &&& n.size == elems(n.left).len() + 1 + elems(n.right).len()
            &&& n.sum == sum_weights(elems(n.left)) + n.element.weight_spec() + sum_weights(
                elems(n.right),
            )
            &&& -(n.size * weight_bound()) <= n.sum <= n.size * weight_bound()
        },
    }
}

spec fn is_red<T: Weighted>(t: Option<Box<Node<T>>>) -> bool {
    t matches Some(n) && n.color == Color::Red
}

spec fn is_black_node<T: Weighted>(t: Option<Box<Node<T>>>) -> bool {
    t matches Some(n) && n.color == Color::Black
}

/// The number of black nodes on a path from the root of the subtree down to
/// an empty subtree, counted along the leftmost path.
spec fn bh<T: Weighted>(t: Option<Box<Node<T>>>) -> nat
    decreases t,
{
    match t {
        None => 0,
        Some(n) => bh(n.left) + if n.color == Color::Black {
            1nat
        } else {
            0nat
        },
    }
}

/// The subtree satisfies the red-black rules: no red node has a red child,
/// and every path from a node down to an empty subtree passes the same
/// number of black nodes.
spec fn rb<T: Weighted>(t: Option<Box<Node<T>>>) -> bool
    decreases t,
{
    match t {
        None => true,
        Some(n) => {
            &&& rb(n.left)
            &&& rb(n.right)
            &&& bh(n.left) == bh(n.right)
            &&& n.color == Color::Red ==> !is_red(n.left) && !is_red(n.right)
        },
    }
}

/// The subtree satisfies the red-black rules below its root; a red root may
/// have a red child.
spec fn near_rb<T: Weighted>(t: Option<Box<Node<T>>>) -> bool {
    match t {
        None => true,
        Some(n) => rb(n.left) && rb(n.right) && bh(n.left) == bh(n.right),
    }
}

/// The number of nodes on the longest path from the root of the subtree
/// down.
spec fn tree_height<T: Weighted>(t: Option<Box<Node<T>>>) -> nat
    decreases t,
{
    match t {
        None => 0,
        Some(n) => 1 + if tree_height(n.left) >= tree_height(n.right) {
            tree_height(n.left)
        } else {
            tree_height(n.right)
        },
    }
}

/// A red-black subtree is at most about twice as high as its black height,
/// and holds at least `2^bh - 1` elements.
proof fn lemma_height<T: Weighted>(t: Option<Box<Node<T>>>)
    requires
        wf(t),
        rb(t),
    ensures
        tree_height(t) <= 2 * bh(t) + if is_red(t) {
            1int
        } else {
            0int
        },
        elems(t).len() + 1 >= pow2(bh(t)),
    decreases t,
{
    match t {
        None => {
            assert(pow2(0) == 1) by {
                vstd::arithmetic::power2::lemma_pow2(0);
                vstd::arithmetic::power::lemma_pow0(2);
            }
        },
        Some(n) => {
            lemma_height(n.left);
            lemma_height(n.right);
            if n.color == Color::Black {
                lemma_pow2_unfold(bh(t));
            }
        },
    }
}

/// A red-black tree with `n` elements is at most `2 * log2(n + 1) + 1`
/// nodes high.
proof fn lemma_balanced<T: Weighted>(t: Option<Box<Node<T>>>)
    requires
        wf(t),
        rb(t),
    ensures
        pow2(tree_height(t) / 2) <= elems(t).len() + 1,
{
    lemma_height(t);
    if tree_height(t) / 2 < bh(t) {
        lemma_pow2_strictly_increases(tree_height(t) / 2, bh(t));
    }
}

proof fn lemma_rb_facts<T: Weighted>(t: Option<Box<Node<T>>>)
    ensures
        rb(t) ==> near_rb(t),
        near_rb(t) && !is_red(t) ==> rb(t),
        bh(t) > 0 ==> t is Some,
{
}

fn size<T: Weighted>(t: &Option<Box<Node<T>>>) -> (r: usize)
    requires
        wf(*t),
    ensures
        r == elems(*t).len(),
{
    match t {
        Some(n) => n.size,
        None => 0,
    }
}

fn sum<T: Weighted>(t: &Option<Box<Node<T>>>) -> (r: i128)
    requires
        wf(*t),
    ensures
        r == sum_weights(elems(*t)),
        -(elems(*t).len() * weight_bound()) <= r <= elems(*t).len() * weight_bound(),
{
    match t {
        Some(n) => {
            proof {
                lemma_sum_concat(elems(n.left) + seq![n.element], elems(n.right));
                lemma_sum_concat(elems(n.left), seq![n.element]);
                assert(seq![n.element].drop_last() =~= Seq::<T>::empty());
                assert(sum_weights(seq![n.element]) == n.element.weight_spec()) by {
                    reveal_with_fuel(sum_weights, 2);
                    assert(seq![n.element].last() == n.element);
                }
                assert(elems(*t) == elems(n.left) + seq![n.element] + elems(n.right));
            }
            n.sum
        },
        None => 0,
    }
}

fn red<T: Weighted>(t: &Option<Box<Node<T>>>) -> (r: bool)
    ensures
        r == is_red(*t),
{
    match t {
        Some(n) => n.color == Color::Red,
        None => false,
    }
}

fn black_node<T: Weighted>(t: &Option<Box<Node<T>>>) -> (r: bool)
    ensures
        r == is_black_node(*t),
{
    match t {
        Some(n) => n.color == Color::Black,
        None => false,
    }
}

/// Whether `t` is a node whose left child is red.
fn left_red<T: Weighted>(t: &Option<Box<Node<T>>>) -> (r: bool)
    ensures
        r == (t matches Some(n) && is_red(n.left)),
{
    match t {
        Some(n) => red(&n.left),
        None => false,
    }
}

/// Whether `t` is a node whose right child is red.
fn right_red<T: Weighted>(t: &Option<Box<Node<T>>>) -> (r: bool)
    ensures
        r == (t matches Some(n) && is_red(n.right)),
{
    match t {
        Some(n) => red(&n.right),
        None => false,
    }
}

/// A node of color `c` over `l`, `x` and `r`.
fn mk<T: Weighted>(c: Color, l: Option<Box<Node<T>>>, x: T, r: Option<Box<Node<T>>>) -> (t: Option<
    Box<Node<T>>,
>)
    requires
        wf(l),
        wf(r),
        elems(l).len() + 1 + elems(r).len() <= usize::MAX,
    ensures
        wf(t),
        elems(t) == elems(l) + seq![x] + elems(r),
        t matches Some(n) && n.color == c && n.left == l && n.right == r,
        is_red(t) == (c == Color::Red),
        is_black_node(t) == (c == Color::Black),
        bh(t) == bh(l) + if c == Color::Black {
            1nat
        } else {
            0nat
        },
        near_rb(t) == (rb(l) && rb(r) && bh(l) == bh(r)),
        rb(t) == (rb(l) && rb(r) && bh(l) == bh(r) && (c == Color::Red ==> !is_red(l) && !is_red(
            r,
        ))),
{
    let size = size(&l) + 1 + size(&r);
    let w = x.weight();
    let sum = sum(&l) + w as i128 + sum(&r);
    Some(Box::new(Node { color: c, size, sum, left: l, element: x, right: r }))
}

/// The color, children and element of the node `t`.
fn split<T: Weighted>(t: Option<Box<Node<T>>>) -> (r: (Color, Option<Box<Node<T>>>, T, Option<Box<Node<T>>>))
    requires
        wf(t),
        t is Some,
    ensures
        r.0 == t->0.color,
        r.1 == t->0.left,
        r.2 == t->0.element,
        r.3 == t->0.right,
        wf(r.1),
        wf(r.3),
        elems(t) == elems(r.1) + seq![r.2] + elems(r.3),
        is_red(t) == (r.0 == Color::Red),
        is_black_node(t) == (r.0 == Color::Black),
        bh(t) == bh(r.1) + if r.0 == Color::Black {
            1nat
        } else {
            0nat
        },
        near_rb(t) == (rb(r.1) && rb(r.3) && bh(r.1) == bh(r.3)),
        rb(t) == (rb(r.1) && rb(r.3) && bh(r.1) == bh(r.3) && (r.0 == Color::Red ==> !is_red(r.1)
            && !is_red(r.3))),
{
    let n = *t.unwrap();
    (n.color, n.left, n.element, n.right)
}


/// Regrouping a concatenation of five blocks.
proof fn lemma_regroup<T>(a: Seq<T>, b: Seq<T>, c: Seq<T>, d: Seq<T>, e: Seq<T>)
    ensures
        a + b + (c + d + e) == (a + b + c) + d + e,
        a + b + (c + d + e) == a + (b + c + d) + e,
        (a + b + c) + d + e == a + b + (c + d + e),
        a + (b + c + d) + e == a + b + (c + d + e),
{
    assert(a + b + (c + d + e) =~= (a + b + c) + d + e);
    assert(a + b + (c + d + e) =~= a + (b + c + d) + e);
}

/// `balance` where `l` is red and so is its left child.
fn rotate_left_left<T: Weighted>(l: Option<Box<Node<T>>>, x: T, r: Option<Box<Node<T>>>) -> (t: Option<
    Box<Node<T>>,
>)
    requires
        wf(l),
        wf(r),
        elems(l).len() + 1 + elems(r).len() <= usize::MAX,
        l matches Some(n) && n.left is Some,
        near_rb(l),
        rb(r),
        bh(l) == bh(r),
        is_red(l),
        l matches Some(n) && is_red(n.left),
    ensures
        wf(t),
        t is Some,
        elems(t) == elems(l) + seq![x] + elems(r),
        rb(t),
        bh(t) == bh(l) + 1,
{
    let (_, ll, y, c) = split(l);
    let (_, a, w, b) = split(ll);
    let n1 = mk(Color::Black, a, w, b);
    let n2 = mk(Color::Black, c, x, r);
    proof {
        lemma_regroup(elems(ll), seq![y], elems(c), seq![x], elems(r));
    }
    mk(Color::Red, n1, y, n2)
}

/// `balance` where `l` is red and so is its right child.
fn rotate_left_right<T: Weighted>(l: Option<Box<Node<T>>>, x: T, r: Option<Box<Node<T>>>) -> (t: Option<
    Box<Node<T>>,
>)
    requires
        wf(l),
        wf(r),
        elems(l).len() + 1 + elems(r).len() <= usize::MAX,
        l matches Some(n) && n.right is Some,
        near_rb(l),
        rb(r),
        bh(l) == bh(r),
        is_red(l),
        l matches Some(n) && is_red(n.right),
    ensures
        wf(t),
        t is Some,
        elems(t) == elems(l) + seq![x] + elems(r),
        rb(t),
        bh(t) == bh(l) + 1,
{
    let (_, a, w, lr) = split(l);
    let (_, b, y, c) = split(lr);
    let n1 = mk(Color::Black, a, w, b);
    let n2 = mk(Color::Black, c, x, r);
    proof {
        lemma_regroup(elems(a), seq![w], elems(b), seq![y], elems(c));
        lemma_regroup(elems(a) + seq![w] + elems(b), seq![y], elems(c), seq![x], elems(r));
    }
    mk(Color::Red, n1, y, n2)
}

/// `balance` where `r` is red and so is its right child.
fn rotate_right_right<T: Weighted>(l: Option<Box<Node<T>>>, x: T, r: Option<Box<Node<T>>>) -> (t: Option<
    Box<Node<T>>,
>)
    requires
        wf(l),
        wf(r),
        elems(l).len() + 1 + elems(r).len() <= usize::MAX,
        r matches Some(n) && n.right is Some,
        rb(l),
        near_rb(r),
        bh(l) == bh(r),
        is_red(r),
        r matches Some(n) && is_red(n.right),
    ensures
        wf(t),
        t is Some,
        elems(t) == elems(l) + seq![x] + elems(r),
        rb(t),
        bh(t) == bh(l) + 1,
{
    let (_, b, y, rr) = split(r);
    let n1 = mk(Color::Black, l, x, b);
    let (_, c, z, d) = split(rr);
    let n2 = mk(Color::Black, c, z, d);
    proof {
        lemma_regroup(elems(l), seq![x], elems(b), seq![y], elems(rr));
    }
    mk(Color::Red, n1, y, n2)
}

/// `balance` where `r` is red and so is its left child.
fn rotate_right_left<T: Weighted>(l: Option<Box<Node<T>>>, x: T, r: Option<Box<Node<T>>>) -> (t: Option<
    Box<Node<T>>,
>)
    requires
        wf(l),
        wf(r),
        elems(l).len() + 1 + elems(r).len() <= usize::MAX,
        r matches Some(n) && n.left is Some,
        rb(l),
        near_rb(r),
        bh(l) == bh(r),
        is_red(r),
        r matches Some(n) && is_red(n.left),
    ensures
        wf(t),
        t is Some,
        elems(t) == elems(l) + seq![x] + elems(r),
        rb(t),
        bh(t) == bh(l) + 1,
{
    let (_, rl, z, d) = split(r);
    let (_, b, y, c) = split(rl);
    let n1 = mk(Color::Black, l, x, b);
    let n2 = mk(Color::Black, c, z, d);
    proof {
        lemma_regroup(elems(b), seq![y], elems(c), seq![z], elems(d));
        lemma_regroup(elems(l), seq![x], elems(b), seq![y], elems(c) + seq![z] + elems(d));
    }
    mk(Color::Red, n1, y, n2)
}

/// A black node over `l`, `x` and `r`, where a red child with a red child
/// of its own is rotated into a red node with two black children.
fn balance<T: Weighted>(l: Option<Box<Node<T>>>, x: T, r: Option<Box<Node<T>>>) -> (t: Option<Box<Node<T>>>)
    requires
        wf(l),
        wf(r),
        elems(l).len() + 1 + elems(r).len() <= usize::MAX,
        (rb(l) && near_rb(r)) || (near_rb(l) && rb(r)),
        bh(l) == bh(r),
    ensures
        wf(t),
        t is Some,
        elems(t) == elems(l) + seq![x] + elems(r),
        rb(t),
        bh(t) == bh(l) + 1,
{
    if red(&l) && red(&r) {
        let (_, a, y, b) = split(l);
        let (_, c, z, d) = split(r);
        let n1 = mk(Color::Black, a, y, b);
        let n2 = mk(Color::Black, c, z, d);
        mk(Color::Red, n1, x, n2)
    } else if red(&l) && left_red(&l) {
        rotate_left_left(l, x, r)
    } else if red(&l) && right_red(&l) {
        rotate_left_right(l, x, r)
    } else if red(&r) && right_red(&r) {
        rotate_right_right(l, x, r)
    } else if red(&r) && left_red(&r) {
        rotate_right_left(l, x, r)
    } else {
        mk(Color::Black, l, x, r)
    }
}

/// Inserting into the left or the right part of a concatenation.
proof fn lemma_insert_parts<T>(l: Seq<T>, e: T, r: Seq<T>, i: int, x: T)
    ensures
        0 <= i <= l.len() ==> l.insert(i, x) + seq![e] + r == (l + seq![e] + r).insert(i, x),
        l.len() < i <= l.len() + 1 + r.len() ==> l + seq![e] + r.insert(i - l.len() - 1, x) == (l
            + seq![e] + r).insert(i, x),
{
    if 0 <= i <= l.len() {
        assert(l.insert(i, x) + seq![e] + r =~= (l + seq![e] + r).insert(i, x));
    }
    if l.len() < i <= l.len() + 1 + r.len() {
        assert(l + seq![e] + r.insert(i - l.len() - 1, x) =~= (l + seq![e] + r).insert(i, x));
    }
}

/// Insert `x` at position `i` of the subtree `t`. The root of the result may
/// be red with a red child; the caller rebalances or recolors it.
fn ins<T: Weighted>(t: Option<Box<Node<T>>>, i: usize, x: T) -> (r: Option<Box<Node<T>>>)
    requires
        wf(t),
        rb(t),
        i <= elems(t).len(),
        elems(t).len() < usize::MAX,
    ensures
        wf(r),
        r is Some,
        elems(r) == elems(t).insert(i as int, x),
        near_rb(r),
        bh(r) == bh(t),
        !is_red(t) ==> rb(r),
    decreases elems(t).len(),
{
    if t.is_none() {
        let r = mk(Color::Red, None, x, None);
        assert(elems(r) =~= elems(t).insert(i as int, x));
        return r;
    }
    let (c, l, e, rt) = split(t);
    proof {
        lemma_insert_parts(elems(l), e, elems(rt), i as int, x);
    }
    let ls = size(&l);
    if i <= ls {
        let l2 = ins(l, i, x);
        if c == Color::Black {
            balance(l2, e, rt)
        } else {
            mk(Color::Red, l2, e, rt)
        }
    } else {
        let r2 = ins(rt, i - ls - 1, x);
        if c == Color::Black {
            balance(l, e, r2)
        } else {
            mk(Color::Red, l, e, r2)
        }
    }
}

/// The subtree `t` with a black root.
fn blacken<T: Weighted>(t: Option<Box<Node<T>>>) -> (r: Option<Box<Node<T>>>)
    requires
        wf(t),
        near_rb(t),
    ensures
        wf(r),
        rb(r),
        elems(r) == elems(t),
{
    if t.is_none() {
        return t;
    }
    let (_, l, x, rt) = split(t);
    mk(Color::Black, l, x, rt)
}

/// The subtree `t`, whose root is black, with the root recolored red.
fn redden<T: Weighted>(t: Option<Box<Node<T>>>) -> (r: Option<Box<Node<T>>>)
    requires
        wf(t),
        rb(t),
        is_black_node(t),
    ensures
        wf(r),
        elems(r) == elems(t),
        near_rb(r),
        is_red(r),
        bh(r) + 1 == bh(t),
{
    let (_, l, x, rt) = split(t);
    mk(Color::Red, l, x, rt)
}

/// Removing from the left part, the middle or the right part of a
/// concatenation.
proof fn lemma_remove_parts<T>(l: Seq<T>, e: T, r: Seq<T>, i: int)
    ensures
        0 <= i < l.len() ==> l.remove(i) + seq![e] + r == (l + seq![e] + r).remove(i) && (l
            + seq![e] + r)[i] == l[i],
        i == l.len() ==> l + r == (l + seq![e] + r).remove(i) && (l + seq![e] + r)[i] == e,
        l.len() < i < l.len() + 1 + r.len() ==> l + seq![e] + r.remove(i - l.len() - 1) == (l
            + seq![e] + r).remove(i) && (l + seq![e] + r)[i] == r[i - l.len() - 1],
{
    if 0 <= i < l.len() {
        assert(l.remove(i) + seq![e] + r =~= (l + seq![e] + r).remove(i));
    }
    if i == l.len() {
        assert(l + r =~= (l + seq![e] + r).remove(i));
    }
    if l.len() < i < l.len() + 1 + r.len() {
        assert(l + seq![e] + r.remove(i - l.len() - 1) =~= (l + seq![e] + r).remove(i));
    }
}

/// Joining two concatenations around a middle part that was rebuilt.
proof fn lemma_join_middle<T>(a: Seq<T>, x: T, b: Seq<T>, c: Seq<T>, y: T, d: Seq<T>, m: Seq<T>)
    requires
        m == b + c,
    ensures
        a + seq![x] + m + seq![y] + d == (a + seq![x] + b) + (c + seq![y] + d),
{
    assert(a + seq![x] + m + seq![y] + d =~= (a + seq![x] + b) + (c + seq![y] + d));
}

/// A node over `bl`, `x` and `r` after the left subtree `bl` lost one level
/// of black height.
fn balance_left<T: Weighted>(bl: Option<Box<Node<T>>>, x: T, r: Option<Box<Node<T>>>) -> (t: Option<
    Box<Node<T>>,
>)
    requires
        wf(bl),
        wf(r),
        elems(bl).len() + 1 + elems(r).len() <= usize::MAX,
        near_rb(bl),
        rb(r),
        bh(bl) + 1 == bh(r),
    ensures
        wf(t),
        elems(t) == elems(bl) + seq![x] + elems(r),
        near_rb(t),
        bh(t) == bh(r),
        is_black_node(r) ==> rb(t),
{
    proof {
        lemma_rb_facts(bl);
        lemma_rb_facts(r);
    }
    if red(&bl) {
        let (_, a, y, b) = split(bl);
        let n = mk(Color::Black, a, y, b);
        mk(Color::Red, n, x, r)
    } else if black_node(&r) {
        let (_, a, y, b) = split(r);
        let n = mk(Color::Red, a, y, b);
        balance(bl, x, n)
    } else {
        // `r` is red, so both its children are black nodes.
        let (_, rl, z, c) = split(r);
        proof {
            lemma_rb_facts(rl);
            lemma_rb_facts(c);
        }
        let (_, a, y, b) = split(rl);
        let n1 = mk(Color::Black, bl, x, a);
        let c2 = redden(c);
        let n2 = balance(b, z, c2);
        proof {
            lemma_regroup(elems(bl), seq![x], elems(a), seq![y], elems(b) + seq![z] + elems(c));
            lemma_regroup(elems(a), seq![y], elems(b), seq![z], elems(c));
        }
        mk(Color::Red, n1, y, n2)
    }
}

/// A node over `l`, `x` and `br` after the right subtree `br` lost one level
/// of black height.
fn balance_right<T: Weighted>(l: Option<Box<Node<T>>>, x: T, br: Option<Box<Node<T>>>) -> (t: Option<
    Box<Node<T>>,
>)
    requires
        wf(l),
        wf(br),
        elems(l).len() + 1 + elems(br).len() <= usize::MAX,
        rb(l),
        near_rb(br),
        bh(br) + 1 == bh(l),
    ensures
        wf(t),
        elems(t) == elems(l) + seq![x] + elems(br),
        near_rb(t),
        bh(t) == bh(l),
        is_black_node(l) ==> rb(t),
{
    proof {
        lemma_rb_facts(l);
        lemma_rb_facts(br);
    }
    if red(&br) {
        let (_, a, y, b) = split(br);
        let n = mk(Color::Black, a, y, b);
        mk(Color::Red, l, x, n)
    } else if black_node(&l) {
        let (_, a, y, b) = split(l);
        let n = mk(Color::Red, a, y, b);
        balance(n, x, br)
    } else {
        // `l` is red, so both its children are black nodes.
        let (_, a, y, lr) = split(l);
        proof {
            lemma_rb_facts(a);
            lemma_rb_facts(lr);
        }
        let (_, b, z, c) = split(lr);
        let a2 = redden(a);
        let n1 = balance(a2, y, b);
        let n2 = mk(Color::Black, c, x, br);
        proof {
            lemma_regroup(elems(a), seq![y], elems(b), seq![z], elems(c));
            lemma_regroup(elems(a) + seq![y] + elems(b), seq![z], elems(c), seq![x], elems(br));
        }
        mk(Color::Red, n1, z, n2)
    }
}

/// Flattening the concatenations that `join_red` and `join_black` build.
proof fn lemma_flatten_join<T>(a: Seq<T>, x: T, m1: Seq<T>, z: T, m2: Seq<T>, y: T, d: Seq<T>)
    ensures
        (a + seq![x] + m1) + seq![z] + (m2 + seq![y] + d) == a + seq![x] + (m1 + seq![z] + m2)
            + seq![y] + d,
        a + seq![x] + (m1 + seq![y] + d) == a + seq![x] + m1 + seq![y] + d,
{
    assert((a + seq![x] + m1) + seq![z] + (m2 + seq![y] + d) =~= a + seq![x] + (m1 + seq![z] + m2)
        + seq![y] + d);
    assert(a + seq![x] + (m1 + seq![y] + d) =~= a + seq![x] + m1 + seq![y] + d);
}

/// The elements of `a`, `x`, `m`, `y` and `d`, in order, as red nodes.
fn join_red<T: Weighted>(
    a: Option<Box<Node<T>>>,
    x: T,
    m: Option<Box<Node<T>>>,
    y: T,
    d: Option<Box<Node<T>>>,
) -> (t: Option<Box<Node<T>>>)
    requires
        wf(a),
        wf(m),
        wf(d),
        elems(a).len() + 1 + elems(m).len() + 1 + elems(d).len() <= usize::MAX,
        rb(a),
        rb(m),
        rb(d),
        !is_red(a),
        !is_red(d),
        bh(a) == bh(m),
        bh(m) == bh(d),
    ensures
        wf(t),
        elems(t) == elems(a) + seq![x] + elems(m) + seq![y] + elems(d),
        near_rb(t),
        bh(t) == bh(a),
{
    proof {
        lemma_rb_facts(m);
    }
    if red(&m) {
        let (_, m1, z, m2) = split(m);
        let n1 = mk(Color::Red, a, x, m1);
        let n2 = mk(Color::Red, m2, y, d);
        proof {
            lemma_flatten_join(elems(a), x, elems(m1), z, elems(m2), y, elems(d));
        }
        mk(Color::Red, n1, z, n2)
    } else {
        proof {
            lemma_flatten_join(elems(a), x, elems(m), y, elems(m), y, elems(d));
        }
        let n2 = mk(Color::Red, m, y, d);
        mk(Color::Red, a, x, n2)
    }
}

/// The elements of `a`, `x`, `m`, `y` and `d`, in order, where `a` and `d`
/// sit below black nodes.
fn join_black<T: Weighted>(
    a: Option<Box<Node<T>>>,
    x: T,
    m: Option<Box<Node<T>>>,
    y: T,
    d: Option<Box<Node<T>>>,
) -> (t: Option<Box<Node<T>>>)
    requires
        wf(a),
        wf(m),
        wf(d),
        elems(a).len() + 1 + elems(m).len() + 1 + elems(d).len() <= usize::MAX,
        rb(a),
        near_rb(m),
        rb(d),
        bh(a) == bh(m),
        bh(m) == bh(d),
    ensures
        wf(t),
        elems(t) == elems(a) + seq![x] + elems(m) + seq![y] + elems(d),
        rb(t),
        bh(t) == bh(a) + 1,
{
    proof {
        lemma_rb_facts(a);
        lemma_rb_facts(m);
    }
    if red(&m) {
        let (_, m1, z, m2) = split(m);
        let n1 = mk(Color::Black, a, x, m1);
        let n2 = mk(Color::Black, m2, y, d);
        proof {
            lemma_flatten_join(elems(a), x, elems(m1), z, elems(m2), y, elems(d));
        }
        mk(Color::Red, n1, z, n2)
    } else {
        proof {
            lemma_flatten_join(elems(a), x, elems(m), y, elems(m), y, elems(d));
        }
        let n2 = mk(Color::Black, m, y, d);
        balance_left(a, x, n2)
    }
}

/// The concatenation of two adjacent subtrees, rebalanced.
fn append<T: Weighted>(a: Option<Box<Node<T>>>, b: Option<Box<Node<T>>>) -> (t: Option<Box<Node<T>>>)
    requires
        wf(a),
        wf(b),
        elems(a).len() + elems(b).len() <= usize::MAX,
        rb(a),
        rb(b),
        bh(a) == bh(b),
    ensures
        wf(t),
        elems(t) == elems(a) + elems(b),
        near_rb(t),
        bh(t) == bh(a),
        !is_red(a) && !is_red(b) ==> rb(t),    decreases elems(a).len() + elems(b).len(),
{
    proof {
        lemma_rb_facts(a);
        lemma_rb_facts(b);
    }
    if a.is_none() {
        assert(elems(a) + elems(b) =~= elems(b));
        return b;
    }
    if b.is_none() {
        assert(elems(a) + elems(b) =~= elems(a));
        return a;
    }
    let a_red = red(&a);
    let b_red = red(&b);
    if a_red == b_red {
        let (_, a1, x, b1) = split(a);
        let (_, c1, y, d1) = split(b);
        let m = append(b1, c1);
        proof {
            lemma_join_middle(elems(a1), x, elems(b1), elems(c1), y, elems(d1), elems(m));
        }
        if a_red {
            join_red(a1, x, m, y, d1)
        } else {
            join_black(a1, x, m, y, d1)
        }
    } else if b_red {
        let (_, b1, x, c1) = split(b);
        let m = append(a, b1);
        proof {
            assert(elems(a) + elems(b) =~= (elems(a) + elems(b1)) + seq![x] + elems(c1));
        }
        mk(Color::Red, m, x, c1)
    } else {
        let (_, a1, x, b1) = split(a);
        let m = append(b1, b);
        proof {
            assert(elems(a) + elems(b) =~= elems(a1) + seq![x] + (elems(b1) + elems(b)));
        }
        mk(Color::Red, a1, x, m)
    }
}

/// Remove the element at position `i` of the subtree `t`, returning the rest
/// and the element.
fn del<T: Weighted>(t: Option<Box<Node<T>>>, i: usize) -> (r: (Option<Box<Node<T>>>, T))
    requires
        wf(t),
        i < elems(t).len(),
        rb(t),
    ensures
        wf(r.0),
        elems(r.0) == elems(t).remove(i as int),
        r.1 == elems(t)[i as int],
        is_black_node(t) ==> near_rb(r.0) && bh(r.0) + 1 == bh(t),
        is_red(t) ==> rb(r.0) && bh(r.0) == bh(t),    decreases elems(t).len(),
{
    let (_, a, y, b) = split(t);
    proof {
        lemma_remove_parts(elems(a), y, elems(b), i as int);
        lemma_rb_facts(a);
        lemma_rb_facts(b);
    }
    let ls = size(&a);
    if i < ls {
        let a_black = black_node(&a);
        let (a2, e) = del(a, i);
        if a_black {
            (balance_left(a2, y, b), e)
        } else {
            (mk(Color::Red, a2, y, b), e)
        }
    } else if i > ls {
        let b_black = black_node(&b);
        let (b2, e) = del(b, i - ls - 1);
        if b_black {
            (balance_right(a, y, b2), e)
        } else {
            (mk(Color::Red, a, y, b2), e)
        }
    } else {
        (append(a, b), y)
    }
}

/// The element at position `i` of the subtree `t`.
fn get_in<T: Weighted>(t: &Option<Box<Node<T>>>, i: usize) -> (r: &T)
    requires
        wf(*t),
        i < elems(*t).len(),
    ensures
        *r == elems(*t)[i as int],
    decreases elems(*t).len(),
{
    match t {
        Some(n) => {
            proof {
                lemma_remove_parts(elems(n.left), n.element, elems(n.right), i as int);
            }
            let ls = size(&n.left);
            if i < ls {
                get_in(&n.left, i)
            } else if i == ls {
                &n.element
            } else {
                get_in(&n.right, i - ls - 1)
            }
        },
        None => unreached(),
    }
}

/// The sum of the weights of the first `i` elements of the subtree `t`.
fn prefix_sum_in<T: Weighted>(t: &Option<Box<Node<T>>>, i: usize) -> (r: i128)
    requires
        wf(*t),
        i <= elems(*t).len(),
    ensures
        r == sum_weights(elems(*t).subrange(0, i as int)),
        -(i * weight_bound()) <= r <= i * weight_bound(),
    decreases elems(*t).len(),
{
    match t {
        Some(n) => {
            let ghost l = elems(n.left);
            let ghost rs = elems(n.right);
            let ls = size(&n.left);
            if i <= ls {
                assert(elems(*t).subrange(0, i as int) =~= l.subrange(0, i as int));
                prefix_sum_in(&n.left, i)
            } else {
                let rest = prefix_sum_in(&n.right, i - ls - 1);
                let w = n.element.weight();
                let left = sum(&n.left);
                proof {
                    let j = i - ls - 1;
                    assert(elems(*t).subrange(0, i as int) =~= (l + seq![n.element]) + rs.subrange(
                        0,
                        j,
                    ));
                    lemma_sum_concat(l + seq![n.element], rs.subrange(0, j));
                    lemma_sum_concat(l, seq![n.element]);
                    assert(seq![n.element].drop_last() =~= Seq::<T>::empty());
                    assert(sum_weights(seq![n.element]) == n.element.weight_spec()) by {
                        reveal_with_fuel(sum_weights, 2);
                        assert(seq![n.element].last() == n.element);
                    }
                }
                left + w as i128 + rest
            }
        },
        None => {
            assert(elems(*t).subrange(0, i as int) =~= Seq::<T>::empty());
            0
        },
    }
}

/// The position of the first element of the subtree `t` that `pred`
/// accepts, or the number of elements if there is none.
fn position_in<T: Weighted, F: Fn(&T) -> bool>(t: &Option<Box<Node<T>>>, pred: &F, Ghost(p): Ghost<spec_fn(T) -> bool>) -> (r: usize)
    requires
        wf(*t),
        forall|x: &T| #[trigger] pred.requires((x,)),
        forall|x: &T, b: bool| pred.ensures((x,), b) ==> b == p(*x),
    ensures
        r <= elems(*t).len(),
        r < elems(*t).len() ==> p(elems(*t)[r as int]),
        forall|k: int| 0 <= k < r ==> !p(#[trigger] elems(*t)[k]),
    decreases elems(*t).len(),
{
    match t {
        Some(n) => {
            let ghost l = elems(n.left);
            let ghost rs = elems(n.right);
            let a = position_in(&n.left, pred, Ghost(p));
            let ls = size(&n.left);
            if a < ls {
                assert forall|k: int| 0 <= k < a implies !p(#[trigger] elems(*t)[k]) by {
                    assert(elems(*t)[k] == l[k]);
                }
                assert(elems(*t)[a as int] == l[a as int]);
                a
            } else if pred(&n.element) {
                assert forall|k: int| 0 <= k < ls implies !p(#[trigger] elems(*t)[k]) by {
                    assert(elems(*t)[k] == l[k]);
                }
                assert(elems(*t)[ls as int] == n.element);
                ls
            } else {
                let b = position_in(&n.right, pred, Ghost(p));
                assert forall|k: int| 0 <= k < ls + 1 + b implies !p(#[trigger] elems(*t)[k]) by {
                    if k < ls {
                        assert(elems(*t)[k] == l[k]);
                    } else if k > ls {
                        assert(elems(*t)[k] == rs[k - ls - 1]);
                    }
                }
                if b < size(&n.right) {
                    assert(elems(*t)[ls + 1 + b] == rs[b as int]);
                }
                ls + 1 + b
            }
        },
        None => 0,
    }
}

/// Every element that `p` accepts comes before every element that it
/// rejects.
pub open spec fn partitioned<T>(s: Seq<T>, p: spec_fn(T) -> bool) -> bool {
    forall|i: int, j: int| 0 <= i < j < s.len() && #[trigger] p(s[j]) ==> #[trigger] p(s[i])
}

/// The number of leading elements of the subtree `t` that `pred` accepts,
/// where the elements that `pred` accepts come first.
fn partition_point_in<T: Weighted, F: Fn(&T) -> bool>(
    t: &Option<Box<Node<T>>>,
    pred: &F,
    Ghost(p): Ghost<spec_fn(T) -> bool>,
) -> (r: usize)
    requires
        wf(*t),
        partitioned(elems(*t), p),
        forall|x: &T| #[trigger] pred.requires((x,)),
        forall|x: &T, b: bool| pred.ensures((x,), b) ==> b == p(*x),
    ensures
        r <= elems(*t).len(),
        forall|k: int| 0 <= k < r ==> p(#[trigger] elems(*t)[k]),
        forall|k: int| r <= k < elems(*t).len() ==> !p(#[trigger] elems(*t)[k]),
    decreases elems(*t).len(),
{
    match t {
        Some(n) => {
            let ghost s = elems(*t);
            let ghost l = elems(n.left);
            let ghost rs = elems(n.right);
            let ls = size(&n.left);
            assert(s[ls as int] == n.element);
            if pred(&n.element) {
                assert forall|i: int, j: int| 0 <= i < j < rs.len() && #[trigger] p(rs[j]) implies #[trigger] p(rs[i]) by {
                    assert(s[ls + 1 + j] == rs[j]);
                    assert(s[ls + 1 + i] == rs[i]);
                }
                let b = partition_point_in(&n.right, pred, Ghost(p));
                assert forall|k: int| 0 <= k < ls + 1 + b implies p(#[trigger] s[k]) by {
                    if k < ls {
                        assert(s[k] == l[k]);
                    } else if k > ls {
                        assert(s[k] == rs[k - ls - 1]);
                    }
                }
                assert forall|k: int| ls + 1 + b <= k < s.len() implies !p(#[trigger] s[k]) by {
                    assert(s[k] == rs[k - ls - 1]);
                }
                ls + 1 + b
            } else {
                assert forall|i: int, j: int| 0 <= i < j < l.len() && #[trigger] p(l[j]) implies #[trigger] p(l[i]) by {
                    assert(s[j] == l[j]);
                    assert(s[i] == l[i]);
                }
                let a = partition_point_in(&n.left, pred, Ghost(p));
                assert forall|k: int| 0 <= k < a implies p(#[trigger] s[k]) by {
                    assert(s[k] == l[k]);
                }
                assert forall|k: int| a <= k < s.len() implies !p(#[trigger] s[k]) by {
                    if k < ls {
                        assert(s[k] == l[k]);
                    } else if k > ls {
                        assert(s[k] == rs[k - ls - 1]);
                    }
                }
                a
            }
        },
        None => 0,
    }
}

/// A sequence of elements kept in a red-black tree.
#[derive(Debug)]
pub struct RbTree<T: Weighted> {
    root: Option<Box<Node<T>>>,
}

impl<T: Weighted> RbTree<T> {
    #[verifier::type_invariant]
    spec fn inv(self) -> bool {
        wf(self.root) && rb(self.root)
    }
}

impl<T: Weighted> RbTree<T> {
    /// The tree obeys the red-black rules (no red node has a red child, and
    /// every path from the root down passes the same number of black nodes)
    /// and every node records the size and weight sum of its subtree.
    pub closed spec fn red_black(&self) -> bool {
        wf(self.root) && rb(self.root)
    }

    /// The number of nodes on the longest path from the root down.
    pub closed spec fn height(&self) -> nat {
        tree_height(self.root)
    }
}

impl<T: Weighted> View for RbTree<T> {
    type V = Seq<T>;

    closed spec fn view(&self) -> Seq<T> {
        elems(self.root)
    }
}

impl<T: Weighted> RbTree<T> {
    /// An empty tree.
    pub fn new() -> (s: Self)
        ensures
            s@ == Seq::<T>::empty(),
            s.height() == 0,
            s.red_black(),
    {
        RbTree { root: None }
    }

    /// The number of elements.
    pub fn len(&self) -> (r: usize)
        ensures
            r == self@.len(),
    {
        proof {
            use_type_invariant(self);
        }
        size(&self.root)
    }

    /// The element at position `i`.
    pub fn get(&self, i: usize) -> (r: &T)
        requires
            i < self@.len(),
        ensures
            *r == self@[i as int],
    {
        proof {
            use_type_invariant(self);
        }
        get_in(&self.root, i)
    }

    /// Insert `x` at position `i`.
    pub fn insert(&mut self, i: usize, x: T)
        requires
            i <= old(self)@.len(),
            old(self)@.len() < usize::MAX,
        ensures
            final(self)@ == old(self)@.insert(i as int, x),
            pow2(final(self).height() / 2) <= final(self)@.len() + 1,
            final(self).red_black(),
    {
        proof {
            use_type_invariant(&*self);
        }
        let mut root = None;
        core::mem::swap(&mut root, &mut self.root);
        let t = ins(root, i, x);
        self.root = blacken(t);
        proof {
            lemma_balanced(self.root);
        }
    }

    /// Remove and return the element at position `i`.
    pub fn remove(&mut self, i: usize) -> (r: T)
        requires
            i < old(self)@.len(),
        ensures
            r == old(self)@[i as int],
            final(self)@ == old(self)@.remove(i as int),
            final(self)@.len() < usize::MAX,
            pow2(final(self).height() / 2) <= final(self)@.len() + 1,
            final(self).red_black(),
    {
        proof {
            use_type_invariant(&*self);
        }
        let mut root = None;
        core::mem::swap(&mut root, &mut self.root);
        let (t, e) = del(root, i);
        proof {
            lemma_rb_facts(t);
        }
        self.root = blacken(t);
        proof {
            lemma_balanced(self.root);
        }
        e
    }

    /// The sum of the weights of the first `i` elements.
    pub fn prefix_sum(&self, i: usize) -> (r: i128)
        requires
            i <= self@.len(),
        ensures
            r == sum_weights(self@.subrange(0, i as int)),
    {
        proof {
            use_type_invariant(self);
        }
        prefix_sum_in(&self.root, i)
    }

    /// The position of the first element that `pred` accepts, or the number
    /// of elements if there is none.
    pub fn position<F: Fn(&T) -> bool>(&self, pred: F, Ghost(p): Ghost<spec_fn(T) -> bool>) -> (r: usize)
        requires
            forall|x: &T| #[trigger] pred.requires((x,)),
            forall|x: &T, b: bool| pred.ensures((x,), b) ==> b == p(*x),
        ensures
            r <= self@.len(),
            r < self@.len() ==> p(self@[r as int]),
            forall|k: int| 0 <= k < r ==> !p(#[trigger] self@[k]),
    {
        proof {
            use_type_invariant(self);
        }
        position_in(&self.root, &pred, Ghost(p))
    }

    /// The number of leading elements that `pred` accepts, where the
    /// elements that `pred` accepts come first.
    pub fn partition_point<F: Fn(&T) -> bool>(&self, pred: F, Ghost(p): Ghost<spec_fn(T) -> bool>) -> (r: usize)
        requires
            partitioned(self@, p),
            forall|x: &T| #[trigger] pred.requires((x,)),
            forall|x: &T, b: bool| pred.ensures((x,), b) ==> b == p(*x),
        ensures
            r <= self@.len(),
            forall|k: int| 0 <= k < r ==> p(#[trigger] self@[k]),
            forall|k: int| r <= k < self@.len() ==> !p(#[trigger] self@[k]),
    {
        proof {
            use_type_invariant(self);
        }
        partition_point_in(&self.root, &pred, Ghost(p))
    }
}

} // verus!
