//! Persistent height-balanced binary search tree.
//!
//! Every mutating operation returns a new tree value; the receiver is left
//! untouched, and unchanged subtrees are shared between versions through
//! reference-counted pointers.  The contents of a tree are modelled as a
//! `Map<int, T>` from the key of each stored value to the value itself;
//! inserting a value whose key is already present replaces the stored value.

use std::rc::Rc;
use vstd::arithmetic::power2::lemma_pow2_strictly_increases;
use vstd::arithmetic::power2::lemma_pow2_unfold;
use vstd::arithmetic::power2::pow2;
use vstd::prelude::*;

verus! {

broadcast use vstd::map_lib::group_map_union;

/// Maximum tolerated height difference between siblings before a rotation
/// is triggered: a node is rebuilt by rotation only once the difference
/// exceeds this factor.
const BALANCE_FACTOR: u32 = 2;

/// Values stored in the tree.  A value is ordered by a ghost integer key;
/// two values with the same key are considered the same element, so an
/// insert with an equal key replaces the stored value.  Values must be
/// cheaply duplicable (`Copy`), since rebuilding the path from the root to
/// a changed position duplicates the values along it.
pub trait Orderable: Sized + Copy {
    /// The key under which this value is ordered.
    spec fn key(self) -> int;

    /// Strict order test, consistent with `key`.
    fn lt(&self, other: &Self) -> (r: bool)
        ensures
            r == (self.key() < other.key()),
    ;

    /// Reversed strict order test, consistent with `key`.
    fn gt(&self, other: &Self) -> (r: bool)
        ensures
            r == (self.key() > other.key()),
    ;
}

impl Orderable for i32 {
    open spec fn key(self) -> int {
        self as int
    }

    fn lt(&self, other: &Self) -> bool {
        *self < *other
    }

    fn gt(&self, other: &Self) -> bool {
        *self > *other
    }
}

impl Orderable for i64 {
    open spec fn key(self) -> int {
        self as int
    }

    fn lt(&self, other: &Self) -> bool {
        *self < *other
    }

    fn gt(&self, other: &Self) -> bool {
        *self > *other
    }
}

impl Orderable for u32 {
    open spec fn key(self) -> int {
        self as int
    }

    fn lt(&self, other: &Self) -> bool {
        *self < *other
    }

    fn gt(&self, other: &Self) -> bool {
        *self > *other
    }
}

impl Orderable for u64 {
    open spec fn key(self) -> int {
        self as int
    }

    fn lt(&self, other: &Self) -> bool {
        *self < *other
    }

    fn gt(&self, other: &Self) -> bool {
        *self > *other
    }
}

impl Orderable for usize {
    open spec fn key(self) -> int {
        self as int
    }

    fn lt(&self, other: &Self) -> bool {
        *self < *other
    }

    fn gt(&self, other: &Self) -> bool {
        *self > *other
    }
}

/// A possibly empty subtree: either no node, or a shared pointer to a node.
pub type AvlTreeImpl<T> = Option<Rc<TreeNode<T>>>;

/// One node of the tree: a value, the cached height of the subtree rooted
/// here, and the two subtrees.  Nodes are never mutated once published.
pub struct TreeNode<T: Orderable> {
    val: T,
    height: u32,
    left: AvlTreeImpl<T>,
    right: AvlTreeImpl<T>,
}

/// The larger of two natural numbers.
pub open spec fn hmax(a: nat, b: nat) -> nat {
    if a >= b {
        a
    } else {
        b
    }
}

/// Height of a subtree: 0 for the empty tree, 1 more than the taller child
/// otherwise.
pub closed spec fn opt_height<T: Orderable>(t: AvlTreeImpl<T>) -> nat
    decreases t,
{
    match t {
        None => 0,
        Some(n) => 1 + hmax(opt_height(n.left), opt_height(n.right)),
    }
}

/// Contents of a subtree, as a map from each stored value's key to the value.
pub closed spec fn opt_map<T: Orderable>(t: AvlTreeImpl<T>) -> Map<int, T>
    decreases t,
{
    match t {
        None => Map::empty(),
        Some(n) => opt_map(n.left).union_prefer_right(opt_map(n.right)).insert(
            n.val.key(),
            n.val,
        ),
    }
}

/// The search-tree order: at every node, all keys in the left subtree are
/// smaller than the node's key and all keys in the right subtree are larger.
pub closed spec fn opt_ordered<T: Orderable>(t: AvlTreeImpl<T>) -> bool
    decreases t,
{
    match t {
        None => true,
        Some(n) => {
            &&& opt_ordered(n.left)
            &&& opt_ordered(n.right)
            &&& (forall|k: int| opt_map(n.left).dom().contains(k) ==> k < n.val.key())
            &&& (forall|k: int| opt_map(n.right).dom().contains(k) ==> k > n.val.key())
        },
    }
}

/// The cached `height` field of every node equals the true height of the
/// subtree rooted at that node.
pub closed spec fn opt_heights_ok<T: Orderable>(t: AvlTreeImpl<T>) -> bool
    decreases t,
{
    match t {
        None => true,
        Some(n) => {
            &&& opt_heights_ok(n.left)
            &&& opt_heights_ok(n.right)
            &&& n.height as nat == 1 + hmax(opt_height(n.left), opt_height(n.right))
        },
    }
}

/// The balance invariant: at every node the heights of the two subtrees
/// differ by at most `BALANCE_FACTOR`.
pub closed spec fn opt_balanced<T: Orderable>(t: AvlTreeImpl<T>) -> bool
    decreases t,
{
    match t {
        None => true,
        Some(n) => {
            &&& opt_balanced(n.left)
            &&& opt_balanced(n.right)
            &&& opt_height(n.left) <= opt_height(n.right) + 2
            &&& opt_height(n.right) <= opt_height(n.left) + 2
        },
    }
}

/// The root node's two subtrees have different heights (false for the
/// empty tree).
pub closed spec fn opt_uneven<T: Orderable>(t: AvlTreeImpl<T>) -> bool {
    match t {
        None => false,
        Some(n) => opt_height(n.left) != opt_height(n.right),
    }
}

/// Left subtree of the root node, if any.
pub closed spec fn opt_left<T: Orderable>(t: AvlTreeImpl<T>) -> AvlTreeImpl<T> {
    match t {
        None => None,
        Some(n) => n.left,
    }
}

/// Right subtree of the root node, if any.
pub closed spec fn opt_right<T: Orderable>(t: AvlTreeImpl<T>) -> AvlTreeImpl<T> {
    match t {
        None => None,
        Some(n) => n.right,
    }
}

/// A subtree of positive height holds at least its root node.
proof fn lemma_height_some<T: Orderable>(t: &AvlTreeImpl<T>)
    ensures
        opt_height(*t) > 0 ==> *t is Some,
{
    if *t is None {
        assert(opt_height(*t) == 0);
    }
}

/// At a node, the stored values are the node's own value plus those of the
/// two subtrees, so the sizes add up accordingly.
pub proof fn lemma_len_node<T: Orderable>(t: &AvlTreeImpl<T>)
    requires
        opt_ordered(*t),
    ensures
        opt_map(*t).dom().finite(),
        *t is Some ==> opt_map(*t).len() == 1 + opt_map(opt_left(*t)).len() + opt_map(
            opt_right(*t),
        ).len(),
{
    lemma_map_finite(t);
    match t {
        None => {},
        Some(n) => {
            lemma_map_finite(&n.left);
            lemma_map_finite(&n.right);
            assert(opt_map(n.left).dom().disjoint(opt_map(n.right).dom()));
            assert(opt_map(n.left).union_prefer_right(opt_map(n.right)).dom().len()
                == opt_map(n.left).dom().len() + opt_map(n.right).dom().len());
            assert(!opt_map(n.left).union_prefer_right(opt_map(n.right)).dom().contains(
                n.val.key(),
            ));
        },
    }
}

/// The contents map of every subtree is finite.
pub proof fn lemma_map_finite<T: Orderable>(t: &AvlTreeImpl<T>)
    ensures
        opt_map(*t).dom().finite(),
    decreases *t,
{
    match t {
        None => {},
        Some(n) => {
            lemma_map_finite(&n.left);
            lemma_map_finite(&n.right);
        },
    }
}

/// An ordered subtree holds at least as many values as its height.
pub proof fn lemma_height_le_len<T: Orderable>(t: &AvlTreeImpl<T>)
    requires
        opt_ordered(*t),
    ensures
        opt_height(*t) <= opt_map(*t).len(),
    decreases *t,
{
    match t {
        None => {},
        Some(n) => {
            lemma_height_le_len(&n.left);
            lemma_height_le_len(&n.right);
            lemma_len_node(t);
        },
    }
}

/// Duplicate a subtree handle: the new handle shares the same nodes.
fn share<T: Orderable>(t: &AvlTreeImpl<T>) -> (r: AvlTreeImpl<T>)
    ensures
        r == *t,
{
    match t {
        None => None,
        Some(rc) => Some(rc.clone()),
    }
}

impl<T: Orderable> TreeNode<T> {
    /// Contents of the subtree rooted at this node.
    pub closed spec fn as_map(self) -> Map<int, T> {
        opt_map(self.left).union_prefer_right(opt_map(self.right)).insert(
            self.val.key(),
            self.val,
        )
    }

    /// Search-tree order at this node and below.
    pub closed spec fn ordered(self) -> bool {
        &&& opt_ordered(self.left)
        &&& opt_ordered(self.right)
        &&& (forall|k: int| opt_map(self.left).dom().contains(k) ==> k < self.val.key())
        &&& (forall|k: int| opt_map(self.right).dom().contains(k) ==> k > self.val.key())
    }

    /// Cached heights are correct at this node and below.
    pub closed spec fn heights_ok(self) -> bool {
        &&& opt_heights_ok(self.left)
        &&& opt_heights_ok(self.right)
        &&& self.height as nat == 1 + hmax(opt_height(self.left), opt_height(self.right))
    }

    /// The cached height of the subtree rooted at this node.
    pub closed spec fn node_height(self) -> nat {
        self.height as nat
    }

    /// Balance invariant at this node and below.
    pub closed spec fn balanced(self) -> bool {
        &&& opt_balanced(self.left)
        &&& opt_balanced(self.right)
        &&& opt_height(self.left) <= opt_height(self.right) + 2
        &&& opt_height(self.right) <= opt_height(self.left) + 2
    }

    /// Build a node over two subtrees, caching its height.
    pub fn new(val: T, left: AvlTreeImpl<T>, right: AvlTreeImpl<T>) -> (r: AvlTreeImpl<T>)
        requires
            opt_heights_ok(left),
            opt_heights_ok(right),
            hmax(opt_height(left), opt_height(right)) + 1 <= u32::MAX,
        ensures
            r is Some,
            opt_left(r) == left,
            opt_right(r) == right,
            opt_height(r) == 1 + hmax(opt_height(left), opt_height(right)),
            opt_map(r) == opt_map(left).union_prefer_right(opt_map(right)).insert(
                val.key(),
                val,
            ),
            opt_heights_ok(r),
            (opt_ordered(left) && opt_ordered(right) && (forall|k: int|
                opt_map(left).dom().contains(k) ==> k < val.key()) && (forall|k: int|
                opt_map(right).dom().contains(k) ==> k > val.key())) ==> opt_ordered(r),
    {
        let mut node = TreeNode { val, height: 1, left, right };
        node.update_height();
        Some(Rc::new(node))
    }

    /// Recompute and store this node's height from its subtrees' heights.
    fn update_height(&mut self)
        requires
            opt_heights_ok(old(self).left),
            opt_heights_ok(old(self).right),
            hmax(opt_height(old(self).left), opt_height(old(self).right)) + 1 <= u32::MAX,
        ensures
            final(self).val == old(self).val,
            final(self).left == old(self).left,
            final(self).right == old(self).right,
            final(self).height as nat == 1 + hmax(
                opt_height(old(self).left),
                opt_height(old(self).right),
            ),
    {
        let left_height = TreeNode::get_height(&self.left);
        let right_height = TreeNode::get_height(&self.right);
        self.height = 1 + if left_height >= right_height {
            left_height
        } else {
            right_height
        };
    }

    /// Height of a subtree.
    pub fn get_height(node: &AvlTreeImpl<T>) -> (r: u32)
        requires
            opt_heights_ok(*node),
        ensures
            r as nat == opt_height(*node),
    {
        match node {
            Some(n) => n.height,
            None => 0,
        }
    }

    /// Insert `val` into the subtree rooted at this node, returning a new
    /// subtree whose contents are this subtree's contents with `val` stored
    /// under its key.  A value with an equal key is replaced.
    pub fn do_insert(&self, val: T) -> (r: AvlTreeImpl<T>)
        requires
            self.ordered(),
            self.heights_ok(),
            self.node_height() + 2 <= u32::MAX,
        ensures
            opt_map(r) == self.as_map().insert(val.key(), val),
            opt_ordered(r),
            opt_heights_ok(r),
            opt_height(r) <= self.node_height() + 1,
            self.balanced() ==> (opt_balanced(r) && opt_height(r) >= self.node_height() && (
            opt_height(r) > self.node_height() ==> opt_uneven(r))),
        decreases *self,
    {
        let ghost lm0 = opt_map(self.left);
        let ghost rm0 = opt_map(self.right);
        if val.lt(&self.val) {
            let new_left = match &self.left {
                Some(ln) => ln.do_insert(val),
                None => TreeNode::new(val, None, None),
            };
            proof {
                assert forall|k: int| opt_map(new_left).dom().contains(k) implies k
                    < self.val.key() by {
                    if lm0.dom().contains(k) {
                    } else {
                        assert(k == val.key());
                    }
                };
            }
            let r = TreeNode::balance_tree(self.val, new_left, share(&self.right));
            proof {
                assert(opt_map(r) =~= self.as_map().insert(val.key(), val));
                if self.balanced() {
                    let hl0 = opt_height(self.left);
                    let hr0 = opt_height(self.right);
                    let hnl = opt_height(new_left);
                    assert(opt_balanced(new_left));
                    if hnl <= hr0 + 2 && hr0 <= hnl + 2 {
                        assert(opt_balanced(r));
                    } else {
                        assert(hnl == hr0 + 3);
                        assert(opt_uneven(new_left));
                    }
                    assert(opt_height(r) >= self.node_height());
                }
            }
            r
        } else if val.gt(&self.val) {
            let new_right = match &self.right {
                Some(rn) => rn.do_insert(val),
                None => TreeNode::new(val, None, None),
            };
            proof {
                assert forall|k: int| opt_map(new_right).dom().contains(k) implies k
                    > self.val.key() by {
                    if rm0.dom().contains(k) {
                    } else {
                        assert(k == val.key());
                    }
                };
            }
            let r = TreeNode::balance_tree(self.val, share(&self.left), new_right);
            proof {
                assert(opt_map(r) =~= self.as_map().insert(val.key(), val));
                if self.balanced() {
                    let hl0 = opt_height(self.left);
                    let hr0 = opt_height(self.right);
                    let hnr = opt_height(new_right);
                    assert(opt_balanced(new_right));
                    if hl0 <= hnr + 2 && hnr <= hl0 + 2 {
                        assert(opt_balanced(r));
                    } else {
                        assert(hnr == hl0 + 3);
                        assert(opt_uneven(new_right));
                    }
                    assert(opt_height(r) >= self.node_height());
                }
            }
            r
        } else {
            let r = TreeNode::new(val, share(&self.left), share(&self.right));
            proof {
                assert(val.key() == self.val.key());
                assert(opt_map(r) =~= self.as_map().insert(val.key(), val));
            }
            r
        }
    }

    /// Whether a value with the same key as `val` is stored in the subtree
    /// rooted at this node.
    pub fn contains(&self, val: T) -> (r: bool)
        requires
            self.ordered(),
        ensures
            r == self.as_map().dom().contains(val.key()),
        decreases *self,
    {
        if val.lt(&self.val) {
            proof {
                assert(!opt_map(self.right).dom().contains(val.key()));
            }
            if let Some(ln) = &self.left {
                ln.contains(val)
            } else {
                false
            }
        } else if val.gt(&self.val) {
            proof {
                assert(!opt_map(self.left).dom().contains(val.key()));
            }
            if let Some(rn) = &self.right {
                rn.contains(val)
            } else {
                false
            }
        } else {
            true
        }
    }

    /// Borrow the stored value whose key equals the key of `val`, if any.
    pub fn get_as_ref(&self, val: T) -> (r: Option<&T>)
        requires
            self.ordered(),
        ensures
            (match r {
                Some(v) => self.as_map().dom().contains(val.key()) && *v == self.as_map()[
                    val.key()
                ],
                None => !self.as_map().dom().contains(val.key()),
            }),
        decreases *self,
    {
        if val.lt(&self.val) {
            proof {
                assert(!opt_map(self.right).dom().contains(val.key()));
            }
            if let Some(ln) = &self.left {
                ln.get_as_ref(val)
            } else {
                None
            }
        } else if val.gt(&self.val) {
            proof {
                assert(!opt_map(self.left).dom().contains(val.key()));
            }
            if let Some(rn) = &self.right {
                rn.get_as_ref(val)
            } else {
                None
            }
        } else {
            Some(&self.val)
        }
    }

    /// At a node, the sizes of the subtrees and the node's own value add up
    /// to the size of the whole subtree.
    proof fn lemma_size_parts(&self)
        requires
            self.ordered(),
        ensures
            opt_map(self.left).dom().finite(),
            opt_map(self.right).dom().finite(),
            self.as_map().len() == 1 + opt_map(self.left).len() + opt_map(self.right).len(),
    {
        lemma_map_finite(&self.left);
        lemma_map_finite(&self.right);
        assert(opt_map(self.left).dom().disjoint(opt_map(self.right).dom()));
        assert(opt_map(self.left).union_prefer_right(opt_map(self.right)).dom().len()
            == opt_map(self.left).dom().len() + opt_map(self.right).dom().len());
        assert(!opt_map(self.left).union_prefer_right(opt_map(self.right)).dom().contains(
            self.val.key(),
        ));
    }

    /// Number of values stored in the subtree rooted at this node.
    fn get_size(&self) -> (r: usize)
        requires
            self.ordered(),
            self.as_map().len() <= usize::MAX,
        ensures
            r == self.as_map().len(),
        decreases *self,
    {
        proof {
            self.lemma_size_parts();
        }
        let mut size: usize = 1;
        if let Some(right) = &self.right {
            size = size + right.get_size();
        }
        if let Some(left) = &self.left {
            size = size + left.get_size();
        }
        size
    }

    /// Remove the smallest-keyed value from the subtree rooted at this node,
    /// returning that value together with the remaining subtree.
    fn remove_min(&self) -> (res: (T, AvlTreeImpl<T>))
        requires
            self.ordered(),
            self.heights_ok(),
            self.node_height() + 1 <= u32::MAX,
        ensures
            self.as_map().dom().contains(res.0.key()),
            res.0 == self.as_map()[res.0.key()],
            forall|k: int| self.as_map().dom().contains(k) ==> k >= res.0.key(),
            opt_map(res.1) == self.as_map().remove(res.0.key()),
            opt_ordered(res.1),
            opt_heights_ok(res.1),
            opt_height(res.1) <= self.node_height(),
        decreases *self,
    {
        match &self.left {
            Some(ln) => {
                let (m, nl) = ln.remove_min();
                proof {
                    assert(opt_map(self.left).dom().contains(m.key()));
                    assert forall|k: int| opt_map(nl).dom().contains(k) implies k
                        < self.val.key() by {
                        assert(opt_map(self.left).dom().contains(k));
                    };
                }
                let r = TreeNode::balance_tree(self.val, nl, share(&self.right));
                proof {
                    assert(opt_map(r) =~= self.as_map().remove(m.key()));
                    assert forall|k: int| self.as_map().dom().contains(k) implies k
                        >= m.key() by {
                        if opt_map(self.left).dom().contains(k) {
                        } else {
                            assert(m.key() < self.val.key());
                            if opt_map(self.right).dom().contains(k) {
                            } else {
                                assert(k == self.val.key());
                            }
                        }
                    };
                }
                (m, r)
            },
            None => {
                proof {
                    assert(opt_map(self.left) == Map::<int, T>::empty());
                    assert(opt_map(self.right) =~= self.as_map().remove(self.val.key()));
                }
                (self.val, share(&self.right))
            },
        }
    }

    /// Rebuild the subtree that remains when this node's value is removed:
    /// the two subtrees are joined under the smallest value of the right
    /// subtree, or the other subtree is returned when one is empty.
    fn combine_trees(&self, left: &AvlTreeImpl<T>, right: &AvlTreeImpl<T>) -> (r: AvlTreeImpl<T>)
        requires
            opt_ordered(*left),
            opt_ordered(*right),
            opt_heights_ok(*left),
            opt_heights_ok(*right),
            forall|k: int| opt_map(*left).dom().contains(k) ==> k < self.val.key(),
            forall|k: int| opt_map(*right).dom().contains(k) ==> k > self.val.key(),
            hmax(opt_height(*left), opt_height(*right)) + 2 <= u32::MAX,
        ensures
            opt_map(r) == opt_map(*left).union_prefer_right(opt_map(*right)),
            opt_ordered(r),
            opt_heights_ok(r),
            opt_height(r) <= 1 + hmax(opt_height(*left), opt_height(*right)),
    {
        if left.is_none() {
            proof {
                assert(opt_map(*right) =~= opt_map(*left).union_prefer_right(opt_map(*right)));
            }
            share(right)
        } else if right.is_none() {
            proof {
                assert(opt_map(*left) =~= opt_map(*left).union_prefer_right(opt_map(*right)));
            }
            share(left)
        } else if let Some(rn) = right {
            let (m, nr) = rn.remove_min();
            proof {
                assert(opt_map(*right).dom().contains(m.key()));
                assert forall|k: int| opt_map(*left).dom().contains(k) implies k < m.key() by {
                    assert(m.key() > self.val.key());
                };
                assert forall|k: int| opt_map(nr).dom().contains(k) implies k > m.key() by {
                    assert(opt_map(*right).dom().contains(k));
                };
            }
            let r = TreeNode::balance_tree(m, share(left), nr);
            proof {
                assert(opt_map(r) =~= opt_map(*left).union_prefer_right(opt_map(*right)));
            }
            r
        } else {
            share(left)
        }
    }

    /// Delete the value stored under the key of `val` from the subtree rooted
    /// at this node, returning a new subtree without it.  When no value has
    /// that key, the returned subtree has the same contents.
    pub fn do_delete(&self, val: T) -> (r: AvlTreeImpl<T>)
        requires
            self.ordered(),
            self.heights_ok(),
            self.node_height() + 1 <= u32::MAX,
        ensures
            opt_map(r) == self.as_map().remove(val.key()),
            opt_ordered(r),
            opt_heights_ok(r),
            opt_height(r) <= self.node_height(),
        decreases *self,
    {
        if val.lt(&self.val) {
            let new_left = match &self.left {
                Some(ln) => ln.do_delete(val),
                None => None,
            };
            proof {
                assert(opt_map(new_left) =~= opt_map(self.left).remove(val.key()));
                assert forall|k: int| opt_map(new_left).dom().contains(k) implies k
                    < self.val.key() by {
                    assert(opt_map(self.left).dom().contains(k));
                };
            }
            let r = TreeNode::balance_tree(self.val, new_left, share(&self.right));
            proof {
                assert(opt_map(r) =~= self.as_map().remove(val.key()));
            }
            r
        } else if val.gt(&self.val) {
            let new_right = match &self.right {
                Some(rn) => rn.do_delete(val),
                None => None,
            };
            proof {
                assert(opt_map(new_right) =~= opt_map(self.right).remove(val.key()));
                assert forall|k: int| opt_map(new_right).dom().contains(k) implies k
                    > self.val.key() by {
                    assert(opt_map(self.right).dom().contains(k));
                };
            }
            let r = TreeNode::balance_tree(self.val, share(&self.left), new_right);
            proof {
                assert(opt_map(r) =~= self.as_map().remove(val.key()));
            }
            r
        } else {
            let r = self.combine_trees(&self.left, &self.right);
            proof {
                assert(opt_map(r) =~= self.as_map().remove(val.key()));
            }
            r
        }
    }

    /// Rebuild a node from a value and two subtrees, rotating if their
    /// heights differ by more than `BALANCE_FACTOR`.  The contents of the
    /// result are the two subtrees' contents plus the value.
    #[verifier::rlimit(100)]
    #[verifier::spinoff_prover]
    fn balance_tree(val: T, left: AvlTreeImpl<T>, right: AvlTreeImpl<T>) -> (r: AvlTreeImpl<T>)
        requires
            opt_ordered(left),
            opt_ordered(right),
            opt_heights_ok(left),
            opt_heights_ok(right),
            forall|k: int| opt_map(left).dom().contains(k) ==> k < val.key(),
            forall|k: int| opt_map(right).dom().contains(k) ==> k > val.key(),
            hmax(opt_height(left), opt_height(right)) + 2 <= u32::MAX,
        ensures
            r is Some,
            opt_ordered(r),
            opt_heights_ok(r),
            opt_map(r) == opt_map(left).union_prefer_right(opt_map(right)).insert(
                val.key(),
                val,
            ),
            opt_height(r) <= 1 + hmax(opt_height(left), opt_height(right)),
            (opt_height(left) <= opt_height(right) + 2 && opt_height(right) <= opt_height(left)
                + 2) ==> (opt_left(r) == left && opt_right(r) == right && opt_height(r) == 1
                + hmax(opt_height(left), opt_height(right))),
            (opt_balanced(left) && opt_balanced(right) && opt_height(left) == opt_height(right)
                + 3 && opt_uneven(left)) ==> (opt_balanced(r) && opt_height(r) == opt_height(
                left,
            )),
            (opt_balanced(left) && opt_balanced(right) && opt_height(right) == opt_height(left)
                + 3 && opt_uneven(right)) ==> (opt_balanced(r) && opt_height(r) == opt_height(
                right,
            )),
    {
        let left_height = TreeNode::get_height(&left);
        let right_height = TreeNode::get_height(&right);
        let ghost lm = opt_map(left);
        let ghost rm = opt_map(right);
        if left_height > right_height + BALANCE_FACTOR {
            proof {
                lemma_height_some(&left);
            }
            let left_node = left.as_ref().unwrap();
            proof {
                let ln = left->0;
                assert(lm == opt_map(ln.left).union_prefer_right(opt_map(ln.right)).insert(
                    ln.val.key(),
                    ln.val,
                ));
                assert(lm.dom().contains(ln.val.key()));
                assert forall|k: int| opt_map(ln.left).dom().contains(k) implies k
                    < val.key() by {
                    assert(lm.dom().contains(k));
                };
                assert forall|k: int| opt_map(ln.right).dom().contains(k) implies k
                    < val.key() by {
                    assert(lm.dom().contains(k));
                };
            }
            proof {
                let ln = left->0;
                assert(opt_ordered(ln.left) && opt_ordered(ln.right));
                assert(opt_heights_ok(ln.left) && opt_heights_ok(ln.right));
                assert(opt_height(left) == 1 + hmax(opt_height(ln.left), opt_height(ln.right)));
            }
            let ll_height = TreeNode::get_height(&left_node.left);
            let lr_height = TreeNode::get_height(&left_node.right);
            if ll_height > lr_height {
                let inner = TreeNode::new(val, share(&left_node.right), share(&right));
                let r = TreeNode::new(left_node.val, share(&left_node.left), inner);
                proof {
                    let ln = left->0;
                    assert forall|k: int| opt_map(inner).dom().contains(k) implies k
                        > ln.val.key() by {
                        if opt_map(ln.right).dom().contains(k) {
                        } else if rm.dom().contains(k) {
                        } else {
                            assert(k == val.key());
                        }
                    };
                    assert(opt_ordered(r));
                    assert(opt_map(r) =~= lm.union_prefer_right(rm).insert(val.key(), val));
                    if opt_balanced(left) && opt_balanced(right) && opt_height(left)
                        == opt_height(right) + 3 && opt_uneven(left) {
                        assert(opt_balanced(inner));
                        assert(opt_balanced(r));
                        assert(opt_height(r) == opt_height(left));
                    }
                }
                r
            } else {
                proof {
                    lemma_height_some(&left_node.right);
                }
                let lr_node = left_node.right.as_ref().unwrap();
                proof {
                    let ln = left->0;
                    let lrn = ln.right->0;
                    assert(opt_ordered(ln.right));
                    assert(opt_heights_ok(ln.right));
                    assert(opt_ordered(lrn.left) && opt_ordered(lrn.right));
                    assert(opt_heights_ok(lrn.left) && opt_heights_ok(lrn.right));
                    assert(opt_height(ln.right) == 1 + hmax(
                        opt_height(lrn.left),
                        opt_height(lrn.right),
                    ));
                    assert(opt_height(left) == 1 + hmax(
                        opt_height(ln.left),
                        opt_height(ln.right),
                    ));
                    assert(opt_map(ln.right) == opt_map(lrn.left).union_prefer_right(
                        opt_map(lrn.right),
                    ).insert(lrn.val.key(), lrn.val));
                    assert(opt_map(ln.right).dom().contains(lrn.val.key()));
                    assert forall|k: int| opt_map(lrn.left).dom().contains(k) implies (k
                        > ln.val.key() && k < val.key()) by {
                        assert(opt_map(ln.right).dom().contains(k));
                    };
                    assert forall|k: int| opt_map(lrn.right).dom().contains(k) implies (k
                        > lrn.val.key() && k < val.key()) by {
                        assert(opt_map(ln.right).dom().contains(k));
                    };
                }
                let a = TreeNode::new(
                    left_node.val,
                    share(&left_node.left),
                    share(&lr_node.left),
                );
                let b = TreeNode::new(val, share(&lr_node.right), share(&right));
                let r = TreeNode::new(lr_node.val, a, b);
                proof {
                    let ln = left->0;
                    let lrn = ln.right->0;
                    assert forall|k: int| opt_map(a).dom().contains(k) implies k
                        < lrn.val.key() by {
                        if opt_map(ln.left).dom().contains(k) {
                            assert(lm.dom().contains(k));
                        } else if opt_map(lrn.left).dom().contains(k) {
                        } else {
                            assert(k == ln.val.key());
                        }
                    };
                    assert forall|k: int| opt_map(b).dom().contains(k) implies k
                        > lrn.val.key() by {
                        if opt_map(lrn.right).dom().contains(k) {
                        } else if rm.dom().contains(k) {
                            assert(lm.dom().contains(lrn.val.key()));
                        } else {
                            assert(k == val.key());
                            assert(lm.dom().contains(lrn.val.key()));
                        }
                    };
                    assert(opt_ordered(r));
                    assert(opt_map(r) =~= lm.union_prefer_right(rm).insert(val.key(), val));
                    if opt_balanced(left) && opt_balanced(right) && opt_height(left)
                        == opt_height(right) + 3 && opt_uneven(left) {
                        assert(opt_balanced(ln.left) && opt_balanced(ln.right));
                        assert(opt_height(ln.left) <= opt_height(ln.right) + 2
                            && opt_height(ln.right) <= opt_height(ln.left) + 2);
                        assert(opt_balanced(lrn.left) && opt_balanced(lrn.right));
                        assert(opt_height(lrn.left) <= opt_height(lrn.right) + 2
                            && opt_height(lrn.right) <= opt_height(lrn.left) + 2);
                        assert(opt_height(ln.left) != opt_height(ln.right));
                        assert(opt_balanced(a));
                        assert(opt_balanced(b));
                        assert(opt_balanced(r));
                        assert(opt_height(r) == opt_height(left));
                    }
                }
                r
            }
        } else if right_height > left_height + BALANCE_FACTOR {
            proof {
                lemma_height_some(&right);
            }
            let right_node = right.as_ref().unwrap();
            proof {
                let rn = right->0;
                assert(rm == opt_map(rn.left).union_prefer_right(opt_map(rn.right)).insert(
                    rn.val.key(),
                    rn.val,
                ));
                assert(rm.dom().contains(rn.val.key()));
                assert forall|k: int| opt_map(rn.left).dom().contains(k) implies k
                    > val.key() by {
                    assert(rm.dom().contains(k));
                };
                assert forall|k: int| opt_map(rn.right).dom().contains(k) implies k
                    > val.key() by {
                    assert(rm.dom().contains(k));
                };
            }
            proof {
                let rn = right->0;
                assert(opt_ordered(rn.left) && opt_ordered(rn.right));
                assert(opt_heights_ok(rn.left) && opt_heights_ok(rn.right));
                assert(opt_height(right) == 1 + hmax(opt_height(rn.left), opt_height(rn.right)));
            }
            let rl_height = TreeNode::get_height(&right_node.left);
            let rr_height = TreeNode::get_height(&right_node.right);
            if rr_height > rl_height {
                let inner = TreeNode::new(val, share(&left), share(&right_node.left));
                let r = TreeNode::new(right_node.val, inner, share(&right_node.right));
                proof {
                    let rn = right->0;
                    assert forall|k: int| opt_map(inner).dom().contains(k) implies k
                        < rn.val.key() by {
                        if opt_map(rn.left).dom().contains(k) {
                        } else if lm.dom().contains(k) {
                        } else {
                            assert(k == val.key());
                        }
                    };
                    assert(opt_ordered(r));
                    assert(opt_map(r) =~= lm.union_prefer_right(rm).insert(val.key(), val));
                    if opt_balanced(left) && opt_balanced(right) && opt_height(right)
                        == opt_height(left) + 3 && opt_uneven(right) {
                        assert(opt_balanced(inner));
                        assert(opt_balanced(r));
                        assert(opt_height(r) == opt_height(right));
                    }
                }
                r
            } else {
                proof {
                    lemma_height_some(&right_node.left);
                }
                let rl_node = right_node.left.as_ref().unwrap();
                proof {
                    let rn = right->0;
                    let rln = rn.left->0;
                    assert(opt_ordered(rn.left));
                    assert(opt_heights_ok(rn.left));
                    assert(opt_ordered(rln.left) && opt_ordered(rln.right));
                    assert(opt_heights_ok(rln.left) && opt_heights_ok(rln.right));
                    assert(opt_height(rn.left) == 1 + hmax(
                        opt_height(rln.left),
                        opt_height(rln.right),
                    ));
                    assert(opt_height(right) == 1 + hmax(
                        opt_height(rn.left),
                        opt_height(rn.right),
                    ));
                    assert(opt_map(rn.left) == opt_map(rln.left).union_prefer_right(
                        opt_map(rln.right),
                    ).insert(rln.val.key(), rln.val));
                    assert(opt_map(rn.left).dom().contains(rln.val.key()));
                    assert forall|k: int| opt_map(rln.left).dom().contains(k) implies (k
                        < rln.val.key() && k > val.key()) by {
                        assert(opt_map(rn.left).dom().contains(k));
                    };
                    assert forall|k: int| opt_map(rln.right).dom().contains(k) implies (k
                        > rln.val.key() && k < rn.val.key()) by {
                        assert(opt_map(rn.left).dom().contains(k));
                    };
                }
                let a = TreeNode::new(val, share(&left), share(&rl_node.left));
                let b = TreeNode::new(
                    right_node.val,
                    share(&rl_node.right),
                    share(&right_node.right),
                );
                let r = TreeNode::new(rl_node.val, a, b);
                proof {
                    let rn = right->0;
                    let rln = rn.left->0;
                    assert forall|k: int| opt_map(a).dom().contains(k) implies k
                        < rln.val.key() by {
                        if opt_map(rln.left).dom().contains(k) {
                        } else if lm.dom().contains(k) {
                            assert(rm.dom().contains(rln.val.key()));
                        } else {
                            assert(k == val.key());
                            assert(rm.dom().contains(rln.val.key()));
                        }
                    };
                    assert forall|k: int| opt_map(b).dom().contains(k) implies k
                        > rln.val.key() by {
                        if opt_map(rln.right).dom().contains(k) {
                        } else if opt_map(rn.right).dom().contains(k) {
                            assert(rm.dom().contains(k));
                        } else {
                            assert(k == rn.val.key());
                            assert(rm.dom().contains(k));
                        }
                    };
                    assert(opt_ordered(r));
                    assert(opt_map(r) =~= lm.union_prefer_right(rm).insert(val.key(), val));
                    if opt_balanced(left) && opt_balanced(right) && opt_height(right)
                        == opt_height(left) + 3 && opt_uneven(right) {
                        assert(opt_balanced(rn.left) && opt_balanced(rn.right));
                        assert(opt_height(rn.left) <= opt_height(rn.right) + 2
                            && opt_height(rn.right) <= opt_height(rn.left) + 2);
                        assert(opt_balanced(rln.left) && opt_balanced(rln.right));
                        assert(opt_height(rln.left) <= opt_height(rln.right) + 2
                            && opt_height(rln.right) <= opt_height(rln.left) + 2);
                        assert(opt_height(rn.left) != opt_height(rn.right));
                        assert(opt_balanced(a));
                        assert(opt_balanced(b));
                        assert(opt_balanced(r));
                        assert(opt_height(r) == opt_height(right));
                    }
                }
                r
            }
        } else {
            TreeNode::new(val, left, right)
        }
    }
}

/// In-order enumeration of the values of a subtree: left subtree first, then
/// the node's value, then the right subtree.
pub closed spec fn opt_in_order<T: Orderable>(t: AvlTreeImpl<T>) -> Seq<T>
    decreases t,
{
    match t {
        None => Seq::empty(),
        Some(n) => opt_in_order(n.left) + seq![n.val] + opt_in_order(n.right),
    }
}

/// The in-order enumeration of an ordered subtree lists exactly the stored
/// values, in strictly increasing key order and hence without duplicates.
pub proof fn lemma_in_order_sorted<T: Orderable>(t: &AvlTreeImpl<T>)
    requires
        opt_ordered(*t),
    ensures
        opt_in_order(*t).len() == opt_map(*t).len(),
        forall|i: int|
            0 <= i < opt_in_order(*t).len() ==> #[trigger] opt_map(*t).dom().contains(
                opt_in_order(*t)[i].key(),
            ) && opt_in_order(*t)[i] == opt_map(*t)[opt_in_order(*t)[i].key()],
        forall|i: int, j: int|
            0 <= i < j < opt_in_order(*t).len() ==> opt_in_order(*t)[i].key() < opt_in_order(
                *t,
            )[j].key(),
    decreases *t,
{
    match t {
        None => {},
        Some(n) => {
            lemma_in_order_sorted(&n.left);
            lemma_in_order_sorted(&n.right);
            lemma_len_node(t);
            let s = opt_in_order(*t);
            let sl = opt_in_order(opt_left(*t));
            let sr = opt_in_order(opt_right(*t));
            let m = opt_map(*t);
            let lm = opt_map(opt_left(*t));
            let rm = opt_map(opt_right(*t));
            assert(s == sl + seq![n.val] + sr);
            assert forall|i: int|
                0 <= i < s.len() implies #[trigger] m.dom().contains(s[i].key()) && s[i]
                == m[s[i].key()] by {
                if i < sl.len() {
                    assert(s[i] == sl[i]);
                    assert(lm.dom().contains(sl[i].key()));
                    assert(sl[i].key() < n.val.key());
                    assert(!rm.dom().contains(sl[i].key()));
                } else if i == sl.len() {
                    assert(s[i] == n.val);
                } else {
                    assert(s[i] == sr[i - sl.len() - 1]);
                    assert(rm.dom().contains(sr[i - sl.len() - 1].key()));
                    assert(sr[i - sl.len() - 1].key() > n.val.key());
                }
            };
            assert forall|i: int, j: int|
                0 <= i < j < s.len() implies s[i].key() < s[j].key() by {
                if j < sl.len() {
                } else if i < sl.len() && j == sl.len() {
                    assert(s[i] == sl[i]);
                    assert(lm.dom().contains(sl[i].key()));
                } else if i < sl.len() {
                    assert(s[i] == sl[i]);
                    assert(s[j] == sr[j - sl.len() - 1]);
                    assert(lm.dom().contains(sl[i].key()));
                    assert(rm.dom().contains(sr[j - sl.len() - 1].key()));
                } else if i == sl.len() {
                    assert(s[j] == sr[j - sl.len() - 1]);
                    assert(rm.dom().contains(sr[j - sl.len() - 1].key()));
                } else {
                    assert(s[i] == sr[i - sl.len() - 1]);
                    assert(s[j] == sr[j - sl.len() - 1]);
                }
            };
        },
    }
}

/// Two raised to `a` never exceeds two raised to a larger exponent.
proof fn lemma_pow2_le(a: nat, b: nat)
    requires
        a <= b,
    ensures
        pow2(a) <= pow2(b),
{
    if a < b {
        lemma_pow2_strictly_increases(a, b);
    }
}

/// A balanced, ordered subtree of height `h` stores at least `2^(h / 3) - 1`
/// values, so the height grows at most logarithmically with the size.
pub proof fn lemma_balanced_len<T: Orderable>(t: &AvlTreeImpl<T>)
    requires
        opt_ordered(*t),
        opt_balanced(*t),
    ensures
        opt_map(*t).len() + 1 >= pow2(opt_height(*t) / 3),
    decreases *t,
{
    match t {
        None => {
            vstd::arithmetic::power2::lemma2_to64();
        },
        Some(n) => {
            lemma_balanced_len(&n.left);
            lemma_balanced_len(&n.right);
            lemma_len_node(t);
            let h = opt_height(*t);
            let hl = opt_height(opt_left(*t));
            let hr = opt_height(opt_right(*t));
            assert(h == 1 + hmax(hl, hr));
            if h / 3 == 0 {
                vstd::arithmetic::power2::lemma2_to64();
                assert(pow2(h / 3) == 1);
            } else {
                assert(h >= 3);
                assert(hl >= h - 3 && hr >= h - 3);
                lemma_pow2_unfold(h / 3);
                assert((h / 3 - 1) == (h - 3) as nat / 3);
                lemma_pow2_le(((h - 3) as nat) / 3, hl / 3);
                lemma_pow2_le(((h - 3) as nat) / 3, hr / 3);
                assert(pow2(h / 3) == 2 * pow2(((h - 3) as nat) / 3));
                assert(pow2(h / 3) <= pow2(hl / 3) + pow2(hr / 3));
            }
        },
    }
}

/// Persistence of inserts: every value stored before an insert is still
/// stored afterwards, and values under other keys are untouched.  Since
/// `insert` builds a new tree and never mutates its receiver, the receiver's
/// contents are unchanged by construction; this lemma states what carries
/// over into the new version.
pub proof fn lemma_insert_persists<T: Orderable>(m: Map<int, T>, val: T)
    ensures
        forall|k: int|
            m.dom().contains(k) ==> #[trigger] m.insert(val.key(), val).dom().contains(k),
        forall|k: int|
            m.dom().contains(k) && k != val.key() ==> #[trigger] m.insert(val.key(), val)[k]
                == m[k],
{
}

/// Round trip of insert and delete on the contents of a tree: an inserted
/// value is found; deleting its key afterwards removes it; and deleting a
/// key that is absent leaves the contents exactly as they were.
pub proof fn lemma_round_trip<T: Orderable>(m: Map<int, T>, val: T)
    ensures
        m.insert(val.key(), val).dom().contains(val.key()),
        m.insert(val.key(), val)[val.key()] == val,
        !m.insert(val.key(), val).remove(val.key()).dom().contains(val.key()),
        !m.dom().contains(val.key()) ==> m.insert(val.key(), val).remove(val.key()) == m,
        !m.dom().contains(val.key()) ==> m.remove(val.key()) == m,
{
    if !m.dom().contains(val.key()) {
        assert(m.insert(val.key(), val).remove(val.key()) =~= m);
        assert(m.remove(val.key()) =~= m);
    }
}

/// The externally visible tree handle: empty, or owning one root node.
/// A tree value is immutable; every operation that changes the contents
/// returns a new tree and shares all untouched subtrees with the receiver.
pub struct ImmutAvlTree<T: Orderable> {
    pub root: AvlTreeImpl<T>,
}

impl<T: Orderable> ImmutAvlTree<T> {
    /// Contents of the tree, as a map from each stored value's key to the value.
    pub closed spec fn as_map(self) -> Map<int, T> {
        opt_map(self.root)
    }

    /// Well-formedness: search-tree order holds, cached heights are correct,
    /// and size and height stay within the machine's bounds.
    pub closed spec fn wf(self) -> bool {
        &&& opt_ordered(self.root)
        &&& opt_heights_ok(self.root)
        &&& opt_map(self.root).len() <= usize::MAX
        &&& opt_height(self.root) < u32::MAX
    }

    /// Every node's subtrees differ in height by at most two.
    pub closed spec fn balanced(self) -> bool {
        opt_balanced(self.root)
    }

    /// Height of the tree: 0 when empty.
    pub closed spec fn height(self) -> nat {
        opt_height(self.root)
    }

    /// In-order enumeration of the stored values.
    pub closed spec fn in_order(self) -> Seq<T> {
        opt_in_order(self.root)
    }

    /// The empty tree.
    pub fn new() -> (r: Self)
        ensures
            r.wf(),
            r.balanced(),
            r.height() == 0,
            r.as_map() == Map::<int, T>::empty(),
    {
        ImmutAvlTree { root: None }
    }

    /// A new tree holding `val` and everything the receiver holds; a stored
    /// value with an equal key is replaced.  The receiver is unchanged.
    /// The bound on the size keeps the cached `u32` heights of the rebuilt
    /// path from overflowing: a tree never outgrows its number of values.
    pub fn insert(&self, val: T) -> (r: Self)
        requires
            self.wf(),
            self.as_map().len() + 2 <= u32::MAX,
        ensures
            r.wf(),
            r.as_map() == self.as_map().insert(val.key(), val),
            r.height() <= self.height() + 1,
            self.balanced() ==> (r.balanced() && r.height() >= self.height()),
    {
        proof {
            lemma_height_le_len(&self.root);
            lemma_map_finite(&self.root);
        }
        let root = match &self.root {
            None => TreeNode::new(val, None, None),
            Some(root) => root.do_insert(val),
        };
        let r = ImmutAvlTree { root };
        proof {
            assert(r.as_map() =~= self.as_map().insert(val.key(), val));
            lemma_height_le_len(&r.root);
            lemma_map_finite(&r.root);
        }
        r
    }

    /// A new tree without the value stored under the key of `val`; when no
    /// value has that key, the new tree has the same contents.  The receiver
    /// is unchanged.
    pub fn delete(&self, val: T) -> (r: Self)
        requires
            self.wf(),
        ensures
            r.wf(),
            r.as_map() == self.as_map().remove(val.key()),
            r.height() <= self.height(),
    {
        proof {
            lemma_map_finite(&self.root);
        }
        let root = match &self.root {
            None => None,
            Some(root) => root.do_delete(val),
        };
        let r = ImmutAvlTree { root };
        proof {
            assert(r.as_map() =~= self.as_map().remove(val.key()));
            lemma_height_le_len(&r.root);
            lemma_map_finite(&r.root);
        }
        r
    }

    /// Whether a value with the same key as `val` is stored.
    pub fn contains(&self, val: T) -> (r: bool)
        requires
            self.wf(),
        ensures
            r == self.as_map().dom().contains(val.key()),
    {
        if let Some(root) = &self.root {
            root.contains(val)
        } else {
            false
        }
    }

    /// Number of stored values, counted by a full traversal.
    pub fn size(&self) -> (r: usize)
        requires
            self.wf(),
        ensures
            r == self.as_map().len(),
    {
        if let Some(root) = &self.root {
            root.get_size()
        } else {
            0
        }
    }

    /// Borrow the stored value whose key equals the key of `val`, if any.
    pub fn get_as_ref(&self, val: T) -> (r: Option<&T>)
        requires
            self.wf(),
        ensures
            (match r {
                Some(v) => self.as_map().dom().contains(val.key()) && *v == self.as_map()[
                    val.key()
                ],
                None => !self.as_map().dom().contains(val.key()),
            }),
    {
        if let Some(root) = &self.root {
            root.get_as_ref(val)
        } else {
            None
        }
    }

    /// Order invariant: the in-order enumeration of a well-formed tree is
    /// strictly increasing by key, has no duplicates, and lists exactly the
    /// stored values.
    pub proof fn lemma_sorted(&self)
        requires
            self.wf(),
        ensures
            self.in_order().len() == self.as_map().len(),
            forall|i: int|
                0 <= i < self.in_order().len() ==> #[trigger] self.as_map().dom().contains(
                    self.in_order()[i].key(),
                ) && self.in_order()[i] == self.as_map()[self.in_order()[i].key()],
            forall|i: int, j: int|
                0 <= i < j < self.in_order().len() ==> self.in_order()[i].key()
                    < self.in_order()[j].key(),
    {
        lemma_in_order_sorted(&self.root);
    }

    /// Balance pays off: a balanced tree of height `h` holds at least
    /// `2^(h / 3) - 1` values, so the height is logarithmic in the size.
    pub proof fn lemma_logarithmic_height(&self)
        requires
            self.wf(),
            self.balanced(),
        ensures
            self.as_map().len() + 1 >= pow2(self.height() / 3),
    {
        lemma_balanced_len(&self.root);
    }
}

} // verus!
