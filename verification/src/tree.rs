//! A self-balancing (AVL) binary search tree over `u64` values.
//!
//! The tree is a recursive sum type: a node owns its value and both
//! subtrees outright. `insert` is the sole mutator; it descends by
//! comparison and rebalances every node on the way back up, so that a tree
//! that satisfies the BST and AVL invariants still satisfies them after any
//! sequence of insertions.

use vstd::prelude::*;

verus! {

/// A binary search tree: either empty (`Leaf`) or a value with two owned
/// subtrees. Kept balanced by [`TreeNode::insert`].
#[derive(Debug, PartialEq, Eq)]
pub enum TreeNode {
    Leaf,
    Node(u64, Box<TreeNode>, Box<TreeNode>),
}

impl TreeNode {
    /// Height of the tree: 0 for `Leaf`, one more than the taller subtree
    /// otherwise.
    pub open spec fn spec_height(self) -> nat
        decreases self,
    {
        match self {
            TreeNode::Leaf => 0,
            TreeNode::Node(_, left, right) => {
                1 + if left.spec_height() >= right.spec_height() {
                    left.spec_height()
                } else {
                    right.spec_height()
                }
            },
        }
    }

    /// The set of values stored in the tree.
    pub open spec fn as_set(self) -> Set<u64>
        decreases self,
    {
        match self {
            TreeNode::Leaf => Set::empty(),
            TreeNode::Node(v, left, right) => left.as_set().union(right.as_set()).insert(v),
        }
    }

    /// The in-order sequence of the tree: left subtree, value, right subtree.
    pub open spec fn as_seq(self) -> Seq<u64>
        decreases self,
    {
        match self {
            TreeNode::Leaf => Seq::empty(),
            TreeNode::Node(v, left, right) => left.as_seq() + seq![v] + right.as_seq(),
        }
    }

    /// The BST property: at every node, all values on the left are strictly
    /// smaller and all values on the right strictly greater.
    pub open spec fn spec_bst(self) -> bool
        decreases self,
    {
        match self {
            TreeNode::Leaf => true,
            TreeNode::Node(v, left, right) => {
                &&& left.spec_bst()
                &&& right.spec_bst()
                &&& forall|x: u64| left.as_set().contains(x) ==> x < v
                &&& forall|x: u64| right.as_set().contains(x) ==> x > v
            },
        }
    }

    /// Height of the left subtree minus height of the right subtree;
    /// 0 for `Leaf`.
    pub open spec fn spec_balance_factor(self) -> int {
        match self {
            TreeNode::Leaf => 0,
            TreeNode::Node(_, left, right) => left.spec_height() - right.spec_height(),
        }
    }

    /// The AVL property: at every node the subtree heights differ by at
    /// most one.
    pub open spec fn spec_balanced(self) -> bool
        decreases self,
    {
        match self {
            TreeNode::Leaf => true,
            TreeNode::Node(_, left, right) => {
                &&& -1 <= self.spec_balance_factor() <= 1
                &&& left.spec_balanced()
                &&& right.spec_balanced()
            },
        }
    }

    /// A well-formed tree: both the BST property and the AVL balance
    /// property hold everywhere.
    pub open spec fn wf(self) -> bool {
        self.spec_bst() && self.spec_balanced()
    }

    /// Every value in the tree lies strictly inside the open interval given
    /// by the optional bounds.
    pub open spec fn bounded(self, min: Option<u64>, max: Option<u64>) -> bool {
        forall|x: u64|
            self.as_set().contains(x) ==> {
                &&& (min matches Some(m) ==> m < x)
                &&& (max matches Some(m) ==> x < m)
            }
    }

    /// The tree after a left rotation: for `Node(v, l, Node(rv, rl, rr))`
    /// the result is `Node(rv, Node(v, l, rl), rr)`; a tree whose right
    /// child is empty is left unchanged.
    pub open spec fn spec_left_rotate(self) -> TreeNode {
        match self {
            TreeNode::Leaf => self,
            TreeNode::Node(v, left, right) => match *right {
                TreeNode::Leaf => self,
                TreeNode::Node(rv, rleft, rright) => TreeNode::Node(
                    rv,
                    Box::new(TreeNode::Node(v, left, rleft)),
                    rright,
                ),
            },
        }
    }

    /// The tree after a right rotation: for `Node(v, Node(lv, ll, lr), r)`
    /// the result is `Node(lv, ll, Node(v, lr, r))`; a tree whose left
    /// child is empty is left unchanged.
    pub open spec fn spec_right_rotate(self) -> TreeNode {
        match self {
            TreeNode::Leaf => self,
            TreeNode::Node(v, left, right) => match *left {
                TreeNode::Leaf => self,
                TreeNode::Node(lv, lleft, lright) => TreeNode::Node(
                    lv,
                    lleft,
                    Box::new(TreeNode::Node(v, lright, right)),
                ),
            },
        }
    }

    /// Performs a left rotation on the tree, in place. A rotation needs a
    /// non-empty right child; without one the tree is left unchanged.
    pub fn left_rotate(&mut self)
        ensures
            *final(self) == old(self).spec_left_rotate(),
    {
        let mut owned = TreeNode::Leaf;
        core::mem::swap(self, &mut owned);
        match owned {
            TreeNode::Leaf => {},
            TreeNode::Node(v, left, right) => {
                match *right {
                    TreeNode::Leaf => {
                        *self = TreeNode::Node(v, left, Box::new(TreeNode::Leaf));
                    },
                    TreeNode::Node(rv, rleft, rright) => {
                        *self = TreeNode::Node(
                            rv,
                            Box::new(TreeNode::Node(v, left, rleft)),
                            rright,
                        );
                    },
                }
            },
        }
    }

    /// Performs a right rotation on the tree, in place. A rotation needs a
    /// non-empty left child; without one the tree is left unchanged.
    pub fn right_rotate(&mut self)
        ensures
            *final(self) == old(self).spec_right_rotate(),
    {
        let mut owned = TreeNode::Leaf;
        core::mem::swap(self, &mut owned);
        match owned {
            TreeNode::Leaf => {},
            TreeNode::Node(v, left, right) => {
                match *left {
                    TreeNode::Leaf => {
                        *self = TreeNode::Node(v, Box::new(TreeNode::Leaf), right);
                    },
                    TreeNode::Node(lv, lleft, lright) => {
                        *self = TreeNode::Node(
                            lv,
                            lleft,
                            Box::new(TreeNode::Node(v, lright, right)),
                        );
                    },
                }
            },
        }
    }

    /// The tree after one application of the AVL rebalancing policy at the
    /// root: a balance factor of -2 is corrected by a left rotation
    /// (preceded by a right rotation of the right child when that child
    /// leans left-heavy by exactly one), +2 by the mirror image, and any
    /// other balance factor leaves the tree unchanged.
    pub open spec fn spec_rebalance(self) -> TreeNode {
        let bf = self.spec_balance_factor();
        if bf == -2 {
            match self {
                TreeNode::Leaf => self,
                TreeNode::Node(v, left, right) => {
                    let r2 = if right.spec_balance_factor() == 1 {
                        right.spec_right_rotate()
                    } else {
                        *right
                    };
                    TreeNode::Node(v, left, Box::new(r2)).spec_left_rotate()
                },
            }
        } else if bf == 2 {
            match self {
                TreeNode::Leaf => self,
                TreeNode::Node(v, left, right) => {
                    let l2 = if left.spec_balance_factor() == -1 {
                        left.spec_left_rotate()
                    } else {
                        *left
                    };
                    TreeNode::Node(v, Box::new(l2), right).spec_right_rotate()
                },
            }
        } else {
            self
        }
    }

    /// The tree after inserting `value`: a new node replaces an empty tree;
    /// otherwise the value descends into the subtree its order picks, and
    /// the node is rebalanced on the way back up. Inserting a value that is
    /// already present changes nothing.
    pub open spec fn spec_insert(self, value: u64) -> TreeNode
        decreases self,
    {
        match self {
            TreeNode::Leaf => TreeNode::Node(
                value,
                Box::new(TreeNode::Leaf),
                Box::new(TreeNode::Leaf),
            ),
            TreeNode::Node(v, left, right) => {
                if value < v {
                    TreeNode::Node(v, Box::new(left.spec_insert(value)), right).spec_rebalance()
                } else if value > v {
                    TreeNode::Node(v, left, Box::new(right.spec_insert(value))).spec_rebalance()
                } else {
                    self.spec_rebalance()
                }
            },
        }
    }

    /// Computes the balance factor of the tree: the height of the left
    /// subtree minus the height of the right subtree.
    fn balance_factor(&self) -> (bf: i32)
        requires
            self.spec_height() <= (i32::MAX as int),
        ensures
            bf as int == self.spec_balance_factor(),
    {
        match self {
            TreeNode::Leaf => 0,
            TreeNode::Node(_, left, right) => {
                let lh = left.height();
                let rh = right.height();
                (lh as i32) - (rh as i32)
            },
        }
    }

    /// Rebalances the root of the tree with a single or double rotation, as
    /// the AVL policy prescribes; a tree whose balance factor is not ±2 is
    /// left unchanged.
    fn rebalance(&mut self)
        requires
            old(self).spec_height() <= (i32::MAX as int),
        ensures
            *final(self) == old(self).spec_rebalance(),
    {
        let bf = self.balance_factor();
        if bf == -2 {
            let mut owned = TreeNode::Leaf;
            core::mem::swap(self, &mut owned);
            match owned {
                TreeNode::Leaf => {
                    proof {
                        assert(false);
                    }
                },
                TreeNode::Node(v, left, mut right) => {
                    let rbf = (&*right).balance_factor();
                    if rbf == 1 {
                        (&mut *right).right_rotate();
                    }
                    *self = TreeNode::Node(v, left, right);
                    self.left_rotate();
                },
            }
        } else if bf == 2 {
            let mut owned = TreeNode::Leaf;
            core::mem::swap(self, &mut owned);
            match owned {
                TreeNode::Leaf => {
                    proof {
                        assert(false);
                    }
                },
                TreeNode::Node(v, mut left, right) => {
                    let lbf = (&*left).balance_factor();
                    if lbf == -1 {
                        (&mut *left).left_rotate();
                    }
                    *self = TreeNode::Node(v, left, right);
                    self.right_rotate();
                },
            }
        }
    }

    /// Computes the height of the tree.
    pub fn height(&self) -> (h: usize)
        requires
            self.spec_height() <= usize::MAX,
        ensures
            h == self.spec_height(),
        decreases *self,
    {
        match self {
            TreeNode::Leaf => 0,
            TreeNode::Node(_, left, right) => {
                let lh = left.height();
                let rh = right.height();
                1 + if lh >= rh {
                    lh
                } else {
                    rh
                }
            },
        }
    }

    /// Inserts `value` into the tree, rebalancing on the way back up. If the
    /// value is already present the tree is left as it was.
    ///
    /// The height bound in the precondition keeps every balance factor
    /// computed along the way within `i32`; any tree that fits in memory
    /// satisfies it.
    pub fn insert(&mut self, value: u64)
        requires
            old(self).spec_height() + 1 <= (i32::MAX as int),
        ensures
            *final(self) == old(self).spec_insert(value),
            old(self).wf() ==> final(self).wf(),
            old(self).wf() ==> final(self).as_set() == old(self).as_set().insert(value),
            old(self).wf() ==> old(self).spec_height() <= final(self).spec_height() <= old(
                self,
            ).spec_height() + 1,
            old(self).wf() && old(self).as_set().contains(value) ==> *final(self) == *old(self),
        decreases *old(self),
    {
        proof {
            if old(self).wf() {
                lemma_insert_wf(*old(self), value);
                if old(self).as_set().contains(value) {
                    lemma_insert_duplicate(*old(self), value);
                }
            }
        }
        let mut owned = TreeNode::Leaf;
        core::mem::swap(self, &mut owned);
        match owned {
            TreeNode::Leaf => {
                *self = TreeNode::Node(value, Box::new(TreeNode::Leaf), Box::new(TreeNode::Leaf));
            },
            TreeNode::Node(v, mut left, mut right) => {
                if value < v {
                    let ghost l0 = *left;
                    (&mut *left).insert(value);
                    proof {
                        lemma_insert_height(l0, value);
                    }
                } else if value > v {
                    let ghost r0 = *right;
                    (&mut *right).insert(value);
                    proof {
                        lemma_insert_height(r0, value);
                    }
                }
                let mut node = TreeNode::Node(v, left, right);
                node.rebalance();
                *self = node;
            },
        }
    }

    /// Range check behind [`TreeNode::is_bst`]: decides whether the tree is
    /// a binary search tree whose values all lie strictly between the
    /// optional bounds.
    fn is_bst_in(tree: &TreeNode, min: Option<u64>, max: Option<u64>) -> (r: bool)
        ensures
            r == (tree.spec_bst() && tree.bounded(min, max)),
        decreases *tree,
    {
        match tree {
            TreeNode::Leaf => true,
            TreeNode::Node(v, left, right) => {
                proof {
                    assert(tree.as_set().contains(*v));
                }
                if let Some(m) = min {
                    if *v <= m {
                        return false;
                    }
                }
                if let Some(m) = max {
                    if *v >= m {
                        return false;
                    }
                }
                let left_ok = Self::is_bst_in(left, min, Some(*v));
                let r = left_ok && Self::is_bst_in(right, Some(*v), max);
                proof {
                    if tree.spec_bst() && tree.bounded(min, max) {
                        assert forall|x: u64| left.as_set().contains(x) implies {
                            &&& (min matches Some(m) ==> m < x)
                            &&& (x < *v)
                        } by {
                            assert(tree.as_set().contains(x));
                        }
                        assert forall|x: u64| right.as_set().contains(x) implies {
                            &&& (*v < x)
                            &&& (max matches Some(m) ==> x < m)
                        } by {
                            assert(tree.as_set().contains(x));
                        }
                    }
                    if r {
                        assert forall|x: u64| tree.as_set().contains(x) implies {
                            &&& (min matches Some(m) ==> m < x)
                            &&& (max matches Some(m) ==> x < m)
                        } by {
                            if left.as_set().contains(x) {
                            } else if right.as_set().contains(x) {
                            } else {
                                assert(x == *v);
                            }
                        }
                    }
                }
                r
            },
        }
    }

    /// Decides whether the tree is a binary search tree.
    fn is_bst(&self) -> (r: bool)
        ensures
            r == self.spec_bst(),
    {
        Self::is_bst_in(self, None, None)
    }

    /// Decides whether the tree satisfies the AVL balance property at every
    /// node.
    pub fn is_balanced(&self) -> (r: bool)
        requires
            self.spec_height() <= usize::MAX,
        ensures
            r == self.spec_balanced(),
        decreases *self,
    {
        match self {
            TreeNode::Leaf => true,
            TreeNode::Node(_, left, right) => {
                let lh = left.height();
                let rh = right.height();
                let diff = if lh >= rh {
                    lh - rh
                } else {
                    rh - lh
                };
                diff <= 1 && left.is_balanced() && right.is_balanced()
            },
        }
    }

    /// Decides whether the tree is a valid balanced binary search tree:
    /// the BST property and the AVL balance property both hold.
    pub fn validate(&self) -> (r: bool)
        requires
            self.spec_height() <= usize::MAX,
        ensures
            r == self.wf(),
    {
        self.is_bst() && self.is_balanced()
    }

    /// Creates a new node with the given value and children.
    pub fn node(value: u64, left: TreeNode, right: TreeNode) -> (t: TreeNode)
        ensures
            t == TreeNode::Node(value, Box::new(left), Box::new(right)),
    {
        TreeNode::Node(value, Box::new(left), Box::new(right))
    }

    /// Creates a new empty tree.
    pub fn new() -> (t: TreeNode)
        ensures
            t == TreeNode::Leaf,
    {
        TreeNode::Leaf
    }

    /// The tree that inserting the elements of `s` in order into an empty
    /// tree produces.
    pub open spec fn spec_from_seq(s: Seq<u64>) -> TreeNode
        decreases s.len(),
    {
        if s.len() == 0 {
            TreeNode::Leaf
        } else {
            TreeNode::spec_from_seq(s.drop_last()).spec_insert(s.last())
        }
    }

    /// Builds a tree by inserting the values in order. The result is a
    /// well-formed tree holding exactly the distinct values of the input;
    /// duplicates are dropped, the first occurrence winning.
    pub fn from_vec(values: Vec<u64>) -> (t: TreeNode)
        requires
            values@.len() + 1 <= (i32::MAX as int),
        ensures
            t == TreeNode::spec_from_seq(values@),
            t.wf(),
            t.as_set() == values@.to_set(),
            t.spec_height() <= values@.len(),
    {
        let mut t = TreeNode::new();
        let mut i: usize = 0;
        while i < values.len()
            invariant
                i <= values@.len(),
                values@.len() + 1 <= (i32::MAX as int),
                t == TreeNode::spec_from_seq(values@.take(i as int)),
                t.wf(),
                t.as_set() == values@.take(i as int).to_set(),
                t.spec_height() <= i,
            decreases values@.len() - i,
        {
            let v = values[i];
            t.insert(v);
            proof {
                assert(values@.take(i + 1) == values@.take(i as int).push(v)) by {
                    assert(values@.take(i + 1) =~= values@.take(i as int).push(v));
                }
                assert(values@.take(i + 1).drop_last() == values@.take(i as int));
                Seq::lemma_push_to_set_commute(values@.take(i as int), v);
                assert(values@.take(i + 1).to_set() == values@.take(i as int).to_set().insert(v));
            }
            i += 1;
        }
        proof {
            assert(values@.take(values@.len() as int) == values@);
        }
        t
    }

    /// Flattens the tree into its in-order sequence, consuming it. For a
    /// well-formed tree the result is sorted ascending with no duplicates.
    pub fn into_vec(self) -> (out: Vec<u64>)
        ensures
            out@ == self.as_seq(),
    {
        let mut out = Vec::new();
        let ghost t = self;
        Self::append_in_order(self, &mut out);
        proof {
            assert(Seq::<u64>::empty() + t.as_seq() =~= t.as_seq());
        }
        out
    }

    /// Appends the in-order sequence of `t` to `out`.
    fn append_in_order(t: TreeNode, out: &mut Vec<u64>)
        ensures
            final(out)@ == old(out)@ + t.as_seq(),
        decreases t,
    {
        match t {
            TreeNode::Leaf => {
                proof {
                    assert(old(out)@ + TreeNode::Leaf.as_seq() =~= old(out)@);
                }
            },
            TreeNode::Node(v, left, right) => {
                Self::append_in_order(*left, out);
                out.push(v);
                Self::append_in_order(*right, out);
                proof {
                    assert(old(out)@ + t.as_seq() =~= ((old(out)@
                        + left.as_seq()).push(v)) + right.as_seq());
                }
            },
        }
    }
}

/// A left rotation keeps the contents and the in-order sequence of the
/// tree, and preserves the BST property.
proof fn lemma_left_rotate_preserves(t: TreeNode)
    ensures
        t.spec_left_rotate().as_set() == t.as_set(),
        t.spec_left_rotate().as_seq() == t.as_seq(),
        t.spec_bst() ==> t.spec_left_rotate().spec_bst(),
{
    reveal_with_fuel(TreeNode::as_set, 3);
    reveal_with_fuel(TreeNode::as_seq, 3);
    reveal_with_fuel(TreeNode::spec_bst, 3);
    match t {
        TreeNode::Leaf => {},
        TreeNode::Node(v, l, r) => match *r {
            TreeNode::Leaf => {},
            TreeNode::Node(rv, rl, rr) => {
                let res = t.spec_left_rotate();
                let inner = TreeNode::Node(v, l, rl);
                assert(res.as_set() =~= t.as_set());
                assert(res.as_seq() =~= t.as_seq());
                if t.spec_bst() {
                    assert((*r).as_set().contains(rv));
                    assert forall|x: u64| rl.as_set().contains(x) implies x > v by {
                        assert((*r).as_set().contains(x));
                    }
                    assert forall|x: u64| inner.as_set().contains(x) implies x < rv by {
                        assert((*r).as_set().contains(rv));
                        if l.as_set().contains(x) {
                            assert(x < v);
                        } else if rl.as_set().contains(x) {
                            assert((*r).as_set().contains(x));
                        } else {
                            assert(x == v);
                        }
                    }
                    assert(inner.spec_bst());
                    assert(res.spec_bst());
                }
            },
        },
    }
}

/// A right rotation keeps the contents and the in-order sequence of the
/// tree, and preserves the BST property.
proof fn lemma_right_rotate_preserves(t: TreeNode)
    ensures
        t.spec_right_rotate().as_set() == t.as_set(),
        t.spec_right_rotate().as_seq() == t.as_seq(),
        t.spec_bst() ==> t.spec_right_rotate().spec_bst(),
{
    reveal_with_fuel(TreeNode::as_set, 3);
    reveal_with_fuel(TreeNode::as_seq, 3);
    reveal_with_fuel(TreeNode::spec_bst, 3);
    match t {
        TreeNode::Leaf => {},
        TreeNode::Node(v, l, r) => match *l {
            TreeNode::Leaf => {},
            TreeNode::Node(lv, ll, lr) => {
                let res = t.spec_right_rotate();
                let inner = TreeNode::Node(v, lr, r);
                assert(res.as_set() =~= t.as_set());
                assert(res.as_seq() =~= t.as_seq());
                if t.spec_bst() {
                    assert((*l).as_set().contains(lv));
                    assert forall|x: u64| lr.as_set().contains(x) implies x < v by {
                        assert((*l).as_set().contains(x));
                    }
                    assert forall|x: u64| inner.as_set().contains(x) implies x > lv by {
                        assert((*l).as_set().contains(lv));
                        if r.as_set().contains(x) {
                            assert(x > v);
                        } else if lr.as_set().contains(x) {
                            assert((*l).as_set().contains(x));
                        } else {
                            assert(x == v);
                        }
                    }
                    assert(inner.spec_bst());
                    assert(res.spec_bst());
                }
            },
        },
    }
}

/// Rebalancing keeps the contents and the in-order sequence of the tree,
/// and preserves the BST property.
proof fn lemma_rebalance_preserves(t: TreeNode)
    ensures
        t.spec_rebalance().as_set() == t.as_set(),
        t.spec_rebalance().as_seq() == t.as_seq(),
        t.spec_bst() ==> t.spec_rebalance().spec_bst(),
{
    let bf = t.spec_balance_factor();
    if bf == -2 {
        match t {
            TreeNode::Leaf => {},
            TreeNode::Node(v, l, r) => {
                let r2 = if r.spec_balance_factor() == 1 {
                    r.spec_right_rotate()
                } else {
                    *r
                };
                lemma_right_rotate_preserves(*r);
                let mid = TreeNode::Node(v, l, Box::new(r2));
                assert(mid.as_set() =~= t.as_set());
                assert(mid.as_seq() == t.as_seq());
                lemma_left_rotate_preserves(mid);
                if t.spec_bst() {
                    assert(mid.spec_bst());
                }
            },
        }
    } else if bf == 2 {
        match t {
            TreeNode::Leaf => {},
            TreeNode::Node(v, l, r) => {
                let l2 = if l.spec_balance_factor() == -1 {
                    l.spec_left_rotate()
                } else {
                    *l
                };
                lemma_left_rotate_preserves(*l);
                let mid = TreeNode::Node(v, Box::new(l2), r);
                assert(mid.as_set() =~= t.as_set());
                assert(mid.as_seq() == t.as_seq());
                lemma_right_rotate_preserves(mid);
                if t.spec_bst() {
                    assert(mid.spec_bst());
                }
            },
        }
    }
}

/// Under the conditions a single insertion creates — both children
/// balanced, balance factor within ±2 — rebalancing restores the AVL
/// property at the root, and a rotation (balance factor exactly ±2)
/// shrinks the height by at most one.
proof fn lemma_rebalance_restores(t: TreeNode)
    requires
        match t {
            TreeNode::Leaf => true,
            TreeNode::Node(_, left, right) => left.spec_balanced() && right.spec_balanced(),
        },
        -2 <= t.spec_balance_factor() <= 2,
    ensures
        t.spec_rebalance().spec_balanced(),
        t.spec_balance_factor() == 2 || t.spec_balance_factor() == -2 ==> t.spec_height() - 1
            <= t.spec_rebalance().spec_height() <= t.spec_height(),
{
    reveal_with_fuel(TreeNode::spec_height, 5);
    reveal_with_fuel(TreeNode::spec_balanced, 5);
    let bf = t.spec_balance_factor();
    if bf == -2 {
        match t {
            TreeNode::Leaf => {
                assert(false);
            },
            TreeNode::Node(v, l, r) => match *r {
                TreeNode::Leaf => {
                    assert(false);
                },
                TreeNode::Node(rv, rl, rr) => {
                    if r.spec_balance_factor() == 1 {
                        match *rl {
                            TreeNode::Leaf => {
                                assert(false);
                            },
                            TreeNode::Node(rlv, rll, rlr) => {
                                let res = t.spec_rebalance();
                                assert(res == TreeNode::Node(
                                    rlv,
                                    Box::new(TreeNode::Node(v, l, rll)),
                                    Box::new(TreeNode::Node(rv, rlr, rr)),
                                ));
                                assert(res.spec_balanced());
                                assert(res.spec_height() == t.spec_height() - 1);
                            },
                        }
                    } else {
                        let res = t.spec_rebalance();
                        assert(res == TreeNode::Node(
                            rv,
                            Box::new(TreeNode::Node(v, l, rl)),
                            rr,
                        ));
                        assert(res.spec_balanced());
                        assert(t.spec_height() - 1 <= res.spec_height() <= t.spec_height());
                    }
                },
            },
        }
    } else if bf == 2 {
        match t {
            TreeNode::Leaf => {
                assert(false);
            },
            TreeNode::Node(v, l, r) => match *l {
                TreeNode::Leaf => {
                    assert(false);
                },
                TreeNode::Node(lv, ll, lr) => {
                    if l.spec_balance_factor() == -1 {
                        match *lr {
                            TreeNode::Leaf => {
                                assert(false);
                            },
                            TreeNode::Node(lrv, lrl, lrr) => {
                                let res = t.spec_rebalance();
                                assert(res == TreeNode::Node(
                                    lrv,
                                    Box::new(TreeNode::Node(lv, ll, lrl)),
                                    Box::new(TreeNode::Node(v, lrr, r)),
                                ));
                                assert(res.spec_balanced());
                                assert(res.spec_height() == t.spec_height() - 1);
                            },
                        }
                    } else {
                        let res = t.spec_rebalance();
                        assert(res == TreeNode::Node(
                            lv,
                            ll,
                            Box::new(TreeNode::Node(v, lr, r)),
                        ));
                        assert(res.spec_balanced());
                        assert(t.spec_height() - 1 <= res.spec_height() <= t.spec_height());
                    }
                },
            },
        }
    }
}

/// Rebalancing never increases the height of the tree.
proof fn lemma_rebalance_height(t: TreeNode)
    ensures
        t.spec_rebalance().spec_height() <= t.spec_height(),
{
    reveal_with_fuel(TreeNode::spec_height, 4);
    let bf = t.spec_balance_factor();
    if bf == -2 {
        match t {
            TreeNode::Leaf => {},
            TreeNode::Node(v, left, right) => {
                match *right {
                    TreeNode::Leaf => {
                        assert(false);
                    },
                    TreeNode::Node(rv, rl, rr) => {
                        if right.spec_balance_factor() == 1 {
                            match *rl {
                                TreeNode::Leaf => {
                                    assert(false);
                                },
                                TreeNode::Node(rlv, rll, rlr) => {},
                            }
                        }
                    },
                }
            },
        }
    } else if bf == 2 {
        match t {
            TreeNode::Leaf => {},
            TreeNode::Node(v, left, right) => {
                match *left {
                    TreeNode::Leaf => {
                        assert(false);
                    },
                    TreeNode::Node(lv, ll, lr) => {
                        if left.spec_balance_factor() == -1 {
                            match *lr {
                                TreeNode::Leaf => {
                                    assert(false);
                                },
                                TreeNode::Node(lrv, lrl, lrr) => {},
                            }
                        }
                    },
                }
            },
        }
    }
}

/// Inserting one value grows the height of the tree by at most one.
proof fn lemma_insert_height(t: TreeNode, value: u64)
    ensures
        t.spec_insert(value).spec_height() <= t.spec_height() + 1,
    decreases t,
{
    reveal_with_fuel(TreeNode::spec_height, 2);
    match t {
        TreeNode::Leaf => {},
        TreeNode::Node(v, left, right) => {
            if value < v {
                lemma_insert_height(*left, value);
                lemma_rebalance_height(
                    TreeNode::Node(v, Box::new(left.spec_insert(value)), right),
                );
            } else if value > v {
                lemma_insert_height(*right, value);
                lemma_rebalance_height(
                    TreeNode::Node(v, left, Box::new(right.spec_insert(value))),
                );
            } else {
                lemma_rebalance_height(t);
            }
        },
    }
}

/// Invariant preservation: inserting into a well-formed tree yields a
/// well-formed tree that holds the old values plus the new one, and the
/// height never shrinks and grows by at most one.
pub proof fn lemma_insert_wf(t: TreeNode, value: u64)
    requires
        t.wf(),
    ensures
        t.spec_insert(value).wf(),
        t.spec_insert(value).as_set() == t.as_set().insert(value),
        t.spec_height() <= t.spec_insert(value).spec_height() <= t.spec_height() + 1,
    decreases t,
{
    reveal_with_fuel(TreeNode::spec_height, 3);
    reveal_with_fuel(TreeNode::as_set, 3);
    reveal_with_fuel(TreeNode::spec_bst, 3);
    reveal_with_fuel(TreeNode::spec_balanced, 3);
    match t {
        TreeNode::Leaf => {
            assert(t.spec_insert(value).as_set() =~= t.as_set().insert(value));
        },
        TreeNode::Node(v, l, r) => {
            if value < v {
                lemma_insert_wf(*l, value);
                let l2 = l.spec_insert(value);
                let mid = TreeNode::Node(v, Box::new(l2), r);
                assert forall|x: u64| l2.as_set().contains(x) implies x < v by {
                    if x != value {
                        assert(l.as_set().contains(x));
                    }
                }
                assert(mid.spec_bst());
                lemma_rebalance_restores(mid);
                lemma_rebalance_preserves(mid);
                assert(t.spec_insert(value) == mid.spec_rebalance());
                assert(mid.as_set() =~= t.as_set().insert(value));
            } else if value > v {
                lemma_insert_wf(*r, value);
                let r2 = r.spec_insert(value);
                let mid = TreeNode::Node(v, l, Box::new(r2));
                assert forall|x: u64| r2.as_set().contains(x) implies x > v by {
                    if x != value {
                        assert(r.as_set().contains(x));
                    }
                }
                assert(mid.spec_bst());
                lemma_rebalance_restores(mid);
                lemma_rebalance_preserves(mid);
                assert(t.spec_insert(value) == mid.spec_rebalance());
                assert(mid.as_set() =~= t.as_set().insert(value));
            } else {
                assert(t.spec_rebalance() == t);
                assert(t.as_set().insert(value) =~= t.as_set());
            }
        },
    }
}

/// Invariant preservation over whole insertion histories: a tree built by
/// any finite sequence of insertions into an empty tree is well-formed, so
/// `validate` holds after every single insertion along the way.
pub proof fn lemma_from_seq_wf(s: Seq<u64>)
    ensures
        TreeNode::spec_from_seq(s).wf(),
    decreases s.len(),
{
    if s.len() > 0 {
        lemma_from_seq_wf(s.drop_last());
        lemma_insert_wf(TreeNode::spec_from_seq(s.drop_last()), s.last());
    }
}

/// No-op duplicate: inserting a value that the well-formed tree already
/// holds leaves the tree exactly as it was.
pub proof fn lemma_insert_duplicate(t: TreeNode, value: u64)
    requires
        t.wf(),
        t.as_set().contains(value),
    ensures
        t.spec_insert(value) == t,
    decreases t,
{
    match t {
        TreeNode::Leaf => {},
        TreeNode::Node(v, l, r) => {
            assert(t.spec_rebalance() == t);
            if value < v {
                assert(l.as_set().contains(value)) by {
                    if r.as_set().contains(value) {
                        assert(false);
                    }
                }
                lemma_insert_duplicate(*l, value);
                assert(TreeNode::Node(v, Box::new(l.spec_insert(value)), r) == t);
            } else if value > v {
                assert(r.as_set().contains(value)) by {
                    if l.as_set().contains(value) {
                        assert(false);
                    }
                }
                lemma_insert_duplicate(*r, value);
                assert(TreeNode::Node(v, l, Box::new(r.spec_insert(value))) == t);
            }
        },
    }
}

/// Round trip: the in-order sequence of a binary search tree is strictly
/// increasing and holds exactly the tree's values, with no duplicates. So
/// building a tree from any input and flattening it yields the sorted,
/// deduplicated sequence of the input's values.
pub proof fn lemma_bst_in_order(t: TreeNode)
    requires
        t.spec_bst(),
    ensures
        forall|i: int, j: int|
            0 <= i < j < t.as_seq().len() ==> t.as_seq()[i] < t.as_seq()[j],
        forall|x: u64| #[trigger] t.as_seq().contains(x) <==> t.as_set().contains(x),
        t.as_seq().no_duplicates(),
    decreases t,
{
    match t {
        TreeNode::Leaf => {},
        TreeNode::Node(v, l, r) => {
            lemma_bst_in_order(*l);
            lemma_bst_in_order(*r);
            let s = t.as_seq();
            let ls = l.as_seq();
            let rs = r.as_seq();
            let nl = ls.len() as int;
            assert(s == ls + seq![v] + rs);
            assert(s[nl] == v);
            assert forall|x: u64| t.as_set().contains(x) implies s.contains(x) by {
                if l.as_set().contains(x) {
                    assert(ls.contains(x));
                    let i = choose|i: int| 0 <= i < ls.len() && ls[i] == x;
                    assert(s[i] == x);
                } else if r.as_set().contains(x) {
                    assert(rs.contains(x));
                    let i = choose|i: int| 0 <= i < rs.len() && rs[i] == x;
                    assert(s[nl + 1 + i] == x);
                } else {
                    assert(s[nl] == x);
                }
            }
            assert forall|x: u64| s.contains(x) implies t.as_set().contains(x) by {
                let i = choose|i: int| 0 <= i < s.len() && s[i] == x;
                if i < nl {
                    assert(ls[i] == x);
                    assert(ls.contains(x));
                } else if i > nl {
                    assert(rs[i - nl - 1] == x);
                    assert(rs.contains(x));
                }
            }
            assert forall|i: int, j: int| 0 <= i < j < s.len() implies s[i] < s[j] by {
                if j < nl {
                    assert(s[i] == ls[i] && s[j] == ls[j]);
                } else if i > nl {
                    assert(s[i] == rs[i - nl - 1] && s[j] == rs[j - nl - 1]);
                } else {
                    if i < nl {
                        assert(ls.contains(ls[i]));
                        assert(l.as_set().contains(s[i]));
                        assert(s[i] < v);
                    }
                    if j > nl {
                        assert(rs.contains(rs[j - nl - 1]));
                        assert(r.as_set().contains(s[j]));
                        assert(v < s[j]);
                    }
                }
            }
            assert forall|i: int, j: int|
                0 <= i < s.len() && 0 <= j < s.len() && i != j implies s[i] != s[j] by {
                if i < j {
                    assert(s[i] < s[j]);
                } else {
                    assert(s[j] < s[i]);
                }
            }
        },
    }
}

/// The fewest values a balanced tree of height `h` can hold: 0 for height
/// 0, 1 for height 1, and `1 + min_size(h - 1) + min_size(h - 2)` above
/// that — the Fibonacci-style AVL lower bound. It grows exponentially in
/// `h`, so [`lemma_height_bound`] bounds the height of a balanced tree
/// logarithmically in the number of values it holds.
pub open spec fn min_size(h: nat) -> nat
    decreases h,
{
    if h == 0 {
        0
    } else if h == 1 {
        1
    } else {
        1 + min_size((h - 1) as nat) + min_size((h - 2) as nat)
    }
}

/// A tree of greater height can never be forced below the minimum size of
/// a smaller one: `min_size` is monotone.
proof fn lemma_min_size_mono(a: nat, b: nat)
    requires
        a <= b,
    ensures
        min_size(a) <= min_size(b),
    decreases b,
{
    if a < b && b >= 2 {
        lemma_min_size_mono(a, (b - 1) as nat);
    }
}

/// Height bound: a balanced tree of height `h` holds at least
/// `min_size(h)` values, the AVL worst-case relation between height and
/// size.
pub proof fn lemma_height_bound(t: TreeNode)
    requires
        t.spec_balanced(),
    ensures
        t.as_seq().len() >= min_size(t.spec_height()),
    decreases t,
{
    match t {
        TreeNode::Leaf => {},
        TreeNode::Node(v, l, r) => {
            lemma_height_bound(*l);
            lemma_height_bound(*r);
            let h = t.spec_height();
            let hl = l.spec_height();
            let hr = r.spec_height();
            assert(t.as_seq().len() == l.as_seq().len() + 1 + r.as_seq().len());
            if hl >= hr {
                assert(h == hl + 1);
                assert(hr >= h - 2);
                if h >= 2 {
                    lemma_min_size_mono((h - 2) as nat, hr);
                    assert(min_size(h) == 1 + min_size((h - 1) as nat) + min_size(
                        (h - 2) as nat,
                    ));
                }
            } else {
                assert(h == hr + 1);
                assert(hl >= h - 2);
                if h >= 2 {
                    lemma_min_size_mono((h - 2) as nat, hl);
                    assert(min_size(h) == 1 + min_size((h - 1) as nat) + min_size(
                        (h - 2) as nat,
                    ));
                }
            }
        },
    }
}

impl Clone for TreeNode {
    /// Clones the tree; the copy equals the original.
    fn clone(&self) -> (t: Self)
        ensures
            t == *self,
        decreases *self,
    {
        match self {
            TreeNode::Leaf => TreeNode::Leaf,
            TreeNode::Node(v, left, right) => TreeNode::Node(
                *v,
                Box::new((&**left).clone()),
                Box::new((&**right).clone()),
            ),
        }
    }
}

impl Default for TreeNode {
    /// The default tree is empty.
    fn default() -> (t: Self)
        ensures
            t == TreeNode::Leaf,
    {
        TreeNode::Leaf
    }
}

} // verus!
