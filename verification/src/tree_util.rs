use vstd::prelude::*;

use crate::behaviour_laws::{all_undecided, lemma_insert_decides_nothing};
use crate::tree_laws::{lemma_insert_leaves, lemma_match_count};

verus! {

/// The outcome of one match: which side won, or not decided yet.
#[derive(Debug, Clone, Copy, PartialEq, Eq, Structural)]
pub enum Decision {
    Undef,
    Left,
    Right,
}

/// One step down the tree from a node to one of its children.
#[derive(Debug, Clone, Copy, PartialEq, Eq, Structural)]
pub enum Side {
    Left,
    Right,
}

/// A node of the tournament tree.
///
/// A leaf carries the path of one candidate image and has no children;
/// a branch (`path` is `None`) is a match between the winners of its two
/// subtrees. `depth` is the height of the subtree rooted here (a leaf has
/// depth 1) and `opt` is the sequence number of the candidate that created
/// the node.
#[derive(Debug)]
pub struct Node {
    pub path: Option<String>,
    pub left: Option<Box<Node>>,
    pub right: Option<Box<Node>>,
    pub depth: usize,
    pub decision: Decision,
    pub opt: isize,
}

/// The height of an optional subtree (0 for an absent one).
pub open spec fn opt_height(n: Option<Box<Node>>) -> nat
    decreases n,
{
    match n {
        None => 0,
        Some(b) => b.height(),
    }
}

/// The depth field of an optional subtree (0 for an absent one).
pub open spec fn opt_depth(n: Option<Box<Node>>) -> int {
    match n {
        None => 0,
        Some(b) => b.depth as int,
    }
}

/// The depth field of an optional subtree (0 for an absent one) converted
/// to `isize` as `as` does.
pub open spec fn depth_as_isize(n: Option<Box<Node>>) -> isize {
    (opt_depth(n) as usize) as isize
}

/// The larger of two naturals.
pub open spec fn max_nat(a: nat, b: nat) -> nat {
    if a < b { b } else { a }
}

impl Node {
    /// The height of the subtree rooted at this node.
    pub open spec fn height(self) -> nat
        decreases self,
    {
        1 + max_nat(opt_height(self.left), opt_height(self.right))
    }

    /// Well-formedness of a tournament tree: every node stores its height,
    /// leaves have no children, branches have two well-formed children whose
    /// heights differ by at most one.
    pub open spec fn wf(self) -> bool
        decreases self,
    {
        &&& self.depth == self.height()
        &&& match self.path {
            Some(_) => self.left is None && self.right is None,
            None => match (self.left, self.right) {
                (Some(l), Some(r)) => {
                    &&& l.wf()
                    &&& r.wf()
                    &&& l.height() <= r.height() + 1
                    &&& r.height() <= l.height() + 1
                },
                _ => false,
            },
        }
    }

    /// Sets the decision of this match; nothing else changes.
    pub fn set_decision(&mut self, d: Decision)
        ensures
            *final(self) == (Node { decision: d, ..*old(self) }),
    {
        self.decision = d;
    }

    /// A new leaf for the candidate `path` with sequence number `opt`.
    pub fn new_leaf(path: String, opt: isize) -> (res: Node)
        ensures
            res == (Node {
                path: Some(path),
                left: None,
                right: None,
                depth: 1,
                decision: Decision::Undef,
                opt: opt,
            }),
            res.wf(),
    {
        Node { path: Some(path), left: None, right: None, depth: 1, decision: Decision::Undef, opt: opt }
    }

    /// The depth field of an optional node, 0 when absent.
    pub fn depth(node: &Option<Box<Node>>) -> (res: usize)
        ensures
            res == opt_depth(*node),
    {
        match node {
            Some(n) => n.depth,
            None => 0,
        }
    }

    /// Recomputes this node's depth from its children's depth fields.
    pub fn update_depth(&mut self)
        requires
            opt_depth(old(self).left) < usize::MAX,
            opt_depth(old(self).right) < usize::MAX,
        ensures
            *final(self) == (Node {
                depth: (1 + if opt_depth(old(self).left) < opt_depth(old(self).right) {
                    opt_depth(old(self).right)
                } else {
                    opt_depth(old(self).left)
                }) as usize,
                ..*old(self)
            }),
    {
        let l = Self::depth(&self.left);
        let r = Self::depth(&self.right);
        self.depth = 1 + if l < r { r } else { l };
    }

    /// The depth of the left child minus the depth of the right child, each
    /// converted to `isize` as `as` does (0 for an absent child); the
    /// subtraction must not overflow.
    pub fn balance_factor(&self) -> (res: isize)
        requires
            isize::MIN <= depth_as_isize(self.left) - depth_as_isize(self.right) <= isize::MAX,
        ensures
            res == depth_as_isize(self.left) - depth_as_isize(self.right),
            opt_depth(self.left) <= isize::MAX && opt_depth(self.right) <= isize::MAX ==> res
                == opt_depth(self.left) - opt_depth(self.right),
    {
        Self::depth(&self.left) as isize - Self::depth(&self.right) as isize
    }
}


/// The candidate paths held by the leaves of an optional subtree, left to right.
pub open spec fn opt_leaves(n: Option<Box<Node>>) -> Seq<Seq<char>>
    decreases n,
{
    match n {
        None => Seq::empty(),
        Some(b) => b.leaves(),
    }
}

/// The path a node holds itself, as a sequence of zero or one paths.
pub open spec fn own_leaf(n: Node) -> Seq<Seq<char>> {
    match n.path {
        Some(p) => seq![p@],
        None => Seq::empty(),
    }
}

impl Node {
    /// The candidate paths held in this subtree, left to right.
    pub open spec fn leaves(self) -> Seq<Seq<char>>
        decreases self,
    {
        opt_leaves(self.left) + own_leaf(self) + opt_leaves(self.right)
    }

    /// The leaf that a new candidate becomes.
    pub open spec fn leaf(path: String, opt: isize) -> Node {
        Node { path: Some(path), left: None, right: None, depth: 1, decision: Decision::Undef, opt: opt }
    }

    /// `self` with its depth recomputed from the depth fields of its children.
    pub open spec fn with_depth(self) -> Node {
        Node {
            depth: (1 + if opt_depth(self.left) < opt_depth(self.right) {
                opt_depth(self.right)
            } else {
                opt_depth(self.left)
            }) as usize,
            ..self
        }
    }
}

/// Where a new candidate goes: an empty tree becomes a leaf; a leaf becomes a
/// match between its old candidate (left) and the new one (right); a match
/// sends the new candidate into its shallower side, the left one on a tie.
pub open spec fn spec_insert(node: Option<Box<Node>>, path: String, opt: isize) -> Node
    decreases node,
{
    match node {
        None => Node::leaf(path, opt),
        Some(b) => match b.path {
            Some(p) => Node {
                path: None,
                left: Some(Box::new(Node::leaf(p, b.opt))),
                right: Some(Box::new(Node::leaf(path, opt))),
                depth: 2,
                decision: b.decision,
                opt: b.opt,
            },
            None => if opt_depth(b.left) <= opt_depth(b.right) {
                Node { left: Some(Box::new(spec_insert(b.left, path, opt))), ..*b }.with_depth()
            } else {
                Node { right: Some(Box::new(spec_insert(b.right, path, opt))), ..*b }.with_depth()
            },
        },
    }
}

/// `n` rotated right: its left child `l` becomes the root, `n` becomes the
/// right child of `l` and takes `l`'s right child as its left one; the
/// depths of both are recomputed.
pub open spec fn spec_rotate_right(n: Node) -> Node {
    (Node {
        right: Some(Box::new(Node { left: n.left->0.right, ..n }.with_depth())),
        ..*n.left->0
    }).with_depth()
}

/// `n` rotated left: its right child `r` becomes the root, `n` becomes the
/// left child of `r` and takes `r`'s left child as its right one; the
/// depths of both are recomputed.
pub open spec fn spec_rotate_left(n: Node) -> Node {
    (Node {
        left: Some(Box::new(Node { right: n.right->0.left, ..n }.with_depth())),
        ..*n.right->0
    }).with_depth()
}

/// The depth field of `n` is the one its children's depth fields give.
pub open spec fn depth_consistent(n: Node) -> bool {
    n.depth == n.with_depth().depth
}

/// Rotating left undoes rotating right: when `n` has a left child `l` and
/// the depth fields of `n` and `l` agree with their children's, the tree
/// comes back exactly as it was.
pub proof fn lemma_rotate_left_undoes_right(n: Node)
    requires
        n.left is Some,
        depth_consistent(n),
        depth_consistent(*n.left->0),
    ensures
        spec_rotate_left(spec_rotate_right(n)) == n,
{
    let l = *n.left->0;
    let n1 = Node { left: l.right, ..n }.with_depth();
    let m = spec_rotate_right(n);
    assert(m.right == Some(Box::new(n1)));
    let inner = Node { right: n1.left, ..m }.with_depth();
    assert(inner == l);
    assert(Node { left: Some(Box::new(inner)), ..n1 }.with_depth() == n);
}

/// Rotating right undoes rotating left, symmetrically.
pub proof fn lemma_rotate_right_undoes_left(n: Node)
    requires
        n.right is Some,
        depth_consistent(n),
        depth_consistent(*n.right->0),
    ensures
        spec_rotate_right(spec_rotate_left(n)) == n,
{
    let r = *n.right->0;
    let n1 = Node { right: r.left, ..n }.with_depth();
    let m = spec_rotate_left(n);
    assert(m.left == Some(Box::new(n1)));
    let inner = Node { left: n1.right, ..m }.with_depth();
    assert(inner == r);
    assert(Node { right: Some(Box::new(inner)), ..n1 }.with_depth() == n);
}

/// Rotates right around `n`: its left child becomes the root of the subtree.
fn rotate_right(n: Box<Node>) -> (res: Box<Node>)
    requires
        n.left is Some,
        opt_depth(n.right) < usize::MAX - 1,
        opt_depth(n.left->0.left) < usize::MAX - 1,
        opt_depth(n.left->0.right) < usize::MAX - 1,
    ensures
        *res == spec_rotate_right(*n),
        res.leaves() == n.leaves(),
{
    let ghost old_n = *n;
    let mut n = *n;
    let mut l = *n.left.take().unwrap();
    let ghost old_l = l;
    let lr = l.right.take();
    n.left = lr;
    n.update_depth();
    let ghost new_n = n;
    l.right = Some(Box::new(n));
    l.update_depth();
    proof {
        assert(new_n.leaves() == opt_leaves(old_l.right) + own_leaf(old_n) + opt_leaves(old_n.right));
        assert(old_l.leaves() == opt_leaves(old_l.left) + own_leaf(old_l) + opt_leaves(old_l.right));
        assert(old_n.leaves() == old_l.leaves() + own_leaf(old_n) + opt_leaves(old_n.right));
        assert(l.leaves() == opt_leaves(old_l.left) + own_leaf(old_l) + new_n.leaves());
        assert(l.leaves() =~= old_n.leaves());
    }
    Box::new(l)
}


/// What well-formedness says of a match and its two sides.
proof fn lemma_wf_branch(n: Node)
    requires
        n.wf(),
        n.path is None,
    ensures
        n.left is Some,
        n.right is Some,
        n.left->0.wf(),
        n.right->0.wf(),
        n.left->0.depth == n.left->0.height(),
        n.right->0.depth == n.right->0.height(),
        opt_depth(n.left) == opt_height(n.left),
        opt_depth(n.right) == opt_height(n.right),
        opt_height(n.left) <= opt_height(n.right) + 1,
        opt_height(n.right) <= opt_height(n.left) + 1,
        n.height() == 1 + max_nat(opt_height(n.left), opt_height(n.right)),
{
    let l = n.left->0;
    let r = n.right->0;
    assert(l.wf());
    assert(r.wf());
}

/// Rotates left around `n`: its right child becomes the root of the subtree.
fn rotate_left(n: Box<Node>) -> (res: Box<Node>)
    requires
        n.right is Some,
        opt_depth(n.left) < usize::MAX - 1,
        opt_depth(n.right->0.left) < usize::MAX - 1,
        opt_depth(n.right->0.right) < usize::MAX - 1,
    ensures
        *res == spec_rotate_left(*n),
        res.leaves() == n.leaves(),
{
    let ghost old_n = *n;
    let mut n = *n;
    let mut r = *n.right.take().unwrap();
    let ghost old_r = r;
    let rl = r.left.take();
    n.right = rl;
    n.update_depth();
    let ghost new_n = n;
    r.left = Some(Box::new(n));
    r.update_depth();
    proof {
        assert(new_n.leaves() == opt_leaves(old_n.left) + own_leaf(old_n) + opt_leaves(old_r.left));
        assert(old_r.leaves() == opt_leaves(old_r.left) + own_leaf(old_r) + opt_leaves(old_r.right));
        assert(old_n.leaves() == opt_leaves(old_n.left) + own_leaf(old_n) + old_r.leaves());
        assert(r.leaves() == new_n.leaves() + own_leaf(old_r) + opt_leaves(old_r.right));
        assert(r.leaves() =~= old_n.leaves());
    }
    Box::new(r)
}

/// `insert`, recursively, with its shape and balance facts.
fn insert_node(node: Option<Box<Node>>, path: String, opt: isize) -> (res: Box<Node>)
    requires
        node matches Some(n) ==> n.wf() && n.height() < isize::MAX,
    ensures
        *res == spec_insert(node, path, opt),
        res.wf(),
        res.height() == opt_height(node) || res.height() == opt_height(node) + 1,
    decreases node,
{
    match node {
        None => Box::new(Node::new_leaf(path, opt)),
        Some(b) => {
            let ghost old_b = *b;
            let mut n = *b;
            if n.path.is_some() {
                let cur_path = n.path.take().unwrap();
                let cur_leaf = Box::new(Node::new_leaf(cur_path, n.opt));
                let new_leaf = Box::new(Node::new_leaf(path, opt));
                n.left = Some(cur_leaf);
                n.right = Some(new_leaf);
                n.update_depth();
                return Box::new(n);
            }
            proof {
                lemma_wf_branch(old_b);
            }
            if Node::depth(&n.left) <= Node::depth(&n.right) {
                let sub = insert_node(n.left.take(), path, opt);
                n.left = Some(sub);
            } else {
                let sub = insert_node(n.right.take(), path, opt);
                n.right = Some(sub);
            }
            proof {
                assert(opt_depth(n.left) == opt_height(n.left));
                assert(opt_depth(n.right) == opt_height(n.right));
            }
            n.update_depth();
            let balance = n.balance_factor();
            if balance > 1 {
                if n.left.as_ref().unwrap().balance_factor() < 0 {
                    let left = n.left.take().unwrap();
                    n.left = Some(rotate_left(left));
                }
                return rotate_right(Box::new(n));
            }
            if balance < -1 {
                if n.right.as_ref().unwrap().balance_factor() > 0 {
                    let right = n.right.take().unwrap();
                    n.right = Some(rotate_right(right));
                }
                return rotate_left(Box::new(n));
            }
            Box::new(n)
        },
    }
}


/// Adds the candidate `path` (sequence number `opt`) to the tournament tree
/// `node` and returns the new root.
///
/// An empty tree becomes a single leaf; a leaf becomes a match between its
/// old candidate and the new one; a match passes the candidate on to its
/// shallower side (the left one on a tie), and is rebalanced by rotation if
/// its sides' depths then differ by more than one (which never happens on a
/// well-formed tree).
pub fn insert(node: Option<Box<Node>>, path: String, opt: isize) -> (res: Box<Node>)
    requires
        node matches Some(n) ==> n.wf() && n.height() < isize::MAX,
    ensures
        *res == spec_insert(node, path, opt),
        res.wf(),
        res.height() == opt_height(node) || res.height() == opt_height(node) + 1,
        exists|i: int|
            0 <= i <= opt_leaves(node).len() && res.leaves() == opt_leaves(node).insert(i, path@),
        res.leaves().len() == opt_leaves(node).len() + 1,
        res.match_entries(seq![]).len() == opt_leaves(node).len(),
        (node matches Some(t) ==> all_undecided(*t)) ==> all_undecided(*res),
{
    proof {
        lemma_insert_leaves(node, path, opt);
        if node is None || all_undecided(*node->0) {
            lemma_insert_decides_nothing(node, path, opt);
        }
    }
    let res = insert_node(node, path, opt);
    proof {
        lemma_match_count(*res, seq![]);
    }
    res
}

} // verus!
