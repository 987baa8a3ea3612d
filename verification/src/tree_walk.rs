use vstd::prelude::*;

use crate::match_list::{child_addr, child_addr_copy, entry_view, MatchEntry};
use crate::order_laws::lemma_next_undef_sides_known;
use crate::tree_laws::lemma_subtree_concat;
use crate::tree_util::{Decision, Node, Side};

verus! {

/// The spec view of an optional path.
pub open spec fn opt_path_view(o: Option<String>) -> Option<Seq<char>> {
    match o {
        Some(p) => Some(p@),
        None => None,
    }
}

impl Node {
    /// The candidate that has won this subtree so far: a leaf's own path; for
    /// a match, the winner of the side it was decided for; `None` while a
    /// match on that way is undecided (or the chosen side is missing).
    pub open spec fn winner(self) -> Option<Seq<char>>
        decreases self,
    {
        match self.path {
            Some(p) => Some(p@),
            None => match self.decision {
                Decision::Undef => None,
                Decision::Left => match self.left {
                    Some(c) => c.winner(),
                    None => None,
                },
                Decision::Right => match self.right {
                    Some(c) => c.winner(),
                    None => None,
                },
            },
        }
    }
}

/// Follows the decisions from `node` down to the leaf that won it.
pub fn resolve_winner_leaf(node: &Node) -> (res: Option<String>)
    ensures
        opt_path_view(res) == node.winner(),
    decreases node,
{
    match &node.path {
        Some(p) => return Some(p.clone()),
        None => {},
    }
    match (&node.left, &node.right, node.decision) {
        (_, _, Decision::Undef) => None,
        (Some(l), _, Decision::Left) => resolve_winner_leaf(l),
        (_, Some(r), Decision::Right) => resolve_winner_leaf(r),
        _ => None,
    }
}

/// Of two candidate matches, the shallower one; the first one on a tie.
pub open spec fn first_min(a: Option<MatchEntry>, b: Option<MatchEntry>) -> Option<MatchEntry> {
    match (a, b) {
        (None, _) => b,
        (Some(_), None) => a,
        (Some(x), Some(y)) => if y.0 < x.0 { b } else { a },
    }
}

impl Node {
    /// The undecided match of least depth in this subtree, with its address
    /// prefixed by `at`; on a tie the node itself comes first, then its left
    /// side, then its right side.
    pub open spec fn next_undef(self, at: Seq<Side>) -> Option<MatchEntry>
        decreases self,
    {
        let own = if self.decision == Decision::Undef && self.path is None {
            Some((self.depth, at))
        } else {
            None
        };
        let l = match self.left {
            Some(c) => c.next_undef(at.push(Side::Left)),
            None => None,
        };
        let r = match self.right {
            Some(c) => c.next_undef(at.push(Side::Right)),
            None => None,
        };
        first_min(first_min(own, l), r)
    }
}

/// Of two found matches, the shallower one; the first one on a tie.
fn first_min_exec(a: Option<(usize, Vec<Side>)>, b: Option<(usize, Vec<Side>)>) -> (res: Option<(usize, Vec<Side>)>)
    ensures
        opt_entry_view(res) == first_min(opt_entry_view(a), opt_entry_view(b)),
{
    match (a, b) {
        (None, b) => b,
        (Some(x), None) => Some(x),
        (Some(x), Some(y)) => if y.0 < x.0 { Some(y) } else { Some(x) },
    }
}

/// The spec view of an optional executable match entry.
pub open spec fn opt_entry_view(o: Option<(usize, Vec<Side>)>) -> Option<MatchEntry> {
    match o {
        Some(e) => Some(entry_view(e)),
        None => None,
    }
}

/// `find_next_undef_node` below `node`, addresses prefixed by `at`.
fn find_next_undef_node_at(node: &Node, at: &Vec<Side>) -> (res: Option<(usize, Vec<Side>)>)
    ensures
        opt_entry_view(res) == node.next_undef(at@),
    decreases node,
{
    let left = match &node.left {
        Some(l) => {
            let a = child_addr(at, Side::Left);
            find_next_undef_node_at(l, &a)
        },
        None => None,
    };
    let right = match &node.right {
        Some(r) => {
            let a = child_addr(at, Side::Right);
            find_next_undef_node_at(r, &a)
        },
        None => None,
    };
    let self_node = if node.decision == Decision::Undef && node.path.is_none() {
        Some((node.depth, child_addr_copy(at)))
    } else {
        None
    };
    first_min_exec(first_min_exec(self_node, left), right)
}

/// The undecided match of least depth below `node` (the earliest in the
/// order node, left side, right side on a tie), with its depth and its
/// address below `node`.
pub fn find_next_undef_node(node: &Node) -> (res: Option<(usize, Vec<Side>)>)
    ensures
        opt_entry_view(res) == node.next_undef(seq![]),
{
    let at: Vec<Side> = Vec::new();
    find_next_undef_node_at(node, &at)
}


impl Node {
    /// This tree with the decision of the node at address `a` set to `d`
    /// (unchanged if there is no node there).
    pub open spec fn with_decision_at(self, a: Seq<Side>, d: Decision) -> Node
        decreases a.len(),
    {
        if a.len() == 0 {
            Node { decision: d, ..self }
        } else if a[0] == Side::Left {
            match self.left {
                Some(c) => Node { left: Some(Box::new(c.with_decision_at(a.drop_first(), d))), ..self },
                None => self,
            }
        } else {
            match self.right {
                Some(c) => Node { right: Some(Box::new(c.with_decision_at(a.drop_first(), d))), ..self },
                None => self,
            }
        }
    }

    /// The node at address `a` below `n`, if there is one.
    pub fn find_node<'a>(n: &'a Node, a: &Vec<Side>) -> (res: Option<&'a Node>)
        ensures
            res is None <==> n.subtree(a@) is None,
            res matches Some(r) ==> n.subtree(a@) == Some(*r),
    {
        let mut cur: &Node = n;
        let mut i: usize = 0;
        proof {
            assert(a@.skip(0) =~= a@);
        }
        while i < a.len()
            invariant
                i <= a.len(),
                cur.subtree(a@.skip(i as int)) == n.subtree(a@),
            decreases a.len() - i,
        {
            proof {
                assert(a@.skip(i as int)[0] == a@[i as int]);
                assert(a@.skip(i as int).drop_first() =~= a@.skip(i + 1));
            }
            let next = match a[i] {
                Side::Left => &cur.left,
                Side::Right => &cur.right,
            };
            match next {
                Some(c) => {
                    cur = &**c;
                },
                None => {
                    return None;
                },
            }
            i = i + 1;
        }
        proof {
            assert(a@.skip(i as int) =~= Seq::<Side>::empty());
        }
        Some(cur)
    }

    /// The node at address `a` below `n`.
    pub fn node_at<'a>(n: &'a Node, a: &Vec<Side>) -> (res: &'a Node)
        requires
            n.subtree(a@) is Some,
        ensures
            *res == n.subtree(a@)->0,
    {
        let mut cur: &Node = n;
        let mut i: usize = 0;
        proof {
            assert(a@.skip(0) =~= a@);
        }
        while i < a.len()
            invariant
                i <= a.len(),
                n.subtree(a@) is Some,
                cur.subtree(a@.skip(i as int)) == n.subtree(a@),
            decreases a.len() - i,
        {
            proof {
                assert(a@.skip(i as int)[0] == a@[i as int]);
                assert(a@.skip(i as int).drop_first() =~= a@.skip(i + 1));
            }
            match a[i] {
                Side::Left => {
                    match &cur.left {
                        Some(c) => {
                            cur = &**c;
                        },
                        None => {},
                    }
                },
                Side::Right => {
                    match &cur.right {
                        Some(c) => {
                            cur = &**c;
                        },
                        None => {},
                    }
                },
            }
            i = i + 1;
        }
        proof {
            assert(a@.skip(i as int) =~= Seq::<Side>::empty());
        }
        cur
    }

    /// Sets the decision of the node reached by the sides of `a` from index `i` on.
    fn set_decision_from(&mut self, a: &Vec<Side>, i: usize, d: Decision)
        requires
            i <= a.len(),
            old(self).subtree(a@.skip(i as int)) is Some,
        ensures
            *final(self) == old(self).with_decision_at(a@.skip(i as int), d),
        decreases a.len() - i,
    {
        if i == a.len() {
            proof {
                assert(a@.skip(i as int) =~= Seq::<Side>::empty());
            }
            self.set_decision(d);
        } else {
            proof {
                assert(a@.skip(i as int)[0] == a@[i as int]);
                assert(a@.skip(i as int).drop_first() =~= a@.skip(i + 1));
            }
            match a[i] {
                Side::Left => {
                    let mut c = *self.left.take().unwrap();
                    c.set_decision_from(a, i + 1, d);
                    self.left = Some(Box::new(c));
                },
                Side::Right => {
                    let mut c = *self.right.take().unwrap();
                    c.set_decision_from(a, i + 1, d);
                    self.right = Some(Box::new(c));
                },
            }
        }
    }

    /// Sets the decision of the match at address `a` below this node.
    pub fn set_decision_at(&mut self, a: &Vec<Side>, d: Decision)
        requires
            old(self).subtree(a@) is Some,
        ensures
            *final(self) == old(self).with_decision_at(a@, d),
    {
        proof {
            assert(a@.skip(0) =~= a@);
        }
        self.set_decision_from(a, 0, d);
    }
}


/// The undecided match that `next_undef` picks (addresses prefixed by `at`)
/// is `at` followed by the address, below `n`, of an undecided match whose
/// depth is the one given.
pub proof fn lemma_next_undef_addr(n: Node, at: Seq<Side>)
    ensures
        n.next_undef(at) matches Some(e) ==> {
            &&& e.1.len() >= at.len()
            &&& e.1.take(at.len() as int) == at
            &&& n.subtree(e.1.skip(at.len() as int)) matches Some(m)
            &&& m.path is None
            &&& m.decision == Decision::Undef
            &&& m.depth == e.0
        },
    decreases n,
{
    if let Some(e) = n.next_undef(at) {
        let own = if n.decision == Decision::Undef && n.path is None {
            Some((n.depth, at))
        } else {
            None
        };
        let l = match n.left {
            Some(c) => c.next_undef(at.push(Side::Left)),
            None => None,
        };
        let r = match n.right {
            Some(c) => c.next_undef(at.push(Side::Right)),
            None => None,
        };
        if own == Some(e) {
            assert(at.take(at.len() as int) =~= at);
            assert(at.skip(at.len() as int) =~= Seq::<Side>::empty());
        } else if l == Some(e) {
            let c = n.left->0;
            let at2 = at.push(Side::Left);
            lemma_next_undef_addr(*c, at2);
            let q = e.1.skip(at.len() as int);
            assert(e.1.take(at.len() as int) =~= at);
            assert(q[0] == e.1.take(at2.len() as int)[at.len() as int]);
            assert(q.drop_first() =~= e.1.skip(at2.len() as int));
        } else {
            assert(r == Some(e));
            let c = n.right->0;
            let at2 = at.push(Side::Right);
            lemma_next_undef_addr(*c, at2);
            let q = e.1.skip(at.len() as int);
            assert(e.1.take(at.len() as int) =~= at);
            assert(q[0] == e.1.take(at2.len() as int)[at.len() as int]);
            assert(q.drop_first() =~= e.1.skip(at2.len() as int));
        }
    }
}

/// The next match to play: its address and the current winners of its
/// two sides.
#[derive(Debug)]
pub struct NextCandidate {
    pub node: Vec<Side>,
    pub winner_leaf_l: Option<String>,
    pub winner_leaf_r: Option<String>,
}

/// The match that `next_undef` picks below `root` has both sides.
pub open spec fn candidate_has_sides(root: Node) -> bool {
    root.next_undef(seq![]) matches Some(e) ==> (root.subtree(e.1) matches Some(m) && m.left is Some
        && m.right is Some)
}

/// The undecided match of least depth below `root` (see `next_undef`) with
/// the current winners of its two sides, or `None` if every match is
/// decided.
pub fn next_candidate(root: &Node) -> (res: Option<NextCandidate>)
    requires
        candidate_has_sides(*root),
    ensures
        res is None <==> root.next_undef(seq![]) is None,
        res matches Some(c) ==> {
            &&& root.next_undef(seq![]) matches Some(e)
            &&& c.node@ == e.1
            &&& root.subtree(e.1) matches Some(m)
            &&& m.path is None
            &&& m.decision == Decision::Undef
            &&& opt_path_view(c.winner_leaf_l) == m.left->0.winner()
            &&& opt_path_view(c.winner_leaf_r) == m.right->0.winner()
        },
        root.wf() ==> (res matches Some(c) ==> c.winner_leaf_l is Some && c.winner_leaf_r is Some),
{
    let found = find_next_undef_node(root);
    match found {
        None => None,
        Some((_d, node)) => {
            proof {
                lemma_next_undef_addr(*root, seq![]);
                assert(node@.skip(0) =~= node@);
            }
            let n = Node::node_at(root, &node);
            proof {
                if root.wf() {
                    lemma_next_undef_sides_known(*root, Side::Left);
                    lemma_next_undef_sides_known(*root, Side::Right);
                    lemma_subtree_concat(*root, node@, seq![Side::Left]);
                    lemma_subtree_concat(*root, node@, seq![Side::Right]);
                    assert(node@.push(Side::Left) =~= node@ + seq![Side::Left]);
                    assert(node@.push(Side::Right) =~= node@ + seq![Side::Right]);
                    assert(seq![Side::Left].drop_first() =~= Seq::<Side>::empty());
                    assert(seq![Side::Right].drop_first() =~= Seq::<Side>::empty());
                    assert(n.left->0.subtree(Seq::<Side>::empty()) == Some(*n.left->0));
                    assert(n.right->0.subtree(Seq::<Side>::empty()) == Some(*n.right->0));
                }
            }
            let winner_l = resolve_winner_leaf(n.left.as_ref().unwrap());
            let winner_r = resolve_winner_leaf(n.right.as_ref().unwrap());
            Some(NextCandidate { node, winner_leaf_l: winner_l, winner_leaf_r: winner_r })
        },
    }
}

} // verus!
