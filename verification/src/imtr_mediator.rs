use vstd::prelude::*;

use crate::tree_laws::{
    decided_prefix, lemma_all_played, lemma_first_match_leaves, lemma_height_le_leaves,
    lemma_insert_leaves, lemma_match_count, lemma_order_addr, lemma_pair_known,
    lemma_with_decision_subtree, lemma_with_decision_tree, side_winner,
};
use crate::match_list::{addrs_view, addrs_with_depth, depth_at, stable_depth_sort_of, MatchEntry};
use crate::tree_util::{insert, opt_leaves, spec_insert, Decision, Node, Side};
use crate::behaviour_laws::all_undecided;
use crate::month_img_list::paths_view;
use crate::tree_walk::resolve_winner_leaf;
use vstd::seq_lib::{to_multiset_build, to_multiset_insert};

verus! {

/// What the user interface has to do after an event of the tournament.
#[derive(Debug, PartialEq, Eq)]
pub enum MediatorAction {
    /// Fewer than two candidates were found: ask for another directory.
    TooFewImages,
    /// No side of the current match was chosen: ask the user to choose one.
    NoDecision,
    /// Show the two contenders of the current match.
    ShowPair { left: String, right: String },
    /// The tournament is over: announce its winner.
    /// The last match was decided for side `side`: announce the image shown
    /// on that side of the preview as the winner.
    Winner { side: Decision },
    /// Nothing changes.
    Nothing,
}

/// The tree built from `paths` by adding them one by one, the `k`-th with
/// sequence number `k` (counting from one).
pub open spec fn spec_build(paths: Seq<String>) -> Option<Box<Node>>
    decreases paths.len(),
{
    if paths.len() == 0 {
        None
    } else {
        Some(
            Box::new(
                spec_insert(spec_build(paths.drop_last()), paths.last(), paths.len() as isize),
            ),
        )
    }
}

/// Builds the tournament tree of `paths`, adding them in order with sequence
/// numbers 1, 2, 3, ...
pub fn build_tree(paths: Vec<String>) -> (res: Option<Box<Node>>)
    requires
        paths.len() < isize::MAX,
    ensures
        res == spec_build(paths@),
        res matches Some(r) ==> r.wf() && r.leaves().len() == paths.len(),
        res matches Some(r) ==> r.leaves().to_multiset() == paths_view(paths@).to_multiset(),
        res matches Some(r) ==> all_undecided(*r),
        res is None <==> paths.len() == 0,
{
    let ghost ps = paths@;
    let mut v = paths;
    let mut root: Option<Box<Node>> = None;
    let mut opt: isize = 1;
    let ghost mut i: int = 0;
    proof {
        assert(ps.take(0) =~= Seq::<String>::empty());
        assert(ps.skip(0) =~= ps);
    }
    while v.len() > 0
        invariant
            0 <= i <= ps.len(),
            ps.len() < isize::MAX,
            v@ == ps.skip(i),
            opt == i + 1,
            root == spec_build(ps.take(i)),
            root matches Some(r) ==> r.wf() && r.leaves().len() == i,
            root matches Some(r) ==> r.leaves().to_multiset() == paths_view(ps.take(i)).to_multiset(),
            root matches Some(r) ==> all_undecided(*r),
            root is None <==> i == 0,
        decreases v.len(),
    {
        let ghost v0 = v@;
        proof {
            assert(ps.skip(i).len() == ps.len() - i);
            assert(v0[0] == ps[i]);
        }
        let p = v.remove(0);
        proof {
            assert(v@ =~= ps.skip(i + 1));
            if root is Some {
                lemma_height_le_leaves(*root->0);
            }
            lemma_insert_leaves(root, p, opt);
        }
        let ghost old_root = root;
        let t = insert(root, p, opt);
        root = Some(t);
        proof {
            let ii = choose|ii: int|
                0 <= ii <= opt_leaves(old_root).len() && spec_insert(old_root, p, opt).leaves()
                    == opt_leaves(old_root).insert(ii, p@);
            if old_root is Some {
                assert(opt_leaves(old_root) == old_root->0.leaves());
            }
            let taken = ps.take(i + 1);
            assert(taken.drop_last() =~= ps.take(i));
            assert(taken.last() == p);
            assert(taken.len() == i + 1);
            assert(paths_view(taken) =~= paths_view(ps.take(i)).push(p@));
            to_multiset_build(paths_view(ps.take(i)), p@);
            to_multiset_insert(opt_leaves(old_root), ii, p@);
            if old_root is None {
                assert(paths_view(ps.take(i)) =~= Seq::<Seq<char>>::empty());
                assert(opt_leaves(old_root) =~= Seq::<Seq<char>>::empty());
            }
        }
        opt = opt + 1;
        proof {
            i = i + 1;
        }
    }
    proof {
        assert(ps.take(i) =~= ps);
    }
    root
}

/// The path of the node `c` if it is a single candidate.
fn child_path(c: &Option<Box<Node>>) -> (res: Option<String>)
    ensures
        res == match c {
            Some(b) => b.path,
            None => None,
        },
{
    match c {
        Some(b) => b.path.clone(),
        None => None,
    }
}

/// Deciding the match at position `ix` of the playing order keeps the order
/// valid for the new tree and extends the decided prefix past `ix`.
proof fn lemma_decide(r: Node, list: Seq<Seq<Side>>, ix: int, dec: Decision)
    requires
        r.wf(),
        stable_depth_sort_of(addrs_with_depth(r, list), r.match_entries(seq![])),
        0 <= ix < list.len(),
        decided_prefix(r, addrs_with_depth(r, list), ix),
        dec != Decision::Undef,
    ensures
        r.subtree(list[ix]) is Some,
        ({
            let r2 = r.with_decision_at(list[ix], dec);
            &&& r2.wf()
            &&& r2.match_entries(seq![]) == r.match_entries(seq![])
            &&& r2.leaves() == r.leaves()
            &&& addrs_with_depth(r2, list) == addrs_with_depth(r, list)
            &&& decided_prefix(r2, addrs_with_depth(r2, list), ix + 1)
        }),
{
    let t = addrs_with_depth(r, list);
    lemma_order_addr(r, t, ix);
    assert(t[ix].1 == list[ix]);
    let a = list[ix];
    let r2 = r.with_decision_at(a, dec);
    lemma_with_decision_tree(r, a, dec);
    assert forall|k: int| 0 <= k < list.len() implies depth_at(r2, list[k]) == depth_at(r, list[k]) by {
        lemma_with_decision_subtree(r, a, dec, list[k]);
    }
    assert(addrs_with_depth(r2, list) =~= addrs_with_depth(r, list));
    assert forall|i: int| 0 <= i < ix + 1 implies (r2.subtree(#[trigger] t[i].1) matches Some(m) && m.decision
        != Decision::Undef) by {
        lemma_with_decision_subtree(r, a, dec, t[i].1);
        if i == ix {
            assert(t[i].1 == a);
        } else {
            assert(r.subtree(t[i].1) matches Some(m) && m.decision != Decision::Undef);
        }
    }
}

/// The state of a tournament: the tree of candidates, its matches in the
/// order they are played, and the index of the current match.
#[derive(Debug)]
pub struct ImtrMediator {
    pub root: Option<Box<Node>>,
    pub match_list: Vec<Vec<Side>>,
    pub match_num: usize,
}

impl ImtrMediator {
    /// The matches in playing order, each with its depth.
    pub open spec fn order(self) -> Seq<MatchEntry> {
        addrs_with_depth(*self.root->0, addrs_view(self.match_list@))
    }

    /// The address of the current match.
    pub open spec fn current(self) -> Seq<Side> {
        self.match_list@[self.match_num as int]@
    }

    /// Before a tournament is built nothing is set; afterwards the tree is
    /// well-formed, the match list holds all its matches shallowest first
    /// (post-order among equal depths), the current index is in range, and
    /// every match before the current one has been decided.
    pub open spec fn inv(self) -> bool {
        match self.root {
            None => self.match_list@.len() == 0 && self.match_num == 0,
            Some(r) => {
                &&& r.wf()
                &&& stable_depth_sort_of(self.order(), r.match_entries(seq![]))
                &&& self.match_list@.len() == r.match_entries(seq![]).len()
                &&& self.match_num < self.match_list@.len()
                &&& decided_prefix(*r, self.order(), self.match_num as int)
            },
        }
    }

    /// Starts a new tournament among `paths` (the candidates found in the
    /// chosen directory): with fewer than two nothing changes and the user
    /// is asked for another directory; otherwise the tree is built, its
    /// matches are listed in playing order and the first match is shown.
    pub fn build_tournament(&mut self, paths: Vec<String>) -> (res: MediatorAction)
        requires
            old(self).inv(),
            paths.len() < isize::MAX,
        ensures
            final(self).inv(),
            paths.len() < 2 ==> res == MediatorAction::TooFewImages && *final(self) == *old(self),
            paths.len() >= 2 ==> {
                &&& final(self).root == spec_build(paths@)
                &&& final(self).root->0.leaves().to_multiset() == paths_view(paths@).to_multiset()
                &&& final(self).match_list@.len() == paths.len() - 1
                &&& final(self).match_num == 0
                &&& res matches MediatorAction::ShowPair { left, right }
                &&& Some(left@) == side_winner(*final(self).root->0, final(self).current(), Side::Left)
                &&& Some(right@) == side_winner(*final(self).root->0, final(self).current(), Side::Right)
            },
    {
        if paths.len() < 2 {
            return MediatorAction::TooFewImages;
        }
        let ghost n = paths.len();
        let root = build_tree(paths).unwrap();
        let list = Node::get_match_up_list(&root);
        let ghost t = addrs_with_depth(*root, addrs_view(list@));
        proof {
            lemma_match_count(*root, seq![]);
            lemma_order_addr(*root, t, 0);
            lemma_first_match_leaves(*root, t, Side::Left);
            lemma_first_match_leaves(*root, t, Side::Right);
            assert(t[0].1 == list@[0]@);
        }
        let c = Node::node_at(&root, &list[0]);
        let pa = child_path(&c.left);
        let pb = child_path(&c.right);
        self.root = Some(root);
        self.match_list = list;
        self.match_num = 0;
        MediatorAction::ShowPair { left: pa.unwrap(), right: pb.unwrap() }
    }

    /// The user asks for the next match, having chosen side `dec` of the
    /// current one. Without a choice nothing changes and the user is asked to
    /// choose. Otherwise the current match is decided; if it was not the
    /// last, the next match becomes current and its contenders are shown,
    /// else the tournament is over and the winner is the image on the chosen
    /// side (the tree then has a winner, one of the candidates).
    pub fn next_match(&mut self, dec: Decision) -> (res: MediatorAction)
        requires
            old(self).inv(),
            dec != Decision::Undef ==> old(self).root is Some,
        ensures
            final(self).inv(),
            dec == Decision::Undef ==> res == MediatorAction::NoDecision && *final(self) == *old(self),
            dec != Decision::Undef ==> {
                let r2 = old(self).root->0.with_decision_at(old(self).current(), dec);
                &&& final(self).root == Some(Box::new(r2))
                &&& final(self).match_list == old(self).match_list
                &&& if old(self).match_num + 1 < old(self).match_list@.len() {
                    &&& final(self).match_num == old(self).match_num + 1
                    &&& res matches MediatorAction::ShowPair { left, right }
                    &&& Some(left@) == side_winner(r2, final(self).current(), Side::Left)
                    &&& Some(right@) == side_winner(r2, final(self).current(), Side::Right)
                } else {
                    &&& final(self).match_num == old(self).match_num
                    &&& res == MediatorAction::Winner { side: dec }
                    &&& r2.winner() matches Some(w) && r2.leaves().contains(w)
                }
            },
    {
        if dec == Decision::Undef {
            return MediatorAction::NoDecision;
        }
        let ix = self.match_num;
        let sz = self.match_list.len();
        let ghost list = addrs_view(self.match_list@);
        let ghost r = *self.root->0;
        proof {
            lemma_decide(r, list, ix as int, dec);
            assert(list[ix as int] == self.match_list@[ix as int]@);
        }
        let mut root = self.root.take().unwrap();
        root.set_decision_at(&self.match_list[ix], dec);
        let ghost r2 = *root;
        let ghost t = addrs_with_depth(r2, list);
        if ix < sz - 1 {
            proof {
                lemma_pair_known(r2, t, ix + 1, ix + 1, Side::Left);
                lemma_pair_known(r2, t, ix + 1, ix + 1, Side::Right);
                lemma_order_addr(r2, t, ix + 1);
                assert(t[ix + 1].1 == self.match_list@[ix + 1]@);
            }
            let n = Node::node_at(&root, &self.match_list[ix + 1]);
            let path_l = resolve_winner_leaf(n.left.as_ref().unwrap());
            let path_r = resolve_winner_leaf(n.right.as_ref().unwrap());
            self.match_num = ix + 1;
            self.root = Some(root);
            return MediatorAction::ShowPair { left: path_l.unwrap(), right: path_r.unwrap() };
        }
        proof {
            lemma_all_played(r2, t);
        }
        self.root = Some(root);
        MediatorAction::Winner { side: dec }
    }

    /// The user goes back to the previous match, whose contenders are shown
    /// again; at the first match nothing changes.
    pub fn prev_match(&mut self) -> (res: MediatorAction)
        requires
            old(self).inv(),
        ensures
            final(self).inv(),
            old(self).match_num == 0 ==> res == MediatorAction::Nothing && *final(self) == *old(self),
            old(self).match_num > 0 ==> {
                &&& final(self).root == old(self).root
                &&& final(self).match_list == old(self).match_list
                &&& final(self).match_num == old(self).match_num - 1
                &&& res matches MediatorAction::ShowPair { left, right }
                &&& Some(left@) == side_winner(*final(self).root->0, final(self).current(), Side::Left)
                &&& Some(right@) == side_winner(*final(self).root->0, final(self).current(), Side::Right)
            },
    {
        let ix = self.match_num;
        if 0 < ix {
            let ghost r = *self.root->0;
            let ghost t = self.order();
            proof {
                lemma_pair_known(r, t, ix as int, ix - 1, Side::Left);
                lemma_pair_known(r, t, ix as int, ix - 1, Side::Right);
                lemma_order_addr(r, t, ix - 1);
                assert(t[ix - 1].1 == self.match_list@[ix - 1]@);
            }
            let root = self.root.as_ref().unwrap();
            let n = Node::node_at(root, &self.match_list[ix - 1]);
            let path_l = resolve_winner_leaf(n.left.as_ref().unwrap());
            let path_r = resolve_winner_leaf(n.right.as_ref().unwrap());
            self.match_num = ix - 1;
            return MediatorAction::ShowPair { left: path_l.unwrap(), right: path_r.unwrap() };
        }
        MediatorAction::Nothing
    }

    /// A mediator with no tournament yet.
    pub fn new() -> (res: ImtrMediator)
        ensures
            res.inv(),
            res.root is None,
            res.match_list@.len() == 0,
            res.match_num == 0,
    {
        ImtrMediator { root: None, match_list: Vec::new(), match_num: 0 }
    }
}


/// Whatever sequence of events a tournament has seen, as long as it keeps
/// its invariant (every event does), both sides of the current match have a
/// known winner, each one of the candidates.
pub proof fn lemma_current_pair_known(m: ImtrMediator)
    requires
        m.inv(),
        m.root is Some,
    ensures
        side_winner(*m.root->0, m.current(), Side::Left) is Some,
        side_winner(*m.root->0, m.current(), Side::Right) is Some,
{
    let r = *m.root->0;
    let t = m.order();
    let j = m.match_num as int;
    lemma_pair_known(r, t, j, j, Side::Left);
    lemma_pair_known(r, t, j, j, Side::Right);
    assert(t[j].1 == m.current());
}

} // verus!
