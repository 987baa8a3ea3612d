use vstd::prelude::*;

use crate::match_list::{
    lemma_match_entries_addr, lemma_sort_same_members, stable_depth_sort_of, MatchEntry,
};
use crate::tree_util::{opt_leaves, own_leaf, spec_insert, Decision, Node, Side};

verus! {

/// A well-formed tree holds at least as many candidates as its height.
pub proof fn lemma_height_le_leaves(n: Node)
    requires
        n.wf(),
    ensures
        1 <= n.height() <= n.leaves().len(),
    decreases n,
{
    if n.path is None {
        let l = *n.left->0;
        let r = *n.right->0;
        assert(l.wf() && r.wf());
        lemma_height_le_leaves(l);
        lemma_height_le_leaves(r);
        assert(n.leaves() == l.leaves() + own_leaf(n) + r.leaves());
    } else {
        assert(n.leaves() == own_leaf(n));
    }
}

/// Adding a candidate to a well-formed tree puts its path among the
/// existing ones, all of which keep their order.
pub proof fn lemma_insert_leaves(node: Option<Box<Node>>, path: String, opt: isize)
    requires
        node matches Some(n) ==> n.wf(),
    ensures
        exists|i: int|
            0 <= i <= opt_leaves(node).len() && spec_insert(node, path, opt).leaves()
                == opt_leaves(node).insert(i, path@),
    decreases node,
{
    match node {
        None => {
            let t = spec_insert(node, path, opt);
            assert(t.leaves() =~= seq![path@]);
            assert(opt_leaves(node).insert(0, path@) =~= seq![path@]);
        },
        Some(b) => {
            match b.path {
                Some(p) => {
                    let t = spec_insert(node, path, opt);
                    let ll = Node::leaf(p, b.opt);
                    let rl = Node::leaf(path, opt);
                    assert(ll.leaves() =~= seq![p@]);
                    assert(rl.leaves() =~= seq![path@]);
                    assert(t.leaves() =~= seq![p@, path@]);
                    assert(b.leaves() =~= seq![p@]);
                    assert(opt_leaves(node).insert(1, path@) =~= seq![p@, path@]);
                },
                None => {
                    let l = b.left->0;
                    let r = b.right->0;
                    assert(b.left is Some && b.right is Some);
                    assert(l.wf() && r.wf());
                    let t = spec_insert(node, path, opt);
                    assert(b.leaves() == opt_leaves(b.left) + own_leaf(*b) + opt_leaves(b.right));
                    assert(own_leaf(*b) =~= Seq::<Seq<char>>::empty());
                    if crate::tree_util::opt_depth(b.left) <= crate::tree_util::opt_depth(b.right) {
                        lemma_insert_leaves(b.left, path, opt);
                        let i = choose|i: int|
                            0 <= i <= opt_leaves(b.left).len() && spec_insert(b.left, path, opt).leaves()
                                == opt_leaves(b.left).insert(i, path@);
                        let nl = spec_insert(b.left, path, opt);
                        assert(t.leaves() == nl.leaves() + own_leaf(*b) + opt_leaves(b.right));
                        assert(t.leaves() =~= opt_leaves(node).insert(i, path@));
                    } else {
                        lemma_insert_leaves(b.right, path, opt);
                        let i = choose|i: int|
                            0 <= i <= opt_leaves(b.right).len() && spec_insert(b.right, path, opt).leaves()
                                == opt_leaves(b.right).insert(i, path@);
                        let nr = spec_insert(b.right, path, opt);
                        let k = opt_leaves(b.left).len() + i;
                        assert(t.leaves() == opt_leaves(b.left) + own_leaf(*b) + nr.leaves());
                        assert(t.leaves() =~= opt_leaves(node).insert(k, path@));
                    }
                },
            }
        },
    }
}

/// A well-formed tree with `k` candidates has `k - 1` matches.
pub proof fn lemma_match_count(n: Node, at: Seq<Side>)
    requires
        n.wf(),
    ensures
        n.match_entries(at).len() + 1 == n.leaves().len(),
    decreases n,
{
    if n.path is None {
        let l = *n.left->0;
        let r = *n.right->0;
        assert(l.wf() && r.wf());
        lemma_match_count(l, at.push(Side::Left));
        lemma_match_count(r, at.push(Side::Right));
        assert(n.leaves() == l.leaves() + own_leaf(n) + r.leaves());
        if l.path is Some {
            assert(l.leaves() =~= own_leaf(l));
        }
        if r.path is Some {
            assert(r.leaves() =~= own_leaf(r));
        }
    } else {
        assert(n.leaves() == own_leaf(n));
    }
}


/// The shape of a node as the tournament sees it: everything but the
/// decision and the subtrees themselves.
pub open spec fn same_shape(x: Node, y: Node) -> bool {
    &&& x.path == y.path
    &&& x.depth == y.depth
    &&& x.opt == y.opt
    &&& (x.left is Some) == (y.left is Some)
    &&& (x.right is Some) == (y.right is Some)
}

/// Setting the decision of the node at `a` leaves the tree's
/// well-formedness, heights, candidates and matches as they were.
#[verifier::spinoff_prover]
#[verifier::rlimit(40)]
pub proof fn lemma_with_decision_tree(n: Node, a: Seq<Side>, d: Decision)
    requires
        n.subtree(a) is Some,
    ensures
        n.with_decision_at(a, d).wf() == n.wf(),
        n.with_decision_at(a, d).height() == n.height(),
        n.with_decision_at(a, d).leaves() == n.leaves(),
        forall|at: Seq<Side>| #[trigger] n.with_decision_at(a, d).match_entries(at) == n.match_entries(at),
    decreases a.len(),
{
    let n2 = n.with_decision_at(a, d);
    if a.len() == 0 {
        assert(n2 == Node { decision: d, ..n });
        assert forall|at: Seq<Side>| #[trigger] n2.match_entries(at) == n.match_entries(at) by {}
    } else {
        let left = a[0] == Side::Left;
        let c = if left { *n.left->0 } else { *n.right->0 };
        let a1 = a.drop_first();
        let c2 = c.with_decision_at(a1, d);
        lemma_with_decision_tree(c, a1, d);
        if left {
            assert(n2 == Node { left: Some(Box::new(c2)), ..n });
        } else {
            assert(n2 == Node { right: Some(Box::new(c2)), ..n });
        }
        assert forall|at: Seq<Side>| #[trigger] n2.match_entries(at) == n.match_entries(at) by {
            if left {
                assert(c2.match_entries(at.push(Side::Left)) == c.match_entries(at.push(Side::Left)));
            } else {
                assert(c2.match_entries(at.push(Side::Right)) == c.match_entries(at.push(Side::Right)));
            }
        }
    }
}

/// Two non-empty sequences are equal exactly when their first elements
/// and their remainders are.
proof fn lemma_seq_cons_eq(q: Seq<Side>, a: Seq<Side>)
    requires
        q.len() > 0,
        a.len() > 0,
    ensures
        (q == a) == (q[0] == a[0] && q.drop_first() == a.drop_first()),
{
    if q[0] == a[0] && q.drop_first() == a.drop_first() {
        assert(q.len() == q.drop_first().len() + 1);
        assert(a.len() == a.drop_first().len() + 1);
        assert forall|i: int| 0 <= i < q.len() implies q[i] == a[i] by {
            if i > 0 {
                assert(q[i] == q.drop_first()[i - 1]);
                assert(a[i] == a.drop_first()[i - 1]);
            }
        }
        assert(q =~= a);
    }
}

/// Setting the decision of the node at `a` changes that decision and
/// nothing else: the same nodes are found at the same addresses, with the
/// same shape.
pub proof fn lemma_with_decision_subtree(n: Node, a: Seq<Side>, d: Decision, q: Seq<Side>)
    requires
        n.subtree(a) is Some,
    ensures
        n.with_decision_at(a, d).subtree(q) is Some == n.subtree(q) is Some,
        n.subtree(q) matches Some(m) ==> {
            &&& n.with_decision_at(a, d).subtree(q) matches Some(m2)
            &&& same_shape(m, m2)
            &&& m2.decision == if q == a { d } else { m.decision }
        },
    decreases a.len(),
{
    let n2 = n.with_decision_at(a, d);
    if a.len() == 0 {
        assert(n2 == Node { decision: d, ..n });
        if q.len() > 0 {
            assert(n2.subtree(q) == n.subtree(q));
            assert(q != a);
        } else {
            assert(q =~= a);
        }
    } else {
        let left = a[0] == Side::Left;
        let c = if left { *n.left->0 } else { *n.right->0 };
        let a1 = a.drop_first();
        let c2 = c.with_decision_at(a1, d);
        if left {
            assert(n2 == Node { left: Some(Box::new(c2)), ..n });
        } else {
            assert(n2 == Node { right: Some(Box::new(c2)), ..n });
        }
        if q.len() == 0 {
            assert(q != a);
        } else if q[0] == a[0] {
            let q1 = q.drop_first();
            lemma_with_decision_subtree(c, a1, d, q1);
            lemma_seq_cons_eq(q, a);
            assert(c.subtree(q1) == n.subtree(q));
            assert(c2.subtree(q1) == n2.subtree(q));
        } else {
            assert(n2.subtree(q) == n.subtree(q));
            assert(q != a);
        }
    }
}


/// Following `a` and then `b` is following `a + b`.
pub proof fn lemma_subtree_concat(n: Node, a: Seq<Side>, b: Seq<Side>)
    ensures
        n.subtree(a + b) == match n.subtree(a) {
            Some(x) => x.subtree(b),
            None => None,
        },
    decreases a.len(),
{
    if a.len() == 0 {
        assert(a + b =~= b);
    } else {
        assert((a + b)[0] == a[0]);
        assert((a + b).drop_first() =~= a.drop_first() + b);
        let c = if a[0] == Side::Left { n.left } else { n.right };
        if let Some(cb) = c {
            lemma_subtree_concat(*cb, a.drop_first(), b);
        }
    }
}

/// Every node of a well-formed tree is well-formed, and nodes further down
/// have smaller depths.
pub proof fn lemma_subtree_wf(n: Node, q: Seq<Side>)
    requires
        n.wf(),
        n.subtree(q) is Some,
    ensures
        n.subtree(q)->0.wf(),
        n.subtree(q)->0.depth <= n.depth,
        q.len() > 0 ==> n.subtree(q)->0.depth < n.depth,
    decreases q.len(),
{
    if q.len() > 0 {
        let c = if q[0] == Side::Left { n.left } else { n.right };
        let cb = *c->0;
        assert(n.path is None);
        assert(cb.wf());
        lemma_subtree_wf(cb, q.drop_first());
    }
}

/// Every match of a well-formed tree is among its match entries.
pub proof fn lemma_branch_listed(n: Node, at: Seq<Side>, q: Seq<Side>)
    requires
        n.wf(),
        n.subtree(q) matches Some(m) && m.path is None,
    ensures
        n.match_entries(at).contains((n.subtree(q)->0.depth, at + q)),
    decreases q.len(),
{
    let ls = match n.left {
        Some(c) => if c.path is None { c.match_entries(at.push(Side::Left)) } else { Seq::empty() },
        None => Seq::empty(),
    };
    let rs = match n.right {
        Some(c) => if c.path is None { c.match_entries(at.push(Side::Right)) } else { Seq::empty() },
        None => Seq::empty(),
    };
    let own = if n.path is None { seq![(n.depth, at)] } else { Seq::<MatchEntry>::empty() };
    let all = n.match_entries(at);
    assert(all == ls + rs + own);
    if q.len() == 0 {
        assert(at + q =~= at);
        assert(all[all.len() - 1] == (n.depth, at));
    } else {
        assert(n.path is None);
        let left = q[0] == Side::Left;
        let c = if left { *n.left->0 } else { *n.right->0 };
        let q1 = q.drop_first();
        assert(c.wf());
        let at2 = at.push(if left { Side::Left } else { Side::Right });
        assert(c.path is None) by {
            if c.path is Some {
                if q1.len() > 0 {
                    assert(c.left is None && c.right is None);
                }
            }
        }
        lemma_branch_listed(c, at2, q1);
        assert(at2 + q1 =~= at + q);
        let x = (n.subtree(q)->0.depth, at + q);
        let sub = c.match_entries(at2);
        let k = choose|k: int| 0 <= k < sub.len() && sub[k] == x;
        if left {
            assert(sub == ls);
            assert(all[k] == x);
        } else {
            assert(sub == rs);
            assert(all[ls.len() + k] == x);
        }
    }
}


/// In the order in which the matches are played (shallowest first), every
/// match below a match comes before it: when match `j` is reached, all the
/// matches its contenders came through have been played.
pub proof fn lemma_sub_matches_earlier(r: Node, t: Seq<MatchEntry>, j: int, q: Seq<Side>)
    requires
        r.wf(),
        stable_depth_sort_of(t, r.match_entries(seq![])),
        0 <= j < t.len(),
        q.len() > 0,
        r.subtree(t[j].1 + q) matches Some(m) && m.path is None,
    ensures
        exists|i: int| 0 <= i < j && t[i].1 == t[j].1 + q,
{
    let s = r.match_entries(seq![]);
    let a = t[j].1;
    lemma_sort_same_members(t, s, t[j]);
    assert(t.contains(t[j]));
    let k = choose|k: int| 0 <= k < s.len() && s[k] == t[j];
    lemma_match_entries_addr(r, seq![]);
    assert(s[k].1.skip(0) =~= a);
    let x = r.subtree(a)->0;
    assert(x.depth == t[j].0);
    lemma_subtree_concat(r, a, q);
    lemma_subtree_wf(r, a);
    lemma_subtree_wf(x, q);
    let m = x.subtree(q)->0;
    assert(m.depth < t[j].0);
    lemma_branch_listed(r, seq![], a + q);
    assert(seq![] + (a + q) =~= a + q);
    let e = (m.depth, a + q);
    assert(s.contains(e));
    lemma_sort_same_members(t, s, e);
    let i = choose|i: int| 0 <= i < t.len() && t[i] == e;
    if i >= j {
        assert(t[j].0 <= t[i].0);
    }
}

/// Every match in the subtree of `n` has been decided.
pub open spec fn all_decided(n: Node) -> bool {
    forall|q: Seq<Side>| #[trigger] n.subtree(q) matches Some(m) ==> (m.path is None ==> m.decision
        != Decision::Undef)
}

/// Once every match of a well-formed tree has been decided, the tree has a
/// winner, and it is one of its candidates.
pub proof fn lemma_all_decided_winner(n: Node)
    requires
        n.wf(),
        all_decided(n),
    ensures
        n.winner() matches Some(w) && n.leaves().contains(w),
    decreases n,
{
    assert(n.subtree(seq![]) == Some(n));
    if n.path is Some {
        assert(n.leaves() == own_leaf(n));
        assert(n.leaves()[0] == n.path->0@);
    } else {
        let l = *n.left->0;
        let r = *n.right->0;
        assert(l.wf() && r.wf());
        let c = if n.decision == Decision::Left { l } else { r };
        let side = if n.decision == Decision::Left { Side::Left } else { Side::Right };
        assert forall|q: Seq<Side>| (#[trigger] c.subtree(q) matches Some(m) ==> (m.path is None ==> m.decision
            != Decision::Undef)) by {
            let q2 = seq![side] + q;
            assert(q2[0] == side);
            assert(q2.drop_first() =~= q);
            assert(n.subtree(q2) == c.subtree(q));
        }
        lemma_all_decided_winner(c);
        assert(n.winner() == c.winner());
        let w = c.winner()->0;
        assert(n.leaves() == l.leaves() + own_leaf(n) + r.leaves());
        let k = choose|k: int| 0 <= k < c.leaves().len() && c.leaves()[k] == w;
        if n.decision == Decision::Left {
            assert(n.leaves()[k] == w);
        } else {
            assert(own_leaf(n).len() == 0);
            assert(n.leaves()[l.leaves().len() + k] == w);
        }
    }
}


/// The first `k` matches of the order `t` have been decided in `r`.
pub open spec fn decided_prefix(r: Node, t: Seq<MatchEntry>, k: int) -> bool {
    forall|i: int| 0 <= i < k ==> (r.subtree(#[trigger] t[i].1) matches Some(m) && m.decision
        != Decision::Undef)
}

/// The current winner of side `s` of the match at address `a`.
pub open spec fn side_winner(r: Node, a: Seq<Side>, s: Side) -> Option<Seq<char>> {
    match r.subtree(a.push(s)) {
        Some(c) => c.winner(),
        None => None,
    }
}

/// When every match before match `j` in the playing order has been decided,
/// both sides of match `j` have a known winner, each one of the candidates.
pub proof fn lemma_pair_known(r: Node, t: Seq<MatchEntry>, k: int, j: int, s: Side)
    requires
        r.wf(),
        stable_depth_sort_of(t, r.match_entries(seq![])),
        decided_prefix(r, t, k),
        0 <= j < t.len(),
        j <= k,
    ensures
        r.subtree(t[j].1.push(s)) matches Some(c) && c.winner() matches Some(w) && r.leaves().contains(
            w,
        ),
        side_winner(r, t[j].1, s) is Some,
{
    let a = t[j].1;
    let sq = seq![s];
    assert(a.push(s) =~= a + sq);
    let sv = r.match_entries(seq![]);
    lemma_sort_same_members(t, sv, t[j]);
    assert(t.contains(t[j]));
    let kk = choose|kk: int| 0 <= kk < sv.len() && sv[kk] == t[j];
    lemma_match_entries_addr(r, seq![]);
    assert(sv[kk].1.skip(0) =~= a);
    let x = r.subtree(a)->0;
    lemma_subtree_wf(r, a);
    assert(x.path is None);
    assert(x.left is Some && x.right is Some);
    lemma_subtree_concat(r, a, sq);
    assert(sq[0] == s);
    assert(sq.drop_first() =~= Seq::<Side>::empty());
    let c = if s == Side::Left { *x.left->0 } else { *x.right->0 };
    assert(c.subtree(sq.drop_first()) == Some(c));
    assert(x.subtree(sq) == Some(c));
    assert(r.subtree(a.push(s)) == Some(c));
    lemma_subtree_wf(r, a.push(s));
    assert forall|q: Seq<Side>| (#[trigger] c.subtree(q) matches Some(m) ==> (m.path is None ==> m.decision
        != Decision::Undef)) by {
        if c.subtree(q) is Some && c.subtree(q)->0.path is None {
            lemma_subtree_concat(r, a.push(s), q);
            assert(a.push(s) + q =~= a + (sq + q));
            assert((sq + q).len() > 0);
            lemma_sub_matches_earlier(r, t, j, sq + q);
            let i = choose|i: int| 0 <= i < j && t[i].1 == a + (sq + q);
            assert(r.subtree(t[i].1) == c.subtree(q));
        }
    }
    lemma_all_decided_winner(c);
    let w = c.winner()->0;
    lemma_subtree_leaves(r, a.push(s), w);
}

/// A candidate of a subtree is a candidate of the whole tree.
pub proof fn lemma_subtree_leaves(n: Node, q: Seq<Side>, w: Seq<char>)
    requires
        n.subtree(q) matches Some(m) && m.leaves().contains(w),
    ensures
        n.leaves().contains(w),
    decreases q.len(),
{
    if q.len() > 0 {
        let left = q[0] == Side::Left;
        let c = if left { *n.left->0 } else { *n.right->0 };
        lemma_subtree_leaves(c, q.drop_first(), w);
        let k = choose|k: int| 0 <= k < c.leaves().len() && c.leaves()[k] == w;
        assert(n.leaves() == opt_leaves(n.left) + own_leaf(n) + opt_leaves(n.right));
        if left {
            assert(n.leaves()[k] == w);
        } else {
            assert(n.leaves()[opt_leaves(n.left).len() + own_leaf(n).len() + k] == w);
        }
    }
}

/// Once every match in the playing order has been decided, the tree has a
/// winner, and it is one of its candidates.
pub proof fn lemma_all_played(r: Node, t: Seq<MatchEntry>)
    requires
        r.wf(),
        stable_depth_sort_of(t, r.match_entries(seq![])),
        decided_prefix(r, t, t.len() as int),
    ensures
        r.winner() matches Some(w) && r.leaves().contains(w),
{
    assert forall|q: Seq<Side>| (#[trigger] r.subtree(q) matches Some(m) ==> (m.path is None ==> m.decision
        != Decision::Undef)) by {
        if r.subtree(q) is Some && r.subtree(q)->0.path is None {
            lemma_branch_listed(r, seq![], q);
            assert(seq![] + q =~= q);
            let e = (r.subtree(q)->0.depth, q);
            lemma_sort_same_members(t, r.match_entries(seq![]), e);
            let i = choose|i: int| 0 <= i < t.len() && t[i] == e;
            assert(t[i].1 == q);
        }
    }
    lemma_all_decided_winner(r);
}


/// Each entry of the playing order addresses a match of `r` that has two
/// sides, and has that match's depth.
pub proof fn lemma_order_addr(r: Node, t: Seq<MatchEntry>, j: int)
    requires
        r.wf(),
        stable_depth_sort_of(t, r.match_entries(seq![])),
        0 <= j < t.len(),
    ensures
        r.subtree(t[j].1) matches Some(m) && m.path is None && m.depth == t[j].0 && m.wf(),
        r.subtree(t[j].1)->0.left is Some,
        r.subtree(t[j].1)->0.right is Some,
        r.subtree(t[j].1.push(Side::Left)) == Some(*r.subtree(t[j].1)->0.left->0),
        r.subtree(t[j].1.push(Side::Right)) == Some(*r.subtree(t[j].1)->0.right->0),
{
    let a = t[j].1;
    let sv = r.match_entries(seq![]);
    lemma_sort_same_members(t, sv, t[j]);
    assert(t.contains(t[j]));
    let kk = choose|kk: int| 0 <= kk < sv.len() && sv[kk] == t[j];
    lemma_match_entries_addr(r, seq![]);
    assert(sv[kk].1.skip(0) =~= a);
    let x = r.subtree(a)->0;
    lemma_subtree_wf(r, a);
    assert(x.left is Some && x.right is Some);
    let sl = seq![Side::Left];
    let sr = seq![Side::Right];
    assert(a.push(Side::Left) =~= a + sl);
    assert(a.push(Side::Right) =~= a + sr);
    lemma_subtree_concat(r, a, sl);
    lemma_subtree_concat(r, a, sr);
    assert(sl.drop_first() =~= Seq::<Side>::empty());
    assert(sr.drop_first() =~= Seq::<Side>::empty());
    assert(x.left->0.subtree(sl.drop_first()) == Some(*x.left->0));
    assert(x.right->0.subtree(sr.drop_first()) == Some(*x.right->0));
}

/// The sides of the first match played are both single candidates.
pub proof fn lemma_first_match_leaves(r: Node, t: Seq<MatchEntry>, s: Side)
    requires
        r.wf(),
        stable_depth_sort_of(t, r.match_entries(seq![])),
        t.len() > 0,
    ensures
        r.subtree(t[0].1.push(s)) matches Some(c) && c.path is Some,
{
    lemma_order_addr(r, t, 0);
    let sq = seq![s];
    assert(t[0].1.push(s) =~= t[0].1 + sq);
    if r.subtree(t[0].1.push(s))->0.path is None {
        lemma_sub_matches_earlier(r, t, 0, sq);
    }
}


/// The winner of a subtree, when there is one, is one of its candidates.
pub proof fn lemma_winner_is_candidate(n: Node)
    ensures
        n.winner() matches Some(w) ==> n.leaves().contains(w),
    decreases n,
{
    if let Some(w) = n.winner() {
        assert(n.leaves() == opt_leaves(n.left) + own_leaf(n) + opt_leaves(n.right));
        if n.path is Some {
            assert(n.leaves()[opt_leaves(n.left).len() as int] == w);
        } else if n.decision == Decision::Left {
            let c = *n.left->0;
            lemma_winner_is_candidate(c);
            let k = choose|k: int| 0 <= k < c.leaves().len() && c.leaves()[k] == w;
            assert(n.leaves()[k] == w);
        } else {
            let c = *n.right->0;
            lemma_winner_is_candidate(c);
            let k = choose|k: int| 0 <= k < c.leaves().len() && c.leaves()[k] == w;
            assert(own_leaf(n).len() == 0);
            assert(n.leaves()[opt_leaves(n.left).len() + k] == w);
        }
    }
}

/// There is no undecided match left to play exactly when every match of
/// the tree has been decided.
pub proof fn lemma_next_undef_none(n: Node, at: Seq<Side>)
    ensures
        n.next_undef(at) is None <==> all_decided(n),
    decreases n,
{
    if let Some(c) = n.left {
        lemma_next_undef_none(*c, at.push(Side::Left));
    }
    if let Some(c) = n.right {
        lemma_next_undef_none(*c, at.push(Side::Right));
    }
    assert(n.subtree(seq![]) == Some(n));
    if n.next_undef(at) is None {
        assert forall|q: Seq<Side>| (#[trigger] n.subtree(q) matches Some(m) ==> (m.path is None ==> m.decision
            != Decision::Undef)) by {
            if q.len() > 0 && n.subtree(q) is Some {
                let left = q[0] == Side::Left;
                let c = if left { *n.left->0 } else { *n.right->0 };
                assert(n.subtree(q) == c.subtree(q.drop_first()));
                assert(all_decided(c));
            }
        }
    } else {
        if !(n.decision == Decision::Undef && n.path is None) {
            if n.left is Some && n.left->0.next_undef(at.push(Side::Left)) is Some {
                let c = *n.left->0;
                let q = choose|q: Seq<Side>| (#[trigger] c.subtree(q) matches Some(m) && m.path is None
                    && m.decision == Decision::Undef);
                let q2 = seq![Side::Left] + q;
                assert(q2[0] == Side::Left);
                assert(q2.drop_first() =~= q);
                assert(n.subtree(q2) == c.subtree(q));
            } else {
                let c = *n.right->0;
                let q = choose|q: Seq<Side>| (#[trigger] c.subtree(q) matches Some(m) && m.path is None
                    && m.decision == Decision::Undef);
                let q2 = seq![Side::Right] + q;
                assert(q2[0] == Side::Right);
                assert(q2.drop_first() =~= q);
                assert(n.subtree(q2) == c.subtree(q));
            }
        }
    }
}

} // verus!
