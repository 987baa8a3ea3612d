use vstd::prelude::*;

use crate::match_list::{
    at_depth, lemma_at_depth_push, lemma_match_entries_addr, lemma_sort_same_members, stable_depth_sort_of, MatchEntry,
};
use crate::tree_laws::{
    all_decided, decided_prefix, lemma_all_decided_winner, lemma_branch_listed, lemma_subtree_concat,
    lemma_subtree_wf,
};
use crate::tree_util::{Decision, Node, Side};
use crate::tree_walk::{candidate_has_sides, lemma_next_undef_addr};

verus! {

/// Address `a` lies left of address `b`: where they first differ, `a`
/// goes to the left side and `b` to the right one.
pub open spec fn left_of(a: Seq<Side>, b: Seq<Side>) -> bool {
    exists|i: int|
        0 <= i < a.len() && i < b.len() && #[trigger] a.take(i) == b.take(i) && a[i] == Side::Left
            && b[i] == Side::Right
}

/// `b` is a proper prefix of `a`: `a` lies strictly below `b`.
pub open spec fn strictly_below(a: Seq<Side>, b: Seq<Side>) -> bool {
    b.len() < a.len() && a.take(b.len() as int) == b
}

/// The node at `q` below `n` is an undecided match.
pub open spec fn undecided_at(n: Node, q: Seq<Side>) -> bool {
    n.subtree(q) matches Some(m) && m.path is None && m.decision == Decision::Undef
}

/// "Left of" is a strict order: no address lies left of itself, and of two
/// addresses at most one lies left of the other.
pub proof fn lemma_left_of_asymmetric(a: Seq<Side>, b: Seq<Side>)
    ensures
        left_of(a, b) ==> !left_of(b, a),
        !left_of(a, a),
{
    if left_of(a, b) && left_of(b, a) {
        let i = choose|i: int|
            0 <= i < a.len() && i < b.len() && #[trigger] a.take(i) == b.take(i) && a[i] == Side::Left
                && b[i] == Side::Right;
        let k = choose|k: int|
            0 <= k < b.len() && k < a.len() && #[trigger] b.take(k) == a.take(k) && b[k] == Side::Left
                && a[k] == Side::Right;
        if i < k {
            assert(a.take(k)[i] == b.take(k)[i]);
        } else if k < i {
            assert(a.take(i)[k] == b.take(i)[k]);
        }
    }
    if left_of(a, a) {
        let i = choose|i: int|
            0 <= i < a.len() && i < a.len() && #[trigger] a.take(i) == a.take(i) && a[i] == Side::Left
                && a[i] == Side::Right;
    }
}

/// When an address starts with `at` then `s0`, and another with `at` then
/// `s1`, and `s0` is left while `s1` is right, the first lies left of the
/// second.
proof fn lemma_left_of_split(a: Seq<Side>, b: Seq<Side>, at: Seq<Side>)
    requires
        a.len() > at.len(),
        b.len() > at.len(),
        a.take(at.len() + 1 as int) == at.push(Side::Left),
        b.take(at.len() + 1 as int) == at.push(Side::Right),
    ensures
        left_of(a, b),
{
    let k = at.len() as int;
    assert(a[k] == a.take(k + 1)[k]);
    assert(b[k] == b.take(k + 1)[k]);
    assert(a.take(k) =~= a.take(k + 1).take(k));
    assert(b.take(k) =~= b.take(k + 1).take(k));
    assert(at.push(Side::Left).take(k) =~= at);
    assert(at.push(Side::Right).take(k) =~= at);
    assert(a.take(k) == b.take(k));
}

/// The match that `next_undef` picks (addresses prefixed by `at`) is an
/// undecided match of least depth, and of the undecided matches of that
/// depth it lies leftmost.
pub proof fn lemma_next_undef_least(n: Node, at: Seq<Side>, q: Seq<Side>)
    requires
        n.wf(),
        undecided_at(n, q),
    ensures
        n.next_undef(at) matches Some(e) && e.0 <= n.subtree(q)->0.depth && (n.subtree(q)->0.depth
            == e.0 && e.1 != at + q ==> left_of(e.1, at + q)),
    decreases n,
{
    let own = if n.decision == Decision::Undef && n.path is None {
        Some((n.depth, at))
    } else {
        None
    };
    let l = match n.left {
        Some(c) => c.next_undef(at.push(Side::Left)),
        None => None,
    };
    let r = match n.right {
        Some(c) => c.next_undef(at.push(Side::Right)),
        None => None,
    };
    let e0 = n.next_undef(at);
    assert(e0 == crate::tree_walk::first_min(crate::tree_walk::first_min(own, l), r));
    if n.path is Some {
        // a leaf has no match below it
        if q.len() > 0 {
            assert(n.left is None && n.right is None);
        }
        assert(false);
    }
    let lc = *n.left->0;
    let rc = *n.right->0;
    assert(lc.wf() && rc.wf());
    // the matches found below either side are shallower than `n`
    lemma_next_undef_addr(lc, at.push(Side::Left));
    lemma_next_undef_addr(rc, at.push(Side::Right));
    if l is Some {
        let x = l->0;
        lemma_subtree_wf(lc, x.1.skip(at.len() + 1 as int));
        assert(x.0 < n.depth);
    }
    if r is Some {
        let x = r->0;
        lemma_subtree_wf(rc, x.1.skip(at.len() + 1 as int));
        assert(x.0 < n.depth);
    }
    let d = n.subtree(q)->0.depth;
    if q.len() == 0 {
        assert(at + q =~= at);
        assert(own == Some((n.depth, at)));
    } else {
        let q1 = q.drop_first();
        let left = q[0] == Side::Left;
        let c = if left { lc } else { rc };
        let at2 = at.push(if left { Side::Left } else { Side::Right });
        assert(n.subtree(q) == c.subtree(q1));
        lemma_next_undef_least(c, at2, q1);
        assert(at2 + q1 =~= at + q);
        let x = c.next_undef(at2)->0;
        if left {
            assert(l == Some(x));
            assert(crate::tree_walk::first_min(own, l) == l);
            let ev = e0->0;
            if d == ev.0 && ev.1 != at + q {
                if e0 == r && r != l {
                    assert(false);
                }
            }
        } else {
            assert(r == Some(x));
            let ev = e0->0;
            if d == ev.0 && ev.1 != at + q {
                if e0 != r {
                    assert(e0 == l);
                    let y = l->0;
                    assert((at + q)[at.len() as int] == q[0]);
                    assert((at + q).take(at.len() + 1 as int) =~= at.push(Side::Right));
                    lemma_left_of_split(y.1, at + q, at);
                }
            }
        }
    }
}

/// In a well-formed tree the match that `next_undef` picks has both sides.
pub proof fn lemma_wf_candidate_has_sides(root: Node)
    requires
        root.wf(),
    ensures
        candidate_has_sides(root),
{
    lemma_next_undef_addr(root, seq![]);
    if let Some(e) = root.next_undef(seq![]) {
        assert(e.1.skip(0) =~= e.1);
        lemma_subtree_wf(root, e.1);
    }
}

/// In a well-formed tree, both sides of the match that `next_undef` picks
/// have a winner: every match below it is shallower, hence decided.
pub proof fn lemma_next_undef_sides_known(root: Node, s: Side)
    requires
        root.wf(),
        root.next_undef(seq![]) is Some,
    ensures
        root.next_undef(seq![]) matches Some(e) && root.subtree(e.1.push(s)) matches Some(c)
            && c.winner() is Some,
{
    let e = root.next_undef(seq![])->0;
    lemma_next_undef_addr(root, seq![]);
    assert(e.1.skip(0) =~= e.1);
    let x = root.subtree(e.1)->0;
    lemma_subtree_wf(root, e.1);
    let sq = seq![s];
    assert(e.1.push(s) =~= e.1 + sq);
    lemma_subtree_concat(root, e.1, sq);
    assert(sq.drop_first() =~= Seq::<Side>::empty());
    let c = if s == Side::Left { *x.left->0 } else { *x.right->0 };
    assert(c.subtree(sq.drop_first()) == Some(c));
    assert(x.subtree(sq) == Some(c));
    lemma_subtree_wf(root, e.1.push(s));
    assert forall|q: Seq<Side>| (#[trigger] c.subtree(q) matches Some(m) ==> (m.path is None ==> m.decision
        != Decision::Undef)) by {
        if c.subtree(q) is Some && c.subtree(q)->0.path is None && c.subtree(q)->0.decision == Decision::Undef {
            lemma_subtree_concat(root, e.1.push(s), q);
            lemma_subtree_wf(c, q);
            lemma_next_undef_least(root, seq![], e.1.push(s) + q);
        }
    }
    lemma_all_decided_winner(c);
}


/// The matches of `n` come in post-order: of two of them, the earlier one
/// lies left of the later one or strictly below it.
pub proof fn lemma_entries_post_order(n: Node, at: Seq<Side>)
    ensures
        forall|i: int, j: int|
            0 <= i < j < n.match_entries(at).len() ==> left_of(
                #[trigger] n.match_entries(at)[i].1,
                #[trigger] n.match_entries(at)[j].1,
            ) || strictly_below(n.match_entries(at)[i].1, n.match_entries(at)[j].1),
    decreases n,
{
    let at_l = at.push(Side::Left);
    let at_r = at.push(Side::Right);
    let ls = match n.left {
        Some(c) => if c.path is None { c.match_entries(at_l) } else { Seq::empty() },
        None => Seq::empty(),
    };
    let rs = match n.right {
        Some(c) => if c.path is None { c.match_entries(at_r) } else { Seq::empty() },
        None => Seq::empty(),
    };
    let own = if n.path is None { seq![(n.depth, at)] } else { Seq::<MatchEntry>::empty() };
    let all = n.match_entries(at);
    assert(all == ls + rs + own);
    if let Some(c) = n.left {
        lemma_entries_post_order(*c, at_l);
        lemma_match_entries_addr(*c, at_l);
    }
    if let Some(c) = n.right {
        lemma_entries_post_order(*c, at_r);
        lemma_match_entries_addr(*c, at_r);
    }
    assert forall|i: int, j: int| 0 <= i < j < all.len() implies left_of(
        #[trigger] all[i].1,
        #[trigger] all[j].1,
    ) || strictly_below(all[i].1, all[j].1) by {
        let a = all[i].1;
        let b = all[j].1;
        let k = at.len() as int;
        if j < ls.len() {
            assert(all[i] == ls[i] && all[j] == ls[j]);
        } else if i >= ls.len() && j < ls.len() + rs.len() {
            assert(all[i] == rs[i - ls.len()] && all[j] == rs[j - ls.len()]);
        } else if i < ls.len() && j < ls.len() + rs.len() {
            assert(all[i] == ls[i] && all[j] == rs[j - ls.len()]);
            assert(a.take(at_l.len() as int) == at_l);
            assert(b.take(at_r.len() as int) == at_r);
            lemma_left_of_split(a, b, at);
        } else {
            assert(b == at);
            if i < ls.len() {
                assert(all[i] == ls[i]);
                assert(a.take(at_l.len() as int) == at_l);
                assert(a.take(k) =~= a.take(k + 1).take(k));
                assert(at_l.take(k) =~= at);
            } else {
                assert(all[i] == rs[i - ls.len()]);
                assert(a.take(at_r.len() as int) == at_r);
                assert(a.take(k) =~= a.take(k + 1).take(k));
                assert(at_r.take(k) =~= at);
            }
        }
    }
}

/// An entry of depth `d` has a place among the entries of depth `d`, and
/// every entry there comes from the sequence.
proof fn lemma_at_depth_index(x: Seq<MatchEntry>, d: usize)
    ensures
        forall|i: int| 0 <= i < x.len() && x[i].0 == d ==> exists|i2: int|
            0 <= i2 < at_depth(x, d).len() && #[trigger] at_depth(x, d)[i2] == #[trigger] x[i],
        forall|i2: int| 0 <= i2 < at_depth(x, d).len() ==> exists|i: int|
            0 <= i < x.len() && #[trigger] x[i] == #[trigger] at_depth(x, d)[i2],
    decreases x.len(),
{
    if x.len() == 0 {
        reveal(Seq::filter);
    } else {
        let dl = x.drop_last();
        assert(dl.push(x.last()) =~= x);
        lemma_at_depth_push(dl, x.last(), d);
        lemma_at_depth_index(dl, d);
        assert forall|i: int| 0 <= i < x.len() && x[i].0 == d implies exists|i2: int|
            0 <= i2 < at_depth(x, d).len() && #[trigger] at_depth(x, d)[i2] == #[trigger] x[i] by {
            if i == x.len() - 1 {
                assert(at_depth(x, d)[at_depth(dl, d).len() as int] == x[i]);
            } else {
                assert(dl[i] == x[i]);
                let i2 = choose|i2: int| 0 <= i2 < at_depth(dl, d).len() && #[trigger] at_depth(dl, d)[i2] == dl[i];
                assert(at_depth(x, d)[i2] == x[i]);
            }
        }
        assert forall|i2: int| 0 <= i2 < at_depth(x, d).len() implies exists|i: int|
            0 <= i < x.len() && #[trigger] x[i] == #[trigger] at_depth(x, d)[i2] by {
            if i2 < at_depth(dl, d).len() {
                assert(at_depth(x, d)[i2] == at_depth(dl, d)[i2]);
                let i = choose|i: int| 0 <= i < dl.len() && #[trigger] dl[i] == at_depth(dl, d)[i2];
                assert(x[i] == dl[i]);
            } else {
                assert(x[x.len() - 1] == at_depth(x, d)[i2]);
            }
        }
    }
}

/// Two entries of depth `d` keep their order among the entries of depth `d`.
proof fn lemma_at_depth_pair(x: Seq<MatchEntry>, d: usize, i: int, j: int)
    requires
        0 <= i < j < x.len(),
        x[i].0 == d,
        x[j].0 == d,
    ensures
        exists|i2: int, j2: int|
            0 <= i2 < j2 < at_depth(x, d).len() && at_depth(x, d)[i2] == x[i] && at_depth(x, d)[j2] == x[j],
    decreases x.len(),
{
    let dl = x.drop_last();
    assert(dl.push(x.last()) =~= x);
    lemma_at_depth_push(dl, x.last(), d);
    if j == x.len() - 1 {
        assert(dl[i] == x[i]);
        lemma_at_depth_index(dl, d);
        let i2 = choose|i2: int| 0 <= i2 < at_depth(dl, d).len() && #[trigger] at_depth(dl, d)[i2] == dl[i];
        let j2 = at_depth(dl, d).len() as int;
        assert(at_depth(x, d)[i2] == x[i] && at_depth(x, d)[j2] == x[j]);
    } else {
        assert(dl[i] == x[i] && dl[j] == x[j]);
        lemma_at_depth_pair(dl, d, i, j);
        let (i2, j2) = choose|i2: int, j2: int|
            0 <= i2 < j2 < at_depth(dl, d).len() && at_depth(dl, d)[i2] == dl[i] && at_depth(dl, d)[j2]
                == dl[j];
        assert(at_depth(x, d)[i2] == x[i] && at_depth(x, d)[j2] == x[j]);
    }
}

/// Two entries among those of depth `d` come from two entries of the
/// sequence in the same order.
proof fn lemma_at_depth_pair_rev(x: Seq<MatchEntry>, d: usize, i2: int, j2: int)
    requires
        0 <= i2 < j2 < at_depth(x, d).len(),
    ensures
        exists|i: int, j: int|
            0 <= i < j < x.len() && x[i] == at_depth(x, d)[i2] && x[j] == at_depth(x, d)[j2],
    decreases x.len(),
{
    let dl = x.drop_last();
    assert(dl.push(x.last()) =~= x);
    lemma_at_depth_push(dl, x.last(), d);
    if x.last().0 == d && j2 == at_depth(dl, d).len() {
        lemma_at_depth_index(dl, d);
        let i = choose|i: int| 0 <= i < dl.len() && #[trigger] dl[i] == #[trigger] at_depth(dl, d)[i2];
        assert(x[i] == dl[i]);
        assert(at_depth(x, d)[i2] == at_depth(dl, d)[i2]);
        assert(x[x.len() - 1] == at_depth(x, d)[j2]);
    } else {
        lemma_at_depth_pair_rev(dl, d, i2, j2);
        let (i, j) = choose|i: int, j: int|
            0 <= i < j < dl.len() && dl[i] == at_depth(dl, d)[i2] && dl[j] == at_depth(dl, d)[j2];
        assert(x[i] == dl[i] && x[j] == dl[j]);
    }
}

/// In a well-formed tree, of two matches of equal depth in the playing
/// order, the earlier one lies left of the later one.
pub proof fn lemma_order_left_to_right(r: Node, t: Seq<MatchEntry>, i: int, k: int)
    requires
        r.wf(),
        stable_depth_sort_of(t, r.match_entries(seq![])),
        0 <= i < k < t.len(),
        t[i].0 == t[k].0,
    ensures
        left_of(t[i].1, t[k].1),
{
    let s = r.match_entries(seq![]);
    let d = t[k].0;
    lemma_at_depth_pair(t, d, i, k);
    let (i2, j2) = choose|i2: int, j2: int|
        0 <= i2 < j2 < at_depth(t, d).len() && at_depth(t, d)[i2] == t[i] && at_depth(t, d)[j2] == t[k];
    assert(at_depth(t, d) == at_depth(s, d));
    lemma_at_depth_pair_rev(s, d, i2, j2);
    let (a, b) = choose|a: int, b: int|
        0 <= a < b < s.len() && s[a] == at_depth(s, d)[i2] && s[b] == at_depth(s, d)[j2];
    lemma_entries_post_order(r, seq![]);
    assert(left_of(s[a].1, s[b].1) || strictly_below(s[a].1, s[b].1));
    if strictly_below(s[a].1, s[b].1) {
        // a match strictly below another is shallower
        lemma_match_entries_addr(r, seq![]);
        assert(s[a].1.skip(0) =~= s[a].1);
        assert(s[b].1.skip(0) =~= s[b].1);
        let x = s[b].1;
        let rest = s[a].1.skip(x.len() as int);
        assert(s[a].1 =~= x + rest);
        lemma_subtree_concat(r, x, rest);
        lemma_subtree_wf(r, x);
        lemma_subtree_wf(r.subtree(x)->0, rest);
        assert(false);
    }
}

/// The next match to play is the first undecided one in the playing order:
/// when `next_undef` finds a match, it is the entry `k` of the order and
/// every entry before `k` is decided; when it finds none, every entry is
/// decided.
pub proof fn lemma_next_is_first_undecided(r: Node, t: Seq<MatchEntry>)
    requires
        r.wf(),
        stable_depth_sort_of(t, r.match_entries(seq![])),
    ensures
        r.next_undef(seq![]) matches Some(e) ==> exists|k: int|
            0 <= k < t.len() && t[k] == e && decided_prefix(r, t, k),
        r.next_undef(seq![]) is None ==> decided_prefix(r, t, t.len() as int),
{
    let s = r.match_entries(seq![]);
    lemma_match_entries_addr(r, seq![]);
    // each entry of the order addresses a match of its depth
    assert forall|i: int| 0 <= i < t.len() implies (r.subtree(#[trigger] t[i].1) matches Some(m)
        && m.path is None && m.depth == t[i].0) by {
        lemma_sort_same_members(t, s, t[i]);
        assert(t.contains(t[i]));
        let j = choose|j: int| 0 <= j < s.len() && s[j] == t[i];
        assert(s[j].1.skip(0) =~= s[j].1);
    }
    match r.next_undef(seq![]) {
        None => {
            crate::tree_laws::lemma_next_undef_none(r, seq![]);
            assert forall|i: int| 0 <= i < t.len() implies (r.subtree(#[trigger] t[i].1) matches Some(m)
                && m.decision != Decision::Undef) by {
                assert(all_decided(r));
                assert(r.subtree(t[i].1) is Some);
            }
        },
        Some(e) => {
            lemma_next_undef_addr(r, seq![]);
            assert(e.1.skip(0) =~= e.1);
            lemma_branch_listed(r, seq![], e.1);
            assert(seq![] + e.1 =~= e.1);
            assert(s.contains(e));
            lemma_sort_same_members(t, s, e);
            let k = choose|k: int| 0 <= k < t.len() && t[k] == e;
            assert forall|i: int| 0 <= i < k implies (r.subtree(#[trigger] t[i].1) matches Some(m)
                && m.decision != Decision::Undef) by {
                if r.subtree(t[i].1)->0.decision == Decision::Undef {
                    lemma_next_undef_least(r, seq![], t[i].1);
                    assert(seq![] + t[i].1 =~= t[i].1);
                    assert(t[i].0 <= t[k].0);
                    lemma_order_left_to_right(r, t, i, k);
                    lemma_left_of_asymmetric(t[i].1, e.1);
                    lemma_left_of_asymmetric(e.1, e.1);
                }
            }
        },
    }
}

} // verus!
