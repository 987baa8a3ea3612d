use vstd::prelude::*;

use crate::imtr_preview::{click_decision, DivState};
use crate::month_img_list::{
    ascii_lower, ascii_lower_seq, image_extensions, lemma_month_files_push, month_files, DatedFile,
};
use crate::tree_util::{spec_insert, Decision, Node, Side};

verus! {

/// How a winner is found, case by case: a leaf wins its own subtree; an
/// undecided match has no winner yet; a match decided for the left side is
/// won by the winner of its left side, and one decided for the right side
/// by the winner of its right side.
pub proof fn lemma_winner_follows_decision(n: Node)
    ensures
        n.path matches Some(p) ==> n.winner() == Some(p@),
        n.path is None && n.decision == Decision::Undef ==> n.winner() is None,
        n.path is None && n.decision == Decision::Left ==> n.winner() == match n.left {
            Some(l) => l.winner(),
            None => None,
        },
        n.path is None && n.decision == Decision::Right ==> n.winner() == match n.right {
            Some(r) => r.winner(),
            None => None,
        },
{
}

/// The node at `q` lies on the way the decisions take from `n`: every node
/// strictly above it is a match decided for the side `q` takes there.
pub open spec fn on_decided_way(n: Node, q: Seq<Side>) -> bool {
    forall|i: int|
        0 <= i < q.len() ==> (#[trigger] n.subtree(q.take(i)) matches Some(m) && m.path is None && (
        if q[i] == Side::Left {
            m.decision == Decision::Left
        } else {
            m.decision == Decision::Right
        }))
}

/// The candidate held by the node at `q` below `n`, if that node is a leaf.
pub open spec fn leaf_path_at(n: Node, q: Seq<Side>) -> Option<Seq<char>> {
    match n.subtree(q) {
        Some(m) => match m.path {
            Some(p) => Some(p@),
            None => None,
        },
        None => None,
    }
}

/// The winner of a subtree is the candidate of the leaf that the decisions
/// lead to from its root, and there is none when they lead to no leaf.
pub proof fn lemma_winner_is_leaf_on_decided_way(n: Node)
    ensures
        n.winner() matches Some(w) ==> exists|q: Seq<Side>|
            on_decided_way(n, q) && #[trigger] leaf_path_at(n, q) == Some(w),
    decreases n,
{
    if let Some(w) = n.winner() {
        if let Some(p) = n.path {
            let q = Seq::<Side>::empty();
            assert(n.subtree(q) == Some(n));
            assert(on_decided_way(n, q));
            assert(leaf_path_at(n, q) == Some(w));
        } else {
            let left = n.decision == Decision::Left;
            let s = if left { Side::Left } else { Side::Right };
            let c = if left { *n.left->0 } else { *n.right->0 };
            lemma_winner_is_leaf_on_decided_way(c);
            let q1 = choose|q: Seq<Side>| on_decided_way(c, q) && #[trigger] leaf_path_at(c, q) == Some(w);
            let q = seq![s] + q1;
            assert(q[0] == s);
            assert(q.drop_first() =~= q1);
            assert(n.subtree(q) == c.subtree(q1));
            assert(leaf_path_at(n, q) == leaf_path_at(c, q1));
            assert forall|i: int| 0 <= i < q.len() implies (#[trigger] n.subtree(q.take(i)) matches Some(m)
                && m.path is None && (if q[i] == Side::Left {
                m.decision == Decision::Left
            } else {
                m.decision == Decision::Right
            })) by {
                if i == 0 {
                    assert(q.take(0) =~= Seq::<Side>::empty());
                } else {
                    let qi = q.take(i);
                    assert(qi[0] == s);
                    assert(qi.drop_first() =~= q1.take(i - 1));
                    assert(n.subtree(qi) == c.subtree(q1.take(i - 1)));
                    assert(q[i] == q1[i - 1]);
                    assert(c.subtree(q1.take(i - 1)) matches Some(m) && m.path is None);
                }
            }
        }
    }
}


/// The date filter keeps exactly the files last modified in month `m` of
/// year `y`: each file it keeps is one of `files` and has that date, every
/// file of `files` with that date is kept, and no other file is.
pub proof fn lemma_month_filter_exact(files: Seq<DatedFile>, y: i32, m: u32)
    ensures
        forall|k: int|
            0 <= k < month_files(files, y, m).len() ==> (#[trigger] month_files(files, y, m)[k]).modified
                == Some((y, m)) && files.contains(month_files(files, y, m)[k]),
        forall|j: int|
            0 <= j < files.len() ==> (month_files(files, y, m).contains(#[trigger] files[j]) <==> files[j].modified
                == Some((y, m))),
    decreases files.len(),
{
    if files.len() == 0 {
        reveal(Seq::filter);
    } else {
        let dl = files.drop_last();
        let x = files.last();
        assert(dl.push(x) =~= files);
        lemma_month_files_push(dl, x, y, m);
        lemma_month_filter_exact(dl, y, m);
        let kd = month_files(dl, y, m);
        let kf = month_files(files, y, m);
        assert forall|k: int| 0 <= k < kf.len() implies (#[trigger] kf[k]).modified == Some((y, m))
            && files.contains(kf[k]) by {
            if k < kd.len() {
                assert(kf[k] == kd[k]);
                let j = choose|j: int| 0 <= j < dl.len() && dl[j] == kd[k];
                assert(files[j] == dl[j]);
            } else {
                assert(kf[k] == x);
                assert(files[files.len() - 1] == x);
            }
        }
        assert forall|j: int| 0 <= j < files.len() implies (kf.contains(#[trigger] files[j])
            <==> files[j].modified == Some((y, m))) by {
            if kf.contains(files[j]) {
                let k = choose|k: int| 0 <= k < kf.len() && kf[k] == files[j];
                assert(kf[k].modified == Some((y, m)));
            }
            if files[j].modified == Some((y, m)) {
                if j < dl.len() {
                    assert(files[j] == dl[j]);
                    assert(kd.contains(dl[j]));
                    let k = choose|k: int| 0 <= k < kd.len() && kd[k] == dl[j];
                    assert(kf[k] == kd[k]);
                } else {
                    assert(files[j] == x);
                    assert(kf[kf.len() - 1] == x);
                }
            }
        }
    }
}

/// Lower-casing an ASCII letter adds 32 to its code (so `A`..`Z` become
/// `a`..`z`); every other character is left as it is; the result is never
/// an upper-case ASCII letter, and lower-casing twice changes nothing more.
pub proof fn lemma_ascii_lower(c: char)
    ensures
        'A' <= c <= 'Z' ==> ascii_lower(c) as u32 == c as u32 + 32,
        !('A' <= c <= 'Z') ==> ascii_lower(c) == c,
        !('A' <= ascii_lower(c) <= 'Z'),
        ascii_lower(ascii_lower(c)) == ascii_lower(c),
{
}

/// Two texts that differ only in the case of their ASCII letters.
pub open spec fn same_ignoring_ascii_case(a: Seq<char>, b: Seq<char>) -> bool {
    &&& a.len() == b.len()
    &&& forall|i: int|
        0 <= i < a.len() ==> #[trigger] a[i] == b[i] || ('A' <= a[i] <= 'Z' && b[i] as u32 == a[i] as u32
            + 32) || ('A' <= b[i] <= 'Z' && a[i] as u32 == b[i] as u32 + 32)
}

/// The image extensions are written in lower case, and whether an
/// extension is an image extension does not depend on the case of its
/// ASCII letters.
pub proof fn lemma_image_extension_ignores_case(a: Seq<char>, b: Seq<char>)
    requires
        same_ignoring_ascii_case(a, b),
    ensures
        ascii_lower_seq(a) == ascii_lower_seq(b),
        image_extensions().contains(ascii_lower_seq(a)) == image_extensions().contains(ascii_lower_seq(b)),
        forall|k: int, i: int|
            0 <= k < image_extensions().len() && 0 <= i < image_extensions()[k].len() ==> !('A'
                <= #[trigger] image_extensions()[k][i] <= 'Z'),
{
    assert forall|i: int| 0 <= i < a.len() implies #[trigger] ascii_lower(a[i]) == ascii_lower(b[i]) by {
        lemma_ascii_lower(a[i]);
        lemma_ascii_lower(b[i]);
    }
    assert(ascii_lower_seq(a) =~= ascii_lower_seq(b));
}


/// Half of a size, rounded towards zero, written out.
pub open spec fn half_toward_zero(v: int) -> int {
    if v >= 0 {
        v / 2
    } else {
        -((-v) / 2)
    }
}

/// A click chooses by the half of the preview it falls in: with the
/// images one above the other, only its height counts (the upper image is
/// the left one); with the images side by side, only its position across
/// counts (the left image is the left one); an undivided preview always
/// gives the right one. A click never leaves the choice undecided.
pub proof fn lemma_click_by_half(x: i32, y: i32, width: i32, height: i32, x2: i32, y2: i32)
    ensures
        (click_decision(DivState::H, x, y, width, height) == Decision::Left) == (y < half_toward_zero(
            height as int,
        )),
        click_decision(DivState::H, x, y, width, height) == click_decision(DivState::H, x2, y, width, height),
        (click_decision(DivState::V, x, y, width, height) == Decision::Left) == (x < half_toward_zero(
            width as int,
        )),
        click_decision(DivState::V, x, y, width, height) == click_decision(DivState::V, x, y2, width, height),
        click_decision(DivState::N, x, y, width, height) == Decision::Right,
        click_decision(DivState::H, x, y, width, height) != Decision::Undef,
        click_decision(DivState::V, x, y, width, height) != Decision::Undef,
{
}

/// Every node of `n` (the node itself and all below it) is undecided.
pub open spec fn all_undecided(n: Node) -> bool {
    forall|q: Seq<Side>| #[trigger] n.subtree(q) matches Some(m) ==> m.decision == Decision::Undef
}

/// Adding a candidate decides no match: a tree whose nodes are all
/// undecided stays so, including the match that a leaf becomes.
pub proof fn lemma_insert_decides_nothing(node: Option<Box<Node>>, path: String, opt: isize)
    requires
        node matches Some(t) ==> all_undecided(*t),
    ensures
        all_undecided(spec_insert(node, path, opt)),
    decreases node,
{
    let res = spec_insert(node, path, opt);
    match node {
        None => {
            assert forall|q: Seq<Side>| (#[trigger] res.subtree(q) matches Some(m) ==> m.decision
                == Decision::Undef) by {
                if q.len() > 0 {
                    assert(res.left is None && res.right is None);
                }
            }
        },
        Some(b) => {
            assert(b.subtree(Seq::<Side>::empty()) == Some(*b));
            match b.path {
                Some(p) => {
                    assert forall|q: Seq<Side>| (#[trigger] res.subtree(q) matches Some(m) ==> m.decision
                        == Decision::Undef) by {
                        if q.len() > 0 {
                            let c = if q[0] == Side::Left { Node::leaf(p, b.opt) } else { Node::leaf(path, opt) };
                            assert(res.subtree(q) == c.subtree(q.drop_first()));
                            if q.drop_first().len() > 0 {
                                assert(c.left is None && c.right is None);
                            }
                        }
                    }
                },
                None => {
                    let go_left = crate::tree_util::opt_depth(b.left) <= crate::tree_util::opt_depth(b.right);
                    let sub = if go_left { b.left } else { b.right };
                    if let Some(c) = sub {
                        assert forall|q: Seq<Side>| (#[trigger] c.subtree(q) matches Some(m) ==> m.decision
                            == Decision::Undef) by {
                            let q2 = seq![if go_left { Side::Left } else { Side::Right }] + q;
                            assert(q2.drop_first() =~= q);
                            assert(b.subtree(q2) == c.subtree(q));
                        }
                    }
                    lemma_insert_decides_nothing(sub, path, opt);
                    let nc = spec_insert(sub, path, opt);
                    assert forall|q: Seq<Side>| (#[trigger] res.subtree(q) matches Some(m) ==> m.decision
                        == Decision::Undef) by {
                        if q.len() > 0 {
                            let side_new = if go_left { Side::Left } else { Side::Right };
                            if q[0] == side_new {
                                assert(res.subtree(q) == nc.subtree(q.drop_first()));
                            } else {
                                assert(res.subtree(q) == b.subtree(q));
                            }
                        }
                    }
                },
            }
        },
    }
}

} // verus!
