use vstd::prelude::*;

use crate::tree_util::{Node, Side};

verus! {

/// A match as the tournament refers to it: its depth and its address, the
/// sides taken from the root to reach it.
pub type MatchEntry = (usize, Seq<Side>);

/// The spec view of an executable match entry.
pub open spec fn entry_view(e: (usize, Vec<Side>)) -> MatchEntry {
    (e.0, e.1@)
}

/// The spec view of a sequence of executable match entries.
pub open spec fn entries_view(s: Seq<(usize, Vec<Side>)>) -> Seq<MatchEntry> {
    s.map_values(|e: (usize, Vec<Side>)| entry_view(e))
}

impl Node {
    /// The node reached from this one by following the sides in `a`, if any.
    pub open spec fn subtree(self, a: Seq<Side>) -> Option<Node>
        decreases a.len(),
    {
        if a.len() == 0 {
            Some(self)
        } else {
            match (if a[0] == Side::Left { self.left } else { self.right }) {
                None => None,
                Some(c) => c.subtree(a.drop_first()),
            }
        }
    }

    /// The matches of this subtree, found by descending through matches only,
    /// in post-order (left side, right side, then the node itself), each with
    /// its depth and its address prefixed by `at`.
    pub open spec fn match_entries(self, at: Seq<Side>) -> Seq<MatchEntry>
        decreases self,
    {
        (match self.left {
            Some(c) => if c.path is None {
                c.match_entries(at.push(Side::Left))
            } else {
                Seq::empty()
            },
            None => Seq::empty(),
        }) + (match self.right {
            Some(c) => if c.path is None {
                c.match_entries(at.push(Side::Right))
            } else {
                Seq::empty()
            },
            None => Seq::empty(),
        }) + (if self.path is None {
            seq![(self.depth, at)]
        } else {
            Seq::empty()
        })
    }
}

/// A copy of the address `at` extended by one step `s`.
pub(crate) fn child_addr(at: &Vec<Side>, s: Side) -> (res: Vec<Side>)
    ensures
        res@ == at@.push(s),
{
    let mut res = child_addr_copy(at);
    res.push(s);
    res
}

/// Appends the matches of `n` (addresses prefixed by `at`) to `out`, in post-order.
fn collect_matches(n: &Node, at: &Vec<Side>, out: &mut Vec<(usize, Vec<Side>)>)
    ensures
        entries_view(final(out)@) == entries_view(old(out)@) + n.match_entries(at@),
    decreases n,
{
    let ghost start = entries_view(out@);
    if let Some(l) = &n.left {
        if l.path.is_none() {
            let a = child_addr(at, Side::Left);
            collect_matches(l, &a, out);
        }
    }
    let ghost mid = entries_view(out@);
    if let Some(r) = &n.right {
        if r.path.is_none() {
            let a = child_addr(at, Side::Right);
            collect_matches(r, &a, out);
        }
    }
    let ghost before = out@;
    if n.path.is_none() {
        let a = child_addr_copy(at);
        out.push((n.depth, a));
        assert(entries_view(out@) =~= entries_view(before).push((n.depth, at@)));
    }
    assert(entries_view(out@) =~= entries_view(old(out)@) + n.match_entries(at@));
}

/// A copy of the address `at`.
pub(crate) fn child_addr_copy(at: &Vec<Side>) -> (res: Vec<Side>)
    ensures
        res@ == at@,
{
    let mut res: Vec<Side> = Vec::new();
    let mut i: usize = 0;
    while i < at.len()
        invariant
            i <= at.len(),
            res@ == at@.take(i as int),
        decreases at.len() - i,
    {
        res.push(at[i]);
        i = i + 1;
        assert(res@ =~= at@.take(i as int));
    }
    assert(at@.take(i as int) =~= at@);
    res
}


/// The entries of `s` whose depth is `d`, in their order in `s`.
pub open spec fn at_depth(s: Seq<MatchEntry>, d: usize) -> Seq<MatchEntry> {
    s.filter(|e: MatchEntry| e.0 == d)
}

/// The entries of `s` come in ascending order of depth.
pub open spec fn depth_sorted(s: Seq<MatchEntry>) -> bool {
    forall|i: int, j: int| 0 <= i <= j < s.len() ==> s[i].0 <= s[j].0
}

/// `t` is `s` sorted by depth, entries of equal depth keeping their order.
pub open spec fn stable_depth_sort_of(t: Seq<MatchEntry>, s: Seq<MatchEntry>) -> bool {
    &&& depth_sorted(t)
    &&& forall|d: usize| #[trigger] at_depth(t, d) == at_depth(s, d)
}

/// Appending an entry appends it to the entries of its depth.
pub(crate) proof fn lemma_at_depth_push(s: Seq<MatchEntry>, x: MatchEntry, d: usize)
    ensures
        at_depth(s.push(x), d) == if x.0 == d {
            at_depth(s, d).push(x)
        } else {
            at_depth(s, d)
        },
{
    reveal(Seq::filter);
    assert(s.push(x).drop_last() =~= s);
}

/// No entry of depth `d` leaves nothing at depth `d`.
proof fn lemma_at_depth_none(s: Seq<MatchEntry>, d: usize)
    requires
        forall|i: int| 0 <= i < s.len() ==> s[i].0 != d,
    ensures
        at_depth(s, d) == Seq::<MatchEntry>::empty(),
    decreases s.len(),
{
    reveal(Seq::filter);
    if s.len() > 0 {
        lemma_at_depth_none(s.drop_last(), d);
    }
}

/// Taking the entries of one depth distributes over concatenation.
proof fn lemma_at_depth_add(a: Seq<MatchEntry>, b: Seq<MatchEntry>, d: usize)
    ensures
        at_depth(a + b, d) == at_depth(a, d) + at_depth(b, d),
{
    Seq::filter_distributes_over_add(a, b, |e: MatchEntry| e.0 == d);
}

/// Inserting `x` into the depth-sorted `w` just after the entries of depth
/// at most `x.0` keeps `w` depth-sorted and appends `x` to its entries of
/// the same depth.
proof fn lemma_insert_stable(w: Seq<MatchEntry>, j: int, x: MatchEntry)
    requires
        depth_sorted(w),
        0 <= j <= w.len(),
        forall|t: int| 0 <= t < j ==> w[t].0 <= x.0,
        forall|t: int| j <= t < w.len() ==> w[t].0 > x.0,
    ensures
        depth_sorted(w.insert(j, x)),
        forall|d: usize| #[trigger] at_depth(w.insert(j, x), d) == if x.0 == d {
            at_depth(w, d).push(x)
        } else {
            at_depth(w, d)
        },
{
    let w2 = w.insert(j, x);
    assert(w2 =~= w.take(j) + seq![x] + w.skip(j));
    assert(w =~= w.take(j) + w.skip(j));
    assert forall|d: usize| #[trigger] at_depth(w2, d) == if x.0 == d {
        at_depth(w, d).push(x)
    } else {
        at_depth(w, d)
    } by {
        lemma_at_depth_add(w.take(j) + seq![x], w.skip(j), d);
        lemma_at_depth_add(w.take(j), seq![x], d);
        lemma_at_depth_add(w.take(j), w.skip(j), d);
        lemma_at_depth_push(Seq::empty(), x, d);
        assert(Seq::<MatchEntry>::empty().push(x) =~= seq![x]);
        reveal(Seq::filter);
        assert(at_depth(Seq::<MatchEntry>::empty(), d) =~= Seq::<MatchEntry>::empty());
        if x.0 == d {
            lemma_at_depth_none(w.skip(j), d);
            assert(at_depth(w.take(j), d) + seq![x] =~= at_depth(w.take(j), d).push(x));
            assert(at_depth(w.take(j), d) + Seq::<MatchEntry>::empty() =~= at_depth(w.take(j), d));
        } else {
            assert(at_depth(w.take(j), d) + Seq::<MatchEntry>::empty() =~= at_depth(w.take(j), d));
        }
    }
}

/// A stable sort by depth keeps exactly the entries it was given.
pub proof fn lemma_sort_same_members(t: Seq<MatchEntry>, s: Seq<MatchEntry>, x: MatchEntry)
    requires
        stable_depth_sort_of(t, s),
    ensures
        t.contains(x) <==> s.contains(x),
{
    let p = |e: MatchEntry| e.0 == x.0;
    assert(at_depth(t, x.0) == at_depth(s, x.0));
    if t.contains(x) {
        let k = choose|k: int| 0 <= k < t.len() && t[k] == x;
        t.lemma_filter_contains(p, k);
        s.lemma_filter_contains_rev(p, x);
    }
    if s.contains(x) {
        let k = choose|k: int| 0 <= k < s.len() && s[k] == x;
        s.lemma_filter_contains(p, k);
        t.lemma_filter_contains_rev(p, x);
    }
}

/// Sorts `v` by depth; entries of equal depth keep their order.
fn sort_by_depth(v: Vec<(usize, Vec<Side>)>) -> (res: Vec<(usize, Vec<Side>)>)
    ensures
        stable_depth_sort_of(entries_view(res@), entries_view(v@)),
        res@.len() == v@.len(),
{
    let ghost orig = entries_view(v@);
    let mut v = v;
    let mut out: Vec<(usize, Vec<Side>)> = Vec::new();
    let ghost mut i: int = 0;
    proof {
        assert forall|d: usize| #[trigger] at_depth(entries_view(out@), d) == at_depth(orig.take(0), d) by {
            reveal(Seq::filter);
            assert(entries_view(out@) =~= Seq::<MatchEntry>::empty());
            assert(orig.take(0) =~= Seq::<MatchEntry>::empty());
        }
    }
    while v.len() > 0
        invariant
            0 <= i <= orig.len(),
            entries_view(v@) == orig.skip(i),
            out@.len() == i,
            orig.len() == entries_view(v@).len() + i,
            depth_sorted(entries_view(out@)),
            forall|d: usize| #[trigger] at_depth(entries_view(out@), d) == at_depth(orig.take(i), d),
        decreases v.len(),
    {
        let ghost v0 = v@;
        proof {
            assert(entries_view(v0).len() == v0.len());
            assert(orig.skip(i).len() == orig.len() - i);
            assert(entries_view(v0)[0] == orig.skip(i)[0]);
        }
        let x = v.remove(0);
        proof {
            assert(entry_view(x) == orig[i]);
            assert forall|t: int| 0 <= t < v@.len() implies #[trigger] entries_view(v@)[t] == orig.skip(i + 1)[t] by {
                assert(v@[t] == v0[t + 1]);
                assert(entries_view(v0)[t + 1] == orig.skip(i)[t + 1]);
            }
            assert(entries_view(v@) =~= orig.skip(i + 1));
        }
        let k = x.0;
        let mut j: usize = 0;
        while j < out.len() && out[j].0 <= k
            invariant
                j <= out.len(),
                forall|t: int| 0 <= t < j ==> entries_view(out@)[t].0 <= k,
            decreases out.len() - j,
        {
            proof {
                assert(entries_view(out@)[j as int] == entry_view(out@[j as int]));
            }
            j = j + 1;
        }
        let ghost w = entries_view(out@);
        proof {
            if j < out.len() {
                assert(w[j as int] == entry_view(out@[j as int]));
                assert forall|t: int| j <= t < w.len() implies w[t].0 > k by {
                    assert(w[j as int].0 <= w[t].0);
                }
            }
            lemma_insert_stable(w, j as int, entry_view(x));
        }
        out.insert(j, x);
        proof {
            assert(entries_view(out@) =~= w.insert(j as int, entry_view(x)));
            assert(orig.take(i + 1) =~= orig.take(i).push(orig[i]));
            assert forall|d: usize| #[trigger] at_depth(entries_view(out@), d) == at_depth(orig.take(i + 1), d) by {
                lemma_at_depth_push(orig.take(i), orig[i], d);
            }
            i = i + 1;
        }
    }
    proof {
        assert(orig.take(i) =~= orig);
    }
    out
}


/// The depth field of the node at address `a` below `n` (0 if there is none).
pub open spec fn depth_at(n: Node, a: Seq<Side>) -> usize {
    match n.subtree(a) {
        Some(m) => m.depth,
        None => 0,
    }
}

/// A list of match addresses below `n`, each paired with its depth.
pub open spec fn addrs_with_depth(n: Node, addrs: Seq<Seq<Side>>) -> Seq<MatchEntry> {
    addrs.map_values(|a: Seq<Side>| (depth_at(n, a), a))
}

/// The spec view of a list of executable addresses.
pub open spec fn addrs_view(v: Seq<Vec<Side>>) -> Seq<Seq<Side>> {
    v.map_values(|a: Vec<Side>| a@)
}

/// Every match entry of `n` (addresses prefixed by `at`) is `at` followed by
/// the address, below `n`, of a match whose depth is the entry's depth.
pub proof fn lemma_match_entries_addr(n: Node, at: Seq<Side>)
    ensures
        forall|k: int| 0 <= k < n.match_entries(at).len() ==> {
            let e = #[trigger] n.match_entries(at)[k];
            &&& e.1.len() >= at.len()
            &&& e.1.take(at.len() as int) == at
            &&& n.subtree(e.1.skip(at.len() as int)) matches Some(m)
            &&& m.path is None
            &&& m.depth == e.0
        },
    decreases n,
{
    let ls = match n.left {
        Some(c) => if c.path is None { c.match_entries(at.push(Side::Left)) } else { Seq::empty() },
        None => Seq::empty(),
    };
    let rs = match n.right {
        Some(c) => if c.path is None { c.match_entries(at.push(Side::Right)) } else { Seq::empty() },
        None => Seq::empty(),
    };
    let own = if n.path is None { seq![(n.depth, at)] } else { Seq::<MatchEntry>::empty() };
    assert(n.match_entries(at) == ls + rs + own);
    if let Some(c) = n.left {
        if c.path is None {
            lemma_match_entries_addr(*c, at.push(Side::Left));
        }
    }
    if let Some(c) = n.right {
        if c.path is None {
            lemma_match_entries_addr(*c, at.push(Side::Right));
        }
    }
    assert forall|k: int| 0 <= k < n.match_entries(at).len() implies {
        let e = #[trigger] n.match_entries(at)[k];
        &&& e.1.len() >= at.len()
        &&& e.1.take(at.len() as int) == at
        &&& n.subtree(e.1.skip(at.len() as int)) matches Some(m)
        &&& m.path is None
        &&& m.depth == e.0
    } by {
        let e = n.match_entries(at)[k];
        if k < ls.len() {
            let c = n.left->0;
            let at2 = at.push(Side::Left);
            assert(e == c.match_entries(at2)[k]);
            let r = e.1.skip(at.len() as int);
            assert(e.1.take(at2.len() as int) == at2);
            assert(e.1.take(at.len() as int) =~= at);
            assert(r[0] == e.1.take(at2.len() as int)[at.len() as int]);
            assert(r.drop_first() =~= e.1.skip(at2.len() as int));
        } else if k < ls.len() + rs.len() {
            let c = n.right->0;
            let at2 = at.push(Side::Right);
            assert(e == c.match_entries(at2)[k - ls.len()]);
            let r = e.1.skip(at.len() as int);
            assert(e.1.take(at2.len() as int) == at2);
            assert(e.1.take(at.len() as int) =~= at);
            assert(r[0] == e.1.take(at2.len() as int)[at.len() as int]);
            assert(r.drop_first() =~= e.1.skip(at2.len() as int));
        } else {
            assert(e == (n.depth, at));
            assert(at.take(at.len() as int) =~= at);
            assert(at.skip(at.len() as int) =~= Seq::<Side>::empty());
        }
    }
}

impl Node {
    /// The matches of the tree rooted at `n`, shallowest first; matches of
    /// equal depth come in post-order (left side, right side, node). Each
    /// match is given by its address below `n`.
    pub fn get_match_up_list(n: &Node) -> (res: Vec<Vec<Side>>)
        ensures
            stable_depth_sort_of(addrs_with_depth(*n, addrs_view(res@)), n.match_entries(seq![])),
            res@.len() == n.match_entries(seq![]).len(),
    {
        let mut entries: Vec<(usize, Vec<Side>)> = Vec::new();
        let root: Vec<Side> = Vec::new();
        collect_matches(n, &root, &mut entries);
        proof {
            assert(entries_view(entries@) =~= n.match_entries(seq![]));
        }
        let mut sorted = sort_by_depth(entries);
        let ghost t = entries_view(sorted@);
        let mut res: Vec<Vec<Side>> = Vec::new();
        let ghost mut i: int = 0;
        proof {
            let s0 = n.match_entries(seq![]);
            lemma_match_entries_addr(*n, seq![]);
            assert forall|k: int| 0 <= k < t.len() implies depth_at(*n, #[trigger] t[k].1) == t[k].0 by {
                lemma_sort_same_members(t, s0, t[k]);
                assert(t.contains(t[k]));
                let j = choose|j: int| 0 <= j < s0.len() && s0[j] == t[k];
                assert(s0[j] == t[k]);
                assert(t[k].1.skip(0) =~= t[k].1);
            }
        }
        while sorted.len() > 0
            invariant
                0 <= i <= t.len(),
                t.len() == n.match_entries(seq![]).len(),
                res@.len() == i,
                entries_view(sorted@) == t.skip(i),
                addrs_with_depth(*n, addrs_view(res@)) == t.take(i),
                forall|k: int| 0 <= k < t.len() ==> depth_at(*n, #[trigger] t[k].1) == t[k].0,
            decreases sorted.len(),
        {
            let ghost s0 = sorted@;
            proof {
                assert(entries_view(s0).len() == s0.len());
                assert(t.skip(i).len() == t.len() - i);
                assert(entries_view(s0)[0] == t.skip(i)[0]);
            }
            let (_d, a) = sorted.remove(0);
            proof {
                assert(a@ == t[i].1);
                assert forall|k: int| 0 <= k < sorted@.len() implies #[trigger] entries_view(sorted@)[k] == t.skip(i + 1)[k] by {
                    assert(sorted@[k] == s0[k + 1]);
                    assert(entries_view(s0)[k + 1] == t.skip(i)[k + 1]);
                }
                assert(entries_view(sorted@) =~= t.skip(i + 1));
            }
            let ghost r0 = res@;
            res.push(a);
            proof {
                assert(addrs_view(res@) =~= addrs_view(r0).push(t[i].1));
                assert(depth_at(*n, t[i].1) == t[i].0);
                assert(addrs_with_depth(*n, addrs_view(res@)) =~= addrs_with_depth(*n, addrs_view(r0)).push((depth_at(*n, t[i].1), t[i].1)));
                assert(t.take(i + 1) =~= t.take(i).push(t[i]));
                assert(addrs_with_depth(*n, addrs_view(res@)) =~= t.take(i + 1));
                i = i + 1;
            }
        }
        proof {
            assert(t.take(i) =~= t);
        }
        res
    }
}


} // verus!
