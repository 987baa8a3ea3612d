use img_tournament::tree_util::{insert, Decision, Node, Side};
use img_tournament::tree_walk::{find_next_undef_node, next_candidate, resolve_winner_leaf};

fn build(names: &[&str]) -> Box<Node> {
    let mut root: Option<Box<Node>> = None;
    let mut opt: isize = 1;
    for n in names {
        root = Some(insert(root.take(), n.to_string(), opt));
        opt += 1;
    }
    root.unwrap()
}

fn leaves(n: &Node, out: &mut Vec<String>) {
    if let Some(l) = &n.left {
        leaves(l, out);
    }
    if let Some(p) = &n.path {
        out.push(p.clone());
    }
    if let Some(r) = &n.right {
        leaves(r, out);
    }
}

fn child<'a>(n: &'a Node, s: Side) -> &'a Node {
    match s {
        Side::Left => n.left.as_ref().unwrap(),
        Side::Right => n.right.as_ref().unwrap(),
    }
}

#[test]
fn new_leaf_is_undecided_leaf() {
    let n = Node::new_leaf("a.png".to_string(), 7);
    assert_eq!(n.path.as_deref(), Some("a.png"));
    assert!(n.left.is_none() && n.right.is_none());
    assert_eq!(n.depth, 1);
    assert_eq!(n.decision, Decision::Undef);
    assert_eq!(n.opt, 7);
}

#[test]
fn insert_into_empty_gives_leaf() {
    let t = insert(None, "a".to_string(), 1);
    assert_eq!(t.path.as_deref(), Some("a"));
    assert_eq!(t.depth, 1);
}

#[test]
fn insert_into_leaf_makes_a_match() {
    let t = build(&["a", "b"]);
    assert!(t.path.is_none());
    assert_eq!(t.depth, 2);
    assert_eq!(t.opt, 1);
    assert_eq!(t.left.as_ref().unwrap().path.as_deref(), Some("a"));
    assert_eq!(t.left.as_ref().unwrap().opt, 1);
    assert_eq!(t.right.as_ref().unwrap().path.as_deref(), Some("b"));
    assert_eq!(t.right.as_ref().unwrap().opt, 2);
}

#[test]
fn insert_goes_to_the_shallower_side() {
    let t = build(&["a", "b", "c", "d", "e"]);
    let mut ls = Vec::new();
    leaves(&t, &mut ls);
    assert_eq!(ls, vec!["a", "e", "c", "b", "d"]);
    assert_eq!(t.depth, 4);
    assert_eq!(t.left.as_ref().unwrap().depth, 3);
    assert_eq!(t.right.as_ref().unwrap().depth, 2);
    assert_eq!(t.balance_factor(), 1);
}

#[test]
fn tree_stays_balanced() {
    let names: Vec<String> = (0..37).map(|i| format!("img{}.png", i)).collect();
    let refs: Vec<&str> = names.iter().map(|s| s.as_str()).collect();
    let t = build(&refs);
    fn check(n: &Node) -> usize {
        match (&n.left, &n.right) {
            (Some(l), Some(r)) => {
                let hl = check(l);
                let hr = check(r);
                assert!(hl.abs_diff(hr) <= 1);
                assert_eq!(n.depth, 1 + hl.max(hr));
                n.depth
            }
            _ => {
                assert_eq!(n.depth, 1);
                1
            }
        }
    }
    check(&t);
    let mut ls = Vec::new();
    leaves(&t, &mut ls);
    ls.sort();
    let mut expect = names.clone();
    expect.sort();
    assert_eq!(ls, expect);
}

#[test]
fn depth_of_optional_node() {
    let t = build(&["a", "b", "c"]);
    assert_eq!(Node::depth(&None), 0);
    assert_eq!(Node::depth(&t.left), 2);
    assert_eq!(Node::depth(&t.right), 1);
}

#[test]
fn update_depth_uses_children_depths() {
    let mut t = *build(&["a", "b", "c"]);
    t.depth = 99;
    t.update_depth();
    assert_eq!(t.depth, 3);
}

#[test]
fn set_decision_changes_only_decision() {
    let mut t = *build(&["a", "b"]);
    t.set_decision(Decision::Right);
    assert_eq!(t.decision, Decision::Right);
    assert_eq!(t.depth, 2);
    assert!(t.path.is_none());
}

#[test]
fn match_list_is_shallowest_first_post_order() {
    let t = build(&["a", "b", "c", "d", "e"]);
    let l = Node::get_match_up_list(&t);
    assert_eq!(
        l,
        vec![
            vec![Side::Left, Side::Left],
            vec![Side::Right],
            vec![Side::Left],
            vec![],
        ]
    );
}

#[test]
fn match_list_of_leaf_is_empty() {
    let t = build(&["a"]);
    assert!(Node::get_match_up_list(&t).is_empty());
}

#[test]
fn match_count_is_candidates_minus_one() {
    for k in 1..20usize {
        let names: Vec<String> = (0..k).map(|i| format!("{}", i)).collect();
        let refs: Vec<&str> = names.iter().map(|s| s.as_str()).collect();
        let t = build(&refs);
        let l = Node::get_match_up_list(&t);
        assert_eq!(l.len(), k - 1);
        let mut prev = 0;
        for a in &l {
            let n = Node::node_at(&t, a);
            assert!(n.path.is_none());
            assert!(n.depth >= prev);
            prev = n.depth;
        }
    }
}

#[test]
fn winner_follows_decisions() {
    let mut t = *build(&["a", "b", "c"]);
    assert_eq!(resolve_winner_leaf(&t), None);
    t.set_decision_at(&vec![Side::Left], Decision::Right);
    assert_eq!(resolve_winner_leaf(child(&t, Side::Left)), Some("c".to_string()));
    assert_eq!(resolve_winner_leaf(&t), None);
    t.set_decision(Decision::Left);
    assert_eq!(resolve_winner_leaf(&t), Some("c".to_string()));
    t.set_decision(Decision::Right);
    assert_eq!(resolve_winner_leaf(&t), Some("b".to_string()));
}

#[test]
fn winner_of_leaf_is_its_path() {
    let n = Node::new_leaf("x.png".to_string(), 1);
    assert_eq!(resolve_winner_leaf(&n), Some("x.png".to_string()));
}

#[test]
fn next_undecided_is_shallowest_left_first() {
    let mut t = *build(&["a", "b", "c", "d", "e"]);
    assert_eq!(find_next_undef_node(&t), Some((2, vec![Side::Left, Side::Left])));
    t.set_decision_at(&vec![Side::Left, Side::Left], Decision::Left);
    assert_eq!(find_next_undef_node(&t), Some((2, vec![Side::Right])));
    t.set_decision_at(&vec![Side::Right], Decision::Right);
    assert_eq!(find_next_undef_node(&t), Some((3, vec![Side::Left])));
    t.set_decision_at(&vec![Side::Left], Decision::Left);
    assert_eq!(find_next_undef_node(&t), Some((4, vec![])));
    t.set_decision(Decision::Right);
    assert_eq!(find_next_undef_node(&t), None);
}

#[test]
fn next_candidate_gives_contenders() {
    let mut t = *build(&["a", "b", "c", "d", "e"]);
    let c = next_candidate(&t).unwrap();
    assert_eq!(c.node, vec![Side::Left, Side::Left]);
    assert_eq!(c.winner_leaf_l, Some("a".to_string()));
    assert_eq!(c.winner_leaf_r, Some("e".to_string()));
    t.set_decision_at(&vec![Side::Left, Side::Left], Decision::Right);
    t.set_decision_at(&vec![Side::Right], Decision::Left);
    let c = next_candidate(&t).unwrap();
    assert_eq!(c.node, vec![Side::Left]);
    assert_eq!(c.winner_leaf_l, Some("e".to_string()));
    assert_eq!(c.winner_leaf_r, Some("c".to_string()));
    t.set_decision_at(&vec![Side::Left], Decision::Left);
    let c = next_candidate(&t).unwrap();
    assert_eq!(c.node, Vec::<Side>::new());
    assert_eq!(c.winner_leaf_l, Some("e".to_string()));
    assert_eq!(c.winner_leaf_r, Some("b".to_string()));
    t.set_decision(Decision::Left);
    assert!(next_candidate(&t).is_none());
}

#[test]
fn node_at_follows_sides() {
    let t = build(&["a", "b", "c", "d", "e"]);
    let n = Node::node_at(&t, &vec![Side::Left, Side::Left, Side::Right]);
    assert_eq!(n.path.as_deref(), Some("e"));
}

#[test]
fn find_node_checks_the_address() {
    let t = build(&["a", "b", "c"]);
    assert_eq!(Node::find_node(&t, &vec![Side::Left, Side::Right]).unwrap().path.as_deref(), Some("c"));
    assert!(Node::find_node(&t, &vec![Side::Right, Side::Left]).is_none());
    assert!(Node::find_node(&t, &vec![]).unwrap().path.is_none());
}

#[test]
fn next_candidate_is_first_undecided_in_match_list() {
    for k in 2..25usize {
        let names: Vec<String> = (0..k).map(|i| format!("{}", i)).collect();
        let refs: Vec<&str> = names.iter().map(|s| s.as_str()).collect();
        let mut t = *build(&refs);
        let list = Node::get_match_up_list(&t);
        for (i, a) in list.iter().enumerate() {
            let c = next_candidate(&t).unwrap();
            assert_eq!(&c.node, a);
            assert!(c.winner_leaf_l.is_some() && c.winner_leaf_r.is_some());
            let d = if i % 3 == 0 { Decision::Right } else { Decision::Left };
            t.set_decision_at(a, d);
        }
        assert!(next_candidate(&t).is_none());
        assert!(resolve_winner_leaf(&t).is_some());
    }
}

#[test]
fn insert_adds_one_candidate_and_one_match() {
    let mut root: Option<Box<Node>> = None;
    for k in 1..20isize {
        let before = Node::get_match_up_list(root.as_ref().map(|b| &**b).unwrap_or(&Node::new_leaf(String::new(), 0))).len();
        let had = root.is_some();
        root = Some(insert(root.take(), format!("{}", k), k));
        let mut ls = Vec::new();
        leaves(root.as_ref().unwrap(), &mut ls);
        assert_eq!(ls.len(), k as usize);
        let after = Node::get_match_up_list(root.as_ref().unwrap()).len();
        if had {
            assert_eq!(after, before + 1);
        } else {
            assert_eq!(after, 0);
        }
    }
}

#[test]
fn balance_factor_converts_depths_as_isize() {
    let t = build(&["a", "b", "c"]);
    assert_eq!(t.balance_factor(), 1);
    assert_eq!(Node::new_leaf("x".to_string(), 1).balance_factor(), 0);
    let mut odd = Node::new_leaf("y".to_string(), 1);
    let mut deep = Node::new_leaf("z".to_string(), 2);
    deep.depth = usize::MAX;
    odd.left = Some(Box::new(deep));
    assert_eq!(odd.balance_factor(), -1);
}
