use img_tournament::imtr_mediator::{build_tree, ImtrMediator, MediatorAction};
use img_tournament::tree_util::{Decision, Side};
use img_tournament::tree_walk::resolve_winner_leaf;

fn tree_winner(m: &ImtrMediator) -> Option<String> {
    resolve_winner_leaf(m.root.as_ref().unwrap())
}

fn names(k: usize) -> Vec<String> {
    (0..k).map(|i| format!("p{}.png", i)).collect()
}

fn show(l: &str, r: &str) -> MediatorAction {
    MediatorAction::ShowPair { left: l.to_string(), right: r.to_string() }
}

#[test]
fn too_few_images_changes_nothing() {
    let mut m = ImtrMediator::new();
    assert_eq!(m.build_tournament(vec!["only.png".to_string()]), MediatorAction::TooFewImages);
    assert!(m.root.is_none());
    assert_eq!(m.build_tournament(vec![]), MediatorAction::TooFewImages);
    assert!(m.match_list.is_empty());
    assert_eq!(m.match_num, 0);
}

#[test]
fn build_shows_first_match() {
    let mut m = ImtrMediator::new();
    let a = m.build_tournament(vec!["a".to_string(), "b".to_string(), "c".to_string()]);
    assert_eq!(a, show("a", "c"));
    assert_eq!(m.match_num, 0);
    assert_eq!(m.match_list, vec![vec![Side::Left], vec![]]);
}

#[test]
fn next_without_choice_asks_for_one() {
    let mut m = ImtrMediator::new();
    assert_eq!(m.next_match(Decision::Undef), MediatorAction::NoDecision);
    m.build_tournament(names(4));
    assert_eq!(m.next_match(Decision::Undef), MediatorAction::NoDecision);
    assert_eq!(m.match_num, 0);
}

#[test]
fn full_tournament_of_three() {
    let mut m = ImtrMediator::new();
    assert_eq!(m.build_tournament(vec!["a".to_string(), "b".to_string(), "c".to_string()]), show("a", "c"));
    assert_eq!(m.next_match(Decision::Right), show("c", "b"));
    assert_eq!(m.match_num, 1);
    assert_eq!(m.next_match(Decision::Right), MediatorAction::Winner { side: Decision::Right });
    assert_eq!(tree_winner(&m), Some("b".to_string()));
    assert_eq!(m.match_num, 1);
    // deciding the final again changes the winner
    assert_eq!(m.next_match(Decision::Left), MediatorAction::Winner { side: Decision::Left });
    assert_eq!(tree_winner(&m), Some("c".to_string()));
}

#[test]
fn prev_goes_back_and_keeps_decisions() {
    let mut m = ImtrMediator::new();
    assert_eq!(m.prev_match(), MediatorAction::Nothing);
    m.build_tournament(vec!["a".to_string(), "b".to_string(), "c".to_string(), "d".to_string()]);
    assert_eq!(m.prev_match(), MediatorAction::Nothing);
    assert_eq!(m.next_match(Decision::Left), show("b", "d"));
    assert_eq!(m.match_num, 1);
    assert_eq!(m.prev_match(), show("a", "c"));
    assert_eq!(m.match_num, 0);
    assert_eq!(m.next_match(Decision::Right), show("b", "d"));
    assert_eq!(m.next_match(Decision::Left), show("c", "b"));
    assert_eq!(m.next_match(Decision::Left), MediatorAction::Winner { side: Decision::Left });
    assert_eq!(tree_winner(&m), Some("c".to_string()));
}

#[test]
fn every_tournament_ends_with_a_candidate() {
    for k in 2..30usize {
        let ps = names(k);
        let mut m = ImtrMediator::new();
        let mut a = m.build_tournament(ps.clone());
        let mut steps = 0;
        loop {
            match a {
                MediatorAction::ShowPair { left, right } => {
                    assert!(ps.contains(&left) && ps.contains(&right));
                    let d = if steps % 2 == 0 { Decision::Left } else { Decision::Right };
                    a = m.next_match(d);
                    steps += 1;
                }
                MediatorAction::Winner { side } => {
                    assert_ne!(side, Decision::Undef);
                    assert!(ps.contains(&tree_winner(&m).unwrap()));
                    break;
                }
                other => panic!("unexpected {:?}", other),
            }
        }
        assert_eq!(steps, k - 1);
    }
}

#[test]
fn build_tree_holds_every_candidate_once() {
    let ps = names(11);
    let t = build_tree(ps.clone()).unwrap();
    fn collect(n: &img_tournament::tree_util::Node, out: &mut Vec<String>) {
        if let Some(l) = &n.left {
            collect(l, out);
        }
        if let Some(p) = &n.path {
            out.push(p.clone());
        }
        if let Some(r) = &n.right {
            collect(r, out);
        }
    }
    let mut got = Vec::new();
    collect(&t, &mut got);
    got.sort();
    let mut want = ps;
    want.sort();
    assert_eq!(got, want);
    assert!(build_tree(vec![]).is_none());
}
