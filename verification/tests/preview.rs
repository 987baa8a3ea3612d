use img_tournament::imtr_event_object::ImtrEventObject;
use img_tournament::imtr_preview::{DivState, ImtrPreview};
use img_tournament::tree_util::Decision;

#[test]
fn new_preview_is_empty() {
    let p = ImtrPreview::new();
    assert_eq!(p.divstate, DivState::N);
    assert_eq!(p.decision, Decision::Undef);
    assert_eq!(p.get_path(Decision::Left), None);
}

#[test]
fn click_in_horizontal_division() {
    let mut p = ImtrPreview::new();
    p.divstate = DivState::H;
    p.click(300, 49, 600, 100);
    assert_eq!(p.decision, Decision::Left);
    p.click(0, 50, 600, 100);
    assert_eq!(p.decision, Decision::Right);
    p.click(0, 50, 600, 101);
    assert_eq!(p.decision, Decision::Right);
}

#[test]
fn click_in_vertical_division() {
    let mut p = ImtrPreview::new();
    p.divstate = DivState::V;
    p.click(299, 700, 600, 800);
    assert_eq!(p.decision, Decision::Left);
    p.click(300, 0, 600, 800);
    assert_eq!(p.decision, Decision::Right);
}

#[test]
fn click_without_division_chooses_right() {
    let mut p = ImtrPreview::new();
    p.click(0, 0, 600, 800);
    assert_eq!(p.decision, Decision::Right);
}

#[test]
fn showing_images_clears_the_choice() {
    let mut p = ImtrPreview::new();
    p.decision = Decision::Left;
    let mut e = ImtrEventObject::new();
    e.set_path(Some("a.png".to_string()), Some("b.png".to_string()));
    let shown = p.update_paths(&e);
    assert_eq!(shown, ("a.png".to_string(), "b.png".to_string()));
    assert_eq!(p.decision, Decision::Undef);
    assert_eq!(p.get_path(Decision::Left), None);
    assert_eq!(p.get_path(Decision::Right), None);
    assert_eq!(p.get_path(Decision::Undef), None);
    p.path_a = Some("x.png".to_string());
    assert_eq!(p.get_path(Decision::Left), Some("x.png".to_string()));
}

#[test]
fn event_paths_round_trip() {
    let mut e = ImtrEventObject::new();
    assert_eq!(e.id, 0);
    assert!(e.path_a.is_none() && e.path_b.is_none());
    e.set_path(Some("x".to_string()), Some("y".to_string()));
    assert_eq!(e.get_path(), ("x".to_string(), "y".to_string()));
}
