use std::collections::HashSet;
use yog_modlist::ui::{parse_event, toggle_expanded, UiEvent};

fn s(x: &str) -> String {
    x.to_string()
}

#[test]
fn parse_scroll() {
    assert_eq!(parse_event("scroll:1.5"), UiEvent::Scroll(s("1.5")));
    assert_eq!(parse_event("scroll:-2"), UiEvent::Scroll(s("-2")));
    assert_eq!(parse_event("scroll:"), UiEvent::Scroll(s("")));
}

#[test]
fn parse_click() {
    assert_eq!(parse_event("click:10.5:20"), UiEvent::Click(s("10.5"), s("20")));
    assert_eq!(parse_event("click:1:2:3"), UiEvent::Click(s("1"), s("2")));
    assert_eq!(parse_event("click::"), UiEvent::Click(s(""), s("")));
}

#[test]
fn parse_click_without_two_coordinates_is_ignored() {
    assert_eq!(parse_event("click:10"), UiEvent::Other);
    assert_eq!(parse_event("click:"), UiEvent::Other);
}

#[test]
fn parse_drag() {
    assert_eq!(parse_event("drag:3:4"), UiEvent::Drag(s("3"), s("4")));
    assert_eq!(parse_event("drag:3"), UiEvent::Other);
}

#[test]
fn parse_release_and_close() {
    assert_eq!(parse_event("release:1:2"), UiEvent::Release);
    assert_eq!(parse_event("release:"), UiEvent::Release);
    assert_eq!(parse_event("close"), UiEvent::Close);
}

#[test]
fn parse_other() {
    assert_eq!(parse_event(""), UiEvent::Other);
    assert_eq!(parse_event("closed"), UiEvent::Other);
    assert_eq!(parse_event("release"), UiEvent::Other);
    assert_eq!(parse_event("Scroll:1"), UiEvent::Other);
    assert_eq!(parse_event("key:65"), UiEvent::Other);
}

#[test]
fn toggle_opens_then_closes() {
    let mut open: HashSet<usize> = HashSet::new();
    toggle_expanded(&mut open, 3);
    assert!(open.contains(&3));
    toggle_expanded(&mut open, 5);
    assert!(open.contains(&5));
    toggle_expanded(&mut open, 3);
    assert!(!open.contains(&3));
    assert!(open.contains(&5));
    assert_eq!(open.len(), 1);
}
