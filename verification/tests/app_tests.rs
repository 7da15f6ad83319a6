use kracko::app::{App, Side};
use kracko::horizontal_scroll::Action;

#[test]
fn title_is_terminal_strip() {
    let app = App::new();
    assert_eq!(app.title(), "Terminal strip");
}

#[test]
fn new_shows_terminal_zero_focused() {
    let app = App::new();
    let pane = app.layout().focused().expect("a focused pane");
    assert_eq!(app.layout().len(), 1);
    assert_eq!(app.layout().get(pane), Some(&0));
    assert_eq!(app.pane_of(0), Some(pane));
    assert_eq!(app.pane_of(1), None);
}

#[test]
fn open_numbers_terminals_and_focuses_them() {
    let mut app = App::new();
    let first = app.layout().focused().unwrap();
    let (id1, right) = app.open(first, Side::Right);
    assert_eq!(id1, 1);
    assert_eq!(app.layout().focused(), Some(right));
    let (id2, left) = app.open(first, Side::Left);
    assert_eq!(id2, 2);
    assert_eq!(app.layout().focused(), Some(left));
    let order: Vec<u64> = app.layout().iter().into_iter().map(|(_, id)| *id).collect();
    assert_eq!(order, vec![2, 0, 1]);
    assert_eq!(app.pane_of(1), Some(right));
    assert_eq!(app.pane_of(2), Some(left));
}

#[test]
fn close_focuses_neighbor_and_forgets_terminal() {
    let mut app = App::new();
    let first = app.layout().focused().unwrap();
    let (_, second) = app.open(first, Side::Right);
    let (_, third) = app.open(second, Side::Right);
    // Focus is on `third`; closing `first` still hands focus to its neighbor.
    assert_eq!(app.close(first), Some((0, Some(second))));
    assert_eq!(app.layout().focused(), Some(second));
    assert_eq!(app.pane_of(0), None);
    assert_eq!(app.close(third), Some((2, Some(second))));
    assert_eq!(app.close(second), Some((1, None)));
    assert!(app.layout().is_empty());
    assert_eq!(app.close(second), None);
}

#[test]
fn numbers_are_not_reused_after_close() {
    let mut app = App::new();
    let first = app.layout().focused().unwrap();
    let (id1, pane1) = app.open(first, Side::Right);
    assert!(app.close(pane1).is_some());
    let (id2, _) = app.open(first, Side::Right);
    assert_ne!(id1, id2);
    assert_eq!(id2, 2);
}

#[test]
fn open_next_to_closed_pane_appends() {
    let mut app = App::new();
    let first = app.layout().focused().unwrap();
    let (_, gone) = app.open(first, Side::Left);
    assert!(app.close(gone).is_some());
    let (id, pane) = app.open(gone, Side::Left);
    let order: Vec<u64> = app.layout().iter().into_iter().map(|(_, id)| *id).collect();
    assert_eq!(order, vec![0, id]);
    assert_eq!(app.layout().focused(), Some(pane));
}

#[test]
fn click_goes_through_the_layout() {
    let mut app = App::new();
    let first = app.layout().focused().unwrap();
    let (_, second) = app.open(first, Side::Right);
    assert_eq!(app.click(second), None);
    assert_eq!(app.click(first), Some(Action::FocusChanged(first)));
    assert_eq!(app.layout().focused(), Some(first));
    assert!(app.close(second).is_some());
    assert_eq!(app.click(second), None);
    assert_eq!(app.layout().focused(), Some(first));
}

#[test]
fn fresh_app_can_open() {
    let app = App::new();
    assert!(app.can_open());
    assert!(app.layout().can_insert());
}

#[test]
fn every_pane_leads_back_from_its_terminal() {
    let mut app = App::new();
    let first = app.layout().focused().unwrap();
    let (_, a) = app.open(first, Side::Left);
    let _ = app.open(a, Side::Right);
    let _ = app.open(first, Side::Right);
    for (pane, id) in app.layout().iter() {
        assert_eq!(app.pane_of(*id), Some(pane));
    }
}

#[test]
fn strip_identifier_survives_operations() {
    let mut app = App::new();
    let id = app.layout().id();
    let first = app.layout().focused().unwrap();
    let (_, second) = app.open(first, Side::Right);
    let _ = app.click(first);
    let _ = app.close(second);
    assert_eq!(app.layout().id(), id);
}
