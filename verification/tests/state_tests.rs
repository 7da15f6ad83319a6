use kracko::horizontal_scroll::{Action, Pane, State};

fn contents(state: &State<u32>) -> Vec<u32> {
    state.iter().into_iter().map(|(_, c)| *c).collect()
}

fn panes(state: &State<u32>) -> Vec<Pane> {
    state.iter().into_iter().map(|(p, _)| p).collect()
}

#[test]
fn new_holds_one_focused_pane() {
    let (state, pane) = State::new(7u32);
    assert_eq!(state.len(), 1);
    assert!(!state.is_empty());
    assert_eq!(state.focused(), Some(pane));
    assert_eq!(state.get(pane), Some(&7));
    assert_eq!(panes(&state), vec![pane]);
}

#[test]
fn insert_right_and_left_place_next_to_pane() {
    let (mut state, first) = State::new(1u32);
    let right = state.insert_right_of(first, 2);
    let left = state.insert_left_of(first, 3);
    assert_eq!(panes(&state), vec![left, first, right]);
    assert_eq!(contents(&state), vec![3, 1, 2]);
    // Focus does not follow insertion.
    assert_eq!(state.focused(), Some(first));
    let middle = state.insert_right_of(left, 4);
    assert_eq!(contents(&state), vec![3, 4, 1, 2]);
    assert_eq!(state.get(middle), Some(&4));
}

#[test]
fn insert_next_to_missing_pane_appends() {
    let (mut state, first) = State::new(1u32);
    let second = state.push(2);
    assert!(state.close(second).is_some());
    let a = state.insert_left_of(second, 3);
    let b = state.insert_right_of(second, 4);
    assert_eq!(panes(&state), vec![first, a, b]);
    assert_eq!(contents(&state), vec![1, 3, 4]);
}

#[test]
fn push_appends_at_far_right() {
    let (mut state, _) = State::new(1u32);
    state.push(2);
    state.push(3);
    assert_eq!(contents(&state), vec![1, 2, 3]);
    assert_eq!(state.len(), 3);
}

#[test]
fn new_panes_are_distinct_and_never_reused() {
    let (mut state, first) = State::new(0u32);
    let mut seen = vec![first];
    for i in 1..20u32 {
        let p = if i % 2 == 0 { state.insert_left_of(first, i) } else { state.push(i) };
        assert!(!seen.contains(&p));
        seen.push(p);
        if i % 3 == 0 {
            assert!(state.close(p).is_some());
        }
    }
}

#[test]
fn close_returns_content_and_right_neighbor() {
    let (mut state, a) = State::new(1u32);
    let b = state.push(2);
    let c = state.push(3);
    state.focus(b);
    assert_eq!(state.close(b), Some((2, Some(c))));
    assert_eq!(state.focused(), Some(c));
    assert_eq!(panes(&state), vec![a, c]);
}

#[test]
fn close_rightmost_hands_focus_left() {
    let (mut state, a) = State::new(1u32);
    let b = state.push(2);
    state.focus(b);
    assert_eq!(state.close(b), Some((2, Some(a))));
    assert_eq!(state.focused(), Some(a));
}

#[test]
fn close_unfocused_pane_keeps_focus() {
    let (mut state, a) = State::new(1u32);
    let b = state.push(2);
    let c = state.push(3);
    assert_eq!(state.focused(), Some(a));
    assert_eq!(state.close(b), Some((2, Some(c))));
    assert_eq!(state.focused(), Some(a));
}

#[test]
fn close_last_pane_leaves_nothing() {
    let (mut state, a) = State::new(5u32);
    assert_eq!(state.close(a), Some((5, None)));
    assert!(state.is_empty());
    assert_eq!(state.len(), 0);
    assert_eq!(state.focused(), None);
    // A pane pushed afterwards is not focused by itself.
    let b = state.push(6);
    assert_ne!(a, b);
    assert_eq!(state.focused(), None);
}

#[test]
fn close_missing_pane_changes_nothing() {
    let (mut state, a) = State::new(1u32);
    let b = state.push(2);
    assert!(state.close(b).is_some());
    assert_eq!(state.close(b), None);
    assert_eq!(panes(&state), vec![a]);
    assert_eq!(state.get(b), None);
}

#[test]
fn close_undoes_insert() {
    let (mut state, a) = State::new(1u32);
    let x = state.push(2);
    let before = panes(&state);
    let p = state.insert_right_of(a, 9);
    assert_eq!(state.close(p), Some((9, Some(x))));
    assert_eq!(panes(&state), before);
    assert_eq!(state.focused(), Some(a));
}

#[test]
fn focus_only_existing_panes() {
    let (mut state, a) = State::new(1u32);
    let b = state.push(2);
    state.focus(b);
    assert_eq!(state.focused(), Some(b));
    assert!(state.close(b).is_some());
    assert_eq!(state.focused(), Some(a));
    state.focus(b);
    assert_eq!(state.focused(), Some(a));
}

#[test]
fn click_reports_focus_changes() {
    let (mut state, a) = State::new(1u32);
    let b = state.push(2);
    assert_eq!(state.click(a), None);
    assert_eq!(state.click(b), Some(Action::FocusChanged(b)));
    assert_eq!(state.focused(), Some(b));
    assert_eq!(state.click(b), None);
}

#[test]
fn click_on_missing_pane_reports_nothing() {
    let (mut state, a) = State::new(1u32);
    let b = state.push(2);
    assert!(state.close(b).is_some());
    assert_eq!(state.click(b), None);
    assert_eq!(state.focused(), Some(a));
}

#[test]
fn get_mut_changes_content_in_place() {
    let (mut state, a) = State::new(1u32);
    let b = state.push(2);
    if let Some(content) = state.get_mut(b) {
        *content = 20;
    }
    assert_eq!(contents(&state), vec![1, 20]);
    assert!(state.close(a).is_some());
    assert!(state.get_mut(a).is_none());
}

#[test]
fn scrollable_id_is_stable() {
    let (state, _) = State::new(1u32);
    let (other, _) = State::new(1u32);
    assert_eq!(state.id(), state.id());
    assert_ne!(state.id(), other.id());
}

#[test]
fn new_pane_numbers_follow_each_other() {
    let (mut state, a) = State::new(1u32);
    let b = state.push(2);
    assert!(state.close(b).is_some());
    let c = state.insert_left_of(a, 3);
    let d = state.insert_right_of(a, 4);
    assert_ne!(c, b);
    assert_ne!(d, b);
    assert_ne!(c, d);
    assert!(a < b && b < c && c < d);
}
