use waverunner::focus_cycle::{
    rank, settle_target, Arrival, Candidate, FocusState, StageView, WindowInfo,
};

fn cand(addr: &str, score: f32, last: Option<u64>, history: i32) -> Candidate {
    Candidate { addr: addr.to_owned(), score: score.to_bits(), last, history }
}

#[test]
fn partner_is_the_freshest_interaction_then_frecency() {
    let now = 1_000_000;
    let old = now - 300_000;
    let order = rank(&[
        cand("heavy", 9.0, Some(old), 3),
        cand("partner", 4.0, Some(now), 2),
        cand("fresh", 0.0, None, 0),
    ]);
    assert_eq!(order, vec!["partner", "heavy", "fresh"]);
}

#[test]
fn never_interacted_windows_follow_compositor_history() {
    let order = rank(&[cand("older", 0.0, None, 5), cand("newer", 0.0, None, 2)]);
    assert_eq!(order, vec!["newer", "older"]);
}

#[test]
fn passed_through_windows_never_become_the_partner() {
    let order = rank(&[
        cand("w1", 6.0, Some(1_000), 3),
        cand("w3", 0.0, None, 1),
        cand("w4", 0.0, None, 2),
    ]);
    assert_eq!(order, vec!["w1", "w3", "w4"]);
}

#[test]
fn a_space_hands_back_the_window_you_left_in_it() {
    assert_eq!(settle_target(Some("a"), Some("b"), None).as_deref(), Some("a"));
    assert_eq!(settle_target(Some("a"), None, None).as_deref(), Some("a"));
    assert_eq!(settle_target(None, Some("b"), Some("c")), None);
    assert_eq!(settle_target(None, None, Some("c")).as_deref(), Some("c"));
    assert_eq!(settle_target(None, None, None), None);
}

fn window(addr: &str, last: Option<u64>, history: i32) -> WindowInfo {
    WindowInfo { addr: addr.to_owned(), workspace: 1, score: 0, last, history }
}

#[test]
fn a_walk_visits_every_window_and_comes_home() {
    let mut f = FocusState::new();
    let world = Some((
        vec![window("a", Some(30), 0), window("b", Some(20), 1), window("c", Some(10), 2)],
        Some("a".to_string()),
    ));
    let mut seen = Vec::new();
    for _ in 0..3 {
        seen.push(f.cycle_focus(true, &world).unwrap());
    }
    assert_eq!(seen, vec!["b", "c", "a"]);
}

#[test]
fn a_note_wins_on_return() {
    let mut f = FocusState::new();
    f.note_ws_focus(Some(("win".to_string(), 3)));
    let stage = StageView { on: false, staged: None, staged_here: false };
    match f.on_workspace_changed(3, false, &stage) {
        Arrival::Settle(w) => assert_eq!(w.as_deref(), Some("win")),
        other => panic!("{other:?}"),
    }
}

fn world() -> Option<(Vec<WindowInfo>, Option<String>)> {
    Some((
        vec![window("a", Some(30), 0), window("b", Some(20), 1), window("c", Some(10), 2)],
        Some("a".to_string()),
    ))
}

#[test]
fn an_interaction_commits_the_walk() {
    let mut f = FocusState::new();
    assert_eq!(f.cycle_focus(true, &world()).as_deref(), Some("b"));
    f.note_interaction(false);
    assert!(f.walk.is_some());
    f.note_interaction(true);
    assert!(f.walk.is_none() && f.walk_focus_pending.is_none());
    assert_eq!(f.cycle_focus(true, &world()).as_deref(), Some("b"));
}

#[test]
fn the_walks_own_hops_do_not_end_it() {
    let mut f = FocusState::new();
    f.cycle_focus(true, &world());
    f.note_focus_change("b");
    assert!(f.walk.is_some() && f.walk_focus_pending.is_none());
    assert_eq!(f.cycle_focus(true, &world()).as_deref(), Some("c"));
    f.walk_focus_failed();
    assert!(f.walk.is_some() && f.walk_focus_pending.is_none());
    f.note_focus_change("elsewhere");
    assert!(f.walk.is_none());
}

#[test]
fn nothing_to_walk_is_nothing_to_focus() {
    let mut f = FocusState::new();
    assert_eq!(f.cycle_focus(true, &None), None);
    let alone = Some((vec![window("a", None, 0)], Some("a".to_string())));
    assert_eq!(f.cycle_focus(true, &alone), None);
    assert!(f.walk.is_none());
}

#[test]
fn a_restore_is_dropped_when_the_world_moves_on() {
    let mut f = FocusState::new();
    let want = Some("w".to_string());
    let other = Some("x".to_string());
    assert_eq!(f.restore_ws_focus(3, &want, false, Some(3), &other, &None).as_deref(), Some("w"));
    assert_eq!(f.restore_ws_focus(3, &want, true, Some(3), &other, &None), None);
    assert_eq!(f.restore_ws_focus(3, &want, false, Some(4), &other, &None), None);
    assert_eq!(f.restore_ws_focus(3, &want, false, Some(3), &want, &None), None);
    assert_eq!(f.restore_ws_focus(3, &None, false, Some(3), &None, &want).as_deref(), Some("w"));
}

#[test]
fn a_window_that_is_gone_takes_its_note() {
    let mut f = FocusState::new();
    f.note_ws_focus(Some(("win".to_string(), 3)));
    assert!(f.settle_found(3, "win".to_string(), true));
    assert!(!f.settle_found(3, "win".to_string(), false));
    let stage = StageView { on: false, staged: None, staged_here: false };
    match f.on_workspace_changed(3, false, &stage) {
        Arrival::Settle(w) => assert_eq!(w, None),
        other => panic!("{other:?}"),
    }
    // The restore that is now in flight keeps its space from being noted.
    f.note_ws_focus(Some(("late".to_string(), 3)));
    f.note_ws_focus(Some(("far".to_string(), 4)));
    assert!(matches!(f.on_workspace_changed(3, false, &stage), Arrival::Settle(None)));
    assert!(matches!(f.on_workspace_changed(4, false, &stage), Arrival::Settle(Some(_))));
}

#[test]
fn the_stage_and_the_overview_own_the_focus() {
    let mut f = FocusState::new();
    let off = StageView { on: false, staged: None, staged_here: false };
    assert!(matches!(f.on_workspace_changed(3, true, &off), Arrival::Leave));
    let away = StageView { on: true, staged: Some("s".to_string()), staged_here: false };
    match f.on_workspace_changed(3, false, &away) {
        Arrival::Refocus(a) => assert_eq!(a, "s"),
        other => panic!("{other:?}"),
    }
    let here = StageView { on: true, staged: Some("s".to_string()), staged_here: true };
    assert!(matches!(f.on_workspace_changed(3, false, &here), Arrival::Leave));
}
