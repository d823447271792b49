use waverunner::boxes::{box_drag_slot_target, flatten, group_cell, BoxDrop, BoxGroup, BoxState};

fn page(v: &[&str]) -> Vec<String> {
    v.iter().map(|s| s.to_string()).collect()
}

fn group() -> BoxGroup {
    BoxGroup { id: "g1".into(), members: vec![page(&["a", "b", "c", "d"]), page(&["e"])] }
}

#[test]
fn one_box_is_open_at_a_time_in_the_grid_or_above_the_dock() {
    let mut b = BoxState::new();
    assert!(!b.stack_open() && !b.close_group());
    b.open_dock_folder(3, false);
    assert_eq!((b.app_group, b.dock_stack, b.open_box_group()), (None, Some(3), Some(3)));
    let mut b = BoxState::new();
    b.open_dock_folder(3, true);
    assert_eq!((b.app_group, b.dock_stack), (Some(3), None));
    b.open_dir_stack("folder-x".into(), "/x".into(), true);
    assert!(b.stack_open() && b.open_box_group().is_none());
    assert!(b.close_group());
    assert!(!b.opening);
    b.open_dock_folder(4, false);
    assert!(b.dir_stack.is_none() && b.app_group.is_none() && b.dock_stack == Some(4));
    b.open_group(5);
    assert!(b.dir_stack.is_none() && b.app_group == Some(5) && b.dock_stack.is_none());
}

#[test]
fn slots_resolve_to_members() {
    let mut b = BoxState::new();
    b.open_group(0);
    let groups = [group()];
    assert_eq!(b.open_box_member_id(&groups, true, 2).as_deref(), Some("d"));
    assert_eq!(b.open_box_member_id(&groups, false, 0).as_deref(), Some("c"));
    assert_eq!(b.open_box_member_id(&groups, true, 8), None);
    b.turn_box_page(&groups, 1);
    assert_eq!(b.open_box_member_id(&groups, true, 0).as_deref(), Some("e"));
    assert_eq!(b.open_box_member_idx(&groups, true, 0, &page(&["x", "e"])), Some(1));
    b.turn_box_page(&groups, 9);
    assert_eq!(b.box_page, 1);
}

#[test]
fn a_drag_adds_a_page_to_turn_to() {
    let mut b = BoxState::new();
    let groups = [group()];
    assert_eq!(b.pages_to_turn(&groups), None);
    b.open_group(0);
    assert_eq!(b.pages_to_turn(&groups), Some(2));
    let ids = page(&["a", "b", "c", "d", "e"]);
    assert!(!b.begin_box_drag(&groups, true, 1, &ids, &page(&["b"])));
    assert!(b.begin_box_drag(&groups, true, 1, &ids, &[]));
    assert_eq!(b.box_drag, Some(1));
    assert_eq!(b.pages_to_turn(&groups), Some(3));
}

#[test]
fn a_dropped_member_lands_before_the_one_it_is_on() {
    let groups = [group()];
    let ids = page(&["a", "b", "c", "d", "e"]);
    let start = || {
        let mut b = BoxState::new();
        b.open_group(0);
        assert!(b.begin_box_drag(&groups, true, 0, &ids, &[]));
        b
    };
    match start().drop_box_drag(&groups, &ids, Some(1)) {
        BoxDrop::Before(m) => assert_eq!(m, "c"),
        other => panic!("{other:?}"),
    }
    match start().drop_box_drag(&groups, &ids, Some(7)) {
        BoxDrop::PageEnd(p) => assert_eq!(p, 0),
        other => panic!("{other:?}"),
    }
    match start().drop_box_drag(&groups, &ids, Some(18)) {
        BoxDrop::PageEnd(p) => assert_eq!(p, 2),
        other => panic!("{other:?}"),
    }
    assert!(matches!(start().drop_box_drag(&groups, &ids, None), BoxDrop::Nowhere));
    assert_eq!(box_drag_slot_target(1, true, 0, 2), Some(9 + 3));
}

#[test]
fn a_box_of_two_hands_its_pin_over() {
    let two = BoxGroup { id: "g2".into(), members: vec![page(&["a", "b"])] };
    let ids = page(&["b", "a"]);
    let mut b = BoxState::new();
    b.open_dock_folder(0, false);
    let out = b.pull_box_member_out(&two, "a", &ids, &page(&["x", "group:g2"])).unwrap();
    assert_eq!(out.entry, 1);
    assert_eq!(out.survivor, Some(("b".to_string(), Some(1))));
    assert_eq!(b.dock_stack, None);
}

#[test]
fn a_grid_box_shuts_over_the_live_grid() {
    let ids = page(&["a", "b", "c", "d", "e"]);
    let mut b = BoxState::new();
    b.open_group(0);
    let out = b.pull_box_member_out(&group(), "c", &ids, &[]).unwrap();
    assert_eq!((out.entry, out.survivor), (2, None));
    assert_eq!(b.app_group, None);
    assert_eq!(b.closing_members, Some(vec![0, 1, 3, 4]));
    assert!(b.pull_box_member_out(&group(), "c", &ids, &[]).is_none());
}

#[test]
fn a_cell_previews_four_members() {
    let ids = page(&["b", "a", "d"]);
    let (id, minis) = group_cell(&group(), &ids, &[7, 8]);
    assert_eq!(id, "group:g1");
    assert_eq!(minis, vec![Some(8), Some(7), None, None]);
    assert_eq!(flatten(&group().members), page(&["a", "b", "c", "d", "e"]));
}
