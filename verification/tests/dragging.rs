use waverunner::apps::EntryKind;
use waverunner::content::{SECTION_APPS, SECTION_INSTALL};
use waverunner::dragging::{
    after_gesture, catalog_webapp_slug, drag_drop_section, drop_drag, edge_page_due, fold_box_for,
    grid_drag, grid_fold_at, handle_dock_fold, handle_grid_drop, installed_webapp_slug,
    pin_dropped_on_dock, place_in_grid_at_slot, uninstall_app, BoxFold, DockFold, DragItem,
    DragPoint, DropAction, DropFacts, GridDrop, GridFacts, GridPlace, GridTarget, GridView,
    PlaceAction, Removal,
};

fn facts(kind: EntryKind) -> DropFacts {
    DropFacts {
        kind: Some(kind),
        released: true,
        insert: None,
        section: None,
        outside: false,
        from_dock: false,
        pending_failed: None,
        busy: false,
        removable: false,
        catalog_webapp: false,
        installed_webapp: false,
        fold: None,
        on_trash: false,
        resting: true,
    }
}

#[test]
fn a_held_edge_pages_every_cooldown() {
    let mut t = None;
    assert!(!edge_page_due(&mut t, 1, 1_000));
    assert!(!edge_page_due(&mut t, 1, 1_699));
    assert!(edge_page_due(&mut t, 1, 1_700));
    assert!(!edge_page_due(&mut t, 1, 1_701));
    assert!(!edge_page_due(&mut t, 0, 9_000));
    assert_eq!(t, None);
}

#[test]
fn packages_install_where_they_are_dropped() {
    let mut f = facts(EntryKind::Package);
    f.section = Some(SECTION_APPS);
    assert_eq!(drop_drag(&f), DropAction::InstallInGrid);
    f.fold = Some(4);
    assert_eq!(drop_drag(&f), DropAction::InstallBoxed(4));
    f.outside = true;
    assert_eq!(drop_drag(&f), DropAction::TryPackage);
    f.released = false;
    assert_eq!(drop_drag(&f), DropAction::SnapBack);
    let mut f = facts(EntryKind::Package);
    f.insert = Some(2);
    assert_eq!(drop_drag(&f), DropAction::InstallOnDock(2));
    f.busy = true;
    assert_eq!(drop_drag(&f), DropAction::SnapBack);
}

#[test]
fn a_lost_pointer_installs_nothing_on_the_dock() {
    let mut f = facts(EntryKind::Package);
    f.insert = Some(2);
    f.released = false;
    assert_eq!(drop_drag(&f), DropAction::SnapBack);
    let mut f = facts(EntryKind::App);
    f.catalog_webapp = true;
    f.insert = Some(2);
    f.released = false;
    assert_eq!(drop_drag(&f), DropAction::SnapBack);
}

#[test]
fn a_pending_tile_is_dismissed_only_once_failed() {
    let mut f = facts(EntryKind::Package);
    f.outside = true;
    f.pending_failed = Some(false);
    assert_eq!(drop_drag(&f), DropAction::SnapBack);
    f.pending_failed = Some(true);
    assert_eq!(drop_drag(&f), DropAction::DismissPending);
}

#[test]
fn only_own_apps_are_uninstalled() {
    let mut f = facts(EntryKind::App);
    f.section = Some(SECTION_INSTALL);
    assert_eq!(drop_drag(&f), DropAction::Gesture { grid: true, dock: true });
    f.removable = true;
    assert_eq!(drop_drag(&f), DropAction::Uninstall);
    f.removable = false;
    f.installed_webapp = true;
    assert_eq!(drop_drag(&f), DropAction::Uninstall);
    f.released = false;
    assert_eq!(drop_drag(&f), DropAction::Gesture { grid: false, dock: false });
}

#[test]
fn catalog_webapps_are_tried_or_installed() {
    let mut f = facts(EntryKind::App);
    f.catalog_webapp = true;
    assert_eq!(drop_drag(&f), DropAction::SnapBack);
    f.insert = Some(1);
    assert_eq!(drop_drag(&f), DropAction::WebappOnDock(1));
    f.section = Some(SECTION_APPS);
    assert_eq!(drop_drag(&f), DropAction::WebappInGrid);
    f.fold = Some(9);
    assert_eq!(drop_drag(&f), DropAction::WebappBoxed(9));
    f.outside = true;
    assert_eq!(drop_drag(&f), DropAction::TryWebapp);
}

#[test]
fn files_go_to_the_bin_or_off_the_dock() {
    let mut f = facts(EntryKind::File);
    f.on_trash = true;
    assert_eq!(drop_drag(&f), DropAction::TrashFile);
    f.on_trash = false;
    f.from_dock = true;
    assert_eq!(drop_drag(&f), DropAction::Gesture { grid: false, dock: false });
    assert_eq!(after_gesture(&f), PlaceAction::Unpin);
    f.insert = Some(3);
    assert_eq!(after_gesture(&f), PlaceAction::Pin(3));
    f.insert = None;
    f.released = false;
    assert_eq!(after_gesture(&f), PlaceAction::SnapBack);
}

#[test]
fn removal_goes_by_package_then_webapp() {
    assert!(matches!(uninstall_app(true, true, Some("vlc".into()), true), Removal::Keep));
    match uninstall_app(false, true, Some("vlc".into()), true) {
        Removal::Package(a) => assert_eq!(a, "vlc"),
        other => panic!("{other:?}"),
    }
    assert!(matches!(uninstall_app(false, true, None, true), Removal::Webapp));
    assert!(matches!(uninstall_app(false, false, None, false), Removal::Keep));
}

#[test]
fn sections_light_up_for_what_they_take() {
    let p = Some(EntryKind::Package);
    let a = Some(EntryKind::App);
    assert_eq!(drag_drop_section(false, Some(SECTION_APPS), p, false, false), Some(SECTION_APPS));
    assert_eq!(drag_drop_section(true, Some(SECTION_APPS), p, false, false), None);
    assert_eq!(drag_drop_section(false, Some(SECTION_INSTALL), a, false, false), None);
    assert_eq!(
        drag_drop_section(false, Some(SECTION_INSTALL), a, true, false),
        Some(SECTION_INSTALL)
    );
}

#[test]
fn folds_need_the_middle_of_another_item() {
    let kinds = [EntryKind::App, EntryKind::Group, EntryKind::File];
    let fold = |cell, centred, gap, dragged| {
        grid_fold_at(false, cell, centred, gap, &[0, 1, 2], &[0, 1, 2], &kinds, dragged)
    };
    assert_eq!(fold(Some(1), true, Some(0), 0), Some(1));
    assert_eq!(fold(Some(1), false, Some(0), 0), None);
    assert_eq!(fold(Some(1), true, Some(1), 0), None);
    assert_eq!(fold(Some(1), true, None, 0), None);
    assert_eq!(fold(Some(1), true, Some(0), 1), None);
    assert_eq!(fold(Some(2), true, Some(0), 0), None);
    assert_eq!(fold(Some(7), true, Some(0), 0), None);
}

#[test]
fn a_grid_drop_folds_moves_or_places() {
    let mut f = GridFacts {
        kind: Some(EntryKind::App),
        over: true,
        orig: Some(2),
        orig_slot: Some(2),
        gap: Some(5),
        span: 9,
        fold: None,
        fold_is_trash: false,
        open_members: None,
    };
    assert_eq!(handle_grid_drop(&f), (GridDrop::Place(5), false));
    f.open_members = Some(4);
    assert_eq!(handle_grid_drop(&f), (GridDrop::MoveMember(4), false));
    f.gap = Some(1);
    assert_eq!(handle_grid_drop(&f), (GridDrop::MoveMember(1), false));
    f.gap = Some(2);
    assert_eq!(handle_grid_drop(&f), (GridDrop::MoveMember(3), false));
    f.fold = Some(7);
    assert_eq!(handle_grid_drop(&f), (GridDrop::Fold(7), false));
    f.fold_is_trash = true;
    assert_eq!(handle_grid_drop(&f), (GridDrop::Uninstall, false));
    f.kind = Some(EntryKind::Group);
    f.open_members = None;
    f.orig = None;
    f.orig_slot = None;
    f.gap = None;
    assert_eq!(handle_grid_drop(&f), (GridDrop::Place(9), true));
    f.over = false;
    assert_eq!(handle_grid_drop(&f), (GridDrop::Elsewhere, false));
}

#[test]
fn dock_folds_join_or_create() {
    let boxes = vec!["g1".to_string()];
    let pins = vec!["x".to_string(), "firefox".to_string()];
    let fold = |target, id: &str, trash, kind| {
        handle_dock_fold(target, 0, id, trash, Some(kind), &boxes, &pins)
    };
    assert_eq!(fold(None, "firefox", false, EntryKind::App), DockFold::No);
    assert_eq!(fold(Some(0), "firefox", false, EntryKind::App), DockFold::No);
    assert_eq!(fold(Some(1), "firefox", true, EntryKind::App), DockFold::Uninstall);
    assert_eq!(fold(Some(1), "firefox", false, EntryKind::App), DockFold::Create(1));
    assert_eq!(fold(Some(1), "zed", false, EntryKind::App), DockFold::Create(2));
    assert_eq!(fold(Some(1), "group:g1", false, EntryKind::Group), DockFold::Join(0));
    assert_eq!(fold(Some(1), "group:gone", false, EntryKind::Group), DockFold::No);
    assert_eq!(fold_box_for("file", Some(EntryKind::File), &boxes), BoxFold::No);
}

#[test]
fn pinning_keeps_what_is_left_of_it() {
    let order = [10, 11, 12, 13];
    assert_eq!(pin_dropped_on_dock(&order, 2, None, false), (2, vec![10, 11]));
    assert_eq!(pin_dropped_on_dock(&order, 3, Some(11), true), (2, vec![10, 12]));
    assert_eq!(pin_dropped_on_dock(&order, 1, Some(12), true), (1, vec![10]));
}

#[test]
fn a_place_is_before_an_item_or_at_a_page_end() {
    let items = [(0, 100), (1, 101), (24, 102)];
    let place = |dragged, slot| place_in_grid_at_slot(&items, dragged, slot, 24, &[0, 3], 5);
    assert_eq!(place(9, 1), GridPlace::Before(101));
    assert_eq!(place(9, 2), GridPlace::PageEnd(0));
    assert_eq!(place(9, 25), GridPlace::PageEnd(3));
    assert_eq!(place(9, 50), GridPlace::PageEnd(5));
}

#[test]
fn an_item_never_goes_before_itself() {
    let items = [(0, 100), (1, 101), (2, 102)];
    let place = |dragged, slot| place_in_grid_at_slot(&items, dragged, slot, 24, &[0], 1);
    assert_eq!(place(100, 0), GridPlace::Before(101));
    assert_eq!(place(101, 1), GridPlace::Before(102));
    assert_eq!(place(102, 2), GridPlace::PageEnd(0));
}

#[test]
fn the_gap_follows_the_pointer() {
    let app = DragItem { kind: Some(EntryKind::App), from_dock: false, catalog_webapp: false };
    assert!(grid_drag(&app, true, Some(1)));
    assert!(!grid_drag(&app, true, None));
    assert!(!grid_drag(&app, false, Some(1)));
    let mut g = GridTarget { reorder_slot: None, page_at: None };
    let slots = [0, 1, 2, 3];
    g.aim_at_cell(&slots, Some(1), 24, 1, false, false);
    assert_eq!(g.reorder_slot, Some(1));
    g.aim_at_cell(&slots, Some(1), 24, 2, false, false);
    assert_eq!(g.reorder_slot, Some(1));
    g.aim_at_cell(&slots, Some(1), 24, 2, true, true);
    assert_eq!(g.reorder_slot, Some(2));
    g.aim_at_cell(&slots, Some(1), 24, 20, true, true);
    assert_eq!(g.reorder_slot, Some(3));
    g.aim_at_cell(&slots, None, 24, 20, true, true);
    assert_eq!(g.reorder_slot, Some(4));
    g.aim_off_grid(&slots, Some(1), 24, 0, false);
    assert_eq!(g.reorder_slot, Some(1));
    g.aim_off_grid(&slots, None, 24, 1, true);
    assert_eq!(g.reorder_slot, Some(24));
}

#[test]
fn slugs_tell_the_catalog_from_the_installed() {
    let slug = Some("mail".to_string());
    let installed = vec!["mail".to_string()];
    assert_eq!(catalog_webapp_slug(&slug, &[]).as_deref(), Some("mail"));
    assert_eq!(catalog_webapp_slug(&slug, &installed), None);
    assert_eq!(installed_webapp_slug(&slug, &installed).as_deref(), Some("mail"));
    assert_eq!(installed_webapp_slug(&None, &installed), None);
}

#[test]
fn a_held_drag_turns_pages_and_a_foreign_one_aims_at_nothing() {
    let mut t = GridTarget { reorder_slot: Some(3), page_at: None };
    let app = DragItem { kind: Some(EntryKind::App), from_dock: false, catalog_webapp: false };
    let step = t.hold(&app, true, Some(0), 2, 1, 1_000);
    assert!(step.aims && step.dirty && step.turn.is_none());
    let step = t.hold(&app, true, Some(0), 2, 1, 1_700);
    assert_eq!(step.turn, Some(1));
    assert_eq!(t.reorder_slot, Some(3));
    let step = t.hold(&app, true, Some(0), 1, 1, 9_000);
    assert!(step.aims && step.turn.is_none() && !step.dirty);
    assert_eq!(t.page_at, None);
    let file = DragItem { kind: Some(EntryKind::File), from_dock: false, catalog_webapp: false };
    assert!(!t.hold(&file, true, Some(0), 2, 1, 9_100).aims);
    assert_eq!(t.reorder_slot, None);
}

fn over(cell: usize, right: bool, centred: bool) -> DragPoint {
    DragPoint::Cell { cell, right, beyond: right, centred }
}

#[test]
fn hovering_the_middle_of_an_item_rings_it_and_rests_the_grid() {
    let kinds = [EntryKind::App, EntryKind::App, EntryKind::Group, EntryKind::File];
    let view = GridView {
        slots: &[0, 1, 2, 3],
        visible: &[0, 1, 2, 3],
        kinds: &kinds,
        cap: 24,
        n_pages: 1,
        resting: true,
        box_open: false,
    };
    let app = DragItem { kind: Some(EntryKind::App), from_dock: false, catalog_webapp: false };
    let mut t = GridTarget { reorder_slot: None, page_at: None };
    let aim = t.update_grid_target(&app, 0, Some(0), &view, over(1, false, true), 0, 5);
    assert_eq!(aim.fold, Some((SECTION_APPS, 1)));
    assert!(aim.dirty && aim.turn.is_none());
    assert_eq!(t.reorder_slot, Some(0));
    let drop = grid_fold_at(
        false, Some(1), true, t.reorder_slot, view.slots, view.visible, &kinds, 0,
    );
    assert_eq!(drop, Some(1));

    // Past its middle the gap opens there, and the gap is no fold target.
    let aim = t.update_grid_target(&app, 0, Some(0), &view, over(1, true, false), 0, 6);
    assert_eq!((aim.fold, t.reorder_slot), (None, Some(1)));
    let aim = t.update_grid_target(&app, 0, Some(0), &view, over(1, true, true), 0, 7);
    assert_eq!((aim.fold, t.reorder_slot), (None, Some(1)));

    // A box takes an application; a file does not; nothing folds onto itself.
    let aim = t.update_grid_target(&app, 0, Some(0), &view, over(2, true, true), 0, 8);
    assert_eq!((aim.fold, t.reorder_slot), (Some((SECTION_APPS, 2)), Some(0)));
    let aim = t.update_grid_target(&app, 0, Some(0), &view, over(3, true, true), 0, 9);
    assert_eq!((aim.fold, t.reorder_slot), (None, Some(3)));
    let aim = t.update_grid_target(&app, 0, Some(0), &view, over(0, true, true), 0, 10);
    assert_eq!(aim.fold, None);

    // Boxes do not nest, and an open box has its own way.
    let group = DragItem { kind: Some(EntryKind::Group), ..app };
    let mut t = GridTarget { reorder_slot: None, page_at: None };
    let aim = t.update_grid_target(&group, 2, Some(2), &view, over(1, false, true), 0, 11);
    assert_eq!(aim.fold, None);
    let open = GridView { box_open: true, ..view };
    let aim = t.update_grid_target(&app, 0, Some(0), &open, over(1, false, true), 0, 12);
    assert_eq!(aim.fold, None);
}

#[test]
fn a_new_item_folds_once_its_gap_is_open() {
    let kinds = [EntryKind::App, EntryKind::App, EntryKind::Package];
    let view = GridView {
        slots: &[0, 1],
        visible: &[0, 1],
        kinds: &kinds,
        cap: 24,
        n_pages: 2,
        resting: true,
        box_open: false,
    };
    let package =
        DragItem { kind: Some(EntryKind::Package), from_dock: false, catalog_webapp: false };
    let mut t = GridTarget { reorder_slot: None, page_at: None };
    let aim = t.update_grid_target(&package, 2, None, &view, over(1, true, true), 0, 5);
    assert_eq!((aim.fold, t.reorder_slot), (None, Some(2)));
    let aim = t.update_grid_target(&package, 2, None, &view, over(1, true, true), 0, 6);
    assert_eq!((aim.fold, t.reorder_slot), (Some((SECTION_APPS, 1)), Some(2)));
    let aim = t.update_grid_target(&package, 2, None, &view, DragPoint::Beside(1), 1, 7);
    assert_eq!((aim.fold, t.reorder_slot, t.page_at), (None, Some(24), Some(7)));
    let aim = t.update_grid_target(&package, 2, None, &view, DragPoint::Beside(1), 1, 707);
    assert_eq!(aim.turn, Some(1));
    let aim = t.update_grid_target(&package, 2, None, &view, DragPoint::Off, 0, 708);
    assert_eq!((aim.fold, t.reorder_slot, aim.dirty), (None, None, true));
    let busy = GridView { resting: false, ..view };
    let aim = t.update_grid_target(&package, 2, None, &busy, over(1, true, true), 1, 709);
    assert_eq!((aim.fold, aim.turn, aim.dirty, t.page_at), (None, None, false, None));
}
