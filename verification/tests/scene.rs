use waverunner::content::{empty_text, Hit, SECTION_APPS, SECTION_FILES, SECTION_INSTALL};
use waverunner::index::AppEntry;
use waverunner::scene::{
    box_members, divider, dock_highlight, dock_icons, dock_tooltip, in_hand, layer_of, search_label,
    section_cells, FrameFacts, InHand, Mark,
};

fn entries(n: usize) -> Vec<AppEntry> {
    (0..n)
        .map(|i| AppEntry {
            id: format!("app{i}"),
            name: format!("App {i}"),
            description: None,
            command: "true".into(),
            icon: None,
            needs_terminal: false,
        })
        .collect()
}

fn facts(entries: &[AppEntry]) -> FrameFacts<'_> {
    FrameFacts {
        entries,
        hover: None,
        selected: None,
        over_cell: None,
        over_dock: None,
        dragging: false,
        drag_hidden: None,
        dock_hidden: None,
        open_box_hidden: None,
        boxes: &[],
        placeholders: &[],
        busy: &[],
        failed: &[],
        installing: &[],
        launching: &[],
    }
}

#[test]
fn files_section_shows_its_own_entries() {
    let e = entries(10);
    let f = facts(&e);
    let counts = [4, 0, 6];
    let visible = [vec![0, 1, 2, 3], Vec::new(), vec![4, 5, 6, 7, 8, 9]];
    let drawn = |s: usize| section_cells(&f, s, counts[s], &visible[s], 0, 20);
    let files = drawn(SECTION_FILES);
    assert_eq!(files.len(), 6);
    assert_eq!(files[0].caption, "App 4");
    assert!(drawn(SECTION_INSTALL).is_empty());
    assert_eq!(
        empty_text(SECTION_INSTALL, "Search to install from nixpkgs", "").as_deref(),
        Some("Search to install from nixpkgs")
    );
}

#[test]
fn an_entry_without_a_layer_has_its_own() {
    assert_eq!(layer_of(&[7, 3], 1), 3);
    assert_eq!(layer_of(&[7, 3], 2), 2);
    assert_eq!(layer_of(&[], 0), 0);
}

#[test]
fn marks_rings_and_letters() {
    let e = entries(4);
    let mut f = facts(&e);
    f.selected = Some((SECTION_APPS, 1));
    f.hover = Some(Hit::GridCell(SECTION_APPS, 2));
    f.over_cell = Some((SECTION_APPS, 3));
    f.placeholders = &[true, false, false, false];
    f.boxes = &[3];
    f.busy = &[false, true];
    let c = section_cells(&f, SECTION_APPS, 9, &[0, 1, 2, 3], 0, 20);
    assert_eq!(c.len(), 4);
    assert_eq!(c[0].letter.as_deref(), Some("A"));
    assert_eq!((c[1].mark, c[1].caption.as_str(), c[1].dim), (Mark::Selected, "Removing…", true));
    assert_eq!(c[2].mark, Mark::Hovered);
    assert!(c[3].ringed);
    assert_eq!(c[3].group, Some(0));
}

#[test]
fn hidden_cells_are_skipped_and_missing_ones_end_the_row() {
    let e = entries(3);
    let mut f = facts(&e);
    f.drag_hidden = Some(1);
    let c = section_cells(&f, SECTION_APPS, 5, &[0, 1, 2, 7, 0], 1, 20);
    let cells: Vec<usize> = c.iter().map(|c| c.cell).collect();
    assert_eq!(cells, vec![0, 2]);
    assert!(c[0].leads && !c[1].leads);
}

#[test]
fn the_dock_shows_what_is_not_in_hand() {
    let mut e = entries(3);
    e[0].name = "émil".into();
    let mut f = facts(&e);
    f.dock_hidden = Some(1);
    f.over_dock = Some(2);
    f.placeholders = &[true];
    let d = dock_icons(&f, 3, &[0, 1, 2], &[true]);
    assert_eq!(d.len(), 2);
    assert!(d[0].running && !d[1].running);
    assert_eq!(d[0].letter.as_deref(), Some("É"));
    assert_eq!((d[1].slot, d[1].entry, d[1].ringed), (2, 2, true));
}

#[test]
fn the_dock_has_one_divider_and_tooltip() {
    let e = entries(2);
    let mut f = facts(&e);
    assert_eq!(divider(Some(0), 4), None);
    assert_eq!(divider(Some(2), 4), Some(2));
    assert_eq!(divider(Some(4), 4), None);
    f.hover = Some(Hit::DockIcon(1));
    assert_eq!(dock_highlight(&f, 2), Some(1));
    let (slot, name) = dock_tooltip(&f, 2, &[1, 0], Some(0)).unwrap();
    assert_eq!((slot, name.as_str()), (0, "App 1"));
    f.dragging = true;
    assert_eq!(dock_highlight(&f, 2), None);
    assert!(dock_tooltip(&f, 2, &[1, 0], Some(0)).is_none());
}

#[test]
fn the_search_widget_prompts() {
    assert_eq!(search_label(false, "x"), ("Search".to_string(), false));
    assert_eq!(search_label(true, ""), ("Search".to_string(), true));
    assert_eq!(search_label(true, "x"), ("x".to_string(), false));
}

#[test]
fn an_open_box_shows_all_but_what_is_in_hand() {
    let e = entries(3);
    let mut f = facts(&e);
    f.boxes = &[9, 2];
    f.placeholders = &[false, true];
    assert_eq!(in_hand(&f, 2), InHand::Minis(1));
    assert_eq!(in_hand(&f, 0), InHand::Icon(0));
    let m = box_members(&f, &[0, 1, 7], Some(0), 4);
    assert_eq!(m.len(), 2);
    assert_eq!((m[0].member, m[0].entry), (1, 1));
    assert_eq!(m[0].letter.as_deref(), Some("A"));
    assert_eq!(m[0].name.as_deref(), Some("App…"));
    assert_eq!((m[1].letter.is_none(), m[1].name.is_none()), (true, true));
}
