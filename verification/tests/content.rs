use waverunner::content::{
    box_cell, box_place, caption, cell_place, empty_text, hit_test, open_box_slot_member,
    scroll_to_reveal, section_cell, section_grid, section_rows, section_title, truncate_label,
    wrap_page, CellPoint, Hit, SectionGrid, SectionHit, SECTION_APPS, SECTION_FILES,
    SECTION_INSTALL,
};

fn apps(n: usize) -> SectionGrid {
    section_grid(SECTION_APPS, 6, 4, n, false)
}

fn at(strip_col: usize, row: usize, screen_col: usize) -> Option<CellPoint> {
    Some(CellPoint { strip_col, row, screen_col })
}

fn idslots(n: usize) -> Vec<usize> {
    (0..n).collect()
}

#[test]
fn hit_test_finds_dock_icon_and_cells_per_section() {
    let grids = |a, b, c| {
        [
            (apps(10), a),
            (section_grid(SECTION_INSTALL, 6, 1, 0, false), b),
            (section_grid(SECTION_FILES, 6, 1, 6, false), c),
        ]
    };
    assert_eq!(
        hit_test(Some(0), false, false, None, &grids(None, None, None), &idslots(10)),
        Some(Hit::DockIcon(0))
    );
    assert_eq!(
        hit_test(None, false, false, None, &grids(at(1, 0, 1), None, None), &idslots(10)),
        Some(Hit::GridCell(SECTION_APPS, 1))
    );
    assert_eq!(
        hit_test(None, false, false, None, &grids(None, None, at(0, 0, 0)), &idslots(10)),
        Some(Hit::GridCell(SECTION_FILES, 0))
    );
    assert_eq!(
        hit_test(None, false, false, None, &grids(None, at(0, 0, 0), None), &idslots(10)),
        None
    );
    assert_eq!(
        hit_test(None, false, false, None, &grids(None, None, None), &idslots(10)),
        None
    );
}

#[test]
fn scrolled_hit_test_offsets_cells() {
    let g = apps(18 * 3);
    let cells_per_page = g.cols * g.rows;
    assert_eq!(
        hit_test(None, false, false, None, &[(g, at(6, 0, 0))], &idslots(18 * 3)),
        Some(Hit::GridCell(SECTION_APPS, cells_per_page))
    );
}

#[test]
fn partial_last_row_is_not_hit_beyond_entries() {
    let g = apps(7);
    let last_row = 7 / g.cols;
    let beyond = 7 % g.cols;
    assert!(beyond > 0 && last_row < g.rows);
    assert_eq!(
        hit_test(None, false, false, None, &[(g, at(beyond, last_row, beyond))], &idslots(7)),
        None
    );
}

#[test]
fn the_button_and_the_box_lie_over_the_grid() {
    let g = [(apps(10), at(1, 0, 1))];
    assert_eq!(
        hit_test(None, true, false, Some(4), &g, &idslots(10)),
        Some(Hit::SearchButton)
    );
    assert_eq!(
        hit_test(None, true, true, Some(4), &g, &idslots(10)),
        Some(Hit::OpenBoxCell(4))
    );
    assert_eq!(box_cell(1, 1), 4);
    assert_eq!(box_cell(9, 9), 8);
}

#[test]
fn an_empty_slot_is_no_hit() {
    let g = [(apps(10), at(2, 0, 2))];
    assert_eq!(hit_test(None, false, false, None, &g, &[0, 1, 3]), None);
    assert_eq!(
        hit_test(None, false, false, None, &g, &[0, 1, 2]),
        Some(Hit::GridCell(SECTION_APPS, 2))
    );
}

#[test]
fn pages_hold_every_cell() {
    assert_eq!(apps(0).n_pages, 0);
    assert_eq!(apps(1).n_pages, 1);
    assert_eq!(apps(24).n_pages, 1);
    assert_eq!(apps(25).n_pages, 2);
    let nav = section_grid(SECTION_FILES, 6, 1, 7, true);
    assert_eq!((nav.lead, nav.n_pages), (1, 2));
    assert_eq!(section_grid(SECTION_FILES, 6, 1, 6, true).n_pages, 1);
    assert_eq!(section_rows(SECTION_APPS, 9), 4);
    assert_eq!(section_rows(SECTION_APPS, 0), 1);
    assert_eq!(section_rows(SECTION_FILES, 9), 1);
}

#[test]
fn a_lead_stays_over_the_pages() {
    let nav = section_grid(SECTION_FILES, 6, 1, 12, true);
    assert_eq!(
        section_cell(&nav, &CellPoint { strip_col: 6, row: 0, screen_col: 0 }),
        SectionHit::Cell(0)
    );
    assert_eq!(
        section_cell(&nav, &CellPoint { strip_col: 7, row: 0, screen_col: 1 }),
        SectionHit::Cell(6)
    );
    assert_eq!(
        section_cell(&nav, &CellPoint { strip_col: 6, row: 0, screen_col: 2 }),
        SectionHit::Blank
    );
}

#[test]
fn cells_are_hit_where_they_are_drawn() {
    for g in [apps(70), section_grid(SECTION_FILES, 6, 1, 20, true)] {
        for i in g.lead..g.cells {
            let (page, row, col) = cell_place(&g, i);
            let p = CellPoint { strip_col: page * g.cols + col, row, screen_col: g.lead };
            assert_eq!(section_cell(&g, &p), SectionHit::Cell(i));
            let turned = CellPoint { strip_col: p.strip_col + 2 * g.n_pages * g.cols, ..p };
            assert_eq!(section_cell(&g, &turned), SectionHit::Cell(i));
            assert_eq!(scroll_to_reveal(&g, i), page);
        }
        assert_eq!(scroll_to_reveal(&g, 9999), g.n_pages - 1);
    }
}

#[test]
fn box_slots_and_members_agree() {
    let left: Vec<usize> = (0..9).map(|k| open_box_slot_member(true, k)).collect();
    assert_eq!(left, vec![0, 1, 3, 2, 4, 5, 6, 7, 8]);
    let right: Vec<usize> = (0..9).map(|k| open_box_slot_member(false, k)).collect();
    assert_eq!(right, vec![2, 0, 1, 4, 5, 3, 6, 7, 8]);
    assert_eq!(open_box_slot_member(true, 12), 12);
    for side in [true, false] {
        for member in 0..9 {
            let (page, row, col) = box_place(side, 9 + member);
            assert_eq!(page, 1);
            assert_eq!(open_box_slot_member(side, row * 3 + col), member);
        }
    }
}

#[test]
fn labels_say_what_happens() {
    assert_eq!(section_title(SECTION_FILES, "~/x", ""), "Files — ~/x");
    assert_eq!(section_title(SECTION_APPS, "~/x", "Games"), "Apps — Games");
    assert_eq!(section_title(SECTION_INSTALL, "~/x", "Games"), "Install");
    assert_eq!(empty_text(SECTION_INSTALL, "hint", "").as_deref(), Some("hint"));
    assert_eq!(empty_text(SECTION_APPS, "hint", "q").as_deref(), Some("No results"));
    assert_eq!(empty_text(SECTION_APPS, "hint", ""), None);
    assert_eq!(caption("Firefox", 20, SECTION_APPS, true, false, false, true), "Launching…");
    assert_eq!(caption("Firefox", 20, SECTION_INSTALL, true, false, false, false), "Installing…");
    assert_eq!(caption("Firefox", 20, SECTION_APPS, true, false, true, false), "Installing…");
    assert_eq!(caption("Firefox", 20, SECTION_APPS, true, true, false, false), "Removing…");
    assert_eq!(caption("Firefox", 20, SECTION_APPS, false, true, false, false), "Failed");
    assert_eq!(caption("Firefox", 20, SECTION_APPS, false, false, false, true), "Firefox");
}

#[test]
fn long_labels_are_cut() {
    assert_eq!(truncate_label("LibreOffice Writer", 13), "LibreOffice…");
    assert_eq!(truncate_label("Zed", 3), "Zed");
    assert_eq!(truncate_label("Zed!", 0), "…");
}

#[test]
fn the_strip_goes_round() {
    let g = apps(54);
    assert_eq!(g.n_pages, 3);
    let behind = CellPoint { strip_col: 18, row: 0, screen_col: 3 };
    assert_eq!(section_cell(&g, &behind), SectionHit::Cell(0));
    let slots: Vec<usize> = (0..54).collect();
    let here = [(g, Some(behind))];
    assert_eq!(
        hit_test(None, false, false, None, &here, &slots),
        Some(Hit::GridCell(SECTION_APPS, 0))
    );
    let below = CellPoint { strip_col: 18, row: 4, screen_col: 3 };
    assert_eq!(section_cell(&g, &below), SectionHit::Miss);
    assert_eq!(wrap_page(3, 3), 0);
    assert_eq!(wrap_page(2, 3), 2);
    assert_eq!(wrap_page(-1, 3), 2);
    assert_eq!(wrap_page(-3, 3), 0);
    assert_eq!(wrap_page(i64::MIN, 1), 0);
    assert_eq!(wrap_page(-7, 3), 2);
}
