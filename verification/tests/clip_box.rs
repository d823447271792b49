use waverunner::clip_state::{
    can_restore, AxisTarget, ClipHit, ClipPoint, ClipState, DictKey, MAX_HISTORY,
};
use waverunner::clip_view::{
    card_view, clip_detail_pills, clip_row_lines, clip_tile, dict_answer_lines, dict_field,
    dict_hint, fmt_datetime, fmt_relative, glyph_text, link_has_webapp, log_lines, meta_row_count,
    meta_rows, paste_target, pill_view, row_view, wrap_text, CardView, ClipTile, DictLineKind,
    PillView, ThumbSlots, TileGlyph,
};
use waverunner::clipboard::{
    can_decode_first, can_decode_list, classify_files, classify_text, first_file_path, ClipEntry,
    ClipEvent, ClipKind,
};
use waverunner::dict::{assemble, Event, LangData, RawEntry};

const NOW: u64 = 1_700_000_000_000;

fn clip(text: &str) -> ClipEntry {
    classify_text(text, "text/plain".into(), NOW).unwrap()
}

fn state(texts: &[&str]) -> ClipState {
    let (mut s, _) = ClipState::new(Vec::new());
    for t in texts {
        s.on_captured(clip(t), false, 10);
    }
    s
}

fn shown(s: &ClipState) -> Vec<&str> {
    s.history.iter().map(|e| e.text.as_str()).collect()
}

#[test]
fn the_newest_clip_stands_first() {
    let s = state(&["one", "two", "three"]);
    assert_eq!(shown(&s), vec!["three", "two", "one"]);
}

#[test]
fn a_recopied_clip_moves_up_and_keeps_its_record() {
    let mut s = state(&["one", "two"]);
    let id = s.history[1].id;
    s.record_clip_paste(&None, NOW);
    s.on_captured(clip("one"), false, 20);
    assert_eq!(shown(&s), vec!["one", "two"]);
    assert_eq!(s.history[0].id, id);
    assert_eq!(s.history[1].paste_count, 1);
}

#[test]
fn a_capture_keeps_the_order_of_the_others() {
    let mut s = state(&["one", "two", "three", "four"]);
    s.history[2].source = "notes".into();
    let (id, next) = (s.history[2].id, s.next_id);
    let mut again = clip("two");
    again.source = "browser".into();
    s.on_clip_event(ClipEvent::Captured(Box::new(again)), &None, false, 20, NOW);
    assert_eq!(shown(&s), vec!["two", "four", "three", "one"]);
    assert_eq!((s.history[0].id, s.next_id), (id, next));
    assert_eq!(s.history[0].source, "notes");
    s.on_clip_event(ClipEvent::Captured(Box::new(clip("five"))), &None, false, 30, NOW);
    assert_eq!(shown(&s), vec!["five", "two", "four", "three", "one"]);
    assert_eq!((s.history[0].id, s.next_id), (next, next + 1));
}

#[test]
fn the_history_is_bounded() {
    let texts: Vec<String> = (0..MAX_HISTORY + 5).map(|i| format!("clip {i}")).collect();
    let s = state(&texts.iter().map(|t| t.as_str()).collect::<Vec<_>>());
    assert_eq!(s.history.len(), MAX_HISTORY);
    assert_eq!(s.history[0].text, format!("clip {}", MAX_HISTORY + 4));
}

#[test]
fn deleting_takes_one_clip() {
    let mut s = state(&["one", "two", "three"]);
    let fx = s.delete_clip(1);
    assert!(fx.save);
    assert_eq!(shown(&s), vec!["three", "one"]);
    s.delete_clip(9);
    assert_eq!(shown(&s), vec!["three", "one"]);
    s.clear_all_clips();
    assert!(s.history.is_empty());
}

#[test]
fn serving_twice_serves_once() {
    let mut s = state(&["one"]);
    s.served_hash = None;
    assert!(s.serve_newest_clip().is_some());
    assert!(s.serve_newest_clip().is_none());
}

#[test]
fn events_reach_the_history() {
    let mut s = state(&[]);
    s.on_clip_event(ClipEvent::Captured(Box::new(clip("x"))), &None, false, 10, NOW);
    assert_eq!(shown(&s), vec!["x"]);
    let win = Some(("foot".to_string(), "vim".to_string()));
    s.on_clip_event(ClipEvent::Pasted, &win, false, 20, NOW);
    assert_eq!(s.history[0].paste_count, 1);
    assert_eq!(s.history[0].pastes[0].target, "foot — vim");
}

#[test]
fn the_box_opens_over_a_history_only() {
    let mut s = state(&[]);
    assert!(!s.open_clip_box());
    let mut s = state(&["one"]);
    assert!(s.open_clip_box());
    assert!(s.expanded);
    assert!(s.open_clip_detail(0));
    assert!(s.clip_detail_entry().is_some());
    assert!(!s.open_clip_detail(7));
}

#[test]
fn panels_hide_what_is_behind_them() {
    let mut s = state(&["one"]);
    s.open_clip_box();
    let at = Some(ClipPoint {
        back: true,
        pill: Some(ClipHit::DetailCopy),
        footer: false,
        button: None,
        row: Some((0, true)),
    });
    assert_eq!(s.clip_hit(false, at), ClipHit::Nothing);
    assert_eq!(s.clip_hit(true, None), ClipHit::Nothing);
    assert_eq!(s.clip_hit(true, at), ClipHit::Delete(0));
    s.open_clip_detail(0);
    assert_eq!(s.clip_hit(true, at), ClipHit::DetailCopy);
    s.close_clip_detail();
    s.open_dict(true);
    assert_eq!(s.clip_hit(true, at), ClipHit::Back);
}

#[test]
fn the_wheel_moves_what_is_open() {
    let mut s = state(&["one"]);
    assert_eq!(s.clip_axis(false), AxisTarget::Opening);
    s.open_clip_box();
    s.hold_deadline = Some(99);
    assert_eq!(s.clip_axis(false), AxisTarget::List);
    assert_eq!(s.hold_deadline, None);
    s.open_clip_detail(0);
    assert_eq!(s.clip_axis(true), AxisTarget::Facts);
    assert_eq!(s.clip_axis(false), AxisTarget::Content);
    s.close_clip_detail();
    s.open_dict(true);
    assert_eq!(s.clip_axis(true), AxisTarget::Dictionary);
}

#[test]
fn a_right_click_on_a_row_opens_it() {
    let mut s = state(&["one", "two"]);
    s.open_clip_box();
    assert!(s.update_clip_hit(ClipHit::Row(1)));
    assert_eq!(s.hover_row, Some(1));
    assert!(row_view(&s, 1).unwrap().hovered);
    assert!(!row_view(&s, 0).unwrap().hovered);
    assert!(row_view(&s, 9).is_none());
    assert!(s.clip_box_right_click());
    assert!(s.detail_open);
    assert!(clip_detail_pills(&s).contains(&ClipHit::Back));
    assert!(!s.clip_box_right_click());
}

#[test]
fn leaving_collapses_after_the_hold() {
    let mut s = state(&["one"]);
    s.update_clip_reveal(true, 1_000);
    assert!(s.peek_reveal);
    let deadline = s.update_clip_reveal(false, 2_000).unwrap();
    assert_eq!(deadline, 2_300);
    assert!(s.hold_over(deadline, false));
    assert!(!s.peek_reveal);
}

#[test]
fn text_wraps_at_words() {
    assert_eq!(wrap_text("aa bb cc dd", 9), vec!["aa bb cc".to_string(), "dd".to_string()]);
    assert_eq!(wrap_text("aa bb cc", 1), vec!["aa bb cc".to_string()]);
    assert_eq!(wrap_text("a\nb", 5), vec!["a".to_string(), "b".to_string()]);
}

#[test]
fn rows_show_at_most_four_lines() {
    let e = clip("a\nb\nc\nd\ne");
    assert_eq!(
        clip_row_lines(&e, 20),
        vec!["a".to_string(), "b".to_string(), "c".to_string(), "d…".to_string()]
    );
    let f = classify_files("file:///a/b.txt\n", false, NOW).unwrap();
    assert_eq!(clip_row_lines(&f, 20), vec!["b.txt".to_string()]);
}

#[test]
fn times_read_short() {
    assert_eq!(fmt_relative(0, 5, 9, 5, 5), "");
    assert_eq!(fmt_relative(1, 5, 9, 5, 5), "09:05");
    assert_eq!(fmt_relative(1, 3, 9, 5, 5), "2d");
    assert_eq!(fmt_datetime(1, 0, 7, 14, 30), "Jan 7 · 14:30");
    assert_eq!(fmt_datetime(0, 0, 7, 14, 30), "");
}

#[test]
fn the_sheet_says_what_is_known() {
    let e = clip("hello");
    let rows = meta_rows(&e, "today");
    let flat: Vec<(&str, &str)> = rows.iter().map(|(a, b)| (a.as_str(), b.as_str())).collect();
    assert_eq!(
        flat,
        vec![("Source:", "unknown"), ("Copied:", "today"), ("Pasted:", "not yet")]
    );
    assert!(!paste_target("").is_empty());
}

#[test]
fn tiles_follow_the_kind() {
    assert!(matches!(clip_tile(&clip("hello"), false, false), ClipTile::Plain));
    assert!(matches!(
        clip_tile(&clip("https://example.com/x"), false, false),
        ClipTile::Glyph(TileGlyph::Link)
    ));
    let f = classify_files("file:///a/b.txt\n", false, NOW).unwrap();
    assert!(matches!(clip_tile(&f, true, false), ClipTile::Glyph(TileGlyph::Folder)));
}

#[test]
fn thumbnails_are_asked_for_once() {
    let thumb = |path: &str, key| ClipTile::Thumb {
        path: path.to_string(),
        key,
        glyph: TileGlyph::Files,
    };
    let rows = [thumb("/a", 7), ClipTile::Plain, thumb("/a", 7), thumb("/b", 8)];
    let mut t = ThumbSlots::new();
    let asked = t.request_clip_thumbs(&rows);
    assert_eq!(
        asked,
        vec![("/a".to_string(), 7), ("/a".to_string(), 7), ("/b".to_string(), 8)]
    );
    assert!(t.request_clip_thumbs(&rows).is_empty());
    assert_eq!(t.on_clip_thumb(7), Some(0));
    assert_eq!(t.slot_of(7), Some(0));
    assert!(t.request_clip_thumbs(&rows).is_empty());
    assert_eq!(t.slot_of(8), None);
}

#[test]
fn webapps_are_known_by_host() {
    let hosts = vec!["example.com".to_string()];
    assert!(link_has_webapp("example.com", &hosts));
    assert!(!link_has_webapp("example.org", &hosts));
}

#[test]
fn an_empty_field_prompts() {
    let mut s = state(&["one"]);
    s.open_clip_box();
    s.open_dict(true);
    let (text, dim) = dict_field(&s);
    assert!(!text.is_empty() && dim);
}

#[test]
fn a_click_on_a_row_serves_it_and_shuts_the_box() {
    let mut s = state(&["one", "two"]);
    s.open_clip_box();
    let (taken, fx) = s.clip_box_click(false);
    assert!(!taken && fx.serve.is_none() && s.expanded);
    assert!(!s.clip_box_hit_clickable());
    s.update_clip_hit(ClipHit::Row(1));
    assert!(s.clip_box_hit_clickable());
    let (taken, fx) = s.clip_box_click(false);
    assert!(taken);
    assert_eq!(fx.serve.unwrap().text, "one");
    assert_eq!(s.served_hash, Some(s.history[1].hash));
    assert!(!s.expanded);
    assert_eq!(s.hit, ClipHit::Nothing);
}

#[test]
fn the_footer_clears_everything() {
    let mut s = state(&["one", "two"]);
    s.open_clip_box();
    s.update_clip_hit(ClipHit::NewNote);
    let (taken, fx) = s.clip_box_click(false);
    assert!(taken && !fx.save && s.expanded);
    s.update_clip_hit(ClipHit::ClearAll);
    let (taken, fx) = s.clip_box_click(false);
    assert!(taken && fx.save);
    assert_eq!(fx.dropped.len(), 2);
    assert!(s.history.is_empty() && !s.expanded);
}

#[test]
fn the_detail_copies_opens_and_deletes() {
    let mut s = state(&["one", "https://example.com/x"]);
    s.open_clip_box();
    s.open_clip_detail(0);
    s.update_clip_hit(ClipHit::DetailMore);
    assert!(s.clip_box_click(false).0);
    s.update_clip_hit(ClipHit::DetailOpen);
    let (_, fx) = s.clip_box_click(false);
    assert_eq!(fx.open_url.as_deref(), Some("https://example.com/x"));
    assert!(!s.expanded);
    s.open_clip_box();
    s.open_clip_detail(1);
    s.update_clip_hit(ClipHit::DetailCopy);
    let (_, fx) = s.clip_box_click(false);
    assert_eq!(fx.serve.unwrap().text, "one");
    s.open_clip_box();
    s.open_clip_detail(1);
    s.update_clip_hit(ClipHit::DetailDelete);
    let (_, fx) = s.clip_box_click(false);
    assert!(fx.save && !s.detail_open && s.expanded);
    assert_eq!(shown(&s), vec!["https://example.com/x"]);
    s.open_clip_detail(0);
    s.update_clip_hit(ClipHit::DetailDelete);
    s.clip_box_click(false);
    assert!(s.history.is_empty() && !s.expanded);
}

#[test]
fn back_leaves_the_panel_before_the_detail() {
    let mut s = state(&["one"]);
    s.open_clip_box();
    s.open_clip_detail(0);
    s.open_dict(false);
    s.update_clip_hit(ClipHit::Back);
    let (_, fx) = s.clip_box_click(false);
    assert_eq!(fx.keyboard, Some(false));
    assert!(!s.dict_open && s.detail_open);
    s.update_clip_hit(ClipHit::Back);
    let (_, fx) = s.clip_box_click(false);
    assert_eq!(fx.keyboard, None);
    assert!(!s.detail_open);
}

#[test]
fn a_closed_detail_is_forgotten_once_its_view_is_gone() {
    let mut s = state(&["one"]);
    s.open_clip_box();
    s.open_clip_detail(0);
    assert!(s.tick(11, true));
    assert!(s.detail_id.is_some());
    s.close_clip_detail();
    assert!(s.tick(12, false));
    assert!(s.detail_id.is_some());
    assert!(!s.tick(9_999, true));
    assert!(s.detail_id.is_none() && s.blink_until.is_none());
}

#[test]
fn the_dictionary_takes_the_keyboard_and_is_loaded_once() {
    let mut s = state(&["one"]);
    s.open_clip_box();
    s.update_clip_hit(ClipHit::Dictionary);
    let (taken, fx) = s.clip_box_click(true);
    assert!(taken && fx.load_dict && s.dict_loading);
    assert_eq!(fx.keyboard, Some(true));
    assert!(!s.open_dict(true).load_dict);
    s.on_dict_loaded(Event::Loaded(Err("no word lists".into())));
    assert_eq!(s.dict_error.as_deref(), Some("no word lists"));
    assert!(!s.dict_loading);
    let lang = LangData::new("English", vec![("heart".into(), RawEntry::Plain("a muscle".into()))]);
    s.on_dict_loaded(Event::Loaded(assemble(vec![lang])));
    assert!(s.dict_error.is_none() && s.dict_data.is_some());
    assert!(!s.open_dict(true).load_dict);
}

#[test]
fn keys_edit_the_word() {
    let mut s = state(&["one"]);
    s.open_clip_box();
    s.open_dict(false);
    assert!(!s.dict_key(DictKey::Other, Some("ñ")));
    assert!(!s.dict_key(DictKey::Other, Some("u")));
    assert!(!s.dict_key(DictKey::Other, Some("\r")));
    assert!(!s.dict_key(DictKey::Other, Some("")));
    assert!(!s.dict_key(DictKey::Other, None));
    assert_eq!(s.dict_query, "ñu");
    assert!(!s.dict_key(DictKey::BackSpace, None));
    assert_eq!(s.dict_query, "ñ");
    s.dict_key(DictKey::BackSpace, None);
    s.dict_key(DictKey::BackSpace, None);
    assert_eq!(s.dict_query, "");
    assert!(s.dict_key(DictKey::Escape, None));
    assert!(!s.dict_open);
}

#[test]
fn the_panel_holds_the_box_open() {
    let mut s = state(&["one"]);
    s.open_clip_box();
    s.open_dict(false);
    assert_eq!(s.update_clip_reveal(false, 5_000), None);
    s.close_dict();
    let deadline = s.update_clip_reveal(false, 5_000).unwrap();
    assert_eq!(s.update_clip_reveal(false, 5_001), None);
    assert!(!s.hold_over(deadline - 1, false));
    assert!(s.expanded);
    assert!(s.hold_over(deadline, false));
    assert!(!s.expanded);
}

#[test]
fn a_link_is_resolved_once() {
    let (mut s, _) = ClipState::new(Vec::new());
    let fx = s.on_captured(clip("https://example.com/x"), true, 10);
    let (id, url) = fx.unfurl.unwrap();
    assert_eq!(url, "https://example.com/x");
    let fx = s.on_captured(clip("https://example.com/x"), true, 20);
    assert!(fx.unfurl.is_none());
    let fx = s.on_unfurl(id, "A page", "", Some("/tmp/a.png".into()));
    assert!(fx.save && fx.unlinked.is_empty());
    let fx = s.on_unfurl(id, "", "About it", Some("/tmp/b.png".into()));
    assert_eq!(fx.unlinked, vec!["/tmp/a.png".to_string()]);
    assert_eq!(s.history[0].title, "A page");
    assert_eq!(s.history[0].description, "About it");
    assert_eq!(s.history[0].preview_image.as_deref(), Some("/tmp/b.png"));
    let fx = s.on_unfurl(id + 7, "Late", "", Some("/tmp/c.png".into()));
    assert!(!fx.save);
    assert_eq!(fx.unlinked, vec!["/tmp/c.png".to_string()]);
}

#[test]
fn a_link_to_copy_is_news_once() {
    let mut s = state(&[]);
    assert!(s.set_clip_link_available(true));
    assert!(!s.set_clip_link_available(true));
    assert!(s.set_clip_link_available(false));
}

#[test]
fn a_long_paste_log_is_cut() {
    let mut s = state(&["one"]);
    for i in 0..60u64 {
        s.record_clip_paste(&None, i);
    }
    assert_eq!(s.history[0].paste_count, 60);
    assert_eq!(s.history[0].pastes.len(), 20);
    assert_eq!(s.history[0].pastes[0].when_ms, 59);
}

#[test]
fn the_card_shows_a_picture_once_it_is_there() {
    let mut e = clip("https://example.com/x");
    let mut t = ThumbSlots::new();
    assert!(matches!(card_view(&e, &clip_tile(&e, false, false), &t), CardView::Text));
    e.preview_image = Some("/tmp/a.png".into());
    let tile = clip_tile(&e, false, false);
    assert!(matches!(card_view(&e, &tile, &t), CardView::Text));
    let key = t.request_clip_thumbs(&[clip_tile(&e, false, false)])[0].1;
    t.on_clip_thumb(key);
    assert!(matches!(card_view(&e, &tile, &t), CardView::Hero(0)));
    let f = classify_files("file:///a/b.txt\n", false, NOW).unwrap();
    assert!(matches!(
        card_view(&f, &clip_tile(&f, true, false), &t),
        CardView::Glyph(TileGlyph::Folder)
    ));
    assert!(matches!(
        card_view(&f, &clip_tile(&f, false, true), &t),
        CardView::Glyph(TileGlyph::Files)
    ));
    assert!(matches!(card_view(&f, &tile, &t), CardView::Thumb(0)));
    assert!(matches!(card_view(&f, &ClipTile::Plain, &t), CardView::Bare));
    assert_eq!(glyph_text(TileGlyph::Folder), "\u{f07b}");
}

#[test]
fn the_element_shows_one_thing_at_a_time() {
    let mut s = state(&["one"]);
    assert_eq!(pill_view(&s, false, false), PillView::Hidden);
    assert_eq!(pill_view(&s, true, false), PillView::Preview);
    assert_eq!(pill_view(&s, true, true), PillView::List);
    s.open_dict(false);
    assert_eq!(pill_view(&s, true, true), PillView::Dict);
    assert_eq!(pill_view(&state(&[]), true, true), PillView::Empty);
}

#[test]
fn the_panel_answers_or_says_why_not() {
    let mut s = state(&["one"]);
    s.open_clip_box();
    assert!(s.open_dict(true).load_dict);
    assert_eq!(dict_hint(&s), None);
    s.dict_query = " heart ".into();
    assert_eq!(dict_hint(&s).as_deref(), Some("Loading dictionary…"));
    s.on_dict_loaded(Event::Loaded(Err("none".into())));
    assert_eq!(dict_hint(&s).as_deref(), Some("Dictionary data not installed."));
    assert!(dict_answer_lines(&s, 20, 20).is_empty());
    let en = LangData::new("English", vec![("heart".into(), RawEntry::Plain("a muscle".into()))]);
    let es = LangData::new(
        "Español",
        vec![("Heart".into(), RawEntry::Rich { e: "Del ing.".into(), d: "corazón".into() })],
    );
    s.on_dict_loaded(Event::Loaded(assemble(vec![en, es])));
    assert_eq!(dict_hint(&s), None);
    let lines = dict_answer_lines(&s, 20, 20);
    let flat: Vec<(&str, DictLineKind)> =
        lines.iter().map(|l| (l.text.as_str(), l.kind)).collect();
    assert_eq!(
        flat,
        vec![
            ("English", DictLineKind::Lang),
            ("a muscle", DictLineKind::Body),
            ("", DictLineKind::Spacer),
            ("Español", DictLineKind::Lang),
            ("(Del ing.)", DictLineKind::Etym),
            ("corazón", DictLineKind::Body),
        ]
    );
    s.dict_query = "nowhere".into();
    assert_eq!(dict_hint(&s).as_deref(), Some("No definition for “nowhere”."));
}

#[test]
fn the_sheet_counts_its_rows() {
    let mut s = state(&["https://example.com/x"]);
    let id = s.history[0].id;
    assert_eq!(meta_row_count(&s.history[0]), 3);
    s.on_unfurl(id, "A page", "About it", None);
    s.record_clip_paste(&None, NOW);
    let e = &s.history[0];
    assert_eq!(meta_row_count(e), 6);
    let rows = meta_rows(e, "today");
    assert_eq!(rows[0], ("Title:".to_string(), "A page".to_string()));
    assert_eq!(rows[1], ("About:".to_string(), "About it".to_string()));
    assert_eq!(rows[4], ("Pasted:".to_string(), "1 time".to_string()));
    let f = classify_files("file:///a/b.txt\n", true, NOW).unwrap();
    assert_eq!(meta_rows(&f, "today")[1].1, "today · cut");
    let log = log_lines(e, &["then".to_string()]);
    assert_eq!(log, vec![("somewhere".to_string(), "then".to_string())]);
    assert_eq!(paste_target(&"x".repeat(50)), format!("{}…", "x".repeat(39)));
}

fn stored_files(list: &str, source: &str, when: u64) -> ClipEntry {
    let mut e = clip("x");
    e.kind = ClipKind::Files;
    e.text = list.into();
    e.source = source.into();
    e.timestamp_ms = when;
    e
}

#[test]
fn a_stored_history_is_taken_up_by_its_first_paths() {
    // A percent sign, one digit and a letter of two bytes cannot be decoded.
    let bad = "file:///x%1é\n";
    let mixed = "file:///h/a.txt\nfile:///x%1é\n";
    assert!(!can_decode_first(bad) && !can_decode_list(mixed));
    assert!(can_decode_first(mixed) && can_decode_first(""));
    assert_eq!(first_file_path(mixed).as_deref(), Some("/h/a.txt"));
    let tile = clip_tile(&stored_files(mixed, "", NOW), true, false);
    assert!(matches!(tile, ClipTile::Glyph(TileGlyph::Folder)));

    assert!(can_restore(&[]));
    assert!(can_restore(&[stored_files(mixed, "", NOW), stored_files(bad, "/h", NOW)]));
    assert!(!can_restore(&[stored_files(bad, "", NOW)]));
    let (s, filled) =
        ClipState::new(vec![stored_files(mixed, "", NOW), stored_files(bad, "/k", NOW - 1)]);
    assert!(filled);
    assert_eq!((s.history[0].source.as_str(), s.history[1].source.as_str()), ("/h", "/k"));

    // Only the newest ones count.
    let mut old = stored_files(bad, "", 1);
    old.id = u64::MAX;
    assert!(!can_restore(&[clip("y"), stored_files(bad, "", 1)]));
    let mut many: Vec<ClipEntry> = (0..MAX_HISTORY).map(|i| clip(&format!("c{i}"))).collect();
    many.push(old);
    assert!(can_restore(&many));
    let (s, filled) = ClipState::new(many);
    assert!(!filled && s.history.len() == MAX_HISTORY);
    let mut last = clip("z");
    last.id = u64::MAX;
    assert!(!can_restore(&[last]));
}
