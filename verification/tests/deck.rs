use waverunner::clip_source::{ClipSource, PASTE_DEBOUNCE, SELF_READ_IGNORE};
use waverunner::deck::{
    deck_scene, on_deck_audio, on_window_opened_staged, rebuild_deck, slot_x, sync_deck_input,
    Deck, OpenedStep, StageTask, SwitchStep, ThumbLayers, Tile, GAP, RAISE,
};
use waverunner::deck_audio::{
    node_facts, parse_parent, sample, stream_pid, Ancestry, DeckAudio, NodeFacts, Stream,
};
use waverunner::deck_thumbs::{capture_name, is_whole, premultiplied, DeckThumbs, Event};

fn tile(addr: &str) -> Tile {
    Tile { addr: addr.into(), title: addr.into(), pid: 0, x: 0, lift_to: 0 }
}

#[test]
fn a_centred_row_puts_its_middle_on_the_screen_centre() {
    let (screen, tw, count) = (2000, 211, 6usize);
    let first = slot_x(0, count, screen, tw);
    let last = slot_x(count - 1, count, screen, tw);
    let mid = (first + last + tw) as f32 / 2.0;
    assert!((mid - screen as f32 / 2.0).abs() <= 1.0, "row centre was {mid}");
}

#[test]
fn tiles_are_one_slot_apart() {
    let tw = 211;
    let a = slot_x(2, 6, 2000, tw);
    let b = slot_x(3, 6, 2000, tw);
    assert_eq!(b - a, tw + GAP);
}

#[test]
fn setting_current_raises_exactly_one_tile() {
    let mut deck = Deck::default();
    deck.reset(vec![tile("a"), tile("b"), tile("c")], 2000, 211, Some("a"));
    deck.set_current("b");
    let targets: Vec<u32> = deck.tiles.iter().map(|t| t.lift_to).collect();
    assert_eq!(targets, vec![0, RAISE, 0]);
}

#[test]
fn switching_never_moves_a_tile_sideways() {
    let mut deck = Deck::default();
    deck.reset(vec![tile("a"), tile("b"), tile("c")], 2000, 211, Some("a"));
    let before: Vec<i64> = deck.tiles.iter().map(|t| t.x).collect();
    deck.set_current("c");
    let after: Vec<i64> = deck.tiles.iter().map(|t| t.x).collect();
    assert_eq!(before, after);
}

#[test]
fn slots_round_halves_away_from_zero() {
    assert_eq!(slot_x(0, 1, 10, 3), 4);
    assert_eq!(slot_x(0, 1, 3, 10), -4);
    assert_eq!(slot_x(0, 2, 2000, 200), 793);
}

#[test]
fn a_switch_follows_the_stage() {
    let mut deck = Deck::default();
    deck.reset(vec![tile("a"), tile("b")], 2000, 211, Some("a"));
    assert!(matches!(deck.stage_switch_to_index(9, None, true), SwitchStep::Nothing));
    assert!(matches!(deck.stage_switch_to_index(1, Some("a"), false), SwitchStep::Rebuild));
    assert!(deck.tiles[0].is_current());
    match deck.stage_switch_to_index(1, Some("a"), true) {
        SwitchStep::Switch(p) => assert_eq!(p.as_deref(), Some("a")),
        other => panic!("{other:?}"),
    }
    assert!(deck.tiles[1].is_current() && !deck.tiles[0].is_current());
    match deck.stage_switch_to_index(1, Some("b"), true) {
        SwitchStep::Switch(p) => assert_eq!(p, None),
        other => panic!("{other:?}"),
    }
    assert!(matches!(deck.stage_switch_to("gone", Some("b"), true), SwitchStep::Rebuild));
    match deck.stage_switch_to("a", Some("b"), true) {
        SwitchStep::Switch(p) => assert_eq!(p.as_deref(), Some("b")),
        other => panic!("{other:?}"),
    }
    assert!(deck.tiles[0].is_current());
    assert_eq!(on_window_opened_staged(Some(true)), OpenedStep::Rebuild);
    assert_eq!(on_window_opened_staged(None), OpenedStep::Stage);
}

#[test]
fn the_row_holds_live_tasks_in_stage_order() {
    let task = |a: &str, t: &str| StageTask {
        address: a.into(),
        title: t.into(),
        class: "foot".into(),
        pid: 7,
    };
    let order: Vec<String> = ["b", "gone", "a"].iter().map(|s| s.to_string()).collect();
    let tiles = rebuild_deck(true, &order, &[task("a", "vim"), task("b", "")]);
    let shown: Vec<(&str, &str)> =
        tiles.iter().map(|t| (t.addr.as_str(), t.title.as_str())).collect();
    assert_eq!(shown, vec![("b", "foot"), ("a", "vim")]);
    assert!(rebuild_deck(false, &order, &[task("a", "vim")]).is_empty());
}

#[test]
fn the_deck_is_empty_and_inert_while_the_mode_is_off() {
    let mut deck = Deck::new();
    let mut pictures = ThumbLayers::new();
    let step = deck.show(&mut pictures, true, vec![tile("a"), tile("b")], 2000, 211, Some("b"));
    assert!(step.input && step.grew);
    assert_eq!(step.missing, vec!["a".to_string(), "b".to_string()]);
    assert_eq!((deck.tiles.len(), pictures.capacity), (2, 6));
    assert!(deck.tiles[1].is_current());
    pictures.on_deck_thumb(&deck, Event { addr: "a".into(), pixels: vec![1] });
    let step = deck.show(&mut pictures, true, vec![tile("a"), tile("b")], 2000, 211, None);
    assert!(step.input && !step.grew);
    assert_eq!(step.missing, vec!["b".to_string()]);
    deck.hover = Some(1);
    assert!(sync_deck_input(true, &deck));
    assert!(!sync_deck_input(false, &deck));
    let step = deck.show(&mut pictures, false, vec![tile("a")], 2000, 211, Some("a"));
    assert!(!step.input && !step.grew && step.missing.is_empty());
    assert!(deck.tiles.is_empty() && deck.hover.is_none() && pictures.addrs.is_empty());
    assert!(deck_scene(&deck, &pictures, &["a".to_string()]).is_empty());
    let step = deck.show(&mut pictures, true, vec![], 2000, 211, None);
    assert!(!step.input);
}

#[test]
fn sound_marks_the_owning_tiles() {
    let mut a = tile("a");
    a.pid = 42;
    let tiles = vec![a, tile("b")];
    let streams = vec![Stream { ancestors: vec![100, 42, 5] }];
    let (marked, changed) = on_deck_audio(&tiles, &streams, &[]);
    assert_eq!((marked.clone(), changed), (vec!["a".to_string()], true));
    assert!(!on_deck_audio(&tiles, &streams, &marked).1);
    assert_eq!(on_deck_audio(&tiles, &[], &marked), (vec![], true));
}

#[test]
fn pictures_are_kept_for_tiles_on_the_deck() {
    let mut deck = Deck::new();
    deck.reset(vec![tile("a"), tile("b")], 2000, 211, None);
    let mut t = ThumbLayers::new();
    assert!(t.make_room(2));
    assert_eq!(t.capacity, 6);
    let ev = |a: &str, p: u8| Event { addr: a.into(), pixels: vec![p] };
    assert_eq!(t.on_deck_thumb(&deck, ev("gone", 0)), None);
    assert_eq!(t.on_deck_thumb(&deck, ev("b", 1)), Some((0, false)));
    assert_eq!(t.missing(&deck.tiles), vec!["a".to_string()]);
    assert_eq!(t.on_deck_thumb(&deck, ev("b", 2)), Some((0, false)));
    assert_eq!(t.chains, vec![vec![2]]);
    deck.hover = Some(1);
    let draws = deck_scene(&deck, &t, &["a".to_string()]);
    assert_eq!((draws[0].sounding, draws[0].layer), (true, None));
    assert_eq!((draws[1].nudged, draws[1].layer), (true, Some(0)));
    assert!(!deck.deck_motion(Some(1)));
    assert!(deck.deck_motion(None));
    t.clear();
    assert!(t.addrs.is_empty());
}

const DUMP: &str = r#"[
 {"info":{"state":"running","props":{"media.class":"Stream/Output/Audio","application.process.id":321},
          "params":{"Props":[{"mute":false}]}}},
 {"info":{"state":"running","props":{"media.class":"Stream/Output/Audio","application.process.id":322},
          "params":{"Props":[{"mute":true}]}}},
 {"info":{"state":"idle","props":{"media.class":"Stream/Output/Audio","application.process.id":323}}},
 {"info":{"state":"running","props":{"media.class":"Audio/Sink","application.process.id":324}}},
 {"info":{"state":"running","props":{"media.class":"Stream/Output/Audio"}}},
 {"type":"other"},
 {"info":{"state":"running","props":{"media.class":"Stream/Output/Audio","application.process.id":325}}}
]"#;

#[test]
fn only_audible_streams_are_sampled() {
    assert_eq!(sample(DUMP.as_bytes()), vec![321, 325]);
    assert!(sample(b"not json").is_empty());
    assert!(sample(b"{}").is_empty());
    let f = node_facts(r#"{"info":{"state":"running","params":{"Props":[{"mute":true}]}}}"#);
    assert_eq!((f.state.as_deref(), f.mute, f.pid), (Some("running"), Some(true), None));
    let f = NodeFacts {
        class: Some("Stream/Output/Audio".into()),
        state: Some("running".into()),
        mute: None,
        pid: Some(9),
    };
    assert_eq!(stream_pid(&f), Some(9));
}

#[test]
fn parents_are_read_behind_the_last_bracket() {
    assert_eq!(parse_parent("12 (a b) c) S 77 12 12"), Some(77));
    assert_eq!(parse_parent("12 (x) S"), None);
    assert_eq!(parse_parent("no bracket"), None);
    assert_eq!(parse_parent("12 (x) S 9999999999999999999"), None);
    let mut a = Ancestry::begin(50);
    assert_eq!(a.asks, Some(50));
    a.answer(Some("50 (x) S 40 1 1"));
    assert_eq!(a.asks, Some(40));
    a.answer(Some("40 (y) S 1 1 1"));
    assert_eq!((a.asks, a.chain), (None, vec![50, 40]));
    assert!(Ancestry::begin(1).chain.is_empty());
    let mut long = Ancestry::begin(100);
    while let Some(p) = long.asks {
        let line = format!("{p} (z) S {} 1", p - 1);
        long.answer(Some(&line));
    }
    assert_eq!(long.chain.len(), 12);
}

#[test]
fn silence_is_passed_on_once() {
    let mut d = DeckAudio::new();
    d.set_active(true);
    assert!(d.active);
    let loud = [Stream { ancestors: vec![2] }];
    assert!(!d.sampled(&[]));
    assert!(d.sampled(&loud));
    assert!(d.sampled(&loud));
    assert!(d.sampled(&[]));
    assert!(!d.sampled(&[]));
    d.sampled(&loud);
    d.rest();
    assert!(!d.sampled(&[]));
}

#[test]
fn captures_are_asked_for_in_order() {
    let mut t = DeckThumbs::new();
    t.request_many(Vec::new(), 1);
    assert!(t.take().is_none());
    t.request("a".into(), 1);
    t.request_many(vec!["b".into(), "c".into()], 2);
    assert_eq!(t.take().unwrap().addrs, vec!["a".to_string()]);
    assert_eq!(t.take().unwrap().aspect, 2);
    t.connected = false;
    t.request("d".into(), 1);
    assert!(t.take().is_none());
    assert_eq!(capture_name("0x1"), "0x1.rgba");
    assert!(is_whole(&vec![0; 48 * 48 * 4]) && !is_whole(&[1, 2, 3]));
    assert_eq!(premultiplied(200, 255), 200);
    assert_eq!(premultiplied(200, 128), 100);
}

#[test]
fn pastes_are_told_from_our_own_reads() {
    let mut s = ClipSource::new();
    assert!(!s.serve(Vec::new(), 0));
    let offers = vec![("text/plain".to_string(), b"hi".to_vec())];
    assert!(s.serve(offers, 1_000));
    assert_eq!(s.on_send("text/plain", 1_000 + SELF_READ_IGNORE - 1), (Some(b"hi".to_vec()), false));
    assert_eq!(s.on_send("text/plain", 1_000 + SELF_READ_IGNORE), (Some(b"hi".to_vec()), true));
    let t = 1_000 + SELF_READ_IGNORE;
    assert!(!s.note_read(t + PASTE_DEBOUNCE - 1));
    assert!(s.note_read(t + PASTE_DEBOUNCE));
    assert_eq!(s.on_send("image/png", 99_000), (None, false));
    s.on_cancelled(false);
    assert!(s.owning);
    s.on_cancelled(true);
    assert!(!s.owning && s.offers.is_empty());
}
