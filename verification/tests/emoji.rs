use waverunner::emoji::{
    emoji_layout, emoji_matches, word_prefix, CellPlace, EmojiAction, EmojiDef, EmojiHit,
    EmojiState, HeadPlace,
};

fn table() -> Vec<EmojiDef> {
    [
        ("😀", "grinning face", "grinning smile happy", 0),
        ("🐢", "turtle", "slow", 1),
        ("👍", "thumbs up", "+1 thumbsup approve ok", 0),
        ("🐱", "cat face", "cat pet", 1),
        ("🎓", "graduation cap", "mortar_board education college", 2),
        ("🔔", "bell", "sound notification", 2),
    ]
    .into_iter()
    .map(|(ch, name, keys, group)| EmojiDef {
        ch: ch.into(),
        name: name.into(),
        keys: keys.into(),
        group,
    })
    .collect()
}

fn find(needle: &str) -> Vec<String> {
    table()
        .iter()
        .filter(|e| emoji_matches(e, needle))
        .map(|e| e.ch.clone())
        .collect()
}

fn has(v: &[String], ch: &str) -> bool {
    v.iter().any(|c| c == ch)
}

#[test]
fn keyword_search_finds_what_the_name_does_not() {
    assert!(has(&find("happy"), "😀"), "keyword hit");
    assert!(has(&find("turtle"), "🐢"), "name hit");
    assert!(has(&find("thumbsup"), "👍"), "shortcode hit");
    assert!(has(&find("thum"), "👍"), "a prefix is enough");
    assert!(find("zzqqx").is_empty());
}

#[test]
fn search_matches_whole_words_only() {
    let cats = find("cat");
    assert!(has(&cats, "🐱"), "the cats are there");
    assert!(!has(&cats, "🎓"), "graduation cap is not a cat");
    assert!(!has(&cats, "🔔"), "a notification bell is not a cat");
}

#[test]
fn search_is_case_insensitive() {
    assert_eq!(find("HAPPY"), find("happy"));
    assert!(!find("HAPPY").is_empty());
}

#[test]
fn words_break_on_punctuation() {
    assert!(word_prefix("flag: St. Kitts", "kitt"));
    assert!(word_prefix("man_dancing", "DANC"));
    assert!(word_prefix("anything", ""));
    assert!(word_prefix("ÉCLAIR", "écl"));
    assert!(!word_prefix("a b", "ab"));
}

#[test]
fn the_grid_breaks_at_groups() {
    let place = |heads, rows, col| CellPlace { heads, rows, col };
    let g = emoji_layout(&[0, 0, 0, 1], 2, true);
    assert_eq!(
        g.cells,
        vec![place(1, 0, 0), place(1, 0, 1), place(1, 1, 0), place(2, 2, 0)]
    );
    assert_eq!(
        g.headings,
        vec![
            HeadPlace { group: 0, heads: 0, rows: 0 },
            HeadPlace { group: 1, heads: 1, rows: 2 },
        ]
    );
    assert_eq!((g.heads, g.rows), (2, 3));
    let flat = emoji_layout(&[0, 0, 0, 1], 2, false);
    assert_eq!((flat.heads, flat.rows), (0, 2));
    assert_eq!(flat.cells[3], place(0, 1, 1));
}

#[test]
fn the_picker_types_what_is_clicked() {
    let t = table();
    let mut s = EmojiState::new();
    assert!(!s.update_emoji_hit(Some(EmojiHit::Back)));
    s.open_emoji(&t);
    assert_eq!(s.shown, vec![0, 1, 2, 3, 4, 5]);
    s.refilter_emoji(&t, "cat");
    assert_eq!(s.shown, vec![3]);
    assert!(s.update_emoji_hit(Some(EmojiHit::Cell(0))));
    assert_eq!(s.emoji_click(), EmojiAction::Type(3));
    s.update_emoji_hit(Some(EmojiHit::Cell(5)));
    assert_eq!(s.emoji_click(), EmojiAction::Empty);
    s.update_emoji_hit(Some(EmojiHit::Search));
    assert_eq!(s.emoji_click(), EmojiAction::Keyboard);
    s.update_emoji_hit(Some(EmojiHit::Back));
    assert_eq!(s.emoji_click(), EmojiAction::Close);
    assert!(!s.open);
    assert_eq!(s.emoji_click(), EmojiAction::Pass);
    s.reset_emoji();
    assert!(s.at_top);
}
