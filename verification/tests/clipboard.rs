use std::collections::hash_map::DefaultHasher;
use std::hash::{Hash, Hasher};
use waverunner::clipboard::{
    best_text_mime, can_decode, can_decode_list, capture_source, choose_reading, classify_files,
    classify_image, classify_text, clean_link_title, clip_offers, copy_entry, detect_url,
    enrich_capture, file_names, file_offers, file_source, first_file_path, hash_bytes,
    image_entry, image_mime, is_browser, is_browser_source, list_types, is_news, parse_gnome_copied,
    percent_decode, text_offers, window_label, ClipCommand, ClipHandle, ClipKind, Reading,
    PREVIEW_CAP,
};

const NOW: u64 = 1_700_000_000_000;
const GNOME_COPIED: &str = "x-special/gnome-copied-files";

#[test]
fn text_classifies_with_preview() {
    let e = classify_text("  hello  world  \nsecond line", "text/plain".into(), NOW).unwrap();
    assert_eq!(e.kind, ClipKind::Text);
    assert_eq!(e.preview, "hello world");
    assert!(e.hash != 0);
}

#[test]
fn blank_text_is_dropped() {
    assert!(classify_text("   \n\t ", "text/plain".into(), NOW).is_none());
}

#[test]
fn detects_single_bare_urls_only() {
    assert_eq!(
        detect_url("https://youtu.be/LlPrMjAjEzY"),
        Some("https://youtu.be/LlPrMjAjEzY")
    );
    assert_eq!(
        detect_url("  http://example.com/a?b=1#c  "),
        Some("http://example.com/a?b=1#c")
    );
    assert_eq!(detect_url("see https://example.com now"), None);
    assert_eq!(detect_url("ftp://example.com"), None);
    assert_eq!(detect_url("https://localhost"), None);
    assert_eq!(detect_url("just text"), None);
}

#[test]
fn link_url_only_for_text_clips() {
    let link = classify_text("https://example.com/x", "text/plain".into(), NOW).unwrap();
    assert!(link.is_link());
    let files = classify_files("file:///home/max/a.txt\n", false, NOW).unwrap();
    assert!(!files.is_link());
}

#[test]
fn strips_only_known_browser_suffixes() {
    assert_eq!(clean_link_title("Rickroll - YouTube"), "Rickroll - YouTube");
    assert_eq!(clean_link_title("My Page — Mozilla Firefox"), "My Page");
    assert_eq!(clean_link_title("Docs - Google Chrome"), "Docs");
    assert_eq!(clean_link_title("Foo — Bar - Google Chrome"), "Foo — Bar");
    assert_eq!(clean_link_title("Foo - Bar — Mozilla Firefox"), "Foo - Bar");
    assert_eq!(clean_link_title("Google Chrome - Foo — Bar"), "Google Chrome - Foo — Bar");
    assert_eq!(
        clean_link_title("Fixes - a retrospective"),
        "Fixes - a retrospective"
    );
}

#[test]
fn files_show_basenames() {
    let list = "file:///home/max/a%20b.txt\nfile:///home/max/photos/pic.png\n";
    let e = classify_files(list, false, NOW).unwrap();
    assert_eq!(e.kind, ClipKind::Files);
    assert_eq!(e.preview, "a b.txt, pic.png");
    assert_eq!(e.mime, "text/uri-list");
    assert!(!e.cut);
}

#[test]
fn empty_uri_list_is_dropped() {
    assert!(classify_files("# comment only\n", false, NOW).is_none());
}

#[test]
fn copy_and_cut_of_same_files_are_distinct() {
    let list = "file:///home/max/a.txt\n";
    let copy = classify_files(list, false, NOW).unwrap();
    let cut = classify_files(list, true, NOW).unwrap();
    assert!(cut.cut && !copy.cut);
    assert_ne!(copy.hash, cut.hash, "verb must affect dedup hash");
}

#[test]
fn parses_gnome_copied_verb_and_uris() {
    let (cut, uris) = parse_gnome_copied("cut\nfile:///home/max/a.txt\nfile:///home/max/b.txt");
    assert!(cut);
    assert_eq!(uris, "file:///home/max/a.txt\nfile:///home/max/b.txt");

    let (cut, uris) = parse_gnome_copied("copy\nfile:///home/max/a.txt");
    assert!(!cut);
    assert_eq!(uris, "file:///home/max/a.txt");
}

#[test]
fn gnome_copied_without_verb_keeps_all_uris() {
    let (cut, uris) = parse_gnome_copied("file:///home/max/a.txt");
    assert!(!cut);
    assert_eq!(uris, "file:///home/max/a.txt");
}

#[test]
fn file_offers_carry_verb_and_all_types() {
    let offers = file_offers("file:///home/max/a%20b.txt\nfile:///home/max/c.txt", true);
    let by = |m: &str| -> Vec<u8> {
        offers.iter().find(|(k, _)| k == m).map(|(_, v)| v.clone()).unwrap()
    };
    assert_eq!(
        String::from_utf8(by(GNOME_COPIED)).unwrap(),
        "cut\nfile:///home/max/a%20b.txt\nfile:///home/max/c.txt"
    );
    assert_eq!(
        String::from_utf8(by("text/uri-list")).unwrap(),
        "file:///home/max/a%20b.txt\r\nfile:///home/max/c.txt\r\n"
    );
    assert_eq!(
        String::from_utf8(by("text/plain")).unwrap(),
        "/home/max/a b.txt\n/home/max/c.txt"
    );
}

#[test]
fn text_offers_include_legacy_aliases() {
    let offers = text_offers("hello");
    let mimes: Vec<&str> = offers.iter().map(|(m, _)| m.as_str()).collect();
    assert!(mimes.contains(&"text/plain;charset=utf-8"));
    assert!(mimes.contains(&"UTF8_STRING"));
    assert!(offers.iter().all(|(_, v)| v == b"hello"));
}

#[test]
fn empty_file_offer_is_empty() {
    assert!(file_offers("# comment only\n", false).is_empty());
}

#[test]
fn window_label_joins_and_omits_empty() {
    assert_eq!(window_label("firefox", "GitHub"), "firefox — GitHub");
    assert_eq!(window_label("firefox", ""), "firefox");
    assert_eq!(window_label("", "Just a title"), "Just a title");
    assert_eq!(window_label("", ""), "");
}

#[test]
fn prefers_png_image_mime() {
    let types = vec!["image/bmp".into(), "image/png".into()];
    assert_eq!(image_mime(&types).as_deref(), Some("image/png"));
    assert_eq!(
        image_mime(&["image/jpeg".into()]).as_deref(),
        Some("image/jpeg")
    );
    assert!(image_mime(&["text/plain".into()]).is_none());
}

#[test]
fn preview_is_capped() {
    let big = "x".repeat(500);
    let e = classify_text(&big, "text/plain".into(), NOW).unwrap();
    assert_eq!(e.preview.chars().count(), PREVIEW_CAP);
    assert!(e.preview.ends_with('…'));
}

#[test]
fn hashing_is_that_of_a_byte_slice() {
    for bytes in [&b""[..], &b"a"[..], &b"hello world"[..]] {
        let mut h = DefaultHasher::new();
        bytes.hash(&mut h);
        assert_eq!(hash_bytes(bytes), h.finish());
    }
}

#[test]
fn escapes_decode_to_bytes() {
    assert!(can_decode("a%20b"));
    assert_eq!(percent_decode("a%20b"), "a b");
    assert_eq!(percent_decode("%C3%A9"), "é");
    assert_eq!(percent_decode("plain"), "plain");
    assert_eq!(percent_decode("%FF"), "\u{fffd}");
}

#[test]
fn files_know_where_they_are() {
    let list = "file:///home/max/a%20b.txt\n";
    assert!(can_decode_list(list));
    assert_eq!(file_names(list), vec!["a b.txt".to_string()]);
    assert_eq!(first_file_path(list).as_deref(), Some("/home/max/a b.txt"));
    assert_eq!(file_source(list), "/home/max");
}

#[test]
fn an_image_clip_knows_its_size() {
    let mut bytes = std::io::Cursor::new(Vec::new());
    image::RgbaImage::new(3, 2)
        .write_to(&mut bytes, image::ImageFormat::Png)
        .unwrap();
    let bytes = bytes.into_inner();
    let e = classify_image("image/png", &bytes, "/data", NOW).unwrap();
    assert_eq!((e.width, e.height), (3, 2));
    assert_eq!(e.preview, "Image · 3×2");
    let name = format!("/data/clipboard-images/{:016x}.png", hash_bytes(&bytes));
    assert_eq!(e.image_path.as_deref(), Some(name.as_str()));
    let broken = image_entry("image/png", b"nonsense", None, "/data", NOW);
    assert_eq!(broken.preview, "Image");
}

#[test]
fn offers_read_back_as_the_capture() {
    let e = classify_files("file:///home/max/a.txt\nfile:///home/max/b.txt\n", true, NOW).unwrap();
    let offers = clip_offers(&e, None);
    let raw = offers.iter().find(|(m, _)| m == GNOME_COPIED).map(|(_, v)| v.clone()).unwrap();
    let (cut, uris) = parse_gnome_copied(&String::from_utf8(raw).unwrap());
    assert!(cut);
    let again = classify_files(&uris, cut, NOW).unwrap();
    assert_eq!(again.preview, e.preview);
}

#[test]
fn the_best_reading_is_chosen() {
    let t = |v: &[&str]| v.iter().map(|s| s.to_string()).collect::<Vec<String>>();
    assert_eq!(list_types(Some(b"image/png\ntext/plain \n")), t(&["image/png", "text/plain"]));
    assert!(list_types(None).is_empty());
    assert!(matches!(choose_reading(&t(&[])), Reading::Skip));
    assert!(matches!(choose_reading(&t(&[GNOME_COPIED, "text/plain"])), Reading::GnomeFiles));
    assert!(matches!(choose_reading(&t(&["text/uri-list", "text/plain"])), Reading::UriList));
    match choose_reading(&t(&["text/plain", "text/plain;charset=utf-8"])) {
        Reading::Text(m) => assert_eq!(m, best_text_mime(&t(&["text/plain", "text/plain;charset=utf-8"]))),
        other => panic!("{other:?}"),
    }
}

#[test]
fn browsers_are_known() {
    assert!(is_browser_source("firefox", "x"));
    assert!(is_browser("google-chrome", "x"));
    assert!(!is_browser_source("foot", "vim"));
}

#[test]
fn captures_are_completed_from_the_window() {
    let win = Some(("firefox".to_string(), "My Page — Mozilla Firefox".to_string()));
    let link = classify_text("https://example.com/x", "text/plain".into(), NOW).unwrap();
    let (e, picture) = enrich_capture(link, &win);
    assert_eq!(e.title, "My Page");
    assert!(picture);
    assert_eq!(e.source, "firefox — My Page — Mozilla Firefox");
    let files = classify_files("file:///home/max/a.txt\n", false, NOW).unwrap();
    assert_eq!(capture_source(&files, &win), "/home/max");
}

#[test]
fn the_same_content_is_no_news() {
    let mut last = None;
    assert!(is_news(&mut last, 7));
    assert!(!is_news(&mut last, 7));
    assert!(is_news(&mut last, 8));
}

#[test]
fn commands_are_taken_in_order() {
    let e = classify_text("one", "text/plain".into(), NOW).unwrap();
    let mut h = ClipHandle::new();
    h.send(ClipCommand::Copy(Box::new(copy_entry(&e))));
    match h.recv() {
        Some(ClipCommand::Copy(c)) => assert_eq!(c.text, "one"),
        other => panic!("{other:?}"),
    }
    assert!(h.recv().is_none());
    h.connected = false;
    h.send(ClipCommand::Copy(Box::new(e)));
    assert!(h.recv().is_none());
}
