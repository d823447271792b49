use waverunner::action_track::{ActionTracks, Replay, TRACK_APP};
use waverunner::animation::{reduce_motion, set_reduce_motion, Motion, Timed, LEAVE_HOLD};
use waverunner::apps::{
    accept_raster, assemble_entries, cache_file_name, fence, fnv1a64, icon_assets, icon_dirs,
    icon_for, icon_format, icon_name, managed_cli_tiles, parse_resolutions, placeholder_hue,
    raster_key, theme_chain, Ask, EntryKind, FileEntry, HomeWalk, IconFormat, IconName, IconNames,
    Indexer, ManagedPackage, ResolutionCache, WalkChild, ICON_BYTES, ICON_SIZE,
};
use waverunner::client::{parse_args, usage};
use waverunner::config::{parse_hex_rgba, Config, CurveKind, LaunchConfig};
use waverunner::files::{
    dir_listing, entry_dir_path, file_entry, file_layer, file_results, files_nav_up,
    files_path_display, home_folder_entry, home_folders, nav_target, terminal_command,
    try_file_results, try_navigate, DirChild,
};
use waverunner::search::Searcher;

fn strings(v: &[&str]) -> Vec<String> {
    v.iter().map(|s| s.to_string()).collect()
}

#[test]
fn defaults_are_sane() {
    let c = Config::default();
    assert!(c.window.input_bar_height < c.window.height);
    assert_eq!(c.animation.close.kind, CurveKind::Spring);
}

#[test]
fn hex_colors_parse() {
    let floats = |s: &str| parse_hex_rgba(s).map(|c| c.map(|b| b as f32 / 255.0));
    assert_eq!(floats("#ff0000"), Some([1.0, 0.0, 0.0, 1.0]));
    assert_eq!(floats("#00000000"), Some([0.0, 0.0, 0.0, 0.0]));
    assert_eq!(floats("nope"), None);
    assert_eq!(parse_hex_rgba("#0f0A1b"), Some([15, 10, 27, 255]));
    assert_eq!(parse_hex_rgba("#+f0000"), None);
    assert_eq!(parse_hex_rgba("#gg0000"), None);
    assert_eq!(parse_hex_rgba("#ff00"), None);
}

#[test]
fn one_material_the_leave_hold_is_a_transit_grace_not_reading_time() {
    assert!(
        LEAVE_HOLD >= 150,
        "too brief to survive a hand crossing between two parts of one OPTION"
    );
    assert!(
        LEAVE_HOLD <= 400,
        "{LEAVE_HOLD:?} is reading time — the OPTION is deciding you are still looking"
    );
}

#[test]
fn reduced_motion_ends_a_timeline_at_once() {
    let mut m = Motion::new();
    assert!(!reduce_motion(&m));
    assert_eq!(m, Motion::default());
    let mut t = Timed::new(CurveKind::EaseInCubic, 140).unwrap();
    t.step(100_000_000, &m);
    assert!(!t.is_settled());
    t.step(40_000_000, &m);
    assert!(t.is_settled());
    set_reduce_motion(&mut m, true);
    assert!(reduce_motion(&m));
    let mut t = Timed::new(CurveKind::EaseOutCubic, 0).unwrap();
    assert_eq!(t.duration, 1_000_000);
    t.step(0, &m);
    assert!(t.is_settled());
    assert!(Timed::new(CurveKind::Spring, 100).is_none());
}

#[test]
fn names_and_paths_of_the_configuration() {
    assert_eq!(CurveKind::from_name("ease-in-cubic"), Some(CurveKind::EaseInCubic));
    assert_eq!(CurveKind::from_name("EaseInCubic"), None);
    assert_eq!(Config::default_path(Some("/x"), Some("/h")), "/x/waverunner/config.toml");
    assert_eq!(Config::default_path(None, Some("/h")), "/h/.config/waverunner/config.toml");
    assert_eq!(Config::default_path(None, None), "./waverunner/config.toml");
    assert_eq!(LaunchConfig::default().terminal, "foot");
}

#[test]
fn arguments_are_joined_to_one_command() {
    assert_eq!(
        parse_args(&strings(&["options-trigger", "--time", "media.playpause"])),
        (true, Some("options-trigger media.playpause".to_string()))
    );
    assert_eq!(parse_args(&strings(&["--time"])), (true, None));
    assert_eq!(
        parse_args(&strings(&["--time", "--time"])),
        (true, Some("--time".to_string()))
    );
    assert_eq!(parse_args(&[]), (false, None));
    assert_eq!(
        usage(&strings(&["toggle", "show"])),
        "usage: waverunner-ctl [--time] <command>\ncommands:\n  toggle\n  show"
    );
}

#[test]
fn requests_for_a_rescan_coalesce() {
    let mut i = Indexer::new();
    assert!(i.take_request() && !i.take_request());
    i.request_rescan();
    i.request_rescan();
    assert!(i.take_request() && !i.take_request());
    i.alive = false;
    i.request_rescan();
    assert!(!i.take_request());
}

#[test]
fn the_list_is_apps_tools_folders_and_assets() {
    let tools = managed_cli_tiles(
        &strings(&["vlc"]),
        &[
            ManagedPackage {
                attr: "vlc".into(),
                desktop_ids: strings(&["vlc"]),
                banner: "b".into(),
            },
            ManagedPackage {
                attr: "htop".into(),
                desktop_ids: strings(&["htop-gui"]),
                banner: "say htop;".into(),
            },
        ],
    );
    assert_eq!(tools.len(), 1);
    assert_eq!(tools[0].command, "say htop; exec \"${SHELL:-bash}\"");
    assert!(tools[0].needs_terminal);
    let folders = vec![home_folder_entry("/home/u", "Music", "'/home/u/Music'")];
    let (entries, kinds) = assemble_entries(Vec::new(), tools, folders);
    assert_eq!(entries.len(), 12);
    assert_eq!(&kinds[..3], &[EntryKind::App, EntryKind::File, EntryKind::Asset]);
    assert_eq!(entries[1].id, "folder-Music");
    assert_eq!(entries[1].description.as_deref(), Some("/home/u/Music"));
    assert_eq!(icon_assets()[6].icon.as_deref(), Some("application-pdf"));
    assert!(icon_assets().iter().all(|a| a.name.is_empty()));
}

fn child(name: &str, is_dir: Option<bool>) -> WalkChild {
    WalkChild { name: name.into(), path: format!("/h/{name}"), is_dir }
}

#[test]
fn the_walk_goes_level_by_level() {
    let mut w = HomeWalk::begin("/h");
    let (dir, depth) = w.next_dir().unwrap();
    assert_eq!((dir.as_str(), depth), ("/h", 0));
    w.visit(
        depth,
        &[
            child("a.txt", Some(false)),
            child(".hidden", Some(false)),
            child("target", Some(true)),
            child("node_modules", Some(true)),
            child("link", None),
            child("src", Some(true)),
        ],
    );
    let names: Vec<&str> = w.found.iter().map(|f| f.name.as_str()).collect();
    assert_eq!(names, vec!["a.txt", "src"]);
    let (dir, depth) = w.next_dir().unwrap();
    assert_eq!((dir.as_str(), depth), ("/h/src", 1));
    assert!(w.next_dir().is_none());
    w.visit(5, &[child("deep", Some(true))]);
    assert!(w.next_dir().is_none());
}

#[test]
fn hashes_are_fnv() {
    assert_eq!(fnv1a64(""), 0xcbf29ce484222325);
    assert_eq!(fnv1a64("a"), 0xaf63dc4c8601ec8c);
    assert_eq!(fnv1a64("foobar"), 0x85944171f73967e8);
    assert_eq!(placeholder_hue(""), 2166136261u32 % 360);
    assert_eq!(placeholder_hue("a"), 0xe40c292cu32 % 360);
    assert_eq!(
        cache_file_name("/i.svg", 6, 99),
        format!("{:016x}", fnv1a64("/i.svg|6|99"))
    );
    assert_eq!(
        fence("hicolor", &[("/d".to_string(), 5), ("/e".to_string(), 0)]),
        format!("{:016x}", fnv1a64("hicolor|48|/d:5|/e:0"))
    );
}

#[test]
fn icons_come_from_the_cheapest_source() {
    assert_eq!(ICON_BYTES as u32, ICON_SIZE * ICON_SIZE * 4);
    assert_eq!(accept_raster(vec![7; 3]), None);
    assert_eq!(accept_raster(vec![7; ICON_BYTES]), Some(vec![7; ICON_BYTES]));
    assert_eq!(icon_for(Some(vec![1]), Some(vec![2]), vec![3]), (vec![1], false, false));
    assert_eq!(icon_for(None, Some(vec![2]), vec![3]), (vec![2], false, true));
    assert_eq!(icon_for(None, None, vec![3]), (vec![3], true, false));
    assert!(matches!(icon_name(&None), IconName::Missing));
    assert!(matches!(icon_name(&Some("/a.png".into())), IconName::Path(_)));
    assert!(matches!(icon_name(&Some("firefox".into())), IconName::Themed(_)));
    assert_eq!(raster_key(&None, "Zed"), "placeholder:Zed");
    assert_eq!(raster_key(&Some("/a.png".into()), "Zed"), "/a.png");
}

#[test]
fn icons_are_looked_for_in_order() {
    assert_eq!(
        icon_dirs("/h", None, None),
        strings(&[
            "/h/.local/share/icons",
            "/usr/local/share/icons",
            "/usr/share/icons",
            "/h/.icons",
            "/usr/share/pixmaps",
        ])
    );
    assert_eq!(
        icon_dirs("/h", Some("/d"), Some("/x"))[..2],
        strings(&["/d/icons", "/x/icons"])[..]
    );
    assert_eq!(
        theme_chain("Papirus", &strings(&["Papirus", "breeze"])),
        strings(&["Papirus", "breeze"])
    );
    assert_eq!(theme_chain("hicolor", &[]), strings(&["hicolor"]));
    let mut n = IconNames::new();
    n.note("qBittorrent");
    n.note("QBITTORRENT");
    assert_eq!(n.names.get("qbittorrent").map(|s| s.as_str()), Some("qBittorrent"));
}

#[test]
fn resolution_cache_parses_and_fences() {
    let json = r#"{"fence":"abc","entries":{"firefox":"/path/firefox.svg","gone":null}}"#;
    let map = parse_resolutions(json, "abc").unwrap();
    assert_eq!(map.get("firefox").unwrap().as_deref(), Some("/path/firefox.svg"));
    assert_eq!(map.get("gone").unwrap(), &None, "negative result kept");

    assert!(parse_resolutions(json, "other").is_none(), "fence mismatch drops all");
    assert!(parse_resolutions("not json", "abc").is_none());
    assert!(parse_resolutions(r#"{"entries":{}}"#, "abc").is_none());
}

#[test]
fn a_cache_of_another_shape_is_dropped_whole() {
    let odd = r#"{"fence":"abc","entries":{"x":5}}"#;
    assert!(parse_resolutions(odd, "abc").is_none());
    let mixed = r#"{"fence":"abc","entries":{"a":"/p","b":null,"c":["/q"]}}"#;
    assert!(parse_resolutions(mixed, "abc").is_none());
    let quoted = r#"{"fence":"abc","entries":{"a":"null"}}"#;
    let map = parse_resolutions(quoted, "abc").unwrap();
    assert_eq!(map.get("a").unwrap().as_deref(), Some("null"));
    let cache = ResolutionCache::load(Some(odd), "abc".to_owned());
    assert!(matches!(cache.ask("x"), Ask::Lookup));
}

#[test]
fn resolution_cache_save_load_round_trips() {
    let mut cache = ResolutionCache::load(None, "f".to_owned());
    assert!(matches!(cache.ask("firefox"), Ask::Lookup));
    assert!(cache.save().is_none());
    cache.learn("firefox", Some("/p/fire \"fox\".svg".to_owned()));
    cache.learn("gone", None);
    cache.learn("gone", None);
    let written = cache.save().unwrap();
    assert!(cache.save().is_none());
    let map = parse_resolutions(&written, "f").unwrap();
    assert_eq!(map.len(), 2);
    assert_eq!(map.get("firefox").unwrap().as_deref(), Some("/p/fire \"fox\".svg"));
    assert_eq!(map.get("gone").unwrap(), &None);
    assert!(parse_resolutions(&written, "g").is_none());
    let again = ResolutionCache::load(Some(&written), "f".to_owned());
    assert!(matches!(again.ask("gone"), Ask::Nowhere));
    match again.ask("firefox") {
        Ask::Check(p) => assert_eq!(p, "/p/fire \"fox\".svg"),
        other => panic!("{other:?}"),
    }
}

fn dir_child(name: &str, is_dir: bool) -> DirChild {
    DirChild { is_dir, name: name.into(), path: format!("/h/{name}") }
}

#[test]
fn listings_show_folders_first() {
    let v = [
        dir_child("b.txt", false),
        dir_child("Zoo", true),
        dir_child(".git", true),
        dir_child("a.txt", false),
        dir_child("apps", true),
    ];
    assert_eq!(dir_listing(&v), vec![1, 4, 3, 0]);
    assert_eq!(home_folders(&v), vec![1, 4]);
    let many: Vec<DirChild> = (0..400).map(|i| dir_child(&format!("f{i}"), false)).collect();
    assert_eq!(dir_listing(&many).len(), 300);
}

#[test]
fn searches_show_the_best_files() {
    let files: Vec<FileEntry> = ["report.pdf", "firefox.md", "x"]
        .iter()
        .map(|n| FileEntry { name: n.to_string(), path: format!("/h/{n}"), is_dir: false })
        .collect();
    let mut s = Searcher::new();
    assert_eq!(file_results(&mut s, "fire", &files), vec![1]);
    assert_eq!(try_file_results(&mut s, "fire", &files), Some(vec![1]));
    assert_eq!(try_file_results(&mut s, "", &files), Some(vec![0, 1, 2]));
    assert_eq!(try_file_results(&mut s, &"f".repeat(2_521), &files), None);
    let odd = vec![FileEntry { name: "ſsä".into(), path: "/h/ſsä".into(), is_dir: false }];
    assert_eq!(try_file_results(&mut s, "sä", &odd), None);
    assert_eq!(try_file_results(&mut s, "sa", &odd), Some(vec![0]));
    let e = file_entry("/h/x", "x", "'/h/x'");
    assert_eq!((e.id.as_str(), e.command.as_str()), ("/h/x", "xdg-open '/h/x'"));
    assert_eq!(file_layer(true, Some((3, false)), None), (3, false));
    assert_eq!(file_layer(false, Some((3, false)), None), (0, true));
}

#[test]
fn going_up_ends_at_home() {
    assert_eq!(files_nav_up(Some("/h/u/a/b"), "/h/u").as_deref(), Some("/h/u/a"));
    assert_eq!(files_nav_up(Some("/h/u/a"), "/h/u"), None);
    assert_eq!(files_nav_up(Some("/etc/x"), "/h/u"), None);
    assert_eq!(files_nav_up(Some("/h/u2/a"), "/h/u"), None);
    assert_eq!(files_nav_up(Some("/h/u/a/b"), ""), None);
    assert_eq!(files_nav_up(None, "/h/u"), None);
    assert_eq!(nav_target(Some("/x".into()), "/h", true, false).as_deref(), Some("/x"));
    assert_eq!(files_path_display(Some("/h/u/a"), "/h/u"), "~/a");
    assert_eq!(files_path_display(Some("/etc"), "/h/u"), "/etc");
    assert_eq!(files_path_display(Some("/etc"), ""), "/etc");
    assert_eq!(files_path_display(None, "/h/u"), "");
}

#[test]
fn entries_stand_for_directories() {
    let d = Some("/h/a/b.txt".to_string());
    assert_eq!(entry_dir_path(Some(EntryKind::File), &d, Some(false)).as_deref(), Some("/h/a"));
    assert_eq!(
        entry_dir_path(Some(EntryKind::File), &d, Some(true)).as_deref(),
        Some("/h/a/b.txt")
    );
    assert_eq!(entry_dir_path(Some(EntryKind::App), &d, Some(true)), None);
    assert_eq!(entry_dir_path(Some(EntryKind::File), &d, None), None);
    assert_eq!(try_navigate(Some(EntryKind::File), &d, true), d);
    assert_eq!(try_navigate(Some(EntryKind::File), &d, false), None);
    assert_eq!(terminal_command("'/h'", "foot"), "cd '/h' && exec foot");
}

#[test]
fn an_answered_offer_can_be_called_back() {
    let mut t = ActionTracks::new();
    let card = t.track_action("sunset", "Turn on?", "Not now", false, "act".into(), 77);
    assert_eq!((card.app.as_str(), card.body.as_str(), card.at_ms), (TRACK_APP, "Not now", 77));
    assert_eq!(t.offer_at(77).as_deref(), Some("sunset"));
    assert_eq!(t.offer_at(78), None);
    assert!(matches!(t.replay_action_track(78, true), Replay::NotATrack));
    match t.replay_action_track(77, true) {
        Replay::Recalled(id) => assert_eq!(id, "sunset"),
        other => panic!("{other:?}"),
    }
    match t.replay_action_track(77, false) {
        Replay::Run(a) => assert_eq!(a, "act"),
        other => panic!("{other:?}"),
    }
}

#[test]
fn icons_are_drawn_by_their_extension() {
    assert_eq!(icon_format(Some("svg")), IconFormat::Svg);
    assert_eq!(icon_format(Some("svgz")), IconFormat::Svg);
    assert_eq!(icon_format(Some("png")), IconFormat::Png);
    assert_eq!(icon_format(Some("PNG")), IconFormat::Other);
    assert_eq!(icon_format(Some("xpm")), IconFormat::Other);
    assert_eq!(icon_format(None), IconFormat::Other);
}
