use waverunner::applier::{
    apply_batch, apply_install, apply_uninstall, batch_outcomes, config_dir, ensure_applied,
    helper_active, is_installed, is_valid_attr, list_path, needs_apply, nudge_text, parse_list,
    plan_batch, render_list, revert_batch, revert_install, revert_uninstall, seed_if_missing,
    status_path, wait_for_apply, ApplyPlan, ApplyStatus, BatchAction, BatchOp, BatchPlan, ListFile,
    Wait, WaitStep, BUILD_TIMEOUT, MAX_NUDGES, NUDGE_AFTER, START_TIMEOUT,
};

fn list(text: &str, written: u64) -> ListFile {
    ListFile { exists: true, text: text.to_string(), written }
}

fn status(phase: &str, ok: Option<bool>, started: u64) -> Option<ApplyStatus> {
    Some(ApplyStatus { phase: phase.to_string(), ok, started, error: None })
}

fn op(attr: &str, install: bool) -> BatchOp {
    BatchOp { attr: attr.to_string(), install }
}

#[test]
fn valid_attr_charset() {
    assert!(is_valid_attr("vlc"));
    assert!(is_valid_attr("kdePackages.kdenlive"));
    assert!(is_valid_attr("ardour_8"));
    assert!(is_valid_attr("telegram-desktop"));
    assert!(!is_valid_attr(""));
    assert!(!is_valid_attr(".hidden"));
    assert!(!is_valid_attr("foo bar"));
    assert!(!is_valid_attr("evil; rm -rf"));
    assert!(!is_valid_attr("a=b"));
    assert!(!is_valid_attr("import ./x.nix"));
}

#[test]
fn parse_drops_junk_sorts_and_dedups() {
    let text = "\
# a comment\n\
vlc\n\
  audacity  \n\
vlc\n\
kdePackages.kdenlive # inline comment\n\
bad name\n\
evil; rm\n\
\n";
    assert_eq!(
        parse_list(text),
        vec![
            "audacity".to_string(),
            "kdePackages.kdenlive".to_string(),
            "vlc".to_string(),
        ]
    );
}

#[test]
fn batch_planner_folds_edits_and_honors_fast_paths() {
    let cur = vec!["vlc".to_string(), "mousepad".to_string()];
    let ops = vec![
        op("gimp", true),
        op("vlc", false),
        op("mousepad", true),
        op("krita", false),
    ];
    let (list, actions) = plan_batch(&cur, &ops, true);
    assert_eq!(list, vec!["mousepad".to_string(), "gimp".to_string()]);
    assert_eq!(
        actions,
        vec![
            BatchAction::Ride,
            BatchAction::Ride,
            BatchAction::Fast(true),
            BatchAction::Fast(true),
        ]
    );
    let (_, actions) = plan_batch(&cur, &ops, false);
    assert!(actions.iter().all(|a| *a == BatchAction::Ride));
}

#[test]
fn batch_planner_folds_conflicting_ops_in_order() {
    let ops = vec![op("gimp", true), op("gimp", false)];
    let (list, actions) = plan_batch(&[], &ops, true);
    assert!(list.is_empty());
    assert_eq!(actions, vec![BatchAction::Ride, BatchAction::Ride]);
}

#[test]
fn render_round_trips_through_parse() {
    let attrs = vec!["vlc".to_string(), "audacity".to_string()];
    let rendered = render_list(&attrs);
    assert!(rendered.starts_with('#'), "keeps a header comment");
    assert_eq!(
        parse_list(&rendered),
        vec!["audacity".to_string(), "vlc".to_string()]
    );
}

#[test]
fn paths_follow_the_environment() {
    let home = Some("/home/u".to_string());
    assert!(config_dir(&None, &home).starts_with("/home/u/.config"));
    assert!(config_dir(&Some("/x".to_string()), &home).starts_with("/x"));
    assert!(list_path(&None, &home).starts_with("/home/u/.config/"));
    assert_ne!(list_path(&None, &home), status_path(&None, &home));
}

#[test]
fn only_a_covering_run_counts_as_installed() {
    let l = list("vlc\n", 100);
    assert!(is_installed("vlc", &l, &status("done", Some(true), 150)));
    assert!(!is_installed("vlc", &l, &status("done", Some(true), 50)));
    assert!(!is_installed("vlc", &l, &status("done", Some(false), 150)));
    assert!(!is_installed("gimp", &l, &status("done", Some(true), 150)));
    assert!(!is_installed("vlc", &l, &None));
    assert!(needs_apply(&l, &None));
    assert!(!needs_apply(&l, &status("done", Some(true), 150)));
}

#[test]
fn a_missing_list_is_seeded_once() {
    let none = ListFile { exists: false, text: String::new(), written: 0 };
    let seeded = seed_if_missing(&none, &["vlc".to_string()]).unwrap();
    assert_eq!(parse_list(&seeded), vec!["vlc".to_string()]);
    assert!(seed_if_missing(&list("", 1), &["vlc".to_string()]).is_none());
}

#[test]
fn installing_edits_joins_or_settles() {
    let applied = status("done", Some(true), 150);
    match apply_install("gimp", &list("vlc\n", 100), &applied) {
        ApplyPlan::Edit(t) => {
            assert_eq!(parse_list(&t), vec!["gimp".to_string(), "vlc".to_string()])
        }
        other => panic!("{other:?}"),
    }
    assert!(matches!(
        apply_install("vlc", &list("vlc\n", 100), &applied),
        ApplyPlan::Settled
    ));
    assert!(matches!(
        apply_install("vlc", &list("vlc\n", 100), &None),
        ApplyPlan::Join
    ));
    assert_eq!(
        parse_list(&revert_install("gimp", &list("gimp\nvlc\n", 1))),
        vec!["vlc".to_string()]
    );
}

#[test]
fn uninstalling_edits_joins_or_settles() {
    let applied = status("done", Some(true), 150);
    match apply_uninstall("vlc", &list("gimp\nvlc\n", 100), &applied) {
        ApplyPlan::Edit(t) => assert_eq!(parse_list(&t), vec!["gimp".to_string()]),
        other => panic!("{other:?}"),
    }
    assert!(matches!(
        apply_uninstall("krita", &list("vlc\n", 100), &applied),
        ApplyPlan::Settled
    ));
    assert_eq!(
        parse_list(&revert_uninstall("vlc", &list("gimp\n", 1))),
        vec!["gimp".to_string(), "vlc".to_string()]
    );
}

#[test]
fn ensuring_runs_only_where_needed() {
    let applied = status("done", Some(true), 150);
    assert!(matches!(
        ensure_applied(false, &list("vlc\n", 100), &applied),
        ApplyPlan::Settled
    ));
    assert!(!matches!(
        ensure_applied(true, &list("vlc\n", 100), &applied),
        ApplyPlan::Settled
    ));
    assert_eq!(parse_list(&nudge_text(&list("vlc\n", 100))), vec!["vlc".to_string()]);
}

#[test]
fn a_batch_runs_once_and_reverts_as_a_whole() {
    let before = list("vlc\n", 100);
    let ops = vec![op("gimp", true), op("vlc", false)];
    match apply_batch(&ops, &before, &None) {
        BatchPlan::Run(Some(text), actions) => {
            assert_eq!(parse_list(&text), vec!["gimp".to_string()]);
            assert_eq!(batch_outcomes(&actions, true), vec![true, true]);
            assert_eq!(batch_outcomes(&actions, false), vec![false, false]);
            let back = revert_batch(&ops, &before, &list(&text, 200));
            assert_eq!(parse_list(&back), vec!["vlc".to_string()]);
        }
        other => panic!("{other:?}"),
    }
}

#[test]
fn a_settled_batch_runs_nothing() {
    let ops = vec![op("vlc", true), op("gimp", false)];
    match apply_batch(&ops, &list("vlc\n", 100), &status("done", Some(true), 150)) {
        BatchPlan::Settled(v) => assert_eq!(v, vec![true, true]),
        other => panic!("{other:?}"),
    }
}

#[test]
fn the_helper_speaks_in_bytes() {
    assert!(helper_active(Some(b"active\n")));
    assert!(!helper_active(Some(b"inactive\n")));
    assert!(!helper_active(Some(b"failed\n")));
}

#[test]
fn a_wait_nudges_and_gives_up() {
    let mut w = Wait::begin(0);
    let idle = status("done", Some(true), 10);
    let mut nudges = 0;
    let mut now = 0;
    let mut outcome = None;
    while outcome.is_none() && now <= BUILD_TIMEOUT + START_TIMEOUT {
        let step = w.poll(&idle, 100, now, false);
        if step.nudge {
            nudges += 1;
        }
        outcome = step.outcome;
        now += NUDGE_AFTER;
    }
    assert_eq!(outcome, Some(false));
    assert!(nudges <= MAX_NUDGES);
}

#[test]
fn a_wait_ends_with_the_covering_run() {
    let mut w = Wait::begin(0);
    assert_eq!(w.poll(&status("done", Some(true), 150), 100, 10, false).outcome, Some(true));
    let mut w = Wait::begin(0);
    assert_eq!(w.poll(&status("done", Some(false), 150), 100, 10, false).outcome, Some(false));
    let mut w = Wait::begin(0);
    let building = status("building", None, 150);
    assert!(w.must_ask(&building, 10));
    assert_eq!(w.poll(&building, 100, 10, true).outcome, None);
    assert!(!w.must_ask(&building, 20));
}

#[test]
fn a_failed_request_leaves_the_list_as_it_was() {
    let before = list("vlc\ngimp\n", 100);
    match apply_install("htop", &before, &None) {
        ApplyPlan::Edit(text) => {
            let back = revert_install("htop", &list(&text, 200));
            assert_eq!(parse_list(&back), parse_list(&before.text));
        }
        other => panic!("{other:?}"),
    }
    match apply_uninstall("vlc", &before, &None) {
        ApplyPlan::Edit(text) => {
            let back = revert_uninstall("vlc", &list(&text, 200));
            assert_eq!(parse_list(&back), parse_list(&before.text));
        }
        other => panic!("{other:?}"),
    }
}

#[test]
fn what_is_no_attribute_is_never_written() {
    for bad in ["foo bar", "evil; rm -rf", "", ".hidden", "a\nb"] {
        let here = list("vlc\n", 100);
        assert!(matches!(apply_install(bad, &here, &None), ApplyPlan::Refused));
        let applied = status("done", Some(true), 150);
        assert!(matches!(apply_install(bad, &here, &applied), ApplyPlan::Refused));
        let (kept, actions) = plan_batch(&["vlc".to_string()], &[op(bad, true)], false);
        assert_eq!(kept, vec!["vlc".to_string()]);
        assert_eq!(actions, vec![BatchAction::Fast(false)]);
        let restored = revert_uninstall(bad, &here);
        assert_eq!(restored, render_list(&["vlc".to_string()]));
    }
    let ops = vec![op("foo bar", true), op("gimp", true)];
    match apply_batch(&ops, &list("vlc\n", 100), &None) {
        BatchPlan::Run(Some(text), actions) => {
            assert_eq!(text, render_list(&["gimp".to_string(), "vlc".to_string()]));
            assert_eq!(batch_outcomes(&actions, true), vec![false, true]);
        }
        other => panic!("{other:?}"),
    }
    match apply_batch(&[op("foo bar", true)], &list("vlc\n", 100), &None) {
        BatchPlan::Settled(v) => assert_eq!(v, vec![false]),
        other => panic!("{other:?}"),
    }
}

#[test]
fn written_lists_hold_a_header_and_attributes() {
    let messy = list("# mine\nvlc # player\nbad name\n\n  gimp\n", 100);
    for text in [
        nudge_text(&messy),
        revert_install("htop", &messy),
        revert_uninstall("htop", &messy),
        revert_batch(&[op("vlc", false)], &messy, &messy),
    ] {
        let mut lines = text.lines();
        assert!(lines.next().unwrap().starts_with('#'));
        assert!(lines.all(is_valid_attr));
    }
}

#[test]
fn a_wait_without_the_unit_is_over_at_once() {
    let over = WaitStep { nudge: false, outcome: Some(false) };
    assert_eq!(wait_for_apply(Some(false), 7).1, over);
    for answer in [Some(true), None] {
        let (w, opening) = wait_for_apply(answer, 7);
        assert_eq!(w, Wait::begin(7));
        assert_eq!(opening, WaitStep { nudge: false, outcome: None });
    }
}
