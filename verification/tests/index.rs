use waverunner::index;
use waverunner::index::{DesktopFile, DesktopIndex, RawEntry};

fn file(name: &str, text: &str) -> DesktopFile {
    DesktopFile {
        path: format!("/usr/share/applications/{name}"),
        text: text.to_string(),
    }
}

#[test]
fn scans_and_sorts_entries() {
    let index = DesktopIndex::scan_paths(
        &[
            file(
                "zed.desktop",
                "[Desktop Entry]\nType=Application\nName=Zed\nExec=zed %U\n",
            ),
            file(
                "alpha.desktop",
                "[Desktop Entry]\nType=Application\nName=Alpha\nExec=alpha\nIcon=alpha-icon\n",
            ),
        ],
        &[],
    );
    assert_eq!(index.names(), vec!["Alpha", "Zed"]);
    assert_eq!(index.entries[0].icon.as_deref(), Some("alpha-icon"));
    assert_eq!(index.entries[1].command, "zed");
}

#[test]
fn skips_nodisplay_and_hidden() {
    let index = DesktopIndex::scan_paths(
        &[
            file(
                "shown.desktop",
                "[Desktop Entry]\nType=Application\nName=Shown\nExec=shown\n",
            ),
            file(
                "nodisplay.desktop",
                "[Desktop Entry]\nType=Application\nName=Hidden A\nExec=a\nNoDisplay=true\n",
            ),
            file(
                "hidden.desktop",
                "[Desktop Entry]\nType=Application\nName=Hidden B\nExec=b\nHidden=true\n",
            ),
        ],
        &[],
    );
    assert_eq!(index.names(), vec!["Shown"]);
}

#[test]
fn strips_field_codes() {
    let strip_field_codes = index::strip_field_codes;
    assert_eq!(strip_field_codes("app %f"), "app");
    assert_eq!(strip_field_codes("app %F --flag %u"), "app --flag");
    assert_eq!(
        strip_field_codes("app --pct=100%% run"),
        "app --pct=100% run"
    );
    assert_eq!(strip_field_codes("app"), "app");
    assert_eq!(strip_field_codes("%"), "");
}

#[test]
fn files_are_read_in_the_preferred_language() {
    let text = "[Desktop Entry]\nType=Application\nName=Calculator\nName[es]=Calculadora\n\
                Comment=Sums\nExec=calc\nTerminal=true\n";
    let es = vec!["es_ES".to_string()];
    let index = DesktopIndex::scan_paths(&[file("org.gnome.Calc.desktop", text)], &es);
    assert_eq!(index.names(), vec!["Calculadora"]);
    assert_eq!(index.entries[0].id, "org.gnome.Calc");
    assert_eq!(index.entries[0].description.as_deref(), Some("Sums"));
    assert!(index.entries[0].needs_terminal);
    let index = DesktopIndex::scan_paths(&[file("calc.desktop", text)], &[]);
    assert_eq!(index.names(), vec!["Calculator"]);
}

#[test]
fn broken_files_are_passed_over() {
    let index = DesktopIndex::scan_paths(
        &[
            file("broken.desktop", "no group here\n"),
            file("fine.desktop", "[Desktop Entry]\nName=Fine\nExec=fine\n"),
            file("wrong.txt", "[Desktop Entry]\nName=Wrong\nExec=wrong\n"),
        ],
        &[],
    );
    assert_eq!(index.names(), vec!["Fine"]);
}

fn raw(id: &str, name: Option<&str>, exec: &str, hidden: bool) -> RawEntry {
    RawEntry {
        id: id.to_string(),
        kind: Some("Application".to_string()),
        no_display: false,
        hidden,
        exec_line: Some(exec.to_string()),
        name: name.map(str::to_string),
        comment: None,
        generic_name: Some("generic".to_string()),
        icon: None,
        terminal: false,
    }
}

#[test]
fn the_first_claim_keeps_the_id() {
    let index = DesktopIndex::from_entries(&[
        raw("a", Some("Mine"), "mine", false),
        raw("a", Some("Theirs"), "theirs", false),
        raw("b", Some("Gone"), "gone", true),
        raw("b", Some("Still gone"), "x", false),
        raw("c", None, "c", false),
        raw("d", Some("No command"), "%f", false),
    ]);
    assert_eq!(index.names(), vec!["c", "Mine"]);
    assert_eq!(index.entries[0].description.as_deref(), Some("generic"));
}
