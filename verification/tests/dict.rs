use waverunner::dict::{assemble, dict_path, fold_accents, language, Dict, LangData, RawEntry};

fn dict() -> Dict {
    let raw: Vec<(String, RawEntry)> = [
        ("corazón", "órgano", Some("Del lat. cor")),
        ("ano", "orificio", None),
        ("año", "periodo", None),
        ("publico", "yo publico", None),
        ("público", "gente", None),
    ]
    .into_iter()
    .map(|(k, d, e)| {
        let entry = match e {
            Some(e) => RawEntry::Rich { e: e.to_owned(), d: d.to_owned() },
            None => RawEntry::Plain(d.to_owned()),
        };
        (k.to_owned(), entry)
    })
    .collect();
    Dict { langs: vec![LangData::new("Español", raw)] }
}

fn def(d: &Dict, w: &str) -> Option<String> {
    d.lookup(w).first().map(|e| e.definition.to_string())
}

#[test]
fn unaccented_query_finds_accented_headword() {
    assert_eq!(def(&dict(), "corazon").as_deref(), Some("órgano"));
    assert_eq!(def(&dict(), "CORAZON").as_deref(), Some("órgano"));
    assert_eq!(def(&dict(), "corazón").as_deref(), Some("órgano"));
}

#[test]
fn accents_do_not_matter_either_way() {
    assert_eq!(def(&dict(), "corázon").as_deref(), Some("órgano"));
    assert_eq!(def(&dict(), " ÁNO ").as_deref(), Some("orificio"));
    assert_eq!(def(&dict(), "publicö").as_deref(), Some("gente"));
    assert_eq!(def(&dict(), "anó").as_deref(), Some("orificio"));
    assert_eq!(def(&dict(), "añó").as_deref(), Some("periodo"));
    assert_eq!(def(&dict(), "mar"), None);
}

#[test]
fn etymology_is_exposed_when_present() {
    let d = dict();
    assert_eq!(d.lookup("corazon")[0].etymology, Some("Del lat. cor"));
    assert_eq!(d.lookup("ano")[0].etymology, None);
}

#[test]
fn exact_match_wins_over_fold_and_enye_is_distinct() {
    assert_eq!(def(&dict(), "ano").as_deref(), Some("orificio"));
    assert_eq!(def(&dict(), "año").as_deref(), Some("periodo"));
    assert_eq!(def(&dict(), "publico").as_deref(), Some("yo publico"));
    assert_eq!(def(&dict(), "público").as_deref(), Some("gente"));
}

#[test]
fn a_dictionary_needs_a_headword() {
    let empty = LangData::new("English", Vec::new());
    assert!(assemble(vec![empty]).is_err());
    let d = assemble(vec![
        LangData::new("English", Vec::new()),
        LangData::new("Español", vec![("sol".to_owned(), RawEntry::Plain("astro".to_owned()))]),
    ])
    .unwrap();
    assert_eq!(d.total_words(), 1);
    assert_eq!(d.lookup("sol")[0].lang, "Español");
    assert!(d.lookup("luna").is_empty());
}

#[test]
fn accents_fold_but_not_the_tilde() {
    assert_eq!(fold_accents("corazón"), "corazon");
    assert_eq!(fold_accents("año"), "año");
    assert_eq!(fold_accents(&fold_accents("público")), fold_accents("público"));
}

#[test]
fn data_files_can_be_overridden() {
    assert_eq!(dict_path("dictionary.json", &None, "/data"), "/data/dictionary.json");
    assert_eq!(
        dict_path("dictionary.json", &Some("/x.json".to_string()), "/data"),
        "/x.json"
    );
    assert_eq!(
        dict_path("dictionary.json", &Some(String::new()), "/data"),
        "/data/dictionary.json"
    );
    assert_eq!(language(1).0, "Español");
}
