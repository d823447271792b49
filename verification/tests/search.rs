use waverunner::search::{can_match, rank_by_score, Searcher, MAX_QUERY, MAX_WORD};

#[test]
fn ranks_prefix_match_first() {
    let mut s = Searcher::new();
    let results = s.search("fire", &["LibreOffice", "Firefox", "Files"]);
    assert_eq!(results.first().map(|(name, _)| *name), Some("Firefox"));
}

#[test]
fn empty_query_returns_everything() {
    let mut s = Searcher::new();
    assert_eq!(s.search("", &["a", "b"]).len(), 2);
}

#[test]
fn no_match_returns_empty() {
    let mut s = Searcher::new();
    assert!(s.search("zzzz", &["Firefox"]).is_empty());
}

#[test]
fn rank_returns_indices_best_first() {
    let mut s = Searcher::new();
    let ranked = s.rank("fire", &["LibreOffice", "Firefox", "Files"]);
    assert_eq!(ranked.first(), Some(&1));
}

#[test]
fn rank_empty_query_keeps_order() {
    let mut s = Searcher::new();
    assert_eq!(s.rank("", &["b", "a", "c"]), vec![0, 1, 2]);
}

#[test]
fn equal_scores_keep_their_order() {
    assert_eq!(
        rank_by_score(&[Some(3), None, Some(5), Some(3), Some(0)]),
        vec![2, 0, 3, 4]
    );
    assert!(rank_by_score(&[None, None]).is_empty());
}

#[test]
fn long_rankings_are_stable() {
    let scores: Vec<Option<u32>> = (0..1_000u32)
        .map(|i| if i % 7 == 0 { None } else { Some(i * 37 % 11) })
        .collect();
    let mut want: Vec<usize> = (0..scores.len()).filter(|&i| scores[i].is_some()).collect();
    want.sort_by(|&a, &b| scores[b].cmp(&scores[a]));
    assert_eq!(rank_by_score(&scores), want);
}

#[test]
fn a_ranking_holds_the_matches_and_agrees_with_a_search() {
    let names = ["Files", "Firefox", "Xfire", "Gimp", "Fire Walk"];
    let mut s = Searcher::new();
    let ranked = s.rank("fire", &names);
    let mut sorted = ranked.clone();
    sorted.sort();
    assert_eq!(sorted, vec![1, 2, 4]);
    let found = s.search("fire", &names);
    let by_name: Vec<&str> = found.iter().map(|(n, _)| *n).collect();
    assert_eq!(by_name, ranked.iter().map(|&i| names[i]).collect::<Vec<_>>());
    assert!(found.windows(2).all(|w| w[0].1 >= w[1].1));
    assert_eq!(s.rank("fire", &["fire", "x", "fire"]), vec![0, 2]);
}

#[test]
fn the_longest_word_is_matched_and_a_longer_one_refused() {
    let mut s = Searcher::new();
    let longest = "a".repeat(MAX_WORD);
    let longer = "a".repeat(MAX_WORD + 1);
    let names = [longest.as_str(), "b"];
    assert!(can_match(&longest, &names));
    assert_eq!(s.try_rank(&longest, &names), Some(vec![0]));
    let found = s.try_search(&longest, &names).unwrap();
    assert_eq!((found.len(), found[0].0), (1, longest.as_str()));
    assert!(found[0].1 <= 65_530);
    assert!(!can_match(&longer, &names));
    assert_eq!(s.try_rank(&longer, &names), None);
    assert_eq!(s.try_search(&longer, &names), None);
    assert_eq!(s.try_rank("", &names), Some(vec![0, 1]));
    assert_eq!(s.try_search("b", &["a", "b"]).map(|v| v[0].0), Some("b"));
}

#[test]
fn the_longest_word_of_word_starts_is_matched() {
    let mut s = Searcher::new();
    let query = "a".repeat(MAX_WORD);
    let text: String = "a ".repeat(MAX_WORD);
    let found = s.try_search(&query, &[text.as_str()]).unwrap();
    assert_eq!(found.len(), 1);
    assert!(found[0].1 <= 65_530);
}

#[test]
fn a_long_query_of_short_words_is_matched() {
    let mut s = Searcher::new();
    let query = "fire ".repeat(MAX_WORD);
    assert!(query.len() < MAX_QUERY);
    assert_eq!(s.try_rank(&query, &["LibreOffice", "Firefox"]), Some(vec![1]));
    let escaped = "a\\ ".repeat(MAX_WORD / 4);
    assert!(can_match(&escaped, &["a"]));
    assert!(!can_match(&format!("{escaped}a"), &["a"]));
}

#[test]
fn a_backslash_counts_twice() {
    let half = "\\".repeat(MAX_WORD / 2);
    assert!(can_match(&half, &["x"]));
    assert!(!can_match(&format!("{half}x"), &["x"]));
    let word = format!("{}ä", "\\".repeat(MAX_WORD / 2 - 1));
    let text = format!("{}ä", "\\".repeat(MAX_WORD));
    let mut s = Searcher::new();
    assert_eq!(s.try_search(&word, &[text.as_str()]).map(|v| v.len()), Some(1));
}

#[test]
fn an_accented_query_meets_no_odd_letter() {
    let mut s = Searcher::new();
    // The long s is lower case and folds to an s.
    assert!(!can_match("sä", &["ſsä"]));
    assert_eq!(s.try_rank("sä", &["ſsä"]), None);
    assert_eq!(s.try_search("sä", &["sä", "ſsä"]), None);
    // The sharp s is an accented s, also in upper case.
    assert_eq!(s.try_rank("sẞ", &["ſsß"]), None);
    // Without an accent in the query, or an s in it, nothing is odd.
    assert_eq!(s.try_rank("s", &["ſsä", "x"]), Some(vec![0]));
    assert_eq!(s.try_rank("ä", &["ſsä", "x"]), Some(vec![0]));
    assert_eq!(s.try_rank("SÄ", &["Sägewerk", "sage"]), Some(vec![0]));
    assert_eq!(s.try_rank("sage", &["Sägewerk", "Säge"]).map(|v| v.len()), Some(2));
}
