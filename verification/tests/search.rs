use winlane::search::{rank, try_rank, Field, Query, WindowInfo, MAX_FIELD_CHARS};

fn window(id: u64, app: &str, title: &str) -> WindowInfo {
    WindowInfo { id, pid: 1, app: app.to_string(), title: title.to_string(), minimized: false }
}

fn windows() -> Vec<WindowInfo> {
    vec![
        window(10, "Safari", "Apple"),
        window(11, "Terminal", "zsh"),
        window(12, "Notes", "Safari tips"),
    ]
}

#[test]
fn empty_query_lists_every_window_in_order() {
    assert_eq!(rank(&windows(), "", None), vec![0, 1, 2]);
    assert_eq!(rank(&windows(), "   ", Some(12)), vec![0, 1, 2]);
}

#[test]
fn over_long_query_lists_nothing() {
    let long = "a".repeat(129);
    assert!(Query::new(&long).is_none());
    assert_eq!(rank(&windows(), &long, None), Vec::<usize>::new());
    let split = format!("{} {}", "a".repeat(64), "b".repeat(64));
    assert!(Query::new(&split).is_some());
    let split = format!("{} {}", "a".repeat(64), "b".repeat(65));
    assert!(Query::new(&split).is_none());
}

#[test]
fn ties_keep_listing_order() {
    assert_eq!(rank(&windows(), "saf", None), vec![0, 2]);
}

#[test]
fn preferred_window_gets_a_bonus() {
    assert_eq!(rank(&windows(), "saf", Some(12)), vec![2, 0]);
    assert_eq!(rank(&windows(), "saf", Some(11)), vec![0, 2]);
}

#[test]
fn every_word_must_match() {
    assert_eq!(rank(&windows(), "safari tips", None), vec![2]);
    assert_eq!(rank(&windows(), "safari zsh", None), Vec::<usize>::new());
    assert_eq!(rank(&windows(), "TERM zsh", None), vec![1]);
}

#[test]
fn better_matches_come_first() {
    let ws = vec![
        window(1, "Google Chrome", ""),
        window(2, "Chrome", ""),
        window(3, "Chromium", ""),
    ];
    // Exact field beats prefix beats a word inside the field.
    assert_eq!(rank(&ws, "chrome", None), vec![1, 0]);
    assert_eq!(rank(&ws, "chrom", None), vec![1, 2, 0]);
}

#[test]
fn field_scores() {
    let field = Field::new("Google Chrome");
    assert_eq!(field.score(&['g', 'o', 'o', 'g', 'l', 'e', ' ', 'c', 'h', 'r', 'o', 'm', 'e']), Some(12_000));
    assert_eq!(field.score(&['g', 'o', 'o']), Some(10_000));
    assert_eq!(field.score(&['g', 'c']), Some(9_500));
    assert_eq!(field.score(&['c', 'h', 'r', 'o', 'm', 'e']), Some(8_993));
    assert_eq!(field.score(&['o', 'g', 'l']), Some(7_998));
    assert_eq!(field.score(&['g', 'h']), Some(1_986));
    assert_eq!(field.score(&['x']), None);
    let camel = Field::new("fooBar");
    assert_eq!(camel.score(&['b']), Some(8_997));
    assert_eq!(camel.score(&['f', 'b']), Some(9_500));
}

#[test]
fn fields_are_cut_at_the_limit() {
    let long = "a".repeat(600);
    assert_eq!(Field::new(&long).len(), MAX_FIELD_CHARS);
    assert_eq!(Field::new("ABC").len(), 3);
}

#[test]
fn query_scores_add_up_over_tokens() {
    let query = Query::new("goo chr").unwrap();
    assert_eq!(query.score(&["Google Chrome", "New Tab"]), Some(10_000 + 8_993));
    assert_eq!(query.score(&["New Tab"]), None);
    let empty = Query::new("").unwrap();
    assert!(empty.is_empty());
    assert_eq!(empty.score(&["x"]), Some(0));
}

#[test]
fn exact_words_and_app_priority() {
    let query = Query::new("google chrome").unwrap();
    assert!(query.matches_exactly("Google   Chrome"));
    assert!(!query.matches_exactly("Google Chrome Beta"));
    assert!(!query.matches_exactly("Google"));
    assert_eq!(query.app_name_priority("google chrome"), 0);
    let chrome = Query::new("chrome").unwrap();
    assert_eq!(chrome.app_name_priority("Chrome"), 0);
    assert_eq!(chrome.app_name_priority("Google Chrome"), 1);
    assert_eq!(chrome.app_name_priority("Firefox"), 2);
    let initials = Query::new("gc").unwrap();
    assert_eq!(initials.app_name_priority("Google Chrome"), 1);
}

#[test]
fn try_rank_agrees_with_rank_on_ordinary_windows() {
    assert_eq!(try_rank(&windows(), "saf", Some(12)), Some(vec![2, 0]));
    assert_eq!(try_rank(&[], "saf", None), Some(Vec::new()));
}

#[test]
fn empty_tokens_match_every_field() {
    assert_eq!(Field::new("abc").score(&[]), Some(10_000));
    assert_eq!(Field::new("").score(&[]), Some(12_000));
}

#[test]
fn more_words_match_fewer_windows() {
    let wide = rank(&windows(), "s", None);
    let narrow = rank(&windows(), "s tips", None);
    assert!(narrow.iter().all(|i| wide.contains(i)));
    assert_eq!(narrow, vec![2]);
    assert_eq!(rank(&windows(), "saf", None), rank(&windows(), "saf", None));
}

#[test]
fn scattered_letters_in_order_match() {
    assert_eq!(rank(&windows(), "sfr", None), vec![0, 2]);
    assert_eq!(rank(&windows(), "rfs", None), Vec::<usize>::new());
    assert_eq!(rank(&windows(), "tml", None), vec![1]);
    assert_eq!(rank(&windows(), "sfr", Some(11)), rank(&windows(), "sfr", None));
}
