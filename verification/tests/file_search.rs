use winlane::file_search::{
    empty_query_entries, keep_reading, search_step, start, SearchAction, SearchEvent, SearchState,
    GATHER_LIMIT_NS, READ_BUDGET_NS, READ_INTERVAL_NS,
};

const MS: u64 = 1_000_000;

#[test]
fn first_change_is_read_at_once() {
    let (s, action) = search_step(start(), SearchEvent::Poll { now_ns: 5 * MS, dirty: true, cancelled: false });
    assert_eq!(action, SearchAction::Read { deadline_ns: 5 * MS + READ_BUDGET_NS });
    assert!(s.last_read_ns.is_none());
}

#[test]
fn reads_are_at_least_100_ms_apart() {
    let (s, action) = search_step(start(), SearchEvent::BatchSent { now_ns: 300 * MS });
    assert_eq!(action, SearchAction::Wait);
    assert_eq!(s.last_read_ns, Some(300 * MS));
    let early = SearchState { last_read_ns: Some(300 * MS) };
    assert_eq!(search_step(early, SearchEvent::Poll { now_ns: 399 * MS, dirty: true, cancelled: false }).1, SearchAction::Wait);
    let due = SearchState { last_read_ns: Some(300 * MS) };
    assert_eq!(
        search_step(due, SearchEvent::Poll { now_ns: 300 * MS + READ_INTERVAL_NS, dirty: true, cancelled: false }).1,
        SearchAction::Read { deadline_ns: 400 * MS + READ_BUDGET_NS }
    );
    let clean = SearchState { last_read_ns: Some(0) };
    assert_eq!(search_step(clean, SearchEvent::Poll { now_ns: 900 * MS, dirty: false, cancelled: false }).1, SearchAction::Wait);
}

#[test]
fn replaced_search_stops_and_slow_gathering_gives_up() {
    assert_eq!(search_step(start(), SearchEvent::Poll { now_ns: 0, dirty: true, cancelled: true }).1, SearchAction::Stop);
    assert_eq!(search_step(start(), SearchEvent::Waited { now_ns: GATHER_LIMIT_NS, gathering: true }).1, SearchAction::Wait);
    assert_eq!(search_step(start(), SearchEvent::Waited { now_ns: GATHER_LIMIT_NS + 1, gathering: true }).1, SearchAction::GiveUp);
    assert_eq!(search_step(start(), SearchEvent::Waited { now_ns: 60_000 * MS, gathering: false }).1, SearchAction::Wait);
}

#[test]
fn reading_stops_at_the_deadline_or_when_replaced() {
    assert!(keep_reading(false, 10, 11));
    assert!(!keep_reading(false, 11, 11));
    assert!(!keep_reading(true, 10, 11));
}

#[test]
fn empty_query_falls_back_to_folders() {
    assert_eq!(empty_query_entries(vec!["a"], vec!["Desktop"]), vec!["a"]);
    assert_eq!(empty_query_entries(Vec::new(), vec!["Desktop", "Documents"]), vec!["Desktop", "Documents"]);
}
