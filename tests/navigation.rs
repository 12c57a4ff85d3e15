use crossbeam_channel::{unbounded, Receiver};
use std::cell::RefCell;
use std::collections::HashSet;
use tuna::{DataSource, LogEntry, PaginationState, SearchPaginationState, SearchState, Source};

fn entry(source: &str, message: &str) -> LogEntry {
    LogEntry::from_raw(&format!("2024-01-15T10:00:00.000Z [{source}] {message}")).unwrap()
}

fn closed_channel(entries: Vec<LogEntry>) -> Receiver<LogEntry> {
    let (sender, receiver) = unbounded();
    for e in entries {
        sender.send(e).unwrap();
    }
    drop(sender);
    receiver
}

fn source_of(entries: &[(&str, &str)]) -> DataSource {
    DataSource::new(closed_channel(entries.iter().map(|(s, m)| entry(s, m)).collect()))
}

fn shown_names(ds: &DataSource) -> Vec<String> {
    let names = RefCell::new(Vec::new());
    ds.iterate_entries_to_draw(|(_, e)| names.borrow_mut().push(e.source.name.clone()));
    names.into_inner()
}

#[test]
fn empty_file_pagination() {
    let mut ds = source_of(&[]);
    ds.load_logs(10);
    ds.prepare_for_draw(8);
    assert_eq!(ds.pagination_state(), PaginationState { current: 1, total: Some(0) });
    ds.select_next();
    assert_eq!(ds.selected_index, 0);
    ds.select_previous();
    assert_eq!(ds.selected_index, 0);
    assert!(ds.active_message().is_none());
    assert_eq!(ds.search_pagination_state(), SearchPaginationState::NoMatchesFound);
}

#[test]
fn load_logs_pulls_twice_the_height() {
    let entries: Vec<(&str, &str)> = (0..50).map(|_| ("src", "m")).collect();
    let mut ds = source_of(&entries);
    ds.load_logs(10);
    assert_eq!(ds.pagination_state().total, Some(20));
    ds.load_logs(100);
    assert_eq!(ds.pagination_state().total, Some(50));
}

#[test]
fn filter_by_source() {
    let mut ds = source_of(&[("a", "one"), ("b", "two"), ("a", "three")]);
    ds.load_logs(10);
    let mut selected = HashSet::new();
    selected.insert(Source::new("a".to_string()).hash);
    ds.set_selected_sources(selected);
    ds.prepare_for_draw(10);
    assert_eq!(ds.pagination_state().total, Some(2));
    assert_eq!(shown_names(&ds), vec!["a".to_string(), "a".to_string()]);
    assert_eq!(ds.active_message().unwrap().message, "one");
    ds.select_next();
    assert_eq!(ds.active_message().unwrap().message, "three");
    ds.select_next();
    assert_eq!(ds.selected_index, 1);
}

#[test]
fn filter_scans_entries_not_yet_loaded() {
    let mut ds = source_of(&[("a", "one"), ("b", "two"), ("a", "three"), ("b", "four")]);
    ds.load_logs(1);
    assert_eq!(ds.pagination_state().total, Some(2));
    let mut selected = HashSet::new();
    selected.insert(Source::new("b".to_string()).hash);
    ds.set_selected_sources(selected);
    ds.prepare_for_draw(5);
    assert_eq!(ds.pagination_state().total, Some(2));
    assert_eq!(shown_names(&ds), vec!["b".to_string(), "b".to_string()]);
}

#[test]
fn selecting_all_or_no_sources_shows_everything() {
    let mut ds = source_of(&[("a", "one"), ("b", "two"), ("a", "three")]);
    ds.load_logs(10);
    let mut only_a = HashSet::new();
    only_a.insert(Source::new("a".to_string()).hash);
    ds.set_selected_sources(only_a);
    ds.prepare_for_draw(10);
    assert_eq!(ds.pagination_state().total, Some(2));
    ds.set_selected_sources(HashSet::new());
    assert_eq!(ds.pagination_state().total, Some(3));
    let mut both = HashSet::new();
    both.insert(Source::new("a".to_string()).hash);
    both.insert(Source::new("b".to_string()).hash);
    ds.set_selected_sources(both);
    assert_eq!(ds.pagination_state().total, Some(3));
    let seen = RefCell::new(Vec::new());
    ds.iterate_sources(|(s, selected)| seen.borrow_mut().push((s.name.clone(), selected)));
    assert_eq!(seen.into_inner(), vec![("a".to_string(), true), ("b".to_string(), true)]);
}

#[test]
fn sources_report_their_selection() {
    let mut ds = source_of(&[("a", "one"), ("b", "two")]);
    ds.load_logs(10);
    let mut only_b = HashSet::new();
    only_b.insert(Source::new("b".to_string()).hash);
    ds.set_selected_sources(only_b);
    let mut seen = Vec::new();
    ds.iterate_sources(|(s, selected)| seen.push((s.name.clone(), selected)));
    assert_eq!(seen, vec![("a".to_string(), false), ("b".to_string(), true)]);
}

#[test]
fn a_filter_before_any_source_is_seen_shows_everything() {
    let mut ds = source_of(&[("a", "one"), ("b", "two")]);
    let mut selected = HashSet::new();
    selected.insert(Source::new("b".to_string()).hash);
    ds.set_selected_sources(selected);
    ds.load_logs(5);
    assert_eq!(ds.pagination_state().total, Some(2));
}

#[test]
fn search_forward() {
    let mut ds = source_of(&[("s", "FOO"), ("s", "bar"), ("s", "foo bar")]);
    ds.start_search("foo".to_string());
    assert_eq!(ds.selected_index, 0);
    assert_eq!(
        ds.search_pagination_state(),
        SearchPaginationState::MatchesIteration(PaginationState { current: 1, total: None })
    );
    ds.go_to_next_search_result();
    assert_eq!(ds.selected_index, 2);
    ds.go_to_next_search_result();
    assert_eq!(ds.selected_index, 2);
    assert_eq!(
        ds.search_pagination_state(),
        SearchPaginationState::MatchesIteration(PaginationState { current: 2, total: Some(2) })
    );
    ds.go_to_prev_search_result();
    assert_eq!(ds.selected_index, 0);
    ds.go_to_prev_search_result();
    assert_eq!(ds.selected_index, 0);
}

#[test]
fn search_query_is_case_insensitive() {
    let mut ds = source_of(&[("s", "nothing"), ("s", "Disk FULL")]);
    ds.start_search("full".to_string());
    assert_eq!(ds.selected_index, 1);
    ds.start_search("DISK".to_string());
    assert_eq!(ds.selected_index, 1);
}

#[test]
fn search_prefers_the_earlier_match_on_a_tie() {
    let mut ds = source_of(&[("s", "a"), ("s", "hit"), ("s", "b"), ("s", "hit"), ("s", "c")]);
    ds.load_logs(10);
    ds.select_next();
    ds.select_next();
    assert_eq!(ds.selected_index, 2);
    ds.start_search("hit".to_string());
    assert_eq!(ds.selected_index, 1);
}

#[test]
fn search_picks_the_nearer_match() {
    let mut ds = source_of(&[("s", "hit"), ("s", "x"), ("s", "x"), ("s", "x"), ("s", "hit")]);
    ds.load_logs(10);
    for _ in 0..3 {
        ds.select_next();
    }
    ds.start_search("hit".to_string());
    assert_eq!(ds.selected_index, 4);
}

#[test]
fn search_with_all_matches_before_selection_takes_the_last() {
    let mut ds = source_of(&[("s", "hit"), ("s", "hit"), ("s", "x"), ("s", "x")]);
    ds.load_logs(10);
    for _ in 0..3 {
        ds.select_next();
    }
    ds.start_search("hit".to_string());
    assert_eq!(ds.selected_index, 1);
    ds.go_to_next_search_result();
    assert_eq!(ds.selected_index, 1);
}

#[test]
fn search_without_matches() {
    let mut ds = source_of(&[("s", "a"), ("s", "b")]);
    ds.start_search("zzz".to_string());
    assert_eq!(ds.selected_index, 0);
    assert_eq!(ds.search_pagination_state(), SearchPaginationState::NoMatchesFound);
    ds.stop_search();
    ds.go_to_next_search_result();
    assert_eq!(ds.selected_index, 0);
}

#[test]
fn search_stays_within_the_filter() {
    let mut ds = source_of(&[("a", "hit one"), ("b", "hit two"), ("a", "hit three")]);
    ds.load_logs(10);
    let mut only_a = HashSet::new();
    only_a.insert(Source::new("a".to_string()).hash);
    ds.set_selected_sources(only_a);
    ds.start_search("hit".to_string());
    assert_eq!(ds.active_message().unwrap().message, "hit one");
    ds.go_to_next_search_result();
    assert_eq!(ds.selected_index, 1);
    assert_eq!(ds.active_message().unwrap().message, "hit three");
}

#[test]
fn changing_the_filter_ends_the_search() {
    let mut ds = source_of(&[("a", "hit"), ("b", "hit")]);
    ds.start_search("hit".to_string());
    ds.set_selected_sources(HashSet::new());
    assert_eq!(ds.search_pagination_state(), SearchPaginationState::NoMatchesFound);
}

#[test]
fn paging_through_many_entries() {
    let entries: Vec<(&str, &str)> = (0..250).map(|_| ("s", "m")).collect();
    let mut ds = source_of(&entries);
    ds.load_logs(1000);
    ds.prepare_for_draw(20);
    ds.go_to_next_page();
    assert_eq!(ds.offset, 20);
    assert_eq!(ds.selected_index, 20);
    for k in 2..12 {
        ds.go_to_next_page();
        assert_eq!(ds.offset, 20 * k);
    }
    ds.go_to_next_page();
    assert_eq!(ds.offset, 230);
    ds.go_to_next_page();
    assert_eq!(ds.offset, 230);
    assert_eq!(ds.selected_index, 230);
    ds.go_to_prev_page();
    assert_eq!(ds.offset, 210);
    assert_eq!(ds.selected_index, 210);
}

#[test]
fn previous_page_stops_at_the_top() {
    let entries: Vec<(&str, &str)> = (0..30).map(|_| ("s", "m")).collect();
    let mut ds = source_of(&entries);
    ds.load_logs(100);
    ds.prepare_for_draw(20);
    ds.select_next();
    ds.go_to_prev_page();
    assert_eq!(ds.offset, 0);
    assert_eq!(ds.selected_index, 0);
}

#[test]
fn selection_stays_in_view() {
    let entries: Vec<(&str, &str)> = (0..30).map(|_| ("s", "m")).collect();
    let mut ds = source_of(&entries);
    ds.load_logs(100);
    ds.prepare_for_draw(5);
    for _ in 0..7 {
        ds.select_next();
    }
    ds.prepare_for_draw(5);
    assert_eq!(ds.selected_index, 7);
    assert_eq!(ds.offset, 3);
    assert!(ds.offset <= ds.selected_index && ds.selected_index < ds.offset + 5);
    let rows = RefCell::new(Vec::new());
    ds.iterate_entries_to_draw(|(row, _)| rows.borrow_mut().push(row));
    assert_eq!(rows.into_inner(), vec![0, 1, 2, 3, 4]);
    for _ in 0..7 {
        ds.select_previous();
    }
    ds.prepare_for_draw(5);
    assert_eq!(ds.offset, 0);
    assert_eq!(ds.pagination_state(), PaginationState { current: 1, total: Some(30) });
}

#[test]
fn entries_arrive_while_reading() {
    let (sender, receiver) = unbounded();
    for i in 0..6 {
        sender.send(entry("s", &format!("line {i}"))).unwrap();
    }
    let mut ds = DataSource::new(receiver);
    ds.load_logs(2);
    assert_eq!(ds.pagination_state().total, Some(4));
    for i in 6..10 {
        sender.send(entry("s", &format!("line {i}"))).unwrap();
    }
    drop(sender);
    ds.start_search("line 7".to_string());
    assert_eq!(ds.selected_index, 7);
    assert_eq!(ds.pagination_state().total, Some(8));
    ds.go_to_next_search_result();
    assert_eq!(ds.selected_index, 7);
    assert_eq!(
        ds.search_pagination_state(),
        SearchPaginationState::MatchesIteration(PaginationState { current: 1, total: Some(1) })
    );
}

#[test]
fn pagination_text() {
    assert_eq!(PaginationState { current: 3, total: Some(10) }.display(), "(3 of 10)");
    assert_eq!(PaginationState { current: 1, total: None }.display(), "(1 of ?)");
    assert_eq!(PaginationState { current: 120, total: Some(0) }.display(), "(120 of 0)");
}

#[test]
fn fresh_search_state() {
    let mut s = SearchState::new("Foo".to_string());
    assert_eq!(s.matches_len(), 0);
    assert_eq!(s.go_to_prev_search_result(), None);
    assert_eq!(s.current_match_index, None);
    assert!(!s.is_end_reached);
}

#[test]
fn loaded_positions_keep_their_entries() {
    let entries: Vec<(&str, &str)> = vec![("s", "zero"), ("s", "one"), ("s", "two"), ("s", "three"), ("s", "four")];
    let mut ds = source_of(&entries);
    ds.load_logs(1);
    ds.select_next();
    let before = ds.active_message().unwrap().message.clone();
    ds.load_logs(10);
    ds.start_search("four".to_string());
    ds.stop_search();
    assert_eq!(ds.selected_index, 4);
    ds.selected_index = 1;
    assert_eq!(ds.active_message().unwrap().message, before);
    assert_eq!(before, "one");
}

#[test]
fn same_filter_again_keeps_the_projection() {
    let mut ds = source_of(&[("a", "one"), ("b", "two"), ("a", "three"), ("b", "four")]);
    ds.load_logs(1);
    let mut only_a = HashSet::new();
    only_a.insert(Source::new("a".to_string()).hash);
    ds.set_selected_sources(only_a.clone());
    ds.load_logs(10);
    assert_eq!(ds.pagination_state().total, Some(2));
    ds.set_selected_sources(only_a);
    assert_eq!(ds.pagination_state().total, Some(2));
    assert_eq!(ds.active_message().unwrap().message, "one");
}

#[test]
fn load_logs_pulls_no_more_than_asked() {
    let (sender, receiver) = unbounded();
    for i in 0..30 {
        sender.send(entry("s", &format!("line {i}"))).unwrap();
    }
    let mut ds = DataSource::new(receiver);
    ds.load_logs(3);
    assert_eq!(ds.pagination_state().total, Some(6));
    ds.load_logs(2);
    assert_eq!(ds.pagination_state().total, Some(6));
    drop(sender);
}
