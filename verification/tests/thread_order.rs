use puffin::thread_order::{SortBy, Sorting};
use puffin::ThreadInfo;

fn thread(start: Option<i64>, name: &str) -> ThreadInfo {
    ThreadInfo {
        start_time_ns: start,
        name: name.to_owned(),
    }
}

fn names(threads: &[ThreadInfo]) -> Vec<&str> {
    threads.iter().map(|t| t.name.as_str()).collect()
}

fn sample() -> Vec<ThreadInfo> {
    vec![
        thread(Some(30), "b"),
        thread(None, "A10"),
        thread(Some(10), "a2"),
        thread(Some(10), "main"),
    ]
}

#[test]
fn default_sorting_is_by_time() {
    let s = Sorting::default();
    assert_eq!(s.sort_by, SortBy::Time);
    assert!(!s.reversed);
}

#[test]
fn sort_threads_by_time_stable() {
    let s = Sorting { sort_by: SortBy::Time, reversed: false };
    let sorted = s.sort(sample());
    assert_eq!(names(&sorted), vec!["A10", "a2", "main", "b"]);
}

#[test]
fn sort_threads_by_time_reversed() {
    let s = Sorting { sort_by: SortBy::Time, reversed: true };
    let sorted = s.sort(sample());
    assert_eq!(names(&sorted), vec!["b", "main", "a2", "A10"]);
}

#[test]
fn sort_threads_by_natural_name() {
    let s = Sorting { sort_by: SortBy::Name, reversed: false };
    let sorted = s.sort(sample());
    assert_eq!(names(&sorted), vec!["a2", "A10", "b", "main"]);
}

#[test]
fn sort_threads_by_name_reversed() {
    let s = Sorting { sort_by: SortBy::Name, reversed: true };
    let sorted = s.sort(sample());
    assert_eq!(names(&sorted), vec!["main", "b", "A10", "a2"]);
}

#[test]
fn sort_no_threads() {
    let s = Sorting::default();
    assert!(s.sort(Vec::new()).is_empty());
}
