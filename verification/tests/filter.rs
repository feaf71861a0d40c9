use puffin::filter::Filter;

#[test]
fn empty_filter_lets_everything_through() {
    let f = Filter::default();
    assert!(f.is_empty());
    assert!(f.includes("anything"));
    assert!(f.includes(""));
}

#[test]
fn filter_matches_lowercase_substring() {
    let mut f = Filter::default();
    f.set_filter("frame".to_owned());
    assert!(!f.is_empty());
    assert!(f.includes("new_frame"));
    assert!(f.includes("NEW_FRAME"));
    assert!(f.includes("Frame"));
    assert!(!f.includes("fram"));
    assert!(!f.includes("other"));
}

#[test]
fn filter_text_is_compared_as_given() {
    let mut f = Filter::default();
    f.set_filter("Frame".to_owned());
    // The scope name is lowercased, the filter is not.
    assert!(!f.includes("Frame"));
    assert!(!f.includes("frame"));
}

#[test]
fn filter_non_ascii() {
    let mut f = Filter::default();
    f.set_filter("ärger".to_owned());
    assert!(f.includes("ÄRGER_scope"));
    assert!(!f.includes("arger"));
}
