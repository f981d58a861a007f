use lontar::search::{
    fetch_count, join_tags, mark_snippet, parse_tag_list, select_hits, stored_tags_contain,
    unique_titles, SearchError,
};

fn strings(v: &[&str]) -> Vec<String> {
    v.iter().map(|s| s.to_string()).collect()
}

#[test]
fn tags_are_stored_joined() {
    assert_eq!(join_tags(&strings(&["work", "urgent"])), "work, urgent");
    assert_eq!(join_tags(&strings(&[])), "");
    assert_eq!(join_tags(&strings(&["one"])), "one");
}

#[test]
fn stored_tags_read_back() {
    assert_eq!(parse_tag_list("work, urgent"), strings(&["work", "urgent"]));
    assert_eq!(parse_tag_list(""), Vec::<String>::new());
    assert_eq!(parse_tag_list(" a ,, b ,"), strings(&["a", "b"]));
    let tags = strings(&["rust", "web-dev", "x y"]);
    assert_eq!(parse_tag_list(&join_tags(&tags)), tags);
}

#[test]
fn tag_filter_matches_whole_tags() {
    assert!(stored_tags_contain("work, urgent", "urgent"));
    assert!(stored_tags_contain("work, urgent", "work"));
    assert!(!stored_tags_contain("work, urgent", "wor"));
    assert!(!stored_tags_contain("personal", "fictional"));
}

#[test]
fn hits_filtered_and_limited() {
    let hits = strings(&["work, urgent", "personal", "work", "work"]);
    assert_eq!(select_hits(&hits, Some("work"), 10), vec![0, 2, 3]);
    assert_eq!(select_hits(&hits, Some("work"), 2), vec![0, 2]);
    assert_eq!(select_hits(&hits, None, 3), vec![0, 1, 2]);
    assert_eq!(select_hits(&hits, Some("fictional"), 10), Vec::<usize>::new());
}

#[test]
fn fetch_over_asks_when_filtering() {
    assert_eq!(fetch_count(10, true), 200);
    assert_eq!(fetch_count(10, false), 10);
}

#[test]
fn snippets_are_marked() {
    assert_eq!(
        mark_snippet("the <b>riverbank</b> was <b>wide</b>"),
        "the <mark>riverbank</mark> was <mark>wide</mark>"
    );
    assert_eq!(mark_snippet("no highlight"), "no highlight");
    assert_eq!(mark_snippet("<<b>>"), "<<mark>>");
}

#[test]
fn suggestions_are_unique_titles() {
    let titles = strings(&["Daily Log", "Daily Log", "Pasta", "Other"]);
    assert_eq!(unique_titles(&titles, 10), strings(&["Daily Log", "Pasta", "Other"]));
    assert_eq!(unique_titles(&titles, 2), strings(&["Daily Log", "Pasta"]));
    assert_eq!(unique_titles(&strings(&[]), 5), Vec::<String>::new());
}

#[test]
fn search_error_messages() {
    assert_eq!(SearchError::Schema("bad query".into()).message(), "schema error: bad query");
    let e = SearchError::Io(std::io::Error::new(std::io::ErrorKind::Other, "disk"));
    assert_eq!(e.message(), "I/O error: disk");
}
