use rpio::selector::{build_fzf_lines, parse_selection, strip_ansi};
use rpio::store::{empty_cache, DataFolder};

fn folder(path: &str) -> DataFolder {
    DataFolder { path: String::from(path), container: None }
}

#[test]
fn empty_inventory_yields_no_candidates() {
    let c = empty_cache();
    assert!(build_fzf_lines(&c).is_empty());
}

#[test]
fn candidate_count_equals_total_folders() {
    let mut c = empty_cache();
    c.insert_probe(String::from("h1"), 0, vec![folder("a"), folder("b")]);
    c.insert_probe(String::from("h2"), 0, vec![]);
    c.insert_probe(String::from("h3"), 0, vec![folder("c")]);
    assert_eq!(build_fzf_lines(&c).len(), 3);
}

#[test]
fn candidate_lines_render_dimmed_host() {
    let mut c = empty_cache();
    c.insert_probe(String::from("host1"), 0, vec![folder("app-a"), folder("app-b")]);
    let lines = build_fzf_lines(&c);
    assert_eq!(lines.len(), 2);
    assert!(lines.iter().all(|l| l.contains("host1")));
    assert_eq!(lines[0], "app-a:\u{1b}[2mhost1\u{1b}[0m");
    assert_eq!(lines[1], "app-b:\u{1b}[2mhost1\u{1b}[0m");
}

#[test]
fn selecting_a_rendered_line_recovers_the_pair() {
    let mut c = empty_cache();
    c.insert_probe(String::from("host1"), 0, vec![folder("app-a"), folder("app-b")]);
    let lines = build_fzf_lines(&c);
    let app = parse_selection(&lines[0]).expect("a rendered line resolves");
    assert_eq!(app.host, "host1");
    assert_eq!(app.app_name, "app-a");
}

#[test]
fn selection_without_separator_is_cancelled() {
    assert!(parse_selection("no separator here").is_none());
    assert!(parse_selection("").is_none());
}

#[test]
fn selection_splits_on_first_colon() {
    let app = parse_selection("app:host:extra").expect("resolves");
    assert_eq!(app.app_name, "app");
    assert_eq!(app.host, "host:extra");
}

#[test]
fn strip_ansi_removes_styling() {
    assert_eq!(strip_ansi("app:\u{1b}[2mhost\u{1b}[0m"), "app:host");
    assert_eq!(strip_ansi("\u{1b}[1;31mred\u{1b}[0m"), "red");
    assert_eq!(strip_ansi("plain"), "plain");
}

#[test]
fn strip_ansi_keeps_incomplete_sequences() {
    assert_eq!(strip_ansi("a\u{1b}[12xb"), "a\u{1b}[12xb");
    assert_eq!(strip_ansi("tail\u{1b}"), "tail\u{1b}");
}
