use rpio::codec::{parse_servers_cache, render_servers_cache};
use rpio::store::{empty_cache, servers_cache_path, DataFolder, ServerEntry, ServersCache};

fn folder(path: &str) -> DataFolder {
    DataFolder { path: String::from(path), container: None }
}

fn entry(last_updated: i64, folders: Vec<DataFolder>) -> ServerEntry {
    ServerEntry { last_updated, data_folders: folders }
}

#[test]
fn empty_cache_has_no_servers() {
    let c = empty_cache();
    assert_eq!(c.servers.len(), 0);
}

#[test]
fn cache_path_under_storage_root() {
    assert_eq!(
        servers_cache_path("/home/op/.cache/rpio"),
        "/home/op/.cache/rpio/servers.toml"
    );
}

#[test]
fn render_one_host_exact_text() {
    let mut c = empty_cache();
    c.insert_probe(String::from("alpha"), 42, vec![folder("app")]);
    let text = render_servers_cache(&c);
    assert_eq!(
        text,
        "[servers.\"alpha\"]\nlast_updated = 42\n[[servers.\"alpha\".data_folders]]\npath = \"app\"\n"
    );
}

#[test]
fn render_container_binding_exact_text() {
    let mut c = empty_cache();
    c.insert_probe(
        String::from("a"),
        -7,
        vec![DataFolder { path: String::from("p"), container: Some(String::from("web")) }],
    );
    let text = render_servers_cache(&c);
    assert_eq!(
        text,
        "[servers.\"a\"]\nlast_updated = -7\n[[servers.\"a\".data_folders]]\npath = \"p\"\ncontainer = \"web\"\n"
    );
}

#[test]
fn round_trip_empty_store() {
    let c = empty_cache();
    let text = render_servers_cache(&c);
    assert_eq!(text, "");
    let back = parse_servers_cache(&text).expect("an empty document parses");
    assert_eq!(back, c);
}

#[test]
fn round_trip_two_hosts_many_folders() {
    let mut c = empty_cache();
    c.insert_probe(
        String::from("web-1"),
        1700000000,
        vec![folder("app-a"), folder("app-b")],
    );
    c.insert_probe(
        String::from("db-1"),
        -12,
        vec![
            DataFolder { path: String::from("store"), container: Some(String::from("pg")) },
            folder("scratch"),
        ],
    );
    let text = render_servers_cache(&c);
    let back = parse_servers_cache(&text).expect("a rendered snapshot parses");
    assert_eq!(back, c);
}

#[test]
fn round_trip_host_with_zero_folders() {
    let mut c = empty_cache();
    c.insert_probe(String::from("quiet"), 5, vec![]);
    let back = parse_servers_cache(&render_servers_cache(&c)).expect("parses");
    assert_eq!(back, c);
    assert_eq!(back.servers[0].1.data_folders.len(), 0);
    assert_eq!(back.servers[0].1.last_updated, 5);
}

#[test]
fn round_trip_names_that_need_escaping() {
    let mut c = empty_cache();
    c.insert_probe(
        String::from("odd\"host\\name\nline"),
        0,
        vec![folder("path with \"quotes\" and \\slashes\\")],
    );
    let back = parse_servers_cache(&render_servers_cache(&c)).expect("parses");
    assert_eq!(back, c);
}

#[test]
fn round_trip_extreme_timestamps() {
    let mut c = empty_cache();
    c.insert_probe(String::from("max"), i64::MAX, vec![]);
    c.insert_probe(String::from("min"), i64::MIN, vec![]);
    let back = parse_servers_cache(&render_servers_cache(&c)).expect("parses");
    assert_eq!(back, c);
}

#[test]
fn parse_handwritten_document() {
    let text = "[servers.\"h1\"]\nlast_updated = 9\n[[servers.\"h1\".data_folders]]\npath = \"x\"\n";
    let c = parse_servers_cache(text).expect("parses");
    assert_eq!(c.servers.len(), 1);
    assert_eq!(c.servers[0].0, "h1");
    assert_eq!(c.servers[0].1.last_updated, 9);
    assert_eq!(c.servers[0].1.data_folders, vec![folder("x")]);
}

#[test]
fn parse_rejects_garbage() {
    assert!(parse_servers_cache("not a snapshot").is_none());
    assert!(parse_servers_cache("[servers.\"h1\"]\n").is_none());
    assert!(parse_servers_cache("[servers.\"h1\"]\nlast_updated = \n").is_none());
}

#[test]
fn parse_rejects_unsorted_hosts() {
    let text = "[servers.\"b\"]\nlast_updated = 1\n[servers.\"a\"]\nlast_updated = 2\n";
    assert!(parse_servers_cache(text).is_none());
    let sorted = "[servers.\"a\"]\nlast_updated = 2\n[servers.\"b\"]\nlast_updated = 1\n";
    assert!(parse_servers_cache(sorted).is_some());
}

#[test]
fn parse_rejects_repeated_host() {
    let text = "[servers.\"a\"]\nlast_updated = 1\n[servers.\"a\"]\nlast_updated = 2\n";
    assert!(parse_servers_cache(text).is_none());
}

#[test]
fn parse_rejects_foreign_folder_host() {
    let text = "[servers.\"a\"]\nlast_updated = 1\n[[servers.\"b\".data_folders]]\npath = \"x\"\n";
    assert!(parse_servers_cache(text).is_none());
}

#[test]
fn parse_rejects_timestamps_outside_range() {
    let too_big = "[servers.\"a\"]\nlast_updated = 9223372036854775808\n";
    assert!(parse_servers_cache(too_big).is_none());
    let way_too_long = "[servers.\"a\"]\nlast_updated = 999999999999999999999\n";
    assert!(parse_servers_cache(way_too_long).is_none());
    let max = "[servers.\"a\"]\nlast_updated = 9223372036854775807\n";
    assert_eq!(
        parse_servers_cache(max).expect("parses").servers[0].1.last_updated,
        i64::MAX
    );
    let min = "[servers.\"a\"]\nlast_updated = -9223372036854775808\n";
    assert_eq!(
        parse_servers_cache(min).expect("parses").servers[0].1.last_updated,
        i64::MIN
    );
}

#[test]
fn insert_probe_keeps_keys_sorted() {
    let mut c = empty_cache();
    c.insert_probe(String::from("beta"), 1, vec![]);
    c.insert_probe(String::from("alpha"), 2, vec![]);
    c.insert_probe(String::from("gamma"), 3, vec![]);
    let keys: Vec<&str> = c.servers.iter().map(|p| p.0.as_str()).collect();
    assert_eq!(keys, vec!["alpha", "beta", "gamma"]);
}

#[test]
fn insert_probe_last_write_wins() {
    let mut c = empty_cache();
    c.insert_probe(String::from("h"), 1, vec![folder("old")]);
    c.insert_probe(String::from("h"), 2, vec![folder("new")]);
    assert_eq!(c.servers.len(), 1);
    assert_eq!(c.servers[0].1.last_updated, 2);
    assert_eq!(c.servers[0].1.data_folders, vec![folder("new")]);
}

#[test]
fn failed_probe_leaves_entry_with_timestamp() {
    let mut c = empty_cache();
    c.insert_probe(String::from("unreachable"), 1234, vec![]);
    assert_eq!(c.servers.len(), 1);
    assert_eq!(c.servers[0].0, "unreachable");
    assert_eq!(c.servers[0].1.last_updated, 1234);
    assert!(c.servers[0].1.data_folders.is_empty());
}

#[test]
fn from_probes_assembles_in_order() {
    let probes = vec![
        (String::from("b"), 1i64, vec![folder("x")]),
        (String::from("a"), 2i64, vec![]),
        (String::from("b"), 3i64, vec![folder("y")]),
    ];
    let c = ServersCache::from_probes(probes);
    let keys: Vec<&str> = c.servers.iter().map(|p| p.0.as_str()).collect();
    assert_eq!(keys, vec!["a", "b"]);
    assert_eq!(c.servers[1].1.last_updated, 3);
    assert_eq!(c.servers[1].1.data_folders, vec![folder("y")]);
}
