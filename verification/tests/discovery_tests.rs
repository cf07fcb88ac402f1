use rpio::discovery::{parse_folder_listing, parse_ssh_hosts, refresh_plan};
use rpio::store::{DataFolder, ServersCache};

#[test]
fn hosts_from_declaration_lines() {
    let config = "Host alpha\n# a comment\nHost beta gamma\nHostName not-a-host\n  Host indented\nHost\nHost  spaced\n";
    let hosts = parse_ssh_hosts(config);
    assert_eq!(hosts, vec!["alpha", "beta", "indented", "spaced"]);
}

#[test]
fn hosts_keep_file_order_and_repeats() {
    let config = "Host b\nHost a\nHost b\n";
    assert_eq!(parse_ssh_hosts(config), vec!["b", "a", "b"]);
}

#[test]
fn hosts_of_empty_config() {
    assert_eq!(parse_ssh_hosts(""), Vec::<String>::new());
}

#[test]
fn hosts_with_windows_line_endings() {
    assert_eq!(parse_ssh_hosts("Host one\r\nHost two\r\n"), vec!["one", "two"]);
}

#[test]
fn plan_removes_ignored_and_empty_names() {
    let hosts = vec![
        String::from("alpha"),
        String::from("beta"),
        String::from(""),
        String::from("alpha"),
        String::from("gamma"),
    ];
    let ignore = vec![String::from("alpha")];
    let plan = refresh_plan(&hosts, &ignore);
    assert_eq!(plan, vec!["beta", "gamma"]);
}

#[test]
fn refresh_never_holds_ignored_host() {
    let hosts = vec![
        String::from("alpha"),
        String::from("web"),
        String::from("alpha"),
    ];
    let ignore = vec![String::from("alpha")];
    let plan = refresh_plan(&hosts, &ignore);
    let probes: Vec<(String, i64, Vec<DataFolder>)> =
        plan.into_iter().map(|h| (h, 100i64, vec![])).collect();
    let inventory = ServersCache::from_probes(probes);
    assert!(inventory.servers.iter().all(|p| p.0 != "alpha"));
    assert_eq!(inventory.servers.len(), 1);
    assert_eq!(inventory.servers[0].0, "web");
}

#[test]
fn folder_listing_skips_blank_lines() {
    let out = parse_folder_listing("app-a\n\n   \napp-b\n");
    let paths: Vec<&str> = out.iter().map(|f| f.path.as_str()).collect();
    assert_eq!(paths, vec!["app-a", "app-b"]);
    assert!(out.iter().all(|f| f.container.is_none()));
}

#[test]
fn folder_listing_keeps_lines_verbatim() {
    let out = parse_folder_listing("padded \nplain");
    let paths: Vec<&str> = out.iter().map(|f| f.path.as_str()).collect();
    assert_eq!(paths, vec!["padded ", "plain"]);
}

#[test]
fn folder_listing_of_failed_probe_is_empty() {
    assert!(parse_folder_listing("").is_empty());
}
