use rpio::remote_app::{
    container_ip_command, directory_for_app, forward_argument, list_apps_command,
    local_data_subdir, parse_container_listing, remote_data_path, ssh_session_command, RemoteApp,
};

#[test]
fn new_keeps_identity() {
    let app = RemoteApp::new(String::from("web-1"), String::from("shop"));
    assert_eq!(app.host, "web-1");
    assert_eq!(app.app_name, "shop");
}

#[test]
fn remote_directory_under_data_root() {
    let app = RemoteApp::new(String::from("h"), String::from("shop"));
    assert_eq!(app.remote_directory(), "/data/shop");
    assert_eq!(directory_for_app("shop"), "/data/shop");
}

#[test]
fn discovery_probe_command_shape() {
    assert_eq!(list_apps_command(), "ls -1 /data 2>/dev/null");
}

#[test]
fn container_listing_command_shape() {
    let app = RemoteApp::new(String::from("h"), String::from("shop"));
    assert_eq!(
        app.list_containers_command(),
        "cd /data/shop && docker compose ps --format {{.Names}}"
    );
}

#[test]
fn config_dump_command_shape() {
    let app = RemoteApp::new(String::from("h"), String::from("shop"));
    assert_eq!(app.dump_config_command(), "cd /data/shop && docker compose config");
}

#[test]
fn container_listing_one_name_per_line() {
    assert_eq!(parse_container_listing("web\ndb\n"), vec!["web", "db"]);
    assert_eq!(parse_container_listing("solo"), vec!["solo"]);
    assert_eq!(parse_container_listing(""), Vec::<String>::new());
}

#[test]
fn container_ip_command_shape() {
    assert_eq!(
        container_ip_command("shop-web-1"),
        "docker inspect -f '{{range .NetworkSettings.Networks}}{{println .IPAddress}}{{end}}' shop-web-1 | head -n1"
    );
}

#[test]
fn forward_argument_shape() {
    assert_eq!(forward_argument(8080, "10.0.0.2", 80), "8080:10.0.0.2:80");
    assert_eq!(forward_argument(0, "::1", 65535), "0:::1:65535");
}

#[test]
fn session_command_shape() {
    assert_eq!(ssh_session_command("shop"), "cd /data/shop ; bash --login");
}

#[test]
fn retrieval_paths() {
    assert_eq!(remote_data_path("shop", true), "/data/shop/data/db/backups");
    assert_eq!(remote_data_path("shop", false), "/data/shop/data/files/");
    assert_eq!(local_data_subdir(true), "data/db");
    assert_eq!(local_data_subdir(false), "data/files");
}
