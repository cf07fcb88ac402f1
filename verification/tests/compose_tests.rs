use rpio::compose::{
    get_env, has_semantic_works_marker, hosted_url_of, ComposeConfig, EnvEntries, ServiceConfig,
};

fn svc(name: &str, image: Option<&str>, env: EnvEntries) -> ServiceConfig {
    ServiceConfig {
        name: String::from(name),
        image: image.map(String::from),
        env,
    }
}

fn pairs(ps: &[(&str, &str)]) -> EnvEntries {
    EnvEntries::Pairs(
        ps.iter().map(|(k, v)| (String::from(*k), String::from(*v))).collect(),
    )
}

fn lines(ls: &[&str]) -> EnvEntries {
    EnvEntries::Lines(ls.iter().map(|l| String::from(*l)).collect())
}

#[test]
fn env_from_mapping() {
    let doc = ComposeConfig {
        services: vec![svc(
            "identifier",
            None,
            pairs(&[("OTHER", "x"), ("LETSENCRYPT_HOST", "shop.example.org")]),
        )],
    };
    assert_eq!(
        get_env(&doc, "identifier", "LETSENCRYPT_HOST"),
        Some(String::from("shop.example.org"))
    );
    assert_eq!(get_env(&doc, "identifier", "MISSING"), None);
    assert_eq!(get_env(&doc, "dispatcher", "LETSENCRYPT_HOST"), None);
}

#[test]
fn env_from_key_value_lines() {
    let doc = ComposeConfig {
        services: vec![svc(
            "identifier",
            None,
            lines(&["no-separator", "LETSENCRYPT_HOST=a.example", "LETSENCRYPT_HOST=b.example"]),
        )],
    };
    assert_eq!(
        get_env(&doc, "identifier", "LETSENCRYPT_HOST"),
        Some(String::from("a.example"))
    );
}

#[test]
fn env_line_splits_on_first_equals() {
    let doc = ComposeConfig {
        services: vec![svc("s", None, lines(&["KEY=a=b"]))],
    };
    assert_eq!(get_env(&doc, "s", "KEY"), Some(String::from("a=b")));
}

#[test]
fn env_absent_yields_nothing() {
    let doc = ComposeConfig {
        services: vec![svc("s", None, EnvEntries::Absent)],
    };
    assert_eq!(get_env(&doc, "s", "KEY"), None);
}

#[test]
fn first_service_of_a_name_wins() {
    let doc = ComposeConfig {
        services: vec![
            svc("s", None, pairs(&[("K", "first")])),
            svc("s", None, pairs(&[("K", "second")])),
        ],
    };
    assert_eq!(get_env(&doc, "s", "K"), Some(String::from("first")));
}

#[test]
fn marker_found_on_identifier_image() {
    let doc = ComposeConfig {
        services: vec![
            svc("db", Some("postgres:15"), EnvEntries::Absent),
            svc("identifier", Some("semtech/mu-identifier:1.10.1"), EnvEntries::Absent),
        ],
    };
    assert!(has_semantic_works_marker(&doc));
}

#[test]
fn marker_absent_without_identifier_image() {
    let doc = ComposeConfig {
        services: vec![
            svc("db", Some("postgres:15"), EnvEntries::Absent),
            svc("web", None, EnvEntries::Absent),
        ],
    };
    assert!(!has_semantic_works_marker(&doc));
    let empty = ComposeConfig { services: vec![] };
    assert!(!has_semantic_works_marker(&empty));
}

#[test]
fn hosted_url_prefixes_scheme() {
    assert_eq!(hosted_url_of("shop.example.org"), "https://shop.example.org");
}
