use rpio::cli::{
    command_options, parse_application_command, ApplicationCommandCli, CommandsCli, ConfigCommand,
};
use rpio::remote_app::RemoteApp;
use rpio::resolver::{
    replay_command, ApplicationCommand, Commands, PendingTunnel, Resolution, ResolutionError,
    TunnelStep,
};
use rpio::text::parse_u32;

fn pending(
    container_name: Option<&str>,
    host_port: Option<u32>,
    remote_port: Option<u32>,
) -> PendingTunnel {
    PendingTunnel {
        container_name: container_name.map(String::from),
        host_port,
        remote_port,
    }
}

#[test]
fn non_tunnel_commands_resolve_immediately() {
    assert!(matches!(
        ApplicationCommand::build(ApplicationCommandCli::SshSession),
        Resolution::Done(ApplicationCommand::SshSession)
    ));
    assert!(matches!(
        ApplicationCommand::build(ApplicationCommandCli::RetrieveBackup),
        Resolution::Done(ApplicationCommand::RetrieveBackup)
    ));
    assert!(matches!(
        ApplicationCommand::build(ApplicationCommandCli::RetrieveFiles),
        Resolution::Done(ApplicationCommand::RetrieveFiles)
    ));
    assert!(matches!(
        ApplicationCommand::build(ApplicationCommandCli::HostedUrl),
        Resolution::Done(ApplicationCommand::HostedUrl)
    ));
}

#[test]
fn tunnel_keeps_presupplied_parameters() {
    let r = ApplicationCommand::build(ApplicationCommandCli::Tunnel {
        container_name: Some(String::from("db")),
        host_port: None,
        remote_port: Some(5432),
    });
    match r {
        Resolution::Pending(p) => assert_eq!(p, pending(Some("db"), None, Some(5432))),
        Resolution::Done(_) => panic!("a tunnel with missing ports is not done"),
    }
}

#[test]
fn presupplied_container_is_never_queried() {
    let mut p = pending(Some("db"), None, None);
    loop {
        match p.next_step() {
            TunnelStep::NeedContainer => {
                panic!("container query issued despite a pre-supplied name")
            },
            TunnelStep::NeedRemotePort => p = p.supply_remote_port(Some(80)).unwrap(),
            TunnelStep::NeedLocalPort => p = p.supply_local_port(Some(8080)).unwrap(),
            TunnelStep::Complete => break,
        }
    }
    assert_eq!(
        p.finish(),
        Some(ApplicationCommand::Tunnel {
            container_name: String::from("db"),
            host_port: 8080,
            remote_port: 80,
        })
    );
}

#[test]
fn resolution_order_is_container_then_remote_then_local() {
    let p = pending(None, None, None);
    assert_eq!(p.next_step(), TunnelStep::NeedContainer);
    let p = p
        .supply_container(&vec![String::from("web")], Some(String::from("web")))
        .unwrap();
    assert_eq!(p.next_step(), TunnelStep::NeedRemotePort);
    let p = p.supply_remote_port(Some(80)).unwrap();
    assert_eq!(p.next_step(), TunnelStep::NeedLocalPort);
    let p = p.supply_local_port(Some(8080)).unwrap();
    assert_eq!(p.next_step(), TunnelStep::Complete);
}

#[test]
fn zero_containers_is_a_resolution_failure() {
    let p = pending(None, None, None);
    let r = p.supply_container(&vec![], None);
    assert_eq!(r, Err(ResolutionError::NoContainer));
}

#[test]
fn declined_container_choice_is_a_resolution_failure() {
    let p = pending(None, None, None);
    let r = p.supply_container(&vec![String::from("web")], None);
    assert_eq!(r, Err(ResolutionError::NoContainer));
}

#[test]
fn declined_prompts_fail_with_the_missing_parameter() {
    assert_eq!(
        pending(Some("c"), None, None).supply_remote_port(None),
        Err(ResolutionError::NoRemotePort)
    );
    assert_eq!(
        pending(Some("c"), None, Some(80)).supply_local_port(None),
        Err(ResolutionError::NoLocalPort)
    );
}

#[test]
fn error_messages_name_the_parameter() {
    assert_eq!(
        ResolutionError::NoContainer.message(),
        "Could not find a container"
    );
    assert_eq!(
        ResolutionError::NoRemotePort.message(),
        "Could not resolve a container port"
    );
    assert_eq!(
        ResolutionError::NoLocalPort.message(),
        "Could not resolve a local port"
    );
}

#[test]
fn incomplete_tunnel_does_not_finish() {
    assert_eq!(pending(Some("c"), None, Some(80)).finish(), None);
    assert_eq!(pending(None, Some(1), Some(2)).finish(), None);
}

#[test]
fn build_passes_config_through() {
    let r = Commands::build(
        CommandsCli::Config { command: ConfigCommand::Init },
        None,
        None,
    );
    assert!(matches!(
        r,
        Some(Commands::Config { command: ConfigCommand::Init })
    ));
}

#[test]
fn build_prefers_command_line_target() {
    let r = Commands::build(
        CommandsCli::Apps {
            refresh: true,
            dry_run: false,
            host: Some(String::from("given-host")),
            app_name: Some(String::from("given-app")),
            app_command: None,
        },
        Some(RemoteApp::new(
            String::from("picked-host"),
            String::from("picked-app"),
        )),
        Some(ApplicationCommand::SshSession),
    );
    match r {
        Some(Commands::Apps { refresh, dry_run, remote_app, app_command }) => {
            assert!(refresh);
            assert!(!dry_run);
            assert_eq!(remote_app.host, "given-host");
            assert_eq!(remote_app.app_name, "given-app");
            assert_eq!(app_command, ApplicationCommand::SshSession);
        },
        _ => panic!("a fully-specified invocation builds"),
    }
}

#[test]
fn build_falls_back_to_picked_target() {
    let r = Commands::build(
        CommandsCli::Apps {
            refresh: false,
            dry_run: false,
            host: None,
            app_name: None,
            app_command: None,
        },
        Some(RemoteApp::new(String::from("h"), String::from("a"))),
        Some(ApplicationCommand::RetrieveFiles),
    );
    match r {
        Some(Commands::Apps { remote_app, .. }) => {
            assert_eq!(remote_app.host, "h");
            assert_eq!(remote_app.app_name, "a");
        },
        _ => panic!("a picked target builds"),
    }
}

#[test]
fn build_without_target_is_a_cancellation() {
    let r = Commands::build(
        CommandsCli::Apps {
            refresh: false,
            dry_run: false,
            host: None,
            app_name: None,
            app_command: None,
        },
        None,
        Some(ApplicationCommand::SshSession),
    );
    assert!(r.is_none());
}

#[test]
fn command_picker_options_round_trip() {
    let options = command_options();
    assert_eq!(
        options,
        vec![
            "ssh-session",
            "tunnel",
            "retrieve-backup",
            "retrieve-files",
            "hosted-url"
        ]
    );
    for o in &options {
        assert!(parse_application_command(o).is_some());
    }
    assert!(matches!(
        parse_application_command("tunnel"),
        Some(ApplicationCommandCli::Tunnel {
            container_name: None,
            host_port: None,
            remote_port: None,
        })
    ));
    assert!(parse_application_command("bogus").is_none());
}

#[test]
fn replay_command_for_tunnel() {
    let app = RemoteApp::new(String::from("h1"), String::from("a1"));
    let cmd = ApplicationCommand::Tunnel {
        container_name: String::from("web"),
        host_port: 8080,
        remote_port: 80,
    };
    assert_eq!(
        replay_command(&app, &cmd),
        "rpio apps --host h1 --app-name a1 tunnel --container-name web --host-port 8080 --remote-port 80"
    );
}

#[test]
fn replay_command_for_plain_operation() {
    let app = RemoteApp::new(String::from("h1"), String::from("a1"));
    assert_eq!(
        replay_command(&app, &ApplicationCommand::RetrieveBackup),
        "rpio apps --host h1 --app-name a1 retrieve-backup"
    );
}

#[test]
fn prompt_numbers_parse_like_the_standard_reader() {
    assert_eq!(parse_u32("80"), Some(80));
    assert_eq!(parse_u32("+80"), Some(80));
    assert_eq!(parse_u32("007"), Some(7));
    assert_eq!(parse_u32("4294967295"), Some(u32::MAX));
    assert_eq!(parse_u32("4294967296"), None);
    assert_eq!(parse_u32(""), None);
    assert_eq!(parse_u32("+"), None);
    assert_eq!(parse_u32("12a"), None);
    assert_eq!(parse_u32("-1"), None);
}
