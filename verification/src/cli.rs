//! The command-line surface as plain data: what an invocation asked for,
//! before resolution. The argument grammar itself (flags, help text) is
//! an external collaborator; these types carry its outcome.

use vstd::prelude::*;

use crate::text::str_eq;

verus! {

/// A whole invocation.
pub struct Cli {
    pub command: CommandsCli,
}

/// The top-level command of an invocation.
#[derive(Clone)]
pub enum CommandsCli {
    Apps {
        refresh: bool,
        dry_run: bool,
        host: Option<String>,
        app_name: Option<String>,
        app_command: Option<ApplicationCommandCli>,
    },
    Config { command: ConfigCommand },
}

/// A requested remote operation, its parameters still optional.
#[derive(Debug, Clone)]
pub enum ApplicationCommandCli {
    SshSession,
    Tunnel {
        container_name: Option<String>,
        host_port: Option<u32>,
        remote_port: Option<u32>,
    },
    RetrieveBackup,
    RetrieveFiles,
    HostedUrl,
}

/// Configuration maintenance commands.
#[derive(Debug, Clone)]
pub enum ConfigCommand {
    Init,
}

/// The names the interactive command picker offers, in fixed order.
pub open spec fn command_names() -> Seq<Seq<char>> {
    seq!["ssh-session"@, "tunnel"@, "retrieve-backup"@, "retrieve-files"@, "hosted-url"@]
}

/// The candidate lines of the interactive command picker.
pub fn command_options() -> (r: Vec<String>)
    ensures
        r.deep_view() == command_names(),
{
    let mut r: Vec<String> = Vec::new();
    r.push(String::from_str("ssh-session"));
    r.push(String::from_str("tunnel"));
    r.push(String::from_str("retrieve-backup"));
    r.push(String::from_str("retrieve-files"));
    r.push(String::from_str("hosted-url"));
    proof {
        assert(r.deep_view() =~= command_names());
    }
    r
}

/// The operation one picker line stands for; a `tunnel` choice carries
/// no parameters yet.
pub open spec fn command_of_name(s: Seq<char>) -> Option<ApplicationCommandCli> {
    if s == "ssh-session"@ {
        Option::Some(ApplicationCommandCli::SshSession)
    } else if s == "tunnel"@ {
        Option::Some(
            ApplicationCommandCli::Tunnel {
                container_name: Option::None,
                host_port: Option::None,
                remote_port: Option::None,
            },
        )
    } else if s == "retrieve-backup"@ {
        Option::Some(ApplicationCommandCli::RetrieveBackup)
    } else if s == "retrieve-files"@ {
        Option::Some(ApplicationCommandCli::RetrieveFiles)
    } else if s == "hosted-url"@ {
        Option::Some(ApplicationCommandCli::HostedUrl)
    } else {
        Option::None
    }
}

/// Resolves one picked line back into the requested operation.
pub fn parse_application_command(s: &str) -> (r: Option<ApplicationCommandCli>)
    ensures
        r == command_of_name(s@),
{
    if str_eq(s, "ssh-session") {
        Some(ApplicationCommandCli::SshSession)
    } else if str_eq(s, "tunnel") {
        Some(
            ApplicationCommandCli::Tunnel {
                container_name: None,
                host_port: None,
                remote_port: None,
            },
        )
    } else if str_eq(s, "retrieve-backup") {
        Some(ApplicationCommandCli::RetrieveBackup)
    } else if str_eq(s, "retrieve-files") {
        Some(ApplicationCommandCli::RetrieveFiles)
    } else if str_eq(s, "hosted-url") {
        Some(ApplicationCommandCli::HostedUrl)
    } else {
        None
    }
}

} // verus!
