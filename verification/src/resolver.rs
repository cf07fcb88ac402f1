//! The operation resolver: turns a requested operation with optional
//! parameters into a fully-specified one. A value the caller supplied is
//! kept verbatim and never re-queried; a missing container name is
//! filled from the remote container listing; missing ports are filled
//! from operator prompts. The remote queries and prompts themselves are
//! blocking external calls: the caller performs the step this module
//! asks for and hands the outcome back.

use vstd::prelude::*;

use crate::cli::{ApplicationCommandCli, CommandsCli, ConfigCommand};
use crate::remote_app::RemoteApp;
use crate::text::{chars_to_string, dec_digits, push_str_chars, push_u64};

verus! {

/// A fully-specified remote operation.
#[derive(Debug, PartialEq)]
pub enum ApplicationCommand {
    SshSession,
    Tunnel { container_name: String, host_port: u32, remote_port: u32 },
    RetrieveBackup,
    RetrieveFiles,
    HostedUrl,
}

/// A fully-resolved invocation, ready for execution.
pub enum Commands {
    Apps {
        refresh: bool,
        dry_run: bool,
        remote_app: RemoteApp,
        app_command: ApplicationCommand,
    },
    Config { command: ConfigCommand },
}

/// Why a resolution aborted: the parameter that could not be obtained.
#[derive(Debug, PartialEq, Eq, Structural, Clone, Copy)]
pub enum ResolutionError {
    NoContainer,
    NoRemotePort,
    NoLocalPort,
}

impl ResolutionError {
    /// The one-line diagnostic for this failure.
    pub fn message(&self) -> (r: String)
        ensures
            *self is NoContainer ==> r@ == "Could not find a container"@,
            *self is NoRemotePort ==> r@ == "Could not resolve a container port"@,
            *self is NoLocalPort ==> r@ == "Could not resolve a local port"@,
    {
        match self {
            ResolutionError::NoContainer => String::from_str("Could not find a container"),
            ResolutionError::NoRemotePort => String::from_str("Could not resolve a container port"),
            ResolutionError::NoLocalPort => String::from_str("Could not resolve a local port"),
        }
    }
}

/// A tunnel request part-way through resolution.
#[derive(Debug, PartialEq)]
pub struct PendingTunnel {
    pub container_name: Option<String>,
    pub host_port: Option<u32>,
    pub remote_port: Option<u32>,
}

/// What the resolver needs next for a pending tunnel.
#[derive(Debug, PartialEq, Eq, Structural, Clone, Copy)]
pub enum TunnelStep {
    NeedContainer,
    NeedRemotePort,
    NeedLocalPort,
    Complete,
}

/// The outcome of starting resolution: some operations are complete as
/// requested, a tunnel may still need parameters.
pub enum Resolution {
    Done(ApplicationCommand),
    Pending(PendingTunnel),
}

impl PendingTunnel {
    /// The fixed resolution order: container first, the container's
    /// port second, the local port last; a supplied value is skipped.
    pub open spec fn step_spec(self) -> TunnelStep {
        if self.container_name is None {
            TunnelStep::NeedContainer
        } else if self.remote_port is None {
            TunnelStep::NeedRemotePort
        } else if self.host_port is None {
            TunnelStep::NeedLocalPort
        } else {
            TunnelStep::Complete
        }
    }

    /// What the resolver needs next.
    pub fn next_step(&self) -> (s: TunnelStep)
        ensures
            s == self.step_spec(),
    {
        if self.container_name.is_none() {
            TunnelStep::NeedContainer
        } else if self.remote_port.is_none() {
            TunnelStep::NeedRemotePort
        } else if self.host_port.is_none() {
            TunnelStep::NeedLocalPort
        } else {
            TunnelStep::Complete
        }
    }

    /// Takes the outcome of the container query: a caller-supplied name
    /// is kept verbatim; otherwise an empty listing, or a declined
    /// choice, is a resolution failure, and a chosen name fills the slot.
    pub fn supply_container(self, containers: &Vec<String>, choice: Option<String>) -> (r: Result<
        PendingTunnel,
        ResolutionError,
    >)
        ensures
            self.container_name is Some ==> r == Result::<PendingTunnel, ResolutionError>::Ok(self),
            self.container_name is None && containers@.len() == 0 ==> r == Result::<
                PendingTunnel,
                ResolutionError,
            >::Err(ResolutionError::NoContainer),
            self.container_name is None && containers@.len() > 0 ==> match choice {
                Option::None => r == Result::<PendingTunnel, ResolutionError>::Err(
                    ResolutionError::NoContainer,
                ),
                Option::Some(c) => r == Result::<PendingTunnel, ResolutionError>::Ok(
                    (PendingTunnel {
                        container_name: Option::Some(c),
                        host_port: self.host_port,
                        remote_port: self.remote_port,
                    }),
                ),
            },
    {
        if self.container_name.is_some() {
            return Ok(self);
        }
        if containers.len() == 0 {
            return Err(ResolutionError::NoContainer);
        }
        match choice {
            Option::None => Err(ResolutionError::NoContainer),
            Option::Some(c) => Ok(
                PendingTunnel {
                    container_name: Some(c),
                    host_port: self.host_port,
                    remote_port: self.remote_port,
                },
            ),
        }
    }

    /// Takes the outcome of the container-port prompt: a supplied port
    /// is kept verbatim; a declined or unreadable prompt is a failure.
    pub fn supply_remote_port(self, input: Option<u32>) -> (r: Result<
        PendingTunnel,
        ResolutionError,
    >)
        ensures
            self.remote_port is Some ==> r == Result::<PendingTunnel, ResolutionError>::Ok(self),
            self.remote_port is None ==> match input {
                Option::None => r == Result::<PendingTunnel, ResolutionError>::Err(
                    ResolutionError::NoRemotePort,
                ),
                Option::Some(p) => r == Result::<PendingTunnel, ResolutionError>::Ok(
                    (PendingTunnel {
                        container_name: self.container_name,
                        host_port: self.host_port,
                        remote_port: Option::Some(p),
                    }),
                ),
            },
    {
        if self.remote_port.is_some() {
            return Ok(self);
        }
        match input {
            Option::None => Err(ResolutionError::NoRemotePort),
            Option::Some(p) => Ok(
                PendingTunnel {
                    container_name: self.container_name,
                    host_port: self.host_port,
                    remote_port: Some(p),
                },
            ),
        }
    }

    /// Takes the outcome of the local-port prompt, as
    /// `supply_remote_port` does for the container port.
    pub fn supply_local_port(self, input: Option<u32>) -> (r: Result<
        PendingTunnel,
        ResolutionError,
    >)
        ensures
            self.host_port is Some ==> r == Result::<PendingTunnel, ResolutionError>::Ok(self),
            self.host_port is None ==> match input {
                Option::None => r == Result::<PendingTunnel, ResolutionError>::Err(
                    ResolutionError::NoLocalPort,
                ),
                Option::Some(p) => r == Result::<PendingTunnel, ResolutionError>::Ok(
                    (PendingTunnel {
                        container_name: self.container_name,
                        host_port: Option::Some(p),
                        remote_port: self.remote_port,
                    }),
                ),
            },
    {
        if self.host_port.is_some() {
            return Ok(self);
        }
        match input {
            Option::None => Err(ResolutionError::NoLocalPort),
            Option::Some(p) => Ok(
                PendingTunnel {
                    container_name: self.container_name,
                    host_port: Some(p),
                    remote_port: self.remote_port,
                },
            ),
        }
    }

    /// The fully-specified tunnel, once every parameter is present.
    pub open spec fn finish_spec(self) -> Option<ApplicationCommand> {
        match (self.container_name, self.remote_port, self.host_port) {
            (Option::Some(c), Option::Some(rp), Option::Some(hp)) => Option::Some(
                (ApplicationCommand::Tunnel {
                    container_name: c,
                    host_port: hp,
                    remote_port: rp,
                }),
            ),
            _ => Option::None,
        }
    }

    /// Closes resolution: the tunnel operation, if nothing is missing.
    pub fn finish(self) -> (r: Option<ApplicationCommand>)
        ensures
            r == self.finish_spec(),
            (r is Some) == (self.step_spec() is Complete),
    {
        match (self.container_name, self.remote_port, self.host_port) {
            (Option::Some(c), Option::Some(rp), Option::Some(hp)) => Some(
                ApplicationCommand::Tunnel {
                    container_name: c,
                    host_port: hp,
                    remote_port: rp,
                },
            ),
            _ => None,
        }
    }
}

/// A pre-supplied container name short-circuits the container branch:
/// resolution of such a tunnel never asks for the container listing.
pub proof fn lemma_presupplied_container_skips_query(p: PendingTunnel)
    requires
        p.container_name is Some,
    ensures
        p.step_spec() != TunnelStep::NeedContainer,
{
}

impl ApplicationCommand {
    /// Starts resolution of a requested operation. Every kind but the
    /// tunnel is complete as requested; a tunnel keeps whatever
    /// parameters came with the request and waits for the rest.
    pub fn build(value: ApplicationCommandCli) -> (r: Resolution)
        ensures
            match value {
                ApplicationCommandCli::SshSession => r matches Resolution::Done(c) && c
                    == ApplicationCommand::SshSession,
                ApplicationCommandCli::RetrieveBackup => r matches Resolution::Done(c) && c
                    == ApplicationCommand::RetrieveBackup,
                ApplicationCommandCli::RetrieveFiles => r matches Resolution::Done(c) && c
                    == ApplicationCommand::RetrieveFiles,
                ApplicationCommandCli::HostedUrl => r matches Resolution::Done(c) && c
                    == ApplicationCommand::HostedUrl,
                ApplicationCommandCli::Tunnel { container_name, host_port, remote_port } => r
                    matches Resolution::Pending(p) && p == (PendingTunnel {
                    container_name,
                    host_port,
                    remote_port,
                }),
            },
    {
        match value {
            ApplicationCommandCli::SshSession => Resolution::Done(ApplicationCommand::SshSession),
            ApplicationCommandCli::RetrieveBackup => Resolution::Done(
                ApplicationCommand::RetrieveBackup,
            ),
            ApplicationCommandCli::RetrieveFiles => Resolution::Done(
                ApplicationCommand::RetrieveFiles,
            ),
            ApplicationCommandCli::HostedUrl => Resolution::Done(ApplicationCommand::HostedUrl),
            ApplicationCommandCli::Tunnel { container_name, host_port, remote_port } => {
                Resolution::Pending(PendingTunnel { container_name, host_port, remote_port })
            },
        }
    }

    /// The operation's name, as the command line spells it.
    pub open spec fn name_spec(self) -> Seq<char> {
        match self {
            ApplicationCommand::SshSession => "ssh-session"@,
            ApplicationCommand::Tunnel { .. } => "tunnel"@,
            ApplicationCommand::RetrieveBackup => "retrieve-backup"@,
            ApplicationCommand::RetrieveFiles => "retrieve-files"@,
            ApplicationCommand::HostedUrl => "hosted-url"@,
        }
    }

    pub fn name(&self) -> (r: String)
        ensures
            r@ == self.name_spec(),
    {
        match self {
            ApplicationCommand::SshSession => String::from_str("ssh-session"),
            ApplicationCommand::Tunnel { .. } => String::from_str("tunnel"),
            ApplicationCommand::RetrieveBackup => String::from_str("retrieve-backup"),
            ApplicationCommand::RetrieveFiles => String::from_str("retrieve-files"),
            ApplicationCommand::HostedUrl => String::from_str("hosted-url"),
        }
    }
}

impl Commands {
    /// Assembles a resolved invocation. A Config command passes through.
    /// For an Apps command, a host and application given on the command
    /// line are used verbatim (never the picker's outcome), the picker's
    /// outcome serves otherwise, and no target or no resolved operation
    /// means the invocation ends with nothing to run (a cancellation,
    /// not an error).
    pub fn build(
        commands_cli: CommandsCli,
        selected: Option<RemoteApp>,
        resolved: Option<ApplicationCommand>,
    ) -> (r: Option<Commands>)
        ensures
            match commands_cli {
                CommandsCli::Config { command } => r matches Option::Some(
                    Commands::Config { command: c },
                ) && c == command,
                CommandsCli::Apps { refresh, dry_run, host, app_name, app_command } => {
                    if host is Some && app_name is Some {
                        match resolved {
                            Option::Some(cmd) => r matches Option::Some(
                                Commands::Apps {
                                    refresh: rf,
                                    dry_run: dr,
                                    remote_app: ra,
                                    app_command: ac,
                                },
                            ) && rf == refresh && dr == dry_run && ra.host@ == host->0@
                                && ra.app_name@ == app_name->0@ && ac == cmd,
                            Option::None => r is None,
                        }
                    } else {
                        match (selected, resolved) {
                            (Option::Some(app), Option::Some(cmd)) => r matches Option::Some(
                                Commands::Apps {
                                    refresh: rf,
                                    dry_run: dr,
                                    remote_app: ra,
                                    app_command: ac,
                                },
                            ) && rf == refresh && dr == dry_run && ra == app && ac == cmd,
                            _ => r is None,
                        }
                    }
                },
            },
    {
        match commands_cli {
            CommandsCli::Config { command } => Some(Commands::Config { command }),
            CommandsCli::Apps { refresh, dry_run, host, app_name, app_command: _ } => {
                let remote_app: RemoteApp = match (host, app_name) {
                    (Option::Some(h), Option::Some(a)) => RemoteApp::new(h, a),
                    _ => {
                        match selected {
                            Option::Some(app) => app,
                            Option::None => {
                                return None;
                            },
                        }
                    },
                };
                match resolved {
                    Option::Some(cmd) => Some(
                        Commands::Apps { refresh, dry_run, remote_app, app_command: cmd },
                    ),
                    Option::None => None,
                }
            },
        }
    }
}

/// The non-interactive command line that repeats a resolved invocation.
pub fn replay_command(remote_app: &RemoteApp, app_command: &ApplicationCommand) -> (r: String)
    ensures
        match *app_command {
            ApplicationCommand::Tunnel { container_name, host_port, remote_port } => r@
                == "rpio apps --host "@ + remote_app.host@ + " --app-name "@
                + remote_app.app_name@ + " tunnel --container-name "@ + container_name@
                + " --host-port "@ + dec_digits(host_port as nat) + " --remote-port "@
                + dec_digits(remote_port as nat),
            _ => r@ == "rpio apps --host "@ + remote_app.host@ + " --app-name "@
                + remote_app.app_name@ + " "@ + app_command.name_spec(),
        },
{
    let mut out: Vec<char> = Vec::new();
    push_str_chars(&mut out, "rpio apps --host ");
    push_str_chars(&mut out, remote_app.host.as_str());
    push_str_chars(&mut out, " --app-name ");
    push_str_chars(&mut out, remote_app.app_name.as_str());
    match app_command {
        ApplicationCommand::Tunnel { container_name, host_port, remote_port } => {
            push_str_chars(&mut out, " tunnel --container-name ");
            push_str_chars(&mut out, container_name.as_str());
            push_str_chars(&mut out, " --host-port ");
            push_u64(&mut out, *host_port as u64);
            push_str_chars(&mut out, " --remote-port ");
            push_u64(&mut out, *remote_port as u64);
            proof {
                assert(out@ =~= "rpio apps --host "@ + remote_app.host@ + " --app-name "@
                    + remote_app.app_name@ + " tunnel --container-name "@ + container_name@
                    + " --host-port "@ + dec_digits(*host_port as nat) + " --remote-port "@
                    + dec_digits(*remote_port as nat));
            }
        },
        _ => {
            push_str_chars(&mut out, " ");
            let name = app_command.name();
            push_str_chars(&mut out, name.as_str());
            proof {
                assert(out@ =~= "rpio apps --host "@ + remote_app.host@ + " --app-name "@
                    + remote_app.app_name@ + " "@ + app_command.name_spec());
            }
        },
    }
    chars_to_string(&out)
}

} // verus!
