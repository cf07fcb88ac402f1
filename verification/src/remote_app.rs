//! The resolved remote target: one application directory on one host,
//! together with the exact command lines the remote probes and operations
//! send through the external transport. Running those commands is the
//! caller's job; their shape is part of this library's contract.

use vstd::prelude::*;

use crate::text::{chars_to_string, lines_of, push_str_chars, push_u64, split_lines};

verus! {

/// The resolved selection: one application directory on one host.
#[derive(Debug, Clone, PartialEq)]
pub struct RemoteApp {
    pub host: String,
    pub app_name: String,
}

impl RemoteApp {
    pub fn new(host: String, app_name: String) -> (r: RemoteApp)
        ensures
            r.host@ == host@,
            r.app_name@ == app_name@,
    {
        RemoteApp { host, app_name }
    }

    /// The application's directory on the remote host.
    pub fn remote_directory(&self) -> (r: String)
        ensures
            r@ == "/data/"@ + self.app_name@,
    {
        directory_for_app(self.app_name.as_str())
    }

    /// The remote command that lists the application's running containers,
    /// one name per line.
    pub fn list_containers_command(&self) -> (r: String)
        ensures
            r@ == "cd /data/"@ + self.app_name@ + " && docker compose ps --format {{.Names}}"@,
    {
        let mut out: Vec<char> = Vec::new();
        push_str_chars(&mut out, "cd /data/");
        push_str_chars(&mut out, self.app_name.as_str());
        push_str_chars(&mut out, " && docker compose ps --format {{.Names}}");
        proof {
            assert(out@ =~= "cd /data/"@ + self.app_name@
                + " && docker compose ps --format {{.Names}}"@);
        }
        chars_to_string(&out)
    }

    /// The remote command that renders the application's effective service
    /// configuration to standard output.
    pub fn dump_config_command(&self) -> (r: String)
        ensures
            r@ == "cd /data/"@ + self.app_name@ + " && docker compose config"@,
    {
        let mut out: Vec<char> = Vec::new();
        push_str_chars(&mut out, "cd /data/");
        push_str_chars(&mut out, self.app_name.as_str());
        push_str_chars(&mut out, " && docker compose config");
        proof {
            assert(out@ =~= "cd /data/"@ + self.app_name@ + " && docker compose config"@);
        }
        chars_to_string(&out)
    }
}

/// The application's directory under the fixed remote applications root.
pub fn directory_for_app(app: &str) -> (r: String)
    ensures
        r@ == "/data/"@ + app@,
{
    let mut out: Vec<char> = Vec::new();
    push_str_chars(&mut out, "/data/");
    push_str_chars(&mut out, app);
    proof {
        assert(out@ =~= "/data/"@ + app@);
    }
    chars_to_string(&out)
}

/// The remote listing command a discovery probe runs on each host:
/// the immediate entries of `/data`, failure ignored.
pub fn list_apps_command() -> (r: &'static str)
    ensures
        r@ == "ls -1 /data 2>/dev/null"@,
{
    "ls -1 /data 2>/dev/null"
}

/// The names in one container-listing probe's output: one per line.
pub fn parse_container_listing(output: &str) -> (r: Vec<String>)
    ensures
        r.deep_view() == lines_of(output@),
{
    split_lines(output)
}

/// The remote command that prints a container's network address.
pub fn container_ip_command(container: &str) -> (r: String)
    ensures
        r@ == "docker inspect -f '{{range .NetworkSettings.Networks}}{{println .IPAddress}}{{end}}' "@
            + container@ + " | head -n1"@,
{
    let mut out: Vec<char> = Vec::new();
    push_str_chars(
        &mut out,
        "docker inspect -f '{{range .NetworkSettings.Networks}}{{println .IPAddress}}{{end}}' ",
    );
    push_str_chars(&mut out, container);
    push_str_chars(&mut out, " | head -n1");
    proof {
        assert(out@
            =~= "docker inspect -f '{{range .NetworkSettings.Networks}}{{println .IPAddress}}{{end}}' "@
            + container@ + " | head -n1"@);
    }
    chars_to_string(&out)
}

/// The port-forward argument of a tunnel: `<local>:<address>:<remote>`.
pub fn forward_argument(host_port: u32, container_ip: &str, remote_port: u32) -> (r: String)
    ensures
        r@ == crate::text::dec_digits(host_port as nat) + seq![':'] + container_ip@ + seq![':']
            + crate::text::dec_digits(remote_port as nat),
{
    let mut out: Vec<char> = Vec::new();
    push_u64(&mut out, host_port as u64);
    out.push(':');
    push_str_chars(&mut out, container_ip);
    out.push(':');
    push_u64(&mut out, remote_port as u64);
    proof {
        assert(out@ =~= crate::text::dec_digits(host_port as nat) + seq![':'] + container_ip@
            + seq![':'] + crate::text::dec_digits(remote_port as nat));
    }
    chars_to_string(&out)
}

/// The remote command an interactive session runs: change into the
/// application's directory, land in a login shell.
pub fn ssh_session_command(app: &str) -> (r: String)
    ensures
        r@ == "cd /data/"@ + app@ + " ; bash --login"@,
{
    let mut out: Vec<char> = Vec::new();
    push_str_chars(&mut out, "cd /data/");
    push_str_chars(&mut out, app);
    push_str_chars(&mut out, " ; bash --login");
    proof {
        assert(out@ =~= "cd /data/"@ + app@ + " ; bash --login"@);
    }
    chars_to_string(&out)
}

/// The remote directory a retrieval mirrors from: the application's
/// database backups, or its file store.
pub fn remote_data_path(app: &str, is_backup: bool) -> (r: String)
    ensures
        is_backup ==> r@ == "/data/"@ + app@ + "/data/db/backups"@,
        !is_backup ==> r@ == "/data/"@ + app@ + "/data/files/"@,
{
    let mut out: Vec<char> = Vec::new();
    push_str_chars(&mut out, "/data/");
    push_str_chars(&mut out, app);
    if is_backup {
        push_str_chars(&mut out, "/data/db/backups");
        proof {
            assert(out@ =~= "/data/"@ + app@ + "/data/db/backups"@);
        }
    } else {
        push_str_chars(&mut out, "/data/files/");
        proof {
            assert(out@ =~= "/data/"@ + app@ + "/data/files/"@);
        }
    }
    chars_to_string(&out)
}

/// The local directory a retrieval mirrors into, relative to the
/// caller-supplied root.
pub fn local_data_subdir(is_backup: bool) -> (r: &'static str)
    ensures
        is_backup ==> r@ == "data/db"@,
        !is_backup ==> r@ == "data/files"@,
{
    if is_backup {
        "data/db"
    } else {
        "data/files"
    }
}

} // verus!
