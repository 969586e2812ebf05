//! Status commands run on a remote server over `ssh`.
//!
//! The requested commands are a comma-separated list of names; each name
//! selects a titled command: `docker` (running containers), `users` (active
//! users) and `storage` (disk usage of `/vda`).
use vstd::prelude::*;

use crate::text::{append, chars_of, split_char, split_on, string_from, views};

verus! {

/// A command to run on the server, with the title printed above its output.
pub struct SshJob {
    pub description: String,
    pub command: String,
}

/// The title and remote command that `name` selects, if it is known.
pub open spec fn known_command(name: Seq<char>) -> Option<(Seq<char>, Seq<char>)> {
    if name == "docker"@ {
        Some(("Docker"@, "docker ps"@))
    } else if name == "users"@ {
        Some(("Active Users"@, "w"@))
    } else if name == "storage"@ {
        Some(("Storage"@, "df -h | grep /vda"@))
    } else {
        None
    }
}

/// The shell command that runs `command` on `server` over `ssh`.
pub open spec fn ssh_command(server: Seq<char>, command: Seq<char>) -> Seq<char> {
    "ssh "@ + server + seq![' '] + command
}

/// Whether every requested name is known.
pub open spec fn all_known(commands: Seq<char>) -> bool {
    forall|i: int|
        0 <= i < split_on(commands, ',').len() ==> (#[trigger] known_command(
            split_on(commands, ',')[i],
        )) is Some
}

/// The job for the known name `name` on `server`.
pub open spec fn job_for(server: Seq<char>, name: Seq<char>) -> (Seq<char>, Seq<char>) {
    let (title, command) = known_command(name).unwrap();
    (title, ssh_command(server, command))
}

/// The title and remote command selected by `name`.
fn lookup(name: &Vec<char>) -> (r: Option<(String, String)>)
    ensures
        r matches Some(p) ==> known_command(name@) == Some((p.0@, p.1@)),
        r is None ==> known_command(name@) is None,
{
    let docker = chars_of("docker");
    let users = chars_of("users");
    let storage = chars_of("storage");
    if crate::text::same_chars(name, &docker) {
        Some(("Docker".to_owned(), "docker ps".to_owned()))
    } else if crate::text::same_chars(name, &users) {
        Some(("Active Users".to_owned(), "w".to_owned()))
    } else if crate::text::same_chars(name, &storage) {
        Some(("Storage".to_owned(), "df -h | grep /vda".to_owned()))
    } else {
        None
    }
}

/// The first requested name that is not known, if there is one.
pub fn first_unknown(commands: &str) -> (r: Option<String>)
    ensures
        r is None <==> all_known(commands@),
        r matches Some(name) ==> exists|i: int|
            0 <= i < split_on(commands@, ',').len() && split_on(commands@, ',')[i] == name@
                && known_command(name@) is None && forall|k: int|
                0 <= k < i ==> (#[trigger] known_command(split_on(commands@, ',')[k])) is Some,
{
    let chars = chars_of(commands);
    let names = split_char(&chars, ',');
    let mut i: usize = 0;
    while i < names.len()
        invariant
            i <= names.len(),
            views(names@) == split_on(commands@, ','),
            forall|k: int|
                0 <= k < i ==> (#[trigger] known_command(split_on(commands@, ',')[k])) is Some,
        decreases names.len() - i,
    {
        assert(split_on(commands@, ',')[i as int] == names@[i as int]@);
        if lookup(&names[i]).is_none() {
            let name = string_from(&names[i]);
            return Some(name);
        }
        i += 1;
    }
    None
}

/// The jobs for the requested names, in order, each running its command on
/// `server_name`.
pub fn plan_jobs(commands: &str, server_name: &str) -> (jobs: Vec<SshJob>)
    requires
        all_known(commands@),
    ensures
        jobs@.len() == split_on(commands@, ',').len(),
        forall|i: int|
            0 <= i < jobs@.len() ==> ((#[trigger] jobs@[i]).description@, jobs@[i].command@)
                == job_for(server_name@, split_on(commands@, ',')[i]),
{
    let chars = chars_of(commands);
    let names = split_char(&chars, ',');
    let server = chars_of(server_name);
    let mut jobs: Vec<SshJob> = Vec::new();
    let mut i: usize = 0;
    while i < names.len()
        invariant
            i <= names.len(),
            views(names@) == split_on(commands@, ','),
            all_known(commands@),
            server@ == server_name@,
            jobs@.len() == i,
            forall|k: int|
                0 <= k < i ==> ((#[trigger] jobs@[k]).description@, jobs@[k].command@) == job_for(
                    server_name@,
                    split_on(commands@, ',')[k],
                ),
        decreases names.len() - i,
    {
        assert(split_on(commands@, ',')[i as int] == names@[i as int]@);
        assert(known_command(split_on(commands@, ',')[i as int]) is Some);
        let (title, command) = lookup(&names[i]).unwrap();
        let mut line = chars_of("ssh ");
        append(&mut line, &server);
        line.push(' ');
        append(&mut line, &chars_of(command.as_str()));
        assert(line@ =~= ssh_command(server_name@, command@));
        jobs.push(SshJob { description: title, command: string_from(&line) });
        i += 1;
    }
    jobs
}

} // verus!
