//! The host registry operations and the outcome of a proxy reload.
//!
//! Each operation works on the config text that the caller read and returns
//! the text to write back; the caller then asks the proxy to reload.
use vstd::prelude::*;
use crate::codec::{decimal, generate_config, parse_config, parse_spec, push_decimal, render_spec};
use crate::host::{AppError, ErrorKind, Host, HostV, views};
use crate::text::{chars_of, push_chars, push_literal, string_of};

verus! {

/// Some host in `hs` is named `name`.
pub open spec fn has_name(hs: Seq<HostV>, name: Seq<char>) -> bool {
    exists|j: int| 0 <= j < hs.len() && #[trigger] hs[j].name == name
}

/// `hs` without the hosts named `name`, in the same order.
pub open spec fn without_name(hs: Seq<HostV>, name: Seq<char>) -> Seq<HostV>
    decreases hs.len(),
{
    if hs.len() == 0 {
        seq![]
    } else {
        let rest = without_name(hs.drop_last(), name);
        if hs.last().name == name {
            rest
        } else {
            rest.push(hs.last())
        }
    }
}

/// The hosts that the config text describes, in document order.
pub fn get_hosts(config: &str) -> (r: Vec<Host>)
    ensures
        views(r@) == parse_spec(config@),
{
    parse_config(config)
}

/// The error for adding a host whose name is taken.
pub fn conflict_error(name: &String) -> (r: AppError)
    ensures
        r.kind == ErrorKind::Conflict,
        r.message@ == "Host with name '"@ + name@ + "' already exists"@,
{
    let mut m: Vec<char> = Vec::new();
    push_literal(&mut m, "Host with name '");
    push_chars(&mut m, &chars_of(name.as_str()));
    push_literal(&mut m, "' already exists");
    AppError { kind: ErrorKind::Conflict, message: string_of(&m) }
}

/// The config text with `host` added after the hosts it describes. Fails
/// with a conflict, and renders nothing, where a host of that name is there.
pub fn add_host(config: &str, host: Host) -> (r: Result<String, AppError>)
    ensures
        has_name(parse_spec(config@), host@.name) ==> (r matches Err(e) && e.kind
            == ErrorKind::Conflict),
        !has_name(parse_spec(config@), host@.name) ==> match render_spec(
            config@,
            parse_spec(config@).push(host@),
        ) {
            Some(t) => r matches Ok(out) && out@ == t,
            None => r matches Err(e) && e.kind == ErrorKind::Config,
        },
{
    let mut hosts = parse_config(config);
    let mut j: usize = 0;
    while j < hosts.len()
        invariant
            j <= hosts@.len(),
            views(hosts@) == parse_spec(config@),
            forall|k: int| 0 <= k < j ==> hosts@[k].name@ != host.name@,
        decreases hosts@.len() - j,
    {
        if hosts[j].name == host.name {
            assert(views(hosts@)[j as int].name == host@.name);
            return Err(conflict_error(&host.name));
        }
        j = j + 1;
    }
    assert(!has_name(parse_spec(config@), host@.name)) by {
        assert forall|k: int| 0 <= k < hosts@.len() implies #[trigger] views(hosts@)[k].name
            != host@.name by {
            assert(hosts@[k].name@ != host.name@);
        }
    }
    hosts.push(host);
    assert(views(hosts@) =~= parse_spec(config@).push(host@));
    generate_config(config, hosts.as_slice())
}

/// The config text without the hosts named `name`. A name that no host has
/// is no error: the hosts are rendered as they are.
pub fn delete_host(config: &str, name: &String) -> (r: Result<String, AppError>)
    ensures
        match render_spec(config@, without_name(parse_spec(config@), name@)) {
            Some(t) => r matches Ok(out) && out@ == t,
            None => r matches Err(e) && e.kind == ErrorKind::Config,
        },
{
    let hosts = parse_config(config);
    let mut kept: Vec<Host> = Vec::new();
    let mut j: usize = 0;
    while j < hosts.len()
        invariant
            j <= hosts@.len(),
            views(hosts@) == parse_spec(config@),
            views(kept@) == without_name(views(hosts@.subrange(0, j as int)), name@),
        decreases hosts@.len() - j,
    {
        let ghost hs = views(hosts@.subrange(0, j + 1));
        proof {
            assert(hs.drop_last() =~= views(hosts@.subrange(0, j as int)));
            assert(hs.last() == hosts@[j as int]@);
        }
        if hosts[j].name != *name {
            let ghost before = kept@;
            kept.push(hosts[j].copy());
            assert(views(kept@) =~= views(before).push(hosts@[j as int]@));
        }
        j = j + 1;
    }
    assert(hosts@.subrange(0, hosts@.len() as int) =~= hosts@);
    generate_config(config, kept.as_slice())
}

/// Removing a name that no host has leaves the hosts as they are.
pub proof fn lemma_remove_absent(hs: Seq<HostV>, name: Seq<char>)
    requires
        !has_name(hs, name),
    ensures
        without_name(hs, name) == hs,
    decreases hs.len(),
{
    if hs.len() > 0 {
        assert(!has_name(hs.drop_last(), name)) by {
            assert forall|j: int| 0 <= j < hs.drop_last().len() implies #[trigger] hs.drop_last()[j].name
                != name by {
                assert(hs[j].name != name);
            }
        }
        lemma_remove_absent(hs.drop_last(), name);
        assert(hs.last().name != name) by {
            assert(hs[hs.len() - 1].name != name);
        }
        assert(hs.drop_last().push(hs.last()) =~= hs);
    }
}

/// Deleting a name that no host of the config has renders the config's own
/// hosts unchanged.
pub proof fn lemma_delete_absent_keeps_hosts(config: Seq<char>, name: Seq<char>)
    requires
        !has_name(parse_spec(config), name),
    ensures
        render_spec(config, without_name(parse_spec(config), name)) == render_spec(
            config,
            parse_spec(config),
        ),
{
    lemma_remove_absent(parse_spec(config), name);
}

/// How a run of the reload command ended.
pub enum ReloadOutcome {
    /// The command ran to its end.
    Exited { success: bool, code: Option<i32>, stderr: String },
    /// The command could not be started.
    NotRun { reason: String },
    /// The command did not finish within the time allowed.
    TimedOut,
}

/// An exit code as `{:?}` writes an `Option<i32>`.
pub open spec fn code_text(code: Option<i32>) -> Seq<char> {
    match code {
        Some(n) => "Some("@ + (if n < 0 {
            "-"@ + decimal((-n) as nat)
        } else {
            decimal(n as nat)
        }) + ")"@,
        None => "None"@,
    }
}

/// The result of a reload: success where the command exited with success,
/// else an error of a kind that tells a failed exit, a command that could not
/// be run and a timeout apart.
pub fn reload_result(outcome: ReloadOutcome) -> (r: Result<(), AppError>)
    ensures
        match outcome {
            ReloadOutcome::Exited { success: true, .. } => r is Ok,
            ReloadOutcome::Exited { success: false, code, stderr } => r matches Err(e) && e.kind
                == ErrorKind::ReloadFailed && e.message@ == "Failed to reload Caddy (exit code: "@
                + code_text(code) + "): "@ + stderr@,
            ReloadOutcome::NotRun { reason } => r matches Err(e) && e.kind == ErrorKind::Io
                && e.message@ == "Failed to execute caddy reload command: "@ + reason@,
            ReloadOutcome::TimedOut => r matches Err(e) && e.kind == ErrorKind::ReloadTimeout
                && e.message@ == "Caddy reload command timed out after 10 seconds"@,
        },
{
    match outcome {
        ReloadOutcome::Exited { success, code, stderr } => {
            if success {
                return Ok(());
            }
            let mut m: Vec<char> = Vec::new();
            push_literal(&mut m, "Failed to reload Caddy (exit code: ");
            match code {
                Some(n) => {
                    push_literal(&mut m, "Some(");
                    if n < 0 {
                        push_literal(&mut m, "-");
                        push_decimal(&mut m, (-(n as i64)) as u64);
                    } else {
                        push_decimal(&mut m, n as u64);
                    }
                    push_literal(&mut m, ")");
                },
                None => push_literal(&mut m, "None"),
            }
            push_literal(&mut m, "): ");
            push_chars(&mut m, &chars_of(stderr.as_str()));
            assert(m@ =~= "Failed to reload Caddy (exit code: "@ + code_text(code) + "): "@
                + stderr@);
            Err(AppError { kind: ErrorKind::ReloadFailed, message: string_of(&m) })
        },
        ReloadOutcome::NotRun { reason } => {
            let mut m: Vec<char> = Vec::new();
            push_literal(&mut m, "Failed to execute caddy reload command: ");
            push_chars(&mut m, &chars_of(reason.as_str()));
            Err(AppError { kind: ErrorKind::Io, message: string_of(&m) })
        },
        ReloadOutcome::TimedOut => Err(
            AppError {
                kind: ErrorKind::ReloadTimeout,
                message: String::from_str("Caddy reload command timed out after 10 seconds"),
            },
        ),
    }
}

} // verus!
