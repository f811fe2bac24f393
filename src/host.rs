//! Host records, the health status and the error type of the registry.
use vstd::prelude::*;

verus! {

/// One reverse-proxy routing entry: requests for `name` go to `scheme://ip:port`.
#[derive(Clone, Debug)]
pub struct Host {
    pub name: String,
    pub ip: String,
    pub port: u16,
    pub scheme: String,
}

/// The mathematical value of a [`Host`].
pub struct HostV {
    pub name: Seq<char>,
    pub ip: Seq<char>,
    pub port: u16,
    pub scheme: Seq<char>,
}

impl View for Host {
    type V = HostV;

    open spec fn view(&self) -> HostV {
        HostV { name: self.name@, ip: self.ip@, port: self.port, scheme: self.scheme@ }
    }
}

/// The values of a sequence of hosts.
pub open spec fn views(v: Seq<Host>) -> Seq<HostV> {
    v.map_values(|h: Host| h@)
}

impl Host {
    pub fn new(name: String, ip: String, port: u16, scheme: String) -> (r: Host)
        ensures
            r@ == (HostV { name: name@, ip: ip@, port, scheme: scheme@ }),
    {
        Host { name, ip, port, scheme }
    }

    /// A copy with the same value.
    pub fn copy(&self) -> (r: Host)
        ensures
            r@ == self@,
    {
        Host {
            name: self.name.clone(),
            ip: self.ip.clone(),
            port: self.port,
            scheme: self.scheme.clone(),
        }
    }
}

/// What the health endpoint reports.
#[derive(Clone, Debug)]
pub struct HealthStatus {
    pub status: String,
    pub caddy_running: bool,
}

/// The health of the service: always "ok", with whether a proxy process id was captured.
pub fn health_check(pid: Option<u32>) -> (r: HealthStatus)
    ensures
        r.status@ == "ok"@,
        r.caddy_running == pid.is_some(),
{
    HealthStatus { status: String::from_str("ok"), caddy_running: pid.is_some() }
}

/// The kinds of failure of the registry operations.
#[derive(Clone, Copy, Debug, PartialEq, Eq, Structural)]
pub enum ErrorKind {
    /// A host of the same name is already registered.
    Conflict,
    /// The config file could not be read or written, or the reload command not run.
    Io,
    /// The config file has no single dynamic region.
    Config,
    /// The reload command exited with a failure.
    ReloadFailed,
    /// The reload command did not finish in time.
    ReloadTimeout,
}

/// An error of the registry, with the message shown to the caller.
#[derive(Clone, Debug)]
pub struct AppError {
    pub kind: ErrorKind,
    pub message: String,
}

/// The HTTP status that an error of kind `k` is answered with.
pub open spec fn status_of(k: ErrorKind) -> u16 {
    match k {
        ErrorKind::Conflict => 409,
        _ => 500,
    }
}

impl AppError {
    /// An I/O failure, carrying the underlying message.
    pub fn io(message: String) -> (r: AppError)
        ensures
            r.kind == ErrorKind::Io,
            r.message@ == message@,
    {
        AppError { kind: ErrorKind::Io, message }
    }

    /// The HTTP status code of this error.
    pub fn status(&self) -> (r: u16)
        ensures
            r == status_of(self.kind),
    {
        match self.kind {
            ErrorKind::Conflict => 409,
            _ => 500,
        }
    }
}

} // verus!
