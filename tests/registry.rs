use caddy_admin::host::{health_check, AppError, ErrorKind, Host};
use caddy_admin::registry::{add_host, delete_host, get_hosts, reload_result, ReloadOutcome};

const EMPTY_DOC: &str =
    "{\n    admin off\n}\n\n# --- START DYNAMIC CONFIG ---\n# --- END DYNAMIC CONFIG ---\n";

fn host(name: &str, ip: &str, port: u16, scheme: &str) -> Host {
    Host::new(name.to_string(), ip.to_string(), port, scheme.to_string())
}

#[test]
fn add_list_remove_end_to_end() {
    let added = add_host(EMPTY_DOC, host("a.example.com", "127.0.0.1", 9000, "http")).unwrap();
    let hosts = get_hosts(&added);
    assert_eq!(hosts.len(), 1);
    assert_eq!(hosts[0].name, "a.example.com");
    assert_eq!(hosts[0].ip, "127.0.0.1");
    assert_eq!(hosts[0].port, 9000);
    assert_eq!(hosts[0].scheme, "http");
    let removed = delete_host(&added, &"a.example.com".to_string()).unwrap();
    assert_eq!(get_hosts(&removed).len(), 0);
    assert_eq!(removed, "{\n    admin off\n}\n\n# --- START DYNAMIC CONFIG ---\n\n# --- END DYNAMIC CONFIG ---\n");
}

#[test]
fn add_of_taken_name_is_conflict() {
    let once = add_host(EMPTY_DOC, host("a.example.com", "127.0.0.1", 9000, "http")).unwrap();
    let e = add_host(&once, host("a.example.com", "10.0.0.9", 80, "http")).unwrap_err();
    assert_eq!(e.kind, ErrorKind::Conflict);
    assert_eq!(e.status(), 409);
    assert_eq!(e.message, "Host with name 'a.example.com' already exists");
}

#[test]
fn add_keeps_earlier_hosts_in_order() {
    let one = add_host(EMPTY_DOC, host("a.example.com", "127.0.0.1", 9000, "http")).unwrap();
    let two = add_host(&one, host("b.example.com", "127.0.0.2", 443, "https")).unwrap();
    let hosts = get_hosts(&two);
    assert_eq!(hosts.len(), 2);
    assert_eq!(hosts[0].name, "a.example.com");
    assert_eq!(hosts[1].name, "b.example.com");
    assert_eq!(hosts[1].scheme, "https");
}

#[test]
fn remove_of_absent_name_keeps_hosts() {
    let one = add_host(EMPTY_DOC, host("a.example.com", "127.0.0.1", 9000, "http")).unwrap();
    let after = delete_host(&one, &"zzz.example.com".to_string()).unwrap();
    assert_eq!(after, one);
    assert_eq!(get_hosts(&after).len(), 1);
}

#[test]
fn add_without_region_is_config_error() {
    let e = add_host("nothing here", host("a.example.com", "127.0.0.1", 9000, "http")).unwrap_err();
    assert_eq!(e.kind, ErrorKind::Config);
}

#[test]
fn reload_success_is_ok() {
    let r = reload_result(ReloadOutcome::Exited { success: true, code: Some(0), stderr: String::new() });
    assert!(r.is_ok());
}

#[test]
fn reload_failure_carries_code_and_stderr() {
    let r = reload_result(ReloadOutcome::Exited {
        success: false,
        code: Some(1),
        stderr: "bad config".to_string(),
    });
    let e = r.unwrap_err();
    assert_eq!(e.kind, ErrorKind::ReloadFailed);
    assert_eq!(e.message, "Failed to reload Caddy (exit code: Some(1)): bad config");
    let e = reload_result(ReloadOutcome::Exited { success: false, code: Some(-12), stderr: String::new() })
        .unwrap_err();
    assert_eq!(e.message, "Failed to reload Caddy (exit code: Some(-12)): ");
    let e = reload_result(ReloadOutcome::Exited { success: false, code: None, stderr: "x".to_string() })
        .unwrap_err();
    assert_eq!(e.message, "Failed to reload Caddy (exit code: None): x");
}

#[test]
fn reload_timeout_is_its_own_kind() {
    let e = reload_result(ReloadOutcome::TimedOut).unwrap_err();
    assert_eq!(e.kind, ErrorKind::ReloadTimeout);
    assert_ne!(e.kind, ErrorKind::ReloadFailed);
    assert_eq!(e.status(), 500);
    assert_eq!(e.message, "Caddy reload command timed out after 10 seconds");
}

#[test]
fn reload_not_run_is_io_error() {
    let e = reload_result(ReloadOutcome::NotRun { reason: "not found".to_string() }).unwrap_err();
    assert_eq!(e.kind, ErrorKind::Io);
    assert_eq!(e.message, "Failed to execute caddy reload command: not found");
}

#[test]
fn health_reports_captured_pid() {
    let h = health_check(Some(42));
    assert_eq!(h.status, "ok");
    assert!(h.caddy_running);
    assert!(!health_check(None).caddy_running);
}

#[test]
fn io_error_keeps_message() {
    let e = AppError::io("disk full".to_string());
    assert_eq!(e.kind, ErrorKind::Io);
    assert_eq!(e.message, "disk full");
    assert_eq!(e.status(), 500);
}
