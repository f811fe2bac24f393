use caddy_admin::codec::{generate_config, parse_config};
use caddy_admin::host::{ErrorKind, Host};

fn host(name: &str, ip: &str, port: u16, scheme: &str) -> Host {
    Host::new(name.to_string(), ip.to_string(), port, scheme.to_string())
}

const EMPTY_DOC: &str =
    "{\n    admin off\n}\n\n# --- START DYNAMIC CONFIG ---\n# --- END DYNAMIC CONFIG ---\n";

#[test]
fn port_443_without_prefix_is_https() {
    let hosts = parse_config("a.example.com {\n    reverse_proxy 10.0.0.1:443\n}\n");
    assert_eq!(hosts.len(), 1);
    assert_eq!(hosts[0].name, "a.example.com");
    assert_eq!(hosts[0].ip, "10.0.0.1");
    assert_eq!(hosts[0].port, 443);
    assert_eq!(hosts[0].scheme, "https");
}

#[test]
fn explicit_http_prefix_wins_over_port() {
    let hosts = parse_config("b.example.com {\n    reverse_proxy http://10.0.0.1:9000\n}\n");
    assert_eq!(hosts.len(), 1);
    assert_eq!(hosts[0].port, 9000);
    assert_eq!(hosts[0].scheme, "http");
    let hosts = parse_config("b.example.com {\n    reverse_proxy http://10.0.0.1:443\n}\n");
    assert_eq!(hosts[0].scheme, "http");
}

#[test]
fn explicit_https_prefix() {
    let hosts = parse_config("c.example.com {\n    reverse_proxy https://backend:8443\n}\n");
    assert_eq!(hosts[0].ip, "backend");
    assert_eq!(hosts[0].port, 8443);
    assert_eq!(hosts[0].scheme, "https");
}

#[test]
fn tls_in_block_means_https() {
    let hosts = parse_config("d.example.com {\n    tls internal\n    reverse_proxy 10.0.0.1:8080\n}\n");
    assert_eq!(hosts.len(), 1);
    assert_eq!(hosts[0].port, 8080);
    assert_eq!(hosts[0].scheme, "https");
}

#[test]
fn plain_port_means_http() {
    let hosts = parse_config("e.example.com {\n    reverse_proxy 10.0.0.1:8080\n}\n");
    assert_eq!(hosts[0].scheme, "http");
}

#[test]
fn oversized_port_defaults_to_80() {
    let hosts = parse_config("f.example.com {\n    reverse_proxy 10.0.0.1:99999\n}\n");
    assert_eq!(hosts.len(), 1);
    assert_eq!(hosts[0].port, 80);
}

#[test]
fn blocks_are_read_in_document_order() {
    let doc = "x.io {\n  reverse_proxy 1.1.1.1:1\n}\ny.io {\n  reverse_proxy 2.2.2.2:2\n}\n";
    let hosts = parse_config(doc);
    assert_eq!(hosts.len(), 2);
    assert_eq!(hosts[0].name, "x.io");
    assert_eq!(hosts[1].name, "y.io");
    assert_eq!(hosts[1].ip, "2.2.2.2");
    assert_eq!(hosts[1].port, 2);
}

#[test]
fn blocks_without_target_are_skipped() {
    let doc = "{\n    admin off\n}\nstatic.io {\n    file_server\n}\n";
    assert_eq!(parse_config(doc).len(), 0);
    assert_eq!(parse_config("").len(), 0);
}

#[test]
fn render_writes_fixed_blocks_into_region() {
    let hosts = vec![host("a.example.com", "127.0.0.1", 9000, "http")];
    let out = generate_config(EMPTY_DOC, &hosts).unwrap();
    let expected = "{\n    admin off\n}\n\n# --- START DYNAMIC CONFIG ---\na.example.com {\n    reverse_proxy http://127.0.0.1:9000 {\n        header_up Host {upstream_hostport}\n    }\n}\n# --- END DYNAMIC CONFIG ---\n";
    assert_eq!(out, expected);
}

#[test]
fn render_of_no_hosts_empties_region() {
    let doc = "pre\n# --- START DYNAMIC CONFIG ---\nold stuff\n# --- END DYNAMIC CONFIG ---\npost";
    let out = generate_config(doc, &[]).unwrap();
    assert_eq!(out, "pre\n# --- START DYNAMIC CONFIG ---\n\n# --- END DYNAMIC CONFIG ---\npost");
}

#[test]
fn render_then_parse_gives_hosts_back() {
    let hosts = vec![
        host("a.example.com", "127.0.0.1", 9000, "http"),
        host("b.example.com", "10.0.0.2", 443, "https"),
        host("c.example.com", "backend", 1, "http"),
    ];
    let out = generate_config(EMPTY_DOC, &hosts).unwrap();
    let back = parse_config(&out);
    assert_eq!(back.len(), 3);
    for i in 0..3 {
        assert_eq!(back[i].name, hosts[i].name);
        assert_eq!(back[i].ip, hosts[i].ip);
        assert_eq!(back[i].port, hosts[i].port);
        assert_eq!(back[i].scheme, hosts[i].scheme);
    }
}

#[test]
fn missing_marker_is_config_error() {
    let hosts = vec![host("a.example.com", "127.0.0.1", 9000, "http")];
    let e = generate_config("# --- START DYNAMIC CONFIG ---\n", &hosts).unwrap_err();
    assert_eq!(e.kind, ErrorKind::Config);
    assert_eq!(e.status(), 500);
}

#[test]
fn duplicated_marker_is_config_error() {
    let doc = "# --- START DYNAMIC CONFIG ---\n# --- END DYNAMIC CONFIG ---\n# --- END DYNAMIC CONFIG ---\n";
    assert_eq!(generate_config(doc, &[]).unwrap_err().kind, ErrorKind::Config);
}

#[test]
fn reversed_markers_are_config_error() {
    let doc = "# --- END DYNAMIC CONFIG ---\n# --- START DYNAMIC CONFIG ---\n";
    assert_eq!(generate_config(doc, &[]).unwrap_err().kind, ErrorKind::Config);
}

#[test]
fn largest_port_and_leading_zeros() {
    let hosts = parse_config("g.io {\n  reverse_proxy 10.0.0.1:65535\n}\nh.io {\n  reverse_proxy 10.0.0.1:0080\n}\ni.io {\n  reverse_proxy 10.0.0.1:65536\n}\n");
    assert_eq!(hosts.len(), 3);
    assert_eq!(hosts[0].port, 65535);
    assert_eq!(hosts[1].port, 80);
    assert_eq!(hosts[2].port, 80);
}

#[test]
fn last_directive_before_closing_brace_is_used() {
    let doc = "j.io {\n  reverse_proxy 10.0.0.1:1000\n  reverse_proxy 10.0.0.2:2000\n}\n";
    let hosts = parse_config(doc);
    assert_eq!(hosts.len(), 1);
    assert_eq!(hosts[0].ip, "10.0.0.2");
    assert_eq!(hosts[0].port, 2000);
}

#[test]
fn unicode_space_separates_label_and_brace() {
    let hosts = parse_config("k.io\u{3000}{\n  reverse_proxy\u{a0}10.0.0.1:7\n}\n");
    assert_eq!(hosts.len(), 1);
    assert_eq!(hosts[0].name, "k.io");
    assert_eq!(hosts[0].port, 7);
}

#[test]
fn render_port_zero_and_max_round_trip() {
    let hosts = vec![host("z.io", "h1", 0, "https"), host("y.io", "h2", 65535, "http")];
    let out = generate_config(EMPTY_DOC, &hosts).unwrap();
    let back = parse_config(&out);
    assert_eq!(back.len(), 2);
    assert_eq!(back[0].port, 0);
    assert_eq!(back[0].scheme, "https");
    assert_eq!(back[1].port, 65535);
}
