use std::time::Duration;

use whois42d_ng::server::listener_plan;
use whois42d_ng::server::{Options, idle_expired, parse_address, parse_rdap_path, parse_timeout};

#[test]
fn parses_daemon_options() {
    assert_eq!(parse_address("127.0.0.1"), Ok("127.0.0.1".to_string()));
    assert_eq!(parse_timeout("5"), Ok(Duration::from_secs(5)));
    let options = Options {
        address: parse_address("127.0.0.1").unwrap(),
        port: 4343,
        timeout: parse_timeout("5").unwrap(),
        ..Options::default()
    };

    assert_eq!(options.address, "127.0.0.1");
    assert_eq!(options.port, 4343);
    assert_eq!(options.timeout, Duration::from_secs(5));
    assert_eq!(options.listen_addr(), "127.0.0.1:4343");
}

#[test]
fn parses_rdap_options() {
    let options = Options {
        rdap_address: parse_address("::1").unwrap(),
        rdap_port: 8443,
        rdap_base_url: "https://rdap.example.dn42".to_string(),
        rdap_path: parse_rdap_path("/").unwrap(),
        ..Options::default()
    };

    assert_eq!(options.rdap_address, "::1");
    assert_eq!(options.rdap_port, 8443);
    assert_eq!(options.rdap_base_url, "https://rdap.example.dn42");
    assert_eq!(options.rdap_path, "/");
    assert_eq!(options.rdap_listen_addr(), "[::1]:8443");
}

#[test]
fn rdap_defaults_are_disabled() {
    let options = Options::default();

    assert_eq!(options.rdap_address, "");
    assert_eq!(options.rdap_port, 0);
    assert_eq!(options.rdap_base_url, "");
    assert_eq!(options.rdap_path, "/rdap");
    assert!(!options.rdap_enabled());
}

#[test]
fn rejects_star_rdap_address() {
    let err = parse_address("*").expect_err("star bind address should be rejected");

    assert!(err.contains("'*' is not supported"));
}

#[test]
fn rejects_relative_rdap_path() {
    let err = parse_rdap_path("rdap").expect_err("relative rdap path should be rejected");

    assert!(err.contains("path must start with '/'"));
}

#[test]
fn daemon_defaults() {
    let options = Options::default();
    assert_eq!(options.address, "");
    assert_eq!(options.port, 43);
    assert_eq!(options.timeout, Duration::from_secs(10));
    assert_eq!(options.registry, std::path::PathBuf::from("."));
    assert_eq!(options.listen_addr(), "127.0.0.1:43");
    assert_eq!(options.rdap_listen_addr(), "127.0.0.1:0");
}

#[test]
fn ipv6_listen_addresses_are_bracketed() {
    let options = Options { address: "::".to_string(), port: 4343, ..Options::default() };
    assert_eq!(options.listen_addr(), "[::]:4343");
    let options = Options { address: "0.0.0.0".to_string(), port: 65535, ..Options::default() };
    assert_eq!(options.listen_addr(), "0.0.0.0:65535");
}

#[test]
fn timeout_must_be_a_number_of_seconds() {
    assert_eq!(parse_timeout("ten"), Err("invalid timeout".to_string()));
    assert_eq!(parse_timeout(""), Err("invalid timeout".to_string()));
    assert_eq!(parse_timeout("-1"), Err("invalid timeout".to_string()));
    assert_eq!(parse_timeout("+7"), Ok(Duration::from_secs(7)));
    assert_eq!(parse_timeout("18446744073709551615"), Ok(Duration::from_secs(u64::MAX)));
    assert_eq!(parse_timeout("18446744073709551616"), Err("invalid timeout".to_string()));
}

#[test]
fn star_is_refused_with_full_message() {
    assert_eq!(
        parse_address("*"),
        Err("'*' is not supported; use 0.0.0.0 or :: to bind all interfaces".to_string())
    );
    assert_eq!(parse_address(""), Ok(String::new()));
    assert_eq!(parse_rdap_path(""), Err("path must start with '/'".to_string()));
    assert_eq!(parse_rdap_path("/x/"), Ok("/x/".to_string()));
}

#[test]
fn rdap_listener_is_on_for_a_nonzero_port() {
    let options = Options { rdap_port: 1080, ..Options::default() };
    assert!(options.rdap_enabled());
}

#[test]
fn zero_idle_timeout_never_expires() {
    assert!(!idle_expired(0, u128::MAX));
    assert!(idle_expired(10, 10));
    assert!(!idle_expired(10, 9));
}

#[test]
fn listener_plans() {
    let options = Options { rdap_port: 1080, rdap_base_url: "https://x".to_string(), ..Options::default() };
    let plan = listener_plan(&options, 0, 0);
    assert_eq!(plan.bind_whois.as_deref(), Some("127.0.0.1:43"));
    assert_eq!(plan.bind_rdap.as_deref(), Some("127.0.0.1:1080"));
    assert_eq!(plan.idle_timeout, None);
    assert_eq!(plan.rdap_base_url.as_deref(), Some("https://x"));
    let plan = listener_plan(&Options::default(), 2, 1);
    assert_eq!(plan.bind_whois, None);
    assert_eq!(plan.bind_rdap, None);
    assert_eq!(plan.idle_timeout, Some(Duration::from_secs(10)));
    assert_eq!(plan.rdap_base_url, None);
    let plan = listener_plan(&Options::default(), 0, 0);
    assert_eq!(plan.bind_rdap, None);
}
