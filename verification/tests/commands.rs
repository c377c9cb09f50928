//! Argument handling and JSON rendering.

use netbat::cli::{json_opt, json_str, parse_args};

fn args(items: &[&str]) -> Vec<String> {
    items.iter().map(|s| s.to_string()).collect()
}

#[test]
fn defaults() {
    let p = parse_args(&args(&["fw.conf", "1.2.3.4"])).ok().unwrap();
    assert_eq!(p.positionals, args(&["fw.conf", "1.2.3.4"]));
    assert!(!p.json);
    assert_eq!(p.protocol, "tcp");
    assert_eq!(p.port, None);
}

#[test]
fn options_anywhere() {
    let p = parse_args(&args(&["--json", "a", "--port", "443", "b", "--protocol", "udp", "c"]))
        .ok()
        .unwrap();
    assert_eq!(p.positionals, args(&["a", "b", "c"]));
    assert!(p.json);
    assert_eq!(p.protocol, "udp");
    assert_eq!(p.port, Some(443));
}

#[test]
fn last_port_wins() {
    let p = parse_args(&args(&["--port", "1", "--port", "65535"])).ok().unwrap();
    assert_eq!(p.port, Some(65535));
}

#[test]
fn invalid_port() {
    assert_eq!(
        parse_args(&args(&["--port", "http"])).err(),
        Some("error: invalid port: http".to_string())
    );
    assert_eq!(
        parse_args(&args(&["--port", "65536"])).err(),
        Some("error: invalid port: 65536".to_string())
    );
}

#[test]
fn missing_option_values() {
    assert_eq!(
        parse_args(&args(&["x", "--port"])).err(),
        Some("error: --port requires a value".to_string())
    );
    assert_eq!(
        parse_args(&args(&["--protocol"])).err(),
        Some("error: --protocol requires a value".to_string())
    );
}

#[test]
fn json_escaping() {
    assert_eq!(json_str("plain"), "\"plain\"");
    assert_eq!(json_str("a\"b\\c"), "\"a\\\"b\\\\c\"");
    assert_eq!(json_str("l1\nl2\r\t"), "\"l1\\nl2\\r\\t\"");
    assert_eq!(json_str("\u{1}\u{1f}"), "\"\\u0001\\u001f\"");
    assert_eq!(json_str("\u{2192}"), "\"\u{2192}\"");
}

#[test]
fn json_optional() {
    assert_eq!(json_opt(None), "null");
    assert_eq!(json_opt(Some("trust")), "\"trust\"");
}

#[test]
fn later_options_replace_earlier_ones() {
    let p = parse_args(&args(&["a", "--protocol", "udp", "b", "--protocol", "icmp", "--json", "--json"]))
        .ok()
        .unwrap();
    assert_eq!(p.protocol, "icmp");
    assert_eq!(p.positionals, args(&["a", "b"]));
    assert!(p.json);
    assert_eq!(
        parse_args(&args(&["--port", "80", "--port", "x"])).err(),
        Some("error: invalid port: x".to_string())
    );
    assert_eq!(
        parse_args(&args(&["--port", "+80"])).ok().unwrap().port,
        Some(80)
    );
}

#[test]
fn option_word_after_option_is_its_value() {
    let p = parse_args(&args(&["--protocol", "--json"])).ok().unwrap();
    assert_eq!(p.protocol, "--json");
    assert!(!p.json);
}

#[test]
fn scan_skips_option_values() {
    // "--port" here is the value of --protocol, so no port is read.
    let p = parse_args(&args(&["--protocol", "--port", "x"])).ok().unwrap();
    assert_eq!(p.protocol, "--port");
    assert_eq!(p.port, None);
    assert_eq!(p.positionals, args(&["x"]));
    // A failing --port after an earlier good one still fails.
    assert_eq!(
        parse_args(&args(&["--port", "22", "y", "--port"])).err(),
        Some("error: --port requires a value".to_string())
    );
}
