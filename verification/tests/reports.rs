//! The text the commands print.

use netbat::analysis::ReachabilityResult;
use netbat::ipv4::Ipv4Network;
use netbat::models::{PolicyRule, SecurityPolicy};
use netbat::report::{interfaces_report, reachability_report, shadowed_report, zone_report};

fn rule(name: &str) -> PolicyRule {
    let mut r = PolicyRule::default();
    r.name = name.to_string();
    r
}

fn verdict(action: &str, from: Option<&str>, to: Option<&str>, rule_name: Option<&str>) -> ReachabilityResult {
    ReachabilityResult {
        action: action.to_string(),
        from_zone: from.map(|s| s.to_string()),
        to_zone: to.map(|s| s.to_string()),
        matching_rule: rule_name.map(rule),
    }
}

#[test]
fn reachability_text_upper_cases_the_action() {
    let v = verdict("permit", Some("trust"), Some("untrust"), Some("allow-web"));
    assert_eq!(
        reachability_report(&v, false),
        "Action:  PERMIT\nFrom:    trust\nTo:      untrust\nRule:    allow-web"
    );
    let v = verdict("unknown", None, Some("dmz"), None);
    assert_eq!(reachability_report(&v, false), "Action:  UNKNOWN\nTo:      dmz");
}

#[test]
fn reachability_json_object() {
    let v = verdict("deny", Some("trust"), Some("untrust"), None);
    assert_eq!(
        reachability_report(&v, true),
        "{\"action\": \"deny\", \"from_zone\": \"trust\", \"to_zone\": \"untrust\", \"matching_rule\": null}"
    );
    let v = verdict("permit", None, None, Some("r\"1"));
    assert_eq!(
        reachability_report(&v, true),
        "{\"action\": \"permit\", \"from_zone\": null, \"to_zone\": null, \"matching_rule\": \"r\\\"1\"}"
    );
}

#[test]
fn zone_reports() {
    assert_eq!(zone_report("10.0.0.1", &Some("trust".to_string()), false), "trust");
    assert_eq!(zone_report("10.0.0.1", &None, false), "(not in any zone)");
    assert_eq!(
        zone_report("10.0.0.1", &Some("trust".to_string()), true),
        "{\"ip\": \"10.0.0.1\", \"zone\": \"trust\"}"
    );
    assert_eq!(zone_report("1.2.3.4", &None, true), "{\"ip\": \"1.2.3.4\", \"zone\": null}");
}

#[test]
fn shadowed_reports() {
    let sp = SecurityPolicy {
        from_zone: "trust".to_string(),
        to_zone: "untrust".to_string(),
        rules: vec![rule("any-any"), rule("web")],
    };
    let refs = vec![(&sp, &sp.rules[1])];
    assert_eq!(shadowed_report(&refs, false), "trust \u{2192} untrust: rule 'web' is shadowed");
    assert_eq!(
        shadowed_report(&refs, true),
        "[{\"from_zone\": \"trust\", \"to_zone\": \"untrust\", \"rule\": \"web\"}]"
    );
    let two = vec![(&sp, &sp.rules[1]), (&sp, &sp.rules[0])];
    assert_eq!(
        shadowed_report(&two, false),
        "trust \u{2192} untrust: rule 'web' is shadowed\ntrust \u{2192} untrust: rule 'any-any' is shadowed"
    );
    let none: Vec<(&SecurityPolicy, &PolicyRule)> = Vec::new();
    assert_eq!(shadowed_report(&none, false), "No shadowed rules found.");
    assert_eq!(shadowed_report(&none, true), "[]");
}

#[test]
fn interfaces_reports() {
    let ips = vec![
        ("ge-0/0/0".to_string(), "0".to_string(), Ipv4Network::parse("10.0.0.1/24").unwrap()),
        ("ge-0/0/1".to_string(), "1234".to_string(), Ipv4Network::parse("192.168.1.1/32").unwrap()),
    ];
    assert_eq!(
        interfaces_report(&ips, false),
        "ge-0/0/0.0     10.0.0.0/24\nge-0/0/1.1234  192.168.1.1/32"
    );
    assert_eq!(
        interfaces_report(&ips, true),
        "[{\"interface\": \"ge-0/0/0\", \"unit\": \"0\", \"network\": \"10.0.0.0/24\"}, \
         {\"interface\": \"ge-0/0/1\", \"unit\": \"1234\", \"network\": \"192.168.1.1/32\"}]"
    );
    let none: Vec<(String, String, Ipv4Network)> = Vec::new();
    assert_eq!(interfaces_report(&none, false), "No interfaces configured.");
    assert_eq!(interfaces_report(&none, true), "[]");
}
