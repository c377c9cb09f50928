//! Reachability, zone and shadowing queries on small configurations.

use netbat::analysis::{interface_ips, reachability, shadowed_rule_refs, shadowed_rules, zone_of_ip};
use netbat::builder::build_network_config;
use netbat::models::NetworkConfig;

const CONFIG: &str = r#"
interfaces {
    ge-0/0/0 { unit 0 { family inet { address 10.1.0.1/16; } } }
    ge-0/0/1 { unit 0 { family { inet { address 10.2.0.1/16; } } } }
    ge-0/0/2 { unit 5 { family inet { address 10.3.0.1/16; } } }
}
security {
    address-book {
        global {
            address partner 10.2.9.9/32;
            address-set partners { address partner; }
        }
    }
    zones {
        security-zone inside { interfaces { ge-0/0/0.0; } }
        security-zone outside { interfaces { ge-0/0/1.0; } }
        security-zone dmz {
            interfaces { ge-0/0/2.5; }
            address-book { address web 10.3.0.80/32; }
        }
    }
    policies {
        from-zone inside to-zone outside {
            policy web-range {
                match { source-address any; destination-address any; application alt-web; }
                then { log; reject; permit; }
            }
            policy to-partner {
                match { source-address any; destination-address partners; application web-set; }
                then { permit; }
            }
        }
        from-zone outside to-zone dmz {
            policy to-web {
                match { source-address any; destination-address web; application [junos-https junos-ping]; }
                then { permit; }
            }
            policy icmp-anywhere {
                match { source-address any; destination-address any; application junos-ping; }
                then { permit; }
            }
        }
    }
}
applications {
    application alt-web { protocol tcp; destination-port 8000-8080; }
    application-set web-set { application junos-http; application junos-https; }
}
"#;

fn nc() -> NetworkConfig {
    build_network_config(CONFIG)
}

#[test]
fn nested_family_block_addresses_count() {
    assert_eq!(zone_of_ip(&nc(), "10.2.3.4").unwrap().as_deref(), Some("outside"));
    assert_eq!(zone_of_ip(&nc(), "10.3.3.4").unwrap().as_deref(), Some("dmz"));
}

#[test]
fn invalid_query_addresses_are_errors() {
    assert_eq!(
        zone_of_ip(&nc(), "10.2.3").unwrap_err(),
        "invalid IPv4 address: 10.2.3"
    );
    assert_eq!(
        reachability(&nc(), "bad", "also-bad", "tcp", None).unwrap_err(),
        "invalid IPv4 address: bad"
    );
    assert_eq!(
        reachability(&nc(), "10.1.0.5", "also-bad", "tcp", None).unwrap_err(),
        "invalid IPv4 address: also-bad"
    );
}

#[test]
fn port_range_matches_inclusively() {
    for (port, action) in [(8000, "reject"), (8080, "reject"), (8081, "deny"), (7999, "deny")] {
        let r = reachability(&nc(), "10.1.0.5", "10.2.0.5", "tcp", Some(port)).unwrap();
        assert_eq!(r.action, action, "port {port}");
    }
}

#[test]
fn first_action_in_then_block_wins() {
    let r = reachability(&nc(), "10.1.0.5", "10.2.0.5", "tcp", Some(8000)).unwrap();
    assert_eq!(r.action, "reject");
    let rule = r.matching_rule.unwrap();
    assert_eq!(rule.name, "web-range");
    assert_eq!(rule.action, r.action);
}

#[test]
fn missing_port_matches_any_port() {
    let r = reachability(&nc(), "10.1.0.5", "10.2.0.5", "tcp", None).unwrap();
    assert_eq!(r.matching_rule.unwrap().name, "web-range");
}

#[test]
fn wrong_protocol_does_not_match() {
    let r = reachability(&nc(), "10.1.0.5", "10.2.0.5", "udp", Some(8000)).unwrap();
    assert_eq!(r.action, "deny");
    assert!(r.matching_rule.is_none());
}

#[test]
fn global_address_set_and_application_set() {
    let r = reachability(&nc(), "10.1.0.5", "10.2.9.9", "tcp", Some(443)).unwrap();
    assert_eq!(r.matching_rule.unwrap().name, "to-partner");
    let r = reachability(&nc(), "10.1.0.5", "10.2.9.8", "tcp", Some(443)).unwrap();
    assert_eq!(r.action, "deny");
}

#[test]
fn zone_address_book_and_bracketed_applications() {
    let r = reachability(&nc(), "10.2.0.5", "10.3.0.80", "tcp", Some(443)).unwrap();
    assert_eq!(r.matching_rule.unwrap().name, "to-web");
    let r = reachability(&nc(), "10.2.0.5", "10.3.0.81", "tcp", Some(443)).unwrap();
    assert_eq!(r.action, "deny");
    let r = reachability(&nc(), "10.2.0.5", "10.3.0.81", "icmp", None).unwrap();
    assert_eq!(r.matching_rule.unwrap().name, "icmp-anywhere");
}

#[test]
fn verdicts_report_zones() {
    let r = reachability(&nc(), "10.1.0.5", "10.9.0.1", "tcp", Some(80)).unwrap();
    assert_eq!(r.action, "unknown");
    assert_eq!(r.from_zone.as_deref(), Some("inside"));
    assert_eq!(r.to_zone, None);
    let r = reachability(&nc(), "10.3.0.5", "10.3.0.6", "tcp", Some(80)).unwrap();
    assert_eq!(r.action, "permit");
    assert_eq!(r.from_zone.as_deref(), Some("dmz"));
    assert_eq!(r.to_zone.as_deref(), Some("dmz"));
    assert!(r.matching_rule.is_none());
    let r = reachability(&nc(), "10.2.0.5", "10.1.0.5", "tcp", Some(80)).unwrap();
    assert_eq!(r.action, "deny");
    assert!(r.matching_rule.is_none());
}

#[test]
fn interface_listing_order_and_units() {
    let ips = interface_ips(&nc());
    let got: Vec<(String, String, String)> = ips
        .iter()
        .map(|(i, u, n)| (i.clone(), u.clone(), n.to_string()))
        .collect();
    assert_eq!(
        got,
        vec![
            ("ge-0/0/0".to_string(), "0".to_string(), "10.1.0.0/16".to_string()),
            ("ge-0/0/1".to_string(), "0".to_string(), "10.2.0.0/16".to_string()),
            ("ge-0/0/2".to_string(), "5".to_string(), "10.3.0.0/16".to_string()),
        ]
    );
}

#[test]
fn shadowed_indices_exact() {
    let config = r#"
    security {
        policies {
            from-zone a to-zone b {
                policy p0 { match { source-address any; destination-address any; application any; } then { deny; } }
                policy p1 { match { source-address x; destination-address any; application any; } then { permit; } }
                policy p2 { match { source-address any; destination-address any; application any; } then { permit; } }
            }
            from-zone b to-zone a {
                policy q0 { match { source-address any; destination-address any; application junos-ssh; } then { permit; } }
                policy q1 { match { source-address any; destination-address any; application [any any]; } then { permit; } }
                policy q2 { match { source-address any; destination-address any; application any; } then { permit; } }
                policy q3 { match { source-address any; destination-address any; application any; } then { permit; } }
            }
        }
    }
    "#;
    let nc = build_network_config(config);
    assert_eq!(shadowed_rules(&nc), vec![(0, 1), (0, 2), (1, 3)]);
    let names: Vec<String> = shadowed_rule_refs(&nc).iter().map(|(_, r)| r.name.clone()).collect();
    assert_eq!(names, vec!["p1", "p2", "q3"]);
}

#[test]
fn later_declarations_replace_earlier_ones() {
    let config = r#"
    interfaces {
        ge-0/0/0 { unit 0 { family inet { address 10.0.0.1/24; } } }
        ge-0/0/1 { unit 0 { family inet { address 10.1.0.1/24; } } }
        ge-0/0/0 { description "second"; unit 0 { family inet { address 10.5.0.1/24; } } }
    }
    "#;
    let nc = build_network_config(config);
    assert_eq!(nc.interface_order, vec!["ge-0/0/0".to_string(), "ge-0/0/1".to_string()]);
    let first = nc.interfaces.get("ge-0/0/0").unwrap();
    assert_eq!(first.description.as_deref(), Some("second"));
    let ips: Vec<String> = interface_ips(&nc).iter().map(|(_, _, n)| n.to_string()).collect();
    assert_eq!(ips, vec!["10.5.0.0/24".to_string(), "10.1.0.0/24".to_string()]);
}

#[test]
fn units_without_family_and_bad_addresses_are_skipped() {
    let config = r#"
    interfaces {
        ge-0/0/0 {
            description multi word text;
            unit 0 { vlan-id 5; }
            unit 1 { family inet { address 10.0.0.1/40; address bogus; address 10.0.1.1/24; } }
        }
        leaf-only;
    }
    "#;
    let nc = build_network_config(config);
    assert_eq!(nc.interface_order, vec!["ge-0/0/0".to_string()]);
    let iface = nc.interfaces.get("ge-0/0/0").unwrap();
    assert_eq!(iface.description.as_deref(), Some("multi word text"));
    assert_eq!(iface.unit_order, vec!["1".to_string()]);
    assert_eq!(iface.units.get("1").unwrap().ipv4_addresses.len(), 1);
}

const OVERLAP: &str = r#"
interfaces {
    ge-0/0/0 { unit 0 { family inet { address 10.0.0.1/8; } } }
    ge-0/0/1 { unit 0 { family inet { address 10.1.0.1/16; } } }
    ge-0/0/2 { unit 0 { family inet { address 10.2.0.1/16; } } }
}
security {
    zones {
        security-zone narrow { interfaces { ge-0/0/1.0; } }
        security-zone wide { interfaces { ge-0/0/0.0; ge-0/0/1.0; } }
    }
}
"#;

#[test]
fn zone_comes_from_first_listed_subnet() {
    let nc = build_network_config(OVERLAP);
    // 10.1.2.3 is in ge-0/0/0's /8 first (interface order), which only "wide" lists.
    assert_eq!(zone_of_ip(&nc, "10.1.2.3"), Ok(Some("wide".to_string())));
    // ge-0/0/2 is listed by no zone; the earlier /8 still decides.
    assert_eq!(zone_of_ip(&nc, "10.2.0.9"), Ok(Some("wide".to_string())));
    assert_eq!(zone_of_ip(&nc, "11.0.0.1"), Ok(None));
    assert_eq!(
        zone_of_ip(&nc, "10.1.2"),
        Err("invalid IPv4 address: 10.1.2".to_string())
    );
}

#[test]
fn first_zone_listing_a_unit_names_it() {
    let text = OVERLAP.replace("ge-0/0/0 { unit 0 { family inet { address 10.0.0.1/8; } } }", "");
    let nc = build_network_config(&text);
    assert_eq!(zone_of_ip(&nc, "10.1.2.3"), Ok(Some("narrow".to_string())));
}

#[test]
fn reordered_interface_order_is_followed() {
    let mut nc = build_network_config(OVERLAP);
    nc.interface_order.reverse();
    let names: Vec<String> = nc.interfaces_ordered().iter().map(|i| i.name.clone()).collect();
    assert_eq!(names, vec!["ge-0/0/2".to_string(), "ge-0/0/1".to_string(), "ge-0/0/0".to_string()]);
}
