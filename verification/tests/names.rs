//! Name-keyed collections, interface units and address resolution.

use netbat::applications::junos_applications;
use netbat::ipv4::Ipv4Network;
use netbat::models::{Address, AddressBook, AddressSet, Interface, InterfaceUnit};
use netbat::name_map::NameMap;

fn net(s: &str) -> Ipv4Network {
    Ipv4Network::parse(s).unwrap()
}

fn set(name: &str, members: &[&str]) -> AddressSet {
    AddressSet {
        name: name.to_string(),
        members: members.iter().map(|m| m.to_string()).collect(),
    }
}

fn addr(name: &str, prefix: &str) -> Address {
    Address {
        name: name.to_string(),
        prefix: net(prefix),
    }
}

#[test]
fn read_after_write() {
    let mut m: NameMap<InterfaceUnit> = NameMap::new();
    assert!(m.is_empty());
    m.insert(
        "a".to_string(),
        InterfaceUnit {
            unit_id: "a".to_string(),
            ipv4_addresses: vec![net("10.0.0.0/8")],
        },
    );
    assert!(m.contains_key("a"));
    assert!(!m.contains_key("b"));
    assert_eq!(m.get("a").unwrap().ipv4_addresses, vec![net("10.0.0.0/8")]);
    assert!(m.get("b").is_none());
}

#[test]
fn insert_replaces_in_place() {
    let mut m: NameMap<InterfaceUnit> = NameMap::new();
    for (k, p) in [("x", "1.0.0.0/8"), ("y", "2.0.0.0/8"), ("x", "3.0.0.0/8")] {
        m.insert(
            k.to_string(),
            InterfaceUnit {
                unit_id: k.to_string(),
                ipv4_addresses: vec![net(p)],
            },
        );
    }
    assert_eq!(m.len(), 2);
    assert_eq!(m.key_at(0), "x");
    assert_eq!(m.key_at(1), "y");
    assert_eq!(m.value_at(0).ipv4_addresses, vec![net("3.0.0.0/8")]);
}

#[test]
fn reinserting_a_unit_keeps_a_single_order_entry() {
    let mut iface = Interface {
        name: "ge-0/0/0".to_string(),
        ..Default::default()
    };
    iface.insert_unit(InterfaceUnit {
        unit_id: "0".to_string(),
        ipv4_addresses: vec![net("10.0.0.1/32")],
    });
    iface.insert_unit(InterfaceUnit {
        unit_id: "1".to_string(),
        ipv4_addresses: vec![net("10.0.0.2/32")],
    });
    iface.insert_unit(InterfaceUnit {
        unit_id: "0".to_string(),
        ipv4_addresses: vec![net("10.0.0.3/32")],
    });
    assert_eq!(iface.unit_order, vec!["0".to_string(), "1".to_string()]);
    let pairs = iface.all_addresses();
    assert_eq!(
        pairs,
        vec![
            ("0".to_string(), net("10.0.0.3/32")),
            ("1".to_string(), net("10.0.0.2/32"))
        ]
    );
}

#[test]
fn resolution_visits_each_name_once() {
    let mut book = AddressBook::default();
    book.addresses.insert("web".to_string(), addr("web", "10.0.0.1/32"));
    book.address_sets.insert("twice".to_string(), set("twice", &["web", "web"]));
    assert_eq!(book.resolve("twice"), vec![net("10.0.0.1/32")]);
}

#[test]
fn resolution_follows_members_in_order() {
    let mut book = AddressBook::default();
    book.addresses.insert("a".to_string(), addr("a", "10.0.0.1/32"));
    book.addresses.insert("b".to_string(), addr("b", "10.0.0.2/32"));
    book.address_sets.insert("inner".to_string(), set("inner", &["b"]));
    book.address_sets.insert("outer".to_string(), set("outer", &["inner", "a", "missing", "any"]));
    assert_eq!(
        book.resolve("outer"),
        vec![net("10.0.0.2/32"), net("10.0.0.1/32"), net("0.0.0.0/0")]
    );
}

#[test]
fn mutually_recursive_sets_terminate() {
    let mut book = AddressBook::default();
    book.addresses.insert("a".to_string(), addr("a", "10.0.0.1/32"));
    book.address_sets.insert("s1".to_string(), set("s1", &["s2", "a"]));
    book.address_sets.insert("s2".to_string(), set("s2", &["s1"]));
    assert_eq!(book.resolve("s1"), vec![net("10.0.0.1/32")]);
    assert_eq!(book.resolve("s2"), vec![net("10.0.0.1/32")]);
}

#[test]
fn address_shadows_set_of_same_name() {
    let mut book = AddressBook::default();
    book.addresses.insert("dup".to_string(), addr("dup", "10.0.0.9/32"));
    book.address_sets.insert("dup".to_string(), set("dup", &["any"]));
    assert_eq!(book.resolve("dup"), vec![net("10.0.0.9/32")]);
}

#[test]
fn builtin_applications_table() {
    let apps = junos_applications();
    assert_eq!(apps.len(), 18);
    let http = apps.get("junos-http").unwrap();
    assert_eq!(http.protocol.as_deref(), Some("tcp"));
    assert_eq!(http.dst_port.as_deref(), Some("80"));
    let dns = apps.get("junos-dns-udp").unwrap();
    assert_eq!(dns.protocol.as_deref(), Some("udp"));
    assert_eq!(dns.dst_port.as_deref(), Some("53"));
    let ping = apps.get("junos-ping").unwrap();
    assert_eq!(ping.protocol.as_deref(), Some("icmp"));
    assert!(ping.dst_port.is_none());
    let any = apps.get("any").unwrap();
    assert!(any.protocol.is_none());
    assert!(any.dst_port.is_none());
    assert!(apps.get("junos-unknown").is_none());
}

#[test]
fn address_count_is_sum_over_units() {
    let mut i = Interface::default();
    i.insert_unit(InterfaceUnit {
        unit_id: "0".to_string(),
        ipv4_addresses: vec![net("10.0.0.1/24"), net("10.0.1.1/24")],
    });
    i.insert_unit(InterfaceUnit {
        unit_id: "1".to_string(),
        ipv4_addresses: vec![net("10.0.2.1/24")],
    });
    i.insert_unit(InterfaceUnit {
        unit_id: "0".to_string(),
        ipv4_addresses: vec![net("10.0.3.1/24")],
    });
    let all = i.all_addresses();
    assert_eq!(all.len(), 2);
    assert_eq!(all[0], ("0".to_string(), net("10.0.3.0/24")));
    assert_eq!(all[1], ("1".to_string(), net("10.0.2.0/24")));
}

#[test]
fn cloned_map_keeps_names_in_order() {
    let mut m: NameMap<Address> = NameMap::new();
    m.insert("b".to_string(), addr("b", "10.0.0.0/8"));
    m.insert("a".to_string(), addr("a", "10.1.0.0/16"));
    let c = m.clone();
    assert_eq!(c.len(), 2);
    assert_eq!(c.key_at(0), "b");
    assert_eq!(c.key_at(1), "a");
    assert_eq!(c.get("a").unwrap().prefix, net("10.1.0.0/16"));
}

#[test]
fn cyclic_expansion_gives_each_address_once() {
    let mut book = AddressBook::default();
    book.addresses.insert("h1".to_string(), addr("h1", "10.0.0.1/32"));
    book.addresses.insert("h2".to_string(), addr("h2", "10.0.0.2/32"));
    book.address_sets.insert("s1".to_string(), set("s1", &["h1", "s2", "h1", "any"]));
    book.address_sets.insert("s2".to_string(), set("s2", &["s1", "h2", "h1", "any", "s2"]));
    let r = book.resolve("s1");
    assert_eq!(r, vec![net("10.0.0.1/32"), net("10.0.0.2/32"), net("0.0.0.0/0")]);
    assert!(r.len() <= book.addresses.len() + 1);
}

#[test]
fn address_count_with_reordered_unit_order() {
    let mut i = Interface::default();
    i.insert_unit(InterfaceUnit {
        unit_id: "0".to_string(),
        ipv4_addresses: vec![net("10.0.0.1/24"), net("10.0.1.1/24")],
    });
    i.insert_unit(InterfaceUnit {
        unit_id: "1".to_string(),
        ipv4_addresses: vec![net("10.0.2.1/24")],
    });
    i.unit_order.reverse();
    let all = i.all_addresses();
    assert_eq!(all.len(), 3);
    assert_eq!(all[0], ("1".to_string(), net("10.0.2.0/24")));
    assert_eq!(all[1].0, "0");
}
