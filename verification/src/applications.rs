//! Built-in Junos application definitions used for policy matching.

use vstd::prelude::*;

use crate::models::{Application, ApplicationModel};
use crate::name_map::{map_insert, NameMap};

verus! {

/// The model of an application with the given name, protocol and port.
pub open spec fn app_model(name: Seq<char>, protocol: Option<Seq<char>>, port: Option<Seq<char>>) -> ApplicationModel {
    ApplicationModel { name, protocol, dst_port: port }
}

fn opt_string(s: Option<&str>) -> (r: Option<String>)
    ensures
        r.deep_view() == match s {
            Some(t) => Some(t@),
            None => None::<Seq<char>>,
        },
{
    match s {
        Some(t) => Some(t.to_owned()),
        None => None,
    }
}

fn app(name: &str, protocol: Option<&str>, port: Option<&str>) -> (a: Application)
    ensures
        a@ == app_model(
            name@,
            match protocol {
                Some(t) => Some(t@),
                None => None,
            },
            match port {
                Some(t) => Some(t@),
                None => None,
            },
        ),
{
    Application { name: name.to_owned(), protocol: opt_string(protocol), dst_port: opt_string(port) }
}

/// The built-in `junos-*` applications (and `any`), by name: web, mail, name
/// service, remote access, routing and database protocols with their
/// well-known destination ports.
pub open spec fn builtin_applications() -> Seq<(Seq<char>, ApplicationModel)> {
    let m = Seq::<(Seq<char>, ApplicationModel)>::empty();
    let m = map_insert(m, "junos-http"@, app_model("junos-http"@, Some("tcp"@), Some("80"@)));
    let m = map_insert(m, "junos-https"@, app_model("junos-https"@, Some("tcp"@), Some("443"@)));
    let m = map_insert(m, "junos-ssh"@, app_model("junos-ssh"@, Some("tcp"@), Some("22"@)));
    let m = map_insert(m, "junos-telnet"@, app_model("junos-telnet"@, Some("tcp"@), Some("23"@)));
    let m = map_insert(m, "junos-ftp"@, app_model("junos-ftp"@, Some("tcp"@), Some("21"@)));
    let m = map_insert(m, "junos-smtp"@, app_model("junos-smtp"@, Some("tcp"@), Some("25"@)));
    let m = map_insert(m, "junos-dns-udp"@, app_model("junos-dns-udp"@, Some("udp"@), Some("53"@)));
    let m = map_insert(m, "junos-dns-tcp"@, app_model("junos-dns-tcp"@, Some("tcp"@), Some("53"@)));
    let m = map_insert(m, "junos-ping"@, app_model("junos-ping"@, Some("icmp"@), None));
    let m = map_insert(m, "junos-icmp-all"@, app_model("junos-icmp-all"@, Some("icmp"@), None));
    let m = map_insert(m, "junos-ntp"@, app_model("junos-ntp"@, Some("udp"@), Some("123"@)));
    let m = map_insert(m, "junos-snmp"@, app_model("junos-snmp"@, Some("udp"@), Some("161"@)));
    let m = map_insert(m, "junos-syslog"@, app_model("junos-syslog"@, Some("udp"@), Some("514"@)));
    let m = map_insert(m, "junos-bgp"@, app_model("junos-bgp"@, Some("tcp"@), Some("179"@)));
    let m = map_insert(m, "junos-ldap"@, app_model("junos-ldap"@, Some("tcp"@), Some("389"@)));
    let m = map_insert(m, "junos-mysql"@, app_model("junos-mysql"@, Some("tcp"@), Some("3306"@)));
    let m = map_insert(m, "junos-rdp"@, app_model("junos-rdp"@, Some("tcp"@), Some("3389"@)));
    let m = map_insert(m, "any"@, app_model("any"@, None, None));
    m
}

/// Map of built-in `junos-*` application names to their definitions.
pub fn junos_applications() -> (m: NameMap<Application>)
    ensures
        m@ == builtin_applications(),
{
    let mut m: NameMap<Application> = NameMap::new();
    m.insert("junos-http".to_owned(), app("junos-http", Some("tcp"), Some("80")));
    m.insert("junos-https".to_owned(), app("junos-https", Some("tcp"), Some("443")));
    m.insert("junos-ssh".to_owned(), app("junos-ssh", Some("tcp"), Some("22")));
    m.insert("junos-telnet".to_owned(), app("junos-telnet", Some("tcp"), Some("23")));
    m.insert("junos-ftp".to_owned(), app("junos-ftp", Some("tcp"), Some("21")));
    m.insert("junos-smtp".to_owned(), app("junos-smtp", Some("tcp"), Some("25")));
    m.insert("junos-dns-udp".to_owned(), app("junos-dns-udp", Some("udp"), Some("53")));
    m.insert("junos-dns-tcp".to_owned(), app("junos-dns-tcp", Some("tcp"), Some("53")));
    m.insert("junos-ping".to_owned(), app("junos-ping", Some("icmp"), None));
    m.insert("junos-icmp-all".to_owned(), app("junos-icmp-all", Some("icmp"), None));
    m.insert("junos-ntp".to_owned(), app("junos-ntp", Some("udp"), Some("123")));
    m.insert("junos-snmp".to_owned(), app("junos-snmp", Some("udp"), Some("161")));
    m.insert("junos-syslog".to_owned(), app("junos-syslog", Some("udp"), Some("514")));
    m.insert("junos-bgp".to_owned(), app("junos-bgp", Some("tcp"), Some("179")));
    m.insert("junos-ldap".to_owned(), app("junos-ldap", Some("tcp"), Some("389")));
    m.insert("junos-mysql".to_owned(), app("junos-mysql", Some("tcp"), Some("3306")));
    m.insert("junos-rdp".to_owned(), app("junos-rdp", Some("tcp"), Some("3389")));
    m.insert("any".to_owned(), app("any", None, None));
    m
}

} // verus!
