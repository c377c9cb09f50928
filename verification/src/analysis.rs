//! Analysis queries over a parsed [`NetworkConfig`].

use vstd::prelude::*;

use crate::applications::{builtin_applications, junos_applications};
use crate::ipv4::{addr_error, spec_parse_addr, Ipv4Addr, Ipv4Network};
use crate::models::{
    AddressBookModel, Application, ApplicationModel, Interface, InterfaceModel, NetworkConfig,
    NetworkConfigModel, PolicyMatch, PolicyRule, PolicyRuleModel, SecurityPolicy,
    SecurityPolicyModel, SecurityZoneModel,
};
use crate::name_map::{map_lookup, NameMap};
use crate::text::{
    chars_of, dec_string, find_char, first_index, is_digit, is_first_index, lemma_dec_string_digits, lemma_first_index_at,
    parse_u32_chars, push_char, push_str, spec_parse_u32, str_eq, unsigned_digits,
};

verus! {

// ---------------------------------------------------------------------------
// Well-formed configurations
// ---------------------------------------------------------------------------

/// Whether every named address of a book has a prefix length of at most 32.
pub open spec fn book_well_formed(b: AddressBookModel) -> bool {
    forall|i: int| 0 <= i < b.addresses.len() ==> (#[trigger] b.addresses[i]).1.prefix.prefix <= 32
}

impl NetworkConfigModel {
    /// Whether every address of every interface unit has a prefix length of
    /// at most 32.
    pub open spec fn interfaces_well_formed(self) -> bool {
        forall|i: int, j: int, k: int|
            0 <= i < self.interfaces.len() && 0 <= j < self.interfaces[i].1.units.len() && 0 <= k
                < self.interfaces[i].1.units[j].1.ipv4_addresses.len()
                ==> (#[trigger] self.interfaces[i].1.units[j].1.ipv4_addresses[k]).prefix <= 32
    }

    /// Whether every network of the configuration (interface addresses and
    /// address-book entries) has a prefix length of at most 32.
    pub open spec fn well_formed(self) -> bool {
        &&& self.interfaces_well_formed()
        &&& book_well_formed(self.global_address_book)
        &&& forall|i: int| 0 <= i < self.security_zones.len() ==> book_well_formed(#[trigger] self.security_zones[i].1.address_book)
    }
}

// ---------------------------------------------------------------------------
// Interface addresses and zones
// ---------------------------------------------------------------------------

/// `(interface, unit, network)` for every address of the interfaces `is`,
/// interface by interface.
pub open spec fn ips_of(is: Seq<InterfaceModel>) -> Seq<(Seq<char>, Seq<char>, Ipv4Network)>
    decreases is.len(),
{
    if is.len() == 0 {
        Seq::empty()
    } else {
        let i = is.last();
        ips_of(is.drop_last()) + i.addresses().map_values(
            |p: (Seq<char>, Ipv4Network)| (i.name, p.0, p.1),
        )
    }
}

impl NetworkConfigModel {
    /// Every configured address, as `(interface, unit, network)`, interfaces in
    /// configuration order and units in unit order.
    pub open spec fn interface_ips(self) -> Seq<(Seq<char>, Seq<char>, Ipv4Network)> {
        ips_of(self.interfaces_in_order())
    }
}

/// The triples of a result of [`interface_ips`].
pub open spec fn ips_view(v: Seq<(String, String, Ipv4Network)>) -> Seq<(Seq<char>, Seq<char>, Ipv4Network)> {
    v.map_values(|t: (String, String, Ipv4Network)| (t.0@, t.1@, t.2))
}

/// Return all configured IPv4 addresses as `(interface_name, unit_id, network)`.
pub fn interface_ips(nc: &NetworkConfig) -> (r: Vec<(String, String, Ipv4Network)>)
    ensures
        ips_view(r@) == nc@.interface_ips(),
{
    let ifaces = nc.interfaces_ordered();
    let ghost ims = ifaces@.map_values(|i: &Interface| i@);
    let mut result: Vec<(String, String, Ipv4Network)> = Vec::new();
    let mut i: usize = 0;
    assert(ips_view(result@) =~= ips_of(ims.take(0)));
    while i < ifaces.len()
        invariant
            i <= ifaces@.len(),
            ims == ifaces@.map_values(|i: &Interface| i@),
            ips_view(result@) == ips_of(ims.take(i as int)),
        decreases ifaces@.len() - i,
    {
        let iface = ifaces[i];
        proof {
            assert(ims.take(i + 1).drop_last() =~= ims.take(i as int));
            assert(ims.take(i + 1).last() == iface@);
        }
        let addrs = iface.all_addresses();
        let ghost base = ips_view(result@);
        let ghost av = crate::models::named_networks_view(addrs@);
        let mut j: usize = 0;
        while j < addrs.len()
            invariant
                j <= addrs@.len(),
                av == crate::models::named_networks_view(addrs@),
                ips_view(result@) == base + av.take(j as int).map_values(
                    |p: (Seq<char>, Ipv4Network)| (iface@.name, p.0, p.1),
                ),
            decreases addrs@.len() - j,
        {
            let ghost before = result@;
            let name = iface.name.clone();
            let unit = addrs[j].0.clone();
            result.push((name, unit, addrs[j].1));
            proof {
                assert(ips_view(result@) =~= ips_view(before).push((iface@.name, av[j as int].0, av[j as int].1)));
                assert(av.take(j + 1) =~= av.take(j as int).push(av[j as int]));
                assert(ips_view(result@) =~= base + av.take(j + 1).map_values(
                    |p: (Seq<char>, Ipv4Network)| (iface@.name, p.0, p.1),
                ));
            }
            j = j + 1;
        }
        assert(av.take(j as int) =~= av);
        i = i + 1;
    }
    assert(ims.take(i as int) =~= ims);
    result
}

/// The name of the first zone (in insertion order) listing interface unit `iu`.
pub open spec fn zone_for_interface_spec(zones: Seq<(Seq<char>, SecurityZoneModel)>, iu: Seq<char>) -> Option<Seq<char>>
    decreases zones.len(),
{
    if zones.len() == 0 {
        None
    } else if zones[0].1.interfaces.contains(iu) {
        Some(zones[0].1.name)
    } else {
        zone_for_interface_spec(zones.drop_first(), iu)
    }
}

#[verifier::loop_isolation(false)]
fn zone_for_interface(nc: &NetworkConfig, iface_unit: &str) -> (r: Option<String>)
    ensures
        r.deep_view() == zone_for_interface_spec(nc@.security_zones, iface_unit@),
{
    let ghost zs = nc@.security_zones;
    let mut i: usize = 0;
    assert(zs.skip(0) =~= zs);
    while i < nc.security_zones.len()
        invariant
            i <= zs.len(),
            zs == nc@.security_zones,
            zone_for_interface_spec(zs, iface_unit@) == zone_for_interface_spec(zs.skip(i as int), iface_unit@),
        decreases zs.len() - i,
    {
        let zone = nc.security_zones.value_at(i);
        proof {
            assert(zs.skip(i as int)[0] == zs[i as int]);
            assert(zs.skip(i as int).drop_first() =~= zs.skip(i + 1));
        }
        let mut j: usize = 0;
        while j < zone.interfaces.len()
            invariant
                j <= zone.interfaces@.len(),
                forall|k: int| 0 <= k < j ==> zone.interfaces@[k]@ != iface_unit@,
            decreases zone.interfaces@.len() - j,
        {
            if str_eq(zone.interfaces[j].as_str(), iface_unit) {
                assert(zone@.interfaces[j as int] == iface_unit@);
                assert(zone@.interfaces.contains(iface_unit@));
                assert(zs[i as int].1 == zone@);
                let name = zone.name.clone();
                assert(Some(name).deep_view() == Some(zone@.name));
                return Some(name);
            }
            j = j + 1;
        }
        assert(!zone@.interfaces.contains(iface_unit@));
        i = i + 1;
    }
    assert(zs.skip(i as int) =~= Seq::<(Seq<char>, SecurityZoneModel)>::empty());
    None
}

/// `interface.unit`, the name under which a zone lists an interface unit.
pub open spec fn unit_name(iface: Seq<char>, unit: Seq<char>) -> Seq<char> {
    iface + seq!['.'] + unit
}

/// The zone of the first entry of `entries` whose network contains `a` and
/// whose interface unit some zone lists.
pub open spec fn zone_of_addr(
    zones: Seq<(Seq<char>, SecurityZoneModel)>,
    entries: Seq<(Seq<char>, Seq<char>, Ipv4Network)>,
    a: u32,
) -> Option<Seq<char>>
    decreases entries.len(),
{
    if entries.len() == 0 {
        None
    } else {
        let e = entries[0];
        if e.2.spec_contains(a) && zone_for_interface_spec(zones, unit_name(e.0, e.1)) is Some {
            zone_for_interface_spec(zones, unit_name(e.0, e.1))
        } else {
            zone_of_addr(zones, entries.drop_first(), a)
        }
    }
}

impl NetworkConfigModel {
    /// The security zone of address `a`: that of the first configured subnet
    /// (in interface order) containing `a` whose interface unit belongs to a
    /// zone.
    pub open spec fn zone_of(self, a: u32) -> Option<Seq<char>> {
        zone_of_addr(self.security_zones, self.interface_ips(), a)
    }

    /// What [`zone_of_ip`] gives for the text `ip`.
    pub open spec fn zone_of_ip_spec(self, ip: Seq<char>) -> Result<Option<Seq<char>>, Seq<char>> {
        match spec_parse_addr(ip) {
            Some(a) => Ok(self.zone_of(a)),
            None => Err(addr_error(ip)),
        }
    }
}

/// Whether every unit address of an interface has a prefix length of at most 32.
pub open spec fn interface_well_formed(im: InterfaceModel) -> bool {
    forall|j: int, k: int|
        0 <= j < im.units.len() && 0 <= k < im.units[j].1.ipv4_addresses.len()
            ==> (#[trigger] im.units[j].1.ipv4_addresses[k]).prefix <= 32
}

proof fn lemma_lookup_in<T>(m: Seq<(Seq<char>, T)>, k: Seq<char>) -> (p: int)
    requires
        map_lookup(m, k) is Some,
    ensures
        0 <= p < m.len(),
        map_lookup(m, k) == Some(m[p].1),
{
    crate::name_map::lemma_key_pos(m, k)
}

proof fn lemma_unit_addresses_well_formed(im: InterfaceModel, order: Seq<Seq<char>>)
    requires
        interface_well_formed(im),
    ensures
        forall|k: int| 0 <= k < crate::models::unit_addresses(im.units, order).len()
            ==> (#[trigger] crate::models::unit_addresses(im.units, order)[k]).1.prefix <= 32,
    decreases order.len(),
{
    if order.len() > 0 {
        lemma_unit_addresses_well_formed(im, order.drop_last());
        let uid = order.last();
        let prev = crate::models::unit_addresses(im.units, order.drop_last());
        if map_lookup(im.units, uid) is Some {
            let p = lemma_lookup_in(im.units, uid);
            let u = im.units[p].1;
            let tail = u.ipv4_addresses.map_values(|a: Ipv4Network| (uid, a));
            assert forall|k: int| 0 <= k < u.ipv4_addresses.len() implies (#[trigger] u.ipv4_addresses[k]).prefix <= 32 by {
                assert(im.units[p].1.ipv4_addresses[k].prefix <= 32);
            }
            let all = crate::models::unit_addresses(im.units, order);
            assert(all == prev + tail);
            assert forall|k: int| 0 <= k < all.len() implies (#[trigger] all[k]).1.prefix <= 32 by {
                if k < prev.len() {
                    assert(all[k] == prev[k]);
                } else {
                    assert(all[k] == tail[k - prev.len()]);
                    assert(tail[k - prev.len()].1 == u.ipv4_addresses[k - prev.len()]);
                }
            }
        }
    }
}

proof fn lemma_ips_of_well_formed(is: Seq<InterfaceModel>)
    requires
        forall|m: int| 0 <= m < is.len() ==> interface_well_formed(#[trigger] is[m]),
    ensures
        forall|k: int| 0 <= k < ips_of(is).len() ==> (#[trigger] ips_of(is)[k]).2.prefix <= 32,
    decreases is.len(),
{
    if is.len() > 0 {
        let i = is.last();
        assert(interface_well_formed(is[is.len() - 1]));
        assert(is.drop_last().len() == is.len() - 1);
        assert forall|m: int| 0 <= m < is.drop_last().len() implies interface_well_formed(#[trigger] is.drop_last()[m]) by {
            assert(is.drop_last()[m] == is[m]);
        }
        lemma_ips_of_well_formed(is.drop_last());
        lemma_unit_addresses_well_formed(i, i.unit_order);
        let prev = ips_of(is.drop_last());
        let ad = i.addresses();
        let tail = ad.map_values(|p: (Seq<char>, Ipv4Network)| (i.name, p.0, p.1));
        let all = ips_of(is);
        assert(all == prev + tail);
        assert forall|k: int| 0 <= k < all.len() implies (#[trigger] all[k]).2.prefix <= 32 by {
            if k < prev.len() {
                assert(all[k] == prev[k]);
            } else {
                assert(all[k] == tail[k - prev.len()]);
                assert(ad[k - prev.len()].1.prefix <= 32);
            }
        }
    }
}

proof fn lemma_ordered_interfaces_from(ifs: Seq<(Seq<char>, InterfaceModel)>, order: Seq<Seq<char>>)
    requires
        forall|p: int| 0 <= p < ifs.len() ==> interface_well_formed(#[trigger] ifs[p].1),
    ensures
        forall|m: int| 0 <= m < crate::models::ordered_interfaces(ifs, order).len()
            ==> interface_well_formed(#[trigger] crate::models::ordered_interfaces(ifs, order)[m]),
    decreases order.len(),
{
    if order.len() > 0 {
        lemma_ordered_interfaces_from(ifs, order.drop_last());
        let prev = crate::models::ordered_interfaces(ifs, order.drop_last());
        let all = crate::models::ordered_interfaces(ifs, order);
        if map_lookup(ifs, order.last()) is Some {
            let p = lemma_lookup_in(ifs, order.last());
            assert(interface_well_formed(ifs[p].1));
            assert(all == prev.push(ifs[p].1));
            assert forall|m: int| 0 <= m < all.len() implies interface_well_formed(#[trigger] all[m]) by {
                if m < prev.len() {
                    assert(all[m] == prev[m]);
                }
            }
        }
    }
}

/// Every address the configuration lists for an interface unit has a prefix
/// length of at most 32 when the interfaces are well formed.
pub proof fn lemma_interface_ips_well_formed(nc: NetworkConfigModel)
    requires
        nc.interfaces_well_formed(),
    ensures
        forall|k: int| 0 <= k < nc.interface_ips().len() ==> (#[trigger] nc.interface_ips()[k]).2.prefix <= 32,
{
    assert forall|p: int| 0 <= p < nc.interfaces.len() implies interface_well_formed(#[trigger] nc.interfaces[p].1) by {
        assert forall|j: int, k: int|
            0 <= j < nc.interfaces[p].1.units.len() && 0 <= k < nc.interfaces[p].1.units[j].1.ipv4_addresses.len()
            implies (#[trigger] nc.interfaces[p].1.units[j].1.ipv4_addresses[k]).prefix <= 32 by {
        }
    }
    lemma_ordered_interfaces_from(nc.interfaces, nc.interface_order);
    lemma_ips_of_well_formed(nc.interfaces_in_order());
}

/// Return the security zone name that contains `src_ip`, or `None`.
///
/// Membership is determined by checking whether the IP falls within any
/// subnet of an interface that belongs to the zone.
pub fn zone_of_ip(nc: &NetworkConfig, src_ip: &str) -> (r: Result<Option<String>, String>)
    requires
        nc@.interfaces_well_formed(),
    ensures
        match r {
            Ok(z) => nc@.zone_of_ip_spec(src_ip@) == Ok::<Option<Seq<char>>, Seq<char>>(z.deep_view()),
            Err(e) => nc@.zone_of_ip_spec(src_ip@) == Err::<Option<Seq<char>>, Seq<char>>(e@),
        },
{
    let addr = match Ipv4Addr::parse(src_ip) {
        Ok(a) => a,
        Err(e) => {
            return Err(e);
        },
    };
    let entries = interface_ips(nc);
    let ghost es = ips_view(entries@);
    proof {
        lemma_interface_ips_well_formed(nc@);
    }
    let mut i: usize = 0;
    assert(es.skip(0) =~= es);
    while i < entries.len()
        invariant
            i <= entries@.len(),
            es == ips_view(entries@),
            es == nc@.interface_ips(),
            forall|k: int| 0 <= k < es.len() ==> (#[trigger] es[k]).2.prefix <= 32,
            nc@.zone_of(addr.0) == zone_of_addr(nc@.security_zones, es.skip(i as int), addr.0),
            spec_parse_addr(src_ip@) == Some(addr.0),
        decreases entries@.len() - i,
    {
        proof {
            assert(es.skip(i as int)[0] == es[i as int]);
            assert(es.skip(i as int).drop_first() =~= es.skip(i + 1));
            assert(es[i as int].2 == entries@[i as int].2);
        }
        let net = entries[i].2;
        if net.contains(addr) {
            let mut iface_unit = entries[i].0.clone();
            push_char(&mut iface_unit, '.');
            push_str(&mut iface_unit, entries[i].1.as_str());
            assert(iface_unit@ == unit_name(es[i as int].0, es[i as int].1));
            match zone_for_interface(nc, iface_unit.as_str()) {
                Some(zone) => {
                    assert(es.skip(i as int)[0].2.spec_contains(addr.0));
                    assert(Some(zone).deep_view() == Some(zone@));
                    return Ok(Some(zone));
                },
                None => {},
            }
        }
        i = i + 1;
    }
    assert(es.skip(i as int) =~= Seq::<(Seq<char>, Seq<char>, Ipv4Network)>::empty());
    Ok(None)
}

// ---------------------------------------------------------------------------
// Applications
// ---------------------------------------------------------------------------

/// Whether a destination port of a packet satisfies a rule's port spec: a
/// missing spec or port always does; `LO-HI` (split at the first `-`) is an
/// inclusive range; anything else must be the port itself. A spec that does
/// not parse matches nothing.
pub open spec fn port_matches_spec(rule_port: Option<Seq<char>>, pkt_port: Option<u16>) -> bool {
    match rule_port {
        None => true,
        Some(rp) => match pkt_port {
            None => true,
            Some(p) => {
                let k = first_index(rp, '-');
                if k >= 0 {
                    match (spec_parse_u32(rp.take(k)), spec_parse_u32(rp.skip(k + 1))) {
                        (Some(lo), Some(hi)) => lo <= p <= hi,
                        _ => false,
                    }
                } else {
                    spec_parse_u32(rp) == Some(p as u32)
                }
            },
        },
    }
}

fn port_matches(rule_port: Option<&str>, pkt_port: Option<u16>) -> (b: bool)
    ensures
        b == port_matches_spec(
            match rule_port {
                Some(r) => Some(r@),
                None => None,
            },
            pkt_port,
        ),
{
    let rule_port = match rule_port {
        Some(p) => p,
        None => {
            return true;
        },
    };
    let pkt_port = match pkt_port {
        Some(p) => p,
        None => {
            return true;
        },
    };
    let cs = chars_of(rule_port);
    let n = cs.len();
    assert(cs@.subrange(0, n as int) =~= rule_port@);
    match find_char(&cs, 0, n, '-') {
        Some(k) => {
            assert(cs@.subrange(0, k as int) =~= rule_port@.take(k as int));
            assert(cs@.subrange(k + 1, n as int) =~= rule_port@.skip(k + 1));
            match (parse_u32_chars(&cs, 0, k), parse_u32_chars(&cs, k + 1, n)) {
                (Some(lo), Some(hi)) => lo <= pkt_port as u32 && pkt_port as u32 <= hi,
                _ => false,
            }
        },
        None => {
            match parse_u32_chars(&cs, 0, n) {
                Some(v) => v == pkt_port as u32,
                None => false,
            }
        },
    }
}

/// Whether an application admits a packet of the given protocol and port:
/// `any` and applications without a protocol admit everything; otherwise the
/// protocol must agree and the port must satisfy the application's port spec.
pub open spec fn app_matches_spec(app: ApplicationModel, protocol: Option<Seq<char>>, dst_port: Option<u16>) -> bool {
    ||| app.name == "any"@
    ||| app.protocol is None
    ||| ((protocol is None || app.protocol == protocol) && port_matches_spec(app.dst_port, dst_port))
}

fn app_matches(app: &Application, protocol: Option<&str>, dst_port: Option<u16>) -> (b: bool)
    ensures
        b == app_matches_spec(
            app@,
            match protocol {
                Some(p) => Some(p@),
                None => None,
            },
            dst_port,
        ),
{
    if str_eq(app.name.as_str(), "any") {
        return true;
    }
    let app_proto = match &app.protocol {
        Some(p) => p,
        None => {
            return true;
        },
    };
    if let Some(proto) = protocol {
        if !str_eq(app_proto.as_str(), proto) {
            return false;
        }
    }
    let rule_port = match &app.dst_port {
        Some(p) => Some(p.as_str()),
        None => None,
    };
    port_matches(rule_port, dst_port)
}

/// A configured application by name, or else a built-in one.
pub open spec fn lookup_app_spec(nc: NetworkConfigModel, name: Seq<char>) -> Option<ApplicationModel> {
    match map_lookup(nc.applications, name) {
        Some(a) => Some(a),
        None => map_lookup(builtin_applications(), name),
    }
}

/// The applications that the names `members` stand for, skipping unknown ones.
pub open spec fn apps_of_members(nc: NetworkConfigModel, members: Seq<Seq<char>>) -> Seq<ApplicationModel>
    decreases members.len(),
{
    if members.len() == 0 {
        Seq::empty()
    } else {
        let prev = apps_of_members(nc, members.drop_last());
        match lookup_app_spec(nc, members.last()) {
            Some(a) => prev.push(a),
            None => prev,
        }
    }
}

/// The applications that `names` stand for: an application-set stands for the
/// applications of its members (one level deep), any other name for the
/// application of that name; unknown names stand for nothing.
pub open spec fn resolve_app_names_spec(nc: NetworkConfigModel, names: Seq<Seq<char>>) -> Seq<ApplicationModel>
    decreases names.len(),
{
    if names.len() == 0 {
        Seq::empty()
    } else {
        let prev = resolve_app_names_spec(nc, names.drop_last());
        let name = names.last();
        match map_lookup(nc.application_sets, name) {
            Some(set) => prev + apps_of_members(nc, set.members),
            None => match lookup_app_spec(nc, name) {
                Some(a) => prev.push(a),
                None => prev,
            },
        }
    }
}

fn lookup_app<'a>(nc: &'a NetworkConfig, builtins: &'a NameMap<Application>, name: &str) -> (r: Option<&'a Application>)
    requires
        builtins@ == builtin_applications(),
    ensures
        match r {
            Some(a) => lookup_app_spec(nc@, name@) == Some(a@),
            None => lookup_app_spec(nc@, name@) is None,
        },
{
    match nc.applications.get(name) {
        Some(a) => Some(a),
        None => builtins.get(name),
    }
}

/// The models of a list of application references.
pub open spec fn app_refs_view(v: Seq<&Application>) -> Seq<ApplicationModel> {
    v.map_values(|a: &Application| a@)
}

fn resolve_app_names<'a>(nc: &'a NetworkConfig, builtins: &'a NameMap<Application>, names: &Vec<String>) -> (r: Vec<&'a Application>)
    requires
        builtins@ == builtin_applications(),
    ensures
        app_refs_view(r@) == resolve_app_names_spec(nc@, names.deep_view()),
{
    let ghost nv = names.deep_view();
    let mut result: Vec<&'a Application> = Vec::new();
    let mut i: usize = 0;
    assert(app_refs_view(result@) =~= resolve_app_names_spec(nc@, nv.take(0)));
    while i < names.len()
        invariant
            i <= names@.len(),
            nv == names.deep_view(),
            builtins@ == builtin_applications(),
            app_refs_view(result@) == resolve_app_names_spec(nc@, nv.take(i as int)),
        decreases names@.len() - i,
    {
        proof {
            assert(nv.take(i + 1).drop_last() =~= nv.take(i as int));
            assert(nv.take(i + 1).last() == names@[i as int]@);
        }
        let name = names[i].as_str();
        let ghost before = app_refs_view(result@);
        match nc.application_sets.get(name) {
            Some(set) => {
                let ghost mv = set.members.deep_view();
                let mut j: usize = 0;
                assert(apps_of_members(nc@, mv.take(0)) =~= Seq::<ApplicationModel>::empty());
                assert(app_refs_view(result@) =~= before + apps_of_members(nc@, mv.take(0)));
                while j < set.members.len()
                    invariant
                        j <= set.members@.len(),
                        mv == set.members.deep_view(),
                        builtins@ == builtin_applications(),
                        app_refs_view(result@) == before + apps_of_members(nc@, mv.take(j as int)),
                    decreases set.members@.len() - j,
                {
                    proof {
                        assert(mv.take(j + 1).drop_last() =~= mv.take(j as int));
                        assert(mv.take(j + 1).last() == set.members@[j as int]@);
                    }
                    let ghost mid = result@;
                    match lookup_app(nc, builtins, set.members[j].as_str()) {
                        Some(app) => {
                            result.push(app);
                            assert(app_refs_view(result@) =~= app_refs_view(mid).push(app@));
                        },
                        None => {},
                    }
                    j = j + 1;
                }
                assert(mv.take(j as int) =~= mv);
            },
            None => {
                match lookup_app(nc, builtins, name) {
                    Some(app) => {
                        result.push(app);
                        assert(app_refs_view(result@) =~= before.push(app@));
                    },
                    None => {},
                }
            },
        }
        i = i + 1;
    }
    assert(nv.take(i as int) =~= nv);
    result
}

// ---------------------------------------------------------------------------
// Addresses
// ---------------------------------------------------------------------------

/// The prefixes that address name `n` stands for as seen from zone `zone`:
/// the zone's own address book first, the global one when that gives nothing.
pub open spec fn resolve_in_zone(nc: NetworkConfigModel, zone: Option<Seq<char>>, n: Seq<char>) -> Seq<Ipv4Network> {
    let local = match zone {
        Some(z) => match map_lookup(nc.security_zones, z) {
            Some(zm) => zm.address_book.resolve(n),
            None => Seq::empty(),
        },
        None => Seq::empty(),
    };
    if local.len() == 0 {
        nc.global_address_book.resolve(n)
    } else {
        local
    }
}

/// The prefixes of the names `names`, in order.
pub open spec fn resolve_all_in_zone(nc: NetworkConfigModel, zone: Option<Seq<char>>, names: Seq<Seq<char>>) -> Seq<Ipv4Network>
    decreases names.len(),
{
    if names.len() == 0 {
        Seq::empty()
    } else {
        resolve_all_in_zone(nc, zone, names.drop_last()) + resolve_in_zone(nc, zone, names.last())
    }
}

/// The prefixes that a rule's address list stands for: just `0.0.0.0/0` when
/// it names `any`, else the prefixes of its names in order.
pub open spec fn resolve_addresses_spec(nc: NetworkConfigModel, zone: Option<Seq<char>>, names: Seq<Seq<char>>) -> Seq<Ipv4Network> {
    if names.contains("any"@) {
        seq![Ipv4Network { base: 0, prefix: 0 }]
    } else {
        resolve_all_in_zone(nc, zone, names)
    }
}

/// Whether address `a` is matched by a rule's address list.
pub open spec fn ip_matches_spec(nc: NetworkConfigModel, a: u32, zone: Option<Seq<char>>, names: Seq<Seq<char>>) -> bool {
    ||| names.contains("any"@)
    ||| exists|k: int|
        0 <= k < resolve_addresses_spec(nc, zone, names).len() && (#[trigger] resolve_addresses_spec(
            nc,
            zone,
            names,
        )[k]).spec_contains(a)
}

/// Whether every prefix of a list has a length of at most 32.
pub open spec fn prefixes_valid(v: Seq<Ipv4Network>) -> bool {
    forall|k: int| 0 <= k < v.len() ==> (#[trigger] v[k]).prefix <= 32
}

proof fn lemma_resolve_name_valid(book: AddressBookModel, name: Seq<char>, seen: Set<Seq<char>>)
    requires
        book_well_formed(book),
    ensures
        prefixes_valid(crate::models::resolve_name(book, name, seen).0),
    decreases crate::models::unseen_sets(book.address_sets, seen), 0nat,
{
    if !seen.contains(name) {
        let seen1 = seen.insert(name);
        if name == "any"@ {
        } else if map_lookup(book.addresses, name) is Some {
            let p = lemma_lookup_in(book.addresses, name);
            assert(book.addresses[p].1.prefix.prefix <= 32);
        } else if map_lookup(book.address_sets, name) is Some {
            if crate::models::unseen_sets(book.address_sets, seen1) < crate::models::unseen_sets(book.address_sets, seen) {
                lemma_resolve_members_valid(book, map_lookup(book.address_sets, name)->0.members, seen1);
            }
        }
    }
}

proof fn lemma_resolve_members_valid(book: AddressBookModel, members: Seq<Seq<char>>, seen: Set<Seq<char>>)
    requires
        book_well_formed(book),
    ensures
        prefixes_valid(crate::models::resolve_members(book, members, seen).0),
    decreases crate::models::unseen_sets(book.address_sets, seen), members.len() + 1,
{
    if members.len() > 0 {
        let (r1, s1) = crate::models::resolve_name(book, members[0], seen);
        lemma_resolve_name_valid(book, members[0], seen);
        if crate::models::unseen_sets(book.address_sets, s1) <= crate::models::unseen_sets(book.address_sets, seen) {
            lemma_resolve_members_valid(book, members.drop_first(), s1);
            let r2 = crate::models::resolve_members(book, members.drop_first(), s1).0;
            assert forall|k: int| 0 <= k < (r1 + r2).len() implies (#[trigger] (r1 + r2)[k]).prefix <= 32 by {
                if k < r1.len() {
                    assert((r1 + r2)[k] == r1[k]);
                } else {
                    assert((r1 + r2)[k] == r2[k - r1.len()]);
                }
            }
        }
    }
}

proof fn lemma_resolve_addresses_valid(nc: NetworkConfigModel, zone: Option<Seq<char>>, names: Seq<Seq<char>>)
    requires
        nc.well_formed(),
    ensures
        prefixes_valid(resolve_all_in_zone(nc, zone, names)),
    decreases names.len(),
{
    if names.len() > 0 {
        lemma_resolve_addresses_valid(nc, zone, names.drop_last());
        let n = names.last();
        lemma_resolve_name_valid(nc.global_address_book, n, Set::empty());
        match zone {
            Some(z) => {
                if map_lookup(nc.security_zones, z) is Some {
                    let p = lemma_lookup_in(nc.security_zones, z);
                    assert(book_well_formed(nc.security_zones[p].1.address_book));
                    lemma_resolve_name_valid(nc.security_zones[p].1.address_book, n, Set::empty());
                }
            },
            None => {},
        }
        let a = resolve_all_in_zone(nc, zone, names.drop_last());
        let b = resolve_in_zone(nc, zone, n);
        assert forall|k: int| 0 <= k < (a + b).len() implies (#[trigger] (a + b)[k]).prefix <= 32 by {
            if k < a.len() {
                assert((a + b)[k] == a[k]);
            } else {
                assert((a + b)[k] == b[k - a.len()]);
            }
        }
    }
}

fn resolve_addresses_for_zone(nc: &NetworkConfig, zone_name: Option<&str>, addr_names: &Vec<String>) -> (r: Vec<Ipv4Network>)
    ensures
        r@ == resolve_addresses_spec(
            nc@,
            match zone_name {
                Some(z) => Some(z@),
                None => None,
            },
            addr_names.deep_view(),
        ),
{
    let ghost zone = match zone_name {
        Some(z) => Some(z@),
        None => None::<Seq<char>>,
    };
    let ghost nv = addr_names.deep_view();
    let mut networks: Vec<Ipv4Network> = Vec::new();
    let zone_ref = match zone_name {
        Some(z) => nc.security_zones.get(z),
        None => None,
    };
    let mut i: usize = 0;
    assert(networks@ =~= resolve_all_in_zone(nc@, zone, nv.take(0)));
    while i < addr_names.len()
        invariant
            i <= addr_names@.len(),
            nv == addr_names.deep_view(),
            networks@ == resolve_all_in_zone(nc@, zone, nv.take(i as int)),
            forall|k: int| 0 <= k < i ==> nv[k] != "any"@,
            match zone_ref {
                Some(z) => zone is Some && map_lookup(nc@.security_zones, zone->0) == Some(z@),
                None => zone is None || map_lookup(nc@.security_zones, zone->0) is None,
            },
        decreases addr_names@.len() - i,
    {
        proof {
            assert(nv.take(i + 1).drop_last() =~= nv.take(i as int));
            assert(nv.take(i + 1).last() == addr_names@[i as int]@);
        }
        let name = addr_names[i].as_str();
        if str_eq(name, "any") {
            assert(nv[i as int] == "any"@);
            let r = vec![Ipv4Network::any()];
            assert(r@ =~= seq![Ipv4Network { base: 0, prefix: 0 }]);
            return r;
        }
        let mut resolved: Vec<Ipv4Network> = Vec::new();
        if let Some(z) = zone_ref {
            resolved = z.address_book.resolve(name);
        }
        if resolved.len() == 0 {
            resolved = nc.global_address_book.resolve(name);
        }
        assert(resolved@ == resolve_in_zone(nc@, zone, nv[i as int]));
        networks.append(&mut resolved);
        i = i + 1;
    }
    assert(nv.take(i as int) =~= nv);
    assert(!nv.contains("any"@));
    networks
}

fn ip_matches_addresses(ip: Ipv4Addr, nc: &NetworkConfig, zone_name: Option<&str>, addr_names: &Vec<String>) -> (b: bool)
    requires
        nc@.well_formed(),
    ensures
        b == ip_matches_spec(
            nc@,
            ip.0,
            match zone_name {
                Some(z) => Some(z@),
                None => None,
            },
            addr_names.deep_view(),
        ),
{
    let ghost zone = match zone_name {
        Some(z) => Some(z@),
        None => None::<Seq<char>>,
    };
    let ghost nv = addr_names.deep_view();
    let mut i: usize = 0;
    while i < addr_names.len()
        invariant
            i <= addr_names@.len(),
            nv == addr_names.deep_view(),
            forall|k: int| 0 <= k < i ==> nv[k] != "any"@,
        decreases addr_names@.len() - i,
    {
        if str_eq(addr_names[i].as_str(), "any") {
            assert(nv[i as int] == "any"@);
            return true;
        }
        i = i + 1;
    }
    assert(!nv.contains("any"@));
    let networks = resolve_addresses_for_zone(nc, zone_name, addr_names);
    proof {
        lemma_resolve_addresses_valid(nc@, zone, nv);
    }
    let mut j: usize = 0;
    while j < networks.len()
        invariant
            j <= networks@.len(),
            networks@ == resolve_addresses_spec(nc@, zone, nv),
            nv == addr_names.deep_view(),
            zone == match zone_name {
                Some(z) => Some(z@),
                None => None::<Seq<char>>,
            },
            prefixes_valid(networks@),
            forall|k: int| 0 <= k < j ==> !(#[trigger] networks@[k]).spec_contains(ip.0),
        decreases networks@.len() - j,
    {
        if networks[j].contains(ip) {
            assert(resolve_addresses_spec(nc@, zone, nv)[j as int].spec_contains(ip.0));
            return true;
        }
        j = j + 1;
    }
    false
}

// ---------------------------------------------------------------------------
// Reachability
// ---------------------------------------------------------------------------

/// Outcome of a reachability query.
#[derive(Clone, Debug)]
pub struct ReachabilityResult {
    /// `permit`, `deny`, `reject` or `unknown`.
    pub action: String,
    pub from_zone: Option<String>,
    pub to_zone: Option<String>,
    pub matching_rule: Option<PolicyRule>,
}

/// Model of a [`ReachabilityResult`].
pub struct ReachabilityModel {
    pub action: Seq<char>,
    pub from_zone: Option<Seq<char>>,
    pub to_zone: Option<Seq<char>>,
    pub matching_rule: Option<PolicyRuleModel>,
}

impl View for ReachabilityResult {
    type V = ReachabilityModel;

    open spec fn view(&self) -> ReachabilityModel {
        ReachabilityModel {
            action: self.action@,
            from_zone: self.from_zone.deep_view(),
            to_zone: self.to_zone.deep_view(),
            matching_rule: match self.matching_rule {
                Some(r) => Some(r@),
                None => None,
            },
        }
    }
}

/// Whether a rule applies to traffic from `s` in zone `from` to `d` in zone
/// `to` with the given protocol and port: both addresses match its address
/// lists (looked up from the respective zones) and it names no known
/// application or one that admits the traffic.
pub open spec fn rule_matches_spec(
    nc: NetworkConfigModel,
    r: PolicyRuleModel,
    from: Seq<char>,
    to: Seq<char>,
    s: u32,
    d: u32,
    protocol: Seq<char>,
    dst_port: Option<u16>,
) -> bool {
    let apps = resolve_app_names_spec(nc, r.rule_match.applications);
    &&& ip_matches_spec(nc, s, Some(from), r.rule_match.source_addresses)
    &&& ip_matches_spec(nc, d, Some(to), r.rule_match.destination_addresses)
    &&& (apps.len() == 0 || exists|k: int| 0 <= k < apps.len() && app_matches_spec(#[trigger] apps[k], Some(protocol), dst_port))
}

/// The first rule of `rules` that applies.
pub open spec fn first_rule(
    nc: NetworkConfigModel,
    rules: Seq<PolicyRuleModel>,
    from: Seq<char>,
    to: Seq<char>,
    s: u32,
    d: u32,
    protocol: Seq<char>,
    dst_port: Option<u16>,
) -> Option<PolicyRuleModel>
    decreases rules.len(),
{
    if rules.len() == 0 {
        None
    } else if rule_matches_spec(nc, rules[0], from, to, s, d, protocol, dst_port) {
        Some(rules[0])
    } else {
        first_rule(nc, rules.drop_first(), from, to, s, d, protocol, dst_port)
    }
}

/// The first rule that applies, among the policies from `from` to `to` taken in
/// order, each policy's rules in order.
pub open spec fn first_policy_rule(
    nc: NetworkConfigModel,
    policies: Seq<SecurityPolicyModel>,
    from: Seq<char>,
    to: Seq<char>,
    s: u32,
    d: u32,
    protocol: Seq<char>,
    dst_port: Option<u16>,
) -> Option<PolicyRuleModel>
    decreases policies.len(),
{
    if policies.len() == 0 {
        None
    } else {
        let p = policies[0];
        if p.from_zone == from && p.to_zone == to && first_rule(nc, p.rules, from, to, s, d, protocol, dst_port) is Some {
            first_rule(nc, p.rules, from, to, s, d, protocol, dst_port)
        } else {
            first_policy_rule(nc, policies.drop_first(), from, to, s, d, protocol, dst_port)
        }
    }
}

/// The verdict for traffic from address `s` to address `d`: `unknown` when a
/// zone cannot be determined; `permit` within one zone; otherwise the action of
/// the first applicable rule, or an implicit `deny` when none applies.
pub open spec fn decide(nc: NetworkConfigModel, s: u32, d: u32, protocol: Seq<char>, dst_port: Option<u16>) -> ReachabilityModel {
    let from_zone = nc.zone_of(s);
    let to_zone = nc.zone_of(d);
    if from_zone is None || to_zone is None {
        ReachabilityModel { action: "unknown"@, from_zone, to_zone, matching_rule: None }
    } else if from_zone == to_zone {
        ReachabilityModel { action: "permit"@, from_zone, to_zone, matching_rule: None }
    } else {
        match first_policy_rule(nc, nc.security_policies, from_zone->0, to_zone->0, s, d, protocol, dst_port) {
            Some(r) => ReachabilityModel { action: r.action, from_zone, to_zone, matching_rule: Some(r) },
            None => ReachabilityModel { action: "deny"@, from_zone, to_zone, matching_rule: None },
        }
    }
}

/// What [`reachability`] gives: the error of the first address that does not
/// parse, or the verdict.
pub open spec fn reachability_spec(
    nc: NetworkConfigModel,
    src_ip: Seq<char>,
    dst_ip: Seq<char>,
    protocol: Seq<char>,
    dst_port: Option<u16>,
) -> Result<ReachabilityModel, Seq<char>> {
    match spec_parse_addr(src_ip) {
        None => Err(addr_error(src_ip)),
        Some(s) => match spec_parse_addr(dst_ip) {
            None => Err(addr_error(dst_ip)),
            Some(d) => Ok(decide(nc, s, d, protocol, dst_port)),
        },
    }
}

fn copy_strings(v: &Vec<String>) -> (r: Vec<String>)
    ensures
        r.deep_view() == v.deep_view(),
{
    let mut r: Vec<String> = Vec::new();
    let mut i: usize = 0;
    while i < v.len()
        invariant
            i <= v@.len(),
            r.deep_view() == v.deep_view().take(i as int),
        decreases v@.len() - i,
    {
        let ghost before = r.deep_view();
        r.push(v[i].clone());
        assert(r.deep_view() =~= before.push(v@[i as int]@));
        assert(r.deep_view() =~= v.deep_view().take(i + 1));
        i = i + 1;
    }
    assert(v.deep_view().take(i as int) =~= v.deep_view());
    r
}

fn copy_rule(rule: &PolicyRule) -> (r: PolicyRule)
    ensures
        r@ == rule@,
{
    PolicyRule {
        name: rule.name.clone(),
        rule_match: PolicyMatch {
            source_addresses: copy_strings(&rule.rule_match.source_addresses),
            destination_addresses: copy_strings(&rule.rule_match.destination_addresses),
            applications: copy_strings(&rule.rule_match.applications),
        },
        action: rule.action.clone(),
    }
}

#[verifier::loop_isolation(false)]
fn rule_matches(
    nc: &NetworkConfig,
    builtins: &NameMap<Application>,
    rule: &PolicyRule,
    from: &String,
    to: &String,
    src_addr: Ipv4Addr,
    dst_addr: Ipv4Addr,
    protocol: &str,
    dst_port: Option<u16>,
) -> (b: bool)
    requires
        nc@.well_formed(),
        builtins@ == builtin_applications(),
    ensures
        b == rule_matches_spec(nc@, rule@, from@, to@, src_addr.0, dst_addr.0, protocol@, dst_port),
{
    if !ip_matches_addresses(src_addr, nc, Some(from.as_str()), &rule.rule_match.source_addresses) {
        return false;
    }
    if !ip_matches_addresses(dst_addr, nc, Some(to.as_str()), &rule.rule_match.destination_addresses) {
        return false;
    }
    let apps = resolve_app_names(nc, builtins, &rule.rule_match.applications);
    let ghost av = app_refs_view(apps@);
    if apps.len() == 0 {
        assert(av.len() == 0);
        return true;
    }
    let mut k: usize = 0;
    while k < apps.len()
        invariant
            k <= apps@.len(),
            av == app_refs_view(apps@),
            forall|j: int| 0 <= j < k ==> !app_matches_spec(#[trigger] av[j], Some(protocol@), dst_port),
        decreases apps@.len() - k,
    {
        if app_matches(apps[k], Some(protocol), dst_port) {
            assert(app_matches_spec(av[k as int], Some(protocol@), dst_port));
            return true;
        }
        k = k + 1;
    }
    false
}

#[verifier::loop_isolation(false)]
fn find_matching_rule<'a>(
    nc: &'a NetworkConfig,
    builtins: &NameMap<Application>,
    from: &String,
    to: &String,
    src_addr: Ipv4Addr,
    dst_addr: Ipv4Addr,
    protocol: &str,
    dst_port: Option<u16>,
) -> (r: Option<&'a PolicyRule>)
    requires
        nc@.well_formed(),
        builtins@ == builtin_applications(),
    ensures
        match r {
            Some(rule) => first_policy_rule(nc@, nc@.security_policies, from@, to@, src_addr.0, dst_addr.0, protocol@, dst_port) == Some(rule@),
            None => first_policy_rule(nc@, nc@.security_policies, from@, to@, src_addr.0, dst_addr.0, protocol@, dst_port) is None,
        },
{
    let ghost ps = nc@.security_policies;
    let mut i: usize = 0;
    assert(ps.skip(0) =~= ps);
    while i < nc.security_policies.len()
        invariant
            i <= ps.len(),
            ps == nc@.security_policies,
            ps.len() == nc.security_policies@.len(),
            nc@.well_formed(),
            builtins@ == builtin_applications(),
            first_policy_rule(nc@, ps, from@, to@, src_addr.0, dst_addr.0, protocol@, dst_port)
                == first_policy_rule(nc@, ps.skip(i as int), from@, to@, src_addr.0, dst_addr.0, protocol@, dst_port),
        decreases ps.len() - i,
    {
        let sp = &nc.security_policies[i];
        proof {
            assert(ps.skip(i as int)[0] == ps[i as int]);
            assert(ps[i as int] == sp@);
            assert(ps.skip(i as int).drop_first() =~= ps.skip(i + 1));
        }
        if sp.from_zone == *from && sp.to_zone == *to {
            let ghost rs = sp@.rules;
            let mut j: usize = 0;
            assert(rs.skip(0) =~= rs);
            while j < sp.rules.len()
                invariant
                    j <= rs.len(),
                    rs == sp@.rules,
                    rs.len() == sp.rules@.len(),
                    nc@.well_formed(),
                    builtins@ == builtin_applications(),
                    first_rule(nc@, rs, from@, to@, src_addr.0, dst_addr.0, protocol@, dst_port)
                        == first_rule(nc@, rs.skip(j as int), from@, to@, src_addr.0, dst_addr.0, protocol@, dst_port),
                decreases rs.len() - j,
            {
                let rule = &sp.rules[j];
                proof {
                    assert(rs.skip(j as int)[0] == rs[j as int]);
                    assert(rs[j as int] == rule@);
                    assert(rs.skip(j as int).drop_first() =~= rs.skip(j + 1));
                }
                if rule_matches(nc, builtins, rule, from, to, src_addr, dst_addr, protocol, dst_port) {
                    return Some(rule);
                }
                j = j + 1;
            }
            assert(rs.skip(j as int) =~= Seq::<PolicyRuleModel>::empty());
        }
        i = i + 1;
    }
    assert(ps.skip(i as int) =~= Seq::<SecurityPolicyModel>::empty());
    None
}

/// Evaluate whether traffic from `src_ip` to `dst_ip` is permitted.
pub fn reachability(
    nc: &NetworkConfig,
    src_ip: &str,
    dst_ip: &str,
    protocol: &str,
    dst_port: Option<u16>,
) -> (r: Result<ReachabilityResult, String>)
    requires
        nc@.well_formed(),
    ensures
        match r {
            Ok(res) => reachability_spec(nc@, src_ip@, dst_ip@, protocol@, dst_port) == Ok::<ReachabilityModel, Seq<char>>(res@),
            Err(e) => reachability_spec(nc@, src_ip@, dst_ip@, protocol@, dst_port) == Err::<ReachabilityModel, Seq<char>>(e@),
        },
{
    let from_zone = match zone_of_ip(nc, src_ip) {
        Ok(z) => z,
        Err(e) => {
            return Err(e);
        },
    };
    let to_zone = match zone_of_ip(nc, dst_ip) {
        Ok(z) => z,
        Err(e) => {
            return Err(e);
        },
    };
    let src_addr = match Ipv4Addr::parse(src_ip) {
        Ok(a) => a,
        Err(e) => {
            return Err(e);
        },
    };
    let dst_addr = match Ipv4Addr::parse(dst_ip) {
        Ok(a) => a,
        Err(e) => {
            return Err(e);
        },
    };
    let (from, to) = match (&from_zone, &to_zone) {
        (Some(f), Some(t)) => (f.clone(), t.clone()),
        _ => {
            return Ok(
                ReachabilityResult {
                    action: "unknown".to_owned(),
                    from_zone,
                    to_zone,
                    matching_rule: None,
                },
            );
        },
    };
    if from == to {
        return Ok(
            ReachabilityResult { action: "permit".to_owned(), from_zone, to_zone, matching_rule: None },
        );
    }
    let builtins = junos_applications();
    match find_matching_rule(nc, &builtins, &from, &to, src_addr, dst_addr, protocol, dst_port) {
        Some(rule) => {
            let action = rule.action.clone();
            Ok(ReachabilityResult { action, from_zone, to_zone, matching_rule: Some(copy_rule(rule)) })
        },
        // No policy matched -> implicit deny
        None => Ok(
            ReachabilityResult { action: "deny".to_owned(), from_zone, to_zone, matching_rule: None },
        ),
    }
}

// ---------------------------------------------------------------------------
// Shadowed rules
// ---------------------------------------------------------------------------

/// Whether a rule matches everything: source `any`, destination `any` and
/// application `any`, each alone.
pub open spec fn is_catch_all(r: PolicyRuleModel) -> bool {
    &&& r.rule_match.source_addresses == seq!["any"@]
    &&& r.rule_match.destination_addresses == seq!["any"@]
    &&& r.rule_match.applications == seq!["any"@]
}

/// Whether rule `ri` of `rules` follows a catch-all rule.
pub open spec fn is_shadowed(rules: Seq<PolicyRuleModel>, ri: int) -> bool {
    exists|k: int| 0 <= k < ri && is_catch_all(#[trigger] rules[k])
}

/// `(pi, ri)` for each shadowed rule `ri` of `rules`, in order.
pub open spec fn shadowed_in_policy(pi: int, rules: Seq<PolicyRuleModel>) -> Seq<(usize, usize)>
    decreases rules.len(),
{
    if rules.len() == 0 {
        Seq::empty()
    } else {
        let prev = shadowed_in_policy(pi, rules.drop_last());
        if is_shadowed(rules, rules.len() - 1) {
            prev.push((pi as usize, (rules.len() - 1) as usize))
        } else {
            prev
        }
    }
}

/// `(policy index, rule index)` for every shadowed rule, policy by policy and
/// rule by rule.
pub open spec fn shadowed_spec(ps: Seq<SecurityPolicyModel>) -> Seq<(usize, usize)>
    decreases ps.len(),
{
    if ps.len() == 0 {
        Seq::empty()
    } else {
        shadowed_spec(ps.drop_last()) + shadowed_in_policy(ps.len() - 1, ps.last().rules)
    }
}

fn is_only_any(v: &Vec<String>) -> (b: bool)
    ensures
        b == (v.deep_view() == seq!["any"@]),
{
    if v.len() == 1 && str_eq(v[0].as_str(), "any") {
        assert(v.deep_view() =~= seq!["any"@]);
        true
    } else {
        if v.len() == 1 {
            assert(v.deep_view()[0] != "any"@);
        }
        assert(v.deep_view().len() == v@.len());
        false
    }
}

/// Find policy rules that can never be reached because an earlier catch-all
/// rule (source `any`, destination `any`, application `any`) precedes them.
///
/// Returns `(policy_index, rule_index)` pairs into `nc.security_policies`.
pub fn shadowed_rules(nc: &NetworkConfig) -> (r: Vec<(usize, usize)>)
    ensures
        r@ == shadowed_spec(nc@.security_policies),
        forall|k: int| 0 <= k < r@.len() ==> {
            let e = #[trigger] r@[k];
            &&& e.0 < nc@.security_policies.len()
            &&& e.1 < nc@.security_policies[e.0 as int].rules.len()
        },
{
    let ghost ps = nc@.security_policies;
    let mut result: Vec<(usize, usize)> = Vec::new();
    let mut pi: usize = 0;
    assert(result@ =~= shadowed_spec(ps.take(0)));
    while pi < nc.security_policies.len()
        invariant
            pi <= ps.len(),
            ps == nc@.security_policies,
            ps.len() == nc.security_policies@.len(),
            result@ == shadowed_spec(ps.take(pi as int)),
            forall|k: int| 0 <= k < result@.len() ==> {
                let e = #[trigger] result@[k];
                &&& e.0 < pi
                &&& e.1 < ps[e.0 as int].rules.len()
            },
        decreases ps.len() - pi,
    {
        let sp = &nc.security_policies[pi];
        let ghost rs = sp@.rules;
        let ghost base = result@;
        proof {
            assert(ps.take(pi + 1).drop_last() =~= ps.take(pi as int));
            assert(ps.take(pi + 1).last() == sp@);
        }
        let mut catchall_seen = false;
        let mut ri: usize = 0;
        assert(rs == ps[pi as int].rules);
        assert(result@ =~= base + shadowed_in_policy(pi as int, rs.take(0)));
        while ri < sp.rules.len()
            invariant
                ri <= rs.len(),
                rs == sp@.rules,
                rs.len() == sp.rules@.len(),
                result@ == base + shadowed_in_policy(pi as int, rs.take(ri as int)),
                catchall_seen == is_shadowed(rs, ri as int),
                pi < ps.len(),
                rs == ps[pi as int].rules,
                result@.len() >= base.len(),
                forall|k: int| 0 <= k < base.len() ==> {
                    let e = #[trigger] result@[k];
                    &&& e.0 < pi
                    &&& e.1 < ps[e.0 as int].rules.len()
                },
                forall|k: int| base.len() <= k < result@.len() ==> {
                    let e = #[trigger] result@[k];
                    &&& e.0 == pi
                    &&& e.1 < ri
                },
            decreases rs.len() - ri,
        {
            let rule = &sp.rules[ri];
            proof {
                assert(rs.take(ri + 1).drop_last() =~= rs.take(ri as int));
                assert(rs[ri as int] == rule@);
                assert(is_shadowed(rs.take(ri + 1), ri as int) == is_shadowed(rs, ri as int)) by {
                    if is_shadowed(rs, ri as int) {
                        let k = choose|k: int| 0 <= k < ri && is_catch_all(#[trigger] rs[k]);
                        assert(rs.take(ri + 1)[k] == rs[k]);
                    }
                    if is_shadowed(rs.take(ri + 1), ri as int) {
                        let k = choose|k: int| 0 <= k < ri && is_catch_all(#[trigger] rs.take(ri + 1)[k]);
                        assert(rs.take(ri + 1)[k] == rs[k]);
                    }
                }
            }
            let ghost before = result@;
            if catchall_seen {
                result.push((pi, ri));
                assert(result@[result@.len() - 1] == (pi, ri));
            }
            assert(result@ =~= base + shadowed_in_policy(pi as int, rs.take(ri + 1)));
            let m = &rule.rule_match;
            if is_only_any(&m.source_addresses) && is_only_any(&m.destination_addresses)
                && is_only_any(&m.applications) {
                catchall_seen = true;
                assert(is_catch_all(rs[ri as int]));
            }
            proof {
                if catchall_seen && !is_shadowed(rs, ri as int) {
                    assert(is_catch_all(rs[ri as int]));
                }
                if is_shadowed(rs, ri as int) {
                    let k = choose|k: int| 0 <= k < ri && is_catch_all(#[trigger] rs[k]);
                    assert(is_shadowed(rs, ri + 1));
                }
                if is_shadowed(rs, ri + 1) && !is_catch_all(rs[ri as int]) {
                    let k = choose|k: int| 0 <= k < ri + 1 && is_catch_all(#[trigger] rs[k]);
                    assert(k < ri);
                }
            }
            ri = ri + 1;
        }
        assert(rs.take(ri as int) =~= rs);
        pi = pi + 1;
    }
    assert(ps.take(pi as int) =~= ps);
    result
}

proof fn lemma_is_shadowed_prefix(rules: Seq<PolicyRuleModel>, n: int, ri: int)
    requires
        0 <= ri <= n <= rules.len(),
    ensures
        is_shadowed(rules.take(n), ri) == is_shadowed(rules, ri),
{
    if is_shadowed(rules, ri) {
        let k = choose|k: int| 0 <= k < ri && is_catch_all(#[trigger] rules[k]);
        assert(rules.take(n)[k] == rules[k]);
    }
    if is_shadowed(rules.take(n), ri) {
        let k = choose|k: int| 0 <= k < ri && is_catch_all(#[trigger] rules.take(n)[k]);
        assert(rules.take(n)[k] == rules[k]);
    }
}

proof fn lemma_shadowed_in_policy(pi: int, rules: Seq<PolicyRuleModel>)
    requires
        0 <= pi <= usize::MAX,
        rules.len() <= usize::MAX,
    ensures
        forall|k: int| 0 <= k < shadowed_in_policy(pi, rules).len() ==> {
            let e = #[trigger] shadowed_in_policy(pi, rules)[k];
            &&& e.0 == pi
            &&& e.1 < rules.len()
            &&& is_shadowed(rules, e.1 as int)
        },
        forall|ri: int| 0 <= ri < rules.len() && #[trigger] is_shadowed(rules, ri)
            ==> shadowed_in_policy(pi, rules).contains((pi as usize, ri as usize)),
        forall|k1: int, k2: int| 0 <= k1 < k2 < shadowed_in_policy(pi, rules).len()
            ==> (#[trigger] shadowed_in_policy(pi, rules)[k1]).1 < (#[trigger] shadowed_in_policy(pi, rules)[k2]).1,
    decreases rules.len(),
{
    if rules.len() > 0 {
        let n = rules.len() - 1;
        let dl = rules.drop_last();
        assert(dl =~= rules.take(n));
        lemma_shadowed_in_policy(pi, dl);
        let prev = shadowed_in_policy(pi, dl);
        let all = shadowed_in_policy(pi, rules);
        assert forall|ri: int| 0 <= ri < n implies is_shadowed(dl, ri) == is_shadowed(rules, ri) by {
            lemma_is_shadowed_prefix(rules, n, ri);
        }
        if is_shadowed(rules, n) {
            assert(all == prev.push((pi as usize, n as usize)));
            assert(all[prev.len() as int] == (pi as usize, n as usize));
        } else {
            assert(all == prev);
        }
        assert forall|k: int| 0 <= k < all.len() implies {
            let e = #[trigger] all[k];
            &&& e.0 == pi
            &&& e.1 < rules.len()
            &&& is_shadowed(rules, e.1 as int)
        } by {
            if k < prev.len() {
                assert(all[k] == prev[k]);
            }
        }
        assert forall|ri: int| 0 <= ri < rules.len() && #[trigger] is_shadowed(rules, ri) implies all.contains(
            (pi as usize, ri as usize),
        ) by {
            if ri < n {
                assert(is_shadowed(dl, ri));
                assert(prev.contains((pi as usize, ri as usize)));
                let k = choose|k: int| 0 <= k < prev.len() && prev[k] == (pi as usize, ri as usize);
                assert(all[k] == prev[k]);
            } else {
                assert(all[prev.len() as int] == (pi as usize, ri as usize));
            }
        }
        assert forall|k1: int, k2: int| 0 <= k1 < k2 < all.len() implies (#[trigger] all[k1]).1 < (#[trigger] all[k2]).1 by {
            assert(all[k1] == prev[k1]);
            if k2 < prev.len() {
                assert(all[k2] == prev[k2]);
            }
        }
    }
}

/// The rules reported as shadowed are exactly those that follow a catch-all
/// rule of the same policy, each reported once, in policy order and then in
/// rule order.
pub proof fn lemma_shadowed_rules_exact(ps: Seq<SecurityPolicyModel>)
    requires
        ps.len() <= usize::MAX,
        forall|p: int| 0 <= p < ps.len() ==> (#[trigger] ps[p]).rules.len() <= usize::MAX,
    ensures
        forall|k: int| 0 <= k < shadowed_spec(ps).len() ==> {
            let e = #[trigger] shadowed_spec(ps)[k];
            &&& e.0 < ps.len()
            &&& e.1 < ps[e.0 as int].rules.len()
            &&& is_shadowed(ps[e.0 as int].rules, e.1 as int)
        },
        forall|pi: int, ri: int|
            0 <= pi < ps.len() && 0 <= ri < ps[pi].rules.len() && #[trigger] is_shadowed(ps[pi].rules, ri)
                ==> shadowed_spec(ps).contains((pi as usize, ri as usize)),
        forall|k1: int, k2: int| 0 <= k1 < k2 < shadowed_spec(ps).len() ==> {
            let a = #[trigger] shadowed_spec(ps)[k1];
            let b = #[trigger] shadowed_spec(ps)[k2];
            a.0 < b.0 || (a.0 == b.0 && a.1 < b.1)
        },
    decreases ps.len(),
{
    if ps.len() > 0 {
        let n = ps.len() - 1;
        let dl = ps.drop_last();
        assert forall|p: int| 0 <= p < dl.len() implies (#[trigger] dl[p]).rules.len() <= usize::MAX by {
            assert(dl[p] == ps[p]);
        }
        lemma_shadowed_rules_exact(dl);
        let last = ps[n];
        assert(ps.last() == last);
        lemma_shadowed_in_policy(n, last.rules);
        let prev = shadowed_spec(dl);
        let tail = shadowed_in_policy(n, last.rules);
        let all = shadowed_spec(ps);
        assert(all == prev + tail);
        assert forall|k: int| 0 <= k < all.len() implies {
            let e = #[trigger] all[k];
            &&& e.0 < ps.len()
            &&& e.1 < ps[e.0 as int].rules.len()
            &&& is_shadowed(ps[e.0 as int].rules, e.1 as int)
        } by {
            if k < prev.len() {
                assert(all[k] == prev[k]);
                assert(dl[prev[k].0 as int] == ps[prev[k].0 as int]);
            } else {
                assert(all[k] == tail[k - prev.len()]);
            }
        }
        assert forall|pi: int, ri: int|
            0 <= pi < ps.len() && 0 <= ri < ps[pi].rules.len() && #[trigger] is_shadowed(ps[pi].rules, ri)
            implies all.contains((pi as usize, ri as usize)) by {
            if pi < n {
                assert(dl[pi] == ps[pi]);
                assert(prev.contains((pi as usize, ri as usize)));
                let k = choose|k: int| 0 <= k < prev.len() && prev[k] == (pi as usize, ri as usize);
                assert(all[k] == prev[k]);
            } else {
                assert(tail.contains((pi as usize, ri as usize)));
                let k = choose|k: int| 0 <= k < tail.len() && tail[k] == (pi as usize, ri as usize);
                assert(all[prev.len() + k] == tail[k]);
            }
        }
        assert forall|k1: int, k2: int| 0 <= k1 < k2 < all.len() implies {
            let a = #[trigger] all[k1];
            let b = #[trigger] all[k2];
            a.0 < b.0 || (a.0 == b.0 && a.1 < b.1)
        } by {
            if k2 < prev.len() {
                assert(all[k1] == prev[k1]);
                assert(all[k2] == prev[k2]);
            } else if k1 < prev.len() {
                assert(all[k1] == prev[k1]);
                assert(all[k2] == tail[k2 - prev.len()]);
            } else {
                assert(all[k1] == tail[k1 - prev.len()]);
                assert(all[k2] == tail[k2 - prev.len()]);
            }
        }
    }
}

/// Convenience view returning references for each shadowed rule.
pub fn shadowed_rule_refs(nc: &NetworkConfig) -> (r: Vec<(&SecurityPolicy, &PolicyRule)>)
    ensures
        r@.len() == shadowed_spec(nc@.security_policies).len(),
        forall|k: int| 0 <= k < r@.len() ==> {
            let e = #[trigger] shadowed_spec(nc@.security_policies)[k];
            &&& r@[k].0@ == nc@.security_policies[e.0 as int]
            &&& r@[k].1@ == nc@.security_policies[e.0 as int].rules[e.1 as int]
            &&& *r@[k].0 == nc.security_policies@[e.0 as int]
            &&& *r@[k].1 == nc.security_policies@[e.0 as int].rules@[e.1 as int]
        },
{
    let pairs = shadowed_rules(nc);
    let ghost ps = nc@.security_policies;
    let mut result: Vec<(&SecurityPolicy, &PolicyRule)> = Vec::new();
    let mut k: usize = 0;
    while k < pairs.len()
        invariant
            k <= pairs@.len(),
            pairs@ == shadowed_spec(ps),
            ps == nc@.security_policies,
            ps.len() == nc.security_policies@.len(),
            result@.len() == k,
            forall|j: int| 0 <= j < pairs@.len() ==> {
                let e = #[trigger] pairs@[j];
                &&& e.0 < ps.len()
                &&& e.1 < ps[e.0 as int].rules.len()
            },
            forall|j: int| 0 <= j < k ==> {
                let e = #[trigger] shadowed_spec(ps)[j];
                &&& result@[j].0@ == ps[e.0 as int]
                &&& result@[j].1@ == ps[e.0 as int].rules[e.1 as int]
                &&& *result@[j].0 == nc.security_policies@[e.0 as int]
                &&& *result@[j].1 == nc.security_policies@[e.0 as int].rules@[e.1 as int]
            },
        decreases pairs@.len() - k,
    {
        let (pi, ri) = pairs[k];
        assert(shadowed_spec(ps)[k as int] == (pi, ri));
        let sp = &nc.security_policies[pi];
        assert(sp@ == ps[pi as int]);
        assert(sp.rules@.len() == ps[pi as int].rules.len());
        let rule = &sp.rules[ri];
        result.push((sp, rule));
        k = k + 1;
    }
    result
}

// ---------------------------------------------------------------------------
// Properties of the queries
// ---------------------------------------------------------------------------

proof fn lemma_first_rule(
    nc: NetworkConfigModel,
    rules: Seq<PolicyRuleModel>,
    from: Seq<char>,
    to: Seq<char>,
    s: u32,
    d: u32,
    protocol: Seq<char>,
    dst_port: Option<u16>,
)
    ensures
        first_rule(nc, rules, from, to, s, d, protocol, dst_port) matches Some(r) ==> exists|k: int|
            0 <= k < rules.len() && #[trigger] rules[k] == r && rule_matches_spec(nc, r, from, to, s, d, protocol, dst_port)
                && forall|j: int| 0 <= j < k ==> !rule_matches_spec(nc, #[trigger] rules[j], from, to, s, d, protocol, dst_port),
        first_rule(nc, rules, from, to, s, d, protocol, dst_port) is None ==> forall|k: int|
            0 <= k < rules.len() ==> !rule_matches_spec(nc, #[trigger] rules[k], from, to, s, d, protocol, dst_port),
    decreases rules.len(),
{
    if rules.len() > 0 {
        let rest = rules.drop_first();
        lemma_first_rule(nc, rest, from, to, s, d, protocol, dst_port);
        if !rule_matches_spec(nc, rules[0], from, to, s, d, protocol, dst_port) {
            if first_rule(nc, rest, from, to, s, d, protocol, dst_port) is Some {
                let r = first_rule(nc, rest, from, to, s, d, protocol, dst_port)->0;
                let k = choose|k: int|
                    0 <= k < rest.len() && #[trigger] rest[k] == r && rule_matches_spec(nc, r, from, to, s, d, protocol, dst_port)
                        && forall|j: int| 0 <= j < k ==> !rule_matches_spec(nc, #[trigger] rest[j], from, to, s, d, protocol, dst_port);
                assert(rules[k + 1] == r);
                assert forall|j: int| 0 <= j < k + 1 implies !rule_matches_spec(nc, #[trigger] rules[j], from, to, s, d, protocol, dst_port) by {
                    if j > 0 {
                        assert(rules[j] == rest[j - 1]);
                    }
                }
            } else {
                assert forall|k: int| 0 <= k < rules.len() implies !rule_matches_spec(nc, #[trigger] rules[k], from, to, s, d, protocol, dst_port) by {
                    if k > 0 {
                        assert(rules[k] == rest[k - 1]);
                    }
                }
            }
        } else {
            assert(rules[0] == first_rule(nc, rules, from, to, s, d, protocol, dst_port)->0);
        }
    }
}

proof fn lemma_first_policy_rule(
    nc: NetworkConfigModel,
    ps: Seq<SecurityPolicyModel>,
    from: Seq<char>,
    to: Seq<char>,
    s: u32,
    d: u32,
    protocol: Seq<char>,
    dst_port: Option<u16>,
)
    ensures
        first_policy_rule(nc, ps, from, to, s, d, protocol, dst_port) matches Some(r) ==> exists|pi: int, ri: int|
            0 <= pi < ps.len() && 0 <= ri < ps[pi].rules.len() && ps[pi].from_zone == from && ps[pi].to_zone == to
                && #[trigger] ps[pi].rules[ri] == r && rule_matches_spec(nc, r, from, to, s, d, protocol, dst_port),
        first_policy_rule(nc, ps, from, to, s, d, protocol, dst_port) is None ==> forall|pi: int, ri: int|
            0 <= pi < ps.len() && 0 <= ri < ps[pi].rules.len() && ps[pi].from_zone == from && ps[pi].to_zone == to
                ==> !rule_matches_spec(nc, #[trigger] ps[pi].rules[ri], from, to, s, d, protocol, dst_port),
    decreases ps.len(),
{
    if ps.len() > 0 {
        let rest = ps.drop_first();
        lemma_first_policy_rule(nc, rest, from, to, s, d, protocol, dst_port);
        let p = ps[0];
        lemma_first_rule(nc, p.rules, from, to, s, d, protocol, dst_port);
        let here = p.from_zone == from && p.to_zone == to && first_rule(nc, p.rules, from, to, s, d, protocol, dst_port) is Some;
        if here {
            let r = first_rule(nc, p.rules, from, to, s, d, protocol, dst_port)->0;
            let k = choose|k: int|
                0 <= k < p.rules.len() && #[trigger] p.rules[k] == r && rule_matches_spec(nc, r, from, to, s, d, protocol, dst_port)
                    && forall|j: int| 0 <= j < k ==> !rule_matches_spec(nc, #[trigger] p.rules[j], from, to, s, d, protocol, dst_port);
            assert(ps[0].rules[k] == r);
        } else {
            if first_policy_rule(nc, rest, from, to, s, d, protocol, dst_port) is Some {
                let r = first_policy_rule(nc, rest, from, to, s, d, protocol, dst_port)->0;
                let (pi, ri) = choose|pi: int, ri: int|
                    0 <= pi < rest.len() && 0 <= ri < rest[pi].rules.len() && rest[pi].from_zone == from && rest[pi].to_zone == to
                        && #[trigger] rest[pi].rules[ri] == r && rule_matches_spec(nc, r, from, to, s, d, protocol, dst_port);
                assert(ps[pi + 1] == rest[pi]);
                assert(ps[pi + 1].rules[ri] == r);
            } else {
                assert forall|pi: int, ri: int|
                    0 <= pi < ps.len() && 0 <= ri < ps[pi].rules.len() && ps[pi].from_zone == from && ps[pi].to_zone == to
                    implies !rule_matches_spec(nc, #[trigger] ps[pi].rules[ri], from, to, s, d, protocol, dst_port) by {
                    if pi > 0 {
                        assert(ps[pi] == rest[pi - 1]);
                    }
                }
            }
        }
    }
}

/// The verdicts of a reachability query. The zones reported are those of the
/// two addresses. The verdict is `unknown` when either zone is unknown, and
/// `permit` for traffic within one zone. Otherwise a reported rule is one that
/// applies, is taken from a policy for that pair of zones, and gives its
/// action; when no rule is reported, no rule of a policy for that pair of
/// zones applies and the verdict is an implicit `deny`.
pub proof fn lemma_reachability_verdicts(nc: NetworkConfigModel, s: u32, d: u32, protocol: Seq<char>, dst_port: Option<u16>)
    ensures
        ({
            let r = decide(nc, s, d, protocol, dst_port);
            let from = nc.zone_of(s);
            let to = nc.zone_of(d);
            &&& r.from_zone == from
            &&& r.to_zone == to
            &&& (from is None || to is None) ==> r.action == "unknown"@ && r.matching_rule is None
            &&& (from is Some && from == to) ==> r.action == "permit"@ && r.matching_rule is None
            &&& (r.matching_rule matches Some(rule) ==> {
                &&& from is Some && to is Some && from != to
                &&& r.action == rule.action
                &&& rule_matches_spec(nc, rule, from->0, to->0, s, d, protocol, dst_port)
                &&& exists|pi: int, ri: int|
                    0 <= pi < nc.security_policies.len() && 0 <= ri < nc.security_policies[pi].rules.len()
                        && nc.security_policies[pi].from_zone == from->0 && nc.security_policies[pi].to_zone == to->0
                        && #[trigger] nc.security_policies[pi].rules[ri] == rule
            })
            &&& (from is Some && to is Some && from != to && r.matching_rule is None) ==> {
                &&& r.action == "deny"@
                &&& forall|pi: int, ri: int|
                    0 <= pi < nc.security_policies.len() && 0 <= ri < nc.security_policies[pi].rules.len()
                        && nc.security_policies[pi].from_zone == from->0 && nc.security_policies[pi].to_zone == to->0
                        ==> !rule_matches_spec(nc, #[trigger] nc.security_policies[pi].rules[ri], from->0, to->0, s, d, protocol, dst_port)
            }
        }),
{
    let from = nc.zone_of(s);
    let to = nc.zone_of(d);
    if from is Some && to is Some && from != to {
        lemma_first_policy_rule(nc, nc.security_policies, from->0, to->0, s, d, protocol, dst_port);
    }
}

proof fn lemma_zone_for_interface(zones: Seq<(Seq<char>, SecurityZoneModel)>, iu: Seq<char>)
    ensures
        zone_for_interface_spec(zones, iu) matches Some(z) ==> exists|i: int|
            0 <= i < zones.len() && (#[trigger] zones[i]).1.name == z && zones[i].1.interfaces.contains(iu),
        zone_for_interface_spec(zones, iu) is None ==> forall|i: int|
            0 <= i < zones.len() ==> !(#[trigger] zones[i]).1.interfaces.contains(iu),
    decreases zones.len(),
{
    if zones.len() > 0 {
        let rest = zones.drop_first();
        lemma_zone_for_interface(rest, iu);
        if !zones[0].1.interfaces.contains(iu) {
            if zone_for_interface_spec(rest, iu) is Some {
                let z = zone_for_interface_spec(rest, iu)->0;
                let i = choose|i: int| 0 <= i < rest.len() && (#[trigger] rest[i]).1.name == z && rest[i].1.interfaces.contains(iu);
                assert(zones[i + 1] == rest[i]);
            } else {
                assert forall|i: int| 0 <= i < zones.len() implies !(#[trigger] zones[i]).1.interfaces.contains(iu) by {
                    if i > 0 {
                        assert(zones[i] == rest[i - 1]);
                    }
                }
            }
        }
    }
}

proof fn lemma_zone_of_addr(zones: Seq<(Seq<char>, SecurityZoneModel)>, es: Seq<(Seq<char>, Seq<char>, Ipv4Network)>, a: u32)
    ensures
        zone_of_addr(zones, es, a) matches Some(z) ==> exists|k: int|
            0 <= k < es.len() && (#[trigger] es[k]).2.spec_contains(a) && zone_for_interface_spec(zones, unit_name(es[k].0, es[k].1)) == Some(z),
        zone_of_addr(zones, es, a) is None ==> forall|k: int|
            0 <= k < es.len() && (#[trigger] es[k]).2.spec_contains(a) ==> zone_for_interface_spec(zones, unit_name(es[k].0, es[k].1)) is None,
    decreases es.len(),
{
    if es.len() > 0 {
        let rest = es.drop_first();
        lemma_zone_of_addr(zones, rest, a);
        let e = es[0];
        if !(e.2.spec_contains(a) && zone_for_interface_spec(zones, unit_name(e.0, e.1)) is Some) {
            if zone_of_addr(zones, rest, a) is Some {
                let z = zone_of_addr(zones, rest, a)->0;
                let k = choose|k: int|
                    0 <= k < rest.len() && (#[trigger] rest[k]).2.spec_contains(a) && zone_for_interface_spec(zones, unit_name(rest[k].0, rest[k].1)) == Some(z);
                assert(es[k + 1] == rest[k]);
            } else {
                assert forall|k: int| 0 <= k < es.len() && (#[trigger] es[k]).2.spec_contains(a) implies zone_for_interface_spec(
                    zones,
                    unit_name(es[k].0, es[k].1),
                ) is None by {
                    if k > 0 {
                        assert(es[k] == rest[k - 1]);
                    }
                }
            }
        }
    }
}

proof fn lemma_zone_for_interface_first(zones: Seq<(Seq<char>, SecurityZoneModel)>, iu: Seq<char>)
    ensures
        zone_for_interface_spec(zones, iu) matches Some(z) ==> exists|i: int|
            0 <= i < zones.len() && (#[trigger] zones[i]).1.name == z && zones[i].1.interfaces.contains(iu)
                && forall|h: int| 0 <= h < i ==> !(#[trigger] zones[h]).1.interfaces.contains(iu),
    decreases zones.len(),
{
    if zones.len() > 0 && !zones[0].1.interfaces.contains(iu) {
        let rest = zones.drop_first();
        lemma_zone_for_interface_first(rest, iu);
        if zone_for_interface_spec(rest, iu) is Some {
            let z = zone_for_interface_spec(rest, iu)->0;
            let i = choose|i: int|
                0 <= i < rest.len() && (#[trigger] rest[i]).1.name == z && rest[i].1.interfaces.contains(iu)
                    && forall|h: int| 0 <= h < i ==> !(#[trigger] rest[h]).1.interfaces.contains(iu);
            assert(zones[i + 1] == rest[i]);
            assert forall|h: int| 0 <= h < i + 1 implies !(#[trigger] zones[h]).1.interfaces.contains(iu) by {
                if h > 0 {
                    assert(zones[h] == rest[h - 1]);
                }
            }
        }
    } else if zones.len() > 0 {
        assert(zones[0].1.interfaces.contains(iu));
    }
}

proof fn lemma_zone_of_addr_first(
    zones: Seq<(Seq<char>, SecurityZoneModel)>,
    es: Seq<(Seq<char>, Seq<char>, Ipv4Network)>,
    a: u32,
)
    ensures
        zone_of_addr(zones, es, a) matches Some(z) ==> exists|k: int|
            0 <= k < es.len() && (#[trigger] es[k]).2.spec_contains(a) && zone_for_interface_spec(
                zones,
                unit_name(es[k].0, es[k].1),
            ) == Some(z) && forall|j: int|
                0 <= j < k && (#[trigger] es[j]).2.spec_contains(a) ==> zone_for_interface_spec(
                    zones,
                    unit_name(es[j].0, es[j].1),
                ) is None,
    decreases es.len(),
{
    if es.len() > 0 {
        let e = es[0];
        if !(e.2.spec_contains(a) && zone_for_interface_spec(zones, unit_name(e.0, e.1)) is Some) {
            let rest = es.drop_first();
            lemma_zone_of_addr_first(zones, rest, a);
            if zone_of_addr(zones, rest, a) is Some {
                let z = zone_of_addr(zones, rest, a)->0;
                let k = choose|k: int|
                    0 <= k < rest.len() && (#[trigger] rest[k]).2.spec_contains(a) && zone_for_interface_spec(
                        zones,
                        unit_name(rest[k].0, rest[k].1),
                    ) == Some(z) && forall|j: int|
                        0 <= j < k && (#[trigger] rest[j]).2.spec_contains(a) ==> zone_for_interface_spec(
                            zones,
                            unit_name(rest[j].0, rest[j].1),
                        ) is None;
                assert(es[k + 1] == rest[k]);
                assert forall|j: int| 0 <= j < k + 1 && (#[trigger] es[j]).2.spec_contains(a) implies zone_for_interface_spec(
                    zones,
                    unit_name(es[j].0, es[j].1),
                ) is None by {
                    if j > 0 {
                        assert(es[j] == rest[j - 1]);
                    }
                }
            }
        }
    }
}

/// The zone of an address comes from the first configured subnet (in
/// interface order, then unit order, then address order) that contains the
/// address and whose interface unit some zone lists; it is the name of the
/// first zone (in configuration order) listing that unit.
pub proof fn lemma_zone_of_first_subnet(nc: NetworkConfigModel, a: u32)
    ensures
        nc.zone_of(a) matches Some(z) ==> exists|k: int, i: int|
            0 <= k < nc.interface_ips().len() && 0 <= i < nc.security_zones.len()
                && (#[trigger] nc.interface_ips()[k]).2.spec_contains(a)
                && (#[trigger] nc.security_zones[i]).1.name == z
                && nc.security_zones[i].1.interfaces.contains(unit_name(nc.interface_ips()[k].0, nc.interface_ips()[k].1))
                && (forall|h: int| 0 <= h < i ==> !(#[trigger] nc.security_zones[h]).1.interfaces.contains(
                    unit_name(nc.interface_ips()[k].0, nc.interface_ips()[k].1),
                ))
                && (forall|j: int, h: int|
                    0 <= j < k && 0 <= h < nc.security_zones.len()
                        && (#[trigger] nc.interface_ips()[j]).2.spec_contains(a)
                        ==> !(#[trigger] nc.security_zones[h]).1.interfaces.contains(
                        unit_name(nc.interface_ips()[j].0, nc.interface_ips()[j].1),
                    )),
{
    let es = nc.interface_ips();
    let zs = nc.security_zones;
    lemma_zone_of_addr_first(zs, es, a);
    if nc.zone_of(a) is Some {
        let z = nc.zone_of(a)->0;
        let k = choose|k: int|
            0 <= k < es.len() && (#[trigger] es[k]).2.spec_contains(a) && zone_for_interface_spec(
                zs,
                unit_name(es[k].0, es[k].1),
            ) == Some(z) && forall|j: int|
                0 <= j < k && (#[trigger] es[j]).2.spec_contains(a) ==> zone_for_interface_spec(
                    zs,
                    unit_name(es[j].0, es[j].1),
                ) is None;
        let iu = unit_name(es[k].0, es[k].1);
        lemma_zone_for_interface_first(zs, iu);
        let i = choose|i: int|
            0 <= i < zs.len() && (#[trigger] zs[i]).1.name == z && zs[i].1.interfaces.contains(iu)
                && forall|h: int| 0 <= h < i ==> !(#[trigger] zs[h]).1.interfaces.contains(iu);
        assert forall|j: int, h: int|
            0 <= j < k && 0 <= h < zs.len() && (#[trigger] es[j]).2.spec_contains(a)
                implies !(#[trigger] zs[h]).1.interfaces.contains(unit_name(es[j].0, es[j].1)) by {
            lemma_zone_for_interface(zs, unit_name(es[j].0, es[j].1));
        }
        assert(es[k].2.spec_contains(a) && zs[i].1.name == z);
    }
}

/// Zone membership: an address is in zone `z` only when some configured
/// subnet containing it belongs to an interface unit that a zone named `z`
/// lists; an address is in no zone exactly when no configured subnet containing
/// it belongs to an interface unit that any zone lists.
pub proof fn lemma_zone_of_membership(nc: NetworkConfigModel, a: u32)
    ensures
        nc.zone_of(a) matches Some(z) ==> exists|k: int, i: int|
            0 <= k < nc.interface_ips().len() && 0 <= i < nc.security_zones.len()
                && (#[trigger] nc.interface_ips()[k]).2.spec_contains(a)
                && (#[trigger] nc.security_zones[i]).1.name == z
                && nc.security_zones[i].1.interfaces.contains(unit_name(nc.interface_ips()[k].0, nc.interface_ips()[k].1)),
        nc.zone_of(a) is None <==> forall|k: int, i: int|
            0 <= k < nc.interface_ips().len() && 0 <= i < nc.security_zones.len()
                && (#[trigger] nc.interface_ips()[k]).2.spec_contains(a)
                ==> !(#[trigger] nc.security_zones[i]).1.interfaces.contains(unit_name(nc.interface_ips()[k].0, nc.interface_ips()[k].1)),
{
    let es = nc.interface_ips();
    let zs = nc.security_zones;
    lemma_zone_of_addr(zs, es, a);
    if nc.zone_of(a) is Some {
        let z = nc.zone_of(a)->0;
        let k = choose|k: int|
            0 <= k < es.len() && (#[trigger] es[k]).2.spec_contains(a) && zone_for_interface_spec(zs, unit_name(es[k].0, es[k].1)) == Some(z);
        lemma_zone_for_interface(zs, unit_name(es[k].0, es[k].1));
        let i = choose|i: int| 0 <= i < zs.len() && (#[trigger] zs[i]).1.name == z && zs[i].1.interfaces.contains(unit_name(es[k].0, es[k].1));
        assert(es[k].2.spec_contains(a) && zs[i].1.name == z);
    } else {
        assert forall|k: int, i: int|
            0 <= k < es.len() && 0 <= i < zs.len() && (#[trigger] es[k]).2.spec_contains(a)
            implies !(#[trigger] zs[i]).1.interfaces.contains(unit_name(es[k].0, es[k].1)) by {
            lemma_zone_for_interface(zs, unit_name(es[k].0, es[k].1));
        }
    }
}

// ---------------------------------------------------------------------------
// How one rule is matched
// ---------------------------------------------------------------------------

/// Whether policy `pi` is the only policy from zone `f` to zone `t`, and it
/// holds exactly one rule.
pub open spec fn sole_rule_policy(nc: NetworkConfigModel, f: Seq<char>, t: Seq<char>, pi: int) -> bool {
    &&& 0 <= pi < nc.security_policies.len()
    &&& nc.security_policies[pi].from_zone == f
    &&& nc.security_policies[pi].to_zone == t
    &&& nc.security_policies[pi].rules.len() == 1
    &&& forall|j: int|
        0 <= j < nc.security_policies.len() && j != pi ==> !((#[trigger] nc.security_policies[j]).from_zone == f
            && nc.security_policies[j].to_zone == t)
}

/// The prefixes that address name `n` stands for in a rule of a policy that
/// involves zone `z`: what the address book of zone `z` gives for it, or what
/// the global address book gives when the zone's book gives nothing.
pub open spec fn prefixes_seen_from(nc: NetworkConfigModel, z: Seq<char>, n: Seq<char>) -> Seq<Ipv4Network> {
    let local = match map_lookup(nc.security_zones, z) {
        Some(zm) => zm.address_book.resolve(n),
        None => Seq::empty(),
    };
    if local.len() > 0 {
        local
    } else {
        nc.global_address_book.resolve(n)
    }
}

/// Whether one of the names `names`, seen from zone `z`, stands for a prefix
/// containing address `a`.
pub open spec fn names_cover(nc: NetworkConfigModel, z: Seq<char>, names: Seq<Seq<char>>, a: u32) -> bool {
    exists|i: int, k: int|
        0 <= i < names.len() && 0 <= k < prefixes_seen_from(nc, z, names[i]).len() && (#[trigger] prefixes_seen_from(
            nc,
            z,
            names[i],
        )[k]).spec_contains(a)
}

proof fn lemma_resolve_all_cover(nc: NetworkConfigModel, z: Seq<char>, names: Seq<Seq<char>>, a: u32)
    ensures
        (exists|k: int|
            0 <= k < resolve_all_in_zone(nc, Some(z), names).len() && (#[trigger] resolve_all_in_zone(
                nc,
                Some(z),
                names,
            )[k]).spec_contains(a)) <==> names_cover(nc, z, names, a),
    decreases names.len(),
{
    if names.len() > 0 {
        let init = names.drop_last();
        lemma_resolve_all_cover(nc, z, init, a);
        let r0 = resolve_all_in_zone(nc, Some(z), init);
        let r1 = prefixes_seen_from(nc, z, names.last());
        let all = resolve_all_in_zone(nc, Some(z), names);
        assert(all == r0 + r1);
        if exists|k: int| 0 <= k < all.len() && (#[trigger] all[k]).spec_contains(a) {
            let k = choose|k: int| 0 <= k < all.len() && (#[trigger] all[k]).spec_contains(a);
            if k < r0.len() {
                assert(all[k] == r0[k]);
                let (i, k2) = choose|i: int, k2: int|
                    0 <= i < init.len() && 0 <= k2 < prefixes_seen_from(nc, z, init[i]).len() && (#[trigger] prefixes_seen_from(
                        nc,
                        z,
                        init[i],
                    )[k2]).spec_contains(a);
                assert(names[i] == init[i]);
                assert(prefixes_seen_from(nc, z, names[i])[k2].spec_contains(a));
            } else {
                assert(all[k] == r1[k - r0.len()]);
                assert(names[names.len() - 1] == names.last());
                assert(prefixes_seen_from(nc, z, names[names.len() - 1])[k - r0.len()].spec_contains(a));
            }
        }
        if names_cover(nc, z, names, a) {
            let (i, k2) = choose|i: int, k2: int|
                0 <= i < names.len() && 0 <= k2 < prefixes_seen_from(nc, z, names[i]).len() && (#[trigger] prefixes_seen_from(
                    nc,
                    z,
                    names[i],
                )[k2]).spec_contains(a);
            if i < init.len() {
                assert(init[i] == names[i]);
                assert(prefixes_seen_from(nc, z, init[i])[k2].spec_contains(a));
                assert(names_cover(nc, z, init, a));
                let k = choose|k: int| 0 <= k < r0.len() && (#[trigger] r0[k]).spec_contains(a);
                assert(all[k] == r0[k]);
            } else {
                assert(all[r0.len() + k2] == r1[k2]);
                assert(all[r0.len() + k2].spec_contains(a));
            }
        }
    } else {
        assert(!names_cover(nc, z, names, a));
    }
}

proof fn lemma_ip_matches_cover(nc: NetworkConfigModel, z: Seq<char>, names: Seq<Seq<char>>, a: u32)
    requires
        !names.contains("any"@),
    ensures
        ip_matches_spec(nc, a, Some(z), names) <==> names_cover(nc, z, names, a),
{
    lemma_resolve_all_cover(nc, z, names, a);
    let all = resolve_all_in_zone(nc, Some(z), names);
    assert(resolve_addresses_spec(nc, Some(z), names) == all);
    if ip_matches_spec(nc, a, Some(z), names) {
        let k = choose|k: int|
            0 <= k < resolve_addresses_spec(nc, Some(z), names).len() && (#[trigger] resolve_addresses_spec(
                nc,
                Some(z),
                names,
            )[k]).spec_contains(a);
        assert(all[k].spec_contains(a));
    }
    if names_cover(nc, z, names, a) {
        let k = choose|k: int| 0 <= k < all.len() && (#[trigger] all[k]).spec_contains(a);
        assert(resolve_addresses_spec(nc, Some(z), names)[k].spec_contains(a));
    }
}

proof fn lemma_sole_rule(
    nc: NetworkConfigModel,
    s: u32,
    d: u32,
    protocol: Seq<char>,
    dst_port: Option<u16>,
    f: Seq<char>,
    t: Seq<char>,
    pi: int,
)
    requires
        nc.zone_of(s) == Some(f),
        nc.zone_of(d) == Some(t),
        f != t,
        sole_rule_policy(nc, f, t, pi),
    ensures
        ({
            let r = nc.security_policies[pi].rules[0];
            decide(nc, s, d, protocol, dst_port) == if rule_matches_spec(nc, r, f, t, s, d, protocol, dst_port) {
                ReachabilityModel { action: r.action, from_zone: Some(f), to_zone: Some(t), matching_rule: Some(r) }
            } else {
                ReachabilityModel { action: "deny"@, from_zone: Some(f), to_zone: Some(t), matching_rule: None }
            }
        }),
{
    lemma_reachability_verdicts(nc, s, d, protocol, dst_port);
    let r = nc.security_policies[pi].rules[0];
    let res = decide(nc, s, d, protocol, dst_port);
    if res.matching_rule is Some {
        let rule = res.matching_rule->0;
        let (pj, rj) = choose|pj: int, rj: int|
            0 <= pj < nc.security_policies.len() && 0 <= rj < nc.security_policies[pj].rules.len()
                && nc.security_policies[pj].from_zone == f && nc.security_policies[pj].to_zone == t
                && #[trigger] nc.security_policies[pj].rules[rj] == rule;
        assert(pj == pi);
        assert(rule == r);
    } else {
        assert(!rule_matches_spec(nc, nc.security_policies[pi].rules[0], f, t, s, d, protocol, dst_port));
    }
}

/// Where a rule's source addresses are looked up: in the address book of the
/// source (from) zone, falling back to the global book. When the only policy
/// between the two zones holds one rule, whose destination is `any` and which
/// names no application, the rule is reported (with its action) exactly when
/// one of its source names, seen from the source zone, stands for a prefix
/// containing the source address; otherwise the verdict is `deny`.
pub proof fn lemma_source_names_seen_from_source_zone(
    nc: NetworkConfigModel,
    s: u32,
    d: u32,
    protocol: Seq<char>,
    dst_port: Option<u16>,
    f: Seq<char>,
    t: Seq<char>,
    pi: int,
)
    requires
        nc.zone_of(s) == Some(f),
        nc.zone_of(d) == Some(t),
        f != t,
        sole_rule_policy(nc, f, t, pi),
        nc.security_policies[pi].rules[0].rule_match.destination_addresses == seq!["any"@],
        nc.security_policies[pi].rules[0].rule_match.applications.len() == 0,
        !nc.security_policies[pi].rules[0].rule_match.source_addresses.contains("any"@),
    ensures
        ({
            let r = nc.security_policies[pi].rules[0];
            decide(nc, s, d, protocol, dst_port) == if names_cover(nc, f, r.rule_match.source_addresses, s) {
                ReachabilityModel { action: r.action, from_zone: Some(f), to_zone: Some(t), matching_rule: Some(r) }
            } else {
                ReachabilityModel { action: "deny"@, from_zone: Some(f), to_zone: Some(t), matching_rule: None }
            }
        }),
{
    let r = nc.security_policies[pi].rules[0];
    lemma_sole_rule(nc, s, d, protocol, dst_port, f, t, pi);
    lemma_ip_matches_cover(nc, f, r.rule_match.source_addresses, s);
    assert(seq!["any"@].contains("any"@)) by {
        assert(seq!["any"@][0] == "any"@);
    }
    assert(resolve_app_names_spec(nc, r.rule_match.applications).len() == 0);
}

/// Where a rule's destination addresses are looked up: in the address book of
/// the destination (to) zone, falling back to the global book. When the only
/// policy between the two zones holds one rule, whose source is `any` and
/// which names no application, the rule is reported exactly when one of its
/// destination names, seen from the destination zone, stands for a prefix
/// containing the destination address; otherwise the verdict is `deny`.
pub proof fn lemma_destination_names_seen_from_destination_zone(
    nc: NetworkConfigModel,
    s: u32,
    d: u32,
    protocol: Seq<char>,
    dst_port: Option<u16>,
    f: Seq<char>,
    t: Seq<char>,
    pi: int,
)
    requires
        nc.zone_of(s) == Some(f),
        nc.zone_of(d) == Some(t),
        f != t,
        sole_rule_policy(nc, f, t, pi),
        nc.security_policies[pi].rules[0].rule_match.source_addresses == seq!["any"@],
        nc.security_policies[pi].rules[0].rule_match.applications.len() == 0,
        !nc.security_policies[pi].rules[0].rule_match.destination_addresses.contains("any"@),
    ensures
        ({
            let r = nc.security_policies[pi].rules[0];
            decide(nc, s, d, protocol, dst_port) == if names_cover(nc, t, r.rule_match.destination_addresses, d) {
                ReachabilityModel { action: r.action, from_zone: Some(f), to_zone: Some(t), matching_rule: Some(r) }
            } else {
                ReachabilityModel { action: "deny"@, from_zone: Some(f), to_zone: Some(t), matching_rule: None }
            }
        }),
{
    let r = nc.security_policies[pi].rules[0];
    lemma_sole_rule(nc, s, d, protocol, dst_port, f, t, pi);
    lemma_ip_matches_cover(nc, t, r.rule_match.destination_addresses, d);
    assert(seq!["any"@].contains("any"@)) by {
        assert(seq!["any"@][0] == "any"@);
    }
    assert(resolve_app_names_spec(nc, r.rule_match.applications).len() == 0);
}

/// The application that name `m` stands for: the configured application of
/// that name, or else the built-in one of that name.
pub open spec fn app_named(nc: NetworkConfigModel, m: Seq<char>) -> Option<ApplicationModel> {
    match map_lookup(nc.applications, m) {
        Some(a) => Some(a),
        None => map_lookup(builtin_applications(), m),
    }
}

proof fn lemma_apps_of_members(nc: NetworkConfigModel, ms: Seq<Seq<char>>)
    ensures
        forall|j: int| 0 <= j < ms.len() && app_named(nc, #[trigger] ms[j]) is Some ==> apps_of_members(nc, ms).contains(
            app_named(nc, ms[j])->0,
        ),
        forall|k: int| #![trigger apps_of_members(nc, ms)[k]] 0 <= k < apps_of_members(nc, ms).len() ==> exists|j: int|
            0 <= j < ms.len() && app_named(nc, #[trigger] ms[j]) == Some(apps_of_members(nc, ms)[k]),
    decreases ms.len(),
{
    if ms.len() > 0 {
        let init = ms.drop_last();
        lemma_apps_of_members(nc, init);
        let prev = apps_of_members(nc, init);
        let cur = apps_of_members(nc, ms);
        assert(lookup_app_spec(nc, ms.last()) == app_named(nc, ms.last()));
        assert forall|j: int| 0 <= j < ms.len() && app_named(nc, #[trigger] ms[j]) is Some implies cur.contains(
            app_named(nc, ms[j])->0,
        ) by {
            if j < init.len() {
                assert(init[j] == ms[j]);
                let k = choose|k: int| 0 <= k < prev.len() && prev[k] == app_named(nc, init[j])->0;
                assert(cur[k] == prev[k]);
            } else {
                assert(cur[cur.len() - 1] == app_named(nc, ms[j])->0);
            }
        }
        assert forall|k: int| #![trigger cur[k]] 0 <= k < cur.len() implies exists|j: int|
            0 <= j < ms.len() && app_named(nc, #[trigger] ms[j]) == Some(cur[k]) by {
            if k < prev.len() {
                assert(cur[k] == prev[k]);
                let j = choose|j: int| 0 <= j < init.len() && app_named(nc, #[trigger] init[j]) == Some(prev[k]);
                assert(ms[j] == init[j]);
            } else {
                assert(app_named(nc, ms[ms.len() - 1]) == Some(cur[k]));
            }
        }
    }
}

/// Which applications a rule's application names stand for. A name that is an
/// application-set stands for the applications its members name, each member
/// being the configured application of that name or else the built-in one; any
/// other name stands for the configured application of that name or else the
/// built-in one. Every application so named is among the result, and the
/// result holds nothing else.
pub proof fn lemma_app_names_resolve(nc: NetworkConfigModel, names: Seq<Seq<char>>)
    ensures
        forall|i: int, j: int|
            0 <= i < names.len() && map_lookup(nc.application_sets, names[i]) is Some && 0 <= j < map_lookup(
                nc.application_sets,
                names[i],
            )->0.members.len() && app_named(nc, #[trigger] map_lookup(nc.application_sets, names[i])->0.members[j])
                is Some ==> resolve_app_names_spec(nc, names).contains(
                app_named(nc, map_lookup(nc.application_sets, names[i])->0.members[j])->0,
            ),
        forall|i: int|
            0 <= i < names.len() && map_lookup(nc.application_sets, names[i]) is None && app_named(nc, #[trigger] names[i])
                is Some ==> resolve_app_names_spec(nc, names).contains(app_named(nc, names[i])->0),
        forall|k: int|
            #![trigger resolve_app_names_spec(nc, names)[k]]
            0 <= k < resolve_app_names_spec(nc, names).len() ==> exists|i: int|
                0 <= i < names.len() && ((map_lookup(nc.application_sets, #[trigger] names[i]) is None && app_named(
                    nc,
                    names[i],
                ) == Some(resolve_app_names_spec(nc, names)[k])) || (map_lookup(nc.application_sets, names[i]) is Some
                    && exists|j: int|
                    0 <= j < map_lookup(nc.application_sets, names[i])->0.members.len() && app_named(
                        nc,
                        map_lookup(nc.application_sets, names[i])->0.members[j],
                    ) == Some(resolve_app_names_spec(nc, names)[k]))),
    decreases names.len(),
{
    if names.len() > 0 {
        let init = names.drop_last();
        lemma_app_names_resolve(nc, init);
        let prev = resolve_app_names_spec(nc, init);
        let cur = resolve_app_names_spec(nc, names);
        let n = names.last();
        let li = names.len() - 1;
        assert(names[li] == n);
        if map_lookup(nc.application_sets, n) is Some {
            let ms = map_lookup(nc.application_sets, n)->0.members;
            lemma_apps_of_members(nc, ms);
            let extra = apps_of_members(nc, ms);
            assert(cur == prev + extra);
            assert forall|i: int, j: int|
                0 <= i < names.len() && map_lookup(nc.application_sets, names[i]) is Some && 0 <= j < map_lookup(
                    nc.application_sets,
                    names[i],
                )->0.members.len() && app_named(nc, #[trigger] map_lookup(nc.application_sets, names[i])->0.members[j])
                    is Some implies cur.contains(app_named(nc, map_lookup(nc.application_sets, names[i])->0.members[j])->0) by {
                let x = app_named(nc, map_lookup(nc.application_sets, names[i])->0.members[j])->0;
                if i < init.len() {
                    assert(init[i] == names[i]);
                    let k = choose|k: int| 0 <= k < prev.len() && prev[k] == x;
                    assert(cur[k] == x);
                } else {
                    assert(app_named(nc, ms[j]) is Some);
                    let k = choose|k: int| 0 <= k < extra.len() && extra[k] == x;
                    assert(cur[prev.len() + k] == x);
                }
            }
            assert forall|i: int|
                0 <= i < names.len() && map_lookup(nc.application_sets, names[i]) is None && app_named(nc, #[trigger] names[i])
                    is Some implies cur.contains(app_named(nc, names[i])->0) by {
                assert(i < init.len());
                assert(init[i] == names[i]);
                let k = choose|k: int| 0 <= k < prev.len() && prev[k] == app_named(nc, names[i])->0;
                assert(cur[k] == prev[k]);
            }
            assert forall|k: int| #![trigger cur[k]] 0 <= k < cur.len() implies exists|i: int|
                0 <= i < names.len() && ((map_lookup(nc.application_sets, #[trigger] names[i]) is None && app_named(
                    nc,
                    names[i],
                ) == Some(cur[k])) || (map_lookup(nc.application_sets, names[i]) is Some && exists|j: int|
                    0 <= j < map_lookup(nc.application_sets, names[i])->0.members.len() && app_named(
                        nc,
                        map_lookup(nc.application_sets, names[i])->0.members[j],
                    ) == Some(cur[k]))) by {
                if k < prev.len() {
                    assert(cur[k] == prev[k]);
                    let i = choose|i: int|
                        0 <= i < init.len() && ((map_lookup(nc.application_sets, #[trigger] init[i]) is None && app_named(
                            nc,
                            init[i],
                        ) == Some(prev[k])) || (map_lookup(nc.application_sets, init[i]) is Some && exists|j: int|
                            0 <= j < map_lookup(nc.application_sets, init[i])->0.members.len() && app_named(
                                nc,
                                map_lookup(nc.application_sets, init[i])->0.members[j],
                            ) == Some(prev[k])));
                    assert(names[i] == init[i]);
                } else {
                    assert(cur[k] == extra[k - prev.len()]);
                    let j = choose|j: int| 0 <= j < ms.len() && app_named(nc, #[trigger] ms[j]) == Some(extra[k - prev.len()]);
                    assert(app_named(nc, map_lookup(nc.application_sets, names[li])->0.members[j]) == Some(cur[k]));
                }
            }
        } else {
            assert(lookup_app_spec(nc, n) == app_named(nc, n));
            assert forall|i: int, j: int|
                0 <= i < names.len() && map_lookup(nc.application_sets, names[i]) is Some && 0 <= j < map_lookup(
                    nc.application_sets,
                    names[i],
                )->0.members.len() && app_named(nc, #[trigger] map_lookup(nc.application_sets, names[i])->0.members[j])
                    is Some implies cur.contains(app_named(nc, map_lookup(nc.application_sets, names[i])->0.members[j])->0) by {
                assert(i < init.len());
                assert(init[i] == names[i]);
                let x = app_named(nc, map_lookup(nc.application_sets, names[i])->0.members[j])->0;
                let k = choose|k: int| 0 <= k < prev.len() && prev[k] == x;
                assert(cur[k] == prev[k]);
            }
            assert forall|i: int|
                0 <= i < names.len() && map_lookup(nc.application_sets, names[i]) is None && app_named(nc, #[trigger] names[i])
                    is Some implies cur.contains(app_named(nc, names[i])->0) by {
                if i < init.len() {
                    assert(init[i] == names[i]);
                    let k = choose|k: int| 0 <= k < prev.len() && prev[k] == app_named(nc, names[i])->0;
                    assert(cur[k] == prev[k]);
                } else {
                    assert(cur[cur.len() - 1] == app_named(nc, names[i])->0);
                }
            }
            assert forall|k: int| #![trigger cur[k]] 0 <= k < cur.len() implies exists|i: int|
                0 <= i < names.len() && ((map_lookup(nc.application_sets, #[trigger] names[i]) is None && app_named(
                    nc,
                    names[i],
                ) == Some(cur[k])) || (map_lookup(nc.application_sets, names[i]) is Some && exists|j: int|
                    0 <= j < map_lookup(nc.application_sets, names[i])->0.members.len() && app_named(
                        nc,
                        map_lookup(nc.application_sets, names[i])->0.members[j],
                    ) == Some(cur[k]))) by {
                if k < prev.len() {
                    assert(cur[k] == prev[k]);
                    let i = choose|i: int|
                        0 <= i < init.len() && ((map_lookup(nc.application_sets, #[trigger] init[i]) is None && app_named(
                            nc,
                            init[i],
                        ) == Some(prev[k])) || (map_lookup(nc.application_sets, init[i]) is Some && exists|j: int|
                            0 <= j < map_lookup(nc.application_sets, init[i])->0.members.len() && app_named(
                                nc,
                                map_lookup(nc.application_sets, init[i])->0.members[j],
                            ) == Some(prev[k])));
                    assert(names[i] == init[i]);
                } else {
                    assert(app_named(nc, names[li]) == Some(cur[k]));
                }
            }
        }
    }
}

/// How a rule's applications decide: when the only policy between the two
/// zones holds one rule, with source and destination `any`, the rule is
/// reported exactly when its application names stand for no application, or
/// for one that is `any`, has no protocol, or has the packet's protocol and a
/// port spec the packet's port satisfies; otherwise the verdict is `deny`.
pub proof fn lemma_rule_applications_decide(
    nc: NetworkConfigModel,
    s: u32,
    d: u32,
    protocol: Seq<char>,
    dst_port: Option<u16>,
    f: Seq<char>,
    t: Seq<char>,
    pi: int,
)
    requires
        nc.zone_of(s) == Some(f),
        nc.zone_of(d) == Some(t),
        f != t,
        sole_rule_policy(nc, f, t, pi),
        nc.security_policies[pi].rules[0].rule_match.source_addresses == seq!["any"@],
        nc.security_policies[pi].rules[0].rule_match.destination_addresses == seq!["any"@],
    ensures
        ({
            let r = nc.security_policies[pi].rules[0];
            let apps = resolve_app_names_spec(nc, r.rule_match.applications);
            let admitted = apps.len() == 0 || exists|k: int|
                0 <= k < apps.len() && ((#[trigger] apps[k]).name == "any"@ || apps[k].protocol is None || (
                apps[k].protocol == Some(protocol) && port_matches_spec(apps[k].dst_port, dst_port)));
            decide(nc, s, d, protocol, dst_port) == if admitted {
                ReachabilityModel { action: r.action, from_zone: Some(f), to_zone: Some(t), matching_rule: Some(r) }
            } else {
                ReachabilityModel { action: "deny"@, from_zone: Some(f), to_zone: Some(t), matching_rule: None }
            }
        }),
{
    lemma_sole_rule(nc, s, d, protocol, dst_port, f, t, pi);
    assert(seq!["any"@].contains("any"@)) by {
        assert(seq!["any"@][0] == "any"@);
    }
}

/// Which rules are reported as shadowed, over the rules' own match lists:
/// rule `ri` of policy `pi` is reported exactly when an earlier rule of the
/// same policy has source, destination and applications each exactly
/// `["any"]`. (A rule preceded only by rules that restrict any one of the
/// three is never reported.)
pub proof fn lemma_shadowed_after_catch_all(ps: Seq<SecurityPolicyModel>)
    requires
        ps.len() <= usize::MAX,
        forall|p: int| 0 <= p < ps.len() ==> (#[trigger] ps[p]).rules.len() <= usize::MAX,
    ensures
        forall|pi: int, ri: int|
            0 <= pi < ps.len() && 0 <= ri < ps[pi].rules.len() ==> (#[trigger] shadowed_spec(ps).contains(
                (pi as usize, ri as usize),
            ) <==> exists|k: int|
                0 <= k < ri && (#[trigger] ps[pi].rules[k]).rule_match.source_addresses == seq!["any"@]
                    && ps[pi].rules[k].rule_match.destination_addresses == seq!["any"@]
                    && ps[pi].rules[k].rule_match.applications == seq!["any"@]),
{
    lemma_shadowed_rules_exact(ps);
    assert forall|pi: int, ri: int|
        0 <= pi < ps.len() && 0 <= ri < ps[pi].rules.len() implies (#[trigger] shadowed_spec(ps).contains(
            (pi as usize, ri as usize),
        ) <==> exists|k: int|
            0 <= k < ri && (#[trigger] ps[pi].rules[k]).rule_match.source_addresses == seq!["any"@]
                && ps[pi].rules[k].rule_match.destination_addresses == seq!["any"@]
                && ps[pi].rules[k].rule_match.applications == seq!["any"@]) by {
        assert(ps[pi].rules.len() <= usize::MAX);
        if shadowed_spec(ps).contains((pi as usize, ri as usize)) {
            let kk = choose|kk: int| 0 <= kk < shadowed_spec(ps).len() && shadowed_spec(ps)[kk] == (pi as usize, ri as usize);
            let e = shadowed_spec(ps)[kk];
            assert(is_shadowed(ps[e.0 as int].rules, e.1 as int));
            let k = choose|k: int| 0 <= k < ri && is_catch_all(#[trigger] ps[pi].rules[k]);
        }
        if exists|k: int|
            0 <= k < ri && (#[trigger] ps[pi].rules[k]).rule_match.source_addresses == seq!["any"@]
                && ps[pi].rules[k].rule_match.destination_addresses == seq!["any"@]
                && ps[pi].rules[k].rule_match.applications == seq!["any"@] {
            let k = choose|k: int|
                0 <= k < ri && (#[trigger] ps[pi].rules[k]).rule_match.source_addresses == seq!["any"@]
                    && ps[pi].rules[k].rule_match.destination_addresses == seq!["any"@]
                    && ps[pi].rules[k].rule_match.applications == seq!["any"@];
            assert(is_catch_all(ps[pi].rules[k]));
            assert(is_shadowed(ps[pi].rules, ri));
        }
    }
}

/// Whether rule `ri` of policy `pi` is a rule from zone `f` to zone `t` that
/// applies to the traffic.
pub open spec fn applies_at(
    nc: NetworkConfigModel,
    pi: int,
    ri: int,
    f: Seq<char>,
    t: Seq<char>,
    s: u32,
    d: u32,
    protocol: Seq<char>,
    dst_port: Option<u16>,
) -> bool {
    &&& 0 <= pi < nc.security_policies.len()
    &&& 0 <= ri < nc.security_policies[pi].rules.len()
    &&& nc.security_policies[pi].from_zone == f
    &&& nc.security_policies[pi].to_zone == t
    &&& rule_matches_spec(nc, nc.security_policies[pi].rules[ri], f, t, s, d, protocol, dst_port)
}

proof fn lemma_first_policy_rule_earliest(
    nc: NetworkConfigModel,
    ps: Seq<SecurityPolicyModel>,
    from: Seq<char>,
    to: Seq<char>,
    s: u32,
    d: u32,
    protocol: Seq<char>,
    dst_port: Option<u16>,
)
    ensures
        first_policy_rule(nc, ps, from, to, s, d, protocol, dst_port) matches Some(r) ==> exists|pi: int, ri: int|
            0 <= pi < ps.len() && 0 <= ri < ps[pi].rules.len() && ps[pi].from_zone == from && ps[pi].to_zone == to
                && #[trigger] ps[pi].rules[ri] == r && rule_matches_spec(nc, r, from, to, s, d, protocol, dst_port)
                && (forall|rj: int| 0 <= rj < ri ==> !rule_matches_spec(nc, #[trigger] ps[pi].rules[rj], from, to, s, d, protocol, dst_port))
                && (forall|pj: int, rk: int|
                    0 <= pj < pi && 0 <= rk < ps[pj].rules.len() && ps[pj].from_zone == from && ps[pj].to_zone == to
                        ==> !rule_matches_spec(nc, #[trigger] ps[pj].rules[rk], from, to, s, d, protocol, dst_port)),
    decreases ps.len(),
{
    if ps.len() > 0 {
        let rest = ps.drop_first();
        lemma_first_policy_rule_earliest(nc, rest, from, to, s, d, protocol, dst_port);
        let p = ps[0];
        lemma_first_rule(nc, p.rules, from, to, s, d, protocol, dst_port);
        let here = p.from_zone == from && p.to_zone == to && first_rule(nc, p.rules, from, to, s, d, protocol, dst_port) is Some;
        if here {
            let r = first_rule(nc, p.rules, from, to, s, d, protocol, dst_port)->0;
            let k = choose|k: int|
                0 <= k < p.rules.len() && #[trigger] p.rules[k] == r && rule_matches_spec(nc, r, from, to, s, d, protocol, dst_port)
                    && forall|j: int| 0 <= j < k ==> !rule_matches_spec(nc, #[trigger] p.rules[j], from, to, s, d, protocol, dst_port);
            assert(ps[0].rules[k] == r);
        } else if first_policy_rule(nc, rest, from, to, s, d, protocol, dst_port) is Some {
            let r = first_policy_rule(nc, rest, from, to, s, d, protocol, dst_port)->0;
            let (pi, ri) = choose|pi: int, ri: int|
                0 <= pi < rest.len() && 0 <= ri < rest[pi].rules.len() && rest[pi].from_zone == from && rest[pi].to_zone == to
                    && #[trigger] rest[pi].rules[ri] == r && rule_matches_spec(nc, r, from, to, s, d, protocol, dst_port)
                    && (forall|rj: int| 0 <= rj < ri ==> !rule_matches_spec(nc, #[trigger] rest[pi].rules[rj], from, to, s, d, protocol, dst_port))
                    && (forall|pj: int, rk: int|
                        0 <= pj < pi && 0 <= rk < rest[pj].rules.len() && rest[pj].from_zone == from && rest[pj].to_zone == to
                            ==> !rule_matches_spec(nc, #[trigger] rest[pj].rules[rk], from, to, s, d, protocol, dst_port));
            assert(ps[pi + 1] == rest[pi]);
            assert(ps[pi + 1].rules[ri] == r);
            assert forall|rj: int| 0 <= rj < ri implies !rule_matches_spec(nc, #[trigger] ps[pi + 1].rules[rj], from, to, s, d, protocol, dst_port) by {
                assert(ps[pi + 1].rules[rj] == rest[pi].rules[rj]);
            }
            assert forall|pj: int, rk: int|
                0 <= pj < pi + 1 && 0 <= rk < ps[pj].rules.len() && ps[pj].from_zone == from && ps[pj].to_zone == to
                    implies !rule_matches_spec(nc, #[trigger] ps[pj].rules[rk], from, to, s, d, protocol, dst_port) by {
                if pj > 0 {
                    assert(ps[pj] == rest[pj - 1]);
                }
            }
        }
    }
}

/// First match wins: when a reachability verdict reports a rule, that rule is
/// rule `ri` of policy `pi`, a policy between the two zones; it applies to the
/// traffic; and no rule before it (an earlier rule of the same policy, or any
/// rule of an earlier policy between the same zones) applies.
pub proof fn lemma_reported_rule_is_first_match(
    nc: NetworkConfigModel,
    s: u32,
    d: u32,
    protocol: Seq<char>,
    dst_port: Option<u16>,
)
    ensures
        decide(nc, s, d, protocol, dst_port).matching_rule matches Some(r) ==> exists|pi: int, ri: int|
            #[trigger] applies_at(nc, pi, ri, nc.zone_of(s)->0, nc.zone_of(d)->0, s, d, protocol, dst_port)
                && nc.security_policies[pi].rules[ri] == r
                && decide(nc, s, d, protocol, dst_port).action == r.action
                && forall|pj: int, rj: int|
                    (pj < pi || (pj == pi && rj < ri)) ==> !#[trigger] applies_at(
                        nc,
                        pj,
                        rj,
                        nc.zone_of(s)->0,
                        nc.zone_of(d)->0,
                        s,
                        d,
                        protocol,
                        dst_port,
                    ),
{
    let from = nc.zone_of(s);
    let to = nc.zone_of(d);
    if from is Some && to is Some && from != to {
        let f = from->0;
        let t = to->0;
        let ps = nc.security_policies;
        lemma_first_policy_rule_earliest(nc, ps, f, t, s, d, protocol, dst_port);
        if first_policy_rule(nc, ps, f, t, s, d, protocol, dst_port) is Some {
            let r = first_policy_rule(nc, ps, f, t, s, d, protocol, dst_port)->0;
            let (pi, ri) = choose|pi: int, ri: int|
                0 <= pi < ps.len() && 0 <= ri < ps[pi].rules.len() && ps[pi].from_zone == f && ps[pi].to_zone == t
                    && #[trigger] ps[pi].rules[ri] == r && rule_matches_spec(nc, r, f, t, s, d, protocol, dst_port)
                    && (forall|rj: int| 0 <= rj < ri ==> !rule_matches_spec(nc, #[trigger] ps[pi].rules[rj], f, t, s, d, protocol, dst_port))
                    && (forall|pj: int, rk: int|
                        0 <= pj < pi && 0 <= rk < ps[pj].rules.len() && ps[pj].from_zone == f && ps[pj].to_zone == t
                            ==> !rule_matches_spec(nc, #[trigger] ps[pj].rules[rk], f, t, s, d, protocol, dst_port));
            assert(applies_at(nc, pi, ri, f, t, s, d, protocol, dst_port));
            assert forall|pj: int, rj: int| (pj < pi || (pj == pi && rj < ri)) implies !#[trigger] applies_at(
                nc,
                pj,
                rj,
                f,
                t,
                s,
                d,
                protocol,
                dst_port,
            ) by {
                if applies_at(nc, pj, rj, f, t, s, d, protocol, dst_port) {
                    if pj == pi {
                        assert(!rule_matches_spec(nc, ps[pi].rules[rj], f, t, s, d, protocol, dst_port));
                    } else {
                        assert(!rule_matches_spec(nc, ps[pj].rules[rj], f, t, s, d, protocol, dst_port));
                    }
                }
            }
        }
    }
}

proof fn lemma_dec_parses(n: nat)
    requires
        n <= u32::MAX,
    ensures
        spec_parse_u32(dec_string(n)) == Some(n as u32),
        first_index(dec_string(n), '-') == -1,
{
    lemma_dec_string_digits(n);
    let ds = dec_string(n);
    assert(is_digit(ds[0]));
    assert(unsigned_digits(ds) == ds);
    if exists|k: int| is_first_index(ds, '-', k) {
        let k = choose|k: int| is_first_index(ds, '-', k);
        assert(is_digit(ds[k]));
    }
}

/// What an application's port spec admits: no spec, or no packet port,
/// admits everything; the decimal spec `N` admits exactly port `N`; the range
/// `LO-HI` admits exactly the ports from `LO` to `HI`, both included.
pub proof fn lemma_port_spec_admits(lo: nat, hi: nat, p: u16)
    requires
        lo <= u32::MAX,
        hi <= u32::MAX,
    ensures
        port_matches_spec(None, Some(p)),
        forall|rp: Seq<char>| port_matches_spec(Some(rp), None),
        port_matches_spec(Some(dec_string(lo)), Some(p)) <==> lo == p,
        port_matches_spec(Some(dec_string(lo) + seq!['-'] + dec_string(hi)), Some(p)) <==> lo <= p <= hi,
{
    lemma_dec_parses(lo);
    lemma_dec_parses(hi);
    let a = dec_string(lo);
    let b = dec_string(hi);
    let rp = a + seq!['-'] + b;
    lemma_dec_string_digits(lo);
    assert forall|j: int| 0 <= j < a.len() implies rp[j] != '-' by {
        assert(rp[j] == a[j]);
        assert(is_digit(a[j]));
    }
    assert(is_first_index(rp, '-', a.len() as int));
    lemma_first_index_at(rp, '-', a.len() as int);
    assert(rp.take(a.len() as int) =~= a);
    assert(rp.skip(a.len() as int + 1) =~= b);
}

} // verus!
