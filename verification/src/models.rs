//! Domain model of a Juniper firewall configuration.
//!
//! Each type has a mathematical model (its view) in which names are character
//! sequences and name-keyed collections are sequences of `(name, value)`
//! entries in insertion order.

use vstd::prelude::*;

use crate::ipv4::Ipv4Network;
use crate::name_map::{
    is_first_key, keys_distinct, lemma_key_pos, lemma_names_distinct, map_insert, map_lookup, NameMap,
};
use crate::text::str_eq;

verus! {

/// A logical unit (sub-interface) with its configured IPv4 addresses.
#[derive(Clone, Debug)]
pub struct InterfaceUnit {
    pub unit_id: String,
    pub ipv4_addresses: Vec<Ipv4Network>,
}

/// Model of an [`InterfaceUnit`].
pub struct InterfaceUnitModel {
    pub unit_id: Seq<char>,
    pub ipv4_addresses: Seq<Ipv4Network>,
}

impl View for InterfaceUnit {
    type V = InterfaceUnitModel;

    open spec fn view(&self) -> InterfaceUnitModel {
        InterfaceUnitModel { unit_id: self.unit_id@, ipv4_addresses: self.ipv4_addresses@ }
    }
}

/// A physical/logical interface and its units.
#[derive(Clone, Debug)]
pub struct Interface {
    pub name: String,
    pub description: Option<String>,
    /// Units keyed by unit id.
    pub units: NameMap<InterfaceUnit>,
    /// Unit ids in the order they were first configured.
    pub unit_order: Vec<String>,
}

/// Model of an [`Interface`].
pub struct InterfaceModel {
    pub name: Seq<char>,
    pub description: Option<Seq<char>>,
    pub units: Seq<(Seq<char>, InterfaceUnitModel)>,
    pub unit_order: Seq<Seq<char>>,
}

impl View for Interface {
    type V = InterfaceModel;

    open spec fn view(&self) -> InterfaceModel {
        InterfaceModel {
            name: self.name@,
            description: self.description.deep_view(),
            units: self.units@,
            unit_order: self.unit_order.deep_view(),
        }
    }
}

/// A named address-book entry resolving to a single prefix.
#[derive(Clone, Debug)]
pub struct Address {
    pub name: String,
    pub prefix: Ipv4Network,
}

/// Model of an [`Address`].
pub struct AddressModel {
    pub name: Seq<char>,
    pub prefix: Ipv4Network,
}

impl View for Address {
    type V = AddressModel;

    open spec fn view(&self) -> AddressModel {
        AddressModel { name: self.name@, prefix: self.prefix }
    }
}

/// A named group of addresses or other address-sets.
#[derive(Clone, Debug)]
pub struct AddressSet {
    pub name: String,
    pub members: Vec<String>,
}

/// Model of an [`AddressSet`].
pub struct AddressSetModel {
    pub name: Seq<char>,
    pub members: Seq<Seq<char>>,
}

impl View for AddressSet {
    type V = AddressSetModel;

    open spec fn view(&self) -> AddressSetModel {
        AddressSetModel { name: self.name@, members: self.members.deep_view() }
    }
}

/// A zone-level or global address book.
#[derive(Clone, Debug)]
pub struct AddressBook {
    pub addresses: NameMap<Address>,
    pub address_sets: NameMap<AddressSet>,
}

/// Model of an [`AddressBook`].
pub struct AddressBookModel {
    pub addresses: Seq<(Seq<char>, AddressModel)>,
    pub address_sets: Seq<(Seq<char>, AddressSetModel)>,
}

impl View for AddressBook {
    type V = AddressBookModel;

    open spec fn view(&self) -> AddressBookModel {
        AddressBookModel { addresses: self.addresses@, address_sets: self.address_sets@ }
    }
}

/// A security zone, its member interfaces, and zone-scoped address book.
#[derive(Clone, Debug)]
pub struct SecurityZone {
    pub name: String,
    pub interfaces: Vec<String>,
    pub address_book: AddressBook,
}

/// Model of a [`SecurityZone`].
pub struct SecurityZoneModel {
    pub name: Seq<char>,
    pub interfaces: Seq<Seq<char>>,
    pub address_book: AddressBookModel,
}

impl View for SecurityZone {
    type V = SecurityZoneModel;

    open spec fn view(&self) -> SecurityZoneModel {
        SecurityZoneModel {
            name: self.name@,
            interfaces: self.interfaces.deep_view(),
            address_book: self.address_book@,
        }
    }
}

/// An application definition (protocol + optional destination port spec).
#[derive(Clone, Debug)]
pub struct Application {
    pub name: String,
    pub protocol: Option<String>,
    pub dst_port: Option<String>,
}

/// Model of an [`Application`].
pub struct ApplicationModel {
    pub name: Seq<char>,
    pub protocol: Option<Seq<char>>,
    pub dst_port: Option<Seq<char>>,
}

impl View for Application {
    type V = ApplicationModel;

    open spec fn view(&self) -> ApplicationModel {
        ApplicationModel {
            name: self.name@,
            protocol: self.protocol.deep_view(),
            dst_port: self.dst_port.deep_view(),
        }
    }
}

/// A named group of applications or application-sets.
#[derive(Clone, Debug)]
pub struct ApplicationSet {
    pub name: String,
    pub members: Vec<String>,
}

/// Model of an [`ApplicationSet`].
pub struct ApplicationSetModel {
    pub name: Seq<char>,
    pub members: Seq<Seq<char>>,
}

impl View for ApplicationSet {
    type V = ApplicationSetModel;

    open spec fn view(&self) -> ApplicationSetModel {
        ApplicationSetModel { name: self.name@, members: self.members.deep_view() }
    }
}

/// Match criteria for a policy rule.
#[derive(Clone, Debug)]
pub struct PolicyMatch {
    pub source_addresses: Vec<String>,
    pub destination_addresses: Vec<String>,
    pub applications: Vec<String>,
}

/// Model of a [`PolicyMatch`].
pub struct PolicyMatchModel {
    pub source_addresses: Seq<Seq<char>>,
    pub destination_addresses: Seq<Seq<char>>,
    pub applications: Seq<Seq<char>>,
}

impl View for PolicyMatch {
    type V = PolicyMatchModel;

    open spec fn view(&self) -> PolicyMatchModel {
        PolicyMatchModel {
            source_addresses: self.source_addresses.deep_view(),
            destination_addresses: self.destination_addresses.deep_view(),
            applications: self.applications.deep_view(),
        }
    }
}

/// A single ordered security-policy rule.
#[derive(Clone, Debug)]
pub struct PolicyRule {
    pub name: String,
    pub rule_match: PolicyMatch,
    pub action: String,
}

/// Model of a [`PolicyRule`].
pub struct PolicyRuleModel {
    pub name: Seq<char>,
    pub rule_match: PolicyMatchModel,
    pub action: Seq<char>,
}

impl View for PolicyRule {
    type V = PolicyRuleModel;

    open spec fn view(&self) -> PolicyRuleModel {
        PolicyRuleModel { name: self.name@, rule_match: self.rule_match@, action: self.action@ }
    }
}

/// All rules governing one `from-zone`/`to-zone` direction.
#[derive(Clone, Debug)]
pub struct SecurityPolicy {
    pub from_zone: String,
    pub to_zone: String,
    pub rules: Vec<PolicyRule>,
}

/// Model of a [`SecurityPolicy`].
pub struct SecurityPolicyModel {
    pub from_zone: Seq<char>,
    pub to_zone: Seq<char>,
    pub rules: Seq<PolicyRuleModel>,
}

impl View for SecurityPolicy {
    type V = SecurityPolicyModel;

    open spec fn view(&self) -> SecurityPolicyModel {
        SecurityPolicyModel {
            from_zone: self.from_zone@,
            to_zone: self.to_zone@,
            rules: self.rules@.map_values(|r: PolicyRule| r@),
        }
    }
}

/// Complete parsed representation of a Juniper firewall configuration.
#[derive(Clone, Debug)]
pub struct NetworkConfig {
    pub interfaces: NameMap<Interface>,
    /// Interface names in the order they were first configured.
    pub interface_order: Vec<String>,
    pub security_zones: NameMap<SecurityZone>,
    pub security_policies: Vec<SecurityPolicy>,
    pub applications: NameMap<Application>,
    pub application_sets: NameMap<ApplicationSet>,
    pub global_address_book: AddressBook,
}

/// Model of a [`NetworkConfig`].
pub struct NetworkConfigModel {
    pub interfaces: Seq<(Seq<char>, InterfaceModel)>,
    pub interface_order: Seq<Seq<char>>,
    pub security_zones: Seq<(Seq<char>, SecurityZoneModel)>,
    pub security_policies: Seq<SecurityPolicyModel>,
    pub applications: Seq<(Seq<char>, ApplicationModel)>,
    pub application_sets: Seq<(Seq<char>, ApplicationSetModel)>,
    pub global_address_book: AddressBookModel,
}

impl View for NetworkConfig {
    type V = NetworkConfigModel;

    open spec fn view(&self) -> NetworkConfigModel {
        NetworkConfigModel {
            interfaces: self.interfaces@,
            interface_order: self.interface_order.deep_view(),
            security_zones: self.security_zones@,
            security_policies: self.security_policies@.map_values(|p: SecurityPolicy| p@),
            applications: self.applications@,
            application_sets: self.application_sets@,
            global_address_book: self.global_address_book@,
        }
    }
}

impl Default for InterfaceUnit {
    fn default() -> (u: Self)
        ensures
            u@.unit_id.len() == 0,
            u@.ipv4_addresses.len() == 0,
    {
        InterfaceUnit { unit_id: String::new(), ipv4_addresses: Vec::new() }
    }
}

impl Default for Interface {
    fn default() -> (i: Self)
        ensures
            i@.name.len() == 0,
            i@.description is None,
            i@.units.len() == 0,
            i@.unit_order.len() == 0,
    {
        Interface {
            name: String::new(),
            description: None,
            units: NameMap::new(),
            unit_order: Vec::new(),
        }
    }
}

impl Default for AddressBook {
    fn default() -> (b: Self)
        ensures
            b@.addresses.len() == 0,
            b@.address_sets.len() == 0,
    {
        AddressBook { addresses: NameMap::new(), address_sets: NameMap::new() }
    }
}

impl Default for SecurityZone {
    fn default() -> (z: Self)
        ensures
            z@.name.len() == 0,
            z@.interfaces.len() == 0,
            z@.address_book.addresses.len() == 0,
            z@.address_book.address_sets.len() == 0,
    {
        SecurityZone { name: String::new(), interfaces: Vec::new(), address_book: AddressBook::default() }
    }
}

impl Default for PolicyMatch {
    fn default() -> (m: Self)
        ensures
            m@.source_addresses.len() == 0,
            m@.destination_addresses.len() == 0,
            m@.applications.len() == 0,
    {
        PolicyMatch {
            source_addresses: Vec::new(),
            destination_addresses: Vec::new(),
            applications: Vec::new(),
        }
    }
}

impl Default for PolicyRule {
    /// An unnamed rule with empty match criteria whose action is `deny`.
    fn default() -> (r: Self)
        ensures
            r@.name.len() == 0,
            r@.rule_match.source_addresses.len() == 0,
            r@.rule_match.destination_addresses.len() == 0,
            r@.rule_match.applications.len() == 0,
            r@.action == "deny"@,
    {
        PolicyRule { name: String::new(), rule_match: PolicyMatch::default(), action: "deny".to_owned() }
    }
}

impl Default for NetworkConfig {
    fn default() -> (nc: Self)
        ensures
            nc@.interfaces.len() == 0,
            nc@.interface_order.len() == 0,
            nc@.security_zones.len() == 0,
            nc@.security_policies.len() == 0,
            nc@.applications.len() == 0,
            nc@.application_sets.len() == 0,
            nc@.global_address_book.addresses.len() == 0,
            nc@.global_address_book.address_sets.len() == 0,
    {
        NetworkConfig {
            interfaces: NameMap::new(),
            interface_order: Vec::new(),
            security_zones: NameMap::new(),
            security_policies: Vec::new(),
            applications: NameMap::new(),
            application_sets: NameMap::new(),
            global_address_book: AddressBook::default(),
        }
    }
}

/// `(unit_id, network)` for every address of the units named in `order`, unit
/// by unit in that order; names without a unit contribute nothing.
pub open spec fn unit_addresses(
    units: Seq<(Seq<char>, InterfaceUnitModel)>,
    order: Seq<Seq<char>>,
) -> Seq<(Seq<char>, Ipv4Network)>
    decreases order.len(),
{
    if order.len() == 0 {
        Seq::empty()
    } else {
        let prev = unit_addresses(units, order.drop_last());
        let uid = order.last();
        match map_lookup(units, uid) {
            Some(u) => prev + u.ipv4_addresses.map_values(|a: Ipv4Network| (uid, a)),
            None => prev,
        }
    }
}

/// The models of `(name, network)` pairs.
pub open spec fn named_networks_view(v: Seq<(String, Ipv4Network)>) -> Seq<(Seq<char>, Ipv4Network)> {
    v.map_values(|p: (String, Ipv4Network)| (p.0@, p.1))
}

impl InterfaceModel {
    /// This interface with unit `u` added, or replacing the unit with the same
    /// id in place; a new id goes to the end of the unit order.
    pub open spec fn with_unit(self, u: InterfaceUnitModel) -> InterfaceModel {
        InterfaceModel {
            units: map_insert(self.units, u.unit_id, u),
            unit_order: if map_lookup(self.units, u.unit_id) is Some {
                self.unit_order
            } else {
                self.unit_order.push(u.unit_id)
            },
            ..self
        }
    }

    /// Every configured address, with the id of its unit, in unit order.
    pub open spec fn addresses(self) -> Seq<(Seq<char>, Ipv4Network)> {
        unit_addresses(self.units, self.unit_order)
    }
}

impl Interface {
    /// Return `(unit_id, network)` for every configured address across all units.
    pub fn all_addresses(&self) -> (r: Vec<(String, Ipv4Network)>)
        ensures
            named_networks_view(r@) == self@.addresses(),
            order_lists_keys(self@.unit_order, self@.units) ==> r@.len() == address_count(self@.units),
    {
        proof {
            use_type_invariant(&self.units);
            lemma_names_distinct(self.units);
            if order_lists_keys(self@.unit_order, self@.units) {
                lemma_addresses_len(self@);
            }
        }
        let ghost order = self.unit_order.deep_view();
        let ghost units = self.units@;
        let mut result: Vec<(String, Ipv4Network)> = Vec::new();
        let mut i: usize = 0;
        while i < self.unit_order.len()
            invariant
                i <= self.unit_order@.len(),
                order == self.unit_order.deep_view(),
                units == self.units@,
                named_networks_view(result@) == unit_addresses(units, order.take(i as int)),
            decreases self.unit_order@.len() - i,
        {
            let uid = &self.unit_order[i];
            proof {
                assert(order.take(i + 1).drop_last() =~= order.take(i as int));
                assert(order.take(i + 1).last() == uid@);
            }
            match self.units.get(uid.as_str()) {
                Some(unit) => {
                    let ghost base = named_networks_view(result@);
                    let mut j: usize = 0;
                    while j < unit.ipv4_addresses.len()
                        invariant
                            j <= unit.ipv4_addresses@.len(),
                            named_networks_view(result@) == base + unit.ipv4_addresses@.take(j as int).map_values(
                                |a: Ipv4Network| (uid@, a),
                            ),
                        decreases unit.ipv4_addresses@.len() - j,
                    {
                        let ghost before = result@;
                        let id = uid.clone();
                        result.push((id, unit.ipv4_addresses[j]));
                        proof {
                            assert(result@ == before.push((id, unit.ipv4_addresses@[j as int])));
                            assert(named_networks_view(result@) =~= named_networks_view(before).push((uid@, unit.ipv4_addresses@[j as int])));
                            assert(unit.ipv4_addresses@.take(j + 1) =~= unit.ipv4_addresses@.take(j as int).push(unit.ipv4_addresses@[j as int]));
                            assert(named_networks_view(result@) =~= base + unit.ipv4_addresses@.take(j + 1).map_values(
                                |a: Ipv4Network| (uid@, a),
                            ));
                        }
                        j = j + 1;
                    }
                    assert(unit.ipv4_addresses@.take(j as int) =~= unit.ipv4_addresses@);
                },
                None => {},
            }
            i = i + 1;
        }
        assert(order.take(i as int) =~= order);
        result
    }

    /// Adds a unit, or replaces the unit with the same id in place.
    pub fn insert_unit(&mut self, unit: InterfaceUnit)
        ensures
            final(self)@ == old(self)@.with_unit(unit@),
    {
        if !self.units.contains_key(unit.unit_id.as_str()) {
            self.unit_order.push(unit.unit_id.clone());
        }
        let id = unit.unit_id.clone();
        self.units.insert(id, unit);
        proof {
            assert(self.unit_order.deep_view() =~= if map_lookup(old(self)@.units, unit@.unit_id) is Some {
                old(self)@.unit_order
            } else {
                old(self)@.unit_order.push(unit@.unit_id)
            });
        }
    }
}

/// Number of address-set entries whose name is not in `seen`.
pub open spec fn unseen_sets(sets: Seq<(Seq<char>, AddressSetModel)>, seen: Set<Seq<char>>) -> nat
    decreases sets.len(),
{
    if sets.len() == 0 {
        0
    } else {
        unseen_sets(sets.drop_last(), seen) + if seen.contains(sets.last().0) {
            0nat
        } else {
            1nat
        }
    }
}

/// Expands `name` against `book`, skipping names already in `seen`; gives the
/// prefixes found and the names seen afterwards. `any` is the network
/// `0.0.0.0/0`, an address is its prefix, an address-set is the expansion of
/// its members in order (each member seeing the names visited before it), and
/// an unknown name is nothing.
pub open spec fn resolve_name(book: AddressBookModel, name: Seq<char>, seen: Set<Seq<char>>) -> (
    Seq<Ipv4Network>,
    Set<Seq<char>>,
)
    decreases unseen_sets(book.address_sets, seen), 0nat,
{
    if seen.contains(name) {
        (Seq::empty(), seen)
    } else {
        let seen1 = seen.insert(name);
        if name == "any"@ {
            (seq![Ipv4Network { base: 0, prefix: 0 }], seen1)
        } else if map_lookup(book.addresses, name) is Some {
            (seq![map_lookup(book.addresses, name)->0.prefix], seen1)
        } else if map_lookup(book.address_sets, name) is Some {
            if unseen_sets(book.address_sets, seen1) < unseen_sets(book.address_sets, seen) {
                resolve_members(book, map_lookup(book.address_sets, name)->0.members, seen1)
            } else {
                (Seq::empty(), seen1)
            }
        } else {
            (Seq::empty(), seen1)
        }
    }
}

/// Expands each of `members` in order, threading the set of seen names.
pub open spec fn resolve_members(book: AddressBookModel, members: Seq<Seq<char>>, seen: Set<Seq<char>>) -> (
    Seq<Ipv4Network>,
    Set<Seq<char>>,
)
    decreases unseen_sets(book.address_sets, seen), members.len() + 1,
{
    if members.len() == 0 {
        (Seq::empty(), seen)
    } else {
        let (r1, s1) = resolve_name(book, members[0], seen);
        if unseen_sets(book.address_sets, s1) <= unseen_sets(book.address_sets, seen) {
            let (r2, s2) = resolve_members(book, members.drop_first(), s1);
            (r1 + r2, s2)
        } else {
            (r1, s1)
        }
    }
}

impl AddressBookModel {
    /// The prefixes that `name` stands for.
    pub open spec fn resolve(self, name: Seq<char>) -> Seq<Ipv4Network> {
        resolve_name(self, name, Set::empty()).0
    }
}

pub proof fn lemma_unseen_monotone(
    sets: Seq<(Seq<char>, AddressSetModel)>,
    seen: Set<Seq<char>>,
    seen2: Set<Seq<char>>,
)
    requires
        seen.subset_of(seen2),
    ensures
        unseen_sets(sets, seen2) <= unseen_sets(sets, seen),
    decreases sets.len(),
{
    if sets.len() > 0 {
        lemma_unseen_monotone(sets.drop_last(), seen, seen2);
    }
}

pub proof fn lemma_unseen_strict(sets: Seq<(Seq<char>, AddressSetModel)>, seen: Set<Seq<char>>, k: Seq<char>, i: int)
    requires
        !seen.contains(k),
        0 <= i < sets.len(),
        sets[i].0 == k,
    ensures
        unseen_sets(sets, seen.insert(k)) < unseen_sets(sets, seen),
    decreases sets.len(),
{
    lemma_unseen_monotone(sets.drop_last(), seen, seen.insert(k));
    if i < sets.len() - 1 {
        lemma_unseen_strict(sets.drop_last(), seen, k, i);
    }
}

/// Expansion only ever adds to the set of seen names.
pub proof fn lemma_resolve_name_grows(book: AddressBookModel, name: Seq<char>, seen: Set<Seq<char>>)
    ensures
        seen.subset_of(resolve_name(book, name, seen).1),
    decreases unseen_sets(book.address_sets, seen), 0nat,
{
    if !seen.contains(name) {
        let seen1 = seen.insert(name);
        if name != "any"@ && map_lookup(book.addresses, name) is None && map_lookup(book.address_sets, name) is Some {
            if unseen_sets(book.address_sets, seen1) < unseen_sets(book.address_sets, seen) {
                lemma_resolve_members_grows(book, map_lookup(book.address_sets, name)->0.members, seen1);
            }
        }
    }
}

pub proof fn lemma_resolve_members_grows(book: AddressBookModel, members: Seq<Seq<char>>, seen: Set<Seq<char>>)
    ensures
        seen.subset_of(resolve_members(book, members, seen).1),
    decreases unseen_sets(book.address_sets, seen), members.len() + 1,
{
    if members.len() > 0 {
        let (r1, s1) = resolve_name(book, members[0], seen);
        lemma_resolve_name_grows(book, members[0], seen);
        if unseen_sets(book.address_sets, s1) <= unseen_sets(book.address_sets, seen) {
            lemma_resolve_members_grows(book, members.drop_first(), s1);
        }
    }
}

/// Number of entries of `m` whose name is not in `seen`.
pub open spec fn unseen_keys<T>(m: Seq<(Seq<char>, T)>, seen: Set<Seq<char>>) -> nat
    decreases m.len(),
{
    if m.len() == 0 {
        0
    } else {
        unseen_keys(m.drop_last(), seen) + if seen.contains(m.last().0) {
            0nat
        } else {
            1nat
        }
    }
}

/// Number of names that can still give a prefix: the named addresses not in
/// `seen`, and `any` when it is not in `seen`.
pub open spec fn unseen_leaves(book: AddressBookModel, seen: Set<Seq<char>>) -> nat {
    unseen_keys(book.addresses, seen) + if seen.contains("any"@) {
        0nat
    } else {
        1nat
    }
}

proof fn lemma_unseen_keys_monotone<T>(m: Seq<(Seq<char>, T)>, seen: Set<Seq<char>>, seen2: Set<Seq<char>>)
    requires
        seen.subset_of(seen2),
    ensures
        unseen_keys(m, seen2) <= unseen_keys(m, seen),
    decreases m.len(),
{
    if m.len() > 0 {
        lemma_unseen_keys_monotone(m.drop_last(), seen, seen2);
    }
}

proof fn lemma_unseen_keys_strict<T>(m: Seq<(Seq<char>, T)>, seen: Set<Seq<char>>, k: Seq<char>, i: int)
    requires
        !seen.contains(k),
        0 <= i < m.len(),
        m[i].0 == k,
    ensures
        unseen_keys(m, seen.insert(k)) < unseen_keys(m, seen),
    decreases m.len(),
{
    lemma_unseen_keys_monotone(m.drop_last(), seen, seen.insert(k));
    if i < m.len() - 1 {
        lemma_unseen_keys_strict(m.drop_last(), seen, k, i);
    }
}

proof fn lemma_unseen_keys_empty<T>(m: Seq<(Seq<char>, T)>)
    ensures
        unseen_keys(m, Set::empty()) == m.len(),
    decreases m.len(),
{
    if m.len() > 0 {
        lemma_unseen_keys_empty(m.drop_last());
    }
}

proof fn lemma_unseen_leaves_monotone(book: AddressBookModel, seen: Set<Seq<char>>, seen2: Set<Seq<char>>)
    requires
        seen.subset_of(seen2),
    ensures
        unseen_leaves(book, seen2) <= unseen_leaves(book, seen),
{
    lemma_unseen_keys_monotone(book.addresses, seen, seen2);
}

proof fn lemma_resolve_name_leaves(book: AddressBookModel, name: Seq<char>, seen: Set<Seq<char>>)
    ensures
        resolve_name(book, name, seen).0.len() + unseen_leaves(book, resolve_name(book, name, seen).1)
            <= unseen_leaves(book, seen),
    decreases unseen_sets(book.address_sets, seen), 0nat,
{
    if !seen.contains(name) {
        let seen1 = seen.insert(name);
        lemma_unseen_leaves_monotone(book, seen, seen1);
        if name == "any"@ {
            lemma_unseen_keys_monotone(book.addresses, seen, seen1);
        } else if map_lookup(book.addresses, name) is Some {
            let p = crate::name_map::lemma_key_pos(book.addresses, name);
            lemma_unseen_keys_strict(book.addresses, seen, name, p);
        } else if map_lookup(book.address_sets, name) is Some {
            if unseen_sets(book.address_sets, seen1) < unseen_sets(book.address_sets, seen) {
                lemma_resolve_members_leaves(book, map_lookup(book.address_sets, name)->0.members, seen1);
            }
        }
    }
}

proof fn lemma_resolve_members_leaves(book: AddressBookModel, members: Seq<Seq<char>>, seen: Set<Seq<char>>)
    ensures
        resolve_members(book, members, seen).0.len() + unseen_leaves(book, resolve_members(book, members, seen).1)
            <= unseen_leaves(book, seen),
    decreases unseen_sets(book.address_sets, seen), members.len() + 1,
{
    if members.len() > 0 {
        let (r1, s1) = resolve_name(book, members[0], seen);
        lemma_resolve_name_leaves(book, members[0], seen);
        if unseen_sets(book.address_sets, s1) <= unseen_sets(book.address_sets, seen) {
            lemma_resolve_members_leaves(book, members.drop_first(), s1);
        }
    }
}

/// Expansion visits each name at most once, cycles included: every prefix it
/// gives comes from a name (`any` or a named address) that was not visited
/// before, so the expansion of any name has at most one prefix more than the
/// book has named addresses.
pub proof fn lemma_resolve_each_name_once(book: AddressBookModel, name: Seq<char>)
    ensures
        book.resolve(name).len() <= book.addresses.len() + 1,
{
    lemma_resolve_name_leaves(book, name, Set::empty());
    lemma_unseen_keys_empty(book.addresses);
}

/// The names that expanding `name` visits, skipping those in `seen`, in the
/// order of their first visit: the name itself, then (for an address-set
/// that is not also an address or `any`) the names its members visit, member
/// by member; and the names seen afterwards.
pub open spec fn visit_name(book: AddressBookModel, name: Seq<char>, seen: Set<Seq<char>>) -> (
    Seq<Seq<char>>,
    Set<Seq<char>>,
)
    decreases unseen_sets(book.address_sets, seen), 0nat,
{
    if seen.contains(name) {
        (Seq::empty(), seen)
    } else {
        let seen1 = seen.insert(name);
        if name != "any"@ && map_lookup(book.addresses, name) is None && map_lookup(book.address_sets, name) is Some
            && unseen_sets(book.address_sets, seen1) < unseen_sets(book.address_sets, seen) {
            let (v, s) = visit_members(book, map_lookup(book.address_sets, name)->0.members, seen1);
            (seq![name] + v, s)
        } else {
            (seq![name], seen1)
        }
    }
}

/// The names that expanding `members` in order visits.
pub open spec fn visit_members(book: AddressBookModel, members: Seq<Seq<char>>, seen: Set<Seq<char>>) -> (
    Seq<Seq<char>>,
    Set<Seq<char>>,
)
    decreases unseen_sets(book.address_sets, seen), members.len() + 1,
{
    if members.len() == 0 {
        (Seq::empty(), seen)
    } else {
        let (v1, s1) = visit_name(book, members[0], seen);
        if unseen_sets(book.address_sets, s1) <= unseen_sets(book.address_sets, seen) {
            let (v2, s2) = visit_members(book, members.drop_first(), s1);
            (v1 + v2, s2)
        } else {
            (v1, s1)
        }
    }
}

/// What one visited name gives: `0.0.0.0/0` for `any`, the prefix of a named
/// address, nothing for anything else.
pub open spec fn leaf_prefix(book: AddressBookModel, name: Seq<char>) -> Seq<Ipv4Network> {
    if name == "any"@ {
        seq![Ipv4Network { base: 0, prefix: 0 }]
    } else if map_lookup(book.addresses, name) is Some {
        seq![map_lookup(book.addresses, name)->0.prefix]
    } else {
        Seq::empty()
    }
}

/// What the names `ns` give, one after the other.
pub open spec fn leaf_prefixes(book: AddressBookModel, ns: Seq<Seq<char>>) -> Seq<Ipv4Network>
    decreases ns.len(),
{
    if ns.len() == 0 {
        Seq::empty()
    } else {
        leaf_prefix(book, ns[0]) + leaf_prefixes(book, ns.drop_first())
    }
}

proof fn lemma_leaf_prefixes_append(book: AddressBookModel, a: Seq<Seq<char>>, b: Seq<Seq<char>>)
    ensures
        leaf_prefixes(book, a + b) == leaf_prefixes(book, a) + leaf_prefixes(book, b),
    decreases a.len(),
{
    if a.len() == 0 {
        assert(a + b =~= b);
    } else {
        lemma_leaf_prefixes_append(book, a.drop_first(), b);
        assert((a + b)[0] == a[0]);
        assert((a + b).drop_first() =~= a.drop_first() + b);
    }
}

/// Whether `v` names no name twice and none of `seen`, and `after` is `seen`
/// with the names of `v` added.
pub open spec fn fresh_visits(v: Seq<Seq<char>>, seen: Set<Seq<char>>, after: Set<Seq<char>>) -> bool {
    &&& v.no_duplicates()
    &&& forall|k: int| 0 <= k < v.len() ==> !seen.contains(#[trigger] v[k])
    &&& after == seen + v.to_set()
}

proof fn lemma_visit_name(book: AddressBookModel, name: Seq<char>, seen: Set<Seq<char>>)
    ensures
        resolve_name(book, name, seen).0 == leaf_prefixes(book, visit_name(book, name, seen).0),
        resolve_name(book, name, seen).1 == visit_name(book, name, seen).1,
        fresh_visits(visit_name(book, name, seen).0, seen, visit_name(book, name, seen).1),
        !seen.contains(name) ==> visit_name(book, name, seen).0.len() > 0 && visit_name(book, name, seen).0[0]
            == name,
    decreases unseen_sets(book.address_sets, seen), 0nat,
{
    if seen.contains(name) {
        assert(Seq::<Seq<char>>::empty().to_set() =~= Set::<Seq<char>>::empty());
        assert(seen + Set::<Seq<char>>::empty() =~= seen);
    } else {
        let seen1 = seen.insert(name);
        assert(leaf_prefixes(book, seq![name]) =~= leaf_prefix(book, name)) by {
            assert(seq![name].drop_first() =~= Seq::<Seq<char>>::empty());
            assert(leaf_prefixes(book, Seq::<Seq<char>>::empty()) == Seq::<Ipv4Network>::empty());
            assert(leaf_prefix(book, name) + Seq::<Ipv4Network>::empty() =~= leaf_prefix(book, name));
        }
        assert(seq![name].to_set() =~= set![name]) by {
            assert(seq![name].contains(name));
        }
        assert(seen + set![name] =~= seen1);
        if name != "any"@ && map_lookup(book.addresses, name) is None && map_lookup(book.address_sets, name) is Some
            && unseen_sets(book.address_sets, seen1) < unseen_sets(book.address_sets, seen) {
            let ms = map_lookup(book.address_sets, name)->0.members;
            lemma_visit_members(book, ms, seen1);
            let (v, s) = visit_members(book, ms, seen1);
            lemma_leaf_prefixes_append(book, seq![name], v);
            assert(leaf_prefix(book, name) =~= Seq::<Ipv4Network>::empty());
            assert(Seq::<Ipv4Network>::empty() + leaf_prefixes(book, v) =~= leaf_prefixes(book, v));
            let w = seq![name] + v;
            assert(w[0] == name);
            assert forall|k: int| 0 <= k < w.len() implies !seen.contains(#[trigger] w[k]) by {
                if k > 0 {
                    assert(w[k] == v[k - 1]);
                }
            }
            assert(w.no_duplicates()) by {
                assert forall|i: int, j: int| 0 <= i < w.len() && 0 <= j < w.len() && i != j implies w[i] != w[j] by {
                    if i > 0 && j > 0 {
                        assert(w[i] == v[i - 1] && w[j] == v[j - 1]);
                    } else if i == 0 {
                        assert(w[j] == v[j - 1]);
                        assert(!seen1.contains(v[j - 1]));
                    } else {
                        assert(w[i] == v[i - 1]);
                        assert(!seen1.contains(v[i - 1]));
                    }
                }
            }
            assert(w.to_set() =~= set![name] + v.to_set()) by {
                assert forall|x: Seq<char>| w.to_set().contains(x) implies (set![name] + v.to_set()).contains(x) by {
                    let k = choose|k: int| 0 <= k < w.len() && w[k] == x;
                    if k > 0 {
                        assert(v[k - 1] == x);
                        assert(v.contains(x));
                    }
                }
                assert forall|x: Seq<char>| (set![name] + v.to_set()).contains(x) implies w.to_set().contains(x) by {
                    if x == name {
                        assert(w[0] == x);
                        assert(w.contains(x));
                    } else {
                        let k = choose|k: int| 0 <= k < v.len() && v[k] == x;
                        assert(w[k + 1] == x);
                        assert(w.contains(x));
                    }
                }
            }
            assert(s =~= seen + w.to_set());
        } else {
            assert(seq![name].no_duplicates());
        }
    }
}

proof fn lemma_visit_members(book: AddressBookModel, members: Seq<Seq<char>>, seen: Set<Seq<char>>)
    ensures
        resolve_members(book, members, seen).0 == leaf_prefixes(book, visit_members(book, members, seen).0),
        resolve_members(book, members, seen).1 == visit_members(book, members, seen).1,
        fresh_visits(visit_members(book, members, seen).0, seen, visit_members(book, members, seen).1),
    decreases unseen_sets(book.address_sets, seen), members.len() + 1,
{
    if members.len() == 0 {
        assert(Seq::<Seq<char>>::empty().to_set() =~= Set::<Seq<char>>::empty());
        assert(seen + Set::<Seq<char>>::empty() =~= seen);
    } else {
        lemma_visit_name(book, members[0], seen);
        let (v1, s1) = visit_name(book, members[0], seen);
        if unseen_sets(book.address_sets, s1) <= unseen_sets(book.address_sets, seen) {
            lemma_visit_members(book, members.drop_first(), s1);
            let (v2, s2) = visit_members(book, members.drop_first(), s1);
            lemma_leaf_prefixes_append(book, v1, v2);
            let w = v1 + v2;
            assert forall|k: int| 0 <= k < w.len() implies !seen.contains(#[trigger] w[k]) by {
                if k < v1.len() {
                    assert(w[k] == v1[k]);
                } else {
                    assert(w[k] == v2[k - v1.len()]);
                    assert(!s1.contains(v2[k - v1.len()]));
                }
            }
            assert(w.no_duplicates()) by {
                assert forall|i: int, j: int| 0 <= i < w.len() && 0 <= j < w.len() && i != j implies w[i] != w[j] by {
                    if i < v1.len() && j < v1.len() {
                        assert(w[i] == v1[i] && w[j] == v1[j]);
                    } else if i >= v1.len() && j >= v1.len() {
                        assert(w[i] == v2[i - v1.len()] && w[j] == v2[j - v1.len()]);
                    } else if i < v1.len() {
                        assert(w[i] == v1[i]);
                        assert(v1.contains(v1[i]));
                        assert(s1.contains(w[i]));
                        assert(w[j] == v2[j - v1.len()]);
                        assert(!s1.contains(w[j]));
                    } else {
                        assert(w[j] == v1[j]);
                        assert(v1.contains(v1[j]));
                        assert(s1.contains(w[j]));
                        assert(w[i] == v2[i - v1.len()]);
                        assert(!s1.contains(w[i]));
                    }
                }
            }
            assert(w.to_set() =~= v1.to_set() + v2.to_set()) by {
                assert forall|x: Seq<char>| w.to_set().contains(x) implies (v1.to_set() + v2.to_set()).contains(x) by {
                    let k = choose|k: int| 0 <= k < w.len() && w[k] == x;
                    if k < v1.len() {
                        assert(v1[k] == x);
                        assert(v1.contains(x));
                    } else {
                        assert(v2[k - v1.len()] == x);
                        assert(v2.contains(x));
                    }
                }
                assert forall|x: Seq<char>| (v1.to_set() + v2.to_set()).contains(x) implies w.to_set().contains(x) by {
                    if v1.contains(x) {
                        let k = choose|k: int| 0 <= k < v1.len() && v1[k] == x;
                        assert(w[k] == x);
                        assert(w.contains(x));
                    } else {
                        let k = choose|k: int| 0 <= k < v2.len() && v2[k] == x;
                        assert(w[k + v1.len()] == x);
                        assert(w.contains(x));
                    }
                }
            }
            assert(s2 =~= seen + w.to_set());
        }
    }
}

/// Whether expanding `n` goes on to its members: `n` is an address-set that
/// is neither `any` nor a named address.
pub open spec fn expands(book: AddressBookModel, n: Seq<char>) -> bool {
    n != "any"@ && map_lookup(book.addresses, n) is None && map_lookup(book.address_sets, n) is Some
}

/// Whether `to` is a member of the address-set `from`, and `from` expands.
pub open spec fn member_edge(book: AddressBookModel, from: Seq<char>, to: Seq<char>) -> bool {
    expands(book, from) && map_lookup(book.address_sets, from)->0.members.contains(to)
}

/// Whether each name of `path` after the first is a member of the one before.
pub open spec fn is_member_path(book: AddressBookModel, path: Seq<Seq<char>>) -> bool {
    &&& path.len() > 0
    &&& forall|i: int| 0 <= i < path.len() - 1 ==> member_edge(book, #[trigger] path[i], path[i + 1])
}

/// Whether `to` can be reached from `from` through address-set members.
pub open spec fn reachable(book: AddressBookModel, from: Seq<char>, to: Seq<char>) -> bool {
    exists|path: Seq<Seq<char>>| #[trigger] is_member_path(book, path) && path[0] == from && path.last() == to
}

/// Whether the name at `k` of `v` is a member of an address-set that comes
/// before it in `v`.
pub open spec fn has_parent_before(book: AddressBookModel, v: Seq<Seq<char>>, k: int) -> bool {
    exists|j: int| 0 <= j < k && #[trigger] member_edge(book, v[j], v[k])
}

proof fn lemma_reach_self(book: AddressBookModel, n: Seq<char>)
    ensures
        reachable(book, n, n),
{
    assert(is_member_path(book, seq![n]));
}

proof fn lemma_reach_prepend(book: AddressBookModel, a: Seq<char>, b: Seq<char>, x: Seq<char>)
    requires
        member_edge(book, a, b),
        reachable(book, b, x),
    ensures
        reachable(book, a, x),
{
    let p = choose|path: Seq<Seq<char>>| #[trigger] is_member_path(book, path) && path[0] == b && path.last() == x;
    let q = seq![a] + p;
    assert forall|i: int| 0 <= i < q.len() - 1 implies member_edge(book, #[trigger] q[i], q[i + 1]) by {
        if i > 0 {
            assert(q[i] == p[i - 1] && q[i + 1] == p[i]);
        }
    }
    assert(is_member_path(book, q));
    assert(q[0] == a && q.last() == x);
}

proof fn lemma_expand_taken(book: AddressBookModel, name: Seq<char>, seen: Set<Seq<char>>)
    requires
        !seen.contains(name),
        expands(book, name),
    ensures
        unseen_sets(book.address_sets, seen.insert(name)) < unseen_sets(book.address_sets, seen),
{
    let p = lemma_key_pos(book.address_sets, name);
    lemma_unseen_strict(book.address_sets, seen, name, p);
}

proof fn lemma_visit_name_closed(book: AddressBookModel, name: Seq<char>, seen: Set<Seq<char>>)
    ensures
        visit_name(book, name, seen).1.contains(name),
        seen.subset_of(visit_name(book, name, seen).1),
        forall|x: Seq<char>, m: Seq<char>|
            visit_name(book, name, seen).0.contains(x) && #[trigger] member_edge(book, x, m) ==> visit_name(
                book,
                name,
                seen,
            ).1.contains(m),
    decreases unseen_sets(book.address_sets, seen), 0nat,
{
    if !seen.contains(name) {
        let seen1 = seen.insert(name);
        if expands(book, name) {
            lemma_expand_taken(book, name, seen);
            let ms = map_lookup(book.address_sets, name)->0.members;
            lemma_visit_members_closed(book, ms, seen1);
            let (v, s) = visit_members(book, ms, seen1);
            assert forall|x: Seq<char>, m: Seq<char>|
                (seq![name] + v).contains(x) && #[trigger] member_edge(book, x, m) implies s.contains(m) by {
                if x == name {
                    let i = choose|i: int| 0 <= i < ms.len() && ms[i] == m;
                } else {
                    let k = choose|k: int| 0 <= k < (seq![name] + v).len() && (seq![name] + v)[k] == x;
                    assert(v[k - 1] == x);
                }
            }
        } else {
            assert forall|x: Seq<char>, m: Seq<char>|
                seq![name].contains(x) && #[trigger] member_edge(book, x, m) implies false by {
                assert(seq![name][0] == x);
            }
        }
    }
}

proof fn lemma_visit_members_closed(book: AddressBookModel, ms: Seq<Seq<char>>, seen: Set<Seq<char>>)
    ensures
        forall|i: int| 0 <= i < ms.len() ==> visit_members(book, ms, seen).1.contains(#[trigger] ms[i]),
        seen.subset_of(visit_members(book, ms, seen).1),
        forall|x: Seq<char>, m: Seq<char>|
            visit_members(book, ms, seen).0.contains(x) && #[trigger] member_edge(book, x, m) ==> visit_members(
                book,
                ms,
                seen,
            ).1.contains(m),
    decreases unseen_sets(book.address_sets, seen), ms.len() + 1,
{
    if ms.len() > 0 {
        lemma_visit_name_closed(book, ms[0], seen);
        let (v1, s1) = visit_name(book, ms[0], seen);
        lemma_unseen_monotone(book.address_sets, seen, s1);
        let rest = ms.drop_first();
        lemma_visit_members_closed(book, rest, s1);
        let (v2, s2) = visit_members(book, rest, s1);
        assert forall|i: int| 0 <= i < ms.len() implies s2.contains(#[trigger] ms[i]) by {
            if i > 0 {
                assert(ms[i] == rest[i - 1]);
            }
        }
        assert forall|x: Seq<char>, m: Seq<char>|
            (v1 + v2).contains(x) && #[trigger] member_edge(book, x, m) implies s2.contains(m) by {
            let k = choose|k: int| 0 <= k < (v1 + v2).len() && (v1 + v2)[k] == x;
            if k < v1.len() {
                assert(v1[k] == x);
                assert(v1.contains(x));
            } else {
                assert(v2[k - v1.len()] == x);
                assert(v2.contains(x));
            }
        }
    }
}

proof fn lemma_visit_name_sound(book: AddressBookModel, name: Seq<char>, seen: Set<Seq<char>>)
    ensures
        forall|k: int| 0 <= k < visit_name(book, name, seen).0.len() ==> reachable(book, name, #[trigger] visit_name(book, name, seen).0[k]),
        forall|k: int| 0 < k < visit_name(book, name, seen).0.len() ==> #[trigger] has_parent_before(
            book,
            visit_name(book, name, seen).0,
            k,
        ),
    decreases unseen_sets(book.address_sets, seen), 0nat,
{
    if !seen.contains(name) {
        let seen1 = seen.insert(name);
        lemma_reach_self(book, name);
        if expands(book, name) {
            lemma_expand_taken(book, name, seen);
            let ms = map_lookup(book.address_sets, name)->0.members;
            lemma_visit_members_sound(book, ms, seen1);
            let v = visit_members(book, ms, seen1).0;
            let w = seq![name] + v;
            assert(visit_name(book, name, seen).0 == w);
            assert forall|k: int| 0 <= k < w.len() implies reachable(book, name, #[trigger] w[k]) by {
                if k > 0 {
                    assert(w[k] == v[k - 1]);
                    let i = choose|i: int| 0 <= i < ms.len() && reachable(book, ms[i], v[k - 1]);
                    assert(ms.contains(ms[i]));
                    lemma_reach_prepend(book, name, ms[i], v[k - 1]);
                }
            }
            assert forall|k: int| 0 < k < w.len() implies #[trigger] has_parent_before(book, w, k) by {
                assert(w[k] == v[k - 1]);
                if ms.contains(v[k - 1]) {
                    assert(member_edge(book, w[0], w[k]));
                } else {
                    assert(has_parent_before(book, v, k - 1));
                    let j = choose|j: int| 0 <= j < k - 1 && #[trigger] member_edge(book, v[j], v[k - 1]);
                    assert(w[j + 1] == v[j]);
                    assert(member_edge(book, w[j + 1], w[k]));
                }
            }
        } else {
            assert(visit_name(book, name, seen).0 == seq![name]);
        }
    }
}

proof fn lemma_visit_members_sound(book: AddressBookModel, ms: Seq<Seq<char>>, seen: Set<Seq<char>>)
    ensures
        forall|k: int| 0 <= k < visit_members(book, ms, seen).0.len() ==> exists|i: int|
            0 <= i < ms.len() && reachable(book, ms[i], #[trigger] visit_members(book, ms, seen).0[k]),
        forall|k: int| 0 <= k < visit_members(book, ms, seen).0.len() ==> ms.contains(visit_members(book, ms, seen).0[k])
            || #[trigger] has_parent_before(book, visit_members(book, ms, seen).0, k),
    decreases unseen_sets(book.address_sets, seen), ms.len() + 1,
{
    if ms.len() > 0 {
        lemma_visit_name_sound(book, ms[0], seen);
        let (v1, s1) = visit_name(book, ms[0], seen);
        lemma_visit_name_closed(book, ms[0], seen);
        lemma_unseen_monotone(book.address_sets, seen, s1);
        let rest = ms.drop_first();
        lemma_visit_members_sound(book, rest, s1);
        let v2 = visit_members(book, rest, s1).0;
        let w = v1 + v2;
        assert(ms.contains(ms[0]));
        assert forall|k: int| 0 <= k < w.len() implies exists|i: int| 0 <= i < ms.len() && reachable(book, ms[i], #[trigger] w[k]) by {
            if k < v1.len() {
                assert(w[k] == v1[k]);
            } else {
                assert(w[k] == v2[k - v1.len()]);
                let i = choose|i: int| 0 <= i < rest.len() && reachable(book, rest[i], v2[k - v1.len()]);
                assert(rest[i] == ms[i + 1]);
            }
        }
        assert forall|k: int| 0 <= k < w.len() implies ms.contains(w[k]) || #[trigger] has_parent_before(book, w, k) by {
            if k < v1.len() {
                assert(w[k] == v1[k]);
                if k == 0 {
                    assert(v1[0] == ms[0]);
                } else {
                    assert(has_parent_before(book, v1, k));
                    let j = choose|j: int| 0 <= j < k && #[trigger] member_edge(book, v1[j], v1[k]);
                    assert(w[j] == v1[j]);
                    assert(member_edge(book, w[j], w[k]));
                }
            } else {
                let k2 = k - v1.len();
                assert(w[k] == v2[k2]);
                if rest.contains(v2[k2]) {
                    let i = choose|i: int| 0 <= i < rest.len() && rest[i] == v2[k2];
                    assert(ms[i + 1] == v2[k2]);
                } else {
                    assert(has_parent_before(book, v2, k2));
                    let j = choose|j: int| 0 <= j < k2 && #[trigger] member_edge(book, v2[j], v2[k2]);
                    assert(w[j + v1.len()] == v2[j]);
                    assert(member_edge(book, w[j + v1.len()], w[k]));
                }
            }
        }
    }
}

proof fn lemma_path_stays(book: AddressBookModel, p: Seq<Seq<char>>, v: Seq<Seq<char>>, s: Set<Seq<char>>, i: int)
    requires
        is_member_path(book, p),
        0 <= i < p.len(),
        s.contains(p[i]),
        s == v.to_set(),
        forall|x: Seq<char>, m: Seq<char>| v.contains(x) && #[trigger] member_edge(book, x, m) ==> s.contains(m),
    ensures
        s.contains(p.last()),
    decreases p.len() - i,
{
    if i < p.len() - 1 {
        assert(member_edge(book, p[i], p[i + 1]));
        assert(v.contains(p[i]));
        lemma_path_stays(book, p, v, s, i + 1);
    }
}

/// Expansion is a depth-first walk that visits exactly the names reachable
/// from `name` through address-set members (never expanding `any` or a named
/// address), each once: the prefixes that `name` stands for are, in order,
/// what each visited name gives; the visited names start with `name`, hold no
/// name twice, are exactly the reachable ones, and each after the first is a
/// member of an address-set visited before it.
pub proof fn lemma_resolve_reachable(book: AddressBookModel, name: Seq<char>)
    ensures
        ({
            let v = visit_name(book, name, Set::empty()).0;
            &&& book.resolve(name) == leaf_prefixes(book, v)
            &&& v.no_duplicates()
            &&& v.len() > 0 && v[0] == name
            &&& forall|n: Seq<char>| v.contains(n) <==> reachable(book, name, n)
            &&& forall|k: int| 0 < k < v.len() ==> #[trigger] has_parent_before(book, v, k)
        }),
{
    let (v, s) = visit_name(book, name, Set::empty());
    lemma_visit_name(book, name, Set::empty());
    lemma_visit_name_closed(book, name, Set::empty());
    lemma_visit_name_sound(book, name, Set::empty());
    assert(s =~= v.to_set());
    assert forall|n: Seq<char>| reachable(book, name, n) implies v.contains(n) by {
        let p = choose|path: Seq<Seq<char>>| #[trigger] is_member_path(book, path) && path[0] == name && path.last() == n;
        lemma_path_stays(book, p, v, s, 0);
        assert(s.contains(n));
    }
    assert forall|n: Seq<char>| v.contains(n) implies reachable(book, name, n) by {
        let k = choose|k: int| 0 <= k < v.len() && v[k] == n;
    }
}

/// The names of a list of strings, as a set.
pub open spec fn names_of(v: Seq<String>) -> Set<Seq<char>> {
    Set::new(|x: Seq<char>| exists|i: int| 0 <= i < v.len() && v[i]@ == x)
}

fn contains_name(v: &Vec<String>, name: &str) -> (b: bool)
    ensures
        b == names_of(v@).contains(name@),
{
    let mut i: usize = 0;
    while i < v.len()
        invariant
            i <= v@.len(),
            forall|j: int| 0 <= j < i ==> v@[j]@ != name@,
        decreases v@.len() - i,
    {
        if str_eq(v[i].as_str(), name) {
            return true;
        }
        i = i + 1;
    }
    false
}

impl AddressBook {
    /// Expand a name to its constituent prefixes, following address-set nesting.
    pub fn resolve(&self, name: &str) -> (r: Vec<Ipv4Network>)
        ensures
            r@ == self@.resolve(name@),
    {
        let mut seen: Vec<String> = Vec::new();
        assert(names_of(seen@) =~= Set::<Seq<char>>::empty());
        self.resolve_inner(name, &mut seen)
    }

    fn resolve_inner(&self, name: &str, seen: &mut Vec<String>) -> (r: Vec<Ipv4Network>)
        ensures
            (r@, names_of(final(seen)@)) == resolve_name(self@, name@, names_of(old(seen)@)),
        decreases unseen_sets(self@.address_sets, names_of(old(seen)@)),
    {
        let ghost book = self@;
        let ghost seen0 = names_of(seen@);
        if contains_name(seen, name) {
            return Vec::new();
        }
        seen.push(name.to_owned());
        let ghost seen1 = names_of(seen@);
        proof {
            assert(seen1 =~= seen0.insert(name@)) by {
                assert forall|x: Seq<char>| seen1.contains(x) implies seen0.insert(name@).contains(x) by {
                    let i = choose|i: int| 0 <= i < seen@.len() && seen@[i]@ == x;
                    if i < seen@.len() - 1 {
                        assert(old(seen)@[i] == seen@[i]);
                    }
                }
                assert forall|x: Seq<char>| seen0.insert(name@).contains(x) implies seen1.contains(x) by {
                    if x == name@ {
                        assert(seen@[seen@.len() - 1]@ == x);
                    } else {
                        let i = choose|i: int| 0 <= i < old(seen)@.len() && old(seen)@[i]@ == x;
                        assert(seen@[i] == old(seen)@[i]);
                    }
                }
            }
        }
        if str_eq(name, "any") {
            let r = vec![Ipv4Network::any()];
            assert(r@ =~= seq![Ipv4Network { base: 0, prefix: 0 }]);
            return r;
        }
        if let Some(addr) = self.addresses.get(name) {
            let r = vec![addr.prefix];
            assert(r@ =~= seq![addr.prefix]);
            return r;
        }
        if let Some(set) = self.address_sets.get(name) {
            let ghost ms = set@.members;
            proof {
                let i = crate::name_map::lemma_key_pos(book.address_sets, name@);
                lemma_unseen_strict(book.address_sets, seen0, name@, i);
            }
            let mut result: Vec<Ipv4Network> = Vec::new();
            let mut i: usize = 0;
            assert(ms.skip(0) =~= ms);
            assert(result@ + resolve_members(book, ms, seen1).0 =~= resolve_members(book, ms, seen1).0);
            while i < set.members.len()
                invariant
                    i <= set.members@.len(),
                    seen0 == names_of(old(seen)@),
                    ms == set.members.deep_view(),
                    book == self@,
                    seen1.subset_of(names_of(seen@)),
                    unseen_sets(book.address_sets, seen1) < unseen_sets(book.address_sets, seen0),
                    resolve_members(book, ms, seen1) == (
                        result@ + resolve_members(book, ms.skip(i as int), names_of(seen@)).0,
                        resolve_members(book, ms.skip(i as int), names_of(seen@)).1,
                    ),
                decreases set.members@.len() - i,
            {
                let ghost cur = names_of(seen@);
                proof {
                    lemma_unseen_monotone(book.address_sets, seen1, cur);
                    assert(ms.skip(i as int)[0] == set.members@[i as int]@);
                    assert(ms.skip(i as int).drop_first() =~= ms.skip(i + 1));
                    assert(unseen_sets(self@.address_sets, names_of(seen@)) < unseen_sets(self@.address_sets, names_of(old(seen)@)));
                }
                let mut r = self.resolve_inner(set.members[i].as_str(), seen);
                proof {
                    lemma_resolve_name_grows(book, ms[i as int], cur);
                    lemma_unseen_monotone(book.address_sets, cur, names_of(seen@));
                }
                let ghost before = result@;
                result.append(&mut r);
                assert(result@ =~= before + resolve_name(book, ms[i as int], cur).0);
                i = i + 1;
            }
            assert(ms.skip(i as int) =~= Seq::<Seq<char>>::empty());
            assert(result@ =~= result@ + Seq::<Ipv4Network>::empty());
            return result;
        }
        Vec::new()
    }
}

/// The interfaces named in `order`, in that order, skipping names without one.
pub open spec fn ordered_interfaces(
    interfaces: Seq<(Seq<char>, InterfaceModel)>,
    order: Seq<Seq<char>>,
) -> Seq<InterfaceModel>
    decreases order.len(),
{
    if order.len() == 0 {
        Seq::empty()
    } else {
        let prev = ordered_interfaces(interfaces, order.drop_last());
        match map_lookup(interfaces, order.last()) {
            Some(i) => prev.push(i),
            None => prev,
        }
    }
}

impl NetworkConfigModel {
    /// This configuration with interface `i` added, or replacing the interface
    /// with the same name in place; a new name goes to the end of the order.
    pub open spec fn with_interface(self, i: InterfaceModel) -> NetworkConfigModel {
        NetworkConfigModel {
            interfaces: map_insert(self.interfaces, i.name, i),
            interface_order: if map_lookup(self.interfaces, i.name) is Some {
                self.interface_order
            } else {
                self.interface_order.push(i.name)
            },
            ..self
        }
    }

    /// Interfaces in configuration order.
    pub open spec fn interfaces_in_order(self) -> Seq<InterfaceModel> {
        ordered_interfaces(self.interfaces, self.interface_order)
    }
}

impl NetworkConfig {
    /// Adds an interface, or replaces the interface with the same name in place.
    pub fn insert_interface(&mut self, iface: Interface)
        ensures
            final(self)@ == old(self)@.with_interface(iface@),
    {
        if !self.interfaces.contains_key(iface.name.as_str()) {
            self.interface_order.push(iface.name.clone());
        }
        let name = iface.name.clone();
        self.interfaces.insert(name, iface);
        proof {
            assert(self.interface_order.deep_view() =~= if map_lookup(old(self)@.interfaces, iface@.name) is Some {
                old(self)@.interface_order
            } else {
                old(self)@.interface_order.push(iface@.name)
            });
        }
    }

    /// Interfaces in configuration order.
    pub fn interfaces_ordered(&self) -> (r: Vec<&Interface>)
        ensures
            r@.map_values(|i: &Interface| i@) == self@.interfaces_in_order(),
    {
        let ghost order = self.interface_order.deep_view();
        let mut result: Vec<&Interface> = Vec::new();
        let mut i: usize = 0;
        while i < self.interface_order.len()
            invariant
                i <= self.interface_order@.len(),
                order == self.interface_order.deep_view(),
                result@.map_values(|i: &Interface| i@) == ordered_interfaces(self@.interfaces, order.take(i as int)),
            decreases self.interface_order@.len() - i,
        {
            proof {
                assert(order.take(i + 1).drop_last() =~= order.take(i as int));
            }
            let ghost before = result@;
            match self.interfaces.get(self.interface_order[i].as_str()) {
                Some(iface) => {
                    result.push(iface);
                    assert(result@.map_values(|i: &Interface| i@) =~= before.map_values(|i: &Interface| i@).push(iface@));
                },
                None => {},
            }
            i = i + 1;
        }
        assert(order.take(i as int) =~= order);
        result
    }
}

/// Whether `order` lists the names of the entries of `m`, in entry order.
pub open spec fn order_matches_keys<T>(order: Seq<Seq<char>>, m: Seq<(Seq<char>, T)>) -> bool {
    order == m.map_values(|e: (Seq<char>, T)| e.0)
}

proof fn lemma_insert_keeps_order<T>(order: Seq<Seq<char>>, m: Seq<(Seq<char>, T)>, k: Seq<char>, v: T)
    requires
        order_matches_keys(order, m),
    ensures
        order_matches_keys(
            if map_lookup(m, k) is Some {
                order
            } else {
                order.push(k)
            },
            map_insert(m, k, v),
        ),
{
    let p = crate::name_map::lemma_key_pos(m, k);
    let m2 = map_insert(m, k, v);
    if p >= 0 {
        assert(m2.map_values(|e: (Seq<char>, T)| e.0) =~= order);
    } else {
        assert(m2.map_values(|e: (Seq<char>, T)| e.0) =~= order.push(k));
    }
}

/// The number of addresses configured on `units`, all units together.
pub open spec fn address_count(units: Seq<(Seq<char>, InterfaceUnitModel)>) -> nat
    decreases units.len(),
{
    if units.len() == 0 {
        0
    } else {
        address_count(units.drop_last()) + units.last().1.ipv4_addresses.len()
    }
}

/// The names of the entries of `m`, in entry order.
pub open spec fn key_seq<T>(m: Seq<(Seq<char>, T)>) -> Seq<Seq<char>> {
    m.map_values(|e: (Seq<char>, T)| e.0)
}

/// Whether `order` names each entry of `m` exactly once, in any order: it has
/// no duplicates and holds exactly the names of `m`.
pub open spec fn order_lists_keys<T>(order: Seq<Seq<char>>, m: Seq<(Seq<char>, T)>) -> bool {
    &&& order.no_duplicates()
    &&& order.to_set() == key_seq(m).to_set()
}

proof fn lemma_lookup_entry<T>(m: Seq<(Seq<char>, T)>, j: int)
    requires
        keys_distinct(m),
        0 <= j < m.len(),
    ensures
        map_lookup(m, m[j].0) == Some(m[j].1),
{
    let k = m[j].0;
    let p = lemma_key_pos(m, k);
    assert(p == j) by {
        if p != j {
            assert(m[p].0 == k);
        }
    }
}

proof fn lemma_key_listed<T>(m: Seq<(Seq<char>, T)>, k: Seq<char>)
    ensures
        key_seq(m).to_set().contains(k) <==> map_lookup(m, k) is Some,
{
    let p = lemma_key_pos(m, k);
    if p >= 0 {
        assert(key_seq(m)[p] == k);
    } else {
        if key_seq(m).contains(k) {
            let j = choose|j: int| 0 <= j < key_seq(m).len() && key_seq(m)[j] == k;
            assert(m[j].0 == k);
        }
    }
}

proof fn lemma_keys_no_duplicates<T>(m: Seq<(Seq<char>, T)>)
    requires
        keys_distinct(m),
    ensures
        key_seq(m).no_duplicates(),
{
    assert forall|i: int, j: int| 0 <= i < key_seq(m).len() && 0 <= j < key_seq(m).len() && i != j implies key_seq(
        m,
    )[i] != key_seq(m)[j] by {
        assert(key_seq(m)[i] == m[i].0 && key_seq(m)[j] == m[j].0);
    }
}

/// Inserting keeps an order that names each entry exactly once in that shape:
/// a new name is appended, an existing one is left where it is.
proof fn lemma_insert_keeps_listing<T>(order: Seq<Seq<char>>, m: Seq<(Seq<char>, T)>, k: Seq<char>, v: T)
    requires
        order_lists_keys(order, m),
    ensures
        order_lists_keys(
            if map_lookup(m, k) is Some {
                order
            } else {
                order.push(k)
            },
            map_insert(m, k, v),
        ),
{
    let p = lemma_key_pos(m, k);
    let m2 = map_insert(m, k, v);
    if p >= 0 {
        assert(key_seq(m2) =~= key_seq(m));
    } else {
        lemma_key_listed(m, k);
        assert(key_seq(m2) =~= key_seq(m).push(k));
        assert(!order.contains(k)) by {
            assert(!order.to_set().contains(k));
        }
        let o2 = order.push(k);
        assert(o2.no_duplicates()) by {
            assert forall|i: int, j: int| 0 <= i < o2.len() && 0 <= j < o2.len() && i != j implies o2[i] != o2[j] by {
                if i < order.len() && j < order.len() {
                } else if i == order.len() {
                    assert(order.contains(o2[j]) || o2[j] != k);
                } else {
                    assert(order.contains(o2[i]) || o2[i] != k);
                }
            }
        }
        assert(o2.to_set() =~= key_seq(m2).to_set()) by {
            assert forall|x: Seq<char>| o2.contains(x) <==> key_seq(m2).contains(x) by {
                if o2.contains(x) {
                    let i = choose|i: int| 0 <= i < o2.len() && o2[i] == x;
                    if i < order.len() {
                        assert(order.contains(x));
                        assert(order.to_set().contains(x));
                        let j = choose|j: int| 0 <= j < key_seq(m).len() && key_seq(m)[j] == x;
                        assert(key_seq(m2)[j] == x);
                    } else {
                        assert(key_seq(m2)[key_seq(m).len() as int] == x);
                    }
                }
                if key_seq(m2).contains(x) {
                    let j = choose|j: int| 0 <= j < key_seq(m2).len() && key_seq(m2)[j] == x;
                    if j < key_seq(m).len() {
                        assert(key_seq(m).contains(x));
                        assert(key_seq(m).to_set().contains(x));
                        let i = choose|i: int| 0 <= i < order.len() && order[i] == x;
                        assert(o2[i] == x);
                    } else {
                        assert(o2[order.len() as int] == x);
                    }
                }
            }
        }
    }
}

/// Adding a unit keeps a unit order that names each unit exactly once (in any
/// order) in that shape.
pub proof fn lemma_with_unit_keeps_listing(im: InterfaceModel, u: InterfaceUnitModel)
    requires
        order_lists_keys(im.unit_order, im.units),
    ensures
        order_lists_keys(im.with_unit(u).unit_order, im.with_unit(u).units),
{
    lemma_insert_keeps_listing(im.unit_order, im.units, u.unit_id, u);
}

/// Adding an interface keeps an interface order that names each interface
/// exactly once (in any order) in that shape.
pub proof fn lemma_with_interface_keeps_listing(nc: NetworkConfigModel, i: InterfaceModel)
    requires
        order_lists_keys(nc.interface_order, nc.interfaces),
    ensures
        order_lists_keys(nc.with_interface(i).interface_order, nc.with_interface(i).interfaces),
{
    lemma_insert_keeps_listing(nc.interface_order, nc.interfaces, i.name, i);
}

/// The number of addresses of the unit named `n`, if there is one.
pub open spec fn unit_len(units: Seq<(Seq<char>, InterfaceUnitModel)>, n: Seq<char>) -> nat {
    match map_lookup(units, n) {
        Some(u) => u.ipv4_addresses.len(),
        None => 0,
    }
}

/// The number of addresses of the units named in `order`, all together.
pub open spec fn order_count(units: Seq<(Seq<char>, InterfaceUnitModel)>, order: Seq<Seq<char>>) -> nat
    decreases order.len(),
{
    if order.len() == 0 {
        0
    } else {
        order_count(units, order.drop_last()) + unit_len(units, order.last())
    }
}

proof fn lemma_unit_addresses_count(units: Seq<(Seq<char>, InterfaceUnitModel)>, order: Seq<Seq<char>>)
    ensures
        unit_addresses(units, order).len() == order_count(units, order),
    decreases order.len(),
{
    if order.len() > 0 {
        lemma_unit_addresses_count(units, order.drop_last());
    }
}

proof fn lemma_address_count_keys(units: Seq<(Seq<char>, InterfaceUnitModel)>, n: int)
    requires
        keys_distinct(units),
        0 <= n <= units.len(),
    ensures
        address_count(units.take(n)) == order_count(units, key_seq(units).take(n)),
    decreases n,
{
    if n > 0 {
        lemma_address_count_keys(units, n - 1);
        assert(units.take(n).drop_last() =~= units.take(n - 1));
        assert(key_seq(units).take(n).drop_last() =~= key_seq(units).take(n - 1));
        assert(key_seq(units).take(n).last() == units[n - 1].0);
        lemma_lookup_entry(units, n - 1);
    }
}

proof fn lemma_order_count_remove(units: Seq<(Seq<char>, InterfaceUnitModel)>, b: Seq<Seq<char>>, j: int)
    requires
        0 <= j < b.len(),
    ensures
        order_count(units, b) == order_count(units, b.remove(j)) + unit_len(units, b[j]),
    decreases b.len(),
{
    if j == b.len() - 1 {
        assert(b.remove(j) =~= b.drop_last());
    } else {
        lemma_order_count_remove(units, b.drop_last(), j);
        assert(b.remove(j).drop_last() =~= b.drop_last().remove(j));
        assert(b.remove(j).last() == b.last());
    }
}

proof fn lemma_order_count_permutation(
    units: Seq<(Seq<char>, InterfaceUnitModel)>,
    a: Seq<Seq<char>>,
    b: Seq<Seq<char>>,
)
    requires
        a.no_duplicates(),
        b.no_duplicates(),
        a.to_set() == b.to_set(),
    ensures
        order_count(units, a) == order_count(units, b),
    decreases a.len(),
{
    if a.len() == 0 {
        if b.len() > 0 {
            assert(b.to_set().contains(b[0]));
            assert(a.to_set().contains(b[0]));
        }
    } else {
        let x = a.last();
        assert(a.to_set().contains(x));
        assert(b.to_set().contains(x));
        let j = choose|j: int| 0 <= j < b.len() && b[j] == x;
        let a2 = a.drop_last();
        let b2 = b.remove(j);
        assert forall|y: Seq<char>| a2.contains(y) <==> (a.contains(y) && y != x) by {
            if a2.contains(y) {
                let i = choose|i: int| 0 <= i < a2.len() && a2[i] == y;
                assert(a[i] == y);
            }
            if a.contains(y) && y != x {
                let i = choose|i: int| 0 <= i < a.len() && a[i] == y;
                assert(a2[i] == y);
            }
        }
        assert forall|y: Seq<char>| b2.contains(y) <==> (b.contains(y) && y != x) by {
            if b2.contains(y) {
                let i = choose|i: int| 0 <= i < b2.len() && b2[i] == y;
                if i < j {
                    assert(b[i] == y);
                } else {
                    assert(b[i + 1] == y);
                }
            }
            if b.contains(y) && y != x {
                let i = choose|i: int| 0 <= i < b.len() && b[i] == y;
                if i < j {
                    assert(b2[i] == y);
                } else {
                    assert(b2[i - 1] == y);
                }
            }
        }
        assert forall|y: Seq<char>| a.contains(y) <==> b.contains(y) by {
            assert(a.to_set().contains(y) == a.contains(y));
            assert(b.to_set().contains(y) == b.contains(y));
        }
        assert(a2.to_set() =~= b2.to_set());
        assert(b2.no_duplicates()) by {
            assert forall|p: int, q: int| 0 <= p < b2.len() && 0 <= q < b2.len() && p != q implies b2[p] != b2[q] by {
                let pp = if p < j { p } else { p + 1 };
                let qq = if q < j { q } else { q + 1 };
                assert(b2[p] == b[pp] && b2[q] == b[qq]);
            }
        }
        lemma_order_count_permutation(units, a2, b2);
        lemma_order_count_remove(units, b, j);
    }
}

/// When the unit order names each unit exactly once (in any order), an
/// interface has exactly as many `(unit, address)` pairs as addresses
/// configured on its units.
pub proof fn lemma_addresses_len(im: InterfaceModel)
    requires
        order_lists_keys(im.unit_order, im.units),
        keys_distinct(im.units),
    ensures
        im.addresses().len() == address_count(im.units),
{
    lemma_unit_addresses_count(im.units, im.unit_order);
    lemma_keys_no_duplicates(im.units);
    lemma_order_count_permutation(im.units, im.unit_order, key_seq(im.units));
    lemma_address_count_keys(im.units, im.units.len() as int);
    assert(im.units.take(im.units.len() as int) =~= im.units);
    assert(key_seq(im.units).take(im.units.len() as int) =~= key_seq(im.units));
}

/// When the interface order names each interface exactly once (in any
/// order), the interfaces come out exactly once each, in that order: the
/// `k`-th is the interface named by the `k`-th name of the order, and every
/// interface of the configuration is among them.
pub proof fn lemma_interfaces_in_order_each_once(nc: NetworkConfigModel)
    requires
        order_lists_keys(nc.interface_order, nc.interfaces),
        keys_distinct(nc.interfaces),
    ensures
        nc.interfaces_in_order().len() == nc.interfaces.len(),
        nc.interfaces_in_order().len() == nc.interface_order.len(),
        forall|k: int|
            0 <= k < nc.interface_order.len() ==> map_lookup(nc.interfaces, nc.interface_order[k]) == Some(
                #[trigger] nc.interfaces_in_order()[k],
            ),
        forall|j: int|
            0 <= j < nc.interfaces.len() ==> exists|k: int|
                0 <= k < nc.interface_order.len() && nc.interface_order[k] == (#[trigger] nc.interfaces[j]).0
                    && nc.interfaces_in_order()[k] == nc.interfaces[j].1,
{
    let ifs = nc.interfaces;
    let order = nc.interface_order;
    assert forall|k: int| 0 <= k < order.len() implies map_lookup(ifs, #[trigger] order[k]) is Some by {
        assert(order.contains(order[k]));
        assert(order.to_set().contains(order[k]));
        lemma_key_listed(ifs, order[k]);
    }
    lemma_ordered_all_present(ifs, order, order.len() as int);
    assert(order.take(order.len() as int) =~= order);
    lemma_keys_no_duplicates(ifs);
    order.unique_seq_to_set();
    key_seq(ifs).unique_seq_to_set();
    assert forall|j: int| 0 <= j < ifs.len() implies exists|k: int|
        0 <= k < order.len() && order[k] == (#[trigger] ifs[j]).0 && nc.interfaces_in_order()[k] == ifs[j].1 by {
        assert(key_seq(ifs)[j] == ifs[j].0);
        assert(key_seq(ifs).contains(ifs[j].0));
        assert(key_seq(ifs).to_set().contains(ifs[j].0));
        assert(order.to_set().contains(ifs[j].0));
        let k = choose|k: int| 0 <= k < order.len() && order[k] == ifs[j].0;
        lemma_lookup_entry(ifs, j);
        assert(map_lookup(ifs, order[k]) == Some(nc.interfaces_in_order()[k]));
    }
}

proof fn lemma_ordered_all_present(ifs: Seq<(Seq<char>, InterfaceModel)>, order: Seq<Seq<char>>, n: int)
    requires
        0 <= n <= order.len(),
        forall|k: int| 0 <= k < order.len() ==> map_lookup(ifs, #[trigger] order[k]) is Some,
    ensures
        ordered_interfaces(ifs, order.take(n)).len() == n,
        forall|k: int| 0 <= k < n ==> map_lookup(ifs, order[k]) == Some(#[trigger] ordered_interfaces(ifs, order.take(n))[k]),
    decreases n,
{
    if n > 0 {
        lemma_ordered_all_present(ifs, order, n - 1);
        assert(order.take(n).drop_last() =~= order.take(n - 1));
        assert(order.take(n).last() == order[n - 1]);
        assert(map_lookup(ifs, order[n - 1]) is Some);
    }
}

/// Adding a unit keeps the unit order in step with the units: it lists each
/// unit id once, in the order the units were first added.
pub proof fn lemma_with_unit_keeps_order(im: InterfaceModel, u: InterfaceUnitModel)
    requires
        order_matches_keys(im.unit_order, im.units),
    ensures
        order_matches_keys(im.with_unit(u).unit_order, im.with_unit(u).units),
{
    lemma_insert_keeps_order(im.unit_order, im.units, u.unit_id, u);
}

/// Adding an interface keeps the interface order in step with the interfaces:
/// it lists each interface name once, in the order they were first added.
pub proof fn lemma_with_interface_keeps_order(nc: NetworkConfigModel, i: InterfaceModel)
    requires
        order_matches_keys(nc.interface_order, nc.interfaces),
    ensures
        order_matches_keys(nc.with_interface(i).interface_order, nc.with_interface(i).interfaces),
{
    lemma_insert_keeps_order(nc.interface_order, nc.interfaces, i.name, i);
}

/// Resolution of a single name: `any` stands for `0.0.0.0/0`, a named address
/// for its prefix, and a name the book does not know for nothing.
pub proof fn lemma_resolve_single_names(book: AddressBookModel, name: Seq<char>)
    ensures
        name == "any"@ ==> book.resolve(name) == seq![Ipv4Network { base: 0, prefix: 0 }],
        name != "any"@ && map_lookup(book.addresses, name) is Some ==> book.resolve(name) == seq![
            map_lookup(book.addresses, name)->0.prefix,
        ],
        name != "any"@ && map_lookup(book.addresses, name) is None && map_lookup(book.address_sets, name) is None
            ==> book.resolve(name).len() == 0,
{
}

/// Whether `n` is `0.0.0.0/0` or the prefix of a named address of `book`.
pub open spec fn from_book(book: AddressBookModel, n: Ipv4Network) -> bool {
    ||| n == Ipv4Network { base: 0, prefix: 0 }
    ||| exists|i: int| 0 <= i < book.addresses.len() && (#[trigger] book.addresses[i]).1.prefix == n
}

proof fn lemma_resolve_name_from_book(book: AddressBookModel, name: Seq<char>, seen: Set<Seq<char>>)
    ensures
        forall|k: int| 0 <= k < resolve_name(book, name, seen).0.len() ==> from_book(book, #[trigger] resolve_name(book, name, seen).0[k]),
    decreases unseen_sets(book.address_sets, seen), 0nat,
{
    if !seen.contains(name) {
        let seen1 = seen.insert(name);
        if name == "any"@ {
            assert(resolve_name(book, name, seen).0 == seq![Ipv4Network { base: 0, prefix: 0 }]);
            assert(from_book(book, resolve_name(book, name, seen).0[0]));
        } else if map_lookup(book.addresses, name) is Some {
            let p = crate::name_map::lemma_key_pos(book.addresses, name);
            assert(book.addresses[p].1.prefix == map_lookup(book.addresses, name)->0.prefix);
            assert(resolve_name(book, name, seen).0 == seq![map_lookup(book.addresses, name)->0.prefix]);
            assert(from_book(book, resolve_name(book, name, seen).0[0]));
        } else if map_lookup(book.address_sets, name) is Some {
            if unseen_sets(book.address_sets, seen1) < unseen_sets(book.address_sets, seen) {
                lemma_resolve_members_from_book(book, map_lookup(book.address_sets, name)->0.members, seen1);
                assert(resolve_name(book, name, seen) == resolve_members(book, map_lookup(book.address_sets, name)->0.members, seen1));
            } else {
                assert(resolve_name(book, name, seen).0.len() == 0);
            }
        } else {
            assert(resolve_name(book, name, seen).0.len() == 0);
        }
    }
}

proof fn lemma_resolve_members_from_book(book: AddressBookModel, members: Seq<Seq<char>>, seen: Set<Seq<char>>)
    ensures
        forall|k: int| 0 <= k < resolve_members(book, members, seen).0.len() ==> from_book(book, #[trigger] resolve_members(book, members, seen).0[k]),
    decreases unseen_sets(book.address_sets, seen), members.len() + 1,
{
    if members.len() > 0 {
        let (r1, s1) = resolve_name(book, members[0], seen);
        lemma_resolve_name_from_book(book, members[0], seen);
        if unseen_sets(book.address_sets, s1) <= unseen_sets(book.address_sets, seen) {
            lemma_resolve_members_from_book(book, members.drop_first(), s1);
            let r2 = resolve_members(book, members.drop_first(), s1).0;
            assert forall|k: int| 0 <= k < (r1 + r2).len() implies from_book(book, #[trigger] (r1 + r2)[k]) by {
                if k < r1.len() {
                    assert((r1 + r2)[k] == r1[k]);
                } else {
                    assert((r1 + r2)[k] == r2[k - r1.len()]);
                }
            }
        }
    }
}

/// Everything a name expands to is `0.0.0.0/0` or the prefix of one of the
/// book's named addresses, however address-sets nest (cycles included).
pub proof fn lemma_resolve_from_book(book: AddressBookModel, name: Seq<char>)
    ensures
        forall|k: int| 0 <= k < book.resolve(name).len() ==> from_book(book, #[trigger] book.resolve(name)[k]),
{
    lemma_resolve_name_from_book(book, name, Set::empty());
}

} // verus!
