//! Build a [`NetworkConfig`] from raw JunOS hierarchical config text.

use vstd::prelude::*;

use crate::ipv4::{lemma_parsed_network_is_canonical, spec_parse_network, Ipv4Network};
use crate::models::{
    Address, AddressBook, AddressBookModel, AddressModel, AddressSet, AddressSetModel,
    Application, ApplicationModel, ApplicationSet, ApplicationSetModel, Interface,
    InterfaceModel, InterfaceUnit, InterfaceUnitModel, NetworkConfig, NetworkConfigModel,
    PolicyMatch, PolicyMatchModel, PolicyRule, PolicyRuleModel, SecurityPolicy,
    SecurityPolicyModel, SecurityZone, SecurityZoneModel,
};
use crate::name_map::map_insert;
use crate::parser::{
    lemma_stmts_model, parse_config, spec_parse_config, stmts_model, Statement, StmtModel,
};
use crate::text::{push_char, push_str, str_eq};

verus! {

// ---------------------------------------------------------------------------
// Navigating the statement list
// ---------------------------------------------------------------------------

/// The statements of `ms` with keyword `kw`, in order.
pub open spec fn find_spec(ms: Seq<StmtModel>, kw: Seq<char>) -> Seq<StmtModel>
    decreases ms.len(),
{
    if ms.len() == 0 {
        Seq::empty()
    } else {
        let prev = find_spec(ms.drop_last(), kw);
        if ms.last().keyword == kw {
            prev.push(ms.last())
        } else {
            prev
        }
    }
}

/// The first statement of `ms` with keyword `kw`.
pub open spec fn find_one_spec(ms: Seq<StmtModel>, kw: Seq<char>) -> Option<StmtModel>
    decreases ms.len(),
{
    if ms.len() == 0 {
        None
    } else if ms[0].keyword == kw {
        Some(ms[0])
    } else {
        find_one_spec(ms.drop_first(), kw)
    }
}

/// The children of a statement; nothing for a leaf or for no statement.
pub open spec fn child_stmts_spec(s: Option<StmtModel>) -> Seq<StmtModel> {
    match s {
        Some(st) => match st.children {
            Some(c) => c,
            None => Seq::empty(),
        },
        None => Seq::empty(),
    }
}

/// The first argument of the first statement with keyword `kw`.
pub open spec fn leaf_value_spec(ms: Seq<StmtModel>, kw: Seq<char>) -> Option<Seq<char>> {
    match find_one_spec(ms, kw) {
        Some(s) => if s.args.len() > 0 {
            Some(s.args[0])
        } else {
            None
        },
        None => None,
    }
}

/// The models of a list of statement references.
pub open spec fn refs_model(v: Seq<&Statement>) -> Seq<StmtModel> {
    v.map_values(|s: &Statement| s.model())
}

fn keyword_is(s: &Statement, kw: &str) -> (b: bool)
    ensures
        b == (s.model().keyword == kw@),
{
    str_eq(s.keyword.as_str(), kw)
}

fn find<'a>(stmts: &'a [Statement], keyword: &str) -> (r: Vec<&'a Statement>)
    ensures
        refs_model(r@) == find_spec(stmts_model(stmts@), keyword@),
{
    let ghost ms = stmts_model(stmts@);
    proof {
        lemma_stmts_model(stmts@);
    }
    let mut r: Vec<&'a Statement> = Vec::new();
    let mut i: usize = 0;
    assert(refs_model(r@) =~= Seq::<StmtModel>::empty());
    while i < stmts.len()
        invariant
            i <= stmts@.len(),
            ms == stmts_model(stmts@),
            ms.len() == stmts@.len(),
            forall|k: int| 0 <= k < stmts@.len() ==> #[trigger] ms[k] == stmts@[k].model(),
            refs_model(r@) == find_spec(ms.take(i as int), keyword@),
        decreases stmts@.len() - i,
    {
        proof {
            assert(ms.take(i + 1).drop_last() =~= ms.take(i as int));
            assert(ms.take(i + 1).last() == stmts@[i as int].model());
        }
        let ghost before = r@;
        if keyword_is(&stmts[i], keyword) {
            r.push(&stmts[i]);
            assert(refs_model(r@) =~= refs_model(before).push(stmts@[i as int].model()));
        }
        i = i + 1;
    }
    assert(ms.take(i as int) =~= ms);
    r
}

fn find_one<'a>(stmts: &'a [Statement], keyword: &str) -> (r: Option<&'a Statement>)
    ensures
        match r {
            Some(s) => find_one_spec(stmts_model(stmts@), keyword@) == Some(s.model()),
            None => find_one_spec(stmts_model(stmts@), keyword@) is None,
        },
{
    let ghost ms = stmts_model(stmts@);
    proof {
        lemma_stmts_model(stmts@);
    }
    let mut i: usize = 0;
    assert(ms.skip(0) =~= ms);
    while i < stmts.len()
        invariant
            i <= stmts@.len(),
            ms == stmts_model(stmts@),
            ms.len() == stmts@.len(),
            forall|k: int| 0 <= k < stmts@.len() ==> #[trigger] ms[k] == stmts@[k].model(),
            find_one_spec(ms, keyword@) == find_one_spec(ms.skip(i as int), keyword@),
        decreases stmts@.len() - i,
    {
        proof {
            assert(ms.skip(i as int)[0] == ms[i as int]);
            assert(ms.skip(i as int).drop_first() =~= ms.skip(i + 1));
        }
        if keyword_is(&stmts[i], keyword) {
            return Some(&stmts[i]);
        }
        i = i + 1;
    }
    assert(ms.skip(i as int) =~= Seq::<StmtModel>::empty());
    None
}

/// The models of a statement reference, if any.
pub open spec fn opt_model(s: Option<&Statement>) -> Option<StmtModel> {
    match s {
        Some(st) => Some(st.model()),
        None => None,
    }
}

fn child_stmts<'a>(stmt: Option<&'a Statement>) -> (r: &'a [Statement])
    ensures
        stmts_model(r@) == child_stmts_spec(opt_model(stmt)),
{
    match stmt {
        Some(s) => match &s.children {
            Some(children) => children.as_slice(),
            None => {
                let e: &[Statement] = &[];
                assert(stmts_model(e@) =~= Seq::<StmtModel>::empty());
                e
            },
        },
        None => {
            let e: &[Statement] = &[];
            assert(stmts_model(e@) =~= Seq::<StmtModel>::empty());
            e
        },
    }
}

fn leaf_value<'a>(stmts: &'a [Statement], keyword: &str) -> (r: Option<&'a str>)
    ensures
        match r {
            Some(v) => leaf_value_spec(stmts_model(stmts@), keyword@) == Some(v@),
            None => leaf_value_spec(stmts_model(stmts@), keyword@) is None,
        },
{
    match find_one(stmts, keyword) {
        Some(s) => {
            if s.args.len() > 0 {
                Some(s.args[0].as_str())
            } else {
                None
            }
        },
        None => None,
    }
}

// ---------------------------------------------------------------------------
// Address books and policy matches
// ---------------------------------------------------------------------------

/// The first arguments of the statements of `ms` with keyword `kw` that have
/// arguments, in order.
pub open spec fn members_named(ms: Seq<StmtModel>, kw: Seq<char>) -> Seq<Seq<char>>
    decreases ms.len(),
{
    if ms.len() == 0 {
        Seq::empty()
    } else {
        let prev = members_named(ms.drop_last(), kw);
        let s = ms.last();
        if s.keyword == kw && s.args.len() > 0 {
            prev.push(s.args[0])
        } else {
            prev
        }
    }
}

/// The named addresses declared by `address NAME PREFIX` statements; a later
/// declaration of a name replaces an earlier one, and a statement whose prefix
/// does not parse is ignored.
pub open spec fn book_addresses(found: Seq<StmtModel>) -> Seq<(Seq<char>, AddressModel)>
    decreases found.len(),
{
    if found.len() == 0 {
        Seq::empty()
    } else {
        let prev = book_addresses(found.drop_last());
        let s = found.last();
        if s.args.len() >= 2 && spec_parse_network(s.args[1]) is Ok {
            map_insert(
                prev,
                s.args[0],
                AddressModel { name: s.args[0], prefix: spec_parse_network(s.args[1])->Ok_0 },
            )
        } else {
            prev
        }
    }
}

/// The address-sets declared by `address-set NAME { address MEMBER; .. }`.
pub open spec fn book_sets(found: Seq<StmtModel>) -> Seq<(Seq<char>, AddressSetModel)>
    decreases found.len(),
{
    if found.len() == 0 {
        Seq::empty()
    } else {
        let prev = book_sets(found.drop_last());
        let s = found.last();
        if s.args.len() > 0 {
            map_insert(
                prev,
                s.args[0],
                AddressSetModel {
                    name: s.args[0],
                    members: members_named(child_stmts_spec(Some(s)), "address"@),
                },
            )
        } else {
            prev
        }
    }
}

/// The address book declared by the statements of an `address-book` block.
pub open spec fn address_book_spec(ms: Seq<StmtModel>) -> AddressBookModel {
    AddressBookModel {
        addresses: book_addresses(find_spec(ms, "address"@)),
        address_sets: book_sets(find_spec(ms, "address-set"@)),
    }
}

fn collect_members(stmts: &[Statement], kw: &str) -> (r: Vec<String>)
    ensures
        r.deep_view() == members_named(stmts_model(stmts@), kw@),
{
    let ghost ms = stmts_model(stmts@);
    proof {
        lemma_stmts_model(stmts@);
    }
    let mut r: Vec<String> = Vec::new();
    let mut i: usize = 0;
    assert(r.deep_view() =~= Seq::<Seq<char>>::empty());
    while i < stmts.len()
        invariant
            i <= stmts@.len(),
            ms == stmts_model(stmts@),
            ms.len() == stmts@.len(),
            forall|k: int| 0 <= k < stmts@.len() ==> #[trigger] ms[k] == stmts@[k].model(),
            r.deep_view() == members_named(ms.take(i as int), kw@),
        decreases stmts@.len() - i,
    {
        proof {
            assert(ms.take(i + 1).drop_last() =~= ms.take(i as int));
            assert(ms.take(i + 1).last() == stmts@[i as int].model());
        }
        let s = &stmts[i];
        if keyword_is(s, kw) && s.args.len() > 0 {
            let ghost before = r.deep_view();
            r.push(s.args[0].clone());
            assert(r.deep_view() =~= before.push(s.args@[0]@));
        }
        i = i + 1;
    }
    assert(ms.take(i as int) =~= ms);
    r
}

fn parse_address_book(book_stmts: &[Statement]) -> (book: AddressBook)
    ensures
        book@ == address_book_spec(stmts_model(book_stmts@)),
{
    let mut book = AddressBook::default();
    let found = find(book_stmts, "address");
    let ghost fm = refs_model(found@);
    assert(book.addresses@ =~= book_addresses(fm.take(0)));
    let mut i: usize = 0;
    while i < found.len()
        invariant
            i <= found@.len(),
            fm == refs_model(found@),
            book.addresses@ == book_addresses(fm.take(i as int)),
            book.address_sets@.len() == 0,
        decreases found@.len() - i,
    {
        proof {
            assert(fm.take(i + 1).drop_last() =~= fm.take(i as int));
            assert(fm.take(i + 1).last() == found@[i as int].model());
        }
        let addr_stmt = found[i];
        if addr_stmt.args.len() >= 2 {
            let name = addr_stmt.args[0].clone();
            match Ipv4Network::parse(addr_stmt.args[1].as_str()) {
                Ok(prefix) => {
                    book.addresses.insert(name.clone(), Address { name: name, prefix });
                },
                Err(_) => {},
            }
        }
        i = i + 1;
    }
    assert(fm.take(i as int) =~= fm);
    let sets = find(book_stmts, "address-set");
    let ghost sm = refs_model(sets@);
    assert(book.address_sets@ =~= book_sets(sm.take(0)));
    let mut i: usize = 0;
    while i < sets.len()
        invariant
            i <= sets@.len(),
            sm == refs_model(sets@),
            book.address_sets@ == book_sets(sm.take(i as int)),
            book.addresses@ == book_addresses(fm),
        decreases sets@.len() - i,
    {
        proof {
            assert(sm.take(i + 1).drop_last() =~= sm.take(i as int));
            assert(sm.take(i + 1).last() == sets@[i as int].model());
        }
        let set_stmt = sets[i];
        if set_stmt.args.len() > 0 {
            let set_name = set_stmt.args[0].clone();
            let members = collect_members(child_stmts(Some(set_stmt)), "address");
            book.address_sets.insert(set_name.clone(), AddressSet { name: set_name, members });
        }
        i = i + 1;
    }
    assert(sm.take(i as int) =~= sm);
    book
}

/// The match criteria of a policy: the arguments of its `source-address`,
/// `destination-address` and `application` statements, concatenated in order.
pub open spec fn policy_match_spec(ms: Seq<StmtModel>) -> PolicyMatchModel
    decreases ms.len(),
{
    if ms.len() == 0 {
        PolicyMatchModel {
            source_addresses: Seq::empty(),
            destination_addresses: Seq::empty(),
            applications: Seq::empty(),
        }
    } else {
        let prev = policy_match_spec(ms.drop_last());
        let s = ms.last();
        if s.keyword == "source-address"@ {
            PolicyMatchModel { source_addresses: prev.source_addresses + s.args, ..prev }
        } else if s.keyword == "destination-address"@ {
            PolicyMatchModel { destination_addresses: prev.destination_addresses + s.args, ..prev }
        } else if s.keyword == "application"@ {
            PolicyMatchModel { applications: prev.applications + s.args, ..prev }
        } else {
            prev
        }
    }
}

fn extend_strings(v: &mut Vec<String>, more: &Vec<String>)
    ensures
        final(v).deep_view() == old(v).deep_view() + more.deep_view(),
{
    let ghost base = v.deep_view();
    let mut i: usize = 0;
    while i < more.len()
        invariant
            i <= more@.len(),
            v.deep_view() == base + more.deep_view().take(i as int),
        decreases more@.len() - i,
    {
        let ghost before = v.deep_view();
        v.push(more[i].clone());
        assert(v.deep_view() =~= before.push(more@[i as int]@));
        assert(more.deep_view().take(i + 1) =~= more.deep_view().take(i as int).push(more@[i as int]@));
        i = i + 1;
    }
    assert(more.deep_view().take(i as int) =~= more.deep_view());
}

fn parse_policy_match(match_children: &[Statement]) -> (pm: PolicyMatch)
    ensures
        pm@ == policy_match_spec(stmts_model(match_children@)),
{
    let ghost ms = stmts_model(match_children@);
    proof {
        lemma_stmts_model(match_children@);
    }
    let mut pm = PolicyMatch::default();
    let mut i: usize = 0;
    assert(ms.take(0).len() == 0);
    assert(pm@.source_addresses =~= Seq::<Seq<char>>::empty());
    assert(pm@.destination_addresses =~= Seq::<Seq<char>>::empty());
    assert(pm@.applications =~= Seq::<Seq<char>>::empty());
    while i < match_children.len()
        invariant
            i <= match_children@.len(),
            ms == stmts_model(match_children@),
            ms.len() == match_children@.len(),
            forall|k: int| 0 <= k < match_children@.len() ==> #[trigger] ms[k] == match_children@[k].model(),
            pm@ == policy_match_spec(ms.take(i as int)),
        decreases match_children@.len() - i,
    {
        proof {
            assert(ms.take(i + 1).drop_last() =~= ms.take(i as int));
            assert(ms.take(i + 1).last() == match_children@[i as int].model());
        }
        let stmt = &match_children[i];
        proof {
            assert(stmt.args.deep_view() == stmt.model().args);
        }
        if keyword_is(stmt, "source-address") {
            extend_strings(&mut pm.source_addresses, &stmt.args);
        } else if keyword_is(stmt, "destination-address") {
            extend_strings(&mut pm.destination_addresses, &stmt.args);
        } else if keyword_is(stmt, "application") {
            extend_strings(&mut pm.applications, &stmt.args);
        }
        i = i + 1;
    }
    assert(ms.take(i as int) =~= ms);
    pm
}

// ---------------------------------------------------------------------------
// Interfaces
// ---------------------------------------------------------------------------

/// Words joined with single spaces.
pub open spec fn join_spaced(ws: Seq<Seq<char>>) -> Seq<char>
    decreases ws.len(),
{
    if ws.len() == 0 {
        Seq::empty()
    } else if ws.len() == 1 {
        ws[0]
    } else {
        join_spaced(ws.drop_last()) + seq![' '] + ws.last()
    }
}

/// The networks of `address PREFIX` statements whose prefix parses, in order.
pub open spec fn address_networks(found: Seq<StmtModel>) -> Seq<Ipv4Network>
    decreases found.len(),
{
    if found.len() == 0 {
        Seq::empty()
    } else {
        let prev = address_networks(found.drop_last());
        let s = found.last();
        if s.args.len() > 0 && spec_parse_network(s.args[0]) is Ok {
            prev.push(spec_parse_network(s.args[0])->Ok_0)
        } else {
            prev
        }
    }
}

/// The statements holding the addresses of a `family` statement:
/// `family inet { .. }` holds them directly, `family { inet { .. } }` in its
/// `inet` block.
pub open spec fn family_addresses_block(f: StmtModel) -> Seq<StmtModel> {
    let fc = child_stmts_spec(Some(f));
    if f.args.contains("inet"@) {
        fc
    } else {
        child_stmts_spec(find_one_spec(fc, "inet"@))
    }
}

/// The unit declared by `unit ID { family .. }`; a unit without an id, a
/// block or a `family` statement is skipped.
pub open spec fn unit_spec(u: StmtModel) -> Option<InterfaceUnitModel> {
    if u.args.len() > 0 && u.children is Some {
        match find_one_spec(u.children->0, "family"@) {
            Some(f) => Some(
                InterfaceUnitModel {
                    unit_id: u.args[0],
                    ipv4_addresses: address_networks(find_spec(family_addresses_block(f), "address"@)),
                },
            ),
            None => None,
        }
    } else {
        None
    }
}

/// `im` with the units of `found` added in order.
pub open spec fn units_fold(im: InterfaceModel, found: Seq<StmtModel>) -> InterfaceModel
    decreases found.len(),
{
    if found.len() == 0 {
        im
    } else {
        let prev = units_fold(im, found.drop_last());
        match unit_spec(found.last()) {
            Some(u) => prev.with_unit(u),
            None => prev,
        }
    }
}

/// The description of an interface: the arguments of its first `description`
/// statement joined with spaces, if it has any.
pub open spec fn description_spec(children: Seq<StmtModel>) -> Option<Seq<char>> {
    match find_one_spec(children, "description"@) {
        Some(d) => if d.args.len() > 0 {
            Some(join_spaced(d.args))
        } else {
            None
        },
        None => None,
    }
}

/// The interface declared by a block inside `interfaces`; leaves are skipped.
pub open spec fn interface_spec(s: StmtModel) -> Option<InterfaceModel> {
    match s.children {
        Some(c) => Some(
            units_fold(
                InterfaceModel {
                    name: s.keyword,
                    description: description_spec(c),
                    units: Seq::empty(),
                    unit_order: Seq::empty(),
                },
                find_spec(c, "unit"@),
            ),
        ),
        None => None,
    }
}

/// The interfaces declared by the statements `ms`, in order.
pub open spec fn interfaces_fold(ms: Seq<StmtModel>) -> Seq<InterfaceModel>
    decreases ms.len(),
{
    if ms.len() == 0 {
        Seq::empty()
    } else {
        let prev = interfaces_fold(ms.drop_last());
        match interface_spec(ms.last()) {
            Some(i) => prev.push(i),
            None => prev,
        }
    }
}

/// The interfaces of the first `interfaces` section.
pub open spec fn parse_interfaces_spec(stmts: Seq<StmtModel>) -> Seq<InterfaceModel> {
    interfaces_fold(child_stmts_spec(find_one_spec(stmts, "interfaces"@)))
}

fn join_words(ws: &Vec<String>) -> (r: String)
    ensures
        r@ == join_spaced(ws.deep_view()),
{
    let ghost wv = ws.deep_view();
    let mut r = String::new();
    let mut i: usize = 0;
    assert(r@ =~= join_spaced(wv.take(0)));
    while i < ws.len()
        invariant
            i <= ws@.len(),
            wv == ws.deep_view(),
            r@ == join_spaced(wv.take(i as int)),
        decreases ws@.len() - i,
    {
        proof {
            assert(wv.take(i + 1).drop_last() =~= wv.take(i as int));
        }
        if i > 0 {
            push_char(&mut r, ' ');
        }
        push_str(&mut r, ws[i].as_str());
        proof {
            if i == 0 {
                assert(r@ =~= wv.take(1)[0]);
            }
        }
        i = i + 1;
    }
    assert(wv.take(i as int) =~= wv);
    r
}

fn any_equals(ws: &Vec<String>, w: &str) -> (b: bool)
    ensures
        b == ws.deep_view().contains(w@),
{
    let mut i: usize = 0;
    while i < ws.len()
        invariant
            i <= ws@.len(),
            forall|k: int| 0 <= k < i ==> ws@[k]@ != w@,
        decreases ws@.len() - i,
    {
        if str_eq(ws[i].as_str(), w) {
            assert(ws.deep_view()[i as int] == w@);
            return true;
        }
        i = i + 1;
    }
    false
}

fn parse_unit(unit_stmt: &Statement) -> (r: Option<InterfaceUnit>)
    ensures
        match r {
            Some(u) => unit_spec(unit_stmt.model()) == Some(u@),
            None => unit_spec(unit_stmt.model()) is None,
        },
{
    let unit_children = match &unit_stmt.children {
        Some(children) => children,
        None => {
            return None;
        },
    };
    if unit_stmt.args.len() == 0 {
        return None;
    }
    let unit_id = unit_stmt.args[0].clone();
    let mut unit = InterfaceUnit { unit_id, ipv4_addresses: Vec::new() };
    let family_stmt = match find_one(unit_children.as_slice(), "family") {
        Some(s) => s,
        None => {
            return None;
        },
    };
    let family_children = child_stmts(Some(family_stmt));
    assert(family_stmt.args.deep_view() == family_stmt.model().args);
    // "family inet { ... }" -> 'inet' is an arg, addresses are direct children.
    // "family { inet { ... } }" -> 'inet' is a nested block.
    let addr_container: &[Statement] = if any_equals(&family_stmt.args, "inet") {
        family_children
    } else {
        child_stmts(find_one(family_children, "inet"))
    };
    let found = find(addr_container, "address");
    let ghost fm = refs_model(found@);
    let mut i: usize = 0;
    assert(unit.ipv4_addresses@ =~= address_networks(fm.take(0)));
    while i < found.len()
        invariant
            i <= found@.len(),
            fm == refs_model(found@),
            unit.ipv4_addresses@ == address_networks(fm.take(i as int)),
            unit_stmt.model().args.len() > 0,
            unit.unit_id@ == unit_stmt.model().args[0],
        decreases found@.len() - i,
    {
        proof {
            assert(fm.take(i + 1).drop_last() =~= fm.take(i as int));
            assert(fm.take(i + 1).last() == found@[i as int].model());
        }
        let addr_stmt = found[i];
        if addr_stmt.args.len() > 0 {
            match Ipv4Network::parse(addr_stmt.args[0].as_str()) {
                Ok(net) => {
                    unit.ipv4_addresses.push(net);
                },
                Err(_) => {},
            }
        }
        i = i + 1;
    }
    assert(fm.take(i as int) =~= fm);
    Some(unit)
}

fn parse_interface(iface_stmt: &Statement) -> (r: Option<Interface>)
    ensures
        match r {
            Some(i) => interface_spec(iface_stmt.model()) == Some(i@),
            None => interface_spec(iface_stmt.model()) is None,
        },
{
    let iface_children = match &iface_stmt.children {
        Some(c) => c,
        None => {
            return None;
        },
    };
    let mut iface = Interface::default();
    iface.name = iface_stmt.keyword.clone();
    if let Some(desc) = find_one(iface_children.as_slice(), "description") {
        assert(desc.args.deep_view() == desc.model().args);
        if desc.args.len() > 0 {
            iface.description = Some(join_words(&desc.args));
        }
    }
    let ghost im0 = iface@;
    assert(im0.units =~= Seq::empty());
    assert(im0.unit_order =~= Seq::empty());
    assert(im0 == InterfaceModel {
        name: iface_stmt.model().keyword,
        description: description_spec(stmts_model(iface_children@)),
        units: Seq::empty(),
        unit_order: Seq::empty(),
    });
    let units = find(iface_children.as_slice(), "unit");
    let ghost um = refs_model(units@);
    let mut i: usize = 0;
    assert(um.take(0) =~= Seq::<StmtModel>::empty());
    while i < units.len()
        invariant
            i <= units@.len(),
            um == refs_model(units@),
            iface@ == units_fold(im0, um.take(i as int)),
        decreases units@.len() - i,
    {
        proof {
            assert(um.take(i + 1).drop_last() =~= um.take(i as int));
            assert(um.take(i + 1).last() == units@[i as int].model());
        }
        match parse_unit(units[i]) {
            Some(unit) => {
                iface.insert_unit(unit);
            },
            None => {},
        }
        i = i + 1;
    }
    assert(um.take(i as int) =~= um);
    Some(iface)
}

/// The models of a list of interfaces.
pub open spec fn interfaces_view(v: Seq<Interface>) -> Seq<InterfaceModel> {
    v.map_values(|i: Interface| i@)
}

fn parse_interfaces(stmts: &[Statement]) -> (r: Vec<Interface>)
    ensures
        interfaces_view(r@) == parse_interfaces_spec(stmts_model(stmts@)),
{
    let mut interfaces: Vec<Interface> = Vec::new();
    let iface_block = find_one(stmts, "interfaces");
    let children = child_stmts(iface_block);
    let ghost ms = stmts_model(children@);
    proof {
        lemma_stmts_model(children@);
    }
    let mut i: usize = 0;
    assert(interfaces_view(interfaces@) =~= interfaces_fold(ms.take(0)));
    while i < children.len()
        invariant
            i <= children@.len(),
            ms == stmts_model(children@),
            ms.len() == children@.len(),
            forall|k: int| 0 <= k < children@.len() ==> #[trigger] ms[k] == children@[k].model(),
            interfaces_view(interfaces@) == interfaces_fold(ms.take(i as int)),
        decreases children@.len() - i,
    {
        proof {
            assert(ms.take(i + 1).drop_last() =~= ms.take(i as int));
            assert(ms.take(i + 1).last() == children@[i as int].model());
        }
        let ghost before = interfaces@;
        match parse_interface(&children[i]) {
            Some(iface) => {
                interfaces.push(iface);
                assert(interfaces_view(interfaces@) =~= interfaces_view(before).push(iface@));
            },
            None => {},
        }
        i = i + 1;
    }
    assert(ms.take(i as int) =~= ms);
    interfaces
}

// ---------------------------------------------------------------------------
// Security zones
// ---------------------------------------------------------------------------

/// The address book with no entries.
pub open spec fn empty_book() -> AddressBookModel {
    AddressBookModel { addresses: Seq::empty(), address_sets: Seq::empty() }
}

/// The keywords of a list of statements.
pub open spec fn keywords_of(ms: Seq<StmtModel>) -> Seq<Seq<char>> {
    ms.map_values(|m: StmtModel| m.keyword)
}

/// The zone declared by `security-zone NAME { .. }`: the interfaces listed
/// in its first `interfaces` block and its first `address-book`.
pub open spec fn zone_spec(z: StmtModel) -> Option<SecurityZoneModel> {
    if z.keyword != "security-zone"@ || z.args.len() == 0 || z.children is None {
        None
    } else {
        let zc = z.children->0;
        Some(
            SecurityZoneModel {
                name: z.args[0],
                interfaces: keywords_of(child_stmts_spec(find_one_spec(zc, "interfaces"@))),
                address_book: match find_one_spec(zc, "address-book"@) {
                    Some(b) => address_book_spec(child_stmts_spec(Some(b))),
                    None => empty_book(),
                },
            },
        )
    }
}

/// The zones declared by the statements `ms`, in order.
pub open spec fn zones_fold(ms: Seq<StmtModel>) -> Seq<SecurityZoneModel>
    decreases ms.len(),
{
    if ms.len() == 0 {
        Seq::empty()
    } else {
        let prev = zones_fold(ms.drop_last());
        match zone_spec(ms.last()) {
            Some(z) => prev.push(z),
            None => prev,
        }
    }
}

/// The zones of the first `zones` block of a `security` section.
pub open spec fn parse_security_zones_spec(sec: Seq<StmtModel>) -> Seq<SecurityZoneModel> {
    zones_fold(child_stmts_spec(find_one_spec(sec, "zones"@)))
}

/// The models of a list of zones.
pub open spec fn zones_view(v: Seq<SecurityZone>) -> Seq<SecurityZoneModel> {
    v.map_values(|z: SecurityZone| z@)
}

fn keywords(stmts: &[Statement]) -> (r: Vec<String>)
    ensures
        r.deep_view() == keywords_of(stmts_model(stmts@)),
{
    proof {
        lemma_stmts_model(stmts@);
    }
    let mut r: Vec<String> = Vec::new();
    let mut i: usize = 0;
    while i < stmts.len()
        invariant
            i <= stmts@.len(),
            stmts_model(stmts@).len() == stmts@.len(),
            forall|k: int| 0 <= k < stmts@.len() ==> #[trigger] stmts_model(stmts@)[k] == stmts@[k].model(),
            r.deep_view() == keywords_of(stmts_model(stmts@)).take(i as int),
        decreases stmts@.len() - i,
    {
        let ghost before = r.deep_view();
        r.push(stmts[i].keyword.clone());
        assert(r.deep_view() =~= before.push(stmts@[i as int].keyword@));
        assert(keywords_of(stmts_model(stmts@))[i as int] == stmts@[i as int].model().keyword);
        assert(r.deep_view() =~= keywords_of(stmts_model(stmts@)).take(i + 1));
        i = i + 1;
    }
    assert(keywords_of(stmts_model(stmts@)).take(i as int) =~= keywords_of(stmts_model(stmts@)));
    r
}

fn parse_security_zone(zone_stmt: &Statement) -> (r: Option<SecurityZone>)
    ensures
        match r {
            Some(z) => zone_spec(zone_stmt.model()) == Some(z@),
            None => zone_spec(zone_stmt.model()) is None,
        },
{
    if !keyword_is(zone_stmt, "security-zone") || zone_stmt.args.len() == 0 {
        return None;
    }
    let zone_children = match &zone_stmt.children {
        Some(c) => c,
        None => {
            return None;
        },
    };
    let zone_name = zone_stmt.args[0].clone();
    let ifaces_stmt = find_one(zone_children.as_slice(), "interfaces");
    // Interfaces inside a zone are listed as bare statements: ge-0/0/0.0;
    let interfaces = keywords(child_stmts(ifaces_stmt));
    let address_book = match find_one(zone_children.as_slice(), "address-book") {
        Some(book_stmt) => parse_address_book(child_stmts(Some(book_stmt))),
        None => {
            let b = AddressBook::default();
            assert(b@.addresses =~= Seq::empty());
            assert(b@.address_sets =~= Seq::empty());
            b
        },
    };
    Some(SecurityZone { name: zone_name, interfaces, address_book })
}

fn parse_security_zones(security_children: &[Statement]) -> (r: Vec<SecurityZone>)
    ensures
        zones_view(r@) == parse_security_zones_spec(stmts_model(security_children@)),
{
    let mut zones: Vec<SecurityZone> = Vec::new();
    let zones_stmt = find_one(security_children, "zones");
    let children = child_stmts(zones_stmt);
    let ghost ms = stmts_model(children@);
    proof {
        lemma_stmts_model(children@);
    }
    let mut i: usize = 0;
    assert(zones_view(zones@) =~= zones_fold(ms.take(0)));
    while i < children.len()
        invariant
            i <= children@.len(),
            ms == stmts_model(children@),
            ms.len() == children@.len(),
            forall|k: int| 0 <= k < children@.len() ==> #[trigger] ms[k] == children@[k].model(),
            zones_view(zones@) == zones_fold(ms.take(i as int)),
        decreases children@.len() - i,
    {
        proof {
            assert(ms.take(i + 1).drop_last() =~= ms.take(i as int));
            assert(ms.take(i + 1).last() == children@[i as int].model());
        }
        let ghost before = zones@;
        match parse_security_zone(&children[i]) {
            Some(zone) => {
                zones.push(zone);
                assert(zones_view(zones@) =~= zones_view(before).push(zone@));
            },
            None => {},
        }
        i = i + 1;
    }
    assert(ms.take(i as int) =~= ms);
    zones
}

// ---------------------------------------------------------------------------
// Security policies
// ---------------------------------------------------------------------------

/// Whether a keyword names a policy action.
pub open spec fn is_action(k: Seq<char>) -> bool {
    k == "permit"@ || k == "deny"@ || k == "reject"@
}

/// The keyword of the first statement of `ms` that is an action.
pub open spec fn then_action(ms: Seq<StmtModel>) -> Option<Seq<char>>
    decreases ms.len(),
{
    if ms.len() == 0 {
        None
    } else if is_action(ms[0].keyword) {
        Some(ms[0].keyword)
    } else {
        then_action(ms.drop_first())
    }
}

/// The match criteria with nothing listed.
pub open spec fn empty_match() -> PolicyMatchModel {
    PolicyMatchModel {
        source_addresses: Seq::empty(),
        destination_addresses: Seq::empty(),
        applications: Seq::empty(),
    }
}

/// The rule declared by `policy NAME { match { .. } then { .. } }`: its
/// criteria come from its first `match` block and its action is the first
/// `permit`, `deny` or `reject` of its first `then` block, `deny` when there
/// is none.
pub open spec fn rule_spec(r: StmtModel) -> Option<PolicyRuleModel> {
    if r.keyword != "policy"@ || r.args.len() == 0 || r.children is None {
        None
    } else {
        let rc = r.children->0;
        Some(
            PolicyRuleModel {
                name: r.args[0],
                rule_match: match find_one_spec(rc, "match"@) {
                    Some(m) => policy_match_spec(child_stmts_spec(Some(m))),
                    None => empty_match(),
                },
                action: match find_one_spec(rc, "then"@) {
                    Some(t) => match then_action(child_stmts_spec(Some(t))) {
                        Some(a) => a,
                        None => "deny"@,
                    },
                    None => "deny"@,
                },
            },
        )
    }
}

/// The rules declared by the statements `ms`, in order.
pub open spec fn rules_fold(ms: Seq<StmtModel>) -> Seq<PolicyRuleModel>
    decreases ms.len(),
{
    if ms.len() == 0 {
        Seq::empty()
    } else {
        let prev = rules_fold(ms.drop_last());
        match rule_spec(ms.last()) {
            Some(r) => prev.push(r),
            None => prev,
        }
    }
}

/// The policy declared by `from-zone A to-zone B { .. }`: its zones are the
/// first and third arguments (empty when missing).
pub open spec fn policy_spec(d: StmtModel) -> Option<SecurityPolicyModel> {
    if d.keyword != "from-zone"@ || d.children is None {
        None
    } else {
        Some(
            SecurityPolicyModel {
                from_zone: if d.args.len() > 0 {
                    d.args[0]
                } else {
                    Seq::empty()
                },
                to_zone: if d.args.len() > 2 {
                    d.args[2]
                } else {
                    Seq::empty()
                },
                rules: rules_fold(d.children->0),
            },
        )
    }
}

/// The policies declared by the statements `ms`, in order.
pub open spec fn policies_fold(ms: Seq<StmtModel>) -> Seq<SecurityPolicyModel>
    decreases ms.len(),
{
    if ms.len() == 0 {
        Seq::empty()
    } else {
        let prev = policies_fold(ms.drop_last());
        match policy_spec(ms.last()) {
            Some(p) => prev.push(p),
            None => prev,
        }
    }
}

/// The policies of the first `policies` block of a `security` section.
pub open spec fn parse_security_policies_spec(sec: Seq<StmtModel>) -> Seq<SecurityPolicyModel> {
    policies_fold(child_stmts_spec(find_one_spec(sec, "policies"@)))
}

/// The models of a list of policies.
pub open spec fn policies_view(v: Seq<SecurityPolicy>) -> Seq<SecurityPolicyModel> {
    v.map_values(|p: SecurityPolicy| p@)
}

/// The models of a list of rules.
pub open spec fn rules_view(v: Seq<PolicyRule>) -> Seq<PolicyRuleModel> {
    v.map_values(|r: PolicyRule| r@)
}

fn find_action(stmts: &[Statement]) -> (r: Option<&String>)
    ensures
        match r {
            Some(a) => then_action(stmts_model(stmts@)) == Some(a@),
            None => then_action(stmts_model(stmts@)) is None,
        },
{
    let ghost ms = stmts_model(stmts@);
    proof {
        lemma_stmts_model(stmts@);
    }
    let mut i: usize = 0;
    assert(ms.skip(0) =~= ms);
    while i < stmts.len()
        invariant
            i <= stmts@.len(),
            ms == stmts_model(stmts@),
            ms.len() == stmts@.len(),
            forall|k: int| 0 <= k < stmts@.len() ==> #[trigger] ms[k] == stmts@[k].model(),
            then_action(ms) == then_action(ms.skip(i as int)),
        decreases stmts@.len() - i,
    {
        proof {
            assert(ms.skip(i as int)[0] == ms[i as int]);
            assert(ms.skip(i as int).drop_first() =~= ms.skip(i + 1));
        }
        let a = &stmts[i];
        if keyword_is(a, "permit") || keyword_is(a, "deny") || keyword_is(a, "reject") {
            return Some(&a.keyword);
        }
        i = i + 1;
    }
    assert(ms.skip(i as int) =~= Seq::<StmtModel>::empty());
    None
}

fn parse_rule(rule_stmt: &Statement) -> (r: Option<PolicyRule>)
    ensures
        match r {
            Some(rule) => rule_spec(rule_stmt.model()) == Some(rule@),
            None => rule_spec(rule_stmt.model()) is None,
        },
{
    if !keyword_is(rule_stmt, "policy") || rule_stmt.args.len() == 0 {
        return None;
    }
    let rule_children = match &rule_stmt.children {
        Some(c) => c,
        None => {
            return None;
        },
    };
    let mut rule = PolicyRule::default();
    rule.name = rule_stmt.args[0].clone();
    if let Some(match_stmt) = find_one(rule_children.as_slice(), "match") {
        rule.rule_match = parse_policy_match(child_stmts(Some(match_stmt)));
    } else {
        assert(rule@.rule_match.source_addresses =~= Seq::empty());
        assert(rule@.rule_match.destination_addresses =~= Seq::empty());
        assert(rule@.rule_match.applications =~= Seq::empty());
    }
    if let Some(then_stmt) = find_one(rule_children.as_slice(), "then") {
        match find_action(child_stmts(Some(then_stmt))) {
            Some(action) => {
                rule.action = action.clone();
            },
            None => {},
        }
    }
    Some(rule)
}

fn parse_policy(dir_stmt: &Statement) -> (r: Option<SecurityPolicy>)
    ensures
        match r {
            Some(p) => policy_spec(dir_stmt.model()) == Some(p@),
            None => policy_spec(dir_stmt.model()) is None,
        },
{
    if !keyword_is(dir_stmt, "from-zone") {
        return None;
    }
    let dir_children = match &dir_stmt.children {
        Some(c) => c,
        None => {
            return None;
        },
    };
    // direction args: ['trust', 'to-zone', 'untrust']
    let from_zone = if dir_stmt.args.len() > 0 {
        dir_stmt.args[0].clone()
    } else {
        String::new()
    };
    let to_zone = if dir_stmt.args.len() > 2 {
        dir_stmt.args[2].clone()
    } else {
        String::new()
    };
    let ghost ms = stmts_model(dir_children@);
    proof {
        lemma_stmts_model(dir_children@);
    }
    let mut rules: Vec<PolicyRule> = Vec::new();
    let mut i: usize = 0;
    assert(rules_view(rules@) =~= rules_fold(ms.take(0)));
    while i < dir_children.len()
        invariant
            i <= dir_children@.len(),
            ms == stmts_model(dir_children@),
            ms.len() == dir_children@.len(),
            forall|k: int| 0 <= k < dir_children@.len() ==> #[trigger] ms[k] == dir_children@[k].model(),
            rules_view(rules@) == rules_fold(ms.take(i as int)),
        decreases dir_children@.len() - i,
    {
        proof {
            assert(ms.take(i + 1).drop_last() =~= ms.take(i as int));
            assert(ms.take(i + 1).last() == dir_children@[i as int].model());
        }
        let ghost before = rules@;
        match parse_rule(&dir_children[i]) {
            Some(rule) => {
                rules.push(rule);
                assert(rules_view(rules@) =~= rules_view(before).push(rule@));
            },
            None => {},
        }
        i = i + 1;
    }
    assert(ms.take(i as int) =~= ms);
    let sp = SecurityPolicy { from_zone, to_zone, rules };
    assert(sp@.rules == rules_view(sp.rules@));
    Some(sp)
}

fn parse_security_policies(security_children: &[Statement]) -> (r: Vec<SecurityPolicy>)
    ensures
        policies_view(r@) == parse_security_policies_spec(stmts_model(security_children@)),
{
    let mut policies: Vec<SecurityPolicy> = Vec::new();
    let policies_stmt = find_one(security_children, "policies");
    let children = child_stmts(policies_stmt);
    let ghost ms = stmts_model(children@);
    proof {
        lemma_stmts_model(children@);
    }
    let mut i: usize = 0;
    assert(policies_view(policies@) =~= policies_fold(ms.take(0)));
    while i < children.len()
        invariant
            i <= children@.len(),
            ms == stmts_model(children@),
            ms.len() == children@.len(),
            forall|k: int| 0 <= k < children@.len() ==> #[trigger] ms[k] == children@[k].model(),
            policies_view(policies@) == policies_fold(ms.take(i as int)),
        decreases children@.len() - i,
    {
        proof {
            assert(ms.take(i + 1).drop_last() =~= ms.take(i as int));
            assert(ms.take(i + 1).last() == children@[i as int].model());
        }
        let ghost before = policies@;
        match parse_policy(&children[i]) {
            Some(sp) => {
                policies.push(sp);
                assert(policies_view(policies@) =~= policies_view(before).push(sp@));
            },
            None => {},
        }
        i = i + 1;
    }
    assert(ms.take(i as int) =~= ms);
    policies
}

// ---------------------------------------------------------------------------
// Applications
// ---------------------------------------------------------------------------

/// The application declared by `application NAME { protocol P;
/// destination-port D; }`.
pub open spec fn app_spec(s: StmtModel) -> Option<ApplicationModel> {
    if s.children is Some && s.keyword == "application"@ && s.args.len() > 0 {
        let c = s.children->0;
        Some(
            ApplicationModel {
                name: s.args[0],
                protocol: leaf_value_spec(c, "protocol"@),
                dst_port: leaf_value_spec(c, "destination-port"@),
            },
        )
    } else {
        None
    }
}

/// The application-set declared by `application-set NAME { application A; .. }`.
pub open spec fn app_set_spec(s: StmtModel) -> Option<ApplicationSetModel> {
    if s.children is Some && s.keyword == "application-set"@ && s.args.len() > 0 {
        Some(
            ApplicationSetModel {
                name: s.args[0],
                members: members_named(s.children->0, "application"@),
            },
        )
    } else {
        None
    }
}

/// The applications declared by the statements `ms`, in order.
pub open spec fn apps_fold(ms: Seq<StmtModel>) -> Seq<ApplicationModel>
    decreases ms.len(),
{
    if ms.len() == 0 {
        Seq::empty()
    } else {
        let prev = apps_fold(ms.drop_last());
        match app_spec(ms.last()) {
            Some(a) => prev.push(a),
            None => prev,
        }
    }
}

/// The application-sets declared by the statements `ms`, in order.
pub open spec fn app_sets_fold(ms: Seq<StmtModel>) -> Seq<ApplicationSetModel>
    decreases ms.len(),
{
    if ms.len() == 0 {
        Seq::empty()
    } else {
        let prev = app_sets_fold(ms.drop_last());
        if app_spec(ms.last()) is None && app_set_spec(ms.last()) is Some {
            prev.push(app_set_spec(ms.last())->0)
        } else {
            prev
        }
    }
}

/// The applications and application-sets of the first `applications` section.
pub open spec fn parse_applications_spec(stmts: Seq<StmtModel>) -> (Seq<ApplicationModel>, Seq<ApplicationSetModel>) {
    let body = child_stmts_spec(find_one_spec(stmts, "applications"@));
    (apps_fold(body), app_sets_fold(body))
}

fn opt_owned(s: Option<&str>) -> (r: Option<String>)
    ensures
        r.deep_view() == match s {
            Some(t) => Some(t@),
            None => None::<Seq<char>>,
        },
{
    match s {
        Some(t) => Some(t.to_owned()),
        None => None,
    }
}

fn parse_applications(app_stmts: &[Statement]) -> (r: (Vec<Application>, Vec<ApplicationSet>))
    ensures
        r.0@.map_values(|a: Application| a@) == parse_applications_spec(stmts_model(app_stmts@)).0,
        r.1@.map_values(|a: ApplicationSet| a@) == parse_applications_spec(stmts_model(app_stmts@)).1,
{
    let mut applications: Vec<Application> = Vec::new();
    let mut application_sets: Vec<ApplicationSet> = Vec::new();
    let apps_block = find_one(app_stmts, "applications");
    let body = child_stmts(apps_block);
    let ghost ms = stmts_model(body@);
    proof {
        lemma_stmts_model(body@);
    }
    let mut i: usize = 0;
    assert(applications@.map_values(|a: Application| a@) =~= apps_fold(ms.take(0)));
    assert(application_sets@.map_values(|a: ApplicationSet| a@) =~= app_sets_fold(ms.take(0)));
    while i < body.len()
        invariant
            i <= body@.len(),
            ms == stmts_model(body@),
            ms.len() == body@.len(),
            forall|k: int| 0 <= k < body@.len() ==> #[trigger] ms[k] == body@[k].model(),
            applications@.map_values(|a: Application| a@) == apps_fold(ms.take(i as int)),
            application_sets@.map_values(|a: ApplicationSet| a@) == app_sets_fold(ms.take(i as int)),
        decreases body@.len() - i,
    {
        proof {
            assert(ms.take(i + 1).drop_last() =~= ms.take(i as int));
            assert(ms.take(i + 1).last() == body@[i as int].model());
        }
        let stmt = &body[i];
        let ghost apps_before = applications@;
        let ghost sets_before = application_sets@;
        match &stmt.children {
            Some(children) => {
                if keyword_is(stmt, "application") && stmt.args.len() > 0 {
                    let name = stmt.args[0].clone();
                    let app = Application {
                        name,
                        protocol: opt_owned(leaf_value(children.as_slice(), "protocol")),
                        dst_port: opt_owned(leaf_value(children.as_slice(), "destination-port")),
                    };
                    applications.push(app);
                    assert(applications@.map_values(|a: Application| a@) =~= apps_before.map_values(
                        |a: Application| a@,
                    ).push(app@));
                } else if keyword_is(stmt, "application-set") && stmt.args.len() > 0 {
                    let name = stmt.args[0].clone();
                    let members = collect_members(children.as_slice(), "application");
                    let set = ApplicationSet { name, members };
                    application_sets.push(set);
                    assert(application_sets@.map_values(|a: ApplicationSet| a@) =~= sets_before.map_values(
                        |a: ApplicationSet| a@,
                    ).push(set@));
                }
            },
            None => {},
        }
        i = i + 1;
    }
    assert(ms.take(i as int) =~= ms);
    (applications, application_sets)
}

// ---------------------------------------------------------------------------
// Public entry point
// ---------------------------------------------------------------------------

/// `m` with each of `items` stored under its name, in order.
pub open spec fn insert_all<T>(m: Seq<(Seq<char>, T)>, items: Seq<T>, name: spec_fn(T) -> Seq<char>) -> Seq<(Seq<char>, T)>
    decreases items.len(),
{
    if items.len() == 0 {
        m
    } else {
        map_insert(insert_all(m, items.drop_last(), name), name(items.last()), items.last())
    }
}

/// `nc` with each of `is` added in order.
pub open spec fn with_interfaces(nc: NetworkConfigModel, is: Seq<InterfaceModel>) -> NetworkConfigModel
    decreases is.len(),
{
    if is.len() == 0 {
        nc
    } else {
        with_interfaces(nc, is.drop_last()).with_interface(is.last())
    }
}

/// Adding interfaces leaves everything else unchanged.
pub proof fn lemma_with_interfaces_frame(nc: NetworkConfigModel, is: Seq<InterfaceModel>)
    ensures
        with_interfaces(nc, is) == (NetworkConfigModel {
            interfaces: with_interfaces(nc, is).interfaces,
            interface_order: with_interfaces(nc, is).interface_order,
            ..nc
        }),
    decreases is.len(),
{
    if is.len() > 0 {
        lemma_with_interfaces_frame(nc, is.drop_last());
    }
}

/// The configuration with nothing configured.
pub open spec fn empty_config() -> NetworkConfigModel {
    NetworkConfigModel {
        interfaces: Seq::empty(),
        interface_order: Seq::empty(),
        security_zones: Seq::empty(),
        security_policies: Seq::empty(),
        applications: Seq::empty(),
        application_sets: Seq::empty(),
        global_address_book: empty_book(),
    }
}

/// The global address book of a `security` section: its first `address-book`
/// block, or the `global` block inside it when there is one.
pub open spec fn global_book_spec(sec: Seq<StmtModel>) -> AddressBookModel {
    match find_one_spec(sec, "address-book"@) {
        Some(g) => {
            let gc = child_stmts_spec(Some(g));
            match find_one_spec(gc, "global"@) {
                Some(gb) => address_book_spec(child_stmts_spec(Some(gb))),
                None => address_book_spec(gc),
            }
        },
        None => empty_book(),
    }
}

/// The configuration described by a statement list: its interfaces; the zones,
/// policies and global address book of its first `security` section; and its
/// applications and application-sets. Later declarations of a name replace
/// earlier ones.
pub open spec fn build_spec(stmts: Seq<StmtModel>) -> NetworkConfigModel {
    let nc1 = with_interfaces(empty_config(), parse_interfaces_spec(stmts));
    let nc2 = match find_one_spec(stmts, "security"@) {
        Some(security) => {
            let sec = child_stmts_spec(Some(security));
            NetworkConfigModel {
                security_zones: insert_all(
                    Seq::empty(),
                    parse_security_zones_spec(sec),
                    |z: SecurityZoneModel| z.name,
                ),
                security_policies: parse_security_policies_spec(sec),
                global_address_book: global_book_spec(sec),
                ..nc1
            }
        },
        None => nc1,
    };
    let (apps, sets) = parse_applications_spec(stmts);
    NetworkConfigModel {
        applications: insert_all(Seq::empty(), apps, |a: ApplicationModel| a.name),
        application_sets: insert_all(Seq::empty(), sets, |s: ApplicationSetModel| s.name),
        ..nc2
    }
}

/// Parse JunOS config text and return a fully populated [`NetworkConfig`].
pub fn build_network_config(text: &str) -> (nc: NetworkConfig)
    ensures
        nc@ == build_spec(spec_parse_config(text@)),
        nc@.well_formed(),
{
    let stmts = parse_config(text);
    let ghost sm = stmts_model(stmts@);
    let mut nc = NetworkConfig::default();
    proof {
        assert(nc@.interfaces =~= Seq::empty());
        assert(nc@.interface_order =~= Seq::empty());
        assert(nc@.security_zones =~= Seq::empty());
        assert(nc@.security_policies =~= Seq::empty());
        assert(nc@.applications =~= Seq::empty());
        assert(nc@.application_sets =~= Seq::empty());
        assert(nc@.global_address_book.addresses =~= Seq::empty());
        assert(nc@.global_address_book.address_sets =~= Seq::empty());
    }
    let mut ifaces = parse_interfaces(stmts.as_slice());
    let ghost ivs = interfaces_view(ifaces@);
    let ghost nc0 = nc@;
    let mut k: usize = 0;
    let n_ifaces = ifaces.len();
    let ghost total = n_ifaces as nat;
    while ifaces.len() > 0
        invariant
            k + ifaces@.len() == total,
            total <= usize::MAX,
            ivs.len() == total,
            interfaces_view(ifaces@) == ivs.skip(k as int),
            nc@ == with_interfaces(nc0, ivs.take(k as int)),
        decreases ifaces@.len(),
    {
        let ghost before = ifaces@;
        let iface = ifaces.remove(0);
        proof {
            assert(interfaces_view(before)[0] == before[0]@);
            assert(interfaces_view(ifaces@) =~= interfaces_view(before).drop_first());
            assert(iface@ == ivs[k as int]);
            assert(ivs.take(k + 1).drop_last() =~= ivs.take(k as int));
            assert(interfaces_view(ifaces@) =~= ivs.skip(k + 1));
        }
        nc.insert_interface(iface);
        k = k + 1;
    }
    assert(ivs.take(k as int) =~= ivs);
    let ghost nc1 = nc@;
    proof {
        lemma_with_interfaces_frame(nc0, ivs);
    }
    match find_one(stmts.as_slice(), "security") {
        Some(security_stmt) => {
            let sec = child_stmts(Some(security_stmt));
            let mut zones = parse_security_zones(sec);
            let ghost zvs = zones_view(zones@);
            let n_zones = zones.len();
            let ghost total = n_zones as nat;
            let mut k: usize = 0;
            assert(nc.security_zones@ =~= insert_all(Seq::empty(), zvs.take(0), |z: SecurityZoneModel| z.name));
            while zones.len() > 0
                invariant
                    k + zones@.len() == total,
                    total <= usize::MAX,
                    zvs.len() == total,
                    zones_view(zones@) == zvs.skip(k as int),
                    nc@ == (NetworkConfigModel { security_zones: nc@.security_zones, ..nc1 }),
                    nc@.security_zones == insert_all(Seq::empty(), zvs.take(k as int), |z: SecurityZoneModel| z.name),
                decreases zones@.len(),
            {
                let ghost before = zones@;
                let zone = zones.remove(0);
                proof {
                    assert(zones_view(before)[0] == before[0]@);
                    assert(zones_view(zones@) =~= zones_view(before).drop_first());
                    assert(zone@ == zvs[k as int]);
                    assert(zvs.take(k + 1).drop_last() =~= zvs.take(k as int));
                    assert(zones_view(zones@) =~= zvs.skip(k + 1));
                }
                let name = zone.name.clone();
                nc.security_zones.insert(name, zone);
                k = k + 1;
            }
            assert(zvs.take(k as int) =~= zvs);
            nc.security_policies = parse_security_policies(sec);
            // Global address book: security { address-book { global { ... } } }
            match find_one(sec, "address-book") {
                Some(global_ab_stmt) => {
                    let global_children = child_stmts(Some(global_ab_stmt));
                    nc.global_address_book = match find_one(global_children, "global") {
                        Some(global_block) => parse_address_book(child_stmts(Some(global_block))),
                        None => parse_address_book(global_children),
                    };
                },
                None => {},
            }
        },
        None => {},
    }
    let ghost nc2 = nc@;
    let (mut applications, mut application_sets) = parse_applications(stmts.as_slice());
    let ghost avs = applications@.map_values(|a: Application| a@);
    let n_apps = applications.len();
    let ghost total = n_apps as nat;
    let mut k: usize = 0;
    assert(nc@.applications =~= insert_all(Seq::empty(), avs.take(0), |a: ApplicationModel| a.name));
    while applications.len() > 0
        invariant
            k + applications@.len() == total,
            total <= usize::MAX,
            avs.len() == total,
            applications@.map_values(|a: Application| a@) == avs.skip(k as int),
            nc@ == (NetworkConfigModel { applications: nc@.applications, ..nc2 }),
            nc@.applications == insert_all(Seq::empty(), avs.take(k as int), |a: ApplicationModel| a.name),
        decreases applications@.len(),
    {
        let ghost before = applications@;
        let app = applications.remove(0);
        proof {
            assert(before.map_values(|a: Application| a@)[0] == before[0]@);
            assert(applications@.map_values(|a: Application| a@) =~= before.map_values(|a: Application| a@).drop_first());
            assert(app@ == avs[k as int]);
            assert(avs.take(k + 1).drop_last() =~= avs.take(k as int));
            assert(applications@.map_values(|a: Application| a@) =~= avs.skip(k + 1));
        }
        let name = app.name.clone();
        nc.applications.insert(name, app);
        k = k + 1;
    }
    assert(avs.take(k as int) =~= avs);
    let ghost nc3 = nc@;
    let ghost svs = application_sets@.map_values(|a: ApplicationSet| a@);
    let n_sets = application_sets.len();
    let ghost total = n_sets as nat;
    let mut k: usize = 0;
    assert(nc@.application_sets =~= insert_all(Seq::empty(), svs.take(0), |s: ApplicationSetModel| s.name));
    while application_sets.len() > 0
        invariant
            k + application_sets@.len() == total,
            total <= usize::MAX,
            svs.len() == total,
            application_sets@.map_values(|a: ApplicationSet| a@) == svs.skip(k as int),
            nc@ == (NetworkConfigModel { application_sets: nc@.application_sets, ..nc3 }),
            nc@.application_sets == insert_all(Seq::empty(), svs.take(k as int), |s: ApplicationSetModel| s.name),
        decreases application_sets@.len(),
    {
        let ghost before = application_sets@;
        let set = application_sets.remove(0);
        proof {
            assert(before.map_values(|a: ApplicationSet| a@)[0] == before[0]@);
            assert(application_sets@.map_values(|a: ApplicationSet| a@) =~= before.map_values(|a: ApplicationSet| a@).drop_first());
            assert(set@ == svs[k as int]);
            assert(svs.take(k + 1).drop_last() =~= svs.take(k as int));
            assert(application_sets@.map_values(|a: ApplicationSet| a@) =~= svs.skip(k + 1));
        }
        let name = set.name.clone();
        nc.application_sets.insert(name, set);
        k = k + 1;
    }
    assert(svs.take(k as int) =~= svs);
    proof {
        lemma_built_config_well_formed(spec_parse_config(text@));
    }
    nc
}

// ---------------------------------------------------------------------------
// Every configuration built from text is well formed
// ---------------------------------------------------------------------------

/// Every value of `map_insert(m, k, v)` is a value of `m` or `v` itself.
pub proof fn lemma_map_insert_values<T>(m: Seq<(Seq<char>, T)>, k: Seq<char>, v: T, p: spec_fn(T) -> bool)
    requires
        forall|j: int| 0 <= j < m.len() ==> p(#[trigger] m[j].1),
        p(v),
    ensures
        forall|j: int| 0 <= j < map_insert(m, k, v).len() ==> p(#[trigger] map_insert(m, k, v)[j].1),
{
    let q = crate::name_map::lemma_key_pos(m, k);
    let r = map_insert(m, k, v);
    assert forall|j: int| 0 <= j < r.len() implies p(#[trigger] r[j].1) by {
        if j < m.len() && j != q {
            assert(r[j] == m[j]);
        }
    }
}

/// Whether every network of a list has a prefix length of at most 32.
pub open spec fn networks_valid(v: Seq<Ipv4Network>) -> bool {
    forall|k: int| 0 <= k < v.len() ==> (#[trigger] v[k]).prefix <= 32
}

/// Whether every unit address of an interface has a prefix length of at most 32.
pub open spec fn units_valid(im: InterfaceModel) -> bool {
    forall|j: int| 0 <= j < im.units.len() ==> networks_valid(#[trigger] im.units[j].1.ipv4_addresses)
}

/// Whether every named address of a book has a prefix length of at most 32.
pub open spec fn book_valid(b: AddressBookModel) -> bool {
    forall|i: int| 0 <= i < b.addresses.len() ==> (#[trigger] b.addresses[i]).1.prefix.prefix <= 32
}

proof fn lemma_address_networks_valid(found: Seq<StmtModel>)
    ensures
        networks_valid(address_networks(found)),
    decreases found.len(),
{
    if found.len() > 0 {
        lemma_address_networks_valid(found.drop_last());
        let s = found.last();
        if s.args.len() > 0 && spec_parse_network(s.args[0]) is Ok {
            lemma_parsed_network_is_canonical(s.args[0]);
            let prev = address_networks(found.drop_last());
            let all = address_networks(found);
            assert forall|k: int| 0 <= k < all.len() implies (#[trigger] all[k]).prefix <= 32 by {
                if k < prev.len() {
                    assert(all[k] == prev[k]);
                }
            }
        }
    }
}

proof fn lemma_units_fold_valid(im: InterfaceModel, found: Seq<StmtModel>)
    requires
        units_valid(im),
    ensures
        units_valid(units_fold(im, found)),
    decreases found.len(),
{
    if found.len() > 0 {
        lemma_units_fold_valid(im, found.drop_last());
        let prev = units_fold(im, found.drop_last());
        match unit_spec(found.last()) {
            Some(u) => {
                let f = found.last();
                let fam = find_one_spec(f.children->0, "family"@)->0;
                lemma_address_networks_valid(find_spec(family_addresses_block(fam), "address"@));
                let p = |x: InterfaceUnitModel| networks_valid(x.ipv4_addresses);
                assert forall|j: int| 0 <= j < prev.units.len() implies p(#[trigger] prev.units[j].1) by {
                    assert(networks_valid(prev.units[j].1.ipv4_addresses));
                }
                lemma_map_insert_values(prev.units, u.unit_id, u, p);
                let all = prev.with_unit(u);
                assert forall|j: int| 0 <= j < all.units.len() implies networks_valid(#[trigger] all.units[j].1.ipv4_addresses) by {
                    assert(p(all.units[j].1));
                }
            },
            None => {},
        }
    }
}

proof fn lemma_interfaces_fold_valid(ms: Seq<StmtModel>)
    ensures
        forall|i: int| 0 <= i < interfaces_fold(ms).len() ==> units_valid(#[trigger] interfaces_fold(ms)[i]),
    decreases ms.len(),
{
    if ms.len() > 0 {
        lemma_interfaces_fold_valid(ms.drop_last());
        let prev = interfaces_fold(ms.drop_last());
        let all = interfaces_fold(ms);
        match interface_spec(ms.last()) {
            Some(im) => {
                let s = ms.last();
                let c = s.children->0;
                let im0 = InterfaceModel {
                    name: s.keyword,
                    description: description_spec(c),
                    units: Seq::empty(),
                    unit_order: Seq::empty(),
                };
                lemma_units_fold_valid(im0, find_spec(c, "unit"@));
                assert forall|i: int| 0 <= i < all.len() implies units_valid(#[trigger] all[i]) by {
                    if i < prev.len() {
                        assert(all[i] == prev[i]);
                    }
                }
            },
            None => {},
        }
    }
}

proof fn lemma_with_interfaces_valid(nc: NetworkConfigModel, is: Seq<InterfaceModel>)
    requires
        forall|i: int| 0 <= i < nc.interfaces.len() ==> units_valid(#[trigger] nc.interfaces[i].1),
        forall|i: int| 0 <= i < is.len() ==> units_valid(#[trigger] is[i]),
    ensures
        forall|i: int| 0 <= i < with_interfaces(nc, is).interfaces.len() ==> units_valid(
            #[trigger] with_interfaces(nc, is).interfaces[i].1,
        ),
    decreases is.len(),
{
    if is.len() > 0 {
        assert forall|i: int| 0 <= i < is.drop_last().len() implies units_valid(#[trigger] is.drop_last()[i]) by {
            assert(is.drop_last()[i] == is[i]);
        }
        lemma_with_interfaces_valid(nc, is.drop_last());
        let prev = with_interfaces(nc, is.drop_last());
        assert(units_valid(is[is.len() - 1]));
        lemma_map_insert_values(prev.interfaces, is.last().name, is.last(), |x: InterfaceModel| units_valid(x));
    }
}

proof fn lemma_book_addresses_valid(found: Seq<StmtModel>)
    ensures
        forall|i: int| 0 <= i < book_addresses(found).len() ==> (#[trigger] book_addresses(found)[i]).1.prefix.prefix <= 32,
    decreases found.len(),
{
    if found.len() > 0 {
        lemma_book_addresses_valid(found.drop_last());
        let prev = book_addresses(found.drop_last());
        let s = found.last();
        if s.args.len() >= 2 && spec_parse_network(s.args[1]) is Ok {
            lemma_parsed_network_is_canonical(s.args[1]);
            let v = AddressModel { name: s.args[0], prefix: spec_parse_network(s.args[1])->Ok_0 };
            let p = |a: AddressModel| a.prefix.prefix <= 32;
            assert forall|j: int| 0 <= j < prev.len() implies p(#[trigger] prev[j].1) by {
                assert(prev[j].1.prefix.prefix <= 32);
            }
            lemma_map_insert_values(prev, s.args[0], v, p);
            let all = book_addresses(found);
            assert forall|i: int| 0 <= i < all.len() implies (#[trigger] all[i]).1.prefix.prefix <= 32 by {
                assert(p(all[i].1));
            }
        }
    }
}

proof fn lemma_address_book_valid(ms: Seq<StmtModel>)
    ensures
        book_valid(address_book_spec(ms)),
{
    lemma_book_addresses_valid(find_spec(ms, "address"@));
    let b = address_book_spec(ms);
    assert forall|i: int| 0 <= i < b.addresses.len() implies (#[trigger] b.addresses[i]).1.prefix.prefix <= 32 by {
        assert(b.addresses[i] == book_addresses(find_spec(ms, "address"@))[i]);
    }
}

proof fn lemma_zones_fold_valid(ms: Seq<StmtModel>)
    ensures
        forall|i: int| 0 <= i < zones_fold(ms).len() ==> book_valid(#[trigger] zones_fold(ms)[i].address_book),
    decreases ms.len(),
{
    if ms.len() > 0 {
        lemma_zones_fold_valid(ms.drop_last());
        let prev = zones_fold(ms.drop_last());
        let all = zones_fold(ms);
        match zone_spec(ms.last()) {
            Some(z) => {
                let zc = ms.last().children->0;
                match find_one_spec(zc, "address-book"@) {
                    Some(b) => lemma_address_book_valid(child_stmts_spec(Some(b))),
                    None => {},
                }
                assert forall|i: int| 0 <= i < all.len() implies book_valid(#[trigger] all[i].address_book) by {
                    if i < prev.len() {
                        assert(all[i] == prev[i]);
                    }
                }
            },
            None => {},
        }
    }
}

proof fn lemma_insert_all_values<T>(m: Seq<(Seq<char>, T)>, items: Seq<T>, name: spec_fn(T) -> Seq<char>, p: spec_fn(T) -> bool)
    requires
        forall|j: int| 0 <= j < m.len() ==> p(#[trigger] m[j].1),
        forall|j: int| 0 <= j < items.len() ==> p(#[trigger] items[j]),
    ensures
        forall|j: int| 0 <= j < insert_all(m, items, name).len() ==> p(#[trigger] insert_all(m, items, name)[j].1),
    decreases items.len(),
{
    if items.len() > 0 {
        assert forall|j: int| 0 <= j < items.drop_last().len() implies p(#[trigger] items.drop_last()[j]) by {
            assert(items.drop_last()[j] == items[j]);
        }
        lemma_insert_all_values(m, items.drop_last(), name, p);
        assert(p(items[items.len() - 1]));
        lemma_map_insert_values(insert_all(m, items.drop_last(), name), name(items.last()), items.last(), p);
    }
}

/// A configuration built from any text is well formed: every interface
/// address and every address-book entry has a prefix length of at most 32, so
/// the analysis queries accept it.
pub proof fn lemma_built_config_well_formed(stmts: Seq<StmtModel>)
    ensures
        build_spec(stmts).well_formed(),
{
    let is = parse_interfaces_spec(stmts);
    lemma_interfaces_fold_valid(child_stmts_spec(find_one_spec(stmts, "interfaces"@)));
    lemma_with_interfaces_valid(empty_config(), is);
    let nc = build_spec(stmts);
    let nc1 = with_interfaces(empty_config(), is);
    lemma_with_interfaces_frame(empty_config(), is);
    assert(nc.interfaces == nc1.interfaces);
    assert forall|i: int, j: int, k: int|
        0 <= i < nc.interfaces.len() && 0 <= j < nc.interfaces[i].1.units.len() && 0 <= k
            < nc.interfaces[i].1.units[j].1.ipv4_addresses.len()
        implies (#[trigger] nc.interfaces[i].1.units[j].1.ipv4_addresses[k]).prefix <= 32 by {
        assert(units_valid(nc1.interfaces[i].1));
        assert(networks_valid(nc.interfaces[i].1.units[j].1.ipv4_addresses));
    }
    match find_one_spec(stmts, "security"@) {
        Some(security) => {
            let sec = child_stmts_spec(Some(security));
            match find_one_spec(sec, "address-book"@) {
                Some(g) => {
                    let gc = child_stmts_spec(Some(g));
                    match find_one_spec(gc, "global"@) {
                        Some(gb) => lemma_address_book_valid(child_stmts_spec(Some(gb))),
                        None => lemma_address_book_valid(gc),
                    }
                },
                None => {},
            }
            let zs = parse_security_zones_spec(sec);
            lemma_zones_fold_valid(child_stmts_spec(find_one_spec(sec, "zones"@)));
            let p = |z: SecurityZoneModel| book_valid(z.address_book);
            assert forall|j: int| 0 <= j < zs.len() implies p(#[trigger] zs[j]) by {
                assert(book_valid(zs[j].address_book));
            }
            lemma_insert_all_values(Seq::empty(), zs, |z: SecurityZoneModel| z.name, p);
            assert forall|i: int| 0 <= i < nc.security_zones.len() implies crate::analysis::book_well_formed(
                #[trigger] nc.security_zones[i].1.address_book,
            ) by {
                assert(p(nc.security_zones[i].1));
            }
            assert(crate::analysis::book_well_formed(nc.global_address_book));
        },
        None => {},
    }
}

/// All the arguments of the statements of `ms` whose keyword is `kw`, one
/// statement after the other.
pub open spec fn args_of_keyword(ms: Seq<StmtModel>, kw: Seq<char>) -> Seq<Seq<char>>
    decreases ms.len(),
{
    if ms.len() == 0 {
        Seq::empty()
    } else {
        (if ms[0].keyword == kw {
            ms[0].args
        } else {
            Seq::empty()
        }) + args_of_keyword(ms.drop_first(), kw)
    }
}

proof fn lemma_args_of_keyword_last(ms: Seq<StmtModel>, kw: Seq<char>)
    requires
        ms.len() > 0,
    ensures
        args_of_keyword(ms, kw) == args_of_keyword(ms.drop_last(), kw) + (if ms.last().keyword == kw {
            ms.last().args
        } else {
            Seq::empty()
        }),
    decreases ms.len(),
{
    if ms.len() == 1 {
        assert(ms.drop_first() =~= Seq::<StmtModel>::empty());
        assert(ms.drop_last() =~= Seq::<StmtModel>::empty());
        assert(ms.last() == ms[0]);
        assert(args_of_keyword(Seq::<StmtModel>::empty(), kw) == Seq::<Seq<char>>::empty());
        let own = if ms[0].keyword == kw { ms[0].args } else { Seq::empty() };
        assert(own + Seq::<Seq<char>>::empty() =~= own);
        assert(Seq::<Seq<char>>::empty() + own =~= own);
    } else {
        lemma_args_of_keyword_last(ms.drop_first(), kw);
        assert(ms.drop_first().drop_last() =~= ms.drop_last().drop_first());
        assert(ms.drop_first().last() == ms.last());
        assert(ms.drop_last()[0] == ms[0]);
        let own = if ms[0].keyword == kw { ms[0].args } else { Seq::<Seq<char>>::empty() };
        let tail = if ms.last().keyword == kw { ms.last().args } else { Seq::<Seq<char>>::empty() };
        assert(own + (args_of_keyword(ms.drop_last().drop_first(), kw) + tail) =~= (own + args_of_keyword(
            ms.drop_last().drop_first(),
            kw,
        )) + tail);
    }
}

/// The criteria of a policy's `match` block: its source addresses are all the
/// arguments of its `source-address` statements, its destination addresses
/// all the arguments of its `destination-address` statements, and its
/// applications all the arguments of its `application` statements, each
/// concatenated in statement order (a bracketed list contributes every item).
pub proof fn lemma_policy_match_collects_all_arguments(ms: Seq<StmtModel>)
    ensures
        policy_match_spec(ms).source_addresses == args_of_keyword(ms, "source-address"@),
        policy_match_spec(ms).destination_addresses == args_of_keyword(ms, "destination-address"@),
        policy_match_spec(ms).applications == args_of_keyword(ms, "application"@),
    decreases ms.len(),
{
    reveal_strlit("source-address");
    reveal_strlit("destination-address");
    reveal_strlit("application");
    assert("source-address"@ != "destination-address"@) by {
        assert("source-address"@[0] != "destination-address"@[0]);
    }
    assert("source-address"@ != "application"@) by {
        assert("source-address"@[0] != "application"@[0]);
    }
    assert("destination-address"@ != "application"@) by {
        assert("destination-address"@[0] != "application"@[0]);
    }
    if ms.len() > 0 {
        lemma_policy_match_collects_all_arguments(ms.drop_last());
        lemma_args_of_keyword_last(ms, "source-address"@);
        lemma_args_of_keyword_last(ms, "destination-address"@);
        lemma_args_of_keyword_last(ms, "application"@);
        let prev = policy_match_spec(ms.drop_last());
        assert(prev.source_addresses + Seq::<Seq<char>>::empty() =~= prev.source_addresses);
        assert(prev.destination_addresses + Seq::<Seq<char>>::empty() =~= prev.destination_addresses);
        assert(prev.applications + Seq::<Seq<char>>::empty() =~= prev.applications);
    }
}

/// A rule's action is the keyword of the first statement of its `then` block
/// that is `permit`, `deny` or `reject`; when there is none, there is no
/// action there.
pub proof fn lemma_then_action_first(ms: Seq<StmtModel>)
    ensures
        then_action(ms) matches Some(k) ==> exists|i: int|
            0 <= i < ms.len() && (#[trigger] ms[i]).keyword == k && (k == "permit"@ || k == "deny"@ || k == "reject"@)
                && forall|j: int|
                0 <= j < i ==> !((#[trigger] ms[j]).keyword == "permit"@ || ms[j].keyword == "deny"@ || ms[j].keyword
                    == "reject"@),
        then_action(ms) is None ==> forall|j: int|
            0 <= j < ms.len() ==> !((#[trigger] ms[j]).keyword == "permit"@ || ms[j].keyword == "deny"@
                || ms[j].keyword == "reject"@),
    decreases ms.len(),
{
    if ms.len() > 0 && !is_action(ms[0].keyword) {
        let rest = ms.drop_first();
        lemma_then_action_first(rest);
        if then_action(rest) is Some {
            let k = then_action(rest)->0;
            let i = choose|i: int|
                0 <= i < rest.len() && (#[trigger] rest[i]).keyword == k && (k == "permit"@ || k == "deny"@ || k
                    == "reject"@) && forall|j: int|
                    0 <= j < i ==> !((#[trigger] rest[j]).keyword == "permit"@ || rest[j].keyword == "deny"@
                        || rest[j].keyword == "reject"@);
            assert(ms[i + 1] == rest[i]);
            assert forall|j: int| 0 <= j < i + 1 implies !((#[trigger] ms[j]).keyword == "permit"@ || ms[j].keyword
                == "deny"@ || ms[j].keyword == "reject"@) by {
                if j > 0 {
                    assert(ms[j] == rest[j - 1]);
                }
            }
        } else {
            assert forall|j: int| 0 <= j < ms.len() implies !((#[trigger] ms[j]).keyword == "permit"@ || ms[j].keyword
                == "deny"@ || ms[j].keyword == "reject"@) by {
                if j > 0 {
                    assert(ms[j] == rest[j - 1]);
                }
            }
        }
    } else if ms.len() > 0 {
        assert(ms[0].keyword == then_action(ms)->0);
    }
}

} // verus!
