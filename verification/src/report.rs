//! The text that the `netbat` commands print: one report per command, either
//! as plain lines or as a single line of JSON.

use vstd::prelude::*;

use crate::analysis::{ReachabilityModel, ReachabilityResult};
use crate::cli::{json_escaped, json_str};
use crate::ipv4::{addr_string, Ipv4Network};
use crate::models::{PolicyRule, SecurityPolicy};
use crate::parser::strings_view;
use crate::text::{dec_string, push_char, push_str};

verus! {

/// The JSON string literal holding `s`.
pub open spec fn json_quoted(s: Seq<char>) -> Seq<char> {
    seq!['"'] + json_escaped(s) + seq!['"']
}

/// The JSON string literal holding the text, or `null` when there is none.
pub open spec fn json_or_null(o: Option<Seq<char>>) -> Seq<char> {
    match o {
        Some(s) => json_quoted(s),
        None => "null"@,
    }
}

/// The pieces `items` with `sep` between each two of them.
pub open spec fn join(items: Seq<Seq<char>>, sep: Seq<char>) -> Seq<char>
    decreases items.len(),
{
    if items.len() == 0 {
        Seq::empty()
    } else if items.len() == 1 {
        items[0]
    } else {
        join(items.drop_last(), sep) + sep + items.last()
    }
}

/// What `str::to_uppercase` gives for `s`: its characters mapped to their
/// Unicode uppercase forms.
pub uninterp spec fn upper_case(s: Seq<char>) -> Seq<char>;

/// Calls `str::to_uppercase`, which maps each character of `s` to its Unicode
/// uppercase form (one character may become several). The contract names the
/// result; it says nothing more of it.
#[verifier::external_body]
fn to_upper(s: &str) -> (r: String)
    ensures
        r@ == upper_case(s@),
{
    s.to_uppercase()
}

fn json_text_or_null(o: &Option<String>) -> (r: String)
    ensures
        r@ == json_or_null(o.deep_view()),
{
    match o {
        Some(s) => json_str(s.as_str()),
        None => "null".to_owned(),
    }
}

/// Joins `items` with `sep` between each two of them.
pub fn join_with(items: &Vec<String>, sep: &str) -> (r: String)
    ensures
        r@ == join(strings_view(items@), sep@),
{
    let ghost v = strings_view(items@);
    let mut out = String::new();
    let mut i: usize = 0;
    assert(v.take(0) =~= Seq::<Seq<char>>::empty());
    while i < items.len()
        invariant
            i <= items@.len(),
            v == strings_view(items@),
            v.len() == items@.len(),
            out@ == join(v.take(i as int), sep@),
        decreases items@.len() - i,
    {
        proof {
            assert(v.take(i + 1).drop_last() =~= v.take(i as int));
            assert(v.take(i + 1).last() == items@[i as int]@);
        }
        if i > 0 {
            push_str(&mut out, sep);
        } else {
            assert(v.take(1) =~= seq![items@[0]@]);
            assert(out@ =~= Seq::<char>::empty());
        }
        push_str(&mut out, items[i].as_str());
        i = i + 1;
    }
    assert(v.take(i as int) =~= v);
    out
}

// ---------------------------------------------------------------------------
// reachability
// ---------------------------------------------------------------------------

/// The name of the matching rule, if any.
pub open spec fn rule_name(m: ReachabilityModel) -> Option<Seq<char>> {
    match m.matching_rule {
        Some(r) => Some(r.name),
        None => None,
    }
}

/// The one-line JSON form of a reachability result.
pub open spec fn reachability_json(m: ReachabilityModel) -> Seq<char> {
    "{\"action\": "@ + json_quoted(m.action) + ", \"from_zone\": "@ + json_or_null(m.from_zone)
        + ", \"to_zone\": "@ + json_or_null(m.to_zone) + ", \"matching_rule\": "@ + json_or_null(
        rule_name(m),
    ) + "}"@
}

/// The lines of a verdict in text: the action (as `upper` writes it), then
/// the zones and the rule that are known.
pub open spec fn reachability_lines(m: ReachabilityModel, upper: Seq<char>) -> Seq<Seq<char>> {
    seq!["Action:  "@ + upper] + (if let Some(z) = m.from_zone {
        seq!["From:    "@ + z]
    } else {
        Seq::empty()
    }) + (if let Some(z) = m.to_zone {
        seq!["To:      "@ + z]
    } else {
        Seq::empty()
    }) + (if let Some(n) = rule_name(m) {
        seq!["Rule:    "@ + n]
    } else {
        Seq::empty()
    })
}

/// The JSON object of a verdict.
pub fn reachability_json_text(result: &ReachabilityResult) -> (r: String)
    ensures
        r@ == reachability_json(result@),
{
    let mut out = "{\"action\": ".to_owned();
    let a = json_str(result.action.as_str());
    push_str(&mut out, a.as_str());
    push_str(&mut out, ", \"from_zone\": ");
    let f = json_text_or_null(&result.from_zone);
    push_str(&mut out, f.as_str());
    push_str(&mut out, ", \"to_zone\": ");
    let t = json_text_or_null(&result.to_zone);
    push_str(&mut out, t.as_str());
    push_str(&mut out, ", \"matching_rule\": ");
    let n = match &result.matching_rule {
        Some(rule) => json_str(rule.name.as_str()),
        None => "null".to_owned(),
    };
    push_str(&mut out, n.as_str());
    push_str(&mut out, "}");
    out
}

/// The text lines of a verdict, given the action as it is to be shown.
pub fn reachability_text(result: &ReachabilityResult, upper_action: &str) -> (r: String)
    ensures
        r@ == join(reachability_lines(result@, upper_action@), "\n"@),
{
    let mut lines: Vec<String> = Vec::new();
    let mut first = "Action:  ".to_owned();
    push_str(&mut first, upper_action);
    lines.push(first);
    if let Some(z) = &result.from_zone {
        let mut l = "From:    ".to_owned();
        push_str(&mut l, z.as_str());
        lines.push(l);
    }
    if let Some(z) = &result.to_zone {
        let mut l = "To:      ".to_owned();
        push_str(&mut l, z.as_str());
        lines.push(l);
    }
    if let Some(rule) = &result.matching_rule {
        let mut l = "Rule:    ".to_owned();
        push_str(&mut l, rule.name.as_str());
        lines.push(l);
    }
    assert(strings_view(lines@) =~= reachability_lines(result@, upper_action@));
    join_with(&lines, "\n")
}

/// The report of the `reachability` command: the JSON object, or the text
/// lines with the action in upper case.
pub fn reachability_report(result: &ReachabilityResult, json: bool) -> (r: String)
    ensures
        r@ == if json {
            reachability_json(result@)
        } else {
            join(reachability_lines(result@, upper_case(result@.action)), "\n"@)
        },
{
    if json {
        reachability_json_text(result)
    } else {
        let upper = to_upper(result.action.as_str());
        reachability_text(result, upper.as_str())
    }
}

// ---------------------------------------------------------------------------
// zone-of
// ---------------------------------------------------------------------------

/// The report of the `zone-of` command for address text `ip` and its zone.
pub open spec fn zone_report_spec(ip: Seq<char>, zone: Option<Seq<char>>, json: bool) -> Seq<char> {
    if json {
        "{\"ip\": "@ + json_quoted(ip) + ", \"zone\": "@ + json_or_null(zone) + "}"@
    } else {
        match zone {
            Some(z) => z,
            None => "(not in any zone)"@,
        }
    }
}

/// The report of the `zone-of` command.
pub fn zone_report(ip: &str, zone: &Option<String>, json: bool) -> (r: String)
    ensures
        r@ == zone_report_spec(ip@, zone.deep_view(), json),
{
    if json {
        let mut out = "{\"ip\": ".to_owned();
        let q = json_str(ip);
        push_str(&mut out, q.as_str());
        push_str(&mut out, ", \"zone\": ");
        let z = json_text_or_null(zone);
        push_str(&mut out, z.as_str());
        push_str(&mut out, "}");
        out
    } else {
        match zone {
            Some(z) => z.clone(),
            None => "(not in any zone)".to_owned(),
        }
    }
}

// ---------------------------------------------------------------------------
// shadowed
// ---------------------------------------------------------------------------

/// `(from zone, to zone, rule name)` of each shadowed rule.
pub open spec fn shadow_names(refs: Seq<(&SecurityPolicy, &PolicyRule)>) -> Seq<(Seq<char>, Seq<char>, Seq<char>)> {
    refs.map_values(|e: (&SecurityPolicy, &PolicyRule)| (e.0.from_zone@, e.0.to_zone@, e.1.name@))
}

/// The JSON object of one shadowed rule.
pub open spec fn shadow_json_item(e: (Seq<char>, Seq<char>, Seq<char>)) -> Seq<char> {
    "{\"from_zone\": "@ + json_quoted(e.0) + ", \"to_zone\": "@ + json_quoted(e.1) + ", \"rule\": "@
        + json_quoted(e.2) + "}"@
}

/// The text line of one shadowed rule.
pub open spec fn shadow_line(e: (Seq<char>, Seq<char>, Seq<char>)) -> Seq<char> {
    e.0 + " \u{2192} "@ + e.1 + ": rule '"@ + e.2 + "' is shadowed"@
}

/// The report of the `shadowed` command: a JSON array of objects, or one
/// line per rule (a notice when there is none).
pub open spec fn shadowed_report_spec(es: Seq<(Seq<char>, Seq<char>, Seq<char>)>, json: bool) -> Seq<char> {
    if json {
        "["@ + join(es.map_values(|e: (Seq<char>, Seq<char>, Seq<char>)| shadow_json_item(e)), ", "@)
            + "]"@
    } else if es.len() == 0 {
        "No shadowed rules found."@
    } else {
        join(es.map_values(|e: (Seq<char>, Seq<char>, Seq<char>)| shadow_line(e)), "\n"@)
    }
}

/// The report of the `shadowed` command for the shadowed rules found.
pub fn shadowed_report(refs: &Vec<(&SecurityPolicy, &PolicyRule)>, json: bool) -> (r: String)
    ensures
        r@ == shadowed_report_spec(shadow_names(refs@), json),
{
    let ghost es = shadow_names(refs@);
    if !json && refs.len() == 0 {
        return "No shadowed rules found.".to_owned();
    }
    let mut items: Vec<String> = Vec::new();
    let mut i: usize = 0;
    while i < refs.len()
        invariant
            i <= refs@.len(),
            es == shadow_names(refs@),
            es.len() == refs@.len(),
            strings_view(items@) == if json {
                es.take(i as int).map_values(|e: (Seq<char>, Seq<char>, Seq<char>)| shadow_json_item(e))
            } else {
                es.take(i as int).map_values(|e: (Seq<char>, Seq<char>, Seq<char>)| shadow_line(e))
            },
        decreases refs@.len() - i,
    {
        let (sp, rule) = refs[i];
        let ghost before = strings_view(items@);
        let item = if json {
            let mut out = "{\"from_zone\": ".to_owned();
            let q = json_str(sp.from_zone.as_str());
            push_str(&mut out, q.as_str());
            push_str(&mut out, ", \"to_zone\": ");
            let q = json_str(sp.to_zone.as_str());
            push_str(&mut out, q.as_str());
            push_str(&mut out, ", \"rule\": ");
            let q = json_str(rule.name.as_str());
            push_str(&mut out, q.as_str());
            push_str(&mut out, "}");
            out
        } else {
            let mut out = sp.from_zone.clone();
            push_str(&mut out, " \u{2192} ");
            push_str(&mut out, sp.to_zone.as_str());
            push_str(&mut out, ": rule '");
            push_str(&mut out, rule.name.as_str());
            push_str(&mut out, "' is shadowed");
            out
        };
        items.push(item);
        proof {
            assert(es[i as int] == (sp.from_zone@, sp.to_zone@, rule.name@));
            assert(strings_view(items@) =~= before.push(item@));
            assert(es.take(i + 1) =~= es.take(i as int).push(es[i as int]));
            if json {
                assert(strings_view(items@) =~= es.take(i + 1).map_values(
                    |e: (Seq<char>, Seq<char>, Seq<char>)| shadow_json_item(e),
                ));
            } else {
                assert(strings_view(items@) =~= es.take(i + 1).map_values(
                    |e: (Seq<char>, Seq<char>, Seq<char>)| shadow_line(e),
                ));
            }
        }
        i = i + 1;
    }
    assert(es.take(i as int) =~= es);
    if json {
        let mut out = "[".to_owned();
        let body = join_with(&items, ", ");
        push_str(&mut out, body.as_str());
        push_str(&mut out, "]");
        out
    } else {
        join_with(&items, "\n")
    }
}

// ---------------------------------------------------------------------------
// interfaces
// ---------------------------------------------------------------------------

/// The `addr/prefix` text of a network.
pub open spec fn network_text(n: Ipv4Network) -> Seq<char> {
    addr_string(n.base) + seq!['/'] + dec_string(n.prefix as nat)
}

/// `s` padded on the right with spaces to at least four characters.
pub open spec fn pad4(s: Seq<char>) -> Seq<char> {
    if s.len() < 4 {
        s + Seq::new((4 - s.len()) as nat, |i: int| ' ')
    } else {
        s
    }
}

/// The JSON object of one interface address.
pub open spec fn interface_json_item(e: (Seq<char>, Seq<char>, Ipv4Network)) -> Seq<char> {
    "{\"interface\": "@ + json_quoted(e.0) + ", \"unit\": "@ + json_quoted(e.1) + ", \"network\": "@
        + json_quoted(network_text(e.2)) + "}"@
}

/// The text line of one interface address.
pub open spec fn interface_line(e: (Seq<char>, Seq<char>, Ipv4Network)) -> Seq<char> {
    e.0 + seq!['.'] + pad4(e.1) + "  "@ + network_text(e.2)
}

/// The report of the `interfaces` command: a JSON array of objects, or one
/// line per address (a notice when there is none).
pub open spec fn interfaces_report_spec(es: Seq<(Seq<char>, Seq<char>, Ipv4Network)>, json: bool) -> Seq<char> {
    if json {
        "["@ + join(es.map_values(|e: (Seq<char>, Seq<char>, Ipv4Network)| interface_json_item(e)), ", "@)
            + "]"@
    } else if es.len() == 0 {
        "No interfaces configured."@
    } else {
        join(es.map_values(|e: (Seq<char>, Seq<char>, Ipv4Network)| interface_line(e)), "\n"@)
    }
}

/// The models of `(interface, unit, network)` triples.
pub open spec fn ip_entries_view(v: Seq<(String, String, Ipv4Network)>) -> Seq<(Seq<char>, Seq<char>, Ipv4Network)> {
    v.map_values(|e: (String, String, Ipv4Network)| (e.0@, e.1@, e.2))
}

fn pad_to_four(s: &str) -> (r: String)
    ensures
        r@ == pad4(s@),
{
    let mut out = s.to_owned();
    let n = s.unicode_len();
    let mut k = n;
    while k < 4
        invariant
            n == s@.len(),
            n <= k <= 4 || (k == n && n >= 4),
            out@ == s@ + Seq::new((k - n) as nat, |i: int| ' '),
        decreases 4 - k,
    {
        push_char(&mut out, ' ');
        assert(out@ =~= s@ + Seq::new((k + 1 - n) as nat, |i: int| ' '));
        k = k + 1;
    }
    assert(n >= 4 ==> out@ =~= s@);
    assert(n < 4 ==> out@ =~= s@ + Seq::new((4 - n) as nat, |i: int| ' '));
    out
}

/// The report of the `interfaces` command for the interface addresses found.
pub fn interfaces_report(ips: &Vec<(String, String, Ipv4Network)>, json: bool) -> (r: String)
    ensures
        r@ == interfaces_report_spec(ip_entries_view(ips@), json),
{
    let ghost es = ip_entries_view(ips@);
    if !json && ips.len() == 0 {
        return "No interfaces configured.".to_owned();
    }
    let mut items: Vec<String> = Vec::new();
    let mut i: usize = 0;
    while i < ips.len()
        invariant
            i <= ips@.len(),
            es == ip_entries_view(ips@),
            es.len() == ips@.len(),
            strings_view(items@) == if json {
                es.take(i as int).map_values(|e: (Seq<char>, Seq<char>, Ipv4Network)| interface_json_item(e))
            } else {
                es.take(i as int).map_values(|e: (Seq<char>, Seq<char>, Ipv4Network)| interface_line(e))
            },
        decreases ips@.len() - i,
    {
        let (iface, unit, net) = &ips[i];
        let ghost before = strings_view(items@);
        let net_text = net.to_string();
        let item = if json {
            let mut out = "{\"interface\": ".to_owned();
            let q = json_str(iface.as_str());
            push_str(&mut out, q.as_str());
            push_str(&mut out, ", \"unit\": ");
            let q = json_str(unit.as_str());
            push_str(&mut out, q.as_str());
            push_str(&mut out, ", \"network\": ");
            let q = json_str(net_text.as_str());
            push_str(&mut out, q.as_str());
            push_str(&mut out, "}");
            out
        } else {
            let mut out = iface.clone();
            push_char(&mut out, '.');
            let padded = pad_to_four(unit.as_str());
            push_str(&mut out, padded.as_str());
            push_str(&mut out, "  ");
            push_str(&mut out, net_text.as_str());
            assert(out@ =~= interface_line((iface@, unit@, *net)));
            out
        };
        items.push(item);
        proof {
            assert(es[i as int] == (iface@, unit@, *net));
            assert(strings_view(items@) =~= before.push(item@));
            assert(es.take(i + 1) =~= es.take(i as int).push(es[i as int]));
            if json {
                assert(strings_view(items@) =~= es.take(i + 1).map_values(
                    |e: (Seq<char>, Seq<char>, Ipv4Network)| interface_json_item(e),
                ));
            } else {
                assert(strings_view(items@) =~= es.take(i + 1).map_values(
                    |e: (Seq<char>, Seq<char>, Ipv4Network)| interface_line(e),
                ));
            }
        }
        i = i + 1;
    }
    assert(es.take(i as int) =~= es);
    if json {
        let mut out = "[".to_owned();
        let body = join_with(&items, ", ");
        push_str(&mut out, body.as_str());
        push_str(&mut out, "]");
        out
    } else {
        join_with(&items, "\n")
    }
}

} // verus!
