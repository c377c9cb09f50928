//! IPv4 addresses and networks.
//!
//! Dotted-quad addresses, `addr/prefix` networks built with non-strict
//! host-bit handling (the host portion of the address is masked off, so
//! `192.168.1.5/24` denotes `192.168.1.0/24`), and membership tests.
//!
//! The accepted text follows Python's `ipaddress` module: each of the four
//! octets is a non-empty run of ASCII decimal digits with a value of at most
//! 255 and no leading zero (`0` itself is fine, `010` is not); a prefix length
//! is a non-empty run of ASCII decimal digits with a value of at most 32
//! (leading zeros allowed, so `/08` is `/8`). No sign, space or other
//! character is accepted in either.

use vstd::prelude::*;

use crate::text::{
    chars_of, concat_str, dec_string, digits_value, find_char, first_index, parse_digits_chars, push_char,
    push_decimal, spec_parse_digits, split_on, string_of, lemma_dec_string_digits, lemma_split_on_extend,
    lemma_split_on_sep_then, lemma_first_index_at, is_digit, is_first_index,
};

verus! {

/// A 32-bit IPv4 address.
#[derive(Clone, Copy, PartialEq, Eq, Hash, PartialOrd, Ord, Debug)]
pub struct Ipv4Addr(pub u32);

/// An IPv4 network: a base address plus a prefix length.
#[derive(Clone, Copy, PartialEq, Eq, Hash, Debug, Structural)]
pub struct Ipv4Network {
    pub base: u32,
    pub prefix: u8,
}

/// Whether `s` is one dotted-quad component: ASCII decimal digits with a
/// value of at most 255 and no leading zero unless `s` is `0` itself.
pub open spec fn is_octet(s: Seq<char>) -> bool {
    &&& spec_parse_digits(s) matches Some(v) && v <= 255
    &&& (s[0] != '0' || s.len() == 1)
}

/// The value of an octet component.
pub open spec fn octet_value(s: Seq<char>) -> nat {
    digits_value(s)
}

/// The address written by the dotted quad `s`, if `s` is one: exactly four
/// components separated by `.`, each a decimal number from 0 to 255.
pub open spec fn spec_parse_addr(s: Seq<char>) -> Option<u32> {
    let parts = split_on(s, '.');
    if parts.len() == 4 && is_octet(parts[0]) && is_octet(parts[1]) && is_octet(parts[2])
        && is_octet(parts[3]) {
        Some(
            (octet_value(parts[0]) * 16777216 + octet_value(parts[1]) * 65536 + octet_value(
                parts[2],
            ) * 256 + octet_value(parts[3])) as u32,
        )
    } else {
        None
    }
}

/// The message of a rejected address.
pub open spec fn addr_error(s: Seq<char>) -> Seq<char> {
    "invalid IPv4 address: "@ + s
}

/// The message of a rejected prefix length.
pub open spec fn prefix_error(s: Seq<char>) -> Seq<char> {
    "invalid prefix length: "@ + s
}

/// The netmask of a prefix length of at most 32: its `prefix` leading bits set.
pub open spec fn mask_of(prefix: u8) -> u32 {
    if prefix == 0 {
        0
    } else {
        (0xffff_ffffu32 << ((32 - prefix) as u32)) as u32
    }
}

/// The network that `s` denotes, if any: `addr/prefix` with a prefix length of at
/// most 32 (split at the first `/`), or a bare address taken as a /32; host bits
/// of the address are cleared.
pub open spec fn spec_parse_network(s: Seq<char>) -> Result<Ipv4Network, Seq<char>> {
    let k = first_index(s, '/');
    let addr_part = if k >= 0 { s.take(k) } else { s };
    let prefix_ok = k < 0 || (spec_parse_digits(s.skip(k + 1)) matches Some(p) && p <= 32);
    let prefix: u8 = if k >= 0 { spec_parse_digits(s.skip(k + 1))->0 as u8 } else { 32 };
    if !prefix_ok {
        Err(prefix_error(s))
    } else {
        match spec_parse_addr(addr_part) {
            Some(a) => Ok(Ipv4Network { base: a & mask_of(prefix), prefix }),
            None => Err(addr_error(addr_part)),
        }
    }
}

/// The decimal dotted-quad rendering of an address.
pub open spec fn addr_string(x: u32) -> Seq<char> {
    dec_string((x / 16777216) as nat) + seq!['.'] + dec_string(((x / 65536) % 256) as nat) + seq!['.']
        + dec_string(((x / 256) % 256) as nat) + seq!['.'] + dec_string((x % 256) as nat)
}

fn addr_error_message(s: &str) -> (r: String)
    ensures
        r@ == addr_error(s@),
{
    concat_str("invalid IPv4 address: ", s)
}

fn prefix_error_message(s: &str) -> (r: String)
    ensures
        r@ == prefix_error(s@),
{
    concat_str("invalid prefix length: ", s)
}

/// Parses one octet `cs[lo..hi]` of a dotted quad.
fn parse_octet_chars(cs: &Vec<char>, lo: usize, hi: usize) -> (r: Option<u32>)
    requires
        lo <= hi <= cs@.len(),
    ensures
        match r {
            Some(v) => is_octet(cs@.subrange(lo as int, hi as int)) && v == octet_value(
                cs@.subrange(lo as int, hi as int),
            ),
            None => !is_octet(cs@.subrange(lo as int, hi as int)),
        },
{
    match parse_digits_chars(cs, lo, hi) {
        Some(v) => {
            assert(cs@.subrange(lo as int, hi as int)[0] == cs@[lo as int]);
            if v <= 255 && (cs[lo] != '0' || hi - lo == 1) {
                Some(v)
            } else {
                None
            }
        },
        None => None,
    }
}

/// Parses the dotted quad `cs[lo..hi]`.
fn parse_addr_chars(cs: &Vec<char>, lo: usize, hi: usize) -> (r: Option<u32>)
    requires
        lo <= hi <= cs@.len(),
    ensures
        r == spec_parse_addr(cs@.subrange(lo as int, hi as int)),
{
    let ghost s = cs@.subrange(lo as int, hi as int);
    let mut octets: Vec<u32> = Vec::new();
    let ghost mut parts: Seq<Seq<char>> = Seq::empty();
    let mut start = lo;
    let mut i = lo;
    let mut ok = true;
    let ghost mut bad: int = 0;
    assert(s.take(0) =~= Seq::<char>::empty());
    assert(cs@.subrange(lo as int, lo as int) =~= Seq::<char>::empty());
    assert(split_on(Seq::<char>::empty(), '.') == seq![Seq::<char>::empty()]);
    assert(parts.push(Seq::<char>::empty()) =~= seq![Seq::<char>::empty()]);
    while i < hi
        invariant
            lo <= start <= i <= hi <= cs@.len(),
            s == cs@.subrange(lo as int, hi as int),
            split_on(s.take(i - lo), '.') == parts.push(cs@.subrange(start as int, i as int)),
            octets@.len() == parts.len(),
            ok ==> forall|j: int| 0 <= j < parts.len() ==> is_octet(#[trigger] parts[j]) && octets@[j] == octet_value(parts[j]),
            !ok ==> 0 <= bad < parts.len() && !is_octet(parts[bad]),
        decreases hi - i,
    {
        proof {
            assert(s.take(i - lo + 1).drop_last() =~= s.take(i - lo));
            assert(s.take(i - lo + 1).last() == cs@[i as int]);
        }
        if cs[i] == '.' {
            let part = parse_octet_chars(cs, start, i);
            proof {
                parts = parts.push(cs@.subrange(start as int, i as int));
            }
            match part {
                Some(v) => {
                    octets.push(v);
                },
                None => {
                    octets.push(0);
                    if ok {
                        proof { bad = parts.len() - 1; }
                    }
                    ok = false;
                },
            }
            start = i + 1;
            assert(cs@.subrange(start as int, i + 1) =~= Seq::<char>::empty());
        } else {
            assert(cs@.subrange(start as int, i + 1) =~= cs@.subrange(start as int, i as int).push(cs@[i as int]));
        }
        i = i + 1;
    }
    assert(s.take(hi - lo) =~= s);
    let last = parse_octet_chars(cs, start, hi);
    proof {
        parts = parts.push(cs@.subrange(start as int, hi as int));
    }
    if !ok || octets.len() != 3 {
        return None;
    }
    match last {
        Some(v) => {
            proof {
                assert(parts[3] == cs@.subrange(start as int, hi as int));
            }
            let a = octets[0] * 16777216 + octets[1] * 65536 + octets[2] * 256 + v;
            Some(a)
        },
        None => None,
    }
}

impl Ipv4Addr {
    /// Parse a dotted-quad string such as `192.168.1.1`.
    pub fn parse(s: &str) -> (r: Result<Ipv4Addr, String>)
        ensures
            match r {
                Ok(a) => spec_parse_addr(s@) == Some(a.0),
                Err(e) => spec_parse_addr(s@) is None && e@ == addr_error(s@),
            },
    {
        let cs = chars_of(s);
        assert(cs@.subrange(0, cs@.len() as int) =~= s@);
        match parse_addr_chars(&cs, 0, cs.len()) {
            Some(a) => Ok(Ipv4Addr(a)),
            None => Err(addr_error_message(s)),
        }
    }

    /// The dotted-quad rendering of this address.
    pub fn to_string(&self) -> (r: String)
        ensures
            r@ == addr_string(self.0),
    {
        let x = self.0;
        let mut r = String::new();
        push_decimal(&mut r, x / 16777216);
        push_char(&mut r, '.');
        push_decimal(&mut r, (x / 65536) % 256);
        push_char(&mut r, '.');
        push_decimal(&mut r, (x / 256) % 256);
        push_char(&mut r, '.');
        push_decimal(&mut r, x % 256);
        r
    }
}

impl Ipv4Network {
    /// Parse `addr/prefix` or a bare `addr` (treated as a /32 host route).
    pub fn parse(s: &str) -> (r: Result<Ipv4Network, String>)
        ensures
            match r {
                Ok(n) => spec_parse_network(s@) == Ok::<Ipv4Network, Seq<char>>(n),
                Err(e) => spec_parse_network(s@) == Err::<Ipv4Network, Seq<char>>(e@),
            },
    {
        let cs = chars_of(s);
        let n = cs.len();
        assert(cs@.subrange(0, n as int) =~= s@);
        let slash = find_char(&cs, 0, n, '/');
        let (addr_end, prefix) = match slash {
            Some(k) => {
                assert(cs@.subrange(k + 1, n as int) =~= s@.skip(k + 1));
                match parse_digits_chars(&cs, k + 1, n) {
                    Some(p) => {
                        if p > 32 {
                            return Err(prefix_error_message(s));
                        }
                        (k, p as u8)
                    },
                    None => {
                        return Err(prefix_error_message(s));
                    },
                }
            },
            None => (n, 32u8),
        };
        assert(cs@.subrange(0, addr_end as int) =~= if slash is Some {
            s@.take(addr_end as int)
        } else {
            s@
        });
        match parse_addr_chars(&cs, 0, addr_end) {
            Some(a) => {
                let mask = Self::mask(prefix);
                Ok(Ipv4Network { base: a & mask, prefix })
            },
            None => {
                let part = string_of(&cs, 0, addr_end);
                Err(addr_error_message(part.as_str()))
            },
        }
    }

    fn mask(prefix: u8) -> (m: u32)
        requires
            prefix <= 32,
        ensures
            m == mask_of(prefix),
    {
        if prefix == 0 {
            0
        } else {
            u32::MAX << (32 - prefix as u32)
        }
    }

    /// The `0.0.0.0/0` network matching every address.
    pub fn any() -> (n: Ipv4Network)
        ensures
            n.base == 0,
            n.prefix == 0,
    {
        Ipv4Network { base: 0, prefix: 0 }
    }

    /// Whether `addr` falls within this network.
    pub fn contains(&self, addr: Ipv4Addr) -> (r: bool)
        requires
            self.prefix <= 32,
        ensures
            r == self.spec_contains(addr.0),
    {
        let mask = Self::mask(self.prefix);
        (addr.0 & mask) == self.base
    }

    /// Membership of an address in this network.
    pub open spec fn spec_contains(self, a: u32) -> bool {
        (a & mask_of(self.prefix)) == self.base
    }

    /// The `addr/prefix` rendering of this network.
    pub fn to_string(&self) -> (r: String)
        ensures
            r@ == addr_string(self.base) + seq!['/'] + dec_string(self.prefix as nat),
    {
        let mut r = Ipv4Addr(self.base).to_string();
        push_char(&mut r, '/');
        push_decimal(&mut r, self.prefix as u32);
        r
    }
}

/// A network parsed from text keeps no host bits: its base is its own network
/// address, and its prefix length is at most 32.
pub proof fn lemma_parsed_network_is_canonical(s: Seq<char>)
    requires
        spec_parse_network(s) is Ok,
    ensures
        spec_parse_network(s)->Ok_0.prefix <= 32,
        spec_parse_network(s)->Ok_0.base & mask_of(spec_parse_network(s)->Ok_0.prefix)
            == spec_parse_network(s)->Ok_0.base,
{
    let n = spec_parse_network(s)->Ok_0;
    let k = first_index(s, '/');
    if k >= 0 {
        let p = spec_parse_digits(s.skip(k + 1))->0;
        assert(p <= 32);
    }
    let a = spec_parse_addr(if k >= 0 { s.take(k) } else { s })->0;
    let m = mask_of(n.prefix);
    assert((a & m) & m == a & m) by (bit_vector);
}

proof fn lemma_dec_string_octet(v: nat)
    requires
        v <= 255,
    ensures
        is_octet(dec_string(v)),
        octet_value(dec_string(v)) == v,
        !dec_string(v).contains('.'),
        !dec_string(v).contains('/'),
{
    lemma_dec_string_digits(v);
    let d = dec_string(v);
    if d.contains('.') {
        let i = choose|i: int| 0 <= i < d.len() && d[i] == '.';
        assert(is_digit(d[i]));
    }
    if d.contains('/') {
        let i = choose|i: int| 0 <= i < d.len() && d[i] == '/';
        assert(is_digit(d[i]));
    }
}

/// Printing an address as a dotted quad and parsing that text gives the same
/// address back.
pub proof fn lemma_addr_string_round_trip(x: u32)
    ensures
        spec_parse_addr(addr_string(x)) == Some(x),
{
    let v0 = (x / 16777216) as nat;
    let v1 = ((x / 65536) % 256) as nat;
    let v2 = ((x / 256) % 256) as nat;
    let v3 = (x % 256) as nat;
    lemma_dec_string_octet(v0);
    lemma_dec_string_octet(v1);
    lemma_dec_string_octet(v2);
    lemma_dec_string_octet(v3);
    let d0 = dec_string(v0);
    let d1 = dec_string(v1);
    let d2 = dec_string(v2);
    let d3 = dec_string(v3);
    lemma_split_on_extend(Seq::<char>::empty(), d0, '.');
    assert(Seq::<char>::empty() + d0 =~= d0);
    assert(split_on(d0, '.') =~= seq![d0]);
    let p1 = d0.push('.') + d1;
    lemma_split_on_sep_then(d0, d1, '.');
    let p2 = p1.push('.') + d2;
    lemma_split_on_sep_then(p1, d2, '.');
    let p3 = p2.push('.') + d3;
    lemma_split_on_sep_then(p2, d3, '.');
    assert(addr_string(x) =~= p3);
    let parts = split_on(addr_string(x), '.');
    assert(parts =~= seq![d0, d1, d2, d3]);
    assert(x == (x / 16777216) * 16777216 + ((x / 65536) % 256) * 65536 + ((x / 256) % 256) * 256 + x
        % 256) by (bit_vector);
}

/// Printing a network whose base has no host bits as `addr/prefix` and
/// parsing that text gives the same network back.
pub proof fn lemma_network_string_round_trip(n: Ipv4Network)
    requires
        n.prefix <= 32,
        n.base & mask_of(n.prefix) == n.base,
    ensures
        spec_parse_network(addr_string(n.base) + seq!['/'] + dec_string(n.prefix as nat))
            == Ok::<Ipv4Network, Seq<char>>(n),
{
    let a = addr_string(n.base);
    let p = dec_string(n.prefix as nat);
    let s = a + seq!['/'] + p;
    lemma_addr_string_round_trip(n.base);
    let x = n.base;
    lemma_dec_string_octet((x / 16777216) as nat);
    lemma_dec_string_octet(((x / 65536) % 256) as nat);
    lemma_dec_string_octet(((x / 256) % 256) as nat);
    lemma_dec_string_octet((x % 256) as nat);
    assert forall|j: int| 0 <= j < a.len() implies a[j] != '/' by {
        let d0 = dec_string((x / 16777216) as nat);
        let d1 = dec_string(((x / 65536) % 256) as nat);
        let d2 = dec_string(((x / 256) % 256) as nat);
        let d3 = dec_string((x % 256) as nat);
        if a[j] == '/' {
            let l0 = d0.len() as int;
            let l1 = l0 + 1 + d1.len();
            let l2 = l1 + 1 + d2.len();
            if j < l0 {
                assert(d0[j] == '/');
            } else if j == l0 || j == l1 || j == l2 {
            } else if j < l1 {
                assert(d1[j - l0 - 1] == '/');
            } else if j < l2 {
                assert(d2[j - l1 - 1] == '/');
            } else {
                assert(d3[j - l2 - 1] == '/');
            }
        }
    }
    assert(is_first_index(s, '/', a.len() as int));
    lemma_first_index_at(s, '/', a.len() as int);
    assert(s.take(a.len() as int) =~= a);
    assert(s.skip(a.len() as int + 1) =~= p);
    lemma_dec_string_digits(n.prefix as nat);
}

/// Non-strict parsing: the network parsed from `addr/prefix` contains `addr`
/// itself (the host bits that were dropped do not matter for membership).
pub proof fn lemma_network_contains_its_address(s: Seq<char>)
    requires
        spec_parse_network(s) is Ok,
    ensures
        ({
            let k = first_index(s, '/');
            let addr_part = if k >= 0 { s.take(k) } else { s };
            spec_parse_addr(addr_part) matches Some(a)
                && spec_parse_network(s)->Ok_0.spec_contains(a)
        }),
{
    let n = spec_parse_network(s)->Ok_0;
    let k = first_index(s, '/');
    let a = spec_parse_addr(if k >= 0 { s.take(k) } else { s })->0;
    let m = mask_of(n.prefix);
    assert((a & m) & m == a & m) by (bit_vector);
}

/// The network `0.0.0.0/0` contains every address.
pub proof fn lemma_any_contains_everything(a: u32)
    ensures
        (Ipv4Network { base: 0, prefix: 0 }).spec_contains(a),
{
    assert(a & 0 == 0) by (bit_vector);
}

/// A /32 network contains exactly its own base address.
pub proof fn lemma_host_network_contains_only_itself(base: u32, a: u32)
    ensures
        (Ipv4Network { base, prefix: 32 }).spec_contains(a) <==> a == base,
{
    assert(0xffff_ffffu32 << 0u32 == 0xffff_ffffu32) by (bit_vector);
    assert(a & 0xffff_ffffu32 == a) by (bit_vector);
}

} // verus!
