//! Character-level helpers shared by the tokenizer, the address parser and the
//! command-line layer: decimal numbers, character classes and string building.

use vstd::prelude::*;

verus! {

/// Unicode `White_Space` property (PropList.txt).
pub open spec fn spec_is_whitespace(c: char) -> bool {
    ||| ('\u{9}' <= c && c <= '\u{d}')
    ||| c == ' '
    ||| c == '\u{85}'
    ||| c == '\u{a0}'
    ||| c == '\u{1680}'
    ||| ('\u{2000}' <= c && c <= '\u{200a}')
    ||| c == '\u{2028}'
    ||| c == '\u{2029}'
    ||| c == '\u{202f}'
    ||| c == '\u{205f}'
    ||| c == '\u{3000}'
}

/// Whether `c` has the Unicode `White_Space` property, as `char::is_whitespace`
/// tells.
pub(crate) fn is_whitespace(c: char) -> (r: bool)
    ensures
        r == spec_is_whitespace(c),
{
    ('\u{9}' <= c && c <= '\u{d}') || c == ' ' || c == '\u{85}' || c == '\u{a0}' || c == '\u{1680}'
        || ('\u{2000}' <= c && c <= '\u{200a}') || c == '\u{2028}' || c == '\u{2029}' || c == '\u{202f}'
        || c == '\u{205f}' || c == '\u{3000}'
}

/// `String::push`: appends one character.
#[verifier::external_body]
pub(crate) fn push_char(s: &mut String, c: char)
    ensures
        final(s)@ == old(s)@.push(c),
{
    s.push(c)
}

/// Appends a string slice.
pub(crate) fn push_str(s: &mut String, t: &str)
    ensures
        final(s)@ == old(s)@ + t@,
{
    s.append(t);
}

/// Whether two slices hold the same characters.
pub(crate) fn str_eq(a: &str, b: &str) -> (r: bool)
    ensures
        r == (a@ == b@),
{
    let n = a.unicode_len();
    if n != b.unicode_len() {
        return false;
    }
    let mut i: usize = 0;
    while i < n
        invariant
            n == a@.len(),
            n == b@.len(),
            i <= n,
            forall|j: int| 0 <= j < i ==> a@[j] == b@[j],
        decreases n - i,
    {
        if a.get_char(i) != b.get_char(i) {
            return false;
        }
        i = i + 1;
    }
    assert(a@ =~= b@);
    true
}

/// The characters of `s`, in order.
pub fn chars_of(s: &str) -> (v: Vec<char>)
    ensures
        v@ == s@,
{
    let mut v: Vec<char> = Vec::new();
    for c in it: s.chars()
        invariant
            v@ == it.seq().take(it.index() as int),
    {
        v.push(c);
    }
    v
}

/// Whether `c` is an ASCII decimal digit.
pub open spec fn is_digit(c: char) -> bool {
    '0' <= c && c <= '9'
}

/// Whether every character of `s` is an ASCII decimal digit.
pub open spec fn all_digits(s: Seq<char>) -> bool {
    forall|i: int| 0 <= i < s.len() ==> is_digit(#[trigger] s[i])
}

/// The number written by the decimal digits `s` (most significant first).
pub open spec fn digits_value(s: Seq<char>) -> nat
    decreases s.len(),
{
    if s.len() == 0 {
        0
    } else {
        digits_value(s.drop_last()) * 10 + ((s.last() as nat) - ('0' as nat)) as nat
    }
}

/// The digits of an unsigned literal, after its optional leading `+`.
pub open spec fn unsigned_digits(s: Seq<char>) -> Seq<char> {
    if s.len() > 0 && s[0] == '+' {
        s.drop_first()
    } else {
        s
    }
}

/// The value of a non-empty run of ASCII decimal digits that fits in a `u32`;
/// `None` for anything else (a sign, a space, an empty run, an overflow).
pub open spec fn spec_parse_digits(d: Seq<char>) -> Option<u32> {
    if d.len() > 0 && all_digits(d) && digits_value(d) <= u32::MAX {
        Some(digits_value(d) as u32)
    } else {
        None
    }
}

/// What `s.parse::<u32>()` gives, with its error dropped: an optional `+`,
/// then a non-empty run of decimal digits whose value fits in a `u32`.
pub open spec fn spec_parse_u32(s: Seq<char>) -> Option<u32> {
    spec_parse_digits(unsigned_digits(s))
}

proof fn lemma_digits_value_step(s: Seq<char>, i: int)
    requires
        0 <= i < s.len(),
    ensures
        digits_value(s.take(i + 1)) == digits_value(s.take(i)) * 10 + ((s[i] as nat) - ('0' as nat)) as nat,
{
    assert(s.take(i + 1).drop_last() =~= s.take(i));
}

/// Parses `cs[lo..hi]` as a non-empty run of ASCII decimal digits whose value
/// fits in a `u32`; no sign is accepted.
pub fn parse_digits_chars(cs: &Vec<char>, lo: usize, hi: usize) -> (r: Option<u32>)
    requires
        lo <= hi <= cs@.len(),
    ensures
        r == spec_parse_digits(cs@.subrange(lo as int, hi as int)),
{
    let ghost d = cs@.subrange(lo as int, hi as int);
    if lo == hi {
        return None;
    }
    let mut i = lo;
    while i < hi
        invariant
            lo <= i <= hi <= cs@.len(),
            d == cs@.subrange(lo as int, hi as int),
            forall|j: int| 0 <= j < i - lo ==> is_digit(#[trigger] d[j]),
        decreases hi - i,
    {
        if !(cs[i] >= '0' && cs[i] <= '9') {
            assert(!is_digit(d[i - lo]));
            return None;
        }
        i = i + 1;
    }
    assert(all_digits(d));
    let mut acc: u64 = 0;
    let mut k = lo;
    while k < hi
        invariant
            lo <= k <= hi <= cs@.len(),
            d == cs@.subrange(lo as int, hi as int),
            all_digits(d),
            acc as nat == if digits_value(d.take(k - lo)) <= u32::MAX as nat + 1 {
                digits_value(d.take(k - lo))
            } else {
                u32::MAX as nat + 1
            },
        decreases hi - k,
    {
        proof {
            lemma_digits_value_step(d, k - lo);
            assert(is_digit(d[k - lo]));
        }
        let dig = (cs[k] as u32 - '0' as u32) as u64;
        let next = acc * 10 + dig;
        if next > 4294967296u64 {
            acc = 4294967296u64;
        } else {
            acc = next;
        }
        k = k + 1;
    }
    assert(d.take(d.len() as int) =~= d);
    if acc <= 4294967295u64 {
        Some(acc as u32)
    } else {
        None
    }
}

/// Parses `cs[lo..hi]` as `u32::from_str` does: an optional `+`, then a
/// non-empty run of decimal digits whose value fits in a `u32`.
pub fn parse_u32_chars(cs: &Vec<char>, lo: usize, hi: usize) -> (r: Option<u32>)
    requires
        lo <= hi <= cs@.len(),
    ensures
        r == spec_parse_u32(cs@.subrange(lo as int, hi as int)),
{
    let ghost s = cs@.subrange(lo as int, hi as int);
    let mut start = lo;
    if start < hi && cs[start] == '+' {
        start = start + 1;
    }
    assert(cs@.subrange(start as int, hi as int) =~= unsigned_digits(s));
    parse_digits_chars(cs, start, hi)
}

/// The decimal digit character for `d < 10`.
pub open spec fn digit_char(d: nat) -> char {
    if d == 0 { '0' }
    else if d == 1 { '1' }
    else if d == 2 { '2' }
    else if d == 3 { '3' }
    else if d == 4 { '4' }
    else if d == 5 { '5' }
    else if d == 6 { '6' }
    else if d == 7 { '7' }
    else if d == 8 { '8' }
    else { '9' }
}

/// The decimal rendering of `n`, without leading zeros.
pub open spec fn dec_string(n: nat) -> Seq<char>
    decreases n,
{
    if n < 10 {
        seq![digit_char(n)]
    } else {
        dec_string(n / 10).push(digit_char(n % 10))
    }
}

fn exec_digit_char(d: u32) -> (c: char)
    requires
        d < 10,
    ensures
        c == digit_char(d as nat),
{
    match d {
        0 => '0',
        1 => '1',
        2 => '2',
        3 => '3',
        4 => '4',
        5 => '5',
        6 => '6',
        7 => '7',
        8 => '8',
        _ => '9',
    }
}

/// Appends the decimal rendering of `n` to `s`.
pub fn push_decimal(s: &mut String, n: u32)
    ensures
        final(s)@ == old(s)@ + dec_string(n as nat),
    decreases n,
{
    if n >= 10 {
        push_decimal(s, n / 10);
    }
    push_char(s, exec_digit_char(n % 10));
    proof {
        assert(old(s)@ + dec_string(n as nat) =~= if n >= 10 {
            (old(s)@ + dec_string((n / 10) as nat)).push(digit_char((n % 10) as nat))
        } else {
            old(s)@.push(digit_char(n as nat))
        });
    }
}

/// The pieces of `s` between occurrences of `sep`, as `str::split` yields them:
/// there is always at least one piece, and pieces may be empty.
pub open spec fn split_on(s: Seq<char>, sep: char) -> Seq<Seq<char>>
    decreases s.len(),
{
    if s.len() == 0 {
        seq![Seq::<char>::empty()]
    } else {
        let r = split_on(s.drop_last(), sep);
        if s.last() == sep {
            r.push(Seq::<char>::empty())
        } else {
            r.update(r.len() - 1, r.last().push(s.last()))
        }
    }
}

/// The decimal rendering of `n` is a non-empty run of digits with no leading
/// zero (unless it is `0` itself) that reads back as `n`.
pub proof fn lemma_dec_string_digits(n: nat)
    ensures
        dec_string(n).len() > 0,
        all_digits(dec_string(n)),
        digits_value(dec_string(n)) == n,
        dec_string(n)[0] != '0' || (n == 0 && dec_string(n).len() == 1),
    decreases n,
{
    let c = digit_char(n % 10);
    assert((c as nat) - ('0' as nat) == n % 10 && is_digit(c));
    if n >= 10 {
        lemma_dec_string_digits(n / 10);
        let d = dec_string(n / 10);
        assert(dec_string(n).drop_last() =~= d);
        assert(dec_string(n)[0] == d[0]);
        assert(dec_string(n).last() == c);
        assert(digits_value(dec_string(n)) == digits_value(d) * 10 + n % 10);
        assert((n / 10) * 10 + n % 10 == n);
    } else {
        assert(dec_string(n).drop_last() =~= Seq::<char>::empty());
        assert(dec_string(n).last() == c);
        assert(n % 10 == n);
        assert(digits_value(Seq::<char>::empty()) == 0);
        assert(digits_value(dec_string(n)) == n % 10);
    }
}

/// Splitting `p` followed by a piece without separators extends the last
/// piece of `p`'s split by that piece.
pub proof fn lemma_split_on_extend(p: Seq<char>, b: Seq<char>, sep: char)
    requires
        !b.contains(sep),
    ensures
        split_on(p, sep).len() >= 1,
        split_on(p + b, sep) == split_on(p, sep).update(
            split_on(p, sep).len() - 1,
            split_on(p, sep).last() + b,
        ),
    decreases p.len() + b.len(), b.len(),
{
    if p.len() > 0 {
        lemma_split_on_extend(p.drop_last(), Seq::empty(), sep);
    }
    if b.len() == 0 {
        assert(p + b =~= p);
        assert(split_on(p, sep).last() + b =~= split_on(p, sep).last());
        assert(split_on(p, sep).update(split_on(p, sep).len() - 1, split_on(p, sep).last())
            =~= split_on(p, sep));
    } else {
        lemma_split_on_extend(p, b.drop_last(), sep);
        assert((p + b).drop_last() =~= p + b.drop_last());
        assert((p + b).last() == b.last());
        assert(b.contains(b.last()));
        assert(split_on(p, sep).last() + b.drop_last() + seq![b.last()] =~= split_on(p, sep).last() + b);
        assert((split_on(p, sep).last() + b.drop_last()).push(b.last()) =~= split_on(p, sep).last() + b);
        assert(split_on(p + b, sep) =~= split_on(p, sep).update(
            split_on(p, sep).len() - 1,
            split_on(p, sep).last() + b,
        ));
    }
}

/// A separator followed by a piece without separators adds that piece to the
/// split.
pub proof fn lemma_split_on_sep_then(p: Seq<char>, b: Seq<char>, sep: char)
    requires
        !b.contains(sep),
    ensures
        split_on(p.push(sep) + b, sep) == split_on(p, sep).push(b),
{
    lemma_split_on_extend(p.push(sep), b, sep);
    assert(p.push(sep).drop_last() =~= p);
    assert(Seq::<char>::empty() + b =~= b);
    assert(split_on(p, sep).push(Seq::<char>::empty()).update(split_on(p, sep).len() as int, b)
        =~= split_on(p, sep).push(b));
}

/// Whether `k` is the position of the first occurrence of `c` in `s`.
pub open spec fn is_first_index(s: Seq<char>, c: char, k: int) -> bool {
    &&& 0 <= k < s.len()
    &&& s[k] == c
    &&& forall|j: int| 0 <= j < k ==> s[j] != c
}

/// Position of the first occurrence of `c` in `s`, or `-1` when there is none.
pub open spec fn first_index(s: Seq<char>, c: char) -> int {
    if exists|k: int| is_first_index(s, c, k) {
        choose|k: int| is_first_index(s, c, k)
    } else {
        -1
    }
}

/// The first occurrence of `c` is at `k` when `k` holds `c` and nothing before it does.
pub proof fn lemma_first_index_at(s: Seq<char>, c: char, k: int)
    requires
        is_first_index(s, c, k),
    ensures
        first_index(s, c) == k,
{
    let j = choose|j: int| is_first_index(s, c, j);
    if j < k {
        assert(s[j] != c);
    } else if j > k {
        assert(s[k] != c);
    }
}

/// Finds the first occurrence of `c` in `cs[lo..hi]`.
pub fn find_char(cs: &Vec<char>, lo: usize, hi: usize, c: char) -> (r: Option<usize>)
    requires
        lo <= hi <= cs@.len(),
    ensures
        match r {
            Some(k) => lo <= k < hi && first_index(cs@.subrange(lo as int, hi as int), c) == k - lo,
            None => first_index(cs@.subrange(lo as int, hi as int), c) == -1,
        },
{
    let ghost s = cs@.subrange(lo as int, hi as int);
    let mut i = lo;
    while i < hi
        invariant
            lo <= i <= hi <= cs@.len(),
            s == cs@.subrange(lo as int, hi as int),
            forall|j: int| 0 <= j < i - lo ==> s[j] != c,
        decreases hi - i,
    {
        if cs[i] == c {
            proof {
                assert(is_first_index(s, c, i - lo));
                let k = choose|k: int| is_first_index(s, c, k);
                assert(k == i - lo) by {
                    if k < i - lo {
                        assert(s[k] != c);
                    } else if k > i - lo {
                        assert(s[i - lo] != c);
                    }
                }
            }
            return Some(i);
        }
        i = i + 1;
    }
    proof {
        assert(!exists|k: int| is_first_index(s, c, k));
    }
    None
}

/// A `String` holding the characters `cs[lo..hi]`.
pub fn string_of(cs: &Vec<char>, lo: usize, hi: usize) -> (r: String)
    requires
        lo <= hi <= cs@.len(),
    ensures
        r@ == cs@.subrange(lo as int, hi as int),
{
    let mut r = String::new();
    let mut i = lo;
    while i < hi
        invariant
            lo <= i <= hi <= cs@.len(),
            r@ == cs@.subrange(lo as int, i as int),
        decreases hi - i,
    {
        push_char(&mut r, cs[i]);
        assert(cs@.subrange(lo as int, i + 1) =~= cs@.subrange(lo as int, i as int).push(cs@[i as int]));
        i = i + 1;
    }
    r
}

/// `prefix` followed by `s`, as a new `String`.
pub fn concat_str(prefix: &str, s: &str) -> (r: String)
    ensures
        r@ == prefix@ + s@,
{
    let mut r = prefix.to_owned();
    push_str(&mut r, s);
    r
}

} // verus!
