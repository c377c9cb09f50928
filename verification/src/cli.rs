//! Command-line argument handling and JSON rendering for the `netbat` tool.

use vstd::prelude::*;

use crate::text::{chars_of, concat_str, parse_u32_chars, push_char, push_str, spec_parse_u32, str_eq};

verus! {

/// The arguments of a subcommand: positional arguments in order, and the
/// `--json`, `--protocol PROTO` and `--port PORT` options.
pub struct ParsedArgs {
    pub positionals: Vec<String>,
    pub json: bool,
    pub protocol: String,
    pub port: Option<u16>,
}

/// Model of [`ParsedArgs`].
pub struct ParsedArgsModel {
    pub positionals: Seq<Seq<char>>,
    pub json: bool,
    pub protocol: Seq<char>,
    pub port: Option<u16>,
}

impl View for ParsedArgs {
    type V = ParsedArgsModel;

    open spec fn view(&self) -> ParsedArgsModel {
        ParsedArgsModel {
            positionals: self.positionals.deep_view(),
            json: self.json,
            protocol: self.protocol@,
            port: self.port,
        }
    }
}

/// What `s.parse::<u16>()` gives, with its error dropped.
pub open spec fn spec_parse_u16(s: Seq<char>) -> Option<u16> {
    match spec_parse_u32(s) {
        Some(v) => if v <= 65535 {
            Some(v as u16)
        } else {
            None
        },
        None => None,
    }
}

/// Reads the arguments from position `i` on into `acc`: `--json` sets the JSON
/// flag, `--protocol` and `--port` take the next argument as their value (the
/// last occurrence wins), and anything else is a positional argument.
pub open spec fn parse_args_from(args: Seq<Seq<char>>, i: int, acc: ParsedArgsModel) -> Result<ParsedArgsModel, Seq<char>>
    decreases args.len() - i,
{
    if i < 0 || i >= args.len() {
        Ok(acc)
    } else {
        let a = args[i];
        if a == "--json"@ {
            parse_args_from(args, i + 1, ParsedArgsModel { json: true, ..acc })
        } else if a == "--protocol"@ {
            if i + 1 < args.len() {
                parse_args_from(args, i + 2, ParsedArgsModel { protocol: args[i + 1], ..acc })
            } else {
                Err("error: --protocol requires a value"@)
            }
        } else if a == "--port"@ {
            if i + 1 < args.len() {
                match spec_parse_u16(args[i + 1]) {
                    Some(p) => parse_args_from(args, i + 2, ParsedArgsModel { port: Some(p), ..acc }),
                    None => Err("error: invalid port: "@ + args[i + 1]),
                }
            } else {
                Err("error: --port requires a value"@)
            }
        } else {
            parse_args_from(
                args,
                i + 1,
                ParsedArgsModel { positionals: acc.positionals.push(a), ..acc },
            )
        }
    }
}

/// The arguments read from `args`, with protocol `tcp` and no port unless given.
pub open spec fn parse_args_spec(args: Seq<Seq<char>>) -> Result<ParsedArgsModel, Seq<char>> {
    parse_args_from(
        args,
        0,
        ParsedArgsModel { positionals: Seq::empty(), json: false, protocol: "tcp"@, port: None },
    )
}

/// Reads the arguments of a subcommand.
pub fn parse_args(args: &[String]) -> (r: Result<ParsedArgs, String>)
    ensures
        match r {
            Ok(p) => parse_args_spec(args.deep_view()) == Ok::<ParsedArgsModel, Seq<char>>(p@),
            Err(e) => parse_args_spec(args.deep_view()) == Err::<ParsedArgsModel, Seq<char>>(e@),
        },
{
    let ghost av = args.deep_view();
    let mut parsed = ParsedArgs {
        positionals: Vec::new(),
        json: false,
        protocol: "tcp".to_owned(),
        port: None,
    };
    assert(parsed@.positionals =~= Seq::<Seq<char>>::empty());
    let n = args.len();
    let mut i: usize = 0;
    while i < n
        invariant
            n == args@.len(),
            av == args.deep_view(),
            i <= n,
            parse_args_spec(av) == parse_args_from(av, i as int, parsed@),
        decreases n - i,
    {
        let a = args[i].as_str();
        assert(av[i as int] == a@);
        if str_eq(a, "--json") {
            parsed.json = true;
            i = i + 1;
        } else if str_eq(a, "--protocol") {
            if n - i < 2 {
                return Err("error: --protocol requires a value".to_owned());
            }
            assert(av[i + 1] == args@[i + 1]@);
            parsed.protocol = args[i + 1].clone();
            i = i + 2;
        } else if str_eq(a, "--port") {
            if n - i < 2 {
                return Err("error: --port requires a value".to_owned());
            }
            let raw = args[i + 1].as_str();
            assert(av[i + 1] == raw@);
            let cs = chars_of(raw);
            assert(cs@.subrange(0, cs@.len() as int) =~= raw@);
            match parse_u32_chars(&cs, 0, cs.len()) {
                Some(v) => {
                    if v > 65535 {
                        return Err(concat_str("error: invalid port: ", raw));
                    }
                    parsed.port = Some(v as u16);
                },
                None => {
                    return Err(concat_str("error: invalid port: ", raw));
                },
            }
            i = i + 2;
        } else {
            let ghost before = parsed@;
            parsed.positionals.push(a.to_owned());
            assert(parsed@.positionals =~= before.positionals.push(a@));
            i = i + 1;
        }
    }
    Ok(parsed)
}

/// Reading `args + tail` from `i` reads `args` to its end first: where that
/// part succeeds, the rest reads `tail` with what was gathered so far.
proof fn lemma_parse_args_from_append(
    args: Seq<Seq<char>>,
    tail: Seq<Seq<char>>,
    i: int,
    acc: ParsedArgsModel,
)
    requires
        0 <= i <= args.len(),
        parse_args_from(args, i, acc) is Ok,
    ensures
        parse_args_from(args + tail, i, acc) == parse_args_from(
            args + tail,
            args.len() as int,
            parse_args_from(args, i, acc)->Ok_0,
        ),
    decreases args.len() - i,
{
    let s = args + tail;
    if i < args.len() {
        assert(s[i] == args[i]);
        let a = args[i];
        if a == "--json"@ {
            lemma_parse_args_from_append(args, tail, i + 1, ParsedArgsModel { json: true, ..acc });
        } else if a == "--protocol"@ {
            assert(s[i + 1] == args[i + 1]);
            lemma_parse_args_from_append(args, tail, i + 2, ParsedArgsModel { protocol: args[i + 1], ..acc });
        } else if a == "--port"@ {
            assert(s[i + 1] == args[i + 1]);
            let p = spec_parse_u16(args[i + 1])->0;
            lemma_parse_args_from_append(args, tail, i + 2, ParsedArgsModel { port: Some(p), ..acc });
        } else {
            lemma_parse_args_from_append(
                args,
                tail,
                i + 1,
                ParsedArgsModel { positionals: acc.positionals.push(a), ..acc },
            );
        }
    }
}

/// With no arguments, there are no positional arguments, no JSON flag,
/// protocol `tcp` and no port.
pub proof fn lemma_parse_args_empty()
    ensures
        parse_args_spec(Seq::empty()) == Ok::<ParsedArgsModel, Seq<char>>(
            ParsedArgsModel { positionals: Seq::empty(), json: false, protocol: "tcp"@, port: None },
        ),
{
}

/// Options and positional arguments, added one at a time after arguments that
/// read without error: a later `--protocol P` replaces the protocol, a later
/// `--port N` replaces the port (or fails with `invalid port` when `N` is not a
/// `u16`), `--protocol` or `--port` with nothing after it fails, `--json` sets
/// the flag, and any other argument is appended to the positional ones.
pub proof fn lemma_parse_args_extend(args: Seq<Seq<char>>, a: Seq<char>, v: Seq<char>)
    requires
        parse_args_spec(args) is Ok,
    ensures
        ({
            let m = parse_args_spec(args)->Ok_0;
            &&& parse_args_spec(args + seq!["--protocol"@, v]) == Ok::<ParsedArgsModel, Seq<char>>(
                ParsedArgsModel { protocol: v, ..m },
            )
            &&& parse_args_spec(args + seq!["--port"@, v]) == match spec_parse_u16(v) {
                Some(p) => Ok::<ParsedArgsModel, Seq<char>>(ParsedArgsModel { port: Some(p), ..m }),
                None => Err::<ParsedArgsModel, Seq<char>>("error: invalid port: "@ + v),
            }
            &&& parse_args_spec(args.push("--protocol"@)) == Err::<ParsedArgsModel, Seq<char>>(
                "error: --protocol requires a value"@,
            )
            &&& parse_args_spec(args.push("--port"@)) == Err::<ParsedArgsModel, Seq<char>>(
                "error: --port requires a value"@,
            )
            &&& parse_args_spec(args.push("--json"@)) == Ok::<ParsedArgsModel, Seq<char>>(
                ParsedArgsModel { json: true, ..m },
            )
            &&& (a != "--json"@ && a != "--protocol"@ && a != "--port"@) ==> parse_args_spec(args.push(a))
                == Ok::<ParsedArgsModel, Seq<char>>(
                ParsedArgsModel { positionals: m.positionals.push(a), ..m },
            )
        }),
{
    reveal_strlit("--json");
    reveal_strlit("--protocol");
    reveal_strlit("--port");
    assert("--protocol"@ != "--json"@) by {
        assert("--protocol"@.len() != "--json"@.len());
    }
    assert("--port"@ != "--json"@) by {
        assert("--port"@[2] != "--json"@[2]);
    }
    assert("--port"@ != "--protocol"@) by {
        assert("--port"@.len() != "--protocol"@.len());
    }
    let acc = ParsedArgsModel { positionals: Seq::empty(), json: false, protocol: "tcp"@, port: None };
    let m = parse_args_spec(args)->Ok_0;
    let n = args.len() as int;
    let t1 = seq!["--protocol"@, v];
    lemma_parse_args_from_append(args, t1, 0, acc);
    assert((args + t1)[n] == "--protocol"@);
    assert((args + t1)[n + 1] == v);
    assert(parse_args_from(args + t1, n + 2, ParsedArgsModel { protocol: v, ..m }) == Ok::<ParsedArgsModel, Seq<char>>(ParsedArgsModel { protocol: v, ..m }));
    assert(parse_args_from(args + t1, n, m) == Ok::<ParsedArgsModel, Seq<char>>(ParsedArgsModel { protocol: v, ..m }));
    let t2 = seq!["--port"@, v];
    lemma_parse_args_from_append(args, t2, 0, acc);
    assert((args + t2)[n] == "--port"@);
    assert((args + t2)[n + 1] == v);
    if let Some(p) = spec_parse_u16(v) {
        assert(parse_args_from(args + t2, n + 2, ParsedArgsModel { port: Some(p), ..m }) == Ok::<ParsedArgsModel, Seq<char>>(ParsedArgsModel { port: Some(p), ..m }));
    }
    let t3 = seq!["--protocol"@];
    lemma_parse_args_from_append(args, t3, 0, acc);
    assert(args + t3 =~= args.push("--protocol"@));
    assert((args + t3)[n] == "--protocol"@);
    let t4 = seq!["--port"@];
    lemma_parse_args_from_append(args, t4, 0, acc);
    assert(args + t4 =~= args.push("--port"@));
    assert((args + t4)[n] == "--port"@);
    let t5 = seq!["--json"@];
    lemma_parse_args_from_append(args, t5, 0, acc);
    assert(args + t5 =~= args.push("--json"@));
    assert((args + t5)[n] == "--json"@);
    let t6 = seq![a];
    lemma_parse_args_from_append(args, t6, 0, acc);
    assert(args + t6 =~= args.push(a));
    assert((args + t6)[n] == a);
    assert(parse_args_from(args + t5, n + 1, ParsedArgsModel { json: true, ..m }) == Ok::<ParsedArgsModel, Seq<char>>(ParsedArgsModel { json: true, ..m }));
    assert(parse_args_from(args + t6, n + 1, ParsedArgsModel { positionals: m.positionals.push(a), ..m }) == Ok::<ParsedArgsModel, Seq<char>>(ParsedArgsModel { positionals: m.positionals.push(a), ..m }));
}

/// Whether `a` is `--protocol` or `--port`, the options that take a value.
pub open spec fn takes_value(a: Seq<char>) -> bool {
    a == "--protocol"@ || a == "--port"@
}

/// Whether `a` is one of the option words `--json`, `--protocol`, `--port`.
pub open spec fn is_option_word(a: Seq<char>) -> bool {
    a == "--json"@ || takes_value(a)
}

/// Where the left-to-right scan of the arguments goes from position `i`: past
/// the value of `--protocol` or `--port`, or past the argument itself.
pub open spec fn scan_step(args: Seq<Seq<char>>, i: int) -> int {
    if takes_value(args[i]) {
        i + 2
    } else {
        i + 1
    }
}

/// Whether the scan that starts at position `i` stops at position `k`.
pub open spec fn scan_reaches(args: Seq<Seq<char>>, i: int, k: int) -> bool
    decreases args.len() + 1 - i,
{
    if i == k {
        true
    } else if i > k || i < 0 || i >= args.len() {
        false
    } else {
        scan_reaches(args, scan_step(args, i), k)
    }
}

/// Whether the argument at `k` is an error when the scan stops there:
/// `--protocol` or `--port` with nothing after it, or `--port` followed by a
/// value that is not a `u16`.
pub open spec fn scan_fails_at(args: Seq<Seq<char>>, k: int) -> bool {
    &&& 0 <= k < args.len()
    &&& (takes_value(args[k]) && k + 1 >= args.len()) || (args[k] == "--port"@ && k + 1 < args.len()
        && spec_parse_u16(args[k + 1]) is None)
}

/// The arguments that the scan from `i` meets and that are neither option
/// words nor option values, in order.
pub open spec fn plain_args(args: Seq<Seq<char>>, i: int) -> Seq<Seq<char>>
    decreases args.len() + 1 - i,
{
    if i < 0 || i >= args.len() {
        Seq::empty()
    } else if is_option_word(args[i]) {
        plain_args(args, scan_step(args, i))
    } else {
        seq![args[i]] + plain_args(args, i + 1)
    }
}

proof fn lemma_scan_reaches_after(args: Seq<Seq<char>>, j: int, k: int)
    requires
        scan_reaches(args, j, k),
    ensures
        j <= k,
    decreases args.len() + 1 - j,
{
    if j != k && !(j > k || j < 0 || j >= args.len()) {
        lemma_scan_reaches_after(args, scan_step(args, j), k);
    }
}

proof fn lemma_reach_split(args: Seq<Seq<char>>, i: int, p: spec_fn(int) -> bool)
    requires
        0 <= i < args.len(),
    ensures
        (exists|k: int| #[trigger] scan_reaches(args, i, k) && p(k)) <==> (p(i) || exists|k: int|
            #[trigger] scan_reaches(args, scan_step(args, i), k) && p(k)),
{
    let st = scan_step(args, i);
    if exists|k: int| #[trigger] scan_reaches(args, i, k) && p(k) {
        let k = choose|k: int| #[trigger] scan_reaches(args, i, k) && p(k);
        if k != i {
            assert(scan_reaches(args, st, k));
        }
    }
    if exists|k: int| #[trigger] scan_reaches(args, st, k) && p(k) {
        let k = choose|k: int| #[trigger] scan_reaches(args, st, k) && p(k);
        lemma_scan_reaches_after(args, st, k);
        assert(scan_reaches(args, i, k));
    }
    assert(scan_reaches(args, i, i));
}

proof fn lemma_option_words_differ()
    ensures
        "--protocol"@ != "--json"@,
        "--port"@ != "--json"@,
        "--port"@ != "--protocol"@,
{
    reveal_strlit("--json");
    reveal_strlit("--protocol");
    reveal_strlit("--port");
    assert("--protocol"@.len() != "--json"@.len());
    assert("--port"@[2] != "--json"@[2]);
    assert("--port"@.len() != "--protocol"@.len());
}

/// What is gathered once the argument at `i` (with its value, when it takes
/// one) has been read into `acc`.
pub open spec fn scan_acc(args: Seq<Seq<char>>, i: int, acc: ParsedArgsModel) -> ParsedArgsModel {
    let a = args[i];
    if a == "--json"@ {
        ParsedArgsModel { json: true, ..acc }
    } else if a == "--protocol"@ {
        ParsedArgsModel { protocol: args[i + 1], ..acc }
    } else if a == "--port"@ {
        ParsedArgsModel { port: Some(spec_parse_u16(args[i + 1])->0), ..acc }
    } else {
        ParsedArgsModel { positionals: acc.positionals.push(a), ..acc }
    }
}

proof fn lemma_scan_unfold(args: Seq<Seq<char>>, i: int, acc: ParsedArgsModel)
    requires
        0 <= i < args.len(),
    ensures
        scan_fails_at(args, i) ==> parse_args_from(args, i, acc) is Err,
        !scan_fails_at(args, i) ==> scan_step(args, i) <= args.len() && parse_args_from(args, i, acc)
            == parse_args_from(args, scan_step(args, i), scan_acc(args, i, acc)),
{
    lemma_option_words_differ();
}

proof fn lemma_scan_err(args: Seq<Seq<char>>, i: int, acc: ParsedArgsModel)
    requires
        0 <= i <= args.len(),
    ensures
        parse_args_from(args, i, acc) is Err <==> exists|k: int| #[trigger] scan_reaches(args, i, k) && scan_fails_at(args, k),
    decreases args.len() - i,
{
    if i == args.len() {
        assert forall|k: int| #[trigger] scan_reaches(args, i, k) implies k == i by {}
    } else {
        lemma_reach_split(args, i, |k: int| scan_fails_at(args, k));
        lemma_scan_unfold(args, i, acc);
        if !scan_fails_at(args, i) {
            lemma_scan_err(args, scan_step(args, i), scan_acc(args, i, acc));
        }
    }
}

proof fn lemma_scan_ok(args: Seq<Seq<char>>, i: int, acc: ParsedArgsModel)
    requires
        0 <= i <= args.len(),
        parse_args_from(args, i, acc) is Ok,
    ensures
        ({
            let m = parse_args_from(args, i, acc)->Ok_0;
            &&& m.positionals == acc.positionals + plain_args(args, i)
            &&& m.json == (acc.json || exists|k: int|
                #[trigger] scan_reaches(args, i, k) && 0 <= k < args.len() && args[k] == "--json"@)
        }),
    decreases args.len() - i,
{
    if i == args.len() {
        assert forall|k: int| #[trigger] scan_reaches(args, i, k) implies k == i by {}
        assert(acc.positionals + Seq::<Seq<char>>::empty() =~= acc.positionals);
    } else {
        lemma_option_words_differ();
        lemma_reach_split(args, i, |k: int| 0 <= k < args.len() && args[k] == "--json"@);
        lemma_scan_unfold(args, i, acc);
        let st = scan_step(args, i);
        let acc2 = scan_acc(args, i, acc);
        lemma_scan_ok(args, st, acc2);
        let a = args[i];
        if !is_option_word(a) {
            assert(acc.positionals.push(a) + plain_args(args, i + 1) =~= acc.positionals + (seq![a]
                + plain_args(args, i + 1)));
        }
    }
}

proof fn lemma_scan_last(args: Seq<Seq<char>>, i: int, acc: ParsedArgsModel, w: Seq<char>)
    requires
        0 <= i <= args.len(),
        w == "--protocol"@ || w == "--port"@,
        parse_args_from(args, i, acc) is Ok,
    ensures
        ({
            let m = parse_args_from(args, i, acc)->Ok_0;
            &&& (forall|k: int| #[trigger] scan_reaches(args, i, k) && 0 <= k < args.len() ==> args[k] != w) ==> (if w
                == "--protocol"@ {
                m.protocol == acc.protocol
            } else {
                m.port == acc.port
            })
            &&& forall|k: int|
                #[trigger] scan_reaches(args, i, k) && 0 <= k < args.len() && args[k] == w && (forall|k2: int|
                    #[trigger] scan_reaches(args, i, k2) && k < k2 < args.len() ==> args[k2] != w) ==> (if w
                    == "--protocol"@ {
                    m.protocol == args[k + 1]
                } else {
                    m.port == Some(spec_parse_u16(args[k + 1])->0)
                })
        }),
    decreases args.len() - i,
{
    lemma_option_words_differ();
    if i < args.len() {
        lemma_scan_unfold(args, i, acc);
        let st = scan_step(args, i);
        let acc2 = scan_acc(args, i, acc);
        lemma_scan_last(args, st, acc2, w);
        let m = parse_args_from(args, i, acc)->Ok_0;
        assert(scan_reaches(args, i, i));
        assert forall|k: int| k != i && #[trigger] scan_reaches(args, st, k) implies scan_reaches(args, i, k) by {
            lemma_scan_reaches_after(args, st, k);
        }
        assert forall|k: int| k != i && #[trigger] scan_reaches(args, i, k) implies scan_reaches(args, st, k) by {}
        assert forall|k: int|
            #[trigger] scan_reaches(args, i, k) && 0 <= k < args.len() && args[k] == w && (forall|k2: int|
                #[trigger] scan_reaches(args, i, k2) && k < k2 < args.len() ==> args[k2] != w) implies (if w
                == "--protocol"@ {
                m.protocol == args[k + 1]
            } else {
                m.port == Some(spec_parse_u16(args[k + 1])->0)
            }) by {
            if k == i {
                assert forall|k2: int| #[trigger] scan_reaches(args, st, k2) && 0 <= k2 < args.len() implies args[k2] != w by {
                    lemma_scan_reaches_after(args, st, k2);
                    assert(scan_reaches(args, i, k2));
                }
            } else {
                assert(scan_reaches(args, st, k));
                assert forall|k2: int| #[trigger] scan_reaches(args, st, k2) && k < k2 < args.len() implies args[k2] != w by {
                    assert(scan_reaches(args, i, k2));
                }
            }
        }
    } else {
        assert forall|k: int| #[trigger] scan_reaches(args, i, k) implies k == i by {}
    }
}

/// How the arguments are read, stated over the left-to-right scan (in which
/// `--protocol` and `--port` take the next argument as their value): reading
/// fails exactly when the scan meets `--protocol` or `--port` with nothing
/// after it, or `--port` with a value that is not a `u16`. Otherwise the
/// positional arguments are the other arguments the scan meets, in order;
/// the JSON flag is set exactly when the scan meets `--json`; and the protocol
/// and port are the values of the last `--protocol` and `--port` the scan
/// meets, or `tcp` and none when it meets none.
pub proof fn lemma_parse_args_scan(args: Seq<Seq<char>>)
    ensures
        parse_args_spec(args) is Err <==> exists|k: int| #[trigger] scan_reaches(args, 0, k) && scan_fails_at(args, k),
        parse_args_spec(args) matches Ok(m) ==> {
            &&& m.positionals == plain_args(args, 0)
            &&& m.json == exists|k: int| #[trigger] scan_reaches(args, 0, k) && 0 <= k < args.len() && args[k] == "--json"@
            &&& (forall|k: int| #[trigger] scan_reaches(args, 0, k) && 0 <= k < args.len() ==> args[k] != "--protocol"@)
                ==> m.protocol == "tcp"@
            &&& forall|k: int|
                #[trigger] scan_reaches(args, 0, k) && 0 <= k < args.len() && args[k] == "--protocol"@ && (forall|k2: int|
                    #[trigger] scan_reaches(args, 0, k2) && k < k2 < args.len() ==> args[k2] != "--protocol"@)
                    ==> m.protocol == args[k + 1]
            &&& (forall|k: int| #[trigger] scan_reaches(args, 0, k) && 0 <= k < args.len() ==> args[k] != "--port"@)
                ==> m.port is None
            &&& forall|k: int|
                #[trigger] scan_reaches(args, 0, k) && 0 <= k < args.len() && args[k] == "--port"@ && (forall|k2: int|
                    #[trigger] scan_reaches(args, 0, k2) && k < k2 < args.len() ==> args[k2] != "--port"@)
                    ==> m.port == Some(spec_parse_u16(args[k + 1])->0)
        },
{
    reveal_strlit("--protocol");
    reveal_strlit("--port");
    assert("--port"@ != "--protocol"@) by {
        assert("--port"@.len() != "--protocol"@.len());
    }
    let acc = ParsedArgsModel { positionals: Seq::empty(), json: false, protocol: "tcp"@, port: None };
    lemma_scan_err(args, 0, acc);
    if parse_args_spec(args) is Ok {
        lemma_scan_ok(args, 0, acc);
        lemma_scan_last(args, 0, acc, "--protocol"@);
        lemma_scan_last(args, 0, acc, "--port"@);
    }
    assert(Seq::<Seq<char>>::empty() + plain_args(args, 0) =~= plain_args(args, 0));
}

/// The lowercase hexadecimal digit for `d < 16`.
pub open spec fn hex_digit(d: nat) -> char {
    if d < 10 {
        crate::text::digit_char(d)
    } else if d == 10 {
        'a'
    } else if d == 11 {
        'b'
    } else if d == 12 {
        'c'
    } else if d == 13 {
        'd'
    } else if d == 14 {
        'e'
    } else {
        'f'
    }
}

/// How a character is written inside a JSON string: quotes, backslashes and
/// control characters are escaped (`\n`, `\r`, `\t` by name, the others as
/// `\u00XX` in lowercase hex); everything else stands for itself.
pub open spec fn json_escape(c: char) -> Seq<char> {
    if c == '"' {
        seq!['\\', '"']
    } else if c == '\\' {
        seq!['\\', '\\']
    } else if c == '\n' {
        seq!['\\', 'n']
    } else if c == '\r' {
        seq!['\\', 'r']
    } else if c == '\t' {
        seq!['\\', 't']
    } else if (c as u32) < 0x20 {
        seq!['\\', 'u', '0', '0', hex_digit(((c as u32) / 16) as nat), hex_digit(((c as u32) % 16) as nat)]
    } else {
        seq![c]
    }
}

/// The JSON escapes of a character sequence, concatenated.
pub open spec fn json_escaped(s: Seq<char>) -> Seq<char>
    decreases s.len(),
{
    if s.len() == 0 {
        Seq::empty()
    } else {
        json_escaped(s.drop_last()) + json_escape(s.last())
    }
}

fn exec_hex_digit(d: u32) -> (c: char)
    requires
        d < 16,
    ensures
        c == hex_digit(d as nat),
{
    match d {
        0 => '0',
        1 => '1',
        2 => '2',
        3 => '3',
        4 => '4',
        5 => '5',
        6 => '6',
        7 => '7',
        8 => '8',
        9 => '9',
        10 => 'a',
        11 => 'b',
        12 => 'c',
        13 => 'd',
        14 => 'e',
        _ => 'f',
    }
}

/// A JSON string literal holding `s`.
pub fn json_str(s: &str) -> (r: String)
    ensures
        r@ == seq!['"'] + json_escaped(s@) + seq!['"'],
{
    let cs = chars_of(s);
    let mut out = String::new();
    push_char(&mut out, '"');
    let mut i: usize = 0;
    assert(cs@.take(0) =~= Seq::<char>::empty());
    while i < cs.len()
        invariant
            i <= cs@.len(),
            cs@ == s@,
            out@ == seq!['"'] + json_escaped(cs@.take(i as int)),
        decreases cs@.len() - i,
    {
        let c = cs[i];
        proof {
            assert(cs@.take(i + 1).drop_last() =~= cs@.take(i as int));
        }
        let ghost before = out@;
        if c == '"' {
            push_str(&mut out, "\\\"");
            proof {
                reveal_strlit("\\\"");
            }
        } else if c == '\\' {
            push_str(&mut out, "\\\\");
            proof {
                reveal_strlit("\\\\");
            }
        } else if c == '\n' {
            push_str(&mut out, "\\n");
            proof {
                reveal_strlit("\\n");
            }
        } else if c == '\r' {
            push_str(&mut out, "\\r");
            proof {
                reveal_strlit("\\r");
            }
        } else if c == '\t' {
            push_str(&mut out, "\\t");
            proof {
                reveal_strlit("\\t");
            }
        } else if (c as u32) < 0x20 {
            push_str(&mut out, "\\u00");
            proof {
                reveal_strlit("\\u00");
            }
            push_char(&mut out, exec_hex_digit((c as u32) / 16));
            push_char(&mut out, exec_hex_digit((c as u32) % 16));
        } else {
            push_char(&mut out, c);
        }
        assert(out@ =~= before + json_escape(c));
        i = i + 1;
    }
    assert(cs@.take(i as int) =~= s@);
    push_char(&mut out, '"');
    out
}

/// A JSON string literal holding the text, or `null` when there is none.
pub fn json_opt(s: Option<&str>) -> (r: String)
    ensures
        r@ == match s {
            Some(v) => seq!['"'] + json_escaped(v@) + seq!['"'],
            None => "null"@,
        },
{
    match s {
        Some(v) => json_str(v),
        None => "null".to_owned(),
    }
}

} // verus!
