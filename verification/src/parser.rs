//! Tokenizer and recursive-descent parser for the JunOS hierarchical config
//! format.
//!
//! A [`Statement`] has a `keyword` (the first token), `args` (tokens that
//! follow before `{` or `;`), and `children` (`None` for leaf statements
//! ending in `;`, `Some(..)` for `{ ... }` blocks).
//!
//! Bracket notation `application [ junos-http junos-https ];` is flattened so
//! the bracketed items are appended to `args` and `children` stays `None`.

use vstd::prelude::*;

use crate::text::{chars_of, is_whitespace, push_char, spec_is_whitespace, string_of};

verus! {

/// A parsed JunOS statement.
#[derive(Debug, PartialEq, Eq)]
pub struct Statement {
    pub keyword: String,
    pub args: Vec<String>,
    pub children: Option<Vec<Statement>>,
}

/// Model of a [`Statement`].
pub struct StmtModel {
    pub keyword: Seq<char>,
    pub args: Seq<Seq<char>>,
    pub children: Option<Seq<StmtModel>>,
}

impl Statement {
    /// The model of this statement.
    pub open spec fn model(self) -> StmtModel
        decreases self,
    {
        StmtModel {
            keyword: self.keyword@,
            args: strings_view(self.args@),
            children: match self.children {
                Some(c) => Some(stmts_model(c@)),
                None => None,
            },
        }
    }
}

/// The models of a list of statements.
pub open spec fn stmts_model(s: Seq<Statement>) -> Seq<StmtModel>
    decreases s,
{
    if s.len() == 0 {
        Seq::empty()
    } else {
        stmts_model(s.subrange(0, s.len() - 1)).push(s[s.len() - 1].model())
    }
}

/// The characters that form tokens of their own.
pub open spec fn is_structural_char(c: char) -> bool {
    c == '{' || c == '}' || c == '[' || c == ']' || c == ';'
}

fn exec_is_structural_char(c: char) -> (b: bool)
    ensures
        b == is_structural_char(c),
{
    c == '{' || c == '}' || c == '[' || c == ']' || c == ';'
}

/// End of a `#` comment starting before `j`: the next newline, or the end.
pub open spec fn line_end(cs: Seq<char>, j: int) -> int
    decreases cs.len() - j,
{
    if j < 0 || j >= cs.len() || cs[j] == '\n' {
        j
    } else {
        line_end(cs, j + 1)
    }
}

/// Position of the `*` of the first `*/` at or after `j`, or the last position
/// when there is none.
pub open spec fn comment_end(cs: Seq<char>, j: int) -> int
    decreases cs.len() - j,
{
    if j < 0 || !(j + 1 < cs.len()) || (cs[j] == '*' && cs[j + 1] == '/') {
        j
    } else {
        comment_end(cs, j + 1)
    }
}

/// End of a bare word starting at `j`: the next whitespace or structural
/// character, or the end.
pub open spec fn word_end(cs: Seq<char>, j: int) -> int
    decreases cs.len() - j,
{
    if j < 0 || j >= cs.len() || spec_is_whitespace(cs[j]) || is_structural_char(cs[j]) {
        j
    } else {
        word_end(cs, j + 1)
    }
}

/// Contents of a double-quoted string from `j` up to the closing quote, with
/// each backslash taking the next character literally; and the position of
/// the closing quote (or the end).
pub open spec fn quoted(cs: Seq<char>, j: int) -> (Seq<char>, int)
    decreases cs.len() - j,
{
    if j < 0 || j >= cs.len() || cs[j] == '"' {
        (Seq::empty(), j)
    } else if cs[j] == '\\' && j + 1 < cs.len() {
        let (r, e) = quoted(cs, j + 2);
        (seq![cs[j + 1]] + r, e)
    } else {
        let (r, e) = quoted(cs, j + 1);
        (seq![cs[j]] + r, e)
    }
}

pub proof fn lemma_scan_bounds(cs: Seq<char>, j: int)
    requires
        0 <= j <= cs.len(),
    ensures
        j <= line_end(cs, j) <= cs.len(),
        j <= comment_end(cs, j),
        comment_end(cs, j) < cs.len() || comment_end(cs, j) == j,
        j <= word_end(cs, j) <= cs.len(),
        j <= quoted(cs, j).1 <= cs.len(),
    decreases cs.len() - j,
{
    if j < cs.len() {
        lemma_scan_bounds(cs, j + 1);
        if j + 2 <= cs.len() {
            lemma_scan_bounds(cs, j + 2);
        }
    }
}

/// The tokens of `cs` from position `i` on. Whitespace separates tokens;
/// `#` comments run to the end of the line and `/* ... */` comments to their
/// closing marker; each structural character is a token of its own; a
/// double-quoted string is one token without its quotes; anything else runs
/// to the next whitespace or structural character.
pub open spec fn tokens_from(cs: Seq<char>, i: int) -> Seq<Seq<char>>
    decreases cs.len() + 1 - i,
{
    if i < 0 || i >= cs.len() {
        Seq::empty()
    } else {
        let c = cs[i];
        if spec_is_whitespace(c) {
            tokens_from(cs, i + 1)
        } else if c == '#' {
            let e = line_end(cs, i);
            if i < e <= cs.len() {
                tokens_from(cs, e)
            } else {
                Seq::empty()
            }
        } else if c == '/' && i + 1 < cs.len() && cs[i + 1] == '*' {
            let k = comment_end(cs, i + 2);
            let e = if k + 1 < cs.len() {
                k + 2
            } else {
                cs.len() as int
            };
            if i < e <= cs.len() {
                tokens_from(cs, e)
            } else {
                Seq::empty()
            }
        } else if is_structural_char(c) {
            seq![seq![c]] + tokens_from(cs, i + 1)
        } else if c == '"' {
            let (s, e) = quoted(cs, i + 1);
            if i < e <= cs.len() {
                seq![s] + tokens_from(cs, e + 1)
            } else {
                Seq::empty()
            }
        } else {
            let e = word_end(cs, i);
            if i < e <= cs.len() {
                seq![cs.subrange(i, e)] + tokens_from(cs, e)
            } else {
                Seq::empty()
            }
        }
    }
}

/// The tokens of a whole text.
pub open spec fn spec_tokenize(s: Seq<char>) -> Seq<Seq<char>> {
    tokens_from(s, 0)
}

/// The characters of `s` from position `i` on, with whitespace left out.
pub open spec fn non_ws_from(s: Seq<char>, i: int) -> Seq<char>
    decreases s.len() - i,
{
    if i < 0 || i >= s.len() {
        Seq::empty()
    } else if spec_is_whitespace(s[i]) {
        non_ws_from(s, i + 1)
    } else {
        seq![s[i]] + non_ws_from(s, i + 1)
    }
}

/// The tokens `ts` written one after the other.
pub open spec fn concat_all(ts: Seq<Seq<char>>) -> Seq<char>
    decreases ts.len(),
{
    if ts.len() == 0 {
        Seq::empty()
    } else {
        ts[0] + concat_all(ts.skip(1))
    }
}

/// Text without quoted strings and comments: no `"`, no `#` and no `/*`.
pub open spec fn plain_text(s: Seq<char>) -> bool {
    forall|i: int|
        0 <= i < s.len() ==> #[trigger] s[i] != '"' && s[i] != '#' && !(s[i] == '/' && i + 1 < s.len()
            && s[i + 1] == '*')
}

/// A non-empty token without whitespace that is either one structural
/// character or holds none.
pub open spec fn is_clean_token(t: Seq<char>) -> bool {
    &&& t.len() > 0
    &&& forall|k: int| 0 <= k < t.len() ==> !spec_is_whitespace(#[trigger] t[k])
    &&& (is_structural_token(t) || forall|k: int| 0 <= k < t.len() ==> !is_structural_char(#[trigger] t[k]))
}

proof fn lemma_concat_all_cons(x: Seq<char>, r: Seq<Seq<char>>)
    ensures
        concat_all(seq![x] + r) == x + concat_all(r),
{
    assert((seq![x] + r)[0] == x);
    assert((seq![x] + r).skip(1) =~= r);
}

proof fn lemma_word_span(s: Seq<char>, j: int)
    requires
        0 <= j <= s.len(),
    ensures
        j <= word_end(s, j) <= s.len(),
        forall|k: int| j <= k < word_end(s, j) ==> !spec_is_whitespace(#[trigger] s[k]) && !is_structural_char(s[k]),
        non_ws_from(s, j) == s.subrange(j, word_end(s, j)) + non_ws_from(s, word_end(s, j)),
    decreases s.len() - j,
{
    if j == s.len() || spec_is_whitespace(s[j]) || is_structural_char(s[j]) {
        assert(s.subrange(j, j) + non_ws_from(s, j) =~= non_ws_from(s, j));
    } else {
        lemma_word_span(s, j + 1);
        let we = word_end(s, j);
        assert(s.subrange(j, we) =~= seq![s[j]] + s.subrange(j + 1, we));
        assert(seq![s[j]] + (s.subrange(j + 1, we) + non_ws_from(s, we)) =~= seq![s[j]] + s.subrange(j + 1, we)
            + non_ws_from(s, we));
    }
}

proof fn lemma_tokens_from_plain(s: Seq<char>, i: int)
    requires
        plain_text(s),
        0 <= i <= s.len(),
    ensures
        concat_all(tokens_from(s, i)) == non_ws_from(s, i),
        forall|k: int| 0 <= k < tokens_from(s, i).len() ==> is_clean_token(#[trigger] tokens_from(s, i)[k]),
    decreases s.len() - i,
{
    if i < s.len() {
        let c = s[i];
        assert(c != '"' && c != '#' && !(c == '/' && i + 1 < s.len() && s[i + 1] == '*'));
        if spec_is_whitespace(c) {
            lemma_tokens_from_plain(s, i + 1);
        } else if is_structural_char(c) {
            lemma_tokens_from_plain(s, i + 1);
            let rest = tokens_from(s, i + 1);
            lemma_concat_all_cons(seq![c], rest);
            assert forall|k: int| 0 <= k < tokens_from(s, i).len() implies is_clean_token(
                #[trigger] tokens_from(s, i)[k],
            ) by {
                if k > 0 {
                    assert(tokens_from(s, i)[k] == rest[k - 1]);
                } else {
                    assert(tokens_from(s, i)[0] == seq![c]);
                    assert(is_structural_token(seq![c]));
                }
            }
        } else {
            lemma_word_span(s, i);
            lemma_word_span(s, i + 1);
            let e = word_end(s, i);
            lemma_tokens_from_plain(s, e);
            let t = s.subrange(i, e);
            let rest = tokens_from(s, e);
            lemma_concat_all_cons(t, rest);
            assert forall|k: int| 0 <= k < tokens_from(s, i).len() implies is_clean_token(
                #[trigger] tokens_from(s, i)[k],
            ) by {
                if k > 0 {
                    assert(tokens_from(s, i)[k] == rest[k - 1]);
                } else {
                    assert(tokens_from(s, i)[0] == t);
                    assert forall|m: int| 0 <= m < t.len() implies !spec_is_whitespace(#[trigger] t[m])
                        && !is_structural_char(t[m]) by {
                        assert(t[m] == s[i + m]);
                    }
                }
            }
        }
    }
}

/// In text without quoted strings and comments, the tokens written one after
/// the other give back the text with its whitespace left out, and every
/// token is non-empty, holds no whitespace, and is either a structural
/// character on its own or holds none.
pub proof fn lemma_tokenize_plain_text(s: Seq<char>)
    requires
        plain_text(s),
    ensures
        concat_all(spec_tokenize(s)) == non_ws_from(s, 0),
        forall|k: int| 0 <= k < spec_tokenize(s).len() ==> is_clean_token(#[trigger] spec_tokenize(s)[k]),
{
    lemma_tokens_from_plain(s, 0);
}

/// Whether `c` is one of the 25 characters with the Unicode `White_Space`
/// property (PropList.txt), listed one by one.
pub open spec fn white_space_char(c: char) -> bool {
    ||| c == '\u{9}' || c == '\u{a}' || c == '\u{b}' || c == '\u{c}' || c == '\u{d}'
    ||| c == '\u{20}' || c == '\u{85}' || c == '\u{a0}' || c == '\u{1680}'
    ||| c == '\u{2000}' || c == '\u{2001}' || c == '\u{2002}' || c == '\u{2003}' || c == '\u{2004}'
    ||| c == '\u{2005}' || c == '\u{2006}' || c == '\u{2007}' || c == '\u{2008}' || c == '\u{2009}'
    ||| c == '\u{200a}' || c == '\u{2028}' || c == '\u{2029}' || c == '\u{202f}' || c == '\u{205f}'
    ||| c == '\u{3000}'
}

/// In text without quoted strings and comments, tokens are separated by every
/// `White_Space` character (tab, line feed, vertical tab, form feed, carriage
/// return, space, and the others of the property): no token holds one, and
/// the tokens written one after the other give back the text without them.
pub proof fn lemma_tokens_split_at_white_space(s: Seq<char>)
    requires
        plain_text(s),
    ensures
        forall|k: int, m: int|
            0 <= k < spec_tokenize(s).len() && 0 <= m < spec_tokenize(s)[k].len() ==> !white_space_char(
                #[trigger] spec_tokenize(s)[k][m],
            ),
        concat_all(spec_tokenize(s)) == s.filter(|c: char| !white_space_char(c)),
{
    lemma_tokenize_plain_text(s);
    assert forall|c: char| #[trigger] spec_is_whitespace(c) == white_space_char(c) by {}
    assert forall|k: int, m: int|
        0 <= k < spec_tokenize(s).len() && 0 <= m < spec_tokenize(s)[k].len() implies !white_space_char(
            #[trigger] spec_tokenize(s)[k][m],
        ) by {
        assert(is_clean_token(spec_tokenize(s)[k]));
        assert(!spec_is_whitespace(spec_tokenize(s)[k][m]));
    }
    lemma_non_ws_filter(s, 0);
    assert(s.skip(0) =~= s);
}

proof fn lemma_non_ws_filter(s: Seq<char>, i: int)
    requires
        0 <= i <= s.len(),
    ensures
        non_ws_from(s, i) == s.skip(i).filter(|c: char| !white_space_char(c)),
    decreases s.len() - i,
{
    let f = |c: char| !white_space_char(c);
    assert forall|c: char| #[trigger] spec_is_whitespace(c) == white_space_char(c) by {}
    if i == s.len() {
        assert(s.skip(i) =~= Seq::<char>::empty());
        assert(Seq::<char>::empty().filter(f) =~= Seq::<char>::empty()) by {
            reveal(Seq::filter);
        }
    } else {
        lemma_non_ws_filter(s, i + 1);
        assert(s.skip(i) =~= seq![s[i]] + s.skip(i + 1));
        Seq::filter_distributes_over_add(seq![s[i]], s.skip(i + 1), f);
        assert(seq![s[i]].filter(f) =~= if f(s[i]) { seq![s[i]] } else { Seq::empty() }) by {
            reveal(Seq::filter);
            let one = seq![s[i]];
            assert(one.len() == 1);
            assert(one.drop_last() =~= Seq::<char>::empty());
            assert(one.last() == s[i]);
            assert(Seq::<char>::empty().filter(f) =~= Seq::<char>::empty());
            assert(one.filter(f) == if f(one.last()) {
                one.drop_last().filter(f).push(one.last())
            } else {
                one.drop_last().filter(f)
            });
            assert(Seq::<char>::empty().push(s[i]) =~= one);
        }
        if f(s[i]) {
        } else {
            assert(Seq::<char>::empty() + s.skip(i + 1).filter(f) =~= s.skip(i + 1).filter(f));
        }
    }
}

/// The character sequences of a list of strings.
pub open spec fn strings_view(v: Seq<String>) -> Seq<Seq<char>> {
    v.map_values(|s: String| s@)
}

/// Convert JunOS config text to a flat list of tokens.
pub fn tokenize(text: &str) -> (tokens: Vec<String>)
    ensures
        strings_view(tokens@) == spec_tokenize(text@),
{
    let chars = chars_of(text);
    let n = chars.len();
    let ghost cs = chars@;
    let mut tokens: Vec<String> = Vec::new();
    let mut i: usize = 0;
    assert(strings_view(tokens@) =~= Seq::<Seq<char>>::empty());
    while i < n
        invariant
            cs == chars@,
            n == cs.len(),
            i <= n + 1,
            strings_view(tokens@) + tokens_from(cs, i as int) == tokens_from(cs, 0),
        decreases n + 1 - i,
    {
        let ghost i0 = i as int;
        let ghost before = strings_view(tokens@);
        let c = chars[i];
        proof {
            lemma_scan_bounds(cs, i0);
        }
        if is_whitespace(c) {
            i = i + 1;
            continue;
        }
        // Single-line comment
        if c == '#' {
            while i < n && chars[i] != '\n'
                invariant
                    cs == chars@,
                    n == cs.len(),
                    i0 <= i <= n,
                    line_end(cs, i as int) == line_end(cs, i0),
                decreases n - i,
            {
                i = i + 1;
            }
            continue;
        }
        // Block comment
        if c == '/' && i + 1 < n && chars[i + 1] == '*' {
            i = i + 2;
            proof {
                lemma_scan_bounds(cs, i as int);
            }
            let ghost j0 = i as int;
            while n - i > 1 && !(chars[i] == '*' && chars[i + 1] == '/')
                invariant
                    cs == chars@,
                    n == cs.len(),
                    j0 <= i <= n,
                    comment_end(cs, i as int) == comment_end(cs, j0),
                decreases n - i,
            {
                i = i + 1;
            }
            i = if n - i > 1 {
                i + 2
            } else {
                n
            };
            continue;
        }
        // Structural single-char tokens
        if exec_is_structural_char(c) {
            let mut t = String::new();
            push_char(&mut t, c);
            tokens.push(t);
            proof {
                assert(strings_view(tokens@) =~= before + seq![seq![c]]);
            }
            i = i + 1;
            continue;
        }
        // Double-quoted string: content without the surrounding quotes
        if c == '"' {
            i = i + 1;
            proof {
                lemma_scan_bounds(cs, i as int);
            }
            let ghost j0 = i as int;
            let mut s = String::new();
            while i < n && chars[i] != '"'
                invariant
                    cs == chars@,
                    n == cs.len(),
                    j0 <= i <= n,
                    s@ + quoted(cs, i as int).0 == quoted(cs, j0).0,
                    quoted(cs, i as int).1 == quoted(cs, j0).1,
                decreases n - i,
            {
                let ghost k = i as int;
                let ghost old_s = s@;
                if chars[i] == '\\' && i + 1 < n {
                    i = i + 1;
                }
                push_char(&mut s, chars[i]);
                i = i + 1;
                proof {
                    assert(s@ + quoted(cs, i as int).0 =~= old_s + quoted(cs, k).0);
                }
            }
            tokens.push(s);
            proof {
                assert(strings_view(tokens@) =~= before + seq![quoted(cs, j0).0]);
            }
            if i < n {
                i = i + 1;
            } else {
                assert(tokens_from(cs, n + 1) =~= tokens_from(cs, n as int));
            }
            continue;
        }
        // Bare word (identifier, IP, etc.)
        let start = i;
        while i < n && !is_whitespace(chars[i]) && !exec_is_structural_char(chars[i])
            invariant
                cs == chars@,
                n == cs.len(),
                start <= i <= n,
                word_end(cs, i as int) == word_end(cs, start as int),
            decreases n - i,
        {
            i = i + 1;
        }
        if i > start {
            tokens.push(string_of(&chars, start, i));
            proof {
                assert(strings_view(tokens@) =~= before + seq![cs.subrange(start as int, i as int)]);
            }
        }
    }
    assert(tokens_from(cs, i as int) =~= Seq::<Seq<char>>::empty());
    tokens
}

fn clone_strings(v: &Vec<String>) -> (r: Vec<String>)
    ensures
        strings_view(r@) == strings_view(v@),
{
    let mut r: Vec<String> = Vec::new();
    let mut i: usize = 0;
    while i < v.len()
        invariant
            i <= v@.len(),
            strings_view(r@) == strings_view(v@).take(i as int),
        decreases v@.len() - i,
    {
        let ghost before = r@;
        r.push(v[i].clone());
        assert(strings_view(r@) =~= strings_view(before).push(v@[i as int]@));
        assert(strings_view(r@) =~= strings_view(v@).take(i + 1));
        i = i + 1;
    }
    assert(strings_view(v@).take(i as int) =~= strings_view(v@));
    r
}

impl Clone for Statement {
    fn clone(&self) -> (r: Self)
        ensures
            r.model() == self.model(),
        decreases self,
    {
        let children = match &self.children {
            Some(c) => {
                let mut out: Vec<Statement> = Vec::new();
                let mut i: usize = 0;
                proof {
                    lemma_stmts_model(c@);
                }
                while i < c.len()
                    invariant
                        i <= c@.len(),
                        stmts_model(c@).len() == c@.len(),
                        forall|k: int| 0 <= k < c@.len() ==> #[trigger] stmts_model(c@)[k] == c@[k].model(),
                        stmts_model(out@) == stmts_model(c@).take(i as int),
                        self.children == Some(*c),
                    decreases c@.len() - i,
                {
                    let ghost before = out@;
                    proof {
                        assert(decreases_to!(*self => self.children));
                        assert(decreases_to!(self.children => self.children->0));
                        assert(decreases_to!(self.children->0 => self.children->0@));
                        assert(decreases_to!(self.children->0@ => self.children->0@[i as int]));
                    }
                    let s = c[i].clone();
                    out.push(s);
                    proof {
                        assert(out@.subrange(0, out@.len() - 1) =~= before);
                        assert(stmts_model(out@) =~= stmts_model(c@).take(i + 1));
                    }
                    i = i + 1;
                }
                assert(stmts_model(c@).take(i as int) =~= stmts_model(c@));
                Some(out)
            },
            None => None,
        };
        Statement { keyword: self.keyword.clone(), args: clone_strings(&self.args), children }
    }
}

/// The models of a list of statements are the models of its elements.
pub proof fn lemma_stmts_model(s: Seq<Statement>)
    ensures
        stmts_model(s).len() == s.len(),
        forall|i: int| 0 <= i < s.len() ==> #[trigger] stmts_model(s)[i] == s[i].model(),
    decreases s.len(),
{
    if s.len() > 0 {
        lemma_stmts_model(s.subrange(0, s.len() - 1));
    }
}

/// Whether a token is one of the structural characters on its own.
pub open spec fn is_structural_token(t: Seq<char>) -> bool {
    t.len() == 1 && is_structural_char(t[0])
}

/// End of the arguments of a statement, starting at `j`: the next structural
/// token, or the end.
pub open spec fn args_end(toks: Seq<Seq<char>>, j: int) -> int
    decreases toks.len() - j,
{
    if j < 0 || j >= toks.len() || is_structural_token(toks[j]) {
        j
    } else {
        args_end(toks, j + 1)
    }
}

/// Position of the next `]` at or after `j`, or the end.
pub open spec fn bracket_end(toks: Seq<Seq<char>>, j: int) -> int
    decreases toks.len() - j,
{
    if j < 0 || j >= toks.len() || toks[j] == seq![']'] {
        j
    } else {
        bracket_end(toks, j + 1)
    }
}

pub proof fn lemma_token_scan_bounds(toks: Seq<Seq<char>>, j: int)
    requires
        0 <= j <= toks.len(),
    ensures
        j <= args_end(toks, j) <= toks.len(),
        j <= bracket_end(toks, j) <= toks.len(),
    decreases toks.len() - j,
{
    if j < toks.len() {
        lemma_token_scan_bounds(toks, j + 1);
    }
}

/// The statements of a block starting at `pos`, up to a closing `}` or the
/// end, and the position after them.
pub open spec fn parse_block_spec(toks: Seq<Seq<char>>, pos: int) -> (Seq<StmtModel>, int)
    decreases toks.len() - pos, 1nat,
{
    if pos < 0 || pos >= toks.len() || toks[pos] == seq!['}'] {
        (Seq::empty(), pos)
    } else {
        let (s, p1) = parse_statement_spec(toks, pos);
        if pos < p1 <= toks.len() {
            let (rest, p2) = parse_block_spec(toks, p1);
            (seq![s] + rest, p2)
        } else {
            (seq![s], p1)
        }
    }
}

/// The statement starting at `pos` and the position after it: a keyword,
/// the non-structural tokens that follow as arguments, then `;` (a leaf),
/// `[ .. ]` with an optional `;` (a leaf whose bracketed items are appended to
/// the arguments), `{ .. }` (a block with children), or nothing more.
pub open spec fn parse_statement_spec(toks: Seq<Seq<char>>, pos: int) -> (StmtModel, int)
    decreases toks.len() - pos, 0nat,
{
    if pos < 0 || pos >= toks.len() {
        (StmtModel { keyword: Seq::empty(), args: Seq::empty(), children: None }, pos)
    } else {
        let kw = toks[pos];
        let j = args_end(toks, pos + 1);
        let args = toks.subrange(pos + 1, j);
        if j >= toks.len() {
            (StmtModel { keyword: kw, args, children: None }, j)
        } else if toks[j] == seq![';'] {
            (StmtModel { keyword: kw, args, children: None }, j + 1)
        } else if toks[j] == seq!['['] {
            let k = bracket_end(toks, j + 1);
            let p = if k < toks.len() {
                k + 1
            } else {
                k
            };
            let p2 = if p < toks.len() && toks[p] == seq![';'] {
                p + 1
            } else {
                p
            };
            (StmtModel { keyword: kw, args: args + toks.subrange(j + 1, k), children: None }, p2)
        } else if toks[j] == seq!['{'] {
            if pos < j + 1 <= toks.len() {
                let (children, q) = parse_block_spec(toks, j + 1);
                let q2 = if 0 <= q < toks.len() && toks[q] == seq!['}'] {
                    q + 1
                } else {
                    q
                };
                (StmtModel { keyword: kw, args, children: Some(children) }, q2)
            } else {
                (StmtModel { keyword: kw, args, children: None }, j)
            }
        } else {
            (StmtModel { keyword: kw, args, children: None }, j)
        }
    }
}

/// The statements of a whole token list.
pub open spec fn spec_parse(toks: Seq<Seq<char>>) -> Seq<StmtModel> {
    parse_block_spec(toks, 0).0
}

/// The statements of a whole config text.
pub open spec fn spec_parse_config(text: Seq<char>) -> Seq<StmtModel> {
    spec_parse(spec_tokenize(text))
}

/// Parsing only ever moves forward and never past the end.
pub proof fn lemma_parse_progress(toks: Seq<Seq<char>>, pos: int)
    requires
        0 <= pos <= toks.len(),
    ensures
        pos <= parse_block_spec(toks, pos).1 <= toks.len(),
        pos < toks.len() ==> pos < parse_statement_spec(toks, pos).1 <= toks.len(),
    decreases toks.len() - pos, 1nat,
{
    if pos < toks.len() {
        lemma_statement_progress(toks, pos);
        let p1 = parse_statement_spec(toks, pos).1;
        if toks[pos] != seq!['}'] {
            lemma_parse_progress(toks, p1);
        }
    }
}

pub proof fn lemma_statement_progress(toks: Seq<Seq<char>>, pos: int)
    requires
        0 <= pos < toks.len(),
    ensures
        pos < parse_statement_spec(toks, pos).1 <= toks.len(),
    decreases toks.len() - pos, 0nat,
{
    lemma_token_scan_bounds(toks, pos + 1);
    let j = args_end(toks, pos + 1);
    if j < toks.len() {
        lemma_token_scan_bounds(toks, j + 1);
        if toks[j] == seq!['{'] {
            lemma_parse_progress(toks, j + 1);
        }
    }
}

/// The tokens that write out a statement: its keyword and arguments, then
/// `;` for a leaf, or its children between `{` and `}`.
pub open spec fn ser_stmt(s: StmtModel) -> Seq<Seq<char>>
    decreases s, 1nat,
{
    seq![s.keyword] + s.args + match s.children {
        Some(c) => seq![seq!['{']] + ser_stmts(c) + seq![seq!['}']],
        None => seq![seq![';']],
    }
}

/// The tokens that write out a list of statements, one after the other.
pub open spec fn ser_stmts(ss: Seq<StmtModel>) -> Seq<Seq<char>>
    decreases ss, 0nat,
{
    if ss.len() == 0 {
        Seq::empty()
    } else {
        ser_stmt(ss[0]) + ser_stmts(ss.subrange(1, ss.len() as int))
    }
}

/// Whether a statement can be written out as tokens and read back: its
/// keyword and arguments, and those of its children, are not structural
/// tokens.
pub open spec fn serializable(s: StmtModel) -> bool
    decreases s, 1nat,
{
    &&& !is_structural_token(s.keyword)
    &&& forall|k: int| 0 <= k < s.args.len() ==> !is_structural_token(#[trigger] s.args[k])
    &&& match s.children {
        Some(c) => serializable_all(c),
        None => true,
    }
}

/// Whether every statement of a list can be written out and read back.
pub open spec fn serializable_all(ss: Seq<StmtModel>) -> bool
    decreases ss, 0nat,
{
    if ss.len() == 0 {
        true
    } else {
        serializable(ss[0]) && serializable_all(ss.subrange(1, ss.len() as int))
    }
}

proof fn lemma_args_end_run(toks: Seq<Seq<char>>, j: int, e: int)
    requires
        0 <= j <= e < toks.len(),
        forall|k: int| j <= k < e ==> !is_structural_token(#[trigger] toks[k]),
        is_structural_token(toks[e]),
    ensures
        args_end(toks, j) == e,
    decreases e - j,
{
    if j < e {
        lemma_args_end_run(toks, j + 1, e);
    }
}

proof fn lemma_parse_ser_stmt(s: StmtModel, pre: Seq<Seq<char>>, tail: Seq<Seq<char>>)
    requires
        serializable(s),
    ensures
        parse_statement_spec(pre + ser_stmt(s) + tail, pre.len() as int) == (s, pre.len() + ser_stmt(s).len() as int),
    decreases s, 1nat,
{
    let toks = pre + ser_stmt(s) + tail;
    let pos = pre.len() as int;
    let n = s.args.len() as int;
    let j = pos + 1 + n;
    assert(toks[pos] == s.keyword);
    assert forall|k: int| pos + 1 <= k < j implies !is_structural_token(#[trigger] toks[k]) by {
        assert(toks[k] == s.args[k - pos - 1]);
    }
    assert(toks.subrange(pos + 1, j) =~= s.args);
    match s.children {
        None => {
            assert(toks[j] == seq![';']);
            lemma_args_end_run(toks, pos + 1, j);
        },
        Some(c) => {
            assert(toks[j] == seq!['{']);
            lemma_args_end_run(toks, pos + 1, j);
            assert(seq!['{'] != seq![';']) by {
                assert(seq!['{'][0] != seq![';'][0]);
            }
            assert(seq!['{'] != seq!['[']) by {
                assert(seq!['{'][0] != seq!['['][0]);
            }
            let pre2 = pre + seq![s.keyword] + s.args + seq![seq!['{']];
            let tail2 = seq![seq!['}']] + tail;
            assert(toks =~= pre2 + ser_stmts(c) + tail2);
            assert(pre2.len() == j + 1);
            assert(decreases_to!(s => s.children));
            assert(decreases_to!(s.children => c));
            lemma_parse_ser_stmts(c, pre2, tail2);
            let q = j + 1 + ser_stmts(c).len();
            assert(toks[q] == seq!['}']);
        },
    }
}

proof fn lemma_parse_ser_stmts(ss: Seq<StmtModel>, pre: Seq<Seq<char>>, tail: Seq<Seq<char>>)
    requires
        serializable_all(ss),
        tail.len() == 0 || tail[0] == seq!['}'],
    ensures
        parse_block_spec(pre + ser_stmts(ss) + tail, pre.len() as int) == (ss, pre.len() + ser_stmts(ss).len() as int),
    decreases ss, 0nat,
{
    let toks = pre + ser_stmts(ss) + tail;
    let pos = pre.len() as int;
    if ss.len() == 0 {
        assert(ss =~= Seq::<StmtModel>::empty());
        if pos < toks.len() {
            assert(toks[pos] == tail[0]);
        }
    } else {
        let s0 = ss[0];
        let rest = ss.subrange(1, ss.len() as int);
        assert(serializable(s0));
        assert(toks =~= pre + ser_stmt(s0) + (ser_stmts(rest) + tail));
        assert(ser_stmt(s0)[0] == s0.keyword);
        assert(toks[pos] == s0.keyword);
        assert(s0.keyword != seq!['}']) by {
            if s0.keyword == seq!['}'] {
                assert(is_structural_token(s0.keyword));
            }
        }
        lemma_parse_ser_stmt(s0, pre, ser_stmts(rest) + tail);
        let pre2 = pre + ser_stmt(s0);
        assert(toks =~= pre2 + ser_stmts(rest) + tail);
        lemma_parse_ser_stmts(rest, pre2, tail);
        assert(seq![s0] + rest =~= ss);
    }
}

/// Reading back the tokens that write out a list of statements gives the
/// list again, when no keyword or argument (at any depth) is a structural
/// token.
pub proof fn lemma_parse_serialized(ss: Seq<StmtModel>)
    requires
        serializable_all(ss),
    ensures
        spec_parse(ser_stmts(ss)) == ss,
{
    lemma_parse_ser_stmts(ss, Seq::empty(), Seq::empty());
    assert(Seq::<Seq<char>>::empty() + ser_stmts(ss) + Seq::<Seq<char>>::empty() =~= ser_stmts(ss));
}

fn is_single(s: &String, c: char) -> (b: bool)
    ensures
        b == (s@ == seq![c]),
{
    let st = s.as_str();
    if st.unicode_len() == 1 {
        let d = st.get_char(0);
        assert(s@ == seq![c] <==> d == c) by {
            if d == c {
                assert(s@ =~= seq![c]);
            }
        }
        d == c
    } else {
        false
    }
}

fn is_structural(s: &String) -> (b: bool)
    ensures
        b == is_structural_token(s@),
{
    let st = s.as_str();
    if st.unicode_len() == 1 {
        exec_is_structural_char(st.get_char(0))
    } else {
        false
    }
}

fn copy_string(s: &String) -> (r: String)
    ensures
        r@ == s@,
{
    s.clone()
}

fn parse_block_at(tokens: &[String], pos0: usize) -> (r: (Vec<Statement>, usize))
    requires
        pos0 <= tokens@.len(),
    ensures
        stmts_model(r.0@) == parse_block_spec(strings_view(tokens@), pos0 as int).0,
        r.1 == parse_block_spec(strings_view(tokens@), pos0 as int).1,
    decreases tokens@.len() - pos0, 1nat,
{
    let ghost tv = strings_view(tokens@);
    let mut stmts: Vec<Statement> = Vec::new();
    let mut pos = pos0;
    assert(stmts_model(stmts@) + parse_block_spec(tv, pos as int).0 =~= parse_block_spec(tv, pos0 as int).0);
    while pos < tokens.len() && !is_single(&tokens[pos], '}')
        invariant
            pos0 <= pos <= tokens@.len(),
            tv == strings_view(tokens@),
            stmts_model(stmts@) + parse_block_spec(tv, pos as int).0 == parse_block_spec(tv, pos0 as int).0,
            parse_block_spec(tv, pos as int).1 == parse_block_spec(tv, pos0 as int).1,
        decreases tokens@.len() - pos,
    {
        let ghost before = stmts@;
        let (parsed, p1) = parse_statement_at(tokens, pos);
        let s = parsed.unwrap();
        stmts.push(s);
        proof {
            assert(stmts@.subrange(0, stmts@.len() - 1) =~= before);
            assert(stmts_model(stmts@) == stmts_model(before).push(s.model()));
            assert(stmts_model(stmts@) + parse_block_spec(tv, p1 as int).0 =~= stmts_model(before)
                + parse_block_spec(tv, pos as int).0);
        }
        pos = p1;
    }
    (stmts, pos)
}

/// Parses the statement that starts at `pos0`. When no token is left there,
/// there is no statement and the position stays where it was; otherwise the
/// statement is returned with the position after it, which is further on.
fn parse_statement_at(tokens: &[String], pos0: usize) -> (r: (Option<Statement>, usize))
    ensures
        pos0 >= tokens@.len() ==> r.0 is None && r.1 == pos0,
        pos0 < tokens@.len() ==> {
            &&& r.0 matches Some(st)
            &&& st.model() == parse_statement_spec(strings_view(tokens@), pos0 as int).0
            &&& st.keyword@ == tokens@[pos0 as int]@
            &&& r.1 == parse_statement_spec(strings_view(tokens@), pos0 as int).1
            &&& pos0 < r.1 <= tokens@.len()
        },
    decreases tokens@.len() - pos0, 0nat,
{
    if pos0 >= tokens.len() {
        return (None, pos0);
    }
    proof {
        lemma_statement_progress(strings_view(tokens@), pos0 as int);
    }
    let ghost tv = strings_view(tokens@);
    let n = tokens.len();
    let keyword = copy_string(&tokens[pos0]);
    let mut pos = pos0 + 1;
    proof {
        lemma_token_scan_bounds(tv, pos as int);
    }
    let mut args: Vec<String> = Vec::new();
    while pos < n && !is_structural(&tokens[pos])
        invariant
            pos0 < pos <= n,
            n == tokens@.len(),
            tv == strings_view(tokens@),
            args_end(tv, pos as int) == args_end(tv, pos0 + 1),
            strings_view(args@) == tv.subrange(pos0 + 1, pos as int),
        decreases n - pos,
    {
        let ghost before = args@;
        let t = copy_string(&tokens[pos]);
        args.push(t);
        assert(strings_view(args@) =~= strings_view(before).push(tokens@[pos as int]@));
        assert(strings_view(args@) =~= tv.subrange(pos0 + 1, pos + 1));
        pos = pos + 1;
    }
    if pos >= n {
        return (Some(Statement { keyword, args, children: None }), pos);
    }
    if is_single(&tokens[pos], ';') {
        return (Some(Statement { keyword, args, children: None }), pos + 1);
    }
    if is_single(&tokens[pos], '[') {
        // Bracket notation: key [ v1 v2 v3 ];
        let j = pos;
        pos = pos + 1;
        proof {
            lemma_token_scan_bounds(tv, pos as int);
        }
        let ghost base = strings_view(args@);
        while pos < n && !is_single(&tokens[pos], ']')
            invariant
                j < pos <= n,
                n == tokens@.len(),
                tv == strings_view(tokens@),
                bracket_end(tv, pos as int) == bracket_end(tv, j + 1),
                strings_view(args@) == base + tv.subrange(j + 1, pos as int),
            decreases n - pos,
        {
            let ghost before = args@;
            let t = copy_string(&tokens[pos]);
            args.push(t);
            assert(strings_view(args@) =~= strings_view(before).push(tokens@[pos as int]@));
            assert(strings_view(args@) =~= base + tv.subrange(j + 1, pos + 1));
            pos = pos + 1;
        }
        if pos < n {
            pos = pos + 1;  // skip ]
        }
        if pos < n && is_single(&tokens[pos], ';') {
            pos = pos + 1;
        }
        return (Some(Statement { keyword, args, children: None }), pos);
    }
    if is_single(&tokens[pos], '{') {
        // Block: key args* { ... }
        let (children, q) = parse_block_at(tokens, pos + 1);
        proof {
            lemma_parse_progress(tv, pos + 1);
        }
        let mut q2 = q;
        if q < n && is_single(&tokens[q], '}') {
            q2 = q + 1;
        }
        return (Some(Statement { keyword, args, children: Some(children) }), q2);
    }
    (Some(Statement { keyword, args, children: None }), pos)
}

/// Parse a flat token list into a list of [`Statement`]s.
pub fn parse(tokens: &[String]) -> (r: Vec<Statement>)
    ensures
        stmts_model(r@) == spec_parse(strings_view(tokens@)),
{
    parse_block_at(tokens, 0).0
}

/// Parse JunOS hierarchical config text and return a [`Statement`] list.
pub fn parse_config(text: &str) -> (r: Vec<Statement>)
    ensures
        stmts_model(r@) == spec_parse_config(text@),
{
    let tokens = tokenize(text);
    parse(tokens.as_slice())
}

} // verus!
