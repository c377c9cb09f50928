//! Tokenizer and parser edge cases.

use netbat::parser::{parse, parse_config, tokenize};

fn tok(items: &[&str]) -> Vec<String> {
    items.iter().map(|s| s.to_string()).collect()
}

#[test]
fn backslash_takes_next_character_literally() {
    assert_eq!(tokenize(r#""a\"b\\c""#), tok(&["a\"b\\c"]));
}

#[test]
fn unterminated_quote_runs_to_end() {
    assert_eq!(tokenize("x \"abc"), tok(&["x", "abc"]));
}

#[test]
fn unterminated_block_comment_runs_to_end() {
    assert_eq!(tokenize("a /* b c"), tok(&["a"]));
}

#[test]
fn comment_markers_inside_words_are_ordinary() {
    assert_eq!(tokenize("a#b c/d"), tok(&["a#b", "c/d"]));
}

#[test]
fn lone_slash_is_a_word() {
    assert_eq!(tokenize("/ x"), tok(&["/", "x"]));
}

#[test]
fn structural_characters_split_words() {
    assert_eq!(tokenize("a{b;c}"), tok(&["a", "{", "b", ";", "c", "}"]));
}

#[test]
fn tabs_and_unicode_spaces_separate_tokens() {
    assert_eq!(tokenize("a\tb\u{a0}c\u{3000}d"), tok(&["a", "b", "c", "d"]));
}

#[test]
fn statement_without_terminator_at_end() {
    let stmts = parse(&tok(&["a", "b"]));
    assert_eq!(stmts.len(), 1);
    assert_eq!(stmts[0].keyword, "a");
    assert_eq!(stmts[0].args, tok(&["b"]));
    assert!(stmts[0].children.is_none());
}

#[test]
fn unclosed_bracket_takes_rest() {
    let stmts = parse(&tok(&["k", "[", "x", "y"]));
    assert_eq!(stmts.len(), 1);
    assert_eq!(stmts[0].args, tok(&["x", "y"]));
}

#[test]
fn bracket_without_semicolon() {
    let stmts = parse(&tok(&["k", "[", "x", "]", "next", ";"]));
    assert_eq!(stmts.len(), 2);
    assert_eq!(stmts[0].args, tok(&["x"]));
    assert_eq!(stmts[1].keyword, "next");
}

#[test]
fn unclosed_block_takes_rest() {
    let stmts = parse_config("a { b; c {");
    assert_eq!(stmts.len(), 1);
    let children = stmts[0].children.as_ref().unwrap();
    assert_eq!(children.len(), 2);
    assert_eq!(children[1].keyword, "c");
    assert_eq!(children[1].children.as_ref().unwrap().len(), 0);
}

#[test]
fn top_level_stops_at_stray_close() {
    let stmts = parse_config("a; } b;");
    assert_eq!(stmts.len(), 1);
    assert_eq!(stmts[0].keyword, "a");
}

#[test]
fn stray_close_bracket_becomes_keyword() {
    let stmts = parse(&tok(&["a", "]", ";"]));
    assert_eq!(stmts.len(), 2);
    assert_eq!(stmts[1].keyword, "]");
}

#[test]
fn parse_config_is_parse_of_tokens() {
    let text = "x { y [ 1 2 ]; z \"q r\"; } /* c */ w;";
    assert_eq!(parse_config(text), parse(&tokenize(text)));
}

#[test]
fn cloned_statements_are_equal() {
    let stmts = parse_config("a x { b [c d]; e { f; } } g;");
    assert_eq!(stmts.clone(), stmts);
}

#[test]
fn crate_root_reexports() {
    let nc = netbat::build_network_config(
        "interfaces { ge-0/0/0 { unit 0 { family inet { address 10.0.0.1/8; } } } }",
    );
    assert_eq!(netbat::interface_ips(&nc).len(), 1);
    assert!(netbat::Ipv4Network::any().contains(netbat::Ipv4Addr(7)));
}

#[test]
fn plain_text_tokens_concatenate_to_text_without_whitespace() {
    let text = "interfaces {\n  ge-0/0/0 { unit 0; }\n}\nset [ a b ];\t x";
    let toks = tokenize(text);
    let joined: String = toks.concat();
    let stripped: String = text.chars().filter(|c| !c.is_whitespace()).collect();
    assert_eq!(joined, stripped);
    for t in &toks {
        assert!(!t.is_empty());
        assert!(!t.chars().any(|c| c.is_whitespace()));
        let structural = t.len() == 1 && "{}[];".contains(t.as_str());
        assert!(structural || !t.chars().any(|c| "{}[];".contains(c)), "token {t:?}");
    }
}

#[test]
fn written_out_statements_parse_back() {
    let toks = tok(&["a", "x", "y", ";", "b", "{", "c", ";", "d", "{", "}", "}", "e", ";"]);
    let stmts = parse(&toks);
    assert_eq!(stmts.len(), 3);
    assert_eq!(stmts[0].keyword, "a");
    assert_eq!(stmts[0].args, tok(&["x", "y"]));
    assert!(stmts[0].children.is_none());
    let b = stmts[1].children.as_ref().unwrap();
    assert_eq!(b.len(), 2);
    assert_eq!(b[0].keyword, "c");
    assert!(b[0].children.is_none());
    assert_eq!(b[1].keyword, "d");
    assert_eq!(b[1].children.as_ref().unwrap().len(), 0);
    assert_eq!(stmts[2].keyword, "e");
}
