use axp::{parse, Item};

fn atom(s: &[u8]) -> Item {
    Item::new_atom(s)
}

#[test]
fn run() {
    let result = parse(b"whatever 2nd () (a)");
    assert!(result.is_ok());
}

#[test]
fn test_parse() {
    assert_eq!(parse(b""), Ok(Item::nil()));
    assert_eq!(parse(b"a"), Ok(Item::new_list(vec![atom(b"a")])));
    assert_eq!(
        parse(b" x y "),
        Ok(Item::new_list(vec![atom(b"x"), atom(b"y")]))
    );
    assert_eq!(
        parse(b" x () "),
        Ok(Item::new_list(vec![atom(b"x"), Item::new_list(vec![])]))
    );
    assert_eq!(
        parse(" Schönen ( Tag ) ! ".as_bytes()),
        Ok(Item::new_list(vec![
            atom("Schönen".as_bytes()),
            Item::new_list(vec![atom(b"Tag")]),
            atom(b"!"),
        ]))
    );
}

#[test]
fn parse_long_bare_word() {
    // the lexer splits long words into capped tokens; the parser
    // reassembles them into one atom
    let word = "0123456789abcdefghijklmnopqrstuvwxyz";
    assert_eq!(
        parse(word.as_bytes()),
        Ok(Item::new_list(vec![atom(word.as_bytes())]))
    );
    let long = "x".repeat(100);
    let text = format!("({long} {long})");
    assert_eq!(
        parse(text.as_bytes()),
        Ok(Item::new_list(vec![Item::new_list(vec![
            atom(long.as_bytes()),
            atom(long.as_bytes()),
        ])]))
    );
}

#[test]
fn parse_top_level_map() {
    assert_eq!(
        parse(b"k: v"),
        Ok(Item::new_map(vec![(atom(b"k"), atom(b"v"))]))
    );
    assert_eq!(
        parse(b"a: 1 b: 2"),
        Ok(Item::new_map(vec![
            (atom(b"a"), atom(b"1")),
            (atom(b"b"), atom(b"2")),
        ]))
    );
}

#[test]
fn parse_nested_map() {
    assert_eq!(
        parse(b"(k: (a b)) x"),
        Ok(Item::new_list(vec![
            Item::new_map(vec![(
                atom(b"k"),
                Item::new_list(vec![atom(b"a"), atom(b"b")])
            )]),
            atom(b"x"),
        ]))
    );
}

#[test]
fn parse_duplicate_keys_kept() {
    assert_eq!(
        parse(b"k: 1 k: 2"),
        Ok(Item::new_map(vec![
            (atom(b"k"), atom(b"1")),
            (atom(b"k"), atom(b"2")),
        ]))
    );
}

#[test]
fn parse_quoted_atoms() {
    assert_eq!(
        parse(b"\"text\\nline\""),
        Ok(Item::new_list(vec![atom(b"text\nline")]))
    );
    assert_eq!(
        parse(b"\"a\\x41\\e\\0\\t\\r\\\"b\""),
        Ok(Item::new_list(vec![atom(b"aA\x1b\x00\t\r\"b")]))
    );
    // \u escapes decode to the scalar's UTF-8 encoding
    assert_eq!(
        parse(b"\"\\u{e9}\\u{1F4A9}\""),
        Ok(Item::new_list(vec![atom("é💩".as_bytes())]))
    );
    // a line continuation swallows the line break
    assert_eq!(
        parse(b"\"a\\ \n \\b\""),
        Ok(Item::new_list(vec![atom(b"ab")]))
    );
    // a guarded closer matches only the guard recorded at the opener
    assert_eq!(
        parse(b"#\"\\\"#\""),
        Ok(Item::new_list(vec![atom(b"\"")]))
    );
}

#[test]
fn parse_comments_skipped() {
    assert_eq!(
        parse(b"a # not (seen\nb"),
        Ok(Item::new_list(vec![atom(b"a"), atom(b"b")]))
    );
}

#[test]
fn parse_errors() {
    assert_eq!(parse(b")").unwrap_err().message().as_str(), "unexpected )");
    assert_eq!(parse(b":").unwrap_err().message().as_str(), "unexpected :");
    assert_eq!(parse(b"(a").unwrap_err().message().as_str(), "unexpected end");
    assert_eq!(parse(b"a: ").unwrap_err().message().as_str(), "unexpected end");
    assert_eq!(parse(b"a: )").unwrap_err().message().as_str(), "unexpected )");
    assert_eq!(parse(b"a: :").unwrap_err().message().as_str(), "unexpected :");
    assert_eq!(parse(b"\\a").unwrap_err().message().as_str(), "bad: \\\\");
    // an unterminated string surfaces as a bad token at the parser
    assert_eq!(parse(b"\"abc").unwrap_err().message().as_str(), "bad: \"");
    // after a map key only a colon may follow
    assert_eq!(
        parse(b"a: b c d").unwrap_err().message().as_str(),
        "unexpected bare part `d`"
    );
    // a list that has elements cannot turn into a map
    assert_eq!(parse(b"a b: c").unwrap_err().message().as_str(), "unexpected :");
}
