use axp::{lex_all, Token};

fn lex_bytes(input: &[u8]) -> Vec<Token> {
    lex_all(input)
}

fn lex_str(input: &str) -> Vec<Token> {
    lex_all(input.as_bytes())
}

fn ws(s: &[u8]) -> Token {
    Token::WhiteSpace(s.to_vec())
}

fn bare(s: &[u8]) -> Token {
    Token::Bare(s.to_vec())
}

fn comment(s: &[u8]) -> Token {
    Token::Comment(s.to_vec())
}

fn bad(s: &[u8]) -> Token {
    Token::Bad(s.to_vec())
}

fn quoted(s: &[u8]) -> Token {
    Token::Quoted(s.to_vec())
}

fn esc(s: &[u8]) -> Token {
    Token::Esc(s.to_vec())
}

#[test]
fn lex_bares() {
    assert_eq!(lex_str("aä.[💩"), &[bare("aä.[💩".as_bytes())]);
    // NUL is always disallowed: its own single-byte bad token
    assert_eq!(
        lex_str("a\0b c(d)e:f\ng\th\ri\\j#k\""),
        &[
            bare(b"a"),
            bad(b"\0"),
            bare(b"b"),
            ws(b" "),
            bare(b"c"),
            Token::Open,
            bare(b"d"),
            Token::Close,
            bare(b"e"),
            Token::Colon,
            bare(b"f"),
            ws(b"\n"),
            bare(b"g"),
            ws(b"\t"),
            bare(b"h"),
            ws(b"\r"),
            bare(b"i"),
            bad(b"\\"),
            bare(b"j"),
            bad(b"#k"),
            bad(b"\""),
        ]
    );

    // Bares get broken up after 20 bytes
    assert_eq!(
        lex_str("0123456789abcdefghijklmnopqrstuvwxyz"),
        &[bare(b"0123456789abcdefghij"), bare(b"klmnopqrstuvwxyz")]
    );
}

#[test]
fn lex_special() {
    assert_eq!(lex_str("a\\b"), &[bare(b"a"), bad(b"\\"), bare(b"b")]);
    assert_eq!(lex_str("bare#x"), &[bare(b"bare"), bad(b"#x")]);
}

#[test]
fn lex_whitespace() {
    // Whitespace get broken up after 20 bytes
    let w = b" \n\r\t".repeat(5);
    let w: &[u8] = &w;
    let w1 = [w, b" "].concat();
    assert_eq!(lex_bytes(&w1), &[ws(w), ws(b" ")]);
    assert_eq!(lex_bytes(w), &[ws(w)]);
}

#[test]
fn lex_mix() {
    assert_eq!(
        lex_str(r#"a-bare "text\nline""#),
        &[
            bare(b"a-bare"),
            ws(b" "),
            quoted(b"text"),
            esc(b"\\n"),
            quoted(b"line"),
        ]
    );
}

#[test]
fn lex_escapes() {
    assert_eq!(lex_str(r#""\"\e""#), &[esc(b"\\\""), esc(b"\\e")]);
}

#[test]
fn lex_comments_and_witespace() {
    assert_eq!(
        lex_str("# co\tmment\n"),
        &[comment(b"# co\tmment"), ws(b"\n")]
    );

    assert_eq!(
        lex_bytes(b"# comment\rtext"),
        &[comment(b"# comment"), ws(b"\r"), bare(b"text")]
    );
}

#[test]
fn lex_guarded_string() {
    // a guard acts as a fence: a closer without the matching guard is
    // ordinary quoted content, and the input then ends inside the string
    assert_eq!(
        lex_bytes(b"#\"\\n#\" \"a"),
        &[esc(b"\\n"), ws(b" "), quoted(b"a"), bad(b"\"")]
    );
}

#[test]
fn lex_unterminated_quote() {
    // end of input inside a string is one synthetic bad token, not a panic
    assert_eq!(lex_str("\"abc"), &[quoted(b"abc"), bad(b"\"")]);
}

#[test]
fn lex_arbitrary_bytes() {
    // every byte sequence lexes to a finite token sequence without panics
    let mut all: Vec<u8> = Vec::new();
    for b in 0..=255u8 {
        all.push(b);
    }
    let tokens = lex_bytes(&all);
    assert!(tokens.len() <= all.len() + 1);
    for t in &tokens {
        match t {
            Token::Bare(s) | Token::WhiteSpace(s) | Token::Quoted(s) => assert!(s.len() <= 20),
            _ => {}
        }
    }
}
