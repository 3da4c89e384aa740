use vstd::prelude::*;

verus! {

/// Longest byte run a single whitespace, bare-word, comment-body or
/// quoted-part token may cover; longer runs are emitted as consecutive
/// tokens so per-token memory stays bounded.
pub const MAX_RUN: usize = 20;

/// Longest guard (fence) recorded around a quote delimiter, not counting
/// the opening `#` marker.
pub const MAX_GUARD: usize = 8;


/// Byte values of the structural characters.
pub const B_TAB: u8 = 0x09;
pub const B_NL: u8 = 0x0a;
pub const B_CR: u8 = 0x0d;
pub const B_SPACE: u8 = 0x20;
pub const B_QUOTE: u8 = 0x22;
pub const B_HASH: u8 = 0x23;
pub const B_OPEN: u8 = 0x28;
pub const B_CLOSE: u8 = 0x29;
pub const B_COLON: u8 = 0x3a;
pub const B_BACKSLASH: u8 = 0x5c;
pub const B_LBRACE: u8 = 0x7b;
pub const B_RBRACE: u8 = 0x7d;

// ---------------------------------------------------------------------------
// Byte classes
// ---------------------------------------------------------------------------

/// Space, newline, carriage return or tab.
pub open spec fn is_ws_byte(b: u8) -> bool {
    b == B_SPACE || b == B_NL || b == B_CR || b == B_TAB
}

/// Newline or carriage return: ends a comment.
pub open spec fn is_line_break(b: u8) -> bool {
    b == B_NL || b == B_CR
}

/// A byte that may stand in a bare word: anything but NUL, whitespace and
/// the reserved bytes `:` `#` `(` `)` `\` `"`.
pub open spec fn is_bare_byte(b: u8) -> bool {
    b != 0x00 && !is_ws_byte(b) && b != B_COLON && b != B_HASH && b != B_OPEN && b != B_CLOSE && b != B_BACKSLASH && b != B_QUOTE
}

/// A byte that may stand in a quoted literal run: anything but NUL, `\`
/// and `"`.
pub open spec fn is_part_byte(b: u8) -> bool {
    b != 0x00 && b != B_BACKSLASH && b != B_QUOTE
}

/// A byte that may stand in a closing guard: anything but NUL, whitespace,
/// `\` and `"`.
pub open spec fn is_close_guard_byte(b: u8) -> bool {
    b != 0x00 && !is_ws_byte(b) && b != B_BACKSLASH && b != B_QUOTE
}

/// A byte that may stand inside an opening guard's parentheses.
pub open spec fn is_open_guard_byte(b: u8) -> bool {
    b != 0x00 && !is_ws_byte(b) && b != B_HASH && b != B_OPEN && b != B_CLOSE && b != B_BACKSLASH && b != B_QUOTE
}

/// An ASCII hexadecimal digit.
pub open spec fn is_hex_byte(b: u8) -> bool {
    (0x30u8 <= b && b <= 0x39u8) || (0x61u8 <= b && b <= 0x66u8) || (0x41u8 <= b && b <= 0x46u8)
}

/// A single-letter escape body: one of `"` `e` `n` `r` `t` `0`.
pub open spec fn is_escape_letter(b: u8) -> bool {
    b == B_QUOTE || b == 0x65u8 || b == 0x6eu8 || b == 0x72u8 || b == 0x74u8 || b == 0x30u8
}

/// The byte classes the scanner takes maximal runs of.
#[derive(Clone, Copy, Debug, Eq, PartialEq)]
pub enum ByteClass {
    White,
    Hash,
    Bare,
    CommentBody,
    Part,
    CloseGuard,
    OpenGuard,
    NotClose,
    Hex,
}

/// Membership of a byte in a scanning class.
pub open spec fn in_class(c: ByteClass, b: u8) -> bool {
    match c {
        ByteClass::White => is_ws_byte(b),
        ByteClass::Hash => b == B_HASH,
        ByteClass::Bare => is_bare_byte(b),
        ByteClass::CommentBody => b != 0x00 && !is_line_break(b),
        ByteClass::Part => is_part_byte(b),
        ByteClass::CloseGuard => is_close_guard_byte(b),
        ByteClass::OpenGuard => is_open_guard_byte(b),
        ByteClass::NotClose => b != B_CLOSE,
        ByteClass::Hex => is_hex_byte(b),
    }
}

fn byte_in_class(c: ByteClass, b: u8) -> (r: bool)
    ensures
        r == in_class(c, b),
{
    match c {
        ByteClass::White => b == B_SPACE || b == B_NL || b == B_CR || b == B_TAB,
        ByteClass::Hash => b == B_HASH,
        ByteClass::Bare => b != 0x00 && !(b == B_SPACE || b == B_NL || b == B_CR || b == B_TAB)
            && b != B_COLON && b != B_HASH && b != B_OPEN && b != B_CLOSE && b != B_BACKSLASH && b
            != B_QUOTE,
        ByteClass::CommentBody => b != 0x00 && !(b == B_NL || b == B_CR),
        ByteClass::Part => b != 0x00 && b != B_BACKSLASH && b != B_QUOTE,
        ByteClass::CloseGuard => b != 0x00 && !(b == B_SPACE || b == B_NL || b == B_CR || b
            == B_TAB) && b != B_BACKSLASH && b != B_QUOTE,
        ByteClass::OpenGuard => b != 0x00 && !(b == B_SPACE || b == B_NL || b == B_CR || b
            == B_TAB) && b != B_HASH && b != B_OPEN && b != B_CLOSE && b != B_BACKSLASH && b
            != B_QUOTE,
        ByteClass::NotClose => b != B_CLOSE,
        ByteClass::Hex => (0x30u8 <= b && b <= 0x39u8) || (0x61u8 <= b && b <= 0x66u8) || (0x41u8 <= b && b
            <= 0x46u8),
    }
}

/// Length of the maximal run of bytes of class `c` starting at `i`.
pub open spec fn run_len(s: Seq<u8>, i: int, c: ByteClass) -> int
    decreases s.len() - i,
    when 0 <= i <= s.len()
{
    if i < s.len() && in_class(c, s[i]) {
        1 + run_len(s, i + 1, c)
    } else {
        0
    }
}

pub broadcast proof fn lemma_run_len_bound(s: Seq<u8>, i: int, c: ByteClass)
    requires
        0 <= i <= s.len(),
    ensures
        0 <= #[trigger] run_len(s, i, c) <= s.len() - i,
    decreases s.len() - i,
{
    if i < s.len() && in_class(c, s[i]) {
        lemma_run_len_bound(s, i + 1, c);
    }
}

/// A run length capped at [`MAX_RUN`].
pub open spec fn cap_run(n: int) -> int {
    if n > MAX_RUN as int {
        MAX_RUN as int
    } else {
        n
    }
}

fn run_from(v: &Vec<u8>, i: usize, c: ByteClass) -> (r: usize)
    requires
        i <= v@.len(),
    ensures
        r == run_len(v@, i as int, c),
        i + r <= v@.len(),
{
    let mut j = i;
    while j < v.len() && byte_in_class(c, v[j])
        invariant
            i <= j <= v@.len(),
            run_len(v@, i as int, c) == (j - i) + run_len(v@, j as int, c),
        decreases v@.len() - j,
    {
        j = j + 1;
    }
    j - i
}

// ---------------------------------------------------------------------------
// Tokens, modes and lexer state
// ---------------------------------------------------------------------------

/// Model of a token: the category together with the bytes it covers.
pub ghost enum TokenV {
    WhiteSpace(Seq<u8>),
    Bare(Seq<u8>),
    Comment(Seq<u8>),
    Colon,
    Open,
    Close,
    Bad(Seq<u8>),
    Quoted(Seq<u8>),
    Esc(Seq<u8>),
}

/// A token produced by the lexer. Payload-carrying tokens own a copy of the
/// bytes they cover.
#[derive(Clone, Debug, Eq, PartialEq)]
pub enum Token {
    WhiteSpace(Vec<u8>),
    Bare(Vec<u8>),
    Comment(Vec<u8>),
    Colon,
    Open,
    Close,
    Bad(Vec<u8>),
    Quoted(Vec<u8>),
    Esc(Vec<u8>),
}

impl View for Token {
    type V = TokenV;

    open spec fn view(&self) -> TokenV {
        match self {
            Token::WhiteSpace(s) => TokenV::WhiteSpace(s@),
            Token::Bare(s) => TokenV::Bare(s@),
            Token::Comment(s) => TokenV::Comment(s@),
            Token::Colon => TokenV::Colon,
            Token::Open => TokenV::Open,
            Token::Close => TokenV::Close,
            Token::Bad(s) => TokenV::Bad(s@),
            Token::Quoted(s) => TokenV::Quoted(s@),
            Token::Esc(s) => TokenV::Esc(s@),
        }
    }
}

/// The mutually exclusive lexical modes.
#[derive(Clone, Copy, Debug, Eq, PartialEq)]
pub enum Mode {
    Base,
    Comment,
    Quoted,
}

/// Model of the lexer state: position, mode, and the guard recorded when the
/// current quoted literal was opened.
pub ghost struct LexSt {
    pub pos: int,
    pub mode: Mode,
    pub guard: Seq<u8>,
}

/// The state a fresh lexer starts in.
pub open spec fn init_st() -> LexSt {
    LexSt { pos: 0, mode: Mode::Base, guard: Seq::empty() }
}

// ---------------------------------------------------------------------------
// One lexing step, as a specification
// ---------------------------------------------------------------------------

/// Length of the comment token starting at `p` (a run of `#`, one space or
/// tab, then a capped run of non-line-break bytes), or 0 when no comment
/// starts there.
pub open spec fn comment_match_len(s: Seq<u8>, p: int) -> int {
    let h = run_len(s, p, ByteClass::Hash);
    if p + h < s.len() && (s[p + h] == B_SPACE || s[p + h] == B_TAB) {
        let body = cap_run(run_len(s, p + h + 1, ByteClass::CommentBody));
        if body >= 1 {
            h + 1 + body
        } else {
            0
        }
    } else {
        0
    }
}

/// Length of a quote opener starting at `p` where `s[p] == '#'`: either
/// `#"` or `#(` + up to [`MAX_GUARD`] guard bytes + `)"`. 0 when none.
pub open spec fn hash_opener_len(s: Seq<u8>, p: int) -> int {
    if p + 1 < s.len() && s[p + 1] == B_QUOTE {
        2
    } else if p + 1 < s.len() && s[p + 1] == B_OPEN {
        let g = run_len(s, p + 2, ByteClass::OpenGuard);
        if g <= MAX_GUARD as int && p + 2 + g + 1 < s.len() && s[p + 2 + g] == B_CLOSE && s[p + 2 + g
            + 1] == B_QUOTE {
            g + 4
        } else {
            0
        }
    } else {
        0
    }
}

/// Length of the bad token `#(` + 1 to 8 non-`)` bytes + optional `)`
/// starting at `p` where `s[p] == '#'`. 0 when none.
pub open spec fn hash_paren_bad_len(s: Seq<u8>, p: int) -> int {
    if p + 1 < s.len() && s[p + 1] == B_OPEN {
        let r = run_len(s, p + 2, ByteClass::NotClose);
        if r >= 1 {
            let k = if r > MAX_GUARD as int {
                MAX_GUARD as int
            } else {
                r
            };
            if p + 2 + k < s.len() && s[p + 2 + k] == B_CLOSE {
                2 + k + 1
            } else {
                2 + k
            }
        } else {
            0
        }
    } else {
        0
    }
}

/// True when `#` followed by one byte other than space, tab or `(` forms a
/// two-byte bad token at `p`.
pub open spec fn hash_pair_bad(s: Seq<u8>, p: int) -> bool {
    p + 1 < s.len() && s[p + 1] != B_SPACE && s[p + 1] != B_TAB && s[p + 1] != B_OPEN
}

/// Length of the guard prefix of a guarded token at `p` in quoted mode:
/// 0 when the token starts directly with `\` or `"`, 1 + the guard run when
/// a `#`-guard is complete, and -1 when no guarded token starts at `p`.
pub open spec fn quoted_guard_len(s: Seq<u8>, p: int) -> int {
    if s[p] == B_BACKSLASH || s[p] == B_QUOTE {
        0
    } else if s[p] == B_HASH {
        let g = run_len(s, p + 1, ByteClass::CloseGuard);
        if g <= MAX_GUARD as int && p + 1 + g < s.len() && (s[p + 1 + g] == B_BACKSLASH || s[p + 1 + g]
            == B_QUOTE) {
            1 + g
        } else {
            -1
        }
    } else {
        -1
    }
}

/// One step of the lexer: the next token and successor state, or `None` at
/// the end of the input. Steps that only switch modes (a quote opener, a
/// matching quote closer) recurse to the token that follows them.
pub open spec fn spec_next(input: Seq<u8>, st: LexSt) -> Option<(TokenV, LexSt)>
    decreases input.len() - st.pos,
    when 0 <= st.pos <= input.len()
{
    let p = st.pos;
    match st.mode {
        Mode::Base => {
            if p >= input.len() {
                None
            } else {
                let b = input[p];
                if is_ws_byte(b) {
                    let n = cap_run(run_len(input, p, ByteClass::White));
                    Some(
                        (
                            TokenV::WhiteSpace(input.subrange(p, p + n)),
                            LexSt { pos: p + n, mode: Mode::Base, guard: st.guard },
                        ),
                    )
                } else if b == B_COLON {
                    Some(
                        (TokenV::Colon, LexSt { pos: p + 1, mode: Mode::Base, guard: st.guard }),
                    )
                } else if b == B_OPEN {
                    Some((TokenV::Open, LexSt { pos: p + 1, mode: Mode::Base, guard: st.guard }))
                } else if b == B_CLOSE {
                    Some((TokenV::Close, LexSt { pos: p + 1, mode: Mode::Base, guard: st.guard }))
                } else if b == B_QUOTE {
                    spec_next(input, LexSt { pos: p + 1, mode: Mode::Quoted, guard: Seq::empty() })
                } else if b == B_BACKSLASH {
                    Some(
                        (
                            TokenV::Bad(input.subrange(p, p + 1)),
                            LexSt { pos: p + 1, mode: Mode::Base, guard: st.guard },
                        ),
                    )
                } else if b == B_HASH {
                    let cm = comment_match_len(input, p);
                    let op = hash_opener_len(input, p);
                    let pb = hash_paren_bad_len(input, p);
                    if cm > 0 {
                        Some(
                            (
                                TokenV::Comment(input.subrange(p, p + cm)),
                                LexSt { pos: p + cm, mode: Mode::Comment, guard: st.guard },
                            ),
                        )
                    } else if op > 0 {
                        spec_next(
                            input,
                            LexSt {
                                pos: p + op,
                                mode: Mode::Quoted,
                                guard: input.subrange(p, p + op - 1),
                            },
                        )
                    } else if pb > 0 {
                        Some(
                            (
                                TokenV::Bad(input.subrange(p, p + pb)),
                                LexSt { pos: p + pb, mode: Mode::Base, guard: st.guard },
                            ),
                        )
                    } else if hash_pair_bad(input, p) {
                        Some(
                            (
                                TokenV::Bad(input.subrange(p, p + 2)),
                                LexSt { pos: p + 2, mode: Mode::Base, guard: st.guard },
                            ),
                        )
                    } else {
                        Some(
                            (
                                TokenV::Bad(input.subrange(p, p + 1)),
                                LexSt { pos: p + 1, mode: Mode::Base, guard: st.guard },
                            ),
                        )
                    }
                } else if is_bare_byte(b) {
                    let n = cap_run(run_len(input, p, ByteClass::Bare));
                    Some(
                        (
                            TokenV::Bare(input.subrange(p, p + n)),
                            LexSt { pos: p + n, mode: Mode::Base, guard: st.guard },
                        ),
                    )
                } else {
                    // NUL, the one byte left: always disallowed, its own bad token
                    Some(
                        (
                            TokenV::Bad(input.subrange(p, p + 1)),
                            LexSt { pos: p + 1, mode: Mode::Base, guard: st.guard },
                        ),
                    )
                }
            }
        },
        Mode::Comment => {
            if p >= input.len() {
                None
            } else if is_line_break(input[p]) {
                Some(
                    (
                        TokenV::WhiteSpace(input.subrange(p, p + 1)),
                        LexSt { pos: p + 1, mode: Mode::Base, guard: st.guard },
                    ),
                )
            } else if in_class(ByteClass::CommentBody, input[p]) {
                let n = cap_run(run_len(input, p, ByteClass::CommentBody));
                Some(
                    (
                        TokenV::Comment(input.subrange(p, p + n)),
                        LexSt { pos: p + n, mode: Mode::Comment, guard: st.guard },
                    ),
                )
            } else {
                // NUL: always disallowed, its own bad token
                Some(
                    (
                        TokenV::Bad(input.subrange(p, p + 1)),
                        LexSt { pos: p + 1, mode: Mode::Comment, guard: st.guard },
                    ),
                )
            }
        },
        Mode::Quoted => {
            if p >= input.len() {
                // missing closing quote: one synthetic bad token, then back to
                // base mode so consumption can end cleanly
                Some(
                    (TokenV::Bad(seq![B_QUOTE]), LexSt { pos: p, mode: Mode::Base, guard: st.guard }),
                )
            } else {
                let ql = quoted_guard_len(input, p);
                if ql < 0 {
                    if is_part_byte(input[p]) {
                        let n = cap_run(run_len(input, p, ByteClass::Part));
                        Some(
                            (
                                TokenV::Quoted(input.subrange(p, p + n)),
                                LexSt { pos: p + n, mode: Mode::Quoted, guard: st.guard },
                            ),
                        )
                    } else {
                        // NUL: always disallowed, its own bad token
                        Some(
                            (
                                TokenV::Bad(input.subrange(p, p + 1)),
                                LexSt { pos: p + 1, mode: Mode::Quoted, guard: st.guard },
                            ),
                        )
                    }
                } else {
                    let q = p + ql;
                    if input[q] == B_QUOTE {
                        if input.subrange(p, q) == st.guard {
                            spec_next(
                                input,
                                LexSt { pos: q + 1, mode: Mode::Base, guard: st.guard },
                            )
                        } else {
                            Some(
                                (
                                    TokenV::Quoted(input.subrange(p, q + 1)),
                                    LexSt { pos: q + 1, mode: Mode::Quoted, guard: st.guard },
                                ),
                            )
                        }
                    } else {
                        spec_quoted_escape(input, st, p, q)
                    }
                }
            }
        },
    }
}

/// The token for a backslash at `q` (after a guard starting at `p`) in
/// quoted mode: a recognized escape, or a bad token of the guard, the
/// backslash and the byte after it.
pub open spec fn spec_quoted_escape(input: Seq<u8>, st: LexSt, p: int, q: int) -> Option<
    (TokenV, LexSt),
> {
    if q + 1 >= input.len() {
        Some(
            (
                TokenV::Bad(input.subrange(p, q + 1)),
                LexSt { pos: q + 1, mode: Mode::Quoted, guard: st.guard },
            ),
        )
    } else {
        let e = input[q + 1];
        if is_escape_letter(e) {
            Some(
                (
                    TokenV::Esc(input.subrange(p, q + 2)),
                    LexSt { pos: q + 2, mode: Mode::Quoted, guard: st.guard },
                ),
            )
        } else if e == 0x78u8 && q + 3 < input.len() && is_hex_byte(input[q + 2]) && is_hex_byte(
            input[q + 3],
        ) {
            Some(
                (
                    TokenV::Esc(input.subrange(p, q + 4)),
                    LexSt { pos: q + 4, mode: Mode::Quoted, guard: st.guard },
                ),
            )
        } else if e == 0x75u8 && q + 2 < input.len() && input[q + 2] == B_LBRACE && {
            let hr = run_len(input, q + 3, ByteClass::Hex);
            2 <= hr <= 8 && q + 3 + hr < input.len() && input[q + 3 + hr] == B_RBRACE
        } {
            let hr = run_len(input, q + 3, ByteClass::Hex);
            Some(
                (
                    TokenV::Esc(input.subrange(p, q + 3 + hr + 1)),
                    LexSt { pos: q + 3 + hr + 1, mode: Mode::Quoted, guard: st.guard },
                ),
            )
        } else if is_ws_byte(e) && {
            let w = run_len(input, q + 1, ByteClass::White);
            w <= MAX_RUN as int && q + 1 + w < input.len() && input[q + 1 + w] == B_BACKSLASH
        } {
            let w = run_len(input, q + 1, ByteClass::White);
            Some(
                (
                    TokenV::Esc(input.subrange(p, q + 1 + w + 1)),
                    LexSt { pos: q + 1 + w + 1, mode: Mode::Quoted, guard: st.guard },
                ),
            )
        } else {
            Some(
                (
                    TokenV::Bad(input.subrange(p, q + 2)),
                    LexSt { pos: q + 2, mode: Mode::Quoted, guard: st.guard },
                ),
            )
        }
    }
}

/// Rank used to show that lexing makes progress even when a step does not
/// consume a byte (the synthetic bad token for a missing closing quote).
pub open spec fn mode_rank(m: Mode) -> int {
    match m {
        Mode::Quoted => 1,
        _ => 0,
    }
}

/// Every step stays within the input and either consumes at least one byte
/// or lowers the mode rank.
pub proof fn lemma_spec_next_progress(input: Seq<u8>, st: LexSt)
    requires
        0 <= st.pos <= input.len(),
    ensures
        match spec_next(input, st) {
            None => true,
            Some((t, st2)) => 0 <= st2.pos <= input.len() && st2.pos >= st.pos && (st2.pos > st.pos
                || mode_rank(st2.mode) < mode_rank(st.mode)) && (mode_rank(st2.mode) > mode_rank(
                st.mode,
            ) ==> st2.pos >= st.pos + 2),
        },
    decreases input.len() - st.pos,
{
    broadcast use lemma_run_len_bound;

    let p = st.pos;
    match st.mode {
        Mode::Base => {
            if p < input.len() {
                let b = input[p];
                if is_ws_byte(b) {
                    assert(in_class(ByteClass::White, b));
                    lemma_run_len_bound(input, p + 1, ByteClass::White);
                    assert(run_len(input, p, ByteClass::White) >= 1);
                    assert(cap_run(run_len(input, p, ByteClass::White)) >= 1);
                } else if b == B_COLON || b == B_OPEN || b == B_CLOSE || b == B_BACKSLASH {
                } else if b == B_QUOTE {
                    lemma_spec_next_progress(
                        input,
                        LexSt { pos: p + 1, mode: Mode::Quoted, guard: Seq::empty() },
                    );
                } else if b == B_HASH {
                    lemma_run_len_bound(input, p + 1, ByteClass::Hash);
                    assert(run_len(input, p, ByteClass::Hash) >= 1);
                    let h = run_len(input, p, ByteClass::Hash);
                    if p + h < input.len() {
                        lemma_run_len_bound(input, p + h + 1, ByteClass::CommentBody);
                    }
                    if p + 2 <= input.len() {
                        lemma_run_len_bound(input, p + 2, ByteClass::NotClose);
                        lemma_run_len_bound(input, p + 2, ByteClass::OpenGuard);
                    }
                    let op = hash_opener_len(input, p);
                    if comment_match_len(input, p) > 0 {
                    } else if op > 0 {
                        lemma_spec_next_progress(
                            input,
                            LexSt {
                                pos: p + op,
                                mode: Mode::Quoted,
                                guard: input.subrange(p, p + op - 1),
                            },
                        );
                    }
                } else if is_bare_byte(b) {
                    assert(in_class(ByteClass::Bare, b));
                    lemma_run_len_bound(input, p + 1, ByteClass::Bare);
                    assert(run_len(input, p, ByteClass::Bare) >= 1);
                }
            }
        },
        Mode::Comment => {
            if p < input.len() && !is_line_break(input[p]) && in_class(
                ByteClass::CommentBody,
                input[p],
            ) {
                lemma_run_len_bound(input, p + 1, ByteClass::CommentBody);
                assert(run_len(input, p, ByteClass::CommentBody) >= 1);
            }
        },
        Mode::Quoted => {
            if p < input.len() {
                let ql = quoted_guard_len(input, p);
                if ql < 0 {
                    if is_part_byte(input[p]) {
                        assert(in_class(ByteClass::Part, input[p]));
                        lemma_run_len_bound(input, p + 1, ByteClass::Part);
                        assert(run_len(input, p, ByteClass::Part) >= 1);
                    }
                } else {
                    let q = p + ql;
                    if input[q] == B_QUOTE {
                        if input.subrange(p, q) == st.guard {
                            lemma_spec_next_progress(
                                input,
                                LexSt { pos: q + 1, mode: Mode::Base, guard: st.guard },
                            );
                        }
                    }
                }
            }
        },
    }
}

/// The whole token sequence from a given state to the end of the input.
pub open spec fn spec_tokens(input: Seq<u8>, st: LexSt) -> Seq<TokenV>
    decreases input.len() - st.pos, mode_rank(st.mode),
    when 0 <= st.pos <= input.len()
    via spec_tokens_decreases
{
    match spec_next(input, st) {
        None => seq![],
        Some((t, st2)) => seq![t] + spec_tokens(input, st2),
    }
}

#[via_fn]
proof fn spec_tokens_decreases(input: Seq<u8>, st: LexSt) {
    lemma_spec_next_progress(input, st);
}

/// The token sequence of a whole input, from the initial state.
pub open spec fn tokens_of(input: Seq<u8>) -> Seq<TokenV> {
    spec_tokens(input, init_st())
}

// ---------------------------------------------------------------------------
// Boundedness of tokenizing
// ---------------------------------------------------------------------------

/// Per-token span caps. A whitespace, bare or quoted token never covers more
/// than [`MAX_RUN`] bytes; an escape adds at most a guard and the longest
/// escape body; a bad token is at most a guard and two bytes. (A comment
/// token opened in base mode starts with an uncapped run of `#` bytes, so
/// only its body is capped; no cap is stated for it here.)
pub open spec fn token_bounded(t: TokenV) -> bool {
    match t {
        TokenV::WhiteSpace(s) => s.len() <= MAX_RUN,
        TokenV::Bare(s) => s.len() <= MAX_RUN,
        TokenV::Quoted(s) => s.len() <= MAX_RUN,
        TokenV::Esc(s) => s.len() <= MAX_GUARD + MAX_RUN + 3,
        TokenV::Bad(s) => s.len() <= MAX_GUARD + 3,
        _ => true,
    }
}

/// Every token a single step produces is bounded.
pub proof fn lemma_spec_next_bounded(input: Seq<u8>, st: LexSt)
    requires
        0 <= st.pos <= input.len(),
    ensures
        match spec_next(input, st) {
            None => true,
            Some((t, st2)) => token_bounded(t),
        },
    decreases input.len() - st.pos,
{
    lemma_spec_next_progress(input, st);
    let p = st.pos;
    match st.mode {
        Mode::Base => {
            if p < input.len() {
                let b = input[p];
                if b == B_QUOTE {
                    lemma_spec_next_bounded(
                        input,
                        LexSt { pos: p + 1, mode: Mode::Quoted, guard: Seq::empty() },
                    );
                } else if b == B_HASH {
                    let op = hash_opener_len(input, p);
                    if comment_match_len(input, p) > 0 {
                    } else if op > 0 {
                        lemma_spec_next_bounded(
                            input,
                            LexSt {
                                pos: p + op,
                                mode: Mode::Quoted,
                                guard: input.subrange(p, p + op - 1),
                            },
                        );
                    }
                }
            }
        },
        Mode::Comment => {
        },
        Mode::Quoted => {
            if p < input.len() {
                let ql = quoted_guard_len(input, p);
                if ql >= 0 {
                    let q = p + ql;
                    if input[q] == B_QUOTE {
                        if input.subrange(p, q) == st.guard {
                            lemma_spec_next_bounded(
                                input,
                                LexSt { pos: q + 1, mode: Mode::Base, guard: st.guard },
                            );
                        }
                    } else {
                        if q + 3 <= input.len() {
                            lemma_run_len_bound(input, q + 3, ByteClass::Hex);
                        }
                        if q + 1 <= input.len() {
                            lemma_run_len_bound(input, q + 1, ByteClass::White);
                        }
                    }
                }
            }
        },
    }
}

/// Tokenizing is finite and linear: from any state, at most one token per
/// remaining input byte, plus one synthetic token for a missing closing
/// quote, and every token is bounded.
pub proof fn lemma_spec_tokens_bounded(input: Seq<u8>, st: LexSt)
    requires
        0 <= st.pos <= input.len(),
    ensures
        spec_tokens(input, st).len() <= input.len() - st.pos + mode_rank(st.mode),
        forall|i: int|
            0 <= i < spec_tokens(input, st).len() ==> token_bounded(
                #[trigger] spec_tokens(input, st)[i],
            ),
    decreases input.len() - st.pos, mode_rank(st.mode),
{
    lemma_spec_next_progress(input, st);
    lemma_spec_next_bounded(input, st);
    match spec_next(input, st) {
        None => {},
        Some((t, st2)) => {
            lemma_spec_tokens_bounded(input, st2);
        },
    }
}

/// Boundedness of the whole tokenizer: a finite input yields a finite token
/// sequence, linear in the input length, and no token's span exceeds its cap.
pub proof fn lemma_lexing_bounded(input: Seq<u8>)
    ensures
        tokens_of(input).len() <= input.len() + 1,
        forall|i: int|
            0 <= i < tokens_of(input).len() ==> token_bounded(#[trigger] tokens_of(input)[i]),
{
    lemma_spec_tokens_bounded(input, init_st());
}

// ---------------------------------------------------------------------------
// The executable lexer
// ---------------------------------------------------------------------------

fn copy_range(v: &Vec<u8>, i: usize, j: usize) -> (r: Vec<u8>)
    requires
        i <= j <= v@.len(),
    ensures
        r@ == v@.subrange(i as int, j as int),
{
    vstd::slice::slice_to_vec(vstd::slice::slice_subrange(v.as_slice(), i, j))
}

fn comment_match(v: &Vec<u8>, p: usize) -> (r: usize)
    requires
        p <= v@.len(),
    ensures
        r == comment_match_len(v@, p as int),
        p + r <= v@.len(),
{
    let h = run_from(v, p, ByteClass::Hash);
    if h < v.len() - p && (v[p + h] == B_SPACE || v[p + h] == B_TAB) {
        let body_full = run_from(v, p + h + 1, ByteClass::CommentBody);
        let body = if body_full > MAX_RUN {
            MAX_RUN
        } else {
            body_full
        };
        if body >= 1 {
            h + 1 + body
        } else {
            0
        }
    } else {
        0
    }
}

fn hash_opener(v: &Vec<u8>, p: usize) -> (r: usize)
    requires
        p < v@.len(),
        v@[p as int] == B_HASH,
    ensures
        r == hash_opener_len(v@, p as int),
        p + r <= v@.len(),
{
    if 1 < v.len() - p && v[p + 1] == B_QUOTE {
        2
    } else if 1 < v.len() - p && v[p + 1] == B_OPEN {
        let g = run_from(v, p + 2, ByteClass::OpenGuard);
        if g <= MAX_GUARD && g + 3 < v.len() - p && v[p + 2 + g] == B_CLOSE && v[p + 2 + g + 1]
            == B_QUOTE {
            g + 4
        } else {
            0
        }
    } else {
        0
    }
}

fn hash_paren_bad(v: &Vec<u8>, p: usize) -> (r: usize)
    requires
        p < v@.len(),
        v@[p as int] == B_HASH,
    ensures
        r == hash_paren_bad_len(v@, p as int),
        p + r <= v@.len(),
{
    if 1 < v.len() - p && v[p + 1] == B_OPEN {
        let rn = run_from(v, p + 2, ByteClass::NotClose);
        if rn >= 1 {
            let k = if rn > MAX_GUARD {
                MAX_GUARD
            } else {
                rn
            };
            if k + 2 < v.len() - p && v[p + 2 + k] == B_CLOSE {
                2 + k + 1
            } else {
                2 + k
            }
        } else {
            0
        }
    } else {
        0
    }
}

fn quoted_guard(v: &Vec<u8>, p: usize) -> (r: Option<usize>)
    requires
        p < v@.len(),
    ensures
        quoted_guard_len(v@, p as int) == match r {
            Some(ql) => ql as int,
            None => -1,
        },
        r matches Some(ql) ==> p + ql < v@.len(),
{
    let b = v[p];
    if b == B_BACKSLASH || b == B_QUOTE {
        Some(0)
    } else if b == B_HASH {
        let n = v.len();
        let g = run_from(v, p + 1, ByteClass::CloseGuard);
        if g <= MAX_GUARD && g + 1 < v.len() - p && (v[p + 1 + g] == B_BACKSLASH || v[p + 1 + g]
            == B_QUOTE) {
            Some(1 + g)
        } else {
            None
        }
    } else {
        None
    }
}

fn bytes_eq_range(g: &Vec<u8>, v: &Vec<u8>, i: usize, j: usize) -> (r: bool)
    requires
        i <= j <= v@.len(),
    ensures
        r == (g@ == v@.subrange(i as int, j as int)),
{
    if g.len() != j - i {
        proof {
            assert(g@.len() != v@.subrange(i as int, j as int).len());
        }
        return false;
    }
    let n = j - i;
    for k in 0..n
        invariant
            n == j - i,
            g@.len() == n,
            i <= j <= v@.len(),
            forall|m: int| 0 <= m < k ==> g@[m] == v@[i + m],
        decreases n - k,
    {
        if g[k] != v[i + k] {
            proof {
                assert(g@[k as int] != v@.subrange(i as int, j as int)[k as int]);
            }
            return false;
        }
    }
    proof {
        assert(g@ =~= v@.subrange(i as int, j as int));
    }
    true
}

/// The mode-switching lexer: a pull-based, forward-only token producer over
/// an owned copy of the input bytes.
#[derive(Clone, Debug)]
pub struct AxpLexer {
    input: Vec<u8>,
    pos: usize,
    mode: Mode,
    guard: Vec<u8>,
}

impl AxpLexer {
    /// The input bytes being lexed.
    pub closed spec fn src(&self) -> Seq<u8> {
        self.input@
    }

    /// The current lexer state.
    pub closed spec fn st(&self) -> LexSt {
        LexSt { pos: self.pos as int, mode: self.mode, guard: self.guard@ }
    }

    /// The position never runs past the input.
    pub open spec fn wf(&self) -> bool {
        0 <= self.st().pos <= self.src().len()
    }

    /// Produce the next token, or `None` at the end of the input. One call
    /// does bounded work and consumes at most a bounded span of input.
    pub fn next(&mut self) -> (t: Option<Token>)
        requires
            old(self).wf(),
        ensures
            final(self).wf(),
            final(self).src() == old(self).src(),
            match spec_next(old(self).src(), old(self).st()) {
                None => t is None && spec_next(final(self).src(), final(self).st()) is None,
                Some((tv, st2)) => (t matches Some(tok) && tok@ == tv) && final(self).st() == st2,
            },
    {
        loop
            invariant
                self.wf(),
                self.src() == old(self).src(),
                spec_next(self.src(), self.st()) == spec_next(old(self).src(), old(self).st()),
            decreases self.src().len() - self.st().pos,
        {
            let p = self.pos;
            match self.mode {
                Mode::Base => {
                    if p >= self.input.len() {
                        return None;
                    }
                    let b = self.input[p];
                    if byte_in_class(ByteClass::White, b) {
                        let full = run_from(&self.input, p, ByteClass::White);
                        let n = if full > MAX_RUN {
                            MAX_RUN
                        } else {
                            full
                        };
                        let payload = copy_range(&self.input, p, p + n);
                        self.pos = p + n;
                        return Some(Token::WhiteSpace(payload));
                    } else if b == B_COLON {
                        self.pos = p + 1;
                        return Some(Token::Colon);
                    } else if b == B_OPEN {
                        self.pos = p + 1;
                        return Some(Token::Open);
                    } else if b == B_CLOSE {
                        self.pos = p + 1;
                        return Some(Token::Close);
                    } else if b == B_QUOTE {
                        self.pos = p + 1;
                        self.mode = Mode::Quoted;
                        self.guard = Vec::new();
                        proof {
                            assert(self.guard@ =~= Seq::<u8>::empty());
                        }
                    } else if b == B_BACKSLASH {
                        let payload = copy_range(&self.input, p, p + 1);
                        self.pos = p + 1;
                        return Some(Token::Bad(payload));
                    } else if b == B_HASH {
                        let cm = comment_match(&self.input, p);
                        if cm > 0 {
                            let payload = copy_range(&self.input, p, p + cm);
                            self.pos = p + cm;
                            self.mode = Mode::Comment;
                            return Some(Token::Comment(payload));
                        }
                        let op = hash_opener(&self.input, p);
                        if op > 0 {
                            self.guard = copy_range(&self.input, p, p + op - 1);
                            self.pos = p + op;
                            self.mode = Mode::Quoted;
                        } else {
                            let pb = hash_paren_bad(&self.input, p);
                            if pb > 0 {
                                let payload = copy_range(&self.input, p, p + pb);
                                self.pos = p + pb;
                                return Some(Token::Bad(payload));
                            } else if 1 < self.input.len() - p && {
                                let c = self.input[p + 1];
                                c != B_SPACE && c != B_TAB && c != B_OPEN
                            } {
                                let payload = copy_range(&self.input, p, p + 2);
                                self.pos = p + 2;
                                return Some(Token::Bad(payload));
                            } else {
                                let payload = copy_range(&self.input, p, p + 1);
                                self.pos = p + 1;
                                return Some(Token::Bad(payload));
                            }
                        }
                    } else if byte_in_class(ByteClass::Bare, b) {
                        let full = run_from(&self.input, p, ByteClass::Bare);
                        let n = if full > MAX_RUN {
                            MAX_RUN
                        } else {
                            full
                        };
                        let payload = copy_range(&self.input, p, p + n);
                        self.pos = p + n;
                        return Some(Token::Bare(payload));
                    } else {
                        // NUL, the one byte left: always disallowed
                        let payload = copy_range(&self.input, p, p + 1);
                        self.pos = p + 1;
                        return Some(Token::Bad(payload));
                    }
                },
                Mode::Comment => {
                    if p >= self.input.len() {
                        return None;
                    }
                    let b = self.input[p];
                    if b == B_NL || b == B_CR {
                        let payload = copy_range(&self.input, p, p + 1);
                        self.pos = p + 1;
                        self.mode = Mode::Base;
                        return Some(Token::WhiteSpace(payload));
                    } else if byte_in_class(ByteClass::CommentBody, b) {
                        let full = run_from(&self.input, p, ByteClass::CommentBody);
                        let n = if full > MAX_RUN {
                            MAX_RUN
                        } else {
                            full
                        };
                        let payload = copy_range(&self.input, p, p + n);
                        self.pos = p + n;
                        return Some(Token::Comment(payload));
                    } else {
                        // NUL: always disallowed
                        let payload = copy_range(&self.input, p, p + 1);
                        self.pos = p + 1;
                        return Some(Token::Bad(payload));
                    }
                },
                Mode::Quoted => {
                    if p >= self.input.len() {
                        self.mode = Mode::Base;
                        let mut payload: Vec<u8> = Vec::new();
                        payload.push(B_QUOTE);
                        proof {
                            assert(payload@ =~= seq![B_QUOTE]);
                        }
                        return Some(Token::Bad(payload));
                    }
                    match quoted_guard(&self.input, p) {
                        None => {
                            if byte_in_class(ByteClass::Part, self.input[p]) {
                                let full = run_from(&self.input, p, ByteClass::Part);
                                let n = if full > MAX_RUN {
                                    MAX_RUN
                                } else {
                                    full
                                };
                                let payload = copy_range(&self.input, p, p + n);
                                self.pos = p + n;
                                return Some(Token::Quoted(payload));
                            } else {
                                // NUL: always disallowed
                                let payload = copy_range(&self.input, p, p + 1);
                                self.pos = p + 1;
                                return Some(Token::Bad(payload));
                            }
                        },
                        Some(ql) => {
                            let q = p + ql;
                            if self.input[q] == B_QUOTE {
                                if bytes_eq_range(&self.guard, &self.input, p, q) {
                                    self.pos = q + 1;
                                    self.mode = Mode::Base;
                                } else {
                                    let payload = copy_range(&self.input, p, q + 1);
                                    self.pos = q + 1;
                                    return Some(Token::Quoted(payload));
                                }
                            } else {
                                return Some(self.next_escape(p, q, ql));
                            }
                        },
                    }
                },
            }
        }
    }

    /// Lex the escape (or bad escape) whose backslash stands at `q`.
    fn next_escape(&mut self, p: usize, q: usize, ql: usize) -> (t: Token)
        requires
            old(self).wf(),
            old(self).st().mode is Quoted,
            p == old(self).st().pos,
            q == p + ql,
            quoted_guard_len(old(self).src(), p as int) == ql as int,
            q < old(self).src().len(),
            old(self).src()[q as int] == B_BACKSLASH,
        ensures
            final(self).wf(),
            final(self).src() == old(self).src(),
            spec_quoted_escape(old(self).src(), old(self).st(), p as int, q as int) matches Some(
                (tv, st2),
            ) && t@ == tv && final(self).st() == st2,
    {
        let len = self.input.len();
        if len - q < 2 {
            let payload = copy_range(&self.input, p, q + 1);
            self.pos = q + 1;
            return Token::Bad(payload);
        }
        let e = self.input[q + 1];
        if e == B_QUOTE || e == 0x65u8 || e == 0x6eu8 || e == 0x72u8 || e == 0x74u8 || e == 0x30u8 {
            let payload = copy_range(&self.input, p, q + 2);
            self.pos = q + 2;
            return Token::Esc(payload);
        }
        if e == 0x78u8 && len - q > 3 && byte_in_class(ByteClass::Hex, self.input[q + 2])
            && byte_in_class(ByteClass::Hex, self.input[q + 3]) {
            let payload = copy_range(&self.input, p, q + 4);
            self.pos = q + 4;
            return Token::Esc(payload);
        }
        if e == 0x75u8 && len - q > 2 && self.input[q + 2] == B_LBRACE {
            let hr = run_from(&self.input, q + 3, ByteClass::Hex);
            if 2 <= hr && hr <= 8 && hr + 3 < len - q && self.input[q + 3 + hr] == B_RBRACE {
                let payload = copy_range(&self.input, p, q + 3 + hr + 1);
                self.pos = q + 3 + hr + 1;
                return Token::Esc(payload);
            }
        }
        if byte_in_class(ByteClass::White, e) {
            let w = run_from(&self.input, q + 1, ByteClass::White);
            if w <= MAX_RUN && w + 1 < len - q && self.input[q + 1 + w] == B_BACKSLASH {
                let payload = copy_range(&self.input, p, q + 1 + w + 1);
                self.pos = q + 1 + w + 1;
                return Token::Esc(payload);
            }
        }
        let payload = copy_range(&self.input, p, q + 2);
        self.pos = q + 2;
        Token::Bad(payload)
    }
}

/// Create a lexer over a copy of the given bytes, in the initial mode.
pub fn lex(input: &[u8]) -> (l: AxpLexer)
    ensures
        l.src() == input@,
        l.st() == init_st(),
        l.wf(),
{
    let l = AxpLexer {
        input: vstd::slice::slice_to_vec(input),
        pos: 0,
        mode: Mode::Base,
        guard: Vec::new(),
    };
    proof {
        assert(l.st().guard =~= Seq::<u8>::empty());
        assert(l.st() =~= init_st());
    }
    l
}

/// Lex a whole input into the finite sequence of its tokens.
pub fn lex_all(input: &[u8]) -> (r: Vec<Token>)
    ensures
        r@.map_values(|t: Token| t@) == tokens_of(input@),
{
    let mut lexer = lex(input);
    let mut out: Vec<Token> = Vec::new();
    proof {
        assert(out@.map_values(|t: Token| t@) + spec_tokens(input@, lexer.st()) =~= tokens_of(
            input@,
        ));
    }
    loop
        invariant
            lexer.wf(),
            lexer.src() == input@,
            out@.map_values(|t: Token| t@) + spec_tokens(input@, lexer.st()) == tokens_of(input@),
        decreases input@.len() - lexer.st().pos, mode_rank(lexer.st().mode),
    {
        let ghost st_before = lexer.st();
        proof {
            lemma_spec_next_progress(input@, st_before);
        }
        match lexer.next() {
            None => {
                proof {
                    assert(spec_tokens(input@, st_before) =~= Seq::<TokenV>::empty());
                    assert(out@.map_values(|t: Token| t@) =~= tokens_of(input@));
                }
                return out;
            },
            Some(t) => {
                proof {
                    let (tv, st2) = spec_next(input@, st_before).unwrap();
                    assert(spec_tokens(input@, st_before) =~= seq![tv] + spec_tokens(input@, st2));
                    assert((out@.push(t)).map_values(|x: Token| x@) =~= out@.map_values(
                        |x: Token| x@,
                    ).push(t@));
                }
                out.push(t);
            },
        }
    }
}

} // verus!
