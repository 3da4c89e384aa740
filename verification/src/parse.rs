use vstd::prelude::*;
use vstd::string::StringExecFns;
use vstd::utf8::{encode_scalar, is_scalar};

use crate::atom::Atom;
use crate::item::{
    lemma_view_entries_push, lemma_view_items_push, view_entries, view_items, Dict, Item, ItemV,
    List,
};
use crate::lex::{
    is_ws_byte, lex, spec_next, spec_tokens, tokens_of, AxpLexer, TokenV, Token,
    B_BACKSLASH, B_QUOTE, B_LBRACE, B_RBRACE,
};
use crate::pretty::spec_pretty;

verus! {

// ---------------------------------------------------------------------------
// Parse errors
// ---------------------------------------------------------------------------

/// Model of a parse error: what was found where something else was expected.
pub ghost enum ParseErrV {
    /// A bad token (disallowed byte, malformed escape, missing closing
    /// quote) where an element was expected.
    BadToken(Seq<u8>),
    /// A stray `:` where an element was expected.
    UnexpectedColon,
    /// A stray `)` at top level, or a `)` where a map value was expected.
    UnexpectedClose,
    /// End of input inside a nested compound or where a map value was
    /// expected.
    UnexpectedEnd,
    /// Any other token after a map key, where `:` was expected.
    UnexpectedToken(TokenV),
}

/// A short description of a token, as used in error messages.
pub open spec fn token_brief(t: TokenV) -> Seq<char> {
    match t {
        TokenV::WhiteSpace(_) => "white space"@,
        TokenV::Bare(s) => "bare part `"@ + spec_pretty(s, 20) + "`"@,
        TokenV::Comment(_) => "comment part"@,
        TokenV::Colon => ":"@,
        TokenV::Open => "("@,
        TokenV::Close => ")"@,
        TokenV::Bad(s) => "bad token `"@ + spec_pretty(s, 20) + "`"@,
        TokenV::Quoted(s) => "quoted part `"@ + spec_pretty(s, 20) + "`"@,
        TokenV::Esc(s) => "esc `"@ + spec_pretty(s, 20) + "`"@,
    }
}

/// The message a parse error carries.
pub open spec fn error_message(e: ParseErrV) -> Seq<char> {
    match e {
        ParseErrV::BadToken(s) => "bad: "@ + spec_pretty(s, 0),
        ParseErrV::UnexpectedColon => "unexpected :"@,
        ParseErrV::UnexpectedClose => "unexpected )"@,
        ParseErrV::UnexpectedEnd => "unexpected end"@,
        ParseErrV::UnexpectedToken(t) => "unexpected "@ + token_brief(t),
    }
}

/// A structured parse error carrying a human-readable message.
#[derive(Clone, Debug, Eq, PartialEq)]
pub struct ParseError(String);

impl View for ParseError {
    type V = Seq<char>;

    closed spec fn view(&self) -> Seq<char> {
        self.0@
    }
}

impl ParseError {
    /// Build an error from a message.
    pub fn new(msg: String) -> (r: Self)
        ensures
            r@ == msg@,
    {
        ParseError(msg)
    }

    /// The error's message.
    pub fn message(&self) -> (r: &String)
        ensures
            r@ == self@,
    {
        &self.0
    }
}

// ---------------------------------------------------------------------------
// Decoding escape tokens
// ---------------------------------------------------------------------------

/// Position of the first backslash in an escape token: the bytes of a guard
/// before it never contain one.
pub open spec fn backslash_at(s: Seq<u8>, i: int) -> int
    decreases s.len() - i,
    when 0 <= i <= s.len()
{
    if i < s.len() {
        if s[i] == B_BACKSLASH {
            i
        } else {
            backslash_at(s, i + 1)
        }
    } else {
        i
    }
}

/// Value of one hexadecimal digit byte.
pub open spec fn hex_val(b: u8) -> int {
    if 0x30 <= b && b <= 0x39 {
        b - 0x30
    } else if 0x61 <= b && b <= 0x66 {
        b - 0x57
    } else {
        b - 0x37
    }
}

/// Value of a big-endian run of hexadecimal digit bytes.
pub open spec fn hex_seq_val(s: Seq<u8>) -> int
    decreases s.len(),
{
    if s.len() == 0 {
        0
    } else {
        hex_seq_val(s.drop_last()) * 16 + hex_val(s.last())
    }
}

/// True when every byte of the sequence is a hexadecimal digit.
pub open spec fn all_hex(s: Seq<u8>) -> bool {
    forall|i: int| 0 <= i < s.len() ==> crate::lex::is_hex_byte(#[trigger] s[i])
}

/// The bytes an escape token stands for: the escaped character itself for
/// the letter escapes, the named byte for `\xHH`, the UTF-8 encoding of the
/// scalar for `\u{..}`, and nothing for a line continuation. `None` when
/// the token is not a well-formed escape, or names a value that is not a
/// Unicode scalar.
pub open spec fn esc_bytes(s: Seq<u8>) -> Option<Seq<u8>> {
    let b = backslash_at(s, 0);
    if b + 1 < s.len() {
        let e = s[b + 1];
        if e == B_QUOTE {
            Some(seq![B_QUOTE])
        } else if e == 0x65u8 {
            Some(seq![0x1bu8])
        } else if e == 0x6eu8 {
            Some(seq![0x0au8])
        } else if e == 0x72u8 {
            Some(seq![0x0du8])
        } else if e == 0x74u8 {
            Some(seq![0x09u8])
        } else if e == 0x30u8 {
            Some(seq![0x00u8])
        } else if e == 0x78u8 {
            if s.len() == b + 4 && all_hex(s.subrange(b + 2, b + 4)) {
                Some(seq![hex_seq_val(s.subrange(b + 2, b + 4)) as u8])
            } else {
                None
            }
        } else if e == 0x75u8 {
            if s.len() >= b + 6 && s[b + 2] == B_LBRACE && s.last() == B_RBRACE && s.len() <= b
                + 12 && all_hex(s.subrange(b + 3, s.len() - 1)) {
                let v = hex_seq_val(s.subrange(b + 3, s.len() - 1));
                if is_scalar(v as u32) {
                    Some(encode_scalar(v as u32))
                } else {
                    None
                }
            } else {
                None
            }
        } else if is_ws_byte(e) {
            Some(seq![])
        } else {
            None
        }
    } else {
        None
    }
}

// ---------------------------------------------------------------------------
// The parser, as a specification over the token sequence
// ---------------------------------------------------------------------------

/// First position at or after `i` that holds neither whitespace nor a
/// comment token.
pub open spec fn skip_ws_at(ts: Seq<TokenV>, i: int) -> int
    decreases ts.len() - i,
    when 0 <= i <= ts.len()
{
    if i < ts.len() && (ts[i] is WhiteSpace || ts[i] is Comment) {
        skip_ws_at(ts, i + 1)
    } else {
        i
    }
}

pub proof fn lemma_skip_ws_bounds(ts: Seq<TokenV>, i: int)
    requires
        0 <= i <= ts.len(),
    ensures
        i <= skip_ws_at(ts, i) <= ts.len(),
        skip_ws_at(ts, i) < ts.len() ==> !(ts[skip_ws_at(ts, i)] is WhiteSpace) && !(
        ts[skip_ws_at(ts, i)] is Comment),
    decreases ts.len() - i,
{
    if i < ts.len() && (ts[i] is WhiteSpace || ts[i] is Comment) {
        lemma_skip_ws_bounds(ts, i + 1);
    }
}

/// A position clamped into the range `(i, ts.len()]`, used to state the
/// parser's recursion so that it visibly terminates. On every reachable
/// parse the clamped position equals the real one.
pub open spec fn clamp_after(ts: Seq<TokenV>, i: int, k: int) -> int {
    if k <= i {
        i + 1
    } else if k > ts.len() {
        ts.len() as int
    } else {
        k
    }
}

/// Accumulate the bytes of consecutive bare tokens starting at `i` (a long
/// word the lexer split into capped runs), together with the position after
/// the run.
pub open spec fn bare_run(ts: Seq<TokenV>, i: int) -> (Seq<u8>, int)
    decreases ts.len() - i, 0int,
    when 0 <= i <= ts.len()
{
    if i < ts.len() {
        match ts[i] {
            TokenV::Bare(s) => {
                let (rest, k) = bare_run(ts, i + 1);
                (s + rest, k)
            },
            _ => (seq![], i),
        }
    } else {
        (seq![], i)
    }
}

pub proof fn lemma_bare_run_bounds(ts: Seq<TokenV>, i: int)
    requires
        0 <= i <= ts.len(),
    ensures
        i <= bare_run(ts, i).1 <= ts.len(),
        i < ts.len() && ts[i] is Bare ==> bare_run(ts, i).1 > i,
    decreases ts.len() - i,
{
    if i < ts.len() && ts[i] is Bare {
        lemma_bare_run_bounds(ts, i + 1);
    }
}

/// Accumulate the bytes of a run of consecutive quoted-part and escape
/// tokens starting at `i`, together with the position after the run.
pub open spec fn quoted_atom(ts: Seq<TokenV>, i: int) -> Result<(Seq<u8>, int), ParseErrV>
    decreases ts.len() - i, 0int,
    when 0 <= i <= ts.len()
{
    if i < ts.len() {
        match ts[i] {
            TokenV::Quoted(s) => match quoted_atom(ts, i + 1) {
                Ok((rest, j)) => Ok((s + rest, j)),
                Err(e) => Err(e),
            },
            TokenV::Esc(s) => match esc_bytes(s) {
                Some(b) => match quoted_atom(ts, i + 1) {
                    Ok((rest, j)) => Ok((b + rest, j)),
                    Err(e) => Err(e),
                },
                None => Err(ParseErrV::BadToken(s)),
            },
            _ => Ok((seq![], i)),
        }
    } else {
        Ok((seq![], i))
    }
}

/// Parse one element whose first significant token stands at `j`: a bare
/// word or quoted run becomes an atom, `(` opens a nested compound.
pub open spec fn spec_parse_element(ts: Seq<TokenV>, j: int) -> Result<(ItemV, int), ParseErrV>
    decreases ts.len() - j, 1int,
    when 0 <= j < ts.len()
{
    match ts[j] {
        TokenV::Bare(_) => {
            let (bytes, k) = bare_run(ts, j);
            Ok((ItemV::Atom(bytes), k))
        },
        TokenV::Quoted(_) => match quoted_atom(ts, j) {
            Ok((bytes, k)) => Ok((ItemV::Atom(bytes), k)),
            Err(e) => Err(e),
        },
        TokenV::Esc(_) => match quoted_atom(ts, j) {
            Ok((bytes, k)) => Ok((ItemV::Atom(bytes), k)),
            Err(e) => Err(e),
        },
        TokenV::Open => spec_parse_compound(ts, j + 1, false),
        _ => Err(ParseErrV::UnexpectedEnd),
    }
}

/// Parse a compound's contents from `i` on: a list until a colon follows
/// the first element, a map from then on.
pub open spec fn spec_parse_compound(ts: Seq<TokenV>, i: int, top: bool) -> Result<
    (ItemV, int),
    ParseErrV,
>
    decreases ts.len() - i, 3int,
    when 0 <= i <= ts.len()
{
    spec_parse_elems(ts, i, top, ItemV::List(seq![]))
}

/// One turn of the compound loop: read a key or element, decide list or
/// map, for a map read the mandatory value, and continue.
pub open spec fn spec_parse_elems(ts: Seq<TokenV>, i: int, top: bool, acc: ItemV) -> Result<
    (ItemV, int),
    ParseErrV,
>
    decreases ts.len() - i, 2int,
    when 0 <= i <= ts.len()
    via spec_parse_elems_decreases
{
    let j = skip_ws_at(ts, i);
    if j >= ts.len() {
        if top {
            Ok((acc, j))
        } else {
            Err(ParseErrV::UnexpectedEnd)
        }
    } else {
        match ts[j] {
            TokenV::Close => if top {
                Err(ParseErrV::UnexpectedClose)
            } else {
                Ok((acc, j + 1))
            },
            TokenV::Colon => Err(ParseErrV::UnexpectedColon),
            TokenV::Bad(s) => Err(ParseErrV::BadToken(s)),
            _ => match spec_parse_element(ts, j) {
                Err(e) => Err(e),
                Ok((key, k0)) => {
                    let k = clamp_after(ts, j, k0);
                    let k2 = skip_ws_at(ts, k);
                    match acc {
                        ItemV::List(elems) => {
                            if k2 < ts.len() && ts[k2] is Colon && elems.len() == 0 {
                                spec_parse_entry(ts, k2 + 1, top, seq![], key)
                            } else {
                                spec_parse_elems(ts, k, top, ItemV::List(elems.push(key)))
                            }
                        },
                        ItemV::Dict(entries) => {
                            if k2 >= ts.len() {
                                Err(ParseErrV::UnexpectedEnd)
                            } else if ts[k2] is Colon {
                                spec_parse_entry(ts, k2 + 1, top, entries, key)
                            } else {
                                Err(ParseErrV::UnexpectedToken(ts[k2]))
                            }
                        },
                        ItemV::Atom(_) => Err(ParseErrV::UnexpectedEnd),
                    }
                },
            },
        }
    }
}

#[via_fn]
proof fn spec_parse_elems_decreases(ts: Seq<TokenV>, i: int, top: bool, acc: ItemV) {
    assert forall|k: int| 0 <= k <= ts.len() implies k <= #[trigger] skip_ws_at(ts, k)
        <= ts.len() by {
        lemma_skip_ws_bounds(ts, k);
    }
}

/// After a key and its colon: read the mandatory map value and continue
/// the compound loop.
pub open spec fn spec_parse_entry(
    ts: Seq<TokenV>,
    i: int,
    top: bool,
    entries: Seq<(ItemV, ItemV)>,
    key: ItemV,
) -> Result<(ItemV, int), ParseErrV>
    decreases ts.len() - i, 2int,
    when 0 <= i <= ts.len()
    via spec_parse_entry_decreases
{
    let m = skip_ws_at(ts, i);
    if m >= ts.len() {
        Err(ParseErrV::UnexpectedEnd)
    } else {
        match ts[m] {
            TokenV::Close => Err(ParseErrV::UnexpectedClose),
            TokenV::Colon => Err(ParseErrV::UnexpectedColon),
            TokenV::Bad(s) => Err(ParseErrV::BadToken(s)),
            _ => match spec_parse_element(ts, m) {
                Err(e) => Err(e),
                Ok((value, k0)) => {
                    let k = clamp_after(ts, m, k0);
                    spec_parse_elems(ts, k, top, ItemV::Dict(entries.push((key, value))))
                },
            },
        }
    }
}

#[via_fn]
proof fn spec_parse_entry_decreases(
    ts: Seq<TokenV>,
    i: int,
    top: bool,
    entries: Seq<(ItemV, ItemV)>,
    key: ItemV,
) {
    assert forall|k: int| 0 <= k <= ts.len() implies k <= #[trigger] skip_ws_at(ts, k)
        <= ts.len() by {
        lemma_skip_ws_bounds(ts, k);
    }
}

/// Parse a whole token sequence as a top-level compound.
pub open spec fn spec_parse_tokens(ts: Seq<TokenV>) -> Result<ItemV, ParseErrV> {
    match spec_parse_compound(ts, 0, true) {
        Ok((v, _)) => Ok(v),
        Err(e) => Err(e),
    }
}

/// What parsing a byte input yields: the tree, or the first error.
pub open spec fn spec_parse(input: Seq<u8>) -> Result<ItemV, ParseErrV> {
    spec_parse_tokens(tokens_of(input))
}


// ---------------------------------------------------------------------------
// Executable escape decoding
// ---------------------------------------------------------------------------

/// Sixteen to the given power.
pub open spec fn pow16(n: nat) -> int
    decreases n,
{
    if n == 0 {
        1
    } else {
        16 * pow16((n - 1) as nat)
    }
}

pub proof fn lemma_hex_seq_val_bound(s: Seq<u8>)
    requires
        all_hex(s),
    ensures
        0 <= hex_seq_val(s) < pow16(s.len()),
    decreases s.len(),
{
    if s.len() > 0 {
        assert(all_hex(s.drop_last()));
        lemma_hex_seq_val_bound(s.drop_last());
        assert(crate::lex::is_hex_byte(s.last()));
        assert(0 <= hex_val(s.last()) < 16);
    }
}

fn hex_byte_val(b: u8) -> (r: u8)
    requires
        crate::lex::is_hex_byte(b),
    ensures
        r as int == hex_val(b),
        r < 16,
{
    if 0x30 <= b && b <= 0x39 {
        b - 0x30
    } else if 0x61 <= b && b <= 0x66 {
        b - 0x57
    } else {
        b - 0x37
    }
}

fn encode_scalar_bytes(v: u32) -> (r: Vec<u8>)
    requires
        is_scalar(v),
    ensures
        r@ == encode_scalar(v),
{
    let mut r: Vec<u8> = Vec::new();
    if v <= 0x7f {
        r.push((v & 0x7f) as u8);
        proof {
            assert(r@ =~= encode_scalar(v));
        }
    } else if v <= 0x7ff {
        r.push(0xc0 | ((v >> 6u32) & 0x1f) as u8);
        r.push(0x80 | (v & 0x3f) as u8);
        proof {
            assert(r@ =~= encode_scalar(v));
        }
    } else if v <= 0xffff {
        r.push(0xe0 | ((v >> 12u32) & 0x0f) as u8);
        r.push(0x80 | ((v >> 6u32) & 0x3f) as u8);
        r.push(0x80 | (v & 0x3f) as u8);
        proof {
            assert(r@ =~= encode_scalar(v));
        }
    } else {
        r.push(0xf0 | ((v >> 18u32) & 0x7) as u8);
        r.push(0x80 | ((v >> 12u32) & 0x3f) as u8);
        r.push(0x80 | ((v >> 6u32) & 0x3f) as u8);
        r.push(0x80 | (v & 0x3f) as u8);
        proof {
            assert(r@ =~= encode_scalar(v));
        }
    }
    r
}

/// Decode an escape token's bytes, as [`esc_bytes`] says.
fn decode_escape(s: &Vec<u8>) -> (r: Option<Vec<u8>>)
    ensures
        match r {
            Some(b) => esc_bytes(s@) == Some(b@),
            None => esc_bytes(s@) is None,
        },
{
    let n = s.len();
    let mut b: usize = 0;
    proof {
        assert(backslash_at(s@, 0) == backslash_at(s@, 0));
    }
    while b < n && s[b] != 0x5c
        invariant
            n == s@.len(),
            0 <= b <= n,
            backslash_at(s@, 0) == backslash_at(s@, b as int),
        decreases n - b,
    {
        b = b + 1;
    }
    proof {
        assert(backslash_at(s@, b as int) == b as int);
    }
    if n - b < 2 {
        return None;
    }
    let e = s[b + 1];
    let mut out: Vec<u8> = Vec::new();
    if e == 0x22 {
        out.push(0x22);
        proof {
            assert(out@ =~= seq![0x22u8]);
        }
        Some(out)
    } else if e == 0x65 {
        out.push(0x1b);
        proof {
            assert(out@ =~= seq![0x1bu8]);
        }
        Some(out)
    } else if e == 0x6e {
        out.push(0x0a);
        proof {
            assert(out@ =~= seq![0x0au8]);
        }
        Some(out)
    } else if e == 0x72 {
        out.push(0x0d);
        proof {
            assert(out@ =~= seq![0x0du8]);
        }
        Some(out)
    } else if e == 0x74 {
        out.push(0x09);
        proof {
            assert(out@ =~= seq![0x09u8]);
        }
        Some(out)
    } else if e == 0x30 {
        out.push(0x00);
        proof {
            assert(out@ =~= seq![0x00u8]);
        }
        Some(out)
    } else if e == 0x78 {
        if n - b == 4 && byte_is_hex(s[b + 2]) && byte_is_hex(s[b + 3]) {
            let ghost digits = s@.subrange(b + 2, b + 4);
            proof {
                assert(digits.len() == 2);
                assert(digits[0] == s@[b + 2]);
                assert(digits[1] == s@[b + 3]);
                assert(all_hex(digits));
                assert(digits.last() == s@[b + 3]);
                assert(digits.drop_last() =~= seq![s@[b + 2]]);
                assert(seq![s@[b + 2]].drop_last() =~= Seq::<u8>::empty());
                assert(hex_seq_val(Seq::<u8>::empty()) == 0);
                assert(hex_seq_val(seq![s@[b + 2]]) == hex_val(s@[b + 2]));
                assert(hex_seq_val(digits) == hex_val(s@[b + 2]) * 16 + hex_val(s@[b + 3]));
            }
            let v = hex_byte_val(s[b + 2]) * 16 + hex_byte_val(s[b + 3]);
            out.push(v);
            proof {
                assert(out@ =~= seq![hex_seq_val(digits) as u8]);
            }
            Some(out)
        } else {
            proof {
                if n - b == 4 {
                    let ghost digits = s@.subrange(b + 2, b + 4);
                    assert(digits[0] == s@[b + 2]);
                    assert(digits[1] == s@[b + 3]);
                }
            }
            None
        }
    } else if e == 0x75 {
        if n - b >= 6 && s[b + 2] == 0x7b && s[n - 1] == 0x7d && n - b <= 12 {
            let ghost digits = s@.subrange(b + 3, n - 1);
            let mut idx = b + 3;
            let mut v: u32 = 0;
            proof {
                assert(digits.take(0) =~= Seq::<u8>::empty());
            }
            while idx < n - 1
                invariant
                    n == s@.len(),
                    0 <= b,
                    backslash_at(s@, 0) == b as int,
                    s@[b as int] == 0x5c,
                    s@[b + 1] == 0x75,
                    s@[b + 2] == 0x7b,
                    s@[n - 1] == 0x7d,
                    b + 6 <= n <= b + 12,
                    b + 3 <= idx <= n - 1,
                    digits == s@.subrange(b + 3, n - 1),
                    all_hex(digits.take(idx - (b + 3))),
                    v as int == hex_seq_val(digits.take(idx - (b + 3))),
                decreases n - idx,
            {
                let ghost d = idx - (b + 3);
                if !byte_is_hex(s[idx]) {
                    proof {
                        assert(digits[d] == s@[idx as int]);
                        assert(!all_hex(digits));
                        assert(esc_bytes(s@) is None);
                    }
                    return None;
                }
                let h = hex_byte_val(s[idx]);
                proof {
                    assert(digits[d] == s@[idx as int]);
                    lemma_hex_seq_val_bound(digits.take(d));
                    assert(d <= 7);
                    lemma_pow16_mono(digits.take(d).len(), 7);
                    assert(pow16(7) == 0x10000000) by {
                        assert(pow16(0) == 1);
                        assert(pow16(1) == 16);
                        assert(pow16(2) == 0x100);
                        assert(pow16(3) == 0x1000);
                        assert(pow16(4) == 0x10000);
                        assert(pow16(5) == 0x100000);
                        assert(pow16(6) == 0x1000000);
                    }
                    assert(v < 0x10000000);
                    assert(digits.take(d + 1) =~= digits.take(d).push(s@[idx as int]));
                    assert(hex_seq_val(digits.take(d + 1)) == hex_seq_val(digits.take(d)) * 16
                        + hex_val(s@[idx as int])) by {
                        assert(digits.take(d + 1).drop_last() =~= digits.take(d));
                        assert(digits.take(d + 1).last() == s@[idx as int]);
                    }
                    assert(all_hex(digits.take(d + 1)));
                }
                v = v * 16 + h as u32;
                idx = idx + 1;
            }
            proof {
                assert(digits.take(n - 1 - (b + 3)) =~= digits);
                assert(all_hex(digits));
            }
            if is_scalar_value(v) {
                proof {
                    assert(v as int == hex_seq_val(digits));
                    assert((hex_seq_val(digits) as u32) == v);
                }
                Some(encode_scalar_bytes(v))
            } else {
                None
            }
        } else {
            None
        }
    } else if e == 0x20 || e == 0x0a || e == 0x0d || e == 0x09 {
        proof {
            assert(out@ =~= Seq::<u8>::empty());
        }
        Some(out)
    } else {
        None
    }
}

proof fn lemma_pow16_mono(a: nat, c: nat)
    requires
        a <= c,
    ensures
        pow16(a) <= pow16(c),
    decreases c,
{
    if a < c && c > 0 {
        lemma_pow16_mono(a, (c - 1) as nat);
        lemma_pow16_pos(a);
    }
}

proof fn lemma_pow16_pos(a: nat)
    ensures
        pow16(a) >= 1,
    decreases a,
{
    if a > 0 {
        lemma_pow16_pos((a - 1) as nat);
    }
}

fn byte_is_hex(b: u8) -> (r: bool)
    ensures
        r == crate::lex::is_hex_byte(b),
{
    (0x30 <= b && b <= 0x39) || (0x61 <= b && b <= 0x66) || (0x41 <= b && b <= 0x46)
}

fn is_scalar_value(v: u32) -> (r: bool)
    ensures
        r == is_scalar(v),
{
    v <= 0x10ffff && !(0xd800 <= v && v <= 0xdfff)
}


// ---------------------------------------------------------------------------
// The executable parser
// ---------------------------------------------------------------------------

/// The parser: a lexer and one token of lookahead.
struct Parser {
    lexer: AxpLexer,
    token: Option<Token>,
}

impl Parser {
    /// The input bytes being parsed.
    spec fn src(&self) -> Seq<u8> {
        self.lexer.src()
    }

    /// The tokens not yet consumed: the lookahead, then whatever the lexer
    /// still produces.
    spec fn remaining(&self) -> Seq<TokenV> {
        match self.token {
            Some(t) => seq![t@] + spec_tokens(self.lexer.src(), self.lexer.st()),
            None => Seq::empty(),
        }
    }

    spec fn wf(&self) -> bool {
        &&& self.lexer.wf()
        &&& (self.token is None ==> spec_tokens(self.lexer.src(), self.lexer.st()).len() == 0)
    }

    /// Start parsing: pull the first token.
    fn start(lexer: AxpLexer) -> (p: Self)
        requires
            lexer.wf(),
        ensures
            p.wf(),
            p.src() == lexer.src(),
            p.remaining() == spec_tokens(lexer.src(), lexer.st()),
    {
        let ghost st0 = lexer.st();
        let mut lexer = lexer;
        let t = lexer.next();
        proof {
            match spec_next(lexer.src(), st0) {
                None => {
                    assert(spec_tokens(lexer.src(), st0) =~= Seq::<TokenV>::empty());
                },
                Some((tv, st2)) => {
                    assert(spec_tokens(lexer.src(), st0) =~= seq![tv] + spec_tokens(
                        lexer.src(),
                        st2,
                    ));
                },
            }
        }
        Parser { lexer, token: t }
    }

    /// Drop the lookahead and pull the next token.
    fn advance(&mut self)
        requires
            old(self).wf(),
            old(self).remaining().len() > 0,
        ensures
            final(self).wf(),
            final(self).src() == old(self).src(),
            final(self).remaining() == old(self).remaining().drop_first(),
    {
        let ghost st0 = self.lexer.st();
        let t = self.lexer.next();
        proof {
            match spec_next(self.lexer.src(), st0) {
                None => {
                    assert(spec_tokens(self.lexer.src(), st0) =~= Seq::<TokenV>::empty());
                },
                Some((tv, st2)) => {
                    assert(spec_tokens(self.lexer.src(), st0) =~= seq![tv] + spec_tokens(
                        self.lexer.src(),
                        st2,
                    ));
                },
            }
        }
        self.token = t;
        proof {
            assert(final(self).remaining() =~= old(self).remaining().drop_first());
        }
    }
}

/// Skip whitespace and comment tokens.
fn skip_ws(p: &mut Parser, Ghost(ts): Ghost<Seq<TokenV>>, Ghost(i): Ghost<int>)
    requires
        old(p).wf(),
        0 <= i <= ts.len(),
        old(p).remaining() == ts.skip(i),
    ensures
        final(p).wf(),
        final(p).src() == old(p).src(),
        final(p).remaining() == ts.skip(skip_ws_at(ts, i)),
{
    let ghost mut cur = i;
    loop
        invariant
            p.wf(),
            p.src() == old(p).src(),
            0 <= cur <= ts.len(),
            p.remaining() == ts.skip(cur),
            skip_ws_at(ts, cur) == skip_ws_at(ts, i),
        decreases ts.len() - cur,
    {
        let is_trivia = match &p.token {
            Some(Token::WhiteSpace(_)) => true,
            Some(Token::Comment(_)) => true,
            _ => false,
        };
        if !is_trivia {
            proof {
                if p.token is None {
                    assert(p.remaining().len() == 0);
                    assert(cur == ts.len());
                } else {
                    assert(p.remaining()[0] == ts[cur]);
                }
                assert(skip_ws_at(ts, cur) == cur);
            }
            return ;
        }
        proof {
            assert(p.remaining().len() > 0);
            assert(cur < ts.len());
            assert(p.remaining()[0] == ts[cur]);
            assert(ts[cur] is WhiteSpace || ts[cur] is Comment);
            assert(ts.skip(cur).drop_first() =~= ts.skip(cur + 1));
        }
        p.advance();
        proof {
            cur = cur + 1;
        }
    }
}


pub proof fn lemma_quoted_atom_bounds(ts: Seq<TokenV>, i: int)
    requires
        0 <= i <= ts.len(),
    ensures
        quoted_atom(ts, i) matches Ok((b, k)) ==> i <= k <= ts.len(),
    decreases ts.len() - i,
{
    if i < ts.len() {
        match ts[i] {
            TokenV::Quoted(_) => lemma_quoted_atom_bounds(ts, i + 1),
            TokenV::Esc(s) => if esc_bytes(s) is Some {
                lemma_quoted_atom_bounds(ts, i + 1);
            },
            _ => {},
        }
    }
}

fn fixed_error(msg: &str) -> (r: ParseError)
    ensures
        r@ == msg@,
{
    ParseError::new(String::from_str(msg))
}

fn bad_token_error(s: &Vec<u8>) -> (r: ParseError)
    ensures
        r@ == error_message(ParseErrV::BadToken(s@)),
{
    let mut m = String::from_str("bad: ");
    let rendered = crate::pretty::pretty(s.as_slice(), 0);
    m.append(rendered.as_str());
    proof {
        assert(m@ =~= error_message(ParseErrV::BadToken(s@)));
    }
    ParseError::new(m)
}

fn token_error(t: &Token) -> (r: ParseError)
    ensures
        r@ == error_message(ParseErrV::UnexpectedToken(t@)),
{
    let mut m = String::from_str("unexpected ");
    match t {
        Token::WhiteSpace(_) => {
            m.append("white space");
        },
        Token::Bare(s) => {
            m.append("bare part `");
            let rendered = crate::pretty::pretty(s.as_slice(), 20);
            m.append(rendered.as_str());
            m.append("`");
        },
        Token::Comment(_) => {
            m.append("comment part");
        },
        Token::Colon => {
            m.append(":");
        },
        Token::Open => {
            m.append("(");
        },
        Token::Close => {
            m.append(")");
        },
        Token::Bad(s) => {
            m.append("bad token `");
            let rendered = crate::pretty::pretty(s.as_slice(), 20);
            m.append(rendered.as_str());
            m.append("`");
        },
        Token::Quoted(s) => {
            m.append("quoted part `");
            let rendered = crate::pretty::pretty(s.as_slice(), 20);
            m.append(rendered.as_str());
            m.append("`");
        },
        Token::Esc(s) => {
            m.append("esc `");
            let rendered = crate::pretty::pretty(s.as_slice(), 20);
            m.append(rendered.as_str());
            m.append("`");
        },
    }
    proof {
        assert(m@ =~= error_message(ParseErrV::UnexpectedToken(t@)));
    }
    ParseError::new(m)
}

/// Accumulate a run of quoted-part and escape tokens into atom bytes.
fn parse_quoted(p: &mut Parser, Ghost(ts): Ghost<Seq<TokenV>>, Ghost(i): Ghost<int>) -> (r: Result<
    Vec<u8>,
    ParseError,
>)
    requires
        old(p).wf(),
        0 <= i <= ts.len(),
        old(p).remaining() == ts.skip(i),
    ensures
        final(p).wf(),
        final(p).src() == old(p).src(),
        match quoted_atom(ts, i) {
            Ok((bytes, k)) => (r matches Ok(v) && v@ == bytes) && final(p).remaining() == ts.skip(
                k,
            ) && i <= k <= ts.len(),
            Err(e) => r matches Err(err) && err@ == error_message(e),
        },
{
    let mut acc: Vec<u8> = Vec::new();
    let ghost mut cur = i;
    loop
        invariant
            p.wf(),
            p.src() == old(p).src(),
            0 <= i <= cur <= ts.len(),
            p.remaining() == ts.skip(cur),
            match quoted_atom(ts, cur) {
                Ok((bytes, k)) => quoted_atom(ts, i) matches Ok((all, k2)) && all == acc@ + bytes
                    && k2 == k,
                Err(e) => quoted_atom(ts, i) == Err::<(Seq<u8>, int), ParseErrV>(e),
            },
        decreases ts.len() - cur,
    {
        proof {
            lemma_quoted_atom_bounds(ts, cur);
            if cur < ts.len() {
                assert(p.remaining()[0] == ts[cur]);
            } else {
                assert(p.remaining().len() == 0);
            }
        }
        let step: Option<Result<Vec<u8>, ParseError>> = match &p.token {
            Some(Token::Quoted(s)) => Some(Ok(s.clone())),
            Some(Token::Esc(s)) => match decode_escape(s) {
                Some(b) => Some(Ok(b)),
                None => Some(Err(bad_token_error(s))),
            },
            _ => None,
        };
        match step {
            None => {
                proof {
                    assert(quoted_atom(ts, cur) == Ok::<(Seq<u8>, int), ParseErrV>((
                        Seq::<u8>::empty(),
                        cur,
                    )));
                    assert(acc@ + Seq::<u8>::empty() =~= acc@);
                }
                return Ok(acc);
            },
            Some(Err(e)) => {
                return Err(e);
            },
            Some(Ok(mut b)) => {
                proof {
                    assert(cur < ts.len());
                    assert(ts.skip(cur).drop_first() =~= ts.skip(cur + 1));
                    lemma_quoted_atom_bounds(ts, cur + 1);
                    match quoted_atom(ts, cur + 1) {
                        Ok((rest, k)) => {
                            assert(acc@ + (b@ + rest) =~= (acc@ + b@) + rest);
                        },
                        Err(_) => {},
                    }
                }
                acc.append(&mut b);
                p.advance();
                proof {
                    cur = cur + 1;
                }
            },
        }
    }
}


/// The partial compound being built: a list of elements, or, once a colon
/// followed the first element, a map of entries.
pub open spec fn acc_view(is_dict: bool, elems: Seq<Item>, entries: Seq<(Item, Item)>) -> ItemV {
    if is_dict {
        ItemV::Dict(view_entries(entries))
    } else {
        ItemV::List(view_items(elems))
    }
}

/// Parse one element whose first significant token is the lookahead.
fn parse_element(p: &mut Parser, Ghost(ts): Ghost<Seq<TokenV>>, Ghost(j): Ghost<int>) -> (r:
    Result<Item, ParseError>)
    requires
        old(p).wf(),
        0 <= j < ts.len(),
        old(p).remaining() == ts.skip(j),
        ts[j] is Bare || ts[j] is Open || ts[j] is Quoted || ts[j] is Esc,
    ensures
        final(p).wf(),
        final(p).src() == old(p).src(),
        match spec_parse_element(ts, j) {
            Ok((v, k)) => (r matches Ok(item) && item@ == v) && final(p).remaining() == ts.skip(k)
                && j < k <= ts.len(),
            Err(e) => r matches Err(err) && err@ == error_message(e),
        },
    decreases ts.len() - j, 1int,
{
    proof {
        assert(p.remaining()[0] == ts[j]);
    }
    let bare: Option<Vec<u8>> = match &p.token {
        Some(Token::Bare(b)) => Some(b.clone()),
        _ => None,
    };
    if let Some(mut bytes) = bare {
        proof {
            assert(ts.skip(j).drop_first() =~= ts.skip(j + 1));
            assert(bytes@ =~= ts[j]->Bare_0);
            lemma_bare_run_bounds(ts, j + 1);
        }
        p.advance();
        let ghost mut cur = j + 1;
        // a long word comes back from the lexer as consecutive capped bare
        // tokens; reassemble them into one atom
        loop
            invariant
                p.wf(),
                p.src() == old(p).src(),
                0 <= j < cur <= ts.len(),
                p.remaining() == ts.skip(cur),
                ({
                    let (rest, k) = bare_run(ts, cur);
                    bare_run(ts, j) == (bytes@ + rest, k)
                }),
            decreases ts.len() - cur,
        {
            proof {
                lemma_bare_run_bounds(ts, cur);
                if cur < ts.len() {
                    assert(p.remaining()[0] == ts[cur]);
                } else {
                    assert(p.remaining().len() == 0);
                }
            }
            let more: Option<Vec<u8>> = match &p.token {
                Some(Token::Bare(b)) => Some(b.clone()),
                _ => None,
            };
            match more {
                None => {
                    proof {
                        assert(bare_run(ts, cur) == (Seq::<u8>::empty(), cur));
                        assert(bytes@ + Seq::<u8>::empty() =~= bytes@);
                    }
                    return Ok(Item::Atom(Atom(bytes)));
                },
                Some(mut b) => {
                    proof {
                        assert(cur < ts.len());
                        assert(ts.skip(cur).drop_first() =~= ts.skip(cur + 1));
                        assert(b@ =~= ts[cur]->Bare_0);
                        let (rest, k) = bare_run(ts, cur + 1);
                        assert(bytes@ + (b@ + rest) =~= (bytes@ + b@) + rest);
                    }
                    bytes.append(&mut b);
                    p.advance();
                    proof {
                        cur = cur + 1;
                    }
                },
            }
        }
    }
    let is_open = matches!(&p.token, Some(Token::Open));
    if is_open {
        proof {
            assert(ts.skip(j).drop_first() =~= ts.skip(j + 1));
        }
        p.advance();
        return parse_compound(p, false, Ghost(ts), Ghost(j + 1));
    }
    proof {
        assert(ts[j] is Quoted || ts[j] is Esc);
        lemma_quoted_atom_bounds(ts, j + 1);
    }
    match parse_quoted(p, Ghost(ts), Ghost(j)) {
        Ok(bytes) => {
            proof {
                match quoted_atom(ts, j) {
                    Ok((b, k)) => {
                        assert(k > j);
                    },
                    Err(_) => {},
                }
            }
            Ok(Item::Atom(Atom(bytes)))
        },
        Err(e) => Err(e),
    }
}

/// Parse a compound's contents, building a list until a colon follows the
/// first element, and a map from then on.
#[verifier::rlimit(60)]
fn parse_compound(
    p: &mut Parser,
    top: bool,
    Ghost(ts): Ghost<Seq<TokenV>>,
    Ghost(i0): Ghost<int>,
) -> (r: Result<Item, ParseError>)
    requires
        old(p).wf(),
        0 <= i0 <= ts.len(),
        old(p).remaining() == ts.skip(i0),
    ensures
        final(p).wf(),
        final(p).src() == old(p).src(),
        match spec_parse_compound(ts, i0, top) {
            Ok((v, k)) => (r matches Ok(item) && item@ == v) && final(p).remaining() == ts.skip(k)
                && i0 <= k <= ts.len(),
            Err(e) => r matches Err(err) && err@ == error_message(e),
        },
    decreases ts.len() - i0, 3int,
{
    broadcast use crate::item::lemma_view_items_index, crate::item::lemma_view_entries_index;

    let mut elems: Vec<Item> = Vec::new();
    let mut entries: Vec<(Item, Item)> = Vec::new();
    let mut is_dict = false;
    let ghost mut i = i0;
    proof {
        assert(view_items(elems@) =~= Seq::<ItemV>::empty());
        assert(acc_view(false, elems@, entries@) == ItemV::List(Seq::<ItemV>::empty()));
    }
    loop
        invariant
            p.wf(),
            p.src() == old(p).src(),
            0 <= i0 <= i <= ts.len(),
            p.remaining() == ts.skip(i),
            !is_dict ==> entries@.len() == 0,
            spec_parse_elems(ts, i, top, acc_view(is_dict, elems@, entries@))
                == spec_parse_compound(ts, i0, top),
        decreases ts.len() - i,
    {
        broadcast use crate::item::lemma_view_items_index, crate::item::lemma_view_entries_index;

        let ghost acc0 = acc_view(is_dict, elems@, entries@);
        skip_ws(p, Ghost(ts), Ghost(i));
        let ghost j = skip_ws_at(ts, i);
        proof {
            lemma_skip_ws_bounds(ts, i);
            if j < ts.len() {
                assert(p.remaining()[0] == ts[j]);
            } else {
                assert(p.remaining().len() == 0);
            }
        }
        if p.token.is_none() {
            proof {
                assert(j == ts.len());
            }
            if top {
                proof {
                    assert(spec_parse_compound(ts, i0, top) == Ok::<(ItemV, int), ParseErrV>((
                        acc0,
                        j,
                    )));
                }
                if is_dict {
                    return Ok(Item::Dict(Dict(entries)));
                } else {
                    return Ok(Item::List(List(elems)));
                }
            } else {
                return Err(fixed_error("unexpected end"));
            }
        }
        let is_close = matches!(&p.token, Some(Token::Close));
        if is_close {
            proof {
                assert(ts[j] is Close);
            }
            if top {
                return Err(fixed_error("unexpected )"));
            } else {
                proof {
                    assert(ts.skip(j).drop_first() =~= ts.skip(j + 1));
                    assert(spec_parse_compound(ts, i0, top) == Ok::<(ItemV, int), ParseErrV>((
                        acc0,
                        j + 1,
                    )));
                }
                p.advance();
                if is_dict {
                    return Ok(Item::Dict(Dict(entries)));
                } else {
                    return Ok(Item::List(List(elems)));
                }
            }
        }
        let is_colon = matches!(&p.token, Some(Token::Colon));
        if is_colon {
            proof {
                assert(ts[j] is Colon);
            }
            return Err(fixed_error("unexpected :"));
        }
        let badb: Option<Vec<u8>> = match &p.token {
            Some(Token::Bad(b)) => Some(b.clone()),
            _ => None,
        };
        if let Some(b) = badb {
            proof {
                assert(ts[j] is Bad);
                assert(b@ =~= ts[j]->Bad_0);
            }
            return Err(bad_token_error(&b));
        }
        proof {
            assert(j < ts.len());
            assert(ts[j] is Bare || ts[j] is Open || ts[j] is Quoted || ts[j] is Esc);
        }
        let key = match parse_element(p, Ghost(ts), Ghost(j)) {
            Ok(v) => v,
            Err(e) => return Err(e),
        };
        let ghost k = match spec_parse_element(ts, j) {
            Ok((_, kk)) => kk,
            Err(_) => j + 1,
        };
        let ghost keyv = key@;
        proof {
            assert(clamp_after(ts, j, k) == k);
        }
        skip_ws(p, Ghost(ts), Ghost(k));
        let ghost k2 = skip_ws_at(ts, k);
        proof {
            lemma_skip_ws_bounds(ts, k);
            if k2 < ts.len() {
                assert(p.remaining()[0] == ts[k2]);
            } else {
                assert(p.remaining().len() == 0);
            }
        }
        let sees_colon = matches!(&p.token, Some(Token::Colon));
        proof {
            assert(sees_colon == (k2 < ts.len() && ts[k2] is Colon));
        }
        if !is_dict {
            if !(sees_colon && elems.len() == 0) {
                proof {
                    lemma_view_items_push(elems@, key);
                    assert(spec_parse_elems(ts, i, top, acc0) == spec_parse_elems(
                        ts,
                        k,
                        top,
                        ItemV::List(view_items(elems@).push(keyv)),
                    ));
                    assert(skip_ws_at(ts, k2) == k2);
                    assert(spec_parse_elems(ts, k, top, ItemV::List(view_items(elems@).push(keyv)))
                        == spec_parse_elems(
                        ts,
                        k2,
                        top,
                        ItemV::List(view_items(elems@).push(keyv)),
                    ));
                    i = k2;
                }
                elems.push(key);
                continue ;
            }
            is_dict = true;
            proof {
                assert(view_entries(entries@) =~= Seq::<(ItemV, ItemV)>::empty());
                assert(spec_parse_elems(ts, i, top, acc0) == spec_parse_entry(
                    ts,
                    k2 + 1,
                    top,
                    view_entries(entries@),
                    keyv,
                ));
            }
        } else {
            if !sees_colon {
                if p.token.is_none() {
                    return Err(fixed_error("unexpected end"));
                }
                let err: ParseError = match &p.token {
                    None => fixed_error("unexpected end"),
                    Some(t) => token_error(t),
                };
                proof {
                    assert(k2 < ts.len());
                }
                return Err(err);
            }
            proof {
                assert(spec_parse_elems(ts, i, top, acc0) == spec_parse_entry(
                    ts,
                    k2 + 1,
                    top,
                    view_entries(entries@),
                    keyv,
                ));
            }
        }
        // a map key with its colon: consume the colon, then the value
        proof {
            assert(ts[k2] is Colon);
            assert(ts.skip(k2).drop_first() =~= ts.skip(k2 + 1));
        }
        p.advance();
        skip_ws(p, Ghost(ts), Ghost(k2 + 1));
        let ghost m = skip_ws_at(ts, k2 + 1);
        proof {
            lemma_skip_ws_bounds(ts, k2 + 1);
            if m < ts.len() {
                assert(p.remaining()[0] == ts[m]);
            } else {
                assert(p.remaining().len() == 0);
            }
        }
        if p.token.is_none() {
            proof {
                assert(m == ts.len());
            }
            return Err(fixed_error("unexpected end"));
        }
        let is_close2 = matches!(&p.token, Some(Token::Close));
        if is_close2 {
            proof {
                assert(ts[m] is Close);
            }
            return Err(fixed_error("unexpected )"));
        }
        let is_colon2 = matches!(&p.token, Some(Token::Colon));
        if is_colon2 {
            proof {
                assert(ts[m] is Colon);
            }
            return Err(fixed_error("unexpected :"));
        }
        let badv: Option<Vec<u8>> = match &p.token {
            Some(Token::Bad(b)) => Some(b.clone()),
            _ => None,
        };
        if let Some(b) = badv {
            proof {
                assert(ts[m] is Bad);
                assert(b@ =~= ts[m]->Bad_0);
            }
            return Err(bad_token_error(&b));
        }
        proof {
            assert(m < ts.len());
            assert(ts[m] is Bare || ts[m] is Open || ts[m] is Quoted || ts[m] is Esc);
        }
        let value = match parse_element(p, Ghost(ts), Ghost(m)) {
            Ok(v) => v,
            Err(e) => return Err(e),
        };
        let ghost k3 = match spec_parse_element(ts, m) {
            Ok((_, kk)) => kk,
            Err(_) => m + 1,
        };
        proof {
            assert(clamp_after(ts, m, k3) == k3);
            lemma_view_entries_push(entries@, key, value);
            assert(spec_parse_entry(ts, k2 + 1, top, view_entries(entries@), keyv)
                == spec_parse_elems(
                ts,
                k3,
                top,
                ItemV::Dict(view_entries(entries@).push((keyv, value@))),
            ));
            i = k3;
        }
        entries.push((key, value));
    }
}

/// Parse raw bytes into an item tree: the top level of the input is itself
/// a compound's contents without enclosing parentheses. Returns the tree,
/// or the first error with its message.
pub fn parse(input: &[u8]) -> (r: Result<Item, ParseError>)
    ensures
        match spec_parse(input@) {
            Ok(v) => r matches Ok(item) && item@ == v,
            Err(e) => r matches Err(err) && err@ == error_message(e),
        },
{
    let lexer = lex(input);
    let mut p = Parser::start(lexer);
    proof {
        assert(tokens_of(input@).skip(0) =~= tokens_of(input@));
    }
    parse_compound(&mut p, true, Ghost(tokens_of(input@)), Ghost(0))
}

} // verus!
