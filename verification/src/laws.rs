use vstd::prelude::*;
use vstd::utf8::{
    decode_first_scalar, decode_utf8_first_scalar, encode_scalar, encode_utf8, pop_first_scalar,
    take_first_scalar, valid_first_scalar,
};

use crate::item::{
    spec_format, spec_format_entries, spec_format_entries_rest, spec_format_entry,
    spec_format_items, spec_format_items_rest, ItemV,
};
use crate::lex::{
    cap_run, in_class, init_st, is_bare_byte, is_ws_byte, run_len, spec_next, spec_tokens,
    tokens_of, ByteClass, LexSt, Mode, TokenV, B_CLOSE, B_COLON, B_OPEN, B_SPACE, MAX_RUN,
};
use crate::parse::{
    bare_run, clamp_after, skip_ws_at, spec_parse, spec_parse_compound, spec_parse_element,
    spec_parse_elems, spec_parse_entry, spec_parse_tokens, ParseErrV,
};
use crate::pretty::{coalesced_chars, esc_chars, first_unit, spec_pretty, spec_units};

verus! {

// ---------------------------------------------------------------------------
// Plain trees: the values whose rendered text parses back unchanged
// ---------------------------------------------------------------------------

/// Bytes that render to themselves: a valid UTF-8 sequence none of whose
/// characters needs an escape.
pub open spec fn plain_atom_bytes(s: Seq<u8>) -> bool
    decreases s.len(),
{
    if s.len() == 0 {
        true
    } else {
        &&& valid_first_scalar(s)
        &&& esc_chars(decode_first_scalar(s) as char) == seq![decode_first_scalar(s) as char]
        &&& plain_atom_bytes(pop_first_scalar(s))
    }
}

/// A tree whose rendering lexes and parses back to the same tree: atoms are
/// non-empty runs of unreserved, unescaped bytes (of any length: the lexer
/// splits long words into capped tokens and the parser reassembles them),
/// and maps are non-empty (an empty map renders as `()`, which reads back
/// as an empty list).
pub open spec fn plain_item(v: ItemV) -> bool
    decreases v,
{
    match v {
        ItemV::Atom(s) => 1 <= s.len() && plain_atom_bytes(s) && (forall|i: int|
            0 <= i < s.len() ==> is_bare_byte(#[trigger] s[i])),
        ItemV::List(l) => plain_items(l),
        ItemV::Dict(m) => m.len() >= 1 && plain_entries(m),
    }
}

pub open spec fn plain_items(l: Seq<ItemV>) -> bool
    decreases l,
{
    if l.len() == 0 {
        true
    } else {
        plain_item(l[0]) && plain_items(l.drop_first())
    }
}

pub open spec fn plain_entries(m: Seq<(ItemV, ItemV)>) -> bool
    decreases m,
{
    if m.len() == 0 {
        true
    } else {
        plain_item(m[0].0) && plain_item(m[0].1) && plain_entries(m.drop_first())
    }
}

// ---------------------------------------------------------------------------
// The rendered text of a plain tree, as bytes
// ---------------------------------------------------------------------------

/// The bytes of a tree's rendered display text.
pub open spec fn render_bytes(v: ItemV) -> Seq<u8>
    decreases v,
{
    match v {
        ItemV::Atom(s) => s,
        ItemV::List(l) => seq![B_OPEN] + render_items(l) + seq![B_CLOSE],
        ItemV::Dict(m) => seq![B_OPEN] + render_entries(m) + seq![B_CLOSE],
    }
}

pub open spec fn render_items(l: Seq<ItemV>) -> Seq<u8>
    decreases l,
{
    if l.len() == 0 {
        seq![]
    } else {
        render_bytes(l[0]) + render_items_rest(l.drop_first())
    }
}

pub open spec fn render_items_rest(l: Seq<ItemV>) -> Seq<u8>
    decreases l,
{
    if l.len() == 0 {
        seq![]
    } else {
        seq![B_SPACE] + render_bytes(l[0]) + render_items_rest(l.drop_first())
    }
}

pub open spec fn render_entry(e: (ItemV, ItemV)) -> Seq<u8>
    decreases e,
{
    render_bytes(e.0) + seq![B_COLON, B_SPACE] + render_bytes(e.1)
}

pub open spec fn render_entries(m: Seq<(ItemV, ItemV)>) -> Seq<u8>
    decreases m,
{
    if m.len() == 0 {
        seq![]
    } else {
        render_entry(m[0]) + render_entries_rest(m.drop_first())
    }
}

pub open spec fn render_entries_rest(m: Seq<(ItemV, ItemV)>) -> Seq<u8>
    decreases m,
{
    if m.len() == 0 {
        seq![]
    } else {
        seq![B_SPACE] + render_entry(m[0]) + render_entries_rest(m.drop_first())
    }
}

// ---------------------------------------------------------------------------
// The rendered characters of a plain tree encode to exactly those bytes
// ---------------------------------------------------------------------------

pub proof fn lemma_encode_utf8_concat(a: Seq<char>, b: Seq<char>)
    ensures
        encode_utf8(a + b) == encode_utf8(a) + encode_utf8(b),
    decreases a.len(),
{
    if a.len() == 0 {
        assert(a + b =~= b);
        assert(encode_utf8(a) =~= Seq::<u8>::empty());
        assert(encode_utf8(a) + encode_utf8(b) =~= encode_utf8(b));
    } else {
        assert((a + b)[0] == a[0]);
        assert((a + b).drop_first() =~= a.drop_first() + b);
        lemma_encode_utf8_concat(a.drop_first(), b);
        assert(encode_utf8(a + b) =~= encode_utf8(a) + encode_utf8(b));
    }
}

/// Plain bytes are valid UTF-8.
pub proof fn lemma_plain_valid(s: Seq<u8>)
    requires
        plain_atom_bytes(s),
    ensures
        vstd::utf8::valid_utf8(s),
    decreases s.len(),
{
    if s.len() > 0 {
        lemma_plain_valid(pop_first_scalar(s));
    }
}

/// An unescaped ASCII character encodes to its single byte.
pub proof fn lemma_encode_single(c: char)
    requires
        (c as u32) < 0x80,
    ensures
        encode_utf8(seq![c]) == seq![(c as u32) as u8],
{
    assert(seq![c][0] == c);
    assert(seq![c].drop_first() =~= Seq::<char>::empty());
    assert(encode_utf8(Seq::<char>::empty()) =~= Seq::<u8>::empty());
    assert(encode_utf8(seq![c]) =~= encode_scalar(c as u32));
    let v = c as u32;
    assert(v & 0x7f == v) by (bit_vector)
        requires
            v < 0x80,
    ;
    assert(encode_scalar(v) =~= seq![v as u8]);
}

/// Rendering plain bytes at width 0 is lossless: encoding the rendered
/// characters gives the bytes back.
pub proof fn lemma_pretty_plain(s: Seq<u8>)
    requires
        plain_atom_bytes(s),
    ensures
        encode_utf8(spec_pretty(s, 0)) == s,
    decreases s.len(),
{
    if s.len() == 0 {
        assert(spec_units(s) =~= Seq::<crate::pretty::UnitV>::empty());
        assert(spec_pretty(s, 0) =~= Seq::<char>::empty());
        assert(encode_utf8(spec_pretty(s, 0)) =~= Seq::<u8>::empty());
        assert(encode_utf8(spec_pretty(s, 0)) =~= s);
    } else {
        let c = decode_first_scalar(s) as char;
        let u = first_unit(s);
        let pop = pop_first_scalar(s);
        assert(u.chars == seq![c]);
        assert(u.ilen == vstd::utf8::length_of_first_scalar(s));
        assert(s.skip(u.ilen) =~= pop);
        assert(spec_units(s) == seq![u] + spec_units(pop));
        assert((seq![u] + spec_units(pop))[0] == u);
        assert((seq![u] + spec_units(pop)).drop_first() =~= spec_units(pop));
        assert(coalesced_chars(spec_units(s), false) =~= seq![c] + coalesced_chars(
            spec_units(pop),
            false,
        ));
        assert(spec_pretty(s, 0) == coalesced_chars(spec_units(s), false));
        assert(spec_pretty(pop, 0) == coalesced_chars(spec_units(pop), false));
        lemma_pretty_plain(pop);
        lemma_encode_utf8_concat(seq![c], spec_pretty(pop, 0));
        assert(seq![c][0] == c);
        assert(seq![c].drop_first() =~= Seq::<char>::empty());
        assert(encode_utf8(Seq::<char>::empty()) =~= Seq::<u8>::empty());
        assert(encode_utf8(seq![c]) =~= encode_scalar(c as u32));
        lemma_plain_valid(s);
        decode_utf8_first_scalar(s);
        assert(encode_scalar(c as u32) == take_first_scalar(s));
        assert(take_first_scalar(s) + pop =~= s);
        assert(encode_utf8(spec_pretty(s, 0)) =~= s);
    }
}

/// The rendered characters of a plain tree encode to its rendered bytes.
pub proof fn lemma_format_bytes(v: ItemV)
    requires
        plain_item(v),
    ensures
        encode_utf8(spec_format(v, 0)) == render_bytes(v),
    decreases v,
{
    match v {
        ItemV::Atom(s) => {
            lemma_pretty_plain(s);
        },
        ItemV::List(l) => {
            lemma_format_items(l);
            lemma_encode_utf8_concat(seq!['('] + spec_format_items(l, 0), seq![')']);
            lemma_encode_utf8_concat(seq!['('], spec_format_items(l, 0));
            lemma_encode_single('(');
            lemma_encode_single(')');
            assert(('(' as u32) as u8 == B_OPEN);
            assert((')' as u32) as u8 == B_CLOSE);
            assert(encode_utf8(spec_format(v, 0)) =~= render_bytes(v));
        },
        ItemV::Dict(m) => {
            lemma_format_entries(m);
            lemma_encode_utf8_concat(seq!['('] + spec_format_entries(m, 0), seq![')']);
            lemma_encode_utf8_concat(seq!['('], spec_format_entries(m, 0));
            lemma_encode_single('(');
            lemma_encode_single(')');
            assert(encode_utf8(spec_format(v, 0)) =~= render_bytes(v));
        },
    }
}

pub proof fn lemma_format_items(l: Seq<ItemV>)
    requires
        plain_items(l),
    ensures
        encode_utf8(spec_format_items(l, 0)) == render_items(l),
    decreases l,
{
    if l.len() == 0 {
        assert(encode_utf8(spec_format_items(l, 0)) =~= render_items(l));
    } else {
        lemma_format_bytes(l[0]);
        lemma_format_items_rest(l.drop_first());
        lemma_encode_utf8_concat(spec_format(l[0], 0), spec_format_items_rest(l.drop_first(), 0));
        assert(encode_utf8(spec_format_items(l, 0)) =~= render_items(l));
    }
}

pub proof fn lemma_format_items_rest(l: Seq<ItemV>)
    requires
        plain_items(l),
    ensures
        encode_utf8(spec_format_items_rest(l, 0)) == render_items_rest(l),
    decreases l,
{
    if l.len() == 0 {
        assert(encode_utf8(spec_format_items_rest(l, 0)) =~= render_items_rest(l));
    } else {
        lemma_format_bytes(l[0]);
        lemma_format_items_rest(l.drop_first());
        lemma_encode_utf8_concat(
            seq![' '] + spec_format(l[0], 0),
            spec_format_items_rest(l.drop_first(), 0),
        );
        lemma_encode_utf8_concat(seq![' '], spec_format(l[0], 0));
        lemma_encode_single(' ');
        assert((' ' as u32) as u8 == B_SPACE);
        assert(encode_utf8(spec_format_items_rest(l, 0)) =~= render_items_rest(l));
    }
}

pub proof fn lemma_format_entry(e: (ItemV, ItemV))
    requires
        plain_item(e.0),
        plain_item(e.1),
    ensures
        encode_utf8(spec_format_entry(e, 0)) == render_entry(e),
    decreases e,
{
    lemma_format_bytes(e.0);
    lemma_format_bytes(e.1);
    lemma_encode_utf8_concat(spec_format(e.0, 0) + seq![':', ' '], spec_format(e.1, 0));
    lemma_encode_utf8_concat(spec_format(e.0, 0), seq![':', ' ']);
    lemma_encode_utf8_concat(seq![':'], seq![' ']);
    lemma_encode_single(':');
    lemma_encode_single(' ');
    assert((':' as u32) as u8 == B_COLON);
    assert(seq![':'] + seq![' '] =~= seq![':', ' ']);
    assert(seq![B_COLON] + seq![B_SPACE] =~= seq![B_COLON, B_SPACE]);
    assert(encode_utf8(spec_format_entry(e, 0)) =~= render_entry(e));
}

pub proof fn lemma_format_entries(m: Seq<(ItemV, ItemV)>)
    requires
        plain_entries(m),
    ensures
        encode_utf8(spec_format_entries(m, 0)) == render_entries(m),
    decreases m,
{
    if m.len() == 0 {
        assert(encode_utf8(spec_format_entries(m, 0)) =~= render_entries(m));
    } else {
        lemma_format_entry(m[0]);
        lemma_format_entries_rest(m.drop_first());
        lemma_encode_utf8_concat(
            spec_format_entry(m[0], 0),
            spec_format_entries_rest(m.drop_first(), 0),
        );
        assert(encode_utf8(spec_format_entries(m, 0)) =~= render_entries(m));
    }
}

pub proof fn lemma_format_entries_rest(m: Seq<(ItemV, ItemV)>)
    requires
        plain_entries(m),
    ensures
        encode_utf8(spec_format_entries_rest(m, 0)) == render_entries_rest(m),
    decreases m,
{
    if m.len() == 0 {
        assert(encode_utf8(spec_format_entries_rest(m, 0)) =~= render_entries_rest(m));
    } else {
        lemma_format_entry(m[0]);
        lemma_format_entries_rest(m.drop_first());
        lemma_encode_utf8_concat(
            seq![' '] + spec_format_entry(m[0], 0),
            spec_format_entries_rest(m.drop_first(), 0),
        );
        lemma_encode_utf8_concat(seq![' '], spec_format_entry(m[0], 0));
        lemma_encode_single(' ');
        assert(encode_utf8(spec_format_entries_rest(m, 0)) =~= render_entries_rest(m));
    }
}

// ---------------------------------------------------------------------------
// Lexing the rendered bytes
// ---------------------------------------------------------------------------

/// The bare tokens a word lexes to: capped runs of [`MAX_RUN`] bytes.
pub open spec fn bare_chunks(s: Seq<u8>) -> Seq<TokenV>
    decreases s.len(),
{
    if s.len() <= MAX_RUN as int {
        seq![TokenV::Bare(s)]
    } else {
        seq![TokenV::Bare(s.take(MAX_RUN as int))] + bare_chunks(s.skip(MAX_RUN as int))
    }
}

/// The token sequence a plain tree's rendering lexes to.
pub open spec fn tok_seq(v: ItemV) -> Seq<TokenV>
    decreases v,
{
    match v {
        ItemV::Atom(s) => bare_chunks(s),
        ItemV::List(l) => seq![TokenV::Open] + toks_items(l) + seq![TokenV::Close],
        ItemV::Dict(m) => seq![TokenV::Open] + toks_entries(m) + seq![TokenV::Close],
    }
}

pub open spec fn toks_items(l: Seq<ItemV>) -> Seq<TokenV>
    decreases l,
{
    if l.len() == 0 {
        seq![]
    } else {
        tok_seq(l[0]) + toks_items_rest(l.drop_first())
    }
}

pub open spec fn toks_items_rest(l: Seq<ItemV>) -> Seq<TokenV>
    decreases l,
{
    if l.len() == 0 {
        seq![]
    } else {
        seq![TokenV::WhiteSpace(seq![B_SPACE])] + tok_seq(l[0]) + toks_items_rest(l.drop_first())
    }
}

pub open spec fn toks_entry(e: (ItemV, ItemV)) -> Seq<TokenV>
    decreases e,
{
    tok_seq(e.0) + seq![TokenV::Colon, TokenV::WhiteSpace(seq![B_SPACE])] + tok_seq(e.1)
}

pub open spec fn toks_entries(m: Seq<(ItemV, ItemV)>) -> Seq<TokenV>
    decreases m,
{
    if m.len() == 0 {
        seq![]
    } else {
        toks_entry(m[0]) + toks_entries_rest(m.drop_first())
    }
}

pub open spec fn toks_entries_rest(m: Seq<(ItemV, ItemV)>) -> Seq<TokenV>
    decreases m,
{
    if m.len() == 0 {
        seq![]
    } else {
        seq![TokenV::WhiteSpace(seq![B_SPACE])] + toks_entry(m[0]) + toks_entries_rest(
            m.drop_first(),
        )
    }
}

/// A base-mode lexer state at a given position.
pub open spec fn base_at(p: int, g: Seq<u8>) -> LexSt {
    LexSt { pos: p, mode: Mode::Base, guard: g }
}

/// The byte at `q` (if any) ends any bare or whitespace run: a space, a
/// closing parenthesis or a colon.
pub open spec fn sep_after(input: Seq<u8>, q: int) -> bool {
    q == input.len() || input[q] == B_SPACE || input[q] == B_CLOSE || input[q] == B_COLON
}

pub proof fn lemma_run_len_exact(s: Seq<u8>, p: int, n: int, c: ByteClass)
    requires
        0 <= p,
        0 <= n,
        p + n <= s.len(),
        forall|i: int| p <= i < p + n ==> in_class(c, #[trigger] s[i]),
        p + n == s.len() || !in_class(c, s[p + n]),
    ensures
        run_len(s, p, c) == n,
    decreases n,
{
    if n > 0 {
        lemma_run_len_exact(s, p + 1, n - 1, c);
    }
}

/// A maximal bare run lexes to its capped bare tokens.
pub proof fn lemma_lex_bare(input: Seq<u8>, p: int, g: Seq<u8>, s: Seq<u8>)
    requires
        1 <= s.len(),
        forall|i: int| 0 <= i < s.len() ==> is_bare_byte(#[trigger] s[i]),
        0 <= p,
        p + s.len() <= input.len(),
        input.subrange(p, p + s.len()) == s,
        sep_after(input, p + s.len()),
    ensures
        spec_tokens(input, base_at(p, g)) == bare_chunks(s) + spec_tokens(
            input,
            base_at(p + s.len(), g),
        ),
    decreases s.len(),
{
    assert forall|i: int| p <= i < p + s.len() implies in_class(ByteClass::Bare, #[trigger] input[i]) by {
        assert(input[i] == s[i - p]);
    }
    assert(p + s.len() == input.len() || !in_class(ByteClass::Bare, input[p + s.len()]));
    lemma_run_len_exact(input, p, s.len() as int, ByteClass::Bare);
    assert(input[p] == s[0]);
    assert(is_bare_byte(input[p]));
    if s.len() <= MAX_RUN as int {
        assert(cap_run(run_len(input, p, ByteClass::Bare)) == s.len());
        assert(spec_next(input, base_at(p, g)) == Some(
            (TokenV::Bare(s), base_at(p + s.len(), g)),
        ));
        assert(spec_tokens(input, base_at(p, g)) =~= bare_chunks(s) + spec_tokens(
            input,
            base_at(p + s.len(), g),
        ));
    } else {
        let m = MAX_RUN as int;
        assert(cap_run(run_len(input, p, ByteClass::Bare)) == m);
        assert(input.subrange(p, p + m) =~= s.take(m));
        assert(spec_next(input, base_at(p, g)) == Some(
            (TokenV::Bare(s.take(m)), base_at(p + m, g)),
        ));
        let rest = s.skip(m);
        assert(input.subrange(p + m, p + m + rest.len()) =~= rest) by {
            assert(forall|i: int| 0 <= i < rest.len() ==> #[trigger] rest[i] == s[m + i]);
            assert(forall|i: int|
                0 <= i < rest.len() ==> input[p + m + i] == #[trigger] s[m + i]);
        }
        assert(forall|i: int| 0 <= i < rest.len() ==> is_bare_byte(#[trigger] rest[i])) by {
            assert(forall|i: int| 0 <= i < rest.len() ==> #[trigger] rest[i] == s[m + i]);
        }
        lemma_lex_bare(input, p + m, g, rest);
        assert(spec_tokens(input, base_at(p, g)) =~= bare_chunks(s) + spec_tokens(
            input,
            base_at(p + s.len(), g),
        ));
    }
}

/// A single space before a non-space byte (or the end) lexes to one
/// whitespace token.
pub proof fn lemma_lex_space(input: Seq<u8>, p: int, g: Seq<u8>)
    requires
        0 <= p < input.len(),
        input[p] == B_SPACE,
        p + 1 == input.len() || !is_ws_byte(input[p + 1]),
    ensures
        spec_tokens(input, base_at(p, g)) == seq![TokenV::WhiteSpace(seq![B_SPACE])]
            + spec_tokens(input, base_at(p + 1, g)),
{
    lemma_run_len_exact(input, p, 1, ByteClass::White);
    assert(cap_run(run_len(input, p, ByteClass::White)) == 1);
    assert(input.subrange(p, p + 1) =~= seq![B_SPACE]);
    assert(spec_tokens(input, base_at(p, g)) =~= seq![TokenV::WhiteSpace(seq![B_SPACE])]
        + spec_tokens(input, base_at(p + 1, g)));
}

/// A structural byte lexes to its own token.
pub proof fn lemma_lex_punct(input: Seq<u8>, p: int, g: Seq<u8>)
    requires
        0 <= p < input.len(),
        input[p] == B_OPEN || input[p] == B_CLOSE || input[p] == B_COLON,
    ensures
        input[p] == B_OPEN ==> spec_tokens(input, base_at(p, g)) == seq![TokenV::Open]
            + spec_tokens(input, base_at(p + 1, g)),
        input[p] == B_CLOSE ==> spec_tokens(input, base_at(p, g)) == seq![TokenV::Close]
            + spec_tokens(input, base_at(p + 1, g)),
        input[p] == B_COLON ==> spec_tokens(input, base_at(p, g)) == seq![TokenV::Colon]
            + spec_tokens(input, base_at(p + 1, g)),
{
    if input[p] == B_OPEN {
        assert(spec_tokens(input, base_at(p, g)) =~= seq![TokenV::Open] + spec_tokens(
            input,
            base_at(p + 1, g),
        ));
    } else if input[p] == B_CLOSE {
        assert(spec_tokens(input, base_at(p, g)) =~= seq![TokenV::Close] + spec_tokens(
            input,
            base_at(p + 1, g),
        ));
    } else {
        assert(spec_tokens(input, base_at(p, g)) =~= seq![TokenV::Colon] + spec_tokens(
            input,
            base_at(p + 1, g),
        ));
    }
}

/// A plain tree's rendering is non-empty and starts with a bare byte or an
/// opening parenthesis; in particular not with whitespace.
pub proof fn lemma_render_first(v: ItemV)
    requires
        plain_item(v),
    ensures
        render_bytes(v).len() >= 1,
        !is_ws_byte(render_bytes(v)[0]),
        render_bytes(v)[0] != B_CLOSE,
        render_bytes(v)[0] != B_COLON,
        render_bytes(v)[0] != B_SPACE,
{
    match v {
        ItemV::Atom(s) => {
            assert(is_bare_byte(s[0]));
        },
        ItemV::List(l) => {
            assert(render_bytes(v)[0] == B_OPEN);
        },
        ItemV::Dict(m) => {
            assert(render_bytes(v)[0] == B_OPEN);
        },
    }
}

/// Lexing a plain tree's rendering from base mode yields exactly its token
/// sequence, then goes on after it.
#[verifier::rlimit(100)]
pub proof fn lemma_lex_render(input: Seq<u8>, p: int, g: Seq<u8>, v: ItemV)
    requires
        plain_item(v),
        0 <= p,
        p + render_bytes(v).len() <= input.len(),
        input.subrange(p, p + render_bytes(v).len()) == render_bytes(v),
        sep_after(input, p + render_bytes(v).len()),
    ensures
        spec_tokens(input, base_at(p, g)) == tok_seq(v) + spec_tokens(
            input,
            base_at(p + render_bytes(v).len(), g),
        ),
    decreases v,
{
    let r = render_bytes(v);
    match v {
        ItemV::Atom(s) => {
            assert forall|i: int| 0 <= i < s.len() implies is_bare_byte(#[trigger] s[i]) by {}
            lemma_lex_bare(input, p, g, s);
        },
        ItemV::List(l) => {
            let ri = render_items(l);
            assert(input[p] == r[0]);
            assert(r[0] == B_OPEN);
            lemma_lex_punct(input, p, g);
            assert(input.subrange(p + 1, p + 1 + ri.len()) =~= ri) by {
                assert(forall|i: int| 0 <= i < ri.len() ==> #[trigger] ri[i] == r[1 + i]);
            }
            assert(input[p + 1 + ri.len()] == r[1 + ri.len() as int]);
            assert(input[p + 1 + ri.len()] == B_CLOSE);
            lemma_lex_items(input, p + 1, g, l);
            lemma_lex_punct(input, p + 1 + ri.len(), g);
            assert(spec_tokens(input, base_at(p, g)) =~= tok_seq(v) + spec_tokens(
                input,
                base_at(p + r.len(), g),
            ));
        },
        ItemV::Dict(m) => {
            let re = render_entries(m);
            assert(input[p] == r[0]);
            assert(r[0] == B_OPEN);
            lemma_lex_punct(input, p, g);
            assert(input.subrange(p + 1, p + 1 + re.len()) =~= re) by {
                assert(forall|i: int| 0 <= i < re.len() ==> #[trigger] re[i] == r[1 + i]);
            }
            assert(input[p + 1 + re.len()] == r[1 + re.len() as int]);
            assert(input[p + 1 + re.len()] == B_CLOSE);
            lemma_lex_entries(input, p + 1, g, m);
            lemma_lex_punct(input, p + 1 + re.len(), g);
            assert(spec_tokens(input, base_at(p, g)) =~= tok_seq(v) + spec_tokens(
                input,
                base_at(p + r.len(), g),
            ));
        },
    }
}

pub proof fn lemma_lex_items(input: Seq<u8>, p: int, g: Seq<u8>, l: Seq<ItemV>)
    requires
        plain_items(l),
        0 <= p,
        p + render_items(l).len() <= input.len(),
        input.subrange(p, p + render_items(l).len()) == render_items(l),
        sep_after(input, p + render_items(l).len()),
    ensures
        spec_tokens(input, base_at(p, g)) == toks_items(l) + spec_tokens(
            input,
            base_at(p + render_items(l).len(), g),
        ),
    decreases l,
{
    if l.len() == 0 {
        assert(toks_items(l) =~= Seq::<TokenV>::empty());
        assert(spec_tokens(input, base_at(p, g)) =~= toks_items(l) + spec_tokens(
            input,
            base_at(p, g),
        ));
    } else {
        let r = render_items(l);
        let r0 = render_bytes(l[0]);
        let rr = render_items_rest(l.drop_first());
        assert(input.subrange(p, p + r0.len()) =~= r0) by {
            assert(forall|i: int| 0 <= i < r0.len() ==> #[trigger] r0[i] == r[i]);
        }
        assert(input.subrange(p + r0.len(), p + r.len()) =~= rr) by {
            assert(forall|i: int| 0 <= i < rr.len() ==> #[trigger] rr[i] == r[r0.len() + i]);
        }
        if l.drop_first().len() == 0 {
            assert(rr =~= Seq::<u8>::empty());
            assert(sep_after(input, p + r0.len()));
        } else {
            assert(rr[0] == B_SPACE);
            assert(input[p + r0.len()] == B_SPACE);
            assert(sep_after(input, p + r0.len()));
        }
        lemma_lex_render(input, p, g, l[0]);
        lemma_lex_items_rest(input, p + r0.len(), g, l.drop_first());
        assert(spec_tokens(input, base_at(p, g)) =~= toks_items(l) + spec_tokens(
            input,
            base_at(p + r.len(), g),
        ));
    }
}

pub proof fn lemma_lex_items_rest(input: Seq<u8>, p: int, g: Seq<u8>, l: Seq<ItemV>)
    requires
        plain_items(l),
        0 <= p,
        p + render_items_rest(l).len() <= input.len(),
        input.subrange(p, p + render_items_rest(l).len()) == render_items_rest(l),
        sep_after(input, p + render_items_rest(l).len()),
    ensures
        spec_tokens(input, base_at(p, g)) == toks_items_rest(l) + spec_tokens(
            input,
            base_at(p + render_items_rest(l).len(), g),
        ),
    decreases l,
{
    if l.len() == 0 {
        assert(toks_items_rest(l) =~= Seq::<TokenV>::empty());
        assert(spec_tokens(input, base_at(p, g)) =~= toks_items_rest(l) + spec_tokens(
            input,
            base_at(p, g),
        ));
    } else {
        let r = render_items_rest(l);
        let r0 = render_bytes(l[0]);
        let rr = render_items_rest(l.drop_first());
        assert(input[p] == r[0]);
        assert(r[0] == B_SPACE);
        lemma_render_first(l[0]);
        assert(input[p + 1] == r[1]);
        assert(r[1] == r0[0]);
        assert(!is_ws_byte(input[p + 1]));
        lemma_lex_space(input, p, g);
        assert(input.subrange(p + 1, p + 1 + r0.len()) =~= r0) by {
            assert(forall|i: int| 0 <= i < r0.len() ==> #[trigger] r0[i] == r[1 + i]);
        }
        assert(input.subrange(p + 1 + r0.len(), p + r.len()) =~= rr) by {
            assert(forall|i: int| 0 <= i < rr.len() ==> #[trigger] rr[i] == r[1 + r0.len() + i]);
        }
        if l.drop_first().len() == 0 {
            assert(rr =~= Seq::<u8>::empty());
            assert(sep_after(input, p + 1 + r0.len()));
        } else {
            assert(rr[0] == B_SPACE);
            assert(input[p + 1 + r0.len()] == B_SPACE);
            assert(sep_after(input, p + 1 + r0.len()));
        }
        lemma_lex_render(input, p + 1, g, l[0]);
        lemma_lex_items_rest(input, p + 1 + r0.len(), g, l.drop_first());
        assert(spec_tokens(input, base_at(p, g)) =~= toks_items_rest(l) + spec_tokens(
            input,
            base_at(p + r.len(), g),
        ));
    }
}

pub proof fn lemma_lex_entry(input: Seq<u8>, p: int, g: Seq<u8>, e: (ItemV, ItemV))
    requires
        plain_item(e.0),
        plain_item(e.1),
        0 <= p,
        p + render_entry(e).len() <= input.len(),
        input.subrange(p, p + render_entry(e).len()) == render_entry(e),
        sep_after(input, p + render_entry(e).len()),
    ensures
        spec_tokens(input, base_at(p, g)) == toks_entry(e) + spec_tokens(
            input,
            base_at(p + render_entry(e).len(), g),
        ),
    decreases e,
{
    let r = render_entry(e);
    let rk = render_bytes(e.0);
    let rv = render_bytes(e.1);
    assert(input.subrange(p, p + rk.len()) =~= rk) by {
        assert(forall|i: int| 0 <= i < rk.len() ==> #[trigger] rk[i] == r[i]);
    }
    assert(input[p + rk.len()] == r[rk.len() as int]);
    assert(r[rk.len() as int] == B_COLON);
    assert(sep_after(input, p + rk.len()));
    lemma_lex_render(input, p, g, e.0);
    lemma_lex_punct(input, p + rk.len(), g);
    assert(input[p + rk.len() + 1] == r[rk.len() as int + 1]);
    assert(r[rk.len() as int + 1] == B_SPACE);
    lemma_render_first(e.1);
    assert(input[p + rk.len() + 2] == r[rk.len() as int + 2]);
    assert(r[rk.len() as int + 2] == rv[0]);
    assert(!is_ws_byte(input[p + rk.len() + 2]));
    lemma_lex_space(input, p + rk.len() + 1, g);
    assert(input.subrange(p + rk.len() + 2, p + r.len()) =~= rv) by {
        assert(forall|i: int| 0 <= i < rv.len() ==> #[trigger] rv[i] == r[rk.len() + 2 + i]);
    }
    lemma_lex_render(input, p + rk.len() + 2, g, e.1);
    assert(spec_tokens(input, base_at(p, g)) =~= toks_entry(e) + spec_tokens(
        input,
        base_at(p + r.len(), g),
    ));
}

pub proof fn lemma_lex_entries(input: Seq<u8>, p: int, g: Seq<u8>, m: Seq<(ItemV, ItemV)>)
    requires
        plain_entries(m),
        0 <= p,
        p + render_entries(m).len() <= input.len(),
        input.subrange(p, p + render_entries(m).len()) == render_entries(m),
        sep_after(input, p + render_entries(m).len()),
    ensures
        spec_tokens(input, base_at(p, g)) == toks_entries(m) + spec_tokens(
            input,
            base_at(p + render_entries(m).len(), g),
        ),
    decreases m,
{
    if m.len() == 0 {
        assert(toks_entries(m) =~= Seq::<TokenV>::empty());
        assert(spec_tokens(input, base_at(p, g)) =~= toks_entries(m) + spec_tokens(
            input,
            base_at(p, g),
        ));
    } else {
        let r = render_entries(m);
        let r0 = render_entry(m[0]);
        let rr = render_entries_rest(m.drop_first());
        assert(input.subrange(p, p + r0.len()) =~= r0) by {
            assert(forall|i: int| 0 <= i < r0.len() ==> #[trigger] r0[i] == r[i]);
        }
        assert(input.subrange(p + r0.len(), p + r.len()) =~= rr) by {
            assert(forall|i: int| 0 <= i < rr.len() ==> #[trigger] rr[i] == r[r0.len() + i]);
        }
        if m.drop_first().len() == 0 {
            assert(rr =~= Seq::<u8>::empty());
            assert(sep_after(input, p + r0.len()));
        } else {
            assert(rr[0] == B_SPACE);
            assert(input[p + r0.len()] == B_SPACE);
            assert(sep_after(input, p + r0.len()));
        }
        lemma_lex_entry(input, p, g, m[0]);
        lemma_lex_entries_rest(input, p + r0.len(), g, m.drop_first());
        assert(spec_tokens(input, base_at(p, g)) =~= toks_entries(m) + spec_tokens(
            input,
            base_at(p + r.len(), g),
        ));
    }
}

pub proof fn lemma_lex_entries_rest(input: Seq<u8>, p: int, g: Seq<u8>, m: Seq<(ItemV, ItemV)>)
    requires
        plain_entries(m),
        0 <= p,
        p + render_entries_rest(m).len() <= input.len(),
        input.subrange(p, p + render_entries_rest(m).len()) == render_entries_rest(m),
        sep_after(input, p + render_entries_rest(m).len()),
    ensures
        spec_tokens(input, base_at(p, g)) == toks_entries_rest(m) + spec_tokens(
            input,
            base_at(p + render_entries_rest(m).len(), g),
        ),
    decreases m,
{
    if m.len() == 0 {
        assert(toks_entries_rest(m) =~= Seq::<TokenV>::empty());
        assert(spec_tokens(input, base_at(p, g)) =~= toks_entries_rest(m) + spec_tokens(
            input,
            base_at(p, g),
        ));
    } else {
        let r = render_entries_rest(m);
        let r0 = render_entry(m[0]);
        let rr = render_entries_rest(m.drop_first());
        assert(input[p] == r[0]);
        assert(r[0] == B_SPACE);
        lemma_render_first(m[0].0);
        assert(input[p + 1] == r[1]);
        assert(r[1] == render_bytes(m[0].0)[0]);
        assert(!is_ws_byte(input[p + 1]));
        lemma_lex_space(input, p, g);
        assert(input.subrange(p + 1, p + 1 + r0.len()) =~= r0) by {
            assert(forall|i: int| 0 <= i < r0.len() ==> #[trigger] r0[i] == r[1 + i]);
        }
        assert(input.subrange(p + 1 + r0.len(), p + r.len()) =~= rr) by {
            assert(forall|i: int| 0 <= i < rr.len() ==> #[trigger] rr[i] == r[1 + r0.len() + i]);
        }
        if m.drop_first().len() == 0 {
            assert(rr =~= Seq::<u8>::empty());
            assert(sep_after(input, p + 1 + r0.len()));
        } else {
            assert(rr[0] == B_SPACE);
            assert(input[p + 1 + r0.len()] == B_SPACE);
            assert(sep_after(input, p + 1 + r0.len()));
        }
        lemma_lex_entry(input, p + 1, g, m[0]);
        lemma_lex_entries_rest(input, p + 1 + r0.len(), g, m.drop_first());
        assert(spec_tokens(input, base_at(p, g)) =~= toks_entries_rest(m) + spec_tokens(
            input,
            base_at(p + r.len(), g),
        ));
    }
}

// ---------------------------------------------------------------------------
// Parsing the token sequence of a rendering
// ---------------------------------------------------------------------------

pub proof fn lemma_tok_seq_head(v: ItemV)
    requires
        plain_item(v),
    ensures
        tok_seq(v).len() >= 1,
        tok_seq(v)[0] is Bare || tok_seq(v)[0] is Open,
{
    match v {
        ItemV::Atom(s) => {
            if s.len() <= MAX_RUN as int {
                assert(bare_chunks(s)[0] == TokenV::Bare(s));
            } else {
                assert(bare_chunks(s)[0] == TokenV::Bare(s.take(MAX_RUN as int)));
            }
        },
        ItemV::List(_) => {
            assert(tok_seq(v)[0] == TokenV::Open);
        },
        ItemV::Dict(_) => {
            assert(tok_seq(v)[0] == TokenV::Open);
        },
    }
}

pub proof fn lemma_index_via_subrange(ts: Seq<TokenV>, a: int, b: int, x: Seq<TokenV>)
    requires
        0 <= a <= b <= ts.len(),
        ts.subrange(a, b) == x,
    ensures
        forall|j: int| 0 <= j < x.len() ==> ts[a + j] == #[trigger] x[j],
{
    assert(forall|j: int| 0 <= j < x.len() ==> ts.subrange(a, b)[j] == #[trigger] x[j]);
}

/// Reassembling the capped bare tokens of a word gives the word back,
/// provided no further bare token follows the run.
pub proof fn lemma_parse_bare_chunks(ts: Seq<TokenV>, i: int, s: Seq<u8>)
    requires
        1 <= s.len(),
        0 <= i,
        i + bare_chunks(s).len() <= ts.len(),
        ts.subrange(i, i + bare_chunks(s).len()) == bare_chunks(s),
        i + bare_chunks(s).len() == ts.len() || !(ts[i + bare_chunks(s).len()] is Bare),
    ensures
        bare_run(ts, i) == (s, i + bare_chunks(s).len()),
    decreases s.len(),
{
    let w = bare_chunks(s);
    if s.len() <= MAX_RUN as int {
        assert(w =~= seq![TokenV::Bare(s)]);
        assert(ts[i] == w[0]);
        assert(ts[i] == TokenV::Bare(s));
        if i + 1 < ts.len() {
            assert(!(ts[i + 1] is Bare));
            assert(bare_run(ts, i + 1) == (Seq::<u8>::empty(), i + 1));
        } else {
            assert(bare_run(ts, i + 1) == (Seq::<u8>::empty(), i + 1));
        }
        assert(s + Seq::<u8>::empty() =~= s);
    } else {
        let m = MAX_RUN as int;
        let rest = bare_chunks(s.skip(m));
        assert(ts[i] == w[0]);
        assert(ts[i] == TokenV::Bare(s.take(m)));
        assert(ts.subrange(i + 1, i + w.len() as int) =~= rest) by {
            assert(forall|j: int| 0 <= j < rest.len() ==> #[trigger] rest[j] == w[1 + j]);
        }
        lemma_parse_bare_chunks(ts, i + 1, s.skip(m));
        assert(s.take(m) + s.skip(m) =~= s);
    }
}

/// Parsing one element from its token sequence yields the tree back.
#[verifier::rlimit(100)]
pub proof fn lemma_parse_tok_element(ts: Seq<TokenV>, i: int, v: ItemV)
    requires
        plain_item(v),
        0 <= i,
        i + tok_seq(v).len() <= ts.len(),
        ts.subrange(i, i + tok_seq(v).len()) == tok_seq(v),
        i + tok_seq(v).len() == ts.len() || !(ts[i + tok_seq(v).len()] is Bare),
    ensures
        spec_parse_element(ts, i) == Ok::<(ItemV, int), ParseErrV>((v, i + tok_seq(v).len())),
    decreases v, 2int,
{
    let t = tok_seq(v);
    assert(ts[i] == t[0]);
    match v {
        ItemV::Atom(s) => {
            lemma_tok_seq_head(v);
            lemma_parse_bare_chunks(ts, i, s);
            assert(ts[i] is Bare);
        },
        ItemV::List(l) => {
            let ti = toks_items(l);
            assert(t[0] == TokenV::Open);
            assert(ts.subrange(i + 1, i + t.len() as int) =~= ti + seq![TokenV::Close]) by {
                assert(forall|j: int|
                    0 <= j < ti.len() + 1 ==> #[trigger] (ti + seq![TokenV::Close])[j] == t[1
                        + j]);
            }
            lemma_parse_tok_items(ts, i + 1, l);
            assert(spec_parse_element(ts, i) == spec_parse_compound(ts, i + 1, false));
        },
        ItemV::Dict(m) => {
            let te = toks_entries(m);
            assert(t[0] == TokenV::Open);
            assert(ts.subrange(i + 1, i + t.len() as int) =~= te + seq![TokenV::Close]) by {
                assert(forall|j: int|
                    0 <= j < te.len() + 1 ==> #[trigger] (te + seq![TokenV::Close])[j] == t[1
                        + j]);
            }
            lemma_parse_tok_entries(ts, i + 1, m);
            assert(spec_parse_element(ts, i) == spec_parse_compound(ts, i + 1, false));
        },
    }
}

/// A nested compound whose tokens are a list's elements followed by a
/// closing parenthesis parses to that list.
#[verifier::rlimit(100)]
pub proof fn lemma_parse_tok_items(ts: Seq<TokenV>, i: int, l: Seq<ItemV>)
    requires
        plain_items(l),
        0 <= i,
        i + toks_items(l).len() + 1 <= ts.len(),
        ts.subrange(i, i + toks_items(l).len() + 1) == toks_items(l) + seq![TokenV::Close],
    ensures
        spec_parse_compound(ts, i, false) == Ok::<(ItemV, int), ParseErrV>(
            (ItemV::List(l), i + toks_items(l).len() + 1),
        ),
    decreases l, 1int,
{
    let w = toks_items(l) + seq![TokenV::Close];
    if l.len() == 0 {
        assert(ts[i] == w[0]);
        assert(ts[i] == TokenV::Close);
        assert(skip_ws_at(ts, i) == i);
        assert(l =~= Seq::<ItemV>::empty());
        assert(spec_parse_elems(ts, i, false, ItemV::List(Seq::<ItemV>::empty()))
            == Ok::<(ItemV, int), ParseErrV>((ItemV::List(Seq::<ItemV>::empty()), i + 1)));
    } else {
        let t0 = tok_seq(l[0]);
        let rest = toks_items_rest(l.drop_first());
        lemma_tok_seq_head(l[0]);
        assert(ts.subrange(i, i + t0.len() as int) =~= t0) by {
            assert(forall|j: int| 0 <= j < t0.len() ==> #[trigger] t0[j] == w[j]);
        }
        assert(ts[i] == t0[0]);
        assert(skip_ws_at(ts, i) == i);
        let k = i + t0.len() as int;
        assert(ts.subrange(k, i + w.len() as int) =~= rest + seq![TokenV::Close]) by {
            assert(forall|j: int|
                0 <= j < rest.len() + 1 ==> #[trigger] (rest + seq![TokenV::Close])[j]
                    == w[t0.len() + j]);
        }
        lemma_index_via_subrange(ts, k, i + w.len() as int, rest + seq![TokenV::Close]);
        assert(ts[k] == (rest + seq![TokenV::Close])[0]);
        assert(!(ts[k] is Bare)) by {
            if l.drop_first().len() == 0 {
                assert(rest =~= Seq::<TokenV>::empty());
            }
        }
        lemma_parse_tok_element(ts, i, l[0]);
        assert(clamp_after(ts, i, k) == k);
        lemma_parse_tok_items_rest(ts, k, l.drop_first(), seq![l[0]]);
        let k2 = skip_ws_at(ts, k);
        if l.drop_first().len() == 0 {
            assert(rest =~= Seq::<TokenV>::empty());
            assert(ts[k] == (rest + seq![TokenV::Close])[0]);
            assert(ts[k] == TokenV::Close);
            assert(k2 == k);
        } else {
            assert(plain_items(l.drop_first()));
            assert(plain_item(l.drop_first()[0]));
            lemma_tok_seq_head(l.drop_first()[0]);
            assert(ts[k] == (rest + seq![TokenV::Close])[0]);
            assert(ts[k] == TokenV::WhiteSpace(seq![B_SPACE]));
            assert(ts[k + 1] == (rest + seq![TokenV::Close])[1]);
            assert(ts[k + 1] == tok_seq(l.drop_first()[0])[0]);
            assert(skip_ws_at(ts, k + 1) == k + 1);
            assert(k2 == k + 1);
        }
        assert(!(k2 < ts.len() && ts[k2] is Colon && Seq::<ItemV>::empty().len() == 0)) by {
            assert(!(ts[k2] is Colon));
        }
        assert(Seq::<ItemV>::empty().push(l[0]) =~= seq![l[0]]);
        assert(seq![l[0]] + l.drop_first() =~= l);
        assert(spec_parse_compound(ts, i, false) == Ok::<(ItemV, int), ParseErrV>(
            (ItemV::List(l), i + w.len() as int),
        ));
    }
}

/// The elements after the first, each preceded by one whitespace token and
/// ended by the closing parenthesis, extend the accumulated list.
#[verifier::rlimit(100)]
pub proof fn lemma_parse_tok_items_rest(ts: Seq<TokenV>, i: int, l: Seq<ItemV>, acc: Seq<ItemV>)
    requires
        plain_items(l),
        0 <= i,
        i + toks_items_rest(l).len() + 1 <= ts.len(),
        ts.subrange(i, i + toks_items_rest(l).len() + 1) == toks_items_rest(l) + seq![
            TokenV::Close,
        ],
    ensures
        spec_parse_elems(ts, i, false, ItemV::List(acc)) == Ok::<(ItemV, int), ParseErrV>(
            (ItemV::List(acc + l), i + toks_items_rest(l).len() + 1),
        ),
    decreases l, 0int,
{
    let w = toks_items_rest(l) + seq![TokenV::Close];
    if l.len() == 0 {
        assert(ts[i] == w[0]);
        assert(ts[i] == TokenV::Close);
        assert(skip_ws_at(ts, i) == i);
        assert(acc + l =~= acc);
    } else {
        let t0 = tok_seq(l[0]);
        let rest = toks_items_rest(l.drop_first());
        lemma_tok_seq_head(l[0]);
        assert(ts[i] == w[0]);
        assert(ts[i] == TokenV::WhiteSpace(seq![B_SPACE]));
        assert(ts.subrange(i + 1, i + 1 + t0.len() as int) =~= t0) by {
            assert(forall|j: int| 0 <= j < t0.len() ==> #[trigger] t0[j] == w[1 + j]);
        }
        assert(ts[i + 1] == t0[0]);
        assert(skip_ws_at(ts, i + 1) == i + 1);
        assert(skip_ws_at(ts, i) == i + 1);
        let k = i + 1 + t0.len() as int;
        assert(ts.subrange(k, i + w.len() as int) =~= rest + seq![TokenV::Close]) by {
            assert(forall|j: int|
                0 <= j < rest.len() + 1 ==> #[trigger] (rest + seq![TokenV::Close])[j] == w[1
                    + t0.len() + j]);
        }
        lemma_index_via_subrange(ts, k, i + w.len() as int, rest + seq![TokenV::Close]);
        assert(ts[k] == (rest + seq![TokenV::Close])[0]);
        assert(!(ts[k] is Bare)) by {
            if l.drop_first().len() == 0 {
                assert(rest =~= Seq::<TokenV>::empty());
            }
        }
        lemma_parse_tok_element(ts, i + 1, l[0]);
        assert(clamp_after(ts, i + 1, k) == k);
        lemma_parse_tok_items_rest(ts, k, l.drop_first(), acc.push(l[0]));
        let k2 = skip_ws_at(ts, k);
        if l.drop_first().len() == 0 {
            assert(rest =~= Seq::<TokenV>::empty());
            assert(ts[k] == (rest + seq![TokenV::Close])[0]);
            assert(ts[k] == TokenV::Close);
            assert(k2 == k);
        } else {
            assert(plain_items(l.drop_first()));
            assert(plain_item(l.drop_first()[0]));
            lemma_tok_seq_head(l.drop_first()[0]);
            assert(ts[k] == (rest + seq![TokenV::Close])[0]);
            assert(ts[k] == TokenV::WhiteSpace(seq![B_SPACE]));
            assert(ts[k + 1] == (rest + seq![TokenV::Close])[1]);
            assert(ts[k + 1] == tok_seq(l.drop_first()[0])[0]);
            assert(skip_ws_at(ts, k + 1) == k + 1);
            assert(k2 == k + 1);
        }
        assert(!(ts[k2] is Colon));
        assert(acc.push(l[0]) + l.drop_first() =~= acc + l);
    }
}

/// A nested compound whose tokens are a map's entries followed by a closing
/// parenthesis parses to that map.
#[verifier::rlimit(100)]
pub proof fn lemma_parse_tok_entries(ts: Seq<TokenV>, i: int, m: Seq<(ItemV, ItemV)>)
    requires
        plain_entries(m),
        m.len() >= 1,
        0 <= i,
        i + toks_entries(m).len() + 1 <= ts.len(),
        ts.subrange(i, i + toks_entries(m).len() + 1) == toks_entries(m) + seq![TokenV::Close],
    ensures
        spec_parse_compound(ts, i, false) == Ok::<(ItemV, int), ParseErrV>(
            (ItemV::Dict(m), i + toks_entries(m).len() + 1),
        ),
    decreases m, 1int,
{
    let w = toks_entries(m) + seq![TokenV::Close];
    let e0 = toks_entry(m[0]);
    let rest = toks_entries_rest(m.drop_first());
    let tk = tok_seq(m[0].0);
    let tv = tok_seq(m[0].1);
    lemma_tok_seq_head(m[0].0);
    lemma_tok_seq_head(m[0].1);
    assert(ts.subrange(i, i + tk.len() as int) =~= tk) by {
        assert(forall|j: int| 0 <= j < tk.len() ==> #[trigger] tk[j] == w[j]);
    }
    assert(ts[i] == tk[0]);
    assert(skip_ws_at(ts, i) == i);
    let k = i + tk.len() as int;
    assert(ts[k] == w[tk.len() as int]);
    assert(ts[k] == TokenV::Colon);
    lemma_parse_tok_element(ts, i, m[0].0);
    assert(clamp_after(ts, i, k) == k);
    assert(skip_ws_at(ts, k) == k);
    assert(ts[k + 1] == w[tk.len() as int + 1]);
    assert(ts[k + 1] == TokenV::WhiteSpace(seq![B_SPACE]));
    assert(ts.subrange(k + 2, k + 2 + tv.len() as int) =~= tv) by {
        assert(forall|j: int| 0 <= j < tv.len() ==> #[trigger] tv[j] == w[tk.len() + 2 + j]);
    }
    assert(ts[k + 2] == tv[0]);
    assert(skip_ws_at(ts, k + 2) == k + 2);
    assert(skip_ws_at(ts, k + 1) == k + 2);
    let kv = k + 2 + tv.len() as int;
    assert(ts.subrange(kv, i + w.len() as int) =~= rest + seq![TokenV::Close]) by {
        assert(forall|j: int|
            0 <= j < rest.len() + 1 ==> #[trigger] (rest + seq![TokenV::Close])[j] == w[e0.len()
                + j]);
    }
    lemma_index_via_subrange(ts, kv, i + w.len() as int, rest + seq![TokenV::Close]);
    assert(ts[kv] == (rest + seq![TokenV::Close])[0]);
    assert(!(ts[kv] is Bare)) by {
        if m.drop_first().len() == 0 {
            assert(rest =~= Seq::<TokenV>::empty());
        }
    }
    lemma_parse_tok_element(ts, k + 2, m[0].1);
    assert(clamp_after(ts, k + 2, kv) == kv);
    lemma_parse_tok_entries_rest(ts, kv, m.drop_first(), seq![(m[0].0, m[0].1)]);
    assert(Seq::<(ItemV, ItemV)>::empty().push((m[0].0, m[0].1)) =~= seq![(m[0].0, m[0].1)]);
    assert(seq![(m[0].0, m[0].1)] + m.drop_first() =~= m);
    assert(spec_parse_compound(ts, i, false) == Ok::<(ItemV, int), ParseErrV>(
        (ItemV::Dict(m), i + w.len() as int),
    ));
}

/// The entries after the first, each preceded by one whitespace token and
/// ended by the closing parenthesis, extend the accumulated map.
#[verifier::rlimit(100)]
pub proof fn lemma_parse_tok_entries_rest(
    ts: Seq<TokenV>,
    i: int,
    m: Seq<(ItemV, ItemV)>,
    acc: Seq<(ItemV, ItemV)>,
)
    requires
        plain_entries(m),
        0 <= i,
        i + toks_entries_rest(m).len() + 1 <= ts.len(),
        ts.subrange(i, i + toks_entries_rest(m).len() + 1) == toks_entries_rest(m) + seq![
            TokenV::Close,
        ],
    ensures
        spec_parse_elems(ts, i, false, ItemV::Dict(acc)) == Ok::<(ItemV, int), ParseErrV>(
            (ItemV::Dict(acc + m), i + toks_entries_rest(m).len() + 1),
        ),
    decreases m, 0int,
{
    let w = toks_entries_rest(m) + seq![TokenV::Close];
    if m.len() == 0 {
        assert(ts[i] == w[0]);
        assert(ts[i] == TokenV::Close);
        assert(skip_ws_at(ts, i) == i);
        assert(acc + m =~= acc);
    } else {
        let e0 = toks_entry(m[0]);
        let rest = toks_entries_rest(m.drop_first());
        let tk = tok_seq(m[0].0);
        let tv = tok_seq(m[0].1);
        lemma_tok_seq_head(m[0].0);
        lemma_tok_seq_head(m[0].1);
        assert(ts[i] == w[0]);
        assert(ts[i] == TokenV::WhiteSpace(seq![B_SPACE]));
        assert(ts.subrange(i + 1, i + 1 + tk.len() as int) =~= tk) by {
            assert(forall|j: int| 0 <= j < tk.len() ==> #[trigger] tk[j] == w[1 + j]);
        }
        assert(ts[i + 1] == tk[0]);
        assert(skip_ws_at(ts, i + 1) == i + 1);
        assert(skip_ws_at(ts, i) == i + 1);
        let k = i + 1 + tk.len() as int;
        assert(ts[k] == w[1 + tk.len() as int]);
        assert(ts[k] == TokenV::Colon);
        lemma_parse_tok_element(ts, i + 1, m[0].0);
        assert(clamp_after(ts, i + 1, k) == k);
        assert(skip_ws_at(ts, k) == k);
        assert(ts[k + 1] == w[1 + tk.len() as int + 1]);
        assert(ts[k + 1] == TokenV::WhiteSpace(seq![B_SPACE]));
        assert(ts.subrange(k + 2, k + 2 + tv.len() as int) =~= tv) by {
            assert(forall|j: int| 0 <= j < tv.len() ==> #[trigger] tv[j] == w[1 + tk.len() + 2
                + j]);
        }
        assert(ts[k + 2] == tv[0]);
        assert(skip_ws_at(ts, k + 2) == k + 2);
        assert(skip_ws_at(ts, k + 1) == k + 2);
        let kv = k + 2 + tv.len() as int;
        assert(ts.subrange(kv, i + w.len() as int) =~= rest + seq![TokenV::Close]) by {
            assert(forall|j: int|
                0 <= j < rest.len() + 1 ==> #[trigger] (rest + seq![TokenV::Close])[j] == w[1
                    + e0.len() + j]);
        }
        lemma_index_via_subrange(ts, kv, i + w.len() as int, rest + seq![TokenV::Close]);
        assert(ts[kv] == (rest + seq![TokenV::Close])[0]);
        assert(!(ts[kv] is Bare)) by {
            if m.drop_first().len() == 0 {
                assert(rest =~= Seq::<TokenV>::empty());
            }
        }
        lemma_parse_tok_element(ts, k + 2, m[0].1);
        assert(clamp_after(ts, k + 2, kv) == kv);
        lemma_parse_tok_entries_rest(ts, kv, m.drop_first(), acc.push((m[0].0, m[0].1)));
        assert(acc.push((m[0].0, m[0].1)) + m.drop_first() =~= acc + m);
        assert(spec_parse_entry(ts, k + 1, false, acc, m[0].0) == Ok::<(ItemV, int), ParseErrV>(
            (ItemV::Dict(acc + m), i + w.len() as int),
        ));
        assert(spec_parse_elems(ts, i, false, ItemV::Dict(acc)) == Ok::<(ItemV, int), ParseErrV>(
            (ItemV::Dict(acc + m), i + w.len() as int),
        ));
    }
}

// ---------------------------------------------------------------------------
// Round trip of structure
// ---------------------------------------------------------------------------

/// Round trip of structure: render a plain tree losslessly (width 0),
/// encode the text as bytes, and parse it back; the result is the same
/// tree, wrapped in the list that the top level of any document forms.
/// Plainness is defined by [`plain_item`]: atoms are non-empty runs of at
/// most twenty unreserved, unescaped bytes, and maps are non-empty.
#[verifier::rlimit(100)]
pub proof fn lemma_parse_format_round_trip(v: ItemV)
    requires
        plain_item(v),
    ensures
        spec_parse(encode_utf8(spec_format(v, 0))) == Ok::<ItemV, ParseErrV>(
            ItemV::List(seq![v]),
        ),
{
    let bytes = encode_utf8(spec_format(v, 0));
    let r = render_bytes(v);
    lemma_format_bytes(v);
    assert(bytes == r);
    assert(bytes.subrange(0, r.len() as int) =~= r);
    assert(sep_after(bytes, r.len() as int));
    lemma_lex_render(bytes, 0, Seq::<u8>::empty(), v);
    assert(base_at(0, Seq::<u8>::empty()) == init_st());
    assert(spec_tokens(bytes, base_at(r.len() as int, Seq::<u8>::empty()))
        =~= Seq::<TokenV>::empty());
    let ts = tokens_of(bytes);
    assert(ts =~= tok_seq(v));
    let kk = tok_seq(v).len() as int;
    assert(ts.subrange(0, kk) =~= tok_seq(v));
    assert(kk == ts.len());
    lemma_tok_seq_head(v);
    lemma_parse_tok_element(ts, 0, v);
    assert(skip_ws_at(ts, 0) == 0);
    assert(clamp_after(ts, 0, kk) == kk);
    assert(skip_ws_at(ts, kk) == kk);
    assert(Seq::<ItemV>::empty().push(v) =~= seq![v]);
    assert(spec_parse_elems(ts, kk, true, ItemV::List(seq![v])) == Ok::<(ItemV, int), ParseErrV>(
        (ItemV::List(seq![v]), kk),
    ));
    assert(spec_parse_compound(ts, 0, true) == Ok::<(ItemV, int), ParseErrV>(
        (ItemV::List(seq![v]), kk),
    ));
    assert(spec_parse_tokens(ts) == Ok::<ItemV, ParseErrV>(ItemV::List(seq![v])));
}

// ---------------------------------------------------------------------------
// Width thresholds
// ---------------------------------------------------------------------------

/// Total rendered characters of a unit sequence.
pub open spec fn units_chars(us: Seq<crate::pretty::UnitV>) -> int
    decreases us.len(),
{
    if us.len() == 0 {
        0
    } else {
        us[0].chars.len() + units_chars(us.drop_first())
    }
}

proof fn lemma_head_takes_all(us: Seq<crate::pretty::UnitV>, cc: int, budget: int)
    requires
        forall|i: int| 0 <= i < us.len() ==> (#[trigger] us[i]).chars.len() >= 1,
        cc + units_chars(us) <= budget,
        cc >= 0,
    ensures
        crate::pretty::head_count(us, cc, budget) == us.len(),
    decreases us.len(),
{
    if us.len() > 0 {
        assert(us[0].chars.len() >= 1);
        assert(units_chars(us) >= us[0].chars.len()) by {
            lemma_units_chars_nonneg(us.drop_first());
        }
        assert(cc < budget);
        assert(forall|i: int|
            0 <= i < us.drop_first().len() ==> (#[trigger] us.drop_first()[i]).chars.len() >= 1);
        lemma_head_takes_all(us.drop_first(), cc + us[0].chars.len(), budget);
    }
}

proof fn lemma_units_chars_nonneg(us: Seq<crate::pretty::UnitV>)
    ensures
        forall|i: int| 0 <= i < us.len() ==> (#[trigger] us[i]).chars.len() >= 0,
        units_chars(us) >= 0,
    decreases us.len(),
{
    if us.len() > 0 {
        lemma_units_chars_nonneg(us.drop_first());
    }
}

/// Every decoded unit renders at least one character.
proof fn lemma_units_chars_pos(bytes: Seq<u8>)
    ensures
        forall|i: int|
            0 <= i < spec_units(bytes).len() ==> (#[trigger] spec_units(bytes)[i]).chars.len()
                >= 1,
    decreases bytes.len(),
{
    if bytes.len() > 0 {
        crate::pretty::lemma_first_unit_ilen(bytes);
        let u = first_unit(bytes);
        let rest = spec_units(bytes.skip(u.ilen));
        lemma_units_chars_pos(bytes.skip(u.ilen));
        assert forall|i: int|
            0 <= i < spec_units(bytes).len() implies (#[trigger] spec_units(
            bytes,
        )[i]).chars.len() >= 1 by {
            if i == 0 {
                assert(spec_units(bytes)[0] == u);
                if vstd::utf8::valid_first_scalar(bytes) {
                    assert(u.chars == esc_chars(decode_first_scalar(bytes) as char));
                } else {
                    assert(u.chars == crate::pretty::hex_pair(bytes[0]));
                }
            } else {
                assert(spec_units(bytes)[i] == rest[i - 1]);
            }
        }
    }
}

/// The threshold half of width monotonicity: a width of at least twice the
/// rendered character count shows the whole input — the gap marker
/// disappears and the rendering equals the full lossless form.
pub proof fn lemma_wide_width_no_gap(input: Seq<u8>, width: int)
    requires
        1 <= width,
        width >= 2 * units_chars(spec_units(input)),
    ensures
        spec_pretty(input, width) == spec_pretty(input, 0),
{
    let w = crate::pretty::adjust_width(width);
    let us = spec_units(input);
    let w2 = w / 2;
    lemma_units_chars_pos(input);
    lemma_units_chars_nonneg(us);
    assert(w >= width);
    assert(w2 >= units_chars(us));
    lemma_head_takes_all(us, 0, w2);
    let k1 = crate::pretty::head_count(us, 0, w2);
    assert(k1 == us.len());
    assert(us.take(k1) =~= us);
    crate::pretty::lemma_units_cover(input);
    let p1 = crate::pretty::units_ilen(us.take(k1));
    assert(p1 == input.len());
    let s2 = if input.len() - 4 * w2 > p1 {
        input.len() - 4 * w2
    } else {
        p1
    };
    assert(s2 == input.len() as int);
    assert(input.skip(s2) =~= Seq::<u8>::empty());
    let us2 = spec_units(input.skip(s2));
    assert(us2 =~= Seq::<crate::pretty::UnitV>::empty());
    assert(crate::pretty::tail_scan_len(us2, w2 + (w % 2) - 1) == 0);
    assert(p1 + 0 >= input.len());
    assert(us2.skip(0) =~= Seq::<crate::pretty::UnitV>::empty());
    assert(coalesced_chars(us2.skip(0), false) =~= Seq::<char>::empty());
    assert(spec_pretty(input, width) =~= coalesced_chars(us, false));
    assert(spec_pretty(input, 0) == coalesced_chars(us, false));
}

proof fn lemma_units_chars_push(us: Seq<crate::pretty::UnitV>, u: crate::pretty::UnitV)
    ensures
        units_chars(us.push(u)) == units_chars(us) + u.chars.len(),
    decreases us.len(),
{
    assert(us.push(u)[0] == if us.len() == 0 {
        u
    } else {
        us[0]
    });
    if us.len() == 0 {
        assert(us.push(u).drop_first() =~= Seq::<crate::pretty::UnitV>::empty());
        assert(units_chars(us.push(u).drop_first()) == 0);
    } else {
        assert(us.push(u).drop_first() =~= us.drop_first().push(u));
        lemma_units_chars_push(us.drop_first(), u);
    }
}

proof fn lemma_units_chars_split(us: Seq<crate::pretty::UnitV>, k: int)
    requires
        0 <= k <= us.len(),
    ensures
        units_chars(us) == units_chars(us.take(k)) + units_chars(us.skip(k)),
    decreases us.len(),
{
    if k == 0 {
        assert(us.take(0) =~= Seq::<crate::pretty::UnitV>::empty());
        assert(us.skip(0) =~= us);
    } else {
        assert(us.take(k)[0] == us[0]);
        assert(us.take(k).drop_first() =~= us.drop_first().take(k - 1));
        assert(us.skip(k) =~= us.drop_first().skip(k - 1));
        lemma_units_chars_split(us.drop_first(), k - 1);
    }
}

/// With every unit rendering at least one character, a unit sequence has at
/// least as many rendered characters as units.
proof fn lemma_units_chars_lb(us: Seq<crate::pretty::UnitV>)
    requires
        forall|i: int| 0 <= i < us.len() ==> (#[trigger] us[i]).chars.len() >= 1,
    ensures
        units_chars(us) >= us.len(),
    decreases us.len(),
{
    if us.len() > 0 {
        assert(us[0].chars.len() >= 1);
        assert(forall|i: int|
            0 <= i < us.drop_first().len() ==> (#[trigger] us.drop_first()[i]).chars.len() >= 1);
        lemma_units_chars_lb(us.drop_first());
    }
}

/// With every unit covering at most four bytes, a unit sequence covers at
/// most four bytes per unit.
proof fn lemma_units_ilen_ub(us: Seq<crate::pretty::UnitV>)
    requires
        forall|i: int| 0 <= i < us.len() ==> (#[trigger] us[i]).ilen <= 4,
    ensures
        crate::pretty::units_ilen(us) <= 4 * us.len(),
    decreases us.len(),
{
    if us.len() > 0 {
        assert(us[0].ilen <= 4);
        assert(forall|i: int|
            0 <= i < us.drop_first().len() ==> (#[trigger] us.drop_first()[i]).ilen <= 4);
        lemma_units_ilen_ub(us.drop_first());
    }
}

/// Coalescing renders at least every unit's characters.
proof fn lemma_coalesced_len_ge(us: Seq<crate::pretty::UnitV>, inv: bool)
    ensures
        coalesced_chars(us, inv).len() >= units_chars(us),
    decreases us.len(),
{
    lemma_units_chars_nonneg(us);
    if us.len() > 0 {
        lemma_coalesced_len_ge(us.drop_first(), !us[0].valid);
    }
}

/// Decoding a byte sequence from a unit boundary yields the units after it.
proof fn lemma_units_suffix(bytes: Seq<u8>, k: int)
    requires
        0 <= k <= spec_units(bytes).len(),
    ensures
        spec_units(bytes.skip(crate::pretty::units_ilen(spec_units(bytes).take(k))))
            == spec_units(bytes).skip(k),
    decreases k,
{
    let us = spec_units(bytes);
    if k == 0 {
        assert(us.take(0) =~= Seq::<crate::pretty::UnitV>::empty());
        assert(bytes.skip(0) =~= bytes);
        assert(us.skip(0) =~= us);
    } else {
        crate::pretty::lemma_first_unit_ilen(bytes);
        let u0 = first_unit(bytes);
        let pop0 = bytes.skip(u0.ilen);
        let rest = spec_units(pop0);
        assert(us == seq![u0] + rest);
        assert(us.take(k)[0] == u0);
        assert(us.take(k).drop_first() =~= rest.take(k - 1));
        let d = crate::pretty::units_ilen(rest.take(k - 1));
        assert(crate::pretty::units_ilen(us.take(k)) == u0.ilen + d);
        crate::pretty::lemma_units_cover(pop0);
        crate::pretty::lemma_spec_units_wf(pop0);
        lemma_units_ilen_take_bound(rest, k - 1);
        assert(bytes.skip(u0.ilen + d) =~= pop0.skip(d));
        lemma_units_suffix(pop0, k - 1);
        assert(us.skip(k) =~= rest.skip(k - 1));
    }
}

/// The bytes of a unit prefix stay within the bytes the units cover.
proof fn lemma_units_ilen_take_bound(us: Seq<crate::pretty::UnitV>, k: int)
    requires
        0 <= k <= us.len(),
        forall|i: int| 0 <= i < us.len() ==> (#[trigger] us[i]).ilen >= 0,
    ensures
        0 <= crate::pretty::units_ilen(us.take(k)) <= crate::pretty::units_ilen(us),
{
    crate::pretty::lemma_units_ilen_split(us, k);
    assert(forall|i: int|
        0 <= i < us.take(k).len() ==> (#[trigger] us.take(k)[i]).ilen >= 0);
    assert(forall|i: int|
        0 <= i < us.skip(k).len() ==> (#[trigger] us.skip(k)[i]).ilen >= 0);
    crate::pretty::lemma_units_ilen_nonneg(us.take(k));
    crate::pretty::lemma_units_ilen_nonneg(us.skip(k));
}

/// Where the head stops before the last unit, it has reached its budget.
proof fn lemma_head_count_props(us: Seq<crate::pretty::UnitV>, cc: int, budget: int)
    ensures
        0 <= crate::pretty::head_count(us, cc, budget) <= us.len(),
        crate::pretty::head_count(us, cc, budget) < us.len() ==> cc + units_chars(
            us.take(crate::pretty::head_count(us, cc, budget)),
        ) >= budget,
    decreases us.len(),
{
    let k = crate::pretty::head_count(us, cc, budget);
    if us.len() == 0 {
    } else if cc >= budget {
        assert(us.take(0) =~= Seq::<crate::pretty::UnitV>::empty());
    } else {
        lemma_head_count_props(us.drop_first(), cc + us[0].chars.len(), budget);
        let kd = crate::pretty::head_count(us.drop_first(), cc + us[0].chars.len(), budget);
        assert(k == 1 + kd);
        if k < us.len() {
            assert(us.take(k)[0] == us[0]);
            assert(us.take(k).drop_first() =~= us.drop_first().take(kd));
            assert(units_chars(us.take(k)) == us[0].chars.len() + units_chars(
                us.drop_first().take(kd),
            ));
        }
    }
}

/// Where the remainder's rendered characters fit the budget plus one, the
/// backward scan accounts for every remaining byte.
proof fn lemma_tail_scan_all(us: Seq<crate::pretty::UnitV>, budget: int)
    requires
        forall|i: int| 0 <= i < us.len() ==> (#[trigger] us[i]).chars.len() >= 1,
        units_chars(us) <= budget + 1,
    ensures
        crate::pretty::tail_scan_len(us, budget) == crate::pretty::units_ilen(us),
    decreases us.len(),
{
    if us.len() > 0 {
        let last = us.last();
        assert(us =~= us.drop_last().push(last));
        lemma_units_chars_push(us.drop_last(), last);
        crate::pretty::lemma_units_ilen_push(us.drop_last(), last);
        assert(forall|i: int|
            0 <= i < us.drop_last().len() ==> (#[trigger] us.drop_last()[i]).chars.len() >= 1);
        if last.chars.len() <= budget {
            lemma_tail_scan_all(us.drop_last(), budget - last.chars.len());
        } else {
            lemma_units_chars_lb(us.drop_last());
            assert(units_chars(us.drop_last()) <= budget + 1 - last.chars.len());
            assert(us.drop_last().len() == 0);
            assert(crate::pretty::units_ilen(us.drop_last()) == 0);
        }
    }
}

/// The gap-disappearance half of width monotonicity: once the width's even
/// part reaches the full rendered character count, every unit of the input
/// is rendered and no gap marker is inserted. (The output can still differ
/// from the width-0 form in one way: an invalid-byte run that crosses the
/// seam between the head and tail parts is closed and reopened there.)
#[verifier::rlimit(100)]
pub proof fn lemma_full_width_no_gap(input: Seq<u8>, width: int)
    requires
        1 <= width,
        width - width % 2 >= spec_pretty(input, 0).len(),
    ensures
        ({
            let us = spec_units(input);
            let k1 = crate::pretty::head_count(us, 0, crate::pretty::adjust_width(width) / 2);
            spec_pretty(input, width) == coalesced_chars(us.take(k1), false) + coalesced_chars(
                us.skip(k1),
                false,
            )
        }),
{
    let w = crate::pretty::adjust_width(width);
    let us = spec_units(input);
    let w2 = w / 2;
    let w2b = w2 + (w % 2) - 1;
    lemma_units_chars_pos(input);
    crate::pretty::lemma_spec_units_wf(input);
    crate::pretty::lemma_units_cover(input);
    lemma_units_chars_nonneg(us);
    lemma_coalesced_len_ge(us, false);
    assert(spec_pretty(input, 0) == coalesced_chars(us, false));
    assert(2 * w2 >= units_chars(us));
    lemma_head_count_props(us, 0, w2);
    let k1 = crate::pretty::head_count(us, 0, w2);
    let p1 = crate::pretty::units_ilen(us.take(k1));
    crate::pretty::lemma_units_ilen_split(us, k1);
    lemma_units_chars_split(us, k1);
    lemma_units_ilen_ub(us.skip(k1));
    lemma_units_chars_lb(us.skip(k1));
    lemma_units_chars_nonneg(us.take(k1));
    // the remaining bytes fit inside the backward over-scan window
    if k1 < us.len() {
        assert(units_chars(us.take(k1)) >= w2);
        assert(units_chars(us.skip(k1)) <= w2);
        assert(us.skip(k1).len() <= units_chars(us.skip(k1)));
        assert(crate::pretty::units_ilen(us.skip(k1)) <= 4 * us.skip(k1).len());
        assert(input.len() - p1 <= 4 * w2);
    } else {
        assert(us.take(k1) =~= us);
        assert(us.skip(k1) =~= Seq::<crate::pretty::UnitV>::empty());
        assert(p1 == input.len());
    }
    let over = input.len() - 4 * w2;
    let s2 = if over > p1 {
        over
    } else {
        p1
    };
    assert(s2 == p1);
    lemma_units_suffix(input, k1);
    let us2 = spec_units(input.skip(s2));
    assert(us2 == us.skip(k1));
    assert(forall|i: int| 0 <= i < us2.len() ==> (#[trigger] us2[i]).chars.len() >= 1);
    assert(units_chars(us2) <= w2b + 1);
    lemma_tail_scan_all(us2, w2b);
    crate::pretty::lemma_units_cover(input.skip(s2));
    assert(crate::pretty::units_ilen(us2) == input.len() - s2);
    assert(p1 + crate::pretty::tail_scan_len(us2, w2b) >= input.len());
    assert(us2.skip(0) =~= us2);
    assert(spec_pretty(input, width) =~= coalesced_chars(us.take(k1), false) + coalesced_chars(
        us.skip(k1),
        false,
    ));
}

} // verus!
