//! A tiny parenthesized data and expression language.
//!
//! Raw bytes are tokenized by a mode-switching lexer ([`lex`]), parsed into a
//! tree of atoms, lists and maps ([`parse`], [`Item`]), and rendered back to
//! bounded-width text for display ([`pretty`], [`Item::format`]).

mod atom;
mod evaluate;
mod item;
mod lex;
mod laws;
mod lstr;
mod parse;
mod shorten_lossy;
mod pretty;

pub use atom::Atom;
pub use evaluate::{prim_first, prim_if, prim_quote, prim_tail};
pub use item::{Dict, Item, ItemV, List};
pub use lex::{lemma_lexing_bounded, lex, lex_all, AxpLexer, Mode, Token, TokenV};
pub use laws::{
    lemma_full_width_no_gap, lemma_parse_format_round_trip, lemma_wide_width_no_gap, plain_item,
    render_bytes,
};
pub use lstr::{LStr, LStrError};
pub use parse::{parse, spec_parse, ParseErrV, ParseError};
pub use pretty::{pretty, spec_pretty, UnitV, GAP_MARKER};
pub use shorten_lossy::{shorten_lossy, spec_shorten_lossy, ShortenLossy};
