use vstd::prelude::*;
use vstd::utf8::*;

verus! {

/// The gap marker glyph inserted between the head and tail of a truncated
/// rendering.
pub const GAP_MARKER: char = '\u{2824}';

// ---------------------------------------------------------------------------
// Output units
// ---------------------------------------------------------------------------

/// Model of one output unit: the rendered characters, how many input bytes
/// the unit covers, and whether those bytes were valid UTF-8.
pub ghost struct UnitV {
    pub chars: Seq<char>,
    pub ilen: int,
    pub valid: bool,
}

/// One decoded output unit: either one escaped Unicode scalar, or one
/// invalid byte rendered as two hex digits.
pub struct Unit {
    pub chars: Vec<char>,
    pub ilen: usize,
    pub valid: bool,
}

impl View for Unit {
    type V = UnitV;

    open spec fn view(&self) -> UnitV {
        UnitV { chars: self.chars@, ilen: self.ilen as int, valid: self.valid }
    }
}

/// The models of a sequence of units, element by element.
pub open spec fn unit_views(s: Seq<Unit>) -> Seq<UnitV> {
    s.map_values(|u: Unit| u@)
}

/// The hexadecimal digit character for a value below 16, lower case.
pub open spec fn hex_digit(n: int) -> char {
    if n < 10 {
        ((0x30 + n) as u32) as char
    } else {
        ((0x57 + n) as u32) as char
    }
}

/// Two lower-case hex digits for one byte.
pub open spec fn hex_pair(b: u8) -> Seq<char> {
    seq![hex_digit(b as int / 16), hex_digit(b as int % 16)]
}

/// An ASCII control character: below space, or delete.
pub open spec fn is_ascii_control_char(c: char) -> bool {
    (c as u32) < 0x20 || (c as u32) == 0x7f
}

/// The escaped rendering of one decoded scalar: a short backslash escape
/// for the common controls and the backslash itself, `\xHH` for the other
/// ASCII controls, and the character itself otherwise.
pub open spec fn esc_chars(c: char) -> Seq<char> {
    let v = c as u32;
    if v == 0x5c {
        seq!['\\', '\\']
    } else if v == 0x0d {
        seq!['\\', 'r']
    } else if v == 0x0a {
        seq!['\\', 'n']
    } else if v == 0x09 {
        seq!['\\', 't']
    } else if v == 0x00 {
        seq!['\\', '0']
    } else if is_ascii_control_char(c) {
        seq!['\\', 'x', hex_digit(v as int / 16), hex_digit(v as int % 16)]
    } else {
        seq![c]
    }
}

/// The first output unit of a non-empty byte sequence: the first scalar,
/// escaped, where the bytes start with a well-formed UTF-8 encoding; the
/// first byte as an invalid-byte unit otherwise.
pub open spec fn first_unit(bytes: Seq<u8>) -> UnitV {
    if valid_first_scalar(bytes) {
        UnitV {
            chars: esc_chars(decode_first_scalar(bytes) as char),
            ilen: length_of_first_scalar(bytes),
            valid: true,
        }
    } else {
        UnitV { chars: hex_pair(bytes[0]), ilen: 1, valid: false }
    }
}

pub proof fn lemma_first_unit_ilen(bytes: Seq<u8>)
    requires
        bytes.len() > 0,
    ensures
        1 <= first_unit(bytes).ilen <= bytes.len(),
{
}

/// The whole unit decomposition of a byte sequence.
pub open spec fn spec_units(bytes: Seq<u8>) -> Seq<UnitV>
    decreases bytes.len(),
    via spec_units_decreases
{
    if bytes.len() == 0 {
        seq![]
    } else {
        seq![first_unit(bytes)] + spec_units(bytes.skip(first_unit(bytes).ilen))
    }
}

#[via_fn]
proof fn spec_units_decreases(bytes: Seq<u8>) {
    if bytes.len() > 0 {
        lemma_first_unit_ilen(bytes);
    }
}

/// Total number of input bytes a unit sequence covers.
pub open spec fn units_ilen(us: Seq<UnitV>) -> int
    decreases us.len(),
{
    if us.len() == 0 {
        0
    } else {
        us[0].ilen + units_ilen(us.drop_first())
    }
}

/// The coalesced text of a unit sequence: units in order, with `\U` opening
/// a run of invalid bytes and `;` closing it before the next valid unit or
/// at the end of the sequence. `inv` says whether an invalid run is open on
/// entry.
pub open spec fn coalesced_chars(us: Seq<UnitV>, inv: bool) -> Seq<char>
    decreases us.len(),
{
    if us.len() == 0 {
        if inv {
            seq![';']
        } else {
            seq![]
        }
    } else {
        let u = us[0];
        let sep: Seq<char> = if u.valid && inv {
            seq![';']
        } else if !u.valid && !inv {
            seq!['\\', 'U']
        } else {
            seq![]
        };
        sep + u.chars + coalesced_chars(us.drop_first(), !u.valid)
    }
}

// ---------------------------------------------------------------------------
// The width-bounded rendering, as a specification
// ---------------------------------------------------------------------------

/// Widths 1 to 6 are clamped up to 6; truncation with a gap marker is not
/// meaningful below that.
pub open spec fn adjust_width(width: int) -> int {
    if 1 <= width <= 6 {
        6
    } else {
        width
    }
}

/// How many units the head takes: units are consumed until the rendered
/// character count has reached the head budget.
pub open spec fn head_count(us: Seq<UnitV>, cc: int, budget: int) -> int
    decreases us.len(),
{
    if us.len() == 0 {
        0
    } else if cc >= budget {
        0
    } else {
        1 + head_count(us.drop_first(), cc + us[0].chars.len(), budget)
    }
}

/// How many units the tail keeps, walking backward from the end while the
/// accumulated rendered character count stays within the tail budget.
pub open spec fn tail_count(us: Seq<UnitV>, budget: int) -> int
    decreases us.len(),
{
    if us.len() == 0 {
        0
    } else {
        let u = us.last();
        if u.chars.len() <= budget {
            1 + tail_count(us.drop_last(), budget - u.chars.len())
        } else {
            0
        }
    }
}

/// The input bytes the backward walk has looked at: the kept units plus the
/// first unit that overran the budget, if any.
pub open spec fn tail_scan_len(us: Seq<UnitV>, budget: int) -> int
    decreases us.len(),
{
    if us.len() == 0 {
        0
    } else {
        let u = us.last();
        if u.chars.len() <= budget {
            u.ilen + tail_scan_len(us.drop_last(), budget - u.chars.len())
        } else {
            u.ilen
        }
    }
}

/// The rendered text of a byte sequence at a given width. Width 0 or less
/// renders every unit (the canonical escaped form). A positive width takes
/// a head of about half the width, over-scans backward from the end by at
/// most four bytes per tail character, takes a tail from that, and puts the
/// gap marker between them unless every input byte is accounted for.
pub open spec fn spec_pretty(input: Seq<u8>, width: int) -> Seq<char> {
    let w = adjust_width(width);
    let us = spec_units(input);
    if w <= 0 {
        coalesced_chars(us, false)
    } else {
        let w2 = w / 2;
        let k1 = head_count(us, 0, w2);
        let p1 = units_ilen(us.take(k1));
        let over = input.len() - 4 * w2;
        let s2 = if over > p1 {
            over
        } else {
            p1
        };
        let us2 = spec_units(input.skip(s2));
        let w2b = w2 + (w % 2) - 1;
        let taken = tail_count(us2, w2b);
        let consumed = p1 + tail_scan_len(us2, w2b) >= input.len();
        let start = if consumed {
            0
        } else {
            us2.len() - taken
        };
        coalesced_chars(us.take(k1), false) + (if consumed {
            Seq::<char>::empty()
        } else {
            seq![GAP_MARKER]
        }) + coalesced_chars(us2.skip(start), false)
    }
}

// ---------------------------------------------------------------------------
// Executable decoding and rendering
// ---------------------------------------------------------------------------

/// Relies on char::from_u32: every Unicode scalar value converts to the
/// char with exactly that value.
#[verifier::external_body]
pub(crate) fn char_from_scalar(v: u32) -> (c: char)
    requires
        is_scalar(v),
    ensures
        c as u32 == v,
{
    char::from_u32(v).unwrap_or('\u{fffd}')
}

fn hex_digit_char(n: u8) -> (c: char)
    requires
        n < 16,
    ensures
        c == hex_digit(n as int),
{
    if n < 10 {
        char_from_scalar(0x30 + n as u32)
    } else {
        char_from_scalar(0x57 + n as u32)
    }
}

fn escape_scalar(v: u32) -> (r: Vec<char>)
    requires
        is_scalar(v),
    ensures
        r@ == esc_chars(v as char),
{
    let c = char_from_scalar(v);
    let mut r: Vec<char> = Vec::new();
    if v == 0x5c {
        r.push('\\');
        r.push('\\');
        proof {
            assert(r@ =~= esc_chars(v as char));
        }
    } else if v == 0x0d {
        r.push('\\');
        r.push('r');
        proof {
            assert(r@ =~= esc_chars(v as char));
        }
    } else if v == 0x0a {
        r.push('\\');
        r.push('n');
        proof {
            assert(r@ =~= esc_chars(v as char));
        }
    } else if v == 0x09 {
        r.push('\\');
        r.push('t');
        proof {
            assert(r@ =~= esc_chars(v as char));
        }
    } else if v == 0x00 {
        r.push('\\');
        r.push('0');
        proof {
            assert(r@ =~= esc_chars(v as char));
        }
    } else if v < 0x20 || v == 0x7f {
        r.push('\\');
        r.push('x');
        r.push(hex_digit_char((v / 16) as u8));
        r.push(hex_digit_char((v % 16) as u8));
        proof {
            assert(r@ =~= esc_chars(v as char));
        }
    } else {
        r.push(c);
        proof {
            assert(r@ =~= esc_chars(v as char));
        }
    }
    r
}

fn is_cont_byte(b: u8) -> (r: bool)
    ensures
        r == is_continuation_byte(b),
{
    0x80 <= b && b <= 0xbf
}

/// Inspect the bytes at `i`: whether a well-formed scalar starts there,
/// which scalar it is, and how many bytes it covers (1 for an invalid byte).
pub(crate) fn decode_raw(s: &[u8], i: usize) -> (r: (bool, u32, usize))
    requires
        i < s@.len(),
    ensures
        r.0 == valid_first_scalar(s@.skip(i as int)),
        r.0 ==> is_scalar(r.1) && r.1 == decode_first_scalar(s@.skip(i as int)) && r.2 as int
            == length_of_first_scalar(s@.skip(i as int)),
        !r.0 ==> r.2 == 1,
        1 <= r.2 <= s@.len() - i,
{
    let ghost suf = s@.skip(i as int);
    let n = s.len();
    let b0 = s[i];
    proof {
        assert(suf.len() == n - i);
        assert(suf[0] == s@[i as int]);
    }
    if b0 <= 0x7f {
        proof {
            assert(valid_first_scalar(suf));
            assert(b0 <= 0x7f ==> (b0 & 0x7f) == b0) by (bit_vector);
            assert(decode_first_scalar(suf) == b0 as u32);
            assert(length_of_first_scalar(suf) == 1);
        }
        (true, b0 as u32, 1)
    } else if 0xc0 <= b0 && b0 <= 0xdf && 1 < n - i && is_cont_byte(s[i + 1]) {
        let b1 = s[i + 1];
        proof {
            assert(suf[1] == s@[i + 1]);
        }
        proof {
            assert(((b0 & 0x1f) as u32) << 6u32 < 0x800) by (bit_vector);
            assert((((b0 & 0x1f) as u32) << 6u32) | ((b1 & 0x3f) as u32) < 0x800) by (bit_vector);
        }
        let v = (((b0 & 0x1f) as u32) << 6u32) | ((b1 & 0x3f) as u32);
        proof {
            assert(v == codepoint_width_2(b0, b1));
        }
        if v >= 0x80 {
            proof {
                assert(valid_first_scalar(suf));
                assert(length_of_first_scalar(suf) == 2);
            }
            (true, v, 2)
        } else {
            proof {
                assert(!valid_first_scalar(suf));
            }
            (false, 0, 1)
        }
    } else if 0xe0 <= b0 && b0 <= 0xef && 2 < n - i && is_cont_byte(s[i + 1]) && is_cont_byte(
        s[i + 2],
    ) {
        let b1 = s[i + 1];
        let b2 = s[i + 2];
        proof {
            assert(suf[1] == s@[i + 1]);
            assert(suf[2] == s@[i + 2]);
        }
        proof {
            assert(((b0 & 0x0f) as u32) << 12u32 < 0x10000) by (bit_vector);
            assert(((b1 & 0x3f) as u32) << 6u32 < 0x1000) by (bit_vector);
            assert((((b0 & 0x0f) as u32) << 12u32) | (((b1 & 0x3f) as u32) << 6u32) | ((b2
                & 0x3f) as u32) < 0x10000) by (bit_vector);
        }
        let v = (((b0 & 0x0f) as u32) << 12u32) | (((b1 & 0x3f) as u32) << 6u32) | ((b2
            & 0x3f) as u32);
        proof {
            assert(v == codepoint_width_3(b0, b1, b2));
        }
        if v >= 0x800 && !(0xd800 <= v && v <= 0xdfff) {
            proof {
                assert(valid_first_scalar(suf));
                assert(length_of_first_scalar(suf) == 3);
            }
            (true, v, 3)
        } else {
            proof {
                assert(!valid_first_scalar(suf));
            }
            (false, 0, 1)
        }
    } else if 0xf0 <= b0 && b0 <= 0xf7 && 3 < n - i && is_cont_byte(s[i + 1]) && is_cont_byte(
        s[i + 2],
    ) && is_cont_byte(s[i + 3]) {
        let b1 = s[i + 1];
        let b2 = s[i + 2];
        let b3 = s[i + 3];
        proof {
            assert(suf[1] == s@[i + 1]);
            assert(suf[2] == s@[i + 2]);
            assert(suf[3] == s@[i + 3]);
        }
        proof {
            assert(((b0 & 0x07) as u32) << 18u32 < 0x200000) by (bit_vector);
            assert(((b1 & 0x3f) as u32) << 12u32 < 0x40000) by (bit_vector);
            assert(((b2 & 0x3f) as u32) << 6u32 < 0x1000) by (bit_vector);
            assert((((b0 & 0x07) as u32) << 18u32) | (((b1 & 0x3f) as u32) << 12u32) | (((b2
                & 0x3f) as u32) << 6u32) | ((b3 & 0x3f) as u32) < 0x200000) by (bit_vector);
        }
        let v = (((b0 & 0x07) as u32) << 18u32) | (((b1 & 0x3f) as u32) << 12u32) | (((b2
            & 0x3f) as u32) << 6u32) | ((b3 & 0x3f) as u32);
        proof {
            assert(v == codepoint_width_4(b0, b1, b2, b3));
        }
        if 0x10000 <= v && v <= 0x10ffff {
            proof {
                assert(valid_first_scalar(suf));
                assert(length_of_first_scalar(suf) == 4);
            }
            (true, v, 4)
        } else {
            proof {
                assert(!valid_first_scalar(suf));
            }
            (false, 0, 1)
        }
    } else {
        proof {
            assert(!valid_first_scalar(suf));
        }
        (false, 0, 1)
    }
}


/// Decode the output unit starting at byte `i`.
pub(crate) fn decode_one(s: &[u8], i: usize) -> (u: Unit)
    requires
        i < s@.len(),
    ensures
        u@ == first_unit(s@.skip(i as int)),
        1 <= u.ilen <= s@.len() - i,
{
    let (valid, scalar, ilen) = decode_raw(s, i);
    if valid {
        Unit { chars: escape_scalar(scalar), ilen, valid: true }
    } else {
        Unit { chars: hex_pair_chars(s[i]), ilen: 1, valid: false }
    }
}

fn hex_pair_chars(b: u8) -> (r: Vec<char>)
    ensures
        r@ == hex_pair(b),
{
    let mut r: Vec<char> = Vec::new();
    r.push(hex_digit_char(b / 16));
    r.push(hex_digit_char(b % 16));
    proof {
        assert(r@ =~= hex_pair(b));
    }
    r
}

/// Decode a whole byte slice into its unit sequence.
fn decode_units(s: &[u8]) -> (r: Vec<Unit>)
    ensures
        unit_views(r@) == spec_units(s@),
{
    let mut r: Vec<Unit> = Vec::new();
    let mut i: usize = 0;
    proof {
        assert(s@.skip(0) =~= s@);
        assert(unit_views(r@) + spec_units(s@.skip(0)) =~= spec_units(s@));
    }
    while i < s.len()
        invariant
            i <= s@.len(),
            unit_views(r@) + spec_units(s@.skip(i as int)) == spec_units(s@),
        decreases s@.len() - i,
    {
        let u = decode_one(s, i);
        let ghost ilen = u.ilen as int;
        proof {
            assert(s@.skip(i as int).skip(ilen) =~= s@.skip(i + ilen));
            assert(unit_views(r@.push(u)) =~= unit_views(r@).push(u@));
            assert(spec_units(s@.skip(i as int)) == seq![first_unit(s@.skip(i as int))]
                + spec_units(s@.skip(i + ilen)));
        }
        let ni = i + u.ilen;
        r.push(u);
        i = ni;
        proof {
            assert(unit_views(r@) + spec_units(s@.skip(i as int)) =~= spec_units(
                s@,
            ));
        }
    }
    proof {
        assert(s@.skip(i as int).len() == 0);
        assert(spec_units(s@.skip(i as int)) =~= Seq::<UnitV>::empty());
        assert(unit_views(r@) =~= spec_units(s@));
    }
    r
}

/// Append the coalesced text of `units[from..to]` to `out`.
fn coalesce_range(units: &Vec<Unit>, from: usize, to: usize, out: &mut Vec<char>)
    requires
        from <= to <= units@.len(),
    ensures
        final(out)@ == old(out)@ + coalesced_chars(
            unit_views(units@).subrange(from as int, to as int),
            false,
        ),
{
    let ghost us = unit_views(units@).subrange(from as int, to as int);
    let mut k = from;
    let mut inv = false;
    proof {
        assert(us.skip(0) =~= us);
    }
    while k < to
        invariant
            from <= k <= to <= units@.len(),
            us == unit_views(units@).subrange(from as int, to as int),
            out@ + coalesced_chars(us.skip(k - from), inv) == old(out)@ + coalesced_chars(
                us,
                false,
            ),
        decreases to - k,
    {
        let u = &units[k];
        proof {
            assert(us.skip(k - from)[0] == unit_views(units@)[k as int]);
            assert(us.skip(k - from).drop_first() =~= us.skip(k + 1 - from));
        }
        if u.valid && inv {
            out.push(';');
        } else if !u.valid && !inv {
            out.push('\\');
            out.push('U');
        }
        let m = u.chars.len();
        let ghost out_before = out@;
        let mut j: usize = 0;
        while j < m
            invariant
                j <= m,
                m == u.chars@.len(),
                out@ == out_before + u.chars@.take(j as int),
            decreases m - j,
        {
            proof {
                assert(u.chars@.take(j + 1) =~= u.chars@.take(j as int).push(u.chars@[j as int]));
            }
            out.push(u.chars[j]);
            j = j + 1;
        }
        proof {
            assert(u.chars@.take(m as int) =~= u.chars@);
        }
        inv = !u.valid;
        k = k + 1;
    }
    if inv {
        out.push(';');
    }
    proof {
        if inv {
            assert(coalesced_chars(us.skip(to - from), true) =~= seq![';']);
        } else {
            assert(coalesced_chars(us.skip(to - from), false) =~= Seq::<char>::empty());
        }
        assert(out@ =~= old(out)@ + coalesced_chars(us, false));
    }
}

/// Relies on String::from_iter over chars: collecting characters yields the
/// string of exactly those characters, in order.
#[verifier::external_body]
pub(crate) fn chars_to_string(v: Vec<char>) -> (r: String)
    ensures
        r@ == v@,
{
    v.into_iter().collect()
}


// ---------------------------------------------------------------------------
// Sums of unit lengths
// ---------------------------------------------------------------------------

pub proof fn lemma_units_ilen_push(us: Seq<UnitV>, u: UnitV)
    ensures
        units_ilen(us.push(u)) == units_ilen(us) + u.ilen,
    decreases us.len(),
{
    if us.len() == 0 {
        assert(us.push(u).drop_first() =~= Seq::<UnitV>::empty());
        assert(units_ilen(us.push(u).drop_first()) == 0);
    } else {
        assert(us.push(u).drop_first() =~= us.drop_first().push(u));
        lemma_units_ilen_push(us.drop_first(), u);
    }
}

pub proof fn lemma_units_ilen_split(us: Seq<UnitV>, k: int)
    requires
        0 <= k <= us.len(),
    ensures
        units_ilen(us) == units_ilen(us.take(k)) + units_ilen(us.skip(k)),
    decreases us.len(),
{
    if k == 0 {
        assert(us.take(0) =~= Seq::<UnitV>::empty());
        assert(us.skip(0) =~= us);
    } else {
        assert(us.take(k)[0] == us[0]);
        assert(us.take(k).drop_first() =~= us.drop_first().take(k - 1));
        assert(us.skip(k) =~= us.drop_first().skip(k - 1));
        lemma_units_ilen_split(us.drop_first(), k - 1);
    }
}

/// Every unit of a decomposition covers one to four bytes and renders to at
/// most four characters.
pub proof fn lemma_spec_units_wf(bytes: Seq<u8>)
    ensures
        forall|i: int|
            0 <= i < spec_units(bytes).len() ==> (#[trigger] spec_units(bytes)[i]).ilen >= 1 && (
            #[trigger] spec_units(bytes)[i]).ilen <= 4 && (#[trigger] spec_units(
                bytes,
            )[i]).chars.len() <= 4,
    decreases bytes.len(),
{
    if bytes.len() > 0 {
        lemma_first_unit_ilen(bytes);
        let u = first_unit(bytes);
        let rest = spec_units(bytes.skip(u.ilen));
        lemma_spec_units_wf(bytes.skip(u.ilen));
        assert forall|i: int|
            0 <= i < spec_units(bytes).len() implies (#[trigger] spec_units(bytes)[i]).ilen >= 1
            && (#[trigger] spec_units(bytes)[i]).ilen <= 4 && (#[trigger] spec_units(
            bytes,
        )[i]).chars.len() <= 4 by {
            if i == 0 {
                assert(spec_units(bytes)[0] == u);
                if valid_first_scalar(bytes) {
                    assert(u.chars == esc_chars(decode_first_scalar(bytes) as char));
                    assert(u.chars.len() <= 4);
                } else {
                    assert(u.chars == hex_pair(bytes[0]));
                }
            } else {
                assert(spec_units(bytes)[i] == rest[i - 1]);
            }
        }
    }
}

pub proof fn lemma_units_ilen_nonneg(us: Seq<UnitV>)
    requires
        forall|i: int| 0 <= i < us.len() ==> (#[trigger] us[i]).ilen >= 0,
    ensures
        units_ilen(us) >= 0,
    decreases us.len(),
{
    if us.len() > 0 {
        assert(forall|i: int|
            0 <= i < us.drop_first().len() ==> (#[trigger] us.drop_first()[i]).ilen >= 0);
        lemma_units_ilen_nonneg(us.drop_first());
    }
}

/// A byte sequence's units cover it exactly.
pub proof fn lemma_units_cover(bytes: Seq<u8>)
    ensures
        units_ilen(spec_units(bytes)) == bytes.len(),
    decreases bytes.len(),
{
    if bytes.len() > 0 {
        lemma_first_unit_ilen(bytes);
        let u = first_unit(bytes);
        let rest = spec_units(bytes.skip(u.ilen));
        lemma_units_cover(bytes.skip(u.ilen));
        assert((seq![u] + rest).drop_first() =~= rest);
        assert((seq![u] + rest)[0] == u);
    }
}

// ---------------------------------------------------------------------------
// The renderer
// ---------------------------------------------------------------------------

/// Render a byte slice for display: escape controls and invalid bytes, and,
/// at a positive width, keep about half the width from the head and half
/// from the tail with a gap marker between them.
pub fn pretty(input: &[u8], width: usize) -> (r: String)
    ensures
        r@ == spec_pretty(input@, width as int),
{
    chars_to_string(pretty_chars(input, width))
}

pub(crate) fn pretty_chars(input: &[u8], width: usize) -> (r: Vec<char>)
    ensures
        r@ == spec_pretty(input@, width as int),
{
    let w = if 1 <= width && width <= 6 {
        6
    } else {
        width
    };
    proof {
        assert(w as int == adjust_width(width as int));
    }
    let len = input.len();
    let units = decode_units(input);
    let ghost us = unit_views(units@);
    proof {
        lemma_spec_units_wf(input@);
        lemma_units_cover(input@);
    }
    if w == 0 {
        let mut out: Vec<char> = Vec::new();
        let n = units.len();
        coalesce_range(&units, 0, n, &mut out);
        proof {
            assert(us.subrange(0, n as int) =~= us);
        }
        return out;
    }
    let w2 = w / 2;

    // head: consume units until the head character budget is reached
    let n = units.len();
    let mut k1: usize = 0;
    let mut cc: usize = 0;
    let mut p1: usize = 0;
    proof {
        assert(us.skip(0) =~= us);
        assert(us.take(0) =~= Seq::<UnitV>::empty());
    }
    while k1 < n && cc < w2
        invariant
            n == us.len(),
            us == spec_units(input@),
            us == unit_views(units@),
            k1 <= n,
            head_count(us, 0, w2 as int) == k1 + head_count(
                us.skip(k1 as int),
                cc as int,
                w2 as int,
            ),
            p1 == units_ilen(us.take(k1 as int)),
            p1 <= input@.len(),
            len == input@.len(),
            cc <= w2 + 3,
            w2 == w / 2,
        decreases n - k1,
    {
        let u = &units[k1];
        proof {
            lemma_spec_units_wf(input@);
            lemma_units_cover(input@);
            assert(us[k1 as int] == units@[k1 as int]@);
            assert(us.skip(k1 as int)[0] == us[k1 as int]);
            assert(us.skip(k1 as int).drop_first() =~= us.skip(k1 + 1));
            assert(us.take(k1 + 1) =~= us.take(k1 as int).push(us[k1 as int]));
            lemma_units_ilen_push(us.take(k1 as int), us[k1 as int]);
            lemma_units_ilen_split(us, k1 + 1);
            lemma_units_ilen_nonneg(us.skip(k1 + 1));
            assert(us[k1 as int].chars.len() <= 4);
            assert(*u == units@[k1 as int]);
            assert(u@ == us[k1 as int]);
            assert(u.ilen as int == us[k1 as int].ilen);
            assert(u@.chars.len() <= 4);
            assert(u.chars@.len() <= 4);
            assert(units_ilen(us.take(k1 + 1)) <= input@.len());
            assert(p1 + u.ilen as int <= input@.len());
        }
        cc = cc + u.chars.len();
        p1 = p1 + u.ilen;
        k1 = k1 + 1;
    }
    proof {
        assert(head_count(us.skip(k1 as int), cc as int, w2 as int) == 0);
        assert(head_count(us, 0, w2 as int) == k1 as int);
    }

    // tail: over-estimate where the tail may start, decode from there, and
    // walk backward while the tail character budget holds
    let over = if w2 > len / 4 {
        0
    } else {
        len - 4 * w2
    };
    let s2 = if over > p1 {
        over
    } else {
        p1
    };
    proof {
        let over_spec = input@.len() - 4 * (w2 as int);
        let s2_spec: int = if over_spec > p1 as int {
            over_spec
        } else {
            p1 as int
        };
        assert(w2 > len / 4 ==> 4 * (w2 as int) > len as int);
        assert(s2 as int == s2_spec);
    }
    let tail = vstd::slice::slice_subrange(input, s2, len);
    let units2 = decode_units(tail);
    let ghost us2 = unit_views(units2@);
    proof {
        assert(tail@ =~= input@.skip(s2 as int));
        assert(us2 == spec_units(input@.skip(s2 as int)));
        lemma_spec_units_wf(input@.skip(s2 as int));
        lemma_units_cover(input@.skip(s2 as int));
    }
    let w2b = w2 + (w % 2) - 1;
    let n2 = units2.len();
    let mut m = n2;
    let mut t: usize = 0;
    let mut cc2: usize = 0;
    let mut pl: usize = 0;
    let mut live: usize = 1;
    proof {
        assert(us2.take(n2 as int) =~= us2);
        assert(us2.skip(n2 as int) =~= Seq::<UnitV>::empty());
    }
    while m > 0 && live == 1
        invariant
            n2 == us2.len(),
            us2 == spec_units(input@.skip(s2 as int)),
            us2 == unit_views(units2@),
            m <= n2,
            t == n2 - m,
            live <= 1,
            live == 1 ==> tail_count(us2, w2b as int) == t + tail_count(
                us2.take(m as int),
                w2b as int - cc2 as int,
            ),
            live == 1 ==> tail_scan_len(us2, w2b as int) == pl + tail_scan_len(
                us2.take(m as int),
                w2b as int - cc2 as int,
            ),
            live == 1 ==> pl == units_ilen(us2.skip(m as int)),
            live == 0 ==> tail_count(us2, w2b as int) == t,
            live == 0 ==> tail_scan_len(us2, w2b as int) == pl,
            len == input@.len(),
            s2 <= len,
            pl <= input@.len() - s2,
            cc2 <= w2b + 4,
            w2b as int <= w as int / 2,
        decreases m + live,
    {
        let u = &units2[m - 1];
        proof {
            lemma_spec_units_wf(input@.skip(s2 as int));
            lemma_units_cover(input@.skip(s2 as int));
            assert(us2[m - 1] == units2@[m - 1]@);
            assert(us2.take(m as int).last() == us2[m - 1]);
            assert(us2.take(m as int).drop_last() =~= us2.take(m - 1));
            assert(us2[m - 1].chars.len() <= 4);
            assert(u@.chars.len() <= 4);
            lemma_units_ilen_split(us2, m - 1);
            lemma_units_ilen_split(us2, m as int);
            lemma_units_ilen_nonneg(us2.take(m - 1));
            assert(us2.skip(m - 1) =~= seq![us2[m - 1]] + us2.skip(m as int));
            assert(units_ilen(us2.skip(m - 1)) == us2[m - 1].ilen + units_ilen(us2.skip(m as int)))
                by {
                assert((seq![us2[m - 1]] + us2.skip(m as int)).drop_first() =~= us2.skip(m as int));
                assert((seq![us2[m - 1]] + us2.skip(m as int))[0] == us2[m - 1]);
            }
        }
        let c = u.chars.len();
        if cc2 + c <= w2b {
            cc2 = cc2 + c;
            pl = pl + u.ilen;
            t = t + 1;
            m = m - 1;
        } else {
            pl = pl + u.ilen;
            live = 0;
            proof {
                assert(tail_count(us2.take(m as int), w2b as int - cc2 as int) == 0);
                assert(tail_scan_len(us2.take(m as int), w2b as int - cc2 as int) == us2[m
                    - 1].ilen);
            }
        }
    }
    proof {
        if live == 1 {
            assert(m == 0);
            assert(us2.take(0) =~= Seq::<UnitV>::empty());
            assert(tail_count(us2, w2b as int) == t);
            assert(tail_scan_len(us2, w2b as int) == pl);
        }
        assert(t <= n2);
    }
    let consumed = pl >= len - p1;
    let start = if consumed {
        0
    } else {
        n2 - t
    };

    let mut out: Vec<char> = Vec::new();
    coalesce_range(&units, 0, k1, &mut out);
    if !consumed {
        out.push(GAP_MARKER);
    }
    coalesce_range(&units2, start, n2, &mut out);
    proof {
        assert(us.subrange(0, k1 as int) =~= us.take(k1 as int));
        assert(us2.subrange(start as int, n2 as int) =~= us2.skip(start as int));
        let w_i = w as int;
        let w2_i = w_i / 2;
        assert(w2 as int == w2_i);
        assert(w2b as int == w2_i + (w_i % 2) - 1);
        assert(consumed == (p1 as int + tail_scan_len(us2, w2b as int) >= input@.len()));
        if consumed {
            assert(out@ =~= spec_pretty(input@, width as int));
        } else {
            assert(out@ =~= spec_pretty(input@, width as int));
        }
    }
    out
}

/// Length of the longest prefix that is valid UTF-8 and ends on a scalar
/// boundary; at that point either the input ends or no well-formed scalar
/// starts.
pub(crate) fn utf8_valid_prefix(s: &[u8]) -> (r: usize)
    ensures
        r <= s@.len(),
        valid_utf8(s@.take(r as int)),
        r < s@.len() ==> !valid_first_scalar(s@.skip(r as int)),
{
    broadcast use vstd::utf8::valid_utf8_concat;

    let n = s.len();
    let mut pos: usize = 0;
    proof {
        assert(s@.take(0) =~= Seq::<u8>::empty());
    }
    while pos < n
        invariant
            n == s@.len(),
            pos <= n,
            valid_utf8(s@.take(pos as int)),
        decreases n - pos,
    {
        broadcast use vstd::utf8::valid_utf8_concat;

        let u = decode_one(s, pos);
        if !u.valid {
            return pos;
        }
        proof {
            let suf = s@.skip(pos as int);
            assert(valid_first_scalar(suf));
            assert(u.ilen as int == length_of_first_scalar(suf));
            let scalar_bytes = suf.take(u.ilen as int);
            assert(forall|j: int| 0 <= j < u.ilen ==> scalar_bytes[j] == suf[j]);
            assert(valid_first_scalar(scalar_bytes));
            assert(length_of_first_scalar(scalar_bytes) == length_of_first_scalar(suf));
            assert(pop_first_scalar(scalar_bytes) =~= Seq::<u8>::empty());
            assert(valid_utf8(pop_first_scalar(scalar_bytes)));
            assert(valid_utf8(scalar_bytes));
            assert(s@.take(pos + u.ilen) =~= s@.take(pos as int) + scalar_bytes);
        }
        pos = pos + u.ilen;
    }
    proof {
        assert(s@.take(pos as int) =~= s@.take(n as int));
    }
    pos
}

} // verus!
