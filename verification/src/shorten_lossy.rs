use vstd::prelude::*;
use vstd::utf8::{
    decode_first_scalar, is_continuation_byte, length_of_first_scalar, valid_first_scalar,
};

use crate::pretty::{chars_to_string, decode_raw, GAP_MARKER};

verus! {

/// The replacement character shown for invalid bytes and control
/// characters.
pub const REPLACEMENT: char = '\u{fffd}';

/// The second byte admissible after a three-byte leading byte: the ranges
/// that rule out overlong encodings and surrogates.
pub open spec fn fits_second_of_3(b0: u8, b1: u8) -> bool {
    if b0 == 0xe0 {
        0xa0 <= b1 && b1 <= 0xbf
    } else if b0 == 0xed {
        0x80 <= b1 && b1 <= 0x9f
    } else {
        is_continuation_byte(b1)
    }
}

/// The second byte admissible after a four-byte leading byte: the ranges
/// that rule out overlong encodings and values past the last scalar.
pub open spec fn fits_second_of_4(b0: u8, b1: u8) -> bool {
    if b0 == 0xf0 {
        0x90 <= b1 && b1 <= 0xbf
    } else if b0 == 0xf4 {
        0x80 <= b1 && b1 <= 0x8f
    } else {
        is_continuation_byte(b1)
    }
}

/// How many bytes one replacement character stands for when no well-formed
/// scalar starts here: the maximal subpart of an ill-formed sequence, the
/// longest prefix of some valid scalar encoding.
pub open spec fn invalid_part_len(bytes: Seq<u8>) -> int {
    let b0 = bytes[0];
    if 0xe0 <= b0 && b0 <= 0xef {
        if bytes.len() >= 2 && fits_second_of_3(b0, bytes[1]) {
            2
        } else {
            1
        }
    } else if 0xf0 <= b0 && b0 <= 0xf4 {
        if bytes.len() >= 2 && fits_second_of_4(b0, bytes[1]) {
            if bytes.len() >= 3 && is_continuation_byte(bytes[2]) {
                3
            } else {
                2
            }
        } else {
            1
        }
    } else {
        1
    }
}

/// Lossy decoding: each well-formed scalar becomes its character, each
/// maximal ill-formed subpart becomes one replacement character.
pub open spec fn lossy_chars(bytes: Seq<u8>) -> Seq<char>
    decreases bytes.len(),
    via lossy_chars_decreases
{
    if bytes.len() == 0 {
        seq![]
    } else if valid_first_scalar(bytes) {
        seq![decode_first_scalar(bytes) as char] + lossy_chars(
            bytes.skip(length_of_first_scalar(bytes)),
        )
    } else {
        seq![REPLACEMENT] + lossy_chars(bytes.skip(invalid_part_len(bytes)))
    }
}

#[via_fn]
proof fn lossy_chars_decreases(bytes: Seq<u8>) {
    if bytes.len() > 0 && !valid_first_scalar(bytes) {
        assert(1 <= invalid_part_len(bytes) <= bytes.len());
    }
}

/// A control character in the sense of the censoring pass: the two Unicode
/// control blocks.
pub open spec fn is_control_char(c: char) -> bool {
    (c as u32) < 0x20 || (0x7f <= c as u32 && c as u32 <= 0x9f)
}

/// Control characters replaced, everything else kept.
pub open spec fn censor_controls(s: Seq<char>) -> Seq<char> {
    s.map_values(
        |c: char|
            if is_control_char(c) {
                REPLACEMENT
            } else {
                c
            },
    )
}

/// The shortened lossy text: for a width that the data exceeds by more than
/// one byte, a head of `(width+1)/2` bytes and a tail of `width/2` bytes
/// around the gap marker; otherwise the whole data. Control characters
/// display as the replacement character.
pub open spec fn spec_shorten_lossy(data: Seq<u8>, width: Option<usize>) -> Seq<char> {
    match width {
        Some(w) if data.len() > w + 1 => censor_controls(
            lossy_chars(data.take((w + 1) as int / 2)) + seq![GAP_MARKER] + lossy_chars(
                data.skip(data.len() - w as int / 2),
            ),
        ),
        _ => censor_controls(lossy_chars(data)),
    }
}

fn lossy_decode(s: &[u8]) -> (r: Vec<char>)
    ensures
        r@ == lossy_chars(s@),
{
    let mut out: Vec<char> = Vec::new();
    let mut i: usize = 0;
    let n = s.len();
    proof {
        assert(s@.skip(0) =~= s@);
        assert(out@ + lossy_chars(s@.skip(0)) =~= lossy_chars(s@));
    }
    while i < n
        invariant
            n == s@.len(),
            i <= n,
            out@ + lossy_chars(s@.skip(i as int)) == lossy_chars(s@),
        decreases n - i,
    {
        let (valid, scalar, ilen) = decode_raw(s, i);
        let step: usize;
        if valid {
            out.push(crate::pretty::char_from_scalar(scalar));
            step = ilen;
        } else {
            out.push(REPLACEMENT);
            step = invalid_part(s, i);
        }
        proof {
            assert(s@.skip(i as int).skip(step as int) =~= s@.skip(i + step));
        }
        i = i + step;
        proof {
            assert(out@ + lossy_chars(s@.skip(i as int)) =~= lossy_chars(s@));
        }
    }
    proof {
        assert(lossy_chars(s@.skip(i as int)) =~= Seq::<char>::empty());
        assert(out@ =~= lossy_chars(s@));
    }
    out
}

/// The maximal ill-formed subpart starting at `i`, as [`invalid_part_len`]
/// says.
fn invalid_part(s: &[u8], i: usize) -> (r: usize)
    requires
        i < s@.len(),
        !valid_first_scalar(s@.skip(i as int)),
    ensures
        r as int == invalid_part_len(s@.skip(i as int)),
        1 <= r <= s@.len() - i,
{
    let ghost suf = s@.skip(i as int);
    let n = s.len();
    let b0 = s[i];
    proof {
        assert(suf[0] == s@[i as int]);
    }
    if 0xe0 <= b0 && b0 <= 0xef {
        if 1 < n - i && fits_second_3(b0, s[i + 1]) {
            proof {
                assert(suf[1] == s@[i + 1]);
            }
            2
        } else {
            proof {
                if 1 < n - i {
                    assert(suf[1] == s@[i + 1]);
                }
            }
            1
        }
    } else if 0xf0 <= b0 && b0 <= 0xf4 {
        if 1 < n - i && fits_second_4(b0, s[i + 1]) {
            proof {
                assert(suf[1] == s@[i + 1]);
            }
            if 2 < n - i && 0x80 <= s[i + 2] && s[i + 2] <= 0xbf {
                proof {
                    assert(suf[2] == s@[i + 2]);
                }
                3
            } else {
                proof {
                    if 2 < n - i {
                        assert(suf[2] == s@[i + 2]);
                    }
                }
                2
            }
        } else {
            proof {
                if 1 < n - i {
                    assert(suf[1] == s@[i + 1]);
                }
            }
            1
        }
    } else {
        1
    }
}

fn fits_second_3(b0: u8, b1: u8) -> (r: bool)
    ensures
        r == fits_second_of_3(b0, b1),
{
    if b0 == 0xe0 {
        0xa0 <= b1 && b1 <= 0xbf
    } else if b0 == 0xed {
        0x80 <= b1 && b1 <= 0x9f
    } else {
        0x80 <= b1 && b1 <= 0xbf
    }
}

fn fits_second_4(b0: u8, b1: u8) -> (r: bool)
    ensures
        r == fits_second_of_4(b0, b1),
{
    if b0 == 0xf0 {
        0x90 <= b1 && b1 <= 0xbf
    } else if b0 == 0xf4 {
        0x80 <= b1 && b1 <= 0x8f
    } else {
        0x80 <= b1 && b1 <= 0xbf
    }
}

fn censor(v: Vec<char>) -> (r: Vec<char>)
    ensures
        r@ == censor_controls(v@),
{
    let mut out: Vec<char> = Vec::new();
    let n = v.len();
    for i in 0..n
        invariant
            n == v@.len(),
            out@.len() == i,
            forall|j: int| 0 <= j < i ==> out@[j] == censor_controls(v@)[j],
        decreases n - i,
    {
        let c = v[i];
        let u = c as u32;
        if u < 0x20 || (0x7f <= u && u <= 0x9f) {
            out.push(REPLACEMENT);
        } else {
            out.push(c);
        }
    }
    proof {
        assert(out@ =~= censor_controls(v@));
    }
    out
}

/// Shorten to about `width` bytes with a gap marker in the middle, decoding
/// lossily and hiding control characters behind the replacement character.
pub fn shorten_lossy(data: &[u8], width: Option<usize>) -> (r: String)
    ensures
        r@ == spec_shorten_lossy(data@, width),
{
    let len = data.len();
    let shortened: Option<usize> = match width {
        Some(w) if len > 0 && w < len - 1 => Some(w),
        _ => None,
    };
    if let Some(w) = shortened {
        proof {
            assert(data@.len() > w + 1);
        }
        let head = vstd::slice::slice_subrange(data, 0, (w + 1) / 2);
        let tail = vstd::slice::slice_subrange(data, len - w / 2, len);
        let mut chars = lossy_decode(head);
        chars.push(GAP_MARKER);
        let mut tail_chars = lossy_decode(tail);
        chars.append(&mut tail_chars);
        proof {
            assert(head@ =~= data@.take((w + 1) as int / 2));
            assert(tail@ =~= data@.skip(data@.len() - w as int / 2));
            assert(chars@ =~= lossy_chars(data@.take((w + 1) as int / 2)) + seq![GAP_MARKER]
                + lossy_chars(data@.skip(data@.len() - w as int / 2)));
        }
        chars_to_string(censor(chars))
    } else {
        proof {
            match width {
                Some(wv) => {
                    assert(!(data@.len() > wv + 1));
                },
                None => {},
            }
        }
        chars_to_string(censor(lossy_decode(data)))
    }
}

/// A byte string displayed with [`shorten_lossy`].
pub struct ShortenLossy(pub Vec<u8>);

impl ShortenLossy {
    /// The shortened lossy text of the held bytes.
    pub fn format(&self, width: Option<usize>) -> (r: String)
        ensures
            r@ == spec_shorten_lossy(self.0@, width),
    {
        shorten_lossy(self.0.as_slice(), width)
    }
}

} // verus!
