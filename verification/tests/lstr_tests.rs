use axp::{shorten_lossy, LStr, LStrError, ShortenLossy};

#[test]
fn lstr_from_bytes() {
    let s = LStr::<24>::try_from_uf8(b"Hello!").unwrap();
    assert_eq!(s.as_bytes(), b"Hello!");
    assert_eq!(s.len(), 6);
    assert!(!s.is_empty());

    let empty = LStr::<24>::try_from_uf8(b"").unwrap();
    assert!(empty.is_empty());

    let long = "x".repeat(25);
    let too_long = LStr::<24>::try_from_uf8(long.as_bytes());
    assert_eq!(too_long, Err(LStrError::TooLong { len: 25 }));

    let not_utf8 = LStr::<24>::try_from_uf8(b"ok till here\xff");
    assert_eq!(not_utf8, Err(LStrError::NotUtf8 { valid_up_to: 12 }));

    // a multi-byte character cut in half is invalid from its start
    let cut = LStr::<24>::try_from_uf8(b"ab\xe2\x82");
    assert_eq!(cut, Err(LStrError::NotUtf8 { valid_up_to: 2 }));
}

#[test]
fn lstr_from_str() {
    let s = LStr::<8>::try_from_str("héllo").unwrap();
    assert_eq!(s.as_bytes(), "héllo".as_bytes());
    assert_eq!(
        LStr::<4>::try_from_str("hello"),
        Err(LStrError::TooLong { len: 5 })
    );
}

#[test]
fn shorten_lossy_widths() {
    let s = b"012\x01456789\xff";
    assert_eq!(shorten_lossy(s, None), "012\u{fffd}456789\u{fffd}");
    assert_eq!(shorten_lossy(s, Some(10)), "012\u{fffd}456789\u{fffd}");
    assert_eq!(shorten_lossy(s, Some(5)), "012⠤9\u{fffd}");
    assert_eq!(shorten_lossy(s, Some(2)), "0⠤\u{fffd}");
    assert_eq!(shorten_lossy(s, Some(1)), "0⠤");

    let w = ShortenLossy(s.to_vec());
    assert_eq!(w.format(None), "012\u{fffd}456789\u{fffd}");
    assert_eq!(w.format(Some(5)), "012⠤9\u{fffd}");
}

#[test]
fn shorten_lossy_maximal_subparts() {
    // a truncated multi-byte character is one maximal ill-formed subpart,
    // shown as a single replacement character
    assert_eq!(shorten_lossy(b"a\xe2\x82b", None), "a\u{fffd}b");
    assert_eq!(shorten_lossy(b"a\xf0\x9f\x92b", None), "a\u{fffd}b");
    // an out-of-range second byte ends the subpart after one byte
    assert_eq!(shorten_lossy(b"\xed\xa0\x80", None), "\u{fffd}\u{fffd}\u{fffd}");
    assert_eq!(shorten_lossy(b"\xff\xfe", None), "\u{fffd}\u{fffd}");
}
