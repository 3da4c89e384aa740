use axp::pretty;

#[test]
fn utf8_pretty() {
    assert_eq!(pretty(b"a", 0), "a");
    assert_eq!(pretty("ä".as_bytes(), 0), "ä");
    assert_eq!(pretty(b" \n", 0), " \\n");
    assert_eq!(pretty(b"\0\x01\x07\x13\\\x1f", 0), r"\0\x01\x07\x13\\\x1f");
    assert_eq!(pretty(b"ASCII text\tand tab", 0), "ASCII text\\tand tab");
    assert_eq!(pretty(b"not utf8\xf0\x80-", 0), r"not utf8\Uf080;-");
    assert_eq!(pretty(b"abcd\x00ef\xfegh", 0), r"abcd\0ef\Ufe;gh");

    let s = ["abcdefghijklmn", "öde Scheiße 💩 été à Li 李"];
    let t = ["abc⠤mn", "öde⠤ 李"];
    let b = s.iter().map(|s| s.as_bytes()).collect::<Vec<_>>();
    for i in 0..s.len() {
        assert_eq!(pretty(b[i], 0), s[i], "string {i} iteration 0");
        for j in 1..7 {
            assert_eq!(pretty(b[i], j), t[i], "string {i} iteration {j}");
        }
    }

    assert_eq!(pretty(b[0], 7), "abc⠤lmn");
    assert_eq!(pretty(b[0], 8), "abcd⠤lmn");
    assert_eq!(pretty(b[0], 9), "abcd⠤klmn");
    assert_eq!(pretty(b[0], 10), "abcde⠤klmn");
    assert_eq!(pretty(b[0], 11), "abcde⠤jklmn");
    assert_eq!(pretty(b[0], 12), "abcdef⠤jklmn");
    assert_eq!(pretty(b[0], 13), "abcdef⠤ijklmn");
    assert_eq!(pretty(b[0], 14), "abcdefghijklmn");
    assert_eq!(pretty(b[1], 10), "öde S⠤Li 李");
    assert_eq!(pretty(b[1], 11), "öde S⠤ Li 李");
    assert_eq!(pretty(b[1], 12), "öde Sc⠤ Li 李");
    assert_eq!(pretty(b[1], 13), "öde Sc⠤à Li 李");
    assert_eq!(pretty(b[1], 14), "öde Sch⠤à Li 李");
    assert_eq!(pretty(b[1], 15), "öde Sch⠤ à Li 李");
    assert_eq!(pretty(b[1], 16), "öde Sche⠤ à Li 李");
    assert_eq!(pretty(b[1], 17), "öde Sche⠤é à Li 李");
    assert_eq!(pretty(b[1], 18), "öde Schei⠤é à Li 李");
    assert_eq!(pretty(b[1], 19), "öde Schei⠤té à Li 李");
    assert_eq!(pretty(b[1], 20), "öde Scheiß⠤té à Li 李");
    assert_eq!(pretty(b[1], 21), "öde Scheiß⠤été à Li 李");
    assert_eq!(pretty(b[1], 22), "öde Scheiße⠤été à Li 李");
    assert_eq!(pretty(b[1], 23), "öde Scheiße⠤ été à Li 李");
    assert_eq!(pretty(b[1], 24), "öde Scheiße 💩 été à Li 李");
    assert_eq!(pretty(b[1], 25), "öde Scheiße 💩 été à Li 李");
}

#[test]
fn a_test() {
    println!("{}", pretty("öde Scheiße 💩 été à Li 李".as_bytes(), 24));
}

#[test]
fn fuzzy_pretty() {
    // run many times to see whether panics are triggered
    let mut seed: u64 = 42;
    for _ in 0..1000 {
        let s = rand_bytes(&mut seed);
        let bytes = s.as_slice();
        pretty(bytes, 0);

        let n = bytes.len() as u8;
        pretty(bytes, (lcr(&mut seed) % n) as usize);

        if n > 10 {
            pretty(bytes, (10 + lcr(&mut seed) % (n - 10)) as usize);
        }
    }
    let _ = pretty(b"asdf", 0);
}

fn rand_bytes(seed: &mut u64) -> Vec<u8> {
    let n = lcr(seed);
    let mut v = Vec::with_capacity(n as usize);
    for _ in 0..n {
        v.push(lcr(seed))
    }
    v
}

// by Donald Knuth
const A: u64 = 6364136223846793005;
const B: u64 = 1442695040888963407;

fn lcr(seed: &mut u64) -> u8 {
    let x = A.wrapping_mul(*seed).wrapping_add(B);
    *seed = x;
    x as u8
}

#[test]
fn pretty_control_and_invalid_units() {
    // one \xHH escape for the control byte, one coalesced invalid run; a
    // run still open at the end is closed there
    assert_eq!(pretty(b"012\x01456789\xff", 0), "012\\x01456789\\Uff;");
    assert_eq!(pretty(b"a\xff\xfe\x01b", 0), "a\\Ufffe;\\x01b");
}

#[test]
fn wide_width_shows_everything() {
    // beyond twice the rendered character count the gap marker disappears
    // and the full lossless text is produced
    let s: &[u8] = b"abc\x01\xffdef";
    let full = pretty(s, 0);
    assert_eq!(full, "abc\\x01\\Uff;def");
    assert_eq!(pretty(s, 2 * full.chars().count()), full);
    assert_eq!(pretty(s, 1000), full);
}

#[test]
fn full_count_width_no_gap() {
    // at a width whose even part reaches the rendered character count,
    // everything is shown and the gap marker disappears
    let s = "💩".repeat(6);
    assert_eq!(pretty(s.as_bytes(), 6), s);
    assert_eq!(pretty(s.as_bytes(), 7), s);
    // at an odd width equal to the count, wide characters can overrun the
    // backward scan window: one character falls into the gap
    let t = "💩".repeat(11);
    let split = format!("{}⠤{}", "💩".repeat(5), "💩".repeat(5));
    assert_eq!(pretty(t.as_bytes(), 11), split);
    assert_eq!(pretty(t.as_bytes(), 12), t);
}
