//! Text primitives, held against `std`.

use kiss_cache::text::{
    append_run, chars_of, find_colon, has_prefix, has_suffix, lines, parse_u64, push_decimal,
    push_hexadecimal, push_padded_decimal, same_run, same_text, spells, split, text_of, trim_end,
    white_space,
};

fn chars(s: &str) -> Vec<char> {
    s.chars().collect()
}

/// Every string of up to five of these parts.
fn samples() -> Vec<String> {
    let parts = ["\n", "\r", ": ", " ", "a", "\u{a0}\u{e9}"];
    let mut all = vec![String::new()];
    let mut last = vec![String::new()];
    for _ in 0..5 {
        let mut next = Vec::new();
        for head in &last {
            for part in parts {
                next.push(format!("{head}{part}"));
            }
        }
        all.extend(next.iter().cloned());
        last = next;
    }
    all
}

#[test]
fn lines_are_those_of_std() {
    for s in samples() {
        let theirs: Vec<&str> = s.lines().collect();
        let cs = chars(&s);
        let ours: Vec<String> =
            lines(&cs, '\n', '\r').iter().map(|(a, b)| cs[*a..*b].iter().collect()).collect();
        assert_eq!(ours, theirs, "{s:?}");
        let bytes = s.as_bytes();
        let ours: Vec<&[u8]> =
            lines(bytes, b'\n', b'\r').iter().map(|(a, b)| &bytes[*a..*b]).collect();
        assert_eq!(ours, theirs.iter().map(|l| l.as_bytes()).collect::<Vec<_>>(), "{s:?}");
    }
}

#[test]
fn splitting_and_trimming_are_those_of_std() {
    for s in samples() {
        let cs = chars(&s);
        let ours: Vec<String> =
            split(&cs, ' ').iter().map(|(a, b)| cs[*a..*b].iter().collect()).collect();
        assert_eq!(ours, s.split(' ').collect::<Vec<_>>(), "{s:?}");
        assert_eq!(text_of(trim_end(&cs)), s.trim_end(), "{s:?}");
        assert_eq!(
            find_colon(&cs).map(|k| (text_of(&cs[..k]), text_of(&cs[k + 2..]))),
            s.split_once(": ").map(|(a, b)| (a.to_string(), b.to_string())),
            "{s:?}"
        );
        assert_eq!(chars_of(&s), cs);
    }
}

#[test]
fn white_space_is_that_of_std() {
    for n in 0..=0x10ffff_u32 {
        if let Some(c) = char::from_u32(n) {
            assert_eq!(white_space(c), c.is_whitespace(), "{n:#x}");
        }
    }
}

#[test]
fn numbers_are_read_as_by_std() {
    for s in [
        "", "+", "-", "0", "007", "+7", "-0", "++1", " 1", "1 ", "12a", "18446744073709551615",
        "18446744073709551616", "99999999999999999999999", "\u{663}", "+18446744073709551615",
    ] {
        assert_eq!(parse_u64(&chars(s)), s.parse::<u64>().ok(), "{s:?}");
    }
}

#[test]
fn numbers_are_written_as_by_std() {
    for n in [0, 1, 9, 10, 99, 100, 1023, 123_456_789, u64::MAX] {
        let mut out = String::from("x");
        push_decimal(&mut out, n);
        assert_eq!(out, format!("x{n}"));
    }
    for n in [0, 15, 16, 0xdead_beef, u32::MAX] {
        let mut out = String::new();
        push_hexadecimal(&mut out, n, 8);
        assert_eq!(out, format!("{n:08x}"));
    }
    for n in [0, 5, 42, 99] {
        let mut out = String::new();
        push_padded_decimal(&mut out, n, 2);
        assert_eq!(out, format!("{n:02}"));
    }
}

#[test]
fn runs() {
    assert!(same_run(b"ab", b"ab") && !same_run(b"ab", b"ac") && !same_run(b"ab", b"a"));
    assert!(has_prefix(b"abc", b"ab") && !has_prefix(b"a", b"ab") && has_prefix(b"a", b""));
    assert!(has_suffix(b"abc", b"bc") && !has_suffix(b"c", b"bc") && has_suffix(b"a", b""));
    assert!(same_text("\u{e9}", "\u{e9}") && !same_text("a", "b"));
    assert!(spells(&['a', 'b'], "ab") && !spells(&['a'], "ab"));
    let mut v = vec![1u8];
    append_run(&mut v, &[2, 3]);
    assert_eq!(v, [1, 2, 3]);
}
