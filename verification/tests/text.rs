use network_inventory::text::{
    characters, decimal_text, digit, find_first, is_white_space, parse_number, push_left, push_right,
    trim,
};

#[test]
fn characters_of_a_string() {
    assert_eq!(characters("añ/\u{1F980}"), vec!['a', 'ñ', '/', '\u{1F980}']);
    assert_eq!(characters(""), Vec::<char>::new());
}

#[test]
fn white_space_is_that_of_unicode() {
    for n in 0..=0x10_FFFFu32 {
        if let Some(c) = char::from_u32(n) {
            assert_eq!(is_white_space(c), c.is_whitespace(), "{n:#x}");
        }
    }
}

#[test]
fn trimming() {
    for s in ["", " ", "a", "  a b\t\n", "\u{3000}x\u{85}", "no", "\u{a0}\u{a0}"] {
        let v = characters(s);
        let (a, b) = trim(&v, 0, v.len());
        let out: String = v[a..b].iter().collect();
        assert_eq!(out, s.trim());
    }
}

#[test]
fn trimming_a_part() {
    let v = characters("x  y  z");
    assert_eq!(trim(&v, 1, 6), (3, 4));
    assert_eq!(trim(&v, 1, 3), (3, 3));
}

#[test]
fn numbers() {
    for s in ["", "+", "0", "+0", "007", "255", "256", "4294967295", "4294967296", "1x", "-1", "٣"] {
        let v = characters(s);
        assert_eq!(parse_number(&v, 0, v.len(), 10, u32::MAX), s.parse::<u32>().ok(), "{s}");
        assert_eq!(
            parse_number(&v, 0, v.len(), 10, 255),
            s.parse::<u8>().ok().map(u32::from),
            "{s}"
        );
    }
    for s in ["fF", "+1a", "g", "100", "00ff", "-a"] {
        let v = characters(s);
        assert_eq!(
            parse_number(&v, 0, v.len(), 16, 255),
            u8::from_str_radix(s, 16).ok().map(u32::from),
            "{s}"
        );
    }
}

#[test]
fn long_numbers() {
    let zeros = "0".repeat(40) + "42";
    let v = characters(&zeros);
    assert_eq!(parse_number(&v, 0, v.len(), 10, u32::MAX), Some(42));
    let v = characters(&"9".repeat(40));
    assert_eq!(parse_number(&v, 0, v.len(), 10, u32::MAX), None);
}

#[test]
fn decimals() {
    for n in [0, 7, 10, 99, 100, 500_000, 1_000_000_007, u64::MAX] {
        assert_eq!(decimal_text(n), n.to_string());
    }
}

#[test]
fn digits() {
    let all: String = (0..16u8).map(digit).collect();
    assert_eq!(all, "0123456789abcdef");
}

#[test]
fn searching() {
    let v = characters("aa:bb-cc");
    assert_eq!(find_first(&v, 0, v.len(), ':', '-'), 2);
    assert_eq!(find_first(&v, 3, v.len(), ':', '-'), 5);
    assert_eq!(find_first(&v, 6, v.len(), ':', '-'), 8);
    assert_eq!(find_first(&v, 0, 2, ':', '-'), 2);
}

#[test]
fn columns() {
    for s in ["", "abc", "exactly8", "longer than that", "ñandú"] {
        let mut left = String::from("|");
        push_left(&mut left, s, 8);
        assert_eq!(left, format!("|{s:<8}"));
        let mut right = String::from("|");
        push_right(&mut right, s, 8);
        assert_eq!(right, format!("|{s:>8}"));
    }
}
