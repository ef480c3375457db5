use chunkdir::selection::{digit_value, is_white_space, parse_selection, trim};

#[test]
fn a_number_in_range_picks_an_entry() {
    assert_eq!(parse_selection("1", 3), Some(0));
    assert_eq!(parse_selection("2", 3), Some(1));
    assert_eq!(parse_selection("3", 3), Some(2));
    assert_eq!(parse_selection("10", 10), Some(9));
    assert_eq!(parse_selection("1", 1), Some(0));
}

#[test]
fn a_number_out_of_range_picks_nothing() {
    assert_eq!(parse_selection("0", 3), None);
    assert_eq!(parse_selection("4", 3), None);
    assert_eq!(parse_selection("1", 0), None);
    assert_eq!(parse_selection("0", 0), None);
    assert_eq!(parse_selection("30", 3), None);
    assert_eq!(parse_selection("18446744073709551616", usize::MAX), None);
    assert_eq!(parse_selection("99999999999999999999999999999999999999999999", 3), None);
}

#[test]
fn the_largest_number_can_be_picked() {
    assert_eq!(
        parse_selection(&format!("{}", usize::MAX), usize::MAX),
        Some(usize::MAX - 1)
    );
}

#[test]
fn white_space_around_the_number_is_dropped() {
    assert_eq!(parse_selection("2\n", 3), Some(1));
    assert_eq!(parse_selection("2\r\n", 3), Some(1));
    assert_eq!(parse_selection("  2  ", 3), Some(1));
    assert_eq!(parse_selection("\t2\u{b}\u{c}", 3), Some(1));
    assert_eq!(parse_selection("\u{3000}2\u{a0}\u{2003}\u{85}", 3), Some(1));
    assert_eq!(parse_selection("\u{1680}\u{2028}\u{2029}\u{202f}\u{205f}2", 3), Some(1));
}

#[test]
fn a_plus_sign_and_leading_zeros_are_taken() {
    assert_eq!(parse_selection("+2", 3), Some(1));
    assert_eq!(parse_selection("002", 3), Some(1));
    assert_eq!(parse_selection("+002", 3), Some(1));
    assert_eq!(parse_selection(" +3\n", 3), Some(2));
    assert_eq!(parse_selection("0000000000000000000000000000000000003", 3), Some(2));
}

#[test]
fn anything_else_picks_nothing() {
    for response in [
        "", " ", "\n", "+", "-", "-1", "++1", "+-1", "1+", "1 2", "1.0", "1e0", "0x1", "one", "2a",
        "a2", "+ 2", "\u{661}", "\u{ff11}", "2\u{200b}", "1_0",
    ] {
        assert_eq!(parse_selection(response, 10), None, "{:?}", response);
    }
}

#[test]
fn selection_agrees_with_trimming_and_parsing() {
    let responses = [
        "1", " 7 ", "+5", "05", "11", "0", "", "x", "-3", "3\n", "\u{a0}4", "4\u{feff}", "10", "+",
        "1\u{0}", "\u{1c}2", "\u{1f}2\u{1f}", "\u{2000}9\u{200a}", "\u{180e}1",
    ];
    for response in responses {
        for count in [0usize, 1, 5, 10, 11] {
            let expected = match response.trim().parse::<usize>() {
                Ok(n) if n > 0 && n <= count => Some(n - 1),
                _ => None,
            };
            assert_eq!(parse_selection(response, count), expected, "{:?}", response);
        }
    }
}

#[test]
fn white_space_is_what_the_standard_calls_white_space() {
    for code in 0..=0x11_0000u32 {
        if let Some(c) = char::from_u32(code) {
            assert_eq!(is_white_space(c), c.is_whitespace(), "{:x}", code);
        }
    }
}

#[test]
fn digits_are_the_ten_ascii_digits() {
    for code in 0..=0x11_0000u32 {
        if let Some(c) = char::from_u32(code) {
            assert_eq!(digit_value(c), if c.is_ascii_digit() { Some(c as u8 - b'0') } else { None });
        }
    }
}

#[test]
fn trimming_drops_the_white_space_at_both_ends() {
    assert_eq!(trim(""), "");
    assert_eq!(trim("   "), "");
    assert_eq!(trim("a"), "a");
    assert_eq!(trim("  a b  "), "a b");
    assert_eq!(trim("/tmp/big file.bin\n"), "/tmp/big file.bin");
    assert_eq!(trim("\r\n\t x \u{3000}\u{a0}"), "x");
    assert_eq!(trim("\u{e9}t\u{e9} \u{2003}"), "\u{e9}t\u{e9}");
    assert_eq!(trim("\u{200b}x\u{200b}"), "\u{200b}x\u{200b}");
}

#[test]
fn trimming_agrees_with_the_standard() {
    for text in ["", " ", "x", " x", "x ", "\u{85}x y\u{1680}", "\u{feff}x", "a\u{0}", "\n\n", "\u{4e2d} \u{6587} "] {
        assert_eq!(trim(text), text.trim());
    }
}
