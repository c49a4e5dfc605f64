use rustypdf::numbers::{
    characters, parse_page_numbers, parse_position, read_field, read_number, read_page_numbers,
    read_unsigned, space,
};

fn chars(text: &str) -> Vec<char> {
    text.chars().collect()
}

/// What the standard library makes of the text, field by field.
fn by_std(text: &str) -> Vec<u32> {
    text.split(',').filter_map(|field| field.trim().parse::<u32>().ok()).collect()
}

#[test]
fn page_numbers_are_separated_by_commas() {
    assert_eq!(parse_page_numbers("1, 3"), vec![1, 3]);
    assert_eq!(parse_page_numbers("3,1,2"), vec![3, 1, 2]);
    assert_eq!(parse_page_numbers("7"), vec![7]);
    assert_eq!(parse_page_numbers(" 12 ,\t5\n"), vec![12, 5]);
}

#[test]
fn what_is_no_number_is_passed_over() {
    assert_eq!(parse_page_numbers(""), Vec::<u32>::new());
    assert_eq!(parse_page_numbers(","), Vec::<u32>::new());
    assert_eq!(parse_page_numbers("a, 2, 3b, -4, 5 6, , 7"), vec![2, 7]);
    assert_eq!(parse_page_numbers("1.5, 2"), vec![2]);
    assert_eq!(parse_page_numbers("1,,2,"), vec![1, 2]);
}

#[test]
fn a_plus_sign_may_lead() {
    assert_eq!(parse_page_numbers("+4, ++5, +, + 6, 7+"), vec![4]);
    assert_eq!(parse_page_numbers("+0"), vec![0]);
}

#[test]
fn numbers_must_fit() {
    assert_eq!(parse_page_numbers("4294967295"), vec![u32::MAX]);
    assert_eq!(parse_page_numbers("4294967296, 1"), vec![1]);
    assert_eq!(parse_page_numbers("99999999999999999999999999999999, 2"), vec![2]);
    assert_eq!(parse_page_numbers("0000000000000000000000000000000000000007"), vec![7]);
    assert_eq!(parse_page_numbers("42949672950"), Vec::<u32>::new());
}

#[test]
fn white_space_is_what_unicode_says() {
    assert_eq!(parse_page_numbers("\u{a0}1\u{3000},\u{2003}2\u{85},\u{200b}3"), vec![1, 2]);
    for code in 0u32..0x3100 {
        if let Some(c) = char::from_u32(code) {
            assert_eq!(space(c), c.is_whitespace());
        }
    }
    assert!(!space('\u{10ffff}'));
}

#[test]
fn page_numbers_agree_with_the_standard_library() {
    let texts = [
        "", " ", ",", ",,", "1", " 1", "1 ", "1,2", "1, 2 ,3", "+1", "-1", "+", "+-1", "1+",
        "01", "١", "1\u{a0}", "\u{2028}8\u{2029}", "4294967295", "4294967296", "429496729 5",
        "x", "1,x,2", "  ,  ", "7,", ",7", "１", "1e3", "0x10", "1_000", "\t\n\r9\u{b}\u{c}",
        "18446744073709551616", "+4294967295", "+4294967296", "+00000000000000000000001",
    ];
    for text in texts {
        assert_eq!(parse_page_numbers(text), by_std(text));
    }
}

#[test]
fn read_unsigned_wants_digits_only() {
    let text = chars("ab120cd");
    assert_eq!(read_unsigned(&text, 2, 5), Some(120));
    assert_eq!(read_unsigned(&text, 2, 2), None);
    assert_eq!(read_unsigned(&text, 1, 5), None);
    assert_eq!(read_unsigned(&text, 2, 6), None);
    assert_eq!(read_unsigned(&text, 4, 5), Some(0));
}

#[test]
fn read_field_trims() {
    let text = chars("x  +12 \t,");
    assert_eq!(read_field(&text, 1, 8), Some(12));
    assert_eq!(read_field(&text, 3, 6), Some(12));
    assert_eq!(read_field(&text, 0, 8), None);
    assert_eq!(read_field(&text, 1, 3), None);
    assert_eq!(read_field(&text, 1, 4), None);
    assert_eq!(read_page_numbers(&text), Vec::<u32>::new());
    assert_eq!(read_page_numbers(&chars("2 ,x")), vec![2]);
}

#[test]
fn a_position_is_a_number_or_zero() {
    assert_eq!(parse_position("2"), 2);
    assert_eq!(parse_position("+2"), 2);
    assert_eq!(parse_position("0"), 0);
    assert_eq!(parse_position(""), 0);
    assert_eq!(parse_position(" 2"), 0);
    assert_eq!(parse_position("2 "), 0);
    assert_eq!(parse_position("two"), 0);
    assert_eq!(parse_position("-1"), 0);
    assert_eq!(parse_position("4294967295"), u32::MAX);
    assert_eq!(parse_position("4294967296"), 0);
    for text in ["", "5", "+5", " 5", "5,6", "05", "+", "१"] {
        assert_eq!(parse_position(text), text.parse::<u32>().unwrap_or(0));
    }
}

#[test]
fn read_number_takes_a_plus_sign() {
    let text = chars("+12+");
    assert_eq!(read_number(&text, 0, 3), Some(12));
    assert_eq!(read_number(&text, 1, 3), Some(12));
    assert_eq!(read_number(&text, 0, 1), None);
    assert_eq!(read_number(&text, 0, 4), None);
    assert_eq!(read_number(&text, 2, 2), None);
}

#[test]
fn characters_of_a_text() {
    assert_eq!(characters("a, ü"), vec!['a', ',', ' ', 'ü']);
    assert_eq!(characters(""), Vec::<char>::new());
}
