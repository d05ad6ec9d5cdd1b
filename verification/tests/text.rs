use rtk::number::{parse_number, push_decimal};
use rtk::text::{joined, lowered, replaced_char, split_lines, split_words, trimmed};

#[test]
fn text_functions_agree_with_those_of_strings() {
    let texts = [
        "", " ", "a", " a ", "a b", "\ta\u{a0}b\u{3000}", "a\nb", "a\r\nb\r\n", "\r", "a\r", "\n",
        "\n\n", "a\n\nb", "\r\r\n", "\u{feff}x\u{85}y", "\u{1680}q\u{200a}", "A\u{c9}z",
    ];
    for t in texts {
        assert_eq!(split_lines(t), t.lines().collect::<Vec<_>>(), "{:?}", t);
        assert_eq!(split_words(t), t.split_whitespace().collect::<Vec<_>>(), "{:?}", t);
        assert_eq!(trimmed(t), t.trim(), "{:?}", t);
        assert_eq!(lowered(t), t.to_ascii_lowercase(), "{:?}", t);
        assert_eq!(replaced_char(t, 'a', '/'), t.replace('a', "/"), "{:?}", t);
    }
    let parts: Vec<String> = vec!["x".to_string(), "".to_string(), "y".to_string()];
    assert_eq!(joined(&parts, ", "), parts.join(", "));
}

#[test]
fn white_space_is_that_of_characters() {
    for n in 0..0x11_0000u32 {
        if let Some(c) = char::from_u32(n) {
            assert_eq!(rtk::text::white_space(c), c.is_whitespace(), "{:?}", c);
        }
    }
}

#[test]
fn numbers_are_read_like_integers() {
    let texts = [
        "", "+", "-", "0", "+0", "-0", "00", "007", "12", "255", "256", "+255", "++1", "1 ", "1_0",
        "18446744073709551615", "18446744073709551616", "99999999999999999999999", "0x1", "\u{661}",
        "000000000000000000000000000000001",
    ];
    for t in texts {
        assert_eq!(parse_number(t, u64::MAX), t.parse::<u64>().ok(), "{:?}", t);
        assert_eq!(parse_number(t, 255), t.parse::<u8>().ok().map(|v| v as u64), "{:?}", t);
    }
}

#[test]
fn numbers_are_read_back() {
    for n in [0, 9, 10, 99, 100, 12345, u64::MAX] {
        let mut text = String::from("x");
        push_decimal(&mut text, n);
        assert_eq!(text, format!("x{}", n));
        assert_eq!(parse_number(&text[1..], u64::MAX), Some(n));
    }
}
