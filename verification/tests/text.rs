use looppanel::bytes::{push_u16, push_u32, read_i64, read_u16, read_u32, read_u64};
use looppanel::text::{
    begins_with, chars_of, contains_ignoring_case, encode_utf16, eq_ignoring_case, eq_text,
    eq_text_ignoring_case, find_char, nul_position, parse_u32, push_decimal, push_hex, string_from,
};

fn units(text: &str) -> Vec<u16> {
    text.encode_utf16().collect()
}

#[test]
fn units_are_those_of_the_standard_library() {
    for text in ["", "abc", "温度服务", "a\u{ffff}b", "\u{10000}\u{10ffff}", "\u{d7ff}\u{e000}"] {
        assert_eq!(encode_utf16(text), units(text));
    }
}

#[test]
fn case_of_latin_letters_is_ignored() {
    assert!(eq_ignoring_case(&units("JONSBO-AIO.exe"), &units("jonsbo-aio.EXE")));
    assert!(!eq_ignoring_case(&units("Ä"), &units("ä")));
    assert!(!eq_ignoring_case(&units("@"), &units("`")));
    assert!(!eq_ignoring_case(&units("ab"), &units("abc")));
    assert!(eq_text_ignoring_case("GIF", "gif"));
    assert!(!eq_text_ignoring_case("GIF", "gi"));
    assert!(eq_text("gif", "gif") && !eq_text("Gif", "gif"));
    assert!(contains_ignoring_case(&units(r"\\?\HID#VID_345F&PID_9132#7"), &units("vid_345f")));
    assert!(!contains_ignoring_case(&units("abc"), &units("abcd")));
    assert!(contains_ignoring_case(&units("abc"), &[]));
}

#[test]
fn texts_are_taken_apart() {
    let chars = chars_of("12|ü|3");
    assert_eq!(find_char(&chars, '|'), 2);
    assert_eq!(find_char(&chars, 'x'), 6);
    assert_eq!(string_from(&chars, 3), "ü|3");
    assert_eq!(string_from(&chars, 6), "");
    assert!(begins_with(&chars, 3, "ü|"));
    assert!(!begins_with(&chars, 5, "3|"));
    assert_eq!(nul_position(&units("ab\0c")), 2);
    assert_eq!(nul_position(&units("ab")), 2);
}

#[test]
fn numbers_are_read_back() {
    for value in [0_u32, 7, 10, 4711, u32::MAX] {
        let mut text = String::from("x");
        push_decimal(&mut text, u64::from(value));
        assert_eq!(text, format!("x{value}"));
        assert_eq!(parse_u32(&chars_of(&text[1..])), Some(value));
    }
    for (text, value) in [("", None), ("+", None), ("+5", Some(5)), ("-5", None), ("007", Some(7))] {
        assert_eq!(parse_u32(&chars_of(text)), value, "{text}");
        assert_eq!(text.parse::<u32>().ok(), value, "{text}");
    }
    assert_eq!(parse_u32(&chars_of("4294967296")), None);
    assert_eq!(parse_u32(&chars_of("99999999999999999999999999")), None);
    assert_eq!(parse_u32(&chars_of("1 ")), None);
    let mut text = String::new();
    push_hex(&mut text, &[0, 0x1f, 0xab]);
    assert_eq!(text, "001fab");
}

#[test]
fn bytes_are_little_endian() {
    let mut output = vec![9];
    push_u16(&mut output, 0x1234);
    push_u32(&mut output, 0x89ab_cdef);
    assert_eq!(output, [9, 0x34, 0x12, 0xef, 0xcd, 0xab, 0x89]);
    assert_eq!(read_u16(&output, 1), 0x1234);
    assert_eq!(read_u32(&output, 3), 0x89ab_cdef);
    let wide = 0xfedc_ba98_7654_3210_u64.to_le_bytes();
    assert_eq!(read_u64(&wide, 0), 0xfedc_ba98_7654_3210);
    assert_eq!(read_i64(&wide, 0), i64::from_le_bytes(wide));
    assert_eq!(read_i64(&i64::MIN.to_le_bytes(), 0), i64::MIN);
    assert_eq!(read_i64(&77_i64.to_le_bytes(), 0), 77);
}
