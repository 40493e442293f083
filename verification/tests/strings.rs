use wincrust::strings::{
    chars_of, find_last, is_white_space, lower, read_i32, read_isize, read_unsigned, same, same_text,
    slice_of, split, split_words, string_of, trim, write_decimal, write_integer,
};

fn samples() -> Vec<&'static str> {
    vec![
        "",
        " ",
        "+",
        "a+b++c",
        "  spread \t out\u{3000}words\u{a0}",
        "ÀÉ Zß",
        "-12",
        "+12",
        "2147483647",
        "2147483648",
        "-2147483648",
        "-2147483649",
        "4294967295",
        "4294967296",
        "99999999999999999999999",
        "12x",
        "--1",
        "+-1",
        "-",
        "0",
        "-0",
        "007",
        "٣",
    ]
}

#[test]
fn text_helpers_agree_with_the_standard_library() {
    for s in samples() {
        let v = chars_of(s);
        assert_eq!(string_of(&v), s);
        assert_eq!(string_of(&trim(&v)), s.trim());
        assert_eq!(string_of(&lower(&v)), s.to_ascii_lowercase());
        let rows: Vec<String> = split(&v, '+').iter().map(string_of).collect();
        assert_eq!(rows, s.split('+').collect::<Vec<_>>());
        let words: Vec<String> = split_words(&v).iter().map(string_of).collect();
        assert_eq!(words, s.split_whitespace().collect::<Vec<_>>());
        assert_eq!(find_last(&v, '+'), s.chars().collect::<Vec<_>>().iter().rposition(|c| *c == '+'));
        assert!(same(&v, s) && same_text(s, s));
        assert!(!same_text(s, "another"));
    }
    assert_eq!(string_of(&slice_of(&chars_of("wincrust"), 3, 8)), "crust");
}

#[test]
fn white_space_is_that_of_unicode() {
    for c in '\0'..=char::MAX {
        assert_eq!(is_white_space(c), c.is_whitespace(), "{c:?}");
    }
}

#[test]
fn numbers_are_read_as_the_standard_library_reads_them() {
    for s in samples() {
        let v = chars_of(s);
        assert_eq!(read_i32(&v), s.parse::<i32>().ok(), "{s}");
        assert_eq!(
            read_unsigned(&v, u32::MAX as u64),
            s.parse::<u32>().ok().map(u64::from),
            "{s}"
        );
        assert_eq!(
            read_unsigned(&v, 255),
            s.parse::<u8>().ok().map(u64::from),
            "{s}"
        );
    }
}

#[test]
fn a_number_that_was_written_reads_back() {
    for n in [0, 7, 10, 99, 100, 4096, u32::MAX as u64, u64::MAX] {
        assert_eq!(write_decimal(n), n.to_string());
    }
    for n in [0, -1, 10, -10, i32::MAX as i64, i32::MIN as i64, i64::MIN, i64::MAX] {
        assert_eq!(write_integer(n), n.to_string());
        assert_eq!(
            read_i32(&chars_of(&write_integer(n))),
            i32::try_from(n).ok()
        );
    }
}

#[test]
fn wide_numbers_read_as_std_reads_them() {
    let wide = [
        u64::MAX.to_string(),
        "18446744073709551616".to_string(),
        isize::MAX.to_string(),
        isize::MIN.to_string(),
        "9223372036854775808".to_string(),
        "-9223372036854775809".to_string(),
    ];
    for s in samples().into_iter().chain(wide.iter().map(|s| s.as_str())) {
        assert_eq!(read_isize(&chars_of(s)), s.parse::<isize>().ok(), "{s}");
        assert_eq!(
            read_unsigned(&chars_of(s), u64::MAX),
            s.parse::<u64>().ok(),
            "{s}"
        );
    }
}
