use red_dot_count::name::{
    find_separator, is_qualifying_extension, parse, strip_extension, try_parse_int, ParsedName,
};

fn parsed(number: Option<i64>, date: &str, time: &str) -> ParsedName {
    ParsedName {
        sequence_number: number,
        date: Some(date.to_string()),
        time: Some(time.to_string()),
    }
}

fn nothing() -> ParsedName {
    ParsedName { sequence_number: None, date: None, time: None }
}

#[test]
fn well_formed_name_gives_number_date_and_time() {
    assert_eq!(parse("003_20240115_083000.tiff"), parsed(Some(3), "20240115", "083000"));
}

#[test]
fn name_with_fewer_than_three_tokens_gives_nothing() {
    assert_eq!(parse("badname.tiff"), nothing());
    assert_eq!(parse("001_20240101.tiff"), nothing());
    assert_eq!(parse(""), nothing());
    assert_eq!(parse(".tif"), nothing());
}

#[test]
fn both_extensions_are_stripped_in_any_case() {
    assert_eq!(parse("001_20240101_000000.tif"), parsed(Some(1), "20240101", "000000"));
    assert_eq!(parse("001_20240101_000000.TIF"), parsed(Some(1), "20240101", "000000"));
    assert_eq!(parse("001_20240101_000000.TiFf"), parsed(Some(1), "20240101", "000000"));
    assert_eq!(parse("001_20240101_000000"), parsed(Some(1), "20240101", "000000"));
}

#[test]
fn other_extensions_stay_in_the_last_token() {
    assert_eq!(parse("001_20240101_000000.png"), parsed(Some(1), "20240101", "000000.png"));
    assert_eq!(parse("001_20240101_000000.tiffx"), parsed(Some(1), "20240101", "000000.tiffx"));
}

#[test]
fn extension_is_stripped_once_and_only_at_the_end() {
    assert_eq!(strip_extension("a.tiff.tiff"), "a.tiff");
    assert_eq!(strip_extension("a.tif_b"), "a.tif_b");
    assert_eq!(strip_extension("tiff"), "tiff");
    assert_eq!(strip_extension("x.tif"), "x");
    assert_eq!(strip_extension("x.TIFF"), "x");
    assert_eq!(strip_extension(".tiff"), "");
    assert_eq!(strip_extension("xtiff"), "xtiff");
    assert_eq!(strip_extension("plain"), "plain");
}

#[test]
fn tokens_beyond_the_third_are_left_aside() {
    assert_eq!(parse("7_20240101_120000_extra_more.tiff"), parsed(Some(7), "20240101", "120000"));
}

#[test]
fn empty_tokens_count_as_tokens() {
    assert_eq!(parse("a__b.tiff"), parsed(None, "", "b"));
    assert_eq!(parse("__.tiff"), parsed(None, "", ""));
    assert_eq!(parse("1_2_.tiff"), parsed(Some(1), "2", ""));
}

#[test]
fn number_that_does_not_cast_is_absent_not_an_error() {
    assert_eq!(parse("abc_20240115_083000.tiff"), parsed(None, "20240115", "083000"));
    assert_eq!(parse("1.5_20240115_083000.tiff"), parsed(None, "20240115", "083000"));
}

#[test]
fn names_beyond_ascii_are_split_by_character() {
    assert_eq!(parse("№1_日付_時刻.tiff"), parsed(None, "日付", "時刻"));
}

#[test]
fn integers_are_read_in_decimal() {
    assert_eq!(try_parse_int("0"), Some(0));
    assert_eq!(try_parse_int("3"), Some(3));
    assert_eq!(try_parse_int("003"), Some(3));
    assert_eq!(try_parse_int("+7"), Some(7));
    assert_eq!(try_parse_int("-12"), Some(-12));
    assert_eq!(try_parse_int("-0"), Some(0));
    assert_eq!(try_parse_int("1234567890"), Some(1_234_567_890));
}

#[test]
fn texts_of_another_shape_are_no_integer() {
    for text in ["", "-", "+", "12a", "a12", " 12", "12 ", "1_2", "--1", "+-1", "1.0", "٣"] {
        assert_eq!(try_parse_int(text), None, "{text:?}");
    }
}

#[test]
fn integers_at_the_edge_of_64_bits() {
    assert_eq!(try_parse_int("9223372036854775807"), Some(i64::MAX));
    assert_eq!(try_parse_int("-9223372036854775808"), Some(i64::MIN));
    assert_eq!(try_parse_int("9223372036854775808"), None);
    assert_eq!(try_parse_int("-9223372036854775809"), None);
    assert_eq!(try_parse_int("00000000000000000000000000009223372036854775807"), Some(i64::MAX));
    assert_eq!(try_parse_int("99999999999999999999999999999999999999"), None);
    assert_eq!(try_parse_int("18446744073709551616"), None);
}

#[test]
fn integer_reading_agrees_with_the_standard_library() {
    for text in ["17", "-17", "+17", "", "x", "0017", "9223372036854775807", "9223372036854775808"]
    {
        assert_eq!(try_parse_int(text), text.parse::<i64>().ok(), "{text:?}");
    }
}

#[test]
fn qualifying_extensions() {
    for ext in ["tif", "tiff", "TIF", "TIFF", "Tif", "tIfF"] {
        assert!(is_qualifying_extension(ext), "{ext}");
    }
    for ext in ["", "ti", "tiffy", "png", "jpg", "tfi", "tifa", ".tif", "tıf"] {
        assert!(!is_qualifying_extension(ext), "{ext}");
    }
}

#[test]
fn separator_search() {
    assert_eq!(find_separator("ab_cd_e", 0), 2);
    assert_eq!(find_separator("ab_cd_e", 2), 2);
    assert_eq!(find_separator("ab_cd_e", 3), 5);
    assert_eq!(find_separator("ab_cd_e", 6), 7);
    assert_eq!(find_separator("ab_cd_e", 7), 7);
    assert_eq!(find_separator("", 0), 0);
    assert_eq!(find_separator("abc", 0), 3);
    assert_eq!(find_separator("abc", 9), 3);
    assert_eq!(find_separator("a_c", usize::MAX), 3);
    assert_eq!(find_separator("é_ü_", 2), 3);
}
