//! Number and size parsing behaviour.

use duplis::parse_file_size::{
    format_file_size, parse_file_size, parse_number_prefix, FileSizeError, ParseIntError,
};
use duplis::parse_number::{NumberParseError, UNumberParser};

#[test]
fn test_num_prefix() {
    let result = parse_number_prefix("1923123basdjas", 10).unwrap();
    assert_eq!(result, (1923123, "basdjas"));
    let result = parse_number_prefix("00", 10).unwrap();
    assert_eq!(result, (0, ""));
    let result = parse_number_prefix("413lpik", 8).unwrap();
    assert_eq!(result, (0o413, "lpik"));
    let result = parse_number_prefix("01012345", 2).unwrap();
    assert_eq!(result, (0b0101, "2345"));
    let result = parse_number_prefix("184467440737095516151basd", 10).unwrap_err();
    assert!(matches!(result, ParseIntError::Overflow));
    let result = parse_number_prefix("9Eefx", 16).unwrap();
    assert_eq!(result, (0x9Eef, "x"));
}

#[test]
fn test_num_parse() {
    let samples = vec![
        ("0x13", 0x13),
        ("0O012", 0o12),
        ("0b101", 0b101),
        ("011312", 11312),
        ("0xFeF", 0xfef),
        ("0x1eb", 0x1eb),
        ("0o0123kb", 0o123 * 1000),
        ("0xAFmIb", 0xAF * 2u64.pow(20)),
    ];
    for (text, expected) in samples {
        assert_eq!(parse_file_size(text).unwrap(), expected);
    }
}

#[test]
fn test_size_suffixes_case_insensitive() {
    assert_eq!(parse_file_size("1kb").unwrap(), 1000);
    assert_eq!(parse_file_size("1KB").unwrap(), 1000);
    assert_eq!(parse_file_size("1KiB").unwrap(), 1024);
    assert_eq!(parse_file_size("2MB").unwrap(), 2_000_000);
    assert_eq!(parse_file_size("2MiB").unwrap(), 2 * 1024 * 1024);
    assert_eq!(parse_file_size("3gb").unwrap(), 3_000_000_000);
    assert_eq!(parse_file_size("3GIB").unwrap(), 3 * 1024 * 1024 * 1024);
    assert_eq!(parse_file_size("1tb").unwrap(), 1_000_000_000_000);
    assert_eq!(parse_file_size("1tib").unwrap(), 1_099_511_627_776);
    assert_eq!(parse_file_size("1pb").unwrap(), 1_000_000_000_000_000);
    assert_eq!(parse_file_size("1pib").unwrap(), 1_125_899_906_842_624);
    assert_eq!(parse_file_size("1_000_0"), Ok(10000));
}

#[test]
fn test_size_errors() {
    assert_eq!(parse_file_size("1xyz"), Err(FileSizeError::InvalidSuffix));
    assert_eq!(
        parse_file_size("99999999999999999999"),
        Err(FileSizeError::Overflow)
    );
    assert_eq!(
        parse_file_size("18446744073709551615kb"),
        Err(FileSizeError::Overflow)
    );
    assert_eq!(parse_file_size(""), Ok(0));
}

#[test]
fn test_size_round_trip() {
    for n in [
        0u64,
        1,
        999,
        1000,
        1024,
        4096,
        1_000_000,
        1048576,
        123_456_789,
        1_125_899_906_842_624,
        u64::MAX,
    ] {
        let rendered = format_file_size(n);
        assert_eq!(parse_file_size(rendered.as_str()), Ok(n), "{rendered}");
    }
    assert_eq!(format_file_size(1024), "1kib");
    assert_eq!(format_file_size(2000), "2kb");
    assert_eq!(format_file_size(123), "123");
    assert_eq!(format_file_size(0), "0");
}

#[test]
fn test_plain_number_parser() {
    let p64 = UNumberParser::u64();
    assert_eq!(p64.parse_value("123").unwrap(), 123);
    assert_eq!(p64.parse_value("0x1F").unwrap(), 31);
    assert_eq!(p64.parse_value("0b101").unwrap(), 5);
    assert_eq!(p64.parse_value("0o17").unwrap(), 15);
    assert_eq!(p64.parse_value("").unwrap(), 0);
    assert_eq!(p64.parse_value("0x").unwrap(), 0);
    assert!(matches!(
        p64.parse_value("0123"),
        Err(NumberParseError::InvalidDigit)
    ));
    assert!(matches!(
        p64.parse_value("12a"),
        Err(NumberParseError::InvalidDigit)
    ));
    assert!(matches!(
        p64.parse_value("99999999999999999999"),
        Err(NumberParseError::Overflow)
    ));
    let p32 = UNumberParser::u32();
    assert_eq!(p32.parse_value("70000").unwrap(), 70000);
    assert!(matches!(
        p32.parse_value("4294967296"),
        Err(NumberParseError::Overflow)
    ));
}
