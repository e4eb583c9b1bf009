use track::decimal::{parse_decimal, to_decimal};

#[test]
fn numbers_are_written_in_decimal() {
    for n in [0u64, 7, 10, 42, 1_000, 18_446_744_073_709_551_615] {
        assert_eq!(to_decimal(n), n.to_string());
        assert_eq!(parse_decimal(&to_decimal(n)), Some(n));
    }
}

#[test]
fn reads_what_the_standard_library_reads() {
    for text in [
        "",
        "+",
        "-",
        "-0",
        "-1",
        "+7",
        "++7",
        "007",
        "12a",
        " 12",
        "12 ",
        "1_000",
        "18446744073709551615",
        "18446744073709551616",
        "00018446744073709551615",
        "99999999999999999999999",
        "\u{0663}",
    ] {
        assert_eq!(parse_decimal(text), text.parse::<u64>().ok(), "{:?}", text);
    }
}
