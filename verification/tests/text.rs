use kvx_queue::text::{format_number, parse_number, split_once};

#[test]
fn numbers_are_written_as_std_writes_them() {
    for n in [0u64, 7, 9, 10, 42, 100, 1_700_000_000, u64::MAX] {
        assert_eq!(format_number(n), n.to_string());
    }
    assert_eq!(format_number(1_700_000_000), "1700000000");
}

#[test]
fn numbers_are_read_as_std_reads_them() {
    let texts = [
        "0",
        "7",
        "007",
        "+5",
        "+",
        "",
        "++5",
        "-1",
        "-0",
        " 1",
        "1 ",
        "1_000",
        "0x10",
        "12a",
        "a12",
        "\u{664}",
        "18446744073709551615",
        "18446744073709551616",
        "18446744073709551620",
        "99999999999999999999999",
        "+18446744073709551615",
        "000000000000000000000000000001",
    ];
    for text in texts {
        assert_eq!(parse_number(text), text.parse::<u64>().ok(), "{text:?}");
    }
    assert_eq!(parse_number("+5"), Some(5));
    assert_eq!(parse_number("18446744073709551616"), None);
}

#[test]
fn numbers_are_read_back() {
    for n in [0u64, 1, 99, 12345, u64::MAX - 1, u64::MAX] {
        assert_eq!(parse_number(&format_number(n)), Some(n));
    }
}

#[test]
fn texts_are_split_as_std_splits_them() {
    for text in ["", "-", "a", "a-", "-a", "a-b", "a-b-c", "--", "\u{e9}-\u{e8}", "a/b"] {
        assert_eq!(split_once(text, '-'), text.split_once('-'), "{text:?}");
    }
    assert_eq!(split_once("10-job-1", '-'), Some(("10", "job-1")));
}
