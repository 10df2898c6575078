use tbl::number::{parse_i64, parse_isize, parse_usize};

fn chars(s: &str) -> Vec<char> {
    s.chars().collect()
}

fn whole_isize(s: &str) -> Option<isize> {
    let c = chars(s);
    parse_isize(&c, 0, c.len())
}

fn whole_usize(s: &str) -> Option<usize> {
    let c = chars(s);
    parse_usize(&c, 0, c.len())
}

fn whole_i64(s: &str) -> Option<i64> {
    let c = chars(s);
    parse_i64(&c, 0, c.len())
}

#[test]
fn integers_read_as_the_standard_library_reads_them() {
    let samples = [
        "", "0", "-0", "+0", "7", "-7", "+7", "007", "-007", "+", "-", "+-1", "--1", "1-", "1 ",
        " 1", "1_000", "0x10", "1e3", "12a", "\u{663}", "９", "9223372036854775807",
        "9223372036854775808", "-9223372036854775808", "-9223372036854775809",
        "18446744073709551615", "18446744073709551616", "99999999999999999999999999",
        "-99999999999999999999999999", "2147483647", "2147483648", "-2147483648", "4294967295",
        "4294967296",
    ];
    for s in samples {
        assert_eq!(whole_isize(s), s.parse::<isize>().ok(), "isize {:?}", s);
        assert_eq!(whole_usize(s), s.parse::<usize>().ok(), "usize {:?}", s);
        assert_eq!(whole_i64(s), s.parse::<i64>().ok(), "i64 {:?}", s);
    }
}

#[test]
fn integers_read_from_a_part_of_the_text() {
    let c = chars("ab-12;+3");
    assert_eq!(parse_isize(&c, 2, 5), Some(-12));
    assert_eq!(parse_isize(&c, 6, 8), Some(3));
    assert_eq!(parse_isize(&c, 3, 3), None);
    assert_eq!(parse_isize(&c, 0, 5), None);
    assert_eq!(parse_usize(&c, 3, 5), Some(12));
    assert_eq!(parse_usize(&c, 2, 5), None);
    assert_eq!(parse_i64(&c, 7, 8), Some(3));
}
