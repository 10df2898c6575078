use tbl::arguments::{
    Alignment, ColumnLayout, ColumnMapping, Decoration, ParseError, SortOrder, WidthSpecifier,
};
use tbl::parse::contains_only_valid;

#[test]
fn test_parser_column_mapping() {
    assert!(ColumnMapping::from_str("").is_err());
    assert!(ColumnMapping::from_str("1;").is_err());
    assert!(ColumnMapping::from_str("1...10").is_err());
    assert!(ColumnMapping::from_str("..10").is_err());
    assert!(ColumnMapping::from_str("..").is_err());
    assert!(ColumnMapping::from_str("10..=").is_err());
    assert_eq!(
        ColumnMapping::from_str("1").unwrap(),
        ColumnMapping::Index(1)
    );
    assert_eq!(
        ColumnMapping::from_str("1;22>").unwrap(),
        ColumnMapping::List(vec![1, 22], "".to_string())
    );
    assert_eq!(
        ColumnMapping::from_str("1;2;3;4").unwrap(),
        ColumnMapping::List(vec![1, 2, 3, 4], " ".to_string())
    );
    assert_eq!(
        ColumnMapping::from_str("1;2;-3;4> |  ").unwrap(),
        ColumnMapping::List(vec![1, 2, -3, 4], " |  ".to_string())
    );
    assert_eq!(
        ColumnMapping::from_str("1..10> |  ").unwrap(),
        ColumnMapping::Range(1, 10, " |  ".to_string())
    );
    assert_eq!(
        ColumnMapping::from_str("1..").unwrap(),
        ColumnMapping::InfinteRange(1, " ".to_string())
    );
    assert_eq!(
        ColumnMapping::from_str("-3..=2>dd").unwrap(),
        ColumnMapping::InclusiveRange(-3, 2, "dd".to_string())
    );
}

#[test]
fn test_parser_column_layout() {
    assert!(ColumnLayout::from_str("").is_err());
    assert_eq!(
        ColumnLayout::from_str("l || r ").unwrap(),
        ColumnLayout {
            column_align: vec![Alignment::Left, Alignment::Right],
            delimiters: vec!["".to_string(), " || ".to_string(), " ".to_string()],
        }
    );
}

#[test]
fn test_parser_width_specifier() {
    assert!(WidthSpecifier::from_str("-3b").is_err());
    assert!(WidthSpecifier::from_str("00000c").is_err());
    assert!(WidthSpecifier::from_str("2e").is_err());
    assert!(WidthSpecifier::from_str("10").is_err());
    assert_eq!(
        WidthSpecifier::from_str("").unwrap(),
        WidthSpecifier::Indeterminate
    );
    assert_eq!(
        WidthSpecifier::from_str("10b").unwrap(),
        WidthSpecifier::Break(10)
    );
    assert_eq!(
        WidthSpecifier::from_str("3c").unwrap(),
        WidthSpecifier::Cut(3)
    );
    assert_eq!(
        WidthSpecifier::from_str("3e").unwrap(),
        WidthSpecifier::Ellipsis(3)
    );
}

#[test]
fn test_parser_sort_order() {
    assert!(SortOrder::from_str("").is_err());
    assert!(SortOrder::from_str("3x").is_err());
    assert!(SortOrder::from_str("3").is_err());
    assert!(SortOrder::from_str("-3").is_err());
    assert!(SortOrder::from_str("nnn").is_err());
    assert_eq!(
        SortOrder::from_str("-3L").unwrap(),
        SortOrder {
            column: -3,
            numeric: false,
            descending: true
        }
    );
    assert_eq!(
        SortOrder::from_str("13N").unwrap(),
        SortOrder {
            column: 13,
            numeric: true,
            descending: true
        }
    );
    assert_eq!(
        SortOrder::from_str("123l").unwrap(),
        SortOrder {
            column: 123,
            numeric: false,
            descending: false
        }
    );
}

#[test]
fn column_mapping_errors_by_kind() {
    assert_eq!(
        ColumnMapping::from_str("1;"),
        Err(ParseError::InvalidListSyntax)
    );
    assert_eq!(
        ColumnMapping::from_str("1;x;3>-"),
        Err(ParseError::InvalidListSyntax)
    );
    assert_eq!(
        ColumnMapping::from_str(""),
        Err(ParseError::InvalidColumnSpecifier)
    );
    assert_eq!(
        ColumnMapping::from_str("1...10"),
        Err(ParseError::InvalidColumnSpecifier)
    );
    assert_eq!(
        ColumnMapping::from_str("1xx10"),
        Err(ParseError::InvalidColumnSpecifier)
    );
    assert_eq!(
        ColumnMapping::from_str("1.5"),
        Err(ParseError::InvalidColumnSpecifier)
    );
    assert_eq!(
        ColumnMapping::from_str("10..="),
        Err(ParseError::MissingRangeEnd)
    );
    assert_eq!(
        ColumnMapping::from_str("99999999999999999999999..3"),
        Err(ParseError::InvalidColumnSpecifier)
    );
    assert_eq!(
        ColumnMapping::from_str("3..99999999999999999999999"),
        Err(ParseError::InvalidColumnSpecifier)
    );
}

#[test]
fn column_mapping_signs_and_joiners() {
    assert_eq!(ColumnMapping::from_str("-7"), Ok(ColumnMapping::Index(-7)));
    assert_eq!(ColumnMapping::from_str("+7"), Ok(ColumnMapping::Index(7)));
    assert_eq!(
        ColumnMapping::from_str("+1..-2"),
        Ok(ColumnMapping::Range(1, -2, " ".to_string()))
    );
    assert_eq!(
        ColumnMapping::from_str("2..=5>a>b"),
        Ok(ColumnMapping::InclusiveRange(2, 5, "a>b".to_string()))
    );
    assert_eq!(
        ColumnMapping::from_str("-1..>;"),
        Ok(ColumnMapping::InfinteRange(-1, ";".to_string()))
    );
    assert_eq!(
        ColumnMapping::from_str("5>x"),
        Err(ParseError::InvalidColumnSpecifier)
    );
}

#[test]
fn range_captures_decide_the_mapping() {
    let text = |s: &str| Some(s.to_string());
    let joiner = || ",".to_string();
    assert_eq!(
        ColumnMapping::from_range_captures(&None, joiner()),
        Err(ParseError::InvalidColumnSpecifier)
    );
    assert_eq!(
        ColumnMapping::from_range_captures(
            &Some(vec![text("1..4"), text("1"), text(".."), text("4")]),
            joiner()
        ),
        Ok(ColumnMapping::Range(1, 4, joiner()))
    );
    assert_eq!(
        ColumnMapping::from_range_captures(
            &Some(vec![text("1..=4"), text("1"), text("..="), text("4")]),
            joiner()
        ),
        Ok(ColumnMapping::InclusiveRange(1, 4, joiner()))
    );
    assert_eq!(
        ColumnMapping::from_range_captures(
            &Some(vec![text("-2.."), text("-2"), text(".."), None]),
            joiner()
        ),
        Ok(ColumnMapping::InfinteRange(-2, joiner()))
    );
    assert_eq!(
        ColumnMapping::from_range_captures(
            &Some(vec![text("1..="), text("1"), text("..="), None]),
            joiner()
        ),
        Err(ParseError::MissingRangeEnd)
    );
    assert_eq!(
        ColumnMapping::from_range_captures(&Some(vec![text("1"), text("1")]), joiner()),
        Err(ParseError::InvalidColumnSpecifier)
    );
    assert_eq!(
        ColumnMapping::from_range_captures(
            &Some(vec![text("x..4"), text("x"), text(".."), text("4")]),
            joiner()
        ),
        Err(ParseError::InvalidColumnSpecifier)
    );
    assert_eq!(
        ColumnMapping::from_range_captures(
            &Some(vec![text("1..y"), text("1"), text(".."), text("y")]),
            joiner()
        ),
        Err(ParseError::InvalidColumnSpecifier)
    );
}

#[test]
fn layout_errors_name_the_first_offender() {
    assert_eq!(ColumnLayout::from_str(""), Err(ParseError::EmptyLayout));
    assert_eq!(
        ColumnLayout::from_str("l|x|y"),
        Err(ParseError::InvalidCharacter('x'))
    );
    assert_eq!(
        ColumnLayout::from_str("L"),
        Err(ParseError::InvalidCharacter('L'))
    );
}

#[test]
fn layout_has_one_more_delimiter_than_alignments() {
    let layout = ColumnLayout::from_str("lcr").unwrap();
    assert_eq!(
        layout.column_align,
        vec![Alignment::Left, Alignment::Center, Alignment::Right]
    );
    assert_eq!(layout.delimiters, vec!["", "", "", ""]);
    let layout = ColumnLayout::from_str(" | ").unwrap();
    assert_eq!(layout.column_align, vec![]);
    assert_eq!(layout.delimiters, vec![" | "]);
    let layout = ColumnLayout::from_str("|l | c||").unwrap();
    assert_eq!(layout.column_align, vec![Alignment::Left, Alignment::Center]);
    assert_eq!(layout.delimiters, vec!["|", " | ", "||"]);
}

#[test]
fn alignment_letters() {
    assert_eq!(Alignment::from_chr('l'), Alignment::Left);
    assert_eq!(Alignment::from_chr('r'), Alignment::Right);
    assert_eq!(Alignment::from_chr('c'), Alignment::Center);
}

#[test]
fn width_errors_by_kind() {
    assert_eq!(
        WidthSpecifier::from_str("2e"),
        Err(ParseError::EllipsisWidthTooSmall)
    );
    assert_eq!(
        WidthSpecifier::from_str("0e"),
        Err(ParseError::InvalidWidthSpecifier)
    );
    assert_eq!(
        WidthSpecifier::from_str("b"),
        Err(ParseError::InvalidWidthSpecifier)
    );
    assert_eq!(
        WidthSpecifier::from_str("5x"),
        Err(ParseError::InvalidWidthSpecifier)
    );
    assert_eq!(
        WidthSpecifier::from_str("1\u{e9}"),
        Err(ParseError::InvalidWidthSpecifier)
    );
    assert_eq!(
        WidthSpecifier::from_str("\u{e9}"),
        Err(ParseError::InvalidWidthSpecifier)
    );
    assert_eq!(
        WidthSpecifier::from_str("99999999999999999999999999c"),
        Err(ParseError::InvalidWidthSpecifier)
    );
    assert_eq!(WidthSpecifier::from_str("+4c"), Ok(WidthSpecifier::Cut(4)));
    assert_eq!(WidthSpecifier::from_str("007b"), Ok(WidthSpecifier::Break(7)));
    assert_eq!(WidthSpecifier::from_str("1b"), Ok(WidthSpecifier::Break(1)));
}

#[test]
fn sort_key_suffixes() {
    assert_eq!(
        SortOrder::from_str("0n"),
        Ok(SortOrder {
            column: 0,
            descending: false,
            numeric: true
        })
    );
    assert_eq!(SortOrder::from_str("3x"), Err(ParseError::InvalidSortKey));
    assert_eq!(SortOrder::from_str("l"), Err(ParseError::InvalidSortKey));
    assert_eq!(SortOrder::from_str("--3l"), Err(ParseError::InvalidSortKey));
    assert_eq!(SortOrder::from_str("3\u{e9}"), Err(ParseError::InvalidSortKey));
}

#[test]
fn decorations_have_names() {
    assert_eq!(Decoration::UnderlineHeader.to_string(), "underline-header");
    assert_eq!(Decoration::Plain.to_string(), "none");
    assert_eq!(Decoration::Full.to_string(), "full");
}

#[test]
fn errors_have_messages() {
    assert_eq!(
        ParseError::InvalidCharacter('x').to_string(),
        "Invalid character: x"
    );
    assert_eq!(ParseError::EmptyLayout.to_string(), "May not be empty");
    assert_eq!(
        ParseError::InvalidListSyntax.to_string(),
        "Failed to parse list"
    );
    assert_eq!(
        ParseError::InvalidColumnSpecifier.to_string(),
        "Invalid column specifier"
    );
    assert_eq!(
        ParseError::MissingRangeEnd.to_string(),
        "Missing end of inclusive Range"
    );
    assert_eq!(
        ParseError::InvalidWidthSpecifier.to_string(),
        "Invalid width specifier"
    );
    assert_eq!(
        ParseError::EllipsisWidthTooSmall.to_string(),
        "Ellipsis requires a minimum width of 3"
    );
    assert_eq!(
        ParseError::InvalidSortKey.to_string(),
        "Failed to parse SortOrder"
    );
}

#[test]
fn canonical_texts_read_back() {
    let cases = [
        ("0", ColumnMapping::Index(0)),
        ("-12", ColumnMapping::Index(-12)),
        ("1;-2> ", ColumnMapping::List(vec![1, -2], " ".to_string())),
        ("3;4;5>", ColumnMapping::List(vec![3, 4, 5], "".to_string())),
        ("0..3>,", ColumnMapping::Range(0, 3, ",".to_string())),
        ("-4..-1>--", ColumnMapping::Range(-4, -1, "--".to_string())),
        ("2..> ", ColumnMapping::InfinteRange(2, " ".to_string())),
        ("-1..=7>;", ColumnMapping::InclusiveRange(-1, 7, ";".to_string())),
    ];
    for (text, mapping) in cases {
        assert_eq!(ColumnMapping::from_str(text), Ok(mapping));
    }
    let smallest = format!("{}", isize::MIN);
    assert_eq!(
        ColumnMapping::from_str(&smallest),
        Ok(ColumnMapping::Index(isize::MIN))
    );
    let largest = format!("{}..={}", isize::MAX, isize::MIN);
    assert_eq!(
        ColumnMapping::from_str(&largest),
        Ok(ColumnMapping::InclusiveRange(isize::MAX, isize::MIN, " ".to_string()))
    );
}

#[test]
fn contains_only_valid_reports_the_first_stranger() {
    assert_eq!(contains_only_valid("abcab", vec!['a', 'b', 'c']), Ok(()));
    assert_eq!(contains_only_valid("", vec![]), Ok(()));
    assert_eq!(contains_only_valid("abxay", vec!['a', 'b']), Err('x'));
    assert_eq!(contains_only_valid("a", vec![]), Err('a'));
}
