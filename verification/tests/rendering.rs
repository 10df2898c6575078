use tbl::arguments::{Alignment, Args, ColumnLayout, Decoration, WidthSpecifier};
use tbl::output::{align_and_trim, display, format_row};

fn plain_args() -> Args {
    Args {
        headers: None,
        columns: None,
        layout: None,
        fixed_width: None,
        decoration: Decoration::UnderlineHeader,
        ascii: true,
        sort: false,
        sort_by: None,
        sort_by_output: false,
        sort_ignore_first: false,
        unique: false,
        delimiter: ",".to_string(),
        collapse_delimiters: false,
        file: None,
    }
}

fn row(cells: &[&str]) -> Vec<String> {
    cells.iter().map(|c| c.to_string()).collect()
}

#[test]
fn renders_underlined_header_in_ascii() {
    let mut args = plain_args();
    args.headers = Some(row(&["Name", "Age"]));
    let rows = vec![row(&["Alice", "30"]), row(&["Bob", "7"])];
    assert_eq!(
        display(&args, &rows),
        vec!["Name |Age", "-----+---", "Alice|30 ", "Bob  |7  "]
    );
}

#[test]
fn ellipsis_cuts_and_marks() {
    let cell = "HelloWorld".to_string();
    assert_eq!(
        align_and_trim(&cell, &Alignment::Left, 3, &WidthSpecifier::Ellipsis(3)),
        "..."
    );
    assert_eq!(
        align_and_trim(&cell, &Alignment::Left, 5, &WidthSpecifier::Ellipsis(5)),
        "He..."
    );
}

#[test]
fn layout_row_interleaves_delimiters() {
    let mut args = plain_args();
    args.layout = Some(ColumnLayout {
        column_align: vec![Alignment::Left, Alignment::Right],
        delimiters: vec!["".to_string(), " || ".to_string(), " ".to_string()],
    });
    assert_eq!(format_row(&args, &vec![3, 4], &row(&["a", "b"])), "a   ||    b ");
    args.ascii = false;
    assert_eq!(
        format_row(&args, &vec![3, 4], &row(&["a", "b"])),
        "a   \u{2502}\u{2502}    b "
    );
}

#[test]
fn cells_are_padded_by_alignment() {
    let cell = "ab".to_string();
    let auto = WidthSpecifier::Indeterminate;
    assert_eq!(align_and_trim(&cell, &Alignment::Left, 5, &auto), "ab   ");
    assert_eq!(align_and_trim(&cell, &Alignment::Right, 5, &auto), "   ab");
    assert_eq!(align_and_trim(&cell, &Alignment::Center, 5, &auto), " ab  ");
    assert_eq!(align_and_trim(&cell, &Alignment::Center, 6, &auto), "  ab  ");
    assert_eq!(align_and_trim(&cell, &Alignment::Center, 2, &auto), "ab");
    assert_eq!(align_and_trim(&"".to_string(), &Alignment::Center, 0, &auto), "");
}

#[test]
fn long_cells_are_cut_by_code_points() {
    let cell = "\u{e9}t\u{e9}s longs".to_string();
    assert_eq!(
        align_and_trim(&cell, &Alignment::Left, 3, &WidthSpecifier::Cut(3)),
        "\u{e9}t\u{e9}"
    );
    assert_eq!(
        align_and_trim(&cell, &Alignment::Right, 3, &WidthSpecifier::Break(3)),
        "\u{e9}t\u{e9}"
    );
    assert_eq!(
        align_and_trim(&cell, &Alignment::Left, 4, &WidthSpecifier::Ellipsis(4)),
        "\u{e9}..."
    );
    assert_eq!(
        align_and_trim(&cell, &Alignment::Left, 0, &WidthSpecifier::Cut(1)),
        ""
    );
    assert_eq!(
        align_and_trim(&"\u{e9}".to_string(), &Alignment::Right, 3, &WidthSpecifier::Cut(3)),
        "  \u{e9}"
    );
}

#[test]
fn no_rows_give_no_lines() {
    let mut args = plain_args();
    for decoration in [Decoration::Plain, Decoration::UnderlineHeader, Decoration::Full] {
        for ascii in [true, false] {
            args.decoration = decoration;
            args.ascii = ascii;
            assert_eq!(display(&args, &vec![]), Vec::<String>::new());
            args.headers = Some(row(&["a"]));
            assert_eq!(display(&args, &vec![]), Vec::<String>::new());
            args.headers = None;
        }
    }
}

#[test]
fn first_row_is_the_header_without_headers() {
    let mut args = plain_args();
    let rows = vec![row(&["Name", "Age"]), row(&["Alice", "30"]), row(&["Bob", "7"])];
    assert_eq!(
        display(&args, &rows),
        vec!["Name |Age", "-----+---", "Alice|30 ", "Bob  |7  "]
    );
    args.decoration = Decoration::Plain;
    assert_eq!(display(&args, &rows), vec!["Name |Age", "Alice|30 ", "Bob  |7  "]);
    assert_eq!(display(&args, &vec![row(&["x"])]), vec!["x"]);
}

#[test]
fn full_decoration_frames_the_table() {
    let mut args = plain_args();
    args.decoration = Decoration::Full;
    let rows = vec![row(&["N", "A"]), row(&["Al", "30"])];
    assert_eq!(
        display(&args, &rows),
        vec!["+--+--+", "|N |A |", "+--+--+", "|Al|30|", "+--+--+"]
    );
    args.ascii = false;
    assert_eq!(
        display(&args, &rows),
        vec![
            "\u{250c}\u{2500}\u{2500}\u{252c}\u{2500}\u{2500}\u{2510}",
            "\u{2502}N \u{2502}A \u{2502}",
            "\u{251c}\u{2500}\u{2500}\u{253c}\u{2500}\u{2500}\u{2524}",
            "\u{2502}Al\u{2502}30\u{2502}",
            "\u{2514}\u{2500}\u{2500}\u{2534}\u{2500}\u{2500}\u{2518}",
        ]
    );
    args.decoration = Decoration::UnderlineHeader;
    assert_eq!(
        display(&args, &rows),
        vec![
            "N \u{2502}A ",
            "\u{2500}\u{2500}\u{253c}\u{2500}\u{2500}",
            "Al\u{2502}30",
        ]
    );
}

#[test]
fn fixed_widths_override_content() {
    let mut args = plain_args();
    args.headers = Some(row(&["Name", "Note"]));
    args.fixed_width = Some(vec![WidthSpecifier::Cut(2), WidthSpecifier::Ellipsis(6)]);
    args.layout = Some(ColumnLayout {
        column_align: vec![Alignment::Right, Alignment::Left],
        delimiters: vec!["| ".to_string(), " | ".to_string(), " |".to_string()],
    });
    let rows = vec![row(&["Alice", "a long remark"]), row(&["B", "ok"])];
    assert_eq!(
        display(&args, &rows),
        vec![
            "| Na | Note   |",
            "+----+--------+",
            "| Al | a l... |",
            "|  B | ok     |",
        ]
    );
    args.layout = None;
    assert_eq!(
        display(&args, &rows),
        vec!["Na|Note  ", "--+------", "Al|a l...", "B |ok    "]
    );
}

#[test]
fn headers_follow_the_row_width() {
    let mut args = plain_args();
    args.headers = Some(row(&["a", "b", "c"]));
    assert_eq!(display(&args, &vec![row(&["1", "2"])]), vec!["a|b", "-+-", "1|2"]);
    args.headers = Some(row(&["a"]));
    assert_eq!(
        display(&args, &vec![row(&["1", "22"]), row(&["3", "4"])]),
        vec!["a|  ", "-+--", "1|22", "3|4 "]
    );
}

#[test]
fn ragged_rows_are_rendered_as_they_are() {
    let args = plain_args();
    let rows = vec![row(&["h"]), row(&["a", "bb", "c"]), row(&[])];
    assert_eq!(display(&args, &rows), vec!["h", "-", "a|bb|c", ""]);
}

#[test]
fn a_layout_with_fewer_entries_than_cells() {
    let mut args = plain_args();
    args.layout = Some(ColumnLayout {
        column_align: vec![Alignment::Right],
        delimiters: vec!["<".to_string(), ">".to_string()],
    });
    assert_eq!(
        format_row(&args, &vec![2, 2, 2], &row(&["a", "b", "c"])),
        "< a>b c "
    );
    args.layout = Some(ColumnLayout {
        column_align: vec![],
        delimiters: vec!["1".to_string(), "2".to_string(), "3".to_string()],
    });
    assert_eq!(format_row(&args, &vec![1], &row(&["a"])), "1a23");
    assert_eq!(format_row(&args, &vec![], &row(&["a"])), "123");
}

#[test]
fn pipeline_renders_a_sorted_table() {
    let mut args = plain_args();
    args.sort = true;
    args.sort_ignore_first = true;
    args.sort_by = Some(vec![tbl::arguments::SortOrder {
        column: 1,
        numeric: true,
        descending: false,
    }]);
    let lines = vec!["Name,Age".to_string(), "Alice,30".to_string(), "Bob,7".to_string()];
    let input = tbl::process::read_inputs(&args.delimiter, &lines);
    let output = tbl::process::process(&args, input);
    assert_eq!(
        display(&args, &output),
        vec!["Name |Age", "-----+---", "Bob  |7  ", "Alice|30 "]
    );
}
