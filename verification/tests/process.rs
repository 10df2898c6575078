use std::cmp::Ordering;
use tbl::arguments::{Args, ColumnMapping, Decoration, SortOrder};
use tbl::comparator::get_sort_comparator;
use tbl::process::{
    absolute_index, absolute_index_inclusive_slice, absolute_index_slice, get_number_of_columns,
    map_column, process,
};

fn basic_args() -> Args {
    Args {
        headers: None,
        columns: None,
        layout: None,
        fixed_width: None,
        decoration: Decoration::UnderlineHeader,
        ascii: true,
        sort: false,
        sort_by: None,
        sort_by_output: false,
        sort_ignore_first: false,
        unique: false,
        delimiter: ",".to_string(),
        collapse_delimiters: false,
        file: None,
    }
}

fn fields(cells: &[&str]) -> Vec<String> {
    cells.iter().map(|c| c.to_string()).collect()
}

fn matrix(rows: &[&[&str]]) -> Vec<Vec<String>> {
    rows.iter().map(|r| fields(r)).collect()
}

#[test]
fn test_sort_comparator() {
    let order = Some(vec![
        SortOrder {
            column: 0,
            numeric: true,
            descending: true,
        },
        SortOrder {
            column: -1,
            numeric: false,
            descending: false,
        },
    ]);
    let sc1 = get_sort_comparator(&order);
    assert_eq!(
        sc1.compare(&vec!["1000".to_string()], &vec!["200".to_string()]),
        Ordering::Less
    );
    assert_eq!(
        sc1.compare(&vec!["40".to_string()], &vec!["9".to_string()]),
        Ordering::Less
    );
    assert_eq!(
        sc1.compare(
            &vec!["a".to_string(), "40".to_string()],
            &vec!["b".to_string(), "9".to_string()]
        ),
        Ordering::Less
    );
    assert_eq!(
        sc1.compare(
            &vec!["-03".to_string(), "Charlie".to_string()],
            &vec!["-3".to_string(), "Bravo".to_string()]
        ),
        Ordering::Greater
    );
    assert_eq!(
        sc1.compare(
            &vec!["-0".to_string(), "Foo".to_string()],
            &vec!["0".to_string(), "Foo".to_string()]
        ),
        Ordering::Equal
    );
}

#[test]
fn test_absolute_index() {
    assert_eq!(absolute_index(1, &0), 0);
    assert_eq!(absolute_index(10, &9), 9);
    assert_eq!(absolute_index(10, &10), 10); //OOB
    assert_eq!(absolute_index(10, &-1), 9);
    assert_eq!(absolute_index(10, &-4), 6);
    assert_eq!(absolute_index(10, &-10), 0);
    assert_eq!(absolute_index(10, &-1337), usize::max_value());
    assert_eq!(absolute_index(0, &-1337), usize::max_value());
}

#[test]
fn test_absolute_index_slice() {
    let foo = vec![1, 2, 3, 4, 5, 6, 7];
    assert_eq!(foo[..absolute_index_slice(7, &0)], foo[0..0]);
    assert_eq!(foo[..absolute_index_slice(7, &1)], foo[0..1]);
    assert_eq!(foo[..absolute_index_slice(7, &1000)], foo[0..7]);
    assert_eq!(foo[..=absolute_index_inclusive_slice(7, &1000)], foo[0..7]);
    assert_eq!(foo[..absolute_index_slice(7, &-19)], foo[0..0]);
    assert_eq!(foo[..absolute_index_slice(7, &-3)], foo[0..4]);
    assert_eq!(
        foo[absolute_index_slice(7, &-5)..absolute_index(7, &-3)],
        foo[2..4]
    );
    assert_eq!(
        foo[absolute_index_slice(7, &-4)..absolute_index(7, &7)],
        foo[3..7]
    );
}

#[test]
fn test_map_column() {
    let col = vec![
        "a".to_string(),
        "b".to_string(),
        "c".to_string(),
        "1".to_string(),
        "2".to_string(),
        "3".to_string(),
    ];
    assert_eq!(map_column(&ColumnMapping::Index(34), &col), "");
    assert_eq!(map_column(&ColumnMapping::Index(2), &col), "c");
    assert_eq!(map_column(&ColumnMapping::Index(-2), &col), "2");
    assert_eq!(map_column(&ColumnMapping::Index(0), &col), "a");

    assert_eq!(
        map_column(&ColumnMapping::List(vec![1, 0, -2], ",".to_string()), &col),
        "b,a,2"
    );
    assert_eq!(
        map_column(&ColumnMapping::List(vec![], ",".to_string()), &col),
        ""
    );

    assert_eq!(
        map_column(&ColumnMapping::Range(-20, 30, ",".to_string()), &col),
        "a,b,c,1,2,3"
    );
    assert_eq!(
        map_column(&ColumnMapping::Range(2, 4, ",".to_string()), &col),
        "c,1"
    );
    assert_eq!(
        map_column(&ColumnMapping::Range(2, 5, ",".to_string()), &col),
        "c,1,2"
    );
    assert_eq!(
        map_column(
            &ColumnMapping::InclusiveRange(-20, 30, ",".to_string()),
            &col
        ),
        "a,b,c,1,2,3"
    );
    assert_eq!(
        map_column(&ColumnMapping::InclusiveRange(2, 4, ",".to_string()), &col),
        "c,1,2"
    );
    assert_eq!(
        map_column(&ColumnMapping::InclusiveRange(2, 5, ",".to_string()), &col),
        "c,1,2,3"
    );

    assert_eq!(
        map_column(&ColumnMapping::InfinteRange(2, ",".to_string()), &col),
        "c,1,2,3"
    );
    assert_eq!(
        map_column(&ColumnMapping::InfinteRange(-3, ",".to_string()), &col),
        "1,2,3"
    );
    assert_eq!(
        map_column(&ColumnMapping::InfinteRange(-3000, ",".to_string()), &col),
        "a,b,c,1,2,3"
    );
}

#[test]
fn index_resolves_from_both_ends() {
    let row = fields(&["a", "b", "c"]);
    for i in 0..3isize {
        assert_eq!(map_column(&ColumnMapping::Index(i), &row), row[i as usize]);
        assert_eq!(
            map_column(&ColumnMapping::Index(i - 3), &row),
            row[i as usize]
        );
    }
    assert_eq!(map_column(&ColumnMapping::Index(3), &row), "");
    assert_eq!(map_column(&ColumnMapping::Index(-4), &row), "");
    assert_eq!(map_column(&ColumnMapping::Index(isize::MIN), &row), "");
    assert_eq!(map_column(&ColumnMapping::Index(isize::MAX), &row), "");
    assert_eq!(map_column(&ColumnMapping::Index(0), &fields(&[])), "");
}

#[test]
fn ranges_with_start_after_end_are_empty() {
    let row = fields(&["a", "b", "c", "d", "e", "f"]);
    let j = || "-".to_string();
    assert_eq!(map_column(&ColumnMapping::Range(4, 2, j()), &row), "");
    assert_eq!(map_column(&ColumnMapping::Range(2, 2, j()), &row), "");
    assert_eq!(map_column(&ColumnMapping::InclusiveRange(5, 2, j()), &row), "");
    assert_eq!(map_column(&ColumnMapping::InclusiveRange(3, 2, j()), &row), "");
    assert_eq!(map_column(&ColumnMapping::InclusiveRange(2, 2, j()), &row), "c");
    assert_eq!(map_column(&ColumnMapping::Range(2, -1, j()), &row), "c-d-e");
    assert_eq!(
        map_column(&ColumnMapping::InclusiveRange(2, -1, j()), &row),
        "c-d-e-f"
    );
    assert_eq!(map_column(&ColumnMapping::InfinteRange(6, j()), &row), "");
    assert_eq!(map_column(&ColumnMapping::InfinteRange(60, j()), &row), "");
}

#[test]
fn mappings_of_an_empty_row_are_empty() {
    let row = fields(&[]);
    let j = || "-".to_string();
    assert_eq!(map_column(&ColumnMapping::Range(0, 5, j()), &row), "");
    assert_eq!(map_column(&ColumnMapping::InclusiveRange(0, 5, j()), &row), "");
    assert_eq!(map_column(&ColumnMapping::InclusiveRange(-1, -1, j()), &row), "");
    assert_eq!(map_column(&ColumnMapping::InfinteRange(0, j()), &row), "");
    assert_eq!(map_column(&ColumnMapping::List(vec![0, 1], j()), &row), "-");
    assert_eq!(absolute_index_inclusive_slice(0, &4), 0);
    assert_eq!(absolute_index_slice(0, &4), 0);
}

#[test]
fn inclusive_range_has_one_more_field() {
    let row = fields(&["a", "b", "c", "d", "e"]);
    let count = |s: String| s.split(',').count();
    for f in 0..5isize {
        for t in (f + 1)..5isize {
            let open = map_column(&ColumnMapping::Range(f, t, ",".to_string()), &row);
            let closed = map_column(&ColumnMapping::InclusiveRange(f, t, ",".to_string()), &row);
            assert_eq!(count(closed), count(open) + 1);
        }
    }
}

#[test]
fn numeric_sort_orders_by_value() {
    let keys = Some(vec![SortOrder {
        column: 0,
        numeric: true,
        descending: false,
    }]);
    let by_number = get_sort_comparator(&keys);
    assert_eq!(
        by_number.compare(&fields(&["1000"]), &fields(&["200"])),
        Ordering::Greater
    );
    assert_eq!(
        by_number.compare(&fields(&["200"]), &fields(&["1000"])),
        Ordering::Less
    );
    assert_eq!(
        by_number.compare(&fields(&["x"]), &fields(&["0"])),
        Ordering::Equal
    );
    assert_eq!(
        by_number.compare(&fields(&["99999999999999999999"]), &fields(&["1"])),
        Ordering::Less
    );
    assert_eq!(
        by_number.compare(&fields(&["-9223372036854775808"]), &fields(&["9223372036854775807"])),
        Ordering::Less
    );
    assert_eq!(
        by_number.compare(&fields(&["+5"]), &fields(&["5"])),
        Ordering::Equal
    );
    let by_text = get_sort_comparator(&None);
    assert_eq!(
        by_text.compare(&fields(&["1000"]), &fields(&["200"])),
        Ordering::Less
    );
    assert_eq!(
        by_text.compare(&fields(&["ab"]), &fields(&["a"])),
        Ordering::Greater
    );
    assert_eq!(
        by_text.compare(&fields(&[]), &fields(&["a"])),
        Ordering::Less
    );
    assert_eq!(
        by_text.compare(&fields(&["\u{e9}"]), &fields(&["z"])),
        Ordering::Greater
    );
    let no_keys = get_sort_comparator(&Some(vec![]));
    assert_eq!(
        no_keys.compare(&fields(&["b"]), &fields(&["a"])),
        Ordering::Equal
    );
}

#[test]
fn comparator_is_a_total_preorder_on_samples() {
    let keys = Some(vec![
        SortOrder {
            column: 1,
            numeric: true,
            descending: true,
        },
        SortOrder {
            column: 0,
            numeric: false,
            descending: false,
        },
    ]);
    let c = get_sort_comparator(&keys);
    let rows = matrix(&[&["a", "1"], &["b", "1"], &["a", "01"], &["c"], &[], &["a", "-2"]]);
    for x in &rows {
        assert_eq!(c.compare(x, x), Ordering::Equal);
        for y in &rows {
            assert_eq!(c.compare(x, y), c.compare(y, x).reverse());
            for z in &rows {
                if c.compare(x, y) != Ordering::Greater && c.compare(y, z) != Ordering::Greater {
                    assert_ne!(c.compare(x, z), Ordering::Greater);
                }
            }
        }
    }
}

#[test]
fn duplicates_keep_their_first_place() {
    let mut args = basic_args();
    args.unique = true;
    let input = matrix(&[&["A"], &["B"], &["A"], &["C"]]);
    assert_eq!(process(&args, input), matrix(&[&["A"], &["B"], &["C"]]));
}

#[test]
fn duplicates_are_judged_on_output_rows() {
    let mut args = basic_args();
    args.unique = true;
    args.columns = Some(vec![ColumnMapping::Index(0)]);
    let input = matrix(&[&["A", "1"], &["B", "2"], &["A", "3"]]);
    assert_eq!(process(&args, input), matrix(&[&["A"], &["B"]]));
}

#[test]
fn rows_are_cut_or_filled_to_one_width() {
    let mut args = basic_args();
    args.headers = Some(fields(&["x", "y", "z"]));
    let input = matrix(&[&["1", "2", "3", "4", "5"], &["1"]]);
    assert_eq!(
        process(&args, input),
        matrix(&[&["1", "2", "3"], &["1", "", ""]])
    );
}

#[test]
fn column_count_is_the_least_hint() {
    let mut args = basic_args();
    assert_eq!(get_number_of_columns(&args, 5), 5);
    args.headers = Some(fields(&["x", "y", "z"]));
    assert_eq!(get_number_of_columns(&args, 5), 3);
    assert_eq!(get_number_of_columns(&args, 2), 2);
    args.columns = Some(vec![ColumnMapping::Index(0), ColumnMapping::Index(1)]);
    assert_eq!(get_number_of_columns(&args, 5), 2);
    args.fixed_width = Some(vec![]);
    assert_eq!(get_number_of_columns(&args, 5), 0);
}

#[test]
fn sorting_is_stable_and_can_pin_the_first_row() {
    let mut args = basic_args();
    args.sort = true;
    args.sort_by = Some(vec![SortOrder {
        column: 0,
        numeric: true,
        descending: false,
    }]);
    let input = || matrix(&[&["9", "h"], &["2", "a"], &["1", "b"], &["02", "c"], &["2", "d"]]);
    assert_eq!(
        process(&args, input()),
        matrix(&[&["1", "b"], &["2", "a"], &["02", "c"], &["2", "d"], &["9", "h"]])
    );
    args.sort_ignore_first = true;
    assert_eq!(
        process(&args, input()),
        matrix(&[&["9", "h"], &["1", "b"], &["2", "a"], &["02", "c"], &["2", "d"]])
    );
}

#[test]
fn sorting_can_apply_to_the_output() {
    let mut args = basic_args();
    args.sort = true;
    args.columns = Some(vec![ColumnMapping::Index(1), ColumnMapping::Index(0)]);
    let input = || matrix(&[&["b", "1"], &["a", "2"], &["c", "0"]]);
    assert_eq!(
        process(&args, input()),
        matrix(&[&["2", "a"], &["1", "b"], &["0", "c"]])
    );
    args.sort_by_output = true;
    assert_eq!(
        process(&args, input()),
        matrix(&[&["0", "c"], &["1", "b"], &["2", "a"]])
    );
}

#[test]
fn empty_input_gives_empty_output() {
    let mut args = basic_args();
    assert_eq!(process(&args, vec![]), Vec::<Vec<String>>::new());
    args.sort = true;
    args.sort_ignore_first = true;
    args.unique = true;
    args.sort_by_output = true;
    args.headers = Some(fields(&["x"]));
    assert_eq!(process(&args, vec![]), Vec::<Vec<String>>::new());
}

#[test]
fn lines_split_as_the_standard_library_splits_them() {
    let lines = ["a,b,c", "", ",", ",,", "a,,b,", "abc", "aXXbXXXc", "\u{e9},\u{2502}"];
    let delimiters = [",", "XX", "X", "", "abc", "\u{e9}", ",,"];
    for line in lines {
        for delimiter in delimiters {
            let expected: Vec<String> = line.split(delimiter).map(|f| f.to_string()).collect();
            assert_eq!(
                tbl::text::split_line(line, delimiter),
                expected,
                "line {:?} delimiter {:?}",
                line,
                delimiter
            );
        }
    }
}

#[test]
fn input_lines_become_rows() {
    let lines = vec!["a;b".to_string(), "c".to_string(), "".to_string()];
    assert_eq!(
        tbl::process::read_inputs(&";".to_string(), &lines),
        matrix(&[&["a", "b"], &["c"], &[""]])
    );
    assert_eq!(
        tbl::process::read_inputs(&";".to_string(), &vec![]),
        Vec::<Vec<String>>::new()
    );
}

#[test]
fn numeric_descending_key_puts_the_greater_first() {
    let keys = Some(vec![SortOrder::from_str("0N").unwrap()]);
    let c = get_sort_comparator(&keys);
    assert_eq!(c.compare(&fields(&["1000"]), &fields(&["200"])), Ordering::Less);
    let keys = Some(vec![SortOrder::from_str("0n").unwrap()]);
    let c = get_sort_comparator(&keys);
    assert_eq!(c.compare(&fields(&["200"]), &fields(&["1000"])), Ordering::Less);
    let keys = Some(vec![SortOrder::from_str("0l").unwrap()]);
    let c = get_sort_comparator(&keys);
    assert_eq!(c.compare(&fields(&["1000"]), &fields(&["200"])), Ordering::Less);
}

#[test]
fn default_decoration_underlines_the_header() {
    assert_eq!(Decoration::default(), Decoration::UnderlineHeader);
}
