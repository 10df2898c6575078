//! The row transformer: index resolution, column mapping, sorting,
//! deduplication and fitting every row to one column count.
use crate::arguments::{Args, ArgsView, ColumnMapping, MappingView, SortOrder};
use crate::comparator::{get_sort_comparator, sort_matrix};
use crate::order::sort_keys;
use crate::sorting::{lemma_sorted_rows_stably_sorted, sorted_matrix};
use crate::text::{join_range, joined, resize_row, resized, split_fields, split_lines};
use itertools::Itertools;
use vstd::prelude::*;
use vstd::string::*;

verus! {

/// Where a signed index points in a row of `n` fields: a non-negative index
/// at itself, a negative one counted back from the end. The result may lie
/// outside the row.
pub open spec fn point_index(n: int, idx: int) -> int {
    if idx >= 0 {
        idx
    } else {
        n + idx
    }
}

/// The field that `idx` points at, or the empty string where it points
/// outside the row.
pub open spec fn field_at(row: Seq<Seq<char>>, idx: int) -> Seq<char> {
    let p = point_index(row.len() as int, idx);
    if 0 <= p < row.len() {
        row[p]
    } else {
        Seq::empty()
    }
}

/// A signed index as the bound of a slice of a row of `n` fields: resolved
/// like a point index, then clamped into `0..=n`.
pub open spec fn slice_bound(n: int, idx: int) -> int {
    let p = point_index(n, idx);
    if p < 0 {
        0
    } else if p > n {
        n
    } else {
        p
    }
}

/// A signed index as the last position of a slice of a row of `n` fields:
/// resolved like a point index, then clamped into `0..=n-1`. A row without
/// fields has no last position; the bound is then 0.
pub open spec fn inclusive_bound(n: int, idx: int) -> int {
    let p = point_index(n, idx);
    if p < 0 || n == 0 {
        0
    } else if p > n - 1 {
        n - 1
    } else {
        p
    }
}

/// How far a negative index reaches back from the end of a row.
fn reach_back(idx: isize) -> (r: usize)
    requires
        idx < 0,
    ensures
        r == -(idx as int),
{
    if idx == isize::MIN {
        (isize::MAX as usize) + 1
    } else {
        (-idx) as usize
    }
}

/// The position that a signed index stands for in a row of `n` fields:
/// where it points, or `usize::MAX`, which is no position in any row, where
/// it points before the row.
pub open spec fn absolute_position(n: int, idx: int) -> int {
    if point_index(n, idx) >= 0 {
        point_index(n, idx)
    } else {
        usize::MAX as int
    }
}

/// The position in a row of `le` fields that `idx` points at.
pub fn absolute_index(le: usize, idx: &isize) -> (r: usize)
    ensures
        r == absolute_position(le as int, *idx as int),
{
    if *idx >= 0 {
        *idx as usize
    } else {
        let back = reach_back(*idx);
        if back <= le {
            le - back
        } else {
            usize::MAX
        }
    }
}

/// The bound of a slice that `idx` stands for in a row of `le` fields.
pub fn absolute_index_slice(le: usize, idx: &isize) -> (r: usize)
    ensures
        r == slice_bound(le as int, *idx as int),
        r <= le,
{
    if *idx >= 0 {
        if (*idx as usize) < le {
            *idx as usize
        } else {
            le
        }
    } else {
        let back = reach_back(*idx);
        if back <= le {
            le - back
        } else {
            0
        }
    }
}

/// The last position of a slice that `idx` stands for in a row of `le`
/// fields.
pub fn absolute_index_inclusive_slice(le: usize, idx: &isize) -> (r: usize)
    ensures
        r == inclusive_bound(le as int, *idx as int),
        le > 0 ==> r < le,
{
    if le == 0 {
        0
    } else if *idx >= 0 {
        if (*idx as usize) < le - 1 {
            *idx as usize
        } else {
            le - 1
        }
    } else {
        let back = reach_back(*idx);
        if back <= le {
            le - back
        } else {
            0
        }
    }
}

/// The field of `row` that `idx` points at, or the empty string.
pub fn field<'a>(row: &'a Vec<String>, idx: isize) -> (r: &'a str)
    ensures
        r@ == field_at(row.deep_view(), idx as int),
{
    let p = absolute_index(row.len(), &idx);
    if p < row.len() {
        proof {
            assert(row.deep_view()[p as int] == row[p as int]@);
        }
        row[p].as_str()
    } else {
        proof {
            reveal_strlit("");
            assert(""@ =~= Seq::<char>::empty());
        }
        ""
    }
}

/// The fields of `row` that a mapping selects, in the order in which they
/// are joined. A range whose start lies after its end selects nothing.
pub open spec fn selected_fields(m: MappingView, row: Seq<Seq<char>>) -> Seq<Seq<char>> {
    let n = row.len() as int;
    match m {
        MappingView::Index(i) => seq![field_at(row, i)],
        MappingView::List(is, _) => is.map_values(|i: int| field_at(row, i)),
        MappingView::Range(f, t, _) => {
            let a = slice_bound(n, f);
            let b = slice_bound(n, t);
            if a < b {
                row.subrange(a, b)
            } else {
                Seq::empty()
            }
        },
        MappingView::InfinteRange(f, _) => row.subrange(slice_bound(n, f), n),
        MappingView::InclusiveRange(f, t, _) => {
            let a = slice_bound(n, f);
            let b = inclusive_bound(n, t);
            if a <= b && b < n {
                row.subrange(a, b + 1)
            } else {
                Seq::empty()
            }
        },
    }
}

/// The text that a mapping puts between the fields it selects.
pub open spec fn joiner(m: MappingView) -> Seq<char> {
    match m {
        MappingView::Index(_) => Seq::empty(),
        MappingView::List(_, j) => j,
        MappingView::Range(_, _, j) => j,
        MappingView::InfinteRange(_, j) => j,
        MappingView::InclusiveRange(_, _, j) => j,
    }
}

/// The output column that a mapping makes of a row: the selected fields,
/// joined.
pub open spec fn mapped_column(m: MappingView, row: Seq<Seq<char>>) -> Seq<char> {
    joined(selected_fields(m, row), joiner(m))
}

/// An index mapping yields the field it points at: counted from the front
/// where it is not negative, from the end where it is; and the empty string
/// where it points outside the row.
pub proof fn lemma_index_mapping(row: Seq<Seq<char>>, i: int)
    ensures
        0 <= i < row.len() ==> mapped_column(MappingView::Index(i), row) == row[i],
        i < 0 && row.len() + i >= 0 ==> mapped_column(MappingView::Index(i), row) == row[
            row.len() + i
        ],
        i >= row.len() || row.len() + i < 0 ==> mapped_column(MappingView::Index(i), row)
            == Seq::<char>::empty(),
{
}

/// An inclusive range selects exactly one field more than the exclusive
/// range with the same bounds, where both bounds point into the row and the
/// start does not lie after the end.
pub proof fn lemma_inclusive_range_one_more(
    row: Seq<Seq<char>>,
    from: int,
    to: int,
    joiner: Seq<char>,
)
    requires
        0 <= point_index(row.len() as int, from) <= point_index(row.len() as int, to) < row.len(),
    ensures
        selected_fields(MappingView::InclusiveRange(from, to, joiner), row).len()
            == selected_fields(MappingView::Range(from, to, joiner), row).len() + 1,
        selected_fields(MappingView::InclusiveRange(from, to, joiner), row) == selected_fields(
            MappingView::Range(from, to, joiner),
            row,
        ).push(row[point_index(row.len() as int, to)]),
{
    let n = row.len() as int;
    let a = point_index(n, from);
    let b = point_index(n, to);
    if a < b {
        assert(row.subrange(a, b + 1) =~= row.subrange(a, b).push(row[b]));
    } else {
        assert(row.subrange(a, b + 1) =~= Seq::<Seq<char>>::empty().push(row[b]));
    }
}

/// The fields of `cols` that `indices` point at, joined by `sep`.
fn join_listed(indices: &Vec<isize>, sep: &str, cols: &Vec<String>) -> (s: String)
    ensures
        s@ == joined(
            indices@.map_values(|i: isize| i as int).map_values(
                |i: int| field_at(cols.deep_view(), i),
            ),
            sep@,
        ),
{
    let ghost picked = indices@.map_values(|i: isize| i as int).map_values(
        |i: int| field_at(cols.deep_view(), i),
    );
    let mut s = String::new();
    let mut k: usize = 0;
    while k < indices.len()
        invariant
            k <= indices.len(),
            picked == indices@.map_values(|i: isize| i as int).map_values(
                |i: int| field_at(cols.deep_view(), i),
            ),
            s@ == joined(picked.take(k as int), sep@),
        decreases indices.len() - k,
    {
        if k > 0 {
            s.append(sep);
        }
        s.append(field(cols, indices[k]));
        proof {
            assert(picked.take(k + 1).drop_last() == picked.take(k as int));
            assert(picked.take(k + 1).last() == field_at(cols.deep_view(), indices[k as int] as int));
        }
        k = k + 1;
    }
    proof {
        assert(picked.take(indices.len() as int) == picked);
    }
    s
}

/// Makes one output column of a row.
pub fn map_column(mapping: &ColumnMapping, cols: &Vec<String>) -> (r: String)
    ensures
        r@ == mapped_column(mapping@, cols.deep_view()),
{
    let n = cols.len();
    let ghost row = cols.deep_view();
    proof {
        reveal_strlit("");
        assert(""@ =~= Seq::<char>::empty());
        assert(joined(Seq::<Seq<char>>::empty(), joiner(mapping@)) == Seq::<char>::empty());
    }
    match mapping {
        ColumnMapping::Index(i) => String::from_str(field(cols, *i)),
        ColumnMapping::List(is, j) => join_listed(is, j.as_str(), cols),
        ColumnMapping::InfinteRange(f, j) => join_range(
            cols,
            absolute_index_slice(n, f),
            n,
            j.as_str(),
        ),
        ColumnMapping::Range(f, t, j) => {
            let a = absolute_index_slice(n, f);
            let b = absolute_index_slice(n, t);
            if a < b {
                join_range(cols, a, b, j.as_str())
            } else {
                String::from_str("")
            }
        },
        ColumnMapping::InclusiveRange(f, t, j) => {
            let a = absolute_index_slice(n, f);
            let b = absolute_index_inclusive_slice(n, t);
            if a <= b && b < n {
                join_range(cols, a, b + 1, j.as_str())
            } else {
                String::from_str("")
            }
        },
    }
}

/// The output row that the mappings make of a row; the row itself where
/// there are no mappings.
pub open spec fn mapped_row(columns: Option<Seq<MappingView>>, row: Seq<Seq<char>>) -> Seq<
    Seq<char>,
> {
    match columns {
        Some(mappings) => mappings.map_values(|m: MappingView| mapped_column(m, row)),
        None => row,
    }
}

/// The rows without those that occurred before: of equal rows the first
/// stays, and what stays keeps its order.
pub open spec fn first_occurrences(rows: Seq<Seq<Seq<char>>>) -> Seq<Seq<Seq<char>>>
    decreases rows.len(),
{
    if rows.len() == 0 {
        Seq::empty()
    } else {
        let kept = first_occurrences(rows.drop_last());
        if rows.drop_last().contains(rows.last()) {
            kept
        } else {
            kept.push(rows.last())
        }
    }
}

/// Where `row` first stands among `rows`, if it stands there at all.
pub open spec fn first_position(rows: Seq<Seq<Seq<char>>>, row: Seq<Seq<char>>) -> int
    decreases rows.len(),
{
    if rows.len() == 0 {
        0
    } else if rows.drop_last().contains(row) {
        first_position(rows.drop_last(), row)
    } else {
        rows.len() - 1
    }
}

/// `first_position` is the place of the first occurrence.
pub proof fn lemma_first_position(rows: Seq<Seq<Seq<char>>>, row: Seq<Seq<char>>)
    requires
        rows.contains(row),
    ensures
        0 <= first_position(rows, row) < rows.len(),
        rows[first_position(rows, row)] == row,
        forall|j: int| 0 <= j < first_position(rows, row) ==> rows[j] != row,
    decreases rows.len(),
{
    let rest = rows.drop_last();
    if rest.contains(row) {
        lemma_first_position(rest, row);
        assert forall|j: int| 0 <= j < first_position(rows, row) implies rows[j] != row by {
            assert(rest[j] == rows[j]);
        }
    } else {
        let i = choose|i: int| 0 <= i < rows.len() && rows[i] == row;
        if i < rows.len() - 1 {
            assert(rest[i] == row);
        }
        assert forall|j: int| 0 <= j < rows.len() - 1 implies rows[j] != row by {
            assert(rest[j] == rows[j]);
        }
    }
}

/// Dropping repeated rows keeps the order of first sight: what is left
/// holds no row twice, holds every row that was there and no other, and
/// holds them in the order of their first occurrences.
pub proof fn lemma_first_occurrences(rows: Seq<Seq<Seq<char>>>)
    ensures
        first_occurrences(rows).no_duplicates(),
        forall|row: Seq<Seq<char>>| #[trigger]
            first_occurrences(rows).contains(row) <==> rows.contains(row),
        forall|i: int, j: int|
            0 <= i < j < first_occurrences(rows).len() ==> first_position(
                rows,
                #[trigger] first_occurrences(rows)[i],
            ) < first_position(rows, #[trigger] first_occurrences(rows)[j]),
    decreases rows.len(),
{
    let kept = first_occurrences(rows);
    if rows.len() == 0 {
    } else {
        let rest = rows.drop_last();
        let last = rows.last();
        let before = first_occurrences(rest);
        lemma_first_occurrences(rest);
        assert(rows == rest.push(last));
        assert forall|row: Seq<Seq<char>>| #[trigger] kept.contains(row) <==> rows.contains(
            row,
        ) by {
            assert(before.contains(row) <==> rest.contains(row));
            if kept.contains(row) {
                let k = choose|k: int| 0 <= k < kept.len() && kept[k] == row;
                if k < before.len() {
                    assert(before[k] == row);
                    let i = choose|i: int| 0 <= i < rest.len() && rest[i] == row;
                    assert(rows[i] == row);
                } else {
                    assert(rows[rows.len() - 1] == row);
                }
            }
            if rows.contains(row) {
                let i = choose|i: int| 0 <= i < rows.len() && rows[i] == row;
                if i < rest.len() {
                    assert(rest[i] == row);
                    let k = choose|k: int| 0 <= k < before.len() && before[k] == row;
                    assert(kept[k] == row);
                } else if rest.contains(last) {
                    let k = choose|k: int| 0 <= k < before.len() && before[k] == row;
                    assert(kept[k] == row);
                } else {
                    assert(kept[kept.len() - 1] == row);
                }
            }
        }
        assert forall|i: int, j: int| 0 <= i < j < kept.len() implies first_position(
            rows,
            #[trigger] kept[i],
        ) < first_position(rows, #[trigger] kept[j]) by {
            assert(before.contains(before[i]));
            assert(rest.contains(kept[i]));
            lemma_first_position(rest, kept[i]);
            if j < before.len() {
                assert(before.contains(before[j]));
                assert(rest.contains(kept[j]));
            }
        }
        if !rest.contains(last) {
            assert forall|i: int, j: int| 0 <= i < kept.len() && 0 <= j < kept.len() && i
                != j implies kept[i] != kept[j] by {
                if i < before.len() {
                    assert(before.contains(before[i]));
                }
                if j < before.len() {
                    assert(before.contains(before[j]));
                }
            }
        }
    }
}

/// The length of the longest row; 0 where there are no rows.
pub open spec fn longest_row(rows: Seq<Seq<Seq<char>>>) -> nat
    decreases rows.len(),
{
    if rows.len() == 0 {
        0
    } else {
        let longest = longest_row(rows.drop_last());
        if rows.last().len() > longest {
            rows.last().len()
        } else {
            longest
        }
    }
}

/// The lesser of a count and an optional limit.
pub open spec fn at_most(count: int, limit: Option<int>) -> int {
    match limit {
        Some(l) => if l < count {
            l
        } else {
            count
        },
        None => count,
    }
}

/// How many columns the output has: the least of the longest input row and
/// of the counts of headers, mappings, alignments and fixed widths, as far
/// as each is given.
pub open spec fn number_of_columns(args: ArgsView, input_length: int) -> int {
    let by_headers = at_most(
        input_length,
        match args.headers {
            Some(h) => Some(h.len() as int),
            None => None,
        },
    );
    let by_columns = at_most(
        by_headers,
        match args.columns {
            Some(c) => Some(c.len() as int),
            None => None,
        },
    );
    let by_layout = at_most(
        by_columns,
        match args.layout {
            Some(l) => Some(l.column_align.len() as int),
            None => None,
        },
    );
    at_most(
        by_layout,
        match args.fixed_width {
            Some(w) => Some(w.len() as int),
            None => None,
        },
    )
}

/// The output matrix of a run. The input is sorted first where sorting is
/// asked of the input; each row is mapped; rows that occurred before are
/// dropped where asked; the output is sorted where sorting is asked of the
/// output; and every row is cut or filled to the one column count.
pub open spec fn processed(args: ArgsView, input: Seq<Seq<Seq<char>>>) -> Seq<Seq<Seq<char>>> {
    let keys = sort_keys(args.sort_by);
    let columns = number_of_columns(args, longest_row(input) as int);
    let ordered = if args.sort && !args.sort_by_output {
        sorted_matrix(keys, input, args.sort_ignore_first)
    } else {
        input
    };
    let mapped = ordered.map_values(|row: Seq<Seq<char>>| mapped_row(args.columns, row));
    let kept = if args.unique {
        first_occurrences(mapped)
    } else {
        mapped
    };
    let output = if args.sort && args.sort_by_output {
        sorted_matrix(keys, kept, args.sort_ignore_first)
    } else {
        kept
    };
    output.map_values(|row: Seq<Seq<char>>| resized(row, columns as nat))
}

/// The lesser of `count` and `limit`.
fn lesser(count: usize, limit: usize) -> (r: usize)
    ensures
        r == at_most(count as int, Some(limit as int)),
{
    if limit < count {
        limit
    } else {
        count
    }
}

/// How many columns the output has, the longest input row having
/// `input_length` fields.
pub fn get_number_of_columns(args: &Args, input_length: usize) -> (r: usize)
    ensures
        r == number_of_columns(args@, input_length as int),
        r <= input_length,
{
    let mut r = input_length;
    if let Some(h) = &args.headers {
        proof {
            assert(h.deep_view().len() == h.len());
        }
        r = lesser(r, h.len());
    }
    if let Some(c) = &args.columns {
        proof {
            assert(c.deep_view().len() == c.len());
        }
        r = lesser(r, c.len());
    }
    if let Some(a) = &args.layout {
        r = lesser(r, a.column_align.len());
    }
    if let Some(w) = &args.fixed_width {
        r = lesser(r, w.len());
    }
    r
}

/// The length of the longest row.
fn longest_row_length(rows: &Vec<Vec<String>>) -> (r: usize)
    ensures
        r == longest_row(rows.deep_view()),
{
    let ghost all = rows.deep_view();
    let mut r: usize = 0;
    let mut i: usize = 0;
    while i < rows.len()
        invariant
            i <= rows.len(),
            all == rows.deep_view(),
            r == longest_row(all.take(i as int)),
        decreases rows.len() - i,
    {
        proof {
            assert(all.take(i + 1).drop_last() == all.take(i as int));
            assert(all.take(i + 1).last().len() == rows[i as int].len());
        }
        if rows[i].len() > r {
            r = rows[i].len();
        }
        i = i + 1;
    }
    proof {
        assert(all.take(rows.len() as int) == all);
    }
    r
}

/// The output row made of `row`.
fn map_row(columns: &Option<Vec<ColumnMapping>>, row: &Vec<String>) -> (r: Vec<String>)
    ensures
        r.deep_view() == mapped_row(columns.deep_view(), row.deep_view()),
{
    match columns {
        Some(mappings) => {
            let mut r: Vec<String> = Vec::new();
            let mut i: usize = 0;
            while i < mappings.len()
                invariant
                    i <= mappings.len(),
                    r.len() == i,
                    forall|k: int|
                        0 <= k < i ==> #[trigger] r[k]@ == mapped_column(
                            mappings[k]@,
                            row.deep_view(),
                        ),
                decreases mappings.len() - i,
            {
                r.push(map_column(&mappings[i], row));
                i = i + 1;
            }
            proof {
                assert(r.deep_view() =~= mappings.deep_view().map_values(
                    |m: MappingView| mapped_column(m, row.deep_view()),
                ));
            }
            r
        },
        None => {
            proof {
                assert(resized(row.deep_view(), row.len() as nat) =~= row.deep_view());
            }
            resize_row(row, row.len())
        },
    }
}

/// `itertools::Itertools::unique` over the rows, collected. Its
/// documentation says that it yields each element once, the first of equal
/// ones, in the order in which they occur. Rows are equal when they hold the
/// same fields.
#[verifier::external_body]
fn unique_rows(rows: Vec<Vec<String>>) -> (kept: Vec<Vec<String>>)
    ensures
        kept.deep_view() == first_occurrences(rows.deep_view()),
{
    rows.into_iter().unique().collect()
}

/// The input matrix of the given lines: each line split into its fields at
/// the delimiter.
pub fn read_inputs(delimiter: &String, lines: &Vec<String>) -> (input_matrix: Vec<Vec<String>>)
    ensures
        input_matrix.deep_view() == lines.deep_view().map_values(
            |line: Seq<char>| split_fields(line, delimiter@),
        ),
        input_matrix.len() == lines.len(),
{
    let input_matrix = split_lines(lines, delimiter.as_str());
    proof {
        assert(input_matrix.deep_view().len() == lines.deep_view().len());
    }
    input_matrix
}

/// Transforms the input matrix into the output matrix.
pub fn process(args: &Args, input_matrix: Vec<Vec<String>>) -> (output: Vec<Vec<String>>)
    ensures
        output.deep_view() == processed(args@, input_matrix.deep_view()),
        output.len() == 0 <==> input_matrix.len() == 0,
        forall|i: int|
            0 <= i < output.len() ==> (#[trigger] output[i]).len() == number_of_columns(
                args@,
                longest_row(input_matrix.deep_view()) as int,
            ),
{
    let ghost input = input_matrix.deep_view();
    let mut rows = input_matrix;
    let comparator = get_sort_comparator(&args.sort_by);
    let columns = get_number_of_columns(args, longest_row_length(&rows));
    if args.sort && !args.sort_by_output {
        sort_matrix(&mut rows, &comparator, args.sort_ignore_first);
    }
    let ghost ordered = rows.deep_view();
    let ghost mapped_spec = ordered.map_values(
        |row: Seq<Seq<char>>| mapped_row(args@.columns, row),
    );
    let mut mapped: Vec<Vec<String>> = Vec::new();
    let mut i: usize = 0;
    while i < rows.len()
        invariant
            i <= rows.len(),
            ordered == rows.deep_view(),
            mapped.len() == i,
            forall|k: int|
                0 <= k < i ==> (#[trigger] mapped[k]).deep_view() == mapped_row(
                    args@.columns,
                    ordered[k],
                ),
        decreases rows.len() - i,
    {
        proof {
            assert(ordered[i as int] == rows[i as int].deep_view());
        }
        mapped.push(map_row(&args.columns, &rows[i]));
        i = i + 1;
    }
    proof {
        assert(mapped.deep_view() =~= mapped_spec);
    }
    let mut kept = if args.unique {
        unique_rows(mapped)
    } else {
        mapped
    };
    if args.sort && args.sort_by_output {
        sort_matrix(&mut kept, &comparator, args.sort_ignore_first);
    }
    let ghost sorted_output = kept.deep_view();
    let mut output: Vec<Vec<String>> = Vec::new();
    let mut i: usize = 0;
    while i < kept.len()
        invariant
            i <= kept.len(),
            sorted_output == kept.deep_view(),
            output.len() == i,
            forall|k: int|
                0 <= k < i ==> (#[trigger] output[k]).deep_view() == resized(
                    sorted_output[k],
                    columns as nat,
                ),
        decreases kept.len() - i,
    {
        proof {
            assert(sorted_output[i as int] == kept[i as int].deep_view());
        }
        output.push(resize_row(&kept[i], columns));
        i = i + 1;
    }
    proof {
        assert(output.deep_view() =~= sorted_output.map_values(
            |row: Seq<Seq<char>>| resized(row, columns as nat),
        ));
        assert forall|k: int| 0 <= k < output.len() implies (#[trigger] output[k]).len()
            == columns by {
            assert(output[k].deep_view().len() == columns);
        }
        lemma_processed_rows(args@, input);
    }
    output
}

/// No rows give no rows, and some rows give some.
pub proof fn lemma_processed_rows(args: ArgsView, input: Seq<Seq<Seq<char>>>)
    ensures
        processed(args, input).len() == 0 <==> input.len() == 0,
{
    let keys = sort_keys(args.sort_by);
    let ordered = if args.sort && !args.sort_by_output {
        sorted_matrix(keys, input, args.sort_ignore_first)
    } else {
        input
    };
    lemma_sorted_matrix_len(keys, input, args.sort_ignore_first);
    let mapped = ordered.map_values(|row: Seq<Seq<char>>| mapped_row(args.columns, row));
    let kept = if args.unique {
        first_occurrences(mapped)
    } else {
        mapped
    };
    lemma_first_occurrences_len(mapped);
    lemma_sorted_matrix_len(keys, kept, args.sort_ignore_first);
}

/// The output is rectangular: every row has exactly the column count of the
/// run, longer rows cut and shorter ones filled with empty fields.
pub proof fn lemma_processed_is_rectangular(args: ArgsView, input: Seq<Seq<Seq<char>>>)
    ensures
        forall|i: int|
            0 <= i < processed(args, input).len() ==> (#[trigger] processed(args, input)[i]).len()
                == number_of_columns(args, longest_row(input) as int),
        0 <= number_of_columns(args, longest_row(input) as int) <= longest_row(input),
{
}

/// Sorting keeps the number of rows.
pub proof fn lemma_sorted_matrix_len(
    keys: Seq<SortOrder>,
    rows: Seq<Seq<Seq<char>>>,
    pin_first: bool,
)
    ensures
        sorted_matrix(keys, rows, pin_first).len() == rows.len(),
{
    lemma_sorted_rows_stably_sorted(keys, rows);
    if rows.len() > 0 {
        lemma_sorted_rows_stably_sorted(keys, rows.skip(1));
    }
}

/// Dropping repeated rows leaves no more rows than there were, and leaves
/// some where there were some.
pub proof fn lemma_first_occurrences_len(rows: Seq<Seq<Seq<char>>>)
    ensures
        first_occurrences(rows).len() <= rows.len(),
        rows.len() > 0 ==> first_occurrences(rows).len() > 0,
    decreases rows.len(),
{
    if rows.len() > 0 {
        lemma_first_occurrences_len(rows.drop_last());
    }
}

} // verus!
