//! The table renderer: column widths, cell alignment and truncation, row
//! assembly and border lines.
use crate::arguments::{
    optional_view, Alignment, Args, ArgsView, Decoration, LayoutView, WidthSpecifier,
};
use crate::process::{lemma_processed_rows, processed};
use crate::text::{
    concatenated, join, joined, lemma_concatenated_add, lemma_concatenated_single, push_spaces, replace_chars, replaced, resize_row,
    resized, spaces,
};
use vstd::prelude::*;
use vstd::string::*;

verus! {

/// Widths as mathematical integers.
pub open spec fn as_ints(widths: Seq<usize>) -> Seq<int> {
    widths.map_values(|w: usize| w as int)
}

/// The three dots that end a cell cut with an ellipsis.
pub open spec fn ellipsis() -> Seq<char> {
    seq!['.', '.', '.']
}

/// `cell`, cut down to at most `width` characters. A cell that fits is kept;
/// a longer one loses its tail, and under `Ellipsis` its last three
/// remaining characters are dots.
pub open spec fn fitted(cell: Seq<char>, width: int, overflow: WidthSpecifier) -> Seq<char> {
    if cell.len() <= width {
        cell
    } else {
        match overflow {
            WidthSpecifier::Ellipsis(_) => cell.take(width - 3) + ellipsis(),
            _ => cell.take(width),
        }
    }
}

/// `text`, filled with spaces up to `width`. Centring puts the odd space on
/// the right.
pub open spec fn padded(text: Seq<char>, align: Alignment, width: int) -> Seq<char> {
    let gap = width - text.len();
    if gap <= 0 {
        text
    } else {
        match align {
            Alignment::Left => text + spaces(gap),
            Alignment::Right => spaces(gap) + text,
            Alignment::Center => spaces(gap / 2) + text + spaces(gap - gap / 2),
        }
    }
}

/// A cell as it is printed: cut to the width, then padded to it.
pub open spec fn aligned_cell(
    cell: Seq<char>,
    align: Alignment,
    width: int,
    overflow: WidthSpecifier,
) -> Seq<char> {
    padded(fitted(cell, width, overflow), align, width)
}

/// Whether a cell can be printed in `width` characters under `overflow`: a
/// column sized to its content holds no longer cell, and an ellipsis needs
/// room for its three dots.
pub open spec fn cell_fits(cell: Seq<char>, width: int, overflow: WidthSpecifier) -> bool {
    cell.len() > width ==> match overflow {
        WidthSpecifier::Indeterminate => false,
        WidthSpecifier::Ellipsis(_) => width >= 3,
        _ => true,
    }
}

/// Cuts `s` to `w` characters as `overflow` says and pads it to `w`
/// characters as `align` says.
pub fn align_and_trim(s: &String, align: &Alignment, w: usize, overflow: &WidthSpecifier) -> (r:
    String)
    requires
        cell_fits(s@, w as int, *overflow),
    ensures
        r@ == aligned_cell(s@, *align, w as int, *overflow),
        r@.len() == w,
{
    let n = s.as_str().unicode_len();
    if n <= w {
        let gap = w - n;
        let mut r = String::new();
        match align {
            Alignment::Left => {
                r.append(s.as_str());
                push_spaces(&mut r, gap);
            },
            Alignment::Right => {
                push_spaces(&mut r, gap);
                r.append(s.as_str());
            },
            Alignment::Center => {
                push_spaces(&mut r, gap / 2);
                r.append(s.as_str());
                push_spaces(&mut r, gap - gap / 2);
            },
        }
        r
    } else {
        match overflow {
            WidthSpecifier::Ellipsis(_) => {
                let mut r = String::from_str(s.as_str().substring_char(0, w - 3));
                r.append("...");
                proof {
                    reveal_strlit("...");
                    assert("..."@ =~= ellipsis());
                }
                r
            },
            _ => String::from_str(s.as_str().substring_char(0, w)),
        }
    }
}

/// The overflow rule of column `i`: the one given for it, or sizing to
/// content where none is.
pub open spec fn width_specifier_at(fixed: Option<Seq<WidthSpecifier>>, i: int) -> WidthSpecifier {
    match fixed {
        Some(f) => if 0 <= i < f.len() {
            f[i]
        } else {
            WidthSpecifier::Indeterminate
        },
        None => WidthSpecifier::Indeterminate,
    }
}

/// The alignment of column `i`: the one the layout gives it, or left where
/// it gives none.
pub open spec fn alignment_at(layout: Option<LayoutView>, i: int) -> Alignment {
    match layout {
        Some(l) => if 0 <= i < l.column_align.len() {
            l.column_align[i]
        } else {
            Alignment::Left
        },
        None => Alignment::Left,
    }
}

/// The vertical rule between cells.
pub open spec fn vertical_bar(ascii: bool) -> char {
    if ascii {
        '|'
    } else {
        '\u{2502}'
    }
}

/// A delimiter as it is printed: each `|` in it is the vertical rule.
pub open spec fn shown_delimiter(d: Seq<char>, ascii: bool) -> Seq<char> {
    replaced(d, '|', vertical_bar(ascii), None)
}

/// Cell `i` of `row` as it is printed in a column `widths[i]` wide.
pub open spec fn row_cell(args: ArgsView, widths: Seq<int>, row: Seq<Seq<char>>, i: int) -> Seq<
    char,
> {
    aligned_cell(
        row[i],
        alignment_at(args.layout, i),
        widths[i],
        width_specifier_at(args.fixed_width, i),
    )
}

/// How many cells of `row` are printed: those that have a width.
pub open spec fn cell_count(widths: Seq<int>, row: Seq<Seq<char>>) -> nat {
    if row.len() <= widths.len() {
        row.len()
    } else {
        widths.len()
    }
}

/// The printed cells of `row`.
pub open spec fn row_cells(args: ArgsView, widths: Seq<int>, row: Seq<Seq<char>>) -> Seq<
    Seq<char>,
> {
    Seq::new(cell_count(widths, row), |i: int| row_cell(args, widths, row, i))
}

/// Whether `row` can be printed in columns of these widths: every printed
/// cell fits its column, and without a layout every cell has a width.
pub open spec fn row_fits(args: ArgsView, widths: Seq<int>, row: Seq<Seq<char>>) -> bool {
    &&& args.layout is None ==> row.len() <= widths.len()
    &&& forall|i: int|
        0 <= i < cell_count(widths, row) ==> cell_fits(
            #[trigger] row[i],
            widths[i],
            width_specifier_at(args.fixed_width, i),
        )
}

/// Alternates the items of `a` and `b`, starting with `a`; when one runs out,
/// the rest of the other follows.
pub open spec fn interleaved(a: Seq<Seq<char>>, b: Seq<Seq<char>>) -> Seq<Seq<char>>
    decreases a.len() + b.len(),
{
    if a.len() == 0 {
        b
    } else {
        seq![a[0]] + interleaved(b, a.skip(1))
    }
}

/// The delimiters of a layout as they are printed.
pub open spec fn shown_delimiters(layout: LayoutView, ascii: bool) -> Seq<Seq<char>> {
    layout.delimiters.map_values(|d: Seq<char>| shown_delimiter(d, ascii))
}

/// One table row as text. With a layout, its delimiters alternate with the
/// cells, a delimiter first. Without one, the cells are joined by the
/// vertical rule.
pub open spec fn formatted_row(args: ArgsView, widths: Seq<int>, row: Seq<Seq<char>>) -> Seq<
    char,
> {
    match args.layout {
        Some(l) => concatenated(
            interleaved(shown_delimiters(l, args.ascii), row_cells(args, widths, row)),
        ),
        None => joined(row_cells(args, widths, row), seq![vertical_bar(args.ascii)]),
    }
}

/// The vertical rule, as a string.
fn bar_text(ascii: bool) -> (r: &'static str)
    ensures
        r@ == seq![vertical_bar(ascii)],
{
    if ascii {
        proof {
            reveal_strlit("|");
            assert("|"@ =~= seq!['|']);
        }
        "|"
    } else {
        proof {
            reveal_strlit("\u{2502}");
            assert("\u{2502}"@ =~= seq!['\u{2502}']);
        }
        "\u{2502}"
    }
}

/// The vertical rule, as a character.
fn bar_char(ascii: bool) -> (r: char)
    ensures
        r == vertical_bar(ascii),
{
    if ascii {
        '|'
    } else {
        '\u{2502}'
    }
}

/// The printed cells of `row`.
fn format_cells(args: &Args, column_widths: &Vec<usize>, row: &Vec<String>) -> (cells: Vec<String>)
    requires
        row_fits(args@, as_ints(column_widths@), row.deep_view()),
    ensures
        cells.deep_view() == row_cells(args@, as_ints(column_widths@), row.deep_view()),
{
    let count = if row.len() <= column_widths.len() {
        row.len()
    } else {
        column_widths.len()
    };
    let mut cells: Vec<String> = Vec::new();
    let mut i: usize = 0;
    while i < count
        invariant
            i <= count,
            count == cell_count(as_ints(column_widths@), row.deep_view()),
            count <= row.len(),
            count <= column_widths.len(),
            row_fits(args@, as_ints(column_widths@), row.deep_view()),
            cells.len() == i,
            forall|k: int|
                0 <= k < i ==> #[trigger] cells[k]@ == row_cell(
                    args@,
                    as_ints(column_widths@),
                    row.deep_view(),
                    k,
                ),
        decreases count - i,
    {
        let overflow = match &args.fixed_width {
            Some(f) => if i < f.len() {
                f[i]
            } else {
                WidthSpecifier::Indeterminate
            },
            None => WidthSpecifier::Indeterminate,
        };
        let align = match &args.layout {
            Some(l) => if i < l.column_align.len() {
                l.column_align[i]
            } else {
                Alignment::Left
            },
            None => Alignment::Left,
        };
        proof {
            assert(row.deep_view()[i as int] == row[i as int]@);
        }
        let cell = align_and_trim(&row[i], &align, column_widths[i], &overflow);
        cells.push(cell);
        i = i + 1;
    }
    proof {
        assert(cells.deep_view() =~= row_cells(args@, as_ints(column_widths@), row.deep_view()));
    }
    cells
}

/// The delimiters of `layout` as they are printed.
fn show_delimiters(delimiters: &Vec<String>, ascii: bool) -> (shown: Vec<String>)
    ensures
        shown.deep_view() == delimiters.deep_view().map_values(
            |d: Seq<char>| shown_delimiter(d, ascii),
        ),
{
    let mut shown: Vec<String> = Vec::new();
    let mut i: usize = 0;
    while i < delimiters.len()
        invariant
            i <= delimiters.len(),
            shown.len() == i,
            forall|k: int|
                0 <= k < i ==> #[trigger] shown[k]@ == shown_delimiter(delimiters[k]@, ascii),
        decreases delimiters.len() - i,
    {
        shown.push(replace_chars(delimiters[i].as_str(), '|', bar_char(ascii), None));
        i = i + 1;
    }
    proof {
        assert(shown.deep_view() =~= delimiters.deep_view().map_values(
            |d: Seq<char>| shown_delimiter(d, ascii),
        ));
    }
    shown
}

/// The items of `a` and `b` in alternation, `a` first, as one string.
fn interleave(a: &Vec<String>, b: &Vec<String>) -> (r: String)
    ensures
        r@ == concatenated(interleaved(a.deep_view(), b.deep_view())),
{
    let ghost pa = a.deep_view();
    let ghost pb = b.deep_view();
    let mut r = String::new();
    let mut i: usize = 0;
    let mut j: usize = 0;
    let mut a_turn = true;
    proof {
        assert(pa.skip(0) == pa);
        assert(pb.skip(0) == pb);
    }
    while i < a.len() || j < b.len()
        invariant
            i <= a.len(),
            j <= b.len(),
            pa == a.deep_view(),
            pb == b.deep_view(),
            r@ + concatenated(
                if a_turn {
                    interleaved(pa.skip(i as int), pb.skip(j as int))
                } else {
                    interleaved(pb.skip(j as int), pa.skip(i as int))
                },
            ) == concatenated(interleaved(pa, pb)),
        decreases (a.len() - i) + (b.len() - j),
    {
        let ghost rest_a = pa.skip(i as int);
        let ghost rest_b = pb.skip(j as int);
        let take_a = if a_turn {
            i < a.len()
        } else {
            j >= b.len()
        };
        if take_a {
            proof {
                assert(rest_a.skip(1) == pa.skip(i + 1));
                assert(rest_a[0] == a[i as int]@);
                lemma_concatenated_single(rest_a[0]);
                if a_turn {
                    lemma_concatenated_add(seq![rest_a[0]], interleaved(rest_b, rest_a.skip(1)));
                } else {
                    assert(interleaved(rest_b, rest_a) == rest_a);
                    assert(interleaved(rest_b, rest_a.skip(1)) == rest_a.skip(1));
                    assert(rest_a == seq![rest_a[0]] + rest_a.skip(1));
                    lemma_concatenated_add(seq![rest_a[0]], rest_a.skip(1));
                }
            }
            r.append(a[i].as_str());
            i = i + 1;
            a_turn = false;
        } else {
            proof {
                assert(rest_b.skip(1) == pb.skip(j + 1));
                assert(rest_b[0] == b[j as int]@);
                lemma_concatenated_single(rest_b[0]);
                if !a_turn {
                    lemma_concatenated_add(seq![rest_b[0]], interleaved(rest_a, rest_b.skip(1)));
                } else {
                    assert(interleaved(rest_a, rest_b) == rest_b);
                    assert(interleaved(rest_a, rest_b.skip(1)) == rest_b.skip(1));
                    assert(rest_b == seq![rest_b[0]] + rest_b.skip(1));
                    lemma_concatenated_add(seq![rest_b[0]], rest_b.skip(1));
                }
            }
            r.append(b[j].as_str());
            j = j + 1;
            a_turn = true;
        }
    }
    proof {
        assert(pa.skip(i as int).len() == 0);
        assert(pb.skip(j as int).len() == 0);
    }
    r
}

/// One table row as text, its cells in columns of the given widths.
pub fn format_row(args: &Args, column_widths: &Vec<usize>, row: &Vec<String>) -> (r: String)
    requires
        row_fits(args@, as_ints(column_widths@), row.deep_view()),
    ensures
        r@ == formatted_row(args@, as_ints(column_widths@), row.deep_view()),
{
    let cells = format_cells(args, column_widths, row);
    match &args.layout {
        Some(layout) => {
            let shown = show_delimiters(&layout.delimiters, args.ascii);
            interleave(&shown, &cells)
        },
        None => join(&cells, bar_text(args.ascii)),
    }
}

/// The header row of a table: the given headers, cut or filled to the width
/// of the first row, or the first row itself where none are given.
pub open spec fn header_row(args: ArgsView, rows: Seq<Seq<Seq<char>>>) -> Seq<Seq<char>>
    recommends
        rows.len() > 0,
{
    match args.headers {
        Some(h) => resized(h, rows[0].len()),
        None => rows[0],
    }
}

/// The data rows of a table: all rows under given headers, else all but the
/// first.
pub open spec fn data_rows(args: ArgsView, rows: Seq<Seq<Seq<char>>>) -> Seq<Seq<Seq<char>>> {
    match args.headers {
        Some(_) => rows,
        None => rows.skip(1),
    }
}

/// `widths`, widened so that every cell of `row` fits its column.
pub open spec fn widened(widths: Seq<int>, row: Seq<Seq<char>>) -> Seq<int> {
    Seq::new(
        if widths.len() >= row.len() {
            widths.len()
        } else {
            row.len()
        },
        |i: int|
            if i < row.len() && (i >= widths.len() || widths[i] < row[i].len()) {
                row[i].len() as int
            } else {
                widths[i]
            },
    )
}

/// For each column, the length of the longest cell that any row has in it.
pub open spec fn content_widths(table: Seq<Seq<Seq<char>>>) -> Seq<int>
    decreases table.len(),
{
    if table.len() == 0 {
        Seq::empty()
    } else {
        widened(content_widths(table.drop_last()), table.last())
    }
}

/// The width of column `i`: the fixed one where one is given, else `content`.
pub open spec fn column_width(fixed: Option<Seq<WidthSpecifier>>, i: int, content: int) -> int {
    match width_specifier_at(fixed, i) {
        WidthSpecifier::Indeterminate => content,
        WidthSpecifier::Break(w) => w as int,
        WidthSpecifier::Cut(w) => w as int,
        WidthSpecifier::Ellipsis(w) => w as int,
    }
}

/// The column widths of a table: content widths, overridden by fixed ones.
pub open spec fn column_widths(fixed: Option<Seq<WidthSpecifier>>, table: Seq<Seq<Seq<char>>>) -> Seq<
    int,
> {
    let content = content_widths(table);
    Seq::new(content.len(), |i: int| column_width(fixed, i, content[i]))
}

/// Every given width is well formed.
pub open spec fn widths_well_formed(fixed: Option<Seq<WidthSpecifier>>) -> bool {
    match fixed {
        Some(f) => forall|i: int| 0 <= i < f.len() ==> (#[trigger] f[i]).well_formed(),
        None => true,
    }
}

/// The rule under the header: a crossing under each vertical rule of the
/// header line, a horizontal rule under everything else.
pub open spec fn header_rule(header_text: Seq<char>, ascii: bool) -> Seq<char> {
    if ascii {
        replaced(header_text, '|', '+', Some('-'))
    } else {
        replaced(header_text, '\u{2502}', '\u{253c}', Some('\u{2500}'))
    }
}

/// The rule above the header: the crossings of `rule` open downwards only.
pub open spec fn top_rule(rule: Seq<char>, ascii: bool) -> Seq<char> {
    if ascii {
        rule
    } else {
        replaced(rule, '\u{253c}', '\u{252c}', None)
    }
}

/// The rule below the last row: the crossings of `rule` open upwards only.
pub open spec fn bottom_rule(rule: Seq<char>, ascii: bool) -> Seq<char> {
    if ascii {
        rule
    } else {
        replaced(rule, '\u{253c}', '\u{2534}', None)
    }
}

/// A frame glyph: `+` in ascii mode, else the box-drawing character.
pub open spec fn frame_glyph(glyph: char, ascii: bool) -> char {
    if ascii {
        '+'
    } else {
        glyph
    }
}

/// `text` between a left and a right border character.
pub open spec fn framed(text: Seq<char>, left: char, right: char) -> Seq<char> {
    seq![left] + text + seq![right]
}

/// `text` between two vertical rules.
pub open spec fn boxed(text: Seq<char>, ascii: bool) -> Seq<char> {
    framed(text, vertical_bar(ascii), vertical_bar(ascii))
}

/// The lines of the rendered table. No rows give no lines. Otherwise the
/// header line comes first and the data lines follow it; `UnderlineHeader`
/// puts the header rule between them, and `Full` also frames every line and
/// adds a top and a bottom rule.
pub open spec fn displayed(args: ArgsView, rows: Seq<Seq<Seq<char>>>) -> Seq<Seq<char>> {
    if rows.len() == 0 {
        Seq::empty()
    } else {
        let header = header_row(args, rows);
        let data = data_rows(args, rows);
        let widths = column_widths(args.fixed_width, seq![header] + data);
        let head = formatted_row(args, widths, header);
        let rule = header_rule(head, args.ascii);
        let body = data.map_values(|row: Seq<Seq<char>>| formatted_row(args, widths, row));
        match args.decoration {
            Decoration::Plain => seq![head] + body,
            Decoration::UnderlineHeader => seq![head, rule] + body,
            Decoration::Full => seq![
                framed(
                    top_rule(rule, args.ascii),
                    frame_glyph('\u{250c}', args.ascii),
                    frame_glyph('\u{2510}', args.ascii),
                ),
                boxed(head, args.ascii),
                framed(
                    rule,
                    frame_glyph('\u{251c}', args.ascii),
                    frame_glyph('\u{2524}', args.ascii),
                ),
            ] + body.map_values(|line: Seq<char>| boxed(line, args.ascii)) + seq![
                framed(
                    bottom_rule(rule, args.ascii),
                    frame_glyph('\u{2514}', args.ascii),
                    frame_glyph('\u{2518}', args.ascii),
                ),
            ],
        }
    }
}

/// Content widths cover every row: they are as many as the longest row has
/// cells, and none is narrower than a cell of its column.
pub proof fn lemma_content_widths_cover(table: Seq<Seq<Seq<char>>>, r: int)
    requires
        0 <= r < table.len(),
    ensures
        table[r].len() <= content_widths(table).len(),
        forall|i: int| 0 <= i < table[r].len() ==> table[r][i].len() <= content_widths(table)[i],
    decreases table.len(),
{
    if r < table.len() - 1 {
        lemma_content_widths_cover(table.drop_last(), r);
        assert(table.drop_last()[r] == table[r]);
    }
}

/// In a table laid out at its own column widths every row can be printed.
pub proof fn lemma_table_rows_fit(args: ArgsView, table: Seq<Seq<Seq<char>>>, r: int)
    requires
        0 <= r < table.len(),
        widths_well_formed(args.fixed_width),
    ensures
        row_fits(args, column_widths(args.fixed_width, table), table[r]),
{
    lemma_content_widths_cover(table, r);
    let widths = column_widths(args.fixed_width, table);
    let row = table[r];
    assert forall|i: int| 0 <= i < cell_count(widths, row) implies cell_fits(
        #[trigger] row[i],
        widths[i],
        width_specifier_at(args.fixed_width, i),
    ) by {
        match width_specifier_at(args.fixed_width, i) {
            WidthSpecifier::Ellipsis(w) => {
                assert(args.fixed_width->0[i].well_formed());
            },
            _ => {},
        }
    }
}

/// No input gives no output: the transformer makes no rows of none, and
/// the renderer no lines, whatever the options are.
pub proof fn lemma_empty_input_renders_nothing(args: ArgsView)
    ensures
        processed(args, Seq::empty()) == Seq::<Seq<Seq<char>>>::empty(),
        displayed(args, processed(args, Seq::empty())) == Seq::<Seq<char>>::empty(),
{
    lemma_processed_rows(args, Seq::empty());
    assert(processed(args, Seq::empty()) =~= Seq::<Seq<Seq<char>>>::empty());
}

/// `widths`, widened so that every cell of `row` fits its column.
fn widen(widths: &mut Vec<usize>, row: &Vec<String>)
    ensures
        as_ints(final(widths)@) == widened(as_ints(old(widths)@), row.deep_view()),
{
    let ghost before = as_ints(widths@);
    let ghost cells = row.deep_view();
    let mut i: usize = 0;
    while i < row.len()
        invariant
            i <= row.len(),
            before == as_ints(old(widths)@),
            cells == row.deep_view(),
            widths.len() == if before.len() >= i {
                before.len()
            } else {
                i as nat
            },
            forall|k: int| 0 <= k < i ==> #[trigger] widths[k] as int == widened(before, cells)[k],
            forall|k: int| i <= k < widths.len() ==> #[trigger] widths[k] as int == before[k],
        decreases row.len() - i,
    {
        let n = row[i].as_str().unicode_len();
        proof {
            assert(cells[i as int] == row[i as int]@);
        }
        if i < widths.len() {
            if widths[i] < n {
                widths.set(i, n);
            }
        } else {
            widths.push(n);
        }
        i = i + 1;
    }
    proof {
        assert(as_ints(widths@) =~= widened(before, cells));
    }
}

/// Overrides content widths with the fixed ones.
fn fix_widths(widths: &mut Vec<usize>, fixed: &Option<Vec<WidthSpecifier>>)
    ensures
        final(widths).len() == old(widths).len(),
        forall|i: int|
            0 <= i < old(widths).len() ==> #[trigger] final(widths)[i] as int == column_width(
                optional_view(*fixed),
                i,
                old(widths)[i] as int,
            ),
{
    match fixed {
        Some(f) => {
            let mut i: usize = 0;
            while i < widths.len() && i < f.len()
                invariant
                    widths.len() == old(widths).len(),
                    forall|k: int|
                        0 <= k < i ==> #[trigger] widths[k] as int == column_width(
                            Some(f@),
                            k,
                            old(widths)[k] as int,
                        ),
                    forall|k: int| i <= k < widths.len() ==> #[trigger] widths[k] == old(widths)[k],
                decreases widths.len() - i,
            {
                match f[i] {
                    WidthSpecifier::Indeterminate => {},
                    WidthSpecifier::Break(w) => {
                        widths.set(i, w);
                    },
                    WidthSpecifier::Cut(w) => {
                        widths.set(i, w);
                    },
                    WidthSpecifier::Ellipsis(w) => {
                        widths.set(i, w);
                    },
                }
                i = i + 1;
            }
        },
        None => {},
    }
}

/// `text` between `left` and `right`.
fn frame(text: &str, left: char, right: char) -> (r: String)
    ensures
        r@ == framed(text@, left, right),
{
    let mut r = String::new();
    r.push(left);
    r.append(text);
    r.push(right);
    proof {
        assert(r@ =~= framed(text@, left, right));
    }
    r
}

/// `+` in ascii mode, else `glyph`.
fn glyph_for(glyph: char, ascii: bool) -> (r: char)
    ensures
        r == frame_glyph(glyph, ascii),
{
    if ascii {
        '+'
    } else {
        glyph
    }
}

/// The rule under a header line.
fn rule_under(header_text: &str, ascii: bool) -> (r: String)
    ensures
        r@ == header_rule(header_text@, ascii),
{
    if ascii {
        replace_chars(header_text, '|', '+', Some('-'))
    } else {
        replace_chars(header_text, '\u{2502}', '\u{253c}', Some('\u{2500}'))
    }
}

/// `rule` with its crossings replaced by `tee`; `rule` itself in ascii mode.
fn rule_with_tees(rule: &str, tee: char, ascii: bool) -> (r: String)
    ensures
        r@ == if ascii {
            rule@
        } else {
            replaced(rule@, '\u{253c}', tee, None)
        },
{
    if ascii {
        String::from_str(rule)
    } else {
        replace_chars(rule, '\u{253c}', tee, None)
    }
}

/// Renders the table: the lines to print, top to bottom.
pub fn display(args: &Args, rows: &Vec<Vec<String>>) -> (lines: Vec<String>)
    requires
        widths_well_formed(args@.fixed_width),
    ensures
        lines.deep_view() == displayed(args@, rows.deep_view()),
        rows.len() == 0 ==> lines.len() == 0,
{
    let ghost table_rows = rows.deep_view();
    let mut lines: Vec<String> = Vec::new();
    if rows.len() == 0 {
        proof {
            assert(lines.deep_view() =~= displayed(args@, table_rows));
        }
        return lines;
    }
    proof {
        assert(table_rows[0] == rows[0].deep_view());
    }
    let (header, first_data) = match &args.headers {
        Some(h) => (resize_row(h, rows[0].len()), 0usize),
        None => {
            proof {
                assert(resized(table_rows[0], table_rows[0].len()) =~= table_rows[0]);
            }
            (resize_row(&rows[0], rows[0].len()), 1usize)
        },
    };
    let ghost head_cells = header_row(args@, table_rows);
    let ghost data = data_rows(args@, table_rows);
    let ghost table = seq![head_cells] + data;
    assert(header.deep_view() == head_cells);
    assert(data == table_rows.skip(first_data as int));

    let mut widths: Vec<usize> = Vec::new();
    widen(&mut widths, &header);
    proof {
        assert(seq![head_cells].drop_last() == Seq::<Seq<Seq<char>>>::empty());
        assert(as_ints(Seq::<usize>::empty()) =~= Seq::<int>::empty());
        assert(content_widths(Seq::<Seq<Seq<char>>>::empty()) == Seq::<int>::empty());
        assert(seq![head_cells].last() == head_cells);
        assert(as_ints(widths@) == content_widths(seq![head_cells]));
        assert(seq![head_cells] + data.take(0) == seq![head_cells]);
    }
    let mut i: usize = first_data;
    while i < rows.len()
        invariant
            first_data <= i <= rows.len(),
            table_rows == rows.deep_view(),
            data == table_rows.skip(first_data as int),
            as_ints(widths@) == content_widths(seq![head_cells] + data.take(i - first_data)),
        decreases rows.len() - i,
    {
        widen(&mut widths, &rows[i]);
        proof {
            let k = i - first_data;
            let grown = seq![head_cells] + data.take(k + 1);
            assert(grown.drop_last() == seq![head_cells] + data.take(k));
            assert(grown.last() == rows[i as int].deep_view());
        }
        i = i + 1;
    }
    proof {
        assert(data.take(rows.len() - first_data) == data);
    }
    fix_widths(&mut widths, &args.fixed_width);
    proof {
        assert(as_ints(widths@) =~= column_widths(args@.fixed_width, table));
        assert(table[0] == head_cells);
        lemma_table_rows_fit(args@, table, 0);
    }
    let ghost final_widths = as_ints(widths@);
    let head = format_row(args, &widths, &header);
    let rule = rule_under(head.as_str(), args.ascii);
    let ghost body = data.map_values(|row: Seq<Seq<char>>| formatted_row(args@, final_widths, row));
    let full = match args.decoration {
        Decoration::Full => true,
        _ => false,
    };
    let plain = match args.decoration {
        Decoration::Plain => true,
        _ => false,
    };
    if full {
        let top = rule_with_tees(rule.as_str(), '\u{252c}', args.ascii);
        lines.push(
            frame(top.as_str(), glyph_for('\u{250c}', args.ascii), glyph_for('\u{2510}', args.ascii)),
        );
        lines.push(frame(head.as_str(), bar_char(args.ascii), bar_char(args.ascii)));
        lines.push(
            frame(
                rule.as_str(),
                glyph_for('\u{251c}', args.ascii),
                glyph_for('\u{2524}', args.ascii),
            ),
        );
    } else {
        lines.push(head.clone());
        if !plain {
            lines.push(rule.clone());
        }
    }
    let ghost prefix = lines.deep_view();
    let mut i: usize = first_data;
    while i < rows.len()
        invariant
            first_data <= i <= rows.len(),
            table_rows == rows.deep_view(),
            data == table_rows.skip(first_data as int),
            table == seq![head_cells] + data,
            widths_well_formed(args@.fixed_width),
            final_widths == as_ints(widths@),
            final_widths == column_widths(args@.fixed_width, table),
            body == data.map_values(|row: Seq<Seq<char>>| formatted_row(args@, final_widths, row)),
            full == (args.decoration == Decoration::Full),
            lines.deep_view() == prefix + if full {
                body.take(i - first_data).map_values(|line: Seq<char>| boxed(line, args.ascii))
            } else {
                body.take(i - first_data)
            },
        decreases rows.len() - i,
    {
        let ghost k = i - first_data;
        proof {
            lemma_table_rows_fit(args@, table, k + 1);
            assert(table[k + 1] == rows[i as int].deep_view());
        }
        let text = format_row(args, &widths, &rows[i]);
        let ghost before = lines.deep_view();
        if full {
            lines.push(frame(text.as_str(), bar_char(args.ascii), bar_char(args.ascii)));
        } else {
            lines.push(text);
        }
        proof {
            assert(body[k] == formatted_row(args@, final_widths, data[k]));
            assert(body.take(k + 1) == body.take(k).push(body[k]));
            assert(lines.deep_view() =~= before.push(lines[lines.len() - 1]@));
            if full {
                assert(body.take(k + 1).map_values(|line: Seq<char>| boxed(line, args.ascii))
                    =~= body.take(k).map_values(|line: Seq<char>| boxed(line, args.ascii)).push(
                    boxed(body[k], args.ascii),
                ));
            }
        }
        i = i + 1;
    }
    proof {
        assert(body.take(rows.len() - first_data) == body);
    }
    if full {
        let bottom = rule_with_tees(rule.as_str(), '\u{2534}', args.ascii);
        let ghost before = lines.deep_view();
        lines.push(
            frame(
                bottom.as_str(),
                glyph_for('\u{2514}', args.ascii),
                glyph_for('\u{2518}', args.ascii),
            ),
        );
        proof {
            assert(lines.deep_view() =~= before.push(lines[lines.len() - 1]@));
        }
    }
    proof {
        assert(lines.deep_view() =~= displayed(args@, table_rows));
    }
    lines
}

} // verus!
