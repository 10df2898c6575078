//! The option types that steer a run, and their mathematical views.
use vstd::prelude::*;

verus! {

/// How much border is drawn around the table.
#[derive(Clone, Copy, Debug, PartialEq, Eq, Structural)]
pub enum Decoration {
    /// A rule under the header row and nothing else.
    UnderlineHeader,
    /// No rule and no frame.
    Plain,
    /// A frame around the table and a rule under the header row.
    Full,
}

impl Default for Decoration {
    /// A rule under the header is the decoration where none is chosen.
    fn default() -> (r: Self)
        ensures
            r == Decoration::UnderlineHeader,
    {
        Decoration::UnderlineHeader
    }
}

/// How a cell is placed inside its column.
#[derive(Clone, Copy, Debug, PartialEq, Eq, Structural)]
pub enum Alignment {
    Left,
    Right,
    Center,
}

/// The alignment of each visual column and the literal text around the cells:
/// `delimiters[0]` stands before the first cell, `delimiters[i]` between
/// cells `i - 1` and `i`, and the last entry after the last cell.
#[derive(Clone, Debug, PartialEq, Eq)]
pub struct ColumnLayout {
    pub column_align: Vec<Alignment>,
    pub delimiters: Vec<String>,
}

/// A `ColumnLayout` as plain sequences.
pub struct LayoutView {
    pub column_align: Seq<Alignment>,
    pub delimiters: Seq<Seq<char>>,
}

impl View for ColumnLayout {
    type V = LayoutView;

    open spec fn view(&self) -> LayoutView {
        LayoutView { column_align: self.column_align@, delimiters: self.delimiters.deep_view() }
    }
}

impl LayoutView {
    /// There is one more delimiter than there are alignments.
    pub open spec fn well_formed(self) -> bool {
        self.delimiters.len() == self.column_align.len() + 1
    }
}

/// How one output column is derived from a source row. Indices are signed;
/// a negative index counts from the end of the row.
#[derive(Clone, Debug, PartialEq, Eq)]
pub enum ColumnMapping {
    /// One field.
    Index(isize),
    /// The listed fields, joined.
    List(Vec<isize>, String),
    /// The fields from the first bound up to, not including, the second.
    Range(isize, isize, String),
    /// The fields from the bound to the end of the row.
    InfinteRange(isize, String),
    /// The fields from the first bound up to and including the second.
    InclusiveRange(isize, isize, String),
}

/// A `ColumnMapping` as plain values.
pub enum MappingView {
    Index(int),
    List(Seq<int>, Seq<char>),
    Range(int, int, Seq<char>),
    InfinteRange(int, Seq<char>),
    InclusiveRange(int, int, Seq<char>),
}

impl View for ColumnMapping {
    type V = MappingView;

    open spec fn view(&self) -> MappingView {
        match *self {
            ColumnMapping::Index(i) => MappingView::Index(i as int),
            ColumnMapping::List(is, j) => MappingView::List(is@.map_values(|i: isize| i as int), j@),
            ColumnMapping::Range(f, t, j) => MappingView::Range(f as int, t as int, j@),
            ColumnMapping::InfinteRange(f, j) => MappingView::InfinteRange(f as int, j@),
            ColumnMapping::InclusiveRange(f, t, j) => MappingView::InclusiveRange(
                f as int,
                t as int,
                j@,
            ),
        }
    }
}

impl DeepView for ColumnMapping {
    type V = MappingView;

    open spec fn deep_view(&self) -> MappingView {
        self@
    }
}

/// The width of one column: sized to its content, or fixed, with what
/// happens to a cell that is longer.
#[derive(Clone, Copy, Debug, PartialEq, Eq, Structural)]
pub enum WidthSpecifier {
    /// As wide as the widest cell.
    Indeterminate,
    /// Fixed; a longer cell is cut to the width (and may break the layout of
    /// whoever prints it).
    Break(usize),
    /// Fixed; a longer cell is cut to the width.
    Cut(usize),
    /// Fixed; a longer cell is cut and ends in `...`.
    Ellipsis(usize),
}

impl WidthSpecifier {
    /// A fixed width is positive, and at least 3 where an ellipsis must fit.
    pub open spec fn well_formed(self) -> bool {
        match self {
            WidthSpecifier::Indeterminate => true,
            WidthSpecifier::Break(w) => w >= 1,
            WidthSpecifier::Cut(w) => w >= 1,
            WidthSpecifier::Ellipsis(w) => w >= 3,
        }
    }
}

/// One sort key: the column it reads and how it compares.
#[derive(Clone, Copy, Debug, PartialEq, Eq, Structural)]
pub struct SortOrder {
    pub column: isize,
    pub descending: bool,
    pub numeric: bool,
}

/// Why a piece of configuration text was refused.
#[derive(Clone, Copy, Debug, PartialEq, Eq, Structural)]
pub enum ParseError {
    /// A layout holds a character other than `l`, `r`, `c`, space and `|`.
    InvalidCharacter(char),
    /// A layout is empty.
    EmptyLayout,
    /// A piece of a `;`-separated list is no integer.
    InvalidListSyntax,
    /// A column mapping is neither an integer, a list nor a range.
    InvalidColumnSpecifier,
    /// An inclusive range has no end.
    MissingRangeEnd,
    /// A width is not a positive integer followed by `b`, `c` or `e`.
    InvalidWidthSpecifier,
    /// A width that ends in an ellipsis is less than 3.
    EllipsisWidthTooSmall,
    /// A sort key is not an integer followed by `l`, `L`, `n` or `N`.
    InvalidSortKey,
}

/// Everything a run is told.
#[derive(Clone, Debug)]
pub struct Args {
    /// Column headers; without them the first row is the header.
    pub headers: Option<Vec<String>>,
    /// What each output column is made of; without them rows pass unchanged.
    pub columns: Option<Vec<ColumnMapping>>,
    /// Alignment and delimiters.
    pub layout: Option<ColumnLayout>,
    /// Fixed column widths.
    pub fixed_width: Option<Vec<WidthSpecifier>>,
    /// How the table is framed.
    pub decoration: Decoration,
    /// Draw borders with `-`, `|` and `+` only.
    pub ascii: bool,
    /// Sort the rows.
    pub sort: bool,
    /// The sort keys, most significant first.
    pub sort_by: Option<Vec<SortOrder>>,
    /// Sort the output rows, not the input rows.
    pub sort_by_output: bool,
    /// Keep the first row where it is when sorting.
    pub sort_ignore_first: bool,
    /// Drop output rows that occurred before.
    pub unique: bool,
    /// What separates the fields of an input line.
    pub delimiter: String,
    /// Treat a run of delimiters as one.
    pub collapse_delimiters: bool,
    /// The input file; standard input without it.
    pub file: Option<String>,
}

/// `Args` as plain values.
pub struct ArgsView {
    pub headers: Option<Seq<Seq<char>>>,
    pub columns: Option<Seq<MappingView>>,
    pub layout: Option<LayoutView>,
    pub fixed_width: Option<Seq<WidthSpecifier>>,
    pub decoration: Decoration,
    pub ascii: bool,
    pub sort: bool,
    pub sort_by: Option<Seq<SortOrder>>,
    pub sort_by_output: bool,
    pub sort_ignore_first: bool,
    pub unique: bool,
    pub delimiter: Seq<char>,
    pub collapse_delimiters: bool,
    pub file: Option<Seq<char>>,
}

/// An optional vector as an optional sequence.
pub open spec fn optional_view<T>(v: Option<Vec<T>>) -> Option<Seq<T>> {
    match v {
        Some(items) => Some(items@),
        None => None,
    }
}

impl View for Args {
    type V = ArgsView;

    open spec fn view(&self) -> ArgsView {
        ArgsView {
            headers: self.headers.deep_view(),
            columns: self.columns.deep_view(),
            layout: match self.layout {
                Some(l) => Some(l@),
                None => None,
            },
            fixed_width: optional_view(self.fixed_width),
            decoration: self.decoration,
            ascii: self.ascii,
            sort: self.sort,
            sort_by: optional_view(self.sort_by),
            sort_by_output: self.sort_by_output,
            sort_ignore_first: self.sort_ignore_first,
            unique: self.unique,
            delimiter: self.delimiter@,
            collapse_delimiters: self.collapse_delimiters,
            file: self.file.deep_view(),
        }
    }
}

} // verus!
