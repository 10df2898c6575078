//! The four small languages in which options are written, and their
//! parsers.
use crate::arguments::{
    Alignment, ColumnLayout, Decoration, ColumnMapping, LayoutView, MappingView, ParseError, SortOrder,
    WidthSpecifier,
};
use crate::number::{
    integer_text, is_digit, is_integer_char, isize_literal, lemma_integer_text_round_trip,
    lemma_not_an_integer, parse_isize, parse_usize, usize_literal,
};
use crate::pattern::{capture_groups, regex_captures};
use crate::process::joiner;
use crate::text::{chars_of, joined, text_of};
use vstd::prelude::*;
use vstd::std_specs::iter::IteratorSpec;
use vstd::string::*;

verus! {

/// The first character of `s` that is not among `allowed`.
pub open spec fn first_outside(s: Seq<char>, allowed: Seq<char>) -> Option<char>
    decreases s.len(),
{
    if s.len() == 0 {
        None
    } else if !allowed.contains(s[0]) {
        Some(s[0])
    } else {
        first_outside(s.skip(1), allowed)
    }
}

/// The pieces of `s` between its separators. There is one piece more than
/// there are separators; a piece may be empty.
pub open spec fn split_at(s: Seq<char>, is_separator: spec_fn(char) -> bool) -> Seq<Seq<char>>
    decreases s.len(),
{
    if s.len() == 0 {
        seq![Seq::empty()]
    } else {
        let before = split_at(s.drop_last(), is_separator);
        if is_separator(s.last()) {
            before.push(Seq::empty())
        } else {
            before.drop_last().push(before.last().push(s.last()))
        }
    }
}

/// Whether `c` names an alignment.
pub open spec fn is_alignment_letter(c: char) -> bool {
    c == 'l' || c == 'r' || c == 'c'
}

/// The alignment that a letter names.
pub open spec fn alignment_of(c: char) -> Alignment {
    if c == 'l' {
        Alignment::Left
    } else if c == 'r' {
        Alignment::Right
    } else {
        Alignment::Center
    }
}

/// The characters a layout is written in.
pub open spec fn layout_alphabet() -> Seq<char> {
    seq!['l', 'r', 'c', ' ', '|']
}

/// The alignments that the letters of a layout name, in order.
pub open spec fn layout_alignments(s: Seq<char>) -> Seq<Alignment>
    decreases s.len(),
{
    if s.len() == 0 {
        Seq::empty()
    } else if is_alignment_letter(s.last()) {
        layout_alignments(s.drop_last()).push(alignment_of(s.last()))
    } else {
        layout_alignments(s.drop_last())
    }
}

/// The delimiters of a layout: the text before, between and after its
/// letters.
pub open spec fn layout_delimiters(s: Seq<char>) -> Seq<Seq<char>> {
    split_at(s, |c: char| is_alignment_letter(c))
}

/// What reading a layout gave, the layout taken by its view.
pub open spec fn layout_outcome(r: Result<ColumnLayout, ParseError>) -> Result<
    LayoutView,
    ParseError,
> {
    match r {
        Ok(layout) => Ok(layout@),
        Err(e) => Err(e),
    }
}

/// What reading a mapping gave, the mapping taken by its view.
pub open spec fn mapping_outcome(r: Result<ColumnMapping, ParseError>) -> Result<
    MappingView,
    ParseError,
> {
    match r {
        Ok(m) => Ok(m@),
        Err(e) => Err(e),
    }
}

/// What a layout string means: an error if it is empty or holds a character
/// outside the alphabet, the first such character being named; else its
/// alignments and delimiters.
pub open spec fn parsed_layout(s: Seq<char>) -> Result<LayoutView, ParseError> {
    if s.len() == 0 {
        Err(ParseError::EmptyLayout)
    } else {
        match first_outside(s, layout_alphabet()) {
            Some(c) => Err(ParseError::InvalidCharacter(c)),
            None => Ok(
                LayoutView { column_align: layout_alignments(s), delimiters: layout_delimiters(s) },
            ),
        }
    }
}

/// What a width string means. The empty string sizes to content. Otherwise
/// all but the last character must denote a positive `usize`, and the last
/// is the overflow rule: `b`, `c`, or `e`, which needs a width of 3 or more.
pub open spec fn parsed_width(s: Seq<char>) -> Result<WidthSpecifier, ParseError> {
    if s.len() == 0 {
        Ok(WidthSpecifier::Indeterminate)
    } else if s.len() < 2 {
        Err(ParseError::InvalidWidthSpecifier)
    } else {
        match usize_literal(s.drop_last()) {
            None => Err(ParseError::InvalidWidthSpecifier),
            Some(n) => if n == 0 {
                Err(ParseError::InvalidWidthSpecifier)
            } else if s.last() == 'b' {
                Ok(WidthSpecifier::Break(n as usize))
            } else if s.last() == 'c' {
                Ok(WidthSpecifier::Cut(n as usize))
            } else if s.last() == 'e' {
                if n >= 3 {
                    Ok(WidthSpecifier::Ellipsis(n as usize))
                } else {
                    Err(ParseError::EllipsisWidthTooSmall)
                }
            } else {
                Err(ParseError::InvalidWidthSpecifier)
            },
        }
    }
}

/// What a sort key string means: all but the last character must denote an
/// `isize`, the column; the last says how to compare: `l` and `L` by
/// characters, `n` and `N` by number, the capital letters descending.
pub open spec fn parsed_sort_key(s: Seq<char>) -> Result<SortOrder, ParseError> {
    if s.len() < 2 {
        Err(ParseError::InvalidSortKey)
    } else {
        match isize_literal(s.drop_last()) {
            None => Err(ParseError::InvalidSortKey),
            Some(n) => if s.last() == 'l' {
                Ok(SortOrder { column: n as isize, descending: false, numeric: false })
            } else if s.last() == 'L' {
                Ok(SortOrder { column: n as isize, descending: true, numeric: false })
            } else if s.last() == 'n' {
                Ok(SortOrder { column: n as isize, descending: false, numeric: true })
            } else if s.last() == 'N' {
                Ok(SortOrder { column: n as isize, descending: true, numeric: true })
            } else {
                Err(ParseError::InvalidSortKey)
            },
        }
    }
}

/// The regular expression of a range: an integer, `..` or `..=`, and
/// perhaps an integer.
pub const RANGE_PATTERN: &'static str = "^([+-]?\\d+)(\\.\\.=?)([+-]?\\d+)?$";

/// Where `c` first occurs in `s`.
pub open spec fn position_of(s: Seq<char>, c: char) -> Option<int>
    decreases s.len(),
{
    if s.len() == 0 {
        None
    } else if s[0] == c {
        Some(0)
    } else {
        match position_of(s.skip(1), c) {
            Some(i) => Some(i + 1),
            None => None,
        }
    }
}

/// What stands before the first `>` of a mapping: all of it where there is
/// no `>`.
pub open spec fn mapping_body(s: Seq<char>) -> Seq<char> {
    match position_of(s, '>') {
        Some(i) => s.take(i),
        None => s,
    }
}

/// What stands after the first `>` of a mapping: a single space where there
/// is no `>`.
pub open spec fn mapping_joiner(s: Seq<char>) -> Seq<char> {
    match position_of(s, '>') {
        Some(i) => s.skip(i + 1),
        None => seq![' '],
    }
}

/// The pieces of a `;`-separated list.
pub open spec fn list_pieces(body: Seq<char>) -> Seq<Seq<char>> {
    split_at(body, |c: char| c == ';')
}

/// The indices that a `;`-separated list holds, if every piece denotes an
/// `isize`.
pub open spec fn listed_indices(body: Seq<char>) -> Option<Seq<int>> {
    let pieces = list_pieces(body);
    if forall|k: int| 0 <= k < pieces.len() ==> isize_literal(#[trigger] pieces[k]) is Some {
        Some(pieces.map_values(|p: Seq<char>| isize_literal(p)->0))
    } else {
        None
    }
}

/// The text `..=`.
pub open spec fn inclusive_operator() -> Seq<char> {
    seq!['.', '.', '=']
}

/// The mapping that the capture groups of a range stand for. Group 1 is
/// the start, group 2 the operator and group 3, if it took part, the end.
/// No match is no column specifier, and so is a bound that is no `isize`.
/// An inclusive range needs its end; an exclusive one without end runs to
/// the end of the row.
pub open spec fn range_of_captures(groups: Option<Seq<Option<Seq<char>>>>, joiner: Seq<char>) -> Result<
    MappingView,
    ParseError,
> {
    match groups {
        None => Err(ParseError::InvalidColumnSpecifier),
        Some(g) => if g.len() != 4 || g[1] is None || g[2] is None {
            Err(ParseError::InvalidColumnSpecifier)
        } else {
            let inclusive = g[2]->0 == inclusive_operator();
            match isize_literal(g[1]->0) {
                None => Err(ParseError::InvalidColumnSpecifier),
                Some(from) => match g[3] {
                    None => if inclusive {
                        Err(ParseError::MissingRangeEnd)
                    } else {
                        Ok(MappingView::InfinteRange(from, joiner))
                    },
                    Some(end) => match isize_literal(end) {
                        None => Err(ParseError::InvalidColumnSpecifier),
                        Some(to) => if inclusive {
                            Ok(MappingView::InclusiveRange(from, to, joiner))
                        } else {
                            Ok(MappingView::Range(from, to, joiner))
                        },
                    },
                },
            }
        },
    }
}

/// What a column mapping string means. An integer is an index. Otherwise
/// the text after the first `>` is the joiner, and the text before it is a
/// list if it holds a `;`, else whatever the range pattern captures in it.
pub open spec fn parsed_mapping(s: Seq<char>) -> Result<MappingView, ParseError> {
    match isize_literal(s) {
        Some(i) => Ok(MappingView::Index(i)),
        None => {
            let body = mapping_body(s);
            let joiner = mapping_joiner(s);
            if body.contains(';') {
                match listed_indices(body) {
                    Some(indices) => Ok(MappingView::List(indices, joiner)),
                    None => Err(ParseError::InvalidListSyntax),
                }
            } else {
                range_of_captures(regex_captures(RANGE_PATTERN@, body), joiner)
            }
        },
    }
}

/// Whether every character of `s` is among `allowed`; the first that is
/// not, otherwise.
pub fn contains_only_valid(s: &str, chars: Vec<char>) -> (r: Result<(), char>)
    ensures
        r == match first_outside(s@, chars@) {
            Some(c) => Err::<(), char>(c),
            None => Ok::<(), char>(()),
        },
{
    let mut it = s.chars();
    loop
        invariant
            it.obeys_prophetic_iter_laws(),
            it.decrease() is Some,
            first_outside(it.remaining(), chars@) == first_outside(s@, chars@),
        decreases it.decrease()->0,
    {
        match it.next() {
            Some(c) => {
                if !is_one_of(&chars, c) {
                    return Err(c);
                }
            },
            None => {
                return Ok(());
            },
        }
    }
}

/// Whether `c` is among `chars`.
fn is_one_of(chars: &Vec<char>, c: char) -> (r: bool)
    ensures
        r == chars@.contains(c),
{
    let mut i: usize = 0;
    while i < chars.len()
        invariant
            i <= chars.len(),
            forall|k: int| 0 <= k < i ==> chars[k] != c,
        decreases chars.len() - i,
    {
        if chars[i] == c {
            return true;
        }
        i = i + 1;
    }
    false
}

impl Alignment {
    /// The alignment that the letter `c` names.
    pub fn from_chr(c: char) -> (r: Self)
        requires
            is_alignment_letter(c),
        ensures
            r == alignment_of(c),
    {
        if c == 'l' {
            Alignment::Left
        } else if c == 'r' {
            Alignment::Right
        } else {
            Alignment::Center
        }
    }
}

/// There is always a piece, and one more than there are alignment letters.
pub proof fn lemma_layout_counts(s: Seq<char>)
    ensures
        layout_delimiters(s).len() == layout_alignments(s).len() + 1,
    decreases s.len(),
{
    if s.len() > 0 {
        lemma_layout_counts(s.drop_last());
    }
}

impl ColumnLayout {
    /// Reads a layout such as `l || r `.
    pub fn from_str(s: &str) -> (r: Result<ColumnLayout, ParseError>)
        ensures
            layout_outcome(r) == parsed_layout(s@),
            r matches Ok(layout) ==> layout@.well_formed(),
    {
        let chars = chars_of(s);
        if chars.len() == 0 {
            return Err(ParseError::EmptyLayout);
        }
        let valid_chars = vec!['l', 'r', 'c', ' ', '|'];
        proof {
            assert(valid_chars@ =~= layout_alphabet());
        }
        match contains_only_valid(s, valid_chars) {
            Err(c) => {
                return Err(ParseError::InvalidCharacter(c));
            },
            Ok(()) => {},
        }
        let ghost is_letter = |c: char| is_alignment_letter(c);
        let mut column_align: Vec<Alignment> = Vec::new();
        let mut delimiters: Vec<String> = Vec::new();
        let mut current = String::new();
        let mut i: usize = 0;
        proof {
            assert(s@.take(0) == Seq::<char>::empty());
            assert(delimiters.deep_view().push(current@) =~= split_at(s@.take(0), is_letter));
        }
        while i < chars.len()
            invariant
                i <= chars.len(),
                chars@ == s@,
                is_letter == |c: char| is_alignment_letter(c),
                column_align@ == layout_alignments(s@.take(i as int)),
                delimiters.deep_view().push(current@) == split_at(s@.take(i as int), is_letter),
            decreases chars.len() - i,
        {
            let c = chars[i];
            let ghost before = delimiters.deep_view();
            let ghost piece = current@;
            proof {
                assert(s@.take(i + 1).drop_last() == s@.take(i as int));
                assert(s@.take(i + 1).last() == c);
                assert(before.push(piece).drop_last() == before);
            }
            if c == 'l' || c == 'r' || c == 'c' {
                column_align.push(Alignment::from_chr(c));
                delimiters.push(current);
                current = String::new();
                proof {
                    assert(delimiters.deep_view() =~= before.push(piece));
                }
            } else {
                current.push(c);
            }
            i = i + 1;
        }
        let ghost before = delimiters.deep_view();
        delimiters.push(current);
        proof {
            assert(s@.take(chars.len() as int) == s@);
            assert(delimiters.deep_view() =~= before.push(current@));
            lemma_layout_counts(s@);
        }
        Ok(ColumnLayout { column_align, delimiters })
    }
}

/// Where `c` first occurs in `chars[..end]`.
fn find(chars: &Vec<char>, c: char, end: usize) -> (r: Option<usize>)
    requires
        end <= chars.len(),
    ensures
        match r {
            Some(i) => position_of(chars@.take(end as int), c) == Some(i as int) && i < end
                && chars@.take(end as int).contains(c),
            None => position_of(chars@.take(end as int), c) is None && !chars@.take(
                end as int,
            ).contains(c),
        },
{
    let ghost s = chars@.take(end as int);
    let mut i: usize = 0;
    while i < end
        invariant
            i <= end <= chars.len(),
            s == chars@.take(end as int),
            forall|k: int| 0 <= k < i ==> s[k] != c,
        decreases end - i,
    {
        if chars[i] == c {
            proof {
                assert(s[i as int] == c);
                lemma_position_of(s, c, i as int);
            }
            return Some(i);
        }
        i = i + 1;
    }
    proof {
        lemma_position_of(s, c, end as int);
    }
    None
}

/// The first occurrence is the one before which there is none.
pub proof fn lemma_position_of(s: Seq<char>, c: char, i: int)
    requires
        0 <= i <= s.len(),
        forall|k: int| 0 <= k < i ==> s[k] != c,
        i < s.len() ==> s[i] == c,
    ensures
        position_of(s, c) == if i < s.len() {
            Some(i)
        } else {
            None
        },
    decreases i,
{
    if i > 0 {
        let rest = s.skip(1);
        assert forall|k: int| 0 <= k < i - 1 implies rest[k] != c by {
            assert(rest[k] == s[k + 1]);
        }
        lemma_position_of(rest, c, i - 1);
    }
}

/// The indices of the `;`-separated list `chars[..end]`.
fn parse_list(chars: &Vec<char>, end: usize) -> (r: Option<Vec<isize>>)
    requires
        end <= chars.len(),
    ensures
        match r {
            Some(v) => listed_indices(chars@.take(end as int)) == Some(
                v@.map_values(|i: isize| i as int),
            ),
            None => listed_indices(chars@.take(end as int)) is None,
        },
{
    let ghost body = chars@.take(end as int);
    let ghost is_semicolon = |c: char| c == ';';
    let mut values: Vec<isize> = Vec::new();
    let mut failed = false;
    let mut start: usize = 0;
    let mut i: usize = 0;
    proof {
        assert(body.take(0) == Seq::<char>::empty());
        assert(body.subrange(0, 0) == Seq::<char>::empty());
    }
    while i < end
        invariant
            start <= i <= end <= chars.len(),
            body == chars@.take(end as int),
            is_semicolon == |c: char| c == ';',
            split_at(body.take(i as int), is_semicolon).len() >= 1,
            split_at(body.take(i as int), is_semicolon).last() == body.subrange(
                start as int,
                i as int,
            ),
            failed ==> exists|k: int|
                0 <= k < split_at(body.take(i as int), is_semicolon).len() - 1 && isize_literal(
                    #[trigger] split_at(body.take(i as int), is_semicolon)[k],
                ) is None,
            !failed ==> values.len() == split_at(body.take(i as int), is_semicolon).len() - 1,
            !failed ==> forall|k: int|
                0 <= k < values.len() ==> isize_literal(
                    #[trigger] split_at(body.take(i as int), is_semicolon)[k],
                ) == Some(values[k] as int),
        decreases end - i,
    {
        let ghost done = split_at(body.take(i as int), is_semicolon);
        let ghost grown = split_at(body.take(i + 1), is_semicolon);
        proof {
            assert(body.take(i + 1).drop_last() == body.take(i as int));
            assert(body.take(i + 1).last() == chars[i as int]);
            assert(body.subrange(start as int, i as int).push(chars[i as int]) == body.subrange(
                start as int,
                i + 1,
            ));
            assert(body.subrange(i + 1, i + 1) == Seq::<char>::empty());
            assert(forall|k: int| 0 <= k < done.len() - 1 ==> grown[k] == done[k]);
            if failed {
                let k = choose|k: int| 0 <= k < done.len() - 1 && isize_literal(#[trigger] done[k]) is None;
                assert(isize_literal(grown[k]) is None);
            }
        }
        if chars[i] == ';' {
            proof {
                assert(chars@.subrange(start as int, i as int) == body.subrange(
                    start as int,
                    i as int,
                ));
                assert(grown[done.len() - 1] == done.last());
            }
            if !failed {
                match parse_isize(chars, start, i) {
                    Some(v) => {
                        values.push(v);
                    },
                    None => {
                        failed = true;
                        proof {
                            assert(isize_literal(grown[done.len() - 1]) is None);
                        }
                    },
                }
            }
            start = i + 1;
        }
        i = i + 1;
    }
    let ghost pieces = split_at(body, is_semicolon);
    proof {
        assert(body.take(end as int) == body);
        assert(chars@.subrange(start as int, end as int) == body.subrange(
            start as int,
            end as int,
        ));
    }
    if failed {
        return None;
    }
    match parse_isize(chars, start, end) {
        Some(v) => {
            values.push(v);
            proof {
                assert forall|k: int| 0 <= k < pieces.len() implies isize_literal(
                    #[trigger] pieces[k],
                ) is Some by {
                    if k == pieces.len() - 1 {
                        assert(pieces[k] == pieces.last());
                    }
                }
                assert(values@.map_values(|i: isize| i as int) =~= pieces.map_values(
                    |p: Seq<char>| isize_literal(p)->0,
                ));
            }
            Some(values)
        },
        None => {
            proof {
                assert(isize_literal(pieces[pieces.len() - 1]) is None);
            }
            None
        },
    }
}

/// Whether `s` is `..=`.
fn is_inclusive_operator(s: &str) -> (r: bool)
    ensures
        r == (s@ == inclusive_operator()),
{
    let chars = chars_of(s);
    let r = chars.len() == 3 && chars[0] == '.' && chars[1] == '.' && chars[2] == '=';
    proof {
        if r {
            assert(s@ =~= inclusive_operator());
        }
    }
    r
}

/// Reads `s` as an `isize`.
fn parse_index(s: &str) -> (r: Option<isize>)
    ensures
        r == match isize_literal(s@) {
            Some(v) => Some(v as isize),
            None => None::<isize>,
        },
{
    let chars = chars_of(s);
    proof {
        assert(chars@.subrange(0, chars.len() as int) == s@);
    }
    parse_isize(&chars, 0, chars.len())
}

impl ColumnMapping {
    /// The range mapping that capture groups stand for: group 1 the start,
    /// group 2 the operator, group 3 the end.
    pub fn from_range_captures(groups: &Option<Vec<Option<String>>>, joiner: String) -> (r: Result<
        ColumnMapping,
        ParseError,
    >)
        ensures
            mapping_outcome(r) == range_of_captures(groups.deep_view(), joiner@),
    {
        let g = match groups {
            Some(g) => g,
            None => {
                return Err(ParseError::InvalidColumnSpecifier);
            },
        };
        proof {
            assert(groups.deep_view()->0 == g.deep_view());
            assert(g.deep_view().len() == g.len());
        }
        if g.len() != 4 {
            return Err(ParseError::InvalidColumnSpecifier);
        }
        proof {
            assert(g.deep_view()[1] == g[1].deep_view());
            assert(g.deep_view()[2] == g[2].deep_view());
            assert(g.deep_view()[3] == g[3].deep_view());
        }
        let (start, operator) = match (&g[1], &g[2]) {
            (Some(start), Some(operator)) => (start, operator),
            _ => {
                return Err(ParseError::InvalidColumnSpecifier);
            },
        };
        let inclusive = is_inclusive_operator(operator.as_str());
        let from = match parse_index(start.as_str()) {
            Some(from) => from,
            None => {
                return Err(ParseError::InvalidColumnSpecifier);
            },
        };
        match &g[3] {
            None => {
                if inclusive {
                    Err(ParseError::MissingRangeEnd)
                } else {
                    Ok(ColumnMapping::InfinteRange(from, joiner))
                }
            },
            Some(end) => {
                match parse_index(end.as_str()) {
                    None => Err(ParseError::InvalidColumnSpecifier),
                    Some(to) => {
                        if inclusive {
                            Ok(ColumnMapping::InclusiveRange(from, to, joiner))
                        } else {
                            Ok(ColumnMapping::Range(from, to, joiner))
                        }
                    },
                }
            },
        }
    }

    /// Reads a column mapping such as `3`, `1;0;-1>, ` or `2..=5`.
    pub fn from_str(s: &str) -> (r: Result<ColumnMapping, ParseError>)
        ensures
            mapping_outcome(r) == parsed_mapping(s@),
    {
        let chars = chars_of(s);
        let len = chars.len();
        proof {
            assert(chars@.subrange(0, len as int) == s@);
        }
        if let Some(v) = parse_isize(&chars, 0, len) {
            return Ok(ColumnMapping::Index(v));
        }
        proof {
            assert(chars@.take(len as int) == s@);
        }
        let (body_end, joiner) = match find(&chars, '>', len) {
            Some(i) => (i, text_of(&chars, i + 1, len)),
            None => {
                proof {
                    reveal_strlit(" ");
                    assert(" "@ =~= seq![' ']);
                    assert(s@.take(len as int) == s@);
                }
                (len, String::from_str(" "))
            },
        };
        proof {
            assert(chars@.take(body_end as int) == mapping_body(s@));
            assert(joiner@ == mapping_joiner(s@));
        }
        if find(&chars, ';', body_end).is_some() {
            match parse_list(&chars, body_end) {
                Some(indices) => Ok(ColumnMapping::List(indices, joiner)),
                None => Err(ParseError::InvalidListSyntax),
            }
        } else {
            let body = text_of(&chars, 0, body_end);
            proof {
                assert(body@ == chars@.take(body_end as int));
            }
            let groups = capture_groups(RANGE_PATTERN, body.as_str());
            ColumnMapping::from_range_captures(&groups, joiner)
        }
    }
}

impl WidthSpecifier {
    /// Whether the width is well formed.
    pub fn is_well_formed(&self) -> (r: bool)
        ensures
            r == self.well_formed(),
    {
        match self {
            WidthSpecifier::Indeterminate => true,
            WidthSpecifier::Break(w) => *w >= 1,
            WidthSpecifier::Cut(w) => *w >= 1,
            WidthSpecifier::Ellipsis(w) => *w >= 3,
        }
    }

    /// Reads a width such as `10b`, `3e` or the empty string.
    pub fn from_str(s: &str) -> (r: Result<WidthSpecifier, ParseError>)
        ensures
            r == parsed_width(s@),
            r matches Ok(w) ==> w.well_formed(),
    {
        let chars = chars_of(s);
        let len = chars.len();
        if len == 0 {
            return Ok(WidthSpecifier::Indeterminate);
        }
        if len < 2 {
            return Err(ParseError::InvalidWidthSpecifier);
        }
        proof {
            assert(chars@.subrange(0, len - 1) == s@.drop_last());
        }
        let n = match parse_usize(&chars, 0, len - 1) {
            Some(n) => n,
            None => {
                return Err(ParseError::InvalidWidthSpecifier);
            },
        };
        if n == 0 {
            return Err(ParseError::InvalidWidthSpecifier);
        }
        let suffix = chars[len - 1];
        if suffix == 'b' {
            Ok(WidthSpecifier::Break(n))
        } else if suffix == 'c' {
            Ok(WidthSpecifier::Cut(n))
        } else if suffix == 'e' {
            if n >= 3 {
                Ok(WidthSpecifier::Ellipsis(n))
            } else {
                Err(ParseError::EllipsisWidthTooSmall)
            }
        } else {
            Err(ParseError::InvalidWidthSpecifier)
        }
    }
}

impl SortOrder {
    /// Reads a sort key such as `2n` or `-1L`.
    pub fn from_str(s: &str) -> (r: Result<SortOrder, ParseError>)
        ensures
            r == parsed_sort_key(s@),
    {
        let chars = chars_of(s);
        let len = chars.len();
        if len < 2 {
            return Err(ParseError::InvalidSortKey);
        }
        proof {
            assert(chars@.subrange(0, len - 1) == s@.drop_last());
        }
        let n = match parse_isize(&chars, 0, len - 1) {
            Some(n) => n,
            None => {
                return Err(ParseError::InvalidSortKey);
            },
        };
        let suffix = chars[len - 1];
        if suffix == 'l' {
            Ok(SortOrder { column: n, descending: false, numeric: false })
        } else if suffix == 'L' {
            Ok(SortOrder { column: n, descending: true, numeric: false })
        } else if suffix == 'n' {
            Ok(SortOrder { column: n, descending: false, numeric: true })
        } else if suffix == 'N' {
            Ok(SortOrder { column: n, descending: true, numeric: true })
        } else {
            Err(ParseError::InvalidSortKey)
        }
    }
}

impl Decoration {
    /// The name of the decoration.
    pub open spec fn name(self) -> Seq<char> {
        match self {
            Decoration::UnderlineHeader => "underline-header"@,
            Decoration::Plain => "none"@,
            Decoration::Full => "full"@,
        }
    }

    /// The name of the decoration, as it is written in options.
    pub fn to_string(&self) -> (r: String)
        ensures
            r@ == self.name(),
    {
        match self {
            Decoration::UnderlineHeader => String::from_str("underline-header"),
            Decoration::Plain => String::from_str("none"),
            Decoration::Full => String::from_str("full"),
        }
    }
}

impl ParseError {
    /// What the error says.
    pub open spec fn message(self) -> Seq<char> {
        match self {
            ParseError::InvalidCharacter(c) => "Invalid character: "@.push(c),
            ParseError::EmptyLayout => "May not be empty"@,
            ParseError::InvalidListSyntax => "Failed to parse list"@,
            ParseError::InvalidColumnSpecifier => "Invalid column specifier"@,
            ParseError::MissingRangeEnd => "Missing end of inclusive Range"@,
            ParseError::InvalidWidthSpecifier => "Invalid width specifier"@,
            ParseError::EllipsisWidthTooSmall => "Ellipsis requires a minimum width of 3"@,
            ParseError::InvalidSortKey => "Failed to parse SortOrder"@,
        }
    }

    /// What the error says.
    pub fn to_string(&self) -> (r: String)
        ensures
            r@ == self.message(),
    {
        match self {
            ParseError::InvalidCharacter(c) => {
                let mut r = String::from_str("Invalid character: ");
                r.push(*c);
                r
            },
            ParseError::EmptyLayout => String::from_str("May not be empty"),
            ParseError::InvalidListSyntax => String::from_str("Failed to parse list"),
            ParseError::InvalidColumnSpecifier => String::from_str("Invalid column specifier"),
            ParseError::MissingRangeEnd => String::from_str("Missing end of inclusive Range"),
            ParseError::InvalidWidthSpecifier => String::from_str("Invalid width specifier"),
            ParseError::EllipsisWidthTooSmall => String::from_str(
                "Ellipsis requires a minimum width of 3",
            ),
            ParseError::InvalidSortKey => String::from_str("Failed to parse SortOrder"),
        }
    }
}

/// Whether `i` is an `isize`.
pub open spec fn fits_isize(i: int) -> bool {
    isize::MIN <= i <= isize::MAX
}

/// The text `..`.
pub open spec fn exclusive_operator() -> Seq<char> {
    seq!['.', '.']
}

/// What stands before the `>` in the canonical text of a mapping.
pub open spec fn mapping_text_body(m: MappingView) -> Seq<char> {
    match m {
        MappingView::Index(i) => integer_text(i),
        MappingView::List(indices, _) => list_text(indices),
        MappingView::Range(from, to, _) => integer_text(from) + exclusive_operator()
            + integer_text(to),
        MappingView::InfinteRange(from, _) => integer_text(from) + exclusive_operator(),
        MappingView::InclusiveRange(from, to, _) => integer_text(from) + inclusive_operator()
            + integer_text(to),
    }
}

/// The canonical text of a mapping: an index is written as its integer;
/// the others as their body, a `>` and their joiner.
pub open spec fn mapping_text(m: MappingView) -> Seq<char> {
    match m {
        MappingView::Index(i) => integer_text(i),
        _ => mapping_text_body(m) + seq!['>'] + joiner(m),
    }
}

/// Text with a character other than a digit behind its first denotes no
/// `isize`.
proof fn lemma_no_isize(s: Seq<char>, k: int)
    requires
        1 <= k < s.len(),
        !is_digit(s[k]),
    ensures
        isize_literal(s) is None,
{
    lemma_not_an_integer(s, k, true);
}

/// What `integer_text` writes denotes the `isize` it was written for.
proof fn lemma_isize_text(i: int)
    requires
        fits_isize(i),
    ensures
        isize_literal(integer_text(i)) == Some(i),
{
    lemma_integer_text_round_trip(i);
}

/// Appending text without separators lengthens the last piece.
proof fn lemma_split_append(a: Seq<char>, b: Seq<char>, is_separator: spec_fn(char) -> bool)
    requires
        forall|k: int| 0 <= k < b.len() ==> !is_separator(#[trigger] b[k]),
    ensures
        split_at(a, is_separator).len() >= 1,
        split_at(a + b, is_separator) == split_at(a, is_separator).drop_last().push(
            split_at(a, is_separator).last() + b,
        ),
    decreases b.len(),
{
    lemma_split_has_pieces(a, is_separator);
    let pieces = split_at(a, is_separator);
    if b.len() == 0 {
        assert(a + b == a);
        assert(pieces.last() + b == pieces.last());
        assert(pieces.drop_last().push(pieces.last()) == pieces);
    } else {
        let shorter = b.drop_last();
        assert forall|k: int| 0 <= k < shorter.len() implies !is_separator(
            #[trigger] shorter[k],
        ) by {
            assert(shorter[k] == b[k]);
        }
        lemma_split_append(a, shorter, is_separator);
        assert((a + b).drop_last() == a + shorter);
        assert((a + b).last() == b.last());
        assert(!is_separator(b[b.len() - 1]));
        assert((pieces.last() + shorter).push(b.last()) == pieces.last() + b);
        let before = split_at(a + shorter, is_separator);
        assert(before.drop_last() == pieces.drop_last());
    }
}

/// Splitting always gives a piece.
proof fn lemma_split_has_pieces(s: Seq<char>, is_separator: spec_fn(char) -> bool)
    ensures
        split_at(s, is_separator).len() >= 1,
    decreases s.len(),
{
    if s.len() > 0 {
        lemma_split_has_pieces(s.drop_last(), is_separator);
    }
}

/// Integers written with `;` between them.
pub open spec fn list_text(indices: Seq<int>) -> Seq<char> {
    joined(indices.map_values(|i: int| integer_text(i)), seq![';'])
}

/// Integers joined by `;` hold nothing but digits, `-` and `;`, and split
/// at `;` into the integers again.
proof fn lemma_list_text(indices: Seq<int>)
    requires
        indices.len() >= 1,
    ensures
        list_pieces(list_text(indices)) == indices.map_values(|i: int| integer_text(i)),
        forall|k: int|
            0 <= k < list_text(indices).len() ==> is_integer_char(#[trigger] list_text(indices)[k])
                || list_text(indices)[k] == ';',
        list_text(indices).len() >= 1,
        indices.len() >= 2 ==> exists|k: int|
            1 <= k < list_text(indices).len() && #[trigger] list_text(indices)[k] == ';',
    decreases indices.len(),
{
    let is_semicolon = |c: char| c == ';';
    let texts = indices.map_values(|i: int| integer_text(i));
    let text = joined(texts, seq![';']);
    let last = texts.last();
    lemma_integer_text_round_trip(indices.last());
    assert(last == integer_text(indices.last()));
    assert forall|k: int| 0 <= k < last.len() implies !is_semicolon(#[trigger] last[k]) by {
        assert(is_integer_char(last[k]));
    }
    if indices.len() == 1 {
        assert(text == last);
        assert forall|k: int| 0 <= k < text.len() implies is_integer_char(
            #[trigger] list_text(indices)[k],
        ) || list_text(indices)[k] == ';' by {
            assert(is_integer_char(last[k]));
        }
        lemma_split_append(Seq::empty(), last, is_semicolon);
        assert(Seq::<char>::empty() + last == last);
        assert(split_at(Seq::empty(), is_semicolon) == seq![Seq::<char>::empty()]);
        assert(split_at(text, is_semicolon) =~= texts);
    } else {
        let shorter = indices.drop_last();
        let head = list_text(shorter);
        lemma_list_text(shorter);
        assert(texts.drop_last() == shorter.map_values(|i: int| integer_text(i)));
        assert(text == head + seq![';'] + last);
        let marked = head.push(';');
        assert(head + seq![';'] == marked);
        assert(marked.drop_last() == head);
        assert(split_at(marked, is_semicolon) == texts.drop_last().push(Seq::empty()));
        lemma_split_append(marked, last, is_semicolon);
        assert(Seq::<char>::empty() + last == last);
        assert(texts.drop_last().push(Seq::<char>::empty()).drop_last() == texts.drop_last());
        assert(split_at(text, is_semicolon) =~= texts);
        assert(list_text(indices)[head.len() as int] == ';');
        assert forall|k: int| 0 <= k < text.len() implies is_integer_char(
            #[trigger] list_text(indices)[k],
        ) || list_text(indices)[k] == ';' by {
            if k < head.len() {
                assert(text[k] == list_text(shorter)[k]);
            } else if k > head.len() {
                assert(text[k] == last[k - head.len() - 1]);
                assert(is_integer_char(last[k - head.len() - 1]));
            }
        }
    }
}

/// An index written as an integer reads as that index.
pub proof fn lemma_index_text_round_trip(i: int)
    requires
        fits_isize(i),
    ensures
        parsed_mapping(mapping_text(MappingView::Index(i))) == Ok::<MappingView, ParseError>(
            MappingView::Index(i),
        ),
{
    lemma_isize_text(i);
}

/// The canonical text of a mapping that is no index splits at its `>` into
/// body and joiner, and is no integer, if its body is an integer character
/// followed by at least one character that is neither a digit nor a `>`,
/// and other characters that are no `>`.
proof fn lemma_text_splits(body: Seq<char>, joiner: Seq<char>, k: int)
    requires
        1 <= k < body.len(),
        !is_digit(body[k]),
        forall|i: int| 0 <= i < body.len() ==> #[trigger] body[i] != '>',
    ensures
        isize_literal(body + seq!['>'] + joiner) is None,
        mapping_body(body + seq!['>'] + joiner) == body,
        mapping_joiner(body + seq!['>'] + joiner) == joiner,
{
    let text = body + seq!['>'] + joiner;
    assert(text[k] == body[k]);
    lemma_no_isize(text, k);
    assert forall|i: int| 0 <= i < body.len() implies text[i] != '>' by {
        assert(text[i] == body[i]);
    }
    assert(text[body.len() as int] == '>');
    lemma_position_of(text, '>', body.len() as int);
    assert(text.take(body.len() as int) == body);
    assert(text.skip(body.len() as int + 1) == joiner);
}

/// A list of two or more indices, written as integers with `;` between
/// them, a `>` and the joiner, reads as that list.
pub proof fn lemma_list_text_round_trip(indices: Seq<int>, joiner: Seq<char>)
    requires
        indices.len() >= 2,
        forall|k: int| 0 <= k < indices.len() ==> fits_isize(#[trigger] indices[k]),
    ensures
        parsed_mapping(mapping_text(MappingView::List(indices, joiner))) == Ok::<
            MappingView,
            ParseError,
        >(MappingView::List(indices, joiner)),
{
    let m = MappingView::List(indices, joiner);
    let texts = indices.map_values(|i: int| integer_text(i));
    let body = list_text(indices);
    assert(mapping_text_body(m) == body);
    lemma_list_text(indices);
    let k = choose|k: int| 1 <= k < list_text(indices).len() && #[trigger] list_text(indices)[k] == ';';
    assert forall|i: int| 0 <= i < body.len() implies #[trigger] body[i] != '>' by {
        assert(is_integer_char(list_text(indices)[i]) || list_text(indices)[i] == ';');
    }
    lemma_text_splits(body, joiner, k);
    assert(body.contains(';'));
    let pieces = list_pieces(body);
    assert(pieces == texts);
    assert forall|j: int| 0 <= j < pieces.len() implies isize_literal(#[trigger] pieces[j])
        == Some(indices[j]) by {
        lemma_isize_text(indices[j]);
    }
    assert(pieces.map_values(|p: Seq<char>| isize_literal(p)->0) =~= indices);
}

/// Whether a mapping is a range whose bounds are `isize`s.
pub open spec fn is_range(m: MappingView) -> bool {
    match m {
        MappingView::Range(from, to, _) => fits_isize(from) && fits_isize(to),
        MappingView::InfinteRange(from, _) => fits_isize(from),
        MappingView::InclusiveRange(from, to, _) => fits_isize(from) && fits_isize(to),
        _ => false,
    }
}

/// The capture groups that stand for a range: the whole match, the start,
/// the operator, and the end where the range has one.
pub open spec fn range_captures(m: MappingView) -> Seq<Option<Seq<char>>> {
    match m {
        MappingView::Range(from, to, _) => seq![
            Some(mapping_text_body(m)),
            Some(integer_text(from)),
            Some(exclusive_operator()),
            Some(integer_text(to)),
        ],
        MappingView::InfinteRange(from, _) => seq![
            Some(mapping_text_body(m)),
            Some(integer_text(from)),
            Some(exclusive_operator()),
            None,
        ],
        MappingView::InclusiveRange(from, to, _) => seq![
            Some(mapping_text_body(m)),
            Some(integer_text(from)),
            Some(inclusive_operator()),
            Some(integer_text(to)),
        ],
        _ => Seq::empty(),
    }
}

/// The canonical text of a range reaches the range pattern whole: it reads
/// as whatever the pattern captures in its body, with its joiner.
pub proof fn lemma_range_text_reaches_pattern(m: MappingView)
    requires
        is_range(m),
    ensures
        parsed_mapping(mapping_text(m)) == range_of_captures(
            regex_captures(RANGE_PATTERN@, mapping_text_body(m)),
            joiner(m),
        ),
{
    let body = mapping_text_body(m);
    let (from, operator, end) = match m {
        MappingView::Range(from, to, _) => (from, exclusive_operator(), integer_text(to)),
        MappingView::InfinteRange(from, _) => (from, exclusive_operator(), Seq::<char>::empty()),
        MappingView::InclusiveRange(from, to, _) => (
            from,
            inclusive_operator(),
            integer_text(to),
        ),
        _ => (0, Seq::<char>::empty(), Seq::<char>::empty()),
    };
    let start = integer_text(from);
    assert(body =~= start + operator + end);
    lemma_integer_text_round_trip(from);
    match m {
        MappingView::Range(_, to, _) => {
            lemma_integer_text_round_trip(to);
        },
        MappingView::InclusiveRange(_, to, _) => {
            lemma_integer_text_round_trip(to);
        },
        _ => {},
    }
    let k = start.len() as int;
    assert(body[k] == operator[0]);
    assert forall|i: int| 0 <= i < body.len() implies #[trigger] body[i] != '>' && body[i]
        != ';' by {
        if i < start.len() {
            assert(body[i] == start[i]);
            assert(is_integer_char(start[i]));
        } else if i < start.len() + operator.len() {
            assert(body[i] == operator[i - start.len()]);
        } else {
            assert(body[i] == end[i - start.len() - operator.len()]);
            assert(is_integer_char(end[i - start.len() - operator.len()]));
        }
    }
    lemma_text_splits(body, joiner(m), k);
    assert(!body.contains(';'));
}

/// The capture groups that stand for a range give that range.
pub proof fn lemma_range_captures_round_trip(m: MappingView)
    requires
        is_range(m),
    ensures
        range_of_captures(Some(range_captures(m)), joiner(m)) == Ok::<MappingView, ParseError>(m),
{
    match m {
        MappingView::Range(from, to, _) => {
            lemma_isize_text(from);
            lemma_isize_text(to);
        },
        MappingView::InfinteRange(from, _) => {
            lemma_isize_text(from);
        },
        MappingView::InclusiveRange(from, to, _) => {
            lemma_isize_text(from);
            lemma_isize_text(to);
        },
        _ => {},
    }
    assert(exclusive_operator().len() != inclusive_operator().len());
}

} // verus!
