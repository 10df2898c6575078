//! Character-level helpers shared by the parsers and the renderer.
use vstd::prelude::*;
use vstd::std_specs::iter::IteratorSpec;
use vstd::string::*;

verus! {

/// `String::push` appends one character to the end of the string.
pub assume_specification[ String::push ](s: &mut String, c: char)
    ensures
        final(s)@ == old(s)@.push(c),
;

/// `n` copies of the space character.
pub open spec fn spaces(n: int) -> Seq<char> {
    Seq::new(if n >= 0 { n as nat } else { 0 }, |i: int| ' ')
}

/// The parts in order, with `sep` between each two neighbours.
pub open spec fn joined(parts: Seq<Seq<char>>, sep: Seq<char>) -> Seq<char>
    decreases parts.len(),
{
    if parts.len() == 0 {
        Seq::empty()
    } else if parts.len() == 1 {
        parts[0]
    } else {
        joined(parts.drop_last(), sep) + sep + parts.last()
    }
}

/// The parts in order, with nothing between them.
pub open spec fn concatenated(parts: Seq<Seq<char>>) -> Seq<char>
    decreases parts.len(),
{
    if parts.len() == 0 {
        Seq::empty()
    } else {
        concatenated(parts.drop_last()) + parts.last()
    }
}

/// One part concatenates to itself.
pub proof fn lemma_concatenated_single(part: Seq<char>)
    ensures
        concatenated(seq![part]) == part,
{
    let one = seq![part];
    assert(one.drop_last() == Seq::<Seq<char>>::empty());
    assert(concatenated(one.drop_last()) == Seq::<char>::empty());
    assert(one.last() == part);
    assert(Seq::<char>::empty() + part == part);
}

/// Concatenation distributes over appending two lists of parts.
pub proof fn lemma_concatenated_add(a: Seq<Seq<char>>, b: Seq<Seq<char>>)
    ensures
        concatenated(a + b) == concatenated(a) + concatenated(b),
    decreases b.len(),
{
    if b.len() == 0 {
        assert(a + b == a);
    } else {
        lemma_concatenated_add(a, b.drop_last());
        assert((a + b).drop_last() == a + b.drop_last());
        assert((a + b).last() == b.last());
    }
}

/// Every character equal to `from` becomes `to`; every other character
/// becomes `rest`, or stays where there is no `rest`.
pub open spec fn replaced(s: Seq<char>, from: char, to: char, rest: Option<char>) -> Seq<char> {
    s.map_values(
        |c: char|
            if c == from {
                to
            } else {
                match rest {
                    Some(r) => r,
                    None => c,
                }
            },
    )
}

/// `row` cut, or filled up with empty fields, to exactly `n` fields.
pub open spec fn resized(row: Seq<Seq<char>>, n: nat) -> Seq<Seq<char>> {
    Seq::new(
        n,
        |i: int|
            if i < row.len() {
                row[i]
            } else {
                Seq::empty()
            },
    )
}

/// Whether `s` begins with `prefix`.
pub open spec fn starts_with(s: Seq<char>, prefix: Seq<char>) -> bool {
    prefix.len() <= s.len() && s.take(prefix.len() as int) == prefix
}

/// `first` put before the first of `fields`.
pub open spec fn prepended(first: Seq<char>, fields: Seq<Seq<char>>) -> Seq<Seq<char>>
    recommends
        fields.len() >= 1,
{
    seq![first + fields[0]] + fields.skip(1)
}

/// The fields of a line: what stands between the occurrences of the
/// delimiter, found from left to right and not overlapping. There is one
/// field more than there are occurrences. Around an empty delimiter every
/// character is a field, with an empty field before the first and after the
/// last.
pub open spec fn split_fields(line: Seq<char>, delimiter: Seq<char>) -> Seq<Seq<char>>
    decreases line.len(),
{
    if delimiter.len() == 0 {
        seq![Seq::empty()] + line.map_values(|c: char| seq![c]) + seq![Seq::empty()]
    } else if line.len() == 0 {
        seq![Seq::empty()]
    } else if starts_with(line, delimiter) {
        seq![Seq::empty()] + split_fields(line.skip(delimiter.len() as int), delimiter)
    } else {
        prepended(seq![line[0]], split_fields(line.skip(1), delimiter))
    }
}

/// A line always has a field.
pub proof fn lemma_split_fields_len(line: Seq<char>, delimiter: Seq<char>)
    ensures
        split_fields(line, delimiter).len() >= 1,
    decreases line.len(),
{
    if delimiter.len() == 0 {
    } else if line.len() == 0 {
    } else if starts_with(line, delimiter) {
        lemma_split_fields_len(line.skip(delimiter.len() as int), delimiter);
    } else {
        lemma_split_fields_len(line.skip(1), delimiter);
    }
}

/// The characters of `s`, in order.
pub fn chars_of(s: &str) -> (v: Vec<char>)
    ensures
        v@ == s@,
{
    let mut v: Vec<char> = Vec::new();
    let mut it = s.chars();
    loop
        invariant
            it.obeys_prophetic_iter_laws(),
            it.decrease() is Some,
            v@ + it.remaining() == s@,
        decreases it.decrease()->0,
    {
        match it.next() {
            Some(c) => {
                v.push(c);
            },
            None => {
                return v;
            },
        }
    }
}

/// The string made of `chars[from..to]`.
pub fn text_of(chars: &Vec<char>, from: usize, to: usize) -> (s: String)
    requires
        from <= to <= chars.len(),
    ensures
        s@ == chars@.subrange(from as int, to as int),
{
    let mut s = String::new();
    let mut i: usize = from;
    while i < to
        invariant
            from <= i <= to <= chars.len(),
            s@ == chars@.subrange(from as int, i as int),
        decreases to - i,
    {
        s.push(chars[i]);
        i = i + 1;
    }
    s
}

/// Maps `s` character by character: `from` to `to`, anything else to `rest`
/// where one is given.
pub fn replace_chars(s: &str, from: char, to: char, rest: Option<char>) -> (r: String)
    ensures
        r@ == replaced(s@, from, to, rest),
{
    let mut r = String::new();
    let mut it = s.chars();
    let ghost mut done: Seq<char> = Seq::empty();
    loop
        invariant
            it.obeys_prophetic_iter_laws(),
            it.decrease() is Some,
            done + it.remaining() == s@,
            r@ == replaced(done, from, to, rest),
        decreases it.decrease()->0,
    {
        match it.next() {
            Some(c) => {
                let mapped = if c == from {
                    to
                } else {
                    match rest {
                        Some(x) => x,
                        None => c,
                    }
                };
                r.push(mapped);
                proof {
                    done = done.push(c);
                }
            },
            None => {
                assert(done == s@);
                return r;
            },
        }
    }
}

/// Appends `n` spaces to `s`.
pub fn push_spaces(s: &mut String, n: usize)
    ensures
        final(s)@ == old(s)@ + spaces(n as int),
{
    let mut i: usize = 0;
    while i < n
        invariant
            i <= n,
            s@ == old(s)@ + spaces(i as int),
        decreases n - i,
    {
        s.push(' ');
        i = i + 1;
    }
}

/// A copy of `row` with exactly `n` fields: its first `n`, then empty ones.
pub fn resize_row(row: &Vec<String>, n: usize) -> (r: Vec<String>)
    ensures
        r.deep_view() == resized(row.deep_view(), n as nat),
{
    let mut r: Vec<String> = Vec::new();
    let mut i: usize = 0;
    while i < n
        invariant
            i <= n,
            r.len() == i,
            forall|k: int|
                0 <= k < i ==> #[trigger] r[k]@ == resized(row.deep_view(), n as nat)[k],
        decreases n - i,
    {
        if i < row.len() {
            r.push(row[i].clone());
        } else {
            r.push(String::new());
        }
        i = i + 1;
    }
    proof {
        assert(r.deep_view() =~= resized(row.deep_view(), n as nat));
    }
    r
}

/// Joins `parts[from..to]` with `sep` between neighbours.
pub fn join_range(parts: &Vec<String>, from: usize, to: usize, sep: &str) -> (s: String)
    requires
        from <= to <= parts.len(),
    ensures
        s@ == joined(parts.deep_view().subrange(from as int, to as int), sep@),
{
    let ghost chosen = parts.deep_view().subrange(from as int, to as int);
    let mut s = String::new();
    let mut i: usize = from;
    while i < to
        invariant
            from <= i <= to <= parts.len(),
            chosen == parts.deep_view().subrange(from as int, to as int),
            s@ == joined(chosen.take(i - from), sep@),
        decreases to - i,
    {
        if i > from {
            s.append(sep);
        }
        s.append(parts[i].as_str());
        proof {
            let k = i - from;
            assert(chosen.take(k + 1).drop_last() == chosen.take(k));
            assert(chosen.take(k + 1).last() == parts[i as int]@);
        }
        i = i + 1;
    }
    proof {
        assert(chosen.take(to - from) == chosen);
    }
    s
}

/// Joins `parts` with `sep` between neighbours.
pub fn join(parts: &Vec<String>, sep: &str) -> (s: String)
    ensures
        s@ == joined(parts.deep_view(), sep@),
{
    proof {
        assert(parts.deep_view().subrange(0, parts.len() as int) == parts.deep_view());
    }
    join_range(parts, 0, parts.len(), sep)
}

/// Whether `needle` stands in `chars` at position `at`.
fn matches_at(chars: &Vec<char>, at: usize, needle: &Vec<char>) -> (r: bool)
    requires
        at <= chars.len(),
    ensures
        r == starts_with(chars@.skip(at as int), needle@),
{
    if needle.len() > chars.len() - at {
        return false;
    }
    let ghost rest = chars@.skip(at as int);
    let mut k: usize = 0;
    while k < needle.len()
        invariant
            k <= needle.len(),
            at + needle.len() <= chars.len(),
            rest == chars@.skip(at as int),
            forall|j: int| 0 <= j < k ==> chars[at + j] == needle[j],
        decreases needle.len() - k,
    {
        if chars[at + k] != needle[k] {
            proof {
                assert(rest.take(needle.len() as int)[k as int] == chars[at + k]);
            }
            return false;
        }
        k = k + 1;
    }
    proof {
        assert(rest.take(needle.len() as int) =~= needle@);
    }
    true
}

/// Splits a line into its fields at every occurrence of the delimiter.
pub fn split_line(line: &str, delimiter: &str) -> (fields: Vec<String>)
    ensures
        fields.deep_view() == split_fields(line@, delimiter@),
{
    let chars = chars_of(line);
    let needle = chars_of(delimiter);
    let len = chars.len();
    let mut fields: Vec<String> = Vec::new();
    if needle.len() == 0 {
        fields.push(String::new());
        let mut i: usize = 0;
        while i < len
            invariant
                i <= len,
                len == chars.len(),
                fields.len() == i + 1,
                fields[0]@ == Seq::<char>::empty(),
                forall|k: int| 0 <= k < i ==> #[trigger] fields[k + 1]@ == seq![chars[k]],
            decreases len - i,
        {
            let mut one = String::new();
            one.push(chars[i]);
            fields.push(one);
            i = i + 1;
        }
        fields.push(String::new());
        proof {
            let expected = split_fields(line@, delimiter@);
            assert(fields.deep_view().len() == expected.len());
            assert forall|k: int| 0 <= k < expected.len() implies fields.deep_view()[k]
                == expected[k] by {
                if 0 < k <= len {
                    assert(fields[(k - 1) + 1]@ == seq![chars[k - 1]]);
                }
            }
            assert(fields.deep_view() =~= expected);
        }
        return fields;
    }
    let ghost all = split_fields(line@, delimiter@);
    let mut start: usize = 0;
    let mut i: usize = 0;
    proof {
        lemma_split_fields_len(line@, delimiter@);
        assert(line@.skip(0) == line@);
        assert(line@.subrange(0, 0) == Seq::<char>::empty());
        assert(prepended(Seq::empty(), all) =~= all);
        assert(fields.deep_view() + all =~= all);
    }
    while i < len
        invariant
            start <= i <= len,
            len == chars.len(),
            chars@ == line@,
            needle@ == delimiter@,
            needle.len() > 0,
            all == split_fields(line@, delimiter@),
            fields.deep_view() + prepended(
                line@.subrange(start as int, i as int),
                split_fields(line@.skip(i as int), delimiter@),
            ) == all,
        decreases len - i,
    {
        let ghost done = fields.deep_view();
        let ghost current = line@.subrange(start as int, i as int);
        let ghost rest = line@.skip(i as int);
        if matches_at(&chars, i, &needle) {
            let ghost after = split_fields(rest.skip(needle.len() as int), delimiter@);
            proof {
                lemma_split_fields_len(rest.skip(needle.len() as int), delimiter@);
                assert(rest.skip(needle.len() as int) == line@.skip(i + needle.len()));
                assert(current + Seq::<char>::empty() == current);
                assert(prepended(current, seq![Seq::<char>::empty()] + after) =~= seq![current]
                    + after);
                assert(line@.subrange(i + needle.len(), i + needle.len())
                    == Seq::<char>::empty());
                assert(prepended(Seq::<char>::empty(), after) =~= after);
            }
            fields.push(text_of(&chars, start, i));
            i = i + needle.len();
            start = i;
            proof {
                assert(fields.deep_view() =~= done.push(current));
                assert(done.push(current) + after =~= done + (seq![current] + after));
            }
        } else {
            let ghost after = split_fields(rest.skip(1), delimiter@);
            proof {
                lemma_split_fields_len(rest.skip(1), delimiter@);
                assert(rest.skip(1) == line@.skip(i + 1));
                assert(rest[0] == line@[i as int]);
                assert(current + seq![rest[0]] == line@.subrange(start as int, i + 1));
                assert(current + (seq![rest[0]] + after[0]) == (current + seq![rest[0]])
                    + after[0]);
                assert(prepended(current, prepended(seq![rest[0]], after)) =~= prepended(
                    current + seq![rest[0]],
                    after,
                ));
            }
            i = i + 1;
        }
    }
    let ghost done = fields.deep_view();
    fields.push(text_of(&chars, start, len));
    proof {
        let current = line@.subrange(start as int, len as int);
        assert(line@.skip(len as int) == Seq::<char>::empty());
        assert(current + Seq::<char>::empty() == current);
        assert(prepended(current, seq![Seq::<char>::empty()]) =~= seq![current]);
        assert(fields.deep_view() =~= done.push(current));
        assert(done.push(current) =~= done + seq![current]);
    }
    fields
}

/// Splits every line into its fields.
pub fn split_lines(lines: &Vec<String>, delimiter: &str) -> (rows: Vec<Vec<String>>)
    ensures
        rows.deep_view() == lines.deep_view().map_values(
            |line: Seq<char>| split_fields(line, delimiter@),
        ),
{
    let mut rows: Vec<Vec<String>> = Vec::new();
    let mut i: usize = 0;
    while i < lines.len()
        invariant
            i <= lines.len(),
            rows.len() == i,
            forall|k: int|
                0 <= k < i ==> (#[trigger] rows[k]).deep_view() == split_fields(
                    lines[k]@,
                    delimiter@,
                ),
        decreases lines.len() - i,
    {
        rows.push(split_line(lines[i].as_str(), delimiter));
        i = i + 1;
    }
    proof {
        assert(rows.deep_view() =~= lines.deep_view().map_values(
            |line: Seq<char>| split_fields(line, delimiter@),
        ));
    }
    rows
}

} // verus!
