//! What sorting a matrix means, and why a stable sort has one result only.
use crate::arguments::SortOrder;
use crate::order::{
    lemma_rows_order_antisymmetric, lemma_rows_order_reflexive, lemma_rows_order_transitive,
    lemma_ties_are_shared, rows_order,
};
use vstd::prelude::*;

verus! {

/// No row comes after a later one.
pub open spec fn in_order(keys: Seq<SortOrder>, rows: Seq<Seq<Seq<char>>>) -> bool {
    forall|i: int, j: int|
        0 <= i < j < rows.len() ==> rows_order(keys, #[trigger] rows[i], #[trigger] rows[j]) <= 0
}

/// The rows that are tied with `row`, in the order in which they stand.
pub open spec fn tied_with(keys: Seq<SortOrder>, rows: Seq<Seq<Seq<char>>>, row: Seq<Seq<char>>) -> Seq<
    Seq<Seq<char>>,
> {
    rows.filter(|r: Seq<Seq<char>>| rows_order(keys, r, row) == 0)
}

/// `after` is `before`, sorted stably: its rows are in order, and the rows
/// tied with any given row are the same, in the same order, as before. So
/// no row is lost or added, and tied rows keep their places among each
/// other.
pub open spec fn stably_sorted(
    keys: Seq<SortOrder>,
    before: Seq<Seq<Seq<char>>>,
    after: Seq<Seq<Seq<char>>>,
) -> bool {
    &&& in_order(keys, after)
    &&& forall|row: Seq<Seq<char>>| #[trigger]
        tied_with(keys, after, row) == tied_with(keys, before, row)
}

/// Where `row` goes into rows that are in order: behind the last row that
/// does not come after it.
pub open spec fn insertion_point(
    keys: Seq<SortOrder>,
    sorted: Seq<Seq<Seq<char>>>,
    row: Seq<Seq<char>>,
) -> int
    decreases sorted.len(),
{
    if sorted.len() == 0 {
        0
    } else if rows_order(keys, sorted.last(), row) <= 0 {
        sorted.len() as int
    } else {
        insertion_point(keys, sorted.drop_last(), row)
    }
}

/// The rows, sorted stably: each row in turn goes behind the rows before it
/// that do not come after it.
pub open spec fn sorted_rows(keys: Seq<SortOrder>, rows: Seq<Seq<Seq<char>>>) -> Seq<
    Seq<Seq<char>>,
>
    decreases rows.len(),
{
    if rows.len() == 0 {
        Seq::empty()
    } else {
        let head = sorted_rows(keys, rows.drop_last());
        head.insert(insertion_point(keys, head, rows.last()), rows.last())
    }
}

/// The rows, sorted, the first row kept in its place if it is pinned.
pub open spec fn sorted_matrix(keys: Seq<SortOrder>, rows: Seq<Seq<Seq<char>>>, pin_first: bool) -> Seq<
    Seq<Seq<char>>,
> {
    if pin_first && rows.len() > 0 {
        seq![rows[0]] + sorted_rows(keys, rows.skip(1))
    } else {
        sorted_rows(keys, rows)
    }
}

/// The insertion point splits rows that are in order: no row before it
/// comes after `row`, every row from it on does.
proof fn lemma_insertion_point(
    keys: Seq<SortOrder>,
    sorted: Seq<Seq<Seq<char>>>,
    row: Seq<Seq<char>>,
)
    requires
        in_order(keys, sorted),
    ensures
        0 <= insertion_point(keys, sorted, row) <= sorted.len(),
        forall|i: int|
            0 <= i < insertion_point(keys, sorted, row) ==> rows_order(
                keys,
                #[trigger] sorted[i],
                row,
            ) <= 0,
        forall|i: int|
            insertion_point(keys, sorted, row) <= i < sorted.len() ==> rows_order(
                keys,
                #[trigger] sorted[i],
                row,
            ) > 0,
    decreases sorted.len(),
{
    if sorted.len() == 0 {
    } else if rows_order(keys, sorted.last(), row) <= 0 {
        assert forall|i: int| 0 <= i < sorted.len() implies rows_order(
            keys,
            #[trigger] sorted[i],
            row,
        ) <= 0 by {
            if i < sorted.len() - 1 {
                lemma_rows_order_transitive(keys, sorted[i], sorted.last(), row);
            }
        }
    } else {
        let rest = sorted.drop_last();
        assert(in_order(keys, rest)) by {
            assert forall|i: int, j: int| 0 <= i < j < rest.len() implies rows_order(
                keys,
                #[trigger] rest[i],
                #[trigger] rest[j],
            ) <= 0 by {
                assert(rest[i] == sorted[i] && rest[j] == sorted[j]);
            }
        }
        lemma_insertion_point(keys, rest, row);
        let p = insertion_point(keys, rest, row);
        assert forall|i: int| 0 <= i < p implies rows_order(keys, #[trigger] sorted[i], row)
            <= 0 by {
            assert(rest[i] == sorted[i]);
        }
        assert forall|i: int| p <= i < sorted.len() implies rows_order(
            keys,
            #[trigger] sorted[i],
            row,
        ) > 0 by {
            if i < sorted.len() - 1 {
                assert(rest[i] == sorted[i]);
            }
        }
    }
}

/// Rows of which none is tied with `row` hold none tied with it.
proof fn lemma_no_ties(keys: Seq<SortOrder>, rows: Seq<Seq<Seq<char>>>, row: Seq<Seq<char>>)
    requires
        forall|i: int| 0 <= i < rows.len() ==> rows_order(keys, #[trigger] rows[i], row) != 0,
    ensures
        tied_with(keys, rows, row) == Seq::<Seq<Seq<char>>>::empty(),
    decreases rows.len(),
{
    reveal(Seq::filter);
    if rows.len() > 0 {
        let rest = rows.drop_last();
        assert forall|i: int| 0 <= i < rest.len() implies rows_order(keys, #[trigger] rest[i], row)
            != 0 by {
            assert(rest[i] == rows[i]);
        }
        lemma_no_ties(keys, rest, row);
    }
}

/// What adding a row at the end does to the rows tied with `row`.
proof fn lemma_ties_of_push(
    keys: Seq<SortOrder>,
    rows: Seq<Seq<Seq<char>>>,
    last: Seq<Seq<char>>,
    row: Seq<Seq<char>>,
)
    ensures
        tied_with(keys, rows.push(last), row) == if rows_order(keys, last, row) == 0 {
            tied_with(keys, rows, row).push(last)
        } else {
            tied_with(keys, rows, row)
        },
{
    reveal(Seq::filter);
    assert(rows.push(last).drop_last() == rows);
}

/// `sorted_rows` sorts stably.
pub proof fn lemma_sorted_rows_stably_sorted(keys: Seq<SortOrder>, rows: Seq<Seq<Seq<char>>>)
    ensures
        stably_sorted(keys, rows, sorted_rows(keys, rows)),
        sorted_rows(keys, rows).len() == rows.len(),
    decreases rows.len(),
{
    if rows.len() == 0 {
        assert(rows == Seq::<Seq<Seq<char>>>::empty());
    } else {
        let rest = rows.drop_last();
        let last = rows.last();
        let head = sorted_rows(keys, rest);
        lemma_sorted_rows_stably_sorted(keys, rest);
        lemma_insertion_point(keys, head, last);
        let p = insertion_point(keys, head, last);
        let out = head.insert(p, last);
        assert(out == sorted_rows(keys, rows));
        assert(in_order(keys, out)) by {
            assert forall|i: int, j: int| 0 <= i < j < out.len() implies rows_order(
                keys,
                #[trigger] out[i],
                #[trigger] out[j],
            ) <= 0 by {
                if j < p {
                    assert(out[i] == head[i] && out[j] == head[j]);
                } else if j == p {
                    assert(out[i] == head[i]);
                } else if i < p {
                    assert(out[i] == head[i] && out[j] == head[j - 1]);
                } else if i == p {
                    assert(out[j] == head[j - 1]);
                    lemma_rows_order_antisymmetric(keys, last, head[j - 1]);
                } else {
                    assert(out[i] == head[i - 1] && out[j] == head[j - 1]);
                }
            }
        }
        assert forall|row: Seq<Seq<char>>| #[trigger]
            tied_with(keys, out, row) == tied_with(keys, rows, row) by {
            let tie = |r: Seq<Seq<char>>| rows_order(keys, r, row) == 0;
            let front = head.take(p);
            let back = head.skip(p);
            assert(head == front + back);
            assert(out == front.push(last) + back);
            Seq::filter_distributes_over_add(front, back, tie);
            Seq::filter_distributes_over_add(front.push(last), back, tie);
            lemma_ties_of_push(keys, front, last, row);
            lemma_ties_of_push(keys, rest, last, row);
            assert(rows == rest.push(last));
            assert(tied_with(keys, head, row) == tied_with(keys, rest, row));
            if rows_order(keys, last, row) == 0 {
                assert forall|i: int| 0 <= i < back.len() implies rows_order(
                    keys,
                    #[trigger] back[i],
                    row,
                ) != 0 by {
                    assert(back[i] == head[p + i]);
                    lemma_ties_are_shared(keys, last, row, back[i]);
                    lemma_rows_order_antisymmetric(keys, back[i], row);
                    lemma_rows_order_antisymmetric(keys, back[i], last);
                }
                lemma_no_ties(keys, back, row);
                assert(tied_with(keys, front, row) + Seq::<Seq<Seq<char>>>::empty()
                    == tied_with(keys, front, row));
                assert(tied_with(keys, front, row).push(last) + Seq::<Seq<Seq<char>>>::empty()
                    == tied_with(keys, front, row).push(last));
            }
        }
    }
}

/// A row among those tied with `row` is one of the rows.
proof fn lemma_tied_rows_are_rows(
    keys: Seq<SortOrder>,
    rows: Seq<Seq<Seq<char>>>,
    row: Seq<Seq<char>>,
    found: Seq<Seq<char>>,
)
    requires
        tied_with(keys, rows, row).contains(found),
    ensures
        rows.contains(found),
    decreases rows.len(),
{
    if rows.len() == 0 {
        lemma_no_ties(keys, rows, row);
    } else {
        let rest = rows.drop_last();
        assert(rows == rest.push(rows.last()));
        lemma_ties_of_push(keys, rest, rows.last(), row);
        let ties = tied_with(keys, rows, row);
        let k = choose|k: int| 0 <= k < ties.len() && ties[k] == found;
        if rows_order(keys, rows.last(), row) == 0 && k == ties.len() - 1 {
            assert(rows[rows.len() - 1] == found);
        } else {
            assert(tied_with(keys, rest, row)[k] == found);
            lemma_tied_rows_are_rows(keys, rest, row, found);
            let i = choose|i: int| 0 <= i < rest.len() && rest[i] == found;
            assert(rows[i] == found);
        }
    }
}

/// Rows in order stay in order without their last row.
proof fn lemma_in_order_drop_last(keys: Seq<SortOrder>, rows: Seq<Seq<Seq<char>>>)
    requires
        in_order(keys, rows),
        rows.len() > 0,
    ensures
        in_order(keys, rows.drop_last()),
{
    let rest = rows.drop_last();
    assert forall|i: int, j: int| 0 <= i < j < rest.len() implies rows_order(
        keys,
        #[trigger] rest[i],
        #[trigger] rest[j],
    ) <= 0 by {
        assert(rest[i] == rows[i] && rest[j] == rows[j]);
    }
}

/// No row of rows in order comes after the last one.
proof fn lemma_last_is_greatest(
    keys: Seq<SortOrder>,
    rows: Seq<Seq<Seq<char>>>,
    row: Seq<Seq<char>>,
)
    requires
        in_order(keys, rows),
        rows.contains(row),
    ensures
        rows_order(keys, row, rows.last()) <= 0,
{
    let i = choose|i: int| 0 <= i < rows.len() && rows[i] == row;
    if i < rows.len() - 1 {
        assert(rows_order(keys, rows[i], rows[rows.len() - 1]) <= 0);
    } else {
        lemma_rows_order_reflexive(keys, row);
    }
}

/// Rows in order are known by their ties: two sequences in order in which
/// every row has the same ties are the same sequence.
proof fn lemma_same_ties_same_rows(
    keys: Seq<SortOrder>,
    a: Seq<Seq<Seq<char>>>,
    b: Seq<Seq<Seq<char>>>,
)
    requires
        in_order(keys, a),
        in_order(keys, b),
        forall|row: Seq<Seq<char>>| #[trigger] tied_with(keys, a, row) == tied_with(keys, b, row),
    ensures
        a == b,
    decreases a.len(),
{
    if a.len() == 0 {
        if b.len() > 0 {
            let lb = b.last();
            assert(b == b.drop_last().push(lb));
            lemma_rows_order_reflexive(keys, lb);
            lemma_ties_of_push(keys, b.drop_last(), lb, lb);
            lemma_no_ties(keys, a, lb);
            assert(tied_with(keys, a, lb) == tied_with(keys, b, lb));
            assert(false);
        }
        assert(a =~= b);
    } else {
        let la = a.last();
        let a1 = a.drop_last();
        assert(a == a1.push(la));
        lemma_rows_order_reflexive(keys, la);
        lemma_ties_of_push(keys, a1, la, la);
        assert(tied_with(keys, a, la) == tied_with(keys, b, la));
        let ties_a = tied_with(keys, a, la);
        assert(ties_a[ties_a.len() - 1] == la);
        assert(tied_with(keys, b, la).contains(la));
        lemma_tied_rows_are_rows(keys, b, la, la);
        let lb = b.last();
        let b1 = b.drop_last();
        assert(b == b1.push(lb));
        lemma_last_is_greatest(keys, b, la);
        lemma_rows_order_reflexive(keys, lb);
        lemma_ties_of_push(keys, b1, lb, lb);
        assert(tied_with(keys, a, lb) == tied_with(keys, b, lb));
        let ties_b = tied_with(keys, b, lb);
        assert(ties_b[ties_b.len() - 1] == lb);
        assert(tied_with(keys, a, lb).contains(lb));
        lemma_tied_rows_are_rows(keys, a, lb, lb);
        lemma_last_is_greatest(keys, a, lb);
        lemma_rows_order_antisymmetric(keys, la, lb);
        assert(rows_order(keys, lb, la) == 0);
        lemma_ties_of_push(keys, b1, lb, la);
        assert(tied_with(keys, b, la).last() == lb);
        assert(la == lb);
        assert forall|row: Seq<Seq<char>>| #[trigger]
            tied_with(keys, a1, row) == tied_with(keys, b1, row) by {
            lemma_ties_of_push(keys, a1, la, row);
            lemma_ties_of_push(keys, b1, lb, row);
            assert(tied_with(keys, a, row) == tied_with(keys, b, row));
            if rows_order(keys, la, row) == 0 {
                assert(tied_with(keys, a1, row).push(la).drop_last() == tied_with(keys, a1, row));
                assert(tied_with(keys, b1, row).push(lb).drop_last() == tied_with(keys, b1, row));
            }
        }
        lemma_in_order_drop_last(keys, a);
        lemma_in_order_drop_last(keys, b);
        lemma_same_ties_same_rows(keys, a1, b1);
    }
}

/// A stable sort has one result: whatever is `before`, sorted stably, is
/// `sorted_rows` of it.
pub proof fn lemma_stable_sort_unique(
    keys: Seq<SortOrder>,
    before: Seq<Seq<Seq<char>>>,
    after: Seq<Seq<Seq<char>>>,
)
    requires
        stably_sorted(keys, before, after),
    ensures
        after == sorted_rows(keys, before),
{
    lemma_sorted_rows_stably_sorted(keys, before);
    let sorted = sorted_rows(keys, before);
    assert forall|row: Seq<Seq<char>>| #[trigger]
        tied_with(keys, after, row) == tied_with(keys, sorted, row) by {
        assert(tied_with(keys, after, row) == tied_with(keys, before, row));
        assert(tied_with(keys, sorted, row) == tied_with(keys, before, row));
    }
    lemma_same_ties_same_rows(keys, after, sorted);
}

} // verus!
