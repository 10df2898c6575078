//! The row comparator that sorting is done with.
use crate::arguments::{optional_view, SortOrder};
use crate::order::{order_rows, rows_order, sort_keys};
use crate::sorting::{lemma_stable_sort_unique, sorted_matrix, sorted_rows, stably_sorted};
use std::cmp::Ordering;
use vstd::prelude::*;

verus! {

/// Compares rows under a fixed sequence of sort keys.
pub struct SortComparator {
    pub keys: Vec<SortOrder>,
}

impl View for SortComparator {
    type V = Seq<SortOrder>;

    open spec fn view(&self) -> Seq<SortOrder> {
        self.keys@
    }
}

impl SortComparator {
    /// How `a` stands to `b`: the first key under which they differ decides.
    pub fn compare(&self, a: &Vec<String>, b: &Vec<String>) -> (r: Ordering)
        ensures
            r == Ordering::Less <==> rows_order(self@, a.deep_view(), b.deep_view()) < 0,
            r == Ordering::Equal <==> rows_order(self@, a.deep_view(), b.deep_view()) == 0,
            r == Ordering::Greater <==> rows_order(self@, a.deep_view(), b.deep_view()) > 0,
    {
        let c = order_rows(&self.keys, a, b);
        if c < 0 {
            Ordering::Less
        } else if c > 0 {
            Ordering::Greater
        } else {
            Ordering::Equal
        }
    }
}

/// The comparator for the given keys, or for the first column, ascending, by
/// characters, where none are given.
pub fn get_sort_comparator(sort_by: &Option<Vec<SortOrder>>) -> (r: SortComparator)
    ensures
        r@ == sort_keys(optional_view(*sort_by)),
{
    let mut keys: Vec<SortOrder> = Vec::new();
    match sort_by {
        Some(given) => {
            let mut i: usize = 0;
            while i < given.len()
                invariant
                    i <= given.len(),
                    keys@ == given@.take(i as int),
                decreases given.len() - i,
            {
                keys.push(given[i]);
                proof {
                    assert(given@.take(i + 1) == given@.take(i as int).push(given[i as int]));
                }
                i = i + 1;
            }
            proof {
                assert(given@.take(given.len() as int) == given@);
            }
        },
        None => {
            keys.push(SortOrder { column: 0, descending: false, numeric: false });
            proof {
                assert(keys@ =~= sort_keys(None));
            }
        },
    }
    SortComparator { keys }
}

/// Sorts with `slice::sort_by`, the comparator being `SortComparator::compare`.
/// The standard library documents that sort as stable: afterwards the rows
/// are in order under the comparator, and rows that compare equal stand as
/// they stood before. It asks that the comparator be a total order; the laws
/// of `rows_order` show that it is.
#[verifier::external_body]
fn sort_by_comparator(rows: &mut Vec<Vec<String>>, comparator: &SortComparator)
    ensures
        stably_sorted(comparator@, old(rows).deep_view(), final(rows).deep_view()),
{
    rows.sort_by(|a, b| comparator.compare(a, b));
}

/// Sorts the rows stably.
pub fn sort_rows(rows: &mut Vec<Vec<String>>, comparator: &SortComparator)
    ensures
        final(rows).deep_view() == sorted_rows(comparator@, old(rows).deep_view()),
{
    sort_by_comparator(rows, comparator);
    proof {
        lemma_stable_sort_unique(comparator@, old(rows).deep_view(), rows.deep_view());
    }
}

/// Sorts the rows stably; a pinned first row stays where it is.
pub fn sort_matrix(rows: &mut Vec<Vec<String>>, comparator: &SortComparator, pin_first: bool)
    ensures
        final(rows).deep_view() == sorted_matrix(comparator@, old(rows).deep_view(), pin_first),
{
    if pin_first && rows.len() > 0 {
        let first = rows.remove(0);
        proof {
            assert(rows.deep_view() =~= old(rows).deep_view().skip(1));
        }
        sort_rows(rows, comparator);
        let ghost tail = rows.deep_view();
        rows.insert(0, first);
        proof {
            assert(rows.deep_view() =~= seq![old(rows).deep_view()[0]] + tail);
        }
    } else {
        sort_rows(rows, comparator);
    }
}

} // verus!
