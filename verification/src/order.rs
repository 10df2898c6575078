//! How two rows compare under a sequence of sort keys, and the laws that
//! make that comparison fit for sorting.
use crate::arguments::SortOrder;
use crate::number::{i64_literal, parse_i64};
use crate::process::{field, field_at};
use crate::text::chars_of;
use vstd::prelude::*;
use vstd::std_specs::iter::IteratorSpec;

verus! {

/// How `a` stands to `b` in the order of their characters, the first
/// difference deciding and a proper prefix coming first: -1 where `a` comes
/// first, 1 where `b` does, 0 where they are the same.
pub open spec fn lex_order(a: Seq<char>, b: Seq<char>) -> int
    decreases a.len(),
{
    if a.len() == 0 {
        if b.len() == 0 {
            0
        } else {
            -1
        }
    } else if b.len() == 0 {
        1
    } else if a[0] < b[0] {
        -1
    } else if a[0] > b[0] {
        1
    } else {
        lex_order(a.skip(1), b.skip(1))
    }
}

/// How the integer `x` stands to `y`: -1, 0 or 1.
pub open spec fn int_order(x: int, y: int) -> int {
    if x < y {
        -1
    } else if x > y {
        1
    } else {
        0
    }
}

/// The number a field stands for in a numeric sort: the `i64` it denotes, or
/// 0 where it denotes none.
pub open spec fn numeric_value(s: Seq<char>) -> int {
    match i64_literal(s) {
        Some(v) => v,
        None => 0,
    }
}

/// How row `a` stands to row `b` under one key.
pub open spec fn key_order(key: SortOrder, a: Seq<Seq<char>>, b: Seq<Seq<char>>) -> int {
    let fa = field_at(a, key.column as int);
    let fb = field_at(b, key.column as int);
    let c = if key.numeric {
        int_order(numeric_value(fa), numeric_value(fb))
    } else {
        lex_order(fa, fb)
    };
    if key.descending {
        -c
    } else {
        c
    }
}

/// How row `a` stands to row `b` under a sequence of keys: the first key
/// under which they differ decides; rows that differ under none are tied.
pub open spec fn rows_order(keys: Seq<SortOrder>, a: Seq<Seq<char>>, b: Seq<Seq<char>>) -> int
    decreases keys.len(),
{
    if keys.len() == 0 {
        0
    } else {
        let c = key_order(keys[0], a, b);
        if c != 0 {
            c
        } else {
            rows_order(keys.skip(1), a, b)
        }
    }
}

/// The key that sorts where none is given: the first column, ascending, by
/// characters.
pub open spec fn default_keys() -> Seq<SortOrder> {
    seq![SortOrder { column: 0, descending: false, numeric: false }]
}

/// The keys a run sorts by.
pub open spec fn sort_keys(sort_by: Option<Seq<SortOrder>>) -> Seq<SortOrder> {
    match sort_by {
        Some(keys) => keys,
        None => default_keys(),
    }
}

/// Compares two strings character by character.
pub fn text_order(a: &str, b: &str) -> (r: i8)
    ensures
        r == lex_order(a@, b@),
{
    let mut ia = a.chars();
    let mut ib = b.chars();
    loop
        invariant
            ia.obeys_prophetic_iter_laws(),
            ia.decrease() is Some,
            ib.obeys_prophetic_iter_laws(),
            ib.decrease() is Some,
            lex_order(ia.remaining(), ib.remaining()) == lex_order(a@, b@),
        decreases ia.decrease()->0,
    {
        let ca = ia.next();
        let cb = ib.next();
        match ca {
            None => {
                return match cb {
                    None => 0,
                    Some(_) => -1,
                };
            },
            Some(x) => {
                match cb {
                    None => {
                        return 1;
                    },
                    Some(y) => {
                        if x < y {
                            return -1;
                        }
                        if x > y {
                            return 1;
                        }
                    },
                }
            },
        }
    }
}

/// The number a field stands for in a numeric sort.
pub fn numeric_of(s: &str) -> (r: i64)
    ensures
        r == numeric_value(s@),
{
    let chars = chars_of(s);
    proof {
        assert(chars@.subrange(0, chars.len() as int) == s@);
    }
    match parse_i64(&chars, 0, chars.len()) {
        Some(v) => v,
        None => 0,
    }
}

/// Compares two rows under one key.
pub fn order_by_key(key: &SortOrder, a: &Vec<String>, b: &Vec<String>) -> (r: i8)
    ensures
        r == key_order(*key, a.deep_view(), b.deep_view()),
        -1 <= r <= 1,
{
    let fa = field(a, key.column);
    let fb = field(b, key.column);
    let c: i8 = if key.numeric {
        let x = numeric_of(fa);
        let y = numeric_of(fb);
        if x < y {
            -1
        } else if x > y {
            1
        } else {
            0
        }
    } else {
        let c = text_order(fa, fb);
        proof {
            lemma_lex_order_sign(fa@, fb@);
        }
        c
    };
    if key.descending {
        -c
    } else {
        c
    }
}

/// Compares two rows under a sequence of keys.
pub fn order_rows(keys: &Vec<SortOrder>, a: &Vec<String>, b: &Vec<String>) -> (r: i8)
    ensures
        r == rows_order(keys@, a.deep_view(), b.deep_view()),
        -1 <= r <= 1,
{
    let mut i: usize = 0;
    proof {
        assert(keys@.skip(0) == keys@);
    }
    while i < keys.len()
        invariant
            i <= keys.len(),
            rows_order(keys@.skip(i as int), a.deep_view(), b.deep_view()) == rows_order(
                keys@,
                a.deep_view(),
                b.deep_view(),
            ),
        decreases keys.len() - i,
    {
        let c = order_by_key(&keys[i], a, b);
        proof {
            assert(keys@.skip(i as int)[0] == keys[i as int]);
            assert(keys@.skip(i as int).skip(1) == keys@.skip(i + 1));
        }
        if c != 0 {
            return c;
        }
        i = i + 1;
    }
    0
}

/// `lex_order` is -1, 0 or 1.
pub proof fn lemma_lex_order_sign(a: Seq<char>, b: Seq<char>)
    ensures
        -1 <= lex_order(a, b) <= 1,
    decreases a.len(),
{
    if a.len() > 0 && b.len() > 0 && a[0] == b[0] {
        lemma_lex_order_sign(a.skip(1), b.skip(1));
    }
}

/// A string is tied with itself.
pub proof fn lemma_lex_order_reflexive(a: Seq<char>)
    ensures
        lex_order(a, a) == 0,
    decreases a.len(),
{
    if a.len() > 0 {
        lemma_lex_order_reflexive(a.skip(1));
    }
}

/// Swapping the two strings reverses the result.
pub proof fn lemma_lex_order_antisymmetric(a: Seq<char>, b: Seq<char>)
    ensures
        lex_order(a, b) == -lex_order(b, a),
    decreases a.len(),
{
    if a.len() > 0 && b.len() > 0 && a[0] == b[0] {
        lemma_lex_order_antisymmetric(a.skip(1), b.skip(1));
    }
}

/// What does not come after a string that does not come after a third does
/// not come after the third; and comes before it if either step is strict.
pub proof fn lemma_lex_order_transitive(a: Seq<char>, b: Seq<char>, c: Seq<char>)
    requires
        lex_order(a, b) <= 0,
        lex_order(b, c) <= 0,
    ensures
        lex_order(a, c) <= 0,
        lex_order(a, b) < 0 || lex_order(b, c) < 0 ==> lex_order(a, c) < 0,
    decreases a.len(),
{
    if a.len() > 0 && b.len() > 0 && c.len() > 0 && a[0] == b[0] && b[0] == c[0] {
        lemma_lex_order_transitive(a.skip(1), b.skip(1), c.skip(1));
    }
}

/// Under one key, swapping the two rows reverses the result.
pub proof fn lemma_key_order_antisymmetric(key: SortOrder, a: Seq<Seq<char>>, b: Seq<Seq<char>>)
    ensures
        key_order(key, a, b) == -key_order(key, b, a),
{
    lemma_lex_order_antisymmetric(field_at(a, key.column as int), field_at(b, key.column as int));
}

/// Under one key, not-after is transitive, and strict if either step is.
pub proof fn lemma_key_order_transitive(
    key: SortOrder,
    a: Seq<Seq<char>>,
    b: Seq<Seq<char>>,
    c: Seq<Seq<char>>,
)
    requires
        key_order(key, a, b) <= 0,
        key_order(key, b, c) <= 0,
    ensures
        key_order(key, a, c) <= 0,
        key_order(key, a, b) < 0 || key_order(key, b, c) < 0 ==> key_order(key, a, c) < 0,
{
    let fa = field_at(a, key.column as int);
    let fb = field_at(b, key.column as int);
    let fc = field_at(c, key.column as int);
    if !key.numeric {
        if key.descending {
            lemma_lex_order_antisymmetric(fa, fb);
            lemma_lex_order_antisymmetric(fb, fc);
            lemma_lex_order_antisymmetric(fa, fc);
            lemma_lex_order_transitive(fc, fb, fa);
        } else {
            lemma_lex_order_transitive(fa, fb, fc);
        }
    }
}

/// A row is tied with itself under any keys.
pub proof fn lemma_rows_order_reflexive(keys: Seq<SortOrder>, a: Seq<Seq<char>>)
    ensures
        rows_order(keys, a, a) == 0,
    decreases keys.len(),
{
    if keys.len() > 0 {
        lemma_lex_order_reflexive(field_at(a, keys[0].column as int));
        lemma_rows_order_reflexive(keys.skip(1), a);
    }
}

/// Swapping the two rows reverses the result: of any two rows one does not
/// come after the other.
pub proof fn lemma_rows_order_antisymmetric(
    keys: Seq<SortOrder>,
    a: Seq<Seq<char>>,
    b: Seq<Seq<char>>,
)
    ensures
        rows_order(keys, a, b) == -rows_order(keys, b, a),
    decreases keys.len(),
{
    if keys.len() > 0 {
        lemma_key_order_antisymmetric(keys[0], a, b);
        lemma_rows_order_antisymmetric(keys.skip(1), a, b);
    }
}

/// A row that does not come after a second, which does not come after a
/// third, does not come after the third; and comes before it if either
/// step is strict. With the two laws above this makes `rows_order` a total
/// preorder for every sequence of keys.
pub proof fn lemma_rows_order_transitive(
    keys: Seq<SortOrder>,
    a: Seq<Seq<char>>,
    b: Seq<Seq<char>>,
    c: Seq<Seq<char>>,
)
    requires
        rows_order(keys, a, b) <= 0,
        rows_order(keys, b, c) <= 0,
    ensures
        rows_order(keys, a, c) <= 0,
        rows_order(keys, a, b) < 0 || rows_order(keys, b, c) < 0 ==> rows_order(keys, a, c) < 0,
    decreases keys.len(),
{
    if keys.len() > 0 {
        lemma_key_order_transitive(keys[0], a, b, c);
        if key_order(keys[0], a, b) == 0 && key_order(keys[0], b, c) == 0 {
            lemma_key_order_antisymmetric(keys[0], a, b);
            lemma_key_order_antisymmetric(keys[0], b, c);
            lemma_key_order_antisymmetric(keys[0], a, c);
            lemma_key_order_transitive(keys[0], c, b, a);
            lemma_rows_order_transitive(keys.skip(1), a, b, c);
        }
    }
}

/// Rows tied with the same row are tied with each other.
pub proof fn lemma_ties_are_shared(
    keys: Seq<SortOrder>,
    a: Seq<Seq<char>>,
    b: Seq<Seq<char>>,
    c: Seq<Seq<char>>,
)
    requires
        rows_order(keys, a, b) == 0,
    ensures
        rows_order(keys, a, c) == rows_order(keys, b, c),
        rows_order(keys, c, a) == rows_order(keys, c, b),
{
    lemma_rows_order_antisymmetric(keys, a, b);
    lemma_rows_order_antisymmetric(keys, a, c);
    lemma_rows_order_antisymmetric(keys, b, c);
    lemma_rows_order_sign(keys, a, c);
    lemma_rows_order_sign(keys, b, c);
    if rows_order(keys, a, c) <= 0 {
        lemma_rows_order_transitive(keys, b, a, c);
    }
    if rows_order(keys, b, c) <= 0 {
        lemma_rows_order_transitive(keys, a, b, c);
    }
    if rows_order(keys, c, a) <= 0 {
        lemma_rows_order_transitive(keys, c, a, b);
    }
    if rows_order(keys, c, b) <= 0 {
        lemma_rows_order_transitive(keys, c, b, a);
    }
}

/// `rows_order` is -1, 0 or 1.
pub proof fn lemma_rows_order_sign(keys: Seq<SortOrder>, a: Seq<Seq<char>>, b: Seq<Seq<char>>)
    ensures
        -1 <= rows_order(keys, a, b) <= 1,
    decreases keys.len(),
{
    if keys.len() > 0 {
        lemma_lex_order_sign(field_at(a, keys[0].column as int), field_at(b, keys[0].column as int));
        lemma_rows_order_sign(keys.skip(1), a, b);
    }
}

} // verus!
