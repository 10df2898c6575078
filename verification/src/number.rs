//! Decimal integer literals: what a run of characters denotes, and parsers
//! for the integer types the options use.
use vstd::prelude::*;

verus! {

/// Whether `c` is one of `0` to `9`.
pub open spec fn is_digit(c: char) -> bool {
    '0' <= c && c <= '9'
}

/// The value of the digit `c`.
pub open spec fn digit_value(c: char) -> nat
    recommends
        is_digit(c),
{
    (c as int - '0' as int) as nat
}

/// Whether `s` holds digits only.
pub open spec fn all_digits(s: Seq<char>) -> bool {
    forall|i: int| 0 <= i < s.len() ==> is_digit(#[trigger] s[i])
}

/// The number that the digits `s` denote in base ten.
pub open spec fn decimal_value(s: Seq<char>) -> nat
    recommends
        all_digits(s),
    decreases s.len(),
{
    if s.len() == 0 {
        0
    } else {
        decimal_value(s.drop_last()) * 10 + digit_value(s.last())
    }
}

/// The number that `s` denotes if it is one digit or more, and nothing else.
pub open spec fn unsigned_literal(s: Seq<char>) -> Option<nat> {
    if s.len() > 0 && all_digits(s) {
        Some(decimal_value(s))
    } else {
        None
    }
}

/// The integer that `s` denotes: digits after an optional `+`, or, where
/// `signed`, after an optional `-`. Anything else denotes nothing.
pub open spec fn integer_literal(s: Seq<char>, signed: bool) -> Option<int> {
    if s.len() > 0 && s[0] == '+' {
        match unsigned_literal(s.skip(1)) {
            Some(v) => Some(v as int),
            None => None,
        }
    } else if signed && s.len() > 0 && s[0] == '-' {
        match unsigned_literal(s.skip(1)) {
            Some(v) => Some(-(v as int)),
            None => None,
        }
    } else {
        match unsigned_literal(s) {
            Some(v) => Some(v as int),
            None => None,
        }
    }
}

/// The integer that `s` denotes, if it lies between `min` and `max`.
pub open spec fn integer_in(s: Seq<char>, signed: bool, min: int, max: int) -> Option<int> {
    match integer_literal(s, signed) {
        Some(v) => if min <= v <= max {
            Some(v)
        } else {
            None
        },
        None => None,
    }
}

/// The `isize` that `s` denotes.
pub open spec fn isize_literal(s: Seq<char>) -> Option<int> {
    integer_in(s, true, isize::MIN as int, isize::MAX as int)
}

/// The `usize` that `s` denotes.
pub open spec fn usize_literal(s: Seq<char>) -> Option<int> {
    integer_in(s, false, 0, usize::MAX as int)
}

/// The `i64` that `s` denotes.
pub open spec fn i64_literal(s: Seq<char>) -> Option<int> {
    integer_in(s, true, i64::MIN as int, i64::MAX as int)
}

/// A run of digits denotes no less than any of its prefixes.
pub proof fn lemma_decimal_value_grows(s: Seq<char>, k: int)
    requires
        all_digits(s),
        0 <= k <= s.len(),
    ensures
        decimal_value(s.take(k)) <= decimal_value(s),
    decreases s.len() - k,
{
    if k == s.len() {
        assert(s.take(k) == s);
    } else {
        lemma_decimal_value_grows(s.drop_last(), k);
        assert(s.drop_last().take(k) == s.take(k));
    }
}

/// The digit that stands for `d`.
pub open spec fn digit_char(d: nat) -> char
    recommends
        d < 10,
{
    ('0' as int + d) as char
}

/// `n` written in base ten, without leading zeros.
pub open spec fn decimal_digits(n: nat) -> Seq<char>
    decreases n,
{
    if n < 10 {
        seq![digit_char(n)]
    } else {
        decimal_digits(n / 10).push(digit_char(n % 10))
    }
}

/// `i` written in base ten: a `-` before the digits of a negative number,
/// no sign before the others.
pub open spec fn integer_text(i: int) -> Seq<char> {
    if i < 0 {
        seq!['-'] + decimal_digits((-i) as nat)
    } else {
        decimal_digits(i as nat)
    }
}

/// Whether `c` can stand in an integer written by `integer_text`.
pub open spec fn is_integer_char(c: char) -> bool {
    is_digit(c) || c == '-'
}

/// A number written in base ten is one digit or more, and denotes itself.
pub proof fn lemma_decimal_digits(n: nat)
    ensures
        decimal_digits(n).len() >= 1,
        all_digits(decimal_digits(n)),
        decimal_value(decimal_digits(n)) == n,
    decreases n,
{
    if n < 10 {
        let s = seq![digit_char(n)];
        assert(s.drop_last() == Seq::<char>::empty());
        assert(decimal_value(s.drop_last()) == 0);
        assert(s.last() == digit_char(n));
    } else {
        lemma_decimal_digits(n / 10);
        let s = decimal_digits(n);
        assert(s.drop_last() == decimal_digits(n / 10));
        assert(s.last() == digit_char(n % 10));
    }
}

/// Reading what `integer_text` wrote gives the integer back.
pub proof fn lemma_integer_text_round_trip(i: int)
    ensures
        integer_literal(integer_text(i), true) == Some(i),
        i >= 0 ==> integer_literal(integer_text(i), false) == Some(i),
        integer_text(i).len() >= 1,
        forall|k: int| 0 <= k < integer_text(i).len() ==> is_integer_char(#[trigger] integer_text(i)[k]),
{
    let s = integer_text(i);
    if i < 0 {
        let digits = decimal_digits((-i) as nat);
        lemma_decimal_digits((-i) as nat);
        assert(s[0] == '-');
        assert(s.skip(1) == digits);
        assert forall|k: int| 0 <= k < s.len() implies is_integer_char(#[trigger] s[k]) by {
            if k > 0 {
                assert(s[k] == digits[k - 1]);
            }
        }
    } else {
        lemma_decimal_digits(i as nat);
        assert(is_digit(s[0]));
    }
}

/// Text that holds anything but digits behind its first character denotes
/// no integer.
pub proof fn lemma_not_an_integer(s: Seq<char>, k: int, signed: bool)
    requires
        1 <= k < s.len(),
        !is_digit(s[k]),
    ensures
        integer_literal(s, signed) is None,
{
    assert(s.skip(1)[k - 1] == s[k]);
}

/// The digits `chars[from..to]` as a number no greater than `limit`.
fn parse_digits(chars: &Vec<char>, from: usize, to: usize, limit: u64) -> (r: Option<u64>)
    requires
        from <= to <= chars.len(),
    ensures
        r == match unsigned_literal(chars@.subrange(from as int, to as int)) {
            Some(v) => if v <= limit {
                Some(v as u64)
            } else {
                None
            },
            None => None::<u64>,
        },
{
    let ghost s = chars@.subrange(from as int, to as int);
    if from == to {
        return None;
    }
    let mut acc: u64 = 0;
    let mut i: usize = from;
    while i < to
        invariant
            from <= i <= to <= chars.len(),
            s == chars@.subrange(from as int, to as int),
            all_digits(s.take(i - from)),
            acc == decimal_value(s.take(i - from)),
            acc <= limit,
        decreases to - i,
    {
        let c = chars[i];
        let ghost k = i - from;
        proof {
            assert(s[k] == c);
            assert(s.take(k + 1).drop_last() == s.take(k));
            assert(s.take(k + 1).last() == c);
        }
        if !(c >= '0' && c <= '9') {
            return None;
        }
        let d: u64 = (c as u32 - '0' as u32) as u64;
        proof {
            assert(d == digit_value(c));
            assert(all_digits(s.take(k + 1))) by {
                assert forall|j: int| 0 <= j < k + 1 implies is_digit(
                    #[trigger] s.take(k + 1)[j],
                ) by {
                    if j < k {
                        assert(s.take(k)[j] == s.take(k + 1)[j]);
                    }
                }
            }
            if all_digits(s) {
                lemma_decimal_value_grows(s, k + 1);
            }
        }
        let next = match acc.checked_mul(10) {
            Some(m) => m.checked_add(d),
            None => None,
        };
        match next {
            Some(v) => {
                if v > limit {
                    return None;
                }
                acc = v;
            },
            None => {
                return None;
            },
        }
        i = i + 1;
    }
    proof {
        assert(s.take(to - from) == s);
    }
    Some(acc)
}

/// The integer that `chars[from..to]` denotes, as a sign and a magnitude:
/// `(true, m)` stands for `-m`. The magnitude is at most `most` after no sign
/// or `+`, and at most `least` after `-`.
fn parse_signed(chars: &Vec<char>, from: usize, to: usize, signed: bool, least: u64, most: u64) -> (r:
    Option<(bool, u64)>)
    requires
        from <= to <= chars.len(),
    ensures
        r == match integer_in(
            chars@.subrange(from as int, to as int),
            signed,
            -(least as int),
            most as int,
        ) {
            Some(v) => Some((v < 0, if v < 0 { (-v) as u64 } else { v as u64 })),
            None => None::<(bool, u64)>,
        },
{
    let ghost s = chars@.subrange(from as int, to as int);
    if from < to && chars[from] == '+' {
        proof {
            assert(s[0] == '+');
            assert(s.skip(1) == chars@.subrange(from + 1, to as int));
        }
        match parse_digits(chars, from + 1, to, most) {
            Some(m) => Some((false, m)),
            None => None,
        }
    } else if signed && from < to && chars[from] == '-' {
        proof {
            assert(s[0] == '-');
            assert(s.skip(1) == chars@.subrange(from + 1, to as int));
        }
        match parse_digits(chars, from + 1, to, least) {
            Some(m) => Some((m > 0, m)),
            None => None,
        }
    } else {
        proof {
            if from < to {
                assert(s[0] == chars[from as int]);
            }
        }
        match parse_digits(chars, from, to, most) {
            Some(m) => Some((false, m)),
            None => None,
        }
    }
}

/// Reads `chars[from..to]` as an `isize`: digits after an optional sign.
pub fn parse_isize(chars: &Vec<char>, from: usize, to: usize) -> (r: Option<isize>)
    requires
        from <= to <= chars.len(),
    ensures
        r == match isize_literal(chars@.subrange(from as int, to as int)) {
            Some(v) => Some(v as isize),
            None => None::<isize>,
        },
{
    let most: u64 = isize::MAX as u64;
    match parse_signed(chars, from, to, true, most + 1, most) {
        Some((negative, m)) => {
            if !negative {
                Some(m as isize)
            } else if m == most + 1 {
                Some(isize::MIN)
            } else {
                Some(-(m as isize))
            }
        },
        None => None,
    }
}

/// Reads `chars[from..to]` as a `usize`: digits after an optional `+`.
pub fn parse_usize(chars: &Vec<char>, from: usize, to: usize) -> (r: Option<usize>)
    requires
        from <= to <= chars.len(),
    ensures
        r == match usize_literal(chars@.subrange(from as int, to as int)) {
            Some(v) => Some(v as usize),
            None => None::<usize>,
        },
{
    match parse_signed(chars, from, to, false, 0, usize::MAX as u64) {
        Some((_, m)) => Some(m as usize),
        None => None,
    }
}

/// Reads `chars[from..to]` as an `i64`: digits after an optional sign.
pub fn parse_i64(chars: &Vec<char>, from: usize, to: usize) -> (r: Option<i64>)
    requires
        from <= to <= chars.len(),
    ensures
        r == match i64_literal(chars@.subrange(from as int, to as int)) {
            Some(v) => Some(v as i64),
            None => None::<i64>,
        },
{
    let most: u64 = 0x7fff_ffff_ffff_ffff;
    match parse_signed(chars, from, to, true, most + 1, most) {
        Some((negative, m)) => {
            if !negative {
                Some(m as i64)
            } else if m == most + 1 {
                Some(i64::MIN)
            } else {
                Some(-(m as i64))
            }
        },
        None => None,
    }
}

} // verus!
