//! Text helpers: conversion, comparison, decimal rendering and decimal parsing, each over
//! `Seq<char>`.

use vstd::prelude::*;

verus! {

/// `String::from` on a `&str`.
///
/// Claimed: the result holds the same characters.
pub assume_specification<'a>[ <String as From<&'a str>>::from ](text: &str) -> (out: String)
    ensures
        out@ == text@,
;

/// `From::from` from a type to itself.
///
/// Claimed: the argument is returned unchanged.
pub assume_specification<Value>[ <Value as std::convert::From<Value>>::from ](value: Value) -> (out:
    Value)
    ensures
        out == value,
;

/// Whether two texts hold the same characters.
pub fn same_text(a: &str, b: &str) -> (same: bool)
    ensures
        same == (a@ == b@),
{
    let x: String = a.to_string();
    let y: String = b.to_string();
    x == y
}

/// The decimal digit that stands for `d`.
pub open spec fn digit(d: nat) -> char {
    (48 + d) as char
}

/// The value of a decimal digit.
pub open spec fn digit_value(c: char) -> int {
    c as int - 48
}

/// Whether `c` is one of `0` to `9`.
pub open spec fn is_digit(c: char) -> bool {
    '0' <= c <= '9'
}

/// The decimal text of `n`, without leading zeros.
pub open spec fn decimal(n: nat) -> Seq<char>
    decreases n,
{
    if n < 10 {
        seq![digit(n)]
    } else {
        decimal(n / 10).push(digit(n % 10))
    }
}

fn digit_text(d: u128) -> (text: &'static str)
    requires
        d < 10,
    ensures
        text@ == seq![digit(d as nat)],
{
    proof {
        reveal_strlit("0");
        reveal_strlit("1");
        reveal_strlit("2");
        reveal_strlit("3");
        reveal_strlit("4");
        reveal_strlit("5");
        reveal_strlit("6");
        reveal_strlit("7");
        reveal_strlit("8");
        reveal_strlit("9");
    }
    if d == 0 {
        "0"
    } else if d == 1 {
        "1"
    } else if d == 2 {
        "2"
    } else if d == 3 {
        "3"
    } else if d == 4 {
        "4"
    } else if d == 5 {
        "5"
    } else if d == 6 {
        "6"
    } else if d == 7 {
        "7"
    } else if d == 8 {
        "8"
    } else {
        "9"
    }
}

/// Appends the decimal text of `n`.
pub fn push_decimal(out: &mut String, n: u128)
    ensures
        final(out)@ == old(out)@ + decimal(n as nat),
    decreases n,
{
    if n >= 10 {
        push_decimal(out, n / 10);
    }
    out.append(digit_text(n % 10));
    assert(out@ =~= old(out)@ + decimal(n as nat));
}

/// The number that a run of digits writes.
pub open spec fn digits_value(s: Seq<char>) -> int
    decreases s.len(),
{
    if s.len() == 0 {
        0
    } else {
        10 * digits_value(s.drop_last()) + digit_value(s.last())
    }
}

/// Whether `s` is a run of at least one digit.
pub open spec fn is_number(s: Seq<char>) -> bool {
    s.len() > 0 && forall|i: int| 0 <= i < s.len() ==> is_digit(#[trigger] s[i])
}

/// The integer that `s` writes: an optional sign, then at least one digit, and nothing else.
pub open spec fn integer_of(s: Seq<char>) -> Option<int> {
    if is_number(s) {
        Some(digits_value(s))
    } else if s.len() > 0 && s[0] == '+' && is_number(s.skip(1)) {
        Some(digits_value(s.skip(1)))
    } else if s.len() > 0 && s[0] == '-' && is_number(s.skip(1)) {
        Some(-digits_value(s.skip(1)))
    } else {
        None
    }
}

/// The value of `s` as an `i64`, if `s` writes an integer of that range.
pub open spec fn i64_of(s: Seq<char>) -> Option<i64> {
    match integer_of(s) {
        Some(v) => if i64::MIN <= v <= i64::MAX {
            Some(v as i64)
        } else {
            None
        },
        None => None,
    }
}

proof fn lemma_digits_value_grows(s: Seq<char>, i: int)
    requires
        0 <= i <= s.len(),
        forall|j: int| 0 <= j < s.len() ==> is_digit(#[trigger] s[j]),
    ensures
        0 <= digits_value(s.take(i)) <= digits_value(s),
    decreases s.len(),
{
    if i == s.len() {
        assert(s.take(i) =~= s);
        if i > 0 {
            lemma_digits_value_grows(s.drop_last(), i - 1);
            assert(s.drop_last().take(i - 1) =~= s.drop_last());
            assert(is_digit(s[i - 1]));
        }
    } else {
        lemma_digits_value_grows(s.drop_last(), i);
        assert(s.drop_last().take(i) =~= s.take(i));
        assert(is_digit(s[s.len() - 1]));
    }
}

/// Parses an optionally signed decimal integer.
pub fn parse_i64(text: &str) -> (out: Option<i64>)
    ensures
        out == i64_of(text@),
{
    let n: usize = text.unicode_len();
    if n == 0 {
        return None;
    }
    let first: char = text.get_char(0);
    let minus: bool = first == '-';
    let start: usize = if minus || first == '+' {
        1
    } else {
        0
    };
    let ghost digits = text@.skip(start as int);
    proof {
        assert(text@.skip(0) =~= text@);
        if start == 1 {
            assert(!is_digit(text@[0]));
        }
    }
    if start == n {
        return None;
    }
    let mut i: usize = start;
    let mut value: i128 = 0;
    while i < n
        invariant
            start < n,
            start <= i <= n,
            n == text@.len(),
            digits == text@.skip(start as int),
            start == 0 || start == 1,
            text@.len() > 0,
            start == 1 <==> (text@[0] == '-' || text@[0] == '+'),
            start == 0 ==> digits == text@,
            forall|j: int| 0 <= j < i - start ==> is_digit(#[trigger] digits[j]),
            value == digits_value(digits.take(i - start)),
            0 <= value <= 0x8000_0000_0000_0000,
        decreases n - i,
    {
        let c: char = text.get_char(i);
        assert(c == digits[i - start]);
        if !(c >= '0' && c <= '9') {
            assert(!is_number(digits));
            assert(start == 1 ==> !is_digit(text@[0]));
            return None;
        }
        let ghost before = digits.take(i - start);
        let d: i128 = (c as u32 - 48) as i128;
        value = 10 * value + d;
        assert(digits.take(i + 1 - start).drop_last() =~= before);
        if value > 0x8000_0000_0000_0000 {
            proof {
                if is_number(digits) {
                    lemma_digits_value_grows(digits, i + 1 - start);
                }
                assert(start == 1 ==> !is_digit(text@[0]));
            }
            return None;
        }
        i += 1;
    }
    proof {
        assert(digits.take(n - start) =~= digits);
        assert(is_number(digits));
        assert(start == 1 ==> !is_digit(text@[0]));
    }
    let signed: i128 = if minus {
        -value
    } else {
        value
    };
    if signed > 0x7fff_ffff_ffff_ffff {
        return None;
    }
    Some(signed as i64)
}

/// Parsing undoes rendering: the decimal text of an `i64` that is not negative is read back as it.
pub proof fn law_parse_undoes_decimal(n: nat)
    requires
        n <= i64::MAX,
    ensures
        i64_of(decimal(n)) == Some(n as i64),
{
    lemma_decimal_is_number(n);
}

proof fn lemma_decimal_is_number(n: nat)
    ensures
        is_number(decimal(n)),
        digits_value(decimal(n)) == n,
    decreases n,
{
    reveal_with_fuel(digits_value, 2);
    assert(decimal(n).last() == digit(n % 10));
    assert(digit_value(digit(n % 10)) == n % 10);
    if n >= 10 {
        lemma_decimal_is_number(n / 10);
        assert(decimal(n).drop_last() =~= decimal(n / 10));
    } else {
        assert(decimal(n).drop_last() =~= Seq::<char>::empty());
    }
}

/// A number is written digit by digit: one below ten as its digit, and any other as the text of its
/// tenth part and the digit that is left over.
pub proof fn law_decimal_goes_digit_by_digit(n: nat, d: nat)
    requires
        d < 10,
    ensures
        decimal(d) == seq![(48 + d) as char],
        n > 0 ==> decimal(10 * n + d) == decimal(n).push((48 + d) as char),
{
    if n > 0 {
        assert((10 * n + d) / 10 == n);
        assert((10 * n + d) % 10 == d);
    }
}

proof fn lemma_leading_zero(s: Seq<char>)
    requires
        is_number(s),
    ensures
        is_number(seq!['0'] + s),
        digits_value(seq!['0'] + s) == digits_value(s),
    decreases s.len(),
{
    let t = seq!['0'] + s;
    assert forall|i: int| 0 <= i < t.len() implies is_digit(#[trigger] t[i]) by {
        if i > 0 {
            assert(t[i] == s[i - 1]);
        }
    }
    assert(t.last() == s.last());
    if s.len() == 1 {
        reveal_with_fuel(digits_value, 3);
        assert(t.drop_last() =~= seq!['0']);
        assert(t.drop_last().drop_last() =~= Seq::<char>::empty());
        assert(s.drop_last() =~= Seq::<char>::empty());
    } else {
        let rest = s.drop_last();
        assert forall|i: int| 0 <= i < rest.len() implies is_digit(#[trigger] rest[i]) by {
            assert(rest[i] == s[i]);
        }
        lemma_leading_zero(rest);
        assert(t.drop_last() =~= seq!['0'] + rest);
    }
}

/// Reading undoes writing, for every number of the range and under either sign, and says so where a
/// number is out of range. A leading zero changes nothing.
pub proof fn law_parse_reads_every_number(n: nat, s: Seq<char>)
    ensures
        i64_of(decimal(n)) == if n <= 0x7fff_ffff_ffff_ffff {
            Some(n as i64)
        } else {
            None
        },
        i64_of(seq!['+'] + decimal(n)) == i64_of(decimal(n)),
        i64_of(seq!['-'] + decimal(n)) == if n <= 0x8000_0000_0000_0000 {
            Some((-n) as i64)
        } else {
            None
        },
        s.len() > 0 && (forall|i: int| 0 <= i < s.len() ==> '0' <= #[trigger] s[i] <= '9') ==> {
            &&& i64_of(seq!['0'] + s) == i64_of(s)
            &&& i64_of(seq!['+', '0'] + s) == i64_of(seq!['+'] + s)
            &&& i64_of(seq!['-', '0'] + s) == i64_of(seq!['-'] + s)
        },
{
    lemma_decimal_is_number(n);
    let plus = seq!['+'] + decimal(n);
    let minus = seq!['-'] + decimal(n);
    assert(plus.skip(1) =~= decimal(n));
    assert(minus.skip(1) =~= decimal(n));
    assert(!is_digit(plus[0]) && !is_digit(minus[0]));
    if s.len() > 0 && (forall|i: int| 0 <= i < s.len() ==> '0' <= #[trigger] s[i] <= '9') {
        assert forall|i: int| 0 <= i < s.len() implies is_digit(#[trigger] s[i]) by {}
        lemma_leading_zero(s);
        let zero = seq!['0'] + s;
        let p0 = seq!['+', '0'] + s;
        let m0 = seq!['-', '0'] + s;
        let p = seq!['+'] + s;
        let m = seq!['-'] + s;
        assert(p0.skip(1) =~= zero && m0.skip(1) =~= zero);
        assert(p.skip(1) =~= s && m.skip(1) =~= s);
        assert(!is_digit(p0[0]) && !is_digit(m0[0]) && !is_digit(p[0]) && !is_digit(m[0]));
    }
}

/// Nothing but a number is read as one: what is read is one or more digits, behind one sign or
/// none.
pub proof fn law_parse_reads_only_numbers(s: Seq<char>)
    requires
        i64_of(s) is Some,
    ensures
        ({
            let start: int = if s.len() > 0 && (s[0] == '+' || s[0] == '-') {
                1
            } else {
                0
            };
            &&& start < s.len()
            &&& forall|i: int| start <= i < s.len() ==> '0' <= #[trigger] s[i] <= '9'
        }),
{
    if is_number(s) {
        assert(is_digit(s[0]));
    } else {
        let rest = s.skip(1);
        assert forall|i: int| 1 <= i < s.len() implies '0' <= #[trigger] s[i] <= '9' by {
            assert(is_digit(rest[i - 1]));
        }
    }
}

} // verus!
