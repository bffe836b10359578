//! Text as a sequence of characters: searching it, and reading decimal numbers from it.

use vstd::prelude::*;

verus! {

/// Where `c` first occurs in `s`; the length of `s` where it does not occur.
pub open spec fn first_index(s: Seq<char>, c: char) -> int
    decreases s.len(),
{
    if s.len() == 0 || s[0] == c {
        0
    } else {
        1 + first_index(s.drop_first(), c)
    }
}

/// The part of `s` before the first `c`; all of `s` where `c` does not occur.
pub open spec fn until(s: Seq<char>, c: char) -> Seq<char> {
    s.take(first_index(s, c))
}

/// `first_index` is the one position before which `c` does not occur and
/// at which, if it lies inside `s`, `c` stands.
pub proof fn lemma_first_index(s: Seq<char>, c: char, i: int)
    requires
        0 <= i <= s.len(),
        forall|j: int| 0 <= j < i ==> s[j] != c,
        i < s.len() ==> s[i] == c,
    ensures
        first_index(s, c) == i,
    decreases i,
{
    if i > 0 {
        let t = s.drop_first();
        assert forall|j: int| 0 <= j < i - 1 implies t[j] != c by {
            assert(t[j] == s[j + 1]);
        }
        lemma_first_index(t, c, i - 1);
    }
}

/// What `first_index` finds: a position inside `s` or at its end, with no
/// `c` before it and, inside `s`, `c` at it.
pub proof fn lemma_first_index_found(s: Seq<char>, c: char)
    ensures
        0 <= first_index(s, c) <= s.len(),
        forall|j: int| 0 <= j < first_index(s, c) ==> s[j] != c,
        first_index(s, c) < s.len() ==> s[first_index(s, c)] == c,
    decreases s.len(),
{
    if s.len() == 0 || s[0] == c {
    } else {
        let t = s.drop_first();
        lemma_first_index_found(t, c);
        assert forall|j: int| 0 <= j < first_index(s, c) implies s[j] != c by {
            if j > 0 {
                assert(s[j] == t[j - 1]);
            }
        }
    }
}

/// Is `c` one of the ten decimal digits?
pub open spec fn is_digit(c: char) -> bool {
    '0' <= c <= '9'
}

/// The number that the digit `c` stands for.
pub open spec fn digit_value(c: char) -> int {
    c as int - '0' as int
}

/// Is `s` a decimal numeral: one digit or more, and nothing else?
pub open spec fn is_numeral(s: Seq<char>) -> bool {
    s.len() > 0 && forall|i: int| 0 <= i < s.len() ==> is_digit(#[trigger] s[i])
}

/// The number that a row of digits denotes in base ten.
pub open spec fn decimal_value(digits: Seq<char>) -> int
    decreases digits.len(),
{
    if digits.len() == 0 {
        0
    } else {
        10 * decimal_value(digits.drop_last()) + digit_value(digits.last())
    }
}

/// The integer that `field` denotes: a numeral, which a single `+` or `-`
/// may precede. `None` where `field` is anything else.
pub open spec fn signed_decimal(field: Seq<char>) -> Option<int> {
    if field.len() > 0 && field[0] == '-' {
        if is_numeral(field.drop_first()) {
            Some(-decimal_value(field.drop_first()))
        } else {
            None
        }
    } else if field.len() > 0 && field[0] == '+' {
        if is_numeral(field.drop_first()) {
            Some(decimal_value(field.drop_first()))
        } else {
            None
        }
    } else if is_numeral(field) {
        Some(decimal_value(field))
    } else {
        None
    }
}

/// A row of digits denotes no negative number.
pub proof fn lemma_decimal_value_nonnegative(digits: Seq<char>)
    requires
        forall|i: int| 0 <= i < digits.len() ==> is_digit(#[trigger] digits[i]),
    ensures
        decimal_value(digits) >= 0,
    decreases digits.len(),
{
    if digits.len() > 0 {
        let init = digits.drop_last();
        assert forall|i: int| 0 <= i < init.len() implies is_digit(#[trigger] init[i]) by {
            assert(init[i] == digits[i]);
        }
        lemma_decimal_value_nonnegative(init);
        assert(is_digit(digits[digits.len() - 1]));
    }
}

/// The digit that stands for `d`, for `d` from 0 to 9.
pub open spec fn digit_char(d: int) -> char {
    ('0' as int + d) as char
}

/// A natural number in decimal, without leading zeros.
pub open spec fn decimal_text(n: nat) -> Seq<char>
    decreases n,
{
    if n < 10 {
        seq![digit_char(n as int)]
    } else {
        decimal_text(n / 10).push(digit_char(n as int % 10))
    }
}

/// An integer in decimal: a `-` before the negative ones, no sign before
/// the others.
pub open spec fn integer_text(n: int) -> Seq<char> {
    if n < 0 {
        seq!['-'] + decimal_text((-n) as nat)
    } else {
        decimal_text(n as nat)
    }
}

/// The decimal text of a number is a numeral that denotes it.
pub proof fn lemma_decimal_text(n: nat)
    ensures
        is_numeral(decimal_text(n)),
        decimal_value(decimal_text(n)) == n,
    decreases n,
{
    let t = decimal_text(n);
    if n < 10 {
        assert(t.drop_last() =~= Seq::<char>::empty());
        reveal_with_fuel(decimal_value, 2);
    } else {
        lemma_decimal_text(n / 10);
        assert(t.drop_last() =~= decimal_text(n / 10));
        assert forall|i: int| 0 <= i < t.len() implies is_digit(#[trigger] t[i]) by {
            if i < t.len() - 1 {
                assert(t[i] == decimal_text(n / 10)[i]);
            }
        }
    }
}

/// The decimal text of an integer is read back as that integer.
pub proof fn lemma_integer_text(n: int)
    ensures
        signed_decimal(integer_text(n)) == Some(n),
        forall|i: int|
            0 <= i < integer_text(n).len() ==> (is_digit(#[trigger] integer_text(n)[i])
                || integer_text(n)[i] == '-'),
{
    let t = integer_text(n);
    if n < 0 {
        lemma_decimal_text((-n) as nat);
        assert(t.drop_first() =~= decimal_text((-n) as nat));
        assert forall|i: int| 0 <= i < t.len() implies (is_digit(#[trigger] t[i]) || t[i] == '-') by {
            if i > 0 {
                assert(t[i] == decimal_text((-n) as nat)[i - 1]);
            }
        }
    } else {
        lemma_decimal_text(n as nat);
        assert(is_digit(t[0]));
    }
}

/// The number that a decimal digit stands for.
pub(crate) fn digit_of(c: char) -> (d: u8)
    requires
        is_digit(c),
    ensures
        d == digit_value(c),
        d <= 9,
{
    (c as u32 - '0' as u32) as u8
}

/// The characters of `s`, in order.
pub(crate) fn chars_of(s: &str) -> (v: Vec<char>)
    ensures
        v@ == s@,
{
    let mut v: Vec<char> = Vec::new();
    for c in it: s.chars()
        invariant
            v@ == it.seq().take(it.index() as int),
            it.seq() == s@,
    {
        v.push(c);
    }
    v
}

/// The first position before `limit` at which `c` stands in `text`, or
/// `limit` where there is none.
pub(crate) fn find_char(text: &Vec<char>, limit: usize, c: char) -> (at: usize)
    requires
        limit <= text@.len(),
    ensures
        at == first_index(text@.take(limit as int), c),
{
    let mut i: usize = 0;
    while i < limit && text[i] != c
        invariant
            i <= limit <= text@.len(),
            forall|j: int| 0 <= j < i ==> text@[j] != c,
        decreases limit - i,
    {
        i += 1;
    }
    proof {
        lemma_first_index(text@.take(limit as int), c, i as int);
    }
    i
}

} // verus!
