//! The status line of a response, and what its code means.
//!
//! A response opens with a line whose first field is a decimal status code.
//! Code 0 reports success, the codes 1 to 6 each name a failure, and every
//! other code, like a field that is no number at all, is unrecognized.

use crate::text::{
    chars_of, decimal_value, digit_of, find_char, first_index, integer_text, is_digit, is_numeral,
    lemma_decimal_value_nonnegative, lemma_first_index, lemma_first_index_found,
    lemma_integer_text, signed_decimal, until,
};
use vstd::prelude::*;
use vstd::string::StringExecFns;

verus! {

/// A failure that the server reports through the status code of a response.
#[derive(Debug, Clone, Copy, PartialEq, Eq, Structural)]
pub enum ResponseError {
    /// Code 1: the command was not understood.
    CommandError,
    /// Code 2: the credentials were refused.
    LoginError,
    /// Code 3: the server's database failed.
    DbError,
    /// Code 4: the address was refused.
    IpAddressError,
    /// Code 5: the server could not reach what it needed.
    NoConnection,
    /// Code 6: the host or domain is unknown.
    NotFound,
}

impl ResponseError {
    /// The failure that a status code names; `None` for a code that names none.
    pub open spec fn of_code(code: int) -> Option<ResponseError> {
        if code == 1 {
            Some(ResponseError::CommandError)
        } else if code == 2 {
            Some(ResponseError::LoginError)
        } else if code == 3 {
            Some(ResponseError::DbError)
        } else if code == 4 {
            Some(ResponseError::IpAddressError)
        } else if code == 5 {
            Some(ResponseError::NoConnection)
        } else if code == 6 {
            Some(ResponseError::NotFound)
        } else {
            None
        }
    }

    /// The name of this failure, as `to_string` gives it.
    pub open spec fn name(self) -> Seq<char> {
        match self {
            ResponseError::CommandError => "CommandError"@,
            ResponseError::LoginError => "LoginError"@,
            ResponseError::DbError => "DbError"@,
            ResponseError::IpAddressError => "IpAddressError"@,
            ResponseError::NoConnection => "NoConnection"@,
            ResponseError::NotFound => "NotFound"@,
        }
    }

    /// What this failure means, as `description` gives it.
    pub open spec fn meaning(self) -> Seq<char> {
        match self {
            ResponseError::CommandError => "Invalid command"@,
            ResponseError::LoginError => "Login failed"@,
            ResponseError::DbError => "Database error"@,
            ResponseError::IpAddressError => "Invalid ip address"@,
            ResponseError::NoConnection => "Connection error"@,
            ResponseError::NotFound => "Host or domain name not found"@,
        }
    }

    /// The name of this failure.
    pub fn to_string(&self) -> (s: String)
        ensures
            s@ == self.name(),
    {
        match self {
            ResponseError::CommandError => String::from_str("CommandError"),
            ResponseError::LoginError => String::from_str("LoginError"),
            ResponseError::DbError => String::from_str("DbError"),
            ResponseError::IpAddressError => String::from_str("IpAddressError"),
            ResponseError::NoConnection => String::from_str("NoConnection"),
            ResponseError::NotFound => String::from_str("NotFound"),
        }
    }

    /// A few words on what this failure means.
    pub fn description(&self) -> (s: &'static str)
        ensures
            s@ == self.meaning(),
    {
        match self {
            ResponseError::CommandError => "Invalid command",
            ResponseError::LoginError => "Login failed",
            ResponseError::DbError => "Database error",
            ResponseError::IpAddressError => "Invalid ip address",
            ResponseError::NoConnection => "Connection error",
            ResponseError::NotFound => "Host or domain name not found",
        }
    }
}

/// The first line of a response, without its line end.
pub open spec fn first_line(res: Seq<char>) -> Seq<char> {
    until(res, '\n')
}

/// The leading field of a response: its first line as far as the first space.
pub open spec fn leading_field(res: Seq<char>) -> Seq<char> {
    until(first_line(res), ' ')
}

/// The status code of a response, where its leading field is a number.
pub open spec fn status_code(res: Seq<char>) -> Option<int> {
    signed_decimal(leading_field(res))
}

/// What a response reports: success for code 0, the failure that the code
/// names for 1 to 6, and an unrecognized failure (`Err(None)`) for every
/// other code and for a leading field that is no number.
pub open spec fn response_outcome(res: Seq<char>) -> Result<(), Option<ResponseError>> {
    match status_code(res) {
        Some(code) => if code == 0 {
            Ok(())
        } else {
            Err(ResponseError::of_code(code))
        },
        None => Err(None),
    }
}

/// A status code as far as it matters: itself from 0 to 6, and 7 for all above.
spec fn capped(n: int) -> int {
    if n > 6 {
        7
    } else {
        n
    }
}

/// Classifies a response by the status code in its first line.
pub fn res_verify(res: &str) -> (r: Result<(), Option<ResponseError>>)
    ensures
        r == response_outcome(res@),
{
    let text = chars_of(res);
    let line_end = find_char(&text, text.len(), '\n');
    assert(text@.take(text@.len() as int) =~= text@);
    proof {
        lemma_first_index_found(text@, '\n');
    }
    let end = find_char(&text, line_end, ' ');
    proof {
        lemma_first_index_found(first_line(res@), ' ');
    }
    let ghost field = leading_field(res@);
    assert(field =~= text@.take(end as int));
    let negative = end > 0 && text[0] == '-';
    let start: usize = if end > 0 && (text[0] == '-' || text[0] == '+') {
        1
    } else {
        0
    };
    let ghost digits = text@.subrange(start as int, end as int);
    assert(start == 1 ==> digits =~= field.drop_first());
    assert(start == 0 ==> digits =~= field);
    assert(!is_numeral(digits) ==> response_outcome(res@) == Err::<(), Option<ResponseError>>(None));
    if start == end {
        return Err(None);
    }
    let mut acc: u8 = 0;
    let mut i: usize = start;
    while i < end
        invariant
            start <= i <= end <= text@.len(),
            digits == text@.subrange(start as int, end as int),
            !is_numeral(digits) ==> response_outcome(res@) == Err::<(), Option<ResponseError>>(None),
            forall|j: int| 0 <= j < i - start ==> is_digit(#[trigger] digits[j]),
            acc == capped(decimal_value(digits.take(i - start))),
            0 <= acc <= 7,
        decreases end - i,
    {
        let c = text[i];
        if c < '0' || c > '9' {
            assert(!is_digit(digits[i - start]));
            return Err(None);
        }
        let d: u8 = digit_of(c);
        proof {
            let before = digits.take(i - start);
            let after = digits.take(i - start + 1);
            assert(after.drop_last() =~= before);
            assert(after.last() == c);
            assert forall|j: int| 0 <= j < before.len() implies is_digit(#[trigger] before[j]) by {
                assert(before[j] == digits[j]);
            }
            lemma_decimal_value_nonnegative(before);
        }
        let next: u8 = acc * 10 + d;
        acc = if next > 6 {
            7
        } else {
            next
        };
        i += 1;
    }
    assert(digits.take(end - start) =~= digits);
    assert(is_numeral(digits));
    if acc == 0 {
        Ok(())
    } else if negative {
        Err(None)
    } else if acc == 1 {
        Err(Some(ResponseError::CommandError))
    } else if acc == 2 {
        Err(Some(ResponseError::LoginError))
    } else if acc == 3 {
        Err(Some(ResponseError::DbError))
    } else if acc == 4 {
        Err(Some(ResponseError::IpAddressError))
    } else if acc == 5 {
        Err(Some(ResponseError::NoConnection))
    } else if acc == 6 {
        Err(Some(ResponseError::NotFound))
    } else {
        Err(None)
    }
}

/// A field without space or line end, a space and anything behind it:
/// of such a response the field alone decides the outcome.
pub proof fn lemma_leading_field(field: Seq<char>, rest: Seq<char>)
    requires
        !field.contains(' '),
        !field.contains('\n'),
    ensures
        leading_field(field + seq![' '] + rest) == field,
{
    let res = field + seq![' '] + rest;
    lemma_first_index_found(res, '\n');
    let line = first_line(res);
    assert(first_index(res, '\n') > field.len()) by {
        let at = first_index(res, '\n');
        if at < field.len() {
            assert(res[at] == field[at]);
            assert(field.contains(field[at]));
        }
    }
    assert forall|j: int| 0 <= j < field.len() implies line[j] != ' ' by {
        assert(line[j] == field[j]);
        assert(field.contains(field[j]));
    }
    assert(line[field.len() as int] == ' ');
    lemma_first_index(line, ' ', field.len() as int);
    assert(line.take(field.len() as int) =~= field);
}

/// A response that opens with a status code in decimal and a space
/// reports success for code 0, the failure that the code names for 1 to
/// 6, and an unrecognized failure for every other code.
pub proof fn lemma_outcome_of_code(code: int, rest: Seq<char>)
    ensures
        response_outcome(integer_text(code) + seq![' '] + rest) == if code == 0 {
            Ok::<(), Option<ResponseError>>(())
        } else {
            Err(ResponseError::of_code(code))
        },
        !(0 <= code <= 6) ==> response_outcome(integer_text(code) + seq![' '] + rest) == Err::<
            (),
            Option<ResponseError>,
        >(None),
{
    let field = integer_text(code);
    lemma_integer_text(code);
    assert(!field.contains(' ')) by {
        if field.contains(' ') {
            let i = choose|i: int| 0 <= i < field.len() && field[i] == ' ';
            assert(is_digit(field[i]) || field[i] == '-');
        }
    }
    assert(!field.contains('\n')) by {
        if field.contains('\n') {
            let i = choose|i: int| 0 <= i < field.len() && field[i] == '\n';
            assert(is_digit(field[i]) || field[i] == '-');
        }
    }
    lemma_leading_field(field, rest);
}

/// A response whose leading field is no number is unrecognized.
pub proof fn lemma_outcome_of_other_field(field: Seq<char>, rest: Seq<char>)
    requires
        !field.contains(' '),
        !field.contains('\n'),
        signed_decimal(field) is None,
    ensures
        response_outcome(field + seq![' '] + rest) == Err::<(), Option<ResponseError>>(None),
{
    lemma_leading_field(field, rest);
}

} // verus!
