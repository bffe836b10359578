//! IPv4 addresses and their dotted-quad text.
//!
//! The text of an address is its four octets in decimal, without leading
//! zeros, joined by dots. Only such a text is read as an address.

use crate::text::{
    chars_of, decimal_text, decimal_value, digit_char, digit_of, is_digit, lemma_decimal_text,
};
use vstd::prelude::*;
use vstd::string::StringExecFns;

verus! {

/// An IPv4 address, octet by octet from the most significant.
#[derive(Debug, Clone, Copy, PartialEq, Eq, Hash, Structural)]
pub struct Ipv4Address {
    pub a: u8,
    pub b: u8,
    pub c: u8,
    pub d: u8,
}

/// The reason why a text was not read as an address: it is not the
/// dotted-quad text of any.
#[derive(Debug, Clone, Copy, PartialEq, Eq, Structural)]
pub struct AddrParseError;

/// An octet in decimal, without leading zeros.
pub open spec fn octet_text(v: u8) -> Seq<char> {
    decimal_text(v as nat)
}

/// The dotted-quad text of an address.
pub open spec fn dotted_quad(addr: Ipv4Address) -> Seq<char> {
    octet_text(addr.a) + seq!['.'] + octet_text(addr.b) + seq!['.'] + octet_text(addr.c) + seq!['.']
        + octet_text(addr.d)
}

/// Is `s` the dotted-quad text of some address?
pub open spec fn is_dotted_quad(s: Seq<char>) -> bool {
    exists|addr: Ipv4Address| dotted_quad(addr) == s
}

/// The address whose dotted-quad text is `s`, if there is one.
pub open spec fn address_of(s: Seq<char>) -> Option<Ipv4Address> {
    if is_dotted_quad(s) {
        Some(choose|addr: Ipv4Address| dotted_quad(addr) == s)
    } else {
        None
    }
}

/// What reading an address gives: the address, or an error where there is none.
pub open spec fn address_result(addr: Option<Ipv4Address>) -> Result<Ipv4Address, AddrParseError> {
    match addr {
        Some(addr) => Ok(addr),
        None => Err(AddrParseError),
    }
}

/// Does the text of octet `v` stand in `s` from `at` to `end`, with no
/// further digit behind it?
pub open spec fn octet_stands(s: Seq<char>, at: int, v: u8, end: int) -> bool {
    &&& 0 <= at < end <= s.len()
    &&& s.subrange(at, end) == octet_text(v)
    &&& (end == s.len() || !is_digit(s[end]))
}

/// The text of an octet, digit by digit.
pub open spec fn octet_digits(v: u8) -> Seq<char> {
    let n = v as int;
    if n < 10 {
        seq![digit_char(n)]
    } else if n < 100 {
        seq![digit_char(n / 10), digit_char(n % 10)]
    } else {
        seq![digit_char(n / 100), digit_char(n / 10 % 10), digit_char(n % 10)]
    }
}

/// The text of an octet has one digit below 10, two below 100 and three
/// from there on.
pub proof fn lemma_octet_digits(v: u8)
    ensures
        octet_text(v) == octet_digits(v),
{
    reveal_with_fuel(decimal_text, 3);
    let n = v as nat;
    if n >= 100 {
        assert(decimal_text(n / 10) =~= seq![digit_char(n as int / 100), digit_char(n as int / 10 % 10)]);
    }
    assert(octet_text(v) =~= octet_digits(v));
}

/// The text of an octet is one to three digits that denote it, and begins
/// with a zero only where it is the single digit zero.
pub proof fn lemma_octet_text(v: u8)
    ensures
        1 <= octet_text(v).len() <= 3,
        forall|i: int| 0 <= i < octet_text(v).len() ==> is_digit(#[trigger] octet_text(v)[i]),
        decimal_value(octet_text(v)) == v,
        octet_text(v).len() > 1 ==> octet_text(v)[0] != '0',
{
    lemma_octet_digits(v);
    lemma_decimal_text(v as nat);
    assert(is_digit(octet_text(v)[0]));
}

/// One to three digits that denote `v` and begin with no needless zero
/// are the text of `v`.
pub proof fn lemma_digits_are_octet_text(digits: Seq<char>, v: u8)
    requires
        1 <= digits.len() <= 3,
        forall|i: int| 0 <= i < digits.len() ==> is_digit(#[trigger] digits[i]),
        digits.len() > 1 ==> digits[0] != '0',
        decimal_value(digits) == v,
    ensures
        octet_text(v) == digits,
{
    reveal_with_fuel(decimal_value, 4);
    lemma_octet_digits(v);
    assert(is_digit(digits[0]));
    if digits.len() == 1 {
        assert(digits.drop_last() =~= Seq::<char>::empty());
        assert(octet_text(v) =~= digits);
    } else if digits.len() == 2 {
        assert(is_digit(digits[1]));
        assert(digits.drop_last() =~= seq![digits[0]]);
        assert(digits.drop_last().drop_last() =~= Seq::<char>::empty());
        assert(octet_text(v) =~= digits);
    } else {
        assert(is_digit(digits[1]));
        assert(is_digit(digits[2]));
        assert(digits.drop_last() =~= seq![digits[0], digits[1]]);
        assert(digits.drop_last().drop_last() =~= seq![digits[0]]);
        assert(digits.drop_last().drop_last().drop_last() =~= Seq::<char>::empty());
        assert(octet_text(v) =~= digits);
    }
}

/// At one place of a text at most one octet stands.
pub proof fn lemma_octet_stands_once(s: Seq<char>, at: int, v: u8, end: int, w: u8, stop: int)
    requires
        octet_stands(s, at, v, end),
        octet_stands(s, at, w, stop),
    ensures
        v == w,
        end == stop,
{
    lemma_octet_text(v);
    lemma_octet_text(w);
    if end < stop {
        assert(s.subrange(at, stop)[end - at] == s[end]);
        assert(is_digit(octet_text(w)[end - at]));
    } else if stop < end {
        assert(s.subrange(at, end)[stop - at] == s[stop]);
        assert(is_digit(octet_text(v)[stop - at]));
    }
}

/// Where the four octets of an address stand in its text.
pub proof fn lemma_dotted_quad_shape(addr: Ipv4Address)
    ensures
        ({
            let s = dotted_quad(addr);
            let e0 = octet_text(addr.a).len() as int;
            let e1 = e0 + 1 + octet_text(addr.b).len();
            let e2 = e1 + 1 + octet_text(addr.c).len();
            let e3 = e2 + 1 + octet_text(addr.d).len();
            &&& s.len() == e3
            &&& octet_stands(s, 0, addr.a, e0)
            &&& s[e0] == '.'
            &&& octet_stands(s, e0 + 1, addr.b, e1)
            &&& s[e1] == '.'
            &&& octet_stands(s, e1 + 1, addr.c, e2)
            &&& s[e2] == '.'
            &&& octet_stands(s, e2 + 1, addr.d, e3)
        }),
{
    let s = dotted_quad(addr);
    let e0 = octet_text(addr.a).len() as int;
    let e1 = e0 + 1 + octet_text(addr.b).len();
    let e2 = e1 + 1 + octet_text(addr.c).len();
    let e3 = e2 + 1 + octet_text(addr.d).len();
    lemma_octet_text(addr.a);
    lemma_octet_text(addr.b);
    lemma_octet_text(addr.c);
    lemma_octet_text(addr.d);
    assert(s.subrange(0, e0) =~= octet_text(addr.a));
    assert(s.subrange(e0 + 1, e1) =~= octet_text(addr.b));
    assert(s.subrange(e1 + 1, e2) =~= octet_text(addr.c));
    assert(s.subrange(e2 + 1, e3) =~= octet_text(addr.d));
}

/// Two addresses with one text are one address.
pub proof fn lemma_dotted_quad_injective(x: Ipv4Address, y: Ipv4Address)
    requires
        dotted_quad(x) == dotted_quad(y),
    ensures
        x == y,
{
    let s = dotted_quad(x);
    lemma_dotted_quad_shape(x);
    lemma_dotted_quad_shape(y);
    let x0 = octet_text(x.a).len() as int;
    let y0 = octet_text(y.a).len() as int;
    lemma_octet_stands_once(s, 0, x.a, x0, y.a, y0);
    let x1 = x0 + 1 + octet_text(x.b).len();
    let y1 = y0 + 1 + octet_text(y.b).len();
    lemma_octet_stands_once(s, x0 + 1, x.b, x1, y.b, y1);
    let x2 = x1 + 1 + octet_text(x.c).len();
    let y2 = y1 + 1 + octet_text(y.c).len();
    lemma_octet_stands_once(s, x1 + 1, x.c, x2, y.c, y2);
    let x3 = x2 + 1 + octet_text(x.d).len();
    let y3 = y2 + 1 + octet_text(y.d).len();
    lemma_octet_stands_once(s, x2 + 1, x.d, x3, y.d, y3);
}

/// The text of an address is read back as that address.
pub proof fn lemma_address_of_dotted_quad(addr: Ipv4Address)
    ensures
        address_of(dotted_quad(addr)) == Some(addr),
{
    let s = dotted_quad(addr);
    assert(is_dotted_quad(s));
    let found = choose|x: Ipv4Address| dotted_quad(x) == s;
    lemma_dotted_quad_injective(found, addr);
}

/// A text that is read as an address is the text of that address.
pub proof fn lemma_dotted_quad_of_address(s: Seq<char>)
    requires
        address_of(s) is Some,
    ensures
        dotted_quad(address_of(s)->0) == s,
{
}

/// The text of one decimal digit.
fn digit_str(d: u8) -> (s: &'static str)
    requires
        d <= 9,
    ensures
        s@ == seq![digit_char(d as int)],
{
    proof {
        reveal_strlit("0");
        reveal_strlit("1");
        reveal_strlit("2");
        reveal_strlit("3");
        reveal_strlit("4");
        reveal_strlit("5");
        reveal_strlit("6");
        reveal_strlit("7");
        reveal_strlit("8");
        reveal_strlit("9");
    }
    let s = if d == 0 {
        "0"
    } else if d == 1 {
        "1"
    } else if d == 2 {
        "2"
    } else if d == 3 {
        "3"
    } else if d == 4 {
        "4"
    } else if d == 5 {
        "5"
    } else if d == 6 {
        "6"
    } else if d == 7 {
        "7"
    } else if d == 8 {
        "8"
    } else {
        "9"
    };
    assert(s@ =~= seq![digit_char(d as int)]);
    s
}

/// Writes an octet in decimal behind what `out` holds.
fn append_octet(out: &mut String, v: u8)
    ensures
        final(out)@ == old(out)@ + octet_text(v),
{
    if v >= 100 {
        out.append(digit_str(v / 100));
    }
    if v >= 10 {
        out.append(digit_str(v / 10 % 10));
    }
    out.append(digit_str(v % 10));
    proof {
        lemma_octet_digits(v);
    }
    assert(out@ =~= old(out)@ + octet_text(v));
}

/// Reads the octet that stands at `at`, and says where it ends. `None`
/// where no octet stands there.
fn read_octet(text: &Vec<char>, at: usize) -> (r: Option<(u8, usize)>)
    requires
        at <= text@.len(),
    ensures
        match r {
            Some((v, end)) => octet_stands(text@, at as int, v, end as int),
            None => forall|v: u8, end: int| !octet_stands(text@, at as int, v, end),
        },
{
    let n = text.len();
    let mut end: usize = at;
    let mut value: u16 = 0;
    while end < n && end - at < 4 && '0' <= text[end] && text[end] <= '9'
        invariant
            at <= end <= n == text@.len(),
            end - at <= 4,
            forall|j: int| at <= j < end ==> is_digit(#[trigger] text@[j]),
            value == decimal_value(text@.subrange(at as int, end as int)),
            end - at == 0 ==> value == 0,
            end - at == 1 ==> value <= 9,
            end - at == 2 ==> value <= 99,
            end - at == 3 ==> value <= 999,
            end - at == 4 ==> value <= 9999,
        decreases n - end,
    {
        let d = digit_of(text[end]);
        proof {
            let before = text@.subrange(at as int, end as int);
            let after = text@.subrange(at as int, end + 1);
            assert(after.drop_last() =~= before);
            assert(after.last() == text@[end as int]);
        }
        value = value * 10 + d as u16;
        end += 1;
    }
    let ghost digits = text@.subrange(at as int, end as int);
    let count = end - at;
    if count == 0 || count > 3 || (count > 1 && text[at] == '0') || value > 255 {
        proof {
            assert forall|v: u8, stop: int| !octet_stands(text@, at as int, v, stop) by {
                if octet_stands(text@, at as int, v, stop) {
                    lemma_octet_text(v);
                    let t = octet_text(v);
                    assert(forall|j: int| 0 <= j < t.len() ==> text@.subrange(at as int, stop)[j] == text@[at + j]);
                    assert(is_digit(t[0]));
                    if stop < end {
                        assert(is_digit(text@[stop]));
                    } else if stop > end {
                        assert(is_digit(t[end - at]));
                    } else {
                        assert(t == digits);
                        assert(digits[0] == text@[at as int]);
                    }
                }
            }
        }
        return None;
    }
    proof {
        assert forall|i: int| 0 <= i < digits.len() implies is_digit(#[trigger] digits[i]) by {
            assert(digits[i] == text@[at + i]);
        }
        assert(digits[0] == text@[at as int]);
        lemma_digits_are_octet_text(digits, value as u8);
    }
    Some((value as u8, end))
}

impl Ipv4Address {
    /// The address with the four octets given.
    pub fn new(a: u8, b: u8, c: u8, d: u8) -> (addr: Ipv4Address)
        ensures
            addr == (Ipv4Address { a, b, c, d }),
    {
        Ipv4Address { a, b, c, d }
    }

    /// The four octets, from the most significant.
    pub fn octets(&self) -> (o: [u8; 4])
        ensures
            o@ == seq![self.a, self.b, self.c, self.d],
    {
        let o = [self.a, self.b, self.c, self.d];
        assert(o@ =~= seq![self.a, self.b, self.c, self.d]);
        o
    }

    /// The dotted-quad text of this address.
    pub fn to_string(&self) -> (s: String)
        ensures
            s@ == dotted_quad(*self),
    {
        proof {
            reveal_strlit(".");
        }
        assert("."@ =~= seq!['.']);
        let mut s = String::new();
        append_octet(&mut s, self.a);
        s.append(".");
        append_octet(&mut s, self.b);
        s.append(".");
        append_octet(&mut s, self.c);
        s.append(".");
        append_octet(&mut s, self.d);
        assert(s@ =~= dotted_quad(*self));
        s
    }

    /// Reads an address from its dotted-quad text. Any other text is refused.
    pub fn parse(text: &str) -> (r: Result<Ipv4Address, AddrParseError>)
        ensures
            match r {
                Ok(addr) => dotted_quad(addr) == text@,
                Err(_) => !is_dotted_quad(text@),
            },
            r == address_result(address_of(text@)),
    {
        let s = chars_of(text);
        let n = s.len();
        let (a, e0) = match read_octet(&s, 0) {
            Some(found) => found,
            None => {
                assert forall|x: Ipv4Address| dotted_quad(x) != s@ by {
                    lemma_dotted_quad_shape(x);
                }
                return Err(AddrParseError);
            },
        };
        assert forall|x: Ipv4Address| dotted_quad(x) == s@ implies x.a == a && octet_text(x.a).len()
            == e0 by {
            lemma_dotted_quad_shape(x);
            lemma_octet_stands_once(s@, 0, a, e0 as int, x.a, octet_text(x.a).len() as int);
        }
        if e0 >= n || s[e0] != '.' {
            assert forall|x: Ipv4Address| dotted_quad(x) != s@ by {
                lemma_dotted_quad_shape(x);
            }
            return Err(AddrParseError);
        }
        let (b, e1) = match read_octet(&s, e0 + 1) {
            Some(found) => found,
            None => {
                assert forall|x: Ipv4Address| dotted_quad(x) != s@ by {
                    lemma_dotted_quad_shape(x);
                }
                return Err(AddrParseError);
            },
        };
        assert forall|x: Ipv4Address| dotted_quad(x) == s@ implies x.b == b && e0 + 1 + octet_text(
            x.b,
        ).len() == e1 by {
            lemma_dotted_quad_shape(x);
            lemma_octet_stands_once(
                s@,
                e0 + 1,
                b,
                e1 as int,
                x.b,
                e0 + 1 + octet_text(x.b).len(),
            );
        }
        if e1 >= n || s[e1] != '.' {
            assert forall|x: Ipv4Address| dotted_quad(x) != s@ by {
                lemma_dotted_quad_shape(x);
            }
            return Err(AddrParseError);
        }
        let (c, e2) = match read_octet(&s, e1 + 1) {
            Some(found) => found,
            None => {
                assert forall|x: Ipv4Address| dotted_quad(x) != s@ by {
                    lemma_dotted_quad_shape(x);
                }
                return Err(AddrParseError);
            },
        };
        assert forall|x: Ipv4Address| dotted_quad(x) == s@ implies x.c == c && e1 + 1 + octet_text(
            x.c,
        ).len() == e2 by {
            lemma_dotted_quad_shape(x);
            lemma_octet_stands_once(
                s@,
                e1 + 1,
                c,
                e2 as int,
                x.c,
                e1 + 1 + octet_text(x.c).len(),
            );
        }
        if e2 >= n || s[e2] != '.' {
            assert forall|x: Ipv4Address| dotted_quad(x) != s@ by {
                lemma_dotted_quad_shape(x);
            }
            return Err(AddrParseError);
        }
        let (d, e3) = match read_octet(&s, e2 + 1) {
            Some(found) => found,
            None => {
                assert forall|x: Ipv4Address| dotted_quad(x) != s@ by {
                    lemma_dotted_quad_shape(x);
                }
                return Err(AddrParseError);
            },
        };
        assert forall|x: Ipv4Address| dotted_quad(x) == s@ implies x.d == d && e2 + 1 + octet_text(
            x.d,
        ).len() == e3 by {
            lemma_dotted_quad_shape(x);
            lemma_octet_stands_once(
                s@,
                e2 + 1,
                d,
                e3 as int,
                x.d,
                e2 + 1 + octet_text(x.d).len(),
            );
        }
        if e3 != n {
            assert forall|x: Ipv4Address| dotted_quad(x) != s@ by {
                lemma_dotted_quad_shape(x);
            }
            return Err(AddrParseError);
        }
        let addr = Ipv4Address { a, b, c, d };
        proof {
            assert(s@ =~= dotted_quad(addr));
            lemma_address_of_dotted_quad(addr);
        }
        Ok(addr)
    }
}

/// What can be read as an IPv4 address.
pub trait ToIpAddrs {
    /// The address that this value stands for, if it stands for one.
    spec fn ip_addrs(&self) -> Option<Ipv4Address>;

    /// The address that this value stands for.
    fn to_ip_addrs(&self) -> (r: Result<Ipv4Address, AddrParseError>)
        ensures
            r == address_result(self.ip_addrs()),
    ;
}

impl ToIpAddrs for &str {
    open spec fn ip_addrs(&self) -> Option<Ipv4Address> {
        address_of(self@)
    }

    fn to_ip_addrs(&self) -> (r: Result<Ipv4Address, AddrParseError>) {
        Ipv4Address::parse(self)
    }
}

impl ToIpAddrs for String {
    open spec fn ip_addrs(&self) -> Option<Ipv4Address> {
        address_of(self@)
    }

    fn to_ip_addrs(&self) -> (r: Result<Ipv4Address, AddrParseError>) {
        Ipv4Address::parse(self.as_str())
    }
}

impl ToIpAddrs for Ipv4Address {
    open spec fn ip_addrs(&self) -> Option<Ipv4Address> {
        Some(*self)
    }

    fn to_ip_addrs(&self) -> (r: Result<Ipv4Address, AddrParseError>) {
        Ok(*self)
    }
}

} // verus!
