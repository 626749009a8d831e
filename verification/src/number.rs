//! Decimal numbers: rendering them, as `{}` and `{:02}` format an integer,
//! and reading them, as `str::parse` reads an unsigned integer.

use vstd::prelude::*;
use vstd::string::*;

verus! {

/// The ASCII digit for `d < 10`.
pub open spec fn digit_char(d: nat) -> char {
    (48 + d) as char
}

pub open spec fn is_digit(c: char) -> bool {
    48 <= (c as u32) <= 57
}

pub open spec fn digit_value(c: char) -> nat {
    ((c as u32) - 48) as nat
}

/// `n` in decimal, without leading zeros.
pub open spec fn decimal(n: nat) -> Seq<char>
    decreases n,
{
    if n < 10 {
        seq![digit_char(n)]
    } else {
        decimal(n / 10).push(digit_char(n % 10))
    }
}

/// `n` in decimal, padded with zeros to at least two digits.
pub open spec fn pad2(n: nat) -> Seq<char> {
    if n < 10 {
        seq!['0', digit_char(n)]
    } else {
        decimal(n)
    }
}

/// The text of a single digit.
fn digit_str(d: u64) -> (r: &'static str)
    requires
        d < 10,
    ensures
        r@ == seq![digit_char(d as nat)],
{
    proof {
        reveal_strlit("0");
        reveal_strlit("1");
        reveal_strlit("2");
        reveal_strlit("3");
        reveal_strlit("4");
        reveal_strlit("5");
        reveal_strlit("6");
        reveal_strlit("7");
        reveal_strlit("8");
        reveal_strlit("9");
    }
    match d {
        0 => "0",
        1 => "1",
        2 => "2",
        3 => "3",
        4 => "4",
        5 => "5",
        6 => "6",
        7 => "7",
        8 => "8",
        _ => "9",
    }
}

/// Appends `n` in decimal.
pub fn push_decimal(out: &mut String, n: u64)
    ensures
        final(out)@ == old(out)@ + decimal(n as nat),
    decreases n,
{
    if n >= 10 {
        push_decimal(out, n / 10);
        out.append(digit_str(n % 10));
        assert(decimal(n as nat) == decimal((n / 10) as nat).push(digit_char((n % 10) as nat)));
    } else {
        out.append(digit_str(n));
    }
}

/// Appends `n` in decimal, padded with zeros to two digits.
pub fn push_pad2(out: &mut String, n: u64)
    ensures
        final(out)@ == old(out)@ + pad2(n as nat),
{
    if n < 10 {
        out.append(digit_str(0));
        out.append(digit_str(n));
    } else {
        push_decimal(out, n);
    }
}

/// Why a text is not an unsigned integer, in the terms of `ParseIntError`.
#[derive(Debug, Clone, Copy, PartialEq, Eq, Structural)]
pub enum NumberError {
    Empty,
    InvalidDigit,
    TooLarge,
}

impl NumberError {
    /// The explanation `ParseIntError` displays for this kind of error.
    pub fn message(&self) -> (r: &'static str)
        ensures
            r@ == number_error_text(*self),
    {
        match self {
            NumberError::Empty => "cannot parse integer from empty string",
            NumberError::InvalidDigit => "invalid digit found in string",
            NumberError::TooLarge => "number too large to fit in target type",
        }
    }
}

pub open spec fn number_error_text(e: NumberError) -> Seq<char> {
    match e {
        NumberError::Empty => "cannot parse integer from empty string"@,
        NumberError::InvalidDigit => "invalid digit found in string"@,
        NumberError::TooLarge => "number too large to fit in target type"@,
    }
}

/// Reads the digits of `s` from `i` on, after the value `acc` of those before;
/// the first character that is no digit, or the first digit that takes the
/// value past `max`, decides the error.
pub open spec fn parse_digits(s: Seq<char>, i: int, acc: nat, max: nat) -> Result<nat, NumberError>
    decreases s.len() - i,
{
    if i >= s.len() {
        Ok(acc)
    } else if !is_digit(s[i]) {
        Err(NumberError::InvalidDigit)
    } else if acc * 10 + digit_value(s[i]) > max {
        Err(NumberError::TooLarge)
    } else {
        parse_digits(s, i + 1, acc * 10 + digit_value(s[i]), max)
    }
}

/// What `str::parse` gives for an unsigned integer type whose largest value is
/// `max`: an optional `+`, then one or more decimal digits.
pub open spec fn parse_unsigned(s: Seq<char>, max: nat) -> Result<nat, NumberError> {
    if s.len() == 0 {
        Err(NumberError::Empty)
    } else if s.len() == 1 && (s[0] == '+' || s[0] == '-') {
        Err(NumberError::InvalidDigit)
    } else if s[0] == '+' {
        parse_digits(s, 1, 0, max)
    } else {
        parse_digits(s, 0, 0, max)
    }
}

pub proof fn lemma_parse_digits_bound(s: Seq<char>, i: int, acc: nat, max: nat)
    requires
        acc <= max,
    ensures
        parse_digits(s, i, acc, max) matches Ok(v) ==> v <= max,
    decreases s.len() - i,
{
    if i < s.len() && is_digit(s[i]) && acc * 10 + digit_value(s[i]) <= max {
        lemma_parse_digits_bound(s, i + 1, acc * 10 + digit_value(s[i]), max);
    }
}

pub proof fn lemma_parse_unsigned_bound(s: Seq<char>, max: nat)
    ensures
        parse_unsigned(s, max) matches Ok(v) ==> v <= max,
{
    if s.len() > 0 {
        lemma_parse_digits_bound(s, if s[0] == '+' { 1 } else { 0 }, 0, max);
    }
}

/// Parses `s` as an unsigned integer no larger than `max`.
pub fn parse_unsigned_str(s: &str, max: u64) -> (r: Result<u64, NumberError>)
    ensures
        match parse_unsigned(s@, max as nat) {
            Ok(v) => r == Ok::<u64, NumberError>(v as u64),
            Err(e) => r == Err::<u64, NumberError>(e),
        },
        r matches Ok(v) ==> v <= max,
{
    let cs = crate::text::chars_of(s);
    let n = cs.len();
    if n == 0 {
        return Err(NumberError::Empty);
    }
    if n == 1 && (cs[0] == '+' || cs[0] == '-') {
        return Err(NumberError::InvalidDigit);
    }
    let mut i: usize = if cs[0] == '+' { 1 } else { 0 };
    let mut acc: u64 = 0;
    proof {
        lemma_parse_digits_bound(s@, i as int, 0, max as nat);
    }
    while i < n
        invariant
            cs@ == s@,
            n == cs.len(),
            n > 0,
            i <= n,
            acc <= max,
            parse_unsigned(s@, max as nat) == parse_digits(s@, i as int, acc as nat, max as nat),
        decreases n - i,
    {
        let c = cs[i];
        let u = c as u32;
        if u < 48 || u > 57 {
            return Err(NumberError::InvalidDigit);
        }
        let d = (u - 48) as u64;
        if d > max || acc > (max - d) / 10 {
            proof {
                if d <= max {
                    let q = (max - d) / 10;
                    assert(acc * 10 + d > max) by (nonlinear_arith)
                        requires
                            acc > q,
                            q == (max - d) / 10,
                            d <= max,
                    ;
                }
            }
            return Err(NumberError::TooLarge);
        }
        proof {
            let q = (max - d) / 10;
            assert(acc * 10 + d <= max) by (nonlinear_arith)
                requires
                    acc <= q,
                    q == (max - d) / 10,
                    d <= max,
            ;
        }
        acc = acc * 10 + d;
        i = i + 1;
    }
    proof {
        lemma_parse_digits_bound(s@, i as int, acc as nat, max as nat);
    }
    Ok(acc)
}


pub proof fn lemma_decimal_digits(n: nat)
    ensures
        decimal(n).len() > 0,
        forall|k: int| 0 <= k < decimal(n).len() ==> is_digit(#[trigger] decimal(n)[k]),
    decreases n,
{
    if n >= 10 {
        lemma_decimal_digits(n / 10);
    }
}

proof fn lemma_parse_digits_push(s: Seq<char>, c: char, i: int, acc: nat, max: nat)
    requires
        0 <= i <= s.len(),
        is_digit(c),
        forall|k: int| 0 <= k < s.len() ==> is_digit(#[trigger] s[k]),
    ensures
        parse_digits(s.push(c), i, acc, max) == (match parse_digits(s, i, acc, max) {
            Ok(v) => if v * 10 + digit_value(c) > max {
                Err(NumberError::TooLarge)
            } else {
                Ok(v * 10 + digit_value(c))
            },
            Err(e) => Err(e),
        }),
    decreases s.len() - i,
{
    if i < s.len() {
        assert(s.push(c)[i] == s[i]);
        if acc * 10 + digit_value(s[i]) <= max {
            lemma_parse_digits_push(s, c, i + 1, acc * 10 + digit_value(s[i]), max);
        }
    } else {
        assert(s.push(c)[i] == c);
        let v = acc * 10 + digit_value(c);
        assert(parse_digits(s.push(c), i + 1, v, max) == Ok::<nat, NumberError>(v));
    }
}

/// Reading back a number written in decimal gives the number.
pub proof fn lemma_parse_decimal(n: nat, max: nat)
    requires
        n <= max,
    ensures
        parse_unsigned(decimal(n), max) == Ok::<nat, NumberError>(n),
    decreases n,
{
    lemma_decimal_digits(n);
    if n < 10 {
        assert(parse_digits(decimal(n), 1, n, max) == Ok::<nat, NumberError>(n));
    } else {
        lemma_parse_decimal(n / 10, max);
        lemma_decimal_digits(n / 10);
        let d = decimal(n / 10);
        assert(d[0] != '+' && d[0] != '-');
        lemma_parse_digits_push(d, digit_char(n % 10), 0, 0, max);
        assert(digit_value(digit_char(n % 10)) == n % 10);
    }
}

} // verus!
