//! Decimal text for unsigned integers, both ways: writing them out, and reading
//! them in by the rules of the standard library's `str::parse` for unsigned types.

use vstd::prelude::*;
use crate::text::push_char;

verus! {

/// Why text did not read as an unsigned integer.
#[derive(Clone, Copy, Debug, PartialEq, Eq, Structural)]
pub enum IntErrorKind {
    /// The text was empty.
    Empty,
    /// The text held a character that is not a decimal digit where one was due.
    InvalidDigit,
    /// The value does not fit in the target type.
    PosOverflow,
}

impl IntErrorKind {
    /// The message that the standard library gives for this kind of failure.
    pub fn message(&self) -> (s: String)
        ensures
            s@ == int_error_message(*self),
    {
        match self {
            IntErrorKind::Empty => String::from_str("cannot parse integer from empty string"),
            IntErrorKind::InvalidDigit => String::from_str("invalid digit found in string"),
            IntErrorKind::PosOverflow => String::from_str("number too large to fit in target type"),
        }
    }
}

/// The message of each kind of failure.
pub open spec fn int_error_message(k: IntErrorKind) -> Seq<char> {
    match k {
        IntErrorKind::Empty => "cannot parse integer from empty string"@,
        IntErrorKind::InvalidDigit => "invalid digit found in string"@,
        IntErrorKind::PosOverflow => "number too large to fit in target type"@,
    }
}

/// Whether `c` is one of `0` to `9`.
pub open spec fn is_digit(c: char) -> bool {
    '0' <= c <= '9'
}

/// The value of the decimal digit `c`.
pub open spec fn digit_value(c: char) -> nat {
    (c as u32 - '0' as u32) as nat
}

/// The decimal digit for `d`, a number below ten.
pub open spec fn digit_char(d: nat) -> char {
    (d + '0' as u32) as char
}

/// The decimal writing of `n`, without leading zeros.
pub open spec fn decimal(n: nat) -> Seq<char>
    decreases n,
{
    if n < 10 {
        seq![digit_char(n)]
    } else {
        decimal(n / 10).push(digit_char(n % 10))
    }
}

/// Reads the digits `d` after the value `acc` read so far, failing as soon as a
/// character is no digit or the value would pass `max`.
pub open spec fn parse_digits(d: Seq<char>, acc: nat, max: nat) -> Result<nat, IntErrorKind>
    decreases d.len(),
{
    if d.len() == 0 {
        Ok(acc)
    } else if !is_digit(d[0]) {
        Err(IntErrorKind::InvalidDigit)
    } else if acc * 10 + digit_value(d[0]) > max {
        Err(IntErrorKind::PosOverflow)
    } else {
        parse_digits(d.drop_first(), acc * 10 + digit_value(d[0]), max)
    }
}

/// The value of `s` read as an unsigned integer no greater than `max`: an optional
/// `+`, then one or more decimal digits, nothing else.
pub open spec fn parse_uint(s: Seq<char>, max: nat) -> Result<nat, IntErrorKind> {
    if s.len() == 0 {
        Err(IntErrorKind::Empty)
    } else if s.len() == 1 && (s[0] == '+' || s[0] == '-') {
        Err(IntErrorKind::InvalidDigit)
    } else if s[0] == '+' {
        parse_digits(s.drop_first(), 0, max)
    } else {
        parse_digits(s, 0, max)
    }
}

/// The decimal digit for `d`.
pub fn digit_to_char(d: u64) -> (c: char)
    requires
        d < 10,
    ensures
        c == digit_char(d as nat),
{
    let b: u8 = (d as u8) + 48;
    b as char
}

/// Appends the decimal writing of `n` to `s`.
pub fn push_decimal(s: &mut String, n: u64)
    ensures
        final(s)@ == old(s)@ + decimal(n as nat),
    decreases n,
{
    if n >= 10 {
        push_decimal(s, n / 10);
    }
    push_char(s, digit_to_char(n % 10));
    assert(decimal(n as nat) =~= if n < 10 { seq![digit_char(n as nat)] } else {
        decimal((n / 10) as nat).push(digit_char((n % 10) as nat))
    });
}

/// The decimal writing of `n`, as the standard library's `to_string` gives it.
pub fn decimal_string(n: u64) -> (s: String)
    ensures
        s@ == decimal(n as nat),
{
    let mut s = String::new();
    push_decimal(&mut s, n);
    assert(s@ =~= decimal(n as nat));
    s
}

/// Reads `s[from..to]` as an unsigned integer no greater than `max`.
pub fn parse_uint_chars(s: &Vec<char>, from: usize, to: usize, max: u64) -> (r: Result<u64, IntErrorKind>)
    requires
        from <= to <= s@.len(),
    ensures
        match r {
            Ok(v) => parse_uint(s@.subrange(from as int, to as int), max as nat) == Ok::<nat, IntErrorKind>(v as nat),
            Err(k) => parse_uint(s@.subrange(from as int, to as int), max as nat) == Err::<nat, IntErrorKind>(k),
        },
        r matches Ok(v) ==> v <= max,
{
    let ghost t = s@.subrange(from as int, to as int);
    if from == to {
        return Err(IntErrorKind::Empty);
    }
    if to - from == 1 && (s[from] == '+' || s[from] == '-') {
        return Err(IntErrorKind::InvalidDigit);
    }
    let mut i = from;
    if s[from] == '+' {
        i = from + 1;
        assert(t.drop_first() =~= s@.subrange(i as int, to as int));
    } else {
        assert(t =~= s@.subrange(i as int, to as int));
    }
    let mut acc: u64 = 0;
    while i < to
        invariant
            from <= i <= to <= s@.len(),
            acc <= max,
            t == s@.subrange(from as int, to as int),
            parse_uint(t, max as nat) == parse_digits(s@.subrange(i as int, to as int), acc as nat, max as nat),
        decreases to - i,
    {
        let c = s[i];
        let ghost rest = s@.subrange(i as int, to as int);
        assert(rest[0] == c);
        assert(rest.drop_first() =~= s@.subrange(i + 1, to as int));
        if !('0' <= c && c <= '9') {
            return Err(IntErrorKind::InvalidDigit);
        }
        let d: u64 = ((c as u32) - 48) as u64;
        if acc > max / 10 {
            assert(acc * 10 + d > max) by (nonlinear_arith)
                requires acc > max / 10;
            return Err(IntErrorKind::PosOverflow);
        }
        assert(acc * 10 <= max) by (nonlinear_arith)
            requires acc <= max / 10;
        let tens: u64 = acc * 10;
        if d > max - tens {
            return Err(IntErrorKind::PosOverflow);
        }
        acc = tens + d;
        i = i + 1;
    }
    Ok(acc)
}

/// Reads `s` as an unsigned integer no greater than `max`.
pub fn parse_uint_str(s: &str, max: u64) -> (r: Result<u64, IntErrorKind>)
    ensures
        match r {
            Ok(v) => parse_uint(s@, max as nat) == Ok::<nat, IntErrorKind>(v as nat),
            Err(k) => parse_uint(s@, max as nat) == Err::<nat, IntErrorKind>(k),
        },
        r matches Ok(v) ==> v <= max,
{
    let v = crate::text::chars_of(s);
    assert(v@.subrange(0, v@.len() as int) =~= v@);
    parse_uint_chars(&v, 0, v.len(), max)
}


/// Reading digits one more character at a time: the last character is read after
/// all before it.
pub proof fn lemma_parse_digits_push(d: Seq<char>, c: char, acc: nat, max: nat)
    ensures
        parse_digits(d.push(c), acc, max) == match parse_digits(d, acc, max) {
            Ok(v) => if !is_digit(c) {
                Err(IntErrorKind::InvalidDigit)
            } else if v * 10 + digit_value(c) > max {
                Err(IntErrorKind::PosOverflow)
            } else {
                Ok(v * 10 + digit_value(c))
            },
            Err(e) => Err(e),
        },
    decreases d.len(),
{
    if d.len() == 0 {
        assert(d.push(c).drop_first() =~= Seq::<char>::empty());
        assert(d.push(c)[0] == c);
        assert(parse_digits(Seq::<char>::empty(), acc * 10 + digit_value(c), max) == Ok::<nat, IntErrorKind>(acc * 10 + digit_value(c)));
        assert(parse_digits(d, acc, max) == Ok::<nat, IntErrorKind>(acc));
    } else {
        assert(d.push(c).drop_first() =~= d.drop_first().push(c));
        assert(d.push(c)[0] == d[0]);
        if is_digit(d[0]) && acc * 10 + digit_value(d[0]) <= max {
            lemma_parse_digits_push(d.drop_first(), c, acc * 10 + digit_value(d[0]), max);
        }
    }
}

/// Every character of a decimal writing is a digit, and the digit for `d` reads
/// back as `d`.
pub proof fn lemma_decimal_digits(n: nat)
    ensures
        decimal(n).len() >= 1,
        forall|i: int| 0 <= i < decimal(n).len() ==> is_digit(#[trigger] decimal(n)[i]),
    decreases n,
{
    lemma_digit_char(n % 10);
    if n >= 10 {
        lemma_decimal_digits(n / 10);
        assert forall|i: int| 0 <= i < decimal(n).len() implies is_digit(#[trigger] decimal(n)[i]) by {
            if i < decimal(n / 10).len() {
                assert(decimal(n)[i] == decimal(n / 10)[i]);
            }
        }
    }
}

/// The digit for `d` is a digit and reads back as `d`.
pub proof fn lemma_digit_char(d: nat)
    requires
        d < 10,
    ensures
        is_digit(digit_char(d)),
        digit_value(digit_char(d)) == d,
{
    assert(((d + 48) as char) as u32 == d + 48);
}

/// A number written out in decimal reads back as itself wherever it fits:
/// `parse_uint(decimal(n), max) == Ok(n)` for `n <= max`.
pub proof fn law_decimal_reads_back(n: nat, max: nat)
    requires
        n <= max,
    ensures
        parse_uint(decimal(n), max) == Ok::<nat, IntErrorKind>(n),
{
    lemma_decimal_digits(n);
    lemma_parse_decimal(n, max);
    assert(is_digit(decimal(n)[0]));
}

/// Reading the digits of `decimal(n)` gives `n`.
proof fn lemma_parse_decimal(n: nat, max: nat)
    requires
        n <= max,
    ensures
        parse_digits(decimal(n), 0, max) == Ok::<nat, IntErrorKind>(n),
    decreases n,
{
    lemma_digit_char(n % 10);
    if n < 10 {
        lemma_parse_digits_push(Seq::empty(), digit_char(n), 0, max);
        assert(Seq::<char>::empty().push(digit_char(n)) =~= decimal(n));
    } else {
        lemma_parse_decimal(n / 10, max);
        lemma_parse_digits_push(decimal(n / 10), digit_char(n % 10), 0, max);
    }
}

} // verus!
