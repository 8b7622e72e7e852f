//! Decimal numbers in text: reading them as `str::parse::<u32>` does, and
//! writing them.
use vstd::prelude::*;

verus! {

broadcast use vstd::string::group_string_axioms;

/// The characters of `s`, in order.
pub fn chars_of(s: &str) -> (v: Vec<char>)
    ensures
        v@ == s@,
{
    let mut v: Vec<char> = Vec::new();
    for c in it: s.chars()
        invariant
            v@ == it.seq().take(it.index() as int),
            it.seq() == s@,
    {
        v.push(c);
    }
    v
}

/// Whether two texts are the same, character for character.
pub fn same_text(a: &str, b: &str) -> (r: bool)
    ensures
        r == (a@ == b@),
{
    let x = chars_of(a);
    let y = chars_of(b);
    if x.len() != y.len() {
        return false;
    }
    let mut i: usize = 0;
    while i < x.len()
        invariant
            i <= x@.len(),
            x@.len() == y@.len(),
            x@ == a@,
            y@ == b@,
            forall|j: int| 0 <= j < i ==> x@[j] == y@[j],
        decreases x.len() - i,
    {
        if x[i] != y[i] {
            return false;
        }
        i = i + 1;
    }
    proof {
        assert(x@ =~= y@);
    }
    true
}

/// Why a text is not an unsigned number, as `std::num::IntErrorKind` tells it.
#[derive(Debug, Clone, Copy, PartialEq, Eq)]
pub enum IntErrorKind {
    /// The text is empty.
    Empty,
    /// A character is not a decimal digit (or the text is a lone sign).
    InvalidDigit,
    /// The number is larger than the type's largest value.
    PosOverflow,
}

pub open spec fn is_digit(c: char) -> bool {
    '0' <= c <= '9'
}

pub open spec fn digit_value(c: char) -> int {
    c as int - '0' as int
}

/// Reads decimal digits left to right; the first non-digit, or the first
/// digit that takes the value past `max`, decides the error.
pub open spec fn parse_digits(s: Seq<char>, max: int) -> Result<int, IntErrorKind>
    decreases s.len(),
{
    if s.len() == 0 {
        Ok(0int)
    } else {
        match parse_digits(s.drop_last(), max) {
            Err(e) => Err(e),
            Ok(v) => if !is_digit(s.last()) {
                Err(IntErrorKind::InvalidDigit)
            } else if v * 10 + digit_value(s.last()) > max {
                Err(IntErrorKind::PosOverflow)
            } else {
                Ok(v * 10 + digit_value(s.last()))
            },
        }
    }
}

/// `str::parse` for an unsigned type whose largest value is `max`: an
/// optional leading `+`, then decimal digits.
pub open spec fn parse_unsigned_spec(s: Seq<char>, max: int) -> Result<int, IntErrorKind> {
    if s.len() == 0 {
        Err(IntErrorKind::Empty)
    } else if s.len() == 1 && (s[0] == '+' || s[0] == '-') {
        Err(IntErrorKind::InvalidDigit)
    } else if s[0] == '+' {
        parse_digits(s.drop_first(), max)
    } else {
        parse_digits(s, max)
    }
}

/// `str::parse::<u32>`.
pub open spec fn parse_u32_spec(s: Seq<char>) -> Result<u32, IntErrorKind> {
    match parse_unsigned_spec(s, u32::MAX as int) {
        Ok(v) => Ok(v as u32),
        Err(e) => Err(e),
    }
}

/// `str::parse::<u64>`.
pub open spec fn parse_u64_spec(s: Seq<char>) -> Result<u64, IntErrorKind> {
    match parse_unsigned_spec(s, u64::MAX as int) {
        Ok(v) => Ok(v as u64),
        Err(e) => Err(e),
    }
}

/// Once a prefix of the digits is an error, so is every longer prefix.
proof fn lemma_parse_digits_error_sticks(s: Seq<char>, max: int, k: int)
    requires
        0 <= k <= s.len(),
        parse_digits(s.take(k), max) is Err,
    ensures
        parse_digits(s, max) == parse_digits(s.take(k), max),
    decreases s.len() - k,
{
    if k < s.len() {
        assert(s.take(k + 1).drop_last() =~= s.take(k));
        lemma_parse_digits_error_sticks(s, max, k + 1);
    } else {
        assert(s.take(k) =~= s);
    }
}

/// Reads the characters `s[from .. to]` as `str::parse` does for an unsigned
/// type whose largest value is `max`.
pub fn parse_unsigned(s: &[char], from: usize, to: usize, max: u64) -> (r: Result<
    u64,
    IntErrorKind,
>)
    requires
        from <= to <= s@.len(),
        max >= 9,
    ensures
        match r {
            Ok(v) => parse_unsigned_spec(s@.subrange(from as int, to as int), max as int) == Ok::<
                int,
                IntErrorKind,
            >(v as int),
            Err(e) => parse_unsigned_spec(s@.subrange(from as int, to as int), max as int)
                == Err::<int, IntErrorKind>(e),
        },
{
    let ghost text = s@.subrange(from as int, to as int);
    let n = to;
    if from == to {
        return Err(IntErrorKind::Empty);
    }
    if to - from == 1 && (s[from] == '+' || s[from] == '-') {
        return Err(IntErrorKind::InvalidDigit);
    }
    let start: usize = if s[from] == '+' {
        from + 1
    } else {
        from
    };
    let ghost digits = s@.subrange(start as int, n as int);
    proof {
        assert(text[0] == s@[from as int]);
        if start == from + 1 {
            assert(digits =~= text.drop_first());
        } else {
            assert(digits =~= text);
        }
        assert(digits.take(0) =~= Seq::<char>::empty());
    }
    let mut value: u64 = 0;
    let mut i: usize = start;
    while i < n
        invariant
            start <= i <= n,
            n <= s@.len(),
            max >= 9,
            value <= max,
            digits == s@.subrange(start as int, n as int),
            text == s@.subrange(from as int, to as int),
            parse_unsigned_spec(text, max as int) == parse_digits(digits, max as int),
            parse_digits(digits.take(i - start), max as int) == Ok::<int, IntErrorKind>(
                value as int,
            ),
        decreases n - i,
    {
        let c = s[i];
        proof {
            assert(digits.take(i - start + 1).drop_last() =~= digits.take(i - start));
            assert(digits.take(i - start + 1).last() == c);
        }
        if !('0' <= c && c <= '9') {
            proof {
                lemma_parse_digits_error_sticks(digits, max as int, i - start + 1);
            }
            return Err(IntErrorKind::InvalidDigit);
        }
        let d = (c as u64) - ('0' as u64);
        let room = (max - d) / 10;
        proof {
            let m = (max - d) as int;
            vstd::arithmetic::div_mod::lemma_fundamental_div_mod(m, 10);
            assert(value > room <==> value * 10 + d > max) by (nonlinear_arith)
                requires
                    m == 10 * (m / 10) + m % 10,
                    0 <= m % 10 < 10,
                    room == m / 10,
                    m == max - d,
                    value >= 0,
            ;
        }
        if value > room {
            proof {
                lemma_parse_digits_error_sticks(digits, max as int, i - start + 1);
            }
            return Err(IntErrorKind::PosOverflow);
        }
        value = value * 10 + d;
        i = i + 1;
    }
    proof {
        assert(digits.take(n - start) =~= digits);
    }
    Ok(value)
}

/// Reads the characters `s[from .. to]` as `str::parse::<u32>` does.
pub fn parse_u32(s: &[char], from: usize, to: usize) -> (r: Result<u32, IntErrorKind>)
    requires
        from <= to <= s@.len(),
    ensures
        r == parse_u32_spec(s@.subrange(from as int, to as int)),
{
    match parse_unsigned(s, from, to, 0xffff_ffff) {
        Ok(v) => Ok(v as u32),
        Err(e) => Err(e),
    }
}

/// Reads the characters `s[from .. to]` as `str::parse::<u64>` does.
pub fn parse_u64(s: &[char], from: usize, to: usize) -> (r: Result<u64, IntErrorKind>)
    requires
        from <= to <= s@.len(),
    ensures
        r == parse_u64_spec(s@.subrange(from as int, to as int)),
{
    parse_unsigned(s, from, to, 0xffff_ffff_ffff_ffff)
}

/// The decimal digits of `n`, most significant first, without leading zeros.
pub open spec fn decimal(n: nat) -> Seq<char>
    decreases n,
{
    if n < 10 {
        seq![('0' as nat + n) as char]
    } else {
        decimal(n / 10).push(('0' as nat + n % 10) as char)
    }
}

/// The one-character text of decimal digit `d`.
fn digit_text(d: u32) -> (t: &'static str)
    requires
        d < 10,
    ensures
        t@ == seq![('0' as nat + d) as char],
{
    proof {
        reveal_strlit("0");
        reveal_strlit("1");
        reveal_strlit("2");
        reveal_strlit("3");
        reveal_strlit("4");
        reveal_strlit("5");
        reveal_strlit("6");
        reveal_strlit("7");
        reveal_strlit("8");
        reveal_strlit("9");
    }
    match d {
        0 => "0",
        1 => "1",
        2 => "2",
        3 => "3",
        4 => "4",
        5 => "5",
        6 => "6",
        7 => "7",
        8 => "8",
        _ => "9",
    }
}

/// Appends the decimal text of `n` to `out`.
pub fn push_decimal(out: &mut String, n: u32)
    ensures
        final(out)@ == old(out)@ + decimal(n as nat),
    decreases n,
{
    if n >= 10 {
        push_decimal(out, n / 10);
    }
    out.append(digit_text(n % 10));
    proof {
        if n >= 10 {
            assert(final(out)@ =~= old(out)@ + decimal(n as nat));
        } else {
            assert(final(out)@ =~= old(out)@ + decimal(n as nat));
        }
    }
}

/// Decimal text reads back as the number it was written from.
pub proof fn lemma_parse_decimal(n: u32)
    ensures
        parse_u32_spec(decimal(n as nat)) == Ok::<u32, IntErrorKind>(n),
{
    lemma_parse_digits_decimal(n as nat, u32::MAX as int);
    lemma_decimal_first_is_digit(n as nat);
}

/// Every `u64`, written in decimal, reads back as itself.
pub proof fn lemma_parse_decimal_u64(n: u64)
    ensures
        parse_u64_spec(decimal(n as nat)) == Ok::<u64, IntErrorKind>(n),
{
    lemma_parse_digits_decimal(n as nat, u64::MAX as int);
    lemma_decimal_first_is_digit(n as nat);
}

/// Decimal text is made of digits only.
pub proof fn lemma_decimal_digits(n: u32)
    ensures
        forall|i: int| 0 <= i < decimal(n as nat).len() ==> is_digit(#[trigger] decimal(n as nat)[i]),
{
    lemma_parse_digits_decimal(n as nat, u32::MAX as int);
}

proof fn lemma_decimal_first_is_digit(n: nat)
    ensures
        decimal(n).len() >= 1,
        is_digit(decimal(n)[0]),
    decreases n,
{
    if n >= 10 {
        lemma_decimal_first_is_digit(n / 10);
    }
}

proof fn lemma_parse_digits_decimal(n: nat, max: int)
    requires
        n <= max,
    ensures
        parse_digits(decimal(n), max) == Ok::<int, IntErrorKind>(n as int),
        forall|i: int| 0 <= i < decimal(n).len() ==> is_digit(#[trigger] decimal(n)[i]),
    decreases n,
{
    let c = ('0' as nat + n % 10) as char;
    assert(is_digit(c) && digit_value(c) == n % 10);
    if n < 10 {
        let s = decimal(n);
        assert(s.drop_last() =~= Seq::<char>::empty());
        assert(parse_digits(s.drop_last(), max) == Ok::<int, IntErrorKind>(0));
        assert(s.last() == c);
    } else {
        lemma_parse_digits_decimal(n / 10, max);
        let s = decimal(n);
        assert(s.drop_last() =~= decimal(n / 10));
        assert(s.last() == c);
        assert((n / 10) * 10 + n % 10 == n);
    }
}

} // verus!
