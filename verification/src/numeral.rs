//! Numbers as text: reading them in any radix, writing them in decimal and
//! hexadecimal.

use vstd::prelude::*;
use vstd::slice::slice_subrange;

verus! {

/// The value of a digit: `0` to `9`, then the letters of either case, as far as
/// it is below `radix`.
pub open spec fn digit_value(c: char, radix: int) -> Option<int> {
    let v = if '0' <= c <= '9' {
        c as int - '0' as int
    } else if 'a' <= c <= 'z' {
        c as int - 'a' as int + 10
    } else if 'A' <= c <= 'Z' {
        c as int - 'A' as int + 10
    } else {
        radix
    };
    if v < radix {
        Some(v)
    } else {
        None
    }
}

/// The value of a string of digits, the most significant one first.
pub open spec fn digits_value(s: Seq<char>, radix: int) -> Option<int>
    decreases s.len(),
{
    if s.len() == 0 {
        Some(0)
    } else {
        match (digits_value(s.drop_last(), radix), digit_value(s.last(), radix)) {
            (Some(v), Some(d)) => Some(v * radix + d),
            _ => None,
        }
    }
}

/// The value of a numeral: an optional plus sign and at least one digit.
pub open spec fn numeral_value(s: Seq<char>, radix: int) -> Option<int> {
    let digits = if s.len() > 0 && s[0] == '+' {
        s.skip(1)
    } else {
        s
    };
    if digits.len() == 0 {
        None
    } else {
        digits_value(digits, radix)
    }
}

/// The value of a numeral that is at most `max`.
pub open spec fn number_within(s: Seq<char>, radix: int, max: int) -> Option<int> {
    match numeral_value(s, radix) {
        Some(v) => if v <= max {
            Some(v)
        } else {
            None
        },
        None => None,
    }
}

pub fn digit(c: char, radix: u64) -> (d: Option<u64>)
    requires
        2 <= radix <= 36,
    ensures
        match d {
            Some(v) => digit_value(c, radix as int) == Some(v as int) && v < radix,
            None => digit_value(c, radix as int) is None,
        },
{
    let v: u64 = if '0' <= c && c <= '9' {
        (c as u64) - ('0' as u64)
    } else if 'a' <= c && c <= 'z' {
        (c as u64) - ('a' as u64) + 10
    } else if 'A' <= c && c <= 'Z' {
        (c as u64) - ('A' as u64) + 10
    } else {
        radix
    };
    if v < radix {
        Some(v)
    } else {
        None
    }
}

pub proof fn lemma_digits_value_nonneg(s: Seq<char>, radix: int)
    requires
        radix >= 2,
    ensures
        digits_value(s, radix) matches Some(v) ==> v >= 0,
    decreases s.len(),
{
    if s.len() > 0 {
        lemma_digits_value_nonneg(s.drop_last(), radix);
        if let (Some(v), Some(d)) = (
            digits_value(s.drop_last(), radix),
            digit_value(s.last(), radix),
        ) {
            assert(v * radix >= 0) by (nonlinear_arith)
                requires
                    v >= 0,
                    radix >= 2,
            ;
        }
    }
}

/// More digits do not make the value smaller, and do not mend a bad one.
pub proof fn lemma_digits_value_grows(s: Seq<char>, n: int, radix: int)
    requires
        radix >= 2,
        0 <= n <= s.len(),
    ensures
        digits_value(s.take(n), radix) is None ==> digits_value(s, radix) is None,
        digits_value(s, radix) matches Some(v) ==> v >= digits_value(s.take(n), radix)->0,
    decreases s.len() - n,
{
    if n == s.len() {
        assert(s.take(n) =~= s);
    } else {
        let t = s.take(n + 1);
        assert(t.drop_last() =~= s.take(n));
        lemma_digits_value_grows(s, n + 1, radix);
        lemma_digits_value_nonneg(s.take(n), radix);
        if let (Some(v), Some(d)) = (digits_value(s.take(n), radix), digit_value(t.last(), radix)) {
            assert(v * radix >= v) by (nonlinear_arith)
                requires
                    v >= 0,
                    radix >= 2,
            ;
        }
    }
}

/// Reads a numeral in `radix` whose value is at most `max`.
pub fn parse_number(s: &[char], radix: u64, max: u64) -> (n: Option<u64>)
    requires
        2 <= radix <= 36,
    ensures
        match n {
            Some(v) => number_within(s@, radix as int, max as int) == Some(v as int),
            None => number_within(s@, radix as int, max as int) is None,
        },
{
    let digits: &[char] = if s.len() > 0 && s[0] == '+' {
        slice_subrange(s, 1, s.len())
    } else {
        s
    };
    proof {
        if s@.len() > 0 && s@[0] == '+' {
            assert(digits@ =~= s@.skip(1));
        }
    }
    if digits.len() == 0 {
        return None;
    }
    let mut value: u64 = 0;
    let mut i: usize = 0;
    assert(digits@.take(0) =~= Seq::<char>::empty());
    while i < digits.len()
        invariant
            2 <= radix <= 36,
            i <= digits.len(),
            digits.len() > 0,
            value <= max,
            digits_value(digits@.take(i as int), radix as int) == Some(value as int),
            numeral_value(s@, radix as int) == digits_value(digits@, radix as int),
        decreases digits.len() - i,
    {
        let ghost upto = digits@.take(i + 1);
        proof {
            assert(upto.drop_last() =~= digits@.take(i as int));
            lemma_digits_value_grows(digits@, i + 1, radix as int);
        }
        match digit(digits[i], radix) {
            Some(d) => {
                if d > max || value > (max - d) / radix {
                    proof {
                        let room = (max - d) / (radix as int);
                        assert(value * radix + d > max) by (nonlinear_arith)
                            requires
                                d > max || value > (max - d) / (radix as int),
                                radix >= 2,
                                value >= 0,
                                d >= 0,
                        ;
                    }
                    return None;
                }
                assert(value * radix + d <= max) by (nonlinear_arith)
                    requires
                        d <= max,
                        value <= (max - d) / (radix as int),
                        radix >= 2,
                ;
                value = value * radix + d;
            },
            None => {
                return None;
            },
        }
        i += 1;
    }
    assert(digits@.take(digits@.len() as int) =~= digits@);
    Some(value)
}

// ------------------------------------------------------------------- writing

/// The digit of value `d`, with small letters above nine.
pub open spec fn digit_char(d: int) -> char {
    if d < 10 {
        ('0' as int + d) as char
    } else {
        ('a' as int + d - 10) as char
    }
}

/// `n` in `radix`, without leading zeros.
pub open spec fn in_radix(n: nat, radix: int) -> Seq<char>
    decreases n,
{
    if radix < 2 || n < radix {
        seq![digit_char(n as int)]
    } else {
        proof {
            lemma_quotient_below(n as int, radix);
        }
        in_radix((n as int / radix) as nat, radix).push(digit_char(n as int % radix))
    }
}

/// `n` in decimal.
pub open spec fn decimal(n: nat) -> Seq<char> {
    in_radix(n, 10)
}

/// `n` in decimal with at least two digits.
pub open spec fn two_digits(n: nat) -> Seq<char> {
    if n < 10 {
        seq!['0'] + decimal(n)
    } else {
        decimal(n)
    }
}

pub proof fn lemma_quotient_below(n: int, radix: int)
    requires
        radix >= 2,
        n >= radix,
    ensures
        0 <= n / radix < n,
{
    assert(0 <= n / radix < n) by (nonlinear_arith)
        requires
            radix >= 2,
            n >= radix,
    ;
}

/// A digit is read as the value it was written for.
pub proof fn lemma_digit_round_trip(d: int, radix: int)
    requires
        0 <= d < radix <= 36,
    ensures
        digit_value(digit_char(d), radix) == Some(d),
{
}

/// A number is read as the value it was written for.
pub proof fn number_round_trip(n: nat, radix: int)
    requires
        2 <= radix <= 36,
    ensures
        digits_value(in_radix(n, radix), radix) == Some(n as int),
        numeral_value(in_radix(n, radix), radix) == Some(n as int),
        in_radix(n, radix).len() > 0,
    decreases n,
{
    let s = in_radix(n, radix);
    if n < radix {
        lemma_digit_round_trip(n as int, radix);
        assert(s.drop_last() =~= Seq::<char>::empty());
        assert(digits_value(s.drop_last(), radix) == Some(0int));
        assert(0 * radix == 0) by (nonlinear_arith);
        assert(s.last() == digit_char(n as int));
    } else {
        lemma_quotient_below(n as int, radix);
        let q = (n as int / radix) as nat;
        let d = n as int % radix;
        number_round_trip(q, radix);
        assert(0 <= d < radix) by (nonlinear_arith)
            requires
                d == n as int % radix,
                radix >= 2,
        ;
        lemma_digit_round_trip(d, radix);
        assert(s.drop_last() =~= in_radix(q, radix));
        assert(s.last() == digit_char(d));
        assert(q * radix + d == n) by (nonlinear_arith)
            requires
                q == n as int / radix,
                d == n as int % radix,
                radix >= 2,
        ;
    }
    lemma_first_digit(n, radix);
}

/// A written number does not begin with a plus sign.
pub proof fn lemma_first_digit(n: nat, radix: int)
    requires
        2 <= radix <= 36,
    ensures
        in_radix(n, radix).len() > 0,
        in_radix(n, radix)[0] != '+',
    decreases n,
{
    if n >= radix {
        lemma_quotient_below(n as int, radix);
        lemma_first_digit((n as int / radix) as nat, radix);
    }
}

/// Appends `n` in decimal to `out`.
pub fn push_decimal(out: &mut Vec<char>, n: u64)
    ensures
        final(out)@ == old(out)@ + decimal(n as nat),
    decreases n,
{
    let ghost start = out@;
    if n >= 10 {
        push_decimal(out, n / 10);
    }
    let d: u64 = n % 10;
    let c: char = (48u8 + d as u8) as char;
    out.push(c);
    proof {
        if n >= 10 {
            assert(out@ =~= start + decimal((n / 10) as nat).push(digit_char(d as int)));
        } else {
            assert(out@ =~= start + decimal(n as nat));
        }
    }
}

/// Appends `n` in decimal with at least two digits to `out`.
pub fn push_two_digits(out: &mut Vec<char>, n: u64)
    ensures
        final(out)@ == old(out)@ + two_digits(n as nat),
{
    let ghost start = out@;
    if n < 10 {
        out.push('0');
        push_decimal(out, n);
        assert(out@ =~= start + (seq!['0'] + decimal(n as nat)));
    } else {
        push_decimal(out, n);
    }
}

/// A byte as two hexadecimal digits.
pub open spec fn hex_byte(b: u8) -> Seq<char> {
    seq![digit_char(b as int / 16), digit_char(b as int % 16)]
}

/// The bytes as hexadecimal digits, two for each.
pub open spec fn hex_bytes(bytes: Seq<u8>) -> Seq<char>
    decreases bytes.len(),
{
    if bytes.len() == 0 {
        seq![]
    } else {
        hex_bytes(bytes.drop_last()) + hex_byte(bytes.last())
    }
}

fn hex_digit(d: u8) -> (c: char)
    requires
        d < 16,
    ensures
        c == digit_char(d as int),
{
    if d < 10 {
        (48 + d) as char
    } else {
        (87 + d) as char
    }
}

/// The bytes as hexadecimal digits, two for each.
pub fn to_hex(bytes: &[u8]) -> (out: Vec<char>)
    ensures
        out@ == hex_bytes(bytes@),
{
    let mut out: Vec<char> = Vec::new();
    let mut i: usize = 0;
    while i < bytes.len()
        invariant
            i <= bytes.len(),
            out@ == hex_bytes(bytes@.take(i as int)),
        decreases bytes.len() - i,
    {
        let b: u8 = bytes[i];
        let ghost done = out@;
        out.push(hex_digit(b / 16));
        out.push(hex_digit(b % 16));
        proof {
            assert(bytes@.take(i + 1).drop_last() =~= bytes@.take(i as int));
            assert(out@ =~= done + hex_byte(b));
        }
        i += 1;
    }
    assert(bytes@.take(bytes@.len() as int) =~= bytes@);
    out
}

} // verus!
