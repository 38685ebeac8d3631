//! Decimal and hexadecimal text, as it appears in listing identifiers and in
//! numeric fields that a feed may send as strings.

use vstd::prelude::*;
use vstd::string::*;
use vstd::utf8::is_ascii_chars;

verus! {

/// The character that writes the digit `d` in base sixteen, lower case.
pub open spec fn hex_digit(d: nat) -> char
    recommends
        d < 16,
{
    if d == 0 {
        '0'
    } else if d == 1 {
        '1'
    } else if d == 2 {
        '2'
    } else if d == 3 {
        '3'
    } else if d == 4 {
        '4'
    } else if d == 5 {
        '5'
    } else if d == 6 {
        '6'
    } else if d == 7 {
        '7'
    } else if d == 8 {
        '8'
    } else if d == 9 {
        '9'
    } else if d == 10 {
        'a'
    } else if d == 11 {
        'b'
    } else if d == 12 {
        'c'
    } else if d == 13 {
        'd'
    } else if d == 14 {
        'e'
    } else {
        'f'
    }
}

/// The value of a decimal digit character, or `None` for any other character.
pub open spec fn digit_value(c: char) -> Option<nat> {
    if c == '0' {
        Some(0)
    } else if c == '1' {
        Some(1)
    } else if c == '2' {
        Some(2)
    } else if c == '3' {
        Some(3)
    } else if c == '4' {
        Some(4)
    } else if c == '5' {
        Some(5)
    } else if c == '6' {
        Some(6)
    } else if c == '7' {
        Some(7)
    } else if c == '8' {
        Some(8)
    } else if c == '9' {
        Some(9)
    } else {
        None
    }
}

/// The shortest decimal notation of `n`: no sign, no leading zero except for zero itself.
pub open spec fn decimal(n: nat) -> Seq<char>
    decreases n,
{
    if n < 10 {
        seq![hex_digit(n)]
    } else {
        decimal(n / 10).push(hex_digit(n % 10))
    }
}

/// The number that a run of decimal digits denotes, most significant digit first.
/// `None` when some character is not a digit. The empty run denotes zero.
pub open spec fn digits_value(s: Seq<char>) -> Option<nat>
    decreases s.len(),
{
    if s.len() == 0 {
        Some(0)
    } else {
        match (digits_value(s.drop_last()), digit_value(s.last())) {
            (Some(high), Some(low)) => Some(high * 10 + low),
            _ => None,
        }
    }
}

/// What a text denotes as an unsigned decimal number: an optional `+`, then at
/// least one digit. `None` for anything else.
pub open spec fn parse_decimal(s: Seq<char>) -> Option<nat> {
    let digits = if s.len() > 0 && s[0] == '+' {
        s.subrange(1, s.len() as int)
    } else {
        s
    };
    if digits.len() == 0 {
        None
    } else {
        digits_value(digits)
    }
}

/// Two lower-case hexadecimal digits for every byte, in order.
pub open spec fn hex_of(bytes: Seq<u8>) -> Seq<char>
    decreases bytes.len(),
{
    if bytes.len() == 0 {
        Seq::empty()
    } else {
        hex_of(bytes.drop_last()).push(hex_digit((bytes.last() / 16) as nat)).push(
            hex_digit((bytes.last() % 16) as nat),
        )
    }
}

/// Reading back the decimal notation of a number gives the number.
pub proof fn lemma_decimal_round_trip(n: nat)
    ensures
        decimal(n).len() > 0,
        decimal(n)[0] != '+',
        digits_value(decimal(n)) == Some(n),
        parse_decimal(decimal(n)) == Some(n),
    decreases n,
{
    if n < 10 {
        let s = decimal(n);
        assert(s.drop_last() =~= Seq::<char>::empty());
        assert(digits_value(s.drop_last()) == Some(0nat));
    } else {
        lemma_decimal_round_trip(n / 10);
        let s = decimal(n);
        assert(s.drop_last() =~= decimal(n / 10));
        assert(s.last() == hex_digit(n % 10));
        assert(s[0] == decimal(n / 10)[0]);
    }
}

/// Different numbers have different decimal notations.
pub proof fn lemma_decimal_injective(a: nat, b: nat)
    requires
        decimal(a) == decimal(b),
    ensures
        a == b,
{
    lemma_decimal_round_trip(a);
    lemma_decimal_round_trip(b);
}

/// The decimal notation of a number holds digits only.
pub proof fn lemma_decimal_is_digits(n: nat, i: int)
    requires
        0 <= i < decimal(n).len(),
    ensures
        digit_value(decimal(n)[i]) is Some,
    decreases n,
{
    if n >= 10 {
        if i < decimal(n / 10).len() {
            lemma_decimal_is_digits(n / 10, i);
        }
    }
}

/// The text of one hexadecimal digit.
fn hex_digit_str(d: u8) -> (s: &'static str)
    requires
        d < 16,
    ensures
        s@ == seq![hex_digit(d as nat)],
{
    proof {
        reveal_strlit("0");
        reveal_strlit("1");
        reveal_strlit("2");
        reveal_strlit("3");
        reveal_strlit("4");
        reveal_strlit("5");
        reveal_strlit("6");
        reveal_strlit("7");
        reveal_strlit("8");
        reveal_strlit("9");
        reveal_strlit("a");
        reveal_strlit("b");
        reveal_strlit("c");
        reveal_strlit("d");
        reveal_strlit("e");
        reveal_strlit("f");
    }
    let s: &'static str = if d == 0 {
        "0"
    } else if d == 1 {
        "1"
    } else if d == 2 {
        "2"
    } else if d == 3 {
        "3"
    } else if d == 4 {
        "4"
    } else if d == 5 {
        "5"
    } else if d == 6 {
        "6"
    } else if d == 7 {
        "7"
    } else if d == 8 {
        "8"
    } else if d == 9 {
        "9"
    } else if d == 10 {
        "a"
    } else if d == 11 {
        "b"
    } else if d == 12 {
        "c"
    } else if d == 13 {
        "d"
    } else if d == 14 {
        "e"
    } else {
        "f"
    };
    assert(s@ =~= seq![hex_digit(d as nat)]);
    s
}

/// Writes `n` in decimal.
pub fn u64_to_decimal(n: u64) -> (s: String)
    ensures
        s@ == decimal(n as nat),
    decreases n,
{
    if n < 10 {
        String::from_str(hex_digit_str(n as u8))
    } else {
        let mut s = u64_to_decimal(n / 10);
        s.append(hex_digit_str((n % 10) as u8));
        s
    }
}

/// Writes every byte as two lower-case hexadecimal digits.
pub fn to_hex(bytes: &[u8]) -> (s: String)
    ensures
        s@ == hex_of(bytes@),
{
    let mut s = String::new();
    let mut i: usize = 0;
    while i < bytes.len()
        invariant
            i <= bytes.len(),
            s@ == hex_of(bytes@.subrange(0, i as int)),
        decreases bytes.len() - i,
    {
        let b: u8 = bytes[i];
        proof {
            let next = bytes@.subrange(0, i + 1);
            assert(next.drop_last() =~= bytes@.subrange(0, i as int));
            assert(next.last() == b);
        }
        s.append(hex_digit_str(b / 16));
        s.append(hex_digit_str(b % 16));
        i += 1;
    }
    assert(bytes@.subrange(0, i as int) =~= bytes@);
    s
}

/// The value of an ASCII byte as a decimal digit.
fn digit_of_byte(b: u8) -> (d: Option<u8>)
    ensures
        d matches Some(v) ==> v < 10 && digit_value(b as char) == Some(v as nat),
        d is None ==> digit_value(b as char) is None,
{
    if b >= 48 && b <= 57 {
        Some(b - 48)
    } else {
        None
    }
}

/// Reads an unsigned decimal number: an optional `+`, then at least one digit.
/// `None` when the text is anything else, or the number does not fit in 64 bits.
pub fn parse_u64(s: &str) -> (r: Option<u64>)
    ensures
        r == match parse_decimal(s@) {
            Some(n) if n <= u64::MAX => Some(n as u64),
            _ => None,
        },
{
    broadcast use is_ascii_spec_bytes;

    if !s.is_ascii() {
        proof {
            lemma_not_ascii_not_number(s@);
        }
        return None;
    }
    let bytes = s.as_bytes();
    let n: usize = bytes.len();
    let start: usize = if n > 0 && bytes[0] == 43 {
        1
    } else {
        0
    };
    assert(s@.len() == n);
    assert(n > 0 ==> (bytes[0] == 43 <==> s@[0] == '+'));
    let ghost digits = s@.subrange(start as int, n as int);
    assert(start == 0 ==> digits =~= s@);
    if start == n {
        return None;
    }
    assert(parse_decimal(s@) == digits_value(digits));
    assert(digits.subrange(0, 0) =~= Seq::<char>::empty());
    let mut value: u64 = 0;
    let mut i: usize = start;
    while i < n
        invariant
            start <= i <= n,
            n == s@.len(),
            bytes@.len() == n,
            is_ascii_chars(s@),
            forall|k: int| 0 <= k < n ==> bytes@[k] == s@[k] as u8,
            digits == s@.subrange(start as int, n as int),
            parse_decimal(s@) == digits_value(digits),
            digits_value(digits.subrange(0, i - start)) == Some(value as nat),
        decreases n - i,
    {
        let ghost prefix = digits.subrange(0, i - start);
        let ghost next = digits.subrange(0, i + 1 - start);
        proof {
            assert(next.drop_last() =~= prefix);
            assert(next.last() == s@[i as int]);
            assert(s@[i as int] == bytes@[i as int] as char);
        }
        let d: u8 = match digit_of_byte(bytes[i]) {
            Some(d) => d,
            None => {
                proof {
                    assert(digits_value(next) is None);
                    lemma_digits_value_prefix(digits, i + 1 - start);
                }
                return None;
            },
        };
        if value > (u64::MAX - d as u64) / 10 {
            proof {
                assert(value * 10 + d > u64::MAX);
                assert(digits_value(next) == Some((value * 10 + d) as nat));
                lemma_digits_value_grows(digits, i + 1 - start);
            }
            return None;
        }
        value = value * 10 + d as u64;
        i += 1;
    }
    assert(digits.subrange(0, n - start) =~= digits);
    Some(value)
}

/// A text with a character outside ASCII is not a decimal number.
proof fn lemma_not_ascii_not_number(s: Seq<char>)
    requires
        !is_ascii_chars(s),
    ensures
        parse_decimal(s) is None,
{
    let i = choose|i: int| 0 <= i < s.len() && !('\0' <= #[trigger] s[i] <= '\u{7f}');
    assert(digit_value(s[i]) is None);
    assert(s[i] != '+');
    if s.len() > 0 && s[0] == '+' {
        let digits = s.subrange(1, s.len() as int);
        assert(digits[i - 1] == s[i]);
        lemma_digits_value_none(digits, i - 1);
    } else {
        lemma_digits_value_none(s, i);
    }
}

/// A run with a character that is no digit denotes nothing.
proof fn lemma_digits_value_none(s: Seq<char>, i: int)
    requires
        0 <= i < s.len(),
        digit_value(s[i]) is None,
    ensures
        digits_value(s) is None,
    decreases s.len(),
{
    if i < s.len() - 1 {
        lemma_digits_value_none(s.drop_last(), i);
    }
}

/// If a prefix of a run denotes nothing, neither does the run.
proof fn lemma_digits_value_prefix(s: Seq<char>, len: int)
    requires
        0 <= len <= s.len(),
        digits_value(s.subrange(0, len)) is None,
    ensures
        digits_value(s) is None,
    decreases s.len() - len,
{
    if len < s.len() {
        assert(s.subrange(0, len + 1).drop_last() =~= s.subrange(0, len));
        lemma_digits_value_prefix(s, len + 1);
    } else {
        assert(s.subrange(0, len) =~= s);
    }
}

/// A run denotes at least what each of its prefixes denotes.
proof fn lemma_digits_value_grows(s: Seq<char>, len: int)
    requires
        0 <= len <= s.len(),
    ensures
        digits_value(s) matches Some(v) ==> digits_value(s.subrange(0, len)) matches Some(p)
            && p <= v,
    decreases s.len() - len,
{
    if len < s.len() {
        assert(s.subrange(0, len + 1).drop_last() =~= s.subrange(0, len));
        lemma_digits_value_grows(s, len + 1);
    } else {
        assert(s.subrange(0, len) =~= s);
    }
}

} // verus!
