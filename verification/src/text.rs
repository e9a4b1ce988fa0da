//! Numbers as text, and text as numbers.

use vstd::prelude::*;
use vstd::string::StringExecFns;

verus! {

/// The character of a decimal digit.
pub open spec fn digit_char(d: int) -> char {
    (48 + d) as char
}

/// A number in decimal, without leading zeros.
pub open spec fn decimal(n: nat) -> Seq<char>
    decreases n,
{
    if n < 10 {
        seq![digit_char(n as int)]
    } else {
        decimal(n / 10).push(digit_char((n % 10) as int))
    }
}

/// A decimal digit as text.
fn digit(d: u64) -> (s: &'static str)
    requires
        d < 10,
    ensures
        s@ == seq![digit_char(d as int)],
{
    proof {
        reveal_strlit("0");
        reveal_strlit("1");
        reveal_strlit("2");
        reveal_strlit("3");
        reveal_strlit("4");
        reveal_strlit("5");
        reveal_strlit("6");
        reveal_strlit("7");
        reveal_strlit("8");
        reveal_strlit("9");
    }
    let s: &'static str = match d {
        0 => "0",
        1 => "1",
        2 => "2",
        3 => "3",
        4 => "4",
        5 => "5",
        6 => "6",
        7 => "7",
        8 => "8",
        _ => "9",
    };
    assert(s@ =~= seq![digit_char(d as int)]);
    s
}

/// Appends a number in decimal.
pub fn push_decimal(out: &mut String, n: u64)
    ensures
        final(out)@ == old(out)@ + decimal(n as nat),
    decreases n,
{
    if n >= 10 {
        push_decimal(out, n / 10);
    }
    out.append(digit(n % 10));
    assert(out@ =~= old(out)@ + decimal(n as nat));
}

/// A number in decimal.
pub fn to_decimal(n: u64) -> (s: String)
    ensures
        s@ == decimal(n as nat),
{
    let mut s = String::new();
    push_decimal(&mut s, n);
    assert(s@ =~= decimal(n as nat));
    s
}

/// Whether the character is a decimal digit.
pub open spec fn is_digit(c: char) -> bool {
    '0' <= c <= '9'
}

/// The number that a row of digits stands for.
pub open spec fn number(digits: Seq<char>) -> nat
    decreases digits.len(),
{
    if digits.len() == 0 {
        0
    } else {
        10 * number(digits.drop_last()) + ((digits.last() as u32 - 48) as nat)
    }
}

/// A number reads back from its decimal form.
pub proof fn law_decimal_reads_back(n: nat)
    ensures
        number(decimal(n)) == n,
        decimal(n).len() > 0,
        forall|i: int| 0 <= i < decimal(n).len() ==> is_digit(#[trigger] decimal(n)[i]),
    decreases n,
{
    if n >= 10 {
        law_decimal_reads_back(n / 10);
        assert(decimal(n).drop_last() =~= decimal(n / 10));
    } else {
        assert(decimal(n).drop_last() =~= Seq::empty());
        reveal_with_fuel(number, 2);
    }
}

/// Why a text is no small number.
#[derive(Clone, Copy, Debug, PartialEq, Eq)]
pub enum NumberError {
    Empty,
    InvalidDigit,
    TooLarge,
}

/// The number that the text stands for, as integers are read: an optional plus
/// sign, then digits only, and the value must fit a byte.
pub open spec fn byte_value(s: Seq<char>) -> Result<u8, NumberError> {
    let digits = if s.len() > 1 && s[0] == '+' {
        s.skip(1)
    } else {
        s
    };
    if s.len() == 0 {
        Err(NumberError::Empty)
    } else {
        byte_digits(digits, 0, 0)
    }
}

/// Reads the digits from the `i`-th on, behind a value read so far: the first
/// character that is no digit, or the first digit that makes the value too
/// large, decides.
pub open spec fn byte_digits(digits: Seq<char>, i: int, value: nat) -> Result<u8, NumberError>
    decreases digits.len() - i,
{
    if i >= digits.len() {
        Ok(value as u8)
    } else if !is_digit(digits[i]) {
        Err(NumberError::InvalidDigit)
    } else {
        let next = 10 * value + ((digits[i] as u32 - 48) as nat);
        if next > 255 {
            Err(NumberError::TooLarge)
        } else {
            byte_digits(digits, i + 1, next)
        }
    }
}

/// Reads a number that fits a byte.
pub fn parse_byte(s: &str) -> (n: Result<u8, NumberError>)
    ensures
        n == byte_value(s@),
{
    let len: usize = s.unicode_len();
    if len == 0 {
        return Err(NumberError::Empty);
    }
    let start: usize = if len > 1 && s.get_char(0) == '+' {
        1
    } else {
        0
    };
    let ghost digits = s@.skip(start as int);
    assert(s@.skip(0) =~= s@);
    let mut value: u32 = 0;
    let mut i: usize = start;
    while i < len
        invariant
            len == s@.len(),
            start <= i <= len,
            digits == s@.skip(start as int),
            value <= 255,
            byte_value(s@) == byte_digits(digits, 0, 0),
            byte_digits(digits, i - start, value as nat) == byte_digits(digits, 0, 0),
        decreases len - i,
    {
        let c: char = s.get_char(i);
        assert(digits[i - start] == c);
        if c < '0' || c > '9' {
            return Err(NumberError::InvalidDigit);
        }
        value = value * 10 + ((c as u32) - 48);
        if value > 255 {
            return Err(NumberError::TooLarge);
        }
        i = i + 1;
    }
    Ok(value as u8)
}

/// One digit more makes a number ten times as large, and adds the digit; and a
/// number of more than one digit does not begin with a zero.
pub proof fn law_decimal_digits(n: nat, d: nat, digits: Seq<char>, c: char)
    requires
        d < 10,
        is_digit(c),
    ensures
        n > 0 ==> decimal(10 * n + d) == decimal(n).push((('0' as u32) + d) as char),
        n == 0 ==> decimal(10 * n + d) == seq![(('0' as u32) + d) as char],
        decimal(n).len() > 1 ==> decimal(n)[0] != '0',
        number(Seq::empty()) == 0,
        number(digits.push(c)) == 10 * number(digits) + (c as u32 - '0' as u32),
{
    assert(digits.push(c).drop_last() =~= digits);
    lemma_first_digit(n);
    if n > 0 {
        assert((10 * n + d) / 10 == n && (10 * n + d) % 10 == d);
    }
}

proof fn lemma_first_digit(n: nat)
    ensures
        decimal(n).len() > 0,
        n > 0 ==> decimal(n)[0] != '0',
        decimal(n).len() > 1 ==> n >= 10,
    decreases n,
{
    if n >= 10 {
        lemma_first_digit(n / 10);
    }
}

/// The digits of a text, behind a plus sign if it begins with one.
pub open spec fn unsigned(s: Seq<char>) -> Seq<char> {
    if s.len() > 1 && s[0] == '+' {
        s.skip(1)
    } else {
        s
    }
}

pub open spec fn all_digits(s: Seq<char>) -> bool {
    forall|i: int| 0 <= i < s.len() ==> is_digit(#[trigger] s[i])
}

/// A text is read as a byte just where it is all digits, behind a plus sign if
/// there is one, and stands for at most 255, and then as what it stands for. An
/// empty text is told apart; else it is too large if its digits come to more than
/// 255 before anything else stands there, and if not it is no number.
pub proof fn law_a_byte_is_read_as_what_it_stands_for(s: Seq<char>)
    ensures
        byte_value(s) is Ok <==> s.len() > 0 && all_digits(unsigned(s)) && number(unsigned(s))
            <= 255,
        byte_value(s) matches Ok(n) ==> n == number(unsigned(s)),
        byte_value(s) == Err::<u8, _>(NumberError::Empty) <==> s.len() == 0,
        byte_value(s) == Err::<u8, _>(NumberError::TooLarge) <==> s.len() > 0 && exists|i: int|
            #![trigger unsigned(s).take(i)]
            0 <= i <= unsigned(s).len() && all_digits(unsigned(s).take(i)) && number(
                unsigned(s).take(i),
            ) > 255,
{
    let digits = unsigned(s);
    if s.len() > 0 {
        assert(digits.take(0) =~= Seq::empty());
        lemma_byte_digits(digits, 0);
        assert(digits.take(digits.len() as int) =~= digits);
        assert(byte_value(s) == byte_digits(digits, 0, 0));
        if byte_value(s) is Ok {
            assert forall|i: int|
                #![trigger digits.take(i)]
                0 <= i <= digits.len() && all_digits(digits.take(i)) implies number(digits.take(i))
                <= 255 by {
                lemma_prefix_is_less(digits, i, digits.len() as int);
            }
        }
        if byte_value(s) == Err::<u8, _>(NumberError::InvalidDigit) {
            let k = choose|k: int|
                0 <= k < digits.len() && !is_digit(#[trigger] digits[k]) && all_digits(digits.take(k))
                    && number(digits.take(k)) <= 255;
            assert forall|i: int|
                #![trigger digits.take(i)]
                0 <= i <= digits.len() && all_digits(digits.take(i)) implies number(digits.take(i))
                <= 255 by {
                if i > k {
                    assert(digits.take(i)[k] == digits[k]);
                }
                lemma_prefix_is_less(digits, i, k);
            }
            assert(!is_digit(digits[k]));
        }
        if byte_value(s) == Err::<u8, _>(NumberError::TooLarge) {
            let k = choose|k: int|
                #![trigger digits.take(k)]
                0 <= k <= digits.len() && all_digits(digits.take(k)) && number(digits.take(k)) > 255;
            if all_digits(digits) {
                lemma_prefix_is_less(digits, k, digits.len() as int);
            }
        }
    } else {
        assert forall|i: int|
            #![trigger digits.take(i)]
            0 <= i <= digits.len() implies number(digits.take(i)) <= 255 by {
            assert(digits.take(i) =~= Seq::empty());
        }
    }
}

/// Fewer digits stand for no more.
proof fn lemma_prefix_is_less(digits: Seq<char>, i: int, j: int)
    requires
        0 <= i <= digits.len(),
        0 <= j <= digits.len(),
        all_digits(digits.take(j)),
    ensures
        i <= j ==> number(digits.take(i)) <= number(digits.take(j)),
    decreases j - i,
{
    if i < j {
        assert(digits.take(j).drop_last() =~= digits.take(j - 1));
        assert(is_digit(digits.take(j)[j - 1]));
        assert forall|k: int| 0 <= k < j - 1 implies is_digit(#[trigger] digits.take(j - 1)[k]) by {
            assert(is_digit(digits.take(j)[k]));
        }
        lemma_prefix_is_less(digits, i, j - 1);
    }
}

proof fn lemma_byte_digits(digits: Seq<char>, i: int)
    requires
        0 <= i <= digits.len(),
        all_digits(digits.take(i)),
        number(digits.take(i)) <= 255,
    ensures
        match byte_digits(digits, i, number(digits.take(i))) {
            Ok(n) => all_digits(digits) && n == number(digits) && number(digits) <= 255,
            Err(NumberError::InvalidDigit) => exists|k: int|
                0 <= k < digits.len() && !is_digit(#[trigger] digits[k]) && all_digits(digits.take(k))
                    && number(digits.take(k)) <= 255,
            Err(NumberError::TooLarge) => exists|k: int|
                #![trigger digits.take(k)]
                0 <= k <= digits.len() && all_digits(digits.take(k)) && number(digits.take(k)) > 255,
            Err(NumberError::Empty) => false,
        },
    decreases digits.len() - i,
{
    assert(digits.take(digits.len() as int) =~= digits);
    if i < digits.len() {
        if is_digit(digits[i]) {
            let more = digits.take(i + 1);
            assert(more.drop_last() =~= digits.take(i));
            assert forall|k: int| 0 <= k < more.len() implies is_digit(#[trigger] more[k]) by {
                if k < i {
                    assert(is_digit(digits.take(i)[k]));
                }
            }
            if number(more) <= 255 {
                lemma_byte_digits(digits, i + 1);
            }
        } else {
            assert(!is_digit(digits[i]));
        }
    }
}

} // verus!
