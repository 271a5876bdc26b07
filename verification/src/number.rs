//! Decimal numbers in text.

use vstd::prelude::*;

verus! {

pub open spec fn is_digit(c: char) -> bool {
    '0' <= c <= '9'
}

/// The value of a decimal digit.
pub open spec fn digit_value(c: char) -> int {
    c as int - '0' as int
}

/// The digit of a value below ten.
pub open spec fn digit_char(n: int) -> char {
    ('0' as int + n) as char
}

pub open spec fn all_digits(s: Seq<char>) -> bool {
    forall|i: int| 0 <= i < s.len() ==> is_digit(#[trigger] s[i])
}

/// The number that the digits of `s` write in base ten.
pub open spec fn decimal_value(s: Seq<char>) -> int
    decreases s.len(),
{
    if s.len() == 0 {
        0
    } else {
        10 * decimal_value(s.drop_last()) + digit_value(s.last())
    }
}

/// `s` without one leading plus sign.
pub open spec fn without_plus(s: Seq<char>) -> Seq<char> {
    if s.len() > 0 && s[0] == '+' {
        s.skip(1)
    } else {
        s
    }
}

/// The number that `s` stands for: at least one decimal digit and nothing else, after an
/// optional plus sign, with a value that fits in 64 bits.
pub open spec fn parsed_u64(s: Seq<char>) -> Option<u64> {
    let digits = without_plus(s);
    if digits.len() > 0 && all_digits(digits) && decimal_value(digits) <= u64::MAX {
        Some(decimal_value(digits) as u64)
    } else {
        None
    }
}

/// The decimal digits of `n`, without leading zeros.
pub open spec fn decimal(n: nat) -> Seq<char>
    decreases n,
{
    if n < 10 {
        seq![digit_char(n as int)]
    } else {
        decimal(n / 10).push(digit_char((n % 10) as int))
    }
}

/// A longer run of digits never stands for a smaller number.
proof fn lemma_prefix_value(s: Seq<char>, i: int)
    requires
        all_digits(s),
        0 <= i <= s.len(),
    ensures
        0 <= decimal_value(s.take(i)) <= decimal_value(s),
    decreases s.len(),
{
    if i == s.len() {
        assert(s.take(i) == s);
        if s.len() > 0 {
            lemma_prefix_value(s.drop_last(), i - 1);
            assert(is_digit(s[i - 1]));
        }
    } else {
        lemma_prefix_value(s.drop_last(), i);
        assert(s.drop_last().take(i) == s.take(i));
        assert(is_digit(s.last()));
    }
}

/// Reads a number as `u64` from text.
pub fn parse_u64(s: &[char]) -> (r: Option<u64>)
    ensures
        r == parsed_u64(s@),
{
    let start: usize = if s.len() > 0 && s[0] == '+' { 1 } else { 0 };
    let ghost digits = without_plus(s@);
    assert(digits == s@.skip(start as int));
    if start == s.len() {
        return None;
    }
    let mut value: u64 = 0;
    for i in start..s.len()
        invariant
            start <= 1,
            digits == s@.skip(start as int),
            digits == without_plus(s@),
            all_digits(digits.take(i - start)),
            value == decimal_value(digits.take(i - start)),
    {
        let c: char = s[i];
        assert(digits[i - start] == c);
        if c < '0' || '9' < c {
            assert(!is_digit(digits[i - start]));
            return None;
        }
        let digit: u64 = (c as u8 - 48) as u64;
        proof {
            let prefix = digits.take(i - start + 1);
            assert(prefix.drop_last() == digits.take(i - start));
            assert(prefix.last() == c);
            assert(decimal_value(prefix) == 10 * value + digit);
            if all_digits(digits) {
                lemma_prefix_value(digits, i - start + 1);
            }
        }
        if value > (u64::MAX - digit) / 10 {
            return None;
        }
        value = 10 * value + digit;
    }
    assert(digits.take(s@.len() - start) == digits);
    Some(value)
}

/// Appends the decimal digits of a number.
pub fn push_decimal(out: &mut String, n: u64)
    ensures
        final(out)@ == old(out)@ + decimal(n as nat),
    decreases n,
{
    if n >= 10 {
        push_decimal(out, n / 10);
    }
    let digit: char = (48 + (n % 10) as u8) as char;
    out.push(digit);
}

/// The digits of a number are digits, and stand for it.
pub(crate) proof fn lemma_decimal_digits(n: nat)
    ensures
        decimal(n).len() > 0,
        all_digits(decimal(n)),
        decimal_value(decimal(n)) == n,
    decreases n,
{
    if n < 10 {
        assert(decimal(n).drop_last() == Seq::<char>::empty());
        assert(decimal_value(decimal(n).drop_last()) == 0);
    } else {
        lemma_decimal_digits(n / 10);
        assert(decimal(n).drop_last() == decimal(n / 10));
    }
}

/// A number that was written in decimal is read back as the same number.
pub proof fn law_decimal_is_read_back(n: u64)
    ensures
        parsed_u64(decimal(n as nat)) == Some(n),
{
    lemma_decimal_digits(n as nat);
    assert(is_digit(decimal(n as nat)[0]));
}

/// A number below ten is written as one digit. Ten times a number and a digit more is written as
/// the number and then the digit.
pub proof fn law_decimal_is_written_digit_by_digit(n: nat, digit: nat)
    requires
        digit < 10,
    ensures
        decimal(digit).len() == 1,
        decimal(digit)[0] as int == '0' as int + digit,
        n > 0 ==> decimal(10 * n + digit) == decimal(n) + decimal(digit),
{
    if n > 0 {
        let m = 10 * n + digit;
        assert(m / 10 == n && m % 10 == digit);
        assert(decimal(m) == decimal(n) + decimal(digit));
    }
}

/// A number is read from digits, at least one, that may stand behind one plus sign. Anything else
/// is not read as a number.
pub proof fn law_number_is_made_of_digits(s: Seq<char>)
    ensures
        parsed_u64(s) is Some ==> s.len() > 0 && ('0' <= s[0] <= '9' || (s[0] == '+' && s.len()
            > 1)) && forall|i: int| 1 <= i < s.len() ==> '0' <= #[trigger] s[i] <= '9',
{
    if parsed_u64(s) is Some {
        let digits = without_plus(s);
        assert(is_digit(digits[0]));
        assert forall|i: int| 1 <= i < s.len() implies '0' <= #[trigger] s[i] <= '9' by {
            if s[0] == '+' {
                assert(is_digit(digits[i - 1]));
            } else {
                assert(is_digit(digits[i]));
            }
        }
    }
}

/// One digit is read as its value. A further digit at the end multiplies what is read by ten and
/// adds its value, as long as that fits in 64 bits; once it does not, it never does again.
pub proof fn law_number_is_read_digit_by_digit(s: Seq<char>, c: char)
    requires
        s.len() > 0,
        forall|i: int| 0 <= i < s.len() ==> '0' <= #[trigger] s[i] <= '9',
        '0' <= c <= '9',
    ensures
        parsed_u64(seq![c]) == Some((c as int - '0' as int) as u64),
        parsed_u64(s.push(c)) == match parsed_u64(s) {
            Some(n) => if 10 * n + (c as int - '0' as int) <= u64::MAX {
                Some((10 * n + (c as int - '0' as int)) as u64)
            } else {
                None
            },
            None => None,
        },
{
    let one = seq![c];
    assert(one.drop_last() == Seq::<char>::empty());
    assert(decimal_value(one.drop_last()) == 0);
    assert(is_digit(one[0]));
    let longer = s.push(c);
    assert(longer.drop_last() == s);
    assert(s[0] != '+' && longer[0] == s[0]);
    assert(all_digits(s));
    assert(all_digits(longer));
    lemma_prefix_value(s, 0);
}

/// A plus sign before a digit makes no difference.
pub proof fn law_plus_sign_makes_no_difference(s: Seq<char>)
    requires
        s.len() > 0,
        '0' <= s[0] <= '9',
    ensures
        parsed_u64(seq!['+'] + s) == parsed_u64(s),
{
    assert((seq!['+'] + s).skip(1) == s);
}

} // verus!
