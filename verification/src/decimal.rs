//! Decimal numerals: reading them with a bound, and writing them.

use vstd::prelude::*;

verus! {

pub open spec fn is_digit(c: char) -> bool {
    '0' <= c <= '9'
}

/// The value of a decimal digit.
pub open spec fn digit_value(c: char) -> nat {
    if is_digit(c) {
        (c as int - '0' as int) as nat
    } else {
        0
    }
}

/// The value of a run of decimal digits, the most significant first.
pub open spec fn decimal_value(digits: Seq<char>) -> nat
    decreases digits.len(),
{
    if digits.len() == 0 {
        0
    } else {
        decimal_value(digits.drop_last()) * 10 + digit_value(digits.last())
    }
}

pub open spec fn all_digits(s: Seq<char>) -> bool {
    forall|i: int| 0 <= i < s.len() ==> is_digit(#[trigger] s[i])
}

/// A numeral without the one plus sign that may stand before its digits.
pub open spec fn without_plus(s: Seq<char>) -> Seq<char> {
    if s.len() > 1 && s.first() == '+' {
        s.drop_first()
    } else {
        s
    }
}

/// The number that a numeral stands for: at least one digit, nothing but digits
/// after an optional plus sign, and no more than `max`.
pub open spec fn parse_decimal(s: Seq<char>, max: nat) -> Option<nat> {
    let digits = without_plus(s);
    if digits.len() > 0 && all_digits(digits) && decimal_value(digits) <= max {
        Some(decimal_value(digits))
    } else {
        None
    }
}

proof fn lemma_value_grows(digits: Seq<char>, n: int)
    requires
        0 <= n <= digits.len(),
    ensures
        decimal_value(digits.take(n)) <= decimal_value(digits),
    decreases digits.len() - n,
{
    if n < digits.len() {
        lemma_value_grows(digits, n + 1);
        assert(digits.take(n + 1).drop_last() == digits.take(n));
    } else {
        assert(digits.take(n) == digits);
    }
}

/// Reads a numeral that is no more than `max`.
pub fn read_decimal(s: &[char], max: u32) -> (value: Option<u32>)
    ensures
        match value {
            Some(n) => parse_decimal(s@, max as nat) == Some(n as nat),
            None => parse_decimal(s@, max as nat) is None,
        },
{
    let digits: &[char] = if s.len() > 1 && s[0] == '+' {
        &s[1..s.len()]
    } else {
        s
    };
    if digits.len() == 0 {
        return None;
    }
    let mut value: u32 = 0;
    let mut i: usize = 0;
    while i < digits.len()
        invariant
            i <= digits@.len(),
            digits@ == without_plus(s@),
            value == decimal_value(digits@.take(i as int)),
            value <= max,
            forall|j: int| 0 <= j < i ==> is_digit(#[trigger] digits@[j]),
        decreases digits@.len() - i,
    {
        let c: char = digits[i];
        if c < '0' || '9' < c {
            return None;
        }
        let next: u64 = (value as u64) * 10 + (c as u32 - '0' as u32) as u64;
        assert(digits@.take(i + 1).drop_last() == digits@.take(i as int));
        if next > max as u64 {
            proof {
                lemma_value_grows(digits@, i + 1);
            }
            return None;
        }
        value = next as u32;
        i += 1;
    }
    assert(digits@.take(i as int) == digits@);
    Some(value)
}

/// The digit for a number below ten.
pub open spec fn digit_char(n: nat) -> char {
    ('0' as nat + n) as char
}

/// The decimal numeral of a number, without leading zeros.
pub open spec fn decimal_text(n: nat) -> Seq<char>
    decreases n,
{
    if n < 10 {
        seq![digit_char(n)]
    } else {
        decimal_text(n / 10).push(digit_char(n % 10))
    }
}

fn digit_of(n: u32) -> (c: char)
    requires
        n < 10,
    ensures
        c == digit_char(n as nat),
{
    match n {
        0 => '0',
        1 => '1',
        2 => '2',
        3 => '3',
        4 => '4',
        5 => '5',
        6 => '6',
        7 => '7',
        8 => '8',
        _ => '9',
    }
}

/// Appends the decimal numeral of a number.
pub fn push_decimal(text: &mut String, n: u32)
    ensures
        final(text)@ == old(text)@ + decimal_text(n as nat),
    decreases n,
{
    if n < 10 {
        text.push(digit_of(n));
    } else {
        push_decimal(text, n / 10);
        text.push(digit_of(n % 10));
    }
}

/// Reading the numeral of a number gives the number back.
pub proof fn law_decimal_round_trip(n: nat, max: nat)
    requires
        n <= max,
    ensures
        parse_decimal(decimal_text(n), max) == Some(n),
{
    lemma_decimal_text(n);
}

/// The numeral of a number is made of digits, and has at least one.
pub proof fn lemma_decimal_digits(n: nat)
    ensures
        decimal_text(n).len() > 0,
        all_digits(decimal_text(n)),
{
    lemma_decimal_text(n);
}

proof fn lemma_decimal_text(n: nat)
    ensures
        decimal_text(n).len() > 0,
        all_digits(decimal_text(n)),
        decimal_value(decimal_text(n)) == n,
    decreases n,
{
    if n < 10 {
        assert(decimal_text(n).drop_last() == Seq::<char>::empty());
        assert(decimal_value(Seq::<char>::empty()) == 0);
    } else {
        lemma_decimal_text(n / 10);
        assert(decimal_text(n).drop_last() == decimal_text(n / 10));
    }
}

/// One more digit makes a number ten times as large, and adds its value. A plus
/// sign before the digits changes nothing.
pub proof fn law_one_more_digit(digits: Seq<char>, c: char, max: nat)
    requires
        forall|i: int| 0 <= i < digits.len() ==> '0' as int <= #[trigger] digits[i] as int
            <= '9' as int,
        '0' as int <= c as int <= '9' as int,
    ensures
        ({
            let value = if digits.len() == 0 {
                0
            } else {
                parse_decimal(digits, decimal_value(digits)).unwrap()
            } * 10 + (c as int - '0' as int);
            &&& parse_decimal(digits.push(c), max) == if value <= max {
                Some(value as nat)
            } else {
                None
            }
            &&& parse_decimal(seq!['+'] + digits.push(c), max) == parse_decimal(
                digits.push(c),
                max,
            )
        }),
{
    let longer = digits.push(c);
    assert(longer.drop_last() =~= digits);
    assert(longer.last() == c);
    assert(longer.first() == if digits.len() > 0 {
        digits[0]
    } else {
        c
    });
    assert(without_plus(longer) == longer);
    assert((seq!['+'] + longer).drop_first() =~= longer);
    if digits.len() > 0 {
        assert(digits.first() == digits[0]);
        assert(without_plus(digits) == digits);
    }
}

/// A numeral has nothing but digits in it, behind a plus sign at most, and at
/// least one; anything else stands for no number.
pub proof fn law_other_characters_are_no_number(s: Seq<char>, i: int, max: nat)
    requires
        0 <= i < s.len(),
        !('0' as int <= s[i] as int <= '9' as int),
        i > 0 || s[i] != '+' || s.len() == 1,
    ensures
        parse_decimal(s, max) is None,
        parse_decimal(seq![], max) is None,
        parse_decimal(seq!['+'], max) is None,
{
    let digits = without_plus(s);
    let k = if digits.len() < s.len() {
        i - 1
    } else {
        i
    };
    assert(digits[k] == s[i]);
    assert(!is_digit(digits[k]));
    assert(without_plus(seq!['+'])[0] == '+');
}

/// The numeral of a number ends with its last digit; before that stands the
/// numeral of the rest, unless there is none.
pub proof fn law_numeral_digit_by_digit(n: nat, d: nat)
    requires
        d < 10,
    ensures
        decimal_text(d).len() == 1,
        decimal_text(d)[0] as int == '0' as int + d,
        n > 0 ==> decimal_text(n * 10 + d) == decimal_text(n) + decimal_text(d),
{
    if n > 0 {
        assert(decimal_text(n * 10 + d) =~= decimal_text(n) + decimal_text(d));
    }
}

} // verus!
