//! Text and numerals: what a decimal numeral is worth, and how an integer is
//! written.

use vstd::prelude::*;
use crate::lexer::is_digit;

verus! {

/// `String::push` puts one character behind the string's own.
pub assume_specification[ std::string::String::push ](s: &mut std::string::String, c: char)
    ensures
        final(s)@ == old(s)@.push(c),
;

/// The characters of `text`, in order.
pub fn characters(text: &str) -> (chars: Vec<char>)
    ensures
        chars@ == text@,
{
    let mut chars: Vec<char> = Vec::new();
    for c in it: text.chars()
        invariant
            chars@ == it.seq().take(it.index()),
    {
        chars.push(c);
    }
    chars
}

/// The string that holds `chars`, in order.
pub fn string_of(chars: &Vec<char>) -> (string: String)
    ensures
        string@ == chars@,
{
    let mut string = String::new();
    let mut i: usize = 0;
    while i < chars.len()
        invariant
            i <= chars.len(),
            string@ == chars@.take(i as int),
        decreases chars.len() - i,
    {
        string.push(chars[i]);
        i += 1;
    }
    string
}

/// What the digit `c` counts.
pub open spec fn digit_value(c: char) -> int {
    c as int - '0' as int
}

/// Every character of `s` is a digit.
pub open spec fn all_digits(s: Seq<char>) -> bool {
    forall|i: int| 0 <= i < s.len() ==> is_digit(#[trigger] s[i])
}

/// The number that the digits `s` write in base ten; the empty text writes 0.
pub open spec fn digits_value(s: Seq<char>) -> int
    decreases s.len(),
{
    if s.len() == 0 {
        0
    } else {
        digits_value(s.drop_last()) * 10 + digit_value(s.last())
    }
}

/// A numeral without its sign: what stands behind a leading `+` or `-`.
pub open spec fn unsigned_part(s: Seq<char>) -> Seq<char> {
    if s.len() > 0 && (s[0] == '-' || s[0] == '+') {
        s.skip(1)
    } else {
        s
    }
}

/// The 64-bit integer that a numeral writes: an optional sign, `+` or `-`,
/// then one digit or more, and a value that a 64-bit integer can hold. Any
/// other text writes none.
pub open spec fn integer_value(s: Seq<char>) -> Option<int> {
    let digits = unsigned_part(s);
    let value = if s.len() > 0 && s[0] == '-' {
        -digits_value(digits)
    } else {
        digits_value(digits)
    };
    if digits.len() > 0 && all_digits(digits) && i64::MIN <= value <= i64::MAX {
        Some(value)
    } else {
        None
    }
}

/// Digits write no negative number, and more digits write no smaller one.
pub proof fn lemma_digits_value_grows(s: Seq<char>, i: int)
    requires
        all_digits(s),
        0 <= i <= s.len(),
    ensures
        0 <= digits_value(s.take(i)) <= digits_value(s),
    decreases s.len() - i,
{
    lemma_digits_value_not_negative(s.take(i));
    if i < s.len() {
        let longer = s.take(i + 1);
        assert(longer.drop_last() =~= s.take(i));
        lemma_digits_value_grows(s, i + 1);
    } else {
        assert(s.take(i) =~= s);
    }
}

/// Digits write no negative number.
pub proof fn lemma_digits_value_not_negative(s: Seq<char>)
    requires
        all_digits(s),
    ensures
        0 <= digits_value(s),
    decreases s.len(),
{
    if s.len() > 0 {
        lemma_digits_value_not_negative(s.drop_last());
    }
}

/// Reads `text` as a 64-bit integer, as `integer_value` says.
pub fn parse_integer(text: &str) -> (r: Option<i64>)
    ensures
        match r {
            Some(v) => integer_value(text@) == Some(v as int),
            None => integer_value(text@) is None,
        },
{
    let chars = characters(text);
    if chars.len() == 0 {
        return None;
    }
    let negative = chars[0] == '-';
    let first: usize = if chars[0] == '-' || chars[0] == '+' {
        1
    } else {
        0
    };
    let ghost digits = unsigned_part(text@);
    let mut acc: i64 = 0;
    let mut i: usize = first;
    while i < chars.len()
        invariant
            first <= i <= chars.len(),
            chars@ == text@,
            negative == (text@[0] == '-'),
            digits == unsigned_part(text@),
            digits == chars@.skip(first as int),
            all_digits(digits.take(i - first)),
            acc == if negative {
                -digits_value(digits.take(i - first))
            } else {
                digits_value(digits.take(i - first))
            },
        decreases chars.len() - i,
    {
        let c = chars[i];
        let ghost shorter = digits.take(i - first);
        let ghost longer = digits.take(i - first + 1);
        assert(longer.drop_last() =~= shorter);
        if !(c >= '0' && c <= '9') {
            assert(!is_digit(digits[i - first]));
            return None;
        }
        let d: i64 = (c as u32 - '0' as u32) as i64;
        let next = match acc.checked_mul(10) {
            Some(tenfold) => if negative {
                tenfold.checked_sub(d)
            } else {
                tenfold.checked_add(d)
            },
            None => None,
        };
        match next {
            Some(n) => {
                acc = n;
            },
            None => {
                proof {
                    lemma_digits_value_not_negative(shorter);
                    if all_digits(digits) {
                        lemma_digits_value_grows(digits, i - first + 1);
                    }
                }
                return None;
            },
        }
        i += 1;
    }
    assert(digits.take(i - first) =~= digits);
    if first == chars.len() {
        None
    } else {
        Some(acc)
    }
}

/// The digit that counts `d`, for `d` from 0 to 9.
pub open spec fn digit_char(d: int) -> char {
    ('0' as int + d) as char
}

/// How a natural number is written in base ten, without leading zeros.
pub open spec fn natural_text(n: nat) -> Seq<char>
    decreases n,
{
    if n < 10 {
        seq![digit_char(n as int)]
    } else {
        natural_text(n / 10).push(digit_char((n % 10) as int))
    }
}

/// How an integer is written in base ten: a minus sign where it is negative,
/// then its digits.
pub open spec fn integer_text(i: int) -> Seq<char> {
    if i < 0 {
        seq!['-'] + natural_text((-i) as nat)
    } else {
        natural_text(i as nat)
    }
}

/// The digit that counts `d`.
fn digit_of(d: u64) -> (c: char)
    requires
        d < 10,
    ensures
        c == digit_char(d as int),
{
    if d == 0 {
        '0'
    } else if d == 1 {
        '1'
    } else if d == 2 {
        '2'
    } else if d == 3 {
        '3'
    } else if d == 4 {
        '4'
    } else if d == 5 {
        '5'
    } else if d == 6 {
        '6'
    } else if d == 7 {
        '7'
    } else if d == 8 {
        '8'
    } else {
        '9'
    }
}

/// Writes `i` in base ten.
pub fn format_integer(i: i64) -> (string: String)
    ensures
        string@ == integer_text(i as int),
{
    let magnitude: u64 = if i < 0 {
        (-(i + 1)) as u64 + 1
    } else {
        i as u64
    };
    let mut n: u64 = magnitude;
    let mut low: Vec<char> = Vec::new();
    while n >= 10
        invariant
            natural_text(magnitude as nat) == natural_text(n as nat) + low@.reverse(),
        decreases n,
    {
        let c = digit_of(n % 10);
        low.push(c);
        n = n / 10;
    }
    let c = digit_of(n);
    low.push(c);
    let mut string = String::new();
    if i < 0 {
        string.push('-');
    }
    let ghost sign = string@;
    let mut k: usize = low.len();
    while k > 0
        invariant
            k <= low.len(),
            string@ == sign + low@.reverse().take(low.len() - k),
        decreases k,
    {
        k -= 1;
        string.push(low[k]);
    }
    string
}

} // verus!
