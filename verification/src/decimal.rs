//! Whole numbers written as decimal text, and read back.

use vstd::prelude::*;

verus! {

/// `String::push` appends one character to the end of the string.
pub assume_specification[ String::push ](s: &mut String, c: char)
    ensures
        final(s)@ == old(s)@.push(c),
;

/// The character that writes the digit `d`.
pub open spec fn digit(d: int) -> char {
    ('0' as int + d) as char
}

/// Whether `c` is one of the ten decimal digits.
pub open spec fn is_digit(c: char) -> bool {
    '0' as int <= c as int <= '9' as int
}

/// What the digit `c` counts.
pub open spec fn digit_value(c: char) -> int {
    c as int - '0' as int
}

/// Whether `s` holds decimal digits and nothing else.
pub open spec fn all_digits(s: Seq<char>) -> bool {
    forall|i: int| 0 <= i < s.len() ==> is_digit(#[trigger] s[i])
}

/// The number that a run of digits spells, read from the left; leading
/// zeros count for nothing.
pub open spec fn digits_value(s: Seq<char>) -> int
    decreases s.len(),
{
    if s.len() == 0 {
        0
    } else {
        digits_value(s.drop_last()) * 10 + digit_value(s.last())
    }
}

/// The digits of `n`, most significant first, without leading zeros.
pub open spec fn digits_of(n: nat) -> Seq<char>
    decreases n,
{
    if n < 10 {
        seq![digit(n as int)]
    } else {
        digits_of(n / 10).push(digit((n % 10) as int))
    }
}

/// The decimal text of `n`: its digits, behind a minus sign where `n` is
/// negative.
pub open spec fn decimal(n: int) -> Seq<char> {
    if n < 0 {
        seq!['-'] + digits_of((-n) as nat)
    } else {
        digits_of(n as nat)
    }
}

/// The text `s` without the plus sign that it may begin with.
pub open spec fn unsigned_part(s: Seq<char>) -> Seq<char> {
    if s.len() > 0 && s[0] == '+' {
        s.subrange(1, s.len() as int)
    } else {
        s
    }
}

/// The number that `s` writes, where `s` is the text of a number from 0 to
/// 127: one or more digits, which a single plus sign may precede. Any other
/// text writes no such number.
pub open spec fn small_number(s: Seq<char>) -> Option<i8> {
    let body = unsigned_part(s);
    if body.len() > 0 && all_digits(body) && digits_value(body) <= i8::MAX {
        Some(digits_value(body) as i8)
    } else {
        None
    }
}

/// The digits of a number are digits, at least one of them, and spell that
/// number.
pub proof fn lemma_digits_of(n: nat)
    ensures
        digits_of(n).len() > 0,
        all_digits(digits_of(n)),
        digits_value(digits_of(n)) == n,
    decreases n,
{
    if n < 10 {
        let s = digits_of(n);
        assert(s.drop_last() =~= Seq::<char>::empty());
        assert(digits_value(s.drop_last()) == 0);
    } else {
        lemma_digits_of(n / 10);
        let s = digits_of(n);
        assert(s.drop_last() =~= digits_of(n / 10));
    }
}

/// A run of digits spells a number that is no smaller than what any of its
/// beginnings spells, and never a negative one.
pub proof fn lemma_digits_value_grows(s: Seq<char>, k: int)
    requires
        all_digits(s),
        0 <= k <= s.len(),
    ensures
        0 <= digits_value(s.subrange(0, k)) <= digits_value(s),
    decreases s.len() - k,
{
    lemma_digits_value_nonnegative(s.subrange(0, k));
    if k == s.len() {
        assert(s.subrange(0, k) =~= s);
    } else {
        let longer = s.subrange(0, k + 1);
        assert(longer.drop_last() =~= s.subrange(0, k));
        assert(is_digit(s[k]));
        assert(longer.last() == s[k]);
        lemma_digits_value_grows(s, k + 1);
    }
}

/// A run of digits never spells a negative number.
pub proof fn lemma_digits_value_nonnegative(s: Seq<char>)
    requires
        all_digits(s),
    ensures
        0 <= digits_value(s),
    decreases s.len(),
{
    if s.len() > 0 {
        assert(is_digit(s.last()));
        lemma_digits_value_nonnegative(s.drop_last());
    }
}

/// The number that a text writes is never negative.
pub proof fn lemma_small_number_range(s: Seq<char>)
    ensures
        small_number(s) matches Some(n) ==> n >= 0,
{
    let body = unsigned_part(s);
    if all_digits(body) {
        lemma_digits_value_nonnegative(body);
    }
}

/// Reading back the decimal text of a number from 0 to 127 gives that
/// number.
pub proof fn lemma_small_number_of_decimal(n: i8)
    requires
        n >= 0,
    ensures
        small_number(decimal(n as int)) == Some(n),
{
    let s = decimal(n as int);
    lemma_digits_of(n as nat);
    assert(is_digit(s[0]));
    assert(s[0] != '+');
}

/// The character of one digit.
fn digit_char(d: u8) -> (c: char)
    requires
        d < 10,
    ensures
        c == digit(d as int),
{
    (48u8 + d) as char
}

/// Writes `n` in decimal.
pub fn format_i8(n: i8) -> (text: String)
    ensures
        text@ == decimal(n as int),
{
    let mut text = String::new();
    let magnitude: u8 = if n < 0 {
        text.push('-');
        (-(n as i16)) as u8
    } else {
        n as u8
    };
    let ghost sign = text@;
    if magnitude >= 100 {
        text.push(digit_char(magnitude / 100));
    }
    if magnitude >= 10 {
        text.push(digit_char((magnitude / 10) % 10));
    }
    text.push(digit_char(magnitude % 10));
    proof {
        let m = magnitude as nat;
        reveal_with_fuel(digits_of, 3);
        assert(m >= 100 ==> (m / 10) / 10 == m / 100 && m / 100 < 10);
        assert(text@ =~= sign + digits_of(m));
        assert(Seq::<char>::empty() + digits_of(m) =~= digits_of(m));
    }
    text
}

/// Reads the text of a number from 0 to 127; `None` for any other text.
pub fn parse_small_number(text: &str) -> (number: Option<i8>)
    ensures
        number == small_number(text@),
{
    let len: usize = text.unicode_len();
    let start: usize = if len > 0 && text.get_char(0) == '+' {
        1
    } else {
        0
    };
    if start == len {
        return None;
    }
    let ghost body = unsigned_part(text@);
    assert(body =~= text@.subrange(start as int, len as int));
    let mut value: u32 = 0;
    let mut i: usize = start;
    while i < len
        invariant
            start <= i <= len,
            len == text@.len(),
            body == unsigned_part(text@),
            body == text@.subrange(start as int, len as int),
            all_digits(body.subrange(0, i - start)),
            value == digits_value(body.subrange(0, i - start)),
            value <= i8::MAX,
        decreases len - i,
    {
        let c: char = text.get_char(i);
        let ghost seen = body.subrange(0, i - start);
        let ghost next = body.subrange(0, i - start + 1);
        assert(next.drop_last() =~= seen);
        assert(next.last() == c);
        if !(c >= '0' && c <= '9') {
            assert(!is_digit(body[i - start]));
            return None;
        }
        value = value * 10 + (c as u32 - '0' as u32);
        proof {
            assert forall|j: int| 0 <= j < next.len() implies is_digit(#[trigger] next[j]) by {
                if j < seen.len() {
                    assert(next[j] == seen[j]);
                }
            }
        }
        if value > 127 {
            proof {
                if all_digits(body) {
                    lemma_digits_value_grows(body, i - start + 1);
                }
            }
            return None;
        }
        i = i + 1;
    }
    assert(body.subrange(0, len - start) =~= body);
    Some(value as i8)
}

} // verus!
