use vstd::prelude::*;
use vstd::string::*;

verus! {

/// Whether the character is one of the digits 0 to 9.
pub open spec fn is_digit(c: char) -> bool {
    '0' <= c <= '9'
}

/// The number that a string of digits denotes in base ten.
pub open spec fn decimal_value(digits: Seq<char>) -> nat
    decreases digits.len(),
{
    if digits.len() == 0 {
        0
    } else {
        (decimal_value(digits.drop_last()) * 10 + (digits.last() as int - '0' as int)) as nat
    }
}

/// The digits of a numeral: the numeral without the plus sign that may stand
/// in front of it.
pub open spec fn numeral_digits(s: Seq<char>) -> Seq<char> {
    if s.len() > 0 && s[0] == '+' {
        s.drop_first()
    } else {
        s
    }
}

/// The number that a string denotes: it must be made of at least one digit,
/// with or without a plus sign in front, and the number must fit.
pub open spec fn parsed(s: Seq<char>) -> Option<usize> {
    let digits = numeral_digits(s);
    if digits.len() > 0 && (forall|i: int| 0 <= i < digits.len() ==> is_digit(#[trigger] digits[i]))
        && decimal_value(digits) <= usize::MAX {
        Some(decimal_value(digits) as usize)
    } else {
        None
    }
}

/// The pair of numbers around the delimiter at `at`.
pub open spec fn pair_around(s: Seq<char>, at: int) -> Option<(usize, usize)> {
    match (parsed(s.take(at)), parsed(s.skip(at + 1))) {
        (Some(l), Some(r)) => Some((l, r)),
        _ => None,
    }
}

/// Whether `at` is the first place of `c` in `s`.
pub open spec fn first_at(s: Seq<char>, c: char, at: int) -> bool {
    &&& 0 <= at < s.len()
    &&& s[at] == c
    &&& forall|j: int| 0 <= j < at ==> s[j] != c
}

/// A longer string of digits denotes no smaller a number.
proof fn lemma_decimal_grows(digits: Seq<char>, k: int)
    requires
        0 <= k <= digits.len(),
        forall|i: int| 0 <= i < digits.len() ==> is_digit(#[trigger] digits[i]),
    ensures
        decimal_value(digits.take(k)) <= decimal_value(digits),
    decreases digits.len() - k,
{
    if k < digits.len() {
        lemma_decimal_grows(digits, k + 1);
        assert(digits.take(k + 1).drop_last() =~= digits.take(k));
        assert(is_digit(digits[k]));
    } else {
        assert(digits.take(k) =~= digits);
    }
}

/// Reads the characters of `s` from `from` to `to` as a number.
fn parse_number(s: &str, from: usize, to: usize) -> (r: Option<usize>)
    requires
        from <= to <= s@.len(),
    ensures
        r == parsed(s@.subrange(from as int, to as int)),
{
    let ghost text = s@.subrange(from as int, to as int);
    let mut i = from;
    if i < to && s.get_char(i) == '+' {
        i += 1;
    }
    let start = i;
    let ghost digits = numeral_digits(text);
    proof {
        assert(digits =~= s@.subrange(start as int, to as int));
    }
    if start == to {
        return None;
    }
    let mut value: usize = 0;
    while i < to
        invariant
            from <= to,
            start <= i <= to <= s@.len(),
            digits == s@.subrange(start as int, to as int),
            digits == numeral_digits(s@.subrange(from as int, to as int)),
            digits.len() > 0,
            forall|k: int| 0 <= k < i - start ==> is_digit(#[trigger] digits[k]),
            value == decimal_value(digits.take(i - start)),
        decreases to - i,
    {
        let c = s.get_char(i);
        assert(c == digits[i - start]);
        if !(c >= '0' && c <= '9') {
            return None;
        }
        let d = (c as u32 - '0' as u32) as usize;
        proof {
            assert(digits.take(i - start + 1).drop_last() =~= digits.take(i - start));
        }
        if value > (usize::MAX - d) / 10 {
            proof {
                assert(decimal_value(digits.take(i - start + 1)) == value * 10 + d);
                if forall|k: int| 0 <= k < digits.len() ==> is_digit(#[trigger] digits[k]) {
                    lemma_decimal_grows(digits, i - start + 1);
                }
            }
            return None;
        }
        value = value * 10 + d;
        i += 1;
    }
    proof {
        assert(digits.take(to - start) =~= digits);
    }
    Some(value)
}

/// Reads two numbers that stand on either side of the first `delimiter` in
/// `s`, as in `640x480`.
///
/// There is a result exactly when the delimiter occurs and the text before
/// its first occurrence and the text after it are both numerals.
pub fn parse_pair(s: &str, delimiter: char) -> (r: Option<(usize, usize)>)
    ensures
        !s@.contains(delimiter) ==> r is None,
        forall|at: int| first_at(s@, delimiter, at) ==> r == pair_around(s@, at),
{
    let n = s.unicode_len();
    let mut index: usize = 0;
    while index < n
        invariant
            n == s@.len(),
            index <= n,
            forall|j: int| 0 <= j < index ==> s@[j] != delimiter,
        decreases n - index,
    {
        if s.get_char(index) == delimiter {
            proof {
                assert(first_at(s@, delimiter, index as int));
                assert forall|at: int| first_at(s@, delimiter, at) implies at == index by {}
                assert(s@.take(index as int) =~= s@.subrange(0, index as int));
                assert(s@.skip(index + 1) =~= s@.subrange(index + 1, n as int));
            }
            return match (parse_number(s, 0, index), parse_number(s, index + 1, n)) {
                (Some(l), Some(r)) => Some((l, r)),
                _ => None,
            };
        }
        index += 1;
    }
    None
}

} // verus!
