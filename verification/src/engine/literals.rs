//! The number literals of the language: which texts write an integer or a
//! float, and the value of an integer.

use vstd::prelude::*;

verus! {

/// A decimal digit.
pub open spec fn digit(c: char) -> bool {
    '0' <= c <= '9'
}

/// The value of a decimal digit.
pub open spec fn digit_value(c: char) -> int {
    c as int - '0' as int
}

/// Whether every code point of `text` is a decimal digit.
pub open spec fn digits(text: Seq<char>) -> bool {
    forall|i: int| 0 <= i < text.len() ==> digit(#[trigger] text[i])
}

/// The number that a text of decimal digits writes.
pub open spec fn number(text: Seq<char>) -> int
    decreases text.len(),
{
    if text.len() == 0 {
        0
    } else {
        number(text.drop_last()) * 10 + digit_value(text.last())
    }
}

/// Whether `text` begins with a sign.
pub open spec fn signed(text: Seq<char>) -> bool {
    text.len() > 0 && (text[0] == '+' || text[0] == '-')
}

/// The 64-bit integer that `text` writes: an optional sign and then one or
/// more decimal digits, whose value fits in 64 bits. `None` for any other
/// text.
pub open spec fn int_literal(text: Seq<char>) -> Option<i64> {
    let body = if signed(text) {
        text.skip(1)
    } else {
        text
    };
    let value = if text.len() > 0 && text[0] == '-' {
        -number(body)
    } else {
        number(body)
    };
    if body.len() > 0 && digits(body) && i64::MIN <= value <= i64::MAX {
        Some(value as i64)
    } else {
        None
    }
}

/// The first place at or after `from` that holds no decimal digit, which is
/// the length of the text where digits go on to its end.
pub open spec fn digits_end(text: Seq<char>, from: int) -> int
    decreases text.len() - from,
{
    if 0 <= from < text.len() && digit(text[from]) {
        digits_end(text, from + 1)
    } else {
        from
    }
}

/// Whether the rest of `text` from `at` is an exponent: `e` or `E`, an
/// optional sign, and one or more decimal digits up to the end.
pub open spec fn exponent(text: Seq<char>, at: int) -> bool {
    let from = if at + 1 < text.len() && (text[at + 1] == '+' || text[at + 1] == '-') {
        at + 2
    } else {
        at + 1
    };
    &&& 0 <= at < text.len()
    &&& (text[at] == 'e' || text[at] == 'E')
    &&& from < digits_end(text, from)
    &&& digits_end(text, from) == text.len()
}

/// Whether `text` writes a float with a decimal point: an optional sign,
/// decimal digits on one side of the point at least, and an optional
/// exponent.
pub open spec fn float_literal(text: Seq<char>) -> bool {
    let start: int = if signed(text) {
        1
    } else {
        0
    };
    let point = digits_end(text, start);
    let end = digits_end(text, point + 1);
    &&& point < text.len()
    &&& text[point] == '.'
    &&& (point - start) + (end - (point + 1)) >= 1
    &&& (end == text.len() || exponent(text, end))
}

/// A text of digits writes no negative number, and no smaller number than a
/// text that it begins with.
pub proof fn lemma_number_grows(text: Seq<char>, upto: int)
    requires
        digits(text),
        0 <= upto <= text.len(),
    ensures
        0 <= number(text.take(upto)) <= number(text),
    decreases text.len() - upto,
{
    lemma_number_positive(text.take(upto));
    if upto == text.len() {
        assert(text.take(upto) =~= text);
    } else {
        lemma_number_grows(text, upto + 1);
        assert(text.take(upto + 1).drop_last() =~= text.take(upto));
        assert(digit(text[upto]));
    }
}

/// A text of digits writes no negative number.
pub proof fn lemma_number_positive(text: Seq<char>)
    requires
        digits(text),
    ensures
        0 <= number(text),
    decreases text.len(),
{
    if text.len() > 0 {
        lemma_number_positive(text.drop_last());
        assert(digit(text.last()));
    }
}

/// Whether `c` is a decimal digit.
pub fn is_digit(c: char) -> (b: bool)
    ensures
        b == digit(c),
{
    '0' <= c && c <= '9'
}

/// The first place at or after `from` that holds no decimal digit.
pub fn skip_digits(chars: &Vec<char>, from: usize) -> (end: usize)
    requires
        from <= chars.len(),
    ensures
        end == digits_end(chars@, from as int),
        from <= end <= chars.len(),
{
    let mut at = from;
    while at < chars.len() && is_digit(chars[at])
        invariant
            from <= at <= chars.len(),
            digits_end(chars@, from as int) == digits_end(chars@, at as int),
        decreases chars.len() - at,
    {
        at = at + 1;
    }
    at
}

/// Whether `chars` write a float with a decimal point.
pub fn is_float(chars: &Vec<char>) -> (b: bool)
    ensures
        b == float_literal(chars@),
{
    let n = chars.len();
    let start: usize = if n > 0 && (chars[0] == '+' || chars[0] == '-') {
        1
    } else {
        0
    };
    let point = skip_digits(chars, start);
    if point >= n || chars[point] != '.' {
        return false;
    }
    let end = skip_digits(chars, point + 1);
    if (point - start) + (end - (point + 1)) < 1 {
        return false;
    }
    if end == n {
        return true;
    }
    if chars[end] != 'e' && chars[end] != 'E' {
        return false;
    }
    let from: usize = if end + 1 < n && (chars[end + 1] == '+' || chars[end + 1] == '-') {
        end + 2
    } else {
        end + 1
    };
    let last = skip_digits(chars, from);
    from < last && last == n
}

/// The 64-bit integer that `chars` write, if they write one.
pub fn parse_int(chars: &Vec<char>) -> (value: Option<i64>)
    ensures
        value == int_literal(chars@),
{
    let n = chars.len();
    let negative = n > 0 && chars[0] == '-';
    let start: usize = if n > 0 && (chars[0] == '+' || chars[0] == '-') {
        1
    } else {
        0
    };
    if start == n {
        return None;
    }
    let ghost body = chars@.skip(start as int);
    assert(chars@.skip(0) =~= chars@);
    let mut total: i64 = 0;
    let mut at: usize = start;
    while at < n
        invariant
            start <= at <= n,
            start < n,
            n == chars.len(),
            negative == (n > 0 && chars@[0] == '-'),
            start == if signed(chars@) {
                1int
            } else {
                0int
            },
            body == chars@.skip(start as int),
            body == if signed(chars@) {
                chars@.skip(1)
            } else {
                chars@
            },
            digits(body.take(at - start)),
            total == if negative {
                -number(body.take(at - start))
            } else {
                number(body.take(at - start))
            },
        decreases n - at,
    {
        let c = chars[at];
        if !is_digit(c) {
            assert(body[at - start] == c);
            return None;
        }
        let d: i64 = (c as u32 - '0' as u32) as i64;
        proof {
            assert(body.take(at - start + 1).drop_last() =~= body.take(at - start));
            assert(body.take(at - start + 1).last() == c);
            assert forall|i: int| 0 <= i < body.take(at - start + 1).len() implies digit(
                #[trigger] body.take(at - start + 1)[i],
            ) by {
                if i < at - start {
                    assert(body.take(at - start)[i] == body.take(at - start + 1)[i]);
                }
            }
            lemma_number_positive(body.take(at - start));
            assert(number(body.take(at - start + 1)) == number(body.take(at - start)) * 10
                + digit_value(c));
            assert(d == digit_value(c));
            if digits(body) {
                lemma_number_grows(body, at - start + 1);
            }
        }
        let wide: i128 = if negative {
            total as i128 * 10 - d as i128
        } else {
            total as i128 * 10 + d as i128
        };
        if wide < i64::MIN as i128 || wide > i64::MAX as i128 {
            return None;
        }
        total = wide as i64;
        at = at + 1;
    }
    assert(body.take(n - start) =~= body);
    Some(total)
}

} // verus!
