//! Whole numbers in attribute values.

use vstd::prelude::*;

use crate::chars;

verus! {

/// The character is a decimal digit.
pub open spec fn is_digit(c: char) -> bool {
    '0' <= c <= '9'
}

/// The characters are decimal digits, and at least one.
pub open spec fn all_digits(s: Seq<char>) -> bool {
    s.len() > 0 && forall|k: int| 0 <= k < s.len() ==> is_digit(#[trigger] s[k])
}

/// The number that decimal digits stand for.
pub open spec fn digits_value(s: Seq<char>) -> int
    decreases s.len(),
{
    if s.len() == 0 {
        0
    } else {
        10 * digits_value(s.drop_last()) + (s.last() as int - '0' as int)
    }
}

/// The text after an optional sign.
pub open spec fn unsigned_part(s: Seq<char>) -> Seq<char> {
    if s.len() > 0 && (s[0] == '+' || s[0] == '-') {
        s.skip(1)
    } else {
        s
    }
}

/// The whole number that a text gives: decimal digits after an optional sign, and nothing
/// else.
pub open spec fn whole(s: Seq<char>) -> Option<int> {
    if all_digits(unsigned_part(s)) {
        let v = digits_value(unsigned_part(s));
        Some(
            if s[0] == '-' {
                -v
            } else {
                v
            },
        )
    } else {
        None
    }
}

/// The whole number that a text gives, if it is between `lo` and `hi`.
pub open spec fn whole_within(s: Seq<char>, lo: int, hi: int) -> Option<int> {
    match whole(s) {
        Some(v) => if lo <= v <= hi {
            Some(v)
        } else {
            None
        },
        None => None,
    }
}

/// The whole number that a part of a text gives, if it is between `lo` and `hi`.
pub fn parse_whole(text: &Vec<char>, from: usize, to: usize, lo: i64, hi: i64) -> (r: Option<i64>)
    requires
        from <= to <= text@.len(),
        -0x1_0000_0000 <= lo <= hi <= 0x1_0000_0000,
    ensures
        match r {
            Some(v) => whole_within(text@.subrange(from as int, to as int), lo as int, hi as int)
                == Some(v as int),
            None => whole_within(text@.subrange(from as int, to as int), lo as int, hi as int)
                is None,
        },
{
    let ghost s = text@.subrange(from as int, to as int);
    if from == to {
        return None;
    }
    let negative: bool = text[from] == '-';
    let signed: bool = negative || text[from] == '+';
    let start: usize = if signed {
        from + 1
    } else {
        from
    };
    let ghost body = unsigned_part(s);
    assert(s[0] == text@[from as int]);
    assert(body =~= text@.subrange(start as int, to as int));
    if start == to {
        return None;
    }
    let mut i: usize = start;
    let mut v: i64 = 0;
    let mut large: bool = false;
    while i < to
        invariant
            start <= i <= to <= text@.len(),
            body == text@.subrange(start as int, to as int),
            s == text@.subrange(from as int, to as int),
            body == unsigned_part(s),
            -0x1_0000_0000 <= lo <= hi <= 0x1_0000_0000,
            forall|k: int| 0 <= k < i - start ==> is_digit(#[trigger] body[k]),
            !large ==> v == digits_value(body.take(i - start)) && 0 <= v <= 0x1_0000_0000,
            large ==> digits_value(body.take(i - start)) > 0x1_0000_0000,
        decreases to - i,
    {
        let c: char = text[i];
        assert(c == body[i - start]);
        if !('0' <= c && c <= '9') {
            assert(!is_digit(body[i - start]));
            return None;
        }
        assert(body.take(i - start + 1).drop_last() =~= body.take(i - start));
        if !large {
            let d: i64 = c as i64 - '0' as i64;
            v = 10 * v + d;
            if v > 0x1_0000_0000 {
                large = true;
            }
        }
        i = i + 1;
    }
    assert(body.take(to - start) =~= body);
    assert(all_digits(body));
    if large {
        return None;
    }
    let value: i64 = if negative {
        -v
    } else {
        v
    };
    if lo <= value && value <= hi {
        Some(value)
    } else {
        None
    }
}

/// The whole number that a text gives between white space, if 32 bits hold it.
pub fn parse_i32(text: &str) -> (r: Option<i32>)
    ensures
        match r {
            Some(v) => whole_within(chars::trim(text@), i32::MIN as int, i32::MAX as int) == Some(
                v as int,
            ),
            None => whole_within(chars::trim(text@), i32::MIN as int, i32::MAX as int) is None,
        },
{
    let all: Vec<char> = chars::to_chars(text);
    let (from, to): (usize, usize) = chars::trim_range(all.as_slice(), 0, all.len());
    assert(all@.subrange(0, all@.len() as int) =~= all@);
    match parse_whole(&all, from, to, i32::MIN as i64, i32::MAX as i64) {
        Some(v) => Some(v as i32),
        None => None,
    }
}

/// The whole number that a text gives, if it has 16 bits and no minus sign.
pub open spec fn small_count(s: Seq<char>) -> Option<int> {
    if s.len() > 0 && s[0] == '-' {
        None
    } else {
        whole_within(s, 0, u16::MAX as int)
    }
}

/// The whole number that a text gives, if it has 16 bits and no minus sign.
pub fn parse_u16(text: &str) -> (r: Option<u16>)
    ensures
        match r {
            Some(v) => small_count(text@) == Some(v as int),
            None => small_count(text@) is None,
        },
{
    let all: Vec<char> = chars::to_chars(text);
    if all.len() > 0 && all[0] == '-' {
        return None;
    }
    assert(all@.subrange(0, all@.len() as int) =~= all@);
    match parse_whole(&all, 0, all.len(), 0, u16::MAX as i64) {
        Some(v) => Some(v as u16),
        None => None,
    }
}

proof fn lemma_digits_read_back(n: nat)
    ensures
        all_digits(chars::decimal_digits(n)),
        digits_value(chars::decimal_digits(n)) == n,
    decreases n,
{
    let all = chars::decimal_digits(n);
    if n < 10 {
        assert(all.drop_last() =~= Seq::<char>::empty());
        assert(digits_value(Seq::<char>::empty()) == 0);
        assert(all.last() == chars::digit_char(n as int));
    } else {
        lemma_digits_read_back(n / 10);
        assert(all.drop_last() =~= chars::decimal_digits(n / 10));
        assert(all.last() == chars::digit_char((n % 10) as int));
        assert forall|k: int| 0 <= k < all.len() implies is_digit(#[trigger] all[k]) by {
            if k < all.len() - 1 {
                assert(all[k] == chars::decimal_digits(n / 10)[k]);
            }
        }
    }
}

/// A number in decimal is read as that number, with a plus sign or without; a text with
/// anything but digits after its sign is no number.
pub proof fn numbers_are_read_as_they_are_written(n: int, s: Seq<char>, k: int)
    requires
        0 <= k < s.len(),
        !is_digit(s[k]),
        k > 0 || (s[0] != '+' && s[0] != '-'),
    ensures
        whole(chars::decimal(n)) == Some(n),
        n >= 0 ==> whole(seq!['+'] + chars::decimal(n)) == Some(n),
        whole(s) is None,
{
    if n < 0 {
        let digits = chars::decimal_digits((-n) as nat);
        lemma_digits_read_back((-n) as nat);
        assert(chars::decimal(n).skip(1) =~= digits);
    } else {
        let digits = chars::decimal_digits(n as nat);
        lemma_digits_read_back(n as nat);
        assert(is_digit(digits[0]));
        assert((seq!['+'] + digits).skip(1) =~= digits);
    }
    if s[0] == '+' || s[0] == '-' {
        assert(s.skip(1)[k - 1] == s[k]);
    }
}

} // verus!
