//! Text as sequences of characters: conversions, searching, trimming and the
//! decimal and hexadecimal forms of numbers.

use vstd::prelude::*;

verus! {

/// `String::push` appends the character at the end of the string.
pub assume_specification[ String::push ](s: &mut String, ch: char)
    ensures
        final(s)@ == old(s)@.push(ch),
;

/// The characters of `s`, one per element.
pub fn to_chars(s: &str) -> (r: Vec<char>)
    ensures
        r@ == s@,
{
    let mut r: Vec<char> = Vec::new();
    for c in it: s.chars()
        invariant
            it.seq() == s@,
            r@ == s@.take(it.index() as int),
    {
        r.push(c);
    }
    r
}

/// The string made of the characters `chars[from..to]`.
pub fn slice_to_string(chars: &[char], from: usize, to: usize) -> (r: String)
    requires
        from <= to <= chars@.len(),
    ensures
        r@ == chars@.subrange(from as int, to as int),
{
    let mut r: String = String::new();
    let mut i: usize = from;
    while i < to
        invariant
            from <= i <= to <= chars@.len(),
            r@ == chars@.subrange(from as int, i as int),
        decreases to - i,
    {
        r.push(chars[i]);
        i = i + 1;
    }
    r
}

/// Appends `chars[from..to]` to `out`.
pub fn push_slice(out: &mut String, chars: &[char], from: usize, to: usize)
    requires
        from <= to <= chars@.len(),
    ensures
        final(out)@ == old(out)@ + chars@.subrange(from as int, to as int),
{
    let mut i: usize = from;
    while i < to
        invariant
            from <= i <= to <= chars@.len(),
            out@ == old(out)@ + chars@.subrange(from as int, i as int),
        decreases to - i,
    {
        out.push(chars[i]);
        i = i + 1;
    }
}

/// `pat` stands in `s` at position `i`.
pub open spec fn occurs_at(s: Seq<char>, pat: Seq<char>, i: int) -> bool {
    0 <= i && i + pat.len() <= s.len() && s.subrange(i, i + pat.len()) == pat
}

/// `i` is the first position from `from` on at which `pat` stands in `s`.
pub open spec fn is_first_at(s: Seq<char>, pat: Seq<char>, from: int, i: int) -> bool {
    from <= i && occurs_at(s, pat, i) && forall|j: int| from <= j < i ==> !occurs_at(s, pat, j)
}

/// The first position from `from` on at which `pat` stands in `s`, if any.
pub open spec fn first_at(s: Seq<char>, pat: Seq<char>, from: int) -> Option<int> {
    if exists|i: int| is_first_at(s, pat, from, i) {
        Some(choose|i: int| is_first_at(s, pat, from, i))
    } else {
        None
    }
}

/// Where `pat` stands at `i` and nowhere between `from` and `i`, the first
/// position is `i`.
pub proof fn lemma_first_at(s: Seq<char>, pat: Seq<char>, from: int, i: int)
    requires
        is_first_at(s, pat, from, i),
    ensures
        first_at(s, pat, from) == Some(i),
{
    let k = choose|k: int| is_first_at(s, pat, from, k);
    assert(is_first_at(s, pat, from, k));
    if k < i {
        assert(!occurs_at(s, pat, k));
    }
    if i < k {
        assert(!occurs_at(s, pat, i));
    }
}

/// The first position of `pat` is one at which `pat` stands.
pub proof fn lemma_first_at_holds(s: Seq<char>, pat: Seq<char>, from: int)
    ensures
        match first_at(s, pat, from) {
            Some(i) => is_first_at(s, pat, from, i),
            None => true,
        },
{
}

/// The first position at which `pat` stands in `chars[from..to]`.
pub fn find(chars: &[char], pat: &[char], from: usize, to: usize) -> (r: Option<usize>)
    requires
        from <= to <= chars@.len(),
        pat@.len() > 0,
    ensures
        match r {
            Some(i) => from <= i && first_at(chars@.subrange(from as int, to as int), pat@, 0)
                == Some(i - from) && is_first_at(
                chars@.subrange(from as int, to as int),
                pat@,
                0,
                i - from,
            ),
            None => first_at(chars@.subrange(from as int, to as int), pat@, 0) is None
                && forall|j: int| !occurs_at(chars@.subrange(from as int, to as int), pat@, j),
        },
{
    let ghost s = chars@.subrange(from as int, to as int);
    let mut i: usize = from;
    while i < to
        invariant
            from <= i <= to <= chars@.len(),
            s == chars@.subrange(from as int, to as int),
            pat@.len() > 0,
            forall|j: int| 0 <= j < i - from ==> !occurs_at(s, pat@, j),
        decreases to - i,
    {
        if matches_at(chars, pat, i, to) {
            proof {
                lemma_first_at(s, pat@, 0, i - from);
            }
            return Some(i);
        }
        assert(!occurs_at(chars@.subrange(from as int, to as int), pat@, i - from));
        i = i + 1;
    }
    None
}

/// Whether `chars[i..to]` starts with `pat`.
pub fn matches_at(chars: &[char], pat: &[char], i: usize, to: usize) -> (r: bool)
    requires
        i <= to <= chars@.len(),
    ensures
        r == occurs_at(chars@.subrange(i as int, to as int), pat@, 0),
        forall|from: int|
            0 <= from <= i ==> r == #[trigger] occurs_at(
                chars@.subrange(from, to as int),
                pat@,
                i - from,
            ),
{
    if pat.len() > to - i {
        return false;
    }
    let mut k: usize = 0;
    while k < pat.len()
        invariant
            k <= pat@.len(),
            i + pat@.len() <= to <= chars@.len(),
            forall|j: int| 0 <= j < k ==> chars@[i + j] == pat@[j],
        decreases pat.len() - k,
    {
        if chars[i + k] != pat[k] {
            assert forall|from: int| 0 <= from <= i implies !#[trigger] occurs_at(
                chars@.subrange(from, to as int),
                pat@,
                i - from,
            ) by {
                let t = chars@.subrange(from, to as int);
                assert(t.subrange(i - from, i - from + pat@.len())[k as int] != pat@[k as int]);
            }
            assert(!occurs_at(chars@.subrange(i as int, to as int), pat@, i - i));
            return false;
        }
        k = k + 1;
    }
    assert forall|from: int| 0 <= from <= i implies #[trigger] occurs_at(
        chars@.subrange(from, to as int),
        pat@,
        i - from,
    ) by {
        let t = chars@.subrange(from, to as int);
        assert(t.subrange(i - from, i - from + pat@.len()) =~= pat@);
    }
    assert(occurs_at(chars@.subrange(i as int, to as int), pat@, i - i));
    true
}

/// Unicode's `White_Space` property, the whitespace that trimming removes.
pub open spec fn is_space(c: char) -> bool {
    ||| 0x9 <= c as u32 <= 0xd
    ||| c as u32 == 0x20
    ||| c as u32 == 0x85
    ||| c as u32 == 0xa0
    ||| c as u32 == 0x1680
    ||| 0x2000 <= c as u32 <= 0x200a
    ||| c as u32 == 0x2028
    ||| c as u32 == 0x2029
    ||| c as u32 == 0x202f
    ||| c as u32 == 0x205f
    ||| c as u32 == 0x3000
}

/// Whether `c` is Unicode whitespace.
pub fn char_is_space(c: char) -> (r: bool)
    ensures
        r == is_space(c),
{
    let u: u32 = c as u32;
    (0x9 <= u && u <= 0xd) || u == 0x20 || u == 0x85 || u == 0xa0 || u == 0x1680 || (0x2000 <= u
        && u <= 0x200a) || u == 0x2028 || u == 0x2029 || u == 0x202f || u == 0x205f || u == 0x3000
}

/// `s` without its leading whitespace.
pub open spec fn trim_start(s: Seq<char>) -> Seq<char>
    decreases s.len(),
{
    if s.len() > 0 && is_space(s[0]) {
        trim_start(s.skip(1))
    } else {
        s
    }
}

/// `s` without its trailing whitespace.
pub open spec fn trim_end(s: Seq<char>) -> Seq<char>
    decreases s.len(),
{
    if s.len() > 0 && is_space(s.last()) {
        trim_end(s.drop_last())
    } else {
        s
    }
}

/// `s` without the whitespace on both its ends.
pub open spec fn trim(s: Seq<char>) -> Seq<char> {
    trim_end(trim_start(s))
}

/// Trimming never makes a text longer.
pub proof fn lemma_trim_len(s: Seq<char>)
    ensures
        trim_start(s).len() <= s.len(),
        trim_end(s).len() <= s.len(),
        trim(s).len() <= s.len(),
    decreases s.len(),
{
    if s.len() > 0 {
        lemma_trim_len(s.skip(1));
        lemma_trim_len(s.drop_last());
    }
    if trim_start(s).len() < s.len() {
        lemma_trim_len(trim_start(s));
    } else {
        assert(trim_start(s) == s);
    }
}

/// The position at which `chars[from..to]` starts once its leading whitespace is
/// removed.
pub fn trim_start_at(chars: &[char], from: usize, to: usize) -> (r: usize)
    requires
        from <= to <= chars@.len(),
    ensures
        from <= r <= to,
        chars@.subrange(r as int, to as int) == trim_start(
            chars@.subrange(from as int, to as int),
        ),
{
    let mut i: usize = from;
    while i < to && char_is_space(chars[i])
        invariant
            from <= i <= to <= chars@.len(),
            trim_start(chars@.subrange(i as int, to as int)) == trim_start(
                chars@.subrange(from as int, to as int),
            ),
        decreases to - i,
    {
        assert(chars@.subrange(i as int, to as int).skip(1) =~= chars@.subrange(
            i + 1,
            to as int,
        ));
        i = i + 1;
    }
    i
}

/// The position at which `chars[from..to]` ends once its trailing whitespace is
/// removed.
pub fn trim_end_at(chars: &[char], from: usize, to: usize) -> (r: usize)
    requires
        from <= to <= chars@.len(),
    ensures
        from <= r <= to,
        chars@.subrange(from as int, r as int) == trim_end(
            chars@.subrange(from as int, to as int),
        ),
{
    let mut i: usize = to;
    while i > from && char_is_space(chars[i - 1])
        invariant
            from <= i <= to <= chars@.len(),
            trim_end(chars@.subrange(from as int, i as int)) == trim_end(
                chars@.subrange(from as int, to as int),
            ),
        decreases i,
    {
        assert(chars@.subrange(from as int, i as int).drop_last() =~= chars@.subrange(
            from as int,
            i - 1,
        ));
        i = i - 1;
    }
    i
}

/// The bounds of `chars[from..to]` once the whitespace on both its ends is
/// removed.
pub fn trim_range(chars: &[char], from: usize, to: usize) -> (r: (usize, usize))
    requires
        from <= to <= chars@.len(),
    ensures
        from <= r.0 <= r.1 <= to,
        chars@.subrange(r.0 as int, r.1 as int) == trim(chars@.subrange(from as int, to as int)),
{
    let a: usize = trim_start_at(chars, from, to);
    let b: usize = trim_end_at(chars, a, to);
    (a, b)
}

/// The character of a decimal or hexadecimal digit.
pub open spec fn digit_char(d: int) -> char {
    if d < 10 {
        (48 + d) as char
    } else {
        (87 + d) as char
    }
}

/// The lower-case character of the digit `d`.
pub fn digit(d: u8) -> (c: char)
    requires
        d < 16,
    ensures
        c == digit_char(d as int),
{
    if d < 10 {
        (48 + d) as char
    } else {
        (87 + d) as char
    }
}

/// The decimal digits of `n`, without leading zeros.
pub open spec fn decimal_digits(n: nat) -> Seq<char>
    decreases n,
{
    if n < 10 {
        seq![digit_char(n as int)]
    } else {
        decimal_digits(n / 10).push(digit_char((n % 10) as int))
    }
}

/// `n` in decimal, with a leading `-` where it is negative.
pub open spec fn decimal(n: int) -> Seq<char> {
    if n < 0 {
        seq!['-'] + decimal_digits((-n) as nat)
    } else {
        decimal_digits(n as nat)
    }
}

/// Appends the decimal digits of `n`.
pub fn push_digits(out: &mut String, n: u128)
    ensures
        final(out)@ == old(out)@ + decimal_digits(n as nat),
    decreases n,
{
    if n >= 10 {
        push_digits(out, n / 10);
    }
    out.push(digit((n % 10) as u8));
}

/// `n` in decimal.
pub fn decimal_string(n: i32) -> (r: String)
    ensures
        r@ == decimal(n as int),
{
    let mut out: String = String::new();
    if n < 0 {
        out.push('-');
        push_digits(&mut out, (-(n as i64)) as u128);
    } else {
        push_digits(&mut out, n as u128);
    }
    assert(out@ =~= decimal(n as int));
    out
}

/// The last `width` hexadecimal digits of `n`, zero-padded on the left.
pub open spec fn hex_digits(n: nat, width: nat) -> Seq<char>
    decreases width,
{
    if width == 0 {
        Seq::empty()
    } else {
        hex_digits(n / 16, (width - 1) as nat).push(digit_char((n % 16) as int))
    }
}

/// Appends the last `width` hexadecimal digits of `n`, zero-padded.
pub fn push_hex(out: &mut String, n: u64, width: u8)
    ensures
        final(out)@ == old(out)@ + hex_digits(n as nat, width as nat),
    decreases width,
{
    if width > 0 {
        push_hex(out, n / 16, width - 1);
        out.push(digit((n % 16) as u8));
    }
}

/// Sixteen to the power of `width`.
spec fn sixteens(width: nat) -> nat
    decreases width,
{
    if width == 0 {
        1
    } else {
        16 * sixteens((width - 1) as nat)
    }
}

proof fn lemma_hex_digits_apart(m: nat, n: nat, width: nat)
    requires
        m < sixteens(width),
        n < sixteens(width),
        hex_digits(m, width) == hex_digits(n, width),
    ensures
        m == n,
    decreases width,
{
    if width > 0 {
        let w = (width - 1) as nat;
        let (a, b) = (hex_digits(m, width), hex_digits(n, width));
        assert(a.drop_last() =~= hex_digits(m / 16, w));
        assert(b.drop_last() =~= hex_digits(n / 16, w));
        assert(a.last() == b.last());
        lemma_hex_digits_apart(m / 16, n / 16, w);
    }
}

/// Sixteen hexadecimal digits tell any two 64-bit numbers apart.
pub proof fn hex_digits_tell_numbers_apart(m: u64, n: u64)
    requires
        hex_digits(m as nat, 16) == hex_digits(n as nat, 16),
    ensures
        m == n,
{
    reveal_with_fuel(sixteens, 17);
    lemma_hex_digits_apart(m as nat, n as nat, 16);
}

/// Whether two texts are the same.
pub fn same(a: &str, b: &str) -> (r: bool)
    ensures
        r == (a@ == b@),
{
    a.to_owned() == b.to_owned()
}

/// `s` repeated `n` times.
pub open spec fn repeated(s: Seq<char>, n: nat) -> Seq<char>
    decreases n,
{
    if n == 0 {
        Seq::empty()
    } else {
        repeated(s, (n - 1) as nat) + s
    }
}

/// `s` repeated `n` times.
pub fn repeat(s: &str, n: u64) -> (r: String)
    ensures
        r@ == repeated(s@, n as nat),
{
    let mut out: String = String::new();
    let mut i: u64 = 0;
    while i < n
        invariant
            i <= n,
            out@ == repeated(s@, i as nat),
        decreases n - i,
    {
        out.append(s);
        i = i + 1;
    }
    out
}

} // verus!
