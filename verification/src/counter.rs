//! List counters (CSS Lists 3): the text that a list item's marker shows, and the
//! ordinal that it shows it for.

use vstd::prelude::*;

use crate::chars;

verus! {

/// Where a list item's marker box goes.
#[derive(Clone, Copy, PartialEq, Eq, Debug, Structural)]
pub enum MarkerPosition {
    /// The marker is the first inline-level content inside the item.
    Inside,
    /// The marker sits outside the item's principal box (the CSS default).
    Outside,
}

/// How an anonymous `symbols()` style uses its symbols.
#[derive(Clone, Copy, PartialEq, Eq, Debug, Structural)]
pub enum SymbolsType {
    Cyclic,
    Fixed,
    Symbolic,
    Alphabetic,
    Numeric,
}

/// The computed value of `list-style-type`.
pub enum CounterStyle {
    /// `none`: the item has no marker.
    Unmarked,
    /// A counter style by its name.
    Name(String),
    /// A string, shown as it is.
    Text(String),
    /// `symbols()`.
    Symbols { ty: SymbolsType, symbols: Vec<String> },
}

/// The digits of `n` in bijective base `base`, most significant first: digit `d`
/// stands for the value `d + 1`, and there is no zero.
pub open spec fn bijective_digits(n: nat, base: nat) -> Seq<int>
    decreases n,
{
    if n == 0 || base == 0 {
        Seq::empty()
    } else {
        proof {
            vstd::arithmetic::div_mod::lemma_div_is_ordered_by_denominator(
                n as int - 1,
                1,
                base as int,
            );
        }
        bijective_digits(((n - 1) / base as int) as nat, base).push((n - 1) % base as int)
    }
}

/// The number that bijective digits stand for.
pub open spec fn bijective_value(digits: Seq<int>, base: nat) -> int
    decreases digits.len(),
{
    if digits.len() == 0 {
        0
    } else {
        bijective_value(digits.drop_last(), base) * base + digits.last() + 1
    }
}

/// The digits of a number give the number back, so that no two numbers have the same
/// ones, and each digit is one of the base.
pub proof fn bijective_digits_give_the_number_back(n: nat, base: nat)
    requires
        base > 0,
    ensures
        bijective_value(bijective_digits(n, base), base) == n,
        forall|i: int|
            0 <= i < bijective_digits(n, base).len() ==> 0 <= #[trigger] bijective_digits(n, base)[i]
                < base,
    decreases n,
{
    if n > 0 {
        let m = ((n - 1) / base as int) as nat;
        vstd::arithmetic::div_mod::lemma_div_is_ordered_by_denominator(
            n as int - 1,
            1,
            base as int,
        );
        vstd::arithmetic::div_mod::lemma_fundamental_div_mod(n - 1, base as int);
        bijective_digits_give_the_number_back(m, base);
        let d = bijective_digits(n, base);
        assert(d.drop_last() =~= bijective_digits(m, base));
        assert(m * base == base * m) by (nonlinear_arith);
        assert forall|i: int| 0 <= i < d.len() implies 0 <= #[trigger] d[i] < base by {
            if i < d.len() - 1 {
                assert(d[i] == bijective_digits(m, base)[i]);
            }
        }
    }
}

/// The digits of `n` in base `base`, most significant first, without leading zeros;
/// none for zero.
pub open spec fn positional_digits(n: nat, base: nat) -> Seq<int>
    decreases n,
{
    if n == 0 || base < 2 {
        Seq::empty()
    } else {
        proof {
            vstd::arithmetic::div_mod::lemma_div_decreases(n as int, base as int);
        }
        positional_digits(n / base, base).push((n % base) as int)
    }
}

/// The texts of the symbols that the digits pick, one behind the other.
pub open spec fn spelled(digits: Seq<int>, symbols: Seq<Seq<char>>) -> Seq<char>
    decreases digits.len(),
{
    if digits.len() == 0 {
        Seq::empty()
    } else {
        spelled(digits.drop_last(), symbols) + symbols[digits.last()]
    }
}

/// A text for each character.
pub open spec fn singles(alphabet: Seq<char>) -> Seq<Seq<char>> {
    alphabet.map_values(|c: char| seq![c])
}

fn push_bijective_chars(out: &mut String, n: u32, alphabet: &[char])
    requires
        alphabet@.len() > 0,
    ensures
        final(out)@ == old(out)@ + spelled(
            bijective_digits(n as nat, alphabet@.len()),
            singles(alphabet@),
        ),
    decreases n,
{
    if n > 0 {
        let base: usize = alphabet.len();
        let k: u64 = (n - 1) as u64;
        let b: u64 = base as u64;
        proof {
            vstd::arithmetic::div_mod::lemma_div_is_ordered_by_denominator(
                k as int,
                1,
                b as int,
            );
            let d = bijective_digits(n as nat, base as nat);
            assert(d.drop_last() =~= bijective_digits((k / b) as nat, base as nat));
        }
        push_bijective_chars(out, (k / b) as u32, alphabet);
        out.push(alphabet[(k % b) as usize]);
    }
}

/// The bijective representation of an ordinal over an alphabet: `a` to `z`, `aa` to
/// `az`, `ba` and so on. An ordinal below one is shown in decimal.
pub open spec fn alphabetic_text(ordinal: int, symbols: Seq<Seq<char>>) -> Seq<char> {
    if ordinal < 1 {
        chars::decimal(ordinal)
    } else {
        spelled(bijective_digits(ordinal as nat, symbols.len()), symbols)
    }
}

/// The bijective representation of `ordinal` over `alphabet`.
pub fn alphabetic(ordinal: i32, alphabet: &[char]) -> (r: String)
    requires
        alphabet@.len() > 0,
    ensures
        r@ == alphabetic_text(ordinal as int, singles(alphabet@)),
{
    if ordinal < 1 {
        return chars::decimal_string(ordinal);
    }
    let mut out: String = String::new();
    push_bijective_chars(&mut out, ordinal as u32, alphabet);
    assert(out@ =~= alphabetic_text(ordinal as int, singles(alphabet@)));
    out
}

proof fn lemma_spelled_singles(digits: Seq<int>, alphabet: Seq<char>)
    requires
        forall|i: int| 0 <= i < digits.len() ==> 0 <= #[trigger] digits[i] < alphabet.len(),
    ensures
        spelled(digits, singles(alphabet)) == digits.map_values(|d: int| alphabet[d]),
    decreases digits.len(),
{
    if digits.len() > 0 {
        let most = digits.drop_last();
        assert forall|i: int| 0 <= i < most.len() implies 0 <= #[trigger] most[i]
            < alphabet.len() by {
            assert(most[i] == digits[i]);
        }
        lemma_spelled_singles(most, alphabet);
    }
    assert(spelled(digits, singles(alphabet)) =~= digits.map_values(|d: int| alphabet[d]));
}

/// Every string of digits of the base stands for a number whose digits it is.
pub proof fn bijective_digits_reach_every_string(digits: Seq<int>, base: nat)
    requires
        base > 0,
        forall|i: int| 0 <= i < digits.len() ==> 0 <= #[trigger] digits[i] < base,
    ensures
        bijective_value(digits, base) >= 0,
        digits.len() > 0 ==> bijective_value(digits, base) > 0,
        bijective_digits(bijective_value(digits, base) as nat, base) == digits,
    decreases digits.len(),
{
    if digits.len() > 0 {
        let most = digits.drop_last();
        assert forall|i: int| 0 <= i < most.len() implies 0 <= #[trigger] most[i] < base by {
            assert(most[i] == digits[i]);
        }
        bijective_digits_reach_every_string(most, base);
        let v = bijective_value(most, base);
        let n = bijective_value(digits, base);
        assert(digits.last() == digits[digits.len() - 1]);
        assert(v * base >= 0) by (nonlinear_arith)
            requires
                v >= 0,
                base > 0,
        ;
        vstd::arithmetic::div_mod::lemma_fundamental_div_mod_converse(
            n - 1,
            base as int,
            v,
            digits.last(),
        );
        assert(bijective_digits(n as nat, base) =~= digits);
    } else {
        assert(bijective_digits(0, base) =~= digits);
    }
}

/// The digits of a smaller number are fewer, or as many and smaller at the first place
/// at which they differ, which is the one handed back.
proof fn lemma_bijective_order(m: nat, n: nat, base: nat) -> (at: int)
    requires
        base > 0,
        m < n,
    ensures
        ({
            let (a, b) = (bijective_digits(m, base), bijective_digits(n, base));
            a.len() < b.len() || (a.len() == b.len() && 0 <= at < a.len() && a.take(at) == b.take(
                at,
            ) && a[at] < b[at])
        }),
    decreases n,
{
    let (a, b) = (bijective_digits(m, base), bijective_digits(n, base));
    if m == 0 {
        0
    } else {
        let x = ((m - 1) / base as int) as nat;
        let y = ((n - 1) / base as int) as nat;
        vstd::arithmetic::div_mod::lemma_div_is_ordered(m - 1, n - 1, base as int);
        vstd::arithmetic::div_mod::lemma_div_is_ordered_by_denominator(n - 1, 1, base as int);
        vstd::arithmetic::div_mod::lemma_div_is_ordered_by_denominator(m - 1, 1, base as int);
        let (p, q) = (bijective_digits(x, base), bijective_digits(y, base));
        assert(a =~= p.push((m - 1) % base as int));
        assert(b =~= q.push((n - 1) % base as int));
        if x < y {
            let at = lemma_bijective_order(x, y, base);
            if p.len() == q.len() {
                assert(a.take(at) =~= p.take(at));
                assert(b.take(at) =~= q.take(at));
            }
            at
        } else {
            vstd::arithmetic::div_mod::lemma_fundamental_div_mod(m - 1, base as int);
            vstd::arithmetic::div_mod::lemma_fundamental_div_mod(n - 1, base as int);
            assert(a.take(p.len() as int) =~= b.take(p.len() as int));
            p.len() as int
        }
    }
}

/// The number that a word over `alphabet` stands for.
pub open spec fn word_value(word: Seq<char>, alphabet: Seq<char>) -> int {
    bijective_value(word.map_values(|c: char| alphabet.index_of(c)), alphabet.len())
}

/// Two words agree up to a place at which the letter of the first one stands earlier in
/// `alphabet`.
pub open spec fn is_alphabetically_before(a: Seq<char>, b: Seq<char>, alphabet: Seq<char>) -> bool {
    exists|at: int, p: int, q: int|
        #![trigger a[at], alphabet[p], alphabet[q]]
        0 <= at < a.len() && at < b.len() && a.take(at) == b.take(at) && 0 <= p < q
            < alphabet.len() && a[at] == alphabet[p] && b[at] == alphabet[q]
}

/// Alphabetic markers grow with their ordinals: the marker of a smaller ordinal is
/// shorter, or as long and earlier in the order of the alphabet.
pub proof fn alphabetic_texts_are_in_order(m: int, n: int, alphabet: Seq<char>)
    requires
        alphabet.len() > 0,
        1 <= m < n,
    ensures
        ({
            let (a, b) = (
                alphabetic_text(m, singles(alphabet)),
                alphabetic_text(n, singles(alphabet)),
            );
            a.len() < b.len() || (a.len() == b.len() && is_alphabetically_before(a, b, alphabet))
        }),
{
    let base = alphabet.len();
    let (c, d) = (bijective_digits(m as nat, base), bijective_digits(n as nat, base));
    let (a, b) = (alphabetic_text(m, singles(alphabet)), alphabetic_text(n, singles(alphabet)));
    bijective_digits_give_the_number_back(m as nat, base);
    bijective_digits_give_the_number_back(n as nat, base);
    lemma_spelled_singles(c, alphabet);
    lemma_spelled_singles(d, alphabet);
    let at = lemma_bijective_order(m as nat, n as nat, base);
    if c.len() == d.len() {
        assert forall|i: int| 0 <= i < at implies c[i] == d[i] by {
            assert(c.take(at)[i] == d.take(at)[i]);
        }
        assert(a.take(at) =~= b.take(at));
        assert(a[at] == alphabet[c[at]]);
        assert(b[at] == alphabet[d[at]]);
        assert(is_alphabetically_before(a, b, alphabet));
    }
}

proof fn lemma_index_of(alphabet: Seq<char>, i: int)
    requires
        alphabet.no_duplicates(),
        0 <= i < alphabet.len(),
    ensures
        alphabet.index_of(alphabet[i]) == i,
{
    assert(alphabet.contains(alphabet[i]));
    let j = alphabet.index_of(alphabet[i]);
    assert(0 <= j < alphabet.len() && alphabet[j] == alphabet[i]);
}

/// An alphabetic marker over distinct letters stands for its ordinal, so that no two
/// ordinals have the same marker.
pub proof fn alphabetic_texts_tell_ordinals_apart(m: int, n: int, alphabet: Seq<char>)
    requires
        alphabet.len() > 0,
        alphabet.no_duplicates(),
        1 <= m,
        1 <= n,
    ensures
        word_value(alphabetic_text(m, singles(alphabet)), alphabet) == m,
        alphabetic_text(m, singles(alphabet)) == alphabetic_text(n, singles(alphabet)) <==> m == n,
{
    lemma_word_value(m, alphabet);
    lemma_word_value(n, alphabet);
}

proof fn lemma_word_value(n: int, alphabet: Seq<char>)
    requires
        alphabet.len() > 0,
        alphabet.no_duplicates(),
        1 <= n,
    ensures
        word_value(alphabetic_text(n, singles(alphabet)), alphabet) == n,
{
    let d = bijective_digits(n as nat, alphabet.len());
    let text = alphabetic_text(n, singles(alphabet));
    bijective_digits_give_the_number_back(n as nat, alphabet.len());
    lemma_spelled_singles(d, alphabet);
    let back = text.map_values(|c: char| alphabet.index_of(c));
    assert forall|i: int| 0 <= i < d.len() implies back[i] == d[i] by {
        lemma_index_of(alphabet, d[i]);
    }
    assert(back =~= d);
}

/// Every word over the alphabet is the marker of an ordinal: of the number that it
/// stands for.
pub proof fn every_word_is_an_alphabetic_text(word: Seq<char>, alphabet: Seq<char>)
    requires
        word.len() > 0,
        forall|i: int| 0 <= i < word.len() ==> alphabet.contains(#[trigger] word[i]),
    ensures
        word_value(word, alphabet) >= 1,
        alphabetic_text(word_value(word, alphabet), singles(alphabet)) == word,
{
    let digits = word.map_values(|c: char| alphabet.index_of(c));
    assert(alphabet.contains(word[0]));
    assert forall|i: int| 0 <= i < digits.len() implies 0 <= #[trigger] digits[i]
        < alphabet.len() && alphabet[digits[i]] == word[i] by {
        assert(alphabet.contains(word[i]));
    }
    bijective_digits_reach_every_string(digits, alphabet.len());
    lemma_spelled_singles(digits, alphabet);
    assert(digits.map_values(|d: int| alphabet[d]) =~= word);
}

/// An ordinal in decimal, with at least two digits.
pub open spec fn padded_decimal(ordinal: int) -> Seq<char> {
    let magnitude = if ordinal < 0 {
        -ordinal
    } else {
        ordinal
    };
    let sign: Seq<char> = if ordinal < 0 {
        seq!['-']
    } else {
        Seq::empty()
    };
    let pad: Seq<char> = if magnitude < 10 {
        seq!['0']
    } else {
        Seq::empty()
    };
    sign + pad + chars::decimal_digits(magnitude as nat)
}

/// `decimal-leading-zero`: pads to two digits.
pub fn decimal_leading_zero(ordinal: i32) -> (r: String)
    ensures
        r@ == padded_decimal(ordinal as int),
{
    let mut out: String = String::new();
    let magnitude: u128 = if ordinal < 0 {
        (-(ordinal as i64)) as u128
    } else {
        ordinal as u128
    };
    if ordinal < 0 {
        out.push('-');
    }
    if magnitude < 10 {
        out.push('0');
    }
    chars::push_digits(&mut out, magnitude);
    assert(out@ =~= padded_decimal(ordinal as int));
    out
}

/// The letters of one decimal place of a roman numeral: those for one, five and ten
/// times its weight.
pub open spec fn roman_place(d: int, one: char, five: char, ten: char) -> Seq<char> {
    if d == 9 {
        seq![one, ten]
    } else if d >= 5 {
        seq![five] + Seq::new((d - 5) as nat, |i: int| one)
    } else if d == 4 {
        seq![one, five]
    } else {
        Seq::new(d as nat, |i: int| one)
    }
}

/// The roman numeral of a number from 1 to 3999 in lower case.
pub open spec fn roman_lower(n: int) -> Seq<char> {
    roman_place(n / 1000, 'm', 'm', 'm') + roman_place((n / 100) % 10, 'c', 'd', 'm')
        + roman_place((n / 10) % 10, 'x', 'l', 'c') + roman_place(n % 10, 'i', 'v', 'x')
}

/// The roman numeral of a number from 1 to 3999 in upper case.
pub open spec fn roman_upper(n: int) -> Seq<char> {
    roman_place(n / 1000, 'M', 'M', 'M') + roman_place((n / 100) % 10, 'C', 'D', 'M')
        + roman_place((n / 10) % 10, 'X', 'L', 'C') + roman_place(n % 10, 'I', 'V', 'X')
}

/// The roman numeral of an ordinal, or its decimal form outside 1 to 3999.
pub open spec fn roman_text(ordinal: int, upper: bool) -> Seq<char> {
    if 1 <= ordinal <= 3999 {
        if upper {
            roman_upper(ordinal)
        } else {
            roman_lower(ordinal)
        }
    } else {
        chars::decimal(ordinal)
    }
}

fn push_roman_place(out: &mut String, d: u32, one: char, five: char, ten: char)
    requires
        d < 10,
    ensures
        final(out)@ == old(out)@ + roman_place(d as int, one, five, ten),
{
    if d == 9 {
        out.push(one);
        out.push(ten);
    } else if d == 4 {
        out.push(one);
        out.push(five);
    } else {
        let mut left: u32 = d;
        if d >= 5 {
            out.push(five);
            left = d - 5;
        }
        let ghost base = out@;
        let mut i: u32 = 0;
        while i < left
            invariant
                i <= left,
                out@ == base + Seq::new(i as nat, |k: int| one),
            decreases left - i,
        {
            out.push(one);
            i = i + 1;
            assert(out@ =~= base + Seq::new(i as nat, |k: int| one));
        }
        assert(out@ =~= base + Seq::new(left as nat, |k: int| one));
    }
    assert(out@ =~= old(out)@ + roman_place(d as int, one, five, ten));
}

/// Roman numerals. Outside 1 to 3999 the ordinal is shown in decimal.
pub fn roman(ordinal: i32, upper: bool) -> (r: String)
    ensures
        r@ == roman_text(ordinal as int, upper),
{
    if ordinal < 1 || ordinal > 3999 {
        return chars::decimal_string(ordinal);
    }
    let n: u32 = ordinal as u32;
    let mut out: String = String::new();
    if upper {
        push_roman_place(&mut out, n / 1000, 'M', 'M', 'M');
        push_roman_place(&mut out, (n / 100) % 10, 'C', 'D', 'M');
        push_roman_place(&mut out, (n / 10) % 10, 'X', 'L', 'C');
        push_roman_place(&mut out, n % 10, 'I', 'V', 'X');
    } else {
        push_roman_place(&mut out, n / 1000, 'm', 'm', 'm');
        push_roman_place(&mut out, (n / 100) % 10, 'c', 'd', 'm');
        push_roman_place(&mut out, (n / 10) % 10, 'x', 'l', 'c');
        push_roman_place(&mut out, n % 10, 'i', 'v', 'x');
    }
    assert(out@ =~= roman_text(ordinal as int, upper));
    out
}

/// The texts of a list of symbols.
pub open spec fn symbol_texts(symbols: Seq<String>) -> Seq<Seq<char>> {
    symbols.map_values(|s: String| s@)
}

/// The representation of an ordinal in an anonymous `symbols()` style: the symbols in
/// turn; one each and decimal past them; in turn and once more per round; as
/// bijective or as positional digits. Outside a style's range, decimal.
pub open spec fn symbols_text(ty: SymbolsType, symbols: Seq<Seq<char>>, ordinal: int) -> Seq<
    char,
> {
    let len = symbols.len() as int;
    if len == 0 {
        chars::decimal(ordinal)
    } else {
        match ty {
            SymbolsType::Cyclic => symbols[(ordinal - 1) % len],
            SymbolsType::Fixed => if 1 <= ordinal <= len {
                symbols[ordinal - 1]
            } else {
                chars::decimal(ordinal)
            },
            SymbolsType::Symbolic => if ordinal < 1 {
                chars::decimal(ordinal)
            } else {
                chars::repeated(symbols[(ordinal - 1) % len], ((ordinal - 1) / len + 1) as nat)
            },
            SymbolsType::Alphabetic => alphabetic_text(ordinal, symbols),
            SymbolsType::Numeric => if len < 2 || ordinal < 0 {
                chars::decimal(ordinal)
            } else if ordinal == 0 {
                symbols[0]
            } else {
                spelled(positional_digits(ordinal as nat, len as nat), symbols)
            },
        }
    }
}

fn push_bijective(out: &mut String, n: u32, symbols: &[String])
    requires
        symbols@.len() > 0,
    ensures
        final(out)@ == old(out)@ + spelled(
            bijective_digits(n as nat, symbols@.len()),
            symbol_texts(symbols@),
        ),
    decreases n,
{
    if n > 0 {
        let base: usize = symbols.len();
        let k: u64 = (n - 1) as u64;
        let b: u64 = base as u64;
        proof {
            vstd::arithmetic::div_mod::lemma_div_is_ordered_by_denominator(
                k as int,
                1,
                b as int,
            );
            let d = bijective_digits(n as nat, base as nat);
            assert(d.drop_last() =~= bijective_digits((k / b) as nat, base as nat));
        }
        push_bijective(out, (k / b) as u32, symbols);
        out.append(symbols[(k % b) as usize].as_str());
        assert(out@ =~= old(out)@ + spelled(
            bijective_digits(n as nat, symbols@.len()),
            symbol_texts(symbols@),
        ));
    }
}

fn push_positional(out: &mut String, n: u32, symbols: &[String])
    requires
        symbols@.len() >= 2,
    ensures
        final(out)@ == old(out)@ + spelled(
            positional_digits(n as nat, symbols@.len()),
            symbol_texts(symbols@),
        ),
    decreases n,
{
    if n > 0 {
        let b: u64 = symbols.len() as u64;
        let k: u64 = n as u64;
        proof {
            vstd::arithmetic::div_mod::lemma_div_decreases(k as int, b as int);
            let d = positional_digits(n as nat, b as nat);
            assert(d.drop_last() =~= positional_digits((k / b) as nat, b as nat));
        }
        push_positional(out, (k / b) as u32, symbols);
        out.append(symbols[(k % b) as usize].as_str());
        assert(out@ =~= old(out)@ + spelled(
            positional_digits(n as nat, symbols@.len()),
            symbol_texts(symbols@),
        ));
    }
}

/// The representation of `ordinal` in an anonymous `symbols()` style.
pub fn anonymous_symbols(ty: SymbolsType, symbols: &[String], ordinal: i32) -> (r: String)
    ensures
        r@ == symbols_text(ty, symbol_texts(symbols@), ordinal as int),
{
    let n: usize = symbols.len();
    if n == 0 {
        return chars::decimal_string(ordinal);
    }
    let len: i128 = n as i128;
    let o: i128 = ordinal as i128;
    match ty {
        SymbolsType::Cyclic => {
            let m: i128 = if o >= 1 {
                (o - 1) % len
            } else {
                len - 1 - ((-o) % len)
            };
            proof {
                if o < 1 {
                    let q = (-o) / (len as int);
                    let r = (-o) % (len as int);
                    vstd::arithmetic::div_mod::lemma_fundamental_div_mod(-o, len as int);
                    assert(o - 1 == len * (-q - 1) + (len - 1 - r)) by (nonlinear_arith)
                        requires
                            -o == len * q + r,
                    ;
                    vstd::arithmetic::div_mod::lemma_fundamental_div_mod_converse(
                        o - 1,
                        len as int,
                        -q - 1,
                        len - 1 - r,
                    );
                }
            }
            symbols[m as usize].clone()
        },
        SymbolsType::Fixed => {
            if 1 <= o && o <= len {
                symbols[(o - 1) as usize].clone()
            } else {
                chars::decimal_string(ordinal)
            }
        },
        SymbolsType::Symbolic => {
            if ordinal < 1 {
                chars::decimal_string(ordinal)
            } else {
                proof {
                    vstd::arithmetic::div_mod::lemma_div_is_ordered_by_denominator(
                        o - 1,
                        1,
                        len as int,
                    );
                }
                chars::repeat(
                    symbols[((o - 1) % len) as usize].as_str(),
                    ((o - 1) / len + 1) as u64,
                )
            }
        },
        SymbolsType::Alphabetic => {
            if ordinal < 1 {
                chars::decimal_string(ordinal)
            } else {
                let mut out: String = String::new();
                push_bijective(&mut out, ordinal as u32, symbols);
                assert(out@ =~= symbols_text(ty, symbol_texts(symbols@), ordinal as int));
                out
            }
        },
        SymbolsType::Numeric => {
            if n < 2 || ordinal < 0 {
                chars::decimal_string(ordinal)
            } else if ordinal == 0 {
                symbols[0].clone()
            } else {
                let mut out: String = String::new();
                push_positional(&mut out, ordinal as u32, symbols);
                assert(out@ =~= symbols_text(ty, symbol_texts(symbols@), ordinal as int));
                out
            }
        },
    }
}

/// `a` to `z`.
pub open spec fn lower_latin_letters() -> Seq<char> {
    Seq::new(26, |i: int| (97 + i) as char)
}

/// `A` to `Z`.
pub open spec fn upper_latin_letters() -> Seq<char> {
    Seq::new(26, |i: int| (65 + i) as char)
}

/// The lower-case Greek alphabet, without the final sigma.
pub open spec fn lower_greek_letters() -> Seq<char> {
    seq![
        'α', 'β', 'γ', 'δ', 'ε', 'ζ', 'η', 'θ', 'ι', 'κ', 'λ', 'μ', 'ν', 'ξ', 'ο', 'π', 'ρ', 'σ',
        'τ', 'υ', 'φ', 'χ', 'ψ', 'ω',
    ]
}

fn latin(first: u8) -> (r: Vec<char>)
    requires
        first == 65 || first == 97,
    ensures
        r@ == Seq::new(26, |i: int| (first + i) as char),
{
    let mut out: Vec<char> = Vec::new();
    let mut i: u8 = 0;
    while i < 26
        invariant
            i <= 26,
            first == 65 || first == 97,
            out@ == Seq::new(i as nat, |k: int| (first + k) as char),
        decreases 26 - i,
    {
        out.push((first + i) as char);
        i = i + 1;
        assert(out@ =~= Seq::new(i as nat, |k: int| (first + k) as char));
    }
    out
}

/// `a` to `z`.
pub fn lower_latin() -> (r: Vec<char>)
    ensures
        r@ == lower_latin_letters(),
{
    let r: Vec<char> = latin(97);
    assert(r@ =~= lower_latin_letters());
    r
}

/// `A` to `Z`.
pub fn upper_latin() -> (r: Vec<char>)
    ensures
        r@ == upper_latin_letters(),
{
    let r: Vec<char> = latin(65);
    assert(r@ =~= upper_latin_letters());
    r
}

/// The lower-case Greek alphabet.
pub fn lower_greek() -> (r: Vec<char>)
    ensures
        r@ == lower_greek_letters(),
{
    vec![
        'α', 'β', 'γ', 'δ', 'ε', 'ζ', 'η', 'θ', 'ι', 'κ', 'λ', 'μ', 'ν', 'ξ', 'ο', 'π', 'ρ', 'σ',
        'τ', 'υ', 'φ', 'χ', 'ψ', 'ω',
    ]
}

/// The bullet of a predefined symbolic style.
pub open spec fn bullet(name: Seq<char>) -> Option<char> {
    if name == "disc"@ {
        Some('\u{2022}')
    } else if name == "circle"@ {
        Some('\u{25e6}')
    } else if name == "square"@ {
        Some('\u{25aa}')
    } else if name == "disclosure-open"@ {
        Some('\u{25be}')
    } else if name == "disclosure-closed"@ {
        Some('\u{25b8}')
    } else {
        None
    }
}

/// The representation of an ordinal in a predefined style that is not symbolic.
/// `decimal` is what every other name stands for.
pub open spec fn counted(name: Seq<char>, ordinal: int) -> Seq<char> {
    if name == "decimal-leading-zero"@ {
        padded_decimal(ordinal)
    } else if name == "lower-alpha"@ || name == "lower-latin"@ {
        alphabetic_text(ordinal, singles(lower_latin_letters()))
    } else if name == "upper-alpha"@ || name == "upper-latin"@ {
        alphabetic_text(ordinal, singles(upper_latin_letters()))
    } else if name == "lower-greek"@ {
        alphabetic_text(ordinal, singles(lower_greek_letters()))
    } else if name == "lower-roman"@ {
        roman_text(ordinal, false)
    } else if name == "upper-roman"@ {
        roman_text(ordinal, true)
    } else {
        chars::decimal(ordinal)
    }
}

/// The representation of an ordinal in the style `name`, with the period that the
/// numeric, alphabetic and roman ones have behind it.
pub open spec fn named_text(name: Seq<char>, ordinal: int) -> Seq<char> {
    match bullet(name) {
        Some(c) => seq![c],
        None => counted(name, ordinal).push('.'),
    }
}

fn named_bullet(name: &str) -> (r: Option<char>)
    ensures
        r == bullet(name@),
{
    if chars::same(name, "disc") {
        Some('\u{2022}')
    } else if chars::same(name, "circle") {
        Some('\u{25e6}')
    } else if chars::same(name, "square") {
        Some('\u{25aa}')
    } else if chars::same(name, "disclosure-open") {
        Some('\u{25be}')
    } else if chars::same(name, "disclosure-closed") {
        Some('\u{25b8}')
    } else {
        None
    }
}

/// The representation of `ordinal` in the predefined counter style `name`; an unknown
/// name stands for `decimal`.
pub fn named_counter(name: &str, ordinal: i32) -> (r: String)
    ensures
        r@ == named_text(name@, ordinal as int),
{
    match named_bullet(name) {
        Some(c) => {
            let mut out: String = String::new();
            out.push(c);
            assert(out@ =~= seq![c]);
            out
        },
        None => {
            let mut out: String = if chars::same(name, "decimal-leading-zero") {
                decimal_leading_zero(ordinal)
            } else if chars::same(name, "lower-alpha") || chars::same(name, "lower-latin") {
                alphabetic(ordinal, lower_latin().as_slice())
            } else if chars::same(name, "upper-alpha") || chars::same(name, "upper-latin") {
                alphabetic(ordinal, upper_latin().as_slice())
            } else if chars::same(name, "lower-greek") {
                alphabetic(ordinal, lower_greek().as_slice())
            } else if chars::same(name, "lower-roman") {
                roman(ordinal, false)
            } else if chars::same(name, "upper-roman") {
                roman(ordinal, true)
            } else {
                chars::decimal_string(ordinal)
            };
            out.push('.');
            out
        },
    }
}

/// The text of a marker without the space that separates it from the item's text, or
/// `None` for `list-style-type: none`.
pub open spec fn bare_marker(style: CounterStyle, ordinal: int) -> Option<Seq<char>> {
    match style {
        CounterStyle::Unmarked => None,
        CounterStyle::Name(name) => Some(named_text(name@, ordinal)),
        CounterStyle::Text(s) => Some(s@),
        CounterStyle::Symbols { ty, symbols } => Some(
            symbols_text(ty, symbol_texts(symbols@), ordinal),
        ),
    }
}

/// The string a list item shows as its marker, or `None` for `list-style-type: none`.
/// A marker inside the item has a trailing space; one outside is set off by its
/// position instead.
pub fn marker_text(style: &CounterStyle, ordinal: i32, trailing_space: bool) -> (r: Option<String>)
    ensures
        match (r, bare_marker(*style, ordinal as int)) {
            (Some(text), Some(bare)) => text@ == if trailing_space {
                bare.push(' ')
            } else {
                bare
            },
            (None, None) => true,
            _ => false,
        },
{
    let mut text: String = match style {
        CounterStyle::Unmarked => {
            return None;
        },
        CounterStyle::Name(name) => named_counter(name.as_str(), ordinal),
        CounterStyle::Text(s) => s.clone(),
        CounterStyle::Symbols { ty, symbols } => anonymous_symbols(
            *ty,
            symbols.as_slice(),
            ordinal,
        ),
    };
    if trailing_space {
        text.push(' ');
    }
    Some(text)
}

/// What a roman letter stands for.
pub open spec fn roman_letter(c: char) -> int {
    if c == 'i' || c == 'I' {
        1
    } else if c == 'v' || c == 'V' {
        5
    } else if c == 'x' || c == 'X' {
        10
    } else if c == 'l' || c == 'L' {
        50
    } else if c == 'c' || c == 'C' {
        100
    } else if c == 'd' || c == 'D' {
        500
    } else if c == 'm' || c == 'M' {
        1000
    } else {
        0
    }
}

/// How a roman numeral is read: the letters add up, but one before a greater one counts
/// against it.
pub open spec fn roman_value(s: Seq<char>) -> int
    decreases s.len(),
{
    if s.len() == 0 {
        0
    } else {
        let own = roman_letter(s[0]);
        (if s.len() > 1 && own < roman_letter(s[1]) {
            -own
        } else {
            own
        }) + roman_value(s.skip(1))
    }
}

/// What follows a numeral does not begin with a letter for more than `most`.
spec fn goes_on(rest: Seq<char>, most: int) -> bool {
    rest.len() > 0 ==> roman_letter(rest[0]) <= most
}

proof fn lemma_first_letter(c: char, rest: Seq<char>)
    ensures
        roman_value(seq![c] + rest) == (if rest.len() > 0 && roman_letter(c) < roman_letter(
            rest[0],
        ) {
            -roman_letter(c)
        } else {
            roman_letter(c)
        }) + roman_value(rest),
{
    let s = seq![c] + rest;
    assert(s.skip(1) =~= rest);
    if rest.len() > 0 {
        assert(s[1] == rest[0]);
    }
}

proof fn lemma_ones(n: nat, one: char, rest: Seq<char>)
    requires
        goes_on(rest, roman_letter(one)),
    ensures
        roman_value(Seq::new(n, |i: int| one) + rest) == n * roman_letter(one) + roman_value(rest),
        n > 0 ==> (Seq::new(n, |i: int| one) + rest)[0] == one,
    decreases n,
{
    let all = Seq::new(n, |i: int| one) + rest;
    if n == 0 {
        assert(all =~= rest);
    } else {
        let fewer = Seq::new((n - 1) as nat, |i: int| one) + rest;
        assert(all =~= seq![one] + fewer);
        lemma_ones((n - 1) as nat, one, rest);
        lemma_first_letter(one, fewer);
        if n == 1 {
            assert(fewer =~= rest);
        } else {
            assert(fewer[0] == one);
        }
        let v = roman_letter(one);
        assert(n * v == (n - 1) * v + v) by (nonlinear_arith);
    }
}

proof fn lemma_roman_place(d: int, one: char, five: char, ten: char, rest: Seq<char>)
    requires
        0 <= d <= 9,
        roman_letter(one) > 0,
        goes_on(rest, roman_letter(one)),
        d >= 4 ==> roman_letter(five) == 5 * roman_letter(one),
        d == 9 ==> roman_letter(ten) == 10 * roman_letter(one),
    ensures
        roman_value(roman_place(d, one, five, ten) + rest) == d * roman_letter(one) + roman_value(
            rest,
        ),
        d == 0 ==> roman_place(d, one, five, ten) + rest == rest,
        d > 0 ==> goes_on(roman_place(d, one, five, ten) + rest, 5 * roman_letter(one)) && (
        roman_place(d, one, five, ten) + rest).len() > 0,
{
    let all = roman_place(d, one, five, ten) + rest;
    let v = roman_letter(one);
    if d == 9 {
        assert(d * v == 9 * v);
        assert(all =~= seq![one] + (seq![ten] + rest));
        lemma_first_letter(ten, rest);
        lemma_first_letter(one, seq![ten] + rest);
        assert(all[0] == one);
    } else if d >= 5 {
        let ones = Seq::new((d - 5) as nat, |i: int| one) + rest;
        assert(all =~= seq![five] + ones);
        lemma_ones((d - 5) as nat, one, rest);
        if d == 5 {
            assert(ones =~= rest);
        }
        lemma_first_letter(five, ones);
        assert(all[0] == five);
        assert(d * v == (d - 5) * v + 5 * v) by (nonlinear_arith);
    } else if d == 4 {
        assert(d * v == 4 * v);
        assert(all =~= seq![one] + (seq![five] + rest));
        lemma_first_letter(five, rest);
        lemma_first_letter(one, seq![five] + rest);
        assert(all[0] == one);
    } else {
        lemma_ones(d as nat, one, rest);
        assert(all =~= Seq::new(d as nat, |i: int| one) + rest);
    }
}

proof fn lemma_roman(
    k: int,
    h: int,
    t: int,
    u: int,
    m: char,
    d: char,
    c: char,
    l: char,
    x: char,
    v: char,
    i: char,
)
    requires
        0 <= k <= 3,
        0 <= h <= 9,
        0 <= t <= 9,
        0 <= u <= 9,
        roman_letter(m) == 1000,
        roman_letter(d) == 500,
        roman_letter(c) == 100,
        roman_letter(l) == 50,
        roman_letter(x) == 10,
        roman_letter(v) == 5,
        roman_letter(i) == 1,
    ensures
        roman_value(
            roman_place(k, m, m, m) + roman_place(h, c, d, m) + roman_place(t, x, l, c)
                + roman_place(u, i, v, x),
        ) == 1000 * k + 100 * h + 10 * t + u,
{
    let none = Seq::<char>::empty();
    assert(roman_value(none) == 0);
    let ones = roman_place(u, i, v, x) + none;
    lemma_roman_place(u, i, v, x, none);
    let tens = roman_place(t, x, l, c) + ones;
    lemma_roman_place(t, x, l, c, ones);
    let hundreds = roman_place(h, c, d, m) + tens;
    lemma_roman_place(h, c, d, m, tens);
    lemma_roman_place(k, m, m, m, hundreds);
    assert(roman_place(k, m, m, m) + roman_place(h, c, d, m) + roman_place(t, x, l, c)
        + roman_place(u, i, v, x) =~= roman_place(k, m, m, m) + hundreds);
}

proof fn lemma_four_digits(n: int)
    requires
        1 <= n <= 3999,
    ensures
        0 <= n / 1000 <= 3,
        n == 1000 * (n / 1000) + 100 * ((n / 100) % 10) + 10 * ((n / 10) % 10) + n % 10,
{
    assert(n / 100 == (n / 10) / 10);
    assert(n / 1000 == (n / 100) / 10);
}

proof fn lemma_roman_letters()
    ensures
        roman_letter('M') == 1000 && roman_letter('m') == 1000,
        roman_letter('D') == 500 && roman_letter('d') == 500,
        roman_letter('C') == 100 && roman_letter('c') == 100,
        roman_letter('L') == 50 && roman_letter('l') == 50,
        roman_letter('X') == 10 && roman_letter('x') == 10,
        roman_letter('V') == 5 && roman_letter('v') == 5,
        roman_letter('I') == 1 && roman_letter('i') == 1,
{
}

/// A roman numeral reads as the number that it was written for.
#[verifier::rlimit(50)]
#[verifier::spinoff_prover]
pub proof fn roman_numerals_read_as_their_number(n: int, upper: bool)
    requires
        1 <= n <= 3999,
    ensures
        roman_value(roman_text(n, upper)) == n,
{
    let (k, h, t, u) = (n / 1000, (n / 100) % 10, (n / 10) % 10, n % 10);
    lemma_four_digits(n);
    lemma_roman_letters();
    if upper {
        lemma_roman(k, h, t, u, 'M', 'D', 'C', 'L', 'X', 'V', 'I');
    } else {
        lemma_roman(k, h, t, u, 'm', 'd', 'c', 'l', 'x', 'v', 'i');
    }
}

/// The number that the digits of a base stand for.
pub open spec fn positional_value(digits: Seq<int>, base: nat) -> int
    decreases digits.len(),
{
    if digits.len() == 0 {
        0
    } else {
        positional_value(digits.drop_last(), base) * base + digits.last()
    }
}

/// The digits of a number in a base stand for the number, each is one of the base, and the
/// first is not zero.
pub proof fn positional_digits_give_the_number_back(n: nat, base: nat)
    requires
        base >= 2,
    ensures
        positional_value(positional_digits(n, base), base) == n,
        forall|i: int|
            0 <= i < positional_digits(n, base).len() ==> 0 <= #[trigger] positional_digits(
                n,
                base,
            )[i] < base,
        n > 0 ==> positional_digits(n, base).len() > 0 && positional_digits(n, base)[0] > 0,
    decreases n,
{
    if n > 0 {
        vstd::arithmetic::div_mod::lemma_div_decreases(n as int, base as int);
        vstd::arithmetic::div_mod::lemma_fundamental_div_mod(n as int, base as int);
        positional_digits_give_the_number_back(n / base, base);
        let all = positional_digits(n, base);
        let first = positional_digits(n / base, base);
        assert(all.drop_last() =~= first);
        assert((n / base) * base == base * (n / base)) by (nonlinear_arith);
        assert forall|i: int| 0 <= i < all.len() implies 0 <= #[trigger] all[i] < base by {
            if i < first.len() {
                assert(all[i] == first[i]);
            }
        }
        if n / base > 0 {
            assert(all[0] == first[0]);
        } else {
            assert(base * (n / base) == 0) by (nonlinear_arith)
                requires
                    n / base == 0,
            ;
            assert(first.len() == 0);
            assert(all[0] == n % base);
        }
    }
}

/// Cyclic symbols come round: the first item has the first symbol, each item has the symbol
/// after that of the item before, and after the last symbol the first comes again. Fixed
/// symbols are used once, and symbolic ones are doubled, tripled and so on.
pub proof fn symbols_come_in_their_order(symbols: Seq<Seq<char>>, k: int, round: int)
    requires
        0 <= k < symbols.len(),
        0 <= round,
    ensures
        symbols_text(SymbolsType::Cyclic, symbols, 1 + k + round * symbols.len()) == symbols[k],
        symbols_text(SymbolsType::Fixed, symbols, 1 + k) == symbols[k],
        symbols_text(SymbolsType::Symbolic, symbols, 1 + k + round * symbols.len())
            == chars::repeated(symbols[k], (round + 1) as nat),
{
    let len = symbols.len() as int;
    let o = k + round * len;
    vstd::arithmetic::div_mod::lemma_fundamental_div_mod_converse(o, len, round, k);
    assert(round * len >= 0) by (nonlinear_arith)
        requires
            round >= 0,
            len > 0,
    ;
    assert(round * len == len * round) by (nonlinear_arith);
}

} // verus!
