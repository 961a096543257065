//! The start tag of serialized markup: where it ends, and the attributes it
//! carries.

use vstd::prelude::*;

use crate::chars;

verus! {

/// The quote character that an attribute value is open with after `s`, where one
/// is.
pub open spec fn open_quote(s: Seq<char>) -> Option<char>
    decreases s.len(),
{
    if s.len() == 0 {
        None
    } else {
        match open_quote(s.drop_last()) {
            Some(q) => if s.last() == q {
                None
            } else {
                Some(q)
            },
            None => if s.last() == '"' || s.last() == '\'' {
                Some(s.last())
            } else {
                None
            },
        }
    }
}

/// A `>` outside quotes stands at `i`.
pub open spec fn is_tag_close(s: Seq<char>, i: int) -> bool {
    0 <= i < s.len() && s[i] == '>' && open_quote(s.take(i)) is None
}

/// `i` is the first `>` of `s` outside quotes.
pub open spec fn is_first_tag_close(s: Seq<char>, i: int) -> bool {
    is_tag_close(s, i) && forall|j: int| 0 <= j < i ==> !is_tag_close(s, j)
}

/// The position just past the start tag that `s` begins with, where it is closed.
pub open spec fn tag_end(s: Seq<char>) -> Option<int> {
    if exists|i: int| is_first_tag_close(s, i) {
        Some((choose|i: int| is_first_tag_close(s, i)) + 1)
    } else {
        None
    }
}

proof fn lemma_tag_end(s: Seq<char>, i: int)
    requires
        is_first_tag_close(s, i),
    ensures
        tag_end(s) == Some(i + 1),
{
    let k = choose|k: int| is_first_tag_close(s, k);
    assert(is_first_tag_close(s, k));
    if k < i {
        assert(!is_tag_close(s, k));
    }
    if i < k {
        assert(!is_tag_close(s, i));
    }
}

/// The position just past the start tag's `>`. A `>` inside a quoted attribute
/// value does not end the tag.
pub fn start_tag_end(chars: &[char]) -> (r: Option<usize>)
    ensures
        match r {
            Some(end) => tag_end(chars@) == Some(end as int) && 0 < end <= chars@.len()
                && chars@[end - 1] == '>',
            None => tag_end(chars@) is None,
        },
{
    let mut quote: Option<char> = None;
    let mut i: usize = 0;
    assert(chars@.take(0) =~= Seq::<char>::empty());
    while i < chars.len()
        invariant
            i <= chars@.len(),
            quote == open_quote(chars@.take(i as int)),
            forall|j: int| 0 <= j < i ==> !is_tag_close(chars@, j),
        decreases chars.len() - i,
    {
        let c: char = chars[i];
        assert(chars@.take(i + 1).drop_last() =~= chars@.take(i as int));
        match quote {
            Some(q) => {
                if c == q {
                    quote = None;
                }
            },
            None => {
                if c == '"' || c == '\'' {
                    quote = Some(c);
                } else if c == '>' {
                    proof {
                        assert(is_tag_close(chars@, i as int));
                        lemma_tag_end(chars@, i as int);
                    }
                    return Some(i + 1);
                }
            },
        }
        i = i + 1;
    }
    assert forall|j: int| !is_first_tag_close(chars@, j) by {
        if 0 <= j < chars@.len() {
            assert(!is_tag_close(chars@, j));
        }
    }
    None
}

/// The whitespace between attributes: space, tab, line feed, form feed, carriage
/// return.
pub open spec fn is_gap(c: char) -> bool {
    c == ' ' || c == '\t' || c == '\n' || c == '\x0c' || c == '\r'
}

fn char_is_gap(c: char) -> (r: bool)
    ensures
        r == is_gap(c),
{
    c == ' ' || c == '\t' || c == '\n' || c == '\x0c' || c == '\r'
}

/// The characters that can stand in each part of a start tag.
#[derive(Clone, Copy, PartialEq, Eq, Structural)]
pub enum Part {
    /// `<` and the element's name.
    TagName,
    /// What separates two attributes.
    Separator,
    /// An attribute's name.
    Name,
    /// Whitespace.
    Gap,
    /// An attribute's value outside quotes.
    Bare,
    /// An attribute's value inside double quotes.
    Double,
    /// An attribute's value inside single quotes.
    Single,
}

/// Whether `c` continues the part.
pub open spec fn continues(part: Part, c: char) -> bool {
    match part {
        Part::TagName => !is_gap(c) && c != '>' && c != '/',
        Part::Separator => is_gap(c) || c == '/',
        Part::Name => !is_gap(c) && c != '=' && c != '>' && c != '/',
        Part::Gap => is_gap(c),
        Part::Bare => !is_gap(c) && c != '>',
        Part::Double => c != '"',
        Part::Single => c != '\'',
    }
}

fn char_continues(part: Part, c: char) -> (r: bool)
    ensures
        r == continues(part, c),
{
    match part {
        Part::TagName => !char_is_gap(c) && c != '>' && c != '/',
        Part::Separator => char_is_gap(c) || c == '/',
        Part::Name => !char_is_gap(c) && c != '=' && c != '>' && c != '/',
        Part::Gap => char_is_gap(c),
        Part::Bare => !char_is_gap(c) && c != '>',
        Part::Double => c != '"',
        Part::Single => c != '\'',
    }
}

/// The first position from `i` on whose character does not continue the part.
pub open spec fn past(s: Seq<char>, part: Part, i: int) -> int
    decreases s.len() - i,
{
    if 0 <= i < s.len() && continues(part, s[i]) {
        past(s, part, i + 1)
    } else {
        i
    }
}

/// Skipping a part stays inside the tag, and stops where the part does.
pub proof fn lemma_past(s: Seq<char>, part: Part, i: int)
    requires
        0 <= i <= s.len(),
    ensures
        i <= past(s, part, i) <= s.len(),
        past(s, part, i) < s.len() ==> !continues(part, s[past(s, part, i)]),
        i < s.len() && continues(part, s[i]) ==> past(s, part, i) > i,
    decreases s.len() - i,
{
    if i < s.len() && continues(part, s[i]) {
        lemma_past(s, part, i + 1);
    }
}

fn skip_part(chars: &[char], part: Part, from: usize, to: usize) -> (r: usize)
    requires
        from <= to <= chars@.len(),
    ensures
        r == past(chars@.take(to as int), part, from as int),
        from <= r <= to,
        r < to ==> !continues(part, chars@[r as int]),
        from < to && continues(part, chars@[from as int]) ==> r > from,
{
    let mut i: usize = from;
    while i < to && char_continues(part, chars[i])
        invariant
            from <= i <= to <= chars@.len(),
            from < to && continues(part, chars@[from as int]) && i == from || i > from || !(from
                < to && continues(part, chars@[from as int])),
            past(chars@.take(to as int), part, from as int) == past(
                chars@.take(to as int),
                part,
                i as int,
            ),
        decreases to - i,
    {
        i = i + 1;
    }
    i
}

/// An attribute of a start tag: the bounds of its name, and where its value
/// starts, if it has one.
#[derive(Clone, Copy)]
pub struct Attribute {
    pub name_start: usize,
    pub name_end: usize,
    pub value_start: Option<usize>,
}

/// An attribute's bounds as integers.
pub struct AttributeSpan {
    pub name_start: int,
    pub name_end: int,
    pub value_start: Option<int>,
}

impl View for Attribute {
    type V = AttributeSpan;

    open spec fn view(&self) -> AttributeSpan {
        AttributeSpan {
            name_start: self.name_start as int,
            name_end: self.name_end as int,
            value_start: match self.value_start {
                Some(v) => Some(v as int),
                None => None,
            },
        }
    }
}

/// Where the value of an attribute starts whose name ends at `i`, and where the
/// attribute ends.
pub open spec fn value_from(s: Seq<char>, i: int) -> (Option<int>, int) {
    let eq = past(s, Part::Gap, i);
    if eq >= s.len() || s[eq] != '=' {
        (None, eq)
    } else {
        let v = past(s, Part::Gap, eq + 1);
        if v >= s.len() {
            (None, s.len() as int)
        } else if s[v] == '"' || s[v] == '\'' {
            let end = past(
                s,
                if s[v] == '"' {
                    Part::Double
                } else {
                    Part::Single
                },
                v + 1,
            );
            (
                Some(v + 1),
                if end < s.len() {
                    end + 1
                } else {
                    s.len() as int
                },
            )
        } else {
            (Some(v), past(s, Part::Bare, v))
        }
    }
}

/// The attributes of the start tag `s` from position `i` on, in order.
pub open spec fn attributes_from(s: Seq<char>, i: int) -> Seq<AttributeSpan>
    decreases s.len() - i,
{
    if !(0 <= i < s.len()) {
        Seq::empty()
    } else {
        let start = past(s, Part::Separator, i);
        proof {
            lemma_past(s, Part::Separator, i);
        }
        if start >= s.len() || s[start] == '>' {
            Seq::empty()
        } else {
            let end = past(s, Part::Name, start);
            let (value, next) = value_from(s, end);
            proof {
                lemma_value_from(s, start);
            }
            seq![AttributeSpan { name_start: start, name_end: end, value_start: value }]
                + attributes_from(s, next)
        }
    }
}

/// An attribute takes up at least one character.
pub proof fn lemma_value_from(s: Seq<char>, start: int)
    requires
        0 <= start < s.len(),
        s[start] != '>',
        !continues(Part::Separator, s[start]),
    ensures
        start <= past(s, Part::Name, start) <= s.len(),
        start < value_from(s, past(s, Part::Name, start)).1 <= s.len(),
        match value_from(s, past(s, Part::Name, start)).0 {
            Some(v) => start < v <= s.len(),
            None => true,
        },
{
    let end = past(s, Part::Name, start);
    lemma_past(s, Part::Name, start);
    let eq = past(s, Part::Gap, end);
    lemma_past(s, Part::Gap, end);
    if eq < s.len() && s[eq] == '=' {
        let v = past(s, Part::Gap, eq + 1);
        lemma_past(s, Part::Gap, eq + 1);
        if v < s.len() {
            if s[v] == '"' || s[v] == '\'' {
                lemma_past(s, Part::Double, v + 1);
                lemma_past(s, Part::Single, v + 1);
            } else {
                lemma_past(s, Part::Bare, v);
            }
        }
    }
}

/// The attributes of the start tag `s`.
pub open spec fn attribute_spans(s: Seq<char>) -> Seq<AttributeSpan> {
    attributes_from(s, past(s, Part::TagName, 0))
}

/// The attributes of the start tag `chars[..to]`, `<` through `>`.
pub fn attributes(chars: &[char], to: usize) -> (r: Vec<Attribute>)
    requires
        to <= chars@.len(),
    ensures
        r@.map_values(|a: Attribute| a@) == attribute_spans(chars@.take(to as int)),
        forall|k: int|
            0 <= k < r@.len() ==> (#[trigger] r@[k]).name_start <= r@[k].name_end <= to && match r@[k].value_start {
                Some(v) => 0 < v <= to,
                None => true,
            },
{
    let ghost s = chars@.take(to as int);
    let ghost view = |a: Attribute| a@;
    let mut out: Vec<Attribute> = Vec::new();
    let mut i: usize = skip_part(chars, Part::TagName, 0, to);
    assert(out@.map_values(view) =~= Seq::<AttributeSpan>::empty());
    assert(out@.map_values(view) + attributes_from(s, i as int) =~= attribute_spans(s));
    while i < to
        invariant
            i <= to <= chars@.len(),
            s == chars@.take(to as int),
            view == (|a: Attribute| a@),
            out@.map_values(view) + attributes_from(s, i as int) == attribute_spans(s),
            forall|k: int|
                0 <= k < out@.len() ==> (#[trigger] out@[k]).name_start <= out@[k].name_end <= to && match out@[k].value_start {
                    Some(v) => 0 < v <= to,
                    None => true,
                },
        decreases to - i,
    {
        let start: usize = skip_part(chars, Part::Separator, i, to);
        if start >= to || chars[start] == '>' {
            assert(attributes_from(s, i as int) =~= Seq::<AttributeSpan>::empty());
            assert(out@.map_values(view) =~= attribute_spans(s));
            return out;
        }
        let end: usize = skip_part(chars, Part::Name, start, to);
        let eq: usize = skip_part(chars, Part::Gap, end, to);
        let mut value: Option<usize> = None;
        let mut next: usize = eq;
        if eq < to && chars[eq] == '=' {
            let v: usize = skip_part(chars, Part::Gap, eq + 1, to);
            if v >= to {
                next = to;
            } else if chars[v] == '"' || chars[v] == '\'' {
                let part: Part = if chars[v] == '"' {
                    Part::Double
                } else {
                    Part::Single
                };
                let close: usize = skip_part(chars, part, v + 1, to);
                value = Some(v + 1);
                next = if close < to {
                    close + 1
                } else {
                    to
                };
            } else {
                value = Some(v);
                next = skip_part(chars, Part::Bare, v, to);
            }
        }
        let attr = Attribute { name_start: start, name_end: end, value_start: value };
        proof {
            lemma_value_from(s, start as int);
            assert(value_from(s, end as int) == (attr@.value_start, next as int));
            assert(attributes_from(s, i as int) == seq![attr@] + attributes_from(s, next as int));
            assert(out@.push(attr).map_values(view) =~= out@.map_values(view) + seq![attr@]);
            assert(out@.map_values(view) + (seq![attr@] + attributes_from(s, next as int)) =~= (
            out@.map_values(view) + seq![attr@]) + attributes_from(s, next as int));
        }
        out.push(attr);
        i = next;
    }
    assert(out@.map_values(view) =~= attribute_spans(s));
    out
}

/// `c` with `A` to `Z` in lower case.
pub open spec fn lower(c: char) -> char {
    if 'A' <= c && c <= 'Z' {
        (c as u32 + 32) as char
    } else {
        c
    }
}

/// `s` with `A` to `Z` in lower case.
pub open spec fn lowered(s: Seq<char>) -> Seq<char> {
    s.map_values(|c: char| lower(c))
}

fn char_lower(c: char) -> (r: char)
    ensures
        r == lower(c),
{
    if 'A' <= c && c <= 'Z' {
        (c as u8 + 32) as char
    } else {
        c
    }
}

/// Whether `chars[from..to]` is `name`, letter case of `A` to `Z` aside.
fn eq_ignore_case(chars: &[char], from: usize, to: usize, name: &str) -> (r: bool)
    requires
        from <= to <= chars@.len(),
    ensures
        r == (lowered(chars@.subrange(from as int, to as int)) == lowered(name@)),
{
    let other: Vec<char> = chars::to_chars(name);
    let ghost a = lowered(chars@.subrange(from as int, to as int));
    let ghost b = lowered(name@);
    if other.len() != to - from {
        assert(a.len() != b.len());
        return false;
    }
    let mut i: usize = 0;
    while i < other.len()
        invariant
            i <= other@.len() == to - from,
            from <= to <= chars@.len(),
            other@ == name@,
            a == lowered(chars@.subrange(from as int, to as int)),
            b == lowered(name@),
            forall|j: int| 0 <= j < i ==> a[j] == b[j],
        decreases other.len() - i,
    {
        if char_lower(chars[from + i]) != char_lower(other[i]) {
            assert(a[i as int] != b[i as int]);
            return false;
        }
        assert(a[i as int] == b[i as int]);
        i = i + 1;
    }
    assert(a =~= b);
    true
}

/// The attribute at `a` of the start tag `s` is named `name`.
pub open spec fn is_named(s: Seq<char>, a: AttributeSpan, name: Seq<char>) -> bool {
    lowered(s.subrange(a.name_start, a.name_end)) == lowered(name)
}

/// The start tag `s` carries an attribute named `name`.
pub open spec fn carries(s: Seq<char>, name: Seq<char>) -> bool {
    exists|k: int|
        0 <= k < attribute_spans(s).len() && is_named(s, #[trigger] attribute_spans(s)[k], name)
}

/// Whether the start tag `chars[..to]` carries an attribute named `name`. A match
/// inside a value does not count.
pub fn has_attr(chars: &[char], to: usize, name: &str) -> (r: bool)
    requires
        to <= chars@.len(),
    ensures
        r == carries(chars@.take(to as int), name@),
{
    let ghost s = chars@.take(to as int);
    let attrs: Vec<Attribute> = attributes(chars, to);
    let ghost spans = attribute_spans(s);
    let mut i: usize = 0;
    while i < attrs.len()
        invariant
            i <= attrs@.len(),
            to <= chars@.len(),
            s == chars@.take(to as int),
            spans == attribute_spans(s),
            attrs@.map_values(|a: Attribute| a@) == spans,
            forall|k: int|
                0 <= k < attrs@.len() ==> (#[trigger] attrs@[k]).name_start <= attrs@[k].name_end
                    <= to,
            forall|k: int| 0 <= k < i ==> !is_named(s, #[trigger] spans[k], name@),
        decreases attrs.len() - i,
    {
        let a: Attribute = attrs[i];
        assert(spans[i as int] == a@);
        assert(s.subrange(a.name_start as int, a.name_end as int) =~= chars@.subrange(
            a.name_start as int,
            a.name_end as int,
        ));
        if eq_ignore_case(chars, a.name_start, a.name_end, name) {
            assert(is_named(s, spans[i as int], name@));
            return true;
        }
        i = i + 1;
    }
    false
}

/// `k` is the first attribute named `name` that has a value.
pub open spec fn is_first_valued(s: Seq<char>, name: Seq<char>, k: int) -> bool {
    let spans = attribute_spans(s);
    &&& 0 <= k < spans.len()
    &&& is_named(s, spans[k], name)
    &&& spans[k].value_start is Some
    &&& forall|j: int|
        0 <= j < k ==> !(is_named(s, #[trigger] spans[j], name) && spans[j].value_start is Some)
}

/// Where the value of the attribute `name` starts, in a start tag that gives it
/// one.
pub open spec fn value_position(s: Seq<char>, name: Seq<char>) -> Option<int> {
    if exists|k: int| is_first_valued(s, name, k) {
        attribute_spans(s)[choose|k: int| is_first_valued(s, name, k)].value_start
    } else {
        None
    }
}

proof fn lemma_first_valued(s: Seq<char>, name: Seq<char>, a: int)
    requires
        is_first_valued(s, name, a),
    ensures
        value_position(s, name) == attribute_spans(s)[a].value_start,
{
    let b = choose|k: int| is_first_valued(s, name, k);
    let spans = attribute_spans(s);
    assert(is_first_valued(s, name, b));
    if a < b {
        assert(is_named(s, spans[a], name));
    }
    if b < a {
        assert(is_named(s, spans[b], name));
    }
}

/// The position of the first character of the `style` attribute's value in the
/// start tag `chars[..to]`.
pub fn style_value_start(chars: &[char], to: usize) -> (r: Option<usize>)
    requires
        to <= chars@.len(),
    ensures
        match r {
            Some(v) => value_position(chars@.take(to as int), "style"@) == Some(v as int) && v
                <= to,
            None => value_position(chars@.take(to as int), "style"@) is None,
        },
{
    let ghost s = chars@.take(to as int);
    let attrs: Vec<Attribute> = attributes(chars, to);
    let ghost spans = attribute_spans(s);
    let mut i: usize = 0;
    while i < attrs.len()
        invariant
            i <= attrs@.len(),
            to <= chars@.len(),
            s == chars@.take(to as int),
            spans == attribute_spans(s),
            attrs@.map_values(|a: Attribute| a@) == spans,
            forall|k: int|
                0 <= k < attrs@.len() ==> (#[trigger] attrs@[k]).name_start <= attrs@[k].name_end
                    <= to && match attrs@[k].value_start {
                    Some(v) => 0 < v <= to,
                    None => true,
                },
            forall|k: int|
                0 <= k < i ==> !(is_named(s, #[trigger] spans[k], "style"@)
                    && spans[k].value_start is Some),
        decreases attrs.len() - i,
    {
        let a: Attribute = attrs[i];
        assert(spans[i as int] == a@);
        assert(s.subrange(a.name_start as int, a.name_end as int) =~= chars@.subrange(
            a.name_start as int,
            a.name_end as int,
        ));
        if eq_ignore_case(chars, a.name_start, a.name_end, "style") && a.value_start.is_some() {
            proof {
                assert(is_first_valued(s, "style"@, i as int));
                lemma_first_valued(s, "style"@, i as int);
            }
            return a.value_start;
        }
        i = i + 1;
    }
    assert forall|k: int| !is_first_valued(s, "style"@, k) by {
        if 0 <= k < spans.len() {
            assert(!(is_named(s, spans[k], "style"@) && spans[k].value_start is Some));
        }
    }
    None
}

} // verus!
