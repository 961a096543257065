//! Inline `<svg>` markup: the text an inline image is rasterized from, and the
//! key its rasterization is stored under.
//!
//! A rasterizer sees one `<svg>` on its own, without the cascade around it. So
//! the element's `color` is written into the root's `style` attribute, and every
//! `var()` is replaced by what the custom property resolved to.

use vstd::prelude::*;

use crate::chars;
use crate::dom::{Attribute, DomTree, NodeKind};
use crate::tag;

verus! {

/// The nesting level after `s`: opening parentheses minus closing ones.
pub open spec fn balance(s: Seq<char>) -> int
    decreases s.len(),
{
    if s.len() == 0 {
        0
    } else if s.last() == '(' {
        balance(s.drop_last()) + 1
    } else if s.last() == ')' {
        balance(s.drop_last()) - 1
    } else {
        balance(s.drop_last())
    }
}

/// The character at `i` closes the parenthesis that was opened just before `s`:
/// the nesting falls below that of the start of `s` there, and not before.
pub open spec fn closes(s: Seq<char>, i: int) -> bool {
    &&& 0 <= i < s.len()
    &&& balance(s.take(i + 1)) < 0
    &&& forall|j: int| 0 <= j <= i ==> #[trigger] balance(s.take(j)) >= 0
}

/// The position of the `)` that closes the `(` just before `s`, if there is one.
pub open spec fn closing_paren(s: Seq<char>) -> Option<int> {
    if exists|i: int| closes(s, i) {
        Some(choose|i: int| closes(s, i))
    } else {
        None
    }
}

proof fn lemma_closing_paren(s: Seq<char>, i: int)
    requires
        closes(s, i),
    ensures
        closing_paren(s) == Some(i),
{
    let k = choose|k: int| closes(s, k);
    assert(closes(s, k));
    if k < i {
        assert(balance(s.take(k + 1)) >= 0);
    }
    if i < k {
        assert(balance(s.take(i + 1)) >= 0);
    }
}

/// The position of the `)` that closes the `(` just before `chars[from]`.
pub fn matching_paren(chars: &[char], from: usize, to: usize) -> (r: Option<usize>)
    requires
        from <= to <= chars@.len(),
    ensures
        match r {
            Some(i) => from <= i < to && closing_paren(chars@.subrange(from as int, to as int))
                == Some(i - from) && closes(chars@.subrange(from as int, to as int), i - from),
            None => closing_paren(chars@.subrange(from as int, to as int)) is None,
        },
{
    let ghost s = chars@.subrange(from as int, to as int);
    let mut depth: usize = 0;
    let mut i: usize = from;
    assert(s.take(0) =~= Seq::<char>::empty());
    while i < to
        invariant
            from <= i <= to <= chars@.len(),
            s == chars@.subrange(from as int, to as int),
            depth <= i - from,
            depth == balance(s.take(i - from)),
            forall|j: int| 0 <= j <= i - from ==> #[trigger] balance(s.take(j)) >= 0,
        decreases to - i,
    {
        let c: char = chars[i];
        assert(s.take(i - from + 1).drop_last() =~= s.take(i - from));
        assert(s.take(i - from + 1).last() == c);
        if c == '(' {
            depth = depth + 1;
        } else if c == ')' {
            if depth == 0 {
                proof {
                    assert(closes(s, i - from));
                    lemma_closing_paren(s, i - from);
                }
                return Some(i);
            }
            depth = depth - 1;
        }
        i = i + 1;
    }
    assert forall|j: int| !closes(s, j) by {
        if 0 <= j < s.len() {
            assert(balance(s.take(j + 1)) >= 0);
        }
    }
    None
}

/// The nesting level after `s` where a `)` that closes nothing is ignored.
pub open spec fn nesting(s: Seq<char>) -> nat
    decreases s.len(),
{
    if s.len() == 0 {
        0
    } else if s.last() == '(' {
        nesting(s.drop_last()) + 1
    } else if s.last() == ')' && nesting(s.drop_last()) > 0 {
        (nesting(s.drop_last()) - 1) as nat
    } else {
        nesting(s.drop_last())
    }
}

/// `i` is the first comma of `s` that stands in no parentheses.
pub open spec fn is_top_level_comma(s: Seq<char>, i: int) -> bool {
    &&& 0 <= i < s.len()
    &&& s[i] == ','
    &&& nesting(s.take(i)) == 0
    &&& forall|j: int| 0 <= j < i && #[trigger] s[j] == ',' ==> nesting(s.take(j)) != 0
}

/// The first comma of `s` that stands in no parentheses, if there is one.
pub open spec fn top_level_comma(s: Seq<char>) -> Option<int> {
    if exists|i: int| is_top_level_comma(s, i) {
        Some(choose|i: int| is_top_level_comma(s, i))
    } else {
        None
    }
}

proof fn lemma_top_level_comma(s: Seq<char>, i: int)
    requires
        is_top_level_comma(s, i),
    ensures
        top_level_comma(s) == Some(i),
{
    let k = choose|k: int| is_top_level_comma(s, k);
    assert(is_top_level_comma(s, k));
    if k < i {
        assert(s[k] == ',');
    }
    if i < k {
        assert(s[i] == ',');
    }
}

/// The position of the first comma of `chars[from..to]` that stands in no
/// parentheses: what precedes it is the name of a `var()`, what follows it the
/// fallback.
pub fn split_first_top_level_comma(chars: &[char], from: usize, to: usize) -> (r: Option<usize>)
    requires
        from <= to <= chars@.len(),
    ensures
        match r {
            Some(i) => from <= i < to && top_level_comma(chars@.subrange(from as int, to as int))
                == Some(i - from),
            None => top_level_comma(chars@.subrange(from as int, to as int)) is None,
        },
{
    let ghost s = chars@.subrange(from as int, to as int);
    let mut depth: usize = 0;
    let mut i: usize = from;
    assert(s.take(0) =~= Seq::<char>::empty());
    while i < to
        invariant
            from <= i <= to <= chars@.len(),
            s == chars@.subrange(from as int, to as int),
            depth <= i - from,
            depth == nesting(s.take(i - from)),
            forall|j: int|
                0 <= j < i - from && #[trigger] s[j] == ',' ==> nesting(s.take(j)) != 0,
        decreases to - i,
    {
        let c: char = chars[i];
        assert(s.take(i - from + 1).drop_last() =~= s.take(i - from));
        assert(s.take(i - from + 1).last() == c);
        assert(s[i - from] == c);
        if c == ',' && depth == 0 {
            proof {
                assert(is_top_level_comma(s, i - from));
                lemma_top_level_comma(s, i - from);
            }
            return Some(i);
        }
        if c == '(' {
            depth = depth + 1;
        } else if c == ')' && depth > 0 {
            depth = depth - 1;
        }
        i = i + 1;
    }
    assert forall|j: int| !is_top_level_comma(s, j) by {
        if 0 <= j < s.len() && s[j] == ',' {
            assert(nesting(s.take(j)) != 0);
        }
    }
    None
}

/// The opening of a custom-property reference.
pub open spec fn var_open() -> Seq<char> {
    seq!['v', 'a', 'r', '(']
}

fn var_open_chars() -> (r: Vec<char>)
    ensures
        r@ == var_open(),
{
    vec!['v', 'a', 'r', '(']
}

/// Custom properties with the text each resolved to.
pub open spec fn bindings(vars: Seq<(String, String)>) -> Seq<(Seq<char>, Seq<char>)> {
    vars.map_values(|v: (String, String)| (v.0@, v.1@))
}

/// The value of the first binding of `name`, if there is one.
pub open spec fn bound_value(vars: Seq<(Seq<char>, Seq<char>)>, name: Seq<char>) -> Option<
    Seq<char>,
>
    decreases vars.len(),
{
    if vars.len() == 0 {
        None
    } else if vars[0].0 == name {
        Some(vars[0].1)
    } else {
        bound_value(vars.skip(1), name)
    }
}

/// What a `var()` with the argument list `inner` and the text `whole` becomes: the
/// value of the property it names, else its fallback (itself substituted), else
/// itself.
pub open spec fn replacement(
    inner: Seq<char>,
    whole: Seq<char>,
    vars: Seq<(Seq<char>, Seq<char>)>,
) -> Seq<char>
    decreases inner.len(), 0nat,
{
    match top_level_comma(inner) {
        None => match bound_value(vars, chars::trim(inner)) {
            Some(value) => value,
            None => whole,
        },
        Some(comma) => match bound_value(vars, chars::trim(inner.take(comma))) {
            Some(value) => value,
            None => {
                proof {
                    chars::lemma_trim_len(inner.skip(comma + 1));
                }
                substituted(chars::trim(inner.skip(comma + 1)), vars)
            },
        },
    }
}

/// `s` with every `var()` replaced. A `var(` that nothing closes stays.
pub open spec fn substituted(s: Seq<char>, vars: Seq<(Seq<char>, Seq<char>)>) -> Seq<char>
    decreases s.len(), 1nat,
{
    match chars::first_at(s, var_open(), 0) {
        None => s,
        Some(pos) => {
            proof {
                chars::lemma_first_at_holds(s, var_open(), 0);
            }
            let after = s.skip(pos + 4);
            match closing_paren(after) {
                None => s.take(pos + 4) + substituted(after, vars),
                Some(close) => s.take(pos) + replacement(
                    after.take(close),
                    s.subrange(pos, pos + 4 + close + 1),
                    vars,
                ) + substituted(after.skip(close + 1), vars),
            }
        },
    }
}

/// The value of the first binding of `chars[from..to]`.
fn lookup<'a>(chars: &[char], from: usize, to: usize, vars: &'a [(String, String)]) -> (r: Option<
    &'a str,
>)
    requires
        from <= to <= chars@.len(),
    ensures
        match r {
            Some(value) => bound_value(
                bindings(vars@),
                chars@.subrange(from as int, to as int),
            ) == Some(value@),
            None => bound_value(
                bindings(vars@),
                chars@.subrange(from as int, to as int),
            ) is None,
        },
{
    let name: String = chars::slice_to_string(chars, from, to);
    let ghost all = bindings(vars@);
    let mut i: usize = 0;
    assert(all.skip(0) =~= all);
    while i < vars.len()
        invariant
            i <= vars@.len(),
            all == bindings(vars@),
            name@ == chars@.subrange(from as int, to as int),
            bound_value(all, name@) == bound_value(all.skip(i as int), name@),
        decreases vars.len() - i,
    {
        assert(all.skip(i as int)[0] == all[i as int]);
        assert(all.skip(i as int).skip(1) =~= all.skip(i + 1));
        if vars[i].0 == name {
            return Some(vars[i].1.as_str());
        }
        i = i + 1;
    }
    None
}

/// How the substitution of `s` goes on past a `var(` at `pos` that nothing closes.
proof fn lemma_substituted_open(s: Seq<char>, vars: Seq<(Seq<char>, Seq<char>)>, pos: int)
    requires
        chars::is_first_at(s, var_open(), 0, pos),
        closing_paren(s.skip(pos + 4)) is None,
    ensures
        substituted(s, vars) == s.take(pos + 4) + substituted(s.skip(pos + 4), vars),
{
    chars::lemma_first_at(s, var_open(), 0, pos);
}

/// How the substitution of `s` goes on past a `var()` at `pos` whose argument list
/// is `close` characters long.
proof fn lemma_substituted_closed(
    s: Seq<char>,
    vars: Seq<(Seq<char>, Seq<char>)>,
    pos: int,
    close: int,
)
    requires
        chars::is_first_at(s, var_open(), 0, pos),
        closing_paren(s.skip(pos + 4)) == Some(close),
        0 <= close < s.len() - pos - 4,
    ensures
        substituted(s, vars) == s.take(pos) + replacement(
            s.subrange(pos + 4, pos + 4 + close),
            s.subrange(pos, pos + 4 + close + 1),
            vars,
        ) + substituted(s.skip(pos + 4 + close + 1), vars),
{
    chars::lemma_first_at(s, var_open(), 0, pos);
    assert(s.skip(pos + 4).take(close) =~= s.subrange(pos + 4, pos + 4 + close));
    assert(s.skip(pos + 4).skip(close + 1) =~= s.skip(pos + 4 + close + 1));
}

/// Appends `chars[from..to]` to `out` with every `var()` replaced.
fn push_substituted(
    out: &mut String,
    chars: &[char],
    from: usize,
    to: usize,
    vars: &[(String, String)],
)
    requires
        from <= to <= chars@.len(),
    ensures
        final(out)@ == old(out)@ + substituted(
            chars@.subrange(from as int, to as int),
            bindings(vars@),
        ),
    decreases to - from,
{
    let pat: Vec<char> = var_open_chars();
    let ghost all = bindings(vars@);
    let ghost whole = substituted(chars@.subrange(from as int, to as int), all);
    let mut rest: usize = from;
    loop
        invariant
            from <= rest <= to <= chars@.len(),
            pat@ == var_open(),
            all == bindings(vars@),
            whole == substituted(chars@.subrange(from as int, to as int), all),
            out@ + substituted(chars@.subrange(rest as int, to as int), all) == old(out)@ + whole,
        decreases to - rest,
    {
        let ghost s = chars@.subrange(rest as int, to as int);
        let ghost before = out@;
        let found: Option<usize> = chars::find(chars, pat.as_slice(), rest, to);
        match found {
            None => {
                chars::push_slice(out, chars, rest, to);
                return;
            },
            Some(at) => {
                let ghost pos = at - rest;
                let inner: usize = at + 4;
                assert(s.skip(pos + 4) =~= chars@.subrange(inner as int, to as int));
                chars::push_slice(out, chars, rest, at);
                assert(chars@.subrange(rest as int, at as int) =~= s.take(pos));
                match matching_paren(chars, inner, to) {
                    None => {
                        chars::push_slice(out, chars, at, inner);
                        proof {
                            lemma_substituted_open(s, all, pos);
                            assert(out@ =~= before + s.take(pos + 4));
                            lemma_concat(before, s.take(pos + 4), substituted(s.skip(pos + 4), all));
                        }
                        rest = inner;
                    },
                    Some(close) => {
                        push_replacement(out, chars, at, close, vars);
                        proof {
                            lemma_substituted_closed(s, all, pos, close - inner);
                            assert(s.subrange(pos + 4, pos + 4 + (close - inner))
                                =~= chars@.subrange(inner as int, close as int));
                            assert(s.subrange(pos, pos + 4 + (close - inner) + 1)
                                =~= chars@.subrange(at as int, close + 1));
                            assert(s.skip(pos + 4 + (close - inner) + 1) =~= chars@.subrange(
                                close + 1,
                                to as int,
                            ));
                            let repl = replacement(
                                chars@.subrange(inner as int, close as int),
                                chars@.subrange(at as int, close + 1),
                                all,
                            );
                            let tail = substituted(chars@.subrange(close + 1, to as int), all);
                            lemma_concat(before, s.take(pos), repl);
                            lemma_concat(before, s.take(pos) + repl, tail);
                        }
                        rest = close + 1;
                    },
                }
            },
        }
    }
}

proof fn lemma_concat(a: Seq<char>, b: Seq<char>, c: Seq<char>)
    ensures
        (a + b) + c == a + (b + c),
{
    assert((a + b) + c =~= a + (b + c));
}

/// Appends what the `var()` at `chars[at..=close]` becomes.
fn push_replacement(
    out: &mut String,
    chars: &[char],
    at: usize,
    close: usize,
    vars: &[(String, String)],
)
    requires
        at + 4 <= close < chars@.len(),
    ensures
        final(out)@ == old(out)@ + replacement(
            chars@.subrange(at + 4, close as int),
            chars@.subrange(at as int, close + 1),
            bindings(vars@),
        ),
    decreases close - at,
{
    let n: usize = chars.len();
    let inner: usize = at + 4;
    let ghost list = chars@.subrange(inner as int, close as int);
    let comma: Option<usize> = split_first_top_level_comma(chars, inner, close);
    let name_end: usize = match comma {
        Some(i) => i,
        None => close,
    };
    let (a, b) = chars::trim_range(chars, inner, name_end);
    assert(comma is Some ==> chars@.subrange(inner as int, name_end as int) =~= list.take(
        name_end - inner,
    ));
    match lookup(chars, a, b, vars) {
        Some(value) => {
            out.append(value);
        },
        None => match comma {
            Some(i) => {
                let (x, y) = chars::trim_range(chars, i + 1, close);
                assert(chars@.subrange(i + 1, close as int) =~= list.skip(i - inner + 1));
                push_substituted(out, chars, x, y, vars);
            },
            None => {
                chars::push_slice(out, chars, at, close + 1);
            },
        },
    }
}

/// `input` with every `var(--name)` and `var(--name, fallback)` replaced by the
/// value that `vars` gives the property, or by the fallback where it gives none.
pub fn substitute_vars(input: &str, vars: &[(String, String)]) -> (r: String)
    ensures
        r@ == substituted(input@, bindings(vars@)),
{
    let chars: Vec<char> = chars::to_chars(input);
    let mut out: String = String::new();
    let n: usize = chars.len();
    push_substituted(&mut out, chars.as_slice(), 0, n, vars);
    assert(chars@.subrange(0, n as int) =~= input@);
    assert(out@ =~= substituted(input@, bindings(vars@)));
    out
}

/// Markup that references no custom property is left as it is.
pub proof fn substitution_without_var_is_identity(
    s: Seq<char>,
    vars: Seq<(Seq<char>, Seq<char>)>,
)
    requires
        forall|i: int| !chars::occurs_at(s, var_open(), i),
    ensures
        substituted(s, vars) == s,
{
    chars::lemma_first_at_holds(s, var_open(), 0);
}

/// A custom property's name ends at a comma, a closing parenthesis or whitespace.
pub open spec fn ends_name(c: char) -> bool {
    c == ',' || c == ')' || chars::is_space(c)
}

/// How many characters of `s` precede the first one that ends a name.
pub open spec fn name_len(s: Seq<char>) -> nat
    decreases s.len(),
{
    if s.len() == 0 || ends_name(s[0]) {
        0
    } else {
        1 + name_len(s.skip(1))
    }
}

/// The custom property that a `var()` with `after` behind its `(` names: `--` and
/// at least one character. `None` where it names none.
pub open spec fn named_var(after: Seq<char>) -> Option<Seq<char>> {
    let arg = chars::trim_start(after);
    if chars::occurs_at(arg, seq!['-', '-'], 0) && name_len(arg.skip(2)) > 0 {
        Some(arg.take(2 + name_len(arg.skip(2)) as int))
    } else {
        None
    }
}

/// The custom property that a reference at position `i` of `s` names, if there is
/// such a reference.
pub open spec fn var_name_at(s: Seq<char>, i: int) -> Option<Seq<char>> {
    if chars::occurs_at(s, var_open(), i) {
        named_var(s.skip(i + 4))
    } else {
        None
    }
}

/// The names referenced at the first `n` positions of `s`, each once, in the order
/// in which they first appear.
pub open spec fn var_names(s: Seq<char>, n: nat) -> Seq<Seq<char>>
    decreases n,
{
    if n == 0 {
        Seq::empty()
    } else {
        let names = var_names(s, (n - 1) as nat);
        match var_name_at(s, n - 1) {
            Some(name) => if names.contains(name) {
                names
            } else {
                names.push(name)
            },
            None => names,
        }
    }
}

/// The texts of a list of strings.
pub open spec fn texts(v: Seq<String>) -> Seq<Seq<char>> {
    v.map_values(|s: String| s@)
}

/// Whether one of `names` is `name`.
pub fn contains_text(names: &[String], name: &String) -> (r: bool)
    ensures
        r == texts(names@).contains(name@),
{
    let mut i: usize = 0;
    while i < names.len()
        invariant
            i <= names@.len(),
            forall|j: int| 0 <= j < i ==> #[trigger] texts(names@)[j] != name@,
        decreases names.len() - i,
    {
        if names[i] == *name {
            assert(texts(names@)[i as int] == name@);
            return true;
        }
        assert(texts(names@)[i as int] != name@);
        i = i + 1;
    }
    false
}

/// The custom property that a `var()` with `chars[at..]` behind its `(` names.
fn named_var_at(chars: &[char], at: usize) -> (r: Option<String>)
    requires
        at <= chars@.len(),
    ensures
        match r {
            Some(name) => named_var(chars@.skip(at as int)) == Some(name@),
            None => named_var(chars@.skip(at as int)) is None,
        },
{
    let n: usize = chars.len();
    let dashes: [char; 2] = ['-', '-'];
    assert(dashes@ =~= seq!['-', '-']);
    assert(chars@.skip(at as int) =~= chars@.subrange(at as int, n as int));
    let start: usize = chars::trim_start_at(chars, at, n);
    let ghost arg = chars@.subrange(start as int, n as int);
    if !chars::matches_at(chars, dashes.as_slice(), start, n) {
        return None;
    }
    let first: usize = start + 2;
    let mut end: usize = first;
    assert(arg.skip(2) =~= chars@.subrange(first as int, n as int));
    while end < n && !(chars[end] == ',' || chars[end] == ')' || chars::char_is_space(chars[end]))
        invariant
            first <= end <= n == chars@.len(),
            name_len(chars@.subrange(first as int, n as int)) == (end - first) + name_len(
                chars@.subrange(end as int, n as int),
            ),
        decreases n - end,
    {
        assert(chars@.subrange(end as int, n as int).skip(1) =~= chars@.subrange(
            end + 1,
            n as int,
        ));
        end = end + 1;
    }
    if end == first {
        None
    } else {
        assert(arg.take(2 + (end - first)) =~= chars@.subrange(start as int, end as int));
        Some(chars::slice_to_string(chars, start, end))
    }
}

/// The distinct custom properties (each with its `--`, in the order in which they
/// first appear) that a `var()` anywhere in `markup` references.
pub fn referenced_var_names(markup: &str) -> (r: Vec<String>)
    ensures
        texts(r@) == var_names(markup@, markup@.len()),
{
    let chars: Vec<char> = chars::to_chars(markup);
    let pat: Vec<char> = var_open_chars();
    let n: usize = chars.len();
    let mut names: Vec<String> = Vec::new();
    let mut i: usize = 0;
    assert(texts(names@) =~= Seq::<Seq<char>>::empty());
    while i < n
        invariant
            i <= n == chars@.len(),
            chars@ == markup@,
            pat@ == var_open(),
            texts(names@) == var_names(markup@, i as nat),
        decreases n - i,
    {
        assert(markup@.subrange(0, n as int) =~= markup@);
        if chars::matches_at(chars.as_slice(), pat.as_slice(), i, n) {
            assert(chars::occurs_at(chars@.subrange(0, n as int), var_open(), i - 0));
            if let Some(name) = named_var_at(chars.as_slice(), i + 4) {
                if !contains_text(names.as_slice(), &name) {
                    let ghost before = names@;
                    names.push(name);
                    assert(texts(names@) =~= texts(before).push(name@));
                }
            }
        } else {
            assert(!chars::occurs_at(chars@.subrange(0, n as int), var_open(), i - 0));
        }
        i = i + 1;
    }
    names
}

/// The referenced names are exactly those that some `var()` of the markup names,
/// and none is listed twice.
pub proof fn referenced_names_are_distinct_and_complete(s: Seq<char>, n: nat)
    ensures
        var_names(s, n).no_duplicates(),
        forall|name: Seq<char>|
            var_names(s, n).contains(name) <==> exists|i: int|
                0 <= i < n && #[trigger] var_name_at(s, i) == Some(name),
    decreases n,
{
    if n > 0 {
        let m = (n - 1) as nat;
        referenced_names_are_distinct_and_complete(s, m);
        let before = var_names(s, m);
        let names = var_names(s, n);
        assert forall|name: Seq<char>| names.contains(name) implies exists|i: int|
            0 <= i < n && #[trigger] var_name_at(s, i) == Some(name) by {
            if before.contains(name) {
                let i = choose|i: int| 0 <= i < m && #[trigger] var_name_at(s, i) == Some(name);
                assert(var_name_at(s, i) == Some(name));
            } else {
                assert(var_name_at(s, m as int) == Some(name));
            }
        }
        assert forall|name: Seq<char>|
            (exists|i: int| 0 <= i < n && #[trigger] var_name_at(s, i) == Some(name)) implies names
            .contains(name) by {
            let i = choose|i: int| 0 <= i < n && #[trigger] var_name_at(s, i) == Some(name);
            if i < m {
                assert(before.contains(name));
                let k = choose|k: int| 0 <= k < before.len() && before[k] == name;
                assert(names[k] == name);
            } else if before.contains(name) {
                let k = choose|k: int| 0 <= k < before.len() && before[k] == name;
                assert(names[k] == name);
            } else {
                assert(names[before.len() as int] == name);
            }
        }
    }
}

/// A custom property of an element's computed style: its name without the `--`,
/// and its value, `None` where the cascade removed it.
pub struct CustomProperty {
    pub name: String,
    pub value: Option<String>,
}

/// The value of the first property of `custom` named `bare`, where the cascade
/// left it one.
pub open spec fn custom_value(custom: Seq<CustomProperty>, bare: Seq<char>) -> Option<Seq<char>>
    decreases custom.len(),
{
    if custom.len() == 0 {
        None
    } else if custom[0].name@ == bare {
        match custom[0].value {
            Some(value) => Some(value@),
            None => None,
        }
    } else {
        custom_value(custom.skip(1), bare)
    }
}

/// The `names` (each with its `--`) that `custom` gives a value, with that value,
/// in order.
pub open spec fn resolved_vars(names: Seq<Seq<char>>, custom: Seq<CustomProperty>) -> Seq<
    (Seq<char>, Seq<char>),
>
    decreases names.len(),
{
    if names.len() == 0 {
        Seq::empty()
    } else {
        let head = resolved_vars(names.drop_last(), custom);
        match custom_value(custom, names.last().skip(2)) {
            Some(value) => head.push((names.last(), value)),
            None => head,
        }
    }
}

fn custom_lookup<'a>(custom: &'a [CustomProperty], bare: &String) -> (r: Option<&'a String>)
    ensures
        match r {
            Some(value) => custom_value(custom@, bare@) == Some(value@),
            None => custom_value(custom@, bare@) is None,
        },
{
    let mut i: usize = 0;
    assert(custom@.skip(0) =~= custom@);
    while i < custom.len()
        invariant
            i <= custom@.len(),
            custom_value(custom@, bare@) == custom_value(custom@.skip(i as int), bare@),
        decreases custom.len() - i,
    {
        assert(custom@.skip(i as int).skip(1) =~= custom@.skip(i + 1));
        if custom[i].name == *bare {
            return custom[i].value.as_ref();
        }
        i = i + 1;
    }
    None
}

/// The `(--name, value)` pairs an inline `<svg>` needs to render: every custom
/// property that its markup references through `var()` and that its computed
/// style gives a value.
pub fn svg_var_substitutions(markup: &str, custom: &[CustomProperty]) -> (r: Vec<
    (String, String),
>)
    ensures
        bindings(r@) == resolved_vars(var_names(markup@, markup@.len()), custom@),
{
    let names: Vec<String> = referenced_var_names(markup);
    let ghost all = texts(names@);
    let mut out: Vec<(String, String)> = Vec::new();
    let mut i: usize = 0;
    assert(all.take(0) =~= Seq::<Seq<char>>::empty());
    assert(bindings(out@) =~= resolved_vars(all.take(0), custom@));
    while i < names.len()
        invariant
            i <= names@.len(),
            all == texts(names@),
            all == var_names(markup@, markup@.len()),
            bindings(out@) == resolved_vars(all.take(i as int), custom@),
        decreases names.len() - i,
    {
        proof {
            lemma_var_names_have_dashes(markup@, markup@.len());
            assert(all[i as int].len() >= 2);
            assert(all.take(i + 1).drop_last() =~= all.take(i as int));
        }
        let full: Vec<char> = chars::to_chars(names[i].as_str());
        let bare: String = chars::slice_to_string(full.as_slice(), 2, full.len());
        assert(bare@ =~= all[i as int].skip(2));
        if let Some(value) = custom_lookup(custom, &bare) {
            let ghost before = out@;
            out.push((names[i].clone(), value.clone()));
            assert(bindings(out@) =~= bindings(before).push((all[i as int], value@)));
        }
        i = i + 1;
    }
    assert(all.take(names@.len() as int) =~= all);
    out
}

proof fn lemma_var_names_have_dashes(s: Seq<char>, n: nat)
    ensures
        forall|k: int| 0 <= k < var_names(s, n).len() ==> #[trigger] var_names(s, n)[k].len() >= 2,
    decreases n,
{
    if n > 0 {
        lemma_var_names_have_dashes(s, (n - 1) as nat);
        match var_name_at(s, n - 1) {
            Some(name) => {
                let arg = chars::trim_start(s.skip(n - 1 + 4));
                lemma_name_len(arg.skip(2));
                assert(name == arg.take(2 + name_len(arg.skip(2)) as int));
                assert(name.len() >= 2);
                let before = var_names(s, (n - 1) as nat);
                assert forall|k: int| 0 <= k < var_names(s, n).len() implies #[trigger] var_names(
                    s,
                    n,
                )[k].len() >= 2 by {
                    if k < before.len() {
                        assert(before[k].len() >= 2);
                    }
                }
            },
            None => {},
        }
    }
}

proof fn lemma_name_len(s: Seq<char>)
    ensures
        name_len(s) <= s.len(),
    decreases s.len(),
{
    if s.len() > 0 {
        lemma_name_len(s.skip(1));
    }
}

/// The declaration that sets `color` to an sRGB color: `color:#rrggbb;`.
pub open spec fn color_declaration(color: Seq<u8>) -> Seq<char> {
    "color:#"@ + chars::hex_digits(color[0] as nat, 2) + chars::hex_digits(color[1] as nat, 2)
        + chars::hex_digits(color[2] as nat, 2) + seq![';']
}

fn color_declaration_string(color: [u8; 4]) -> (r: String)
    ensures
        r@ == color_declaration(color@),
{
    let mut out: String = String::new();
    out.append("color:#");
    chars::push_hex(&mut out, color[0] as u64, 2);
    chars::push_hex(&mut out, color[1] as u64, 2);
    chars::push_hex(&mut out, color[2] as u64, 2);
    out.push(';');
    assert(out@ =~= color_declaration(color@));
    out
}

/// `s` with `piece` inserted at position `at`.
pub open spec fn inserted(s: Seq<char>, at: int, piece: Seq<char>) -> Seq<char> {
    s.take(at) + piece + s.skip(at)
}

/// Where a new attribute goes in a start tag that ends at `end`: before its `>`, or
/// before the `/` of its `/>`.
pub open spec fn attribute_slot(s: Seq<char>, end: int) -> int {
    if end >= 2 && s[end - 2] == '/' {
        end - 2
    } else {
        end - 1
    }
}

fn new_attribute_at(chars: &[char], end: usize) -> (r: usize)
    requires
        0 < end <= chars@.len(),
    ensures
        r == attribute_slot(chars@, end as int),
        r < end,
{
    if end >= 2 && chars[end - 2] == '/' {
        end - 2
    } else {
        end - 1
    }
}

/// `markup` with `declaration` put in front of what its root's `style` attribute
/// holds, or in a `style` attribute of its own where the root has none. Markup
/// without a closed start tag is left as it is.
pub open spec fn with_style(markup: Seq<char>, declaration: Seq<char>) -> Seq<char> {
    match tag::tag_end(markup) {
        None => markup,
        Some(end) => match tag::value_position(markup.take(end), "style"@) {
            Some(at) => inserted(markup, at, declaration),
            None => inserted(
                markup,
                attribute_slot(markup, end),
                " style=\""@ + declaration + seq!['"'],
            ),
        },
    }
}

/// The markup to rasterize for an inline `<svg>`: the references to custom
/// properties resolved, and the element's computed `color` in front of the root's
/// own style declarations, so that `currentColor` has the inherited color and a
/// `color` of the author's still wins.
pub fn inline_svg_source(markup: &str, color: [u8; 4], vars: &[(String, String)]) -> (r: String)
    ensures
        r@ == with_style(substituted(markup@, bindings(vars@)), color_declaration(color@)),
{
    let resolved: String = substitute_vars(markup, vars);
    let declaration: String = color_declaration_string(color);
    let chars: Vec<char> = chars::to_chars(resolved.as_str());
    let n: usize = chars.len();
    let mut out: String = String::new();
    match tag::start_tag_end(chars.as_slice()) {
        None => resolved,
        Some(end) => {
            match tag::style_value_start(chars.as_slice(), end) {
                Some(at) => {
                    chars::push_slice(&mut out, chars.as_slice(), 0, at);
                    out.append(declaration.as_str());
                    chars::push_slice(&mut out, chars.as_slice(), at, n);
                    assert(out@ =~= inserted(resolved@, at as int, declaration@));
                },
                None => {
                    let at: usize = new_attribute_at(chars.as_slice(), end);
                    chars::push_slice(&mut out, chars.as_slice(), 0, at);
                    out.append(" style=\"");
                    out.append(declaration.as_str());
                    out.push('"');
                    chars::push_slice(&mut out, chars.as_slice(), at, n);
                    assert(out@ =~= inserted(
                        resolved@,
                        at as int,
                        " style=\""@ + declaration@ + seq!['"'],
                    ));
                },
            }
            out
        },
    }
}

/// The FNV-1a hash of `bytes`, from the state `h`.
pub open spec fn fnv1a(h: u64, bytes: Seq<u8>) -> u64
    decreases bytes.len(),
{
    if bytes.len() == 0 {
        h
    } else {
        mixed(fnv1a(h, bytes.drop_last()), bytes.last())
    }
}

/// One step of FNV-1a.
pub open spec fn mixed(h: u64, b: u8) -> u64 {
    (h ^ (b as u64)).wrapping_mul(0x100_0000_01b3u64)
}

/// FNV-1a's initial state.
pub const FNV_OFFSET: u64 = 0xcbf2_9ce4_8422_2325;

proof fn lemma_fnv1a_concat(h: u64, a: Seq<u8>, b: Seq<u8>)
    ensures
        fnv1a(h, a + b) == fnv1a(fnv1a(h, a), b),
    decreases b.len(),
{
    if b.len() == 0 {
        assert(a + b =~= a);
    } else {
        assert((a + b).drop_last() =~= a + b.drop_last());
        lemma_fnv1a_concat(h, a, b.drop_last());
    }
}

fn mix_bytes(h: u64, bytes: &[u8]) -> (r: u64)
    ensures
        r == fnv1a(h, bytes@),
{
    let mut hash: u64 = h;
    let mut i: usize = 0;
    assert(bytes@.take(0) =~= Seq::<u8>::empty());
    while i < bytes.len()
        invariant
            i <= bytes@.len(),
            hash == fnv1a(h, bytes@.take(i as int)),
        decreases bytes.len() - i,
    {
        assert(bytes@.take(i + 1).drop_last() =~= bytes@.take(i as int));
        hash = (hash ^ (bytes[i] as u64)).wrapping_mul(0x100_0000_01b3u64);
        i = i + 1;
    }
    assert(bytes@.take(bytes@.len() as int) =~= bytes@);
    hash
}

/// The bytes that stand for one binding: name and value, a zero byte behind each.
pub open spec fn binding_bytes(v: (Seq<char>, Seq<char>)) -> Seq<u8> {
    vstd::utf8::encode_utf8(v.0) + seq![0u8] + vstd::utf8::encode_utf8(v.1) + seq![0u8]
}

/// The bytes that stand for a list of bindings.
pub open spec fn bindings_bytes(vars: Seq<(Seq<char>, Seq<char>)>) -> Seq<u8>
    decreases vars.len(),
{
    if vars.len() == 0 {
        Seq::empty()
    } else {
        bindings_bytes(vars.drop_last()) + binding_bytes(vars.last())
    }
}

/// The bytes that an inline image is keyed by: its markup, its color and its
/// resolved custom properties.
pub open spec fn key_bytes(
    markup: Seq<char>,
    color: Seq<u8>,
    vars: Seq<(Seq<char>, Seq<char>)>,
) -> Seq<u8> {
    vstd::utf8::encode_utf8(markup) + color + bindings_bytes(vars)
}

/// The store key of an inline `<svg>` made of `markup`, `color` and `vars`.
pub open spec fn svg_key(
    markup: Seq<char>,
    color: Seq<u8>,
    vars: Seq<(Seq<char>, Seq<char>)>,
) -> Seq<char> {
    "inline-svg:"@ + chars::hex_digits(
        fnv1a(FNV_OFFSET, key_bytes(markup, color, vars)) as nat,
        16,
    )
}

/// The store key of an inline `<svg>`: `inline-svg:` and the hash of what its
/// source is made of, in sixteen hexadecimal digits. Color and custom properties
/// are part of it because the source embeds them.
pub fn inline_svg_key(markup: &str, color: [u8; 4], vars: &[(String, String)]) -> (r: String)
    ensures
        r@ == svg_key(markup@, color@, bindings(vars@)),
{
    let ghost all = bindings(vars@);
    let ghost base = vstd::utf8::encode_utf8(markup@) + color@;
    let mut hash: u64 = mix_bytes(FNV_OFFSET, markup.as_bytes());
    hash = mix_bytes(hash, color.as_slice());
    proof {
        lemma_fnv1a_concat(FNV_OFFSET, vstd::utf8::encode_utf8(markup@), color@);
        assert(base + bindings_bytes(all.take(0)) =~= base);
    }
    let zero: [u8; 1] = [0];
    assert(zero@ =~= seq![0u8]);
    let mut i: usize = 0;
    while i < vars.len()
        invariant
            i <= vars@.len(),
            all == bindings(vars@),
            zero@ == seq![0u8],
            hash == fnv1a(FNV_OFFSET, base + bindings_bytes(all.take(i as int))),
        decreases vars.len() - i,
    {
        let ghost before = base + bindings_bytes(all.take(i as int));
        let ghost name = vstd::utf8::encode_utf8(vars@[i as int].0@);
        let ghost value = vstd::utf8::encode_utf8(vars@[i as int].1@);
        hash = mix_bytes(hash, vars[i].0.as_str().as_bytes());
        hash = mix_bytes(hash, zero.as_slice());
        hash = mix_bytes(hash, vars[i].1.as_str().as_bytes());
        hash = mix_bytes(hash, zero.as_slice());
        proof {
            lemma_fnv1a_concat(FNV_OFFSET, before, name);
            lemma_fnv1a_concat(FNV_OFFSET, before + name, seq![0u8]);
            lemma_fnv1a_concat(FNV_OFFSET, before + name + seq![0u8], value);
            lemma_fnv1a_concat(FNV_OFFSET, before + name + seq![0u8] + value, seq![0u8]);
            assert(all.take(i + 1).drop_last() =~= all.take(i as int));
            assert(all.take(i + 1).last() == all[i as int]);
            assert(before + name + seq![0u8] + value + seq![0u8] =~= base + bindings_bytes(
                all.take(i + 1),
            ));
        }
        i = i + 1;
    }
    assert(all.take(vars@.len() as int) =~= all);
    let mut out: String = String::new();
    out.append("inline-svg:");
    chars::push_hex(&mut out, hash, 16);
    assert(out@ =~= "inline-svg:"@ + chars::hex_digits(hash as nat, 16));
    out
}

/// Multiplying by FNV-1a's prime, which is odd, can be undone, so that a step forgets
/// neither its state nor its byte.
proof fn lemma_mixed_apart(h: u64, k: u64, b: u8, c: u8)
    requires
        (h != k && b == c) || (h == k && b != c),
    ensures
        mixed(h, b) != mixed(k, c),
{
    let (x, y) = (h ^ (b as u64), k ^ (c as u64));
    assert(h != k ==> (h ^ (b as u64)) != (k ^ (b as u64))) by (bit_vector);
    assert(b != c ==> (h ^ (b as u64)) != (h ^ (c as u64))) by (bit_vector);
    lemma_step_undone(x);
    lemma_step_undone(y);
}

proof fn lemma_step_undone(x: u64)
    ensures
        (x.wrapping_mul(0x100_0000_01b3u64) * 0xce96_5057_aff6_957b) % 0x1_0000_0000_0000_0000
            == x,
{
    let m: int = 0x1_0000_0000_0000_0000;
    let p: int = 0x100_0000_01b3;
    let q: int = 0xce96_5057_aff6_957b;
    let k: int = 887285111055;
    vstd::arithmetic::div_mod::lemma_mul_mod_noop_left(x * p, q, m);
    assert(p * q == m * k + 1);
    assert((x * p) * q == m * (k * x) + x) by (nonlinear_arith)
        requires
            p * q == m * k + 1,
    ;
    vstd::arithmetic::div_mod::lemma_mod_multiples_vanish(k * x, x as int, m);
    vstd::arithmetic::div_mod::lemma_small_mod(x as nat, m as nat);
}

proof fn lemma_one_byte_changes_the_hash(h: u64, a: Seq<u8>, b: Seq<u8>, at: int)
    requires
        a.len() == b.len(),
        0 <= at < a.len(),
        a[at] != b[at],
        forall|i: int| 0 <= i < a.len() && i != at ==> #[trigger] a[i] == b[i],
    ensures
        fnv1a(h, a) != fnv1a(h, b),
    decreases a.len(),
{
    let (p, q) = (a.drop_last(), b.drop_last());
    if at == a.len() - 1 {
        assert(p =~= q);
    } else {
        assert forall|i: int| 0 <= i < p.len() && i != at implies #[trigger] p[i] == q[i] by {
            assert(a[i] == b[i]);
        }
        assert(a[a.len() - 1] == b[b.len() - 1]);
        lemma_one_byte_changes_the_hash(h, p, q, at);
    }
    lemma_mixed_apart(fnv1a(h, p), fnv1a(h, q), a.last(), b.last());
}

/// Icons that differ in one channel of their color alone have different keys.
pub proof fn a_color_channel_changes_the_key(
    markup: Seq<char>,
    color: Seq<u8>,
    other: Seq<u8>,
    vars: Seq<(Seq<char>, Seq<char>)>,
    channel: int,
)
    requires
        color.len() == 4,
        other.len() == 4,
        0 <= channel < 4,
        color[channel] != other[channel],
        forall|i: int| 0 <= i < 4 && i != channel ==> #[trigger] color[i] == other[i],
    ensures
        svg_key(markup, color, vars) != svg_key(markup, other, vars),
{
    let start = vstd::utf8::encode_utf8(markup);
    let (a, b) = (key_bytes(markup, color, vars), key_bytes(markup, other, vars));
    let at = start.len() + channel;
    assert forall|i: int| 0 <= i < a.len() && i != at implies #[trigger] a[i] == b[i] by {
        if start.len() <= i < start.len() + 4 {
            assert(color[i - start.len()] == other[i - start.len()]);
        }
    }
    lemma_one_byte_changes_the_hash(FNV_OFFSET, a, b, at);
    let (m, n) = (fnv1a(FNV_OFFSET, a), fnv1a(FNV_OFFSET, b));
    let (s, t) = (chars::hex_digits(m as nat, 16), chars::hex_digits(n as nat, 16));
    if svg_key(markup, color, vars) == svg_key(markup, other, vars) {
        let skip = "inline-svg:"@.len() as int;
        assert(svg_key(markup, color, vars).skip(skip) =~= s);
        assert(svg_key(markup, other, vars).skip(skip) =~= t);
        chars::hex_digits_tell_numbers_apart(m, n);
    }
}

/// No character of `s` is a zero character.
pub open spec fn zero_free(s: Seq<char>) -> bool {
    forall|i: int| 0 <= i < s.len() ==> #[trigger] s[i] != '\0'
}

proof fn lemma_scalar_zero_free(c: char)
    requires
        c != '\0',
    ensures
        forall|i: int|
            0 <= i < vstd::utf8::encode_scalar(c as u32).len() ==> #[trigger] vstd::utf8::encode_scalar(
                c as u32,
            )[i] != 0u8,
{
    let v: u32 = c as u32;
    vstd::utf8::char_is_scalar(c);
    assert(v != 0);
    assert(0 < v && v <= 0x7f ==> (v & 0x7F) as u8 != 0u8) by (bit_vector);
    assert(0xC0u8 | (((v >> 6) & 0x1F) as u8) != 0u8) by (bit_vector);
    assert(0xE0u8 | (((v >> 12) & 0x0F) as u8) != 0u8) by (bit_vector);
    assert(0xF0u8 | (((v >> 18) & 0x07) as u8) != 0u8) by (bit_vector);
    assert(0x80u8 | ((v & 0x3F) as u8) != 0u8) by (bit_vector);
    assert(0x80u8 | (((v >> 6) & 0x3F) as u8) != 0u8) by (bit_vector);
    assert(0x80u8 | (((v >> 12) & 0x3F) as u8) != 0u8) by (bit_vector);
}

/// Text without zero characters encodes without zero bytes.
proof fn lemma_utf8_zero_free(s: Seq<char>)
    requires
        zero_free(s),
    ensures
        forall|i: int|
            0 <= i < vstd::utf8::encode_utf8(s).len() ==> #[trigger] vstd::utf8::encode_utf8(s)[i]
                != 0u8,
    decreases s.len(),
{
    if s.len() > 0 {
        lemma_scalar_zero_free(s[0]);
        assert(zero_free(s.drop_first())) by {
            assert forall|i: int| 0 <= i < s.drop_first().len() implies #[trigger] s.drop_first()[i]
                != '\0' by {
                assert(s[i + 1] != '\0');
            }
        }
        lemma_utf8_zero_free(s.drop_first());
        let head = vstd::utf8::encode_scalar(s[0] as u32);
        let rest = vstd::utf8::encode_utf8(s.drop_first());
        assert forall|i: int| 0 <= i < vstd::utf8::encode_utf8(s).len() implies #[trigger] vstd::utf8::encode_utf8(
            s,
        )[i] != 0u8 by {
            if i < head.len() {
                assert(head[i] != 0u8);
            } else {
                assert(rest[i - head.len()] != 0u8);
            }
        }
    }
}

/// Text is determined by its encoding.
proof fn lemma_utf8_injective(a: Seq<char>, b: Seq<char>)
    requires
        vstd::utf8::encode_utf8(a) == vstd::utf8::encode_utf8(b),
    ensures
        a == b,
{
    vstd::utf8::encode_utf8_decode_utf8(a);
    vstd::utf8::encode_utf8_decode_utf8(b);
}

/// A non-empty list of bindings ends in a zero byte.
proof fn lemma_bindings_bytes_last(vars: Seq<(Seq<char>, Seq<char>)>)
    ensures
        vars.len() > 0 ==> bindings_bytes(vars).len() >= 2 && bindings_bytes(vars).last() == 0u8,
        vars.len() == 0 ==> bindings_bytes(vars).len() == 0,
{
}

/// `t` ends in a zero-free stretch `w` behind `head`, and `head` is empty or ends in
/// a zero byte: then `t` determines both.
proof fn lemma_last_field(head1: Seq<u8>, w1: Seq<u8>, head2: Seq<u8>, w2: Seq<u8>)
    requires
        head1 + w1 == head2 + w2,
        head1.len() > 0 ==> head1.last() == 0u8,
        head2.len() > 0 ==> head2.last() == 0u8,
        forall|i: int| 0 <= i < w1.len() ==> #[trigger] w1[i] != 0u8,
        forall|i: int| 0 <= i < w2.len() ==> #[trigger] w2[i] != 0u8,
    ensures
        head1 == head2,
        w1 == w2,
{
    let t = head1 + w1;
    assert(t =~= head2 + w2);
    if head1.len() > head2.len() {
        let k = head1.len() - 1;
        assert(t[k] == head1[k]);
        assert(t[k] == w2[k - head2.len()]);
    }
    if head2.len() > head1.len() {
        let k = head2.len() - 1;
        assert(t[k] == head2[k]);
        assert(t[k] == w1[k - head1.len()]);
    }
    assert(head1 =~= head2) by {
        assert forall|i: int| 0 <= i < head1.len() implies head1[i] == head2[i] by {
            assert(t[i] == head1[i]);
            assert(t[i] == head2[i]);
        }
    }
    assert(w1 =~= w2) by {
        assert forall|i: int| 0 <= i < w1.len() implies w1[i] == w2[i] by {
            assert(t[head1.len() + i] == w1[i]);
            assert(t[head1.len() + i] == w2[i]);
        }
    }
}

/// Name and value are kept apart: two lists of custom properties without zero
/// characters that go into the key as the same bytes are the same list.
pub proof fn key_bytes_separate_bindings(
    a: Seq<(Seq<char>, Seq<char>)>,
    b: Seq<(Seq<char>, Seq<char>)>,
)
    requires
        forall|i: int| 0 <= i < a.len() ==> zero_free((#[trigger] a[i]).0) && zero_free(a[i].1),
        forall|i: int| 0 <= i < b.len() ==> zero_free((#[trigger] b[i]).0) && zero_free(b[i].1),
        bindings_bytes(a) == bindings_bytes(b),
    ensures
        a == b,
    decreases a.len(),
{
    lemma_bindings_bytes_last(a);
    lemma_bindings_bytes_last(b);
    if a.len() == 0 || b.len() == 0 {
        assert(a =~= b);
    } else {
        let (xa, xb) = (bindings_bytes(a.drop_last()), bindings_bytes(b.drop_last()));
        let (na, nb) = (
            vstd::utf8::encode_utf8(a.last().0),
            vstd::utf8::encode_utf8(b.last().0),
        );
        let (va, vb) = (
            vstd::utf8::encode_utf8(a.last().1),
            vstd::utf8::encode_utf8(b.last().1),
        );
        let z = seq![0u8];
        lemma_utf8_zero_free(a.last().0);
        lemma_utf8_zero_free(b.last().0);
        lemma_utf8_zero_free(a.last().1);
        lemma_utf8_zero_free(b.last().1);
        lemma_bindings_bytes_last(a.drop_last());
        lemma_bindings_bytes_last(b.drop_last());
        assert(bindings_bytes(a) =~= (xa + na + z + va) + z);
        assert(bindings_bytes(b) =~= (xb + nb + z + vb) + z);
        assert((xa + na + z) + va =~= bindings_bytes(a).drop_last());
        assert((xb + nb + z) + vb =~= bindings_bytes(b).drop_last());
        lemma_last_field(xa + na + z, va, xb + nb + z, vb);
        assert(xa + na =~= (xa + na + z).drop_last());
        assert(xb + nb =~= (xb + nb + z).drop_last());
        lemma_last_field(xa, na, xb, nb);
        lemma_utf8_injective(a.last().0, b.last().0);
        lemma_utf8_injective(a.last().1, b.last().1);
        assert(a.last() == b.last());
        assert forall|i: int| 0 <= i < a.drop_last().len() implies zero_free(
            (#[trigger] a.drop_last()[i]).0,
        ) && zero_free(a.drop_last()[i].1) by {
            assert(a.drop_last()[i] == a[i]);
        }
        assert forall|i: int| 0 <= i < b.drop_last().len() implies zero_free(
            (#[trigger] b.drop_last()[i]).0,
        ) && zero_free(b.drop_last()[i].1) by {
            assert(b.drop_last()[i] == b[i]);
        }
        key_bytes_separate_bindings(a.drop_last(), b.drop_last());
        assert(a =~= a.drop_last().push(a.last()));
        assert(b =~= b.drop_last().push(b.last()));
    }
}

/// An element of an inline `<svg>`: its local name and its attributes, each by its
/// local name.
pub struct SvgElement {
    pub name: String,
    pub attrs: Vec<(String, String)>,
}

/// The fragment that a reference targets: what follows its `#`, where it is a
/// reference into the same document and not empty.
pub open spec fn fragment(href: Seq<char>) -> Option<Seq<char>> {
    if href.len() > 1 && href[0] == '#' {
        Some(href.skip(1))
    } else {
        None
    }
}

/// The fragment that a `<use>` element references.
pub open spec fn use_target(el: SvgElement) -> Option<Seq<char>> {
    if el.name@ == "use"@ {
        match bound_value(bindings(el.attrs@), "href"@) {
            Some(href) => fragment(href),
            None => None,
        }
    } else {
        None
    }
}

/// The fragments that the `<use>` elements reference, each once, in the order in
/// which they first appear.
pub open spec fn use_targets(elements: Seq<SvgElement>) -> Seq<Seq<char>>
    decreases elements.len(),
{
    if elements.len() == 0 {
        Seq::empty()
    } else {
        let head = use_targets(elements.drop_last());
        match use_target(elements.last()) {
            Some(id) => if head.contains(id) {
                head
            } else {
                head.push(id)
            },
            None => head,
        }
    }
}

/// One of the elements has the id `id`.
pub open spec fn defines(elements: Seq<SvgElement>, id: Seq<char>) -> bool {
    exists|k: int|
        0 <= k < elements.len() && bound_value(bindings((#[trigger] elements[k]).attrs@), "id"@)
            == Some(id)
}

/// `ids` without those that one of the elements has.
pub open spec fn undefined_ids(ids: Seq<Seq<char>>, elements: Seq<SvgElement>) -> Seq<Seq<char>>
    decreases ids.len(),
{
    if ids.len() == 0 {
        Seq::empty()
    } else if defines(elements, ids.last()) {
        undefined_ids(ids.drop_last(), elements)
    } else {
        undefined_ids(ids.drop_last(), elements).push(ids.last())
    }
}

/// The value of the first attribute whose local name is `local`.
fn svg_attr<'a>(el: &'a SvgElement, local: &str) -> (r: Option<&'a str>)
    ensures
        match r {
            Some(value) => bound_value(bindings(el.attrs@), local@) == Some(value@),
            None => bound_value(bindings(el.attrs@), local@) is None,
        },
{
    let name: Vec<char> = chars::to_chars(local);
    assert(name@.subrange(0, name@.len() as int) =~= local@);
    lookup(name.as_slice(), 0, name.len(), el.attrs.as_slice())
}

fn use_fragment_target(el: &SvgElement) -> (r: Option<String>)
    ensures
        match r {
            Some(id) => use_target(*el) == Some(id@),
            None => use_target(*el) is None,
        },
{
    let name: Vec<char> = chars::to_chars(el.name.as_str());
    let expected: Vec<char> = chars::to_chars("use");
    let n: usize = name.len();
    assert(name@.subrange(0, n as int) =~= name@);
    if n != expected.len() {
        return None;
    }
    if !chars::matches_at(name.as_slice(), expected.as_slice(), 0, n) {
        assert(name@.subrange(0, expected@.len() as int) =~= name@);
        return None;
    }
    assert(name@.subrange(0, expected@.len() as int) =~= name@);
    match svg_attr(el, "href") {
        None => None,
        Some(value) => {
            let href: Vec<char> = chars::to_chars(value);
            if href.len() > 1 && href[0] == '#' {
                let id: String = chars::slice_to_string(href.as_slice(), 1, href.len());
                assert(id@ =~= href@.skip(1));
                Some(id)
            } else {
                None
            }
        },
    }
}

fn has_id(elements: &[SvgElement], id: &String) -> (r: bool)
    ensures
        r == defines(elements@, id@),
{
    let wanted: Vec<char> = chars::to_chars(id.as_str());
    let mut i: usize = 0;
    while i < elements.len()
        invariant
            i <= elements@.len(),
            wanted@ == id@,
            forall|k: int|
                0 <= k < i ==> bound_value(bindings((#[trigger] elements@[k]).attrs@), "id"@)
                    != Some(id@),
        decreases elements.len() - i,
    {
        if let Some(value) = svg_attr(&elements[i], "id") {
            let own: Vec<char> = chars::to_chars(value);
            let n: usize = own.len();
            assert(own@.subrange(0, n as int) =~= own@);
            if n == wanted.len() && chars::matches_at(own.as_slice(), wanted.as_slice(), 0, n) {
                assert(own@.subrange(0, wanted@.len() as int) =~= own@);
                assert(bound_value(bindings(elements@[i as int].attrs@), "id"@) == Some(id@));
                return true;
            }
            assert(own@.subrange(0, n as int) =~= own@);
            assert(own@ == id@ ==> own@.subrange(0, wanted@.len() as int) =~= wanted@);
        }
        i = i + 1;
    }
    false
}

/// The ids of the definitions that the `<use>` elements among `elements` (the
/// `<svg>` and its descendants in tree order) reference and that none of them
/// provides: what has to be inlined for the fragment to render on its own.
pub fn sprite_references(elements: &[SvgElement]) -> (r: Vec<String>)
    ensures
        texts(r@) == undefined_ids(use_targets(elements@), elements@),
{
    let mut wanted: Vec<String> = Vec::new();
    let mut i: usize = 0;
    assert(elements@.take(0) =~= Seq::<SvgElement>::empty());
    assert(texts(wanted@) =~= use_targets(elements@.take(0)));
    while i < elements.len()
        invariant
            i <= elements@.len(),
            texts(wanted@) == use_targets(elements@.take(i as int)),
        decreases elements.len() - i,
    {
        assert(elements@.take(i + 1).drop_last() =~= elements@.take(i as int));
        if let Some(id) = use_fragment_target(&elements[i]) {
            if !contains_text(wanted.as_slice(), &id) {
                let ghost before = wanted@;
                wanted.push(id);
                assert(texts(wanted@) =~= texts(before).push(id@));
            }
        }
        i = i + 1;
    }
    assert(elements@.take(elements@.len() as int) =~= elements@);
    let ghost ids = texts(wanted@);
    let mut out: Vec<String> = Vec::new();
    let mut j: usize = 0;
    assert(ids.take(0) =~= Seq::<Seq<char>>::empty());
    assert(texts(out@) =~= undefined_ids(ids.take(0), elements@));
    while j < wanted.len()
        invariant
            j <= wanted@.len(),
            ids == texts(wanted@),
            texts(out@) == undefined_ids(ids.take(j as int), elements@),
        decreases wanted.len() - j,
    {
        assert(ids.take(j + 1).drop_last() =~= ids.take(j as int));
        if !has_id(elements, &wanted[j]) {
            let ghost before = out@;
            out.push(wanted[j].clone());
            assert(texts(out@) =~= texts(before).push(ids[j as int]));
        }
        j = j + 1;
    }
    assert(ids.take(ids.len() as int) =~= ids);
    out
}

/// The local name of an element and its attributes.
pub open spec fn element_of(e: SvgElement) -> (Seq<char>, Seq<(Seq<char>, Seq<char>)>) {
    (e.name@, bindings(e.attrs@))
}

/// The attributes of a node, as bindings.
pub open spec fn node_bindings(attributes: Seq<Attribute>) -> Seq<(Seq<char>, Seq<char>)> {
    attributes.map_values(|a: Attribute| (a.name@, a.value@))
}

/// The elements among the first `n` nodes that lie in the tree of the node `svg`.
pub open spec fn elements_under(dom: DomTree, svg: int, n: int) -> Seq<
    (Seq<char>, Seq<(Seq<char>, Seq<char>)>),
>
    decreases n,
{
    if n <= 0 {
        Seq::empty()
    } else {
        let before = elements_under(dom, svg, n - 1);
        let node = dom.nodes@[n - 1];
        if node.kind is Element && dom.is_inclusive_ancestor(svg, n - 1) {
            before.push((node.local@, node_bindings(node.attributes@)))
        } else {
            before
        }
    }
}

fn copy_attributes(attributes: &Vec<Attribute>) -> (r: Vec<(String, String)>)
    ensures
        bindings(r@) == node_bindings(attributes@),
{
    let mut out: Vec<(String, String)> = Vec::new();
    let mut k: usize = 0;
    while k < attributes.len()
        invariant
            k <= attributes@.len(),
            bindings(out@) == node_bindings(attributes@.take(k as int)),
        decreases attributes.len() - k,
    {
        let ghost before = out@;
        out.push((attributes[k].name.clone(), attributes[k].value.clone()));
        assert(bindings(out@) =~= bindings(before).push(
            (attributes@[k as int].name@, attributes@[k as int].value@),
        ));
        assert(node_bindings(attributes@.take(k + 1)) =~= node_bindings(
            attributes@.take(k as int),
        ).push((attributes@[k as int].name@, attributes@[k as int].value@)));
        k = k + 1;
    }
    assert(attributes@.take(attributes@.len() as int) =~= attributes@);
    out
}

/// The `<svg>` element at `svg` and the elements in it, in tree order.
pub fn svg_elements(dom: &DomTree, svg: usize) -> (r: Vec<SvgElement>)
    requires
        dom.wf(),
    ensures
        r@.map_values(|e: SvgElement| element_of(e)) == elements_under(
            *dom,
            svg as int,
            dom.nodes@.len() as int,
        ),
{
    let mut out: Vec<SvgElement> = Vec::new();
    let mut k: usize = 0;
    assert(out@.map_values(|e: SvgElement| element_of(e)) =~= Seq::empty());
    while k < dom.nodes.len()
        invariant
            k <= dom.nodes@.len(),
            dom.wf(),
            out@.map_values(|e: SvgElement| element_of(e)) == elements_under(
                *dom,
                svg as int,
                k as int,
            ),
        decreases dom.nodes.len() - k,
    {
        if dom.nodes[k].kind == NodeKind::Element && dom.contains(svg, k) {
            let e: SvgElement = SvgElement {
                name: dom.nodes[k].local.clone(),
                attrs: copy_attributes(&dom.nodes[k].attributes),
            };
            let ghost before = out@;
            let ghost value = element_of(e);
            out.push(e);
            assert(out@.map_values(|e: SvgElement| element_of(e)) =~= before.map_values(
                |e: SvgElement| element_of(e),
            ).push(value));
        }
        k = k + 1;
    }
    out
}

/// The element that a reference from the `<svg>` element at `svg` to `id` is resolved to: the
/// first of that id in the same document, unless the `<svg>` lies in it.
pub open spec fn definition_of(dom: DomTree, svg: int, id: Seq<char>) -> Option<int> {
    match dom.document_of(svg) {
        Some(root) => match dom.element_from(root, id, 0) {
            Some(e) => if dom.is_inclusive_ancestor(e, svg) {
                None
            } else {
                Some(e)
            },
            None => None,
        },
        None => None,
    }
}

/// The elements that references to `ids` are resolved to, in order.
pub open spec fn definitions_of(dom: DomTree, svg: int, ids: Seq<Seq<char>>) -> Seq<int>
    decreases ids.len(),
{
    if ids.len() == 0 {
        Seq::empty()
    } else {
        let before = definitions_of(dom, svg, ids.drop_last());
        match definition_of(dom, svg, ids.last()) {
            Some(e) => before.push(e),
            None => before,
        }
    }
}

/// The elements whose markup is inlined into the `<svg>` element at `svg` for its references
/// to `ids`. A definition of another document is out of reach, and neither the `<svg>` itself
/// nor an ancestor of it is inlined into it.
pub fn sprite_definitions(dom: &DomTree, svg: usize, ids: &[String]) -> (r: Vec<usize>)
    requires
        dom.wf(),
        svg < dom.nodes@.len(),
    ensures
        r@.map_values(|e: usize| e as int) == definitions_of(*dom, svg as int, texts(ids@)),
        forall|k: int| 0 <= k < r@.len() ==> #[trigger] r@[k] < dom.nodes@.len(),
{
    let mut out: Vec<usize> = Vec::new();
    assert(out@.map_values(|e: usize| e as int) =~= Seq::<int>::empty());
    let ghost all = texts(ids@);
    let root: usize = match dom.containing_document(svg) {
        Some(root) => root,
        None => {
            proof {
                lemma_no_document(*dom, svg as int, all);
            }
            return out;
        },
    };
    let mut k: usize = 0;
    assert(all.take(0) =~= Seq::<Seq<char>>::empty());
    while k < ids.len()
        invariant
            k <= ids@.len(),
            all == texts(ids@),
            dom.wf(),
            svg < dom.nodes@.len(),
            dom.document_of(svg as int) == Some(root as int),
            out@.map_values(|e: usize| e as int) == definitions_of(
                *dom,
                svg as int,
                all.take(k as int),
            ),
            forall|j: int| 0 <= j < out@.len() ==> #[trigger] out@[j] < dom.nodes@.len(),
        decreases ids.len() - k,
    {
        assert(all.take(k + 1).drop_last() =~= all.take(k as int));
        assert(all.take(k + 1).last() == ids@[k as int]@);
        if let Some(e) = dom.element_by_id(root, ids[k].as_str()) {
            if !dom.contains(e, svg) {
                let ghost before = out@;
                out.push(e);
                assert(out@.map_values(|e: usize| e as int) =~= before.map_values(
                    |e: usize| e as int,
                ).push(e as int));
            }
        }
        k = k + 1;
    }
    assert(all.take(all.len() as int) =~= all);
    out
}

proof fn lemma_no_document(dom: DomTree, svg: int, ids: Seq<Seq<char>>)
    requires
        dom.document_of(svg) is None,
    ensures
        definitions_of(dom, svg, ids) == Seq::<int>::empty(),
    decreases ids.len(),
{
    if ids.len() > 0 {
        lemma_no_document(dom, svg, ids.drop_last());
    }
}

/// Nothing that is inlined into an `<svg>` contains it.
pub proof fn nothing_is_inlined_into_itself(dom: DomTree, svg: int, ids: Seq<Seq<char>>)
    ensures
        forall|k: int|
            0 <= k < definitions_of(dom, svg, ids).len() ==> !dom.is_inclusive_ancestor(
                #[trigger] definitions_of(dom, svg, ids)[k],
                svg,
            ),
    decreases ids.len(),
{
    if ids.len() > 0 {
        nothing_is_inlined_into_itself(dom, svg, ids.drop_last());
        let before = definitions_of(dom, svg, ids.drop_last());
        assert forall|k: int|
            0 <= k < definitions_of(dom, svg, ids).len() implies !dom.is_inclusive_ancestor(
            #[trigger] definitions_of(dom, svg, ids)[k],
            svg,
        ) by {
            if k < before.len() {
                assert(definitions_of(dom, svg, ids)[k] == before[k]);
            }
        }
    }
}

/// A definition to inline: its markup and its `viewBox` attribute.
pub struct SvgDefinition {
    pub markup: String,
    pub view_box: Option<String>,
}

/// The markup of the definitions, one behind the other.
pub open spec fn definitions_text(defs: Seq<SvgDefinition>) -> Seq<char>
    decreases defs.len(),
{
    if defs.len() == 0 {
        Seq::empty()
    } else {
        definitions_text(defs.drop_last()) + defs.last().markup@
    }
}

/// The `viewBox` of the first definition that has one.
pub open spec fn first_view_box(defs: Seq<SvgDefinition>) -> Option<Seq<char>>
    decreases defs.len(),
{
    if defs.len() == 0 {
        None
    } else {
        match first_view_box(defs.drop_last()) {
            Some(v) => Some(v),
            None => match defs.last().view_box {
                Some(v) => Some(v@),
                None => None,
            },
        }
    }
}

/// `pat` stands somewhere in `s`.
pub open spec fn mentions(s: Seq<char>, pat: Seq<char>) -> bool {
    exists|i: int| chars::occurs_at(s, pat, i)
}

/// The start tag gives the image a size: a `viewBox`, or both `width` and `height`.
pub open spec fn has_intrinsic_size(tag: Seq<char>) -> bool {
    tag::carries(tag, "viewBox"@) || (tag::carries(tag, "width"@) && tag::carries(
        tag,
        "height"@,
    ))
}

/// The attributes that a fragment with the start tag `tag`, the markup `markup`
/// and the inlined definitions lacks to be rendered on its own.
pub open spec fn missing_attributes(
    tag: Seq<char>,
    markup: Seq<char>,
    defs: Seq<SvgDefinition>,
) -> Seq<char> {
    let text = definitions_text(defs);
    let xlink = if (mentions(markup, "xlink:"@) || mentions(text, "xlink:"@)) && !tag::carries(
        tag,
        "xmlns:xlink"@,
    ) {
        " xmlns:xlink=\"http://www.w3.org/1999/xlink\""@
    } else {
        Seq::empty()
    };
    match first_view_box(defs) {
        Some(v) => if text.len() > 0 && !has_intrinsic_size(tag) {
            xlink + (" viewBox=\""@ + v + seq!['"'])
        } else {
            xlink
        },
        None => xlink,
    }
}

/// `markup` with the definitions inlined at the start of its content and the
/// attributes added that it lacks.
pub open spec fn with_definitions(markup: Seq<char>, defs: Seq<SvgDefinition>) -> Seq<char> {
    match tag::tag_end(markup) {
        None => markup,
        Some(end) => {
            let at = attribute_slot(markup, end);
            markup.take(at) + missing_attributes(markup.take(end), markup, defs)
                + markup.subrange(at, end) + definitions_text(defs) + markup.skip(end)
        },
    }
}

fn contains(chars: &[char], pat: &str) -> (r: bool)
    requires
        pat@.len() > 0,
    ensures
        r == mentions(chars@, pat@),
{
    let p: Vec<char> = chars::to_chars(pat);
    assert(chars@.subrange(0, chars@.len() as int) =~= chars@);
    match chars::find(chars, p.as_slice(), 0, chars.len()) {
        Some(i) => {
            assert(chars::occurs_at(chars@, pat@, i as int));
            true
        },
        None => false,
    }
}

/// Whether a start tag declares a size: a `viewBox`, or both `width` and `height`.
fn root_has_intrinsic_size(chars: &[char], to: usize) -> (r: bool)
    requires
        to <= chars@.len(),
    ensures
        r == has_intrinsic_size(chars@.take(to as int)),
{
    tag::has_attr(chars, to, "viewBox") || (tag::has_attr(chars, to, "width") && tag::has_attr(
        chars,
        to,
        "height",
    ))
}

/// The markup an inline `<svg>` is rasterized from, with the definitions that its
/// `<use>` elements reference elsewhere inlined, `xmlns:xlink` declared where the
/// prefix is used, and a `viewBox` taken from the definitions where the root has no
/// size. Markup without `<use` is left as it is.
pub fn inline_svg_markup(markup: &str, defs: &[SvgDefinition]) -> (r: String)
    ensures
        r@ == if mentions(markup@, "<use"@) {
            with_definitions(markup@, defs@)
        } else {
            markup@
        },
{
    let chars: Vec<char> = chars::to_chars(markup);
    let n: usize = chars.len();
    proof {
        reveal_strlit("<use");
        reveal_strlit("xlink:");
    }
    if !contains(chars.as_slice(), "<use") {
        return markup.to_owned();
    }
    let mut text: String = String::new();
    let mut view_box: Option<String> = None;
    let mut i: usize = 0;
    assert(defs@.take(0) =~= Seq::<SvgDefinition>::empty());
    while i < defs.len()
        invariant
            i <= defs@.len(),
            text@ == definitions_text(defs@.take(i as int)),
            match view_box {
                Some(v) => first_view_box(defs@.take(i as int)) == Some(v@),
                None => first_view_box(defs@.take(i as int)) is None,
            },
        decreases defs.len() - i,
    {
        assert(defs@.take(i + 1).drop_last() =~= defs@.take(i as int));
        text.append(defs[i].markup.as_str());
        if view_box.is_none() {
            view_box = match &defs[i].view_box {
                Some(v) => Some(v.clone()),
                None => None,
            };
        }
        i = i + 1;
    }
    assert(defs@.take(defs@.len() as int) =~= defs@);
    match tag::start_tag_end(chars.as_slice()) {
        None => markup.to_owned(),
        Some(end) => {
            let ghost start_tag = markup@.take(end as int);
            let text_chars: Vec<char> = chars::to_chars(text.as_str());
            let at: usize = new_attribute_at(chars.as_slice(), end);
            let mut out: String = String::new();
            chars::push_slice(&mut out, chars.as_slice(), 0, at);
            let ghost head = out@;
            if (contains(chars.as_slice(), "xlink:") || contains(text_chars.as_slice(), "xlink:"))
                && !tag::has_attr(chars.as_slice(), end, "xmlns:xlink") {
                out.append(" xmlns:xlink=\"http://www.w3.org/1999/xlink\"");
            }
            if let Some(v) = &view_box {
                if text_chars.len() > 0 && !root_has_intrinsic_size(chars.as_slice(), end) {
                    out.append(" viewBox=\"");
                    out.append(v.as_str());
                    out.push('"');
                }
            }
            assert(out@ =~= head + missing_attributes(start_tag, markup@, defs@));
            chars::push_slice(&mut out, chars.as_slice(), at, end);
            out.append(text.as_str());
            chars::push_slice(&mut out, chars.as_slice(), end, n);
            assert(out@ =~= with_definitions(markup@, defs@));
            out
        },
    }
}

proof fn lemma_flat_balance(s: Seq<char>, n: int)
    requires
        0 <= n <= s.len(),
        forall|i: int| 0 <= i < n ==> #[trigger] s[i] != '(' && s[i] != ')',
    ensures
        balance(s.take(n)) == 0,
    decreases n,
{
    if n > 0 {
        lemma_flat_balance(s, n - 1);
        assert(s.take(n).drop_last() =~= s.take(n - 1));
        assert(s.take(n).last() == s[n - 1]);
    } else {
        assert(s.take(0) =~= Seq::<char>::empty());
    }
}

proof fn lemma_flat_nesting(s: Seq<char>, n: int)
    requires
        0 <= n <= s.len(),
        forall|i: int| 0 <= i < n ==> #[trigger] s[i] != '(' && s[i] != ')',
    ensures
        nesting(s.take(n)) == 0,
    decreases n,
{
    if n > 0 {
        lemma_flat_nesting(s, n - 1);
        assert(s.take(n).drop_last() =~= s.take(n - 1));
        assert(s.take(n).last() == s[n - 1]);
    } else {
        assert(s.take(0) =~= Seq::<char>::empty());
    }
}

proof fn lemma_closed_at(inner: Seq<char>, rest: Seq<char>)
    requires
        forall|i: int| 0 <= i < inner.len() ==> #[trigger] inner[i] != '(' && inner[i] != ')',
    ensures
        closing_paren(inner + seq![')'] + rest) == Some(inner.len() as int),
{
    let s = inner + seq![')'] + rest;
    let n = inner.len() as int;
    assert forall|i: int| 0 <= i < n implies #[trigger] s[i] != '(' && s[i] != ')' by {
        assert(s[i] == inner[i]);
    }
    assert forall|j: int| 0 <= j <= n implies #[trigger] balance(s.take(j)) >= 0 by {
        lemma_flat_balance(s, j);
    }
    lemma_flat_balance(s, n);
    assert(s.take(n + 1).drop_last() =~= s.take(n));
    assert(s.take(n + 1).last() == ')');
    assert(closes(s, n));
    lemma_closing_paren(s, n);
}

proof fn lemma_bound(vars: Seq<(Seq<char>, Seq<char>)>, b: int)
    requires
        0 <= b < vars.len(),
        forall|j: int| 0 <= j < b ==> #[trigger] vars[j].0 != vars[b].0,
    ensures
        bound_value(vars, vars[b].0) == Some(vars[b].1),
    decreases b,
{
    if b > 0 {
        assert(vars[0].0 != vars[b].0);
        let rest = vars.skip(1);
        assert forall|j: int| 0 <= j < b - 1 implies #[trigger] rest[j].0 != rest[b - 1].0 by {
            assert(vars[j + 1].0 != vars[b].0);
        }
        lemma_bound(rest, b - 1);
    }
}

proof fn lemma_unbound(vars: Seq<(Seq<char>, Seq<char>)>, name: Seq<char>)
    requires
        forall|j: int| 0 <= j < vars.len() ==> #[trigger] vars[j].0 != name,
    ensures
        bound_value(vars, name) is None,
    decreases vars.len(),
{
    if vars.len() > 0 {
        assert(vars[0].0 != name);
        let rest = vars.skip(1);
        assert forall|j: int| 0 <= j < rest.len() implies #[trigger] rest[j].0 != name by {
            assert(vars[j + 1].0 != name);
        }
        lemma_unbound(rest, name);
    }
}

proof fn lemma_pieces(pre: Seq<char>, open: Seq<char>, inner: Seq<char>, rest: Seq<char>)
    requires
        open.len() == 4,
    ensures
        ({
            let s = pre + open + inner + seq![')'] + rest;
            let pos = pre.len() as int;
            let close = inner.len() as int;
            &&& s.take(pos) == pre
            &&& s.skip(pos + 4) == inner + seq![')'] + rest
            &&& s.skip(pos + 4).take(close) == inner
            &&& s.skip(pos + 4).skip(close + 1) == rest
            &&& s.subrange(pos, pos + 4 + close + 1) == open + inner + seq![')']
        }),
{
    let s = pre + open + inner + seq![')'] + rest;
    let pos = pre.len() as int;
    let close = inner.len() as int;
    assert(s.take(pos) =~= pre);
    assert(s.skip(pos + 4) =~= inner + seq![')'] + rest);
    assert(s.skip(pos + 4).take(close) =~= inner);
    assert(s.skip(pos + 4).skip(close + 1) =~= rest);
    assert(s.subrange(pos, pos + 4 + close + 1) =~= open + inner + seq![')']);
}

proof fn lemma_first_reference(
    s: Seq<char>,
    vars: Seq<(Seq<char>, Seq<char>)>,
    pos: int,
    close: int,
)
    requires
        chars::first_at(s, var_open(), 0) == Some(pos),
        closing_paren(s.skip(pos + 4)) == Some(close),
    ensures
        substituted(s, vars) == s.take(pos) + replacement(
            s.skip(pos + 4).take(close),
            s.subrange(pos, pos + 4 + close + 1),
            vars,
        ) + substituted(s.skip(pos + 4).skip(close + 1), vars),
{
}

proof fn lemma_one_reference(
    pre: Seq<char>,
    inner: Seq<char>,
    rest: Seq<char>,
    vars: Seq<(Seq<char>, Seq<char>)>,
)
    requires
        chars::is_first_at(
            pre + seq!['v', 'a', 'r', '('] + inner + seq![')'] + rest,
            seq!['v', 'a', 'r', '('],
            0,
            pre.len() as int,
        ),
        forall|i: int| 0 <= i < inner.len() ==> #[trigger] inner[i] != '(' && inner[i] != ')',
    ensures
        substituted(pre + seq!['v', 'a', 'r', '('] + inner + seq![')'] + rest, vars) == pre
            + replacement(inner, seq!['v', 'a', 'r', '('] + inner + seq![')'], vars) + substituted(
            rest,
            vars,
        ),
{
    let open = seq!['v', 'a', 'r', '('];
    let s = pre + open + inner + seq![')'] + rest;
    let pos = pre.len() as int;
    assert(var_open() == open);
    chars::lemma_first_at(s, open, 0, pos);
    lemma_pieces(pre, open, inner, rest);
    lemma_closed_at(inner, rest);
    lemma_first_reference(s, vars, pos, inner.len() as int);
}

proof fn lemma_plain_argument(name: Seq<char>)
    requires
        forall|i: int| 0 <= i < name.len() ==> #[trigger] name[i] != ',',
    ensures
        top_level_comma(name) is None,
{
    if exists|i: int| is_top_level_comma(name, i) {
        let i = choose|i: int| is_top_level_comma(name, i);
        assert(name[i] != ',');
    }
}

proof fn lemma_argument_with_fallback(name: Seq<char>, fallback: Seq<char>)
    requires
        forall|i: int|
            0 <= i < name.len() ==> #[trigger] name[i] != '(' && name[i] != ')' && name[i] != ',',
        forall|i: int|
            0 <= i < fallback.len() ==> #[trigger] fallback[i] != '(' && fallback[i] != ')',
    ensures
        ({
            let inner = name + seq![','] + fallback;
            &&& top_level_comma(inner) == Some(name.len() as int)
            &&& inner.take(name.len() as int) == name
            &&& inner.skip(name.len() as int + 1) == fallback
            &&& forall|i: int|
                0 <= i < inner.len() ==> #[trigger] inner[i] != '(' && inner[i] != ')'
        }),
{
    let inner = name + seq![','] + fallback;
    let comma = name.len() as int;
    assert forall|i: int| 0 <= i < inner.len() implies #[trigger] inner[i] != '(' && inner[i]
        != ')' by {
        if i < comma {
            assert(inner[i] == name[i]);
        } else if i > comma {
            assert(inner[i] == fallback[i - comma - 1]);
        }
    }
    lemma_flat_nesting(inner, comma);
    assert forall|j: int| 0 <= j < comma && #[trigger] inner[j] == ',' implies nesting(
        inner.take(j),
    ) != 0 by {
        assert(inner[j] == name[j]);
    }
    assert(is_top_level_comma(inner, comma));
    lemma_top_level_comma(inner, comma);
    assert(inner.take(comma) =~= name);
    assert(inner.skip(comma + 1) =~= fallback);
}

/// A reference to a custom property becomes the value that the property has, the first one
/// where there are several, and what stands around it stays. It stays too where the property
/// has no value.
pub proof fn references_become_their_values(
    pre: Seq<char>,
    name: Seq<char>,
    rest: Seq<char>,
    vars: Seq<(Seq<char>, Seq<char>)>,
    b: int,
)
    requires
        chars::is_first_at(
            pre + seq!['v', 'a', 'r', '('] + name + seq![')'] + rest,
            seq!['v', 'a', 'r', '('],
            0,
            pre.len() as int,
        ),
        forall|i: int|
            0 <= i < name.len() ==> #[trigger] name[i] != '(' && name[i] != ')' && name[i] != ',',
    ensures
        ({
            let call = seq!['v', 'a', 'r', '('] + name + seq![')'];
            let s = pre + seq!['v', 'a', 'r', '('] + name + seq![')'] + rest;
            &&& 0 <= b < vars.len() && vars[b].0 == chars::trim(name) && (forall|j: int|
                0 <= j < b ==> #[trigger] vars[j].0 != vars[b].0) ==> substituted(s, vars) == pre
                + vars[b].1 + substituted(rest, vars)
            &&& (forall|j: int|
                0 <= j < vars.len() ==> #[trigger] vars[j].0 != chars::trim(name)) ==> substituted(
                s,
                vars,
            ) == pre + call + substituted(rest, vars)
        }),
{
    lemma_one_reference(pre, name, rest, vars);
    lemma_plain_argument(name);
    if 0 <= b < vars.len() && vars[b].0 == chars::trim(name) && forall|j: int|
        0 <= j < b ==> #[trigger] vars[j].0 != vars[b].0 {
        lemma_bound(vars, b);
    }
    if forall|j: int| 0 <= j < vars.len() ==> #[trigger] vars[j].0 != chars::trim(name) {
        lemma_unbound(vars, chars::trim(name));
    }
}

/// A reference with a fallback becomes the value of the property, or where it has none the
/// fallback with the references in it replaced.
pub proof fn fallbacks_stand_in_for_missing_values(
    pre: Seq<char>,
    name: Seq<char>,
    fallback: Seq<char>,
    rest: Seq<char>,
    vars: Seq<(Seq<char>, Seq<char>)>,
    b: int,
)
    requires
        chars::is_first_at(
            pre + seq!['v', 'a', 'r', '('] + (name + seq![','] + fallback) + seq![')'] + rest,
            seq!['v', 'a', 'r', '('],
            0,
            pre.len() as int,
        ),
        forall|i: int|
            0 <= i < name.len() ==> #[trigger] name[i] != '(' && name[i] != ')' && name[i] != ',',
        forall|i: int|
            0 <= i < fallback.len() ==> #[trigger] fallback[i] != '(' && fallback[i] != ')',
    ensures
        ({
            let s = pre + seq!['v', 'a', 'r', '('] + (name + seq![','] + fallback) + seq![')']
                + rest;
            &&& 0 <= b < vars.len() && vars[b].0 == chars::trim(name) && (forall|j: int|
                0 <= j < b ==> #[trigger] vars[j].0 != vars[b].0) ==> substituted(s, vars) == pre
                + vars[b].1 + substituted(rest, vars)
            &&& (forall|j: int|
                0 <= j < vars.len() ==> #[trigger] vars[j].0 != chars::trim(name)) ==> substituted(
                s,
                vars,
            ) == pre + substituted(chars::trim(fallback), vars) + substituted(rest, vars)
        }),
{
    lemma_argument_with_fallback(name, fallback);
    lemma_one_reference(pre, name + seq![','] + fallback, rest, vars);
    if 0 <= b < vars.len() && vars[b].0 == chars::trim(name) && forall|j: int|
        0 <= j < b ==> #[trigger] vars[j].0 != vars[b].0 {
        lemma_bound(vars, b);
    }
    if forall|j: int| 0 <= j < vars.len() ==> #[trigger] vars[j].0 != chars::trim(name) {
        lemma_unbound(vars, chars::trim(name));
    }
}

} // verus!
