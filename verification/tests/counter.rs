//! The texts of list markers.

use oxidepage_layout::counter::{
    alphabetic, anonymous_symbols, decimal_leading_zero, lower_greek, lower_latin, marker_text,
    named_counter, roman, upper_latin, CounterStyle, SymbolsType,
};

#[test]
fn decimal_leading_zero_pads_to_two_digits() {
    assert_eq!(decimal_leading_zero(1), "01");
    assert_eq!(decimal_leading_zero(9), "09");
    assert_eq!(decimal_leading_zero(10), "10");
    assert_eq!(decimal_leading_zero(100), "100");
    assert_eq!(decimal_leading_zero(-3), "-03");
}

#[test]
fn alphabetic_is_bijective_base_26() {
    assert_eq!(alphabetic(1, &lower_latin()), "a");
    assert_eq!(alphabetic(26, &lower_latin()), "z");
    assert_eq!(alphabetic(27, &lower_latin()), "aa");
    assert_eq!(alphabetic(52, &lower_latin()), "az");
    assert_eq!(alphabetic(53, &lower_latin()), "ba");
    assert_eq!(alphabetic(3, &upper_latin()), "C");
    // Out of range: decimal fallback.
    assert_eq!(alphabetic(0, &lower_latin()), "0");
    assert_eq!(alphabetic(-1, &lower_latin()), "-1");
}

#[test]
fn roman_numerals() {
    assert_eq!(roman(1, false), "i");
    assert_eq!(roman(4, false), "iv");
    assert_eq!(roman(9, true), "IX");
    assert_eq!(roman(14, false), "xiv");
    assert_eq!(roman(1990, true), "MCMXC");
    assert_eq!(roman(3999, false), "mmmcmxcix");
    // Out of range: decimal fallback.
    assert_eq!(roman(0, false), "0");
    assert_eq!(roman(4000, false), "4000");
}

#[test]
fn greek_has_no_final_sigma() {
    assert_eq!(alphabetic(1, &lower_greek()), "α");
    assert_eq!(alphabetic(18, &lower_greek()), "σ");
    assert_eq!(alphabetic(24, &lower_greek()), "ω");
    assert_eq!(alphabetic(25, &lower_greek()), "αα");
}

#[test]
fn named_styles_have_their_suffix() {
    assert_eq!(named_counter("disc", 3), "\u{2022}");
    assert_eq!(named_counter("circle", 3), "\u{25e6}");
    assert_eq!(named_counter("square", 3), "\u{25aa}");
    assert_eq!(named_counter("disclosure-open", 3), "\u{25be}");
    assert_eq!(named_counter("disclosure-closed", 3), "\u{25b8}");
    assert_eq!(named_counter("decimal", 3), "3.");
    assert_eq!(named_counter("decimal-leading-zero", 3), "03.");
    assert_eq!(named_counter("lower-alpha", 3), "c.");
    assert_eq!(named_counter("lower-latin", 3), "c.");
    assert_eq!(named_counter("upper-latin", 3), "C.");
    assert_eq!(named_counter("upper-alpha", 28), "AB.");
    assert_eq!(named_counter("lower-greek", 2), "β.");
    assert_eq!(named_counter("lower-roman", 4), "iv.");
    assert_eq!(named_counter("upper-roman", 4), "IV.");
    assert_eq!(named_counter("no-such-style", -7), "-7.");
}

#[test]
fn symbols_repeat_as_their_type_says() {
    let s = vec!["*".to_owned(), "†".to_owned()];
    let text = |ty: SymbolsType, n: i32| anonymous_symbols(ty, &s, n);
    assert_eq!(text(SymbolsType::Cyclic, 1), "*");
    assert_eq!(text(SymbolsType::Cyclic, 4), "†");
    assert_eq!(text(SymbolsType::Cyclic, 0), "†");
    assert_eq!(text(SymbolsType::Cyclic, -1), "*");
    assert_eq!(text(SymbolsType::Fixed, 2), "†");
    assert_eq!(text(SymbolsType::Fixed, 3), "3");
    assert_eq!(text(SymbolsType::Symbolic, 3), "**");
    assert_eq!(text(SymbolsType::Symbolic, 6), "†††");
    assert_eq!(text(SymbolsType::Symbolic, 0), "0");
    assert_eq!(text(SymbolsType::Alphabetic, 3), "**");
    assert_eq!(text(SymbolsType::Alphabetic, 6), "††");
    assert_eq!(text(SymbolsType::Numeric, 0), "*");
    assert_eq!(text(SymbolsType::Numeric, 2), "†*");
    assert_eq!(text(SymbolsType::Numeric, -2), "-2");
    assert_eq!(anonymous_symbols(SymbolsType::Cyclic, &[], 5), "5");
}

#[test]
fn inside_markers_have_a_trailing_space() {
    let style = CounterStyle::Name("decimal".to_owned());
    assert_eq!(marker_text(&style, 12, false).as_deref(), Some("12."));
    assert_eq!(marker_text(&style, 12, true).as_deref(), Some("12. "));
    assert_eq!(marker_text(&CounterStyle::Unmarked, 1, true), None);
    let text = CounterStyle::Text("→".to_owned());
    assert_eq!(marker_text(&text, 1, true).as_deref(), Some("→ "));
    let symbols = CounterStyle::Symbols {
        ty: SymbolsType::Cyclic,
        symbols: vec!["x".to_owned()],
    };
    assert_eq!(marker_text(&symbols, 9, false).as_deref(), Some("x"));
}

#[test]
fn alphabetic_markers_grow_with_their_ordinals() {
    let letters = ['x', 'b', 'q'];
    let place = |c: char| letters.iter().position(|l| *l == c).unwrap();
    let mut last: Vec<usize> = Vec::new();
    for n in 1..200 {
        let text = alphabetic(n, &letters);
        let places: Vec<usize> = text.chars().map(place).collect();
        assert!(
            places.len() > last.len() || (places.len() == last.len() && places > last),
            "{text} follows the marker before it"
        );
        // The word stands for its ordinal.
        assert_eq!(places.iter().fold(0, |v, p| 3 * v + p + 1), n as usize);
        last = places;
    }
    // Every word of up to three letters occurs: 3 + 9 + 27 of them.
    assert_eq!(alphabetic(39, &letters), "qqq");
    assert_eq!(alphabetic(40, &letters), "xxxx");
    // A single letter counts in strokes.
    assert_eq!(alphabetic(4, &['I']), "IIII");
}
