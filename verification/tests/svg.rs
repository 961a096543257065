//! Inline `<svg>`: source, store key, custom properties and sprites.

use oxidepage_layout::svg::{
    inline_svg_key, inline_svg_markup, inline_svg_source, referenced_var_names, sprite_references,
    substitute_vars, svg_var_substitutions, CustomProperty, SvgDefinition, SvgElement,
};

const BLACK: [u8; 4] = [0, 0, 0, 255];
const GREEN: [u8; 4] = [0, 128, 0, 255];

fn vars(pairs: &[(&str, &str)]) -> Vec<(String, String)> {
    pairs
        .iter()
        .map(|(n, v)| ((*n).to_owned(), (*v).to_owned()))
        .collect()
}

#[test]
fn source_creates_a_style_attribute_when_absent() {
    let out = inline_svg_source(r#"<svg width="2"><rect/></svg>"#, GREEN, &[]);
    assert_eq!(
        out,
        r#"<svg width="2" style="color:#008000;"><rect/></svg>"#
    );
}

#[test]
fn source_prepends_to_an_existing_style_attribute() {
    // Prepended, so the author's own declarations come after and win.
    let out = inline_svg_source(r#"<svg style="fill:red"><rect/></svg>"#, GREEN, &[]);
    assert_eq!(out, r#"<svg style="color:#008000;fill:red"><rect/></svg>"#);
}

#[test]
fn source_ignores_quoted_gt_and_style_inside_attribute_values() {
    // The `>` and the `style=` here are *inside* an attribute value: the
    // start tag does not end at that `>`, and that is not a style attribute.
    let out = inline_svg_source(
        r#"<svg data-x="a>b style=c" width="2"><rect/></svg>"#,
        BLACK,
        &[],
    );
    assert_eq!(
        out,
        r#"<svg data-x="a>b style=c" width="2" style="color:#000000;"><rect/></svg>"#
    );
}

#[test]
fn source_handles_a_self_closing_root() {
    let out = inline_svg_source(r#"<svg width="2"/>"#, BLACK, &[]);
    assert_eq!(out, r#"<svg width="2" style="color:#000000;"/>"#);
}

#[test]
fn source_without_a_start_tag_is_unchanged() {
    assert_eq!(inline_svg_source("<svg a='>", GREEN, &[]), "<svg a='>");
    assert_eq!(inline_svg_source("", GREEN, &[]), "");
}

#[test]
fn source_finds_style_in_any_case_and_skips_valueless_attributes() {
    assert_eq!(
        inline_svg_source("<svg hidden STYLE = 'x'>", BLACK, &[]),
        "<svg hidden STYLE = 'color:#000000;x'>"
    );
    assert_eq!(
        inline_svg_source("<svg style width=2>", BLACK, &[]),
        "<svg style width=2 style=\"color:#000000;\">"
    );
    assert_eq!(
        inline_svg_source("<svg style=fill:red>", BLACK, &[]),
        "<svg style=color:#000000;fill:red>"
    );
}

#[test]
fn key_separates_colors() {
    let markup = r#"<svg><rect fill="currentColor"/></svg>"#;
    assert_ne!(
        inline_svg_key(markup, BLACK, &[]),
        inline_svg_key(markup, GREEN, &[]),
        "a color change must produce a new store key, or the icon never re-rasterizes"
    );
}

#[test]
fn key_is_the_fnv1a_hash_in_hexadecimal() {
    // FNV-1a of four zero bytes.
    assert_eq!(
        inline_svg_key("", [0, 0, 0, 0], &[]),
        "inline-svg:4d25767f9dce13f5"
    );
    assert_ne!(
        inline_svg_key("", BLACK, &vars(&[("--a", "bc")])),
        inline_svg_key("", BLACK, &vars(&[("--ab", "c")]))
    );
}

#[test]
fn source_substitutes_a_referenced_variable() {
    // The resolved value is inlined into the markup that is rasterized.
    let out = inline_svg_source(
        r#"<svg><rect fill="var(--bg)"/></svg>"#,
        BLACK,
        &vars(&[("--bg", "#ffffff")]),
    );
    assert!(
        out.contains(r##"fill="#ffffff""##),
        "var() not substituted: {out}"
    );
    assert!(!out.contains("var("), "a var() survived: {out}");
}

#[test]
fn substitute_uses_fallback_when_unresolved() {
    assert_eq!(
        substitute_vars("fill:var(--missing, #123456)", &[]),
        "fill:#123456"
    );
}

#[test]
fn substitute_prefers_the_resolved_value_over_the_fallback() {
    assert_eq!(
        substitute_vars("var(--c, red)", &vars(&[("--c", "blue")])),
        "blue"
    );
}

#[test]
fn substitute_leaves_an_unresolved_var_without_fallback_verbatim() {
    // Browsers treat this as an invalid value (black fill); keeping the
    // literal reproduces that rather than inventing a colour.
    assert_eq!(substitute_vars("var(--x)", &[]), "var(--x)");
}

#[test]
fn substitute_resolves_a_nested_fallback() {
    assert_eq!(
        substitute_vars("var(--a, var(--b, green))", &vars(&[("--b", "orange")])),
        "orange"
    );
}

#[test]
fn substitute_keeps_what_nothing_closes() {
    assert_eq!(substitute_vars("a var(--x b", &[]), "a var(--x b");
    assert_eq!(
        substitute_vars("var(( var(--x)", &vars(&[("--x", "1")])),
        "var(( 1"
    );
    assert_eq!(
        substitute_vars("x var( --p ) y", &vars(&[("--p", "é")])),
        "x é y"
    );
    assert_eq!(
        substitute_vars("var(--a, f(1, 2), 3)", &[]),
        "f(1, 2), 3"
    );
    assert_eq!(substitute_vars("no references", &vars(&[("--x", "1")])), "no references");
}

#[test]
fn key_separates_resolved_variables() {
    let markup = r#"<svg><rect fill="var(--bg)"/></svg>"#;
    assert_ne!(
        inline_svg_key(markup, BLACK, &vars(&[("--bg", "#ffffff")])),
        inline_svg_key(markup, BLACK, &vars(&[("--bg", "#000000")])),
        "the same icon themed light vs dark must not share a rasterization"
    );
}

#[test]
fn referenced_names_are_deduplicated_in_order() {
    let names = referenced_var_names(
        r#"<svg><a fill="var(--x)"/><b fill="var(--y, var(--x))"/></svg>"#,
    );
    assert_eq!(names, vec!["--x".to_owned(), "--y".to_owned()]);
}

#[test]
fn substitutions_take_the_values_of_the_style() {
    let custom = vec![
        CustomProperty { name: "a".to_owned(), value: Some("1".to_owned()) },
        CustomProperty { name: "gone".to_owned(), value: None },
        CustomProperty { name: "b".to_owned(), value: Some("2".to_owned()) },
    ];
    assert_eq!(
        svg_var_substitutions("var(--b) var(--gone) var(--a) var(--none) var(--b)", &custom),
        vars(&[("--b", "2"), ("--a", "1")])
    );
    assert!(svg_var_substitutions("<svg/>", &custom).is_empty());
}

fn element(name: &str, attrs: &[(&str, &str)]) -> SvgElement {
    SvgElement { name: name.to_owned(), attrs: vars(attrs) }
}

#[test]
fn sprite_references_are_those_defined_elsewhere() {
    let elements = vec![
        element("svg", &[]),
        element("use", &[("href", "#icon")]),
        element("use", &[("href", "#local")]),
        element("use", &[("href", "#icon")]),
        element("use", &[("href", "sprite.svg#x")]),
        element("use", &[("href", "#")]),
        element("g", &[("id", "local"), ("href", "#not-a-use")]),
    ];
    assert_eq!(sprite_references(&elements), vec!["icon".to_owned()]);
}

#[test]
fn sprites_are_inlined_with_the_attributes_they_need() {
    let defs = vec![SvgDefinition {
        markup: r#"<symbol id="i" viewBox="0 0 8 8"><path/></symbol>"#.to_owned(),
        view_box: Some("0 0 8 8".to_owned()),
    }];
    assert_eq!(
        inline_svg_markup(r##"<svg class="c"><use xlink:href="#i"/></svg>"##, &defs),
        r##"<svg class="c" xmlns:xlink="http://www.w3.org/1999/xlink" viewBox="0 0 8 8"><symbol id="i" viewBox="0 0 8 8"><path/></symbol><use xlink:href="#i"/></svg>"##
    );
    // A root with a size of its own keeps it.
    assert_eq!(
        inline_svg_markup(r##"<svg width="1" height="1"><use href="#i"/></svg>"##, &defs),
        r##"<svg width="1" height="1"><symbol id="i" viewBox="0 0 8 8"><path/></symbol><use href="#i"/></svg>"##
    );
    // Markup without a reference is left alone.
    assert_eq!(inline_svg_markup("<svg><rect/></svg>", &defs), "<svg><rect/></svg>");
    assert_eq!(
        inline_svg_markup(r##"<svg><use href="#i"/></svg>"##, &[]),
        r##"<svg><use href="#i"/></svg>"##
    );
}

#[test]
fn every_channel_of_the_color_is_part_of_the_key() {
    let color = [10, 20, 30, 40];
    let key = inline_svg_key("<svg/>", color, &vars(&[("--a", "b")]));
    assert_eq!(key, inline_svg_key("<svg/>", color, &vars(&[("--a", "b")])));
    for channel in 0..4 {
        for value in 0..=255 {
            let mut other = color;
            other[channel] = value;
            assert_eq!(
                inline_svg_key("<svg/>", other, &vars(&[("--a", "b")])) == key,
                other == color
            );
        }
    }
}
