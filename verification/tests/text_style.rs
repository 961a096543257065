//! What a text shaper is given of an element's text values, and the metrics of its font.

use oxidepage_layout::font_metrics::{
    advance_of, find_font_for, query_font_metrics, Candidate, FaceMetrics, Glyph, Sample,
};
use oxidepage_layout::fonts::FontFaceStyle;
use oxidepage_layout::style::LineHeight;
use oxidepage_layout::text_style::{
    base_size_for_generic, font_variation, generic_font_family, query_font_family, span_style,
    text_align, FontFamily, GenericFamily, GenericFontFamily, LineAlignment, OverflowWrap,
    Platform, SingleFontFamily, TextAlignKeyword, TextProperties, VariationSetting, WordBreak,
};
use oxidepage_layout::tree::{NodeId, TextBrush};
use oxidepage_layout::units::Dimension;

const LINUX: Platform = Platform { apple: false, macos: false };
const MACOS: Platform = Platform { apple: true, macos: true };

fn named(name: &str) -> SingleFontFamily {
    SingleFontFamily::FamilyName(name.to_string())
}

fn properties() -> TextProperties {
    TextProperties {
        families: vec![named("Ahem"), SingleFontFamily::Generic(GenericFontFamily::Unnamed)],
        font_size: 20 * 64,
        line_height: LineHeight::Normal,
        weight: 700_000_000,
        stretch: 100_000_000,
        style: FontFaceStyle::Oblique(14_000_000),
        variations: vec![VariationSetting { tag: 0x7767_6874, value: 650_000_000 }],
        letter_spacing: Dimension::Length(32),
        word_spacing: Dimension::Percent(250_000),
        word_break: WordBreak::KeepAll,
        overflow_wrap: OverflowWrap::Anywhere,
        wraps: false,
    }
}

#[test]
fn span_styles_hold_lengths() {
    let owner = TextBrush::from_node(NodeId { index: 3, generation: 1 });
    let span = span_style(owner, &properties(), LINUX);
    assert_eq!(span.font_size, 1280);
    // Normal lines are 1.2 times as high as the font.
    assert_eq!(span.line_height, 24 * 64);
    assert_eq!(span.letter_spacing, 32);
    assert_eq!(span.word_spacing, 5 * 64);
    assert_eq!(span.weight, 700_000_000);
    assert_eq!(span.stretch, 100_000_000);
    assert_eq!(span.style, FontFaceStyle::Oblique(14_000_000));
    assert_eq!(span.word_break, WordBreak::KeepAll);
    assert_eq!(span.overflow_wrap, OverflowWrap::Anywhere);
    assert!(!span.wraps);
    assert_eq!(span.brush, owner);
    assert_eq!(span.families.len(), 2);
    assert!(matches!(&span.families[0], FontFamily::Named(name) if name == "Ahem"));
    assert!(matches!(span.families[1], FontFamily::Generic(GenericFamily::SansSerif)));
    assert_eq!(span.variations.len(), 1);
    assert_eq!(span.variations[0].tag, *b"wght");
    assert_eq!(span.variations[0].value, 650_000_000);
}

#[test]
fn axes_are_named_by_four_bytes() {
    assert_eq!(font_variation(VariationSetting { tag: 0, value: 1 }).tag, [0, 0, 0, 0]);
    assert_eq!(
        font_variation(VariationSetting { tag: u32::MAX, value: 1 }).tag,
        [255, 255, 255, 255]
    );
    assert_eq!(
        font_variation(VariationSetting { tag: 0x0102_0304, value: -7 }).tag,
        [1, 2, 3, 4]
    );
}

#[test]
fn system_font_names_are_known_on_their_platform() {
    let apple = named("-apple-system");
    let blink = named("BlinkMacSystemFont");
    let phone = Platform { apple: true, macos: false };
    assert!(matches!(
        query_font_family(&apple, MACOS),
        FontFamily::Generic(GenericFamily::SystemUi)
    ));
    assert!(matches!(
        query_font_family(&blink, MACOS),
        FontFamily::Generic(GenericFamily::SystemUi)
    ));
    assert!(matches!(
        query_font_family(&apple, phone),
        FontFamily::Generic(GenericFamily::SystemUi)
    ));
    assert!(matches!(
        query_font_family(&blink, phone),
        FontFamily::Named(name) if name == "BlinkMacSystemFont"
    ));
    assert!(matches!(
        query_font_family(&apple, LINUX),
        FontFamily::Named(name) if name == "-apple-system"
    ));
    assert!(matches!(
        query_font_family(&named("Arial"), MACOS),
        FontFamily::Named(name) if name == "Arial"
    ));
}

#[test]
fn generic_families_have_a_base_size() {
    assert_eq!(generic_font_family(GenericFontFamily::Cursive), GenericFamily::Cursive);
    assert_eq!(generic_font_family(GenericFontFamily::Unnamed), GenericFamily::SansSerif);
    assert_eq!(base_size_for_generic(GenericFontFamily::Monospace), 13 * 64);
    assert_eq!(base_size_for_generic(GenericFontFamily::Unnamed), 16 * 64);
}

#[test]
fn legacy_alignment_is_plain_alignment() {
    assert_eq!(text_align(TextAlignKeyword::Start), LineAlignment::Start);
    assert_eq!(text_align(TextAlignKeyword::End), LineAlignment::End);
    assert_eq!(text_align(TextAlignKeyword::Justify), LineAlignment::Justify);
    assert_eq!(text_align(TextAlignKeyword::LegacyCenter), LineAlignment::Center);
    assert_eq!(text_align(TextAlignKeyword::LegacyLeft), LineAlignment::Left);
    assert_eq!(text_align(TextAlignKeyword::LegacyRight), LineAlignment::Right);
}

fn font(zero: Glyph, water: Glyph, space: Glyph, ascent: i64, x_height: Option<i64>) -> Candidate {
    Candidate {
        readable: true,
        zero,
        water,
        space,
        metrics: FaceMetrics { ascent, x_height, cap_height: Some(7) },
    }
}

#[test]
fn metrics_come_from_the_first_font_that_has_the_character() {
    let broken = Candidate {
        readable: false,
        ..font(Glyph::Present(Some(1)), Glyph::Present(Some(1)), Glyph::Present(None), 1, None)
    };
    let latin = font(
        Glyph::Present(Some(8_000_000)),
        Glyph::Missing,
        Glyph::Present(Some(4_000_000)),
        12_000_000,
        Some(0),
    );
    let han = font(
        Glyph::Present(Some(9_000_000)),
        Glyph::Present(Some(16_000_000)),
        Glyph::Present(Some(5_000_000)),
        14_000_000,
        Some(6_000_000),
    );
    let fonts = vec![broken, latin, han];
    let metrics = query_font_metrics(&fonts);
    assert_eq!(metrics.zero_advance, Some(8_000_000));
    assert_eq!(metrics.ic_width, Some(16_000_000));
    assert_eq!(metrics.ascent, 12_000_000);
    // An x-height of zero is none.
    assert_eq!(metrics.x_height, None);
    assert_eq!(metrics.cap_height, Some(7));
    assert_eq!(find_font_for(&fonts, Sample::Space), Some(latin));
    assert_eq!(advance_of(&fonts, Sample::Space), Some(4_000_000));
    assert_eq!(query_font_metrics(&vec![han]).x_height, Some(6_000_000));
}

#[test]
fn without_a_font_there_are_no_metrics() {
    let metrics = query_font_metrics(&Vec::new());
    assert_eq!(metrics.ascent, 0);
    assert_eq!(metrics.x_height, None);
    assert_eq!(metrics.cap_height, None);
    assert_eq!(metrics.zero_advance, None);
    assert_eq!(metrics.ic_width, None);
    // A glyph without an advance gives none either.
    let mute = font(Glyph::Present(None), Glyph::Missing, Glyph::Missing, 3, None);
    assert_eq!(query_font_metrics(&vec![mute]).zero_advance, None);
    assert_eq!(query_font_metrics(&vec![mute]).ascent, 0);
}
