//! The web fonts of a document.

use oxidepage_layout::engine::LayoutEngine;
use oxidepage_layout::fonts::{
    FontFaceInfo, FontFaceStyle, FontSystem, Offered, WebFontAttrs, WebFontOutcome,
    BUILT_IN_FAMILY,
};
use oxidepage_layout::tree::Viewport;

/// A font in the plain format: its signature, and nothing else.
const SFNT: &[u8] = &[0, 1, 0, 0, 7, 7];

fn attrs_with_weight(lightest: u32, heaviest: u32) -> WebFontAttrs {
    WebFontAttrs::from_face(&FontFaceInfo {
        lightest: lightest * 1_000_000,
        heaviest: heaviest * 1_000_000,
        style: FontFaceStyle::Normal,
        stretch: 100_000_000,
    })
}

fn normal_attrs() -> WebFontAttrs {
    attrs_with_weight(400, 400)
}

/// Offers a font whose one face joins the collection.
fn register(fonts: &mut FontSystem, family: &str, raw: &[u8], attrs: WebFontAttrs) -> WebFontOutcome {
    match fonts.offer(family, raw, attrs) {
        Offered::Undecodable => WebFontOutcome::Undecodable,
        Offered::Duplicate => WebFontOutcome::Duplicate,
        Offered::Fresh(_) => fonts.settle(1),
    }
}

#[test]
fn register_web_font_binds_family() {
    let mut fonts = FontSystem::new();
    assert_eq!(
        register(&mut fonts, "WebTest", SFNT, normal_attrs()),
        WebFontOutcome::Registered
    );
    // Registering identical bytes for the same family again is a no-op.
    assert_eq!(
        register(&mut fonts, "WebTest", SFNT, normal_attrs()),
        WebFontOutcome::Duplicate
    );
    assert_eq!(fonts.web_fonts.len(), 1);
    assert_eq!(fonts.web_fonts[0].family, "WebTest");
}

#[test]
fn bad_font_bytes_do_not_register() {
    let mut fonts = FontSystem::new();
    assert_eq!(
        register(&mut fonts, "Nope", b"definitely not a font", normal_attrs()),
        WebFontOutcome::Undecodable
    );
    assert_eq!(fonts.web_fonts.len(), 0);
}

#[test]
fn single_weight_is_overridden_but_a_range_is_left_to_the_fvar_axis() {
    assert!(attrs_with_weight(700, 700).weight.is_some(), "single-value weight overrides");
    assert!(
        attrs_with_weight(100, 900).weight.is_none(),
        "range weight is left to the fvar axis"
    );
}

#[test]
fn distinct_weights_sharing_bytes_both_register() {
    let mut fonts = FontSystem::new();
    assert_eq!(
        register(&mut fonts, "Shared", SFNT, attrs_with_weight(400, 400)),
        WebFontOutcome::Registered,
        "first (regular) face registers"
    );
    assert_eq!(
        register(&mut fonts, "Shared", SFNT, attrs_with_weight(700, 700)),
        WebFontOutcome::Registered,
        "distinct-weight face sharing the same bytes must also register"
    );
    assert_eq!(
        register(&mut fonts, "Shared", SFNT, attrs_with_weight(700, 700)),
        WebFontOutcome::Duplicate,
        "an identical re-registration remains deduplicated"
    );
    assert!(fonts.web_fonts.len() >= 2);
}

#[test]
fn web_fonts_do_not_leak_between_font_systems() {
    let sibling = FontSystem::new();
    let mut owner = FontSystem::new();
    assert_eq!(
        register(&mut owner, "Isolated", SFNT, normal_attrs()),
        WebFontOutcome::Registered
    );
    let later = FontSystem::new();
    assert_eq!(owner.web_fonts.len(), 1);
    assert_eq!(sibling.web_fonts.len(), 0);
    assert_eq!(later.web_fonts.len(), 0);
}

#[test]
fn a_font_without_a_face_is_forgotten() {
    let mut fonts = FontSystem::new();
    assert!(matches!(fonts.offer("Empty", SFNT, normal_attrs()), Offered::Fresh(_)));
    assert_eq!(fonts.settle(0), WebFontOutcome::Undecodable);
    assert!(matches!(fonts.offer("Empty", SFNT, normal_attrs()), Offered::Fresh(_)));
}

#[test]
fn usable_outcomes() {
    assert!(WebFontOutcome::Registered.is_usable());
    assert!(WebFontOutcome::Duplicate.is_usable());
    assert!(!WebFontOutcome::Undecodable.is_usable());
}

#[test]
fn a_registered_font_changes_the_world() {
    let mut engine = LayoutEngine::new(Viewport { width: 64, height: 64 });
    let before = engine.paint_stamp();
    assert!(matches!(engine.offer_web_font("F", SFNT, normal_attrs()), Offered::Fresh(_)));
    assert_eq!(engine.register_web_font(1), WebFontOutcome::Registered);
    let after = engine.paint_stamp();
    assert_ne!(before, after);
    // One that is there already changes nothing.
    assert!(matches!(engine.offer_web_font("F", SFNT, normal_attrs()), Offered::Duplicate));
    assert_eq!(engine.paint_stamp(), after);
}

#[test]
fn ahem_is_registered() {
    let mut fonts = FontSystem::new();
    assert_eq!(BUILT_IN_FAMILY, "Ahem");
    assert!(fonts.has_family("Ahem"));
    assert!(!fonts.has_family("F"));
    register(&mut fonts, "F", SFNT, normal_attrs());
    assert!(fonts.has_family("F") && fonts.has_family("Ahem"));
    // Another system has the built-in family alone.
    let other = FontSystem::new();
    assert!(other.has_family("Ahem") && !other.has_family("F"));
}
