//! What a text shaper is given of an element's text values: its font families, its sizes and
//! spacings as lengths, how its lines break and how they are aligned.

use vstd::prelude::*;

use crate::chars;
use crate::fonts::FontFaceStyle;
use crate::style::{resolve_line_height, used_line_height, LineHeight};
use crate::tree::TextBrush;
use crate::units::{Dimension, UNITS_PER_PX};

verus! {

/// A computed generic font family.
#[derive(Clone, Copy, PartialEq, Eq, Debug, Structural)]
pub enum GenericFontFamily {
    /// The family of no generic name.
    Unnamed,
    Serif,
    SansSerif,
    Monospace,
    Cursive,
    Fantasy,
    SystemUi,
}

/// A generic family that a shaper knows.
#[derive(Clone, Copy, PartialEq, Eq, Debug, Structural)]
pub enum GenericFamily {
    Serif,
    SansSerif,
    Monospace,
    Cursive,
    Fantasy,
    SystemUi,
}

/// The generic family that is asked for: sans-serif where it has no name.
pub open spec fn asked_generic(g: GenericFontFamily) -> GenericFamily {
    match g {
        GenericFontFamily::Unnamed => GenericFamily::SansSerif,
        GenericFontFamily::Serif => GenericFamily::Serif,
        GenericFontFamily::SansSerif => GenericFamily::SansSerif,
        GenericFontFamily::Monospace => GenericFamily::Monospace,
        GenericFontFamily::Cursive => GenericFamily::Cursive,
        GenericFontFamily::Fantasy => GenericFamily::Fantasy,
        GenericFontFamily::SystemUi => GenericFamily::SystemUi,
    }
}

/// The generic family that is asked for.
pub fn generic_font_family(g: GenericFontFamily) -> (r: GenericFamily)
    ensures
        r == asked_generic(g),
{
    match g {
        GenericFontFamily::Unnamed => GenericFamily::SansSerif,
        GenericFontFamily::Serif => GenericFamily::Serif,
        GenericFontFamily::SansSerif => GenericFamily::SansSerif,
        GenericFontFamily::Monospace => GenericFamily::Monospace,
        GenericFontFamily::Cursive => GenericFamily::Cursive,
        GenericFontFamily::Fantasy => GenericFamily::Fantasy,
        GenericFontFamily::SystemUi => GenericFamily::SystemUi,
    }
}

/// The font size of text in a generic family whose size is not given: 13 px where the family
/// is monospaced, else 16 px.
pub fn base_size_for_generic(g: GenericFontFamily) -> (r: i32)
    ensures
        r == (if g is Monospace {
            13 * UNITS_PER_PX
        } else {
            16 * UNITS_PER_PX
        }),
{
    match g {
        GenericFontFamily::Monospace => 13 * UNITS_PER_PX,
        _ => 16 * UNITS_PER_PX,
    }
}

/// A computed font family.
pub enum SingleFontFamily {
    FamilyName(String),
    Generic(GenericFontFamily),
}

/// A font family that a shaper is asked for.
pub enum FontFamily {
    Named(String),
    Generic(GenericFamily),
}

/// A computed font family, as a value.
pub ghost enum FamilyValue {
    FamilyName(Seq<char>),
    Generic(GenericFontFamily),
}

/// A font family that a shaper is asked for, as a value.
pub ghost enum AskedFamily {
    Named(Seq<char>),
    Generic(GenericFamily),
}

impl View for SingleFontFamily {
    type V = FamilyValue;

    open spec fn view(&self) -> FamilyValue {
        match *self {
            SingleFontFamily::FamilyName(name) => FamilyValue::FamilyName(name@),
            SingleFontFamily::Generic(g) => FamilyValue::Generic(g),
        }
    }
}

impl View for FontFamily {
    type V = AskedFamily;

    open spec fn view(&self) -> AskedFamily {
        match *self {
            FontFamily::Named(name) => AskedFamily::Named(name@),
            FontFamily::Generic(g) => AskedFamily::Generic(g),
        }
    }
}

/// The systems whose own names for their interface font pages rely on.
#[derive(Clone, Copy, PartialEq, Eq, Debug, Structural)]
pub struct Platform {
    /// It is a system of Apple's.
    pub apple: bool,
    /// It is macOS.
    pub macos: bool,
}

/// On `platform` the name stands for the interface font.
pub open spec fn names_system_font(name: Seq<char>, platform: Platform) -> bool {
    ||| platform.apple && name == "-apple-system"@
    ||| platform.macos && name == "BlinkMacSystemFont"@
}

/// The family that a shaper is asked for.
pub open spec fn asked_family(family: FamilyValue, platform: Platform) -> AskedFamily {
    match family {
        FamilyValue::FamilyName(name) => if names_system_font(name, platform) {
            AskedFamily::Generic(GenericFamily::SystemUi)
        } else {
            AskedFamily::Named(name)
        },
        FamilyValue::Generic(g) => AskedFamily::Generic(asked_generic(g)),
    }
}

/// The family that a shaper is asked for.
pub fn query_font_family(family: &SingleFontFamily, platform: Platform) -> (r: FontFamily)
    ensures
        r@ == asked_family(family@, platform),
{
    match family {
        SingleFontFamily::FamilyName(name) => {
            if (platform.apple && chars::same(name.as_str(), "-apple-system")) || (platform.macos
                && chars::same(name.as_str(), "BlinkMacSystemFont")) {
                FontFamily::Generic(GenericFamily::SystemUi)
            } else {
                let text: Vec<char> = chars::to_chars(name.as_str());
                assert(text@.subrange(0, text@.len() as int) =~= text@);
                FontFamily::Named(chars::slice_to_string(text.as_slice(), 0, text.len()))
            }
        },
        SingleFontFamily::Generic(g) => FontFamily::Generic(generic_font_family(*g)),
    }
}

/// A computed font variation: the axis as a number, and the position on it in millionths.
#[derive(Clone, Copy, PartialEq, Eq, Debug, Structural)]
pub struct VariationSetting {
    pub tag: u32,
    pub value: i64,
}

/// A font variation: the axis by the four bytes of its name.
#[derive(Clone, Copy, PartialEq, Eq, Debug)]
pub struct FontVariation {
    pub tag: [u8; 4],
    pub value: i64,
}

/// The number that four bytes spell, the first the highest.
pub open spec fn spelled(bytes: Seq<u8>) -> int {
    ((bytes[0] * 256 + bytes[1]) * 256 + bytes[2]) * 256 + bytes[3]
}

/// `r` is the variation that a shaper is given for `v`.
pub open spec fn is_variation(v: VariationSetting, r: FontVariation) -> bool {
    spelled(r.tag@) == v.tag && r.value == v.value
}

/// The variation that a shaper is given.
pub fn font_variation(v: VariationSetting) -> (r: FontVariation)
    ensures
        is_variation(v, r),
{
    let low: u8 = (v.tag % 256) as u8;
    let rest: u32 = v.tag / 256;
    let third: u8 = (rest % 256) as u8;
    let rest2: u32 = rest / 256;
    let second: u8 = (rest2 % 256) as u8;
    let first: u8 = (rest2 / 256) as u8;
    FontVariation { tag: [first, second, third, low], value: v.value }
}

/// `word-break`.
#[derive(Clone, Copy, PartialEq, Eq, Debug, Structural)]
pub enum WordBreak {
    Normal,
    BreakAll,
    KeepAll,
}

/// `overflow-wrap`.
#[derive(Clone, Copy, PartialEq, Eq, Debug, Structural)]
pub enum OverflowWrap {
    Normal,
    BreakWord,
    Anywhere,
}

/// The computed text values of an element.
pub struct TextProperties {
    pub families: Vec<SingleFontFamily>,
    pub font_size: i32,
    pub line_height: LineHeight,
    /// `font-weight` and `font-stretch`, in millionths.
    pub weight: u32,
    pub stretch: u32,
    pub style: FontFaceStyle,
    pub variations: Vec<VariationSetting>,
    /// Percentages go by the font size.
    pub letter_spacing: Dimension,
    pub word_spacing: Dimension,
    pub word_break: WordBreak,
    pub overflow_wrap: OverflowWrap,
    /// Lines may break where text allows it.
    pub wraps: bool,
}

/// What a shaper is given for a span of text.
pub struct SpanStyle {
    pub families: Vec<FontFamily>,
    pub font_size: i32,
    pub line_height: i32,
    pub weight: u32,
    pub stretch: u32,
    pub style: FontFaceStyle,
    pub variations: Vec<FontVariation>,
    pub letter_spacing: i32,
    pub word_spacing: i32,
    pub word_break: WordBreak,
    pub overflow_wrap: OverflowWrap,
    pub wraps: bool,
    /// The node that owns the text.
    pub brush: TextBrush,
}

/// `r` is what a shaper is given for text of the values `p` that `brush` owns.
pub open spec fn is_span_style(
    brush: TextBrush,
    p: TextProperties,
    platform: Platform,
    r: SpanStyle,
) -> bool {
    &&& r.families@.len() == p.families@.len()
    &&& forall|k: int|
        0 <= k < p.families@.len() ==> (#[trigger] r.families@[k])@ == asked_family(
            p.families@[k]@,
            platform,
        )
    &&& r.font_size == p.font_size
    &&& r.line_height == used_line_height(p.line_height, p.font_size as int)
    &&& r.weight == p.weight
    &&& r.stretch == p.stretch
    &&& r.style == p.style
    &&& r.variations@.len() == p.variations@.len()
    &&& forall|k: int|
        0 <= k < p.variations@.len() ==> is_variation(
            p.variations@[k],
            #[trigger] r.variations@[k],
        )
    &&& r.letter_spacing == p.letter_spacing.or_zero(Some(p.font_size as int))
    &&& r.word_spacing == p.word_spacing.or_zero(Some(p.font_size as int))
    &&& r.word_break == p.word_break
    &&& r.overflow_wrap == p.overflow_wrap
    &&& r.wraps == p.wraps
    &&& r.brush == brush
}

/// What a shaper is given for text of the values `p` that `brush` owns.
pub fn span_style(brush: TextBrush, p: &TextProperties, platform: Platform) -> (r: SpanStyle)
    ensures
        is_span_style(brush, *p, platform, r),
{
    let mut families: Vec<FontFamily> = Vec::new();
    let mut k: usize = 0;
    while k < p.families.len()
        invariant
            k <= p.families@.len(),
            families@.len() == k,
            forall|j: int|
                0 <= j < k ==> (#[trigger] families@[j])@ == asked_family(
                    p.families@[j]@,
                    platform,
                ),
        decreases p.families.len() - k,
    {
        families.push(query_font_family(&p.families[k], platform));
        k = k + 1;
    }
    let mut variations: Vec<FontVariation> = Vec::new();
    let mut i: usize = 0;
    while i < p.variations.len()
        invariant
            i <= p.variations@.len(),
            variations@.len() == i,
            forall|j: int|
                0 <= j < i ==> is_variation(p.variations@[j], #[trigger] variations@[j]),
        decreases p.variations.len() - i,
    {
        variations.push(font_variation(p.variations[i]));
        i = i + 1;
    }
    SpanStyle {
        families,
        font_size: p.font_size,
        line_height: resolve_line_height(p.line_height, p.font_size),
        weight: p.weight,
        stretch: p.stretch,
        style: p.style,
        variations,
        letter_spacing: p.letter_spacing.resolve_or_zero(Some(p.font_size)),
        word_spacing: p.word_spacing.resolve_or_zero(Some(p.font_size)),
        word_break: p.word_break,
        overflow_wrap: p.overflow_wrap,
        wraps: p.wraps,
        brush,
    }
}

/// The computed `text-align`.
#[derive(Clone, Copy, PartialEq, Eq, Debug, Structural)]
pub enum TextAlignKeyword {
    Start,
    End,
    Left,
    Right,
    Center,
    Justify,
    /// What the `align` attribute of older pages sets.
    LegacyLeft,
    LegacyRight,
    LegacyCenter,
}

/// How lines are aligned.
#[derive(Clone, Copy, PartialEq, Eq, Debug, Structural)]
pub enum LineAlignment {
    Start,
    End,
    Left,
    Right,
    Center,
    Justify,
}

/// How lines are aligned: the legacy keywords as those that they resemble.
pub open spec fn line_alignment(align: TextAlignKeyword) -> LineAlignment {
    match align {
        TextAlignKeyword::Start => LineAlignment::Start,
        TextAlignKeyword::End => LineAlignment::End,
        TextAlignKeyword::Left | TextAlignKeyword::LegacyLeft => LineAlignment::Left,
        TextAlignKeyword::Right | TextAlignKeyword::LegacyRight => LineAlignment::Right,
        TextAlignKeyword::Center | TextAlignKeyword::LegacyCenter => LineAlignment::Center,
        TextAlignKeyword::Justify => LineAlignment::Justify,
    }
}

/// How lines are aligned.
pub fn text_align(align: TextAlignKeyword) -> (r: LineAlignment)
    ensures
        r == line_alignment(align),
{
    match align {
        TextAlignKeyword::Start => LineAlignment::Start,
        TextAlignKeyword::End => LineAlignment::End,
        TextAlignKeyword::Left | TextAlignKeyword::LegacyLeft => LineAlignment::Left,
        TextAlignKeyword::Right | TextAlignKeyword::LegacyRight => LineAlignment::Right,
        TextAlignKeyword::Center | TextAlignKeyword::LegacyCenter => LineAlignment::Center,
        TextAlignKeyword::Justify => LineAlignment::Justify,
    }
}

/// The spelled name of a font axis gives its number back, so no two axes share a name.
pub proof fn axes_keep_their_names(a: VariationSetting, b: VariationSetting, r: FontVariation, s: FontVariation)
    requires
        is_variation(a, r),
        is_variation(b, s),
    ensures
        a.tag == b.tag <==> r.tag@ == s.tag@,
{
    let x = r.tag@;
    let y = s.tag@;
    if a.tag == b.tag {
        assert(x[3] == y[3]);
        assert(x[2] == y[2]);
        assert(x[1] == y[1]);
        assert(x[0] == y[0]);
        assert(x =~= y);
    }
}

/// A named family keeps its name wherever the platform has no other meaning for it.
pub proof fn named_families_are_kept(name: Seq<char>, platform: Platform)
    ensures
        !names_system_font(name, platform) ==> asked_family(FamilyValue::FamilyName(name), platform)
            == AskedFamily::Named(name),
        !platform.apple && !platform.macos ==> asked_family(FamilyValue::FamilyName(name), platform)
            == AskedFamily::Named(name),
{
}

} // verus!
