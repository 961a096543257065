//! The metrics of the font that an element's text matches, which font-relative units go by.
//!
//! Lengths are in millionths of a px here: a unit such as `ex` is multiplied, and what is
//! rounded before that would show.

use vstd::prelude::*;

verus! {

/// What a font says of a character.
#[derive(Clone, Copy, PartialEq, Eq, Debug, Structural)]
pub enum Glyph {
    /// It has no glyph for it.
    Missing,
    /// It has a glyph, of this advance if it says.
    Present(Option<i64>),
}

impl Glyph {
    /// The font has a glyph for the character.
    pub open spec fn present(self) -> bool {
        self is Present
    }

    /// Whether the font has a glyph for the character.
    pub fn is_present(self) -> (r: bool)
        ensures
            r == self.present(),
    {
        matches!(self, Glyph::Present(_))
    }
}

/// The vertical metrics of a font.
#[derive(Clone, Copy, PartialEq, Eq, Debug, Structural)]
pub struct FaceMetrics {
    pub ascent: i64,
    pub x_height: Option<i64>,
    pub cap_height: Option<i64>,
}

/// A font that text may be set in.
#[derive(Clone, Copy, PartialEq, Eq, Debug, Structural)]
pub struct Candidate {
    /// The font can be read.
    pub readable: bool,
    /// What it says of the digit zero.
    pub zero: Glyph,
    /// What it says of the ideograph for water.
    pub water: Glyph,
    /// What it says of a space.
    pub space: Glyph,
    pub metrics: FaceMetrics,
}

/// A character that metrics are taken of.
#[derive(Clone, Copy, PartialEq, Eq, Debug, Structural)]
pub enum Sample {
    Zero,
    Water,
    Space,
}

impl Candidate {
    /// What the font says of a sample.
    pub open spec fn says(self, s: Sample) -> Glyph {
        match s {
            Sample::Zero => self.zero,
            Sample::Water => self.water,
            Sample::Space => self.space,
        }
    }

    /// The font can be read and has a glyph for the sample.
    pub open spec fn covers(self, s: Sample) -> bool {
        self.readable && self.says(s).present()
    }

    fn glyph(&self, s: Sample) -> (r: Glyph)
        ensures
            r == self.says(s),
    {
        match s {
            Sample::Zero => self.zero,
            Sample::Water => self.water,
            Sample::Space => self.space,
        }
    }
}

/// The first of the fonts from the `k`th on that covers the sample.
pub open spec fn first_covering(fonts: Seq<Candidate>, s: Sample, k: int) -> Option<Candidate>
    decreases fonts.len() - k,
{
    if k < 0 || k >= fonts.len() {
        None
    } else if fonts[k].covers(s) {
        Some(fonts[k])
    } else {
        first_covering(fonts, s, k + 1)
    }
}

/// The first of the fonts that covers the sample.
pub fn find_font_for(fonts: &Vec<Candidate>, s: Sample) -> (r: Option<Candidate>)
    ensures
        r == first_covering(fonts@, s, 0),
{
    let mut k: usize = 0;
    while k < fonts.len()
        invariant
            k <= fonts@.len(),
            first_covering(fonts@, s, 0) == first_covering(fonts@, s, k as int),
        decreases fonts.len() - k,
    {
        let font: Candidate = fonts[k];
        if font.readable && font.glyph(s).is_present() {
            return Some(font);
        }
        k = k + 1;
    }
    None
}

/// The advance of the sample in the first font that covers it.
pub open spec fn advance(fonts: Seq<Candidate>, s: Sample) -> Option<i64> {
    match first_covering(fonts, s, 0) {
        Some(font) => match font.says(s) {
            Glyph::Present(a) => a,
            Glyph::Missing => None,
        },
        None => None,
    }
}

/// The advance of the sample in the first font that covers it.
pub fn advance_of(fonts: &Vec<Candidate>, s: Sample) -> (r: Option<i64>)
    ensures
        r == advance(fonts@, s),
{
    match find_font_for(fonts, s) {
        Some(font) => match font.glyph(s) {
            Glyph::Present(a) => a,
            Glyph::Missing => None,
        },
        None => None,
    }
}

/// What font-relative units go by.
#[derive(Clone, Copy, PartialEq, Eq, Debug, Structural)]
pub struct FontMetrics {
    pub ascent: i64,
    /// `ex`.
    pub x_height: Option<i64>,
    /// `cap`.
    pub cap_height: Option<i64>,
    /// `ch`.
    pub zero_advance: Option<i64>,
    /// `ic`.
    pub ic_width: Option<i64>,
}

/// What font-relative units go by: the advances of the digit zero and of an ideograph, each
/// in the first font that has it, and the vertical metrics of the first font that has a
/// space. A font that claims no x-height has none.
pub open spec fn metrics_of(fonts: Seq<Candidate>) -> FontMetrics {
    let face = match first_covering(fonts, Sample::Space, 0) {
        Some(font) => font.metrics,
        None => FaceMetrics { ascent: 0, x_height: None, cap_height: None },
    };
    FontMetrics {
        ascent: face.ascent,
        x_height: if face.x_height == Some(0i64) {
            None
        } else {
            face.x_height
        },
        cap_height: face.cap_height,
        zero_advance: advance(fonts, Sample::Zero),
        ic_width: advance(fonts, Sample::Water),
    }
}

/// What font-relative units go by, for text that is set in the first fitting one of `fonts`.
pub fn query_font_metrics(fonts: &Vec<Candidate>) -> (r: FontMetrics)
    ensures
        r == metrics_of(fonts@),
{
    let face: FaceMetrics = match find_font_for(fonts, Sample::Space) {
        Some(font) => font.metrics,
        None => FaceMetrics { ascent: 0, x_height: None, cap_height: None },
    };
    FontMetrics {
        ascent: face.ascent,
        x_height: match face.x_height {
            Some(h) => if h == 0 {
                None
            } else {
                Some(h)
            },
            None => None,
        },
        cap_height: face.cap_height,
        zero_advance: advance_of(fonts, Sample::Zero),
        ic_width: advance_of(fonts, Sample::Water),
    }
}

proof fn lemma_covering_prefix(fonts: Seq<Candidate>, more: Seq<Candidate>, s: Sample, k: int)
    requires
        0 <= k <= fonts.len(),
        first_covering(fonts, s, k) is Some,
    ensures
        first_covering(fonts + more, s, k) == first_covering(fonts, s, k),
    decreases fonts.len() - k,
{
    assert((fonts + more)[k] == fonts[k]);
    if !fonts[k].covers(s) {
        lemma_covering_prefix(fonts, more, s, k + 1);
    }
}

/// Fonts that are fallen back to change nothing about a character that a preferred font has.
pub proof fn preferred_fonts_decide(fonts: Seq<Candidate>, more: Seq<Candidate>, s: Sample)
    requires
        first_covering(fonts, s, 0) is Some,
    ensures
        first_covering(fonts + more, s, 0) == first_covering(fonts, s, 0),
        advance(fonts + more, s) == advance(fonts, s),
{
    lemma_covering_prefix(fonts, more, s, 0);
}

/// No x-height is zero: where a font claims that, there is none, and `ex` falls back.
pub proof fn no_x_height_is_zero(fonts: Seq<Candidate>)
    ensures
        metrics_of(fonts).x_height != Some(0i64),
{
}

/// Text is measured in the first font that can be read and has the character: the digit zero
/// and the ideograph by their advances there, and the vertical metrics by the first font that
/// has a space.
pub proof fn the_first_font_with_the_glyph_is_measured(fonts: Seq<Candidate>, k: int, a: Option<i64>)
    requires
        0 <= k < fonts.len(),
        fonts[k].readable,
    ensures
        fonts[k].zero == Glyph::Present(a) && (forall|j: int|
            0 <= j < k ==> !(#[trigger] fonts[j].readable) || fonts[j].zero is Missing)
            ==> metrics_of(fonts).zero_advance == a,
        fonts[k].water == Glyph::Present(a) && (forall|j: int|
            0 <= j < k ==> !(#[trigger] fonts[j].readable) || fonts[j].water is Missing)
            ==> metrics_of(fonts).ic_width == a,
        fonts[k].space is Present && (forall|j: int|
            0 <= j < k ==> !(#[trigger] fonts[j].readable) || fonts[j].space is Missing) ==> {
            &&& metrics_of(fonts).ascent == fonts[k].metrics.ascent
            &&& metrics_of(fonts).cap_height == fonts[k].metrics.cap_height
            &&& fonts[k].metrics.x_height != Some(0i64) ==> metrics_of(fonts).x_height
                == fonts[k].metrics.x_height
        },
{
    if fonts[k].zero is Present && forall|j: int|
        0 <= j < k ==> !(#[trigger] fonts[j].readable) || fonts[j].zero is Missing {
        lemma_first_is_found(fonts, Sample::Zero, 0, k);
    }
    if fonts[k].water is Present && forall|j: int|
        0 <= j < k ==> !(#[trigger] fonts[j].readable) || fonts[j].water is Missing {
        lemma_first_is_found(fonts, Sample::Water, 0, k);
    }
    if fonts[k].space is Present && forall|j: int|
        0 <= j < k ==> !(#[trigger] fonts[j].readable) || fonts[j].space is Missing {
        lemma_first_is_found(fonts, Sample::Space, 0, k);
    }
}

proof fn lemma_first_is_found(fonts: Seq<Candidate>, s: Sample, j: int, k: int)
    requires
        0 <= j <= k < fonts.len(),
        fonts[k].covers(s),
        forall|i: int| 0 <= i < k ==> !(#[trigger] fonts[i].readable) || !fonts[i].covers(s),
    ensures
        first_covering(fonts, s, j) == Some(fonts[k]),
    decreases k - j,
{
    if j < k {
        assert(!fonts[j].readable || !fonts[j].covers(s));
        lemma_first_is_found(fonts, s, j + 1, k);
    }
}

} // verus!
