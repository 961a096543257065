//! The web fonts of a document: what a downloaded `@font-face` resource is, and whether it
//! is new.
//!
//! The fonts themselves join a collection outside this module: [`FontSystem::offer`] says
//! whether there is one to add, and [`FontSystem::settle`] what became of it.

use vstd::prelude::*;

use crate::chars;
use crate::webfont::{decode_font, decoded};

verus! {

/// What became of a downloaded `@font-face` resource.
///
/// A source that cannot be decoded falls through to the next `src:` entry, while one that
/// merely repeats a registered one has succeeded.
#[derive(Clone, Copy, PartialEq, Eq, Debug, Structural)]
pub enum WebFontOutcome {
    /// A new face joined the collection, and text is to be shaped again.
    Registered,
    /// These very bytes and descriptors are already registered for this family.
    Duplicate,
    /// The resource is no font that can be decoded, or holds no face.
    Undecodable,
}

impl WebFontOutcome {
    /// The family now resolves to this font.
    pub open spec fn usable(self) -> bool {
        !(self is Undecodable)
    }

    /// Whether the family now resolves to this font, so that no further source is needed.
    pub fn is_usable(self) -> (r: bool)
        ensures
            r == self.usable(),
    {
        matches!(self, WebFontOutcome::Registered | WebFontOutcome::Duplicate)
    }
}

/// The `font-style` descriptor of a face.
#[derive(Clone, Copy, PartialEq, Eq, Debug, Structural)]
pub enum FontFaceStyle {
    Normal,
    Italic,
    /// Slanted, by so many millionths of a degree.
    Oblique(i32),
}

/// The descriptors of an `@font-face` rule that a face is matched by.
#[derive(Clone, Copy, PartialEq, Eq, Debug, Structural)]
pub struct FontFaceInfo {
    /// The ends of the range of `font-weight`, in millionths.
    pub lightest: u32,
    pub heaviest: u32,
    pub style: FontFaceStyle,
    /// `font-stretch`, in millionths of a percent.
    pub stretch: u32,
}

/// What a registered face is matched by.
#[derive(Clone, Copy, PartialEq, Eq, Debug, Structural)]
pub struct WebFontAttrs {
    pub width: u32,
    pub style: FontFaceStyle,
    /// The one weight of the face; none where its rule gives a range, for the font's own
    /// weight axis then decides.
    pub weight: Option<u32>,
}

impl WebFontAttrs {
    /// What a face is matched by.
    pub open spec fn of(info: FontFaceInfo) -> WebFontAttrs {
        WebFontAttrs {
            width: info.stretch,
            style: info.style,
            weight: if info.lightest == info.heaviest {
                Some(info.lightest)
            } else {
                None
            },
        }
    }

    /// What a face is matched by, from the descriptors of its rule.
    pub fn from_face(info: &FontFaceInfo) -> (r: WebFontAttrs)
        ensures
            r == WebFontAttrs::of(*info),
    {
        WebFontAttrs {
            width: info.stretch,
            style: info.style,
            weight: if info.lightest == info.heaviest {
                Some(info.lightest)
            } else {
                None
            },
        }
    }
}

/// A registered web font.
pub struct WebFont {
    pub family: String,
    pub sfnt: Vec<u8>,
    pub attrs: WebFontAttrs,
}

/// A web font as a value.
pub ghost struct Face {
    pub family: Seq<char>,
    pub sfnt: Seq<u8>,
    pub attrs: WebFontAttrs,
}

impl View for WebFont {
    type V = Face;

    open spec fn view(&self) -> Face {
        Face { family: self.family@, sfnt: self.sfnt@, attrs: self.attrs }
    }
}

/// The family that every system has, whatever fonts the machine has: the font that text falls
/// back to.
pub const BUILT_IN_FAMILY: &'static str = "Ahem";

/// The fonts of a document, those of the machine aside: a built-in family, and the web fonts
/// that the document has registered.
pub struct FontSystem {
    pub built_in: String,
    pub web_fonts: Vec<WebFont>,
}

/// What is to be done with a downloaded resource.
pub enum Offered {
    /// It cannot be decoded.
    Undecodable,
    /// It is registered already.
    Duplicate,
    /// It is new: its decoded font is to join the collection.
    Fresh(Vec<u8>),
}

fn same_bytes(a: &Vec<u8>, b: &Vec<u8>) -> (r: bool)
    ensures
        r == (a@ == b@),
{
    if a.len() != b.len() {
        return false;
    }
    let mut k: usize = 0;
    while k < a.len()
        invariant
            k <= a@.len() == b@.len(),
            forall|j: int| 0 <= j < k ==> a@[j] == b@[j],
        decreases a.len() - k,
    {
        if a[k] != b[k] {
            assert(a@[k as int] != b@[k as int]);
            return false;
        }
        k = k + 1;
    }
    assert(a@ =~= b@);
    true
}

fn copy_bytes(a: &Vec<u8>) -> (r: Vec<u8>)
    ensures
        r@ == a@,
{
    let mut out: Vec<u8> = Vec::new();
    let mut k: usize = 0;
    while k < a.len()
        invariant
            k <= a@.len(),
            out@ == a@.take(k as int),
        decreases a.len() - k,
    {
        out.push(a[k]);
        k = k + 1;
        assert(out@ =~= a@.take(k as int));
    }
    assert(out@ =~= a@);
    out
}

impl FontSystem {
    /// The registered web fonts, in order.
    pub open spec fn faces(&self) -> Seq<Face> {
        self.web_fonts@.map_values(|f: WebFont| f@)
    }

    /// The built-in family is there, and no web font is registered twice.
    pub open spec fn wf(&self) -> bool {
        self.built_in@ == BUILT_IN_FAMILY@ && self.faces().no_duplicates()
    }

    /// The family is the built-in one, or one that a web font was registered for.
    pub open spec fn has(&self, family: Seq<char>) -> bool {
        self.built_in@ == family || exists|k: int|
            0 <= k < self.faces().len() && (#[trigger] self.faces()[k]).family == family
    }

    /// A system without web fonts, whatever other systems hold.
    pub fn new() -> (r: FontSystem)
        ensures
            r.wf(),
            r.faces() == Seq::<Face>::empty(),
    {
        let r = FontSystem { built_in: BUILT_IN_FAMILY.to_owned(), web_fonts: Vec::new() };
        assert(r.faces() =~= Seq::empty());
        r
    }

    /// Whether text in the family is shaped with a font of the document or the built-in one.
    pub fn has_family(&self, family: &str) -> (r: bool)
        ensures
            r == self.has(family@),
    {
        if chars::same(self.built_in.as_str(), family) {
            return true;
        }
        let mut k: usize = 0;
        while k < self.web_fonts.len()
            invariant
                k <= self.web_fonts@.len(),
                self.built_in@ != family@,
                forall|j: int| 0 <= j < k ==> (#[trigger] self.faces()[j]).family != family@,
            decreases self.web_fonts.len() - k,
        {
            assert(self.faces()[k as int] == self.web_fonts@[k as int]@);
            if chars::same(self.web_fonts[k].family.as_str(), family) {
                return true;
            }
            k = k + 1;
        }
        false
    }

    fn holds(&self, family: &str, sfnt: &Vec<u8>, attrs: WebFontAttrs) -> (r: bool)
        ensures
            r == self.faces().contains(Face { family: family@, sfnt: sfnt@, attrs }),
    {
        let ghost face = Face { family: family@, sfnt: sfnt@, attrs };
        let mut k: usize = 0;
        while k < self.web_fonts.len()
            invariant
                k <= self.web_fonts@.len(),
                face == (Face { family: family@, sfnt: sfnt@, attrs }),
                forall|j: int| 0 <= j < k ==> #[trigger] self.faces()[j] != face,
            decreases self.web_fonts.len() - k,
        {
            let f: &WebFont = &self.web_fonts[k];
            assert(self.faces()[k as int] == f@);
            if f.attrs == attrs && chars::same(f.family.as_str(), family) && same_bytes(
                &f.sfnt,
                sfnt,
            ) {
                assert(self.faces()[k as int] == face);
                return true;
            }
            k = k + 1;
        }
        false
    }

    /// Decides what is to be done with a downloaded resource for `family`. A font that is new
    /// counts as registered from here on; [`FontSystem::settle`] follows.
    pub fn offer(&mut self, family: &str, raw: &[u8], attrs: WebFontAttrs) -> (r: Offered)
        requires
            old(self).wf(),
        ensures
            final(self).wf(),
            match decoded(raw@) {
                None => r is Undecodable && final(self).faces() == old(self).faces(),
                Some(sfnt) => {
                    let face = Face { family: family@, sfnt, attrs };
                    if old(self).faces().contains(face) {
                        r is Duplicate && final(self).faces() == old(self).faces()
                    } else {
                        &&& r matches Offered::Fresh(bytes) && bytes@ == sfnt
                        &&& final(self).faces() == old(self).faces().push(face)
                    }
                },
            },
    {
        let sfnt: Vec<u8> = match decode_font(raw) {
            Some(sfnt) => sfnt,
            None => {
                return Offered::Undecodable;
            },
        };
        if self.holds(family, &sfnt, attrs) {
            return Offered::Duplicate;
        }
        let name: Vec<char> = chars::to_chars(family);
        let copied: String = chars::slice_to_string(name.as_slice(), 0, name.len());
        assert(name@.subrange(0, name@.len() as int) =~= name@);
        let bytes: Vec<u8> = copy_bytes(&sfnt);
        let ghost face = Face { family: family@, sfnt: sfnt@, attrs };
        self.web_fonts.push(WebFont { family: copied, sfnt: bytes, attrs });
        proof {
            assert(self.faces() =~= old(self).faces().push(face));
            assert forall|i: int, j: int|
                0 <= i < j < self.faces().len() implies self.faces()[i] != self.faces()[j] by {
                if j == old(self).faces().len() {
                    assert(old(self).faces()[i] == self.faces()[i]);
                }
            }
        }
        Offered::Fresh(sfnt)
    }

    /// Says what became of the font that was offered last, of which `faces` joined the
    /// collection. One without a face is forgotten.
    pub fn settle(&mut self, faces: usize) -> (r: WebFontOutcome)
        requires
            old(self).wf(),
            old(self).web_fonts@.len() > 0,
        ensures
            final(self).wf(),
            faces == 0 ==> r is Undecodable && final(self).faces() == old(self).faces().drop_last(),
            faces > 0 ==> r is Registered && final(self).faces() == old(self).faces(),
    {
        if faces == 0 {
            let _ = self.web_fonts.pop();
            proof {
                let before = old(self).faces();
                assert(self.faces() =~= before.drop_last());
                assert forall|i: int, j: int|
                    0 <= i < j < self.faces().len() implies self.faces()[i] != self.faces()[j] by {
                    assert(before[i] != before[j]);
                }
            }
            WebFontOutcome::Undecodable
        } else {
            WebFontOutcome::Registered
        }
    }
}

/// Every system has the built-in family. A system without web fonts has no other one, whatever
/// has been registered elsewhere.
pub proof fn web_fonts_stay_in_their_system(system: FontSystem, family: Seq<char>)
    requires
        system.wf(),
    ensures
        system.has(BUILT_IN_FAMILY@),
        system.faces().len() == 0 ==> (system.has(family) <==> family == BUILT_IN_FAMILY@),
{
}

/// A family resolves once a font was registered for it, and no other family is touched.
pub proof fn registering_adds_one_family(
    before: FontSystem,
    after: FontSystem,
    face: Face,
    family: Seq<char>,
)
    requires
        before.wf(),
        after.wf(),
        after.faces() == before.faces().push(face),
    ensures
        after.has(family) <==> before.has(family) || family == face.family,
{
    let n = before.faces().len() as int;
    if before.has(family) && before.built_in@ != family {
        let k = choose|k: int|
            0 <= k < n && (#[trigger] before.faces()[k]).family == family;
        assert(after.faces()[k] == before.faces()[k]);
    }
    if family == face.family {
        assert(after.faces()[n].family == family);
    }
    if after.has(family) && after.built_in@ != family && family != face.family {
        let k = choose|k: int|
            0 <= k < after.faces().len() && (#[trigger] after.faces()[k]).family == family;
        assert(after.faces()[k] == before.faces()[k]);
    }
}

/// Fonts of different weight, style or width are different fonts, though they share their
/// family and their bytes.
pub proof fn descriptors_tell_fonts_apart(family: Seq<char>, sfnt: Seq<u8>, a: WebFontAttrs, b: WebFontAttrs)
    ensures
        (Face { family, sfnt, attrs: a }) == (Face { family, sfnt, attrs: b }) <==> a == b,
{
}

} // verus!
