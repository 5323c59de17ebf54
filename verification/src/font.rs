//! Font references and the font dictionary that measures text.
//!
//! A [`FontRef`] names a measurable typeface without owning glyph data.  Glyph
//! data lives in a [`FontDict`], keyed by the canonical full name derived
//! from family, weight and style.  Measurement itself is performed by the
//! `rusttype` crate; this module wraps those calls behind trusted items whose
//! results are named by uninterpreted spec functions, so that the rest of the
//! pipeline can reason about measurements as pure functions of the font, the
//! size and the text.

use vstd::prelude::*;
use vstd::string::*;

use std::collections::HashMap;

verus! {

/// The weight of a typeface.
#[derive(Debug, Clone, Copy, PartialEq, Eq, Structural)]
pub enum FontWeight {
    Light,
    Medium,
    Bold,
}

impl Default for FontWeight {
    fn default() -> (w: FontWeight)
        ensures
            w == FontWeight::Medium,
    {
        FontWeight::Medium
    }
}

impl FontWeight {
    /// The weight's part of a canonical full name.
    pub open spec fn spec_text(self) -> Seq<char> {
        match self {
            FontWeight::Light => "Light"@,
            FontWeight::Medium => "Medium"@,
            FontWeight::Bold => "Bold"@,
        }
    }

    pub fn as_text(&self) -> (r: &'static str)
        ensures
            r@ == self.spec_text(),
    {
        match self {
            FontWeight::Light => "Light",
            FontWeight::Medium => "Medium",
            FontWeight::Bold => "Bold",
        }
    }
}

/// The style of a typeface.  `Normal` adds nothing to the full name.
#[derive(Debug, Clone, Copy, PartialEq, Eq, Structural)]
pub enum FontStyle {
    Normal,
    Italic,
}

impl Default for FontStyle {
    fn default() -> (s: FontStyle)
        ensures
            s == FontStyle::Normal,
    {
        FontStyle::Normal
    }
}

impl FontStyle {
    /// The style's part of a canonical full name.
    pub open spec fn spec_text(self) -> Seq<char> {
        match self {
            FontStyle::Normal => ""@,
            FontStyle::Italic => "Italic"@,
        }
    }

    pub fn as_text(&self) -> (r: &'static str)
        ensures
            r@ == self.spec_text(),
    {
        match self {
            FontStyle::Normal => "",
            FontStyle::Italic => "Italic",
        }
    }
}

/// Where a typeface's glyph data is found: a local font file, or the
/// system's font sources.  Loading happens outside this crate; the variant
/// only records the author's intent.
#[derive(Debug, Clone, Copy, PartialEq, Eq, Structural)]
pub enum FontSource {
    Local,
    System,
}

impl Default for FontSource {
    fn default() -> (s: FontSource)
        ensures
            s == FontSource::System,
    {
        FontSource::System
    }
}

/// A reference to a measurable typeface: family name, size in layout units,
/// weight, style and source.  It does not own glyph data.
#[derive(Debug, Clone)]
pub struct FontRef {
    pub name: String,
    pub size: u32,
    pub weight: FontWeight,
    pub style: FontStyle,
    pub source: FontSource,
}

/// The mathematical model of a font reference: the same fields with the
/// family name as a sequence of characters.
#[verifier::ext_equal]
pub struct FontView {
    pub name: Seq<char>,
    pub size: u32,
    pub weight: FontWeight,
    pub style: FontStyle,
    pub source: FontSource,
}

impl View for FontRef {
    type V = FontView;

    open spec fn view(&self) -> FontView {
        FontView {
            name: self.name@,
            size: self.size,
            weight: self.weight,
            style: self.style,
            source: self.source,
        }
    }
}

impl FontView {
    /// The canonical key of this font in a font dictionary:
    /// `family-weight` followed by the style (empty for `Normal`).
    pub open spec fn full_name(self) -> Seq<char> {
        self.name + "-"@ + self.weight.spec_text() + self.style.spec_text()
    }
}

impl FontRef {
    /// The family name of the documented fallback face.
    pub fn default_name() -> (r: String)
        ensures
            r@ == "Arial"@,
    {
        String::from_str("Arial")
    }

    /// The size every font defaults to.
    pub fn default_size() -> (r: u32)
        ensures
            r == 12,
    {
        12
    }

    /// A copy of this font reference with the same model.
    pub fn duplicate(&self) -> (r: FontRef)
        ensures
            r@ == self@,
    {
        FontRef {
            name: self.name.clone(),
            size: self.size,
            weight: self.weight,
            style: self.style,
            source: self.source,
        }
    }

    /// The canonical full name, built as `family-weight` plus the style.
    pub fn full_name(&self) -> (r: String)
        ensures
            r@ == self@.full_name(),
    {
        let mut s: String = self.name.clone();
        s.append("-");
        s.append(self.weight.as_text());
        s.append(self.style.as_text());
        s
    }
}

impl Default for FontRef {
    fn default() -> (f: FontRef)
        ensures
            f.name@ == "Arial"@,
            f.size == 12,
            f.weight == FontWeight::Medium,
            f.style == FontStyle::Normal,
            f.source == FontSource::System,
    {
        FontRef {
            name: FontRef::default_name(),
            size: FontRef::default_size(),
            weight: FontWeight::Medium,
            style: FontStyle::Normal,
            source: FontSource::System,
        }
    }
}

/// The full name of the documented fallback face, `Arial` at medium weight
/// and normal style.
pub open spec fn spec_default_full_name() -> Seq<char> {
    "Arial-Medium"@
}

/// The fallback full name equals the full name of the default font.
pub proof fn lemma_default_full_name(f: FontView)
    requires
        f.name == "Arial"@,
        f.weight == FontWeight::Medium,
        f.style == FontStyle::Normal,
    ensures
        f.full_name() == spec_default_full_name(),
{
    reveal_strlit("Arial");
    reveal_strlit("-");
    reveal_strlit("Medium");
    reveal_strlit("");
    reveal_strlit("Arial-Medium");
    assert(f.full_name() =~= spec_default_full_name());
}

#[verifier::external_type_specification]
#[verifier::external_body]
pub struct ExRusttypeFont<'a>(rusttype::Font<'a>);

/// Whether rusttype accepts the bytes as a font: a function of the bytes
/// alone, since parsing is pure.
pub uninterp spec fn font_parseable(data: Seq<u8>) -> bool;

/// Relies on rusttype's `Font::try_from_vec`: parses owned font file bytes,
/// `None` exactly for data its parser rejects.  Nothing is assumed of the
/// parsed face itself.
pub assume_specification<'a> [ rusttype::Font::<'a>::try_from_vec ](data: Vec<u8>) -> (r: Option<
    rusttype::Font<'static>,
>)
    ensures
        r is Some <==> font_parseable(data@),
;

/// Whether the dictionary holds a face under the given full name.
pub uninterp spec fn dict_has(d: FontDict, name: Seq<char>) -> bool;

/// The face the dictionary holds under the given full name.
pub uninterp spec fn dict_font(d: FontDict, name: Seq<char>) -> rusttype::Font<'static>;

/// Whether the face can measure the glyph of character `c`: its glyph index
/// lies in range and the face carries horizontal metrics for it.  A function
/// of the face and the character alone.
pub uninterp spec fn char_measurable(f: rusttype::Font<'static>, c: char) -> bool;

/// The horizontal extent, in layout units, of the glyphs of `text` laid out
/// in one row with face `f` at `size`: a function of the face, the size and
/// the text alone.  Spoken of only where every character of `text` is
/// measurable, since rusttype's layout walk is partial.
pub uninterp spec fn measured_text_width(f: rusttype::Font<'static>, size: u32, text: Seq<char>) -> u32;

/// Whether the face can measure every character of the text.
pub open spec fn text_measurable(f: rusttype::Font<'static>, text: Seq<char>) -> bool {
    forall|i: int| 0 <= i < text.len() ==> char_measurable(f, #[trigger] text[i])
}

/// The height, in layout units, of one line set with face `f` at `size`:
/// a function of the face and the size alone.
pub uninterp spec fn measured_line_height(f: rusttype::Font<'static>, size: u32) -> u32;

/// The dictionary of loaded faces, keyed by canonical full name.  Populated
/// once before geometry computation, read-only afterwards.
pub struct FontDict {
    fonts: HashMap<String, rusttype::Font<'static>>,
}

/// The face a font reference resolves to: the face under the font's full
/// name if the dictionary holds one, else the documented fallback face.
pub open spec fn resolved_font(d: FontDict, f: FontView) -> rusttype::Font<'static> {
    if dict_has(d, f.full_name()) {
        dict_font(d, f.full_name())
    } else {
        dict_font(d, spec_default_full_name())
    }
}

/// Whether measuring with font reference `f` is possible: the dictionary
/// holds the referenced face or the fallback face.
pub open spec fn font_available(d: FontDict, f: FontView) -> bool {
    dict_has(d, f.full_name()) || dict_has(d, spec_default_full_name())
}

/// What measuring `text` with font reference `f` against dictionary `d`
/// returns: the laid-out extent when the resolved face can measure every
/// character, and 0 when it cannot (a defective face must not abort a
/// render; rusttype's layout walk would).
pub open spec fn measured_width(d: FontDict, f: FontView, text: Seq<char>) -> u32 {
    if text_measurable(resolved_font(d, f), text) {
        measured_text_width(resolved_font(d, f), f.size, text)
    } else {
        0
    }
}

/// What the line height of font reference `f` against dictionary `d` is.
pub open spec fn measured_height(d: FontDict, f: FontView) -> u32 {
    measured_line_height(resolved_font(d, f), f.size)
}

/// Relies on ttf-parser's `glyph_index`, `number_of_glyphs`,
/// `glyph_hor_advance` and `glyph_hor_side_bearing`, read through the face
/// rusttype holds: whether `c`'s glyph index lies in range and its
/// horizontal metrics are present.  rusttype's layout walk asserts or
/// unwraps on exactly these defects, so measuring consults this first.
#[verifier::external_body]
fn rt_char_measurable(f: &rusttype::Font<'static>, c: char) -> (r: bool)
    ensures
        r == char_measurable(*f, c),
{
    let face = match f {
        rusttype::Font::Ref(r) => owned_ttf_parser::AsFaceRef::as_face_ref(&**r),
        rusttype::Font::Owned(o) => owned_ttf_parser::AsFaceRef::as_face_ref(&**o),
    };
    let id = face.glyph_index(c).unwrap_or(owned_ttf_parser::GlyphId(0));
    id.0 < face.number_of_glyphs() && face.glyph_hor_advance(id).is_some()
        && face.glyph_hor_side_bearing(id).is_some()
}

/// Relies on rusttype's `Font::layout` and `pixel_bounding_box`: lays the
/// trimmed text out in one row at the given pixel size and returns the
/// horizontal distance from the first glyph's leftmost pixel to the last
/// glyph's rightmost pixel, a deterministic function of face, size and text;
/// 0 when no glyph has a bounding box.  The layout walk panics on a glyph
/// the face cannot measure, so every character must be measurable; it only
/// touches characters of the trimmed text, a subset of the text's.
#[verifier::external_body]
fn rt_text_width(f: &rusttype::Font<'static>, size: u32, text: &str) -> (w: u32)
    requires
        text_measurable(*f, text@),
    ensures
        w == measured_text_width(*f, size, text@),
{
    let scale = rusttype::Scale::uniform((size.min(0xffff) as u16).into());
    let v = f.v_metrics(scale);
    let glyphs: Vec<rusttype::PositionedGlyph> =
        f.layout(text.trim(), scale, rusttype::point(0u16.into(), v.ascent)).collect();
    let first = glyphs.first().and_then(|g| g.pixel_bounding_box());
    let last = glyphs.last().and_then(|g| g.pixel_bounding_box());
    match (first, last) {
        (Some(a), Some(b)) => (b.max.x - a.min.x).max(0) as u32,
        _ => 0,
    }
}

/// Relies on rusttype's `Font::v_metrics`: the ascent minus the descent at
/// the given pixel size, rounded up, a deterministic function of face and
/// size.
#[verifier::external_body]
fn rt_line_height(f: &rusttype::Font<'static>, size: u32) -> (h: u32)
    ensures
        h == measured_line_height(*f, size),
{
    let scale = rusttype::Scale::uniform((size.min(0xffff) as u16).into());
    let v = f.v_metrics(scale);
    (v.ascent - v.descent).ceil() as u32
}

impl FontDict {
    /// Relies on std's `HashMap::new`: the new dictionary holds nothing.
    #[verifier::external_body]
    pub fn new() -> (d: FontDict)
        ensures
            forall|k: Seq<char>| !dict_has(d, k),
    {
        FontDict { fonts: HashMap::new() }
    }

    /// Relies on std's `HashMap::insert`: adds the binding under `name` and
    /// leaves every other binding as it was.
    #[verifier::external_body]
    pub fn insert_font(&mut self, name: String, font: rusttype::Font<'static>)
        ensures
            dict_has(*final(self), name@),
            dict_font(*final(self), name@) == font,
            forall|k: Seq<char>|
                k != name@ ==> dict_has(*final(self), k) == dict_has(*old(self), k),
            forall|k: Seq<char>|
                k != name@ && dict_has(*old(self), k) ==> dict_font(*final(self), k) == dict_font(
                    *old(self),
                    k,
                ),
    {
        self.fonts.insert(name, font);
    }

    /// Relies on std's `HashMap::get`: the binding under `name`, if any.
    #[verifier::external_body]
    pub fn get_font(&self, name: &str) -> (r: Option<&rusttype::Font<'static>>)
        ensures
            r is Some <==> dict_has(*self, name@),
            r matches Some(f) ==> *f == dict_font(*self, name@),
    {
        self.fonts.get(name)
    }

    /// Parse font file bytes and store the face under `name`.  Returns false,
    /// leaving the dictionary unchanged, when the bytes are not a font.
    pub fn load_font_bytes(&mut self, name: String, data: Vec<u8>) -> (ok: bool)
        ensures
            ok == font_parseable(data@),
            ok ==> dict_has(*final(self), name@) && forall|k: Seq<char>|
                k != name@ ==> dict_has(*final(self), k) == dict_has(*old(self), k),
            !ok ==> *final(self) == *old(self),
    {
        match rusttype::Font::try_from_vec(data) {
            Some(f) => {
                self.insert_font(name, f);
                true
            },
            None => false,
        }
    }

    /// Whether the dictionary holds a face under the given full name.
    pub fn has_font(&self, name: &str) -> (r: bool)
        ensures
            r == dict_has(*self, name@),
    {
        self.get_font(name).is_some()
    }

    /// Measure the horizontal extent of `text` under font reference `font`,
    /// falling back to the default face when the referenced face is missing.
    /// A face that cannot measure some character of the text measures it as
    /// 0 rather than aborting the render.
    pub fn width_of(&self, font: &FontRef, text: &str) -> (w: u32)
        requires
            font_available(*self, font@),
        ensures
            w == measured_width(*self, font@, text@),
    {
        let name = font.full_name();
        let face = match self.get_font(name.as_str()) {
            Some(f) => f,
            None => {
                match self.get_font("Arial-Medium") {
                    Some(f) => f,
                    None => {
                        proof {
                            assert(false);
                        }
                        return 0;
                    },
                }
            },
        };
        let n = text.unicode_len();
        let mut i: usize = 0;
        while i < n
            invariant
                n == text@.len(),
                i <= n,
                *face == resolved_font(*self, font@),
                forall|j: int| 0 <= j < i ==> char_measurable(*face, #[trigger] text@[j]),
            decreases n - i,
        {
            if !rt_char_measurable(face, text.get_char(i)) {
                proof {
                    assert(!text_measurable(*face, text@));
                }
                return 0;
            }
            i = i + 1;
        }
        proof {
            assert(text_measurable(*face, text@));
        }
        rt_text_width(face, font.size, text)
    }

    /// The line height of font reference `font`, falling back to the default
    /// face when the referenced face is missing.
    pub fn height_of(&self, font: &FontRef) -> (h: u32)
        requires
            font_available(*self, font@),
        ensures
            h == measured_height(*self, font@),
    {
        let name = font.full_name();
        match self.get_font(name.as_str()) {
            Some(f) => rt_line_height(f, font.size),
            None => {
                match self.get_font("Arial-Medium") {
                    Some(f) => rt_line_height(f, font.size),
                    None => {
                        proof {
                            assert(false);
                        }
                        0
                    },
                }
            },
        }
    }
}

} // verus!
