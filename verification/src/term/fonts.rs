//! Which font draws a character, and the glyphs drawn so far.
use std::collections::HashMap;
use vstd::prelude::*;
use vstd::string::*;

use crate::assoc::{AssocMap, MapKey};
use crate::gpu_term::glyph_key;
use crate::term::render::Glyph;
use crate::text::{copied, str_eq};

verus! {

broadcast use vstd::std_specs::hash::group_hash_axioms;

/// The path of a font file.
#[derive(Debug)]
pub struct FontPath(pub String);

impl MapKey for FontPath {
    type Key = Seq<char>;

    open spec fn key(&self) -> Seq<char> {
        self.0@
    }

    fn same(&self, other: &Self) -> (r: bool) {
        str_eq(self.0.as_str(), other.0.as_str())
    }
}

/// The next step to find the font for a character.
#[derive(Debug)]
pub enum FontStep {
    /// Draw with the primary font, bold or not.
    Primary,
    /// Ask the system for a font that covers the character.
    Query,
    /// Load this font, if it can be loaded.
    Load(String),
    /// Draw with this font, if it covers the character; with the primary font
    /// if not.
    Try(String),
}

/// What a [`FontStep`] stands for.
pub ghost enum StepView {
    Primary,
    Query,
    Load(Seq<char>),
    Try(Seq<char>),
}

impl View for FontStep {
    type V = StepView;

    open spec fn view(&self) -> StepView {
        match self {
            FontStep::Primary => StepView::Primary,
            FontStep::Query => StepView::Query,
            FontStep::Load(path) => StepView::Load(path@),
            FontStep::Try(path) => StepView::Try(path@),
        }
    }
}

/// The glyphs of one font size, and the fonts that stand in where the primary
/// font lacks a character.
pub struct GlyphCache {
    pub cell_width: usize,
    pub cell_height: usize,
    /// Where the baseline is, from the top of a cell.
    pub baseline: usize,
    /// The font that the system named for a character, if it named one.
    pub fallback_for_char: HashMap<u64, Option<String>>,
    /// The fonts loaded so far.
    pub fallback_fonts: AssocMap<FontPath, ()>,
    /// The glyphs drawn so far.
    pub cache: HashMap<u64, Glyph>,
}

/// What the system said of a character: nothing yet, no font, or a font.
pub open spec fn fallback(cache: GlyphCache, c: char) -> Option<Option<Seq<char>>> {
    if cache.fallback_for_char@.contains_key(c as u64) {
        match cache.fallback_for_char@[c as u64] {
            Some(path) => Some(Some(path@)),
            None => Some(None),
        }
    } else {
        None
    }
}

/// The next step to find the font for a character.
pub open spec fn next_step(cache: GlyphCache, c: char, primary_has_it: bool) -> StepView {
    if primary_has_it {
        StepView::Primary
    } else {
        match fallback(cache, c) {
            None => StepView::Query,
            Some(None) => StepView::Primary,
            Some(Some(path)) => if cache.fallback_fonts@.contains_key(path) {
                StepView::Try(path)
            } else {
                StepView::Load(path)
            },
        }
    }
}

/// Whether a character is drawn with the font that the system named for it:
/// it could be loaded, and does have the character. The primary font draws it
/// if not.
pub fn use_fallback(loaded: bool, has_it: bool) -> (r: bool)
    ensures
        r == (loaded && has_it),
{
    loaded && has_it
}

impl GlyphCache {
    pub fn new(cell_width: usize, cell_height: usize, baseline: usize) -> (r: Self)
        ensures
            r.cell_width == cell_width,
            r.cell_height == cell_height,
            r.baseline == baseline,
            r.fallback_for_char@ == Map::<u64, Option<String>>::empty(),
            r.fallback_fonts@ == Map::<Seq<char>, ()>::empty(),
            r.cache@ == Map::<u64, Glyph>::empty(),
    {
        GlyphCache {
            cell_width,
            cell_height,
            baseline,
            fallback_for_char: HashMap::new(),
            fallback_fonts: AssocMap::new(),
            cache: HashMap::new(),
        }
    }

    pub fn cell_width(&self) -> (r: usize)
        ensures
            r == self.cell_width,
    {
        self.cell_width
    }

    pub fn cell_height(&self) -> (r: usize)
        ensures
            r == self.cell_height,
    {
        self.cell_height
    }

    pub fn baseline(&self) -> (r: usize)
        ensures
            r == self.baseline,
    {
        self.baseline
    }

    /// The next step to find the font for a character: the primary font, if it
    /// covers it; else the font that the system names for it, which is asked
    /// for once and loaded on first use.
    pub fn font_for_char(&self, c: char, primary_has_it: bool) -> (r: FontStep)
        ensures
            r@ == next_step(*self, c, primary_has_it),
    {
        if primary_has_it {
            return FontStep::Primary;
        }
        let key: u64 = c as u32 as u64;
        match self.fallback_for_char.get(&key) {
            None => FontStep::Query,
            Some(None) => FontStep::Primary,
            Some(Some(path)) => {
                let name = FontPath(copied(path.as_str()));
                if self.fallback_fonts.contains_key(&name) {
                    FontStep::Try(copied(path.as_str()))
                } else {
                    FontStep::Load(copied(path.as_str()))
                }
            },
        }
    }

    /// Notes what the system said of a character, so that it is asked once.
    pub fn queried(&mut self, c: char, found: Option<String>)
        ensures
            final(self).fallback_for_char@ == old(self).fallback_for_char@.insert(c as u64, found),
            final(self).fallback_fonts@ == old(self).fallback_fonts@,
            final(self).cache@ == old(self).cache@,
            final(self).cell_width == old(self).cell_width,
            final(self).cell_height == old(self).cell_height,
            final(self).baseline == old(self).baseline,
            next_step(*final(self), c, false) !is Query,
    {
        self.fallback_for_char.insert(c as u32 as u64, found);
    }

    /// Notes that a font was loaded.
    pub fn loaded(&mut self, path: String)
        ensures
            final(self).fallback_fonts@ == old(self).fallback_fonts@.insert(path@, ()),
            final(self).fallback_for_char@ == old(self).fallback_for_char@,
            final(self).cache@ == old(self).cache@,
            final(self).cell_width == old(self).cell_width,
            final(self).cell_height == old(self).cell_height,
            final(self).baseline == old(self).baseline,
    {
        self.fallback_fonts.insert(FontPath(path), ());
    }

    /// The glyph of a character, if it was drawn before.
    pub fn glyph(&self, c: char, bold: bool) -> (r: Option<&Glyph>)
        ensures
            match r {
                Some(g) => self.cache@.contains_key(glyph_key(c, bold)) && *g
                    == self.cache@[glyph_key(c, bold)],
                None => !self.cache@.contains_key(glyph_key(c, bold)),
            },
    {
        let key: u64 = c as u32 as u64 * 2 + if bold {
            1
        } else {
            0
        };
        self.cache.get(&key)
    }

    /// Keeps a glyph that was drawn.
    pub fn store(&mut self, c: char, bold: bool, glyph: Glyph)
        ensures
            final(self).cache@ == old(self).cache@.insert(glyph_key(c, bold), glyph),
            final(self).fallback_for_char@ == old(self).fallback_for_char@,
            final(self).fallback_fonts@ == old(self).fallback_fonts@,
            final(self).cell_width == old(self).cell_width,
            final(self).cell_height == old(self).cell_height,
            final(self).baseline == old(self).baseline,
    {
        let key: u64 = c as u32 as u64 * 2 + if bold {
            1
        } else {
            0
        };
        self.cache.insert(key, glyph);
    }
}

/// The font for a character: the primary one where it has the character. Where
/// it does not, the system is asked once; then the font that it named is loaded
/// once and tried, and the primary font stands in where it named none.
pub proof fn law_how_a_font_is_found(cache: GlyphCache, c: char)
    ensures
        next_step(cache, c, true) == StepView::Primary,
        ({
            let step = next_step(cache, c, false);
            let asked = cache.fallback_for_char@.contains_key(c as u64);
            let named = cache.fallback_for_char@[c as u64];
            &&& !asked ==> step == StepView::Query
            &&& asked && named is None ==> step == StepView::Primary
            &&& asked && named is Some && !cache.fallback_fonts@.contains_key(named->0@) ==> step
                == StepView::Load(named->0@)
            &&& asked && named is Some && cache.fallback_fonts@.contains_key(named->0@) ==> step
                == StepView::Try(named->0@)
        }),
{
}

} // verus!
