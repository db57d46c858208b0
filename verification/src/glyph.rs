//! Choice of the font face that renders a character.
//!
//! The faces are tried in a fixed order of preference, and the first one
//! whose glyph table covers the character renders it.

use font_kit::font::Font;
use vstd::prelude::*;

verus! {

/// Why a character has no fingerprint.
#[derive(Clone, Copy, Debug, PartialEq, Eq, Structural)]
pub enum RenderError {
    /// No font face has a glyph for the character.
    GlyphUnavailable,
    /// The glyph's bitmap was not accepted for fingerprinting.
    FingerprintRejected,
}

/// `font_kit::font::Font`, a loaded font face. Nothing inside it is read
/// here but its glyph table, through `Font::glyph_for_char`.
#[verifier::external_type_specification]
#[verifier::external_body]
pub struct ExFont(Font);

/// The glyph table of a loaded face: the glyph index of every character
/// that the face covers.
pub uninterp spec fn glyph_table(font: Font) -> Map<char, u32>;

/// `Font::glyph_for_char` looks a character up in the glyph table of the
/// face: it gives the glyph index where the face covers the character, and
/// nothing where it does not.
pub assume_specification[ Font::glyph_for_char ](font: &Font, character: char) -> (glyph: Option<
    u32,
>)
    ensures
        glyph == if glyph_table(*font).dom().contains(character) {
            Some(glyph_table(*font)[character])
        } else {
            None::<u32>
        },
;

/// Of each face, whether it covers a character.
pub open spec fn coverage(faces: Seq<Font>, character: char) -> Seq<bool> {
    Seq::new(faces.len(), |i: int| glyph_table(faces[i]).dom().contains(character))
}

/// Whether face `i` is the first that covers the character, where `covers`
/// says of each face, in the order of preference, whether it does.
pub open spec fn is_first_covering(covers: Seq<bool>, i: int) -> bool {
    &&& 0 <= i < covers.len()
    &&& covers[i]
    &&& forall|j: int| 0 <= j < i ==> !covers[j]
}

/// The face that renders a character: the first that covers it. Where none
/// does, the character has no glyph.
pub fn select_face(covers: &Vec<bool>) -> (face: Result<usize, RenderError>)
    ensures
        match face {
            Ok(i) => is_first_covering(covers@, i as int),
            Err(error) => error == RenderError::GlyphUnavailable && forall|j: int|
                0 <= j < covers@.len() ==> !covers@[j],
        },
{
    let mut i: usize = 0;
    while i < covers.len()
        invariant
            i <= covers@.len(),
            forall|j: int| 0 <= j < i ==> !covers@[j],
        decreases covers@.len() - i,
    {
        if covers[i] {
            return Ok(i);
        }
        i = i + 1;
    }
    Err(RenderError::GlyphUnavailable)
}

/// The face among `faces`, in their order of preference, that renders a
/// character.
pub fn find_face(faces: &Vec<Font>, character: char) -> (face: Result<usize, RenderError>)
    ensures
        match face {
            Ok(i) => is_first_covering(coverage(faces@, character), i as int),
            Err(error) => error == RenderError::GlyphUnavailable && forall|j: int|
                0 <= j < faces@.len() ==> !coverage(faces@, character)[j],
        },
{
    let mut covers: Vec<bool> = Vec::new();
    let mut i: usize = 0;
    while i < faces.len()
        invariant
            i <= faces@.len(),
            covers@ == coverage(faces@, character).take(i as int),
        decreases faces@.len() - i,
    {
        let glyph = faces[i].glyph_for_char(character);
        covers.push(glyph.is_some());
        proof {
            assert(covers@ =~= coverage(faces@, character).take(i + 1));
        }
        i = i + 1;
    }
    proof {
        assert(coverage(faces@, character).take(i as int) =~= coverage(faces@, character));
    }
    select_face(&covers)
}

} // verus!
