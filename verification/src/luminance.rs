//! Luminance rendering: every pixel of the scaled image becomes the palette
//! character of its intensity.
//!
//! The palette is divided into buckets of equal width over the intensities
//! from 0 to 1. Each bucket is half open: it holds its lower bound and not
//! its upper one, and full intensity falls into the last bucket.

use crate::bitmap::{Bitmap, Grid, FULL_LEVEL};
use crate::scale::{proportional_height, resizable, resize_exact, resized, scaled_height};
use crate::text::{assemble, joined, row_views};
use vstd::prelude::*;

verus! {

/// How many times taller than wide the place of one output character is
/// taken to be.
pub const CHARACTER_ASPECT: u8 = 2;

/// The bucket of a level among `len` buckets: `level / 255 * len`, rounded
/// down and kept below `len`.
pub open spec fn palette_index(level: u8, len: nat) -> int
    recommends
        len > 0,
{
    let index = (level * len) / (FULL_LEVEL as int);
    if index < len {
        index
    } else {
        len - 1
    }
}

/// The character that stands for a level. With an empty palette every level
/// is a blank.
pub open spec fn palette_char(palette: Seq<char>, level: u8) -> char {
    if palette.len() == 0 {
        ' '
    } else {
        palette[palette_index(level, palette.len())]
    }
}

/// The character grid of an image: one character for each pixel.
pub open spec fn luminance_rows(image: Grid, palette: Seq<char>) -> Seq<Seq<char>> {
    Seq::new(
        image.height,
        |y: int| Seq::new(image.width, |x: int| palette_char(palette, image.at(x, y))),
    )
}

/// The text of an image: its character grid, row by row.
pub open spec fn luminance_text(image: Grid, palette: Seq<char>) -> Seq<char> {
    joined(luminance_rows(image, palette))
}

/// The size to which an image is scaled for `columns` output columns: one
/// pixel for each character, with the height that keeps the proportions.
pub open spec fn luminance_size(image: Grid, columns: nat) -> (nat, nat) {
    (columns, proportional_height(image.width, image.height, columns, CHARACTER_ASPECT as nat))
}

/// Whether `text` is what an image converts to with `columns` output
/// columns and a palette: the text of the image scaled to the size of the
/// output grid, or nothing where the image cannot be scaled.
pub open spec fn is_conversion(
    image: Grid,
    columns: nat,
    palette: Seq<char>,
    text: Option<Seq<char>>,
) -> bool {
    let size = luminance_size(image, columns);
    &&& text is Some <==> image.width > 0 && resizable(image, size.0, size.1)
    &&& text matches Some(t) ==> t == luminance_text(resized(image, size.0, size.1), palette)
}

/// Conversion can be repeated: one image, one number of columns and one
/// palette give one text.
pub proof fn lemma_conversion_repeatable(
    image: Grid,
    columns: nat,
    palette: Seq<char>,
    first: Option<Seq<char>>,
    second: Option<Seq<char>>,
)
    requires
        is_conversion(image, columns, palette, first),
        is_conversion(image, columns, palette, second),
    ensures
        first == second,
{
}

/// Zero intensity falls into the first bucket and full intensity into the
/// last.
pub proof fn lemma_palette_ends(len: nat)
    requires
        len > 0,
    ensures
        palette_index(0, len) == 0,
        palette_index(255, len) == len - 1,
{
    assert(0 * len == 0) by (nonlinear_arith);
    assert((255 * len) / 255 == len) by (nonlinear_arith);
}

/// Bucket `k` holds exactly the intensities from `k / len` up to, and
/// without, `(k + 1) / len`; the last bucket holds full intensity as well.
pub proof fn lemma_palette_bucket(level: u8, len: nat, k: int)
    requires
        len > 0,
        0 <= k < len,
    ensures
        palette_index(level, len) == k <==> (k * 255 <= level * len < (k + 1) * 255 || (k == len
            - 1 && level == 255)),
{
    let product = level * len;
    let index = product / 255;
    assert(0 <= product <= 255 * len) by (nonlinear_arith)
        requires
            0 <= level <= 255,
            0 <= len,
            product == level * len,
    ;
    assert(index * 255 <= product < (index + 1) * 255 && 0 <= index <= len) by (nonlinear_arith)
        requires
            index == product / 255,
            0 <= product <= 255 * len,
    ;
    if level == 255 {
        assert(255 * len == len * 255) by (nonlinear_arith);
    } else {
        assert(product < len * 255) by (nonlinear_arith)
            requires
                product == level * len,
                0 <= level < 255,
                0 < len,
        ;
    }
    assert((k + 1) * 255 == k * 255 + 255) by (nonlinear_arith);
    assert((index + 1) * 255 == index * 255 + 255) by (nonlinear_arith);
    if k * 255 <= product < (k + 1) * 255 {
        assert(index == k) by (nonlinear_arith)
            requires
                k * 255 <= product < k * 255 + 255,
                index * 255 <= product < index * 255 + 255,
        ;
    }
}

/// An intensity of exactly `k / len` falls into bucket `k`.
pub proof fn lemma_palette_boundary(level: u8, len: nat, k: int)
    requires
        len > 0,
        0 <= k < len,
        level * len == k * 255,
    ensures
        palette_index(level, len) == k,
{
    lemma_palette_bucket(level, len, k);
    assert((k + 1) * 255 == k * 255 + 255) by (nonlinear_arith);
}

/// A higher intensity never falls into an earlier bucket.
pub proof fn lemma_palette_monotonic(lower: u8, higher: u8, len: nat)
    requires
        len > 0,
        lower <= higher,
    ensures
        palette_index(lower, len) <= palette_index(higher, len),
{
    assert(lower * len <= higher * len) by (nonlinear_arith)
        requires
            lower <= higher,
            0 <= len,
    ;
    vstd::arithmetic::div_mod::lemma_div_is_ordered(lower * len, higher * len, 255);
}

/// Renders images by the luminance of their pixels, `columns` characters
/// wide, with the characters of a palette.
pub struct CharSearcherGray {
    charset: Vec<char>,
    columns: usize,
}

impl CharSearcherGray {
    /// The palette, from the character of zero intensity to that of full
    /// intensity.
    pub closed spec fn palette(&self) -> Seq<char> {
        self.charset@
    }

    /// The width of the output, in characters.
    pub closed spec fn columns(&self) -> nat {
        self.columns as nat
    }

    /// A renderer of `columns` characters to the line, with the palette
    /// `charset`.
    pub fn new(columns: usize, charset: Vec<char>) -> (searcher: Self)
        ensures
            searcher.palette() == charset@,
            searcher.columns() == columns,
    {
        CharSearcherGray { charset, columns }
    }

    /// The character of a pixel.
    pub fn find_similar_char(&self, pixel: u8) -> (found: char)
        ensures
            found == palette_char(self.palette(), pixel),
    {
        let len = self.charset.len();
        if len == 0 {
            return ' ';
        }
        proof {
            assert(0 <= pixel * len <= 255 * len && 255 * len <= 255 * 0xFFFF_FFFF_FFFF_FFFF)
                by (nonlinear_arith)
                requires
                    0 <= pixel <= 255,
                    0 <= len <= 0xFFFF_FFFF_FFFF_FFFF,
            ;
            assert((255 * len) / 255 == len) by (nonlinear_arith);
            vstd::arithmetic::div_mod::lemma_div_is_ordered(pixel * len, 255 * len, 255);
        }
        let index: u128 = (pixel as u128) * (len as u128) / (FULL_LEVEL as u128);
        if index < len as u128 {
            self.charset[index as usize]
        } else {
            self.charset[len - 1]
        }
    }

    /// The image scaled to the size of the output grid, where it can be
    /// scaled.
    pub fn scale(&self, image: &Bitmap) -> (scaled: Option<Bitmap>)
        ensures
            scaled is Some <==> image@.width > 0 && resizable(
                image@,
                luminance_size(image@, self.columns()).0,
                luminance_size(image@, self.columns()).1,
            ),
            scaled matches Some(bitmap) ==> bitmap@ == resized(
                image@,
                luminance_size(image@, self.columns()).0,
                luminance_size(image@, self.columns()).1,
            ),
    {
        match scaled_height(image.width(), image.height(), self.columns, CHARACTER_ASPECT) {
            Some(height) => resize_exact(image, self.columns, height),
            None => None,
        }
    }

    /// The text of an image that has the size of the output grid.
    pub fn render(&self, scaled: &Bitmap) -> (text: String)
        ensures
            text@ == luminance_text(scaled@, self.palette()),
    {
        let width = scaled.width();
        let height = scaled.height();
        let mut rows: Vec<Vec<char>> = Vec::new();
        let mut y: usize = 0;
        while y < height
            invariant
                y <= height,
                width == scaled@.width,
                height == scaled@.height,
                rows@.len() == y,
                forall|j: int|
                    0 <= j < y ==> (#[trigger] rows@[j])@ == luminance_rows(
                        scaled@,
                        self.palette(),
                    )[j],
            decreases height - y,
        {
            let mut row: Vec<char> = Vec::new();
            let mut x: usize = 0;
            while x < width
                invariant
                    x <= width,
                    y < height,
                    width == scaled@.width,
                    height == scaled@.height,
                    row@.len() == x,
                    forall|i: int|
                        0 <= i < x ==> #[trigger] row@[i] == palette_char(
                            self.palette(),
                            scaled@.at(i, y as int),
                        ),
                decreases width - x,
            {
                let level = scaled.get(x, y);
                row.push(self.find_similar_char(level));
                x = x + 1;
            }
            proof {
                assert(row@ =~= luminance_rows(scaled@, self.palette())[y as int]);
            }
            rows.push(row);
            y = y + 1;
        }
        proof {
            assert(row_views(rows@) =~= luminance_rows(scaled@, self.palette()));
        }
        assemble(&rows)
    }

    /// The text of an image: the image is scaled to the size of the output
    /// grid and rendered pixel by pixel.
    pub fn convert(&self, image: &Bitmap) -> (text: Option<String>)
        ensures
            is_conversion(
                image@,
                self.columns(),
                self.palette(),
                match text {
                    Some(t) => Some(t@),
                    None => None,
                },
            ),
    {
        match self.scale(image) {
            Some(scaled) => Some(self.render(&scaled)),
            None => None,
        }
    }
}

} // verus!
