//! Similarity rendering: the scaled image is cut into cells, and every cell
//! becomes the candidate character whose glyph is closest to it.
//!
//! How close a glyph is to a cell is measured outside this library, on their
//! fingerprints. The library prepares the cells, and decides on the
//! dissimilarities that come back.

use crate::bitmap::{lemma_grid_ext, Bitmap, Grid};
use crate::charset::{Charset, SPACE};
use crate::matcher::{is_choice, lemma_choice_unique, select, Ratio, SpaceBias};
use crate::scale::{proportional_height, resizable, resize_exact, resized, scaled_height};
use crate::text::{assemble, joined, row_views};
use crate::tiling::{
    even_offsets, lemma_tiles_cover, lemma_tiles_fit, tile_count, tile_offset, tileable,
};
use vstd::prelude::*;

verus! {

/// The dissimilarities of one cell: to the blank, and to each candidate in
/// the order of the charset.
#[derive(Clone, Debug)]
pub struct CellScores {
    pub space: u64,
    pub candidates: Vec<u64>,
}

/// The winner among the blank and the candidates: `None` for the blank,
/// `Some(i)` for candidate `i`.
pub open spec fn choice_of(space: nat, scores: Seq<u64>, bias: Ratio) -> Option<int> {
    choose|choice: Option<int>| is_choice(space, scores, bias, choice)
}

/// The character of a choice.
pub open spec fn chosen_char<F>(entries: Seq<(char, F)>, choice: Option<int>) -> char {
    match choice {
        None => SPACE,
        Some(i) => entries[i].0,
    }
}

/// The character of a cell.
pub open spec fn cell_char<F>(entries: Seq<(char, F)>, bias: Ratio, cell: CellScores) -> char {
    chosen_char(entries, choice_of(cell.space as nat, cell.candidates@, bias))
}

/// Whether every cell has one score for each of `candidates` candidates.
pub open spec fn fully_scored(candidates: nat, scores: Seq<Vec<CellScores>>) -> bool {
    forall|r: int, c: int|
        0 <= r < scores.len() && 0 <= c < scores[r]@.len() ==> (
        #[trigger] scores[r]@[c]).candidates@.len() == candidates
}

/// The character grid of a grid of cells.
pub open spec fn similarity_rows<F>(
    entries: Seq<(char, F)>,
    bias: Ratio,
    scores: Seq<Vec<CellScores>>,
) -> Seq<Seq<char>> {
    Seq::new(
        scores.len(),
        |r: int| Seq::new(scores[r]@.len(), |c: int| cell_char(entries, bias, scores[r]@[c])),
    )
}

/// The text of a grid of cells: its character grid, row by row.
pub open spec fn similarity_text<F>(
    entries: Seq<(char, F)>,
    bias: Ratio,
    scores: Seq<Vec<CellScores>>,
) -> Seq<char> {
    joined(similarity_rows(entries, bias, scores))
}

/// The size to which an image is scaled for `columns` output columns of
/// cells `cell_width` wide: the scale factor is what brings the width to
/// `columns * cell_width`, and the height follows from it.
pub open spec fn similarity_size(image: Grid, columns: nat, cell_width: nat) -> (nat, nat) {
    (
        columns * cell_width,
        proportional_height(image.width, image.height, columns * cell_width, 1),
    )
}

/// Whether `cells` holds the cells of an image: a row of cells for each tile
/// of the height, in it a cell for each tile of the width, each cell the
/// block of the image at the offsets of its two tiles.
pub open spec fn is_cell_grid(
    image: Grid,
    cell_width: nat,
    cell_height: nat,
    cells: Seq<Vec<Bitmap>>,
) -> bool {
    &&& cells.len() == tile_count(cell_height, image.height)
    &&& forall|r: int|
        0 <= r < cells.len() ==> (#[trigger] cells[r])@.len() == tile_count(cell_width, image.width)
    &&& forall|r: int, c: int|
        0 <= r < cells.len() && 0 <= c < cells[r]@.len() ==> {
            &&& (#[trigger] cells[r]@[c])@.width == cell_width
            &&& cells[r]@[c]@.height == cell_height
            &&& cells[r]@[c]@.is_block_of(
                image,
                tile_offset(cell_width, image.width, c),
                tile_offset(cell_height, image.height, r),
            )
        }
}

/// An image has one grid of cells only: cutting it again gives the same
/// cells in the same places.
pub proof fn lemma_cell_grid_unique(
    image: Grid,
    cell_width: nat,
    cell_height: nat,
    first: Seq<Vec<Bitmap>>,
    second: Seq<Vec<Bitmap>>,
)
    requires
        is_cell_grid(image, cell_width, cell_height, first),
        is_cell_grid(image, cell_width, cell_height, second),
    ensures
        first.len() == second.len(),
        forall|r: int| 0 <= r < first.len() ==> (#[trigger] first[r])@.len() == second[r]@.len(),
        forall|r: int, c: int|
            0 <= r < first.len() && 0 <= c < first[r]@.len() ==> (#[trigger] first[r]@[c])@
                == second[r]@[c]@,
{
    assert forall|r: int| 0 <= r < first.len() implies (#[trigger] first[r])@.len()
        == second[r]@.len() by {
        assert(second[r]@.len() == tile_count(cell_width, image.width));
    }
    assert forall|r: int, c: int|
        0 <= r < first.len() && 0 <= c < first[r]@.len() implies (#[trigger] first[r]@[c])@
        == second[r]@[c]@ by {
        assert(second[r]@.len() == tile_count(cell_width, image.width));
        let a = first[r]@[c]@;
        let b = second[r]@[c]@;
        let left = tile_offset(cell_width, image.width, c);
        let top = tile_offset(cell_height, image.height, r);
        assert(a.is_block_of(image, left, top));
        assert(b.is_block_of(image, left, top));
        assert forall|x: int, y: int| #[trigger] a.contains(x, y) implies a.at(x, y) == b.at(
            x,
            y,
        ) by {
            assert(b.contains(x, y));
        }
        lemma_grid_ext(a, b);
    }
}

/// The cells leave no gap: every pixel of the image is a pixel of the cell
/// that this function names by its row and column.
pub proof fn lemma_cell_grid_covers(
    image: Grid,
    cell_width: nat,
    cell_height: nat,
    cells: Seq<Vec<Bitmap>>,
    x: int,
    y: int,
) -> (place: (int, int))
    requires
        tileable(cell_width, image.width),
        tileable(cell_height, image.height),
        is_cell_grid(image, cell_width, cell_height, cells),
        image.contains(x, y),
    ensures
        0 <= place.0 < cells.len(),
        0 <= place.1 < cells[place.0]@.len(),
        ({
            let cell = cells[place.0]@[place.1]@;
            let left = tile_offset(cell_width, image.width, place.1);
            let top = tile_offset(cell_height, image.height, place.0);
            &&& cell.contains(x - left, y - top)
            &&& cell.at(x - left, y - top) == image.at(x, y)
        }),
{
    let r = lemma_tiles_cover(cell_height, image.height, y);
    let c = lemma_tiles_cover(cell_width, image.width, x);
    lemma_tiles_fit(cell_height, image.height, r);
    lemma_tiles_fit(cell_width, image.width, c);
    assert(cells[r]@.len() == tile_count(cell_width, image.width));
    let cell = cells[r]@[c]@;
    let left = tile_offset(cell_width, image.width, c);
    let top = tile_offset(cell_height, image.height, r);
    assert(cell.is_block_of(image, left, top));
    assert(cell.contains(x - left, y - top));
    (r, c)
}

/// Whether `scores` are what a measure of dissimilarity gives for a grid of
/// cells: for each cell its dissimilarity to the blank and to each candidate
/// in turn.
pub open spec fn scored_by<F>(
    cells: Seq<Vec<Bitmap>>,
    entries: Seq<(char, F)>,
    space: F,
    measure: spec_fn(Grid, F) -> u64,
    scores: Seq<Vec<CellScores>>,
) -> bool {
    &&& scores.len() == cells.len()
    &&& forall|r: int| 0 <= r < cells.len() ==> (#[trigger] scores[r])@.len() == cells[r]@.len()
    &&& forall|r: int, c: int|
        0 <= r < cells.len() && 0 <= c < cells[r]@.len() ==> {
            &&& (#[trigger] scores[r]@[c]).space == measure(cells[r]@[c]@, space)
            &&& scores[r]@[c].candidates@.len() == entries.len()
            &&& forall|k: int|
                0 <= k < entries.len() ==> #[trigger] scores[r]@[c].candidates@[k] == measure(
                    cells[r]@[c]@,
                    entries[k].1,
                )
        }
}

/// Rendering can be repeated: with one measure of dissimilarity, one image
/// of the size of the output grid, one charset in one order and one space
/// bias give one text, however often the image is cut and its cells are
/// scored.
pub proof fn lemma_rendering_repeatable<F>(
    image: Grid,
    cell_width: nat,
    cell_height: nat,
    entries: Seq<(char, F)>,
    space: F,
    bias: Ratio,
    measure: spec_fn(Grid, F) -> u64,
    first_cells: Seq<Vec<Bitmap>>,
    first_scores: Seq<Vec<CellScores>>,
    second_cells: Seq<Vec<Bitmap>>,
    second_scores: Seq<Vec<CellScores>>,
)
    requires
        is_cell_grid(image, cell_width, cell_height, first_cells),
        is_cell_grid(image, cell_width, cell_height, second_cells),
        scored_by(first_cells, entries, space, measure, first_scores),
        scored_by(second_cells, entries, space, measure, second_scores),
    ensures
        similarity_text(entries, bias, first_scores) == similarity_text(
            entries,
            bias,
            second_scores,
        ),
{
    lemma_cell_grid_unique(image, cell_width, cell_height, first_cells, second_cells);
    let first_rows = similarity_rows(entries, bias, first_scores);
    let second_rows = similarity_rows(entries, bias, second_scores);
    assert(first_rows.len() == second_rows.len());
    assert forall|r: int| 0 <= r < first_rows.len() implies first_rows[r] == second_rows[r] by {
        assert(first_scores[r]@.len() == first_cells[r]@.len());
        assert(second_scores[r]@.len() == second_cells[r]@.len());
        assert(first_cells[r]@.len() == second_cells[r]@.len());
        assert forall|c: int| 0 <= c < first_rows[r].len() implies first_rows[r][c]
            == second_rows[r][c] by {
            let a = first_scores[r]@[c];
            let b = second_scores[r]@[c];
            assert(first_cells[r]@[c]@ == second_cells[r]@[c]@);
            assert(a.space == b.space);
            assert(a.candidates@ =~= b.candidates@);
        }
        assert(first_rows[r] =~= second_rows[r]);
    }
    assert(first_rows =~= second_rows);
}

/// The winner is the one choice that `is_choice` accepts.
pub proof fn lemma_choice_of(space: nat, scores: Seq<u64>, bias: Ratio, choice: Option<int>)
    requires
        is_choice(space, scores, bias, choice),
    ensures
        choice_of(space, scores, bias) == choice,
{
    lemma_choice_unique(space, scores, bias, choice_of(space, scores, bias), choice);
}

/// Renders images by the similarity of their cells to glyphs: `columns`
/// cells wide, each cell `cell.0` by `cell.1` pixels.
pub struct CharSearcherDSSIM<F> {
    charset: Charset<F>,
    columns: usize,
    cell: (usize, usize),
    space_bias: SpaceBias,
}

impl<F> CharSearcherDSSIM<F> {
    /// The candidates, in order, with their fingerprints.
    pub closed spec fn entries(&self) -> Seq<(char, F)> {
        self.charset@
    }

    /// The fingerprint of the blank.
    pub closed spec fn space(&self) -> F {
        self.charset.space()
    }

    /// The width of the output, in characters.
    pub closed spec fn columns(&self) -> nat {
        self.columns as nat
    }

    /// The width of a cell, in pixels.
    pub closed spec fn cell_width(&self) -> nat {
        self.cell.0 as nat
    }

    /// The height of a cell, in pixels.
    pub closed spec fn cell_height(&self) -> nat {
        self.cell.1 as nat
    }

    /// How strongly the blank is favoured.
    pub closed spec fn bias(&self) -> Ratio {
        self.space_bias@
    }

    /// A renderer of `columns` cells to the line, each `cell.0` pixels wide
    /// and `cell.1` pixels tall, with the candidates of `charset`.
    pub fn new(
        columns: usize,
        charset: Charset<F>,
        cell: (usize, usize),
        space_bias: SpaceBias,
    ) -> (searcher: Self)
        ensures
            searcher.entries() == charset@,
            searcher.space() == charset.space(),
            searcher.columns() == columns,
            searcher.cell_width() == cell.0,
            searcher.cell_height() == cell.1,
            searcher.bias() == space_bias@,
    {
        CharSearcherDSSIM { charset, columns, cell, space_bias }
    }

    /// The blank and the candidates.
    pub fn charset(&self) -> (charset: &Charset<F>)
        ensures
            charset@ == self.entries(),
            charset.space() == self.space(),
    {
        &self.charset
    }

    /// The image scaled to the size of the output grid, where it can be
    /// scaled.
    pub fn scale(&self, image: &Bitmap) -> (scaled: Option<Bitmap>)
        ensures
            scaled is Some <==> image@.width > 0 && resizable(
                image@,
                similarity_size(image@, self.columns(), self.cell_width()).0,
                similarity_size(image@, self.columns(), self.cell_width()).1,
            ),
            scaled matches Some(bitmap) ==> bitmap@ == resized(
                image@,
                similarity_size(image@, self.columns(), self.cell_width()).0,
                similarity_size(image@, self.columns(), self.cell_width()).1,
            ),
    {
        let width = match self.columns.checked_mul(self.cell.0) {
            Some(width) => width,
            None => {
                return None;
            },
        };
        match scaled_height(image.width(), image.height(), width, 1) {
            Some(height) => resize_exact(image, width, height),
            None => None,
        }
    }

    /// The cells of an image that has the size of the output grid, where it
    /// can be tiled: row by row from the top, each row from the left.
    pub fn cells(&self, scaled: &Bitmap) -> (cells: Option<Vec<Vec<Bitmap>>>)
        ensures
            cells is Some <==> tileable(self.cell_width(), scaled@.width) && tileable(
                self.cell_height(),
                scaled@.height,
            ),
            cells matches Some(grid) ==> is_cell_grid(
                scaled@,
                self.cell_width(),
                self.cell_height(),
                grid@,
            ),
    {
        let (cell_width, cell_height) = self.cell;
        let width = scaled.width();
        let height = scaled.height();
        if (0 < width && (cell_width == 0 || width < cell_width)) || (0 < height && (cell_height
            == 0 || height < cell_height)) {
            return None;
        }
        let line_offsets = even_offsets(cell_height, height);
        let col_offsets = even_offsets(cell_width, width);
        let mut grid: Vec<Vec<Bitmap>> = Vec::new();
        let mut r: usize = 0;
        while r < line_offsets.len()
            invariant
                r <= line_offsets@.len(),
                width == scaled@.width,
                height == scaled@.height,
                line_offsets@.len() == tile_count(cell_height as nat, height as nat),
                col_offsets@.len() == tile_count(cell_width as nat, width as nat),
                forall|i: int|
                    0 <= i < line_offsets@.len() ==> line_offsets@[i] as int == tile_offset(
                        cell_height as nat,
                        height as nat,
                        i,
                    ) && line_offsets@[i] + cell_height <= height,
                forall|i: int|
                    0 <= i < col_offsets@.len() ==> col_offsets@[i] as int == tile_offset(
                        cell_width as nat,
                        width as nat,
                        i,
                    ) && col_offsets@[i] + cell_width <= width,
                grid@.len() == r,
                forall|i: int|
                    0 <= i < r ==> (#[trigger] grid@[i])@.len() == col_offsets@.len(),
                forall|i: int, j: int|
                    0 <= i < r && 0 <= j < col_offsets@.len() ==> {
                        &&& (#[trigger] grid@[i]@[j])@.width == cell_width
                        &&& grid@[i]@[j]@.height == cell_height
                        &&& grid@[i]@[j]@.is_block_of(
                            scaled@,
                            tile_offset(cell_width as nat, width as nat, j),
                            tile_offset(cell_height as nat, height as nat, i),
                        )
                    },
            decreases line_offsets@.len() - r,
        {
            let top = line_offsets[r];
            let mut row: Vec<Bitmap> = Vec::new();
            let mut c: usize = 0;
            while c < col_offsets.len()
                invariant
                    c <= col_offsets@.len(),
                    r < line_offsets@.len(),
                    width == scaled@.width,
                    height == scaled@.height,
                    top as int == tile_offset(cell_height as nat, height as nat, r as int),
                    top + cell_height <= height,
                    forall|i: int|
                        0 <= i < col_offsets@.len() ==> col_offsets@[i] as int == tile_offset(
                            cell_width as nat,
                            width as nat,
                            i,
                        ) && col_offsets@[i] + cell_width <= width,
                    row@.len() == c,
                    forall|j: int|
                        0 <= j < c ==> {
                            &&& (#[trigger] row@[j])@.width == cell_width
                            &&& row@[j]@.height == cell_height
                            &&& row@[j]@.is_block_of(
                                scaled@,
                                tile_offset(cell_width as nat, width as nat, j),
                                tile_offset(cell_height as nat, height as nat, r as int),
                            )
                        },
                decreases col_offsets@.len() - c,
            {
                let left = col_offsets[c];
                row.push(scaled.sub_image(left, top, cell_width, cell_height));
                c = c + 1;
            }
            grid.push(row);
            r = r + 1;
        }
        Some(grid)
    }

    /// The character of a cell, given its dissimilarity to the blank and to
    /// each candidate in the order of the charset. There is none where the
    /// scores are not one for each candidate.
    pub fn find_similar_char(&self, space_score: u64, scores: &Vec<u64>) -> (found: Option<char>)
        ensures
            found is Some <==> scores@.len() == self.entries().len(),
            found matches Some(character) ==> character == chosen_char(
                self.entries(),
                choice_of(space_score as nat, scores@, self.bias()),
            ),
    {
        if scores.len() != self.charset.len() {
            return None;
        }
        let choice = select(space_score, scores, self.space_bias);
        match choice {
            None => {
                proof {
                    lemma_choice_of(space_score as nat, scores@, self.bias(), None);
                }
                Some(SPACE)
            },
            Some(i) => {
                proof {
                    lemma_choice_of(space_score as nat, scores@, self.bias(), Some(i as int));
                }
                Some(self.charset.character(i))
            },
        }
    }

    /// The text of a grid of cells, given the dissimilarities of each cell.
    /// There is none where the scores of a cell are not one for each
    /// candidate.
    pub fn resolve(&self, scores: &Vec<Vec<CellScores>>) -> (text: Option<String>)
        ensures
            text is Some <==> fully_scored(self.entries().len(), scores@),
            text matches Some(t) ==> t@ == similarity_text(self.entries(), self.bias(), scores@),
    {
        let mut rows: Vec<Vec<char>> = Vec::new();
        let mut r: usize = 0;
        while r < scores.len()
            invariant
                r <= scores@.len(),
                rows@.len() == r,
                forall|i: int, j: int|
                    0 <= i < r && 0 <= j < scores@[i]@.len() ==> (
                    #[trigger] scores@[i]@[j]).candidates@.len() == self.entries().len(),
                forall|i: int|
                    0 <= i < r ==> (#[trigger] rows@[i])@ == similarity_rows(
                        self.entries(),
                        self.bias(),
                        scores@,
                    )[i],
            decreases scores@.len() - r,
        {
            let line = &scores[r];
            let mut row: Vec<char> = Vec::new();
            let mut c: usize = 0;
            while c < line.len()
                invariant
                    c <= line@.len(),
                    r < scores@.len(),
                    line@ == scores@[r as int]@,
                    row@.len() == c,
                    forall|j: int|
                        0 <= j < c ==> (#[trigger] line@[j]).candidates@.len()
                            == self.entries().len(),
                    forall|j: int|
                        0 <= j < c ==> #[trigger] row@[j] == cell_char(
                            self.entries(),
                            self.bias(),
                            line@[j],
                        ),
                decreases line@.len() - c,
            {
                let cell = &line[c];
                match self.find_similar_char(cell.space, &cell.candidates) {
                    Some(character) => {
                        row.push(character);
                    },
                    None => {
                        proof {
                            assert(scores@[r as int]@[c as int].candidates@.len()
                                != self.entries().len());
                        }
                        return None;
                    },
                }
                c = c + 1;
            }
            proof {
                assert(row@ =~= similarity_rows(self.entries(), self.bias(), scores@)[r as int]);
            }
            rows.push(row);
            r = r + 1;
        }
        proof {
            assert(row_views(rows@) =~= similarity_rows(self.entries(), self.bias(), scores@));
        }
        Some(assemble(&rows))
    }
}

} // verus!
