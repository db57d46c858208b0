use dssim_core::{Dssim, DssimImage};
use font_kit::canvas::{Canvas, Format, RasterizationOptions};
use font_kit::family_name::FamilyName;
use font_kit::font::Font;
use font_kit::hinting::HintingOptions;
use font_kit::properties::Properties;
use font_kit::source::SystemSource;
use imgref::ImgVec;
use pathfinder_geometry::transform2d::Transform2F;
use pathfinder_geometry::vector::{Vector2F, Vector2I};
use termsketch::bitmap::Bitmap;
use termsketch::charset::Charset;
use termsketch::glyph::{find_face, RenderError};
use termsketch::matcher::SpaceBias;
use termsketch::similarity::{CellScores, CharSearcherDSSIM};

fn searcher(columns: usize, cell: (usize, usize), bias: SpaceBias) -> CharSearcherDSSIM<u8> {
    let charset = Charset::build(0u8, vec![('a', Ok(1)), ('b', Ok(2)), ('c', Ok(3))]);
    CharSearcherDSSIM::new(columns, charset, cell, bias)
}

fn numbered(width: usize, height: usize) -> Bitmap {
    let pixels: Vec<u8> = (0..width * height).map(|i| (i % 251) as u8).collect();
    Bitmap::new(width, height, pixels).unwrap()
}

#[test]
fn scale_brings_the_width_to_whole_cells() {
    let s = searcher(4, (5, 10), SpaceBias::neutral());
    let scaled = s.scale(&numbered(40, 30)).unwrap();
    assert_eq!(scaled.width(), 20);
    assert_eq!(scaled.height(), 15);
    let scaled = s.scale(&numbered(33, 100)).unwrap();
    assert_eq!(scaled.width(), 20);
    assert_eq!(scaled.height(), 60);
}

#[test]
fn scale_refuses_an_image_without_pixels() {
    let s = searcher(4, (5, 10), SpaceBias::neutral());
    assert!(s.scale(&Bitmap::new(0, 0, Vec::new()).unwrap()).is_none());
    let huge = searcher(usize::MAX, (5, 10), SpaceBias::neutral());
    assert!(huge.scale(&numbered(4, 4)).is_none());
}

#[test]
fn cells_follow_the_tiles_of_both_axes() {
    let s = searcher(2, (2, 2), SpaceBias::neutral());
    let image = numbered(5, 4);
    let cells = s.cells(&image).unwrap();
    assert_eq!(cells.len(), 2);
    for row in cells.iter() {
        assert_eq!(row.len(), 3);
    }
    let lefts = [0, 2, 3];
    let tops = [0, 2];
    for r in 0..2 {
        for c in 0..3 {
            let cell = &cells[r][c];
            assert_eq!(cell.width(), 2);
            assert_eq!(cell.height(), 2);
            for y in 0..2 {
                for x in 0..2 {
                    assert_eq!(cell.get(x, y), image.get(lefts[c] + x, tops[r] + y));
                }
            }
        }
    }
}

#[test]
fn cells_of_an_image_smaller_than_a_cell_are_refused() {
    let s = searcher(2, (4, 8), SpaceBias::neutral());
    assert!(s.cells(&numbered(3, 8)).is_none());
    assert!(s.cells(&numbered(4, 7)).is_none());
    assert!(s.cells(&numbered(4, 8)).is_some());
    let flat = searcher(2, (0, 8), SpaceBias::neutral());
    assert!(flat.cells(&numbered(4, 8)).is_none());
}

#[test]
fn cells_of_an_empty_image_are_none_at_all() {
    let s = searcher(2, (4, 8), SpaceBias::neutral());
    let cells = s.cells(&Bitmap::new(0, 0, Vec::new()).unwrap()).unwrap();
    assert!(cells.is_empty());
    let flat = searcher(2, (0, 0), SpaceBias::neutral());
    assert!(flat.cells(&Bitmap::new(0, 0, Vec::new()).unwrap()).unwrap().is_empty());
    let rows = s.cells(&Bitmap::new(0, 16, Vec::new()).unwrap()).unwrap();
    assert_eq!(rows.len(), 2);
    assert!(rows.iter().all(|row| row.is_empty()));
}

#[test]
fn the_closest_candidate_gives_the_character() {
    let s = searcher(2, (2, 2), SpaceBias::neutral());
    assert_eq!(s.find_similar_char(10, &vec![7, 3, 5]), Some('b'));
    assert_eq!(s.find_similar_char(10, &vec![7, 8, 5]), Some('c'));
    assert_eq!(s.find_similar_char(10, &vec![7, 7, 7]), Some('a'));
    assert_eq!(s.find_similar_char(3, &vec![7, 3, 5]), Some(' '));
}

#[test]
fn the_bias_favours_the_blank() {
    let favoured = searcher(2, (2, 2), SpaceBias::new(4, 1).unwrap());
    assert_eq!(favoured.find_similar_char(10, &vec![7, 3, 5]), Some(' '));
    assert_eq!(favoured.find_similar_char(10, &vec![7, 2, 5]), Some('b'));
    let disfavoured = searcher(2, (2, 2), SpaceBias::new(1, 4).unwrap());
    assert_eq!(disfavoured.find_similar_char(3, &vec![7, 9, 11]), Some('a'));
}

#[test]
fn resolve_writes_the_grid_row_by_row() {
    let s = searcher(2, (2, 2), SpaceBias::neutral());
    let cell = |space: u64, candidates: Vec<u64>| CellScores { space, candidates };
    let scores = vec![
        vec![cell(9, vec![1, 2, 3]), cell(9, vec![3, 2, 1]), cell(0, vec![1, 2, 3])],
        vec![cell(9, vec![5, 2, 3]), cell(2, vec![2, 2, 2]), cell(9, vec![8, 8, 8])],
    ];
    assert_eq!(s.resolve(&scores), Some("ac \nb a".to_string()));
    assert_eq!(s.resolve(&Vec::new()), Some(String::new()));
}

#[test]
fn scores_must_be_one_for_each_candidate() {
    let s = searcher(2, (2, 2), SpaceBias::neutral());
    assert_eq!(s.find_similar_char(10, &vec![7, 3]), None);
    assert_eq!(s.find_similar_char(10, &vec![7, 3, 5, 1]), None);
    assert_eq!(s.find_similar_char(10, &Vec::new()), None);
    let cell = |space: u64, candidates: Vec<u64>| CellScores { space, candidates };
    let scores = vec![vec![cell(9, vec![1, 2, 3])], vec![cell(9, vec![1, 2])]];
    assert_eq!(s.resolve(&scores), None);
}

#[test]
fn the_charset_is_handed_out_as_it_was_built() {
    let s = searcher(2, (2, 2), SpaceBias::neutral());
    assert_eq!(s.charset().len(), 3);
    assert_eq!(s.charset().character(2), 'c');
    assert_eq!(*s.charset().fingerprint(2), 3);
    assert_eq!(*s.charset().space_fingerprint(), 0);
}

fn glyph(width: usize, height: usize, ink: fn(usize, usize) -> bool) -> Bitmap {
    let mut pixels = Vec::new();
    for y in 0..height {
        for x in 0..width {
            pixels.push(if ink(x, y) { 255 } else { 0 });
        }
    }
    Bitmap::new(width, height, pixels).unwrap()
}

fn fingerprint(dssim: &Dssim, bitmap: &Bitmap) -> Result<DssimImage<f32>, RenderError> {
    let pixels: Vec<f32> = bitmap.pixels().iter().map(|p| *p as f32 / 256.0).collect();
    let image = ImgVec::new(pixels, bitmap.width(), bitmap.height());
    dssim.create_image(&image).ok_or(RenderError::FingerprintRejected)
}

fn score(dssim: &Dssim, cell: &DssimImage<f32>, glyph: &DssimImage<f32>) -> u64 {
    let value: f64 = dssim.compare(cell, glyph).0.into();
    (value * 1e9).round() as u64
}

fn bars(x: usize, _y: usize) -> bool {
    x % 4 < 2
}

fn stripes(_x: usize, y: usize) -> bool {
    y % 6 < 3
}

fn frame(x: usize, y: usize) -> bool {
    x < 2 || x >= 14 || y < 2 || y >= 30
}

fn nothing(_x: usize, _y: usize) -> bool {
    false
}

#[test]
fn a_cell_that_is_a_glyph_resolves_to_its_character() {
    let dssim = Dssim::new();
    let cell_size = (16, 32);
    let glyphs = vec![
        ('|', glyph(16, 32, bars)),
        ('=', glyph(16, 32, stripes)),
        ('O', glyph(16, 32, frame)),
    ];
    let rendered = glyphs.iter().map(|(c, bitmap)| (*c, fingerprint(&dssim, bitmap))).collect();
    let space = fingerprint(&dssim, &glyph(16, 32, nothing)).unwrap();
    for bias in [SpaceBias::neutral(), SpaceBias::new(1000, 1).unwrap(), SpaceBias::new(1, 3).unwrap()] {
        let charset = Charset::build(space.clone(), rendered_clone(&rendered));
        let s = CharSearcherDSSIM::new(1, charset, cell_size, bias);
        for (expected, bitmap) in glyphs.iter() {
            let scaled = s.scale(bitmap).unwrap();
            assert_eq!(scaled.pixels(), bitmap.pixels());
            let cells = s.cells(&scaled).unwrap();
            let mut scores = Vec::new();
            for row in cells.iter() {
                let mut line = Vec::new();
                for cell in row.iter() {
                    let print = fingerprint(&dssim, cell).unwrap();
                    let candidates = (0..s.charset().len())
                        .map(|i| score(&dssim, &print, s.charset().fingerprint(i)))
                        .collect();
                    line.push(CellScores {
                        space: score(&dssim, &print, s.charset().space_fingerprint()),
                        candidates,
                    });
                }
                scores.push(line);
            }
            assert_eq!(s.resolve(&scores), Some(expected.to_string()));
        }
    }
}

fn rendered_clone(
    rendered: &Vec<(char, Result<DssimImage<f32>, RenderError>)>,
) -> Vec<(char, Result<DssimImage<f32>, RenderError>)> {
    rendered.iter().map(|(c, outcome)| (*c, outcome.clone())).collect()
}

#[test]
fn a_fingerprint_is_at_no_distance_from_itself() {
    let dssim = Dssim::new();
    for ink in [bars, stripes, frame, nothing] {
        let print = fingerprint(&dssim, &glyph(16, 32, ink)).unwrap();
        let again = fingerprint(&dssim, &glyph(16, 32, ink)).unwrap();
        assert_eq!(score(&dssim, &print, &print), 0);
        assert_eq!(score(&dssim, &print, &again), 0);
    }
}

#[test]
fn an_empty_cell_resolves_to_the_blank() {
    let dssim = Dssim::new();
    let rendered = vec![
        ('|', fingerprint(&dssim, &glyph(16, 32, bars))),
        ('=', fingerprint(&dssim, &glyph(16, 32, stripes))),
    ];
    let space = fingerprint(&dssim, &glyph(16, 32, nothing)).unwrap();
    let s = CharSearcherDSSIM::new(1, Charset::build(space, rendered), (16, 32), SpaceBias::neutral());
    let print = fingerprint(&dssim, &glyph(16, 32, nothing)).unwrap();
    let candidates: Vec<u64> =
        (0..s.charset().len()).map(|i| score(&dssim, &print, s.charset().fingerprint(i))).collect();
    let space_score = score(&dssim, &print, s.charset().space_fingerprint());
    assert_eq!(space_score, 0);
    assert_eq!(s.find_similar_char(space_score, &candidates), Some(' '));
}

fn system_faces() -> Vec<Font> {
    [FamilyName::Monospace, FamilyName::SansSerif, FamilyName::Serif]
        .into_iter()
        .map(|family| {
            SystemSource::new().select_best_match(&[family], &Properties::new()).unwrap().load().unwrap()
        })
        .collect()
}

fn rendered_glyph(faces: &Vec<Font>, c: char, cell: (usize, usize)) -> Result<Bitmap, RenderError> {
    let face = &faces[find_face(faces, c)?];
    let glyph_id = face.glyph_for_char(c).unwrap();
    let mut canvas = Canvas::new(Vector2I::new(cell.0 as i32, cell.1 as i32), Format::A8);
    face.rasterize_glyph(
        &mut canvas,
        glyph_id,
        30.0,
        Transform2F::from_translation(Vector2F::new(0.0, cell.1 as f32 * 0.75)),
        HintingOptions::Full(30.0),
        RasterizationOptions::GrayscaleAa,
    )
    .unwrap();
    Bitmap::from_strided(&canvas.pixels, cell.0, cell.1, canvas.stride).ok_or(RenderError::FingerprintRejected)
}

#[test]
fn a_cell_that_is_a_rendered_glyph_resolves_to_its_character() {
    let dssim = Dssim::new();
    let faces = system_faces();
    let cell = (20, 40);
    let chars = vec!['a', 'b', '#', '|', '-', 'a', 'W'];
    let candidates = termsketch::charset::unique_chars(&chars);
    assert_eq!(candidates, vec!['a', 'b', '#', '|', '-', 'W']);
    let glyphs: Vec<Bitmap> = candidates.iter().map(|c| rendered_glyph(&faces, *c, cell).unwrap()).collect();
    let rendered = candidates
        .iter()
        .zip(glyphs.iter())
        .map(|(c, bitmap)| (*c, fingerprint(&dssim, bitmap)))
        .collect();
    let space = fingerprint(&dssim, &rendered_glyph(&faces, ' ', cell).unwrap()).unwrap();
    let s = CharSearcherDSSIM::new(1, Charset::build(space, rendered), cell, SpaceBias::new(50, 1).unwrap());
    assert_eq!(s.charset().len(), candidates.len());
    for (expected, bitmap) in candidates.iter().zip(glyphs.iter()) {
        assert!(bitmap.pixels().iter().any(|level| *level > 0));
        let scaled = s.scale(bitmap).unwrap();
        let cells = s.cells(&scaled).unwrap();
        assert_eq!(cells.len(), 1);
        assert_eq!(cells[0].len(), 1);
        let print = fingerprint(&dssim, &cells[0][0]).unwrap();
        let scores: Vec<u64> =
            (0..s.charset().len()).map(|i| score(&dssim, &print, s.charset().fingerprint(i))).collect();
        let space_score = score(&dssim, &print, s.charset().space_fingerprint());
        assert!(space_score > 0);
        assert_eq!(s.find_similar_char(space_score, &scores), Some(*expected));
    }
}

#[test]
fn a_blank_glyph_has_no_ink() {
    let faces = system_faces();
    let blank = rendered_glyph(&faces, ' ', (20, 40)).unwrap();
    assert_eq!(blank.width(), 20);
    assert_eq!(blank.height(), 40);
    assert!(blank.pixels().iter().all(|level| *level == 0));
}

fn render(s: &CharSearcherDSSIM<DssimImage<f32>>, dssim: &Dssim, image: &Bitmap) -> String {
    let scaled = s.scale(image).unwrap();
    let cells = s.cells(&scaled).unwrap();
    let mut scores = Vec::new();
    for row in cells.iter() {
        let mut line = Vec::new();
        for cell in row.iter() {
            let print = fingerprint(dssim, cell).unwrap();
            let candidates =
                (0..s.charset().len()).map(|i| score(dssim, &print, s.charset().fingerprint(i))).collect();
            line.push(CellScores { space: score(dssim, &print, s.charset().space_fingerprint()), candidates });
        }
        scores.push(line);
    }
    s.resolve(&scores).unwrap()
}

#[test]
fn rendering_gives_the_same_text_every_time() {
    let dssim = Dssim::new();
    let rendered = vec![
        ('|', fingerprint(&dssim, &glyph(16, 32, bars))),
        ('=', fingerprint(&dssim, &glyph(16, 32, stripes))),
        ('O', fingerprint(&dssim, &glyph(16, 32, frame))),
    ];
    let space = fingerprint(&dssim, &glyph(16, 32, nothing)).unwrap();
    let s = CharSearcherDSSIM::new(3, Charset::build(space, rendered), (16, 32), SpaceBias::new(3, 2).unwrap());
    let pixels: Vec<u8> = (0..96 * 80).map(|i| ((i % 96) * 2 + (i / 96)) as u8).collect();
    let image = Bitmap::new(96, 80, pixels).unwrap();
    let first = render(&s, &dssim, &image);
    assert_eq!(first.lines().count(), 2);
    assert!(first.lines().all(|line| line.chars().count() == 3));
    for _ in 0..3 {
        assert_eq!(render(&s, &dssim, &image), first);
    }
}

#[test]
fn a_picture_of_glyphs_reads_as_their_characters() {
    let dssim = Dssim::new();
    let inks: [fn(usize, usize) -> bool; 4] = [bars, stripes, frame, nothing];
    let rendered = vec![
        ('|', fingerprint(&dssim, &glyph(16, 32, bars))),
        ('=', fingerprint(&dssim, &glyph(16, 32, stripes))),
        ('O', fingerprint(&dssim, &glyph(16, 32, frame))),
    ];
    let space = fingerprint(&dssim, &glyph(16, 32, nothing)).unwrap();
    let s = CharSearcherDSSIM::new(4, Charset::build(space, rendered), (16, 32), SpaceBias::neutral());
    // Two rows of four cells: each cell is one of the glyphs, or empty.
    let layout = [[0usize, 1, 2, 3], [2, 3, 1, 0]];
    let mut pixels = vec![0u8; 64 * 64];
    for (r, row) in layout.iter().enumerate() {
        for (c, ink) in row.iter().enumerate() {
            for y in 0..32 {
                for x in 0..16 {
                    if inks[*ink](x, y) {
                        pixels[(r * 32 + y) * 64 + c * 16 + x] = 255;
                    }
                }
            }
        }
    }
    let image = Bitmap::new(64, 64, pixels).unwrap();
    assert_eq!(render(&s, &dssim, &image), "|=O \nO =|");
}
