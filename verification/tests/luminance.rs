use termsketch::bitmap::Bitmap;
use termsketch::luminance::{CharSearcherGray, CHARACTER_ASPECT};
use termsketch::scale::{resize_exact, scaled_height};

fn default_palette() -> Vec<char> {
    "   ...',;:clodxkO0KXNWM".chars().collect()
}

fn uniform(width: usize, height: usize, level: u8) -> Bitmap {
    Bitmap::new(width, height, vec![level; width * height]).unwrap()
}

#[test]
fn characters_are_twice_as_tall_as_wide() {
    assert_eq!(CHARACTER_ASPECT, 2);
}

#[test]
fn zero_intensity_is_the_first_character() {
    let searcher = CharSearcherGray::new(80, vec!['a', 'b', 'c', 'd', 'e']);
    assert_eq!(searcher.find_similar_char(0), 'a');
}

#[test]
fn full_intensity_is_the_last_character() {
    let searcher = CharSearcherGray::new(80, vec!['a', 'b', 'c', 'd', 'e']);
    assert_eq!(searcher.find_similar_char(255), 'e');
}

#[test]
fn a_boundary_belongs_to_the_bucket_above() {
    let searcher = CharSearcherGray::new(80, vec!['a', 'b', 'c', 'd', 'e']);
    // 51 / 255 = 1 / 5, 102 / 255 = 2 / 5, and so on.
    assert_eq!(searcher.find_similar_char(50), 'a');
    assert_eq!(searcher.find_similar_char(51), 'b');
    assert_eq!(searcher.find_similar_char(101), 'b');
    assert_eq!(searcher.find_similar_char(102), 'c');
    assert_eq!(searcher.find_similar_char(153), 'd');
    assert_eq!(searcher.find_similar_char(203), 'd');
    assert_eq!(searcher.find_similar_char(204), 'e');
    assert_eq!(searcher.find_similar_char(254), 'e');
}

#[test]
fn the_index_is_the_level_times_the_length_over_255() {
    let palette: Vec<char> = ('a'..='z').collect();
    let searcher = CharSearcherGray::new(80, palette.clone());
    for level in 0..=255u8 {
        let index = (level as usize * 26 / 255).min(25);
        assert_eq!(searcher.find_similar_char(level), palette[index]);
    }
}

#[test]
fn an_empty_palette_gives_blanks() {
    let searcher = CharSearcherGray::new(80, Vec::new());
    assert_eq!(searcher.find_similar_char(0), ' ');
    assert_eq!(searcher.find_similar_char(255), ' ');
}

#[test]
fn a_palette_of_one_gives_that_character() {
    let searcher = CharSearcherGray::new(80, vec!['#']);
    assert_eq!(searcher.find_similar_char(0), '#');
    assert_eq!(searcher.find_similar_char(128), '#');
    assert_eq!(searcher.find_similar_char(255), '#');
}

#[test]
fn render_takes_a_character_for_each_pixel() {
    let searcher = CharSearcherGray::new(3, vec!['a', 'b', 'c', 'd', 'e']);
    let image = Bitmap::new(3, 2, vec![0, 51, 102, 153, 204, 255]).unwrap();
    assert_eq!(searcher.render(&image), "abc\ndee");
}

#[test]
fn render_of_an_image_without_rows_is_empty() {
    let searcher = CharSearcherGray::new(3, default_palette());
    assert_eq!(searcher.render(&Bitmap::new(3, 0, Vec::new()).unwrap()), "");
    assert_eq!(searcher.render(&Bitmap::new(0, 3, Vec::new()).unwrap()), "\n\n");
}

#[test]
fn scaled_height_keeps_the_proportions() {
    assert_eq!(scaled_height(100, 50, 20, 1), Some(10));
    assert_eq!(scaled_height(100, 50, 20, 2), Some(5));
    assert_eq!(scaled_height(100, 33, 50, 1), Some(16));
    assert_eq!(scaled_height(3, 3, 49, 1), Some(49));
    assert_eq!(scaled_height(2, 2, 1, 2), Some(0));
    assert_eq!(scaled_height(0, 50, 20, 1), None);
    assert_eq!(scaled_height(100, 50, 20, 0), None);
    assert_eq!(scaled_height(1, usize::MAX, 2, 1), None);
    assert_eq!(scaled_height(1, usize::MAX, 1, 1), Some(usize::MAX));
}

#[test]
fn resize_gives_the_size_asked_for() {
    let image = uniform(4, 4, 200);
    let scaled = resize_exact(&image, 2, 3).unwrap();
    assert_eq!(scaled.width(), 2);
    assert_eq!(scaled.height(), 3);
    assert_eq!(scaled.pixels(), &vec![200; 6]);
}

#[test]
fn resize_averages_what_it_covers() {
    let image = Bitmap::new(4, 1, vec![0, 0, 255, 255]).unwrap();
    let scaled = resize_exact(&image, 2, 1).unwrap();
    assert_eq!(scaled.width(), 2);
    assert_eq!(scaled.height(), 1);
    assert!(scaled.get(0, 0) < 128);
    assert!(scaled.get(1, 0) > 128);
}

#[test]
fn resize_to_nothing_is_empty() {
    let image = uniform(4, 4, 200);
    let scaled = resize_exact(&image, 2, 0).unwrap();
    assert_eq!(scaled.width(), 2);
    assert_eq!(scaled.height(), 0);
    assert!(scaled.pixels().is_empty());
}

#[test]
fn resize_refuses_an_image_without_pixels() {
    assert!(resize_exact(&Bitmap::new(0, 4, Vec::new()).unwrap(), 2, 2).is_none());
    assert!(resize_exact(&Bitmap::new(4, 0, Vec::new()).unwrap(), 2, 2).is_none());
}

#[test]
fn scale_takes_one_pixel_for_each_character() {
    let searcher = CharSearcherGray::new(5, default_palette());
    let scaled = searcher.scale(&uniform(20, 40, 9)).unwrap();
    assert_eq!(scaled.width(), 5);
    assert_eq!(scaled.height(), 5);
    let scaled = searcher.scale(&uniform(20, 39, 9)).unwrap();
    assert_eq!(scaled.height(), 4);
}

#[test]
fn a_white_image_is_the_last_palette_character() {
    let searcher = CharSearcherGray::new(1, default_palette());
    assert_eq!(searcher.convert(&uniform(2, 4, 255)), Some("M".to_string()));
}

#[test]
fn a_black_image_is_the_first_palette_character() {
    let searcher = CharSearcherGray::new(1, default_palette());
    assert_eq!(searcher.convert(&uniform(2, 4, 0)), Some(" ".to_string()));
}

#[test]
fn a_white_square_of_two_pixels_at_one_column_has_no_row() {
    let searcher = CharSearcherGray::new(1, default_palette());
    assert_eq!(searcher.convert(&uniform(2, 2, 255)), Some(String::new()));
}

#[test]
fn convert_lays_out_rows_and_columns() {
    let searcher = CharSearcherGray::new(4, vec!['.', '#']);
    let mut pixels = vec![0u8; 8 * 8];
    for y in 0..8 {
        for x in 4..8 {
            pixels[y * 8 + x] = 255;
        }
    }
    let image = Bitmap::new(8, 8, pixels).unwrap();
    assert_eq!(searcher.convert(&image), Some("..##\n..##".to_string()));
}

#[test]
fn convert_refuses_an_image_without_pixels() {
    let searcher = CharSearcherGray::new(4, default_palette());
    assert_eq!(searcher.convert(&Bitmap::new(0, 0, Vec::new()).unwrap()), None);
}

#[test]
fn convert_gives_the_same_text_every_time() {
    let searcher = CharSearcherGray::new(7, default_palette());
    let pixels: Vec<u8> = (0..30 * 20).map(|i| ((i * 37) % 256) as u8).collect();
    let image = Bitmap::new(30, 20, pixels).unwrap();
    let first = searcher.convert(&image).unwrap();
    assert_eq!(first.lines().count(), 2);
    for _ in 0..5 {
        assert_eq!(searcher.convert(&image).unwrap(), first);
    }
}
