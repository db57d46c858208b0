use termsketch::tiling::even_offsets;

#[test]
fn offsets_overlap_at_the_end() {
    assert_eq!(even_offsets(20, 45), vec![0, 20, 25]);
}

#[test]
fn offsets_of_a_whole_number_of_tiles() {
    assert_eq!(even_offsets(20, 40), vec![0, 20]);
    assert_eq!(even_offsets(20, 60), vec![0, 20, 40]);
    assert_eq!(even_offsets(1, 3), vec![0, 1, 2]);
}

#[test]
fn offsets_of_a_single_tile() {
    assert_eq!(even_offsets(20, 20), vec![0]);
    assert_eq!(even_offsets(1, 1), vec![0]);
}

#[test]
fn offsets_of_an_empty_axis() {
    assert_eq!(even_offsets(20, 0), Vec::<usize>::new());
    assert_eq!(even_offsets(0, 0), Vec::<usize>::new());
}

#[test]
fn offsets_one_past_a_multiple() {
    assert_eq!(even_offsets(20, 41), vec![0, 20, 21]);
    assert_eq!(even_offsets(7, 50), vec![0, 7, 14, 21, 28, 35, 42, 43]);
}

#[test]
fn offsets_are_ordered_fit_and_cover() {
    for step in 1..12usize {
        for end in step..60usize {
            let offsets = even_offsets(step, end);
            assert_eq!(offsets[0], 0);
            assert_eq!(offsets[offsets.len() - 1], end - step);
            for pair in offsets.windows(2) {
                assert!(pair[0] <= pair[1]);
                assert!(pair[1] <= pair[0] + step);
            }
            for offset in offsets.iter() {
                assert!(offset + step <= end);
            }
            for position in 0..end {
                assert!(offsets.iter().any(|o| *o <= position && position < o + step));
            }
            assert_eq!(offsets.len(), (end - 1) / step + 1);
        }
    }
}
