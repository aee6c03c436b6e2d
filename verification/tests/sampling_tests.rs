use kerr_march::sampling::{progress_len, sample_pixels};

#[test]
fn samples_every_pixel_with_unit_grid() {
    let s = sample_pixels(3, 2, 1, 1);
    assert_eq!(
        s,
        vec![(0, 0, 2), (1, 0, 2), (2, 0, 2), (0, 1, 1), (1, 1, 1), (2, 1, 1)]
    );
}

#[test]
fn samples_grid_multiples_rows_first() {
    let s = sample_pixels(5, 5, 2, 3);
    assert_eq!(s, vec![(0, 0, 5), (2, 0, 5), (4, 0, 5), (0, 3, 2), (2, 3, 2), (4, 3, 2)]);
}

#[test]
fn samples_nothing_in_empty_image() {
    assert!(sample_pixels(0, 4, 1, 1).is_empty());
    assert!(sample_pixels(4, 0, 2, 2).is_empty());
}

#[test]
fn progress_len_is_product_of_whole_cells() {
    assert_eq!(progress_len(1024, 1024, 1, 1), 1024 * 1024);
    assert_eq!(progress_len(5, 5, 2, 3), 2);
    assert_eq!(progress_len(7, 9, 8, 2), 0);
}

#[test]
fn law_progress_matches_samples_when_grid_divides() {
    for (w, h, gx, gy) in [(8u32, 6u32, 2u32, 3u32), (4, 4, 1, 4), (12, 10, 3, 5)] {
        assert_eq!(sample_pixels(w, h, gx, gy).len() as u64, progress_len(w, h, gx, gy));
    }
}

#[test]
fn progress_undercounts_when_grid_does_not_divide() {
    // 5 wide with grid 2 samples columns 0, 2, 4 but counts only 2 whole cells per row.
    assert_eq!(sample_pixels(5, 5, 2, 2).len(), 9);
    assert_eq!(progress_len(5, 5, 2, 2), 4);
}

#[test]
fn law_samples_inside_image_on_examples() {
    for (w, h, gx, gy) in [(5u32, 7u32, 2u32, 3u32), (16, 9, 4, 4), (3, 3, 5, 1)] {
        for (x, y, fy) in sample_pixels(w, h, gx, gy) {
            assert!(x < w && y < h);
            assert_eq!(x % gx, 0);
            assert_eq!(y % gy, 0);
            assert!(fy >= 1 && fy <= h);
            assert_eq!(fy, h - y);
        }
    }
}
