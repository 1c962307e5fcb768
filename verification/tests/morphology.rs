use subject_refiner::morphology::{dilate, erode};

fn mask_from_rows(rows: &[&str]) -> Vec<bool> {
    let mut mask = Vec::new();
    for row in rows {
        for c in row.chars() {
            mask.push(c == '#');
        }
    }
    mask
}

fn lit_count(mask: &[bool]) -> usize {
    mask.iter().filter(|p| **p).count()
}

#[test]
fn erosion_with_radius_zero_changes_nothing() {
    let mask = mask_from_rows(&["#.#", ".#.", "##."]);
    assert_eq!(erode(3, 3, &mask, 0), mask);
}

#[test]
fn erosion_of_a_full_mask_clears_the_border() {
    let width = 10;
    let height = 8;
    let mask = vec![true; width * height];
    let out = erode(width, height, &mask, 2);
    for y in 0..height {
        for x in 0..width {
            let inside = x >= 2 && x + 2 < width && y >= 2 && y + 2 < height;
            assert_eq!(out[y * width + x], inside, "pixel ({}, {})", x, y);
        }
    }
    assert_eq!(lit_count(&out), 6 * 4);
}

#[test]
fn erosion_of_a_full_mask_with_radius_one() {
    let mask = vec![true; 16];
    let expected = mask_from_rows(&["....", ".##.", ".##.", "...."]);
    assert_eq!(erode(4, 4, &mask, 1), expected);
}

#[test]
fn erosion_clears_a_grid_narrower_than_the_kernel() {
    let mask = vec![true; 100];
    assert_eq!(erode(10, 10, &mask, 5), vec![false; 100]);
    let wide = vec![true; 11 * 11];
    let out = erode(11, 11, &wide, 5);
    assert_eq!(lit_count(&out), 1);
    assert!(out[5 * 11 + 5]);
}

#[test]
fn erosion_spreads_a_hole_over_the_kernel() {
    let mask = mask_from_rows(&[
        "#######",
        "#######",
        "#######",
        "###.###",
        "#######",
        "#######",
        "#######",
    ]);
    let expected = mask_from_rows(&[
        ".......",
        ".#####.",
        ".##.##.",
        ".#...#.",
        ".##.##.",
        ".#####.",
        ".......",
    ]);
    assert_eq!(erode(7, 7, &mask, 1), expected);
}

#[test]
fn erosion_kernel_is_a_disk() {
    // A hole two steps away along a diagonal lies outside the disk of
    // radius 2, one two steps away along an axis lies inside.
    let mut mask = vec![true; 9 * 9];
    mask[2 * 9 + 2] = false;
    let out = erode(9, 9, &mask, 2);
    assert!(out[4 * 9 + 4]);
    assert!(!out[3 * 9 + 3]);
    assert!(!out[2 * 9 + 4]);
    assert!(!out[4 * 9 + 2]);
    assert!(out[3 * 9 + 4]);
    assert!(out[4 * 9 + 3]);
}

#[test]
fn erosion_with_a_huge_radius_clears_everything() {
    let mask = vec![true; 12];
    assert_eq!(erode(4, 3, &mask, usize::MAX), vec![false; 12]);
    assert_eq!(erode(4, 3, &mask, 4), vec![false; 12]);
}

#[test]
fn erosion_of_an_empty_grid_is_empty() {
    let mask: Vec<bool> = Vec::new();
    assert_eq!(erode(0, 5, &mask, 3), Vec::<bool>::new());
    assert_eq!(erode(5, 0, &mask, 3), Vec::<bool>::new());
}

#[test]
fn dilation_with_radius_zero_changes_nothing() {
    let mask = mask_from_rows(&["#.#", ".#.", "##."]);
    assert_eq!(dilate(3, 3, &mask, 0), mask);
}

#[test]
fn dilation_of_one_pixel_is_the_disk() {
    let mut mask = vec![false; 7 * 7];
    mask[3 * 7 + 3] = true;
    let expected = mask_from_rows(&[
        ".......",
        "...#...",
        "..###..",
        ".#####.",
        "..###..",
        "...#...",
        ".......",
    ]);
    assert_eq!(dilate(7, 7, &mask, 2), expected);
}

#[test]
fn dilation_with_radius_five_covers_eighty_one_pixels() {
    let mut mask = vec![false; 13 * 13];
    mask[6 * 13 + 6] = true;
    let out = dilate(13, 13, &mask, 5);
    assert_eq!(lit_count(&out), 81);
    for y in 0..13i64 {
        for x in 0..13i64 {
            let inside = (x - 6) * (x - 6) + (y - 6) * (y - 6) <= 25;
            assert_eq!(out[(y * 13 + x) as usize], inside, "pixel ({}, {})", x, y);
        }
    }
}

#[test]
fn dilation_skips_what_lies_outside_the_grid() {
    let mask = mask_from_rows(&["#...", "....", "...."]);
    let expected = mask_from_rows(&["##..", "#...", "...."]);
    assert_eq!(dilate(4, 3, &mask, 1), expected);
    let corner = mask_from_rows(&["....", "....", "...#"]);
    let grown = mask_from_rows(&["...#", "..##", ".###"]);
    assert_eq!(dilate(4, 3, &corner, 2), grown);
}

#[test]
fn dilation_does_not_wrap_around_rows() {
    let mask = mask_from_rows(&["....#", ".....", "....."]);
    let expected = mask_from_rows(&["...##", "....#", "....."]);
    assert_eq!(dilate(5, 3, &mask, 1), expected);
}

#[test]
fn dilation_of_background_is_background() {
    let mask = vec![false; 30];
    assert_eq!(dilate(6, 5, &mask, 5), vec![false; 30]);
    assert_eq!(dilate(6, 5, &mask, 0), vec![false; 30]);
    assert_eq!(dilate(6, 5, &mask, usize::MAX), vec![false; 30]);
}

#[test]
fn dilation_never_loses_foreground() {
    let mask = mask_from_rows(&[
        "#......#",
        "........",
        "...##...",
        "...#....",
        "........",
        "#.......",
    ]);
    for radius in 0..4 {
        let out = dilate(8, 6, &mask, radius);
        assert!(lit_count(&out) >= lit_count(&mask));
        for i in 0..mask.len() {
            assert!(!mask[i] || out[i]);
        }
    }
}

#[test]
fn dilation_with_a_huge_radius_fills_the_grid() {
    let mask = mask_from_rows(&["....", "..#.", "...."]);
    assert_eq!(dilate(4, 3, &mask, usize::MAX), vec![true; 12]);
    assert_eq!(dilate(4, 3, &mask, 3), vec![true; 12]);
}

#[test]
fn dilation_of_unions_is_the_union_of_dilations() {
    let mask = mask_from_rows(&[
        ".........",
        ".#.......",
        ".........",
        "......#..",
        ".........",
    ]);
    let expected = mask_from_rows(&[
        ".#.......",
        "###......",
        ".#....#..",
        ".....###.",
        "......#..",
    ]);
    assert_eq!(dilate(9, 5, &mask, 1), expected);
}

#[test]
fn opening_keeps_a_block_wider_than_the_kernel() {
    let mut mask = vec![false; 12 * 12];
    for y in 3..9 {
        for x in 3..9 {
            mask[y * 12 + x] = true;
        }
    }
    let core = erode(12, 12, &mask, 2);
    let mut expected_core = vec![false; 12 * 12];
    for y in 5..7 {
        for x in 5..7 {
            expected_core[y * 12 + x] = true;
        }
    }
    assert_eq!(core, expected_core);
    let opened = dilate(12, 12, &core, 2);
    for i in 0..mask.len() {
        assert!(!opened[i] || mask[i]);
    }
    assert_eq!(lit_count(&opened), 24);
}
