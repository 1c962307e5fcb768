use subject_refiner::morphology::{dilate, erode};
use subject_refiner::refiner::{composite, SubjectRefiner, KERNEL_RADIUS};
use subject_refiner::region::flood_fill;

fn block_mask(width: usize, height: usize, x0: usize, y0: usize, x1: usize, y1: usize, value: f32) -> Vec<f32> {
    let mut mask = vec![0.0f32; width * height];
    for y in y0..y1 {
        for x in x0..x1 {
            mask[y * width + x] = value;
        }
    }
    mask
}

fn above(mask: &[f32], threshold: f32) -> Vec<bool> {
    mask.iter().map(|v| *v > threshold).collect()
}

fn mean_of(frames: &Vec<Vec<f32>>, size: usize) -> Vec<f32> {
    let count = frames.len() as f32;
    let mut mean = vec![0.0f32; size];
    for frame in frames {
        for i in 0..size {
            mean[i] += frame[i] / count;
        }
    }
    mean
}

fn click_to_pixel(click: f32, extent: usize) -> usize {
    (click * extent as f32) as usize
}

fn run_frame(refiner: &mut SubjectRefiner<f32>, input: &[f32], click_x: f32, click_y: f32) -> Vec<f32> {
    if let Err(back) = refiner.submit(input.to_vec()) {
        return back;
    }
    let mean = mean_of(refiner.history(), input.len());
    let foreground = above(&mean, 0.5);
    let confident = above(input, 0.1);
    let x = click_to_pixel(click_x, refiner.width());
    let y = click_to_pixel(click_y, refiner.height());
    refiner.refine_mask(input, &foreground, &confident, x, y, 0.0)
}

fn within_five_of(x: usize, y: usize, cx: usize, cy: usize) -> bool {
    let dx = x as i64 - cx as i64;
    let dy = y as i64 - cy as i64;
    dx * dx + dy * dy <= 25
}

#[test]
fn kernel_radius_is_five() {
    assert_eq!(KERNEL_RADIUS, 5);
}

#[test]
fn composite_keeps_confident_samples_inside_the_region() {
    let region = [true, true, false, false, true];
    let confident = [true, false, true, false, true];
    let input = [0.9f32, 0.05, 0.8, 0.0, 0.3];
    assert_eq!(
        composite(&region, &confident, &input, 0.0),
        vec![0.9, 0.0, 0.0, 0.0, 0.3]
    );
    let labels = [7u8, 8, 9, 10, 11];
    assert_eq!(
        composite(&region, &confident, &labels, 255),
        vec![7, 255, 255, 255, 11]
    );
}

#[test]
fn composite_counts_missing_flags_as_unset() {
    let input = [1i32, 2, 3, 4];
    assert_eq!(composite(&[true, true], &[true; 4], &input, 0), vec![1, 2, 0, 0]);
    assert_eq!(composite(&[true; 4], &[true], &input, 0), vec![1, 0, 0, 0]);
    assert_eq!(composite(&[true; 9], &[true; 9], &input, 0), vec![1, 2, 3, 4]);
    assert_eq!(composite(&[], &[], &input, -1), vec![-1, -1, -1, -1]);
    let nothing: [i32; 0] = [];
    assert_eq!(composite(&[true], &[true], &nothing, 0), Vec::<i32>::new());
}

#[test]
fn refine_returns_an_input_of_the_wrong_size() {
    let refiner: SubjectRefiner<f32> = SubjectRefiner::new(4, 4, 2);
    let short = vec![0.9f32; 15];
    let flags = vec![true; 16];
    assert_eq!(refiner.refine_mask(&short, &flags, &flags, 2, 2, 0.0), short);
    let long = vec![0.7f32; 17];
    assert_eq!(refiner.refine_mask(&long, &flags, &flags, 9, 9, 0.0), long);
    let empty: Vec<f32> = Vec::new();
    assert_eq!(refiner.refine_mask(&empty, &flags, &flags, 0, 0, 0.0), empty);
}

#[test]
fn refine_returns_the_input_when_flags_do_not_fit() {
    let refiner: SubjectRefiner<f32> = SubjectRefiner::new(4, 4, 2);
    let input = vec![0.9f32; 16];
    let flags = vec![true; 16];
    let short = vec![true; 15];
    assert_eq!(refiner.refine_mask(&input, &short, &flags, 2, 2, 0.0), input);
    assert_eq!(refiner.refine_mask(&input, &flags, &short, 2, 2, 0.0), input);
}

#[test]
fn size_mismatch_leaves_the_refiner_untouched() {
    let mut refiner: SubjectRefiner<f32> = SubjectRefiner::new(10, 10, 3);
    let good = block_mask(10, 10, 2, 2, 8, 8, 0.8);
    run_frame(&mut refiner, &good, 0.5, 0.5);
    assert_eq!(refiner.history().len(), 1);
    let bad = vec![0.3f32, 0.6, 0.9];
    assert_eq!(run_frame(&mut refiner, &bad, 0.5, 0.5), bad);
    assert_eq!(refiner.history().len(), 1);
    assert_eq!(refiner.history()[0], good);
}

#[test]
fn block_narrower_than_the_kernel_is_eroded_away() {
    // A block of 6 by 6 pixels in a grid of 10 by 10: no pixel has its
    // whole kernel of radius 5 inside the grid, so erosion leaves nothing
    // and the refined mask is background everywhere.
    let mut refiner: SubjectRefiner<f32> = SubjectRefiner::new(10, 10, 1);
    let input = block_mask(10, 10, 2, 2, 8, 8, 0.8);
    let output = run_frame(&mut refiner, &input, 0.5, 0.5);
    assert_eq!(output.len(), 100);
    for i in 0..100 {
        assert!(output[i] == 0.0 || output[i] == input[i]);
        if input[i] == 0.0 {
            assert_eq!(output[i], 0.0);
        }
    }
    assert_eq!(output, vec![0.0f32; 100]);
}

#[test]
fn block_wider_than_the_kernel_keeps_its_opened_part() {
    // A block of 12 by 12 pixels in a grid of 20 by 20. Erosion leaves the
    // four pixels in its middle; dilation grows them back into the union
    // of their disks, which lies inside the block.
    let mut refiner: SubjectRefiner<f32> = SubjectRefiner::new(20, 20, 1);
    let input = block_mask(20, 20, 4, 4, 16, 16, 0.8);
    let output = run_frame(&mut refiner, &input, 0.5, 0.5);
    let mut kept = 0;
    for y in 0..20 {
        for x in 0..20 {
            let inside = within_five_of(x, y, 9, 9) || within_five_of(x, y, 10, 9)
                || within_five_of(x, y, 9, 10) || within_five_of(x, y, 10, 10);
            let expected = if inside { 0.8f32 } else { 0.0 };
            assert_eq!(output[y * 20 + x], expected, "pixel ({}, {})", x, y);
            if inside {
                kept += 1;
                assert_eq!(input[y * 20 + x], 0.8);
            }
        }
    }
    assert_eq!(kept, 104);
}

#[test]
fn click_selects_one_of_two_objects() {
    let width = 40;
    let height = 16;
    let mut input = block_mask(width, height, 1, 1, 14, 14, 0.9);
    for y in 2..15 {
        for x in 25..38 {
            input[y * width + x] = 0.7;
        }
    }
    let foreground = above(&input, 0.5);
    let confident = above(&input, 0.1);
    let refiner: SubjectRefiner<f32> = SubjectRefiner::new(width, height, 1);

    let left = refiner.refine_mask(&input, &foreground, &confident, 7, 7, 0.0);
    let right = refiner.refine_mask(&input, &foreground, &confident, 31, 8, 0.0);
    let both = refiner.refine_mask(&input, &foreground, &confident, width, 3, 0.0);
    let also_both = refiner.refine_mask(&input, &foreground, &confident, 3, height, 0.0);
    assert_eq!(both, also_both);

    let mut left_kept = 0;
    let mut right_kept = 0;
    for y in 0..height {
        for x in 0..width {
            let i = y * width + x;
            let in_left = (6..=8).any(|cy| (6..=8).any(|cx| within_five_of(x, y, cx, cy)));
            let in_right = (7..=9).any(|cy| (30..=32).any(|cx| within_five_of(x, y, cx, cy)));
            assert_eq!(left[i], if in_left { 0.9 } else { 0.0 }, "left ({}, {})", x, y);
            assert_eq!(right[i], if in_right { 0.7 } else { 0.0 }, "right ({}, {})", x, y);
            let expected_both = if in_left {
                0.9
            } else if in_right {
                0.7
            } else {
                0.0
            };
            assert_eq!(both[i], expected_both, "both ({}, {})", x, y);
            if in_left {
                left_kept += 1;
            }
            if in_right {
                right_kept += 1;
            }
        }
    }
    assert!(left_kept > 0);
    assert_eq!(left_kept, right_kept);
}

#[test]
fn click_off_the_grid_keeps_the_whole_eroded_mask() {
    let width = 30;
    let height = 14;
    let mut foreground = vec![false; width * height];
    for y in 0..height {
        for x in 0..width {
            foreground[y * width + x] = x < 13 || x > 16;
        }
    }
    let input: Vec<u16> = (0..(width * height) as u16).collect();
    let confident: Vec<bool> = input.iter().map(|v| v % 3 != 0).collect();
    let refiner: SubjectRefiner<u16> = SubjectRefiner::new(width, height, 4);
    let core = erode(width, height, &foreground, KERNEL_RADIUS);
    assert!(core.iter().any(|p| *p));
    let region = dilate(width, height, &core, KERNEL_RADIUS);
    let expected = composite(&region, &confident, &input, 0);
    assert_eq!(
        refiner.refine_mask(&input, &foreground, &confident, width, 0, 0),
        expected
    );
    assert_eq!(
        refiner.refine_mask(&input, &foreground, &confident, 0, height, 0),
        expected
    );
    assert_eq!(
        refiner.refine_mask(&input, &foreground, &confident, usize::MAX, usize::MAX, 0),
        expected
    );
    let narrowed = refiner.refine_mask(&input, &foreground, &confident, 6, 6, 0);
    let isolated = flood_fill(width, height, &core, 6, 6);
    let narrowed_region = dilate(width, height, &isolated, KERNEL_RADIUS);
    assert_eq!(narrowed, composite(&narrowed_region, &confident, &input, 0));
    assert!(narrowed != expected);
}

#[test]
fn click_on_background_takes_the_nearest_region() {
    let width = 30;
    let height = 13;
    let input = block_mask(width, height, 0, 0, 13, 13, 0.6);
    let foreground = above(&input, 0.5);
    let confident = above(&input, 0.1);
    let refiner: SubjectRefiner<f32> = SubjectRefiner::new(width, height, 1);
    // Erosion leaves the pixels (5..=7, 5..=7); the click at (20, 6) is
    // background, and (7, 5) is the first foreground pixel on ring 13.
    let near = refiner.refine_mask(&input, &foreground, &confident, 20, 6, 0.0);
    let on_it = refiner.refine_mask(&input, &foreground, &confident, 6, 6, 0.0);
    assert_eq!(near, on_it);
    assert!(near.iter().any(|v| *v == 0.6));
    // From (29, 6) the region lies beyond the last ring that is searched.
    let far = refiner.refine_mask(&input, &foreground, &confident, 29, 6, 0.0);
    assert_eq!(far, vec![0.0f32; width * height]);
}

#[test]
fn samples_below_the_confidence_threshold_are_dropped() {
    let width = 20;
    let height = 20;
    let mut input = block_mask(width, height, 4, 4, 16, 16, 0.8);
    input[10 * width + 10] = 0.05;
    input[9 * width + 9] = 0.1;
    input[9 * width + 10] = 0.11;
    let foreground = vec![true; width * height]
        .iter()
        .enumerate()
        .map(|(i, _)| {
            let x = i % width;
            let y = i / width;
            (4..16).contains(&x) && (4..16).contains(&y)
        })
        .collect::<Vec<bool>>();
    let confident = above(&input, 0.1);
    let refiner: SubjectRefiner<f32> = SubjectRefiner::new(width, height, 1);
    let output = refiner.refine_mask(&input, &foreground, &confident, 10, 10, 0.0);
    assert_eq!(output[10 * width + 10], 0.0);
    assert_eq!(output[9 * width + 9], 0.0);
    assert_eq!(output[9 * width + 10], 0.11);
    assert_eq!(output[10 * width + 9], 0.8);
    assert_eq!(output[0], 0.0);
}

#[test]
fn smoothing_over_the_history_delays_a_new_object() {
    let mut refiner: SubjectRefiner<f32> = SubjectRefiner::new(20, 20, 2);
    let empty = vec![0.0f32; 400];
    let block = block_mask(20, 20, 4, 4, 16, 16, 0.8);
    assert_eq!(run_frame(&mut refiner, &empty, 0.5, 0.5), empty);
    // The mean of 0.0 and 0.8 does not pass the foreground threshold.
    assert_eq!(run_frame(&mut refiner, &block, 0.5, 0.5), empty);
    // Now the history holds the block twice.
    let third = run_frame(&mut refiner, &block, 0.5, 0.5);
    assert_eq!(third[10 * 20 + 10], 0.8);
    assert_eq!(third.iter().filter(|v| **v == 0.8).count(), 104);
    assert_eq!(refiner.history().len(), 2);
}

#[test]
fn refine_works_on_an_empty_grid() {
    let refiner: SubjectRefiner<f32> = SubjectRefiner::new(0, 0, 1);
    let nothing: Vec<f32> = Vec::new();
    assert_eq!(refiner.refine_mask(&nothing, &[], &[], 0, 0, 0.0), nothing);
}
