use mtb_align::{Bitmap, Bitmaps, Shift, disagreement, row_disagreement};

fn bitmap_from(width: usize, height: usize, set: impl Fn(usize, usize) -> bool) -> Bitmap {
    let mut bitmap = Bitmap::zeros(width, height);
    for y in 0..height {
        for x in 0..width {
            bitmap.set(x, y, set(x, y));
        }
    }
    bitmap
}

fn bitmaps_from(
    width: usize,
    height: usize,
    threshold: impl Fn(usize, usize) -> bool,
    exclusion: impl Fn(usize, usize) -> bool,
) -> Bitmaps {
    Bitmaps {
        threshold: bitmap_from(width, height, threshold),
        exclusion: bitmap_from(width, height, exclusion),
    }
}

/// Ward's formulation operation by operation: slow and obviously correct.
fn literal_disagreement(reference: &Bitmaps, target: &Bitmaps, shift: Shift) -> u64 {
    let (width, height) = (reference.threshold.width(), reference.threshold.height());
    let mut count = 0;
    for y in 0..height {
        for x in 0..width {
            let source_x = x as i64 - shift.x as i64;
            let source_y = y as i64 - shift.y as i64;
            let inside = (0..width as i64).contains(&source_x) && (0..height as i64).contains(&source_y);
            let (target_threshold, target_exclusion) = if inside {
                (
                    target.threshold.get(source_x as usize, source_y as usize),
                    target.exclusion.get(source_x as usize, source_y as usize),
                )
            } else {
                (false, false)
            };
            if (reference.threshold.get(x, y) ^ target_threshold)
                && reference.exclusion.get(x, y)
                && target_exclusion
            {
                count += 1;
            }
        }
    }
    count
}

#[test]
fn an_exposure_never_disagrees_with_itself() {
    let bitmaps = bitmaps_from(70, 9, |x, y| (x + y) % 3 == 0, |_, _| true);

    assert_eq!(disagreement(&bitmaps, &bitmaps, Shift::zero()), 0);
}

#[test]
fn an_inverted_threshold_disagrees_everywhere() {
    let all = bitmaps_from(70, 9, |_, _| true, |_, _| true);
    let none = bitmaps_from(70, 9, |_, _| false, |_, _| true);

    assert_eq!(disagreement(&all, &none, Shift::zero()), 70 * 9);
}

#[test]
fn a_pixel_counts_only_where_both_exposures_allow_it() {
    let all = bitmaps_from(70, 9, |_, _| true, |_, _| true);
    let inverted_but_mostly_excluded = bitmaps_from(
        70,
        9,
        |_, _| false,
        |x, y| (x, y) == (5, 5) || (x, y) == (6, 5),
    );

    assert_eq!(
        disagreement(&all, &inverted_but_mostly_excluded, Shift::zero()),
        2
    );

    let reference_excludes_one = bitmaps_from(70, 9, |_, _| true, |x, y| (x, y) == (5, 5));
    assert_eq!(
        disagreement(
            &reference_excludes_one,
            &inverted_but_mostly_excluded,
            Shift::zero()
        ),
        1
    );
}

/// The whole search rests on this.
#[test]
fn the_offset_that_undoes_a_translation_scores_zero() {
    let pattern = |x: usize, y: usize| (x / 3 + y / 2) % 2 == 0;
    let reference = bitmaps_from(70, 20, pattern, |_, _| true);
    let target = bitmaps_from(70, 20, |x, y| pattern(x + 4, y + 3), |_, _| true);

    assert_eq!(disagreement(&reference, &target, Shift::new(4, 3)), 0);
    assert!(disagreement(&reference, &target, Shift::new(3, 3)) > 0);
    assert!(disagreement(&reference, &target, Shift::new(4, 2)) > 0);
}

/// Bounds the offset: else the emptiest overlap is always the best match.
#[test]
fn a_shift_clear_of_the_image_leaves_nothing_to_disagree_about() {
    let all = bitmaps_from(70, 9, |_, _| true, |_, _| true);
    let none = bitmaps_from(70, 9, |_, _| false, |_, _| true);

    assert_eq!(disagreement(&all, &none, Shift::new(70, 0)), 0);
    assert_eq!(disagreement(&all, &none, Shift::new(0, 9)), 0);
    assert_eq!(disagreement(&all, &none, Shift::new(-70, -9)), 0);
    assert_eq!(disagreement(&all, &none, Shift::new(5000, -5000)), 0);
}

/// Widths either side of 64 are what exercise the word arithmetic.
#[test]
fn the_fused_count_matches_wards_literal_sequence() {
    let bit = |seed: u64, salt: u64| {
        move |x: usize, y: usize| {
            let mixed = seed
                .wrapping_mul(6364136223846793005)
                .wrapping_add((x as u64) << 17 ^ (y as u64) << 3 ^ salt);
            mixed.rotate_left(29).count_ones() % 2 == 0
        }
    };

    for (width, height) in [(1usize, 1usize), (5, 3), (63, 4), (64, 5), (65, 6), (130, 11), (139, 2)] {
        for (reference_seed, target_seed) in [(1u64, 2u64), (0xDEAD_BEEF, 0x1234_5678)] {
            let reference = bitmaps_from(width, height, bit(reference_seed, 1), bit(reference_seed, 2));
            let target = bitmaps_from(width, height, bit(target_seed, 3), bit(target_seed, 4));

            for shift_x in [-150i32, -65, -64, -63, -7, -1, 0, 1, 2, 31, 63, 64, 65, 149] {
                for shift_y in [-15i32, -1, 0, 1, 3, 14] {
                    let shift = Shift::new(shift_x, shift_y);

                    assert_eq!(
                        disagreement(&reference, &target, shift),
                        literal_disagreement(&reference, &target, shift),
                        "{width}x{height} by ({shift_x}, {shift_y})"
                    );
                }
            }
        }
    }
}

#[test]
fn the_rows_add_up_to_the_whole() {
    let reference = bitmaps_from(70, 9, |x, y| (x * y) % 5 == 1, |x, _| x % 7 != 0);
    let target = bitmaps_from(70, 9, |x, y| (x + 2 * y) % 3 == 0, |_, y| y != 4);
    let shift = Shift::new(-3, 2);

    let by_rows: u64 = (0..9).map(|y| row_disagreement(&reference, &target, shift, y)).sum();

    assert_eq!(by_rows, disagreement(&reference, &target, shift));
    assert_eq!(row_disagreement(&reference, &target, shift, 0), 0);
    assert_eq!(row_disagreement(&reference, &target, shift, 1), 0);
}
