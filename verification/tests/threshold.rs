use mtb_align::{Bitmaps, Gray, Percentile, compute_bitmaps, threshold};

/// One pixel at every level, so the population is exactly uniform and the
/// threshold has only one place it can land.
fn ramp() -> Gray {
    Gray::from_vec((0..=255).collect(), 16, 16)
}

#[test]
fn the_median_splits_the_population() {
    assert_eq!(threshold(&ramp(), Percentile::median()), 128);
}

#[test]
fn a_lower_percentile_cuts_lower() {
    assert_eq!(threshold(&ramp(), Percentile::seventeenth()), 43);
    assert_eq!(threshold(&ramp(), Percentile::eighty_third()), 212);
}

/// Nothing is strictly above the top of the range, so the running sum only
/// completes on the last bin and the threshold falls off the end.
#[test]
fn a_uniform_image_pushes_the_threshold_past_every_sample() {
    let white = Gray::from_vec(vec![255; 64], 8, 8);

    assert_eq!(threshold(&white, Percentile::median()), 256);
}

#[test]
fn the_threshold_bitmap_marks_only_what_is_above() {
    let tb = compute_bitmaps(&ramp(), Percentile::median(), 4).threshold;

    assert_eq!(tb.count_ones(), 127);
    assert!(!tb.get(128 % 16, 128 / 16), "the threshold itself is below");
    assert!(tb.get(129 % 16, 129 / 16));
}

/// Ward zeroes the exclusion bitmap wherever a pixel sits within the noise
/// tolerance of the threshold: here 124 through 132, nine values.
#[test]
fn the_exclusion_bitmap_clears_the_band_around_the_threshold() {
    let eb = compute_bitmaps(&ramp(), Percentile::median(), 4).exclusion;

    assert_eq!(eb.count_ones(), 256 - 9);
    for value in 124..=132usize {
        assert!(
            !eb.get(value % 16, value / 16),
            "{value} should be excluded"
        );
    }
    assert!(eb.get(123 % 16, 123 / 16));
    assert!(eb.get(133 % 16, 133 / 16));
}

/// A tolerance of zero still excludes the threshold value itself, since the
/// comparison is strict.
#[test]
fn a_zero_tolerance_still_excludes_the_threshold_value() {
    let eb = compute_bitmaps(&ramp(), Percentile::median(), 0).exclusion;

    assert_eq!(eb.count_ones(), 255);
    assert!(!eb.get(128 % 16, 128 / 16));
}

/// The threshold sits at 256 here, one past every sample, so no pixel is
/// more than one step away and everything falls inside the tolerance.
#[test]
fn a_uniform_image_excludes_itself_entirely() {
    let white = Gray::from_vec(vec![255; 64], 8, 8);

    let Bitmaps {
        threshold: tb,
        exclusion: eb,
    } = compute_bitmaps(&white, Percentile::median(), 4);

    assert_eq!(tb.count_ones(), 0);
    assert_eq!(eb.count_ones(), 0);
}

#[test]
fn the_bitmaps_match_the_image_dimensions() {
    let Bitmaps {
        threshold: tb,
        exclusion: eb,
    } = compute_bitmaps(&Gray::from_vec(vec![7; 12], 4, 3), Percentile::median(), 4);

    assert_eq!((tb.width(), tb.height()), (4, 3));
    assert_eq!((eb.width(), eb.height()), (4, 3));
}

#[test]
fn a_percentile_reports_what_it_was_built_with() {
    assert_eq!(Percentile::new(17), Percentile::seventeenth());
    assert_eq!(Percentile::median().percent(), 50);
    assert_eq!(Percentile::default(), Percentile::median());
}

/// A zero percentile asks for no samples below the cut, so the scan stops
/// before the first bin.
#[test]
fn a_zero_percentile_cuts_at_zero() {
    assert_eq!(threshold(&ramp(), Percentile::new(0)), 0);
    assert_eq!(threshold(&ramp(), Percentile::new(100)), 256);
}

#[test]
fn an_empty_image_cuts_at_zero() {
    let empty = Gray::from_vec(Vec::new(), 0, 0);

    assert_eq!(threshold(&empty, Percentile::median()), 0);
}

/// Four dark samples and four light ones: half of eight is four, reached
/// once the bin at 10 is in, so the cut is one past it.
#[test]
fn the_cut_is_one_past_the_bin_that_tips_the_count() {
    let gray = Gray::from_vec(vec![10, 10, 10, 10, 200, 200, 200, 200], 4, 2);

    assert_eq!(threshold(&gray, Percentile::median()), 11);

    let bitmaps = compute_bitmaps(&gray, Percentile::median(), 4);
    assert_eq!(bitmaps.threshold.count_ones(), 4);
    assert_eq!(bitmaps.exclusion.count_ones(), 4);
}

/// A uniform brightening that clips nothing moves the cut with the samples,
/// so both bitmaps stay as they were.
#[test]
fn a_uniform_brightening_leaves_the_bitmaps_alone() {
    let darker: Vec<u8> = (0..64).map(|i| (i * 3 % 160) as u8).collect();
    let lighter: Vec<u8> = darker.iter().map(|&s| s + 40).collect();
    let darker = Gray::from_vec(darker, 8, 8);
    let lighter = Gray::from_vec(lighter, 8, 8);

    let before = compute_bitmaps(&darker, Percentile::median(), 4);
    let after = compute_bitmaps(&lighter, Percentile::median(), 4);

    assert_eq!(threshold(&lighter, Percentile::median()), threshold(&darker, Percentile::median()) + 40);
    assert!(before == after);
}

/// A strictly increasing change of tone carries the tipping bin with it: half
/// of 0..=127 lies below 64, the bin at 63 tips it, and doubling every level
/// moves that bin to 126, so the cut lands at 127.
#[test]
fn the_cut_follows_a_change_of_tone() {
    let before = Gray::from_vec((0..128).collect(), 16, 8);
    let after = Gray::from_vec((0..128).map(|v: u8| v * 2).collect(), 16, 8);

    assert_eq!(threshold(&before, Percentile::median()), 64);
    assert_eq!(threshold(&after, Percentile::median()), 127);
}

/// A tone change that keeps the tipping bin and the cut next to each other
/// leaves the threshold bitmap where it was, however it stretches the rest.
#[test]
fn the_threshold_bitmap_follows_a_change_of_tone() {
    let stretch = |v: u8| if v <= 64 { v } else { 2 * v - 64 };
    let before = Gray::from_vec((0..128).collect(), 16, 8);
    let after = Gray::from_vec((0..128).map(stretch).collect(), 16, 8);

    let before_bitmap = compute_bitmaps(&before, Percentile::median(), 4).threshold;
    let after_bitmap = compute_bitmaps(&after, Percentile::median(), 4).threshold;

    assert_eq!(before_bitmap.count_ones(), 63);
    assert!(before_bitmap == after_bitmap);
}

#[test]
fn cloned_bitmaps_hold_the_same_pixels() {
    let bitmaps = compute_bitmaps(&ramp(), Percentile::median(), 4);
    let copy = bitmaps.clone();

    assert!(copy == bitmaps);
    assert_eq!(copy.threshold.count_ones(), 127);
}
