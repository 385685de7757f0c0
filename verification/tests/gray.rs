use mtb_align::Gray;

#[test]
fn from_vec_carries_samples_and_dimensions() {
    let gray = Gray::from_vec(vec![1, 2, 3, 4, 5, 6], 3, 2);

    assert_eq!(gray.width(), 3);
    assert_eq!(gray.height(), 2);
    assert_eq!(gray.as_slice(), &[1, 2, 3, 4, 5, 6]);
}

#[test]
fn sample_reads_row_major() {
    let gray = Gray::from_vec(vec![1, 2, 3, 4, 5, 6], 3, 2);

    assert_eq!(gray.sample(0, 0), 1);
    assert_eq!(gray.sample(2, 0), 3);
    assert_eq!(gray.sample(0, 1), 4);
    assert_eq!(gray.sample(2, 1), 6);
}

/// The paper's weights sum to exactly 256, so white survives the divide
/// intact. Anything that drifts off 255 here has lost a channel or rounded.
#[test]
fn from_rgb_maps_white_to_full_scale_and_black_to_zero() {
    let gray = Gray::from_rgb(&[255, 255, 255, 0, 0, 0], 2, 1);

    assert_eq!(gray.as_slice(), &[255, 0]);
}

/// grey = (54*red + 183*green + 19*blue) / 256.
#[test]
fn from_rgb_weights_the_channels_as_the_paper_does() {
    let gray = Gray::from_rgb(&[255, 0, 0, 0, 255, 0, 0, 0, 255], 3, 1);

    assert_eq!(gray.as_slice(), &[53, 182, 18]);
}

/// (54 * 10 + 183 * 20 + 19 * 30) / 256 = 4770 / 256 = 18, rounded down.
#[test]
fn from_rgb_rounds_the_weighted_sum_down() {
    let gray = Gray::from_rgb(&[10, 20, 30, 100, 100, 100], 1, 2);

    assert_eq!(gray.as_slice(), &[18, 100]);
    assert_eq!((gray.width(), gray.height()), (1, 2));
}

#[test]
fn a_clone_keeps_samples_and_dimensions() {
    let gray = Gray::from_vec(vec![9, 8, 7, 6], 2, 2);
    let copy = gray.clone();

    assert_eq!(copy.as_slice(), gray.as_slice());
    assert_eq!((copy.width(), copy.height()), (2, 2));
}

#[test]
fn an_empty_image_has_no_samples() {
    let gray = Gray::from_rgb(&[], 0, 7);

    assert!(gray.as_slice().is_empty());
    assert_eq!((gray.width(), gray.height()), (0, 7));
}
