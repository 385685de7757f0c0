use mtb_align::{Gray, Shrink, shrink2};

fn counting(width: usize, height: usize) -> Gray {
    Gray::from_vec((0..(width * height) as u8).collect(), width, height)
}

#[test]
fn averaging_takes_the_mean_of_each_block() {
    let shrunk = shrink2(&counting(4, 4), Shrink::Average);

    assert_eq!((shrunk.width(), shrunk.height()), (2, 2));
    assert_eq!(shrunk.as_slice(), &[3, 5, 11, 13]);
}

/// Truncating instead would bias every level downward.
#[test]
fn averaging_rounds_to_nearest() {
    let block = Gray::from_vec(vec![1, 2, 3, 4], 2, 2);

    assert_eq!(shrink2(&block, Shrink::Average).as_slice(), &[3]);
}

#[test]
fn subsampling_takes_the_top_left_of_each_block() {
    let shrunk = shrink2(&counting(4, 4), Shrink::Subsample);

    assert_eq!((shrunk.width(), shrunk.height()), (2, 2));
    assert_eq!(shrunk.as_slice(), &[0, 2, 8, 10]);
}

#[test]
fn an_odd_final_row_or_column_is_dropped() {
    let source = counting(5, 3);

    let averaged = shrink2(&source, Shrink::Average);
    assert_eq!((averaged.width(), averaged.height()), (2, 1));
    assert_eq!(averaged.as_slice(), &[3, 5]);

    let subsampled = shrink2(&source, Shrink::Subsample);
    assert_eq!((subsampled.width(), subsampled.height()), (2, 1));
    assert_eq!(subsampled.as_slice(), &[0, 2]);
}

/// Averaging must not overflow on the way to the mean.
#[test]
fn a_saturated_block_averages_to_saturation() {
    let block = Gray::from_vec(vec![255; 4], 2, 2);

    assert_eq!(shrink2(&block, Shrink::Average).as_slice(), &[255]);
}

#[test]
fn a_plane_too_small_to_halve_shrinks_away() {
    let shrunk = shrink2(&counting(1, 1), Shrink::Average);

    assert_eq!((shrunk.width(), shrunk.height()), (0, 0));
    assert!(shrunk.as_slice().is_empty());
}

/// The pyramid bookkeeping assumes the two modes stay the same shape as each
/// other, whatever the input size.
#[test]
fn both_modes_halve_to_the_same_size() {
    for width in [0usize, 1, 2, 3, 8, 39] {
        for height in [0usize, 1, 2, 5, 38] {
            let source = Gray::from_vec(vec![9; width * height], width, height);

            let averaged = shrink2(&source, Shrink::Average);
            let subsampled = shrink2(&source, Shrink::Subsample);

            assert_eq!(averaged.width(), width / 2);
            assert_eq!(averaged.height(), height / 2);
            assert_eq!(subsampled.width(), width / 2);
            assert_eq!(subsampled.height(), height / 2);
        }
    }
}

#[test]
fn a_constant_plane_survives_either_mode() {
    for value in [0u8, 1, 127, 254, 255] {
        let source = Gray::from_vec(vec![value; 7 * 6], 7, 6);

        for mode in [Shrink::Average, Shrink::Subsample] {
            for &sample in shrink2(&source, mode).as_slice() {
                assert_eq!(sample, value);
            }
        }
    }
}

#[test]
fn averaging_is_the_default() {
    assert_eq!(Shrink::default(), Shrink::Average);
}
