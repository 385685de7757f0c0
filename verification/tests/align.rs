use mtb_align::{Gray, Options, Percentile, Shift, Shrink, shift, shrinks};

/// A synthetic scene: value noise summed over three cell sizes, so the coarse
/// levels of the pyramid carry structure and the finest carries detail sharp
/// enough that a one-pixel error costs something.
fn scene(x: i64, y: i64) -> u8 {
    let value = 0.5 * octave(x, y, 64) + 0.3 * octave(x, y, 16) + 0.2 * octave(x, y, 4);

    (value.clamp(0.0, 1.0) * 255.0) as u8
}

/// One octave of value noise: hashed lattice corners, smoothstepped between.
fn octave(x: i64, y: i64, cell: i64) -> f64 {
    let (i, j) = (x.div_euclid(cell), y.div_euclid(cell));
    let smooth = |t: f64| t * t * (3.0 - 2.0 * t);
    let across = smooth(x as f64 / cell as f64 - i as f64);
    let down = smooth(y as f64 / cell as f64 - j as f64);

    let corner = |dx, dy| lattice(i + dx, j + dy);
    let top = corner(0, 0) + (corner(1, 0) - corner(0, 0)) * across;
    let bottom = corner(0, 1) + (corner(1, 1) - corner(0, 1)) * across;

    top + (bottom - top) * down
}

fn lattice(x: i64, y: i64) -> f64 {
    let mut hash = (x as u64).wrapping_mul(0x9E37_79B9_7F4A_7C15)
        ^ (y as u64).wrapping_mul(0xC2B2_AE3D_27D4_EB4F);
    hash ^= hash >> 29;
    hash = hash.wrapping_mul(0xBF58_476D_1CE4_E5B9);
    hash ^= hash >> 32;

    (hash >> 11) as f64 / (1u64 << 53) as f64
}

/// Reads the scene through a window moved by `offset`, so both exposures are
/// complete images.
fn window(width: usize, height: usize, offset: Shift) -> Gray {
    let samples = (0..width * height)
        .map(|i| {
            let x = (i % width) as i64 + offset.x as i64;
            let y = (i / width) as i64 + offset.y as i64;
            scene(x, y)
        })
        .collect();

    Gray::from_vec(samples, width, height)
}

#[test]
fn align_an_exposure_needs_no_shift_against_itself() {
    let image = window(160, 120, Shift::zero());

    assert_eq!(
        shift(&image, &image, &Options::default()),
        Shift::zero(),
        "an image is already aligned with itself"
    );
}

#[test]
fn align_a_known_translation_comes_back_exactly() {
    let reference = window(400, 300, Shift::zero());

    for offset in [
        Shift::new(1, 0),
        Shift::new(0, -1),
        Shift::new(7, 5),
        Shift::new(-11, 3),
        Shift::new(-13, -9),
        Shift::new(21, -34),
    ] {
        let target = window(400, 300, offset);

        assert_eq!(
            shift(&reference, &target, &Options::default()),
            offset,
            "failed to recover {offset:?}"
        );
    }
}

/// Six bits of shift reach 63 pixels, which is the last offset the default
/// search can express.
#[test]
fn align_the_search_reaches_the_edge_of_its_range() {
    let reference = window(400, 300, Shift::zero());
    let offset = Shift::new(63, -63);

    assert_eq!(
        shift(&reference, &window(400, 300, offset), &Options::default()),
        offset
    );
}

#[test]
fn align_fewer_bits_search_a_smaller_range() {
    let reference = window(400, 300, Shift::zero());
    let options = Options {
        bits: 3,
        ..Options::default()
    };
    let reachable = Shift::new(7, -7);

    assert_eq!(
        shift(&reference, &window(400, 300, reachable), &options),
        reachable
    );

    let beyond = Shift::new(40, 0);
    assert_ne!(
        shift(&reference, &window(400, 300, beyond), &options),
        beyond
    );
}

#[test]
fn align_both_shrink_conventions_recover_the_same_translation() {
    let reference = window(200, 150, Shift::zero());
    let offset = Shift::new(-9, 6);
    let target = window(200, 150, offset);

    for shrink in [Shrink::Average, Shrink::Subsample] {
        let options = Options {
            shrink,
            ..Options::default()
        };

        assert_eq!(shift(&reference, &target, &options), offset, "{shrink:?}");
    }
}

/// Every pixel sits on the threshold, so every pixel is excluded and all
/// nine candidates tie at zero disagreement.
#[test]
fn an_exposure_with_no_usable_signal_reports_no_shift() {
    let flat = Gray::from_vec(vec![128; 160 * 120], 160, 120);

    assert_eq!(shift(&flat, &flat, &Options::default()), Shift::zero());
}

#[test]
fn a_single_pixel_image_reports_no_shift() {
    let dot = Gray::from_vec(vec![200], 1, 1);

    assert_eq!(shift(&dot, &dot, &Options::default()), Shift::zero());
}

#[test]
fn the_defaults_are_wards_recommendations() {
    let options = Options::default();

    assert_eq!(options.bits, 6);
    assert_eq!(options.tolerance, 4);
    assert_eq!(options.percentile, Percentile::median());
    assert_eq!(options.shrink, Shrink::Average);
    assert_eq!(Options::opencv().shrink, Shrink::Subsample);
}

/// OpenCV's cap, which the level count is written to reproduce.
#[test]
fn the_level_count_follows_the_longest_side_until_the_bits_run_out() {
    assert_eq!(shrinks(8256, 6192, 6), 5);
    assert_eq!(shrinks(4, 4, 6), 1);
    assert_eq!(shrinks(3, 3, 6), 0);
    assert_eq!(shrinks(2, 2, 6), 0);
    assert_eq!(shrinks(1, 1, 6), 0);
    assert_eq!(shrinks(1024, 1024, 3), 2);
}

/// A very wide, very short image would otherwise be halved until it had no
/// rows left.
#[test]
fn an_extreme_aspect_ratio_stops_before_a_level_vanishes() {
    assert_eq!(shrinks(1000, 3, 6), 1);
    assert_eq!(shrinks(1000, 1, 6), 0);
}

#[test]
fn an_empty_image_is_never_halved() {
    assert_eq!(shrinks(0, 100, 6), 0);
    assert_eq!(shrinks(100, 0, 6), 0);
    assert_eq!(shrinks(100, 100, 0), 0);
}

#[test]
fn opencv_conventions_differ_only_in_the_shrink() {
    let options = Options::opencv();

    assert_eq!(options.bits, 6);
    assert_eq!(options.tolerance, 4);
    assert_eq!(options.percentile, Percentile::median());
}

/// Two different flat images: every pixel of each is excluded, so every
/// candidate ties and the tie goes to the centre.
#[test]
fn a_tie_resolves_to_no_movement() {
    let dark = Gray::from_vec(vec![20; 64 * 48], 64, 48);
    let light = Gray::from_vec(vec![230; 64 * 48], 64, 48);

    assert_eq!(shift(&dark, &light, &Options::default()), Shift::zero());
}
