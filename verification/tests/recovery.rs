//! Photographs one synthetic scene twice a known distance apart and asks for
//! that distance back, degrading the second exposure the way a real bracket
//! would: noise, a change of shutter speed, both at once.

use mtb_align::{Gray, Options, Shift, Shrink, shift};

const WIDTH: usize = 400;
const HEIGHT: usize = 300;

fn scene(x: i64, y: i64) -> u8 {
    let value = 0.5 * octave(x, y, 64, 0) + 0.3 * octave(x, y, 16, 1) + 0.2 * octave(x, y, 4, 2);

    quantise(value)
}

fn window(width: usize, height: usize, offset: Shift) -> Gray {
    map_coordinates(width, height, offset, scene)
}

/// A window over the scene whose lower two thirds is replaced by a plateau
/// sitting on the median, textured by a pattern fixed to the sensor rather
/// than to the scene.
fn window_with_fixed_pattern_plateau(width: usize, height: usize, offset: Shift) -> Gray {
    let horizon = height / 3;
    let mut samples = window(width, height, offset).as_slice().to_vec();

    for y in horizon..height {
        for x in 0..width {
            let wobble = (lattice(x as i64 / 4, y as i64 / 4) * 9.0) as i64 - 4;
            samples[y * width + x] = (128 + wobble).clamp(0, 255) as u8;
        }
    }

    Gray::from_vec(samples, width, height)
}

/// A monotonic tone change of the kind a different shutter speed produces.
fn reexpose(gray: &Gray, stops: f64) -> Gray {
    const GAMMA: f64 = 2.2;
    let gain = 2f64.powf(stops);

    map_samples(gray, |sample| {
        let linear = (sample as f64 / 255.0).powf(GAMMA) * gain;

        quantise(linear.min(1.0).powf(1.0 / GAMMA))
    })
}

/// Adds deterministic pseudo-random noise of up to `amplitude` levels.
fn noisy(gray: &Gray, amplitude: u8, seed: u64) -> Gray {
    let width = gray.width() as i64;

    let noised = gray
        .as_slice()
        .iter()
        .enumerate()
        .map(|(index, &sample)| {
            let (x, y) = ((index as i64) % width, (index as i64) / width);
            let swing = lattice(x.wrapping_add(seed as i64), y) * 2.0 - 1.0;
            let offset = (swing * amplitude as f64).round() as i64;

            (sample as i64 + offset).clamp(0, 255) as u8
        })
        .collect();

    Gray::from_vec(noised, gray.width(), gray.height())
}

fn map_coordinates(
    width: usize,
    height: usize,
    offset: Shift,
    sample: impl Fn(i64, i64) -> u8,
) -> Gray {
    let samples = (0..width * height)
        .map(|index| {
            let x = (index % width) as i64 + offset.x as i64;
            let y = (index / width) as i64 + offset.y as i64;
            sample(x, y)
        })
        .collect();

    Gray::from_vec(samples, width, height)
}

fn map_samples(gray: &Gray, map: impl Fn(u8) -> u8) -> Gray {
    let mapped = gray.as_slice().iter().map(|&sample| map(sample)).collect();

    Gray::from_vec(mapped, gray.width(), gray.height())
}

fn quantise(value: f64) -> u8 {
    (value.clamp(0.0, 1.0) * 255.0) as u8
}

fn octave(x: i64, y: i64, cell: i64, salt: i64) -> f64 {
    let (i, j) = (x.div_euclid(cell), y.div_euclid(cell));
    let smooth = |t: f64| t * t * (3.0 - 2.0 * t);
    let across = smooth(x as f64 / cell as f64 - i as f64);
    let down = smooth(y as f64 / cell as f64 - j as f64);

    let corner = |dx, dy| lattice(i + dx, j + dy + salt * 4096);
    let top = corner(0, 0) + (corner(1, 0) - corner(0, 0)) * across;
    let bottom = corner(0, 1) + (corner(1, 1) - corner(0, 1)) * across;

    top + (bottom - top) * down
}

fn lattice(x: i64, y: i64) -> f64 {
    let mut hash = (x as u64).wrapping_mul(0x9E37_79B9_7F4A_7C15)
        ^ (y as u64).wrapping_mul(0xC2B2_AE3D_27D4_EB4F);
    hash ^= hash >> 29;
    hash = hash.wrapping_mul(0xBF58_476D_1CE4_E5B9);
    hash ^= hash >> 32;

    (hash >> 11) as f64 / (1u64 << 53) as f64
}

fn recovered(offset: Shift, options: &Options) -> Shift {
    shift(
        &window(WIDTH, HEIGHT, Shift::zero()),
        &window(WIDTH, HEIGHT, offset),
        options,
    )
}

#[test]
fn recovery_an_exposure_needs_no_shift_against_itself() {
    assert_eq!(recovered(Shift::zero(), &Options::default()), Shift::zero());
}

#[test]
fn recovery_a_known_translation_comes_back_exactly() {
    for offset in [
        Shift::new(1, 0),
        Shift::new(0, -1),
        Shift::new(7, 5),
        Shift::new(-11, 3),
        Shift::new(-13, -9),
        Shift::new(21, -34),
        Shift::new(-40, -40),
    ] {
        assert_eq!(
            recovered(offset, &Options::default()),
            offset,
            "failed to recover {offset:?}"
        );
    }
}

/// Six bits reach 63 pixels, the last offset the default search can express.
#[test]
fn recovery_the_search_reaches_the_edge_of_its_range() {
    for offset in [
        Shift::new(63, -63),
        Shift::new(-63, 63),
        Shift::new(63, 63),
        Shift::new(-63, -63),
    ] {
        assert_eq!(recovered(offset, &Options::default()), offset);
    }
}

#[test]
fn recovery_fewer_bits_search_a_smaller_range() {
    let options = Options {
        bits: 3,
        ..Options::default()
    };

    let reachable = Shift::new(7, -7);
    assert_eq!(recovered(reachable, &options), reachable);

    let beyond = Shift::new(40, 0);
    assert_ne!(recovered(beyond, &options), beyond);
}

#[test]
fn recovery_both_shrink_conventions_recover_the_same_translation() {
    let offset = Shift::new(-9, 6);

    for shrink in [Shrink::Average, Shrink::Subsample] {
        let options = Options {
            shrink,
            ..Options::default()
        };

        assert_eq!(recovered(offset, &options), offset, "{shrink:?}");
    }
}

/// Noise moves pixels across the threshold; the exclusion band drops the ones
/// close enough for that.
#[test]
fn noise_does_not_move_the_answer() {
    let reference = window(WIDTH, HEIGHT, Shift::zero());
    let offset = Shift::new(-17, 11);

    for amplitude in [2, 5, 10] {
        let target = noisy(&window(WIDTH, HEIGHT, offset), amplitude, 0x51ED);

        assert_eq!(
            shift(&reference, &target, &Options::default()),
            offset,
            "noise of ±{amplitude} broke the alignment"
        );
    }
}

/// A monotonic tone change cannot reorder the population, so the median, and
/// the bitmap, do not move.
#[test]
fn a_change_of_exposure_does_not_move_the_answer() {
    let reference = window(WIDTH, HEIGHT, Shift::zero());
    let offset = Shift::new(23, -19);

    for stops in [-2.0, -1.0, -0.5, 0.5, 1.0] {
        let target = reexpose(&window(WIDTH, HEIGHT, offset), stops);

        assert_eq!(
            shift(&reference, &target, &Options::default()),
            offset,
            "{stops:+} stops broke the alignment"
        );
    }
}

#[test]
fn noise_and_a_change_of_exposure_together_do_not_move_the_answer() {
    let reference = noisy(&window(WIDTH, HEIGHT, Shift::zero()), 3, 0xA11E);
    let offset = Shift::new(-8, -22);
    let target = noisy(&reexpose(&window(WIDTH, HEIGHT, offset), -1.0), 3, 0xB0B);

    assert_eq!(shift(&reference, &target, &Options::default()), offset);
}

/// Ward's Figure 3: an area on the threshold decided by the sensor, not the
/// scene. Tolerance is the only difference between the two halves.
#[test]
fn the_exclusion_band_rescues_an_exposure_with_a_noisy_plateau() {
    let offset = Shift::new(9, -6);
    let reference = window_with_fixed_pattern_plateau(WIDTH, HEIGHT, Shift::zero());
    let target = window_with_fixed_pattern_plateau(WIDTH, HEIGHT, offset);

    let excluding = Options {
        tolerance: 4,
        ..Options::default()
    };
    assert_eq!(
        shift(&reference, &target, &excluding),
        offset,
        "the noisy plateau should have been excluded"
    );

    let trusting = Options {
        tolerance: 0,
        ..Options::default()
    };
    assert_ne!(
        shift(&reference, &target, &trusting),
        offset,
        "without the exclusion band the plateau should have swamped the signal"
    );
}

/// A sweep over offsets within range, standing in for a randomised search.
#[test]
fn any_offset_within_range_comes_back() {
    for (x, y) in [(-63, 0), (0, 63), (17, -41), (-29, -5), (50, 50), (-3, 62)] {
        let offset = Shift::new(x, y);

        assert_eq!(recovered(offset, &Options::default()), offset);
    }
}
