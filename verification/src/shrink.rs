use vstd::prelude::*;
use crate::gray::{Gray, Plane, lemma_sample_index};

verus! {

/// How a level of the pyramid is halved.
///
/// Ward's table calls `ImageShrink2` a subsample, but his text says the
/// greyscale is "filtered down by a factor of two", and only the bitmaps are
/// singled out as unsafe to subsample. The two readings disagree, so both are
/// available.
#[derive(Clone, Copy, Debug, Default, PartialEq, Eq, Structural)]
pub enum Shrink {
    /// The mean of each 2x2 block. Ward's "filter it down", and the default:
    /// averaging costs one pass and keeps high-frequency detail from aliasing
    /// into the coarse levels, which is one of the failure modes he reports.
    #[default]
    Average,
    /// Every other row and column, which is what OpenCV's `AlignMTB` does.
    Subsample,
}

/// The rounded mean of the 2x2 block whose top-left sample is `(2x, 2y)`.
pub open spec fn block_mean(plane: Plane, x: int, y: int) -> int {
    (plane.sample(2 * x, 2 * y) + plane.sample(2 * x + 1, 2 * y) + plane.sample(2 * x, 2 * y + 1)
        + plane.sample(2 * x + 1, 2 * y + 1) + 2) / 4
}

/// Sample `(x, y)` of `plane` halved in `mode`.
pub open spec fn halved_sample(plane: Plane, mode: Shrink, x: int, y: int) -> u8 {
    match mode {
        Shrink::Average => block_mean(plane, x, y) as u8,
        Shrink::Subsample => plane.sample(2 * x, 2 * y),
    }
}

/// `plane` halved in `mode`, an odd final row or column dropped.
pub open spec fn halved(plane: Plane, mode: Shrink) -> Plane {
    let width = plane.width / 2;
    let height = plane.height / 2;
    Plane {
        width,
        height,
        samples: Seq::new(width * height, |i: int| halved_sample(plane, mode, i % (width as int), i / (width as int))),
    }
}

/// Sample `i` of a row-major plane `width` wide sits at `(i % width, i / width)`.
proof fn lemma_row_major(x: int, y: int, width: int)
    requires
        0 <= x < width,
        0 <= y,
    ensures
        (y * width + x) % width == x,
        (y * width + x) / width == y,
{
    vstd::arithmetic::div_mod::lemma_fundamental_div_mod_converse(y * width + x, width, y, x);
}

/// Halves a plane, dropping an odd final row or column.
///
/// Flooring rather than rounding up keeps both modes on the same grid and
/// matches OpenCV. A dropped fringe costs a strip of one image edge and keeps
/// the shift grid a clean power of two.
pub fn shrink2(gray: &Gray, shrink: Shrink) -> (shrunk: Gray)
    ensures
        shrunk@ == halved(gray@, shrink),
        shrunk@.width == gray@.width / 2,
        shrunk@.height == gray@.height / 2,
        forall|x: int, y: int|
            0 <= x < gray@.width / 2 && 0 <= y < gray@.height / 2 ==> {
                let sum = gray@.samples[2 * y * gray@.width + 2 * x] + gray@.samples[2 * y
                    * gray@.width + 2 * x + 1] + gray@.samples[(2 * y + 1) * gray@.width + 2 * x]
                    + gray@.samples[(2 * y + 1) * gray@.width + 2 * x + 1];
                let value = #[trigger] shrunk@.samples[y * (gray@.width / 2) + x];
                match shrink {
                    Shrink::Average => 4 * value <= sum + 2 < 4 * value + 4,
                    Shrink::Subsample => value == gray@.samples[2 * y * gray@.width + 2 * x],
                }
            },
{
    let width = gray.width() / 2;
    let full_height = gray.height();
    let height = full_height / 2;
    let source = gray.as_slice();
    let stride = gray.width();
    let ghost plane = gray@;
    proof {
        assert(width * height <= plane.width * plane.height) by (nonlinear_arith)
            requires
                width <= plane.width,
                height <= plane.height,
        ;
    }

    let mut shrunk: Vec<u8> = Vec::with_capacity(width * height);

    let mut y: usize = 0;
    while y < height
        invariant
            plane == gray@,
            plane.wf(),
            source@ == plane.samples,
            stride == plane.width,
            full_height == plane.height,
            width == plane.width / 2,
            height == plane.height / 2,
            plane.width * plane.height <= usize::MAX,
            y <= height,
            shrunk@.len() == y * width,
            forall|j: int|
                0 <= j < shrunk@.len() ==> #[trigger] shrunk@[j] == halved_sample(
                    plane,
                    shrink,
                    j % width as int,
                    j / width as int,
                ),
        decreases height - y,
    {
        proof {
            assert(2 * y + 2 <= plane.height);
            assert(2 * y * stride + stride + stride <= plane.width * plane.height) by (nonlinear_arith)
                requires
                    2 * y + 2 <= plane.height,
                    stride == plane.width,
            ;
        }
        let top = 2 * y * stride;
        let bottom = top + stride;

        let mut x: usize = 0;
        while x < width
            invariant
                plane == gray@,
                plane.wf(),
                source@ == plane.samples,
                stride == plane.width,
                width == plane.width / 2,
                height == plane.height / 2,
                plane.width * plane.height <= usize::MAX,
                y < height,
                top == 2 * y * stride,
                bottom == top + stride,
                bottom + stride <= plane.width * plane.height,
                x <= width,
                shrunk@.len() == y * width + x,
                forall|j: int|
                    0 <= j < shrunk@.len() ==> #[trigger] shrunk@[j] == halved_sample(
                        plane,
                        shrink,
                        j % width as int,
                        j / width as int,
                    ),
            decreases width - x,
        {
            let left = 2 * x;
            let value = match shrink {
                Shrink::Average => {
                    // Summed as u16: four saturated samples overflow a u8 three
                    // times over. The +2 rounds the mean to nearest.
                    let total = source[top + left] as u16 + source[top + left + 1] as u16
                        + source[bottom + left] as u16 + source[bottom + left + 1] as u16;
                    ((total + 2) / 4) as u8
                },
                Shrink::Subsample => source[top + left],
            };
            proof {
                lemma_row_major(x as int, y as int, width as int);
                assert(bottom == (2 * y + 1) * stride) by (nonlinear_arith)
                    requires
                        bottom == 2 * y * stride + stride,
                ;
            }
            shrunk.push(value);
            x = x + 1;
        }
        proof {
            assert((y + 1) * width == y * width + width) by (nonlinear_arith);
        }
        y = y + 1;
    }
    proof {
        assert(height * width == width * height) by (nonlinear_arith);
        assert(shrunk@ =~= halved(plane, shrink).samples);
        assert forall|x: int, y: int| 0 <= x < plane.width / 2 && 0 <= y < plane.height / 2 implies {
            let sum = plane.samples[2 * y * plane.width + 2 * x] + plane.samples[2 * y * plane.width
                + 2 * x + 1] + plane.samples[(2 * y + 1) * plane.width + 2 * x] + plane.samples[(2
                * y + 1) * plane.width + 2 * x + 1];
            let value = #[trigger] halved(plane, shrink).samples[y * (plane.width / 2) + x];
            match shrink {
                Shrink::Average => 4 * value <= sum + 2 < 4 * value + 4,
                Shrink::Subsample => value == plane.samples[2 * y * plane.width + 2 * x],
            }
        } by {
            lemma_halved_block(plane, shrink, x, y);
        }
    }
    Gray::from_vec(shrunk, width, height)
}

/// Sample `(x, y)` of a halved plane, stated of the 2x2 block it comes from:
/// averaging gives the mean of the four samples rounded to nearest (halves up),
/// `value * 4 <= sum + 2 < value * 4 + 4`, with every sample weighing the same;
/// subsampling gives the block's top-left sample.
pub proof fn lemma_halved_block(plane: Plane, mode: Shrink, x: int, y: int)
    requires
        plane.wf(),
        0 <= x < plane.width / 2,
        0 <= y < plane.height / 2,
    ensures
        ({
            let sum = plane.samples[2 * y * plane.width + 2 * x] + plane.samples[2 * y * plane.width
                + 2 * x + 1] + plane.samples[(2 * y + 1) * plane.width + 2 * x] + plane.samples[(2
                * y + 1) * plane.width + 2 * x + 1];
            let value = halved(plane, mode).samples[y * (plane.width / 2) + x];
            &&& 0 <= y * (plane.width / 2) + x < halved(plane, mode).samples.len()
            &&& match mode {
                Shrink::Average => 4 * value <= sum + 2 < 4 * value + 4,
                Shrink::Subsample => value == plane.samples[2 * y * plane.width + 2 * x],
            }
        }),
{
    let width = plane.width / 2;
    lemma_row_major(x, y, width as int);
    lemma_sample_index(x, y, width as int, (plane.height / 2) as int);
    assert((2 * y + 1) * plane.width == 2 * y * plane.width + plane.width) by (nonlinear_arith);
    lemma_block_mean_fits(plane, x, y);
}

/// Averaging depends only on what a block holds, not where in the block it
/// sits: two planes whose blocks at `(x, y)` sum alike halve to the same sample
/// there, whichever of the four corners holds which value.
pub proof fn lemma_average_ignores_order(first: Plane, second: Plane, x: int, y: int)
    requires
        first.wf(),
        second.wf(),
        first.width == second.width,
        first.height == second.height,
        0 <= x < first.width / 2,
        0 <= y < first.height / 2,
        first.samples[2 * y * first.width + 2 * x] + first.samples[2 * y * first.width + 2 * x + 1]
            + first.samples[(2 * y + 1) * first.width + 2 * x] + first.samples[(2 * y + 1)
            * first.width + 2 * x + 1] == second.samples[2 * y * first.width + 2 * x]
            + second.samples[2 * y * first.width + 2 * x + 1] + second.samples[(2 * y + 1)
            * first.width + 2 * x] + second.samples[(2 * y + 1) * first.width + 2 * x + 1],
    ensures
        halved(first, Shrink::Average).samples[y * (first.width / 2) + x] == halved(
            second,
            Shrink::Average,
        ).samples[y * (first.width / 2) + x],
{
    lemma_halved_block(first, Shrink::Average, x, y);
    lemma_halved_block(second, Shrink::Average, x, y);
}

/// Averaging never wraps: the rounded mean of four samples is itself a sample.
pub proof fn lemma_block_mean_fits(plane: Plane, x: int, y: int)
    ensures
        0 <= block_mean(plane, x, y) <= 255,
{
}

/// A constant plane survives either mode: every sample of the halved plane is
/// the constant.
pub proof fn lemma_constant_plane_survives(plane: Plane, mode: Shrink, value: u8)
    requires
        plane.wf(),
        forall|i: int| 0 <= i < plane.samples.len() ==> #[trigger] plane.samples[i] == value,
    ensures
        forall|i: int|
            0 <= i < halved(plane, mode).samples.len() ==> #[trigger] halved(plane, mode).samples[i]
                == value,
{
    let width = plane.width / 2;
    let height = plane.height / 2;
    assert forall|i: int| 0 <= i < halved(plane, mode).samples.len() implies #[trigger] halved(plane, mode).samples[i] == value by {
        let x = i % width as int;
        let y = i / width as int;
        assert(width > 0);
        vstd::arithmetic::div_mod::lemma_fundamental_div_mod(i, width as int);
        assert(0 <= x < width);
        assert(0 <= y < height) by {
            if y >= height {
                assert(i >= width * height) by (nonlinear_arith)
                    requires
                        i == width * y + x,
                        y >= height,
                        x >= 0,
                        width > 0,
                ;
            }
        }
        lemma_sample_index(2 * x, 2 * y, plane.width as int, plane.height as int);
        lemma_sample_index(2 * x + 1, 2 * y, plane.width as int, plane.height as int);
        lemma_sample_index(2 * x, 2 * y + 1, plane.width as int, plane.height as int);
        lemma_sample_index(2 * x + 1, 2 * y + 1, plane.width as int, plane.height as int);
    }
}

} // verus!
