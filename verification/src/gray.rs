use vstd::prelude::*;

verus! {

/// What a [`Gray`] holds: its dimensions and its samples, row-major.
pub struct Plane {
    pub width: nat,
    pub height: nat,
    pub samples: Seq<u8>,
}

impl Plane {
    /// There is exactly one sample per pixel.
    pub open spec fn wf(self) -> bool {
        self.samples.len() == self.width * self.height
    }

    /// The sample at column `x` of row `y`.
    pub open spec fn sample(self, x: int, y: int) -> u8 {
        self.samples[y * self.width + x]
    }
}

/// `(54 * red + 183 * green + 19 * blue) / 256`, the paper's grey. The weights
/// sum to exactly 256, so the quotient never leaves the range of a sample.
pub open spec fn luma(red: u8, green: u8, blue: u8) -> int {
    (54 * red + 183 * green + 19 * blue) / 256
}

/// The paper's weights sum to exactly 256, so the grey of any colour is itself
/// a sample: black stays 0 and white stays 255.
pub proof fn lemma_luma_in_range(red: u8, green: u8, blue: u8)
    ensures
        0 <= luma(red, green, blue) <= 255,
        luma(0, 0, 0) == 0,
        luma(255, 255, 255) == 255,
{
}

/// `y * width + x` lies inside a `width` by `height` plane.
pub proof fn lemma_sample_index(x: int, y: int, width: int, height: int)
    requires
        0 <= x < width,
        0 <= y < height,
    ensures
        0 <= y * width + x < width * height,
{
    assert(0 <= y * width + x < width * height) by (nonlinear_arith)
        requires
            0 <= x < width,
            0 <= y < height,
    ;
}

/// A single-channel 8-bit image: row-major samples carried with their dimensions.
pub struct Gray {
    data: Vec<u8>,
    width: usize,
    height: usize,
}

impl View for Gray {
    type V = Plane;

    closed spec fn view(&self) -> Plane {
        Plane { width: self.width as nat, height: self.height as nat, samples: self.data@ }
    }
}

impl Clone for Gray {
    fn clone(&self) -> (copy: Self)
        ensures
            copy@ == self@,
    {
        proof {
            use_type_invariant(self);
        }
        let data = self.data.clone();
        proof {
            assert(data@ =~= self.data@);
        }
        Gray { data, width: self.width, height: self.height }
    }
}

impl Gray {
    /// One sample per pixel, always.
    #[verifier::type_invariant]
    spec fn one_sample_per_pixel(&self) -> bool {
        &&& self.data@.len() == self.width * self.height
        &&& self.width * self.height <= usize::MAX
    }

    /// Carries `data` as a `width` by `height` image; `data` has to hold exactly
    /// one sample per pixel.
    pub fn from_vec(data: Vec<u8>, width: usize, height: usize) -> (gray: Self)
        requires
            data@.len() == width * height,
        ensures
            gray@ == (Plane { width: width as nat, height: height as nat, samples: data@ }),
    {
        // A sample count is a `usize`, which bounds the pixel count too.
        let _samples = data.len();
        Self { data, width, height }
    }

    /// Interleaved 8-bit RGB, flattened with the paper's weights:
    ///
    /// ```text
    /// grey = (54*red + 183*green + 19*blue) / 256
    /// ```
    ///
    /// They sum to exactly 256, so the divide cannot lose the top of the range.
    /// Ward notes the green channel alone gives the same alignment results;
    /// these weights cost nothing over reading one channel.
    ///
    /// `rgb` has to hold exactly three samples per pixel.
    pub fn from_rgb(rgb: &[u8], width: usize, height: usize) -> (gray: Self)
        requires
            rgb@.len() == width * height * 3,
        ensures
            gray@.wf(),
            gray@.width == width,
            gray@.height == height,
            forall|i: int|
                0 <= i < width * height ==> #[trigger] gray@.samples[i] == luma(
                    rgb@[3 * i],
                    rgb@[3 * i + 1],
                    rgb@[3 * i + 2],
                ),
    {
        let length = rgb.len();
        let pixels = length / 3;
        let mut data: Vec<u8> = Vec::with_capacity(pixels);
        let mut i: usize = 0;
        while i < pixels
            invariant
                pixels * 3 == rgb@.len(),
                rgb@.len() <= usize::MAX,
                pixels == width * height,
                i <= pixels,
                data@.len() == i,
                forall|j: int|
                    0 <= j < i ==> #[trigger] data@[j] == luma(
                        rgb@[3 * j],
                        rgb@[3 * j + 1],
                        rgb@[3 * j + 2],
                    ),
            decreases pixels - i,
        {
            let (red, green, blue) = (rgb[3 * i] as u32, rgb[3 * i + 1] as u32, rgb[3 * i + 2] as u32);
            let grey = (54 * red + 183 * green + 19 * blue) / 256;
            assert(grey <= 255);
            data.push(grey as u8);
            i = i + 1;
        }
        Self { data, width, height }
    }

    pub fn width(&self) -> (width: usize)
        ensures
            width == self@.width,
            self@.wf(),
            self@.width * self@.height <= usize::MAX,
    {
        proof {
            use_type_invariant(self);
        }
        self.width
    }

    pub fn height(&self) -> (height: usize)
        ensures
            height == self@.height,
            self@.wf(),
            self@.width * self@.height <= usize::MAX,
    {
        proof {
            use_type_invariant(self);
        }
        self.height
    }

    pub fn as_slice(&self) -> (samples: &[u8])
        ensures
            samples@ == self@.samples,
            self@.wf(),
            self@.width * self@.height <= usize::MAX,
    {
        proof {
            use_type_invariant(self);
        }
        self.data.as_slice()
    }

    /// The sample at `y * width + x`, which has to lie inside the image.
    pub fn sample(&self, x: usize, y: usize) -> (value: u8)
        requires
            y * self@.width + x < self@.samples.len(),
        ensures
            value == self@.sample(x as int, y as int),
    {
        // The sample count is a `usize`, so the index cannot overflow.
        let _samples = self.data.len();
        self.data[y * self.width + x]
    }
}

} // verus!
