use vstd::prelude::*;
use crate::bitmap::Bitmap;
use crate::counting::{
    count_true, lemma_count_true_bound, lemma_count_true_disjoint, lemma_count_true_ext,
    lemma_count_true_mono, lemma_count_true_witness,
};
use crate::gray::{Gray, Plane, lemma_sample_index};

verus! {

/// Distinct sample values an 8-bit image can take.
const LEVELS: usize = 256;

/// Which population split the threshold bitmap is cut at.
///
/// Ward uses the median, and falls back to the 17th or 83rd percentile for
/// exposures too dark or too light for the median to sit clear of the noise
/// floor. Everything else about a percentile threshold bitmap behaves as the
/// median one does, exposure stability included.
#[derive(Clone, Copy, Debug, PartialEq, Eq, Structural)]
pub struct Percentile(u8);

impl Percentile {
    /// A percentile never passes a hundred.
    #[verifier::type_invariant]
    spec fn at_most_a_hundred(self) -> bool {
        self.0 <= 100
    }

    pub closed spec fn spec_percent(self) -> nat {
        self.0 as nat
    }

    /// The median, Ward's choice.
    pub fn median() -> (percentile: Self)
        ensures
            percentile.spec_percent() == 50,
    {
        Percentile(50)
    }

    /// Ward's fallback for an exposure dark enough that the median is noise.
    pub fn seventeenth() -> (percentile: Self)
        ensures
            percentile.spec_percent() == 17,
    {
        Percentile(17)
    }

    /// Ward's fallback for an exposure light enough that the median is noise.
    pub fn eighty_third() -> (percentile: Self)
        ensures
            percentile.spec_percent() == 83,
    {
        Percentile(83)
    }

    /// `percent` has to be at most a hundred.
    pub fn new(percent: u8) -> (percentile: Self)
        requires
            percent <= 100,
        ensures
            percentile.spec_percent() == percent,
    {
        Percentile(percent)
    }

    pub fn percent(self) -> (percent: u8)
        ensures
            percent == self.spec_percent(),
            percent <= 100,
    {
        proof {
            use_type_invariant(self);
        }
        self.0
    }
}

impl Default for Percentile {
    fn default() -> (percentile: Self)
        ensures
            percentile.spec_percent() == 50,
    {
        Self::median()
    }
}

/// Whether sample `i` is `level`.
pub open spec fn is_level(samples: Seq<u8>, level: int) -> spec_fn(int) -> bool {
    |i: int| samples[i] == level
}

/// Whether sample `i` lies strictly below `level`.
pub open spec fn is_below(samples: Seq<u8>, level: int) -> spec_fn(int) -> bool {
    |i: int| samples[i] < level
}

/// How many of the first `n` samples equal `level`.
pub open spec fn occurrences(samples: Seq<u8>, n: nat, level: int) -> nat {
    count_true(n, is_level(samples, level))
}

/// How many samples lie strictly below `level`.
pub open spec fn below(samples: Seq<u8>, level: int) -> nat {
    count_true(samples.len(), is_below(samples, level))
}

/// `percent` of `count`, rounded down: how many samples the cut has to clear.
pub open spec fn target(count: nat, percent: nat) -> nat {
    count * percent / 100
}

/// The least level from `level` up to 256 below which at least `goal` samples
/// lie, or 256 if none is.
pub open spec fn first_reaching(samples: Seq<u8>, goal: nat, level: int) -> int
    decreases 256 - level,
{
    if level >= 256 || below(samples, level) >= goal {
        level
    } else {
        first_reaching(samples, goal, level + 1)
    }
}

/// The sample value the bitmaps are cut at: the least level below which the
/// chosen share of the samples lie. It can be 256, one past every sample.
pub open spec fn cut(samples: Seq<u8>, percent: nat) -> int {
    first_reaching(samples, target(samples.len(), percent), 0)
}

/// Set where a sample is above the cut.
pub open spec fn above_cut(plane: Plane, percent: nat, x: int, y: int) -> bool {
    &&& 0 <= x < plane.width
    &&& 0 <= y < plane.height
    &&& plane.sample(x, y) > cut(plane.samples, percent)
}

/// How far a sample sits from the cut.
pub open spec fn distance(sample: u8, level: int) -> int {
    if sample >= level {
        sample - level
    } else {
        level - sample
    }
}

/// Set where a sample sits further than `tolerance` from the cut, so that its
/// side of the cut can be trusted.
pub open spec fn clear_of_cut(plane: Plane, percent: nat, tolerance: nat, x: int, y: int) -> bool {
    &&& 0 <= x < plane.width
    &&& 0 <= y < plane.height
    &&& distance(plane.sample(x, y), cut(plane.samples, percent)) > tolerance
}

/// The exclusion bitmap is clear exactly on the band of `2 * tolerance + 1`
/// levels centred on the cut, for whatever tolerance is asked for: a pixel is
/// trusted when its sample lies more than `tolerance` above the cut or more
/// than `tolerance` below it.
pub proof fn lemma_exclusion_band(plane: Plane, percent: nat, tolerance: nat, x: int, y: int)
    ensures
        clear_of_cut(plane, percent, tolerance, x, y) == (0 <= x < plane.width && 0 <= y < plane.height
            && (plane.sample(x, y) > cut(plane.samples, percent) + tolerance || plane.sample(x, y)
            + tolerance < cut(plane.samples, percent))),
{
}

/// A wider tolerance only ever clears more: a pixel trusted at `wider` is
/// trusted at `narrower`, and a pixel whose sample sits between the two
/// distances from the cut is trusted at `narrower` and cleared at `wider`.
pub proof fn lemma_wider_band_clears_more(
    plane: Plane,
    percent: nat,
    narrower: nat,
    wider: nat,
    x: int,
    y: int,
)
    requires
        narrower <= wider,
    ensures
        clear_of_cut(plane, percent, wider, x, y) ==> clear_of_cut(plane, percent, narrower, x, y),
        0 <= x < plane.width && 0 <= y < plane.height && narrower < distance(
            plane.sample(x, y),
            cut(plane.samples, percent),
        ) <= wider ==> clear_of_cut(plane, percent, narrower, x, y) && !clear_of_cut(
            plane,
            percent,
            wider,
            x,
            y,
        ),
{
    lemma_exclusion_band(plane, percent, narrower, x, y);
    lemma_exclusion_band(plane, percent, wider, x, y);
}

/// A sample below `level + 1` is below `level` or is `level`, and not both.
proof fn lemma_below_next(samples: Seq<u8>, level: int)
    ensures
        below(samples, level + 1) == below(samples, level) + occurrences(
            samples,
            samples.len(),
            level,
        ),
{
    lemma_count_true_disjoint(
        samples.len(),
        is_below(samples, level),
        is_level(samples, level),
        is_below(samples, level + 1),
    );
}

proof fn lemma_occurrences_bound(samples: Seq<u8>, n: nat, level: int)
    ensures
        occurrences(samples, n, level) <= n,
{
    lemma_count_true_bound(n, is_level(samples, level));
}

/// Counts how many samples sit at each of the 256 levels.
fn histogram(samples: &[u8]) -> (bins: Vec<u64>)
    ensures
        bins@.len() == LEVELS,
        forall|level: int|
            0 <= level < LEVELS ==> #[trigger] bins@[level] == occurrences(
                samples@,
                samples@.len(),
                level,
            ),
{
    let mut bins: Vec<u64> = vec![0u64; LEVELS];
    let length = samples.len();
    let mut i: usize = 0;
    proof {
        assert forall|level: int| 0 <= level < LEVELS implies #[trigger] bins@[level] == occurrences(samples@, 0, level) by {
        }
    }
    while i < length
        invariant
            length == samples@.len(),
            i <= length,
            bins@.len() == LEVELS,
            forall|level: int|
                0 <= level < LEVELS ==> #[trigger] bins@[level] == occurrences(samples@, i as nat, level),
        decreases length - i,
    {
        let sample = samples[i] as usize;
        proof {
            lemma_occurrences_bound(samples@, i as nat, sample as int);
        }
        let count = bins[sample];
        bins.set(sample, count + 1);
        i = i + 1;
    }
    bins
}

/// The sample value the bitmaps are cut at.
///
/// Returned as a `u16` rather than a `u8` because it can land one past the top
/// of the range: an image of nothing but 255s never satisfies the running sum
/// until the last bin is consumed, leaving the threshold at 256 and the
/// threshold bitmap empty. OpenCV returns 256 here too.
pub fn threshold(gray: &Gray, percentile: Percentile) -> (level: u16)
    ensures
        level == cut(gray@.samples, percentile.spec_percent()),
        level <= 256,
        level == 256 || below(gray@.samples, level as int) >= target(
            gray@.samples.len(),
            percentile.spec_percent(),
        ),
        forall|lower: int|
            0 <= lower < level ==> #[trigger] below(gray@.samples, lower) < target(
                gray@.samples.len(),
                percentile.spec_percent(),
            ),
{
    let samples = gray.as_slice();
    let histogram = histogram(samples);
    let ghost goal = target(samples@.len(), percentile.spec_percent());

    // Kept step for step with OpenCV's scan. The running sum is tested before
    // each bin is folded in, so the answer is one past the bin that tipped it.
    let length = samples.len();
    let percent = percentile.percent();
    proof {
        assert(length * percent <= length * 100) by (nonlinear_arith)
            requires
                percent <= 100,
        ;
        assert(length * percent / 100 <= length) by (nonlinear_arith)
            requires
                percent <= 100,
        ;
    }
    let target: u128 = length as u128 * percent as u128 / 100;
    let mut sum: u64 = 0;
    let mut level: usize = 0;
    proof {
        
        assert(below(samples@, 0) == 0) by {
            crate::counting::lemma_count_true_none(samples@.len(), is_below(samples@, 0));
        }
    }
    while sum < target as u64 && level < LEVELS
        invariant
            length == samples@.len(),
            target == goal,
            goal <= length,
            histogram@.len() == LEVELS,
            forall|v: int|
                0 <= v < LEVELS ==> #[trigger] histogram@[v] == occurrences(samples@, samples@.len(), v),
            level <= LEVELS,
            sum == below(samples@, level as int),
            forall|lower: int| 0 <= lower < level ==> #[trigger] below(samples@, lower) < goal,
            first_reaching(samples@, goal, 0) == first_reaching(samples@, goal, level as int),
        decreases LEVELS - level,
    {
        proof {
            lemma_below_next(samples@, level as int);
            lemma_count_true_bound(samples@.len(), is_below(samples@, level + 1));
        }
        sum = sum + histogram[level];
        level = level + 1;
    }
    level as u16
}

/// The cut is the least level below which enough samples lie: any level `least`
/// that reaches `goal` while no lower level does is where the scan stops.
pub proof fn lemma_cut_is_least(samples: Seq<u8>, goal: nat, least: int, from: int)
    requires
        0 <= from <= least <= 256,
        below(samples, least) >= goal,
        forall|lower: int| 0 <= lower < least ==> #[trigger] below(samples, lower) < goal,
    ensures
        first_reaching(samples, goal, from) == least,
    decreases least - from,
{
    if from < least {
        lemma_cut_is_least(samples, goal, least, from + 1);
    }
}

/// Every sample lies below 256, so the scan always stops on a level that
/// reaches the goal, and every lower level falls short of it.
pub proof fn lemma_cut_reaches(samples: Seq<u8>, percent: nat)
    requires
        percent <= 100,
    ensures
        0 <= cut(samples, percent) <= 256,
        below(samples, cut(samples, percent)) >= target(samples.len(), percent),
        forall|lower: int|
            0 <= lower < cut(samples, percent) ==> #[trigger] below(samples, lower) < target(
                samples.len(),
                percent,
            ),
{
    let goal = target(samples.len(), percent);
    assert(samples.len() * percent / 100 <= samples.len()) by (nonlinear_arith)
        requires
            percent <= 100,
    ;
    assert(below(samples, 256) == samples.len()) by {
        crate::counting::lemma_count_true_all(samples.len(), is_below(samples, 256));
    }
    lemma_first_reaching(samples, goal, 0);
}

proof fn lemma_first_reaching(samples: Seq<u8>, goal: nat, from: int)
    requires
        0 <= from <= 256,
        below(samples, 256) >= goal,
        forall|lower: int| 0 <= lower < from ==> #[trigger] below(samples, lower) < goal,
    ensures
        from <= first_reaching(samples, goal, from) <= 256,
        below(samples, first_reaching(samples, goal, from)) >= goal,
        forall|lower: int|
            0 <= lower < first_reaching(samples, goal, from) ==> #[trigger] below(samples, lower) < goal,
    decreases 256 - from,
{
    if from < 256 && below(samples, from) < goal {
        lemma_first_reaching(samples, goal, from + 1);
    }
}

/// `tone` raises every level strictly above the ones beneath it.
pub open spec fn strictly_increasing(tone: spec_fn(int) -> int) -> bool {
    forall|a: int, b: int| 0 <= a < b <= 255 ==> #[trigger] tone(a) < #[trigger] tone(b)
}

/// Under a strictly increasing tone change, what lies below a level's image
/// is what lay below the level.
proof fn lemma_below_maps(before: Seq<u8>, after: Seq<u8>, tone: spec_fn(int) -> int, level: int)
    requires
        before.len() == after.len(),
        strictly_increasing(tone),
        forall|i: int| 0 <= i < before.len() ==> #[trigger] after[i] == tone(before[i] as int),
        0 <= level <= 255,
    ensures
        below(after, tone(level)) == below(before, level),
        below(after, tone(level) + 1) == below(before, level + 1),
{
    assert forall|i: int| 0 <= i < before.len() implies #[trigger] is_below(after, tone(level))(i) == is_below(before, level)(i) by {
        let s = before[i] as int;
        if s < level {
            assert(tone(s) < tone(level));
        } else if s > level {
            assert(tone(level) < tone(s));
        }
    }
    lemma_count_true_ext(before.len(), is_below(after, tone(level)), is_below(before, level));
    assert forall|i: int| 0 <= i < before.len() implies #[trigger] is_below(after, tone(level) + 1)(i) == is_below(before, level + 1)(i) by {
        let s = before[i] as int;
        if s < level {
            assert(tone(s) < tone(level));
        } else if s > level {
            assert(tone(level) < tone(s));
        }
    }
    lemma_count_true_ext(before.len(), is_below(after, tone(level) + 1), is_below(before, level + 1));
}

/// Fewer samples lie below a lower level.
proof fn lemma_below_grows(samples: Seq<u8>, low: int, high: int)
    requires
        low <= high,
    ensures
        below(samples, low) <= below(samples, high),
{
    lemma_count_true_mono(samples.len(), is_below(samples, low), is_below(samples, high));
}

/// The threshold is a rank: a strictly increasing change of tone, such as a
/// different shutter speed that clips nothing, carries the bin that tips the
/// count along with it, so the cut lands one past that bin's new level.
pub proof fn lemma_cut_follows_tone(
    before: Seq<u8>,
    after: Seq<u8>,
    tone: spec_fn(int) -> int,
    percent: nat,
)
    requires
        percent <= 100,
        before.len() == after.len(),
        strictly_increasing(tone),
        forall|i: int| 0 <= i < before.len() ==> #[trigger] after[i] == tone(before[i] as int),
    ensures
        cut(after, percent) == if cut(before, percent) == 0 {
            0
        } else {
            tone(cut(before, percent) - 1) + 1
        },
{
    let goal = target(before.len(), percent);
    let old_cut = cut(before, percent);
    lemma_cut_reaches(before, percent);
    if old_cut == 0 {
        crate::counting::lemma_count_true_none(before.len(), is_below(before, 0));
        lemma_cut_is_least(after, goal, 0, 0);
    } else {
        let tipping = old_cut - 1;
        lemma_below_maps(before, after, tone, tipping);
        lemma_below_next(before, tipping);
        let i = lemma_count_true_witness(before.len(), is_level(before, tipping));
        assert(after[i] == tone(tipping));
        assert forall|lower: int| 0 <= lower < tone(tipping) + 1 implies #[trigger] below(after, lower) < goal by {
            lemma_below_grows(after, lower, tone(tipping));
        }
        lemma_cut_is_least(after, goal, tone(tipping) + 1, 0);
    }
}

/// The threshold bitmap survives a strictly increasing change of tone wherever
/// that change keeps the tipping bin and the cut on neighbouring levels, as a
/// uniform change of brightness does.
pub proof fn lemma_threshold_bitmap_follows_tone(
    before: Plane,
    after: Plane,
    tone: spec_fn(int) -> int,
    percent: nat,
)
    requires
        percent <= 100,
        before.wf(),
        after.width == before.width,
        after.height == before.height,
        after.samples.len() == before.samples.len(),
        strictly_increasing(tone),
        forall|i: int| 0 <= i < before.samples.len() ==> #[trigger] after.samples[i] == tone(before.samples[i] as int),
        cut(before.samples, percent) >= 1,
        cut(before.samples, percent) <= 255 ==> tone(cut(before.samples, percent)) == tone(
            cut(before.samples, percent) - 1,
        ) + 1,
    ensures
        forall|x: int, y: int| #[trigger] above_cut(after, percent, x, y) == above_cut(before, percent, x, y),
{
    lemma_cut_follows_tone(before.samples, after.samples, tone, percent);
    lemma_cut_reaches(before.samples, percent);
    let old_cut = cut(before.samples, percent);
    assert forall|x: int, y: int| #[trigger] above_cut(after, percent, x, y) == above_cut(before, percent, x, y) by {
        if 0 <= x < before.width && 0 <= y < before.height {
            lemma_sample_index(x, y, before.width as int, before.height as int);
            let s = before.sample(x, y) as int;
            assert(after.sample(x, y) == tone(s));
            if old_cut <= 255 {
                if s > old_cut {
                    assert(tone(old_cut) < tone(s));
                } else if s < old_cut {
                    assert(tone(s) < tone(old_cut));
                }
            } else if s < 255 {
                assert(tone(s) < tone(255));
            }
        }
    }
}

/// A uniform change of brightness that clips nothing leaves both bitmaps as
/// they were, as long as the cut asks for at least one sample below it.
pub proof fn lemma_bitmaps_survive_brightening(
    before: Plane,
    after: Plane,
    brightening: int,
    percent: nat,
    tolerance: nat,
)
    requires
        percent <= 100,
        before.wf(),
        after.width == before.width,
        after.height == before.height,
        after.samples.len() == before.samples.len(),
        forall|i: int| 0 <= i < before.samples.len() ==> #[trigger] after.samples[i] == before.samples[i] + brightening,
        target(before.samples.len(), percent) >= 1,
    ensures
        forall|x: int, y: int| #[trigger] above_cut(after, percent, x, y) == above_cut(before, percent, x, y),
        forall|x: int, y: int| #[trigger] clear_of_cut(after, percent, tolerance, x, y) == clear_of_cut(
            before,
            percent,
            tolerance,
            x,
            y,
        ),
{
    let tone = |level: int| level + brightening;
    lemma_cut_reaches(before.samples, percent);
    assert(below(before.samples, 0) == 0) by {
        crate::counting::lemma_count_true_none(before.samples.len(), is_below(before.samples, 0));
    }
    lemma_threshold_bitmap_follows_tone(before, after, tone, percent);
    lemma_cut_follows_tone(before.samples, after.samples, tone, percent);
    assert forall|x: int, y: int| #[trigger] clear_of_cut(after, percent, tolerance, x, y) == clear_of_cut(before, percent, tolerance, x, y) by {
        if 0 <= x < before.width && 0 <= y < before.height {
            lemma_sample_index(x, y, before.width as int, before.height as int);
        }
    }
}

/// One exposure reduced to the two bitmaps the search compares.
///
/// They travel together because the exclusion bitmap is only meaningful against
/// the threshold it was cut from.
#[derive(PartialEq, Eq)]
pub struct Bitmaps {
    /// Set where a sample is above the threshold.
    pub threshold: Bitmap,
    /// *Clear* within the noise tolerance of the threshold, where a sample's
    /// side of the threshold cannot be trusted.
    pub exclusion: Bitmap,
}

impl Clone for Bitmaps {
    fn clone(&self) -> (copy: Self)
        ensures
            copy.threshold.spec_width() == self.threshold.spec_width(),
            copy.threshold.spec_height() == self.threshold.spec_height(),
            copy.exclusion.spec_width() == self.exclusion.spec_width(),
            copy.exclusion.spec_height() == self.exclusion.spec_height(),
            self.wf() ==> copy.wf(),
            forall|x: int, y: int| #[trigger] copy.threshold.at(x, y) == self.threshold.at(x, y),
            forall|x: int, y: int| #[trigger] copy.exclusion.at(x, y) == self.exclusion.at(x, y),
    {
        Bitmaps { threshold: self.threshold.clone(), exclusion: self.exclusion.clone() }
    }
}

impl Bitmaps {
    /// Both bitmaps are well formed and the same size.
    pub open spec fn wf(&self) -> bool {
        &&& self.threshold.wf()
        &&& self.exclusion.wf()
        &&& self.threshold.spec_width() == self.exclusion.spec_width()
        &&& self.threshold.spec_height() == self.exclusion.spec_height()
    }

    /// The two bitmaps of `plane`, cut at `percent` with `tolerance`.
    pub open spec fn cut_from(&self, plane: Plane, percent: nat, tolerance: nat) -> bool {
        &&& self.wf()
        &&& self.threshold.spec_width() == plane.width
        &&& self.threshold.spec_height() == plane.height
        &&& forall|x: int, y: int|
            #[trigger] self.threshold.at(x, y) == above_cut(plane, percent, x, y)
        &&& forall|x: int, y: int|
            #[trigger] self.exclusion.at(x, y) == clear_of_cut(plane, percent, tolerance, x, y)
    }
}

/// Reduces one exposure to its threshold and exclusion bitmaps.
pub fn compute_bitmaps(gray: &Gray, percentile: Percentile, tolerance: u8) -> (bitmaps: Bitmaps)
    ensures
        bitmaps.cut_from(gray@, percentile.spec_percent(), tolerance as nat),
        forall|x: int, y: int|
            #[trigger] bitmaps.exclusion.at(x, y) == (0 <= x < gray@.width && 0 <= y < gray@.height
                && (gray@.sample(x, y) > cut(gray@.samples, percentile.spec_percent()) + tolerance
                || gray@.sample(x, y) + tolerance < cut(gray@.samples, percentile.spec_percent()))),
        forall|x: int, y: int|
            #[trigger] bitmaps.threshold.at(x, y) == (0 <= x < gray@.width && 0 <= y < gray@.height
                && gray@.sample(x, y) > cut(gray@.samples, percentile.spec_percent())),
{
    let cut = threshold(gray, percentile);
    let tolerance = tolerance as u16;
    let width = gray.width();
    let height = gray.height();
    let above = |x: usize, y: usize| -> (above: bool)
            requires
                x < width,
                y < height,
                gray@.wf(),
                gray@.width == width,
                gray@.height == height,
            ensures
                above == (gray@.sample(x as int, y as int) > cut),
            {
                proof {
                    lemma_sample_index(x as int, y as int, width as int, height as int);
                }
                gray.sample(x, y) as u16 > cut
            };
    let clear = |x: usize, y: usize| -> (clear: bool)
            requires
                x < width,
                y < height,
                gray@.wf(),
                gray@.width == width,
                gray@.height == height,
            ensures
                clear == (distance(gray@.sample(x as int, y as int), cut as int) > tolerance),
            {
                proof {
                    lemma_sample_index(x as int, y as int, width as int, height as int);
                }
                let sample = gray.sample(x, y) as u16;
                let apart = if sample >= cut {
                    sample - cut
                } else {
                    cut - sample
                };
                apart > tolerance
            };
    let threshold = Bitmap::packed(width, height, above);
    let exclusion = Bitmap::packed(width, height, clear);
    let bitmaps = Bitmaps { threshold, exclusion };
    proof {
        assert forall|x: int, y: int| #[trigger] bitmaps.threshold.at(x, y) == above_cut(
            gray@,
            percentile.spec_percent(),
            x,
            y,
        ) by {
            if 0 <= x < width && 0 <= y < height {
                assert(call_ensures(above, (x as usize, y as usize), bitmaps.threshold.at(x, y)));
            }
        }
        assert forall|x: int, y: int| #[trigger] bitmaps.exclusion.at(x, y) == clear_of_cut(
            gray@,
            percentile.spec_percent(),
            tolerance as nat,
            x,
            y,
        ) by {
            if 0 <= x < width && 0 <= y < height {
                assert(call_ensures(clear, (x as usize, y as usize), bitmaps.exclusion.at(x, y)));
            }
        }
        assert forall|x: int, y: int| #[trigger] bitmaps.exclusion.at(x, y) == (0 <= x < gray@.width
            && 0 <= y < gray@.height && (gray@.sample(x, y) > cut + tolerance || gray@.sample(x, y)
            + tolerance < cut)) by {
            lemma_exclusion_band(gray@, percentile.spec_percent(), tolerance as nat, x, y);
        }
    }
    bitmaps
}

} // verus!
