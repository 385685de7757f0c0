use vstd::prelude::*;
use crate::counting::{count_grid, lemma_count_grid_ext, lemma_count_grid_none};
use crate::difference::{comparable, disagreement, disagreement_count, disagrees_anywhere};
use crate::geometry::Shift;
use crate::gray::{Gray, Plane};
use crate::shrink::{Shrink, halved, shrink2};
use crate::threshold::{Bitmaps, Percentile, above_cut, clear_of_cut, compute_bitmaps};

verus! {

/// The nine candidates, in Ward's order, with the centre pulled to the front.
///
/// Ward and OpenCV both scan `x` outermost and keep the first candidate to beat
/// the running best, which leaves `(-1, -1)` winning whenever everything ties.
/// That only happens when an exposure carries no usable signal at all — every
/// pixel excluded as noise — but then it drifts the answer by a pixel per
/// level rather than reporting the honest zero. Trying the centre first costs
/// nothing and makes a tie resolve to "no movement".
pub open spec fn candidate_offset(index: int) -> (i32, i32) {
    if index == 0 {
        (0, 0)
    } else if index == 1 {
        (-1i32, -1i32)
    } else if index == 2 {
        (-1i32, 0)
    } else if index == 3 {
        (-1i32, 1)
    } else if index == 4 {
        (0, -1i32)
    } else if index == 5 {
        (0, 1)
    } else if index == 6 {
        (1, -1i32)
    } else if index == 7 {
        (1, 0)
    } else {
        (1, 1)
    }
}

/// How many candidates the search weighs at each level.
const CANDIDATES: usize = 9;

/// Candidate `index` of [`candidate_offset`].
fn candidate(index: usize) -> (offset: (i32, i32))
    requires
        index < CANDIDATES,
    ensures
        offset == candidate_offset(index as int),
{
    if index == 0 {
        (0, 0)
    } else if index == 1 {
        (-1, -1)
    } else if index == 2 {
        (-1, 0)
    } else if index == 3 {
        (-1, 1)
    } else if index == 4 {
        (0, -1)
    } else if index == 5 {
        (0, 1)
    } else if index == 6 {
        (1, -1)
    } else if index == 7 {
        (1, 0)
    } else {
        (1, 1)
    }
}

/// `shift` moved by `step`.
pub open spec fn moved(shift: Shift, step: (i32, i32)) -> Shift {
    Shift { x: (shift.x + step.0) as i32, y: (shift.y + step.1) as i32 }
}

/// `shift` carried to the next finer level, where it spans twice the pixels.
pub open spec fn twice(shift: Shift) -> Shift {
    Shift { x: (2 * shift.x) as i32, y: (2 * shift.y) as i32 }
}

/// The first of the first `n` errors that none of them beats.
pub open spec fn first_least(errors: Seq<nat>, n: int) -> int
    decreases n,
{
    if n <= 1 {
        0
    } else {
        let best = first_least(errors, n - 1);
        if errors[n - 1] < errors[best] {
            n - 1
        } else {
            best
        }
    }
}

pub proof fn lemma_first_least(errors: Seq<nat>, n: int)
    requires
        1 <= n <= errors.len(),
    ensures
        0 <= first_least(errors, n) < n,
        forall|j: int| 0 <= j < n ==> errors[first_least(errors, n)] <= #[trigger] errors[j],
        forall|j: int| 0 <= j < first_least(errors, n) ==> errors[first_least(errors, n)] < #[trigger] errors[j],
    decreases n,
{
    if n > 1 {
        lemma_first_least(errors, n - 1);
    }
}

/// A tie resolves to no movement: when nothing beats the centre, the search
/// keeps it.
pub proof fn lemma_tie_goes_to_the_centre(errors: Seq<nat>)
    requires
        errors.len() == 9,
        forall|j: int| 0 <= j < 9 ==> errors[0] <= #[trigger] errors[j],
    ensures
        first_least(errors, 9) == 0,
        candidate_offset(first_least(errors, 9)) == (0i32, 0i32),
{
    lemma_first_least(errors, 9);
}

/// The disagreement at each of the nine candidates around `around`.
pub open spec fn candidate_errors(reference: Bitmaps, target: Bitmaps, around: Shift) -> Seq<nat> {
    Seq::new(
        9,
        |i: int| disagreement_count(reference, target, moved(around, candidate_offset(i))),
    )
}

/// The best of the nine offsets within a pixel of `around`: the first, in
/// candidate order, that no other beats.
fn refine(reference: &Bitmaps, target: &Bitmaps, around: Shift) -> (best: Shift)
    requires
        comparable(*reference, *target),
        i32::MIN < around.x < i32::MAX,
        i32::MIN < around.y < i32::MAX,
    ensures
        best == moved(
            around,
            candidate_offset(first_least(candidate_errors(*reference, *target, around), 9)),
        ),
{
    let ghost errors = candidate_errors(*reference, *target, around);
    let mut best = around;
    let mut least = u64::MAX;
    let mut index: usize = 0;
    while index < CANDIDATES
        invariant
            comparable(*reference, *target),
            i32::MIN < around.x < i32::MAX,
            i32::MIN < around.y < i32::MAX,
            errors == candidate_errors(*reference, *target, around),
            index <= CANDIDATES,
            index == 0 ==> best == around && least == u64::MAX,
            index > 0 ==> best == moved(around, candidate_offset(first_least(errors, index as int)))
                && least == errors[first_least(errors, index as int)],
        decreases CANDIDATES - index,
    {
        let (x, y) = candidate(index);
        let candidate = around.offset(x, y);
        let error = disagreement(reference, target, candidate);
        proof {
            if index > 0 {
                lemma_first_least(errors, index as int);
            }
        }
        if error < least {
            least = error;
            best = candidate;
        }
        index = index + 1;
    }
    best
}

/// How the search is run.
#[derive(Clone, Copy, Debug, PartialEq, Eq, Structural)]
pub struct Options {
    /// Ward's `shift_bits`. The search reaches `±(2^bits - 1)` pixels, and he
    /// reports six working well in practice.
    ///
    /// Each bit is one more halving, and the coarsest level is where the offset
    /// is first guessed — every level below it can only correct by a pixel. Six
    /// bits of an eight megapixel frame leaves a coarsest level of a few hundred
    /// pixels, which is plenty; six bits of a thumbnail leaves a handful, and a
    /// guess made there is worth about as much as a coin toss multiplied by 32.
    /// Small images want fewer bits, not more.
    pub bits: u32,
    /// How far from the threshold a sample has to sit before it is trusted.
    pub tolerance: u8,
    pub percentile: Percentile,
    pub shrink: Shrink,
}

impl Default for Options {
    fn default() -> (options: Self)
        ensures
            options.bits == 6,
            options.tolerance == 4,
            options.percentile.spec_percent() == 50,
            options.shrink == Shrink::Average,
    {
        Self { bits: 6, tolerance: 4, percentile: Percentile::median(), shrink: Shrink::Average }
    }
}

impl Options {
    /// The conventions OpenCV's `AlignMTB` uses, for comparing against it.
    pub fn opencv() -> (options: Self)
        ensures
            options.bits == 6,
            options.tolerance == 4,
            options.percentile.spec_percent() == 50,
            options.shrink == Shrink::Subsample,
    {
        Self { shrink: Shrink::Subsample, ..Self::default() }
    }
}

/// `n` halved until one is left, counting the halvings: the logarithm of `n`
/// to base two, rounded down.
pub open spec fn log2(n: nat) -> nat
    decreases n,
{
    if n <= 1 {
        0
    } else {
        1 + log2(n / 2)
    }
}

/// Two to the power `n`.
pub open spec fn two_to(n: nat) -> nat
    decreases n,
{
    if n == 0 {
        1
    } else {
        2 * two_to((n - 1) as nat)
    }
}

pub proof fn lemma_log2_bound(n: nat, k: nat)
    requires
        n < two_to(k + 1),
    ensures
        log2(n) <= k,
    decreases k,
{
    if n > 1 {
        assert(k >= 1) by {
            if k == 0 {
                reveal_with_fuel(two_to, 2);
            }
        }
        lemma_log2_bound(n / 2, (k - 1) as nat);
    }
}

/// `n - m`, or zero where that would be negative.
pub open spec fn less(n: nat, m: nat) -> nat {
    if n >= m {
        (n - m) as nat
    } else {
        0
    }
}

/// How many times a `width` by `height` image is halved before the search
/// starts with `bits` bits: one less than the bits, one less than the
/// logarithm of the longest side, and no more than the logarithm of the
/// shortest, whichever is least.
pub open spec fn levels_for(width: nat, height: nat, bits: nat) -> nat {
    if width == 0 || height == 0 {
        0
    } else {
        let longest = if width >= height { width } else { height };
        let shortest = if width >= height { height } else { width };
        let by_bits = less(bits, 1);
        let by_longest = less(log2(longest), 1);
        let by_shortest = log2(shortest);
        let capped = if by_bits <= by_longest { by_bits } else { by_longest };
        if capped <= by_shortest { capped } else { by_shortest }
    }
}

proof fn lemma_two_to_grows(m: nat, n: nat)
    requires
        m <= n,
    ensures
        1 <= two_to(m) <= two_to(n),
    decreases n,
{
    if n > m {
        lemma_two_to_grows(m, (n - 1) as nat);
    } else if n > 0 {
        lemma_two_to_grows((n - 1) as nat, (n - 1) as nat);
    }
}

/// `log2(n)` is the power of two that brackets `n`.
proof fn lemma_log2_brackets(n: nat)
    requires
        n >= 1,
    ensures
        two_to(log2(n)) <= n < two_to(log2(n) + 1),
    decreases n,
{
    reveal_with_fuel(two_to, 2);
    if n > 1 {
        lemma_log2_brackets(n / 2);
    }
}

/// How many halvings a `width` by `height` image allows with `bits` bits,
/// stated by powers of two: depth `levels` is allowed when it is zero or
/// leaves `bits - 1` unexceeded, when `2^(levels + 1)` still fits in the
/// longest side (or it is zero), and when `2^levels` still fits in the shortest.
proof fn lemma_depth_allowed_shrinks(width: nat, height: nat, bits: nat, deeper: nat, levels: nat)
    requires
        levels <= deeper,
        ({
            let longest = if width >= height { width } else { height };
            let shortest = if width >= height { height } else { width };
            &&& deeper == 0 || deeper + 1 <= bits
            &&& deeper == 0 || two_to(deeper + 1) <= longest
            &&& two_to(deeper) <= shortest
        }),
    ensures
        ({
            let longest = if width >= height { width } else { height };
            let shortest = if width >= height { height } else { width };
            &&& levels == 0 || levels + 1 <= bits
            &&& levels == 0 || two_to(levels + 1) <= longest
            &&& two_to(levels) <= shortest
        }),
{
    lemma_two_to_grows(levels, deeper);
    lemma_two_to_grows(levels + 1, deeper + 1);
}

/// The depth of the pyramid follows the bits and the sides: `levels_for` is the
/// deepest depth that one less than the bits, half the longest side and the
/// shortest side all allow, so one more bit gives one more halving until a side
/// runs out.
pub proof fn lemma_levels_follow_bits(width: nat, height: nat, bits: nat)
    requires
        width > 0,
        height > 0,
    ensures
        ({
            let levels = levels_for(width, height, bits);
            let longest = if width >= height { width } else { height };
            let shortest = if width >= height { height } else { width };
            &&& levels == 0 || levels + 1 <= bits
            &&& levels == 0 || two_to(levels + 1) <= longest
            &&& two_to(levels) <= shortest
            &&& !(levels + 2 <= bits && two_to(levels + 2) <= longest && two_to(levels + 1)
                <= shortest)
        }),
{
    let longest = if width >= height { width } else { height };
    let shortest = if width >= height { height } else { width };
    let levels = levels_for(width, height, bits);
    lemma_log2_brackets(longest);
    lemma_log2_brackets(shortest);
    lemma_two_to_grows(levels, log2(shortest));
    if log2(longest) >= 1 {
        lemma_two_to_grows(levels + 1, log2(longest));
    }
    if levels + 2 <= bits && two_to(levels + 2) <= longest && two_to(levels + 1) <= shortest {
        if levels == less(bits, 1) {
        } else if levels == less(log2(longest), 1) {
            if log2(longest) >= 1 {
                lemma_two_to_grows(log2(longest) + 1, levels + 2);
            } else {
                reveal_with_fuel(two_to, 3);
                lemma_two_to_grows(2, levels + 2);
            }
        } else {
            lemma_two_to_grows(log2(shortest) + 1, levels + 1);
        }
    }
}

/// Only one depth is allowed while one more is not.
proof fn lemma_depth_unique(width: nat, height: nat, bits: nat, first: nat, second: nat)
    requires
        ({
            let longest = if width >= height { width } else { height };
            let shortest = if width >= height { height } else { width };
            &&& first == 0 || first + 1 <= bits
            &&& first == 0 || two_to(first + 1) <= longest
            &&& two_to(first) <= shortest
            &&& !(first + 2 <= bits && two_to(first + 2) <= longest && two_to(first + 1) <= shortest)
            &&& second == 0 || second + 1 <= bits
            &&& second == 0 || two_to(second + 1) <= longest
            &&& two_to(second) <= shortest
            &&& !(second + 2 <= bits && two_to(second + 2) <= longest && two_to(second + 1)
                <= shortest)
        }),
    ensures
        first == second,
{
    if first < second {
        lemma_depth_allowed_shrinks(width, height, bits, second, first + 1);
    } else if second < first {
        lemma_depth_allowed_shrinks(width, height, bits, first, second + 1);
    }
}

/// The logarithm of `n` to base two, rounded down; `n` has to be positive.
fn floor_log2(n: usize) -> (log: u32)
    requires
        n > 0,
    ensures
        log == log2(n as nat),
{
    proof {
        reveal_with_fuel(two_to, 65);
        lemma_log2_bound(n as nat, 63);
    }
    let mut rest = n;
    let mut log: u32 = 0;
    while rest > 1
        invariant
            rest >= 1,
            log + log2(rest as nat) == log2(n as nat),
            log2(n as nat) <= 63,
        decreases rest,
    {
        rest = rest / 2;
        log = log + 1;
    }
    log
}

/// How many times the image is halved before the search starts.
///
/// Ward's recursion descends `shift_bits` times whatever the image size, which
/// would shrink a small one past a single pixel; the pseudocode quietly assumes
/// there is plenty of resolution to give away. OpenCV caps the descent by the
/// longest side instead, and this follows it, with a second cap on the shortest
/// side so an extreme aspect ratio cannot collapse a level to nothing.
pub fn shrinks(width: usize, height: usize, bits: u32) -> (levels: usize)
    ensures
        levels == levels_for(width as nat, height as nat, bits as nat),
        width == 0 || height == 0 ==> levels == 0,
        width > 0 && height > 0 ==> ({
            let longest = if width >= height { width } else { height };
            let shortest = if width >= height { height } else { width };
            &&& levels == 0 || levels + 1 <= bits
            &&& levels == 0 || two_to((levels + 1) as nat) <= longest
            &&& two_to(levels as nat) <= shortest
            &&& !(levels + 2 <= bits && two_to((levels + 2) as nat) <= longest && two_to(
                (levels + 1) as nat,
            ) <= shortest)
        }),
{
    proof {
        if width > 0 && height > 0 {
            lemma_levels_follow_bits(width as nat, height as nat, bits as nat);
        }
    }
    if width == 0 || height == 0 {
        return 0;
    }
    let longest = floor_log2(if width >= height { width } else { height }).saturating_sub(1);
    let shortest = floor_log2(if width >= height { height } else { width });
    let by_bits = bits.saturating_sub(1);
    let capped = if by_bits <= longest { by_bits } else { longest };
    (if capped <= shortest { capped } else { shortest }) as usize
}

/// Level `level` of the pyramid over `plane`: `plane` halved `level` times.
pub open spec fn level_plane(plane: Plane, mode: Shrink, level: nat) -> Plane
    decreases level,
{
    if level == 0 {
        plane
    } else {
        halved(level_plane(plane, mode, (level - 1) as nat), mode)
    }
}

/// Two planes of the same size stay the same size level by level.
proof fn lemma_level_sizes(first: Plane, second: Plane, mode: Shrink, level: nat)
    requires
        first.width == second.width,
        first.height == second.height,
    ensures
        level_plane(first, mode, level).width == level_plane(second, mode, level).width,
        level_plane(first, mode, level).height == level_plane(second, mode, level).height,
    decreases level,
{
    if level > 0 {
        lemma_level_sizes(first, second, mode, (level - 1) as nat);
    }
}

/// Halving keeps a plane well formed.
proof fn lemma_level_wf(plane: Plane, mode: Shrink, level: nat)
    requires
        plane.wf(),
    ensures
        level_plane(plane, mode, level).wf(),
    decreases level,
{
    if level > 0 {
        lemma_level_wf(plane, mode, (level - 1) as nat);
    }
}

/// Builds the pyramid: `gray` itself, then each level halved from the one above.
fn pyramid(gray: &Gray, levels: usize, shrink: Shrink) -> (pyramid: Vec<Gray>)
    requires
        levels < usize::MAX,
    ensures
        pyramid@.len() == levels + 1,
        forall|level: int|
            0 <= level <= levels ==> #[trigger] pyramid@[level]@ == level_plane(
                gray@,
                shrink,
                level as nat,
            ),
{
    let mut pyramid: Vec<Gray> = Vec::with_capacity(levels + 1);
    pyramid.push(gray.clone());

    let mut level: usize = 0;
    while level < levels
        invariant
            level <= levels,
            pyramid@.len() == level + 1,
            forall|done: int|
                0 <= done <= level ==> #[trigger] pyramid@[done]@ == level_plane(
                    gray@,
                    shrink,
                    done as nat,
                ),
        decreases levels - level,
    {
        let coarser = shrink2(&pyramid[level], shrink);
        pyramid.push(coarser);
        level = level + 1;
    }

    pyramid
}

/// Whether pixel `(x, y)` of the reference plane counts against `shift` once
/// both planes are cut as `options` says: [`crate::difference::disagrees`]
/// stated of the planes themselves.
pub open spec fn plane_disagrees(
    reference: Plane,
    target: Plane,
    options: Options,
    shift: Shift,
    x: int,
    y: int,
) -> bool {
    let percent = options.percentile.spec_percent();
    let tolerance = options.tolerance as nat;
    &&& above_cut(reference, percent, x, y) != above_cut(target, percent, x - shift.x, y - shift.y)
    &&& clear_of_cut(reference, percent, tolerance, x, y)
    &&& clear_of_cut(target, percent, tolerance, x - shift.x, y - shift.y)
}

/// How many pixels of the reference plane count against `shift`.
pub open spec fn plane_disagreement(reference: Plane, target: Plane, options: Options, shift: Shift) -> nat {
    count_grid(
        reference.width,
        reference.height,
        |x: int, y: int| plane_disagrees(reference, target, options, shift, x, y),
    )
}

/// The disagreement of the two planes at each of the nine candidates.
pub open spec fn plane_errors(reference: Plane, target: Plane, options: Options, around: Shift) -> Seq<nat> {
    Seq::new(
        9,
        |i: int| plane_disagreement(reference, target, options, moved(around, candidate_offset(i))),
    )
}

/// The candidate around `around` that the search keeps at one level.
pub open spec fn refined(reference: Plane, target: Plane, options: Options, around: Shift) -> Shift {
    moved(around, candidate_offset(first_least(plane_errors(reference, target, options, around), 9)))
}

/// The offset the search has settled on at `level` of a `levels`-deep pyramid:
/// the coarsest level refines around no movement, every finer one around the
/// level above's answer, doubled.
pub open spec fn search(reference: Plane, target: Plane, options: Options, levels: nat, level: nat) -> Shift
    decreases levels - level,
{
    let around = if level >= levels {
        Shift { x: 0, y: 0 }
    } else {
        twice(search(reference, target, options, levels, level + 1))
    };
    refined(
        level_plane(reference, options.shrink, level),
        level_plane(target, options.shrink, level),
        options,
        around,
    )
}

/// How far `target` has to move to sit on top of `reference`, as the search
/// finds it.
pub open spec fn found_shift(reference: Plane, target: Plane, options: Options) -> Shift {
    search(
        reference,
        target,
        options,
        levels_for(reference.width, reference.height, options.bits as nat),
        0,
    )
}

/// The largest offset `n` refinements can reach: `2^n - 1`.
pub open spec fn reach(n: nat) -> int
    decreases n,
{
    if n == 0 {
        0
    } else {
        2 * reach((n - 1) as nat) + 1
    }
}

proof fn lemma_reach_grows(m: nat, n: nat)
    requires
        m <= n,
    ensures
        0 <= reach(m) <= reach(n),
    decreases n,
{
    if n > m {
        lemma_reach_grows(m, (n - 1) as nat);
    } else if n > 0 {
        lemma_reach_grows((n - 1) as nat, (n - 1) as nat);
    }
}

/// Each level can add at most a pixel to twice what the level above found, so
/// after `levels - level + 1` refinements the offset is within `reach` of them.
proof fn lemma_search_bound(reference: Plane, target: Plane, options: Options, levels: nat, level: nat)
    requires
        level <= levels,
        levels <= 30,
    ensures
        -reach((levels - level + 1) as nat) <= search(reference, target, options, levels, level).x <= reach(
            (levels - level + 1) as nat,
        ),
        -reach((levels - level + 1) as nat) <= search(reference, target, options, levels, level).y <= reach(
            (levels - level + 1) as nat,
        ),
    decreases levels - level,
{
    reveal_with_fuel(reach, 32);
    lemma_reach_grows((levels - level + 1) as nat, 31);
    let found = search(reference, target, options, levels, level);
    let errors = plane_errors(
        level_plane(reference, options.shrink, level),
        level_plane(target, options.shrink, level),
        options,
        if level >= levels {
            Shift { x: 0, y: 0 }
        } else {
            twice(search(reference, target, options, levels, level + 1))
        },
    );
    lemma_first_least(errors, 9);
    if level < levels {
        lemma_search_bound(reference, target, options, levels, level + 1);
        lemma_reach_grows((levels - level) as nat, 30);
    }
}

/// One level of the search moves at most a pixel from `around` each way.
proof fn lemma_refined_near(reference: Plane, target: Plane, options: Options, around: Shift)
    requires
        i32::MIN < around.x < i32::MAX,
        i32::MIN < around.y < i32::MAX,
    ensures
        around.x - 1 <= refined(reference, target, options, around).x <= around.x + 1,
        around.y - 1 <= refined(reference, target, options, around).y <= around.y + 1,
{
    lemma_first_least(plane_errors(reference, target, options, around), 9);
}

/// One level of the search keeps the best of the nine candidates: the offset it
/// settles on is within a pixel of `around` in each direction, no candidate
/// within a pixel disagrees less, and when nothing beats `around` itself it
/// stays put.
pub proof fn lemma_refined_is_best(reference: Plane, target: Plane, options: Options, around: Shift)
    requires
        i32::MIN < around.x < i32::MAX,
        i32::MIN < around.y < i32::MAX,
    ensures
        around.x - 1 <= refined(reference, target, options, around).x <= around.x + 1,
        around.y - 1 <= refined(reference, target, options, around).y <= around.y + 1,
        forall|dx: int, dy: int|
            -1 <= dx <= 1 && -1 <= dy <= 1 ==> plane_disagreement(
                reference,
                target,
                options,
                refined(reference, target, options, around),
            ) <= #[trigger] plane_disagreement(
                reference,
                target,
                options,
                Shift { x: (around.x + dx) as i32, y: (around.y + dy) as i32 },
            ),
        (forall|dx: int, dy: int|
            -1 <= dx <= 1 && -1 <= dy <= 1 ==> plane_disagreement(reference, target, options, around)
                <= #[trigger] plane_disagreement(
                reference,
                target,
                options,
                Shift { x: (around.x + dx) as i32, y: (around.y + dy) as i32 },
            )) ==> refined(reference, target, options, around) == around,
{
    let errors = plane_errors(reference, target, options, around);
    lemma_first_least(errors, 9);
    let best = first_least(errors, 9);
    assert forall|dx: int, dy: int| -1 <= dx <= 1 && -1 <= dy <= 1 implies plane_disagreement(
        reference,
        target,
        options,
        refined(reference, target, options, around),
    ) <= #[trigger] plane_disagreement(
        reference,
        target,
        options,
        Shift { x: (around.x + dx) as i32, y: (around.y + dy) as i32 },
    ) by {
        let j: int = if dx == 0 && dy == 0 {
            0
        } else if dx == -1 {
            2 + dy
        } else if dx == 0 {
            if dy == -1 { 4 } else { 5 }
        } else {
            7 + dy
        };
        assert(moved(around, candidate_offset(j)) == Shift { x: (around.x + dx) as i32, y: (around.y + dy) as i32 });
        assert(errors[j] == plane_disagreement(reference, target, options, moved(around, candidate_offset(j))));
    }
    if forall|dx: int, dy: int|
        -1 <= dx <= 1 && -1 <= dy <= 1 ==> plane_disagreement(reference, target, options, around)
            <= #[trigger] plane_disagreement(
            reference,
            target,
            options,
            Shift { x: (around.x + dx) as i32, y: (around.y + dy) as i32 },
        ) {
        assert(moved(around, candidate_offset(0)) == around);
        assert forall|j: int| 0 <= j < 9 implies errors[0] <= #[trigger] errors[j] by {
            let (dx, dy) = candidate_offset(j);
            assert(moved(around, candidate_offset(j)) == Shift { x: (around.x + dx) as i32, y: (around.y + dy) as i32 });
            assert(plane_disagreement(reference, target, options, around) <= plane_disagreement(
                reference,
                target,
                options,
                Shift { x: (around.x + dx) as i32, y: (around.y + dy) as i32 },
            ));
        }
        lemma_tie_goes_to_the_centre(errors);
    }
}

/// Each level of the search corrects the level above's answer, doubled, by at
/// most a pixel in each direction; the coarsest level starts from no movement.
#[verifier::spinoff_prover]
#[verifier::rlimit(40)]
pub proof fn lemma_search_steps(reference: Plane, target: Plane, options: Options, levels: nat, level: nat)
    requires
        level <= levels <= 30,
    ensures
        level == levels ==> -1 <= search(reference, target, options, levels, level).x <= 1
            && -1 <= search(reference, target, options, levels, level).y <= 1,
        level < levels ==> {
            let coarser = search(reference, target, options, levels, level + 1);
            let found = search(reference, target, options, levels, level);
            &&& 2 * coarser.x - 1 <= found.x <= 2 * coarser.x + 1
            &&& 2 * coarser.y - 1 <= found.y <= 2 * coarser.y + 1
        },
{
    let around = if level >= levels {
        Shift { x: 0, y: 0 }
    } else {
        twice(search(reference, target, options, levels, level + 1))
    };
    if level < levels {
        let coarser = search(reference, target, options, levels, level + 1);
        assert(-reach(30) <= coarser.x <= reach(30) && -reach(30) <= coarser.y <= reach(30)) by {
            lemma_search_bound(reference, target, options, levels, level + 1);
            lemma_reach_grows((levels - level) as nat, 30);
        }
        assert(reach(30) == 0x3fff_ffff) by {
            reveal_with_fuel(reach, 31);
        }
    }
    assert(search(reference, target, options, levels, level) == refined(
        level_plane(reference, options.shrink, level),
        level_plane(target, options.shrink, level),
        options,
        around,
    ));
    lemma_refined_near(
        level_plane(reference, options.shrink, level),
        level_plane(target, options.shrink, level),
        options,
        around,
    );
}

/// The disagreement the bitmaps count is the one the planes they were cut from
/// define.
proof fn lemma_counts_agree(
    reference_bitmaps: Bitmaps,
    target_bitmaps: Bitmaps,
    reference: Plane,
    target: Plane,
    options: Options,
    shift: Shift,
)
    requires
        reference_bitmaps.cut_from(reference, options.percentile.spec_percent(), options.tolerance as nat),
        target_bitmaps.cut_from(target, options.percentile.spec_percent(), options.tolerance as nat),
    ensures
        disagreement_count(reference_bitmaps, target_bitmaps, shift) == plane_disagreement(
            reference,
            target,
            options,
            shift,
        ),
{
    lemma_count_grid_ext(
        reference.width,
        reference.height,
        disagrees_anywhere(reference_bitmaps, target_bitmaps, shift),
        |x: int, y: int| plane_disagrees(reference, target, options, shift, x, y),
    );
}

/// The nine errors the bitmaps give are the nine the planes define.
proof fn lemma_errors_agree(
    reference_bitmaps: Bitmaps,
    target_bitmaps: Bitmaps,
    reference: Plane,
    target: Plane,
    options: Options,
    around: Shift,
)
    requires
        reference_bitmaps.cut_from(reference, options.percentile.spec_percent(), options.tolerance as nat),
        target_bitmaps.cut_from(target, options.percentile.spec_percent(), options.tolerance as nat),
    ensures
        candidate_errors(reference_bitmaps, target_bitmaps, around) == plane_errors(
            reference,
            target,
            options,
            around,
        ),
{
    assert forall|i: int| 0 <= i < 9 implies #[trigger] candidate_errors(
        reference_bitmaps,
        target_bitmaps,
        around,
    )[i] == plane_errors(reference, target, options, around)[i] by {
        lemma_counts_agree(
            reference_bitmaps,
            target_bitmaps,
            reference,
            target,
            options,
            moved(around, candidate_offset(i)),
        );
    }
    assert(candidate_errors(reference_bitmaps, target_bitmaps, around) =~= plane_errors(
        reference,
        target,
        options,
        around,
    ));
}

/// The search runs as deep as the bits and the sides allow: for every depth
/// that one less than `options.bits`, half the longest side and the shortest
/// side allow while one more halving is not allowed, the shift found is the
/// one a search of that depth settles on; an empty image is searched at one
/// level only.
pub proof fn lemma_search_depth(reference: Plane, target: Plane, options: Options)
    ensures
        reference.width == 0 || reference.height == 0 ==> found_shift(reference, target, options)
            == search(reference, target, options, 0, 0),
        forall|levels: nat|
            #![trigger search(reference, target, options, levels, 0)]
            ({
                let longest = if reference.width >= reference.height {
                    reference.width
                } else {
                    reference.height
                };
                let shortest = if reference.width >= reference.height {
                    reference.height
                } else {
                    reference.width
                };
                &&& levels == 0 || levels + 1 <= options.bits
                &&& levels == 0 || two_to(levels + 1) <= longest
                &&& two_to(levels) <= shortest
                &&& !(levels + 2 <= options.bits && two_to(levels + 2) <= longest && two_to(levels + 1)
                    <= shortest)
            }) ==> found_shift(reference, target, options) == search(
                reference,
                target,
                options,
                levels,
                0,
            ),
{
    let width = reference.width;
    let height = reference.height;
    let bits = options.bits as nat;
    if width > 0 && height > 0 {
        lemma_levels_follow_bits(width, height, bits);
        assert forall|levels: nat|
            ({
                let longest = if width >= height { width } else { height };
                let shortest = if width >= height { height } else { width };
                &&& levels == 0 || levels + 1 <= bits
                &&& levels == 0 || two_to(levels + 1) <= longest
                &&& two_to(levels) <= shortest
                &&& !(levels + 2 <= bits && two_to(levels + 2) <= longest && two_to(levels + 1)
                    <= shortest)
            }) implies found_shift(reference, target, options) == #[trigger] search(
            reference,
            target,
            options,
            levels,
            0,
        ) by {
            lemma_depth_unique(width, height, bits, levels, levels_for(width, height, bits));
        }
    } else {
        assert forall|levels: nat|
            ({
                let longest = if width >= height { width } else { height };
                let shortest = if width >= height { height } else { width };
                &&& levels == 0 || levels + 1 <= bits
                &&& levels == 0 || two_to(levels + 1) <= longest
                &&& two_to(levels) <= shortest
                &&& !(levels + 2 <= bits && two_to(levels + 2) <= longest && two_to(levels + 1)
                    <= shortest)
            }) implies found_shift(reference, target, options) == #[trigger] search(
            reference,
            target,
            options,
            levels,
            0,
        ) by {
            lemma_two_to_grows(0, levels);
        }
    }
}

/// How far `target` has to move to sit on top of `reference`.
///
/// The two images have to be the same size, and one of their sides shorter
/// than `2^31` pixels, which any image that fits in memory is.
#[verifier::spinoff_prover]
#[verifier::rlimit(40)]
pub fn shift(reference: &Gray, target: &Gray, options: &Options) -> (found: Shift)
    requires
        reference@.width == target@.width,
        reference@.height == target@.height,
        reference@.width < 0x8000_0000 || reference@.height < 0x8000_0000,
    ensures
        found == found_shift(reference@, target@, *options),
        reference@.width == 0 || reference@.height == 0 ==> found == search(
            reference@,
            target@,
            *options,
            0,
            0,
        ),
        forall|levels: nat|
            #![trigger search(reference@, target@, *options, levels, 0)]
            ({
                let longest = if reference@.width >= reference@.height {
                    reference@.width
                } else {
                    reference@.height
                };
                let shortest = if reference@.width >= reference@.height {
                    reference@.height
                } else {
                    reference@.width
                };
                &&& levels == 0 || levels + 1 <= options.bits
                &&& levels == 0 || two_to(levels + 1) <= longest
                &&& two_to(levels) <= shortest
                &&& !(levels + 2 <= options.bits && two_to(levels + 2) <= longest && two_to(levels + 1)
                    <= shortest)
            }) ==> found == search(reference@, target@, *options, levels, 0),
{
    let width = reference.width();
    let height = reference.height();
    let levels = shrinks(width, height, options.bits);
    proof {
        if width > 0 && height > 0 {
            let shortest = if width >= height { height } else { width };
            reveal_with_fuel(two_to, 32);
            lemma_log2_bound(shortest as nat, 30);
        }
    }
    let reference_pyramid = pyramid(reference, levels, options.shrink);
    let target_pyramid = pyramid(target, levels, options.shrink);

    // Ward recurses down and refines on the way back up. Walking the levels
    // coarsest first says the same thing without building the stack, and keeps
    // one level's bitmaps alive at a time instead of all of them.
    let mut coarser = Shift::zero();
    let mut remaining: usize = levels + 1;
    while remaining > 0
        invariant
            levels == levels_for(reference@.width, reference@.height, options.bits as nat),
            levels <= 30,
            reference@.width == target@.width,
            reference@.height == target@.height,
            reference_pyramid@.len() == levels + 1,
            target_pyramid@.len() == levels + 1,
            forall|level: int|
                0 <= level <= levels ==> #[trigger] reference_pyramid@[level]@ == level_plane(
                    reference@,
                    options.shrink,
                    level as nat,
                ),
            forall|level: int|
                0 <= level <= levels ==> #[trigger] target_pyramid@[level]@ == level_plane(
                    target@,
                    options.shrink,
                    level as nat,
                ),
            remaining <= levels + 1,
            remaining == levels + 1 ==> coarser == (Shift { x: 0, y: 0 }),
            remaining <= levels ==> coarser == search(
                reference@,
                target@,
                *options,
                levels as nat,
                remaining as nat,
            ),
        decreases remaining,
    {
        let level = remaining - 1;
        let bitmaps = |pyramid: &Vec<Gray>| -> (bitmaps: Bitmaps)
            requires
                level < pyramid@.len(),
            ensures
                bitmaps.cut_from(
                    pyramid@[level as int]@,
                    options.percentile.spec_percent(),
                    options.tolerance as nat,
                ),
            { compute_bitmaps(&pyramid[level], options.percentile, options.tolerance) };
        let reference_bitmaps = bitmaps(&reference_pyramid);
        let target_bitmaps = bitmaps(&target_pyramid);
        let ghost reference_plane = level_plane(reference@, options.shrink, level as nat);
        let ghost target_plane = level_plane(target@, options.shrink, level as nat);
        proof {
            lemma_level_sizes(reference@, target@, options.shrink, level as nat);
            if level < levels {
                lemma_search_bound(reference@, target@, *options, levels as nat, (level + 1) as nat);
                lemma_reach_grows((levels - level) as nat, 30);
                reveal_with_fuel(reach, 32);
            }
        }
        // Each level down doubles the resolution, so the offset agreed at the
        // level above is worth twice as many pixels here.
        let around = coarser.doubled();
        let refined_shift = refine(&reference_bitmaps, &target_bitmaps, around);
        proof {
            lemma_errors_agree(
                reference_bitmaps,
                target_bitmaps,
                reference_plane,
                target_plane,
                *options,
                around,
            );
        }
        coarser = refined_shift;
        remaining = level;
    }
    proof {
        lemma_search_depth(reference@, target@, *options);
    }
    coarser
}

/// An exposure needs no shift against itself.
pub proof fn lemma_no_shift_against_itself(plane: Plane, options: Options)
    requires
        plane.wf(),
    ensures
        found_shift(plane, plane, options) == (Shift { x: 0, y: 0 }),
{
    let levels = levels_for(plane.width, plane.height, options.bits as nat);
    lemma_search_itself(plane, options, levels, 0);
}

/// Against itself the search stays at no movement on every level.
proof fn lemma_search_itself(plane: Plane, options: Options, levels: nat, level: nat)
    requires
        plane.wf(),
    ensures
        search(plane, plane, options, levels, level) == (Shift { x: 0, y: 0 }),
    decreases levels - level,
{
    if level < levels {
        lemma_search_itself(plane, options, levels, level + 1);
    }
    let zero = Shift { x: 0, y: 0 };
    let level_of = level_plane(plane, options.shrink, level);
    let errors = plane_errors(level_of, level_of, options, zero);
    assert(twice(zero) == zero);
    assert(moved(zero, candidate_offset(0)) == zero);
    lemma_count_grid_none(
        level_of.width,
        level_of.height,
        |x: int, y: int| plane_disagrees(level_of, level_of, options, zero, x, y),
    );
    assert(errors[0] == 0);
    lemma_first_least(errors, 9);
}

} // verus!
