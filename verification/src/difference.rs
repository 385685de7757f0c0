use vstd::prelude::*;
use crate::bitmap::{Bitmap, lemma_split64, lemma_words_for, words_for};
use crate::bits::{
    bit_at, lemma_bit_funnel, lemma_bit_masked_xor, lemma_count_word, lemma_zero_bits,
    ones_in_word,
};
use crate::counting::{
    count_grid, count_true, lemma_count_grid_bound, lemma_count_grid_disjoint, lemma_count_grid_none, lemma_count_true_bound,
    lemma_count_true_none, lemma_count_true_prefix, lemma_count_true_split,
};
use crate::geometry::Shift;
use crate::threshold::Bitmaps;

verus! {

/// Bit `i` of a row of words, counting from the least significant bit of the
/// first word; nothing outside the row is set.
pub open spec fn row_bit(row: Seq<u64>, i: int) -> bool {
    0 <= i < row.len() * 64 && bit_at(row[i / 64], (i % 64) as u64)
}

/// Whether pixel `(x, y)` of the reference counts once the target is moved by
/// `shift`: the two threshold bitmaps disagree there and neither exclusion
/// bitmap rules it out. Outside the target both its bitmaps are clear.
pub open spec fn disagrees(reference: Bitmaps, target: Bitmaps, shift: Shift, x: int, y: int) -> bool {
    &&& reference.threshold.at(x, y) != target.threshold.at(x - shift.x, y - shift.y)
    &&& reference.exclusion.at(x, y)
    &&& target.exclusion.at(x - shift.x, y - shift.y)
}

/// [`disagrees`] along row `y`.
pub open spec fn disagrees_in_row(reference: Bitmaps, target: Bitmaps, shift: Shift, y: int) -> spec_fn(int) -> bool {
    |x: int| disagrees(reference, target, shift, x, y)
}

/// [`disagrees`] over the whole plane.
pub open spec fn disagrees_anywhere(reference: Bitmaps, target: Bitmaps, shift: Shift) -> spec_fn(int, int) -> bool {
    |x: int, y: int| disagrees(reference, target, shift, x, y)
}

/// Ward's `BitmapTotal` of `(tb1 XOR shift(tb2)) AND eb1 AND shift(eb2)`: how
/// many pixels of the reference [`disagrees`] with the shifted target.
pub open spec fn disagreement_count(reference: Bitmaps, target: Bitmaps, shift: Shift) -> nat {
    count_grid(
        reference.threshold.spec_width(),
        reference.threshold.spec_height(),
        disagrees_anywhere(reference, target, shift),
    )
}

/// All four bitmaps are well formed and the same size.
pub open spec fn comparable(reference: Bitmaps, target: Bitmaps) -> bool {
    &&& reference.wf()
    &&& target.wf()
    &&& target.threshold.spec_width() == reference.threshold.spec_width()
    &&& target.threshold.spec_height() == reference.threshold.spec_height()
}

/// A row handed out by [`Bitmap::row`] reads, bit for bit, as that row of pixels.
proof fn lemma_row_reads(bitmap: Bitmap, y: int, row: Seq<u64>)
    requires
        bitmap.wf(),
        row.len() == words_for(bitmap.spec_width()),
        forall|k: int, b: u64|
            0 <= k < row.len() && b < 64 ==> #[trigger] bit_at(row[k], b) == bitmap.at(k * 64 + b, y),
    ensures
        forall|i: int| #[trigger] row_bit(row, i) == bitmap.at(i, y),
{
    lemma_words_for(bitmap.spec_width());
    assert forall|i: int| #[trigger] row_bit(row, i) == bitmap.at(i, y) by {
        if 0 <= i < row.len() * 64 {
            let k = i / 64;
            let b = i % 64;
            lemma_split64(k, b);
            assert(k * 64 + b == i);
            assert(bit_at(row[k], b as u64) == bitmap.at(k * 64 + (b as u64), y));
        }
    }
}

/// What [`fetch`] returns at word `word`, read at bit `c`.
proof fn lemma_fetched_bit(row: Seq<u64>, word: int, c: int, fetched: u64)
    requires
        0 <= c < 64,
        fetched == if 0 <= word < row.len() { row[word] } else { 0 },
    ensures
        bit_at(fetched, c as u64) == row_bit(row, word * 64 + c),
{
    lemma_split64(word, c);
    if !(0 <= word < row.len()) {
        lemma_zero_bits(c as u64);
        if word >= row.len() {
            assert(word * 64 >= row.len() * 64) by (nonlinear_arith)
                requires
                    word >= row.len(),
            ;
        }
    }
}

/// Word `index` of `row`, or zero outside it.
fn fetch(row: &[u64], index: i128) -> (word: u64)
    ensures
        word == if 0 <= index < row@.len() {
            row@[index as int]
        } else {
            0
        },
{
    if 0 <= index && index < row.len() as i128 {
        row[index as usize]
    } else {
        0
    }
}

/// The word landing on destination word `index` once `row` moves right by
/// `shift` pixels, with zeros arriving from outside the row.
fn shifted_word(row: &[u64], index: usize, shift: i32) -> (word: u64)
    ensures
        forall|b: u64| b < 64 ==> #[trigger] bit_at(word, b) == row_bit(row@, index * 64 + b - shift),
{
    let base: i128 = index as i128 * 64 - shift as i128;
    let word: i128 = match base.checked_div_euclid(64) {
        Some(quotient) => quotient,
        None => 0,
    };
    let bit: i128 = match base.checked_rem_euclid(64) {
        Some(remainder) => remainder,
        None => 0,
    };
    proof {
        vstd::arithmetic::div_mod::lemma_fundamental_div_mod(base as int, 64);
        assert(base == word * 64 + bit);
        assert(0 <= bit < 64);
    }
    // Whole words need no funnelling, and `<< 64` would be undefined.
    if bit == 0 {
        let whole = fetch(row, word);
        proof {
            assert forall|b: u64| b < 64 implies #[trigger] bit_at(whole, b) == row_bit(row@, index * 64 + b - shift) by {
                lemma_fetched_bit(row@, word as int, b as int, whole);
            }
        }
        whole
    } else {
        let low = fetch(row, word);
        let high = fetch(row, word + 1);
        let funnelled = (low >> (bit as u64)) | (high << ((64 - bit) as u64));
        proof {
            assert forall|b: u64| b < 64 implies #[trigger] bit_at(funnelled, b) == row_bit(row@, index * 64 + b - shift) by {
                lemma_bit_funnel(low, high, bit as u64, b);
                if b < 64 - bit {
                    lemma_fetched_bit(row@, word as int, b + bit, low);
                } else {
                    lemma_fetched_bit(row@, word + 1, b + bit - 64, high);
                }
            }
        }
        funnelled
    }
}

/// How many pixels of row `y` of the reference [`disagrees`] with the target
/// moved by `shift`.
pub fn row_disagreement(reference: &Bitmaps, target: &Bitmaps, shift: Shift, y: usize) -> (count: u64)
    requires
        comparable(*reference, *target),
        y < reference.threshold.spec_height(),
    ensures
        count == count_true(
            reference.threshold.spec_width(),
            disagrees_in_row(*reference, *target, shift, y as int),
        ),
{
    let ghost g = disagrees_in_row(*reference, *target, shift, y as int);
    let width = reference.threshold.width();
    let height = reference.threshold.height();
    let words_per_row = reference.threshold.words_per_row();
    proof {
        lemma_words_for(width as nat);
    }
    // Outside the target both its bitmaps are zero, so the row is excluded.
    let source: i128 = y as i128 - shift.y as i128;
    if source < 0 || source >= height as i128 {
        proof {
            assert forall|x: int| 0 <= x < width implies !#[trigger] g(x) by {
                assert(!target.exclusion.at(x - shift.x, y - shift.y));
            }
            lemma_count_true_none(width as nat, g);
        }
        return 0;
    }
    let source_y = source as usize;

    let reference_threshold = reference.threshold.row(y);
    let reference_exclusion = reference.exclusion.row(y);
    let target_threshold = target.threshold.row(source_y);
    let target_exclusion = target.exclusion.row(source_y);
    proof {
        lemma_row_reads(target.threshold, source_y as int, target_threshold@);
        lemma_row_reads(target.exclusion, source_y as int, target_exclusion@);
    }

    let mut total: u64 = 0;
    let mut word: usize = 0;
    while word < words_per_row
        invariant
            comparable(*reference, *target),
            y < height,
            width == reference.threshold.spec_width(),
            height == reference.threshold.spec_height(),
            words_per_row == words_for(width as nat),
            width <= words_per_row * 64,
            source_y == y - shift.y,
            g == disagrees_in_row(*reference, *target, shift, y as int),
            reference_threshold@.len() == words_per_row,
            reference_exclusion@.len() == words_per_row,
            forall|k: int, b: u64|
                0 <= k < words_per_row && b < 64 ==> #[trigger] bit_at(reference_threshold@[k], b)
                    == reference.threshold.at(k * 64 + b, y as int),
            forall|k: int, b: u64|
                0 <= k < words_per_row && b < 64 ==> #[trigger] bit_at(reference_exclusion@[k], b)
                    == reference.exclusion.at(k * 64 + b, y as int),
            forall|i: int| #[trigger] row_bit(target_threshold@, i) == target.threshold.at(i, source_y as int),
            forall|i: int| #[trigger] row_bit(target_exclusion@, i) == target.exclusion.at(i, source_y as int),
            word <= words_per_row,
            total == count_true((word * 64) as nat, g),
        decreases words_per_row - word,
    {
        // The reference exclusion bitmap masks its own padding clear.
        let shifted_threshold = shifted_word(target_threshold, word, shift.x);
        let shifted_exclusion = shifted_word(target_exclusion, word, shift.x);
        let disagreeing = (reference_threshold[word] ^ shifted_threshold) & reference_exclusion[word]
            & shifted_exclusion;
        proof {
            assert forall|b: u64| b < 64 implies #[trigger] bit_at(disagreeing, b) == g(word * 64 + b) by {
                lemma_bit_masked_xor(
                    reference_threshold@[word as int],
                    shifted_threshold,
                    reference_exclusion@[word as int],
                    shifted_exclusion,
                    b,
                );
            }
            lemma_count_word(word as nat, disagreeing, g);
            lemma_count_true_split(
                (word * 64 + 64) as nat,
                ((words_per_row - word - 1) * 64) as nat,
                g,
            );
            assert forall|i: int| width <= i < words_per_row * 64 implies !#[trigger] g(i) by {
            }
            lemma_count_true_prefix(width as nat, (words_per_row * 64) as nat, g);
            lemma_count_true_bound(width as nat, g);
            reference.threshold.lemma_size();
        }
        total = total + ones_in_word(disagreeing) as u64;
        word = word + 1;
    }
    proof {
        assert forall|i: int| width <= i < words_per_row * 64 implies !#[trigger] g(i) by {
        }
        lemma_count_true_prefix(width as nat, (words_per_row * 64) as nat, g);
    }
    total
}

/// Ward's `BitmapTotal` of `(tb1 XOR shift(tb2)) AND eb1 AND shift(eb2)`, counted
/// without materialising any of it. The exclusion terms mask the *result* of the
/// XOR, never its operands: his footnote 4.
///
/// Every bitmap has to have the same dimensions.
pub fn disagreement(reference: &Bitmaps, target: &Bitmaps, shift: Shift) -> (count: u64)
    requires
        comparable(*reference, *target),
    ensures
        count == disagreement_count(*reference, *target, shift),
{
    let ghost f = disagrees_anywhere(*reference, *target, shift);
    let width = reference.threshold.width();
    let height = reference.threshold.height();
    let mut total: u64 = 0;
    let mut y: usize = 0;
    proof {
        reference.threshold.lemma_size();
    }
    while y < height
        invariant
            comparable(*reference, *target),
            width == reference.threshold.spec_width(),
            height == reference.threshold.spec_height(),
            width * height <= usize::MAX,
            f == disagrees_anywhere(*reference, *target, shift),
            y <= height,
            total == count_grid(width as nat, y as nat, f),
        decreases height - y,
    {
        let row = row_disagreement(reference, target, shift, y);
        proof {
            assert(disagrees_in_row(*reference, *target, shift, y as int) == (|x: int| f(x, y as int)));
            lemma_count_grid_bound(width as nat, (y + 1) as nat, f);
            assert(width * (y + 1) <= width * height) by (nonlinear_arith)
                requires
                    y < height,
            ;
        }
        total = total + row;
        y = y + 1;
    }
    total
}

/// An exposure never disagrees with itself where it stands.
pub proof fn lemma_no_disagreement_with_itself(bitmaps: Bitmaps)
    requires
        bitmaps.wf(),
    ensures
        disagreement_count(bitmaps, bitmaps, Shift { x: 0, y: 0 }) == 0,
{
    lemma_count_grid_none(
        bitmaps.threshold.spec_width(),
        bitmaps.threshold.spec_height(),
        disagrees_anywhere(bitmaps, bitmaps, Shift { x: 0, y: 0 }),
    );
}

/// A shift that moves the target clear of the reference leaves nothing to
/// disagree about, so an empty overlap can never look like a good match.
pub proof fn lemma_no_disagreement_without_overlap(reference: Bitmaps, target: Bitmaps, shift: Shift)
    requires
        comparable(reference, target),
        shift.x >= reference.threshold.spec_width() || -shift.x >= reference.threshold.spec_width()
            || shift.y >= reference.threshold.spec_height() || -shift.y
            >= reference.threshold.spec_height(),
    ensures
        disagreement_count(reference, target, shift) == 0,
{
    let width = reference.threshold.spec_width();
    let height = reference.threshold.spec_height();
    assert forall|x: int, y: int| 0 <= x < width && 0 <= y < height implies !#[trigger] disagrees_anywhere(reference, target, shift)(x, y) by {
        assert(!target.exclusion.at(x - shift.x, y - shift.y));
    }
    lemma_count_grid_none(width, height, disagrees_anywhere(reference, target, shift));
}

/// The offset that undoes a translation scores zero: if the target's threshold
/// bitmap is the reference's moved by `shift` wherever the two overlap, no pixel
/// disagrees at `shift`, whatever either exclusion bitmap says.
pub proof fn lemma_translation_undone(reference: Bitmaps, target: Bitmaps, shift: Shift)
    requires
        comparable(reference, target),
        forall|x: int, y: int|
            #![trigger reference.threshold.at(x, y)]
            0 <= x < reference.threshold.spec_width() && 0 <= y < reference.threshold.spec_height()
                && 0 <= x - shift.x < reference.threshold.spec_width() && 0 <= y - shift.y
                < reference.threshold.spec_height() ==> target.threshold.at(x - shift.x, y - shift.y)
                == reference.threshold.at(x, y),
    ensures
        disagreement_count(reference, target, shift) == 0,
{
    let width = reference.threshold.spec_width();
    let height = reference.threshold.spec_height();
    assert forall|x: int, y: int| 0 <= x < width && 0 <= y < height implies !#[trigger] disagrees_anywhere(reference, target, shift)(x, y) by {
        assert(reference.threshold.at(x, y) == reference.threshold.at(x, y));
    }
    lemma_count_grid_none(width, height, disagrees_anywhere(reference, target, shift));
}

/// A pixel either exclusion bitmap rules out never counts: with nothing trusted
/// in the reference, or nothing trusted in the target, there is nothing to
/// disagree about.
pub proof fn lemma_exclusions_gate_the_count(reference: Bitmaps, target: Bitmaps, shift: Shift)
    requires
        comparable(reference, target),
        (forall|x: int, y: int| !#[trigger] reference.exclusion.at(x, y)) || (forall|x: int, y: int|
            !#[trigger] target.exclusion.at(x, y)),
    ensures
        disagreement_count(reference, target, shift) == 0,
{
    let width = reference.threshold.spec_width();
    let height = reference.threshold.spec_height();
    assert forall|x: int, y: int| 0 <= x < width && 0 <= y < height implies !#[trigger] disagrees_anywhere(reference, target, shift)(x, y) by {
        assert(!reference.exclusion.at(x, y) || !target.exclusion.at(x - shift.x, y - shift.y));
    }
    lemma_count_grid_none(width, height, disagrees_anywhere(reference, target, shift));
}

/// Inverting the target's threshold bitmap turns agreement into disagreement:
/// the two counts add up to the number of pixels both exposures trust under
/// the shift.
pub proof fn lemma_inverted_threshold_complements(
    reference: Bitmaps,
    target: Bitmaps,
    inverted: Bitmaps,
    shift: Shift,
)
    requires
        comparable(reference, target),
        comparable(reference, inverted),
        forall|x: int, y: int| #[trigger] inverted.exclusion.at(x, y) == target.exclusion.at(x, y),
        forall|x: int, y: int|
            0 <= x < reference.threshold.spec_width() && 0 <= y < reference.threshold.spec_height()
                ==> #[trigger] inverted.threshold.at(x, y) == !target.threshold.at(x, y),
    ensures
        disagreement_count(reference, target, shift) + disagreement_count(reference, inverted, shift)
            == count_grid(
            reference.threshold.spec_width(),
            reference.threshold.spec_height(),
            |x: int, y: int| reference.exclusion.at(x, y) && target.exclusion.at(x - shift.x, y - shift.y),
        ),
{
    let width = reference.threshold.spec_width();
    let height = reference.threshold.spec_height();
    let trusted = |x: int, y: int| reference.exclusion.at(x, y) && target.exclusion.at(x - shift.x, y - shift.y);
    let first = disagrees_anywhere(reference, target, shift);
    let second = disagrees_anywhere(reference, inverted, shift);
    assert forall|x: int, y: int| 0 <= x < width && 0 <= y < height implies #[trigger] trusted(x, y) == (first(x, y) || second(x, y)) by {
        let (sx, sy) = (x - shift.x, y - shift.y);
        if target.exclusion.at(sx, sy) {
            assert(0 <= sx < width && 0 <= sy < height);
            assert(inverted.threshold.at(sx, sy) == !target.threshold.at(sx, sy));
        }
    }
    assert forall|x: int, y: int| 0 <= x < width && 0 <= y < height implies !(#[trigger] first(x, y) && second(x, y)) by {
        let (sx, sy) = (x - shift.x, y - shift.y);
        if target.exclusion.at(sx, sy) {
            assert(0 <= sx < width && 0 <= sy < height);
            assert(inverted.threshold.at(sx, sy) == !target.threshold.at(sx, sy));
        }
    }
    lemma_count_grid_disjoint(width, height, first, second, trusted);
}

} // verus!
