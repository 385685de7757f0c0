use vstd::prelude::*;
use crate::bits::{
    bit_at, lemma_bit_clear, lemma_bit_or_shifted, lemma_bit_set, lemma_count_word,
    lemma_zero_bits, ones_in_word,
};
use crate::counting::{
    count_grid, count_true, lemma_count_grid_bound, lemma_count_true_bound,
    lemma_count_true_prefix, lemma_count_true_split,
};

verus! {

/// Bits per word. Ward counts 32 or 64 at a time; this crate always takes 64.
pub(crate) const WORD_BITS: usize = 64;

/// How many 64-bit words a row of `width` pixels takes.
pub open spec fn words_for(width: nat) -> nat {
    width / 64 + if width % 64 == 0 { 0nat } else { 1nat }
}

/// Word `k` of row `y` in a row-major array of `words_per_row` words a row.
pub open spec fn word_of(words: Seq<u64>, words_per_row: nat, y: int, k: int) -> u64 {
    words[y * words_per_row + k]
}

pub proof fn lemma_words_for(width: nat)
    ensures
        width <= words_for(width) * 64,
        words_for(width) * 64 < width + 64,
        width > 0 ==> words_for(width) <= width,
        width == 0 ==> words_for(width) == 0,
{
}

/// `(k * 64 + b) / 64 == k` and `(k * 64 + b) % 64 == b`.
pub proof fn lemma_split64(k: int, b: int)
    requires
        0 <= b < 64,
    ensures
        (k * 64 + b) / 64 == k,
        (k * 64 + b) % 64 == b,
{
    vstd::arithmetic::div_mod::lemma_fundamental_div_mod_converse(k * 64 + b, 64, k, b);
}

/// Row `y`, word `k` of a row-major array sits inside it.
proof fn lemma_word_index(y: int, k: int, words_per_row: int, height: int)
    requires
        0 <= y < height,
        0 <= k < words_per_row,
    ensures
        0 <= y * words_per_row + k < words_per_row * height,
        y * words_per_row <= y * words_per_row + k,
        (y + 1) * words_per_row == y * words_per_row + words_per_row,
{
    assert(0 <= y * words_per_row) by (nonlinear_arith)
        requires
            0 <= y,
            0 <= words_per_row,
    ;
    assert(y * words_per_row + k < words_per_row * height) by (nonlinear_arith)
        requires
            0 <= y < height,
            0 <= k < words_per_row,
    ;
    assert((y + 1) * words_per_row == y * words_per_row + words_per_row) by (nonlinear_arith);
}

/// Distinct (row, word) pairs land on distinct words.
proof fn lemma_word_index_unique(y1: int, k1: int, y2: int, k2: int, words_per_row: int)
    requires
        0 <= y1,
        0 <= y2,
        0 <= k1 < words_per_row,
        0 <= k2 < words_per_row,
        y1 * words_per_row + k1 == y2 * words_per_row + k2,
    ensures
        y1 == y2,
        k1 == k2,
{
    if y1 < y2 {
        assert(y1 * words_per_row + words_per_row <= y2 * words_per_row) by (nonlinear_arith)
            requires
                y1 < y2,
                0 <= words_per_row,
        ;
    } else if y2 < y1 {
        assert(y2 * words_per_row + words_per_row <= y1 * words_per_row) by (nonlinear_arith)
            requires
                y2 < y1,
                0 <= words_per_row,
        ;
    }
}

/// Word `word`, found at word `k` of row `y`, carries what `bit` says of the
/// pixels it covers and nothing past the width.
pub open spec fn word_holds<F: Fn(usize, usize) -> bool>(
    bit: F,
    width: usize,
    word: u64,
    y: int,
    k: int,
    b: u64,
) -> bool {
    if k * 64 + b < width {
        call_ensures(bit, ((k * 64 + b) as usize, y as usize), bit_at(word, b))
    } else {
        !bit_at(word, b)
    }
}

/// A one-bit-per-pixel image packed into `u64` words, each row starting on a
/// word boundary.
///
/// Ward instead flattens the whole image into one bit array, so a
/// two-dimensional shift becomes a single one-dimensional shift plus a clear
/// along one or two exposed edges. Word-aligned rows cost at most 63 padding
/// bits per row, and in exchange a vertical shift is just a row index and a
/// horizontal shift never crosses a row boundary.
///
/// Bits run least-significant first, so pixel `x` lives in bit `x % 64` of word
/// `x / 64` and moving right in the image is a left shift in the word.
#[derive(PartialEq, Eq)]
pub struct Bitmap {
    words: Vec<u64>,
    width: usize,
    height: usize,
    words_per_row: usize,
}

impl Clone for Bitmap {
    fn clone(&self) -> (copy: Self)
        ensures
            copy.spec_width() == self.spec_width(),
            copy.spec_height() == self.spec_height(),
            self.wf() ==> copy.wf(),
            forall|x: int, y: int| #[trigger] copy.at(x, y) == self.at(x, y),
    {
        let words = self.words.clone();
        proof {
            assert(words@ =~= self.words@);
        }
        let copy = Bitmap { words, width: self.width, height: self.height, words_per_row: self.words_per_row };
        proof {
            assert forall|y: int, k: int| #[trigger] copy.word(y, k) == self.word(y, k) by {}
        }
        copy
    }
}

impl Bitmap {
    pub closed spec fn spec_width(&self) -> nat {
        self.width as nat
    }

    pub closed spec fn spec_height(&self) -> nat {
        self.height as nat
    }

    /// Word `k` of row `y`, padding included.
    pub closed spec fn word(&self, y: int, k: int) -> u64 {
        word_of(self.words@, self.words_per_row as nat, y, k)
    }

    /// Rows are `words_for(width)` words each, the padding bits past the width
    /// are clear, and the pixel count fits in a `usize`.
    pub closed spec fn wf(&self) -> bool {
        &&& self.words_per_row == words_for(self.width as nat)
        &&& self.words@.len() == self.words_per_row * self.height
        &&& self.words_per_row * self.height <= usize::MAX
        &&& self.width * self.height <= usize::MAX
        &&& forall|y: int, k: int, b: u64|
            #![trigger bit_at(self.word(y, k), b)]
            0 <= y < self.height && 0 <= k < self.words_per_row && b < 64 && k * 64 + b
                >= self.width ==> !bit_at(self.word(y, k), b)
    }

    /// Whether pixel `(x, y)` is set; nothing outside the bitmap is.
    pub open spec fn at(&self, x: int, y: int) -> bool {
        &&& 0 <= x < self.spec_width()
        &&& 0 <= y < self.spec_height()
        &&& bit_at(self.word(y, x / 64), (x % 64) as u64)
    }

    /// How many pixels are set.
    pub open spec fn ones(&self) -> nat {
        count_grid(self.spec_width(), self.spec_height(), |x: int, y: int| self.at(x, y))
    }

    /// Bit `b` of word `k` in row `y` is pixel `k * 64 + b`, padding included.
    pub proof fn lemma_word_bits(&self, y: int, k: int, b: u64)
        requires
            self.wf(),
            0 <= y < self.spec_height(),
            0 <= k < words_for(self.spec_width()),
            b < 64,
        ensures
            bit_at(self.word(y, k), b) == self.at(k * 64 + b, y),
    {
        lemma_split64(k, b as int);
        if k * 64 + b >= self.width {
            assert(!bit_at(self.word(y, k), b));
        }
    }

    /// The pixel count of a well-formed bitmap fits in a `usize`.
    pub proof fn lemma_size(&self)
        requires
            self.wf(),
        ensures
            self.spec_width() * self.spec_height() <= usize::MAX,
    {
    }

    /// An empty `width` by `height` bitmap. Its pixel count has to fit in a
    /// `usize`, as that of any bitmap that fits in memory does.
    pub fn zeros(width: usize, height: usize) -> (bitmap: Self)
        requires
            width * height <= usize::MAX,
        ensures
            bitmap.wf(),
            bitmap.spec_width() == width,
            bitmap.spec_height() == height,
            forall|x: int, y: int| !#[trigger] bitmap.at(x, y),
    {
        let words_per_row = width / WORD_BITS + if width % WORD_BITS == 0 {
            0
        } else {
            1
        };
        proof {
            lemma_words_for(width as nat);
            assert(words_per_row * height <= width * height) by (nonlinear_arith)
                requires
                    words_per_row <= width || words_per_row == 0,
            ;
        }
        let words = vec![0u64; words_per_row * height];
        let bitmap = Self { words, width, height, words_per_row };
        proof {
            assert forall|y: int, k: int| 0 <= y < height && 0 <= k < words_per_row implies #[trigger] bitmap.word(y, k) == 0 by {
                lemma_word_index(y, k, words_per_row as int, height as int);
            }
            assert forall|y: int, k: int, b: u64| 0 <= y < height && 0 <= k < words_per_row && b < 64 implies !#[trigger] bit_at(bitmap.word(y, k), b) by {
                lemma_zero_bits(b);
            }
            assert forall|x: int, y: int| !#[trigger] bitmap.at(x, y) by {
                if 0 <= x < width && 0 <= y < height {
                    lemma_words_for(width as nat);
                    assert(0 <= x / 64 < words_per_row);
                    assert(!bit_at(bitmap.word(y, x / 64), (x % 64) as u64));
                }
            }
        }
        bitmap
    }

    /// Builds a bitmap by testing every pixel, accumulating whole words before
    /// storing them.
    ///
    /// Setting one bit at a time costs a bounds check, a division and a
    /// read-modify-write per pixel, which at sensor resolution is most of the
    /// time the whole alignment takes. Here the inner loop has no branch and no
    /// memory traffic until a word is finished.
    pub(crate) fn packed<F: Fn(usize, usize) -> bool>(width: usize, height: usize, bit: F) -> (bitmap: Self)
        requires
            width * height <= usize::MAX,
            forall|x: usize, y: usize| x < width && y < height ==> #[trigger] call_requires(bit, (x, y)),
        ensures
            bitmap.wf(),
            bitmap.spec_width() == width,
            bitmap.spec_height() == height,
            forall|x: usize, y: usize|
                x < width && y < height ==> #[trigger] call_ensures(bit, (x, y), bitmap.at(x as int, y as int)),
    {
        let words_per_row = width / WORD_BITS + if width % WORD_BITS == 0 {
            0
        } else {
            1
        };
        proof {
            lemma_words_for(width as nat);
            assert(words_per_row * height <= width * height) by (nonlinear_arith)
                requires
                    words_per_row <= width || words_per_row == 0,
            ;
        }
        let mut words: Vec<u64> = Vec::with_capacity(words_per_row * height);
        let mut y: usize = 0;
        while y < height
            invariant
                words_per_row == words_for(width as nat),
                words_per_row * height <= usize::MAX,
                forall|x: usize, y: usize| x < width && y < height ==> #[trigger] call_requires(bit, (x, y)),
                y <= height,
                words@.len() == y * words_per_row,
                forall|yy: int, k: int, b: u64|
                    0 <= yy < y && 0 <= k < words_per_row && b < 64 ==> #[trigger] word_holds(
                        bit,
                        width,
                        word_of(words@, words_per_row as nat, yy, k),
                        yy,
                        k,
                        b,
                    ),
            decreases height - y,
        {
            let mut index: usize = 0;
            proof {
                lemma_words_for(width as nat);
                lemma_word_index(y as int, 0, words_per_row as int + 1, height as int);
                assert(y * words_per_row + words_per_row <= words_per_row * height) by (nonlinear_arith)
                    requires
                        y < height,
                ;
            }
            while index < words_per_row
                invariant
                    words_per_row == words_for(width as nat),
                    words_per_row * height <= usize::MAX,
                    forall|x: usize, y: usize| x < width && y < height ==> #[trigger] call_requires(bit, (x, y)),
                    y < height,
                    y * words_per_row + words_per_row <= words_per_row * height,
                    index <= words_per_row,
                    words@.len() == y * words_per_row + index,
                    forall|yy: int, k: int, b: u64|
                        0 <= yy < y && 0 <= k < words_per_row && b < 64 ==> #[trigger] word_holds(
                            bit,
                            width,
                            word_of(words@, words_per_row as nat, yy, k),
                            yy,
                            k,
                            b,
                        ),
                    forall|k: int, b: u64|
                        0 <= k < index && b < 64 ==> #[trigger] word_holds(
                            bit,
                            width,
                            word_of(words@, words_per_row as nat, y as int, k),
                            y as int,
                            k,
                            b,
                        ),
                decreases words_per_row - index,
            {
                proof {
                    lemma_words_for(width as nat);
                }
                let base = index * WORD_BITS;
                // The last word of a row stops at the width, which is what
                // keeps the padding clear.
                let span = if width - base < WORD_BITS {
                    width - base
                } else {
                    WORD_BITS
                };
                let mut packed: u64 = 0;
                let mut offset: usize = 0;
                proof {
                    assert forall|b: u64| b < 64 implies !#[trigger] bit_at(packed, b) by {
                        lemma_zero_bits(b);
                    }
                }
                while offset < span
                    invariant
                        forall|x: usize, y: usize| x < width && y < height ==> #[trigger] call_requires(bit, (x, y)),
                        y < height,
                        base + span <= width,
                        span <= 64,
                        offset <= span,
                        forall|b: u64|
                            b < 64 ==> if b < offset {
                                call_ensures(bit, ((base + b) as usize, y), #[trigger] bit_at(packed, b))
                            } else {
                                !bit_at(packed, b)
                            },
                    decreases span - offset,
                {
                    let value = bit(base + offset, y);
                    let c: u64 = if value {
                        1
                    } else {
                        0
                    };
                    let ghost before = packed;
                    packed = packed | (c << offset as u64);
                    proof {
                        assert forall|b: u64| b < 64 implies (if b < offset + 1 {
                            call_ensures(bit, ((base + b) as usize, y), #[trigger] bit_at(packed, b))
                        } else {
                            !bit_at(packed, b)
                        }) by {
                            lemma_bit_or_shifted(before, c, offset as u64, b);
                            if b < offset {
                                assert(call_ensures(bit, ((base + b) as usize, y), bit_at(before, b)));
                            }
                        }
                    }
                    offset = offset + 1;
                }
                let ghost old_words = words@;
                words.push(packed);
                proof {
                    assert forall|yy: int, k: int, b: u64|
                        0 <= yy < y && 0 <= k < words_per_row && b < 64 implies #[trigger] word_holds(
                            bit,
                            width,
                            word_of(words@, words_per_row as nat, yy, k),
                            yy,
                            k,
                            b,
                        ) by {
                        lemma_word_index(yy, k, words_per_row as int, y as int);
                        assert(word_of(words@, words_per_row as nat, yy, k) == word_of(old_words, words_per_row as nat, yy, k));
                    }
                    assert forall|k: int, b: u64|
                        0 <= k < index + 1 && b < 64 implies #[trigger] word_holds(
                            bit,
                            width,
                            word_of(words@, words_per_row as nat, y as int, k),
                            y as int,
                            k,
                            b,
                        ) by {
                        if k < index {
                            assert(word_of(words@, words_per_row as nat, y as int, k) == word_of(old_words, words_per_row as nat, y as int, k));
                        } else {
                            assert(word_of(words@, words_per_row as nat, y as int, k) == packed);
                            assert(k * 64 == base);
                        }
                    }
                }
                index = index + 1;
            }
            proof {
                assert((y + 1) * words_per_row == y * words_per_row + words_per_row) by (nonlinear_arith);
            }
            y = y + 1;
        }
        let bitmap = Self { words, width, height, words_per_row };
        proof {
            lemma_words_for(width as nat);
            assert(height * words_per_row == words_per_row * height) by (nonlinear_arith);
            assert forall|yy: int, k: int, b: u64|
                0 <= yy < height && 0 <= k < words_per_row && b < 64 && k * 64 + b >= width
                implies !#[trigger] bit_at(bitmap.word(yy, k), b) by {
                assert(word_holds(bit, width, word_of(words@, words_per_row as nat, yy, k), yy, k, b));
            }
            assert forall|x: usize, yy: usize| x < width && yy < height
                implies #[trigger] call_ensures(bit, (x, yy), bitmap.at(x as int, yy as int)) by {
                let k = x / 64;
                let b = (x % 64) as u64;
                assert(k < words_per_row);
                assert(word_holds(bit, width, word_of(words@, words_per_row as nat, yy as int, k as int), yy as int, k as int, b));
                assert(k * 64 + b == x);
            }
        }
        bitmap
    }

    pub fn width(&self) -> (width: usize)
        ensures
            width == self.spec_width(),
    {
        self.width
    }

    pub fn height(&self) -> (height: usize)
        ensures
            height == self.spec_height(),
    {
        self.height
    }

    /// Where pixel `(x, y)` lives: its word in the array and its bit there.
    fn locate(&self, x: usize, y: usize) -> (place: (usize, usize))
        requires
            self.wf(),
            x < self.spec_width(),
            y < self.spec_height(),
        ensures
            place.0 == y * words_for(self.spec_width()) + x / 64,
            place.0 < self.words@.len(),
            place.1 == x % 64,
    {
        proof {
            lemma_words_for(self.width as nat);
            assert(x / 64 < self.words_per_row);
            lemma_word_index(y as int, (x / 64) as int, self.words_per_row as int, self.height as int);
            assert(y * self.words_per_row + x / 64 < self.words@.len());
        }
        (y * self.words_per_row + x / WORD_BITS, x % WORD_BITS)
    }

    /// Reads pixel `(x, y)`, which has to be inside the bitmap.
    pub fn get(&self, x: usize, y: usize) -> (value: bool)
        requires
            self.wf(),
            x < self.spec_width(),
            y < self.spec_height(),
        ensures
            value == self.at(x as int, y as int),
    {
        let (word, bit) = self.locate(x, y);
        (self.words[word] >> bit as u64) & 1 == 1
    }

    /// Writes pixel `(x, y)`, which has to be inside the bitmap, and no other.
    pub fn set(&mut self, x: usize, y: usize, value: bool)
        requires
            old(self).wf(),
            x < old(self).spec_width(),
            y < old(self).spec_height(),
        ensures
            final(self).wf(),
            final(self).spec_width() == old(self).spec_width(),
            final(self).spec_height() == old(self).spec_height(),
            final(self).at(x as int, y as int) == value,
            forall|i: int, j: int|
                (i, j) != (x as int, y as int) ==> #[trigger] final(self).at(i, j) == old(self).at(i, j),
    {
        let (word, bit) = self.locate(x, y);
        let current = self.words[word];
        let updated = if value {
            current | (1u64 << bit as u64)
        } else {
            current & !(1u64 << bit as u64)
        };
        self.words.set(word, updated);
        proof {
            let wpr = self.words_per_row as int;
            lemma_words_for(self.width as nat);
            assert forall|b: u64| b < 64 implies #[trigger] bit_at(updated, b) == (if b == bit {
                value
            } else {
                bit_at(current, b)
            }) by {
                if value {
                    lemma_bit_set(current, bit as u64, b);
                } else {
                    lemma_bit_clear(current, bit as u64, b);
                }
            }
            assert forall|yy: int, k: int| 0 <= yy < self.height && 0 <= k < wpr implies #[trigger] self.word(yy, k) == if yy == y && k == x / 64 {
                updated
            } else {
                old(self).word(yy, k)
            } by {
                lemma_word_index(yy, k, wpr, self.height as int);
                if yy * wpr + k == word {
                    lemma_word_index_unique(yy, k, y as int, (x / 64) as int, wpr);
                }
            }
            assert forall|yy: int, k: int, b: u64|
                0 <= yy < self.height && 0 <= k < wpr && b < 64 && k * 64 + b >= self.width
                implies !#[trigger] bit_at(self.word(yy, k), b) by {
                assert(self.word(yy, k) == if yy == y && k == x / 64 { updated } else { old(self).word(yy, k) });
                assert(!bit_at(old(self).word(yy, k), b));
            }
            assert forall|i: int, j: int| #[trigger] self.at(i, j) == if (i, j) == (x as int, y as int) {
                value
            } else {
                old(self).at(i, j)
            } by {
                if 0 <= i < self.width && 0 <= j < self.height {
                    assert(0 <= i / 64 < wpr);
                    assert(self.word(j, i / 64) == if j == y && i / 64 == x / 64 { updated } else { old(self).word(j, i / 64) });
                    assert(bit_at(updated, (i % 64) as u64) == if (i % 64) as u64 == bit { value } else { bit_at(current, (i % 64) as u64) });
                }
            }
        }
    }

    /// Ward's `BitmapTotal`: how many pixels are set. The padding bits past the
    /// width are held clear, so this counts whole words without masking.
    pub fn count_ones(&self) -> (count: u64)
        requires
            self.wf(),
        ensures
            count == self.ones(),
    {
        let ghost pixel = |x: int, y: int| self.at(x, y);
        let mut total: u64 = 0;
        let mut y: usize = 0;
        proof {
            lemma_words_for(self.width as nat);
        }
        while y < self.height
            invariant
                self.wf(),
                y <= self.height,
                pixel == (|x: int, y: int| self.at(x, y)),
                total == count_grid(self.width as nat, y as nat, pixel),
            decreases self.height - y,
        {
            let ghost row = |x: int| self.at(x, y as int);
            let mut row_total: u64 = 0;
            let mut k: usize = 0;
            while k < self.words_per_row
                invariant
                    self.wf(),
                    y < self.height,
                    k <= self.words_per_row,
                    row == (|x: int| self.at(x, y as int)),
                    row_total == count_true((k * 64) as nat, row),
                decreases self.words_per_row - k,
            {
                proof {
                    lemma_word_index(y as int, k as int, self.words_per_row as int, self.height as int);
                    lemma_words_for(self.width as nat);
                    assert forall|b: u64| b < 64 implies #[trigger] bit_at(self.word(y as int, k as int), b) == row(k * 64 + b) by {
                        self.lemma_word_bits(y as int, k as int, b);
                    }
                    lemma_count_word(k as nat, self.word(y as int, k as int), row);
                    lemma_count_true_split((k * 64 + 64) as nat, ((self.words_per_row - k - 1) * 64) as nat, row);
                    assert(count_true((self.words_per_row * 64) as nat, row) == count_true(self.width as nat, row)) by {
                        lemma_count_true_prefix(self.width as nat, (self.words_per_row * 64) as nat, row);
                    }
                    assert((k * 64 + 64) + (self.words_per_row - k - 1) * 64 == self.words_per_row * 64);
                    lemma_count_true_bound(self.width as nat, row);
                }
                let ones = ones_in_word(self.words[y * self.words_per_row + k]);
                row_total = row_total + ones as u64;
                k = k + 1;
            }
            proof {
                lemma_count_true_prefix(self.width as nat, (self.words_per_row * 64) as nat, row);
                assert(row == (|x: int| pixel(x, y as int)));
                lemma_count_grid_bound(self.width as nat, (y + 1) as nat, pixel);
                assert(self.width * (y + 1) <= self.width * self.height) by (nonlinear_arith)
                    requires
                        y < self.height,
                ;
            }
            total = total + row_total;
            y = y + 1;
        }
        total
    }

    /// How many words each row occupies, padding included.
    ///
    /// Exposed alongside [`Bitmap::row`] because the whole point of packing is
    /// to let callers work a word at a time; see the type's note on bit order.
    pub fn words_per_row(&self) -> (words: usize)
        requires
            self.wf(),
        ensures
            words == words_for(self.spec_width()),
    {
        self.words_per_row
    }

    /// The words of row `y`, which has to be inside the bitmap.
    pub fn row(&self, y: usize) -> (row: &[u64])
        requires
            self.wf(),
            y < self.spec_height(),
        ensures
            row@.len() == words_for(self.spec_width()),
            forall|k: int, b: u64|
                0 <= k < row@.len() && b < 64 ==> #[trigger] bit_at(row@[k], b) == self.at(
                    k * 64 + b,
                    y as int,
                ),
    {
        proof {
            lemma_words_for(self.width as nat);
            if self.words_per_row > 0 {
                lemma_word_index(y as int, self.words_per_row - 1, self.words_per_row as int, self.height as int);
            } else {
                assert(y * self.words_per_row == 0) by (nonlinear_arith)
                    requires
                        self.words_per_row == 0,
                ;
            }
            assert((y + 1) * self.words_per_row == y * self.words_per_row + self.words_per_row) by (nonlinear_arith);
        }
        let row = &self.words.as_slice()[y * self.words_per_row..(y + 1) * self.words_per_row];
        proof {
            assert forall|k: int, b: u64| 0 <= k < row@.len() && b < 64 implies #[trigger] bit_at(row@[k], b) == self.at(k * 64 + b, y as int) by {
                assert(row@[k] == self.word(y as int, k));
                self.lemma_word_bits(y as int, k, b);
            }
        }
        row
    }
}

} // verus!
