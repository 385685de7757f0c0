use vstd::prelude::*;

verus! {

/// How many of `f(0)`, ..., `f(n - 1)` hold.
pub open spec fn count_true(n: nat, f: spec_fn(int) -> bool) -> nat
    decreases n,
{
    if n == 0 {
        0
    } else {
        count_true((n - 1) as nat, f) + if f(n - 1) { 1nat } else { 0nat }
    }
}

/// How many points `(x, y)` of the `width` by `height` grid satisfy `f`.
pub open spec fn count_grid(width: nat, height: nat, f: spec_fn(int, int) -> bool) -> nat
    decreases height,
{
    if height == 0 {
        0
    } else {
        count_grid(width, (height - 1) as nat, f) + count_true(width, |x: int| f(x, height - 1))
    }
}

pub proof fn lemma_count_true_ext(n: nat, f: spec_fn(int) -> bool, g: spec_fn(int) -> bool)
    requires
        forall|i: int| #![trigger f(i)] #![trigger g(i)] 0 <= i < n ==> f(i) == g(i),
    ensures
        count_true(n, f) == count_true(n, g),
    decreases n,
{
    if n > 0 {
        lemma_count_true_ext((n - 1) as nat, f, g);
    }
}

pub proof fn lemma_count_true_bound(n: nat, f: spec_fn(int) -> bool)
    ensures
        count_true(n, f) <= n,
    decreases n,
{
    if n > 0 {
        lemma_count_true_bound((n - 1) as nat, f);
    }
}

pub proof fn lemma_count_true_none(n: nat, f: spec_fn(int) -> bool)
    requires
        forall|i: int| #![trigger f(i)] 0 <= i < n ==> !f(i),
    ensures
        count_true(n, f) == 0,
    decreases n,
{
    if n > 0 {
        lemma_count_true_none((n - 1) as nat, f);
    }
}

pub proof fn lemma_count_true_all(n: nat, f: spec_fn(int) -> bool)
    requires
        forall|i: int| #![trigger f(i)] 0 <= i < n ==> f(i),
    ensures
        count_true(n, f) == n,
    decreases n,
{
    if n > 0 {
        lemma_count_true_all((n - 1) as nat, f);
    }
}

/// Counting past a stretch where `f` never holds adds nothing.
pub proof fn lemma_count_true_prefix(n: nat, m: nat, f: spec_fn(int) -> bool)
    requires
        n <= m,
        forall|i: int| #![trigger f(i)] n <= i < m ==> !f(i),
    ensures
        count_true(m, f) == count_true(n, f),
    decreases m,
{
    if m > n {
        lemma_count_true_prefix(n, (m - 1) as nat, f);
    }
}

/// The first `a + b` values split into the first `a` and the `b` after them.
pub proof fn lemma_count_true_split(a: nat, b: nat, f: spec_fn(int) -> bool)
    ensures
        count_true(a + b, f) == count_true(a, f) + count_true(b, |i: int| f(a + i)),
    decreases b,
{
    if b > 0 {
        lemma_count_true_split(a, (b - 1) as nat, f);
        assert(count_true((a + b - 1) as nat, f) == count_true(a, f) + count_true(
            (b - 1) as nat,
            |i: int| f(a + i),
        ));
    }
}

/// Counting either of two conditions that never hold together adds their counts.
pub proof fn lemma_count_true_disjoint(
    n: nat,
    f: spec_fn(int) -> bool,
    g: spec_fn(int) -> bool,
    h: spec_fn(int) -> bool,
)
    requires
        forall|i: int| #![trigger h(i)] 0 <= i < n ==> h(i) == (f(i) || g(i)),
        forall|i: int| #![trigger f(i)] 0 <= i < n ==> !(f(i) && g(i)),
    ensures
        count_true(n, h) == count_true(n, f) + count_true(n, g),
    decreases n,
{
    if n > 0 {
        lemma_count_true_disjoint((n - 1) as nat, f, g, h);
    }
}

/// Counting a weaker condition never counts fewer.
pub proof fn lemma_count_true_mono(n: nat, f: spec_fn(int) -> bool, g: spec_fn(int) -> bool)
    requires
        forall|i: int| #![trigger f(i)] 0 <= i < n && f(i) ==> g(i),
    ensures
        count_true(n, f) <= count_true(n, g),
    decreases n,
{
    if n > 0 {
        lemma_count_true_mono((n - 1) as nat, f, g);
    }
}

/// Something counted is somewhere.
pub proof fn lemma_count_true_witness(n: nat, f: spec_fn(int) -> bool) -> (i: int)
    requires
        count_true(n, f) > 0,
    ensures
        0 <= i < n,
        f(i),
    decreases n,
{
    if f(n - 1) {
        n - 1
    } else {
        lemma_count_true_witness((n - 1) as nat, f)
    }
}

pub proof fn lemma_count_grid_ext(
    width: nat,
    height: nat,
    f: spec_fn(int, int) -> bool,
    g: spec_fn(int, int) -> bool,
)
    requires
        forall|x: int, y: int| #![trigger f(x, y)] #![trigger g(x, y)] 0 <= x < width && 0 <= y < height ==> f(x, y) == g(x, y),
    ensures
        count_grid(width, height, f) == count_grid(width, height, g),
    decreases height,
{
    if height > 0 {
        lemma_count_grid_ext(width, (height - 1) as nat, f, g);
        lemma_count_true_ext(width, |x: int| f(x, height - 1), |x: int| g(x, height - 1));
    }
}

/// Counting either of two conditions that never hold together over a grid adds
/// their counts.
pub proof fn lemma_count_grid_disjoint(
    width: nat,
    height: nat,
    f: spec_fn(int, int) -> bool,
    g: spec_fn(int, int) -> bool,
    h: spec_fn(int, int) -> bool,
)
    requires
        forall|x: int, y: int|
            #![trigger h(x, y)]
            0 <= x < width && 0 <= y < height ==> h(x, y) == (f(x, y) || g(x, y)),
        forall|x: int, y: int|
            #![trigger f(x, y)]
            0 <= x < width && 0 <= y < height ==> !(f(x, y) && g(x, y)),
    ensures
        count_grid(width, height, h) == count_grid(width, height, f) + count_grid(width, height, g),
    decreases height,
{
    if height > 0 {
        lemma_count_grid_disjoint(width, (height - 1) as nat, f, g, h);
        lemma_count_true_disjoint(
            width,
            |x: int| f(x, height - 1),
            |x: int| g(x, height - 1),
            |x: int| h(x, height - 1),
        );
    }
}

pub proof fn lemma_count_grid_bound(width: nat, height: nat, f: spec_fn(int, int) -> bool)
    ensures
        count_grid(width, height, f) <= width * height,
    decreases height,
{
    if height > 0 {
        lemma_count_grid_bound(width, (height - 1) as nat, f);
        lemma_count_true_bound(width, |x: int| f(x, height - 1));
        assert(width * (height - 1) + width == width * height) by (nonlinear_arith);
    }
}

pub proof fn lemma_count_grid_none(width: nat, height: nat, f: spec_fn(int, int) -> bool)
    requires
        forall|x: int, y: int| #![trigger f(x, y)] 0 <= x < width && 0 <= y < height ==> !f(x, y),
    ensures
        count_grid(width, height, f) == 0,
    decreases height,
{
    if height > 0 {
        lemma_count_grid_none(width, (height - 1) as nat, f);
        lemma_count_true_none(width, |x: int| f(x, height - 1));
    }
}

} // verus!
