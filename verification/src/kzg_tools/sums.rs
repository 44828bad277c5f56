//! Finite sums of integer-valued functions.

use crate::kzg_tools::modular::{congruent, lemma_congruent_add};
use vstd::prelude::*;

verus! {

/// The sum of `f(0), ..., f(n - 1)`.
pub open spec fn sum(f: spec_fn(int) -> int, n: int) -> int
    decreases n,
{
    if n <= 0 {
        0
    } else {
        sum(f, n - 1) + f(n - 1)
    }
}

/// Equal terms give equal sums.
pub proof fn lemma_sum_ext(f: spec_fn(int) -> int, g: spec_fn(int) -> int, n: int)
    requires
        forall|i: int| 0 <= i < n ==> #[trigger] f(i) == g(i),
    ensures
        sum(f, n) == sum(g, n),
    decreases n,
{
    if n > 0 {
        lemma_sum_ext(f, g, n - 1);
    }
}

/// Congruent terms give congruent sums.
pub proof fn lemma_sum_congruent(f: spec_fn(int) -> int, g: spec_fn(int) -> int, n: int)
    requires
        forall|i: int| 0 <= i < n ==> congruent(#[trigger] f(i), g(i)),
    ensures
        congruent(sum(f, n), sum(g, n)),
    decreases n,
{
    if n > 0 {
        lemma_sum_congruent(f, g, n - 1);
        lemma_congruent_add(sum(f, n - 1), sum(g, n - 1), f(n - 1), g(n - 1));
    }
}

/// A sum of zeros is zero.
pub proof fn lemma_sum_zero(f: spec_fn(int) -> int, n: int)
    requires
        forall|i: int| 0 <= i < n ==> #[trigger] f(i) == 0,
    ensures
        sum(f, n) == 0,
    decreases n,
{
    if n > 0 {
        lemma_sum_zero(f, n - 1);
    }
}

/// The sum of sums, term by term.
pub proof fn lemma_sum_add(f: spec_fn(int) -> int, g: spec_fn(int) -> int, n: int)
    ensures
        sum(|i: int| f(i) + g(i), n) == sum(f, n) + sum(g, n),
    decreases n,
{
    if n > 0 {
        lemma_sum_add(f, g, n - 1);
    }
}

/// The difference of sums, term by term.
pub proof fn lemma_sum_sub(f: spec_fn(int) -> int, g: spec_fn(int) -> int, n: int)
    ensures
        sum(|i: int| f(i) - g(i), n) == sum(f, n) - sum(g, n),
    decreases n,
{
    if n > 0 {
        lemma_sum_sub(f, g, n - 1);
    }
}

/// A common factor can be taken out of a sum.
pub proof fn lemma_sum_scale(c: int, f: spec_fn(int) -> int, n: int)
    ensures
        sum(|i: int| c * f(i), n) == c * sum(f, n),
    decreases n,
{
    if n > 0 {
        lemma_sum_scale(c, f, n - 1);
        assert(c * (sum(f, n - 1) + f(n - 1)) == c * sum(f, n - 1) + c * f(n - 1))
            by (nonlinear_arith);
    } else {
        assert(c * 0 == 0);
    }
}

/// Changing one term changes the sum by the difference.
pub proof fn lemma_sum_update(f: spec_fn(int) -> int, g: spec_fn(int) -> int, j: int, n: int)
    requires
        0 <= j < n,
        forall|i: int| 0 <= i < n && i != j ==> #[trigger] f(i) == g(i),
    ensures
        sum(g, n) == sum(f, n) + g(j) - f(j),
    decreases n,
{
    if n - 1 == j {
        lemma_sum_ext(f, g, n - 1);
    } else {
        lemma_sum_update(f, g, j, n - 1);
    }
}

/// Terms beyond `m` that vanish do not count.
pub proof fn lemma_sum_truncate(f: spec_fn(int) -> int, m: int, n: int)
    requires
        0 <= m <= n,
        forall|i: int| m <= i < n ==> #[trigger] f(i) == 0,
    ensures
        sum(f, n) == sum(f, m),
    decreases n,
{
    if n > m {
        lemma_sum_truncate(f, m, n - 1);
    }
}

/// A sum whose terms vanish except at `j` is the term at `j`.
pub proof fn lemma_sum_single(f: spec_fn(int) -> int, j: int, n: int)
    requires
        0 <= j < n,
        forall|i: int| 0 <= i < n && i != j ==> #[trigger] f(i) == 0,
    ensures
        sum(f, n) == f(j),
    decreases n,
{
    if n - 1 == j {
        lemma_sum_zero(f, n - 1);
    } else {
        lemma_sum_single(f, j, n - 1);
    }
}

/// Summing `f(i - s)` over `s <= i < s + n`, with nothing before `s`.
pub proof fn lemma_sum_shift(f: spec_fn(int) -> int, g: spec_fn(int) -> int, s: int, n: int)
    requires
        0 <= s,
        0 <= n,
        forall|i: int| 0 <= i < s ==> #[trigger] g(i) == 0,
        forall|i: int| 0 <= i < n ==> g(i + s) == #[trigger] f(i),
    ensures
        sum(g, s + n) == sum(f, n),
    decreases n,
{
    if n == 0 {
        lemma_sum_zero(g, s);
    } else {
        lemma_sum_shift(f, g, s, n - 1);
        assert(g((n - 1) + s) == f(n - 1));
    }
}

/// A sum in two parts.
pub proof fn lemma_sum_split(f: spec_fn(int) -> int, a: int, n: int)
    requires
        0 <= a <= n,
    ensures
        sum(f, n) == sum(f, a) + sum(|i: int| f(i + a), n - a),
    decreases n,
{
    if n > a {
        lemma_sum_split(f, a, n - 1);
    }
}

/// The sums of the rows of a table.
pub open spec fn row_sums(f: spec_fn(int, int) -> int, m: int) -> spec_fn(int) -> int {
    |i: int| sum(|j: int| f(i, j), m)
}

/// The sums of the columns of a table.
pub open spec fn column_sums(f: spec_fn(int, int) -> int, n: int) -> spec_fn(int) -> int {
    |j: int| sum(|i: int| f(i, j), n)
}

/// A table may be summed by rows or by columns.
pub proof fn lemma_sum_swap(f: spec_fn(int, int) -> int, n: int, m: int)
    ensures
        sum(row_sums(f, m), n) == sum(column_sums(f, n), m),
    decreases n,
{
    if n <= 0 {
        lemma_sum_zero(column_sums(f, n), m);
    } else {
        lemma_sum_swap(f, n - 1, m);
        let last = |j: int| f(n - 1, j);
        let above = column_sums(f, n - 1);
        lemma_sum_add(above, last, m);
        lemma_sum_ext(column_sums(f, n), |j: int| above(j) + last(j), m);
    }
}

} // verus!
