//! Counting over index predicates: how many indices below a bound
//! satisfy a predicate, with the standard lemmas about bounds,
//! pointwise comparison and single-point updates. The scheduler's
//! invariants (number of processes in use, children counts, ready-queue
//! occupancy) are all stated with these counts.

use vstd::prelude::*;

verus! {

/// Number of indices `i` with `0 <= i < n` satisfying `f`.
pub open spec fn count_if(f: spec_fn(int) -> bool, n: int) -> int
    decreases n,
{
    if n <= 0 {
        0
    } else {
        count_if(f, n - 1) + if f(n - 1) { 1int } else { 0int }
    }
}

/// A count lies between 0 and its bound.
pub proof fn lemma_count_bounds(f: spec_fn(int) -> bool, n: int)
    requires
        0 <= n,
    ensures
        0 <= count_if(f, n) <= n,
    decreases n,
{
    if n > 0 {
        lemma_count_bounds(f, n - 1);
    }
}

/// A pointwise weaker predicate has a smaller or equal count.
pub proof fn lemma_count_le(f: spec_fn(int) -> bool, g: spec_fn(int) -> bool, n: int)
    requires
        0 <= n,
        forall|i: int| 0 <= i < n && #[trigger] f(i) ==> g(i),
    ensures
        count_if(f, n) <= count_if(g, n),
    decreases n,
{
    if n > 0 {
        lemma_count_le(f, g, n - 1);
    }
}

/// Predicates that agree below the bound have equal counts.
pub proof fn lemma_count_agree(f: spec_fn(int) -> bool, g: spec_fn(int) -> bool, n: int)
    requires
        0 <= n,
        forall|i: int| 0 <= i < n ==> #[trigger] f(i) == #[trigger] g(i),
    ensures
        count_if(f, n) == count_if(g, n),
    decreases n,
{
    if n > 0 {
        lemma_count_agree(f, g, n - 1);
    }
}

/// Changing a predicate at a single point changes its count by the
/// difference at that point.
pub proof fn lemma_count_update(f: spec_fn(int) -> bool, g: spec_fn(int) -> bool, n: int, x: int)
    requires
        0 <= x < n,
        forall|i: int| 0 <= i < n && i != x ==> #[trigger] f(i) == #[trigger] g(i),
    ensures
        count_if(g, n) == count_if(f, n)
            + (if g(x) { 1int } else { 0int }) - (if f(x) { 1int } else { 0int }),
    decreases n,
{
    if x == n - 1 {
        lemma_count_agree(f, g, n - 1);
    } else {
        lemma_count_update(f, g, n - 1, x);
    }
}

/// Counts grow with the bound.
pub proof fn lemma_count_mono(f: spec_fn(int) -> bool, m: int, n: int)
    requires
        0 <= m <= n,
    ensures
        count_if(f, m) <= count_if(f, n),
    decreases n - m,
{
    if m < n {
        lemma_count_mono(f, m, n - 1);
    }
}

/// The count of a disjoint union is the sum of the counts.
pub proof fn lemma_count_split(
    f: spec_fn(int) -> bool, g: spec_fn(int) -> bool, h: spec_fn(int) -> bool, n: int,
)
    requires
        0 <= n,
        forall|i: int| 0 <= i < n ==> #[trigger] h(i) == (#[trigger] f(i) || #[trigger] g(i)),
        forall|i: int| 0 <= i < n ==> !(#[trigger] f(i) && g(i)),
    ensures
        count_if(h, n) == count_if(f, n) + count_if(g, n),
    decreases n,
{
    if n > 0 {
        lemma_count_split(f, g, h, n - 1);
    }
}

/// A point where the predicate holds witnesses a positive count.
pub proof fn lemma_count_ge_one(f: spec_fn(int) -> bool, n: int, x: int)
    requires
        0 <= x < n,
        f(x),
    ensures
        count_if(f, n) >= 1,
    decreases n,
{
    lemma_count_bounds(f, x);
    if x == n - 1 {
    } else {
        lemma_count_ge_one(f, n - 1, x);
    }
}

/// A predicate false below the bound counts nothing.
pub proof fn lemma_count_none(f: spec_fn(int) -> bool, n: int)
    requires
        0 <= n,
        forall|i: int| 0 <= i < n ==> !(#[trigger] f(i)),
    ensures
        count_if(f, n) == 0,
    decreases n,
{
    if n > 0 {
        lemma_count_none(f, n - 1);
    }
}

/// A predicate true on a whole suffix contributes that suffix's length.
pub proof fn lemma_count_range_true(f: spec_fn(int) -> bool, lo: int, n: int)
    requires
        0 <= lo <= n,
        forall|i: int| lo <= i < n ==> #[trigger] f(i),
    ensures
        count_if(f, n) == count_if(f, lo) + (n - lo),
    decreases n - lo,
{
    if lo < n {
        lemma_count_range_true(f, lo, n - 1);
    }
}

} // verus!
