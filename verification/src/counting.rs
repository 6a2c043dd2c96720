use vstd::prelude::*;

verus! {

/// How many indices in `[0, n)` satisfy `f`.
pub open spec fn count_true(f: spec_fn(int) -> bool, n: int) -> int
    decreases n,
{
    if n <= 0 {
        0
    } else {
        count_true(f, n - 1) + if f(n - 1) {
            1int
        } else {
            0int
        }
    }
}

/// Predicates that agree on the range have equal counts.
pub proof fn lemma_count_true_equal(f: spec_fn(int) -> bool, g: spec_fn(int) -> bool, n: int)
    requires
        forall|i: int| 0 <= i < n ==> #[trigger] f(i) == g(i),
    ensures
        count_true(f, n) == count_true(g, n),
    decreases n,
{
    if n > 0 {
        lemma_count_true_equal(f, g, n - 1);
    }
}

/// A predicate false on the whole range counts zero.
pub proof fn lemma_count_true_none(f: spec_fn(int) -> bool, n: int)
    requires
        forall|i: int| 0 <= i < n ==> !#[trigger] f(i),
    ensures
        count_true(f, n) == 0,
    decreases n,
{
    if n > 0 {
        lemma_count_true_none(f, n - 1);
    }
}

/// Turning one index from false to true raises the count by one.
pub proof fn lemma_count_true_point(
    f: spec_fn(int) -> bool,
    g: spec_fn(int) -> bool,
    q: int,
    n: int,
)
    requires
        0 <= q < n,
        !f(q),
        g(q),
        forall|i: int| 0 <= i < n && i != q ==> #[trigger] f(i) == g(i),
    ensures
        count_true(g, n) == count_true(f, n) + 1,
    decreases n,
{
    if q == n - 1 {
        lemma_count_true_equal(f, g, n - 1);
    } else {
        lemma_count_true_point(f, g, q, n - 1);
    }
}

/// A predicate true at exactly one index of the range counts one.
pub proof fn lemma_count_true_single(f: spec_fn(int) -> bool, q: int, n: int)
    requires
        0 <= q < n,
        f(q),
        forall|i: int| 0 <= i < n && i != q ==> !#[trigger] f(i),
    ensures
        count_true(f, n) == 1,
{
    let none = |i: int| false;
    lemma_count_true_none(none, n);
    lemma_count_true_point(none, f, q, n);
}

/// The count of a disjoint union is the sum of the counts.
pub proof fn lemma_count_true_disjoint_union(
    f: spec_fn(int) -> bool,
    g: spec_fn(int) -> bool,
    h: spec_fn(int) -> bool,
    n: int,
)
    requires
        forall|i: int| 0 <= i < n ==> #[trigger] h(i) == (f(i) || g(i)),
        forall|i: int| 0 <= i < n ==> !(#[trigger] f(i) && g(i)),
    ensures
        count_true(h, n) == count_true(f, n) + count_true(g, n),
    decreases n,
{
    if n > 0 {
        lemma_count_true_disjoint_union(f, g, h, n - 1);
    }
}

} // verus!
