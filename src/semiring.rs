//! Finite sums under caller-supplied scalar operations that form a
//! semiring, and the facts about them that matrix products rest on.

use vstd::prelude::*;

use crate::laws::deterministic;
use crate::vector::{fold_trace, is_dot};

verus! {

/// The result of `f` on `x` and `y`, where `f` has one.
pub open spec fn apply<T, F: Fn(T, T) -> T>(f: F, x: T, y: T) -> T {
    choose|z: T| f.ensures((x, y), z)
}

/// `f` behaves as a function: it has a result for every pair of
/// arguments, and only one.
pub open spec fn functional<T, F: Fn(T, T) -> T>(f: F) -> bool {
    &&& forall|x: T, y: T| #[trigger] f.ensures((x, y), apply(f, x, y))
    &&& deterministic(f)
}

/// `plus` and `times` form a semiring with `zero`: addition is associative
/// and commutative with unit `zero`, multiplication is associative and
/// distributes over addition on both sides, and `zero` annihilates.
#[verifier::opaque]
pub open spec fn semiring<T, M: Fn(T, T) -> T, A: Fn(T, T) -> T>(
    times: M,
    plus: A,
    zero: T,
) -> bool {
    &&& functional(times)
    &&& functional(plus)
    &&& forall|x: T, y: T, z: T|
        #[trigger] apply(plus, apply(plus, x, y), z) == apply(plus, x, apply(plus, y, z))
    &&& forall|x: T, y: T| #[trigger] apply(plus, x, y) == apply(plus, y, x)
    &&& forall|x: T| #[trigger] apply(plus, x, zero) == x
    &&& forall|x: T, y: T, z: T|
        #[trigger] apply(times, apply(times, x, y), z) == apply(times, x, apply(times, y, z))
    &&& forall|x: T, y: T, z: T|
        #[trigger] apply(times, x, apply(plus, y, z)) == apply(
            plus,
            apply(times, x, y),
            apply(times, x, z),
        )
    &&& forall|x: T, y: T, z: T|
        #[trigger] apply(times, apply(plus, x, y), z) == apply(
            plus,
            apply(times, x, z),
            apply(times, y, z),
        )
    &&& forall|x: T| #[trigger] apply(times, zero, x) == zero
    &&& forall|x: T| #[trigger] apply(times, x, zero) == zero
}

/// `f(0) + f(1) + ... + f(n - 1)`, added left to right from `zero`.
pub open spec fn sum_of<T, A: Fn(T, T) -> T>(plus: A, zero: T, f: spec_fn(int) -> T, n: int) -> T
    decreases n,
{
    if n <= 0 {
        zero
    } else {
        apply(plus, sum_of(plus, zero, f, n - 1), f(n - 1))
    }
}

pub proof fn lemma_functional<T, M: Fn(T, T) -> T, A: Fn(T, T) -> T>(times: M, plus: A, zero: T)
    requires
        semiring(times, plus, zero),
    ensures
        functional(times),
        functional(plus),
{
    reveal(semiring);
}

pub proof fn lemma_plus_assoc<T, M: Fn(T, T) -> T, A: Fn(T, T) -> T>(
    times: M,
    plus: A,
    zero: T,
    x: T,
    y: T,
    z: T,
)
    requires
        semiring(times, plus, zero),
    ensures
        apply(plus, apply(plus, x, y), z) == apply(plus, x, apply(plus, y, z)),
{
    reveal(semiring);
}

pub proof fn lemma_plus_comm<T, M: Fn(T, T) -> T, A: Fn(T, T) -> T>(
    times: M,
    plus: A,
    zero: T,
    x: T,
    y: T,
)
    requires
        semiring(times, plus, zero),
    ensures
        apply(plus, x, y) == apply(plus, y, x),
{
    reveal(semiring);
}

pub proof fn lemma_plus_zero<T, M: Fn(T, T) -> T, A: Fn(T, T) -> T>(
    times: M,
    plus: A,
    zero: T,
    x: T,
)
    requires
        semiring(times, plus, zero),
    ensures
        apply(plus, x, zero) == x,
{
    reveal(semiring);
}

/// Multiplication is associative.
pub proof fn lemma_times_assoc<T, M: Fn(T, T) -> T, A: Fn(T, T) -> T>(
    times: M,
    plus: A,
    zero: T,
    x: T,
    y: T,
    z: T,
)
    requires
        semiring(times, plus, zero),
    ensures
        apply(times, apply(times, x, y), z) == apply(times, x, apply(times, y, z)),
{
    reveal(semiring);
}

pub proof fn lemma_distrib<T, M: Fn(T, T) -> T, A: Fn(T, T) -> T>(
    times: M,
    plus: A,
    zero: T,
    x: T,
    y: T,
    z: T,
)
    requires
        semiring(times, plus, zero),
    ensures
        apply(times, x, apply(plus, y, z)) == apply(plus, apply(times, x, y), apply(times, x, z)),
        apply(times, apply(plus, x, y), z) == apply(plus, apply(times, x, z), apply(times, y, z)),
        apply(times, zero, x) == zero,
        apply(times, x, zero) == zero,
{
    reveal(semiring);
}

/// Sums of functions that agree below `n` are equal.
pub proof fn lemma_sum_ext<T, A: Fn(T, T) -> T>(
    plus: A,
    zero: T,
    f: spec_fn(int) -> T,
    g: spec_fn(int) -> T,
    n: int,
)
    requires
        forall|i: int| 0 <= i < n ==> #[trigger] f(i) == g(i),
    ensures
        sum_of(plus, zero, f, n) == sum_of(plus, zero, g, n),
    decreases n,
{
    if n > 0 {
        lemma_sum_ext(plus, zero, f, g, n - 1);
    }
}

/// `(a + b) + (c + d) == (a + c) + (b + d)`.
proof fn lemma_plus_swap_middle<T, M: Fn(T, T) -> T, A: Fn(T, T) -> T>(
    times: M,
    plus: A,
    zero: T,
    a: T,
    b: T,
    c: T,
    d: T,
)
    requires
        semiring(times, plus, zero),
    ensures
        apply(plus, apply(plus, a, b), apply(plus, c, d)) == apply(
            plus,
            apply(plus, a, c),
            apply(plus, b, d),
        ),
{
    lemma_plus_assoc(times, plus, zero, a, b, apply(plus, c, d));
    lemma_plus_assoc(times, plus, zero, b, c, d);
    lemma_plus_comm(times, plus, zero, b, c);
    lemma_plus_assoc(times, plus, zero, c, b, d);
    lemma_plus_assoc(times, plus, zero, a, c, apply(plus, b, d));
}

/// The sum of pointwise sums is the sum of the two sums.
proof fn lemma_sum_pointwise<T, M: Fn(T, T) -> T, A: Fn(T, T) -> T>(
    times: M,
    plus: A,
    zero: T,
    f: spec_fn(int) -> T,
    g: spec_fn(int) -> T,
    n: int,
)
    requires
        semiring(times, plus, zero),
    ensures
        sum_of(plus, zero, |i: int| apply(plus, f(i), g(i)), n) == apply(
            plus,
            sum_of(plus, zero, f, n),
            sum_of(plus, zero, g, n),
        ),
    decreases n,
{
    if n <= 0 {
        lemma_plus_zero(times, plus, zero, zero);
    } else {
        lemma_sum_pointwise(times, plus, zero, f, g, n - 1);
        lemma_plus_swap_middle(
            times,
            plus,
            zero,
            sum_of(plus, zero, f, n - 1),
            sum_of(plus, zero, g, n - 1),
            f(n - 1),
            g(n - 1),
        );
    }
}

/// A sum of zeros is zero.
proof fn lemma_sum_zeros<T, M: Fn(T, T) -> T, A: Fn(T, T) -> T>(
    times: M,
    plus: A,
    zero: T,
    f: spec_fn(int) -> T,
    n: int,
)
    requires
        semiring(times, plus, zero),
        forall|i: int| 0 <= i < n ==> #[trigger] f(i) == zero,
    ensures
        sum_of(plus, zero, f, n) == zero,
    decreases n,
{
    if n > 0 {
        lemma_sum_zeros(times, plus, zero, f, n - 1);
        lemma_plus_zero(times, plus, zero, zero);
    }
}

/// A double sum can be taken in either order.
pub proof fn lemma_sum_swap<T, M: Fn(T, T) -> T, A: Fn(T, T) -> T>(
    times: M,
    plus: A,
    zero: T,
    h: spec_fn(int, int) -> T,
    nj: int,
    nk: int,
)
    requires
        semiring(times, plus, zero),
        0 <= nk,
    ensures
        sum_of(plus, zero, |k: int| sum_of(plus, zero, |j: int| h(j, k), nj), nk) == sum_of(
            plus,
            zero,
            |j: int| sum_of(plus, zero, |k: int| h(j, k), nk),
            nj,
        ),
    decreases nk,
{
    if nk == 0 {
        lemma_sum_zeros(times, plus, zero, |j: int| sum_of(plus, zero, |k: int| h(j, k), 0), nj);
    } else {
        lemma_sum_swap(times, plus, zero, h, nj, nk - 1);
        let f = |j: int| sum_of(plus, zero, |k: int| h(j, k), nk - 1);
        let g = |j: int| h(j, nk - 1);
        lemma_sum_pointwise(times, plus, zero, f, g, nj);
        lemma_sum_ext(
            plus,
            zero,
            |i: int| apply(plus, f(i), g(i)),
            |j: int| sum_of(plus, zero, |k: int| h(j, k), nk),
            nj,
        );
        lemma_sum_ext(plus, zero, g, |j: int| h(j, nk - 1), nj);
    }
}

/// Multiplication by `c` on the right distributes over a sum.
pub proof fn lemma_sum_times_right<T, M: Fn(T, T) -> T, A: Fn(T, T) -> T>(
    times: M,
    plus: A,
    zero: T,
    f: spec_fn(int) -> T,
    c: T,
    n: int,
)
    requires
        semiring(times, plus, zero),
    ensures
        apply(times, sum_of(plus, zero, f, n), c) == sum_of(
            plus,
            zero,
            |j: int| apply(times, f(j), c),
            n,
        ),
    decreases n,
{
    lemma_distrib(times, plus, zero, c, c, c);
    if n > 0 {
        lemma_sum_times_right(times, plus, zero, f, c, n - 1);
        lemma_distrib(times, plus, zero, sum_of(plus, zero, f, n - 1), f(n - 1), c);
    }
}

/// Multiplication by `a` on the left distributes over a sum.
pub proof fn lemma_sum_times_left<T, M: Fn(T, T) -> T, A: Fn(T, T) -> T>(
    times: M,
    plus: A,
    zero: T,
    a: T,
    f: spec_fn(int) -> T,
    n: int,
)
    requires
        semiring(times, plus, zero),
    ensures
        apply(times, a, sum_of(plus, zero, f, n)) == sum_of(
            plus,
            zero,
            |k: int| apply(times, a, f(k)),
            n,
        ),
    decreases n,
{
    lemma_distrib(times, plus, zero, a, a, a);
    if n > 0 {
        lemma_sum_times_left(times, plus, zero, a, f, n - 1);
        lemma_distrib(times, plus, zero, a, sum_of(plus, zero, f, n - 1), f(n - 1));
    }
}

proof fn lemma_trace_sum<T, M: Fn(T, T) -> T, A: Fn(T, T) -> T>(
    times: M,
    plus: A,
    zero: T,
    a: Seq<T>,
    b: Seq<T>,
    n: int,
    prods: Seq<T>,
    acc: Seq<T>,
    k: int,
)
    requires
        functional(times),
        functional(plus),
        fold_trace(times, plus, zero, a, b, n, prods, acc),
        0 <= k <= n,
    ensures
        acc[k] == sum_of(plus, zero, |j: int| apply(times, a[j], b[j]), k),
    decreases k,
{
    if k > 0 {
        let j = k - 1;
        lemma_trace_sum(times, plus, zero, a, b, n, prods, acc, j);
        assert(times.ensures((a[j], b[j]), prods[j]));
        assert(times.ensures((a[j], b[j]), apply(times, a[j], b[j])));
        assert(plus.ensures((acc[j], prods[j]), acc[j + 1]));
        assert(plus.ensures((acc[j], prods[j]), apply(plus, acc[j], prods[j])));
    }
}

/// Under functional operations a dot product is the sum of the pairwise
/// products.
pub proof fn lemma_dot_is_sum<T, M: Fn(T, T) -> T, A: Fn(T, T) -> T>(
    times: M,
    plus: A,
    zero: T,
    a: Seq<T>,
    b: Seq<T>,
    r: T,
)
    requires
        semiring(times, plus, zero),
        is_dot(times, plus, zero, a, b, r),
    ensures
        r == sum_of(plus, zero, |j: int| apply(times, a[j], b[j]), a.len() as int),
{
    lemma_functional(times, plus, zero);
    let (prods, acc) = choose|prods: Seq<T>, acc: Seq<T>|
        #[trigger] fold_trace(times, plus, zero, a, b, a.len() as int, prods, acc) && acc[a.len()
            as int] == r;
    lemma_trace_sum(times, plus, zero, a, b, a.len() as int, prods, acc, a.len() as int);
}

/// The result of the one-argument operation `f` on `x`, where it has one.
pub open spec fn apply_unary<T, F: Fn(T) -> T>(f: F, x: T) -> T {
    choose|z: T| f.ensures((x,), z)
}

/// `f` behaves as a function of one argument.
pub open spec fn functional_unary<T, F: Fn(T) -> T>(f: F) -> bool {
    &&& forall|x: T| #[trigger] f.ensures((x,), apply_unary(f, x))
    &&& forall|x: T, z: T, w: T|
        #[trigger] f.ensures((x,), z) && #[trigger] f.ensures((x,), w) ==> z == w
}

/// The operations form a commutative ring with `zero` and `one` in which
/// `negate` gives additive inverses, `minus` adds the negation, and `recip`
/// gives multiplicative inverses of everything but `zero`.
pub open spec fn field_laws<
    T,
    G: Fn(T) -> T,
    M: Fn(T, T) -> T,
    A: Fn(T, T) -> T,
    S: Fn(T, T) -> T,
    Q: Fn(T) -> T,
>(negate: G, times: M, plus: A, minus: S, recip: Q, zero: T, one: T) -> bool {
    &&& semiring(times, plus, zero)
    &&& functional(minus)
    &&& functional_unary(negate)
    &&& functional_unary(recip)
    &&& forall|x: T, y: T| #[trigger] apply(times, x, y) == apply(times, y, x)
    &&& forall|x: T| #[trigger] apply(plus, x, apply_unary(negate, x)) == zero
    &&& forall|x: T, y: T| #[trigger] apply(minus, x, y) == apply(plus, x, apply_unary(negate, y))
    &&& forall|x: T| x != zero ==> #[trigger] apply(times, x, apply_unary(recip, x)) == one
}

/// `x * (-y) == -(x * y)`.
pub proof fn lemma_times_negate<
    T,
    G: Fn(T) -> T,
    M: Fn(T, T) -> T,
    A: Fn(T, T) -> T,
    S: Fn(T, T) -> T,
    Q: Fn(T) -> T,
>(negate: G, times: M, plus: A, minus: S, recip: Q, zero: T, one: T, x: T, y: T)
    requires
        field_laws(negate, times, plus, minus, recip, zero, one),
    ensures
        apply(times, x, apply_unary(negate, y)) == apply_unary(negate, apply(times, x, y)),
{
    let u = apply(times, x, y);
    let v = apply(times, x, apply_unary(negate, y));
    let w = apply_unary(negate, u);
    lemma_distrib(times, plus, zero, x, y, apply_unary(negate, y));
    assert(apply(plus, y, apply_unary(negate, y)) == zero);
    assert(apply(plus, u, v) == zero);
    assert(apply(plus, u, w) == zero);
    lemma_plus_zero(times, plus, zero, v);
    lemma_plus_assoc(times, plus, zero, v, u, w);
    lemma_plus_comm(times, plus, zero, v, u);
    lemma_plus_comm(times, plus, zero, zero, w);
    lemma_plus_zero(times, plus, zero, w);
}

} // verus!
