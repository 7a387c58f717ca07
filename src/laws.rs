//! Laws that relate the operations of the library to one another.
//!
//! The scalar operations are closures supplied by the caller, so each law
//! states the algebraic facts about them that it relies on.

use vstd::arithmetic::div_mod::lemma_fundamental_div_mod;
use vstd::prelude::*;

use crate::matrix::{det_trace, inverse_trace, is_det, is_inverse, lemma_index_in_grid, Matrix};
use crate::semiring::{
    apply, apply_unary, field_laws, lemma_distrib, lemma_dot_is_sum, lemma_functional,
    lemma_plus_comm, lemma_plus_zero, lemma_sum_ext, lemma_sum_swap, lemma_sum_times_left,
    lemma_sum_times_right, lemma_times_assoc, lemma_times_negate, semiring, sum_of,
};
use crate::vector::{fold_trace, is_dot, VectorN};

verus! {

/// Swapping the arguments of `f` gives the same result.
pub open spec fn commutes<T, F: Fn(T, T) -> T>(f: F) -> bool {
    forall|x: T, y: T, z: T| #[trigger] f.ensures((x, y), z) ==> f.ensures((y, x), z)
}

/// `f` gives at most one result for each pair of arguments.
pub open spec fn deterministic<T, F: Fn(T, T) -> T>(f: F) -> bool {
    forall|x: T, y: T, z: T, w: T|
        #[trigger] f.ensures((x, y), z) && #[trigger] f.ensures((x, y), w) ==> z == w
}

/// `f(f(x, y), z) == f(x, f(y, z))` for all `x`, `y`, `z`.
pub open spec fn associates<T, F: Fn(T, T) -> T>(f: F) -> bool {
    forall|x: T, y: T, z: T, u: T, v: T, w: T|
        #[trigger] f.ensures((x, y), u) && #[trigger] f.ensures((u, z), w) && #[trigger] f.ensures(
            (y, z),
            v,
        ) ==> f.ensures((x, v), w)
}

/// `e` is a right unit of `f`: `f(x, e) == x`.
pub open spec fn right_unit<T, F: Fn(T, T) -> T>(f: F, e: T) -> bool {
    forall|x: T, z: T| #[trigger] f.ensures((x, e), z) ==> z == x
}

/// `e` is a left unit of `f`: `f(e, x) == x`.
pub open spec fn left_unit<T, F: Fn(T, T) -> T>(f: F, e: T) -> bool {
    forall|x: T, z: T| #[trigger] f.ensures((e, x), z) ==> z == x
}

/// `e` absorbs from the right under `f`: `f(x, e) == e`.
pub open spec fn right_absorbs<T, F: Fn(T, T) -> T>(f: F, e: T) -> bool {
    forall|x: T, z: T| #[trigger] f.ensures((x, e), z) ==> z == e
}

/// `e` absorbs from the left under `f`: `f(e, x) == e`.
pub open spec fn left_absorbs<T, F: Fn(T, T) -> T>(f: F, e: T) -> bool {
    forall|x: T, z: T| #[trigger] f.ensures((e, x), z) ==> z == e
}

/// A vector built from `data` answers `get(i)` with `data[i]` for every
/// `i < N`, and with nothing for every `i >= N`.
pub proof fn law_vector_get<T: Copy, const N: usize>(data: [T; N], v: VectorN<T, N>, i: int)
    requires
        v@ == data@,
        0 <= i,
    ensures
        i < N ==> v.lookup(i) == Some(data@[i]),
        i >= N ==> v.lookup(i) is None,
{
}

/// The dot product is symmetric when the product is: a dot product of `a`
/// and `b` is also one of `b` and `a`.
pub proof fn law_dot_commutative<T, M: Fn(T, T) -> T, A: Fn(T, T) -> T>(
    times: M,
    plus: A,
    zero: T,
    a: Seq<T>,
    b: Seq<T>,
    r: T,
)
    requires
        commutes(times),
        is_dot(times, plus, zero, a, b, r),
    ensures
        is_dot(times, plus, zero, b, a, r),
{
    let (prods, acc) = choose|prods: Seq<T>, acc: Seq<T>|
        #[trigger] fold_trace(times, plus, zero, a, b, a.len() as int, prods, acc) && acc[a.len()
            as int] == r;
    assert forall|j: int| 0 <= j < b.len() implies #[trigger] times.ensures(
        (b[j], a[j]),
        prods[j],
    ) && plus.ensures((acc[j], prods[j]), acc[j + 1]) by {
        assert(times.ensures((a[j], b[j]), prods[j]));
    }
    assert(fold_trace(times, plus, zero, b, a, b.len() as int, prods, acc));
}

/// Scaling by a right unit of the product leaves a vector as it was.
pub proof fn law_scale_by_one<T: Copy, const N: usize, M: Fn(T, T) -> T>(
    v: VectorN<T, N>,
    one: T,
    times: M,
    w: VectorN<T, N>,
)
    requires
        right_unit(times, one),
        w@.len() == N,
        forall|i: int| 0 <= i < N ==> #[trigger] times.ensures((v@[i], one), w@[i]),
    ensures
        w@ == v@,
{
    v.lemma_len();
    assert forall|i: int| 0 <= i < N implies w@[i] == v@[i] by {
        assert(times.ensures((v@[i], one), w@[i]));
    }
    assert(w@ =~= v@);
}

/// Scaling by a right absorbing element of the product sets every entry to
/// that element.
pub proof fn law_scale_by_zero<T: Copy, const N: usize, M: Fn(T, T) -> T>(
    v: VectorN<T, N>,
    zero: T,
    times: M,
    w: VectorN<T, N>,
)
    requires
        right_absorbs(times, zero),
        w@.len() == N,
        forall|i: int| 0 <= i < N ==> #[trigger] times.ensures((v@[i], zero), w@[i]),
    ensures
        forall|i: int| 0 <= i < N ==> #[trigger] w@[i] == zero,
{
    assert forall|i: int| 0 <= i < N implies #[trigger] w@[i] == zero by {
        assert(times.ensures((v@[i], zero), w@[i]));
    }
}

/// Vector addition is commutative when the scalar addition is: `a + b`
/// and `b + a` hold the same entries.
pub proof fn law_vector_add_commutative<T: Copy, const N: usize, A: Fn(T, T) -> T>(
    a: VectorN<T, N>,
    b: VectorN<T, N>,
    plus: A,
    s: VectorN<T, N>,
    t: VectorN<T, N>,
)
    requires
        commutes(plus),
        deterministic(plus),
        s@.len() == N,
        t@.len() == N,
        forall|i: int| 0 <= i < N ==> #[trigger] plus.ensures((a@[i], b@[i]), s@[i]),
        forall|i: int| 0 <= i < N ==> #[trigger] plus.ensures((b@[i], a@[i]), t@[i]),
    ensures
        s@ == t@,
{
    assert forall|i: int| 0 <= i < N implies s@[i] == t@[i] by {
        assert(plus.ensures((a@[i], b@[i]), s@[i]));
        assert(plus.ensures((b@[i], a@[i]), t@[i]));
        assert(plus.ensures((a@[i], b@[i]), t@[i]));
    }
    assert(s@ =~= t@);
}

/// Vector addition is associative when the scalar addition is:
/// `(a + b) + c` and `a + (b + c)` hold the same entries.
pub proof fn law_vector_add_associative<T: Copy, const N: usize, A: Fn(T, T) -> T>(
    a: VectorN<T, N>,
    b: VectorN<T, N>,
    c: VectorN<T, N>,
    plus: A,
    ab: VectorN<T, N>,
    ab_c: VectorN<T, N>,
    bc: VectorN<T, N>,
    a_bc: VectorN<T, N>,
)
    requires
        associates(plus),
        deterministic(plus),
        ab@.len() == N,
        ab_c@.len() == N,
        bc@.len() == N,
        a_bc@.len() == N,
        forall|i: int| 0 <= i < N ==> #[trigger] plus.ensures((a@[i], b@[i]), ab@[i]),
        forall|i: int| 0 <= i < N ==> #[trigger] plus.ensures((ab@[i], c@[i]), ab_c@[i]),
        forall|i: int| 0 <= i < N ==> #[trigger] plus.ensures((b@[i], c@[i]), bc@[i]),
        forall|i: int| 0 <= i < N ==> #[trigger] plus.ensures((a@[i], bc@[i]), a_bc@[i]),
    ensures
        ab_c@ == a_bc@,
{
    assert forall|i: int| 0 <= i < N implies ab_c@[i] == a_bc@[i] by {
        assert(plus.ensures((a@[i], b@[i]), ab@[i]));
        assert(plus.ensures((ab@[i], c@[i]), ab_c@[i]));
        assert(plus.ensures((b@[i], c@[i]), bc@[i]));
        assert(plus.ensures((a@[i], bc@[i]), a_bc@[i]));
        assert(plus.ensures((a@[i], bc@[i]), ab_c@[i]));
    }
    assert(ab_c@ =~= a_bc@);
}

/// The facts about the scalar operations under which the identity matrix
/// is a unit of multiplication: `one * x == x`, `zero * x == zero`,
/// `zero + x == x` and `x + zero == x`.
pub open spec fn unit_laws<T, M: Fn(T, T) -> T, A: Fn(T, T) -> T>(
    times: M,
    plus: A,
    zero: T,
    one: T,
) -> bool {
    &&& left_unit(times, one)
    &&& left_absorbs(times, zero)
    &&& left_unit(plus, zero)
    &&& right_unit(plus, zero)
}

/// `a` is the unit vector with `one` at position `y` and `zero` elsewhere.
pub open spec fn is_unit_vector<T>(a: Seq<T>, y: int, zero: T, one: T) -> bool {
    &&& 0 <= y < a.len()
    &&& forall|j: int|
        0 <= j < a.len() ==> #[trigger] a[j] == if j == y {
            one
        } else {
            zero
        }
}

/// Along the fold of a unit vector with `b`, the running sum is `zero` up
/// to the unit position and `b[y]` after it.
proof fn lemma_unit_prefix<T, M: Fn(T, T) -> T, A: Fn(T, T) -> T>(
    times: M,
    plus: A,
    zero: T,
    one: T,
    a: Seq<T>,
    b: Seq<T>,
    y: int,
    n: int,
    prods: Seq<T>,
    acc: Seq<T>,
    k: int,
)
    requires
        unit_laws(times, plus, zero, one),
        is_unit_vector(a, y, zero, one),
        fold_trace(times, plus, zero, a, b, n, prods, acc),
        0 <= k <= n,
    ensures
        acc[k] == if k > y {
            b[y]
        } else {
            zero
        },
    decreases k,
{
    if k > 0 {
        let j = k - 1;
        lemma_unit_prefix(times, plus, zero, one, a, b, y, n, prods, acc, j);
        assert(times.ensures((a[j], b[j]), prods[j]));
        assert(plus.ensures((acc[j], prods[j]), acc[j + 1]));
    }
}

/// The dot product of the unit vector at `y` with `b` is `b[y]`.
pub proof fn lemma_unit_dot<T, M: Fn(T, T) -> T, A: Fn(T, T) -> T>(
    times: M,
    plus: A,
    zero: T,
    one: T,
    a: Seq<T>,
    b: Seq<T>,
    y: int,
    r: T,
)
    requires
        unit_laws(times, plus, zero, one),
        is_unit_vector(a, y, zero, one),
        is_dot(times, plus, zero, a, b, r),
    ensures
        r == b[y],
{
    let (prods, acc) = choose|prods: Seq<T>, acc: Seq<T>|
        #[trigger] fold_trace(times, plus, zero, a, b, a.len() as int, prods, acc) && acc[a.len()
            as int] == r;
    lemma_unit_prefix(times, plus, zero, one, a, b, y, a.len() as int, prods, acc, a.len() as int);
}

/// Multiplying by the identity matrix on the left gives back the other
/// factor: `identity(N) * m == m`.
pub proof fn law_identity_multiply<
    T: Copy,
    const N: usize,
    const K: usize,
    M: Fn(T, T) -> T,
    A: Fn(T, T) -> T,
>(id: Matrix<T, N, N>, m: Matrix<T, N, K>, p: Matrix<T, N, K>, zero: T, one: T, times: M, plus: A)
    requires
        unit_laws(times, plus, zero, one),
        id.wf(),
        m.wf(),
        p.wf(),
        forall|i: int, j: int|
            0 <= i < N && 0 <= j < N ==> #[trigger] id.entry(i, j) == if i == j {
                one
            } else {
                zero
            },
        forall|y: int, x: int|
            0 <= y < N && 0 <= x < K ==> #[trigger] is_dot(
                times,
                plus,
                zero,
                id.row(y),
                m.column(x),
                p.entry(y, x),
            ),
    ensures
        p@ == m@,
{
    assert forall|k: int| 0 <= k < N * K implies p@[k] == m@[k] by {
        let y = k / (K as int);
        let x = k % (K as int);
        lemma_fundamental_div_mod(k, K as int);
        assert(0 <= y < N) by (nonlinear_arith)
            requires
                k == K * y + x,
                0 <= x < K,
                0 <= k < N * K,
        ;
        assert(y * K == K * y) by (nonlinear_arith);
        lemma_index_in_grid(y, x, N as int, K as int);
        assert(is_unit_vector(id.row(y), y, zero, one));
        assert(is_dot(times, plus, zero, id.row(y), m.column(x), p.entry(y, x)));
        lemma_unit_dot(times, plus, zero, one, id.row(y), m.column(x), y, p.entry(y, x));
    }
    assert(p@ =~= m@);
}

/// Transforming a vector by the identity matrix gives it back unchanged.
pub proof fn law_identity_transform<T: Copy, const N: usize, M: Fn(T, T) -> T, A: Fn(T, T) -> T>(
    id: Matrix<T, N, N>,
    v: VectorN<T, N>,
    w: VectorN<T, N>,
    zero: T,
    one: T,
    times: M,
    plus: A,
)
    requires
        unit_laws(times, plus, zero, one),
        id.wf(),
        forall|i: int, j: int|
            0 <= i < N && 0 <= j < N ==> #[trigger] id.entry(i, j) == if i == j {
                one
            } else {
                zero
            },
        w@.len() == N,
        forall|i: int| 0 <= i < N ==> #[trigger] is_dot(times, plus, zero, id.row(i), v@, w@[i]),
    ensures
        w@ == v@,
{
    v.lemma_len();
    assert forall|i: int| 0 <= i < N implies w@[i] == v@[i] by {
        assert(is_unit_vector(id.row(i), i, zero, one));
        assert(is_dot(times, plus, zero, id.row(i), v@, w@[i]));
        lemma_unit_dot(times, plus, zero, one, id.row(i), v@, i, w@[i]);
    }
    assert(w@ =~= v@);
}

/// Entry `(i, l)` of `(a * b) * c` and of `a * (b * c)` agree.
proof fn lemma_assoc_entry<
    T: Copy,
    const R: usize,
    const C: usize,
    const K: usize,
    const L: usize,
    M: Fn(T, T) -> T,
    A: Fn(T, T) -> T,
>(
    a: Matrix<T, R, C>,
    b: Matrix<T, C, K>,
    c: Matrix<T, K, L>,
    ab: Matrix<T, R, K>,
    ab_c: Matrix<T, R, L>,
    bc: Matrix<T, C, L>,
    a_bc: Matrix<T, R, L>,
    zero: T,
    times: M,
    plus: A,
    i: int,
    l: int,
)
    requires
        semiring(times, plus, zero),
        0 <= i < R,
        0 <= l < L,
        forall|y: int, x: int|
            0 <= y < R && 0 <= x < K ==> #[trigger] is_dot(
                times,
                plus,
                zero,
                a.row(y),
                b.column(x),
                ab.entry(y, x),
            ),
        forall|y: int, x: int|
            0 <= y < R && 0 <= x < L ==> #[trigger] is_dot(
                times,
                plus,
                zero,
                ab.row(y),
                c.column(x),
                ab_c.entry(y, x),
            ),
        forall|y: int, x: int|
            0 <= y < C && 0 <= x < L ==> #[trigger] is_dot(
                times,
                plus,
                zero,
                b.row(y),
                c.column(x),
                bc.entry(y, x),
            ),
        forall|y: int, x: int|
            0 <= y < R && 0 <= x < L ==> #[trigger] is_dot(
                times,
                plus,
                zero,
                a.row(y),
                bc.column(x),
                a_bc.entry(y, x),
            ),
    ensures
        ab_c.entry(i, l) == a_bc.entry(i, l),
{
    let h = |j: int, k: int| apply(times, apply(times, a.entry(i, j), b.entry(j, k)), c.entry(k, l));
    // (a * b) * c, entry (i, l), as a sum over k of sums over j
    assert(is_dot(times, plus, zero, ab.row(i), c.column(l), ab_c.entry(i, l)));
    lemma_dot_is_sum(times, plus, zero, ab.row(i), c.column(l), ab_c.entry(i, l));
    assert forall|k: int| 0 <= k < K implies #[trigger] apply(
        times,
        ab.row(i)[k],
        c.column(l)[k],
    ) == sum_of(plus, zero, |j: int| h(j, k), C as int) by {
        assert(is_dot(times, plus, zero, a.row(i), b.column(k), ab.entry(i, k)));
        lemma_dot_is_sum(times, plus, zero, a.row(i), b.column(k), ab.entry(i, k));
        lemma_sum_ext(
            plus,
            zero,
            |j: int| apply(times, a.row(i)[j], b.column(k)[j]),
            |j: int| apply(times, a.entry(i, j), b.entry(j, k)),
            C as int,
        );
        lemma_sum_times_right(
            times,
            plus,
            zero,
            |j: int| apply(times, a.entry(i, j), b.entry(j, k)),
            c.entry(k, l),
            C as int,
        );
        lemma_sum_ext(
            plus,
            zero,
            |j: int| apply(times, (|j: int| apply(times, a.entry(i, j), b.entry(j, k)))(j), c.entry(k, l)),
            |j: int| h(j, k),
            C as int,
        );
    }
    lemma_sum_ext(
        plus,
        zero,
        |k: int| apply(times, ab.row(i)[k], c.column(l)[k]),
        |k: int| sum_of(plus, zero, |j: int| h(j, k), C as int),
        K as int,
    );
    lemma_sum_swap(times, plus, zero, h, C as int, K as int);
    // a * (b * c), entry (i, l), as a sum over j of sums over k
    assert(is_dot(times, plus, zero, a.row(i), bc.column(l), a_bc.entry(i, l)));
    lemma_dot_is_sum(times, plus, zero, a.row(i), bc.column(l), a_bc.entry(i, l));
    assert forall|j: int| 0 <= j < C implies #[trigger] apply(
        times,
        a.row(i)[j],
        bc.column(l)[j],
    ) == sum_of(plus, zero, |k: int| h(j, k), K as int) by {
        assert(is_dot(times, plus, zero, b.row(j), c.column(l), bc.entry(j, l)));
        lemma_dot_is_sum(times, plus, zero, b.row(j), c.column(l), bc.entry(j, l));
        lemma_sum_ext(
            plus,
            zero,
            |k: int| apply(times, b.row(j)[k], c.column(l)[k]),
            |k: int| apply(times, b.entry(j, k), c.entry(k, l)),
            K as int,
        );
        lemma_sum_times_left(
            times,
            plus,
            zero,
            a.entry(i, j),
            |k: int| apply(times, b.entry(j, k), c.entry(k, l)),
            K as int,
        );
        assert forall|k: int| 0 <= k < K implies #[trigger] h(j, k) == apply(
            times,
            a.entry(i, j),
            (|k: int| apply(times, b.entry(j, k), c.entry(k, l)))(k),
        ) by {
            lemma_times_assoc(times, plus, zero, a.entry(i, j), b.entry(j, k), c.entry(k, l));
        }
        lemma_sum_ext(
            plus,
            zero,
            |k: int|
                apply(
                    times,
                    a.entry(i, j),
                    (|k: int| apply(times, b.entry(j, k), c.entry(k, l)))(k),
                ),
            |k: int| h(j, k),
            K as int,
        );
    }
    lemma_sum_ext(
        plus,
        zero,
        |j: int| apply(times, a.row(i)[j], bc.column(l)[j]),
        |j: int| sum_of(plus, zero, |k: int| h(j, k), K as int),
        C as int,
    );
}

/// Matrix multiplication is associative when the scalar operations form a
/// semiring: `(a * b) * c == a * (b * c)`.
pub proof fn law_multiply_associative<
    T: Copy,
    const R: usize,
    const C: usize,
    const K: usize,
    const L: usize,
    M: Fn(T, T) -> T,
    A: Fn(T, T) -> T,
>(
    a: Matrix<T, R, C>,
    b: Matrix<T, C, K>,
    c: Matrix<T, K, L>,
    ab: Matrix<T, R, K>,
    ab_c: Matrix<T, R, L>,
    bc: Matrix<T, C, L>,
    a_bc: Matrix<T, R, L>,
    zero: T,
    times: M,
    plus: A,
)
    requires
        semiring(times, plus, zero),
        ab_c.wf(),
        a_bc.wf(),
        forall|y: int, x: int|
            0 <= y < R && 0 <= x < K ==> #[trigger] is_dot(
                times,
                plus,
                zero,
                a.row(y),
                b.column(x),
                ab.entry(y, x),
            ),
        forall|y: int, x: int|
            0 <= y < R && 0 <= x < L ==> #[trigger] is_dot(
                times,
                plus,
                zero,
                ab.row(y),
                c.column(x),
                ab_c.entry(y, x),
            ),
        forall|y: int, x: int|
            0 <= y < C && 0 <= x < L ==> #[trigger] is_dot(
                times,
                plus,
                zero,
                b.row(y),
                c.column(x),
                bc.entry(y, x),
            ),
        forall|y: int, x: int|
            0 <= y < R && 0 <= x < L ==> #[trigger] is_dot(
                times,
                plus,
                zero,
                a.row(y),
                bc.column(x),
                a_bc.entry(y, x),
            ),
    ensures
        ab_c@ == a_bc@,
{
    assert forall|q: int| 0 <= q < R * L implies ab_c@[q] == a_bc@[q] by {
        let y = q / (L as int);
        let x = q % (L as int);
        lemma_fundamental_div_mod(q, L as int);
        assert(0 <= y < R) by (nonlinear_arith)
            requires
                q == L * y + x,
                0 <= x < L,
                0 <= q < R * L,
        ;
        assert(y * L == L * y) by (nonlinear_arith);
        lemma_assoc_entry(a, b, c, ab, ab_c, bc, a_bc, zero, times, plus, y, x);
    }
    assert(ab_c@ =~= a_bc@);
}

/// Entry `(y, x)` of a product of 2 x 2 matrices is
/// `m[y][0] * n[0][x] + m[y][1] * n[1][x]`.
proof fn lemma_product_entry_2x2<T: Copy, M: Fn(T, T) -> T, A: Fn(T, T) -> T>(
    m: Matrix<T, 2, 2>,
    n: Matrix<T, 2, 2>,
    r: T,
    zero: T,
    times: M,
    plus: A,
    y: int,
    x: int,
)
    requires
        semiring(times, plus, zero),
        0 <= y < 2,
        0 <= x < 2,
        is_dot(times, plus, zero, m.row(y), n.column(x), r),
    ensures
        r == apply(
            plus,
            apply(times, m.entry(y, 0), n.entry(0, x)),
            apply(times, m.entry(y, 1), n.entry(1, x)),
        ),
{
    lemma_dot_is_sum(times, plus, zero, m.row(y), n.column(x), r);
    let f = |j: int| apply(times, m.row(y)[j], n.column(x)[j]);
    let t0 = apply(times, m.entry(y, 0), n.entry(0, x));
    assert(sum_of(plus, zero, f, 0) == zero);
    assert(f(0) == t0);
    assert(sum_of(plus, zero, f, 1) == apply(plus, zero, t0));
    assert(sum_of(plus, zero, f, 2) == apply(plus, sum_of(plus, zero, f, 1), f(1)));
    lemma_plus_comm(times, plus, zero, zero, t0);
    lemma_plus_zero(times, plus, zero, t0);
}

/// A 2 x 2 matrix with a nonzero determinant times its inverse is the
/// identity matrix, when the scalar operations form a commutative ring in
/// which every nonzero element has a reciprocal.
pub proof fn law_inverse_2x2<
    T: Copy,
    G: Fn(T) -> T,
    M: Fn(T, T) -> T,
    A: Fn(T, T) -> T,
    S: Fn(T, T) -> T,
    Q: Fn(T) -> T,
>(
    m: Matrix<T, 2, 2>,
    inv: Matrix<T, 2, 2>,
    p: Matrix<T, 2, 2>,
    zero: T,
    one: T,
    negate: G,
    times: M,
    plus: A,
    minus: S,
    recip: Q,
)
    requires
        field_laws(negate, times, plus, minus, recip, zero, one),
        m.wf(),
        p.wf(),
        forall|d: T| is_det(times, minus, m@, d) ==> d != zero,
        is_inverse(negate, times, minus, recip, m@, inv@),
        forall|y: int, x: int|
            0 <= y < 2 && 0 <= x < 2 ==> #[trigger] is_dot(
                times,
                plus,
                zero,
                m.row(y),
                inv.column(x),
                p.entry(y, x),
            ),
    ensures
        p@ == seq![one, zero, zero, one],
{
    lemma_functional(times, plus, zero);
    let (d, s, nb, nc) = choose|d: T, s: T, nb: T, nc: T|
        #[trigger] inverse_trace(negate, times, minus, recip, m@, d, s, nb, nc, inv@);
    let (pp, qq) = choose|pp: T, qq: T| #[trigger] det_trace(times, minus, m@, pp, qq, d);
    let a = m@[0];
    let b = m@[1];
    let c = m@[2];
    let e = m@[3];
    let ae = apply(times, a, e);
    let bc = apply(times, b, c);
    // the determinant and the entries of the inverse, as functions
    assert(times.ensures((a, e), ae));
    assert(times.ensures((b, c), bc));
    assert(pp == ae && qq == bc);
    assert(minus.ensures((ae, bc), apply(minus, ae, bc)));
    assert(d == apply(minus, ae, bc));
    assert(d != zero);
    assert(recip.ensures((d,), apply_unary(recip, d)));
    assert(s == apply_unary(recip, d));
    assert(negate.ensures((b,), apply_unary(negate, b)));
    assert(nb == apply_unary(negate, b));
    assert(negate.ensures((c,), apply_unary(negate, c)));
    assert(nc == apply_unary(negate, c));
    assert(times.ensures((e, s), apply(times, e, s)));
    assert(inv@[0] == apply(times, e, s));
    assert(times.ensures((nb, s), apply(times, nb, s)));
    assert(inv@[1] == apply(times, nb, s));
    assert(times.ensures((nc, s), apply(times, nc, s)));
    assert(inv@[2] == apply(times, nc, s));
    assert(times.ensures((a, s), apply(times, a, s)));
    assert(inv@[3] == apply(times, a, s));
    let one_of_det = apply(times, d, s);
    assert(one_of_det == one);
    let ab = apply(times, a, b);
    let ce = apply(times, c, e);
    // entry (0, 0): a (e s) + b (-c s) = (a e - b c) s
    assert(is_dot(times, plus, zero, m.row(0), inv.column(0), p.entry(0, 0)));
    lemma_product_entry_2x2(m, inv, p.entry(0, 0), zero, times, plus, 0, 0);
    lemma_times_assoc(times, plus, zero, a, e, s);
    lemma_times_assoc(times, plus, zero, b, nc, s);
    lemma_distrib(times, plus, zero, ae, apply(times, b, nc), s);
    lemma_times_negate(negate, times, plus, minus, recip, zero, one, b, c);
    assert(p@[0] == one);
    // entry (0, 1): a (-b s) + b (a s) = (-(a b) + a b) s
    assert(is_dot(times, plus, zero, m.row(0), inv.column(1), p.entry(0, 1)));
    lemma_product_entry_2x2(m, inv, p.entry(0, 1), zero, times, plus, 0, 1);
    lemma_times_assoc(times, plus, zero, a, nb, s);
    lemma_times_assoc(times, plus, zero, b, a, s);
    lemma_distrib(times, plus, zero, apply(times, a, nb), apply(times, b, a), s);
    lemma_times_negate(negate, times, plus, minus, recip, zero, one, a, b);
    lemma_plus_comm(times, plus, zero, apply_unary(negate, ab), ab);
    lemma_distrib(times, plus, zero, s, s, s);
    assert(p@[1] == zero);
    // entry (1, 0): c (e s) + e (-c s) = (c e - c e) s
    assert(is_dot(times, plus, zero, m.row(1), inv.column(0), p.entry(1, 0)));
    lemma_product_entry_2x2(m, inv, p.entry(1, 0), zero, times, plus, 1, 0);
    lemma_times_assoc(times, plus, zero, c, e, s);
    lemma_times_assoc(times, plus, zero, e, nc, s);
    lemma_distrib(times, plus, zero, ce, apply(times, e, nc), s);
    lemma_times_negate(negate, times, plus, minus, recip, zero, one, e, c);
    assert(p@[2] == zero);
    // entry (1, 1): c (-b s) + e (a s) = (a e - b c) s
    assert(is_dot(times, plus, zero, m.row(1), inv.column(1), p.entry(1, 1)));
    lemma_product_entry_2x2(m, inv, p.entry(1, 1), zero, times, plus, 1, 1);
    lemma_times_assoc(times, plus, zero, c, nb, s);
    lemma_times_assoc(times, plus, zero, e, a, s);
    lemma_distrib(times, plus, zero, apply(times, c, nb), apply(times, e, a), s);
    lemma_times_negate(negate, times, plus, minus, recip, zero, one, c, b);
    lemma_plus_comm(times, plus, zero, apply_unary(negate, bc), ae);
    assert(p@[3] == one);
    assert(p@ =~= seq![one, zero, zero, one]);
}

} // verus!
