//! Fixed-length vectors and the pairwise fold behind the dot product.

use vstd::prelude::*;

use crate::error::VectorError;

verus! {

/// The products and running sums of a pairwise fold: `prods[j]` is what
/// `times` gave for the `j`-th pair, and `acc[j + 1]` is what `plus` gave for
/// `acc[j]` and `prods[j]`, starting from `acc[0] == zero`.
pub open spec fn fold_trace<T, M: Fn(T, T) -> T, A: Fn(T, T) -> T>(
    times: M,
    plus: A,
    zero: T,
    a: Seq<T>,
    b: Seq<T>,
    n: int,
    prods: Seq<T>,
    acc: Seq<T>,
) -> bool {
    &&& 0 <= n <= a.len()
    &&& n <= b.len()
    &&& prods.len() == n
    &&& acc.len() == n + 1
    &&& acc[0] == zero
    &&& forall|j: int|
        0 <= j < n ==> #[trigger] times.ensures((a[j], b[j]), prods[j]) && plus.ensures(
            (acc[j], prods[j]),
            acc[j + 1],
        )
}

/// `r` is the dot product of `a` and `b` under the given scalar operations:
/// `plus(...plus(plus(zero, times(a[0], b[0])), times(a[1], b[1]))..., times(a[n-1], b[n-1]))`.
pub open spec fn is_dot<T, M: Fn(T, T) -> T, A: Fn(T, T) -> T>(
    times: M,
    plus: A,
    zero: T,
    a: Seq<T>,
    b: Seq<T>,
    r: T,
) -> bool {
    &&& a.len() == b.len()
    &&& exists|prods: Seq<T>, acc: Seq<T>|
        #[trigger] fold_trace(times, plus, zero, a, b, a.len() as int, prods, acc) && acc[a.len()
            as int] == r
}

/// The scalar operations can be applied to any pair of entries.
pub open spec fn total<T, F: Fn(T, T) -> T>(f: F) -> bool {
    forall|x: T, y: T| #[trigger] f.requires((x, y))
}

/// Folds `a` and `b` pairwise from `zero`, left to right: the dot product
/// under `times` and `plus`.
pub fn dot_with<T: Copy, M: Fn(T, T) -> T, A: Fn(T, T) -> T>(
    a: &[T],
    b: &[T],
    zero: T,
    times: &M,
    plus: &A,
) -> (r: T)
    requires
        a@.len() == b@.len(),
        total(*times),
        total(*plus),
    ensures
        is_dot(*times, *plus, zero, a@, b@, r),
{
    let ghost mut prods: Seq<T> = Seq::empty();
    let ghost mut acc: Seq<T> = seq![zero];
    let mut s = zero;
    let mut i: usize = 0;
    while i < a.len()
        invariant
            a@.len() == b@.len(),
            total(*times),
            total(*plus),
            i <= a@.len(),
            fold_trace(*times, *plus, zero, a@, b@, i as int, prods, acc),
            acc[i as int] == s,
        decreases a@.len() - i,
    {
        let p = times(a[i], b[i]);
        let t = plus(s, p);
        proof {
            prods = prods.push(p);
            acc = acc.push(t);
            assert(fold_trace(*times, *plus, zero, a@, b@, i + 1, prods, acc));
        }
        s = t;
        i = i + 1;
    }
    s
}

} // verus!

verus! {

/// A vector of exactly `N` entries.
#[derive(Debug, Clone, PartialEq)]
pub struct VectorN<T, const N: usize> {
    data: [T; N],
}

impl<T, const N: usize> View for VectorN<T, N> {
    type V = Seq<T>;

    /// The entries, in order.
    closed spec fn view(&self) -> Seq<T> {
        self.data@
    }
}

impl<T: Copy, const N: usize> VectorN<T, N> {
    /// The view always holds exactly `N` entries.
    pub proof fn lemma_len(&self)
        ensures
            self@.len() == N,
    {
    }

    /// Creates a vector holding the given entries.
    pub fn new(data: [T; N]) -> (r: Self)
        ensures
            r@ == data@,
    {
        VectorN { data }
    }

    /// The number of entries, `N`.
    pub fn dimensions(&self) -> (r: usize)
        ensures
            r == N,
            r == self@.len(),
    {
        N
    }

    /// What `get(i)` answers: the entry at `i` when `i` is below `N`.
    pub open spec fn lookup(&self, i: int) -> Option<T> {
        if 0 <= i < N {
            Some(self@[i])
        } else {
            None
        }
    }

    /// The entry at `i`, or `None` when `i` is not below `N`.
    pub fn get(&self, i: usize) -> (r: Option<T>)
        ensures
            r == self.lookup(i as int),
            i < N ==> r == Some(self@[i as int]),
            i >= N ==> r is None,
    {
        if i >= N {
            None
        } else {
            Some(self.data[i])
        }
    }

    /// The entries as a slice.
    pub fn data(&self) -> (r: &[T])
        ensures
            r@ == self@,
    {
        self.data.as_slice()
    }

    /// The dot product of `self` and `other` under `times` and `plus`,
    /// folded from `zero`. Fails with `InvalidDimensions` when the two
    /// dimensions differ, which two vectors of one type never do.
    pub fn dotproduct<M: Fn(T, T) -> T, A: Fn(T, T) -> T>(
        &self,
        other: &VectorN<T, N>,
        zero: T,
        times: M,
        plus: A,
    ) -> (r: Result<T, VectorError>)
        requires
            total(times),
            total(plus),
        ensures
            r is Ok,
            r matches Ok(v) && is_dot(times, plus, zero, self@, other@, v),
    {
        if self.dimensions() != other.dimensions() {
            return Err(VectorError::InvalidDimensions);
        }
        Ok(dot_with(self.data.as_slice(), other.data.as_slice(), zero, &times, &plus))
    }

    /// Scales every entry by `n` in place: entry `i` becomes `times(entry, n)`.
    pub fn mul<M: Fn(T, T) -> T>(&mut self, n: T, times: M)
        requires
            total(times),
        ensures
            final(self)@.len() == N,
            forall|i: int|
                0 <= i < N ==> #[trigger] times.ensures((old(self)@[i], n), final(self)@[i]),
    {
        let mut i: usize = 0;
        while i < N
            invariant
                total(times),
                i <= N,
                self@.len() == N,
                forall|j: int| i <= j < N ==> self@[j] == old(self)@[j],
                forall|j: int|
                    0 <= j < i ==> #[trigger] times.ensures((old(self)@[j], n), self@[j]),
            decreases N - i,
        {
            let v = times(self.data[i], n);
            self.data[i] = v;
            i = i + 1;
        }
    }

    /// A copy of `self` with every entry scaled by `n`; `self` is unchanged.
    pub fn mul_cpy<M: Fn(T, T) -> T>(&self, n: T, times: M) -> (r: Self)
        requires
            total(times),
        ensures
            r@.len() == N,
            forall|i: int| 0 <= i < N ==> #[trigger] times.ensures((self@[i], n), r@[i]),
    {
        let mut r = VectorN { data: self.data };
        r.mul(n, times);
        r
    }

    /// The entry-wise sum: entry `i` is `plus(self[i], rhs[i])`.
    pub fn add_with<A: Fn(T, T) -> T>(&self, rhs: &Self, plus: A) -> (r: Self)
        requires
            total(plus),
        ensures
            r@.len() == N,
            forall|i: int| 0 <= i < N ==> #[trigger] plus.ensures((self@[i], rhs@[i]), r@[i]),
    {
        let mut r = VectorN { data: self.data };
        r.add_assign_with(rhs, plus);
        r
    }

    /// Adds `rhs` entry-wise into `self`: entry `i` becomes `plus(self[i], rhs[i])`.
    pub fn add_assign_with<A: Fn(T, T) -> T>(&mut self, rhs: &Self, plus: A)
        requires
            total(plus),
        ensures
            final(self)@.len() == N,
            forall|i: int|
                0 <= i < N ==> #[trigger] plus.ensures((old(self)@[i], rhs@[i]), final(self)@[i]),
    {
        let mut i: usize = 0;
        while i < N
            invariant
                total(plus),
                i <= N,
                self@.len() == N,
                forall|j: int| i <= j < N ==> self@[j] == old(self)@[j],
                forall|j: int|
                    0 <= j < i ==> #[trigger] plus.ensures((old(self)@[j], rhs@[j]), self@[j]),
            decreases N - i,
        {
            let v = plus(self.data[i], rhs.data[i]);
            self.data[i] = v;
            i = i + 1;
        }
    }
}

} // verus!
