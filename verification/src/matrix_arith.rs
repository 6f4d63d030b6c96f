//! Arithmetic on matrices: sums, differences, multiples and products.
//!
//! Entries are added and multiplied as `i64` values that wrap around, that
//! is modulo `2^64`. Every entry of a result is stated as the wrapped
//! value of the exact expression, see [`wrap`].

use crate::matrix::{is_square, Matrix};
use crate::wrapping::{lemma_wrap_add, lemma_wrapping_ops, wrap};
use vstd::prelude::*;
use vstd::std_specs::ops::{AddSpecImpl, MulSpecImpl, SubSpecImpl};

verus! {

/// The sum of the first `k` products `a[i][t] * b[t][j]`: with `k` the
/// size of the matrices, entry `(i, j)` of their product.
pub open spec fn dot(a: Seq<Seq<i64>>, b: Seq<Seq<i64>>, i: int, j: int, k: int) -> int
    decreases k,
{
    if k <= 0 {
        0
    } else {
        dot(a, b, i, j, k - 1) + a[i][k - 1] * b[k - 1][j]
    }
}

/// `r` is the entry-wise sum of `a` and `b`.
pub open spec fn is_sum(r: Matrix, a: Matrix, b: Matrix) -> bool {
    &&& r.side() == a.side()
    &&& forall|i: int, j: int|
        0 <= i < a.side() && 0 <= j < a.side() ==> #[trigger] r@[i][j] == wrap(
            a@[i][j] + b@[i][j],
        )
}

/// `r` is the entry-wise difference of `a` and `b`.
pub open spec fn is_difference(r: Matrix, a: Matrix, b: Matrix) -> bool {
    &&& r.side() == a.side()
    &&& forall|i: int, j: int|
        0 <= i < a.side() && 0 <= j < a.side() ==> #[trigger] r@[i][j] == wrap(
            a@[i][j] - b@[i][j],
        )
}

/// `r` is `a` with every entry multiplied by `k`.
pub open spec fn is_multiple(r: Matrix, a: Matrix, k: i64) -> bool {
    &&& r.side() == a.side()
    &&& forall|i: int, j: int|
        0 <= i < a.side() && 0 <= j < a.side() ==> #[trigger] r@[i][j] == wrap(a@[i][j] * k)
}

/// `r` is the matrix product of `a` and `b`.
pub open spec fn is_product(r: Matrix, a: Matrix, b: Matrix) -> bool {
    &&& r.side() == a.side()
    &&& forall|i: int, j: int|
        0 <= i < a.side() && 0 <= j < a.side() ==> #[trigger] r@[i][j] == wrap(
            dot(a@, b@, i, j, a.side() as int),
        )
}

/// The entry-wise sum of two matrices of the same size.
pub fn sum(a: &Matrix, b: &Matrix) -> (r: Matrix)
    requires
        a.side() == b.side(),
    ensures
        is_sum(r, *a, *b),
{
    let n = a.size();
    let mut r = Matrix::new_zeroed(n);
    let mut i: usize = 0;
    while i < n
        invariant
            i <= n,
            n == a.side(),
            n == b.side(),
            n == r.side(),
            is_square(r@, n as int),
            is_square(a@, n as int),
            forall|x: int, y: int|
                0 <= x < i && 0 <= y < n ==> #[trigger] r@[x][y] == wrap(a@[x][y] + b@[x][y]),
        decreases n - i,
    {
        let mut j: usize = 0;
        while j < n
            invariant
                i < n,
                j <= n,
                n == a.side(),
                n == b.side(),
                n == r.side(),
            is_square(r@, n as int),
            is_square(a@, n as int),
                is_square(r@, n as int),
                is_square(a@, n as int),
                forall|x: int, y: int|
                    0 <= x < n && 0 <= y < n && (x < i || (x == i && y < j)) ==> #[trigger] r@[x][y]
                        == wrap(a@[x][y] + b@[x][y]),
            decreases n - j,
        {
            proof {
                lemma_wrapping_ops(a@[i as int][j as int], b@[i as int][j as int]);
            }
            r.set(i, j, a.get(i, j).wrapping_add(b.get(i, j)));
            j += 1;
        }
        i += 1;
    }
    r
}

/// The matrix with every entry multiplied by `k`.
pub fn scaled(a: &Matrix, k: i64) -> (r: Matrix)
    ensures
        is_multiple(r, *a, k),
{
    let n = a.size();
    let mut r = Matrix::new_zeroed(n);
    let mut i: usize = 0;
    while i < n
        invariant
            i <= n,
            n == a.side(),
            n == r.side(),
            is_square(r@, n as int),
            is_square(a@, n as int),
            forall|x: int, y: int|
                0 <= x < i && 0 <= y < n ==> #[trigger] r@[x][y] == wrap(a@[x][y] * k),
        decreases n - i,
    {
        let mut j: usize = 0;
        while j < n
            invariant
                i < n,
                j <= n,
                n == a.side(),
                n == r.side(),
            is_square(r@, n as int),
            is_square(a@, n as int),
                is_square(r@, n as int),
                is_square(a@, n as int),
                forall|x: int, y: int|
                    0 <= x < n && 0 <= y < n && (x < i || (x == i && y < j)) ==> #[trigger] r@[x][y]
                        == wrap(a@[x][y] * k),
            decreases n - j,
        {
            proof {
                lemma_wrapping_ops(a@[i as int][j as int], k);
            }
            r.set(i, j, a.get(i, j).wrapping_mul(k));
            j += 1;
        }
        i += 1;
    }
    r
}

/// The entry-wise difference of two matrices of the same size: the sum
/// of the first and the second multiplied by `-1`.
pub fn difference(a: &Matrix, b: &Matrix) -> (r: Matrix)
    requires
        a.side() == b.side(),
    ensures
        is_difference(r, *a, *b),
{
    let negated = scaled(b, -1);
    let r = sum(a, &negated);
    proof {
        assert forall|i: int, j: int| 0 <= i < a.side() && 0 <= j < a.side() implies #[trigger] r@[i][j]
            == wrap(a@[i][j] - b@[i][j]) by {
            lemma_wrap_add(a@[i][j] as int, b@[i][j] * -1);
        }
    }
    r
}

/// The product of two matrices of the same size, row by column.
pub fn product(a: &Matrix, b: &Matrix) -> (r: Matrix)
    requires
        a.side() == b.side(),
    ensures
        is_product(r, *a, *b),
{
    let n = a.size();
    let mut columns = b.clone();
    columns.transpose();
    let mut r = Matrix::new_zeroed(n);
    let mut i: usize = 0;
    while i < n
        invariant
            i <= n,
            n == a.side(),
            n == b.side(),
            n == r.side(),
            is_square(r@, n as int),
            is_square(a@, n as int),
            n == columns.side(),
            is_square(columns@, n as int),
            is_square(b@, n as int),
            forall|x: int, y: int| 0 <= x < n && 0 <= y < n ==> #[trigger] columns@[x][y] == b@[y][x],
            forall|x: int, y: int|
                0 <= x < i && 0 <= y < n ==> #[trigger] r@[x][y] == wrap(
                    dot(a@, b@, x, y, n as int),
                ),
        decreases n - i,
    {
        let mut j: usize = 0;
        while j < n
            invariant
                i < n,
                j <= n,
                n == a.side(),
                n == b.side(),
                n == r.side(),
            is_square(r@, n as int),
            is_square(a@, n as int),
                is_square(r@, n as int),
                is_square(a@, n as int),
                n == columns.side(),
            is_square(columns@, n as int),
            is_square(b@, n as int),
                is_square(columns@, n as int),
                is_square(b@, n as int),
                forall|x: int, y: int|
                    0 <= x < n && 0 <= y < n ==> #[trigger] columns@[x][y] == b@[y][x],
                forall|x: int, y: int|
                    0 <= x < n && 0 <= y < n && (x < i || (x == i && y < j)) ==> #[trigger] r@[x][y]
                        == wrap(dot(a@, b@, x, y, n as int)),
            decreases n - j,
        {
            let mut acc: i64 = 0;
            let mut k: usize = 0;
            while k < n
                invariant
                    i < n,
                    j < n,
                    k <= n,
                    n == a.side(),
                    n == b.side(),
                    n == columns.side(),
                    is_square(columns@, n as int),
                    is_square(b@, n as int),
                    is_square(a@, n as int),
            is_square(columns@, n as int),
            is_square(b@, n as int),
                is_square(columns@, n as int),
                is_square(b@, n as int),
                    forall|x: int, y: int|
                        0 <= x < n && 0 <= y < n ==> #[trigger] columns@[x][y] == b@[y][x],
                    acc == wrap(dot(a@, b@, i as int, j as int, k as int)),
                decreases n - k,
            {
                let x = a.get(i, k);
                let y = columns.get(j, k);
                proof {
                    let before = dot(a@, b@, i as int, j as int, k as int);
                    lemma_wrapping_ops(x, y);
                    lemma_wrapping_ops(acc, x.wrapping_mul(y));
                    lemma_wrap_add(before, x * y);
                }
                acc = acc.wrapping_add(x.wrapping_mul(y));
                k += 1;
            }
            r.set(i, j, acc);
            j += 1;
        }
        i += 1;
    }
    r
}

/// `+` asks for matrices of the same size. Its result is specified by
/// `add` itself, entry by entry.
impl AddSpecImpl for Matrix {
    open spec fn obeys_add_spec() -> bool {
        false
    }

    /// The matrices have the same size.
    open spec fn add_req(self, rhs: Matrix) -> bool {
        self.side() == rhs.side()
    }

    open spec fn add_spec(self, rhs: Matrix) -> Matrix {
        arbitrary()
    }
}

impl core::ops::Add for Matrix {
    type Output = Matrix;

    /// The entry-wise sum.
    fn add(self, rhs: Matrix) -> (r: Matrix)
        ensures
            is_sum(r, self, rhs),
    {
        sum(&self, &rhs)
    }
}

/// `-` asks for matrices of the same size. Its result is specified by
/// `sub` itself, entry by entry.
impl SubSpecImpl for Matrix {
    open spec fn obeys_sub_spec() -> bool {
        false
    }

    /// The matrices have the same size.
    open spec fn sub_req(self, rhs: Matrix) -> bool {
        self.side() == rhs.side()
    }

    open spec fn sub_spec(self, rhs: Matrix) -> Matrix {
        arbitrary()
    }
}

impl core::ops::Sub for Matrix {
    type Output = Matrix;

    /// The entry-wise difference.
    fn sub(self, rhs: Matrix) -> (r: Matrix)
        ensures
            is_difference(r, self, rhs),
    {
        difference(&self, &rhs)
    }
}

/// `*` asks for matrices of the same size. Its result is specified by
/// `mul` itself, entry by entry.
impl MulSpecImpl for Matrix {
    open spec fn obeys_mul_spec() -> bool {
        false
    }

    /// The matrices have the same size.
    open spec fn mul_req(self, rhs: Matrix) -> bool {
        self.side() == rhs.side()
    }

    open spec fn mul_spec(self, rhs: Matrix) -> Matrix {
        arbitrary()
    }
}

impl core::ops::Mul for Matrix {
    type Output = Matrix;

    /// The matrix product.
    fn mul(self, rhs: Matrix) -> (r: Matrix)
        ensures
            is_product(r, self, rhs),
    {
        product(&self, &rhs)
    }
}

/// `*` with a number can be applied to every matrix. Its result is
/// specified by `mul` itself, entry by entry.
impl MulSpecImpl<i64> for Matrix {
    open spec fn obeys_mul_spec() -> bool {
        false
    }

    open spec fn mul_req(self, scalar: i64) -> bool {
        true
    }

    open spec fn mul_spec(self, scalar: i64) -> Matrix {
        arbitrary()
    }
}

impl core::ops::Mul<i64> for Matrix {
    type Output = Matrix;

    /// The matrix with every entry multiplied by `scalar`.
    fn mul(self, scalar: i64) -> (r: Matrix)
        ensures
            is_multiple(r, self, scalar),
    {
        scaled(&self, scalar)
    }
}

} // verus!
