//! Square matrices of 64-bit integers.
//!
//! A [`Matrix`] of size `n` keeps its `n * n` entries row by row in one
//! vector. Its view is the sequence of its rows.

use vstd::prelude::*;

verus! {

/// `rows` is a square table of side `n`: `n` rows of `n` entries each.
pub open spec fn is_square(rows: Seq<Seq<i64>>, n: int) -> bool {
    rows.len() == n && forall|i: int| 0 <= i < n ==> (#[trigger] rows[i]).len() == n
}

/// The size that `expand` grows a matrix of size `n` to, starting from
/// `m`: the first of `m`, `2m`, `4m`, ... that is not below `n`.
pub open spec fn grown(m: nat, n: nat) -> nat
    decreases
            if m < n {
                n - m
            } else {
                0
            },
{
    if m >= n || m == 0 {
        m
    } else {
        grown(2 * m, n)
    }
}

/// The size that `expand` with the given base grows a matrix of size `n`
/// to.
pub open spec fn expanded_side(n: nat, base: nat) -> nat {
    grown(smaller(n, base), n)
}

/// The smaller of two sizes.
pub open spec fn smaller(a: nat, b: nat) -> nat {
    if a <= b {
        a
    } else {
        b
    }
}

/// The entry at `(i, j)` of a table, or zero outside of it.
pub open spec fn entry_or_zero(rows: Seq<Seq<i64>>, i: int, j: int) -> i64 {
    if 0 <= i < rows.len() && 0 <= j < rows[i].len() {
        rows[i][j]
    } else {
        0
    }
}

/// Growing from `m` stops below `2n`, and at `m` itself if that is enough.
pub proof fn lemma_grown_bounds(m: nat, n: nat)
    requires
        0 < m,
        0 < n,
    ensures
        grown(m, n) >= n,
        grown(m, n) >= m,
        m <= n ==> grown(m, n) < 2 * n,
        m >= n ==> grown(m, n) == m,
    decreases
            if m < n {
                n - m
            } else {
                0
            },
{
    if m < n {
        lemma_grown_bounds(2 * m, n);
    }
}

proof fn lemma_cell(i: int, j: int, n: int)
    by (nonlinear_arith)
    requires
        0 <= i < n,
        0 <= j < n,
    ensures
        0 <= i * n + j < n * n,
        i * n + j < (i + 1) * n,
        (i + 1) * n <= n * n,
        (i + 1) * n == i * n + n,
{
}

proof fn lemma_square_monotonic(a: int, b: int)
    by (nonlinear_arith)
    requires
        0 <= a <= b,
    ensures
        a * a <= b * b,
{
}

/// A square matrix of `i64` entries.
#[derive(Debug, PartialEq, Eq)]
pub struct Matrix {
    size: usize,
    elements: Vec<i64>,
}

impl View for Matrix {
    type V = Seq<Seq<i64>>;

    /// The rows of the matrix, top to bottom.
    closed spec fn view(&self) -> Seq<Seq<i64>> {
        Seq::new(
            self.size as nat,
            |i: int| Seq::new(self.size as nat, |j: int| self.elements@[i * self.size + j]),
        )
    }
}

impl Clone for Matrix {
    /// A copy: the same size and the same entries.
    fn clone(&self) -> (r: Matrix)
        ensures
            r.side() == self.side(),
            r@ == self@,
            is_square(r@, self.side() as int),
    {
        proof {
            use_type_invariant(self);
        }
        let r = Matrix { size: self.size, elements: self.elements.clone() };
        r
    }
}

impl Matrix {
    /// The size is positive and there is an entry for every cell.
    #[verifier::type_invariant]
    spec fn wf(&self) -> bool {
        self.size > 0 && self.elements@.len() == self.size * self.size
    }

    /// The number of rows, which is the number of columns.
    pub closed spec fn side(&self) -> nat {
        self.size as nat
    }

    /// The view of a matrix is a square table of its size.
    pub proof fn lemma_view_is_square(&self)
        ensures
            is_square(self@, self.side() as int),
    {
    }

    /// A matrix of the given size with every entry zero.
    pub fn new_zeroed(size: usize) -> (r: Matrix)
        requires
            size > 0,
            size * size <= usize::MAX,
        ensures
            r.side() == size,
            is_square(r@, size as int),
            forall|i: int, j: int| 0 <= i < size && 0 <= j < size ==> #[trigger] r@[i][j] == 0,
    {
        let mut elements: Vec<i64> = Vec::new();
        let total = size * size;
        let mut k: usize = 0;
        while k < total
            invariant
                k <= total,
                elements@.len() == k,
                forall|x: int| 0 <= x < k ==> elements@[x] == 0,
            decreases total - k,
        {
            elements.push(0);
            k += 1;
        }
        let r = Matrix { size, elements };
        proof {
            assert forall|i: int, j: int| 0 <= i < size && 0 <= j < size implies #[trigger] r@[i][j]
                == 0 by {
                lemma_cell(i, j, size as int);
            }
        }
        r
    }

    /// The matrix with the given rows.
    pub fn from_rows(rows: Vec<Vec<i64>>) -> (r: Matrix)
        requires
            rows@.len() > 0,
            forall|i: int| 0 <= i < rows@.len() ==> (#[trigger] rows@[i])@.len() == rows@.len(),
        ensures
            r.side() == rows@.len(),
            is_square(r@, rows@.len() as int),
            forall|i: int, j: int|
                0 <= i < rows@.len() && 0 <= j < rows@.len() ==> #[trigger] r@[i][j]
                    == rows@[i]@[j],
    {
        let size = rows.len();
        let mut elements: Vec<i64> = Vec::new();
        let mut i: usize = 0;
        while i < size
            invariant
                i <= size,
                size == rows@.len(),
                forall|i: int| 0 <= i < rows@.len() ==> (#[trigger] rows@[i])@.len() == rows@.len(),
                elements@.len() == i * size,
                forall|a: int, b: int|
                    0 <= a < i && 0 <= b < size ==> elements@[a * size + b] == #[trigger] rows@[a]@[b],
            decreases size - i,
        {
            let row = &rows[i];
            let mut j: usize = 0;
            while j < size
                invariant
                    j <= size,
                    i < size,
                    size == rows@.len(),
                    row@.len() == size,
                    *row == rows@[i as int],
                    elements@.len() == i * size + j,
                    forall|a: int, b: int|
                        0 <= a < i && 0 <= b < size ==> elements@[a * size + b] == #[trigger] rows@[a]@[b],
                    forall|b: int| 0 <= b < j ==> elements@[i * size + b] == row@[b],
                decreases size - j,
            {
                elements.push(row[j]);
                proof {
                    assert forall|a: int, b: int| 0 <= a < i && 0 <= b < size implies elements@[a
                        * size + b] == #[trigger] rows@[a]@[b] by {
                        lemma_cell(a, b, size as int);
                        assert((a + 1) * size <= i * size) by (nonlinear_arith)
                            requires
                                a + 1 <= i,
                                size >= 0,
                        ;
                    }
                }
                j += 1;
            }
            proof {
                assert((i + 1) * size == i * size + size) by (nonlinear_arith);
            }
            i += 1;
        }
        let r = Matrix { size, elements };
        proof {
            assert forall|i: int, j: int| 0 <= i < size && 0 <= j < size implies #[trigger] r@[i][j]
                == rows@[i]@[j] by {
                lemma_cell(i, j, size as int);
            }
        }
        r
    }

    /// The number of rows, which is the number of columns.
    pub fn size(&self) -> (r: usize)
        ensures
            r == self.side(),
            r > 0,
            r * r <= usize::MAX,
            is_square(self@, r as int),
    {
        proof {
            use_type_invariant(self);
            assert(self.elements@.len() == self.elements.len());
        }
        self.size
    }

    /// The entry in row `i` and column `j`.
    pub fn get(&self, i: usize, j: usize) -> (r: i64)
        requires
            i < self.side(),
            j < self.side(),
        ensures
            r == self@[i as int][j as int],
    {
        proof {
            use_type_invariant(self);
            lemma_cell(i as int, j as int, self.size as int);
            assert(self.elements@.len() == self.elements.len());
        }
        self.elements[i * self.size + j]
    }

    /// Puts `value` in row `i` and column `j`.
    pub fn set(&mut self, i: usize, j: usize, value: i64)
        requires
            i < old(self).side(),
            j < old(self).side(),
        ensures
            final(self).side() == old(self).side(),
            is_square(final(self)@, old(self).side() as int),
            final(self)@ == old(self)@.update(i as int, old(self)@[i as int].update(j as int, value)),
    {
        proof {
            use_type_invariant(&*self);
            lemma_cell(i as int, j as int, self.size as int);
            assert(self.elements@.len() == self.elements.len());
        }
        let ghost before = *self;
        let n = self.size;
        self.elements[i * n + j] = value;
        proof {
            let want = before@.update(i as int, before@[i as int].update(j as int, value));
            assert forall|a: int| 0 <= a < n implies self@[a] =~= want[a] by {
                assert forall|b: int| 0 <= b < n implies self@[a][b] == want[a][b] by {
                    lemma_cell(a, b, n as int);
                    if a != i {
                        lemma_distinct_cells(a, b, i as int, j as int, n as int);
                    }
                }
            }
        }
    }

    /// Mirrors the matrix at its main diagonal: rows become columns.
    pub fn transpose(&mut self)
        ensures
            final(self).side() == old(self).side(),
            is_square(final(self)@, old(self).side() as int),
            forall|i: int, j: int|
                0 <= i < old(self).side() && 0 <= j < old(self).side() ==> #[trigger] final(self)@[i][j] == old(self)@[j][i],
    {
        let ghost before = self@;
        let n = self.size();
        let mut i: usize = 0;
        while i < n
            invariant
                i <= n,
                n == self.side(),
                n == old(self).side(),
                before == old(self)@,
                is_square(self@, n as int),
                forall|a: int, b: int|
                    0 <= a < n && 0 <= b < n ==> #[trigger] self@[a][b] == if a < i || b < i {
                        before[b][a]
                    } else {
                        before[a][b]
                    },
            decreases n - i,
        {
            let mut j: usize = i + 1;
            while j < n
                invariant
                    i < n,
                    i < j <= n,
                    n == self.side(),
                    is_square(self@, n as int),
                    forall|a: int, b: int|
                        0 <= a < n && 0 <= b < n ==> #[trigger] self@[a][b] == if a < i || b < i
                            || (a == i && b < j) || (b == i && a < j) {
                            before[b][a]
                        } else {
                            before[a][b]
                        },
                decreases n - j,
            {
                let upper = self.get(i, j);
                let lower = self.get(j, i);
                self.set(i, j, lower);
                self.set(j, i, upper);
                proof {
                    self.lemma_view_is_square();
                }
                j += 1;
            }
            i += 1;
        }
    }

    /// Grows the matrix to the first of the sizes `m`, `2m`, `4m`, ... that
    /// holds it, where `m` is the smaller of its size and `base`. The old
    /// entries keep their places and the new cells are zero.
    pub fn expand(&mut self, base: usize)
        requires
            base > 0,
            expanded_side(old(self).side(), base as nat) * expanded_side(
                old(self).side(),
                base as nat,
            ) <= usize::MAX,
        ensures
            final(self).side() == expanded_side(old(self).side(), base as nat),
            is_square(final(self)@, final(self).side() as int),
            forall|i: int, j: int|
                0 <= i < final(self).side() && 0 <= j < final(self).side()
                    ==> #[trigger] final(self)@[i][j] == entry_or_zero(old(self)@, i, j),
    {
        let ghost before = self@;
        let ghost target = expanded_side(self.side(), base as nat);
        let n = self.size();
        let mut m = if n < base {
            n
        } else {
            base
        };
        proof {
            lemma_grown_bounds(m as nat, n as nat);
            self.lemma_view_is_square();
        }
        while m < n
            invariant
                0 < m,
                0 < n,
                target * target <= usize::MAX,
                grown(m as nat, n as nat) == target,
            decreases
                    if m < n {
                        n - m
                    } else {
                        0
                    },
        {
            proof {
                lemma_grown_bounds((2 * m) as nat, n as nat);
                lemma_square_monotonic(1, target as int);
                lemma_square_monotonic(2 * m, target as int);
                assert(target <= target * target) by (nonlinear_arith)
                    requires
                        target >= 1,
                ;
            }
            m *= 2;
        }
        proof {
            lemma_grown_bounds(m as nat, n as nat);
        }
        let mut expanded = Matrix::new_zeroed(m);
        let mut i: usize = 0;
        while i < n
            invariant
                i <= n <= m,
                n == self.side(),
                self@ == before,
                is_square(before, n as int),
                m == expanded.side(),
                forall|a: int, b: int|
                    0 <= a < m && 0 <= b < m ==> #[trigger] expanded@[a][b] == if a < i {
                        entry_or_zero(before, a, b)
                    } else {
                        0
                    },
            decreases n - i,
        {
            let mut j: usize = 0;
            while j < n
                invariant
                    i < n <= m,
                    j <= n,
                    n == self.side(),
                    self@ == before,
                    is_square(before, n as int),
                    m == expanded.side(),
                    forall|a: int, b: int|
                        0 <= a < m && 0 <= b < m ==> #[trigger] expanded@[a][b] == if a < i || (a
                            == i && b < j) {
                            entry_or_zero(before, a, b)
                        } else {
                            0
                        },
                decreases n - j,
            {
                expanded.set(i, j, self.get(i, j));
                j += 1;
            }
            i += 1;
        }
        *self = expanded;
    }

    /// Cuts the matrix down to its upper left corner of size `new_size`.
    pub fn shrink(&mut self, new_size: usize)
        requires
            0 < new_size <= old(self).side(),
        ensures
            final(self).side() == new_size,
            is_square(final(self)@, new_size as int),
            forall|i: int, j: int|
                0 <= i < new_size && 0 <= j < new_size ==> #[trigger] final(self)@[i][j] == old(
                    self,
                )@[i][j],
    {
        let ghost before = self@;
        proof {
            use_type_invariant(&*self);
            lemma_square_monotonic(new_size as int, self.size as int);
            assert(self.elements@.len() == self.elements.len());
        }
        let mut shrank = Matrix::new_zeroed(new_size);
        let mut i: usize = 0;
        while i < new_size
            invariant
                i <= new_size <= self.side(),
                self@ == before,
                new_size == shrank.side(),
                forall|a: int, b: int|
                    0 <= a < i && 0 <= b < new_size ==> #[trigger] shrank@[a][b] == before[a][b],
            decreases new_size - i,
        {
            let mut j: usize = 0;
            while j < new_size
                invariant
                    i < new_size <= self.side(),
                    j <= new_size,
                    self@ == before,
                    new_size == shrank.side(),
                    forall|a: int, b: int|
                        0 <= a < new_size && 0 <= b < new_size && (a < i || (a == i && b < j)) ==> #[trigger] shrank@[a][b] == before[a][b],
                decreases new_size - j,
            {
                shrank.set(i, j, self.get(i, j));
                j += 1;
            }
            i += 1;
        }
        *self = shrank;
    }
}

impl vstd::std_specs::core::IndexSpecImpl<usize> for Matrix {
    /// The row exists.
    open spec fn index_req(&self, index: &usize) -> bool {
        *index < self.side()
    }
}

impl core::ops::Index<usize> for Matrix {
    type Output = [i64];

    /// The row with the given number.
    fn index(&self, row: usize) -> (r: &[i64])
        ensures
            r@ == self@[row as int],
    {
        proof {
            use_type_invariant(self);
            lemma_cell(row as int, 0, self.size as int);
            assert(self.elements@.len() == self.elements.len());
        }
        let start = row * self.size;
        let r = vstd::slice::slice_subrange(self.elements.as_slice(), start, start + self.size);
        r
    }
}

proof fn lemma_distinct_cells(a: int, b: int, i: int, j: int, n: int)
    by (nonlinear_arith)
    requires
        0 <= a < n,
        0 <= b < n,
        0 <= i < n,
        0 <= j < n,
        a != i,
    ensures
        a * n + b != i * n + j,
{
}

} // verus!
