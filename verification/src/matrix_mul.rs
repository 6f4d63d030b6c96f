//! Matrix multiplication by divide and conquer.
//!
//! A matrix of even size is cut into four blocks of half the size. The
//! product of two such matrices is put together from products of their
//! blocks: eight of them in the plain recursion, seven in Strassen's
//! scheme.

use crate::matrix::{entry_or_zero, expanded_side, grown, is_square, lemma_grown_bounds, Matrix};
use crate::matrix_arith::{difference, dot, is_product, product, sum};
use crate::wrapping::{lemma_wrap_add, lemma_wrap_mul, lemma_wrap_small, lemma_wrapping_ops, wrap};
use vstd::prelude::*;

verus! {

/// `b` is the block of `m` of size `h` whose upper left corner is at row
/// `r` and column `c`.
pub open spec fn is_block(b: Seq<Seq<i64>>, m: Seq<Seq<i64>>, r: int, c: int, h: int) -> bool {
    &&& is_square(b, h)
    &&& forall|i: int, j: int| 0 <= i < h && 0 <= j < h ==> #[trigger] b[i][j] == m[r + i][c + j]
}

/// `parts` are the four blocks of `m`, which has size `2h`: upper left,
/// upper right, lower left, lower right.
pub open spec fn are_blocks(parts: Seq<Matrix>, m: Seq<Seq<i64>>, h: int) -> bool {
    &&& parts.len() == 4
    &&& forall|k: int| 0 <= k < 4 ==> (#[trigger] parts[k]).side() == h
    &&& is_block(parts[0]@, m, 0, 0, h)
    &&& is_block(parts[1]@, m, 0, h, h)
    &&& is_block(parts[2]@, m, h, 0, h)
    &&& is_block(parts[3]@, m, h, h, h)
}

/// `n` is a power of two.
pub open spec fn is_power_of_two(n: nat) -> bool
    decreases n,
{
    n == 1 || (n >= 2 && n % 2 == 0 && is_power_of_two(n / 2))
}

/// `n` is `unit`, `2 * unit`, `4 * unit`, ...: halving `n` again and
/// again arrives at `unit`.
pub open spec fn halves_to(n: nat, unit: nat) -> bool
    decreases n,
{
    n == unit || (n >= 2 && n % 2 == 0 && halves_to(n / 2, unit))
}

/// The sum of the products `a[r][t] * b[t][c]` for `t` from `lo` up to,
/// but not including, `hi`.
pub open spec fn dot_from(a: Seq<Seq<i64>>, b: Seq<Seq<i64>>, r: int, c: int, lo: int, hi: int) -> int
    decreases hi - lo,
{
    if hi <= lo {
        0
    } else {
        dot_from(a, b, r, c, lo, hi - 1) + a[r][hi - 1] * b[hi - 1][c]
    }
}

proof fn lemma_dot_is_from(a: Seq<Seq<i64>>, b: Seq<Seq<i64>>, r: int, c: int, k: int)
    ensures
        dot(a, b, r, c, k) == dot_from(a, b, r, c, 0, k),
    decreases k,
{
    if k > 0 {
        lemma_dot_is_from(a, b, r, c, k - 1);
    }
}

proof fn lemma_from_split(
    a: Seq<Seq<i64>>,
    b: Seq<Seq<i64>>,
    r: int,
    c: int,
    lo: int,
    mid: int,
    hi: int,
)
    requires
        lo <= mid <= hi,
    ensures
        dot_from(a, b, r, c, lo, hi) == dot_from(a, b, r, c, lo, mid) + dot_from(
            a,
            b,
            r,
            c,
            mid,
            hi,
        ),
    decreases hi - mid,
{
    if mid < hi {
        lemma_from_split(a, b, r, c, lo, mid, hi - 1);
    }
}

/// The row-by-column sum of two blocks is a stretch of the row-by-column
/// sum of the matrices they are cut from.
proof fn lemma_dot_of_blocks(
    p: Seq<Seq<i64>>,
    q: Seq<Seq<i64>>,
    x: Seq<Seq<i64>>,
    y: Seq<Seq<i64>>,
    pr: int,
    mid: int,
    qc: int,
    h: int,
    i: int,
    j: int,
    k: int,
)
    requires
        is_block(p, x, pr, mid, h),
        is_block(q, y, mid, qc, h),
        0 <= i < h,
        0 <= j < h,
        0 <= k <= h,
    ensures
        dot(p, q, i, j, k) == dot_from(x, y, pr + i, qc + j, mid, mid + k),
    decreases k,
{
    if k > 0 {
        lemma_dot_of_blocks(p, q, x, y, pr, mid, qc, h, i, j, k - 1);
    }
}

/// An entry of the product of two matrices of size `2h`, from the blocks:
/// with the entry in block row `pr` and block column `qc`, it is the sum
/// of left block by upper block and right block by lower block.
proof fn lemma_block_product(
    x: Seq<Seq<i64>>,
    y: Seq<Seq<i64>>,
    left: Seq<Seq<i64>>,
    right: Seq<Seq<i64>>,
    upper: Seq<Seq<i64>>,
    lower: Seq<Seq<i64>>,
    pr: int,
    qc: int,
    h: int,
    i: int,
    j: int,
)
    requires
        is_block(left, x, pr, 0, h),
        is_block(right, x, pr, h, h),
        is_block(upper, y, 0, qc, h),
        is_block(lower, y, h, qc, h),
        0 <= i < h,
        0 <= j < h,
    ensures
        dot(x, y, pr + i, qc + j, 2 * h) == dot(left, upper, i, j, h) + dot(right, lower, i, j, h),
{
    lemma_dot_is_from(x, y, pr + i, qc + j, 2 * h);
    lemma_from_split(x, y, pr + i, qc + j, 0, h, 2 * h);
    lemma_dot_of_blocks(left, upper, x, y, pr, 0, qc, h, i, j, h);
    lemma_dot_of_blocks(right, lower, x, y, pr, h, qc, h, i, j, h);
}

/// Zero rows and columns added to two matrices add nothing to their
/// product, and the product's new rows and columns are zero.
proof fn lemma_dot_padded(
    x: Seq<Seq<i64>>,
    y: Seq<Seq<i64>>,
    px: Seq<Seq<i64>>,
    py: Seq<Seq<i64>>,
    n: int,
    m: int,
    i: int,
    j: int,
    k: int,
)
    requires
        is_square(x, n),
        is_square(y, n),
        is_square(px, m),
        is_square(py, m),
        0 < n <= m,
        forall|a: int, b: int| 0 <= a < m && 0 <= b < m ==> #[trigger] px[a][b] == entry_or_zero(x, a, b),
        forall|a: int, b: int| 0 <= a < m && 0 <= b < m ==> #[trigger] py[a][b] == entry_or_zero(y, a, b),
        0 <= i < m,
        0 <= j < m,
        0 <= k <= m,
    ensures
        dot(px, py, i, j, k) == if i < n && j < n {
            dot(x, y, i, j, if k < n {
                k
            } else {
                n
            })
        } else {
            0
        },
    decreases k,
{
    if k > 0 {
        lemma_dot_padded(x, y, px, py, n, m, i, j, k - 1);
    }
}

/// Doubling from a power of two stays among the powers of two.
proof fn lemma_grown_power_of_two(m: nat, n: nat)
    requires
        0 < m,
        is_power_of_two(m),
    ensures
        is_power_of_two(grown(m, n)),
    decreases
            if m < n {
                n - m
            } else {
                0
            },
{
    if m < n {
        assert(is_power_of_two(2 * m));
        lemma_grown_power_of_two(2 * m, n);
    }
}

/// Doubling from `unit` arrives at sizes that halve back to `unit`.
proof fn lemma_grown_halves(m: nat, n: nat, unit: nat)
    requires
        0 < m,
        halves_to(m, unit),
    ensures
        halves_to(grown(m, n), unit),
    decreases
            if m < n {
                n - m
            } else {
                0
            },
{
    if m < n {
        assert(halves_to(2 * m, unit));
        lemma_grown_halves(2 * m, n, unit);
    }
}

/// Of two powers of two, the smaller doubled does not exceed the larger.
proof fn lemma_powers_apart(a: nat, b: nat)
    requires
        is_power_of_two(a),
        is_power_of_two(b),
        a < b,
    ensures
        2 * a <= b,
    decreases a,
{
    if a != 1 {
        lemma_powers_apart(a / 2, b / 2);
    }
}

/// Doubling from one power of two up to another arrives at it exactly.
proof fn lemma_grown_to_power(m: nat, n: nat)
    requires
        0 < m <= n,
        is_power_of_two(m),
        is_power_of_two(n),
    ensures
        grown(m, n) == n,
    decreases n - m,
{
    if m < n {
        lemma_powers_apart(m, n);
        assert(is_power_of_two(2 * m));
        lemma_grown_to_power(2 * m, n);
    }
}

/// The block of `m` of size `h` at row `r` and column `c`.
fn block(m: &Matrix, r: usize, c: usize, h: usize) -> (b: Matrix)
    requires
        0 < h,
        r + h <= m.side(),
        c + h <= m.side(),
    ensures
        b.side() == h,
        is_block(b@, m@, r as int, c as int, h as int),
{
    let n = m.size();
    proof {
        assert(h * h <= n * n) by (nonlinear_arith)
            requires
                0 <= h <= n,
        ;
    }
    let mut b = Matrix::new_zeroed(h);
    let mut i: usize = 0;
    while i < h
        invariant
            i <= h,
            n == m.side(),
            r + h <= n,
            c + h <= n,
            h == b.side(),
            is_square(b@, h as int),
            is_square(m@, n as int),
            forall|x: int, y: int|
                0 <= x < i && 0 <= y < h ==> #[trigger] b@[x][y] == m@[r + x][c + y],
        decreases h - i,
    {
        let mut j: usize = 0;
        while j < h
            invariant
                i < h,
                j <= h,
                n == m.side(),
                r + h <= n,
                c + h <= n,
                h == b.side(),
                is_square(b@, h as int),
                is_square(m@, n as int),
                forall|x: int, y: int|
                    0 <= x < h && 0 <= y < h && (x < i || (x == i && y < j)) ==> #[trigger] b@[x][y]
                        == m@[r + x][c + y],
            decreases h - j,
        {
            b.set(i, j, m.get(r + i, c + j));
            j += 1;
        }
        i += 1;
    }
    b
}

/// Copies `b` into `target` with its upper left corner at row `r` and
/// column `c`.
fn place(target: &mut Matrix, b: &Matrix, r: usize, c: usize)
    requires
        r + b.side() <= old(target).side(),
        c + b.side() <= old(target).side(),
    ensures
        final(target).side() == old(target).side(),
        is_square(final(target)@, old(target).side() as int),
        forall|x: int, y: int|
            0 <= x < old(target).side() && 0 <= y < old(target).side()
                ==> #[trigger] final(target)@[x][y] == if r <= x < r + b.side() && c <= y < c + b.side() {
                b@[x - r][y - c]
            } else {
                old(target)@[x][y]
            },
{
    let h = b.size();
    let n = target.size();
    let ghost before = target@;
    let mut i: usize = 0;
    while i < h
        invariant
            i <= h,
            h == b.side(),
            n == target.side(),
            n == old(target).side(),
            r + h <= n,
            c + h <= n,
            is_square(b@, h as int),
            is_square(target@, n as int),
            is_square(before, n as int),
            forall|x: int, y: int|
                0 <= x < n && 0 <= y < n ==> #[trigger] target@[x][y] == if r <= x < r + i && c <= y
                    < c + h {
                    b@[x - r][y - c]
                } else {
                    before[x][y]
                },
        decreases h - i,
    {
        let mut j: usize = 0;
        while j < h
            invariant
                i < h,
                j <= h,
                h == b.side(),
                n == target.side(),
                r + h <= n,
                c + h <= n,
                is_square(b@, h as int),
                is_square(target@, n as int),
                is_square(before, n as int),
                forall|x: int, y: int|
                    0 <= x < n && 0 <= y < n ==> #[trigger] target@[x][y] == if (r <= x < r + i && c
                        <= y < c + h) || (x == r + i && c <= y < c + j) {
                        b@[x - r][y - c]
                    } else {
                        before[x][y]
                    },
            decreases h - j,
        {
            target.set(r + i, c + j, b.get(i, j));
            j += 1;
        }
        i += 1;
    }
}

impl Matrix {
    /// Cuts a matrix of even size into its four blocks of half the size:
    /// upper left, upper right, lower left, lower right.
    pub fn submatrices(self) -> (parts: [Matrix; 4])
        requires
            self.side() % 2 == 0,
        ensures
            are_blocks(parts@, self@, self.side() as int / 2),
    {
        let h = self.size() / 2;
        let upper_left = block(&self, 0, 0, h);
        let upper_right = block(&self, 0, h, h);
        let lower_left = block(&self, h, 0, h);
        let lower_right = block(&self, h, h, h);
        [upper_left, upper_right, lower_left, lower_right]
    }

    /// Puts four blocks of one size together to a matrix of twice the
    /// size: upper left, upper right, lower left, lower right.
    pub fn from_blocks(blocks: [Matrix; 4]) -> (r: Matrix)
        requires
            forall|k: int| 0 <= k < 4 ==> (#[trigger] blocks@[k]).side() == blocks@[0].side(),
            4 * blocks@[0].side() * blocks@[0].side() <= usize::MAX,
        ensures
            r.side() == 2 * blocks@[0].side(),
            are_blocks(blocks@, r@, blocks@[0].side() as int),
    {
        let h = blocks[0].size();
        proof {
            assert((2 * h) * (2 * h) == 4 * h * h) by (nonlinear_arith);
            assert(2 * h <= 4 * h * h) by (nonlinear_arith)
                requires
                    h >= 1,
            ;
        }
        let mut r = Matrix::new_zeroed(2 * h);
        place(&mut r, &blocks[0], 0, 0);
        place(&mut r, &blocks[1], 0, h);
        place(&mut r, &blocks[2], h, 0);
        place(&mut r, &blocks[3], h, h);
        proof {
            blocks@[0].lemma_view_is_square();
            blocks@[1].lemma_view_is_square();
            blocks@[2].lemma_view_is_square();
            blocks@[3].lemma_view_is_square();
        }
        r
    }
}

/// `r` is the product of `x` and `y` after both were grown, by zero rows
/// and columns, to the next power of two: the product in the upper left
/// corner and zeros around it.
pub open spec fn is_padded_product(r: Matrix, x: Matrix, y: Matrix) -> bool {
    &&& r.side() == expanded_side(x.side(), 1)
    &&& forall|i: int, j: int|
        0 <= i < r.side() && 0 <= j < r.side() ==> #[trigger] r@[i][j] == if i < x.side() && j
            < x.side() {
            wrap(dot(x@, y@, i, j, x.side() as int))
        } else {
            0
        }
}

/// `p` holds, entry by entry, the wrapped row-by-column sums of `s` and
/// `t`.
spec fn holds_product(p: Seq<Seq<i64>>, s: Seq<Seq<i64>>, t: Seq<Seq<i64>>, h: int) -> bool {
    forall|i: int, j: int| 0 <= i < h && 0 <= j < h ==> #[trigger] p[i][j] == wrap(dot(s, t, i, j, h))
}

/// `s` is, entry by entry, `u * a + v * b` wrapped.
spec fn is_combination(
    s: Seq<Seq<i64>>,
    a: Seq<Seq<i64>>,
    b: Seq<Seq<i64>>,
    u: int,
    v: int,
    h: int,
) -> bool {
    forall|i: int, j: int|
        0 <= i < h && 0 <= j < h ==> #[trigger] s[i][j] == wrap(u * a[i][j] + v * b[i][j])
}

/// The four row-by-column sums of `a` or `a2` with `b` or `b2`, weighted
/// by the products of `u` or `v` with `w` or `z`.
spec fn weighted(
    a: Seq<Seq<i64>>,
    a2: Seq<Seq<i64>>,
    b: Seq<Seq<i64>>,
    b2: Seq<Seq<i64>>,
    u: int,
    v: int,
    w: int,
    z: int,
    i: int,
    j: int,
    k: int,
) -> int {
    (u * w) * dot(a, b, i, j, k) + (u * z) * dot(a, b2, i, j, k) + (v * w) * dot(a2, b, i, j, k) + (
    v * z) * dot(a2, b2, i, j, k)
}

/// `p` holds, entry by entry, the wrapped weighted sums.
spec fn holds_weighted(
    p: Seq<Seq<i64>>,
    a: Seq<Seq<i64>>,
    a2: Seq<Seq<i64>>,
    b: Seq<Seq<i64>>,
    b2: Seq<Seq<i64>>,
    u: int,
    v: int,
    w: int,
    z: int,
    h: int,
) -> bool {
    forall|i: int, j: int|
        0 <= i < h && 0 <= j < h ==> #[trigger] p[i][j] == wrap(
            weighted(a, a2, b, b2, u, v, w, z, i, j, h),
        )
}

/// `p` holds the entries of the product of `x` and `y`, both of size
/// `2h`, in the block at row `pr` and column `qc`.
spec fn holds_block(
    p: Seq<Seq<i64>>,
    x: Seq<Seq<i64>>,
    y: Seq<Seq<i64>>,
    pr: int,
    qc: int,
    h: int,
) -> bool {
    forall|i: int, j: int|
        0 <= i < h && 0 <= j < h ==> #[trigger] p[i][j] == wrap(dot(x, y, pr + i, qc + j, 2 * h))
}

/// `s` is the entry-wise wrapped sum of `p` and `q`.
spec fn sum_of(s: Seq<Seq<i64>>, p: Seq<Seq<i64>>, q: Seq<Seq<i64>>, h: int) -> bool {
    forall|i: int, j: int| 0 <= i < h && 0 <= j < h ==> #[trigger] s[i][j] == wrap(p[i][j] + q[i][j])
}

/// `s` is the entry-wise wrapped difference of `p` and `q`.
spec fn difference_of(s: Seq<Seq<i64>>, p: Seq<Seq<i64>>, q: Seq<Seq<i64>>, h: int) -> bool {
    forall|i: int, j: int| 0 <= i < h && 0 <= j < h ==> #[trigger] s[i][j] == wrap(p[i][j] - q[i][j])
}

proof fn lemma_expand_product(x: int, y: int, p: int, q: int)
    by (nonlinear_arith)
    ensures
        (x + y) * (p + q) == x * p + x * q + y * p + y * q,
{
}

proof fn lemma_regroup(u: int, a: int, w: int, b: int)
    by (nonlinear_arith)
    ensures
        (u * a) * (w * b) == (u * w) * (a * b),
{
}

proof fn lemma_distribute(c: int, d: int, t: int)
    by (nonlinear_arith)
    ensures
        c * (d + t) == c * d + c * t,
{
}

/// One more term in each of the four row-by-column sums.
proof fn lemma_weighted_step(
    a: Seq<Seq<i64>>,
    a2: Seq<Seq<i64>>,
    b: Seq<Seq<i64>>,
    b2: Seq<Seq<i64>>,
    u: int,
    v: int,
    w: int,
    z: int,
    i: int,
    j: int,
    k: int,
)
    requires
        k > 0,
    ensures
        weighted(a, a2, b, b2, u, v, w, z, i, j, k) == weighted(
            a,
            a2,
            b,
            b2,
            u,
            v,
            w,
            z,
            i,
            j,
            k - 1,
        ) + (u * a[i][k - 1] + v * a2[i][k - 1]) * (w * b[k - 1][j] + z * b2[k - 1][j]),
{
    let (x, y) = (a[i][k - 1] as int, a2[i][k - 1] as int);
    let (p, q) = (b[k - 1][j] as int, b2[k - 1][j] as int);
    lemma_expand_product(u * x, v * y, w * p, z * q);
    lemma_regroup(u, x, w, p);
    lemma_regroup(u, x, z, q);
    lemma_regroup(v, y, w, p);
    lemma_regroup(v, y, z, q);
    lemma_distribute(u * w, dot(a, b, i, j, k - 1), x * p);
    lemma_distribute(u * z, dot(a, b2, i, j, k - 1), x * q);
    lemma_distribute(v * w, dot(a2, b, i, j, k - 1), y * p);
    lemma_distribute(v * z, dot(a2, b2, i, j, k - 1), y * q);
}

/// The row-by-column sum of two combinations is the weighted sum of the
/// four row-by-column sums of their parts.
proof fn lemma_dot_combination(
    s: Seq<Seq<i64>>,
    t: Seq<Seq<i64>>,
    a: Seq<Seq<i64>>,
    a2: Seq<Seq<i64>>,
    b: Seq<Seq<i64>>,
    b2: Seq<Seq<i64>>,
    u: int,
    v: int,
    w: int,
    z: int,
    h: int,
    i: int,
    j: int,
    k: int,
)
    requires
        is_combination(s, a, a2, u, v, h),
        is_combination(t, b, b2, w, z, h),
        0 <= i < h,
        0 <= j < h,
        0 <= k <= h,
    ensures
        wrap(dot(s, t, i, j, k)) == wrap(weighted(a, a2, b, b2, u, v, w, z, i, j, k)),
    decreases k,
{
    if k > 0 {
        lemma_dot_combination(s, t, a, a2, b, b2, u, v, w, z, h, i, j, k - 1);
        let sa = u * a[i][k - 1] + v * a2[i][k - 1];
        let tb = w * b[k - 1][j] + z * b2[k - 1][j];
        let before = weighted(a, a2, b, b2, u, v, w, z, i, j, k - 1);
        lemma_wrap_mul(sa, tb);
        lemma_wrap_add(dot(s, t, i, j, k - 1), s[i][k - 1] * t[k - 1][j]);
        lemma_wrap_add(before, sa * tb);
        lemma_weighted_step(a, a2, b, b2, u, v, w, z, i, j, k);
    }
}

/// The product of two combinations holds the weighted sums of the
/// products of their parts.
proof fn lemma_product_of_combinations(
    p: Seq<Seq<i64>>,
    s: Seq<Seq<i64>>,
    t: Seq<Seq<i64>>,
    a: Seq<Seq<i64>>,
    a2: Seq<Seq<i64>>,
    b: Seq<Seq<i64>>,
    b2: Seq<Seq<i64>>,
    u: int,
    v: int,
    w: int,
    z: int,
    h: int,
)
    requires
        holds_product(p, s, t, h),
        is_combination(s, a, a2, u, v, h),
        is_combination(t, b, b2, w, z, h),
    ensures
        holds_weighted(p, a, a2, b, b2, u, v, w, z, h),
{
    assert forall|i: int, j: int| 0 <= i < h && 0 <= j < h implies #[trigger] p[i][j] == wrap(
        weighted(a, a2, b, b2, u, v, w, z, i, j, h),
    ) by {
        lemma_dot_combination(s, t, a, a2, b, b2, u, v, w, z, h, i, j, h);
    }
}

/// A matrix is the combination `1 * a + 0 * a` of itself.
proof fn lemma_alone(a: Seq<Seq<i64>>, h: int)
    ensures
        is_combination(a, a, a, 1, 0, h),
{
    assert forall|i: int, j: int| 0 <= i < h && 0 <= j < h implies #[trigger] a[i][j] == wrap(
        1 * a[i][j] + 0 * a[i][j],
    ) by {
        lemma_wrap_small(a[i][j]);
    }
}

/// The sum of left block by upper block and right block by lower block
/// is a block of the product.
proof fn lemma_sum_is_block(
    s: Seq<Seq<i64>>,
    p: Seq<Seq<i64>>,
    q: Seq<Seq<i64>>,
    x: Seq<Seq<i64>>,
    y: Seq<Seq<i64>>,
    left: Seq<Seq<i64>>,
    right: Seq<Seq<i64>>,
    upper: Seq<Seq<i64>>,
    lower: Seq<Seq<i64>>,
    pr: int,
    qc: int,
    h: int,
)
    requires
        sum_of(s, p, q, h),
        holds_product(p, left, upper, h),
        holds_product(q, right, lower, h),
        is_block(left, x, pr, 0, h),
        is_block(right, x, pr, h, h),
        is_block(upper, y, 0, qc, h),
        is_block(lower, y, h, qc, h),
    ensures
        holds_block(s, x, y, pr, qc, h),
{
    assert forall|i: int, j: int| 0 <= i < h && 0 <= j < h implies #[trigger] s[i][j] == wrap(
        dot(x, y, pr + i, qc + j, 2 * h),
    ) by {
        lemma_block_product(x, y, left, right, upper, lower, pr, qc, h, i, j);
        lemma_wrap_add(dot(left, upper, i, j, h), dot(right, lower, i, j, h));
    }
}

/// Four blocks of the product, put together, are the product.
proof fn lemma_assemble(r: Seq<Seq<i64>>, parts: Seq<Matrix>, x: Seq<Seq<i64>>, y: Seq<Seq<i64>>, h: int)
    requires
        h > 0,
        are_blocks(parts, r, h),
        holds_block(parts[0]@, x, y, 0, 0, h),
        holds_block(parts[1]@, x, y, 0, h, h),
        holds_block(parts[2]@, x, y, h, 0, h),
        holds_block(parts[3]@, x, y, h, h, h),
    ensures
        forall|i: int, j: int|
            0 <= i < 2 * h && 0 <= j < 2 * h ==> #[trigger] r[i][j] == wrap(dot(x, y, i, j, 2 * h)),
{
    assert forall|i: int, j: int| 0 <= i < 2 * h && 0 <= j < 2 * h implies #[trigger] r[i][j]
        == wrap(dot(x, y, i, j, 2 * h)) by {
        if i < h && j < h {
            assert(r[0 + i][0 + j] == parts[0]@[i][j]);
        } else if i < h {
            assert(r[0 + i][h + (j - h)] == parts[1]@[i][j - h]);
        } else if j < h {
            assert(r[h + (i - h)][0 + j] == parts[2]@[i - h][j]);
        } else {
            assert(r[h + (i - h)][h + (j - h)] == parts[3]@[i - h][j - h]);
        }
    }
}

/// Strassen's upper left block: `m5 + m4 - m2 + m6`.
proof fn lemma_strassen_upper_left(
    r: Seq<Seq<i64>>,
    s1: Seq<Seq<i64>>,
    s2: Seq<Seq<i64>>,
    m2: Seq<Seq<i64>>,
    m4: Seq<Seq<i64>>,
    m5: Seq<Seq<i64>>,
    m6: Seq<Seq<i64>>,
    x: Seq<Seq<i64>>,
    y: Seq<Seq<i64>>,
    a: Seq<Seq<i64>>,
    b: Seq<Seq<i64>>,
    d: Seq<Seq<i64>>,
    e: Seq<Seq<i64>>,
    g: Seq<Seq<i64>>,
    k: Seq<Seq<i64>>,
    h: int,
)
    requires
        sum_of(s1, m5, m4, h),
        difference_of(s2, s1, m2, h),
        sum_of(r, s2, m6, h),
        holds_weighted(m2, a, b, k, k, 1, 1, 1, 0, h),
        holds_weighted(m4, d, d, g, e, 1, 0, 1, -1, h),
        holds_weighted(m5, a, d, e, k, 1, 1, 1, 1, h),
        holds_weighted(m6, b, d, g, k, 1, -1, 1, 1, h),
        is_block(a, x, 0, 0, h),
        is_block(b, x, 0, h, h),
        is_block(e, y, 0, 0, h),
        is_block(g, y, h, 0, h),
    ensures
        holds_block(r, x, y, 0, 0, h),
{
    assert forall|i: int, j: int| 0 <= i < h && 0 <= j < h implies #[trigger] r[i][j] == wrap(
        dot(x, y, 0 + i, 0 + j, 2 * h),
    ) by {
        lemma_block_product(x, y, a, b, e, g, 0, 0, h, i, j);
        let e2 = weighted(a, b, k, k, 1, 1, 1, 0, i, j, h);
        let e4 = weighted(d, d, g, e, 1, 0, 1, -1, i, j, h);
        let e5 = weighted(a, d, e, k, 1, 1, 1, 1, i, j, h);
        let e6 = weighted(b, d, g, k, 1, -1, 1, 1, i, j, h);
        lemma_wrap_add(e5, e4);
        lemma_wrap_add(e5 + e4, e2);
        lemma_wrap_add(e5 + e4 - e2, e6);
    }
}

/// Strassen's upper right block, `m1 + m2`, and lower left block,
/// `m3 + m4`.
proof fn lemma_strassen_side_blocks(
    ur: Seq<Seq<i64>>,
    ll: Seq<Seq<i64>>,
    m1: Seq<Seq<i64>>,
    m2: Seq<Seq<i64>>,
    m3: Seq<Seq<i64>>,
    m4: Seq<Seq<i64>>,
    x: Seq<Seq<i64>>,
    y: Seq<Seq<i64>>,
    a: Seq<Seq<i64>>,
    b: Seq<Seq<i64>>,
    c: Seq<Seq<i64>>,
    d: Seq<Seq<i64>>,
    e: Seq<Seq<i64>>,
    f: Seq<Seq<i64>>,
    g: Seq<Seq<i64>>,
    k: Seq<Seq<i64>>,
    h: int,
)
    requires
        sum_of(ur, m1, m2, h),
        sum_of(ll, m3, m4, h),
        holds_weighted(m1, a, a, f, k, 1, 0, 1, -1, h),
        holds_weighted(m2, a, b, k, k, 1, 1, 1, 0, h),
        holds_weighted(m3, c, d, e, e, 1, 1, 1, 0, h),
        holds_weighted(m4, d, d, g, e, 1, 0, 1, -1, h),
        is_block(a, x, 0, 0, h),
        is_block(b, x, 0, h, h),
        is_block(c, x, h, 0, h),
        is_block(d, x, h, h, h),
        is_block(e, y, 0, 0, h),
        is_block(f, y, 0, h, h),
        is_block(g, y, h, 0, h),
        is_block(k, y, h, h, h),
    ensures
        holds_block(ur, x, y, 0, h, h),
        holds_block(ll, x, y, h, 0, h),
{
    assert forall|i: int, j: int| 0 <= i < h && 0 <= j < h implies #[trigger] ur[i][j] == wrap(
        dot(x, y, 0 + i, h + j, 2 * h),
    ) by {
        lemma_block_product(x, y, a, b, f, k, 0, h, h, i, j);
        let e1 = weighted(a, a, f, k, 1, 0, 1, -1, i, j, h);
        let e2 = weighted(a, b, k, k, 1, 1, 1, 0, i, j, h);
        lemma_wrap_add(e1, e2);
    }
    assert forall|i: int, j: int| 0 <= i < h && 0 <= j < h implies #[trigger] ll[i][j] == wrap(
        dot(x, y, h + i, 0 + j, 2 * h),
    ) by {
        lemma_block_product(x, y, c, d, e, g, h, 0, h, i, j);
        let e3 = weighted(c, d, e, e, 1, 1, 1, 0, i, j, h);
        let e4 = weighted(d, d, g, e, 1, 0, 1, -1, i, j, h);
        lemma_wrap_add(e3, e4);
    }
}

/// Strassen's lower right block: `m1 + m5 - m3 - m7`.
proof fn lemma_strassen_lower_right(
    r: Seq<Seq<i64>>,
    s1: Seq<Seq<i64>>,
    s2: Seq<Seq<i64>>,
    m1: Seq<Seq<i64>>,
    m3: Seq<Seq<i64>>,
    m5: Seq<Seq<i64>>,
    m7: Seq<Seq<i64>>,
    x: Seq<Seq<i64>>,
    y: Seq<Seq<i64>>,
    a: Seq<Seq<i64>>,
    c: Seq<Seq<i64>>,
    d: Seq<Seq<i64>>,
    e: Seq<Seq<i64>>,
    f: Seq<Seq<i64>>,
    k: Seq<Seq<i64>>,
    h: int,
)
    requires
        sum_of(s1, m1, m5, h),
        difference_of(s2, s1, m3, h),
        difference_of(r, s2, m7, h),
        holds_weighted(m1, a, a, f, k, 1, 0, 1, -1, h),
        holds_weighted(m3, c, d, e, e, 1, 1, 1, 0, h),
        holds_weighted(m5, a, d, e, k, 1, 1, 1, 1, h),
        holds_weighted(m7, a, c, e, f, 1, -1, 1, 1, h),
        is_block(c, x, h, 0, h),
        is_block(d, x, h, h, h),
        is_block(f, y, 0, h, h),
        is_block(k, y, h, h, h),
    ensures
        holds_block(r, x, y, h, h, h),
{
    assert forall|i: int, j: int| 0 <= i < h && 0 <= j < h implies #[trigger] r[i][j] == wrap(
        dot(x, y, h + i, h + j, 2 * h),
    ) by {
        lemma_block_product(x, y, c, d, f, k, h, h, h, i, j);
        let e1 = weighted(a, a, f, k, 1, 0, 1, -1, i, j, h);
        let e3 = weighted(c, d, e, e, 1, 1, 1, 0, i, j, h);
        let e5 = weighted(a, d, e, k, 1, 1, 1, 1, i, j, h);
        let e7 = weighted(a, c, e, f, 1, -1, 1, 1, i, j, h);
        lemma_wrap_add(e1, e5);
        lemma_wrap_add(e1 + e5, e3);
        lemma_wrap_add(e1 + e5 - e3, e7);
    }
}

/// The padded product, read off the product of the padded matrices.
proof fn lemma_padded_entries(
    r: Seq<Seq<i64>>,
    x: Seq<Seq<i64>>,
    y: Seq<Seq<i64>>,
    px: Seq<Seq<i64>>,
    py: Seq<Seq<i64>>,
    n: int,
    m: int,
)
    requires
        is_square(x, n),
        is_square(y, n),
        is_square(px, m),
        is_square(py, m),
        0 < n <= m,
        forall|a: int, b: int| 0 <= a < m && 0 <= b < m ==> #[trigger] px[a][b] == entry_or_zero(x, a, b),
        forall|a: int, b: int| 0 <= a < m && 0 <= b < m ==> #[trigger] py[a][b] == entry_or_zero(y, a, b),
        forall|i: int, j: int| 0 <= i < m && 0 <= j < m ==> #[trigger] r[i][j] == wrap(dot(px, py, i, j, m)),
    ensures
        forall|i: int, j: int|
            0 <= i < m && 0 <= j < m ==> #[trigger] r[i][j] == if i < n && j < n {
                wrap(dot(x, y, i, j, n))
            } else {
                0
            },
{
    assert forall|i: int, j: int| 0 <= i < m && 0 <= j < m implies #[trigger] r[i][j] == if i < n
        && j < n {
        wrap(dot(x, y, i, j, n))
    } else {
        0
    } by {
        lemma_dot_padded(x, y, px, py, n, m, i, j, m);
    }
}

/// The product of two matrices by the plain recursion on their blocks.
///
/// A matrix of size one is multiplied directly. Larger ones are grown to
/// the next power of two and cut into blocks; the blocks of the product
/// are sums of two products of blocks each. The result has the grown size.
pub fn recursive_mul_impl(x: Matrix, y: Matrix) -> (r: Matrix)
    requires
        x.side() == y.side(),
        expanded_side(x.side(), 1) * expanded_side(x.side(), 1) <= usize::MAX,
    ensures
        is_padded_product(r, x, y),
    decreases x.side(),
{
    let n = x.size();
    let _ = y.size();
    if n == 1 {
        let a = x.get(0, 0);
        let b = y.get(0, 0);
        let mut r = Matrix::new_zeroed(1);
        r.set(0, 0, a.wrapping_mul(b));
        proof {
            lemma_wrapping_ops(a, b);
            assert(dot(x@, y@, 0, 0, 1) == dot(x@, y@, 0, 0, 0) + x@[0][0] * y@[0][0]);
        }
        return r;
    }
    let mut px = x.clone();
    let mut py = y.clone();
    px.expand(1);
    py.expand(1);
    let m = px.size();
    let ghost h = m as int / 2;
    let ghost (gx, gy) = (px@, py@);
    proof {
        lemma_grown_bounds(1, n as nat);
        lemma_grown_power_of_two(1, n as nat);
        lemma_grown_to_power(1, h as nat);
        assert(h * h <= m * m) by (nonlinear_arith)
            requires
                0 <= h <= m,
        ;
        assert(4 * h * h == m * m) by (nonlinear_arith)
            requires
                m == 2 * h,
        ;
    }
    let xs = px.submatrices();
    let ys = py.submatrices();
    let ae = recursive_mul_impl(xs[0].clone(), ys[0].clone());
    let bg = recursive_mul_impl(xs[1].clone(), ys[2].clone());
    let af = recursive_mul_impl(xs[0].clone(), ys[1].clone());
    let bh = recursive_mul_impl(xs[1].clone(), ys[3].clone());
    let ce = recursive_mul_impl(xs[2].clone(), ys[0].clone());
    let dg = recursive_mul_impl(xs[3].clone(), ys[2].clone());
    let cf = recursive_mul_impl(xs[2].clone(), ys[1].clone());
    let dh = recursive_mul_impl(xs[3].clone(), ys[3].clone());
    let upper_left = sum(&ae, &bg);
    let upper_right = sum(&af, &bh);
    let lower_left = sum(&ce, &dg);
    let lower_right = sum(&cf, &dh);
    proof {
        let (a, b, c, d) = (xs@[0]@, xs@[1]@, xs@[2]@, xs@[3]@);
        let (e, f, g, k) = (ys@[0]@, ys@[1]@, ys@[2]@, ys@[3]@);
        lemma_sum_is_block(upper_left@, ae@, bg@, gx, gy, a, b, e, g, 0, 0, h);
        lemma_sum_is_block(upper_right@, af@, bh@, gx, gy, a, b, f, k, 0, h, h);
        lemma_sum_is_block(lower_left@, ce@, dg@, gx, gy, c, d, e, g, h, 0, h);
        lemma_sum_is_block(lower_right@, cf@, dh@, gx, gy, c, d, f, k, h, h, h);
    }
    let r = Matrix::from_blocks([upper_left, upper_right, lower_left, lower_right]);
    proof {
        let parts = seq![upper_left, upper_right, lower_left, lower_right];
        lemma_assemble(r@, parts, gx, gy, h);
        let _ = x.lemma_view_is_square();
        let _ = y.lemma_view_is_square();
        lemma_padded_entries(r@, x@, y@, gx, gy, n as int, m as int);
    }
    r
}

/// The product of two matrices of the same size, computed by
/// [`recursive_mul_impl`] and cut back to that size.
pub fn recursive_mul(x: &Matrix, y: &Matrix) -> (r: Matrix)
    requires
        x.side() == y.side(),
        expanded_side(x.side(), 1) * expanded_side(x.side(), 1) <= usize::MAX,
    ensures
        is_product(r, *x, *y),
{
    let n = x.size();
    let _ = y.size();
    let mut px = x.clone();
    let mut py = y.clone();
    px.expand(1);
    py.expand(1);
    let ghost m = px.side();
    proof {
        lemma_grown_bounds(1, n as nat);
        lemma_grown_power_of_two(1, n as nat);
        lemma_grown_to_power(1, m);
    }
    let ghost (gx, gy) = (px@, py@);
    let mut prod = recursive_mul_impl(px, py);
    let ghost full = prod@;
    prod.shrink(n);
    proof {
        lemma_padded_entries(full, x@, y@, gx, gy, n as int, m as int);
    }
    prod
}

/// The product of two matrices by Strassen's scheme.
///
/// Matrices of size `fallback` are multiplied row by column. Larger ones
/// are cut into blocks, and the blocks of the product are put together
/// from seven products of sums and differences of blocks. The size must
/// be `fallback` doubled some number of times, so that the halving arrives
/// at `fallback`.
pub fn strassen_mul_impl(x: Matrix, y: Matrix, fallback: usize) -> (r: Matrix)
    requires
        x.side() == y.side(),
        halves_to(x.side(), fallback as nat),
    ensures
        is_product(r, x, y),
    decreases x.side(),
{
    let n = x.size();
    let _ = y.size();
    if n == fallback {
        return product(&x, &y);
    }
    let ghost h = n as int / 2;
    proof {
        assert(4 * h * h == n * n) by (nonlinear_arith)
            requires
                n == 2 * h,
        ;
    }
    let ghost (gx, gy) = (x@, y@);
    let xs = x.submatrices();
    let ys = y.submatrices();
    let f_h = difference(&ys[1], &ys[3]);
    let a_b = sum(&xs[0], &xs[1]);
    let c_d = sum(&xs[2], &xs[3]);
    let g_e = difference(&ys[2], &ys[0]);
    let a_d = sum(&xs[0], &xs[3]);
    let e_h = sum(&ys[0], &ys[3]);
    let b_d = difference(&xs[1], &xs[3]);
    let g_h = sum(&ys[2], &ys[3]);
    let a_c = difference(&xs[0], &xs[2]);
    let e_f = sum(&ys[0], &ys[1]);
    let ghost (s2, s3, s5, s6, s7) = (a_b@, c_d@, a_d@, b_d@, a_c@);
    let ghost (t1, t4, t5, t6, t7) = (f_h@, g_e@, e_h@, g_h@, e_f@);
    proof {
        let (a, b, c, d) = (xs@[0]@, xs@[1]@, xs@[2]@, xs@[3]@);
        let (e, f, g, k) = (ys@[0]@, ys@[1]@, ys@[2]@, ys@[3]@);
    }
    let m1 = strassen_mul_impl(xs[0].clone(), f_h, fallback);
    let m2 = strassen_mul_impl(a_b, ys[3].clone(), fallback);
    let m3 = strassen_mul_impl(c_d, ys[0].clone(), fallback);
    let m4 = strassen_mul_impl(xs[3].clone(), g_e, fallback);
    let m5 = strassen_mul_impl(a_d, e_h, fallback);
    let m6 = strassen_mul_impl(b_d, g_h, fallback);
    let m7 = strassen_mul_impl(a_c, e_f, fallback);
    proof {
        let (a, b, c, d) = (xs@[0]@, xs@[1]@, xs@[2]@, xs@[3]@);
        let (e, f, g, k) = (ys@[0]@, ys@[1]@, ys@[2]@, ys@[3]@);
        lemma_alone(a, h);
        lemma_alone(d, h);
        lemma_alone(e, h);
        lemma_alone(k, h);
        lemma_product_of_combinations(m1@, a, t1, a, a, f, k, 1, 0, 1, -1, h);
        lemma_product_of_combinations(m2@, s2, k, a, b, k, k, 1, 1, 1, 0, h);
        lemma_product_of_combinations(m3@, s3, e, c, d, e, e, 1, 1, 1, 0, h);
        lemma_product_of_combinations(m4@, d, t4, d, d, g, e, 1, 0, 1, -1, h);
        lemma_product_of_combinations(m5@, s5, t5, a, d, e, k, 1, 1, 1, 1, h);
        lemma_product_of_combinations(m6@, s6, t6, b, d, g, k, 1, -1, 1, 1, h);
        lemma_product_of_combinations(m7@, s7, t7, a, c, e, f, 1, -1, 1, 1, h);
    }
    let m5_m4 = sum(&m5, &m4);
    let m5_m4_m2 = difference(&m5_m4, &m2);
    let upper_left = sum(&m5_m4_m2, &m6);
    let upper_right = sum(&m1, &m2);
    let lower_left = sum(&m3, &m4);
    let m1_m5 = sum(&m1, &m5);
    let m1_m5_m3 = difference(&m1_m5, &m3);
    let lower_right = difference(&m1_m5_m3, &m7);
    proof {
        let (a, b, c, d) = (xs@[0]@, xs@[1]@, xs@[2]@, xs@[3]@);
        let (e, f, g, k) = (ys@[0]@, ys@[1]@, ys@[2]@, ys@[3]@);
        lemma_strassen_upper_left(
            upper_left@,
            m5_m4@,
            m5_m4_m2@,
            m2@,
            m4@,
            m5@,
            m6@,
            gx,
            gy,
            a,
            b,
            d,
            e,
            g,
            k,
            h,
        );
        lemma_strassen_side_blocks(
            upper_right@,
            lower_left@,
            m1@,
            m2@,
            m3@,
            m4@,
            gx,
            gy,
            a,
            b,
            c,
            d,
            e,
            f,
            g,
            k,
            h,
        );
        lemma_strassen_lower_right(
            lower_right@,
            m1_m5@,
            m1_m5_m3@,
            m1@,
            m3@,
            m5@,
            m7@,
            gx,
            gy,
            a,
            c,
            d,
            e,
            f,
            k,
            h,
        );
    }
    let r = Matrix::from_blocks([upper_left, upper_right, lower_left, lower_right]);
    proof {
        let parts = seq![upper_left, upper_right, lower_left, lower_right];
        lemma_assemble(r@, parts, gx, gy, h);
    }
    r
}

/// The product of two matrices of the same size by Strassen's scheme:
/// both are grown to `fallback` doubled often enough to hold them,
/// multiplied by [`strassen_mul_impl`], and the product is cut back.
pub fn strassen_mul(x: &Matrix, y: &Matrix, fallback: usize) -> (r: Matrix)
    requires
        x.side() == y.side(),
        0 < fallback <= x.side(),
        expanded_side(x.side(), fallback as nat) * expanded_side(x.side(), fallback as nat)
            <= usize::MAX,
    ensures
        is_product(r, *x, *y),
{
    let n = x.size();
    let _ = y.size();
    let mut px = x.clone();
    let mut py = y.clone();
    px.expand(fallback);
    py.expand(fallback);
    let ghost m = px.side();
    proof {
        lemma_grown_bounds(fallback as nat, n as nat);
        lemma_grown_halves(fallback as nat, n as nat, fallback as nat);
    }
    let ghost (gx, gy) = (px@, py@);
    let mut prod = strassen_mul_impl(px, py, fallback);
    let ghost full = prod@;
    prod.shrink(n);
    proof {
        lemma_padded_entries(full, x@, y@, gx, gy, n as int, m as int);
    }
    prod
}

} // verus!
