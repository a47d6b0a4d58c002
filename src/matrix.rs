use vstd::prelude::*;

verus! {

/// A heap-allocated matrix stored column by column: the elements of one
/// column are contiguous in `content`.
pub struct Matrix<T> {
    content: Vec<T>,
    rowc: usize,
    colc: usize,
}

impl<T> View for Matrix<T> {
    type V = Seq<T>;

    /// The elements in storage order: column `c`, row `r` stands at `c * rows + r`.
    closed spec fn view(&self) -> Seq<T> {
        self.content@
    }
}

impl<T> Matrix<T> {
    pub closed spec fn rows(&self) -> nat {
        self.rowc as nat
    }

    pub closed spec fn cols(&self) -> nat {
        self.colc as nat
    }

    /// The buffer holds exactly `rows * cols` elements.
    pub open spec fn wf(&self) -> bool {
        self@.len() == self.rows() * self.cols()
    }

    /// The element in row `r` and column `c`.
    pub open spec fn at(&self, r: int, c: int) -> T {
        self@[c * self.rows() + r]
    }

    /// Column `c`, top to bottom.
    pub open spec fn col(&self, c: int) -> Seq<T> {
        self@.subrange(c * self.rows(), (c + 1) * self.rows())
    }

    /// Row `r`, left to right.
    pub open spec fn row(&self, r: int) -> Seq<T> {
        Seq::new(self.cols(), |c: int| self.at(r, c))
    }

    /// `self` is `m` with rows and columns swapped.
    pub open spec fn is_transpose_of(&self, m: Matrix<T>) -> bool {
        &&& self.wf()
        &&& self.rows() == m.cols()
        &&& self.cols() == m.rows()
        &&& forall|r: int, c: int|
            0 <= r < m.rows() && 0 <= c < m.cols() ==> #[trigger] self.at(c, r) == m.at(r, c)
    }

    /// Column `c` holds the elements of that column, row by row.
    pub proof fn lemma_col_at(&self, c: int)
        requires
            self.wf(),
            0 <= c < self.cols(),
        ensures
            self.col(c).len() == self.rows(),
            forall|r: int| 0 <= r < self.rows() ==> #[trigger] self.col(c)[r] == self.at(r, c),
    {
        lemma_col_in_bounds(self.rows() as int, self.cols() as int, c);
    }

    /// Sets the element in row `r` and column `c` to `v`.
    pub(crate) fn set(&mut self, r: usize, c: usize, v: T)
        requires
            old(self).wf(),
            r < old(self).rows(),
            c < old(self).cols(),
        ensures
            final(self).wf(),
            final(self).rows() == old(self).rows(),
            final(self).cols() == old(self).cols(),
            final(self)@ == old(self)@.update(c * old(self).rows() + r, v),
    {
        proof {
            lemma_col_in_bounds(self.rows() as int, self.cols() as int, c as int);
        }
        let ghost pre = self@;
        let ghost rows = self.rows() as int;
        let col = self.get_col_mut(c);
        col[r] = v;
        assert(self@ =~= pre.update(c * rows + r, v));
    }

    pub fn rowc(&self) -> (r: usize)
        ensures
            r == self.rows(),
    {
        self.rowc
    }

    pub fn colc(&self) -> (r: usize)
        ensures
            r == self.cols(),
    {
        self.colc
    }

    pub fn get_col(&self, i: usize) -> (r: &[T])
        requires
            self.wf(),
            i < self.cols(),
        ensures
            r@ == self.col(i as int),
            r@.len() == self.rows(),
    {
        proof {
            lemma_col_in_bounds(self.rowc as int, self.colc as int, i as int);
        }
        let len = self.content.len();
        assert(i * self.rowc + self.rowc <= len);
        let begin = self.rowc * i;
        let end = begin + self.rowc;
        &self.content.as_slice()[begin..end]
    }

    pub fn get_col_mut(&mut self, i: usize) -> (r: &mut [T])
        requires
            old(self).wf(),
            i < old(self).cols(),
        ensures
            r@ == old(self).col(i as int),
            final(self).rows() == old(self).rows(),
            final(self).cols() == old(self).cols(),
            r@.len() == old(self).rows(),
            final(self)@ == old(self)@.subrange(0, i * old(self).rows()) + final(r)@ + old(
                self,
            )@.subrange((i + 1) * old(self).rows(), old(self)@.len() as int),
    {
        proof {
            lemma_col_in_bounds(self.rowc as int, self.colc as int, i as int);
        }
        let len = self.content.len();
        assert(i * self.rowc + self.rowc <= len);
        let begin = self.rowc * i;
        let rowc = self.rowc;
        let all = self.content.as_mut_slice();
        let (_, tail) = all.split_at_mut(begin);
        let (col, _) = tail.split_at_mut(rowc);
        col
    }
}

impl<T: Copy> Matrix<T> {
    /// Allocates a matrix with `rowc` rows and `colc` columns, every cell
    /// holding `default`.
    pub fn new_uniform(rowc: usize, colc: usize, default: T) -> (m: Self)
        requires
            rowc * colc <= usize::MAX,
        ensures
            m.wf(),
            m.rows() == rowc,
            m.cols() == colc,
            forall|i: int| 0 <= i < m@.len() ==> #[trigger] m@[i] == default,
    {
        let size = rowc * colc;
        let mut content: Vec<T> = Vec::with_capacity(size);
        let mut k: usize = 0;
        while k < size
            invariant
                k <= size,
                content@.len() == k,
                forall|i: int| 0 <= i < k ==> #[trigger] content@[i] == default,
            decreases size - k,
        {
            content.push(default);
            k = k + 1;
        }
        Matrix { content, rowc, colc }
    }

    /// Builds a matrix from its rows: `v[m][n]` is the element in row `m`
    /// and column `n`.
    pub fn literal<const M: usize, const N: usize>(v: [[T; N]; M]) -> (r: Self)
        requires
            M * N <= usize::MAX,
        ensures
            r.wf(),
            r.rows() == M,
            r.cols() == N,
            forall|m: int, n: int| 0 <= m < M && 0 <= n < N ==> #[trigger] r.at(m, n) == v@[m]@[n],
    {
        let mut content: Vec<T> = Vec::with_capacity(M * N);
        let mut n: usize = 0;
        while n < N
            invariant
                n <= N,
                M * N <= usize::MAX,
                content@.len() == n * M,
                forall|j: int, i: int|
                    0 <= j < n && 0 <= i < M ==> #[trigger] content@[j * M + i] == v@[i]@[j],
            decreases N - n,
        {
            let mut m: usize = 0;
            while m < M
                invariant
                    n < N,
                    m <= M,
                    M * N <= usize::MAX,
                    content@.len() == n * M + m,
                    forall|j: int, i: int|
                        0 <= j < n && 0 <= i < M ==> #[trigger] content@[j * M + i] == v@[i]@[j],
                    forall|i: int| 0 <= i < m ==> #[trigger] content@[n * M + i] == v@[i]@[n as int],
                decreases M - m,
            {
                proof {
                    lemma_cell_in_bounds(M as int, N as int, m as int, n as int);
                }
                let ghost before = content@;
                content.push(v[m][n]);
                proof {
                    assert forall|j: int, i: int| 0 <= j < n && 0 <= i < M implies #[trigger] content@[j
                        * M + i] == v@[i]@[j] by {
                        lemma_cell_in_bounds(M as int, n as int, i, j);
                        assert(content@[j * M + i] == before[j * M + i]);
                    }
                }
                m = m + 1;
            }
            assert(content@.len() == (n + 1) * M) by (nonlinear_arith)
                requires
                    content@.len() == n * M + M,
            ;
            n = n + 1;
        }
        assert(content@.len() == M * N) by (nonlinear_arith)
            requires
                content@.len() == N * M,
        ;
        Matrix { content, rowc: M, colc: N }
    }
}

impl<T: Copy + Default> Matrix<T> {
    /// Allocates a matrix with `rowc` rows and `colc` columns, every cell
    /// holding the element type's default value.
    pub fn new(rowc: usize, colc: usize) -> (m: Self)
        requires
            rowc * colc <= usize::MAX,
        ensures
            m.wf(),
            m.rows() == rowc,
            m.cols() == colc,
            forall|i: int, j: int| 0 <= i < m@.len() && 0 <= j < m@.len() ==> #[trigger] m@[i] == #[trigger] m@[j],
    {
        Self::new_uniform(rowc, colc, T::default())
    }
}

impl<T: Copy> Matrix<T> {
    /// Swaps rows and columns: the element in row `r`, column `c` of this
    /// matrix stands in row `c`, column `r` of the result. This matrix is
    /// consumed.
    pub fn transpose(self) -> (t: Self)
        requires
            self.wf(),
        ensures
            t.is_transpose_of(self),
    {
        let src_rowc = self.rowc;
        let src_colc = self.colc;
        let len = self.content.len();
        let mut content: Vec<T> = Vec::with_capacity(len);
        // Column `c` of the result is row `c` of this matrix.
        let mut c: usize = 0;
        while c < src_rowc
            invariant
                c <= src_rowc,
                self.wf(),
                len == self@.len(),
                src_rowc == self.rows(),
                src_colc == self.cols(),
                content@.len() == c * src_colc,
                forall|j: int, i: int|
                    0 <= j < c && 0 <= i < src_colc ==> #[trigger] content@[j * src_colc + i]
                        == self.at(j, i),
            decreases src_rowc - c,
        {
            let mut r: usize = 0;
            while r < src_colc
                invariant
                    c < src_rowc,
                    r <= src_colc,
                    self.wf(),
                    len == self@.len(),
                    src_rowc == self.rows(),
                    src_colc == self.cols(),
                    content@.len() == c * src_colc + r,
                    forall|j: int, i: int|
                        0 <= j < c && 0 <= i < src_colc ==> #[trigger] content@[j * src_colc + i]
                            == self.at(j, i),
                    forall|i: int| 0 <= i < r ==> #[trigger] content@[c * src_colc + i] == self.at(c as int, i),
                decreases src_colc - r,
            {
                proof {
                    lemma_cell_in_bounds(src_rowc as int, src_colc as int, c as int, r as int);
                    lemma_cell_in_bounds(src_colc as int, src_rowc as int, r as int, c as int);
                }
                let ghost before = content@;
                content.push(self.content[r * src_rowc + c]);
                proof {
                    assert forall|j: int, i: int| 0 <= j < c && 0 <= i < src_colc implies #[trigger] content@[j
                        * src_colc + i] == self.at(j, i) by {
                        assert(j * src_colc + i < c * src_colc) by (nonlinear_arith)
                            requires
                                0 <= j < c,
                                0 <= i < src_colc,
                        ;
                        assert(0 <= j * src_colc) by (nonlinear_arith)
                            requires
                                0 <= j,
                        ;
                        assert(content@[j * src_colc + i] == before[j * src_colc + i]);
                    }
                }
                r = r + 1;
            }
            assert(content@.len() == (c + 1) * src_colc) by (nonlinear_arith)
                requires
                    content@.len() == c * src_colc + src_colc,
            ;
            c = c + 1;
        }
        assert(content@.len() == src_colc * src_rowc) by (nonlinear_arith)
            requires
                content@.len() == src_rowc * src_colc,
        ;
        Matrix { content, rowc: src_colc, colc: src_rowc }
    }
}

impl<T> Matrix<T> {
    /// A matrix of the same shape whose every element is `f` applied to the
    /// element in the same place.
    pub fn map<U, F: Fn(&T) -> U>(&self, f: F) -> (m: Matrix<U>)
        requires
            self.wf(),
            forall|i: int| 0 <= i < self@.len() ==> f.requires((&#[trigger] self@[i],)),
        ensures
            m.wf(),
            m.rows() == self.rows(),
            m.cols() == self.cols(),
            forall|i: int| 0 <= i < self@.len() ==> f.ensures((&#[trigger] self@[i],), m@[i]),
    {
        let n = self.content.len();
        let mut content: Vec<U> = Vec::with_capacity(n);
        let mut k: usize = 0;
        while k < n
            invariant
                k <= n,
                n == self@.len(),
                content@.len() == k,
                forall|i: int| 0 <= i < self@.len() ==> f.requires((&#[trigger] self@[i],)),
                forall|i: int| 0 <= i < k ==> f.ensures((&#[trigger] self@[i],), content@[i]),
            decreases n - k,
        {
            let u = f(&self.content[k]);
            content.push(u);
            k = k + 1;
        }
        Matrix { content, rowc: self.rowc, colc: self.colc }
    }
}

impl<T: Copy> Clone for Matrix<T> {
    fn clone(&self) -> (m: Self)
        ensures
            m@ == self@,
            m.rows() == self.rows(),
            m.cols() == self.cols(),
    {
        let n = self.content.len();
        let mut content: Vec<T> = Vec::with_capacity(n);
        let mut k: usize = 0;
        while k < n
            invariant
                k <= n,
                n == self@.len(),
                content@ == self@.subrange(0, k as int),
            decreases n - k,
        {
            content.push(self.content[k]);
            k = k + 1;
        }
        assert(content@ == self@);
        Matrix { content, rowc: self.rowc, colc: self.colc }
    }
}

/// The sum of `a[k] * b[k]` over the first `n` positions.
pub open spec fn dot_upto(a: Seq<i64>, b: Seq<i64>, n: int) -> int
    decreases n,
{
    if n <= 0 {
        0
    } else {
        dot_upto(a, b, n - 1) + a[n - 1] * b[n - 1]
    }
}

/// The dot product of two sequences of equal length.
pub open spec fn dot_spec(a: Seq<i64>, b: Seq<i64>) -> int {
    dot_upto(a, b, a.len() as int)
}

/// Every product and every partial sum of the dot product of `a` and `b`
/// fits in an `i64`.
pub open spec fn dot_fits(a: Seq<i64>, b: Seq<i64>) -> bool {
    &&& forall|k: int| 0 <= k < a.len() ==> i64::MIN <= #[trigger] a[k] * b[k] <= i64::MAX
    &&& forall|k: int| 0 <= k <= a.len() ==> i64::MIN <= #[trigger] dot_upto(a, b, k) <= i64::MAX
}

/// Every dot product that the product of `left` and `right` computes
/// stays within `i64`.
pub open spec fn mul_fits(left: Matrix<i64>, right: Matrix<i64>) -> bool {
    forall|i: int, j: int|
        0 <= i < left.rows() && 0 <= j < right.cols() ==> #[trigger] dot_fits(left.row(i), right.col(j))
}

/// The element in row `i` and column `j` of the product of `left` and `right`.
pub open spec fn product_at(left: Matrix<i64>, right: Matrix<i64>, i: int, j: int) -> int {
    dot_spec(left.row(i), right.col(j))
}

/// `out` is the matrix product of `left` and `right`.
pub open spec fn is_product(out: Matrix<i64>, left: Matrix<i64>, right: Matrix<i64>) -> bool {
    &&& out.wf()
    &&& out.rows() == left.rows()
    &&& out.cols() == right.cols()
    &&& forall|i: int, j: int|
        0 <= i < left.rows() && 0 <= j < right.cols() ==> #[trigger] out.at(i, j) == product_at(
            left,
            right,
            i,
            j,
        )
}

/// Computes the dot product of two equal-length vectors `a` and `b`.
pub fn dot(a: &[i64], b: &[i64]) -> (r: i64)
    requires
        a@.len() == b@.len(),
        dot_fits(a@, b@),
    ensures
        r == dot_spec(a@, b@),
{
    let mut dp: i64 = 0;
    let mut i: usize = 0;
    while i < a.len()
        invariant
            i <= a@.len(),
            a@.len() == b@.len(),
            dot_fits(a@, b@),
            dp == dot_upto(a@, b@, i as int),
        decreases a@.len() - i,
    {
        assert(i64::MIN <= dot_upto(a@, b@, i + 1) <= i64::MAX);
        assert(i64::MIN <= a@[i as int] * b@[i as int] <= i64::MAX);
        dp = dp + a[i] * b[i];
        i = i + 1;
    }
    dp
}

/// The dot product of `a` and `b` computed with checked arithmetic: `None`
/// exactly when a product or a partial sum leaves `i64`.
fn dot_checked(a: &[i64], b: &[i64]) -> (r: Option<i64>)
    requires
        a@.len() == b@.len(),
    ensures
        r.is_some() == dot_fits(a@, b@),
        r.is_some() ==> r.unwrap() == dot_spec(a@, b@),
{
    let mut dp: i64 = 0;
    let mut i: usize = 0;
    while i < a.len()
        invariant
            i <= a@.len(),
            a@.len() == b@.len(),
            dp == dot_upto(a@, b@, i as int),
            forall|k: int| 0 <= k < i ==> i64::MIN <= #[trigger] a@[k] * b@[k] <= i64::MAX,
            forall|k: int| 0 <= k <= i ==> i64::MIN <= #[trigger] dot_upto(a@, b@, k) <= i64::MAX,
        decreases a@.len() - i,
    {
        let prod = match a[i].checked_mul(b[i]) {
            Some(p) => p,
            None => {
                assert(!(i64::MIN <= a@[i as int] * b@[i as int] <= i64::MAX));
                return None;
            },
        };
        dp = match dp.checked_add(prod) {
            Some(s) => s,
            None => {
                assert(!(i64::MIN <= dot_upto(a@, b@, i + 1) <= i64::MAX));
                return None;
            },
        };
        i = i + 1;
    }
    Some(dp)
}

/// Whether every dot product that `left * right` computes stays within
/// `i64`, so that `matmul` and `matmul_replace` may be called.
pub fn product_fits(left: &Matrix<i64>, right: &Matrix<i64>) -> (r: bool)
    requires
        left.wf(),
        right.wf(),
        left.cols() == right.rows(),
    ensures
        r == mul_fits(*left, *right),
{
    let left_t = left.clone().transpose();
    let rowc = left.rowc();
    let colc = right.colc();
    let mut i: usize = 0;
    while i < rowc
        invariant
            i <= rowc,
            rowc == left.rows(),
            colc == right.cols(),
            left.wf(),
            right.wf(),
            left.cols() == right.rows(),
            left_t.is_transpose_of(*left),
            forall|ii: int, jj: int|
                0 <= ii < i && 0 <= jj < colc ==> #[trigger] dot_fits(left.row(ii), right.col(jj)),
        decreases rowc - i,
    {
        let mut j: usize = 0;
        while j < colc
            invariant
                i < rowc,
                j <= colc,
                rowc == left.rows(),
                colc == right.cols(),
                left.wf(),
                right.wf(),
                left.cols() == right.rows(),
                left_t.is_transpose_of(*left),
                forall|ii: int, jj: int|
                    (0 <= ii < i && 0 <= jj < colc) || (ii == i && 0 <= jj < j) ==> #[trigger] dot_fits(
                        left.row(ii),
                        right.col(jj),
                    ),
            decreases colc - j,
        {
            proof {
                left_t.lemma_col_at(i as int);
                assert(left_t.col(i as int) =~= left.row(i as int));
            }
            if dot_checked(left_t.get_col(i), right.get_col(j)).is_none() {
                return false;
            }
            j = j + 1;
        }
        i = i + 1;
    }
    true
}

/// Multiplies `left` by `right` into `output`, which must already have
/// `left`'s row count and `right`'s column count.
pub fn matmul(left: &Matrix<i64>, right: &Matrix<i64>, output: &mut Matrix<i64>)
    requires
        left.wf(),
        right.wf(),
        old(output).wf(),
        left.cols() == right.rows(),
        old(output).rows() == left.rows(),
        old(output).cols() == right.cols(),
        mul_fits(*left, *right),
    ensures
        is_product(*final(output), *left, *right),
{
    let left_t = left.clone().transpose();
    let rowc = left.rowc();
    let colc = right.colc();
    let mut i: usize = 0;
    while i < rowc
        invariant
            i <= rowc,
            rowc == left.rows(),
            colc == right.cols(),
            left.wf(),
            right.wf(),
            left.cols() == right.rows(),
            left_t.is_transpose_of(*left),
            mul_fits(*left, *right),
            output.wf(),
            output.rows() == left.rows(),
            output.cols() == right.cols(),
            forall|ii: int, jj: int|
                0 <= ii < i && 0 <= jj < colc ==> #[trigger] output.at(ii, jj) == product_at(
                    *left,
                    *right,
                    ii,
                    jj,
                ),
        decreases rowc - i,
    {
        let mut j: usize = 0;
        while j < colc
            invariant
                i < rowc,
                j <= colc,
                rowc == left.rows(),
                colc == right.cols(),
                left.wf(),
                right.wf(),
                left.cols() == right.rows(),
                left_t.is_transpose_of(*left),
                mul_fits(*left, *right),
                output.wf(),
                output.rows() == left.rows(),
                output.cols() == right.cols(),
                forall|ii: int, jj: int|
                    (0 <= ii < i && 0 <= jj < colc) || (ii == i && 0 <= jj < j) ==> #[trigger] output.at(
                        ii,
                        jj,
                    ) == product_at(*left, *right, ii, jj),
            decreases colc - j,
        {
            proof {
                left_t.lemma_col_at(i as int);
                assert(left_t.col(i as int) =~= left.row(i as int));
                assert(dot_fits(left.row(i as int), right.col(j as int)));
            }
            let dp = dot(left_t.get_col(i), right.get_col(j));
            let ghost pre = *output;
            output.set(i, j, dp);
            proof {
                assert forall|ii: int, jj: int|
                    (0 <= ii < i && 0 <= jj < colc) || (ii == i && 0 <= jj < j + 1) implies #[trigger] output.at(
                    ii,
                    jj,
                ) == product_at(*left, *right, ii, jj) by {
                    lemma_cell_in_bounds(rowc as int, colc as int, ii, jj);
                    lemma_cell_in_bounds(rowc as int, colc as int, i as int, j as int);
                    if ii != i || jj != j {
                        lemma_cell_distinct(rowc as int, ii, jj, i as int, j as int);
                        assert(output@ == pre@.update(j * rowc + i, dp));
                        assert(output@[jj * rowc + ii] == pre@[jj * rowc + ii]);
                        assert(pre.at(ii, jj) == product_at(*left, *right, ii, jj));
                    } else {
                        assert(output.at(i as int, j as int) == dp);
                    }
                }
            }
            j = j + 1;
        }
        i = i + 1;
    }
}

/// Replaces `right` with the product of `left` and `right`.
pub fn matmul_replace(left: &Matrix<i64>, right: &mut Matrix<i64>)
    requires
        left.wf(),
        old(right).wf(),
        left.cols() == old(right).rows(),
        left.rows() * old(right).cols() <= usize::MAX,
        mul_fits(*left, *old(right)),
    ensures
        is_product(*final(right), *left, *old(right)),
{
    let mut intermediate: Matrix<i64> = Matrix::new(left.rowc(), right.colc());
    matmul(left, right, &mut intermediate);
    *right = intermediate;
}

/// A square matrix with ones on the diagonal and zeros elsewhere.
pub open spec fn is_identity(m: Matrix<i64>) -> bool {
    &&& m.wf()
    &&& m.rows() == m.cols()
    &&& forall|i: int, j: int|
        0 <= i < m.rows() && 0 <= j < m.cols() ==> #[trigger] m.at(i, j) == if i == j {
            1i64
        } else {
            0i64
        }
}

/// Transposing a matrix twice gives back the same matrix.
pub proof fn lemma_transpose_twice<T>(m: Matrix<T>, t: Matrix<T>, tt: Matrix<T>)
    requires
        m.wf(),
        t.is_transpose_of(m),
        tt.is_transpose_of(t),
    ensures
        tt.rows() == m.rows(),
        tt.cols() == m.cols(),
        tt@ == m@,
{
    assert forall|r: int, c: int| 0 <= r < m.rows() && 0 <= c < m.cols() implies #[trigger] tt.at(r, c)
        == m.at(r, c) by {
        assert(tt.at(r, c) == t.at(c, r));
    }
    lemma_same_cells(tt, m);
}

/// Multiplying the identity matrix by any matrix gives that matrix.
pub proof fn lemma_identity_times(id: Matrix<i64>, m: Matrix<i64>, out: Matrix<i64>)
    requires
        is_identity(id),
        m.wf(),
        id.cols() == m.rows(),
        is_product(out, id, m),
    ensures
        out.rows() == m.rows(),
        out.cols() == m.cols(),
        out@ == m@,
{
    assert forall|r: int, c: int| 0 <= r < m.rows() && 0 <= c < m.cols() implies #[trigger] out.at(r, c)
        == m.at(r, c) by {
        m.lemma_col_at(c);
        lemma_dot_unit_left(id.row(r), m.col(c), r, m.rows() as int);
    }
    lemma_same_cells(out, m);
}

/// Multiplying any matrix by the identity matrix gives that matrix.
pub proof fn lemma_times_identity(m: Matrix<i64>, id: Matrix<i64>, out: Matrix<i64>)
    requires
        m.wf(),
        is_identity(id),
        m.cols() == id.rows(),
        is_product(out, m, id),
    ensures
        out.rows() == m.rows(),
        out.cols() == m.cols(),
        out@ == m@,
{
    assert forall|r: int, c: int| 0 <= r < m.rows() && 0 <= c < m.cols() implies #[trigger] out.at(r, c)
        == m.at(r, c) by {
        id.lemma_col_at(c);
        lemma_dot_unit_right(m.row(r), id.col(c), c, m.cols() as int);
    }
    lemma_same_cells(out, m);
}

/// A dot product with the unit vector that is one at `p` picks position `p`
/// of the other operand.
proof fn lemma_dot_unit_left(a: Seq<i64>, b: Seq<i64>, p: int, n: int)
    requires
        0 <= p < n,
        n <= a.len(),
        n <= b.len(),
        forall|k: int| 0 <= k < n ==> #[trigger] a[k] == if k == p {
            1i64
        } else {
            0i64
        },
    ensures
        dot_upto(a, b, n) == b[p],
{
    lemma_dot_unit_left_upto(a, b, p, n);
}

proof fn lemma_dot_unit_left_upto(a: Seq<i64>, b: Seq<i64>, p: int, n: int)
    requires
        0 <= p,
        0 <= n <= a.len(),
        n <= b.len(),
        forall|k: int| 0 <= k < n ==> #[trigger] a[k] == if k == p {
            1i64
        } else {
            0i64
        },
    ensures
        dot_upto(a, b, n) == if p < n {
            b[p] as int
        } else {
            0
        },
    decreases n,
{
    if n > 0 {
        lemma_dot_unit_left_upto(a, b, p, n - 1);
        if n - 1 == p {
            assert(a[n - 1] * b[n - 1] == b[n - 1]);
        } else {
            assert(a[n - 1] * b[n - 1] == 0);
        }
    }
}

/// A dot product with the unit vector that is one at `p` as right operand
/// picks position `p` of the left operand.
proof fn lemma_dot_unit_right(a: Seq<i64>, b: Seq<i64>, p: int, n: int)
    requires
        0 <= p < n,
        n <= a.len(),
        n <= b.len(),
        forall|k: int| 0 <= k < n ==> #[trigger] b[k] == if k == p {
            1i64
        } else {
            0i64
        },
    ensures
        dot_upto(a, b, n) == a[p],
{
    lemma_dot_unit_right_upto(a, b, p, n);
}

proof fn lemma_dot_unit_right_upto(a: Seq<i64>, b: Seq<i64>, p: int, n: int)
    requires
        0 <= p,
        0 <= n <= a.len(),
        n <= b.len(),
        forall|k: int| 0 <= k < n ==> #[trigger] b[k] == if k == p {
            1i64
        } else {
            0i64
        },
    ensures
        dot_upto(a, b, n) == if p < n {
            a[p] as int
        } else {
            0
        },
    decreases n,
{
    if n > 0 {
        lemma_dot_unit_right_upto(a, b, p, n - 1);
        if n - 1 == p {
            assert(a[n - 1] * b[n - 1] == a[n - 1]);
        } else {
            assert(a[n - 1] * b[n - 1] == 0);
        }
    }
}

/// Two well-formed matrices of one shape with equal cells have equal buffers.
proof fn lemma_same_cells<T>(a: Matrix<T>, b: Matrix<T>)
    requires
        a.wf(),
        b.wf(),
        a.rows() == b.rows(),
        a.cols() == b.cols(),
        forall|r: int, c: int| 0 <= r < a.rows() && 0 <= c < a.cols() ==> #[trigger] a.at(r, c) == b.at(r, c),
    ensures
        a@ == b@,
{
    let rows = a.rows() as int;
    let cols = a.cols() as int;
    assert forall|k: int| 0 <= k < a@.len() implies #[trigger] a@[k] == b@[k] by {
        let r = k % rows;
        let c = k / rows;
        assert(rows > 0) by (nonlinear_arith)
            requires
                0 <= k < rows * cols,
                0 <= cols,
        ;
        vstd::arithmetic::div_mod::lemma_fundamental_div_mod(k, rows);
        assert(0 <= r < rows);
        assert(0 <= c < cols) by (nonlinear_arith)
            requires
                k == rows * c + r,
                0 <= r < rows,
                0 <= k < rows * cols,
        ;
        assert(a.at(r, c) == b.at(r, c));
        assert(c * rows + r == k);
    }
    assert(a@ =~= b@);
}

/// Two different cells of a buffer with `rows` rows have different offsets.
pub(crate) proof fn lemma_cell_distinct(rows: int, r1: int, c1: int, r2: int, c2: int)
    requires
        0 <= r1 < rows,
        0 <= r2 < rows,
        r1 != r2 || c1 != c2,
    ensures
        c1 * rows + r1 != c2 * rows + r2,
{
    if c1 == c2 {
    } else if c1 < c2 {
        assert(c1 * rows + r1 < c2 * rows + r2) by (nonlinear_arith)
            requires
                0 <= r1 < rows,
                0 <= r2,
                c1 < c2,
        ;
    } else {
        assert(c2 * rows + r2 < c1 * rows + r1) by (nonlinear_arith)
            requires
                0 <= r2 < rows,
                0 <= r1,
                c2 < c1,
        ;
    }
}

/// The cell in row `r` and column `c` of a `rows x cols` buffer lies inside it.
pub(crate) proof fn lemma_cell_in_bounds(rows: int, cols: int, r: int, c: int)
    requires
        0 <= r < rows,
        0 <= c < cols,
    ensures
        0 <= c * rows + r < rows * cols,
{
    assert(0 <= c * rows + r < rows * cols) by (nonlinear_arith)
        requires
            0 <= r < rows,
            0 <= c < cols,
    ;
}

/// Column `c` of a `rows x cols` buffer lies inside it.
proof fn lemma_col_in_bounds(rows: int, cols: int, c: int)
    requires
        0 <= rows,
        0 <= c < cols,
    ensures
        0 <= c * rows,
        (c + 1) * rows <= rows * cols,
        c * rows + rows == (c + 1) * rows,
{
    assert((c + 1) * rows <= rows * cols) by (nonlinear_arith)
        requires
            0 <= rows,
            0 <= c < cols,
    ;
    assert(0 <= c * rows) by (nonlinear_arith)
        requires
            0 <= rows,
            0 <= c,
    ;
    assert(c * rows + rows == (c + 1) * rows) by (nonlinear_arith);
}

} // verus!
