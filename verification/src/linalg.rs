//! Dense `i128` matrices and column vectors held in `ndarray` arrays, with
//! the few array operations that the power-of-two branch performs on them.
use vstd::prelude::*;
use ndarray::{Array1, Array2};

verus! {

/// A dense matrix of `i128` entries, held in an `ndarray` array.
#[verifier::external_body]
pub struct DenseMatrix {
    inner: Array2<i128>,
}

/// A dense column vector of `i128` entries, held in an `ndarray` array.
#[verifier::external_body]
pub struct DenseColumn {
    inner: Array1<i128>,
}

/// The rows of a matrix, each a sequence of its entries.
pub uninterp spec fn matrix_rows(m: DenseMatrix) -> Seq<Seq<i128>>;

/// The number of columns a matrix was made with.
pub uninterp spec fn matrix_width(m: DenseMatrix) -> nat;

/// The entries of a column vector.
pub uninterp spec fn column_entries(v: DenseColumn) -> Seq<i128>;

/// `m` is a `rows x width` matrix: every row has `width` entries.
pub open spec fn matrix_shaped(m: DenseMatrix, rows: nat, width: nat) -> bool {
    &&& matrix_rows(m).len() == rows
    &&& matrix_width(m) == width
    &&& forall|i: int| 0 <= i < rows ==> (#[trigger] matrix_rows(m)[i]).len() == width
}

/// `sum_{j < n} row_j * v_j` over the integers.
pub open spec fn row_dot(row: Seq<i128>, v: Seq<i128>, n: int) -> int
    decreases n,
{
    if n <= 0 {
        0
    } else {
        row_dot(row, v, n - 1) + row[n - 1] * v[n - 1]
    }
}

/// `sum_{j < n} |row_j * v_j|`.
pub open spec fn row_abs_dot(row: Seq<i128>, v: Seq<i128>, n: int) -> int
    decreases n,
{
    if n <= 0 {
        0
    } else {
        row_abs_dot(row, v, n - 1) + (if row[n - 1] * v[n - 1] < 0 {
            -(row[n - 1] * v[n - 1])
        } else {
            row[n - 1] * v[n - 1]
        })
    }
}

/// `Array2::<i128>::zeros((rows, cols))`: a `rows x cols` matrix of zeros.
/// The constructor panics when the element count overflows `isize`, which the
/// `requires` rules out together with the byte size of the buffer.
#[verifier::external_body]
pub(crate) fn zeros_matrix(rows: usize, cols: usize) -> (m: DenseMatrix)
    requires
        rows * cols * 16 <= isize::MAX,
    ensures
        matrix_shaped(m, rows as nat, cols as nat),
        forall|i: int, j: int| 0 <= i < rows && 0 <= j < cols ==> #[trigger] matrix_rows(m)[i][j] == 0,
{
    DenseMatrix { inner: Array2::<i128>::zeros((rows, cols)) }
}

/// `m[[i, j]]`: the entry in row `i` and column `j` (the index panics out of
/// bounds, which the `requires` rules out).
#[verifier::external_body]
pub(crate) fn matrix_get(m: &DenseMatrix, i: usize, j: usize) -> (x: i128)
    requires
        i < matrix_rows(*m).len(),
        j < matrix_width(*m),
        matrix_rows(*m)[i as int].len() == matrix_width(*m),
    ensures
        x == matrix_rows(*m)[i as int][j as int],
{
    m.inner[[i, j]]
}

/// `m[[i, j]] = x`: overwrites one entry and leaves the others.
#[verifier::external_body]
pub(crate) fn matrix_set(m: &mut DenseMatrix, i: usize, j: usize, x: i128)
    requires
        i < matrix_rows(*old(m)).len(),
        j < matrix_width(*old(m)),
        matrix_rows(*old(m))[i as int].len() == matrix_width(*old(m)),
    ensures
        matrix_width(*final(m)) == matrix_width(*old(m)),
        matrix_rows(*final(m)) == matrix_rows(*old(m)).update(
            i as int,
            matrix_rows(*old(m))[i as int].update(j as int, x),
        ),
{
    m.inner[[i, j]] = x;
}

/// `Array1::<i128>::zeros(n)`: a column of `n` zeros (the constructor panics
/// when the buffer would exceed `isize::MAX` bytes, which the `requires` rules
/// out).
#[verifier::external_body]
pub(crate) fn zeros_column(n: usize) -> (v: DenseColumn)
    requires
        n * 16 <= isize::MAX,
    ensures
        column_entries(v) == Seq::new(n as nat, |i: int| 0i128),
{
    DenseColumn { inner: Array1::<i128>::zeros(n) }
}

/// `v.len()`: the number of entries.
#[verifier::external_body]
pub(crate) fn column_len(v: &DenseColumn) -> (n: usize)
    ensures
        n == column_entries(*v).len(),
{
    v.inner.len()
}

/// `v[i]`: one entry (the index panics out of bounds, which the `requires`
/// rules out).
#[verifier::external_body]
pub(crate) fn column_get(v: &DenseColumn, i: usize) -> (x: i128)
    requires
        i < column_entries(*v).len(),
    ensures
        x == column_entries(*v)[i as int],
{
    v.inner[i]
}

/// `v[i] = x`: overwrites one entry and leaves the others.
#[verifier::external_body]
pub(crate) fn column_set(v: &mut DenseColumn, i: usize, x: i128)
    requires
        i < column_entries(*old(v)).len(),
    ensures
        column_entries(*final(v)) == column_entries(*old(v)).update(i as int, x),
{
    v.inner[i] = x;
}

/// `a + b` on two columns of one length: the entrywise sums. `i128` addition
/// panics on overflow in debug builds, which the `requires` rules out.
#[verifier::external_body]
pub(crate) fn column_add(a: DenseColumn, b: DenseColumn) -> (s: DenseColumn)
    requires
        column_entries(a).len() == column_entries(b).len(),
        forall|i: int|
            0 <= i < column_entries(a).len() ==> i128::MIN <= #[trigger] column_entries(a)[i] + column_entries(b)[i]
                <= i128::MAX,
    ensures
        column_entries(s) == Seq::new(
            column_entries(a).len(),
            |i: int| (column_entries(a)[i] + column_entries(b)[i]) as i128,
        ),
{
    DenseColumn { inner: a.inner + b.inner }
}

/// `m.dot(&v)`: the matrix-vector product, entry `i` being
/// `sum_j m[i][j] * v[j]`. ndarray accumulates each row in `i128` (in an
/// order of its own); the `requires` bounds the sum of the absolute terms of
/// every row, so that no partial sum overflows and the result is exact. A
/// width other than the length of `v` panics, which the `requires` rules out.
#[verifier::external_body]
pub(crate) fn matrix_dot_column(m: &DenseMatrix, v: &DenseColumn) -> (r: DenseColumn)
    requires
        matrix_width(*m) == column_entries(*v).len(),
        forall|i: int| 0 <= i < matrix_rows(*m).len() ==> (#[trigger] matrix_rows(*m)[i]).len() == matrix_width(*m),
        forall|i: int|
            0 <= i < matrix_rows(*m).len() ==> row_abs_dot(
                #[trigger] matrix_rows(*m)[i],
                column_entries(*v),
                matrix_width(*m) as int,
            ) <= i128::MAX,
    ensures
        column_entries(r) == Seq::new(
            matrix_rows(*m).len(),
            |i: int| row_dot(matrix_rows(*m)[i], column_entries(*v), matrix_width(*m) as int) as i128,
        ),
{
    DenseColumn { inner: m.inner.dot(&v.inner) }
}


impl DenseColumn {
    /// A column of `n` zeros.
    pub fn zeros(n: usize) -> (v: DenseColumn)
        requires
            n * 16 <= isize::MAX,
        ensures
            column_entries(v) == Seq::new(n as nat, |i: int| 0i128),
    {
        zeros_column(n)
    }

    /// The column holding the values of `values`, in order.
    pub fn from_vec(values: Vec<i128>) -> (v: DenseColumn)
        requires
            values.len() * 16 <= isize::MAX,
        ensures
            column_entries(v) == values@,
    {
        let n = values.len();
        let mut v = zeros_column(n);
        let mut i: usize = 0;
        while i < n
            invariant
                i <= n,
                n == values.len(),
                column_entries(v).len() == n,
                forall|a: int| 0 <= a < i ==> #[trigger] column_entries(v)[a] == values@[a],
            decreases n - i,
        {
            column_set(&mut v, i, values[i]);
            i = i + 1;
        }
        proof {
            assert(column_entries(v) =~= values@);
        }
        v
    }

    /// The number of entries.
    pub fn len(&self) -> (n: usize)
        ensures
            n == column_entries(*self).len(),
    {
        column_len(self)
    }

    /// Entry `i`.
    pub fn get(&self, i: usize) -> (x: i128)
        requires
            i < column_entries(*self).len(),
        ensures
            x == column_entries(*self)[i as int],
    {
        column_get(self, i)
    }

    /// Overwrites entry `i` with `x`.
    pub fn set(&mut self, i: usize, x: i128)
        requires
            i < column_entries(*old(self)).len(),
        ensures
            column_entries(*final(self)) == column_entries(*old(self)).update(i as int, x),
    {
        column_set(self, i, x)
    }
}

impl DenseMatrix {
    /// The entry in row `i` and column `j`.
    pub fn get(&self, i: usize, j: usize) -> (x: i128)
        requires
            i < matrix_rows(*self).len(),
            j < matrix_width(*self),
            matrix_rows(*self)[i as int].len() == matrix_width(*self),
        ensures
            x == matrix_rows(*self)[i as int][j as int],
    {
        matrix_get(self, i, j)
    }

    /// The product of this matrix with the column `v`: entry `i` is
    /// `sum_j self[i][j] * v[j]`.
    pub fn dot(&self, v: &DenseColumn) -> (r: DenseColumn)
        requires
            matrix_width(*self) == column_entries(*v).len(),
            forall|i: int|
                0 <= i < matrix_rows(*self).len() ==> (#[trigger] matrix_rows(*self)[i]).len() == matrix_width(*self),
            forall|i: int|
                0 <= i < matrix_rows(*self).len() ==> row_abs_dot(
                    #[trigger] matrix_rows(*self)[i],
                    column_entries(*v),
                    matrix_width(*self) as int,
                ) <= i128::MAX,
        ensures
            column_entries(r) == Seq::new(
                matrix_rows(*self).len(),
                |i: int| row_dot(matrix_rows(*self)[i], column_entries(*v), matrix_width(*self) as int) as i128,
            ),
    {
        matrix_dot_column(self, v)
    }
}

} // verus!
