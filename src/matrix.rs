//! A dense matrix stored row-major in one buffer.
use vstd::prelude::*;
use vstd::arithmetic::div_mod::lemma_fundamental_div_mod_converse;
use vstd::std_specs::ops::{AddSpec, MulSpec};
use crate::num::{Num, exact, total, zero};

verus! {

/// A `rows` by `cols` matrix; the cell at `(r, c)` is `es[r * cols + c]`.
///
/// The last three fields only say how the matrix is printed.
#[derive(Clone, Debug)]
pub struct Mat<T> {
    pub rows: usize,
    pub cols: usize,
    pub es: Vec<T>,
    pub fmt_mantissa: usize,
    pub fmt_padding: usize,
    pub fmt_name: Option<String>,
}

/// The mathematical content of a matrix: its shape and its values, row-major.
pub struct MatView<T> {
    pub rows: nat,
    pub cols: nat,
    pub es: Seq<T>,
}

impl<T> MatView<T> {
    pub open spec fn at(&self, r: int, c: int) -> T {
        self.es[index_of(r, c, self.cols as int)]
    }
}

impl<T> View for Mat<T> {
    type V = MatView<T>;

    open spec fn view(&self) -> MatView<T> {
        MatView { rows: self.rows as nat, cols: self.cols as nat, es: self.es@ }
    }
}

/// Where cell `(r, c)` lives in the buffer of a matrix with `cols` columns.
pub open spec fn index_of(r: int, c: int, cols: int) -> int {
    r * cols + c
}

pub proof fn lemma_index_in_bounds(r: int, c: int, rows: int, cols: int)
    requires
        0 <= r < rows,
        0 <= c < cols,
    ensures
        0 <= index_of(r, c, cols) < rows * cols,
        index_of(r, 0, cols) + cols <= rows * cols,
{
    assert((r + 1) * cols <= rows * cols) by (nonlinear_arith)
        requires
            0 <= r < rows,
            0 <= c < cols,
    ;
    assert(0 <= r * cols) by (nonlinear_arith)
        requires
            0 <= r,
            0 <= c < cols,
    ;
    assert((r + 1) * cols == r * cols + cols) by (nonlinear_arith);
}


/// Row `i` of `a` times column `j` of `b` over the first `n` terms, summed
/// from zero in order of `k`.
pub open spec fn dot_acc<T: Num>(a: Mat<T>, b: Mat<T>, i: int, j: int, n: nat) -> T
    decreases n,
{
    if n == 0 {
        zero::<T>()
    } else {
        let k = n - 1;
        dot_acc(a, b, i, j, k as nat).add_spec(a.at(i, k).mul_spec(b.at(k, j)))
    }
}

/// `m` is the product of `a` and `b`: its shape is `a.rows` by `b.cols`, and,
/// where the arithmetic is exact, each cell is the dot product of a row of `a`
/// with a column of `b`.
pub open spec fn is_product<T: Num>(m: Mat<T>, a: Mat<T>, b: Mat<T>) -> bool {
    &&& m.wf()
    &&& m.rows == a.rows
    &&& m.cols == b.cols
    &&& exact::<T>() ==> forall|i: int, j: int|
        0 <= i < m.rows && 0 <= j < m.cols ==> #[trigger] m.at(i, j) == dot_acc(
            a,
            b,
            i,
            j,
            a.cols as nat,
        )
}

/// `m` is the elementwise sum of `a` and `b`, which have one shape.
pub open spec fn is_sum<T: Num>(m: Mat<T>, a: Mat<T>, b: Mat<T>) -> bool {
    &&& m.wf()
    &&& m.same_shape(&a)
    &&& exact::<T>() ==> forall|i: int|
        0 <= i < m.es@.len() ==> #[trigger] m.es@[i] == a.es@[i].add_spec(b.es@[i])
}

/// Whether extraction drops the value at position `i` of the source when
/// `j` values have been kept so far: it falls on the last column of a sample
/// and the destination has just completed a row.
pub open spec fn skips(i: int, j: int, stride: int, cols: int) -> bool {
    (i + 1) % stride == 0 && j % cols == 0
}

/// The values that feature extraction keeps from the first `i` values of `src`.
pub open spec fn kept<T>(src: Seq<T>, stride: int, cols: int, i: int) -> Seq<T>
    decreases i,
{
    if i <= 0 {
        Seq::empty()
    } else {
        let prev = kept(src, stride, cols, i - 1);
        if skips(i - 1, prev.len() as int, stride, cols) {
            prev
        } else {
            prev.push(src[i - 1])
        }
    }
}

/// Every `stride`-th value of `src`, starting with the first.
pub open spec fn every_nth<T>(src: Seq<T>, stride: int) -> Seq<T>
    decreases src.len(),
{
    if stride <= 0 || src.len() == 0 {
        Seq::empty()
    } else if stride >= src.len() {
        seq![src[0]]
    } else {
        seq![src[0]] + every_nth(src.subrange(stride, src.len() as int), stride)
    }
}

/// The values that extraction writes into a matrix with `cols` columns: every
/// `stride`-th value for a single column, otherwise all values but the dropped
/// label column.
pub open spec fn extracted<T>(src: Seq<T>, stride: int, cols: int) -> Seq<T> {
    if cols == 1 {
        every_nth(src, stride)
    } else {
        kept(src, stride, cols, src.len() as int)
    }
}

proof fn lemma_kept_grows<T>(src: Seq<T>, stride: int, cols: int, i: int, n: int)
    requires
        0 <= i <= n,
    ensures
        kept(src, stride, cols, i).len() <= kept(src, stride, cols, n).len(),
    decreases n - i,
{
    if i < n {
        lemma_kept_grows(src, stride, cols, i, n - 1);
    }
}

/// Distinct cells of a matrix live at distinct places of its buffer.
pub proof fn lemma_index_distinct(r1: int, c1: int, r2: int, c2: int, cols: int)
    requires
        0 <= r1 && 0 <= r2,
        0 <= c1 < cols,
        0 <= c2 < cols,
        r1 != r2 || c1 != c2,
    ensures
        index_of(r1, c1, cols) != index_of(r2, c2, cols),
{
    if r1 < r2 {
        assert(r1 * cols + c1 < r2 * cols + c2) by (nonlinear_arith)
            requires
                r1 < r2,
                0 <= c1 < cols,
                0 <= c2,
        ;
    } else if r2 < r1 {
        assert(r2 * cols + c2 < r1 * cols + c1) by (nonlinear_arith)
            requires
                r2 < r1,
                0 <= c2 < cols,
                0 <= c1,
        ;
    }
}

pub proof fn lemma_row_in_bounds(r: int, rows: int, cols: int)
    requires
        0 <= r < rows,
        0 <= cols,
    ensures
        0 <= index_of(r, 0, cols),
        index_of(r, 0, cols) + cols <= rows * cols,
{
    assert((r + 1) * cols <= rows * cols) by (nonlinear_arith)
        requires
            0 <= r < rows,
            0 <= cols,
    ;
    assert(0 <= r * cols) by (nonlinear_arith)
        requires
            0 <= r,
            0 <= cols,
    ;
    assert((r + 1) * cols == r * cols + cols) by (nonlinear_arith);
}

proof fn lemma_next_row(i: int, cols: int)
    ensures
        (i + 1) * cols == i * cols + cols,
{
    assert((i + 1) * cols == i * cols + cols) by (nonlinear_arith);
}

impl<T> Mat<T> {
    /// The buffer holds exactly one value per cell.
    pub open spec fn wf(&self) -> bool {
        self.es@.len() == self.rows * self.cols
    }

    pub open spec fn at(&self, r: int, c: int) -> T {
        self.es@[index_of(r, c, self.cols as int)]
    }

    pub open spec fn same_shape<U>(&self, other: &Mat<U>) -> bool {
        self.rows == other.rows && self.cols == other.cols
    }
}

impl<T: Num> Mat<T> {
    /// A `rows` by `cols` matrix with every cell zero.
    pub fn new(rows: usize, cols: usize) -> (m: Self)
        requires
            rows * cols <= usize::MAX,
        ensures
            m.wf(),
            m.rows == rows,
            m.cols == cols,
            exact::<T>() ==> forall|i: int| 0 <= i < m.es@.len() ==> m.es@[i] == zero::<T>(),
            m.fmt_name.is_none(),
    {
        let z = T::from(0u8);
        let n: usize = rows * cols;
        let mut es: Vec<T> = Vec::with_capacity(n);
        let mut i: usize = 0;
        while i < n
            invariant
                i <= n,
                es@.len() == i,
                forall|k: int| 0 <= k < i ==> es@[k] == z,
            decreases n - i,
        {
            es.push(z);
            i = i + 1;
        }
        Mat { rows, cols, es, fmt_mantissa: 7, fmt_padding: 0, fmt_name: None }
    }

    /// Adds `other`, of the same shape, to `self` cell by cell.
    pub fn apply_sum(&mut self, other: &Self)
        requires
            total::<T>(),
            old(self).wf(),
            other.wf(),
            other.same_shape(old(self)),
        ensures
            is_sum(*final(self), *old(self), *other),
            final(self).fmt_name == old(self).fmt_name,
    {
        let n = self.es.len();
        let mut i: usize = 0;
        while i < n
            invariant
                i <= n,
                total::<T>(),
                self.rows == old(self).rows && self.cols == old(self).cols,
                self.fmt_name == old(self).fmt_name,
                self.es@.len() == n,
                n == old(self).es@.len(),
                n == other.es@.len(),
                forall|k: int| i <= k < n ==> self.es@[k] == old(self).es@[k],
                exact::<T>() ==> forall|k: int|
                    0 <= k < i ==> #[trigger] self.es@[k] == old(self).es@[k].add_spec(
                        other.es@[k],
                    ),
            decreases n - i,
        {
            let v = self.es[i] + other.es[i];
            self.es.set(i, v);
            i = i + 1;
        }
    }

    /// `self` with `other`, of the same shape, added cell by cell.
    pub fn summed_with(self, other: &Self) -> (m: Self)
        requires
            total::<T>(),
            self.wf(),
            other.wf(),
            other.same_shape(&self),
        ensures
            is_sum(m, self, *other),
    {
        let mut m = self;
        m.apply_sum(other);
        m
    }

    /// The elementwise sum of `self` and `other`, which have one shape.
    pub fn sum(&self, other: &Self) -> (m: Self)
        requires
            total::<T>(),
            self.wf(),
            other.wf(),
            other.same_shape(self),
        ensures
            is_sum(m, *self, *other),
    {
        let n = self.es.len();
        let mut es: Vec<T> = Vec::with_capacity(n);
        let mut i: usize = 0;
        while i < n
            invariant
                i <= n,
                total::<T>(),
                es@.len() == i,
                n == self.es@.len(),
                n == other.es@.len(),
                exact::<T>() ==> forall|k: int|
                    0 <= k < i ==> #[trigger] es@[k] == self.es@[k].add_spec(other.es@[k]),
            decreases n - i,
        {
            es.push(self.es[i] + other.es[i]);
            i = i + 1;
        }
        Mat {
            rows: self.rows,
            cols: self.cols,
            es,
            fmt_mantissa: self.fmt_mantissa,
            fmt_padding: self.fmt_padding,
            fmt_name: None,
        }
    }

    /// Row `r` as a 1 by `cols` matrix.
    pub fn row(&self, r: usize) -> (m: Self)
        requires
            self.wf(),
            r < self.rows,
        ensures
            m.wf(),
            m.rows == 1,
            m.cols == self.cols,
            m.es@ == self.es@.subrange(
                index_of(r as int, 0, self.cols as int),
                index_of(r as int, 0, self.cols as int) + self.cols,
            ),
            m.fmt_name.is_none(),
    {
        let len = self.es.len();
        proof {
            lemma_row_in_bounds(r as int, self.rows as int, self.cols as int);
        }
        let l: usize = r * self.cols;
        let cols = self.cols;
        let mut es: Vec<T> = Vec::with_capacity(cols);
        let mut k: usize = 0;
        while k < cols
            invariant
                self.wf(),
                cols == self.cols,
                len == self.es@.len(),
                l + cols <= len,
                k <= cols,
                es@ == self.es@.subrange(l as int, l + k),
            decreases cols - k,
        {
            es.push(self.es[l + k]);
            k = k + 1;
            assert(es@ =~= self.es@.subrange(l as int, l + k));
        }
        Mat { rows: 1, cols, es, fmt_mantissa: 7, fmt_padding: 0, fmt_name: None }
    }

    /// Fills `self` from `src`, a run of samples `stride` values wide whose last
    /// value is a label. A single-column matrix takes every `stride`-th value
    /// (hand it the source from the label's offset on); any other takes the
    /// values in order, dropping each one that falls on a sample's last column
    /// just when a row of `self` is complete. Cells past the extracted values
    /// keep what they held.
    pub fn fill_from_submat(&mut self, src: &[T], stride: usize)
        requires
            stride > 0,
            old(self).cols > 0 || src@.len() == 0,
            extracted(src@, stride as int, old(self).cols as int).len() <= old(self).es@.len(),
        ensures
            final(self).rows == old(self).rows && final(self).cols == old(self).cols,
            final(self).es@ == extracted(src@, stride as int, old(self).cols as int)
                + old(self).es@.subrange(
                extracted(src@, stride as int, old(self).cols as int).len() as int,
                old(self).es@.len() as int,
            ),
    {
        let ghost vals = extracted(src@, stride as int, self.cols as int);
        let n = src.len();
        let len = self.es.len();
        let mut j: usize = 0;
        if self.cols == 1 {
            assert(src@.subrange(0, n as int) =~= src@);
            assert(self.es@.subrange(0, 0) =~= Seq::<T>::empty());
            let mut i: usize = 0;
            while i < n
                invariant
                    stride > 0,
                    n == src@.len(),
                    vals == every_nth(src@, stride as int),
                    self.rows == old(self).rows && self.cols == old(self).cols,
                    self.es@.len() == old(self).es@.len(),
                    len == self.es@.len(),
                    vals.len() <= self.es@.len(),
                    i <= n,
                    j <= self.es@.len(),
                    vals == self.es@.subrange(0, j as int) + every_nth(
                        src@.subrange(i as int, n as int),
                        stride as int,
                    ),
                    forall|k: int| j <= k < self.es@.len() ==> self.es@[k] == old(self).es@[k],
                decreases n - i,
            {
                let ghost rest = src@.subrange(i as int, n as int);
                assert(rest.len() > 0);
                assert(j < vals.len());
                self.es.set(j, src[i]);
                j = j + 1;
                proof {
                    if stride < n - i {
                        assert(rest.subrange(stride as int, rest.len() as int) =~= src@.subrange(
                            i + stride,
                            n as int,
                        ));
                    }
                }
                if stride >= n - i {
                    i = n;
                } else {
                    i = i + stride;
                }
                assert(vals =~= self.es@.subrange(0, j as int) + every_nth(
                    src@.subrange(i as int, n as int),
                    stride as int,
                ));
            }
            assert(self.es@ =~= vals + old(self).es@.subrange(
                vals.len() as int,
                old(self).es@.len() as int,
            ));
        } else {
            assert(self.es@.subrange(0, 0) =~= Seq::<T>::empty());
            let mut i: usize = 0;
            while i < n
                invariant
                    stride > 0,
                    n > 0 ==> self.cols > 0,
                    self.cols != 1,
                    n == src@.len(),
                    vals == kept(src@, stride as int, self.cols as int, n as int),
                    self.rows == old(self).rows && self.cols == old(self).cols,
                    self.es@.len() == old(self).es@.len(),
                    len == self.es@.len(),
                    vals.len() <= self.es@.len(),
                    i <= n,
                    j <= vals.len(),
                    self.es@.subrange(0, j as int) == kept(
                        src@,
                        stride as int,
                        self.cols as int,
                        i as int,
                    ),
                    forall|k: int| j <= k < self.es@.len() ==> self.es@[k] == old(self).es@[k],
                decreases n - i,
            {
                proof {
                    lemma_kept_grows(src@, stride as int, self.cols as int, i + 1, n as int);
                }
                if (i + 1) % stride == 0 && j % self.cols == 0 {
                } else {
                    self.es.set(j, src[i]);
                    j = j + 1;
                }
                i = i + 1;
                assert(self.es@.subrange(0, j as int) =~= kept(
                    src@,
                    stride as int,
                    self.cols as int,
                    i as int,
                ));
            }
            assert(self.es@ =~= vals + old(self).es@.subrange(
                vals.len() as int,
                old(self).es@.len() as int,
            ));
        }
    }

    /// `self` filled from `src` as `fill_from_submat` does it.
    pub fn submat_from(self, src: &[T], stride: usize) -> (m: Self)
        requires
            stride > 0,
            self.cols > 0 || src@.len() == 0,
            extracted(src@, stride as int, self.cols as int).len() <= self.es@.len(),
        ensures
            m.rows == self.rows && m.cols == self.cols,
            m.es@ == extracted(src@, stride as int, self.cols as int) + self.es@.subrange(
                extracted(src@, stride as int, self.cols as int).len() as int,
                self.es@.len() as int,
            ),
    {
        let mut m = self;
        m.fill_from_submat(src, stride);
        m
    }

    /// The matrix product of `self` and `other`, where `self.cols == other.rows`.
    pub fn dot(&self, other: &Self) -> (m: Self)
        requires
            total::<T>(),
            self.wf(),
            other.wf(),
            self.cols == other.rows,
            self.rows * other.cols <= usize::MAX,
        ensures
            is_product(m, *self, *other),
            m.fmt_name.is_none(),
    {
        let rows = self.rows;
        let cols = other.cols;
        let inner = self.cols;
        let mut es: Vec<T> = Vec::with_capacity(rows * cols);
        let mut i: usize = 0;
        while i < rows
            invariant
                total::<T>(),
                self.wf(),
                other.wf(),
                rows == self.rows && cols == other.cols && inner == self.cols,
                inner == other.rows,
                i <= rows,
                es@.len() == i * cols,
                exact::<T>() ==> forall|r: int, c: int|
                    0 <= r < i && 0 <= c < cols ==> #[trigger] es@[index_of(r, c, cols as int)]
                        == dot_acc(*self, *other, r, c, inner as nat),
            decreases rows - i,
        {
            let mut j: usize = 0;
            while j < cols
                invariant
                    total::<T>(),
                    self.wf(),
                    other.wf(),
                    rows == self.rows && cols == other.cols && inner == self.cols,
                    inner == other.rows,
                    i < rows,
                    j <= cols,
                    es@.len() == i * cols + j,
                    exact::<T>() ==> forall|r: int, c: int|
                        0 <= r < i && 0 <= c < cols ==> #[trigger] es@[index_of(
                            r,
                            c,
                            cols as int,
                        )] == dot_acc(*self, *other, r, c, inner as nat),
                    exact::<T>() ==> forall|c: int|
                        0 <= c < j ==> #[trigger] es@[index_of(i as int, c, cols as int)]
                            == dot_acc(*self, *other, i as int, c, inner as nat),
                decreases cols - j,
            {
                let mut acc = T::from(0u8);
                let mut k: usize = 0;
                while k < inner
                    invariant
                        total::<T>(),
                        self.wf(),
                        other.wf(),
                        rows == self.rows && cols == other.cols && inner == self.cols,
                        inner == other.rows,
                        i < rows,
                        j < cols,
                        k <= inner,
                        exact::<T>() ==> acc == dot_acc(*self, *other, i as int, j as int, k as nat),
                    decreases inner - k,
                {
                    acc = acc + self.get_at(i, k) * other.get_at(k, j);
                    k = k + 1;
                }
                proof {
                    lemma_index_in_bounds(i as int, j as int, rows as int, cols as int);
                    assert forall|r: int, c: int| 0 <= r < i && 0 <= c < cols implies index_of(
                        r,
                        c,
                        cols as int,
                    ) < i * cols + j by {
                        lemma_index_in_bounds(r, c, i as int, cols as int);
                    }
                }
                es.push(acc);
                j = j + 1;
            }
            proof {
                lemma_next_row(i as int, cols as int);
            }
            i = i + 1;
        }
        Mat { rows, cols, es, fmt_mantissa: 7, fmt_padding: 0, fmt_name: None }
    }
}

impl<T: Copy> Mat<T> {
    /// Sets how many spaces each printed line starts with.
    pub fn fmt_pad(self, n: usize) -> (m: Self)
        ensures
            m.rows == self.rows && m.cols == self.cols && m.es@ == self.es@,
            m.fmt_padding == n,
            m.fmt_mantissa == self.fmt_mantissa && m.fmt_name == self.fmt_name,
    {
        let mut m = self;
        m.fmt_padding = n;
        m
    }

    /// Sets how many digits each printed value has after the point.
    pub fn fmt_mantissa(self, n: usize) -> (m: Self)
        ensures
            m.rows == self.rows && m.cols == self.cols && m.es@ == self.es@,
            m.fmt_mantissa == n,
            m.fmt_padding == self.fmt_padding && m.fmt_name == self.fmt_name,
    {
        let mut m = self;
        m.fmt_mantissa = n;
        m
    }

    /// Sets the name the matrix is printed under.
    pub fn fmt_name(self, n: String) -> (m: Self)
        ensures
            m.rows == self.rows && m.cols == self.cols && m.es@ == self.es@,
            m.fmt_name == Some(n),
            m.fmt_padding == self.fmt_padding && m.fmt_mantissa == self.fmt_mantissa,
    {
        let mut m = self;
        m.fmt_name = Some(n);
        m
    }

    /// The value at row `r`, column `c`.
    pub fn get_at(&self, r: usize, c: usize) -> (v: T)
        requires
            self.wf(),
            r < self.rows,
            c < self.cols,
        ensures
            v == self.at(r as int, c as int),
    {
        let _n = self.es.len();
        proof {
            lemma_index_in_bounds(r as int, c as int, self.rows as int, self.cols as int);
        }
        self.es[r * self.cols + c]
    }

    /// The cell at row `r`, column `c`, to change in place.
    pub fn get_mut_at(&mut self, r: usize, c: usize) -> (e: &mut T)
        requires
            old(self).wf(),
            r < old(self).rows,
            c < old(self).cols,
        ensures
            *e == old(self).at(r as int, c as int),
            final(self).rows == old(self).rows && final(self).cols == old(self).cols,
            final(self).fmt_name == old(self).fmt_name,
            final(self).es@ == old(self).es@.update(
                index_of(r as int, c as int, old(self).cols as int),
                *final(e),
            ),
    {
        let _n = self.es.len();
        proof {
            lemma_index_in_bounds(r as int, c as int, self.rows as int, self.cols as int);
        }
        let i: usize = r * self.cols + c;
        &mut self.es[i]
    }

    /// Writes `v` at row `r`, column `c`.
    pub fn set_at(&mut self, r: usize, c: usize, v: T)
        requires
            old(self).wf(),
            r < old(self).rows,
            c < old(self).cols,
        ensures
            final(self).wf(),
            final(self).same_shape(old(self)),
            final(self).es@ == old(self).es@.update(
                index_of(r as int, c as int, old(self).cols as int),
                v,
            ),
    {
        let _n = self.es.len();
        proof {
            lemma_index_in_bounds(r as int, c as int, self.rows as int, self.cols as int);
        }
        let i: usize = r * self.cols + c;
        self.es.set(i, v);
    }

    /// Replaces the value at row `r`, column `c` by `f` of it.
    pub fn apply_at<F: Fn(T) -> T>(&mut self, r: usize, c: usize, f: F)
        requires
            old(self).wf(),
            r < old(self).rows,
            c < old(self).cols,
            f.requires((old(self).at(r as int, c as int),)),
        ensures
            final(self).wf(),
            final(self).same_shape(old(self)),
            f.ensures(
                (old(self).at(r as int, c as int),),
                final(self).at(r as int, c as int),
            ),
            final(self).es@ == old(self).es@.update(
                index_of(r as int, c as int, old(self).cols as int),
                final(self).at(r as int, c as int),
            ),
    {
        let v = f(self.get_at(r, c));
        self.set_at(r, c, v);
        proof {
            lemma_index_in_bounds(r as int, c as int, self.rows as int, self.cols as int);
        }
    }

    /// Replaces every value by `f` of it.
    pub fn apply_all<F: Fn(T) -> T>(&mut self, f: F)
        requires
            forall|i: int| 0 <= i < old(self).es@.len() ==> f.requires((#[trigger] old(self).es@[i],)),
        ensures
            final(self).rows == old(self).rows && final(self).cols == old(self).cols,
            final(self).es@.len() == old(self).es@.len(),
            forall|i: int|
                0 <= i < old(self).es@.len() ==> f.ensures(
                    (old(self).es@[i],),
                    #[trigger] final(self).es@[i],
                ),
    {
        let n = self.es.len();
        let mut i: usize = 0;
        while i < n
            invariant
                i <= n,
                n == old(self).es@.len(),
                self.rows == old(self).rows && self.cols == old(self).cols,
                self.es@.len() == n,
                forall|k: int| i <= k < n ==> self.es@[k] == old(self).es@[k],
                forall|k: int| 0 <= k < n ==> f.requires((#[trigger] old(self).es@[k],)),
                forall|k: int| 0 <= k < i ==> f.ensures((old(self).es@[k],), #[trigger] self.es@[k]),
            decreases n - i,
        {
            let v = f(self.es[i]);
            self.es.set(i, v);
            i = i + 1;
        }
    }

    /// `self` with `f` applied to every value.
    pub fn with_all<F: Fn(T) -> T>(self, f: F) -> (m: Self)
        requires
            forall|i: int| 0 <= i < self.es@.len() ==> f.requires((#[trigger] self.es@[i],)),
        ensures
            m.rows == self.rows && m.cols == self.cols,
            m.es@.len() == self.es@.len(),
            forall|i: int|
                0 <= i < self.es@.len() ==> f.ensures((self.es@[i],), #[trigger] m.es@[i]),
    {
        let mut m = self;
        m.apply_all(f);
        m
    }

    /// Sets every value to `v`.
    pub fn fill(&mut self, v: T)
        ensures
            final(self).rows == old(self).rows && final(self).cols == old(self).cols,
            final(self).es@ == Seq::new(old(self).es@.len(), |_i: int| v),
    {
        let n = self.es.len();
        let mut i: usize = 0;
        while i < n
            invariant
                i <= n,
                self.rows == old(self).rows && self.cols == old(self).cols,
                self.es@.len() == n,
                n == old(self).es@.len(),
                forall|k: int| 0 <= k < i ==> self.es@[k] == v,
            decreases n - i,
        {
            self.es.set(i, v);
            i = i + 1;
        }
        assert(self.es@ =~= Seq::new(n as nat, |_i: int| v));
    }

    /// `self` with every value set to `v`.
    pub fn filled(self, v: T) -> (m: Self)
        ensures
            m.rows == self.rows && m.cols == self.cols,
            m.es@ == Seq::new(self.es@.len(), |_i: int| v),
    {
        let mut m = self;
        m.fill(v);
        m
    }

    /// Copies the values of `other`, which holds as many, into `self`.
    pub fn fill_from(&mut self, other: &Self)
        requires
            other.es@.len() == old(self).es@.len(),
        ensures
            final(self).rows == old(self).rows && final(self).cols == old(self).cols,
            final(self).es@ == other.es@,
    {
        let n = self.es.len();
        let mut i: usize = 0;
        while i < n
            invariant
                i <= n,
                self.rows == old(self).rows && self.cols == old(self).cols,
                self.es@.len() == n,
                n == other.es@.len(),
                forall|k: int| 0 <= k < i ==> self.es@[k] == other.es@[k],
            decreases n - i,
        {
            self.es.set(i, other.es[i]);
            i = i + 1;
        }
        assert(self.es@ =~= other.es@);
    }

    /// `self` holding the values of `other`, which holds as many.
    pub fn filled_from(self, other: &Self) -> (m: Self)
        requires
            other.es@.len() == self.es@.len(),
        ensures
            m.rows == self.rows && m.cols == self.cols,
            m.es@ == other.es@,
    {
        let mut m = self;
        m.fill_from(other);
        m
    }
}

/// The features of the first `q` samples of `src`, each `stride` wide with
/// its label last, one after another.
pub open spec fn features<T>(src: Seq<T>, stride: int, q: int) -> Seq<T>
    decreases q,
{
    if q <= 0 {
        Seq::empty()
    } else {
        features(src, stride, q - 1) + src.subrange((q - 1) * stride, (q - 1) * stride + stride - 1)
    }
}

proof fn lemma_kept_sample_prefix<T>(src: Seq<T>, stride: int, q: int, p: int)
    requires
        stride >= 2,
        0 <= q,
        0 <= p <= stride - 1,
        q * stride + stride <= src.len(),
        kept(src, stride, stride - 1, q * stride) == features(src, stride, q),
        features(src, stride, q).len() == q * (stride - 1),
    ensures
        kept(src, stride, stride - 1, q * stride + p) == features(src, stride, q) + src.subrange(
            q * stride,
            q * stride + p,
        ),
    decreases p,
{
    let base = q * stride;
    if p == 0 {
        assert(src.subrange(base, base) =~= Seq::<T>::empty());
        assert(features(src, stride, q) + Seq::<T>::empty() =~= features(src, stride, q));
    } else {
        lemma_kept_sample_prefix(src, stride, q, p - 1);
        lemma_fundamental_div_mod_converse(base + p, stride, q, p);
        assert(!skips(base + p - 1, kept(src, stride, stride - 1, base + p - 1).len() as int, stride, stride - 1));
        assert(features(src, stride, q) + src.subrange(base, base + p) =~= (features(src, stride, q)
            + src.subrange(base, base + p - 1)).push(src[base + p - 1]));
    }
}

proof fn lemma_kept_samples<T>(src: Seq<T>, stride: int, q: int)
    requires
        stride >= 2,
        0 <= q,
        q * stride <= src.len(),
    ensures
        kept(src, stride, stride - 1, q * stride) == features(src, stride, q),
        features(src, stride, q).len() == q * (stride - 1),
    decreases q,
{
    if q > 0 {
        let cols = stride - 1;
        lemma_next_row(q - 1, stride);
        lemma_next_row(q - 1, cols);
        lemma_kept_samples(src, stride, q - 1);
        lemma_kept_sample_prefix(src, stride, q - 1, cols);
        let base = (q - 1) * stride;
        let prev = kept(src, stride, cols, base + cols);
        assert(prev.len() == (q - 1) * cols + cols);
        lemma_fundamental_div_mod_converse(base + cols + 1, stride, q, 0);
        lemma_fundamental_div_mod_converse(prev.len() as int, cols, q, 0);
        assert(skips(base + cols, prev.len() as int, stride, cols));
        assert(q * stride == base + cols + 1);
        assert(kept(src, stride, cols, base + cols + 1) == prev);
        assert(features(src, stride, q) == features(src, stride, q - 1) + src.subrange(
            base,
            base + cols,
        ));
        assert(prev =~= features(src, stride, q));
    } else {
        assert(q * stride == 0 && q * (stride - 1) == 0) by (nonlinear_arith)
            requires
                q == 0,
        ;
    }
}

proof fn lemma_features_at<T>(src: Seq<T>, stride: int, q: int, s: int, c: int)
    requires
        stride >= 2,
        0 <= s < q,
        0 <= c < stride - 1,
        q * stride <= src.len(),
    ensures
        features(src, stride, q).len() == q * (stride - 1),
        0 <= s * (stride - 1) + c < q * (stride - 1),
        0 <= s * stride + c < src.len(),
        features(src, stride, q)[s * (stride - 1) + c] == src[s * stride + c],
    decreases q,
{
    lemma_next_row(q - 1, stride);
    lemma_next_row(q - 1, stride - 1);
    lemma_kept_samples(src, stride, q);
    lemma_kept_samples(src, stride, q - 1);
    lemma_index_in_bounds(s, c, q, stride - 1);
    lemma_index_in_bounds(s, c, q, stride);
    if s < q - 1 {
        lemma_features_at(src, stride, q - 1, s, c);
    } else {
        assert(s * (stride - 1) == (q - 1) * (stride - 1));
    }
}

proof fn lemma_every_nth_samples<T>(src: Seq<T>, stride: int, n: int)
    requires
        stride >= 1,
        0 <= n,
        src.len() == n * stride,
    ensures
        every_nth(src, stride).len() == n,
        forall|q: int| 0 <= q < n ==> #[trigger] every_nth(src, stride)[q] == src[q * stride],
    decreases n,
{
    if n > 0 {
        lemma_next_row(n - 1, stride);
        if stride < src.len() {
            let rest = src.subrange(stride, src.len() as int);
            assert((n - 1) * stride + stride == n * stride);
            lemma_every_nth_samples(rest, stride, n - 1);
            assert(every_nth(src, stride) == seq![src[0]] + every_nth(rest, stride));
            assert forall|q: int| 0 <= q < n implies #[trigger] every_nth(src, stride)[q]
                == src[q * stride] by {
                if q > 0 {
                    lemma_next_row(q - 1, stride);
                    lemma_index_in_bounds(q - 1, 0, n - 1, stride);
                }
            }
        } else {
            assert(n == 1) by (nonlinear_arith)
                requires
                    src.len() == n * stride,
                    stride >= src.len(),
                    n > 0,
                    stride >= 1,
            ;
        }
    } else {
        assert(n * stride == 0) by (nonlinear_arith)
            requires
                n == 0,
        ;
    }
}

/// Extracting the features of `n` samples into an `n` by `stride - 1` matrix
/// and reading back row `i` gives sample `i` without its label, in order.
pub proof fn lemma_features_round_trip<T>(
    src: Seq<T>,
    stride: int,
    before: Mat<T>,
    after: Mat<T>,
    i: int,
    r: Mat<T>,
)
    requires
        stride >= 2,
        before.wf(),
        before.cols == stride - 1,
        src.len() == before.rows * stride,
        after.rows == before.rows && after.cols == before.cols,
        after.es@ == extracted(src, stride, before.cols as int) + before.es@.subrange(
            extracted(src, stride, before.cols as int).len() as int,
            before.es@.len() as int,
        ),
        0 <= i < before.rows,
        r.es@ == after.es@.subrange(
            index_of(i, 0, after.cols as int),
            index_of(i, 0, after.cols as int) + after.cols,
        ),
    ensures
        r.es@ == src.subrange(i * stride, i * stride + stride - 1),
{
    let n = before.rows as int;
    let cols = stride - 1;
    let vals = extracted(src, stride, cols);
    if cols == 1 {
        lemma_every_nth_samples(src, stride, n);
        assert(vals.len() == before.es@.len());
        assert(i * cols == i);
        lemma_index_in_bounds(i, 0, n, stride);
        assert(r.es@ =~= src.subrange(i * stride, i * stride + stride - 1));
    } else {
        lemma_kept_samples(src, stride, n);
        assert(vals.len() == before.es@.len());
        lemma_row_in_bounds(i, n, cols);
        assert forall|c: int| 0 <= c < cols implies #[trigger] r.es@[c] == src[i * stride + c] by {
            lemma_features_at(src, stride, n, i, c);
        }
        lemma_index_in_bounds(i, 0, n, stride);
        assert(r.es@ =~= src.subrange(i * stride, i * stride + stride - 1));
    }
}

/// Adding `b` to `a` gives the matrix that adding `a` to `b` gives, when the
/// addition of `T` is exact and commutative.
pub proof fn lemma_sum_commutes<T: Num>(a: Mat<T>, b: Mat<T>, ab: Mat<T>, ba: Mat<T>)
    requires
        exact::<T>(),
        forall|x: T, y: T| #[trigger] x.add_spec(y) == y.add_spec(x),
        a.wf(),
        b.wf(),
        a.same_shape(&b),
        is_sum(ab, a, b),
        is_sum(ba, b, a),
    ensures
        ab.same_shape(&ba),
        ab.es@ == ba.es@,
{
    assert(ab.es@ =~= ba.es@);
}

} // verus!
