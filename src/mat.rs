use vstd::prelude::*;

verus! {

/// Mathematical picture of a matrix: its shape and its entries in
/// row-major order.
pub struct MatModel<T> {
    pub rows: nat,
    pub cols: nat,
    pub data: Seq<T>,
}

impl<T> MatModel<T> {
    /// The entries fill the shape exactly.
    pub open spec fn wf(self) -> bool {
        self.data.len() == self.rows * self.cols
    }

    /// Position of entry `(i, j)` in the row-major storage.
    pub open spec fn offset(self, i: int, j: int) -> int {
        i * self.cols + j
    }

    pub open spec fn at(self, i: int, j: int) -> T {
        self.data[self.offset(i, j)]
    }
}

/// A dense matrix stored row by row.
#[derive(Clone, PartialEq, Eq, Debug)]
pub struct Mat2D<T> {
    num_rows: usize,
    num_columns: usize,
    vec: Vec<T>,
}

impl<T> View for Mat2D<T> {
    type V = MatModel<T>;

    closed spec fn view(&self) -> MatModel<T> {
        MatModel { rows: self.num_rows as nat, cols: self.num_columns as nat, data: self.vec@ }
    }
}

/// For `0 <= i < rows` and `0 <= j < cols`, entry `(i, j)` lies inside a
/// storage of `rows * cols` entries.
pub proof fn lemma_offset_in_bounds(rows: int, cols: int, i: int, j: int)
    requires
        0 <= i < rows,
        0 <= j < cols,
    ensures
        0 <= i * cols + j < rows * cols,
{
    assert(i * cols <= (rows - 1) * cols) by (nonlinear_arith)
        requires
            0 <= i < rows,
            0 <= j < cols,
    ;
    assert((rows - 1) * cols + cols == rows * cols) by (nonlinear_arith);
    assert(0 <= i * cols) by (nonlinear_arith)
        requires
            0 <= i,
            0 <= j < cols,
    ;
}

impl<T: Copy> Mat2D<T> {
    /// Builds a matrix from its entries given row by row.
    pub fn from_rows(vec: Vec<T>, num_rows: usize, num_columns: usize) -> (m: Self)
        requires
            vec@.len() == num_rows * num_columns,
        ensures
            m@.wf(),
            m@.rows == num_rows,
            m@.cols == num_columns,
            m@.data == vec@,
    {
        Mat2D { num_rows, num_columns, vec }
    }

    /// A `num_rows` by `num_columns` matrix whose entries all equal `value`.
    pub fn filled_with(value: T, num_rows: usize, num_columns: usize) -> (m: Self)
        requires
            num_rows * num_columns <= usize::MAX,
        ensures
            m@.wf(),
            m@.rows == num_rows,
            m@.cols == num_columns,
            m@.data == Seq::new((num_rows * num_columns) as nat, |_k: int| value),
    {
        let n: usize = num_rows * num_columns;
        let mut vec: Vec<T> = Vec::with_capacity(n);
        let mut k: usize = 0;
        while k < n
            invariant
                k <= n,
                vec@ == Seq::new(k as nat, |_k: int| value),
            decreases n - k,
        {
            vec.push(value);
            k += 1;
            assert(vec@ =~= Seq::new(k as nat, |_k: int| value));
        }
        Mat2D { num_rows, num_columns, vec }
    }

    /// A copy of the entries, row by row.
    pub fn vec(&self) -> (r: Vec<T>)
        ensures
            r@ == self@.data,
    {
        let mut r: Vec<T> = Vec::with_capacity(self.vec.len());
        let mut k: usize = 0;
        while k < self.vec.len()
            invariant
                k <= self.vec@.len(),
                r@ == self.vec@.subrange(0, k as int),
            decreases self.vec@.len() - k,
        {
            r.push(self.vec[k]);
            k += 1;
            assert(r@ =~= self.vec@.subrange(0, k as int));
        }
        assert(r@ =~= self.vec@);
        r
    }

    /// The storage itself, for direct edits of the entries. A caller that
    /// changes its length breaks the shape.
    pub fn vec_mut(&mut self) -> (r: &mut Vec<T>)
        ensures
            r@ == old(self)@.data,
            final(self)@ == (MatModel { data: final(r)@, ..old(self)@ }),
    {
        &mut self.vec
    }

    pub fn num_rows(&self) -> (r: usize)
        ensures
            r == self@.rows,
    {
        self.num_rows
    }

    pub fn num_columns(&self) -> (r: usize)
        ensures
            r == self@.cols,
    {
        self.num_columns
    }

    /// Number of entries stored.
    pub fn len(&self) -> (r: usize)
        ensures
            r == self@.data.len(),
    {
        self.vec.len()
    }

    /// The shape as `(columns, rows)`.
    pub fn shape(&self) -> (r: (usize, usize))
        ensures
            r.0 == self@.cols,
            r.1 == self@.rows,
    {
        (self.num_columns, self.num_rows)
    }

    /// Entry `(row, column)`.
    pub fn get(&self, row: usize, column: usize) -> (r: &T)
        requires
            self@.wf(),
            row < self@.rows,
            column < self@.cols,
        ensures
            *r == self@.at(row as int, column as int),
    {
        let len = self.vec.len();
        proof {
            lemma_offset_in_bounds(self.num_rows as int, self.num_columns as int, row as int, column as int);
            assert(row * self.num_columns + column < len);
        }
        &self.vec[column + row * self.num_columns]
    }

    /// Replaces entry `(row, column)` by `value`.
    pub fn set(&mut self, row: usize, column: usize, value: T)
        requires
            old(self)@.wf(),
            row < old(self)@.rows,
            column < old(self)@.cols,
        ensures
            final(self)@ == (MatModel {
                data: old(self)@.data.update(old(self)@.offset(row as int, column as int), value),
                ..old(self)@
            }),
            final(self)@.wf(),
    {
        let len = self.vec.len();
        proof {
            lemma_offset_in_bounds(self.num_rows as int, self.num_columns as int, row as int, column as int);
            assert(row * self.num_columns + column < len);
        }
        let k: usize = column + row * self.num_columns;
        self.vec.set(k, value);
    }

    /// The matrix of the same shape whose entries are `function` of this
    /// one's.
    pub fn map<U: Copy, F: Fn(T) -> U>(&self, function: F) -> (r: Mat2D<U>)
        requires
            self@.wf(),
            forall|x: T| function.requires((x,)),
        ensures
            r@.wf(),
            r@.rows == self@.rows,
            r@.cols == self@.cols,
            forall|k: int| 0 <= k < r@.data.len() ==> function.ensures((self@.data[k],), #[trigger] r@.data[k]),
    {
        let mut vec: Vec<U> = Vec::with_capacity(self.vec.len());
        let mut k: usize = 0;
        while k < self.vec.len()
            invariant
                k <= self.vec@.len(),
                vec@.len() == k,
                forall|x: T| function.requires((x,)),
                forall|q: int| 0 <= q < k ==> function.ensures((self.vec@[q],), #[trigger] vec@[q]),
            decreases self.vec@.len() - k,
        {
            let y = function(self.vec[k]);
            vec.push(y);
            k += 1;
        }
        Mat2D { num_rows: self.num_rows, num_columns: self.num_columns, vec }
    }

    /// The matrix whose entry `(i, j)` is entry `(j, i)` of this one.
    pub fn transpose(&self) -> (t: Self)
        requires
            self@.wf(),
        ensures
            t@.wf(),
            t@.rows == self@.cols,
            t@.cols == self@.rows,
            forall|i: int, j: int|
                0 <= i < t@.rows && 0 <= j < t@.cols ==> #[trigger] t@.at(i, j) == self@.at(j, i),
    {
        let rows = self.num_rows;
        let cols = self.num_columns;
        let mut vec: Vec<T> = Vec::with_capacity(self.vec.len());
        let mut i: usize = 0;
        while i < cols
            invariant
                self@.wf(),
                rows == self@.rows,
                cols == self@.cols,
                i <= cols,
                vec@.len() == i * rows,
                forall|a: int, b: int|
                    0 <= a < i && 0 <= b < rows ==> #[trigger] vec@[a * rows + b] == self@.at(b, a),
            decreases cols - i,
        {
            let mut j: usize = 0;
            while j < rows
                invariant
                    self@.wf(),
                    rows == self@.rows,
                    cols == self@.cols,
                    i < cols,
                    j <= rows,
                    vec@.len() == i * rows + j,
                    forall|a: int, b: int|
                        0 <= a < i && 0 <= b < rows ==> #[trigger] vec@[a * rows + b] == self@.at(b, a),
                    forall|b: int| 0 <= b < j ==> #[trigger] vec@[i * rows + b] == self@.at(b, i as int),
                decreases rows - j,
            {
                proof {
                    lemma_offset_in_bounds(rows as int, cols as int, j as int, i as int);
                    assert((i * rows + j) as int == i * rows + j);
                }
                let x = *self.get(j, i);
                let ghost before = vec@;
                vec.push(x);
                proof {
                    assert forall|a: int, b: int| 0 <= a < i && 0 <= b < rows implies
                        #[trigger] vec@[a * rows + b] == self@.at(b, a) by {
                        assert(a * rows + b < i * rows) by (nonlinear_arith)
                            requires 0 <= a < i, 0 <= b < rows;
                        assert(0 <= a * rows + b) by (nonlinear_arith)
                            requires 0 <= a, 0 <= b;
                        assert(vec@[a * rows + b] == before[a * rows + b]);
                    }
                }
                j += 1;
            }
            proof {
                assert forall|a: int, b: int| 0 <= a < i + 1 && 0 <= b < rows implies
                    #[trigger] vec@[a * rows + b] == self@.at(b, a) by {
                    if a == i as int {
                    } else {
                    }
                }
                assert(vec@.len() == (i + 1) * rows) by (nonlinear_arith)
                    requires vec@.len() == i * rows + rows;
            }
            i += 1;
        }
        proof {
            assert(vec@.len() == cols * rows);
            assert(cols * rows == rows * cols) by (nonlinear_arith);
        }
        let t = Mat2D { num_rows: cols, num_columns: rows, vec };
        proof {
            assert forall|i: int, j: int| 0 <= i < t@.rows && 0 <= j < t@.cols implies
                #[trigger] t@.at(i, j) == self@.at(j, i) by {
                assert(t@.at(i, j) == vec@[i * rows + j]);
            }
        }
        t
    }
}

} // verus!
