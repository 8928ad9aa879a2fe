use vstd::prelude::*;

verus! {

/// The extent of a matrix: `x` rows of `y` cells each.
#[derive(Clone, Copy, Debug, PartialEq, Eq, Structural)]
pub struct Dims {
    pub x: usize,
    pub y: usize,
}

/// A dense two-dimensional array; the cell `(i, j)` is stored at `i * size.y + j`.
#[derive(Clone, Debug, PartialEq, Eq)]
pub struct Matrix<T> {
    size: Dims,
    data: Vec<T>,
}

/// Every cell index of a `rows` by `cols` grid falls inside its storage.
pub proof fn lemma_cell_index(i: int, j: int, rows: int, cols: int)
    requires
        0 <= i < rows,
        0 <= j < cols,
    ensures
        0 <= i * cols + j < rows * cols,
{
    assert(0 <= i * cols + j < rows * cols) by (nonlinear_arith)
        requires
            0 <= i < rows,
            0 <= j < cols,
    ;
}

/// Distinct cells of a grid are stored at distinct places.
pub proof fn lemma_cell_index_distinct(i1: int, j1: int, i2: int, j2: int, cols: int)
    requires
        0 <= j1 < cols,
        0 <= j2 < cols,
        (i1, j1) != (i2, j2),
    ensures
        i1 * cols + j1 != i2 * cols + j2,
{
    if i1 * cols + j1 == i2 * cols + j2 {
        assert(i1 == i2 && j1 == j2) by (nonlinear_arith)
            requires
                i1 * cols + j1 == i2 * cols + j2,
                0 <= j1 < cols,
                0 <= j2 < cols,
        ;
    }
}

proof fn lemma_u128_product(x: usize, y: usize)
    ensures
        (x as u128) * (y as u128) <= u128::MAX,
{
    assert((x as u128) * (y as u128) <= u128::MAX) by (nonlinear_arith)
        requires
            x <= 0xffff_ffff_ffff_ffffu128,
            y <= 0xffff_ffff_ffff_ffffu128,
    ;
}

impl<T> Matrix<T> {
    /// A matrix of extent `size` with the cells `data` in storage order, or `None` where
    /// `data` does not hold one value per cell.
    pub fn from_cells(size: Dims, data: Vec<T>) -> (r: Option<Matrix<T>>)
        ensures
            r is Some <==> data@.len() == size.x * size.y,
            r is Some ==> {
                &&& r->0.wf()
                &&& r->0.rows() == size.x
                &&& r->0.cols() == size.y
                &&& r->0.cells() == data@
            },
    {
        proof {
            lemma_u128_product(size.x, size.y);
        }
        if (size.x as u128) * (size.y as u128) == data.len() as u128 {
            Some(Matrix { size, data })
        } else {
            None
        }
    }

    /// Number of rows (the `x` extent).
    pub closed spec fn rows(&self) -> nat {
        self.size.x as nat
    }

    /// Number of cells in a row (the `y` extent).
    pub closed spec fn cols(&self) -> nat {
        self.size.y as nat
    }

    /// The cells in storage order.
    pub closed spec fn cells(&self) -> Seq<T> {
        self.data@
    }

    pub closed spec fn wf(&self) -> bool {
        self.data@.len() == self.size.x * self.size.y
    }

    /// The cell in row `i`, column `j`.
    pub open spec fn at(&self, i: int, j: int) -> T {
        self.cells()[i * self.cols() + j]
    }

    /// Same extent, and the same value in every cell.
    pub open spec fn same_cells(&self, other: &Matrix<T>) -> bool {
        &&& self.rows() == other.rows()
        &&& self.cols() == other.cols()
        &&& forall|i: int, j: int|
            0 <= i < self.rows() && 0 <= j < self.cols() ==> #[trigger] self.at(i, j) == other.at(
                i,
                j,
            )
    }

    pub fn size(&self) -> (r: Dims)
        ensures
            r.x == self.rows(),
            r.y == self.cols(),
    {
        self.size
    }

    /// A matrix of the given extent with `value` in every cell.
    pub fn filled_with(size: Dims, value: T) -> (r: Self) where T: Copy
        requires
            size.x * size.y <= usize::MAX,
        ensures
            r.wf(),
            r.rows() == size.x,
            r.cols() == size.y,
            forall|i: int, j: int|
                0 <= i < size.x && 0 <= j < size.y ==> #[trigger] r.at(i, j) == value,
    {
        let n = size.x * size.y;
        let mut data: Vec<T> = Vec::with_capacity(n);
        let mut k: usize = 0;
        while k < n
            invariant
                k <= n,
                data@.len() == k,
                forall|m: int| 0 <= m < k ==> data@[m] == value,
            decreases n - k,
        {
            data.push(value);
            k = k + 1;
        }
        let r = Matrix { size, data };
        assert forall|i: int, j: int| 0 <= i < size.x && 0 <= j < size.y implies #[trigger] r.at(
            i,
            j,
        ) == value by {
            lemma_cell_index(i, j, size.x as int, size.y as int);
        }
        r
    }

    /// Whether the storage holds exactly one value per cell.
    pub fn is_well_formed(&self) -> (r: bool)
        ensures
            r == self.wf(),
    {
        proof {
            lemma_u128_product(self.size.x, self.size.y);
        }
        (self.size.x as u128) * (self.size.y as u128) == self.data.len() as u128
    }

    /// The cells in storage order, row after row.
    pub fn as_slice(&self) -> (r: &[T])
        ensures
            r@ == self.cells(),
            self.wf() ==> r@.len() == self.rows() * self.cols(),
    {
        self.data.as_slice()
    }

    /// The cell in row `i`, column `j`.
    pub fn get(&self, i: usize, j: usize) -> (r: &T)
        requires
            self.wf(),
            i < self.rows(),
            j < self.cols(),
        ensures
            *r == self.at(i as int, j as int),
    {
        proof {
            lemma_cell_index(i as int, j as int, self.size.x as int, self.size.y as int);
            assert(i * self.size.y + j < self.data.len());
            assert(i * self.size.y <= usize::MAX);
        }
        &self.data[i * self.size.y + j]
    }

    /// Puts `value` in row `i`, column `j`; every other cell keeps its value.
    pub fn set(&mut self, i: usize, j: usize, value: T)
        requires
            old(self).wf(),
            i < old(self).rows(),
            j < old(self).cols(),
        ensures
            final(self).wf(),
            final(self).rows() == old(self).rows(),
            final(self).cols() == old(self).cols(),
            final(self).at(i as int, j as int) == value,
            forall|a: int, b: int|
                0 <= a < old(self).rows() && 0 <= b < old(self).cols() && (a, b) != (i as int, j as int)
                    ==> #[trigger] final(self).at(a, b) == old(self).at(a, b),
    {
        proof {
            lemma_cell_index(i as int, j as int, self.size.x as int, self.size.y as int);
            assert(i * self.size.y + j < self.data.len());
            assert(i * self.size.y <= usize::MAX);
        }
        let k = i * self.size.y + j;
        self.data.set(k, value);
        proof {
            assert forall|a: int, b: int|
                0 <= a < old(self).rows() && 0 <= b < old(self).cols() && (a, b) != (
                    i as int,
                    j as int,
                ) implies #[trigger] self.at(a, b) == old(self).at(a, b) by {
                lemma_cell_index(a, b, self.size.x as int, self.size.y as int);
                lemma_cell_index_distinct(a, b, i as int, j as int, self.size.y as int);
            }
        }
    }

    /// A cell-by-cell copy.
    pub fn copied(&self) -> (r: Self) where T: Copy
        requires
            self.wf(),
        ensures
            r.wf(),
            r.rows() == self.rows(),
            r.cols() == self.cols(),
            r.cells() == self.cells(),
    {
        let mut data: Vec<T> = Vec::with_capacity(self.data.len());
        let mut k: usize = 0;
        while k < self.data.len()
            invariant
                k <= self.data@.len(),
                data@ == self.data@.take(k as int),
            decreases self.data@.len() - k,
        {
            data.push(self.data[k]);
            k = k + 1;
            assert(data@ =~= self.data@.take(k as int));
        }
        assert(data@ =~= self.data@);
        Matrix { size: self.size, data }
    }
}

} // verus!
