use crate::error::MatError;
use crate::number::Number;
use crate::partition::{
    block_of, cells_of, counts_of, leading_work, lemma_block_in_grid, lemma_prefix_sum_monotonic,
    lemma_range_bounds,
    lemma_ranges_contiguous, lemma_shares_balanced, lemma_shares_leading_work, lemma_shares_sum,
    linear_range, prefix_sum, range_of, share, shares, total_of,
};
use crate::row::ParRow;
use vstd::arithmetic::div_mod::{lemma_basic_div, lemma_fundamental_div_mod, lemma_small_mod};
use vstd::prelude::*;

verus! {

/// The rows handed to a constructor, read as a grid of elements.
pub open spec fn grid_of<T>(data: Seq<Vec<T>>) -> Seq<Seq<T>> {
    Seq::new(data.len(), |i: int| data[i]@)
}

/// Every row of the grid is as long as its first row.
pub open spec fn rectangular<T>(grid: Seq<Seq<T>>) -> bool {
    forall|i: int| 0 <= i < grid.len() ==> (#[trigger] grid[i]).len() == grid[0].len()
}

/// Two rows of the grid differ in length.
pub open spec fn ragged<T>(grid: Seq<Seq<T>>) -> bool {
    exists|i: int, j: int|
        0 <= i < grid.len() && 0 <= j < grid.len() && (#[trigger] grid[i]).len() != (
        #[trigger] grid[j]).len()
}

/// Row `k` is the first row of the grid whose length differs from that of
/// the first row.
pub open spec fn first_ragged_row<T>(grid: Seq<Seq<T>>, k: int) -> bool {
    &&& 0 <= k < grid.len()
    &&& grid[k].len() != grid[0].len()
    &&& forall|i: int| 0 <= i < k ==> (#[trigger] grid[i]).len() == grid[0].len()
}

/// A grid that a matrix can hold: at least one row, at least one column, and
/// all rows of one length.
pub open spec fn well_shaped<T>(grid: Seq<Seq<T>>) -> bool {
    &&& grid.len() > 0
    &&& grid[0].len() > 0
    &&& rectangular(grid)
}

/// A grid has two rows of differing length exactly when not all of its rows
/// are as long as the first.
pub proof fn lemma_ragged_or_rectangular<T>(grid: Seq<Seq<T>>)
    ensures
        ragged(grid) <==> !rectangular(grid),
{
    if !rectangular(grid) {
        let i = choose|i: int| 0 <= i < grid.len() && (#[trigger] grid[i]).len() != grid[0].len();
        assert(grid[i].len() != grid[0].len());
    }
}

/// A dense matrix, stored row by row. Its shape is fixed when it is built:
/// there is at least one row, at least one column, and all rows have the
/// same length. A matrix without rows cannot be built.
pub struct Mat<T> {
    rows: Vec<ParRow<T>>,
}

impl<T> View for Mat<T> {
    type V = Seq<Seq<T>>;

    closed spec fn view(&self) -> Seq<Seq<T>> {
        Seq::new(self.rows@.len(), |i: int| self.rows@[i]@)
    }
}

impl<T> Mat<T> {
    /// The matrix holds a well-shaped grid. This is true of every matrix
    /// that exists at run time.
    pub open spec fn wf(&self) -> bool {
        well_shaped(self@)
    }

    #[verifier::type_invariant]
    spec fn inv(&self) -> bool {
        self.wf()
    }

    /// The number of rows.
    pub open spec fn n_rows(&self) -> nat {
        self@.len()
    }

    /// The number of columns.
    pub open spec fn n_cols(&self) -> nat {
        self@[0].len()
    }

    /// The number of elements.
    pub open spec fn n_elements(&self) -> nat {
        self.n_rows() * self.n_cols()
    }
}

impl<T: Number> Mat<T> {
    /// Tells whether `rows` can be laid out as a grid: there is at least one
    /// row, and every row is as long as the first. Returns
    /// [`MatError::EmptyMatrix`] when there is no row, and
    /// [`MatError::InconsistentRowLength`], with the index of the first row
    /// that is not as long as the first, when two rows differ in length.
    pub fn check_col_consistency(rows: &Vec<Vec<T>>) -> (r: Result<(), MatError>)
        ensures
            r.is_ok() <==> rows@.len() > 0 && rectangular(grid_of(rows@)),
            (r matches Err(MatError::EmptyMatrix)) <==> rows@.len() == 0,
            (r matches Err(MatError::InconsistentRowLength(_))) <==> ragged(grid_of(rows@)),
            r matches Err(MatError::InconsistentRowLength(k)) ==> first_ragged_row(
                grid_of(rows@),
                k as int,
            ),
    {
        let ghost grid = grid_of(rows@);
        proof {
            lemma_ragged_or_rectangular(grid);
        }
        if rows.is_empty() {
            return Err(MatError::EmptyMatrix);
        }
        let col_len: usize = rows[0].len();
        for i in 0..rows.len()
            invariant
                grid == grid_of(rows@),
                rows@.len() > 0,
                col_len == grid[0].len(),
                forall|j: int| 0 <= j < i ==> (#[trigger] grid[j]).len() == col_len,
        {
            if rows[i].len() != col_len {
                proof {
                    assert(grid[i as int].len() != grid[0].len());
                    lemma_ragged_or_rectangular(grid);
                }
                return Err(MatError::InconsistentRowLength(i));
            }
        }
        Ok(())
    }

    /// Builds a matrix from `data`, one row per inner vector, in order.
    ///
    /// It succeeds exactly when `data` is a well-shaped grid. Otherwise it
    /// returns, in this order of precedence: [`MatError::EmptyMatrix`] when
    /// there is no row; [`MatError::InconsistentRowLength`], with the index
    /// of the first row that is not as long as the first, when two rows
    /// differ in length; [`MatError::EmptyRow`] when the rows have no
    /// elements.
    pub fn new(data: Vec<Vec<T>>) -> (r: Result<Self, MatError>)
        ensures
            r.is_ok() <==> well_shaped(grid_of(data@)),
            r matches Ok(m) ==> m@ == grid_of(data@) && m.wf() && m.n_rows() == data@.len()
                && m.n_cols() == data@[0]@.len(),
            (r matches Err(MatError::EmptyMatrix)) <==> data@.len() == 0,
            (r matches Err(MatError::InconsistentRowLength(_))) <==> ragged(grid_of(data@)),
            r matches Err(MatError::InconsistentRowLength(k)) ==> first_ragged_row(
                grid_of(data@),
                k as int,
            ),
            (r matches Err(MatError::EmptyRow)) <==> data@.len() > 0 && rectangular(
                grid_of(data@),
            ) && data@[0]@.len() == 0,
    {
        let ghost grid = grid_of(data@);
        match Self::check_col_consistency(&data) {
            Err(e) => {
                return Err(e);
            },
            Ok(_) => {},
        }
        proof {
            lemma_ragged_or_rectangular(grid);
        }
        let mut rows: Vec<ParRow<T>> = Vec::new();
        for row in it: data
            invariant
                grid.len() > 0,
                rectangular(grid),
                it.seq().len() == grid.len(),
                forall|j: int| 0 <= j < grid.len() ==> (#[trigger] it.seq()[j])@ == grid[j],
                rows@.len() == it.index(),
                forall|j: int| 0 <= j < rows@.len() ==> (#[trigger] rows@[j])@ == grid[j],
                rows@.len() > 0 ==> grid[0].len() > 0,
        {
            match ParRow::new(row) {
                Ok(par_row) => {
                    rows.push(par_row);
                },
                Err(e) => {
                    return Err(e);
                },
            }
        }
        let mat = Mat { rows };
        assert(mat@ =~= grid);
        Ok(mat)
    }

    /// The elements of row `i`, or [`MatError::IndexOutOfRange`] when the
    /// matrix has no such row.
    pub fn get_row(&self, i: usize) -> (r: Result<&Vec<T>, MatError>)
        ensures
            r.is_ok() <==> i < self.n_rows(),
            r matches Ok(row) ==> row@ == self@[i as int],
            r matches Err(e) ==> e == MatError::IndexOutOfRange,
    {
        let rows = self.get_rows();
        if i < rows.len() {
            Ok(rows[i].get_ref())
        } else {
            Err(MatError::IndexOutOfRange)
        }
    }

    /// All rows, in order.
    pub fn get_rows(&self) -> (rows: &Vec<ParRow<T>>)
        ensures
            rows@.len() == self.n_rows(),
            forall|i: int| 0 <= i < rows@.len() ==> (#[trigger] rows@[i])@ == self@[i],
    {
        &self.rows
    }

    /// The number of rows and the number of columns, in this order.
    pub fn shape(&self) -> (s: (usize, usize))
        ensures
            self.wf(),
            s.0 == self.n_rows(),
            s.1 == self.n_cols(),
    {
        proof {
            use_type_invariant(self);
        }
        (self.rows.len(), self.rows[0].len())
    }

    /// How many elements each of `n_threads` workers is to handle, in worker
    /// order: see [`shares`].
    ///
    /// With fewer elements than workers, the first workers get one element
    /// each and the others none. Otherwise every worker gets the whole
    /// quotient, and the remainder goes, one element each, to the first
    /// workers. Either way the entries add up to the number of elements,
    /// never grow with the worker index, and differ by at most one.
    pub fn get_elements_per_thread(&self, n_threads: usize) -> (counts: Vec<usize>)
        requires
            n_threads >= 1,
            self.n_elements() <= usize::MAX,
        ensures
            counts@.len() == n_threads,
            counts_of(counts@) == shares(self.n_elements(), n_threads as nat),
            total_of(counts_of(counts@)) == self.n_elements(),
            forall|i: int, j: int|
                0 <= i <= j < n_threads ==> (#[trigger] counts@[j]) <= (#[trigger] counts@[i])
                    <= counts@[j] + 1,
            forall|i: int|
                n_threads > self.n_elements() && 0 <= i < self.n_elements() ==> #[trigger] counts@[i]
                    == 1,
            forall|i: int|
                n_threads > self.n_elements() && self.n_elements() <= i < n_threads
                    ==> #[trigger] counts@[i] == 0,
    {
        let (n_rows, n_cols) = self.shape();
        let n_elements: usize = n_rows * n_cols;
        let base: usize = n_elements / n_threads;
        let mut elements_per_thread: Vec<usize> = vec![base; n_threads];
        let ghost total = n_elements as nat;
        let ghost workers = n_threads as nat;
        proof {
            lemma_fundamental_div_mod(total as int, workers as int);
        }

        if n_elements < n_threads {
            proof {
                lemma_small_mod(total, workers);
                lemma_basic_div(total as int, workers as int);
            }
            for i in 0..n_elements
                invariant
                    n_elements < n_threads,
                    elements_per_thread.len() == n_threads,
                    forall|j: int| 0 <= j < i ==> elements_per_thread[j] == 1,
                    forall|j: int| i <= j < n_threads ==> elements_per_thread[j] == 0,
            {
                elements_per_thread[i] = 1;
            }
        } else {
            let surplus_elements: usize = n_elements % n_threads;
            proof {
                if surplus_elements > 0 {
                    assert(base < total) by (nonlinear_arith)
                        requires
                            total == workers * base + surplus_elements,
                            workers >= 1,
                            surplus_elements > 0,
                    ;
                }
            }
            for i in 0..surplus_elements
                invariant
                    surplus_elements < n_threads,
                    surplus_elements > 0 ==> base < usize::MAX,
                    elements_per_thread.len() == n_threads,
                    forall|j: int| 0 <= j < i ==> elements_per_thread[j] == base + 1,
                    forall|j: int| i <= j < n_threads ==> elements_per_thread[j] == base,
            {
                elements_per_thread[i] = base + 1;
            }
        }
        proof {
            let counts = counts_of(elements_per_thread@);
            assert(counts =~= shares(total, workers));
            lemma_shares_sum(total, workers);
            assert forall|i: int, j: int| 0 <= i <= j < n_threads implies (
            #[trigger] elements_per_thread@[j]) <= (#[trigger] elements_per_thread@[i])
                <= elements_per_thread@[j] + 1 by {
                lemma_shares_balanced(total, workers, i as nat, j as nat);
                assert(counts[i] == share(total, workers, i as nat));
                assert(counts[j] == share(total, workers, j as nat));
            }
        }
        elements_per_thread
    }

    /// The inclusive range of row-major indices of each worker, in worker
    /// order, for the given numbers of elements per worker: see
    /// [`linear_range`]. The first worker must have at least one element, and
    /// the numbers must add up to a machine-sized total.
    ///
    /// The first range starts at 0 and the last one ends at the last index. A
    /// worker with elements starts right after the end of the worker before
    /// it; a worker without elements repeats the range of the worker before
    /// it.
    pub fn get_batch_linear_indices(&self, elements_per_thread: Vec<usize>) -> (ranges: Vec<
        (usize, usize),
    >)
        requires
            leading_work(counts_of(elements_per_thread@)),
            total_of(counts_of(elements_per_thread@)) <= usize::MAX,
        ensures
            ranges@.len() == elements_per_thread@.len(),
            forall|i: int|
                0 <= i < ranges@.len() ==> range_of(#[trigger] ranges@[i]) == linear_range(
                    counts_of(elements_per_thread@),
                    i as nat,
                ),
            ranges@[0].0 == 0,
            ranges@[ranges@.len() - 1].1 == total_of(counts_of(elements_per_thread@)) - 1,
            forall|i: int|
                0 < i < ranges@.len() && elements_per_thread@[i] > 0 ==> (#[trigger] ranges@[i]).0
                    == ranges@[i - 1].1 + 1,
            forall|i: int|
                0 < i < ranges@.len() && elements_per_thread@[i] == 0 ==> #[trigger] ranges@[i]
                    == ranges@[i - 1],
    {
        let ghost counts = counts_of(elements_per_thread@);
        let n: usize = elements_per_thread.len();
        let mut batch_linear_end_indices: Vec<(usize, usize)> = vec![(0, 0); n];
        proof {
            lemma_range_bounds(counts, 0);
            assert(prefix_sum(counts, 1) == prefix_sum(counts, 0) + counts[0]);
        }
        let mut start: usize = 0;
        let mut end: usize = elements_per_thread[0] - 1;
        batch_linear_end_indices[0] = (start, end);
        for i in 1..n
            invariant
                n == elements_per_thread@.len(),
                counts == counts_of(elements_per_thread@),
                leading_work(counts),
                total_of(counts) <= usize::MAX,
                batch_linear_end_indices@.len() == n,
                (start as int, end as int) == linear_range(counts, (i - 1) as nat),
                forall|j: int|
                    0 <= j < i ==> range_of(#[trigger] batch_linear_end_indices@[j])
                        == linear_range(counts, j as nat),
        {
            proof {
                lemma_range_bounds(counts, (i - 1) as nat);
                lemma_range_bounds(counts, i as nat);
                lemma_prefix_sum_monotonic(counts, (i + 1) as nat, counts.len());
            }
            if elements_per_thread[i] > 0 {
                start = end + 1;
                end = start + elements_per_thread[i] - 1;
            }
            batch_linear_end_indices[i] = (start, end);
        }
        proof {
            let ranges = batch_linear_end_indices@;
            lemma_range_bounds(counts, (n - 1) as nat);
            assert(range_of(ranges[0]) == linear_range(counts, 0));
            assert(range_of(ranges[n - 1]) == linear_range(counts, (n - 1) as nat));
            assert forall|i: int| 0 < i < n && elements_per_thread@[i] > 0 implies (
            #[trigger] ranges[i]).0 == ranges[i - 1].1 + 1 by {
                assert(counts[i] > 0);
                assert(range_of(ranges[i - 1]) == linear_range(counts, (i - 1) as nat));
                lemma_ranges_contiguous(counts, (i - 1) as nat);
            }
            assert forall|i: int|
                0 < i < n && elements_per_thread@[i] == 0 implies #[trigger] ranges[i] == ranges[i
                - 1] by {
                assert(counts[i] == 0);
                assert(range_of(ranges[i - 1]) == linear_range(counts, (i - 1) as nat));
            }
        }
        batch_linear_end_indices
    }

    /// The block of the matrix that each of `n_threads` workers is to handle,
    /// in worker order, as the cells `((row, column), (row, column))` of its
    /// first and last element: see [`block_of`]. The blocks are the linear
    /// ranges of [`Mat::get_batch_linear_indices`] for the counts of
    /// [`Mat::get_elements_per_thread`], each end turned into its row, the
    /// index divided by the number of columns, and its column, the remainder
    /// of that division. Every cell named lies inside the matrix.
    pub fn get_batch_indices(&self, n_threads: usize) -> (batches: Vec<
        ((usize, usize), (usize, usize)),
    >)
        requires
            n_threads >= 1,
            self.n_elements() <= usize::MAX,
        ensures
            batches@.len() == n_threads,
            forall|i: int|
                0 <= i < n_threads ==> cells_of(#[trigger] batches@[i]) == block_of(
                    shares(self.n_elements(), n_threads as nat),
                    self.n_cols(),
                    i as nat,
                ),
            forall|i: int|
                0 <= i < n_threads ==> (#[trigger] batches@[i]).0.0 < self.n_rows()
                    && batches@[i].0.1 < self.n_cols() && batches@[i].1.0 < self.n_rows()
                    && batches@[i].1.1 < self.n_cols(),
    {
        let (_, n_cols) = self.shape();
        let elements_per_thread = self.get_elements_per_thread(n_threads);
        let ghost counts = shares(self.n_elements(), n_threads as nat);
        proof {
            assert(self.n_elements() >= 1) by (nonlinear_arith)
                requires
                    self.n_elements() == self.n_rows() * self.n_cols(),
                    self.n_rows() >= 1,
                    self.n_cols() >= 1,
            ;
            lemma_shares_leading_work(self.n_elements(), n_threads as nat);
        }
        let batch_linear_indices = self.get_batch_linear_indices(elements_per_thread);
        let mut batch_indices: Vec<((usize, usize), (usize, usize))> = vec![
            ((0, 0), (0, 0));
            n_threads
        ];

        for i in 0..n_threads
            invariant
                n_cols == self.n_cols(),
                n_cols > 0,
                counts == shares(self.n_elements(), n_threads as nat),
                batch_indices@.len() == n_threads,
                batch_linear_indices@.len() == n_threads,
                forall|j: int|
                    0 <= j < n_threads ==> range_of(#[trigger] batch_linear_indices@[j])
                        == linear_range(counts, j as nat),
                forall|j: int|
                    0 <= j < i ==> cells_of(#[trigger] batch_indices@[j]) == block_of(
                        counts,
                        n_cols as nat,
                        j as nat,
                    ),
        {
            let (linear_start_index, linear_end_index) = batch_linear_indices[i];
            assert(range_of(batch_linear_indices@[i as int]) == linear_range(counts, i as nat));
            let start_cell: (usize, usize) = (
                linear_start_index / n_cols,
                linear_start_index % n_cols,
            );
            let end_cell: (usize, usize) = (linear_end_index / n_cols, linear_end_index % n_cols);
            batch_indices[i] = (start_cell, end_cell);
        }
        proof {
            assert forall|i: int| 0 <= i < n_threads implies (#[trigger] batch_indices@[i]).0.0
                < self.n_rows() && batch_indices@[i].0.1 < self.n_cols() && batch_indices@[i].1.0
                < self.n_rows() && batch_indices@[i].1.1 < self.n_cols() by {
                lemma_block_in_grid(self.n_rows(), self.n_cols(), n_threads as nat, i as nat);
                assert(cells_of(batch_indices@[i]) == block_of(counts, n_cols as nat, i as nat));
            }
        }
        batch_indices
    }
}

} // verus!
