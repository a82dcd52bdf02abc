//! The arithmetic of splitting a run of elements among workers, stated over
//! mathematical integers, together with the laws that make the split a
//! balanced, gap-free and overlap-free cover of the elements.

use vstd::arithmetic::div_mod::{
    lemma_basic_div, lemma_div_pos_is_pos, lemma_fundamental_div_mod, lemma_mod_bound,
    lemma_multiply_divide_lt, lemma_small_mod,
};
use vstd::math::min;
use vstd::prelude::*;

verus! {

/// The number of elements handed to worker `i` when `total` elements are
/// split among `workers` workers: everyone gets the whole quotient, and the
/// remainder goes, one element each, to the workers with the lowest indices.
pub open spec fn share(total: nat, workers: nat, i: nat) -> nat {
    total / workers + if i < total % workers {
        1nat
    } else {
        0nat
    }
}

/// The shares of all `workers` workers, in worker order.
pub open spec fn shares(total: nat, workers: nat) -> Seq<nat> {
    Seq::new(workers, |i: int| share(total, workers, i as nat))
}

/// Machine-sized counts read as natural numbers.
pub open spec fn counts_of(v: Seq<usize>) -> Seq<nat> {
    Seq::new(v.len(), |i: int| v[i] as nat)
}

/// The sum of the first `k` entries of `counts`.
pub open spec fn prefix_sum(counts: Seq<nat>, k: nat) -> nat
    recommends
        k <= counts.len(),
    decreases k,
{
    if k == 0 {
        0
    } else {
        prefix_sum(counts, (k - 1) as nat) + counts[k - 1]
    }
}

/// The sum of all entries of `counts`.
pub open spec fn total_of(counts: Seq<nat>) -> nat {
    prefix_sum(counts, counts.len())
}

/// The inclusive range `(start, end)` of linear indices that belongs to
/// worker `i`. A worker with a positive count takes the indices that follow
/// those of the workers before it. A worker with a count of zero takes no
/// index of its own: it repeats the range of the worker before it.
pub open spec fn linear_range(counts: Seq<nat>, i: nat) -> (int, int)
    recommends
        i < counts.len(),
    decreases i,
{
    if i == 0 || counts[i as int] > 0 {
        (prefix_sum(counts, i) as int, prefix_sum(counts, i + 1) - 1)
    } else {
        linear_range(counts, (i - 1) as nat)
    }
}

/// The row and column of the element with the given row-major index in a
/// grid of `cols` columns.
pub open spec fn cell_of(linear: int, cols: int) -> (int, int) {
    (linear / cols, linear % cols)
}

/// The block of the grid that belongs to worker `i`: the cell of the first
/// and the cell of the last linear index of its range, in a grid of `cols`
/// columns.
pub open spec fn block_of(counts: Seq<nat>, cols: nat, i: nat) -> ((int, int), (int, int)) {
    (
        cell_of(linear_range(counts, i).0, cols as int),
        cell_of(linear_range(counts, i).1, cols as int),
    )
}

/// A machine-sized range read as a pair of integers.
pub open spec fn range_of(r: (usize, usize)) -> (int, int) {
    (r.0 as int, r.1 as int)
}

/// A machine-sized block read as a pair of integer cells.
pub open spec fn cells_of(b: ((usize, usize), (usize, usize))) -> ((int, int), (int, int)) {
    (range_of(b.0), range_of(b.1))
}

/// Counts that `linear_range` can be asked about: at least one worker, and
/// the first worker is given at least one element.
pub open spec fn leading_work(counts: Seq<nat>) -> bool {
    counts.len() > 0 && counts[0] > 0
}

/// Prefix sums never shrink as more entries are taken in.
pub proof fn lemma_prefix_sum_monotonic(counts: Seq<nat>, j: nat, k: nat)
    requires
        j <= k,
    ensures
        prefix_sum(counts, j) <= prefix_sum(counts, k),
    decreases k,
{
    if j < k {
        lemma_prefix_sum_monotonic(counts, j, (k - 1) as nat);
    }
}

/// The first `k` shares add up to `k` quotients plus one for each of them
/// that received a unit of the remainder: `k` units, or the whole remainder
/// if that is less.
pub proof fn lemma_shares_prefix(total: nat, workers: nat, k: nat)
    requires
        workers >= 1,
        k <= workers,
    ensures
        prefix_sum(shares(total, workers), k) == k * (total / workers) + min(
            k as int,
            (total % workers) as int,
        ),
    decreases k,
{
    let q = total / workers;
    if k > 0 {
        lemma_shares_prefix(total, workers, (k - 1) as nat);
        assert(shares(total, workers)[k - 1] == share(total, workers, (k - 1) as nat));
        assert((k - 1) * q + q == k * q) by (nonlinear_arith);
    } else {
        assert(k * q == 0) by (nonlinear_arith)
            requires
                k == 0,
        ;
    }
}

/// The shares of all workers add up to the number of elements: nothing is
/// left over and nothing is handed out twice.
pub proof fn lemma_shares_sum(total: nat, workers: nat)
    requires
        workers >= 1,
    ensures
        total_of(shares(total, workers)) == total,
{
    lemma_shares_prefix(total, workers, workers);
    lemma_fundamental_div_mod(total as int, workers as int);
}

/// Shares never grow with the worker index, and no two of them differ by
/// more than one.
pub proof fn lemma_shares_balanced(total: nat, workers: nat, i: nat, j: nat)
    requires
        i <= j < workers,
    ensures
        share(total, workers, j) <= share(total, workers, i) <= share(total, workers, j) + 1,
{
}

/// With more workers than elements, each of the first `total` workers gets
/// exactly one element and every later worker gets none.
pub proof fn lemma_shares_scarce(total: nat, workers: nat, i: nat)
    requires
        workers > total,
        i < workers,
    ensures
        i < total ==> share(total, workers, i) == 1,
        i >= total ==> share(total, workers, i) == 0,
{
    lemma_small_mod(total, workers);
    lemma_basic_div(total as int, workers as int);
}

/// As soon as there is an element to hand out, the first worker gets one.
pub proof fn lemma_shares_leading_work(total: nat, workers: nat)
    requires
        workers >= 1,
        total >= 1,
    ensures
        leading_work(shares(total, workers)),
{
    lemma_fundamental_div_mod(total as int, workers as int);
    let q = total / workers;
    if q == 0 {
        assert(workers * q == 0) by (nonlinear_arith)
            requires
                q == 0,
        ;
    }
}

/// Worker `i` has work of its own and the linear index `x` is part of it.
pub open spec fn owns(counts: Seq<nat>, i: nat, x: int) -> bool {
    &&& i < counts.len()
    &&& counts[i as int] > 0
    &&& linear_range(counts, i).0 <= x <= linear_range(counts, i).1
}

/// Every range is a real interval inside `0 .. total`, and it ends where the
/// counts up to and including its worker end.
pub proof fn lemma_range_bounds(counts: Seq<nat>, i: nat)
    requires
        leading_work(counts),
        i < counts.len(),
    ensures
        0 <= linear_range(counts, i).0 <= linear_range(counts, i).1 < total_of(counts),
        linear_range(counts, i).1 == prefix_sum(counts, i + 1) - 1,
    decreases i,
{
    lemma_prefix_sum_monotonic(counts, i + 1, counts.len());
    lemma_prefix_sum_monotonic(counts, 1, i + 1);
    assert(prefix_sum(counts, 1) == prefix_sum(counts, 0) + counts[0]);
    if i > 0 && counts[i as int] == 0 {
        lemma_range_bounds(counts, (i - 1) as nat);
    }
}

/// A worker with work of its own starts right after the range of the worker
/// before it.
pub proof fn lemma_ranges_contiguous(counts: Seq<nat>, i: nat)
    requires
        leading_work(counts),
        i + 1 < counts.len(),
        counts[i + 1 as int] > 0,
    ensures
        linear_range(counts, i + 1).0 == linear_range(counts, i).1 + 1,
{
    lemma_range_bounds(counts, i);
}

/// A worker without work of its own, other than the first, repeats the range
/// of the worker before it.
pub proof fn lemma_idle_range_repeats(counts: Seq<nat>, i: nat)
    requires
        0 < i < counts.len(),
        counts[i as int] == 0,
    ensures
        linear_range(counts, i) == linear_range(counts, (i - 1) as nat),
{
}

/// The ranges of two different workers that both have work of their own do
/// not overlap: the earlier worker's range ends before the later one's
/// starts.
pub proof fn lemma_ranges_disjoint(counts: Seq<nat>, i: nat, j: nat)
    requires
        i < j < counts.len(),
        counts[i as int] > 0,
        counts[j as int] > 0,
    ensures
        linear_range(counts, i).1 < linear_range(counts, j).0,
{
    lemma_prefix_sum_monotonic(counts, i + 1, j);
}

/// No linear index is owned by two workers.
pub proof fn lemma_owner_unique(counts: Seq<nat>, i: nat, j: nat, x: int)
    requires
        owns(counts, i, x),
        owns(counts, j, x),
    ensures
        i == j,
{
    if i < j {
        lemma_ranges_disjoint(counts, i, j);
    } else if j < i {
        lemma_ranges_disjoint(counts, j, i);
    }
}

/// Every linear index below the sum of the first `k` counts is owned by one
/// of the first `k` workers.
pub proof fn lemma_owner_among_first(counts: Seq<nat>, k: nat, x: int)
    requires
        k <= counts.len(),
        0 <= x < prefix_sum(counts, k),
    ensures
        exists|i: nat| i < k && owns(counts, i, x),
    decreases k,
{
    let before = (k - 1) as nat;
    if x < prefix_sum(counts, before) {
        lemma_owner_among_first(counts, before, x);
        let i = choose|i: nat| i < before && owns(counts, i, x);
        assert(i < k && owns(counts, i, x));
    } else {
        assert(owns(counts, before, x));
    }
}

/// Every linear index of `0 .. total` is owned by some worker. With
/// [`lemma_owner_unique`] and [`lemma_range_bounds`] this makes the ranges of
/// the workers with work of their own a partition of `0 .. total`.
pub proof fn lemma_owner_exists(counts: Seq<nat>, x: int)
    requires
        0 <= x < total_of(counts),
    ensures
        exists|i: nat| owns(counts, i, x),
{
    lemma_owner_among_first(counts, counts.len(), x);
}

/// The cell of a linear index of a grid lies inside the grid, and the index
/// can be read back from it: different indices have different cells.
pub proof fn lemma_cell_of_in_grid(linear: int, rows: int, cols: int)
    requires
        cols > 0,
        0 <= linear < rows * cols,
    ensures
        0 <= cell_of(linear, cols).0 < rows,
        0 <= cell_of(linear, cols).1 < cols,
        cell_of(linear, cols).0 * cols + cell_of(linear, cols).1 == linear,
{
    lemma_fundamental_div_mod(linear, cols);
    lemma_mod_bound(linear, cols);
    lemma_div_pos_is_pos(linear, cols);
    assert(linear < cols * rows) by (nonlinear_arith)
        requires
            linear < rows * cols,
    ;
    lemma_multiply_divide_lt(linear, cols, rows);
    assert((linear / cols) * cols == cols * (linear / cols)) by (nonlinear_arith);
}

/// The shares of the workers when the elements of a grid of `rows` rows and
/// `cols` columns are split among them.
pub open spec fn grid_shares(rows: nat, cols: nat, workers: nat) -> Seq<nat> {
    shares(rows * cols, workers)
}

/// Worker `i` has work of its own and the cell `(row, col)` of a grid of
/// `cols` columns is part of it.
pub open spec fn owns_cell(counts: Seq<nat>, cols: nat, i: nat, row: int, col: int) -> bool {
    owns(counts, i, row * cols + col)
}

/// When the elements of a grid are split among workers, every cell of the
/// grid belongs to exactly one worker.
pub proof fn lemma_cell_has_one_owner(rows: nat, cols: nat, workers: nat, row: int, col: int)
    requires
        workers >= 1,
        0 <= row < rows,
        0 <= col < cols,
    ensures
        exists|i: nat| #[trigger] owns_cell(grid_shares(rows, cols, workers), cols, i, row, col),
        forall|i: nat, j: nat|
            #[trigger] owns_cell(grid_shares(rows, cols, workers), cols, i, row, col)
                && #[trigger] owns_cell(grid_shares(rows, cols, workers), cols, j, row, col) ==> i
                == j,
{
    let counts = grid_shares(rows, cols, workers);
    let x = row * cols + col;
    assert(0 <= x < rows * cols) by (nonlinear_arith)
        requires
            x == row * cols + col,
            0 <= row < rows,
            0 <= col < cols,
    ;
    lemma_shares_sum(rows * cols, workers);
    lemma_owner_exists(counts, x);
    let i = choose|i: nat| owns(counts, i, x);
    assert(owns_cell(counts, cols, i, row, col));
    assert forall|i: nat, j: nat|
        #[trigger] owns_cell(counts, cols, i, row, col) && #[trigger] owns_cell(
            counts,
            cols,
            j,
            row,
            col,
        ) implies i == j by {
        lemma_owner_unique(counts, i, j, x);
    }
}

/// The block of every worker lies inside the grid whose elements were split.
pub proof fn lemma_block_in_grid(rows: nat, cols: nat, workers: nat, i: nat)
    requires
        rows >= 1,
        cols >= 1,
        i < workers,
    ensures
        0 <= block_of(grid_shares(rows, cols, workers), cols, i).0.0 < rows,
        0 <= block_of(grid_shares(rows, cols, workers), cols, i).0.1 < cols,
        0 <= block_of(grid_shares(rows, cols, workers), cols, i).1.0 < rows,
        0 <= block_of(grid_shares(rows, cols, workers), cols, i).1.1 < cols,
{
    let counts = grid_shares(rows, cols, workers);
    assert(rows * cols >= 1) by (nonlinear_arith)
        requires
            rows >= 1,
            cols >= 1,
    ;
    lemma_shares_leading_work(rows * cols, workers);
    lemma_shares_sum(rows * cols, workers);
    lemma_range_bounds(counts, i);
    lemma_cell_of_in_grid(linear_range(counts, i).0, rows as int, cols as int);
    lemma_cell_of_in_grid(linear_range(counts, i).1, rows as int, cols as int);
}

} // verus!
