//! Sums over rectangular regions of a matrix, answered from a table of sums
//! that is filled once.

use vstd::prelude::*;

verus! {

/// The rows of a matrix, each by its elements.
pub open spec fn grid(matrix: Seq<Vec<i32>>) -> Seq<Seq<i32>> {
    Seq::new(matrix.len(), |r: int| matrix[r]@)
}

/// The sum of the elements of `row` at the positions `from .. to`, `to` left out.
pub open spec fn span_sum(row: Seq<i32>, from: int, to: int) -> int
    decreases to - from,
{
    if to <= from {
        0
    } else {
        span_sum(row, from, to - 1) + row[to - 1]
    }
}

/// The sum of the elements in the rows `top .. bottom` and the columns
/// `left .. right`, both upper ends left out.
pub open spec fn block_sum(m: Seq<Seq<i32>>, top: int, bottom: int, left: int, right: int) -> int
    decreases bottom - top,
{
    if bottom <= top {
        0
    } else {
        block_sum(m, top, bottom - 1, left, right) + span_sum(m[bottom - 1], left, right)
    }
}

/// The sum of the elements from row `row1` to row `row2` and from column
/// `col1` to column `col2`, all four included.
pub open spec fn region_sum(m: Seq<Seq<i32>>, row1: int, col1: int, row2: int, col2: int) -> int {
    block_sum(m, row1, row2 + 1, col1, col2 + 1)
}

/// The matrix has a row, and all its rows are as long as the first.
pub open spec fn is_rectangular(m: Seq<Seq<i32>>) -> bool {
    m.len() > 0 && forall|r: int| 0 <= r < m.len() ==> (#[trigger] m[r]).len() == m[0].len()
}

/// The value is one that an `i32` can hold.
pub open spec fn fits_i32(v: int) -> bool {
    i32::MIN <= v <= i32::MAX
}

/// A table of sums can be made for the matrix: it is rectangular, the table's
/// sides can be counted in a `usize`, and every sum over the first rows and
/// first columns, as many as one takes of each, is one that an `i32` can hold.
pub open spec fn is_summable(m: Seq<Seq<i32>>) -> bool {
    &&& is_rectangular(m)
    &&& m.len() < usize::MAX
    &&& m[0].len() < usize::MAX
    &&& forall|r: int, c: int|
        0 <= r <= m.len() && 0 <= c <= m[0].len() ==> fits_i32(#[trigger] block_sum(m, 0, r, 0, c))
}

/// A sum over no columns is 0.
pub proof fn lemma_block_sum_no_columns(m: Seq<Seq<i32>>, top: int, bottom: int, left: int)
    ensures
        block_sum(m, top, bottom, left, left) == 0,
    decreases bottom - top,
{
    if bottom > top {
        lemma_block_sum_no_columns(m, top, bottom - 1, left);
    }
}

/// A sum over a span is the sum up to its end less the sum up to its start.
pub proof fn lemma_span_sum_difference(row: Seq<i32>, from: int, to: int)
    requires
        0 <= from <= to,
    ensures
        span_sum(row, from, to) == span_sum(row, 0, to) - span_sum(row, 0, from),
    decreases to - from,
{
    if to > from {
        lemma_span_sum_difference(row, from, to - 1);
    }
}

/// The sum over a block comes from four sums that start at the top left
/// corner: the one up to the block's far corner, less the two that end beside
/// the block, and the one that both of these hold once more.
pub proof fn lemma_block_sum_from_corner_sums(
    m: Seq<Seq<i32>>,
    top: int,
    bottom: int,
    left: int,
    right: int,
)
    requires
        0 <= top <= bottom,
        0 <= left <= right,
    ensures
        block_sum(m, top, bottom, left, right) == block_sum(m, 0, bottom, 0, right) - block_sum(
            m,
            0,
            top,
            0,
            right,
        ) - block_sum(m, 0, bottom, 0, left) + block_sum(m, 0, top, 0, left),
    decreases bottom - top,
{
    if bottom > top {
        lemma_block_sum_from_corner_sums(m, top, bottom - 1, left, right);
        lemma_span_sum_difference(m[bottom - 1], left, right);
    }
}

/// A matrix of numbers that answers sums over rectangular regions from a
/// table made when it was built.
pub struct NumMatrix {
    prefix_sums: Vec<Vec<i32>>,
    matrix: Ghost<Seq<Seq<i32>>>,
}

impl View for NumMatrix {
    type V = Seq<Seq<i32>>;

    closed spec fn view(&self) -> Seq<Seq<i32>> {
        self.matrix@
    }
}

impl NumMatrix {
    /// The table holds, at row `r` and column `c`, the sum of the first `r`
    /// rows' first `c` elements.
    #[verifier::type_invariant]
    spec fn wf(&self) -> bool {
        &&& is_summable(self.matrix@)
        &&& self.prefix_sums@.len() == self.matrix@.len() + 1
        &&& forall|r: int|
            0 <= r <= self.matrix@.len() ==> (#[trigger] self.prefix_sums@[r])@.len()
                == self.matrix@[0].len() + 1
        &&& forall|r: int, c: int|
            0 <= r <= self.matrix@.len() && 0 <= c <= self.matrix@[0].len() ==> (
            #[trigger] self.prefix_sums@[r]@[c]) == block_sum(self.matrix@, 0, r, 0, c)
    }

    /// Builds the table of sums for `matrix`, or returns `None` where none can
    /// be made: without a row, with rows of different lengths, or with a sum
    /// too large for an `i32`.
    pub fn checked_new(matrix: &[Vec<i32>]) -> (result: Option<NumMatrix>)
        ensures
            result is Some <==> is_summable(grid(matrix@)),
            result matches Some(table) ==> table@ == grid(matrix@),
    {
        let ghost m = grid(matrix@);
        let rows: usize = matrix.len();
        if rows == 0 || rows == usize::MAX {
            return None;
        }
        let cols: usize = matrix[0].len();
        if cols == usize::MAX {
            return None;
        }
        let mut prefix_sums: Vec<Vec<i32>> = Vec::new();
        let mut zeros: Vec<i32> = Vec::new();
        let mut c: usize = 0;
        while c <= cols
            invariant
                cols < usize::MAX,
                c <= cols + 1,
                zeros@.len() == c,
                forall|j: int| 0 <= j < c ==> zeros@[j] == 0,
            decreases cols + 1 - c,
        {
            zeros.push(0);
            c += 1;
        }
        prefix_sums.push(zeros);
        let mut r: usize = 0;
        while r < rows
            invariant
                m == grid(matrix@),
                rows == m.len(),
                0 < rows < usize::MAX,
                cols == m[0].len(),
                cols < usize::MAX,
                r <= rows,
                prefix_sums@.len() == r + 1,
                forall|i: int| 0 <= i < r ==> (#[trigger] m[i]).len() == cols,
                forall|i: int| 0 <= i <= r ==> (#[trigger] prefix_sums@[i])@.len() == cols + 1,
                forall|i: int, j: int|
                    0 <= i <= r && 0 <= j <= cols ==> (#[trigger] prefix_sums@[i]@[j]) == block_sum(
                        m,
                        0,
                        i,
                        0,
                        j,
                    ),
            decreases rows - r,
        {
            if matrix[r].len() != cols {
                assert(m[r as int].len() != m[0].len());
                return None;
            }
            let mut sums: Vec<i32> = Vec::new();
            sums.push(0);
            proof {
                lemma_block_sum_no_columns(m, 0, r + 1, 0);
            }
            let mut c: usize = 0;
            while c < cols
                invariant
                    m == grid(matrix@),
                    rows == m.len(),
                    cols == m[0].len(),
                    cols < usize::MAX,
                    r < rows,
                    m[r as int].len() == cols,
                    c <= cols,
                    prefix_sums@.len() == r + 1,
                    prefix_sums@[r as int]@.len() == cols + 1,
                    forall|j: int|
                        0 <= j <= cols ==> (#[trigger] prefix_sums@[r as int]@[j]) == block_sum(
                            m,
                            0,
                            r as int,
                            0,
                            j,
                        ),
                    sums@.len() == c + 1,
                    forall|j: int|
                        0 <= j <= c ==> (#[trigger] sums@[j]) == block_sum(m, 0, r + 1, 0, j),
                decreases cols - c,
            {
                let above: &Vec<i32> = &prefix_sums[r];
                let sum: i64 = matrix[r][c] as i64 + sums[c] as i64 + above[c + 1] as i64
                    - above[c] as i64;
                proof {
                    assert(m[r as int][c as int] == matrix@[r as int]@[c as int]);
                    assert(span_sum(m[r as int], 0, c + 1) == span_sum(m[r as int], 0, c as int)
                        + m[r as int][c as int]);
                    assert(sum == block_sum(m, 0, r + 1, 0, c + 1));
                }
                if sum < i32::MIN as i64 || sum > i32::MAX as i64 {
                    assert(!fits_i32(block_sum(m, 0, r + 1, 0, c + 1)));
                    return None;
                }
                sums.push(sum as i32);
                c += 1;
            }
            prefix_sums.push(sums);
            r += 1;
        }
        proof {
            assert forall|i: int, j: int|
                0 <= i <= m.len() && 0 <= j <= m[0].len() implies fits_i32(
                #[trigger] block_sum(m, 0, i, 0, j),
            ) by {
                assert(prefix_sums@[i]@[j] == block_sum(m, 0, i, 0, j));
            }
        }
        Some(NumMatrix { prefix_sums, matrix: Ghost(m) })
    }

    /// Builds the table of sums for `matrix`.
    pub fn new(matrix: &[Vec<i32>]) -> (table: NumMatrix)
        requires
            is_summable(grid(matrix@)),
        ensures
            table@ == grid(matrix@),
    {
        NumMatrix::checked_new(matrix).unwrap()
    }

    /// The sum of the elements from row `row1` to row `row2` and from column
    /// `col1` to column `col2`, all four included; `None` where the corners
    /// are out of order or outside the matrix, or the sum is too large for an
    /// `i32`.
    pub fn checked_sum_region(&self, row1: usize, col1: usize, row2: usize, col2: usize) -> (sum:
        Option<i32>)
        ensures
            sum is Some <==> (row1 <= row2 < self@.len() && col1 <= col2 < self@[0].len()
                && fits_i32(
                region_sum(self@, row1 as int, col1 as int, row2 as int, col2 as int),
            )),
            sum matches Some(v) ==> v == region_sum(
                self@,
                row1 as int,
                col1 as int,
                row2 as int,
                col2 as int,
            ),
    {
        proof {
            use_type_invariant(self);
        }
        let rows: usize = self.prefix_sums.len() - 1;
        let cols: usize = self.prefix_sums[0].len() - 1;
        if row1 > row2 || row2 >= rows || col1 > col2 || col2 >= cols {
            return None;
        }
        proof {
            lemma_block_sum_from_corner_sums(
                self@,
                row1 as int,
                row2 + 1,
                col1 as int,
                col2 + 1,
            );
        }
        let below: &Vec<i32> = &self.prefix_sums[row2 + 1];
        let above: &Vec<i32> = &self.prefix_sums[row1];
        let sum: i64 = below[col2 + 1] as i64 - above[col2 + 1] as i64 - below[col1] as i64
            + above[col1] as i64;
        if sum < i32::MIN as i64 || sum > i32::MAX as i64 {
            None
        } else {
            Some(sum as i32)
        }
    }

    /// The sum of the elements from row `row1` to row `row2` and from column
    /// `col1` to column `col2`, all four included.
    pub fn sum_region(&self, row1: usize, col1: usize, row2: usize, col2: usize) -> (sum: i32)
        requires
            row1 <= row2 < self@.len(),
            col1 <= col2 < self@[0].len(),
            fits_i32(region_sum(self@, row1 as int, col1 as int, row2 as int, col2 as int)),
        ensures
            sum == region_sum(self@, row1 as int, col1 as int, row2 as int, col2 as int),
    {
        self.checked_sum_region(row1, col1, row2, col2).unwrap()
    }
}

} // verus!
