//! Spiral traversal of a matrix, and a square matrix filled in row-major order.

use vstd::prelude::*;

verus! {

/// The direction in which a spiral walks along one side of what is left of
/// the matrix.
#[derive(Clone, Copy, Debug)]
pub enum Heading {
    /// Along the top row, left to right.
    East,
    /// Down the right column.
    South,
    /// Along the bottom row, right to left.
    West,
    /// Up the left column.
    North,
}

/// The cells of row `row` from column `left` up to `right`, left to right.
pub open spec fn eastward(row: int, left: int, right: int) -> Seq<(int, int)> {
    Seq::new((right - left) as nat, |k: int| (row, left + k))
}

/// The cells of column `col` from row `top` up to `bottom`, top to bottom.
pub open spec fn southward(col: int, top: int, bottom: int) -> Seq<(int, int)> {
    Seq::new((bottom - top) as nat, |k: int| (top + k, col))
}

/// The cells of row `row` from column `left` up to `right`, right to left.
pub open spec fn westward(row: int, left: int, right: int) -> Seq<(int, int)> {
    Seq::new((right - left) as nat, |k: int| (row, right - 1 - k))
}

/// The cells of column `col` from row `top` up to `bottom`, bottom to top.
pub open spec fn northward(col: int, top: int, bottom: int) -> Seq<(int, int)> {
    Seq::new((bottom - top) as nat, |k: int| (bottom - 1 - k, col))
}

/// The cells of the rows `top .. bottom` and columns `left .. right` (each
/// range without its upper end) in clockwise spiral order: the side that
/// `heading` names in full, then the spiral of the rest, turned by a quarter.
pub open spec fn spiral_cells(
    top: int,
    bottom: int,
    left: int,
    right: int,
    heading: Heading,
) -> Seq<(int, int)>
    decreases bottom - top + right - left,
{
    if top >= bottom || left >= right {
        Seq::empty()
    } else {
        match heading {
            Heading::East => eastward(top, left, right) + spiral_cells(
                top + 1,
                bottom,
                left,
                right,
                Heading::South,
            ),
            Heading::South => southward(right - 1, top, bottom) + spiral_cells(
                top,
                bottom,
                left,
                right - 1,
                Heading::West,
            ),
            Heading::West => westward(bottom - 1, left, right) + spiral_cells(
                top,
                bottom - 1,
                left,
                right,
                Heading::North,
            ),
            Heading::North => northward(left, top, bottom) + spiral_cells(
                top,
                bottom,
                left + 1,
                right,
                Heading::East,
            ),
        }
    }
}

/// What the matrix holds in each of `cells`, in their order.
pub open spec fn values_at<T>(matrix: Seq<Vec<T>>, cells: Seq<(int, int)>) -> Seq<T> {
    Seq::new(cells.len(), |k: int| matrix[cells[k].0]@[cells[k].1])
}

/// The width of the matrix: the length of its first row, or none without a row.
pub open spec fn width<T>(matrix: Seq<Vec<T>>) -> int {
    if matrix.len() == 0 {
        0
    } else {
        matrix[0]@.len() as int
    }
}

/// The elements of the matrix in clockwise spiral order, starting along the
/// top row from the top left corner.
pub open spec fn spiral_of<T>(matrix: Seq<Vec<T>>) -> Seq<T> {
    values_at(matrix, spiral_cells(0, matrix.len() as int, 0, width(matrix), Heading::East))
}

/// The spiral visits each cell of its rows and columns, and each once.
pub proof fn lemma_spiral_visits_each_cell_once(
    top: int,
    bottom: int,
    left: int,
    right: int,
    heading: Heading,
)
    requires
        top <= bottom,
        left <= right,
    ensures
        spiral_cells(top, bottom, left, right, heading).len() == (bottom - top) * (right - left),
        spiral_cells(top, bottom, left, right, heading).no_duplicates(),
        forall|r: int, c: int|
            spiral_cells(top, bottom, left, right, heading).contains((r, c)) <==> (top <= r
                < bottom && left <= c < right),
    decreases bottom - top + right - left,
{
    let cells = spiral_cells(top, bottom, left, right, heading);
    let h = bottom - top;
    let w = right - left;
    if top >= bottom || left >= right {
        assert(h * w == 0) by (nonlinear_arith)
            requires
                h == 0 || w == 0,
        ;
        assert forall|r: int, c: int| !cells.contains((r, c)) by {}
    } else {
        let (side, rest) = match heading {
            Heading::East => (
                eastward(top, left, right),
                spiral_cells(top + 1, bottom, left, right, Heading::South),
            ),
            Heading::South => (
                southward(right - 1, top, bottom),
                spiral_cells(top, bottom, left, right - 1, Heading::West),
            ),
            Heading::West => (
                westward(bottom - 1, left, right),
                spiral_cells(top, bottom - 1, left, right, Heading::North),
            ),
            Heading::North => (
                northward(left, top, bottom),
                spiral_cells(top, bottom, left + 1, right, Heading::East),
            ),
        };
        assert(cells == side + rest);
        match heading {
            Heading::East => {
                lemma_spiral_visits_each_cell_once(top + 1, bottom, left, right, Heading::South);
                assert(h * w == w + (h - 1) * w) by (nonlinear_arith);
            },
            Heading::South => {
                lemma_spiral_visits_each_cell_once(top, bottom, left, right - 1, Heading::West);
                assert(h * w == h + h * (w - 1)) by (nonlinear_arith);
            },
            Heading::West => {
                lemma_spiral_visits_each_cell_once(top, bottom - 1, left, right, Heading::North);
                assert(h * w == w + (h - 1) * w) by (nonlinear_arith);
            },
            Heading::North => {
                lemma_spiral_visits_each_cell_once(top, bottom, left + 1, right, Heading::East);
                assert(h * w == h + h * (w - 1)) by (nonlinear_arith);
            },
        }
        assert forall|i: int, j: int| 0 <= i < cells.len() && 0 <= j < cells.len() && i
            != j implies cells[i] != cells[j] by {
            let n = side.len() as int;
            if i >= n {
                assert(rest.contains(rest[i - n]));
            }
            if j >= n {
                assert(rest.contains(rest[j - n]));
            }
        }
        assert forall|r: int, c: int|
            cells.contains((r, c)) <==> (top <= r < bottom && left <= c < right) by {
            let n = side.len() as int;
            if cells.contains((r, c)) {
                let i = choose|i: int| 0 <= i < cells.len() && cells[i] == (r, c);
                if i >= n {
                    assert(rest.contains(rest[i - n]));
                }
            }
            if top <= r < bottom && left <= c < right {
                let k = match heading {
                    Heading::East => if r == top {
                        c - left
                    } else {
                        -1
                    },
                    Heading::South => if c == right - 1 {
                        r - top
                    } else {
                        -1
                    },
                    Heading::West => if r == bottom - 1 {
                        right - 1 - c
                    } else {
                        -1
                    },
                    Heading::North => if c == left {
                        bottom - 1 - r
                    } else {
                        -1
                    },
                };
                if k >= 0 {
                    assert(cells[k] == (r, c));
                } else {
                    assert(rest.contains((r, c)));
                    let i = choose|i: int| 0 <= i < rest.len() && rest[i] == (r, c);
                    assert(cells[n + i] == (r, c));
                }
            }
        }
    }
}

/// The elements of `matrix` in clockwise spiral order, starting along the top
/// row from the top left corner. The first row gives the width; what a longer
/// row holds beyond it is left out.
pub fn spiral<T: PartialOrd + Copy>(matrix: &[Vec<T>]) -> (result: Vec<T>)
    requires
        forall|i: int| 0 <= i < matrix@.len() ==> (#[trigger] matrix@[i])@.len() >= width(matrix@),
    ensures
        result@ == spiral_of(matrix@),
        result@.len() == matrix@.len() * width(matrix@),
{
    let mut result: Vec<T> = Vec::new();
    if matrix.is_empty() {
        proof {
            lemma_spiral_visits_each_cell_once(0, 0, 0, 0, Heading::East);
            assert(result@ =~= spiral_of(matrix@));
        }
        return result;
    }
    let rows: usize = matrix.len();
    let cols: usize = matrix[0].len();
    let mut top: usize = 0;
    let mut bottom: usize = rows;
    let mut left: usize = 0;
    let mut right: usize = cols;
    let mut heading = Heading::East;
    let ghost m = matrix@;
    proof {
        assert(result@ + values_at(m, spiral_cells(0, rows as int, 0, cols as int, Heading::East))
            =~= spiral_of(m));
    }
    while top < bottom && left < right
        invariant
            m == matrix@,
            rows == m.len(),
            cols == width(m),
            forall|i: int| 0 <= i < m.len() ==> (#[trigger] m[i])@.len() >= cols,
            top <= bottom <= rows,
            left <= right <= cols,
            result@ + values_at(
                m,
                spiral_cells(top as int, bottom as int, left as int, right as int, heading),
            ) == spiral_of(m),
        decreases bottom - top + right - left,
    {
        let ghost done = result@;
        let ghost cells = spiral_cells(
            top as int,
            bottom as int,
            left as int,
            right as int,
            heading,
        );
        match heading {
            Heading::East => {
                let ghost side = eastward(top as int, left as int, right as int);
                let mut i: usize = left;
                while i < right
                    invariant
                        m == matrix@,
                        forall|r: int| 0 <= r < m.len() ==> (#[trigger] m[r])@.len() >= cols,
                        top < bottom <= m.len(),
                        left <= i <= right <= cols,
                        side == eastward(top as int, left as int, right as int),
                        result@ == done + values_at(m, side.take(i - left)),
                    decreases right - i,
                {
                    result.push(matrix[top][i]);
                    proof {
                        assert(result@ =~= done + values_at(m, side.take(i + 1 - left)));
                    }
                    i += 1;
                }
                top += 1;
                heading = Heading::South;
                proof {
                    assert(side.take(right - left) =~= side);
                    lemma_values_of_parts(
                        m,
                        side,
                        spiral_cells(top as int, bottom as int, left as int, right as int, heading),
                    );
                }
            },
            Heading::South => {
                let ghost side = southward(right - 1, top as int, bottom as int);
                let mut i: usize = top;
                while i < bottom
                    invariant
                        m == matrix@,
                        forall|r: int| 0 <= r < m.len() ==> (#[trigger] m[r])@.len() >= cols,
                        top <= i <= bottom <= m.len(),
                        left < right <= cols,
                        side == southward(right - 1, top as int, bottom as int),
                        result@ == done + values_at(m, side.take(i - top)),
                    decreases bottom - i,
                {
                    result.push(matrix[i][right - 1]);
                    proof {
                        assert(result@ =~= done + values_at(m, side.take(i + 1 - top)));
                    }
                    i += 1;
                }
                right -= 1;
                heading = Heading::West;
                proof {
                    assert(side.take(bottom - top) =~= side);
                    lemma_values_of_parts(
                        m,
                        side,
                        spiral_cells(top as int, bottom as int, left as int, right as int, heading),
                    );
                }
            },
            Heading::West => {
                let ghost side = westward(bottom - 1, left as int, right as int);
                let mut i: usize = right;
                while i > left
                    invariant
                        m == matrix@,
                        forall|r: int| 0 <= r < m.len() ==> (#[trigger] m[r])@.len() >= cols,
                        top < bottom <= m.len(),
                        left <= i <= right <= cols,
                        side == westward(bottom - 1, left as int, right as int),
                        result@ == done + values_at(m, side.take(right - i)),
                    decreases i - left,
                {
                    i -= 1;
                    result.push(matrix[bottom - 1][i]);
                    proof {
                        assert(result@ =~= done + values_at(m, side.take(right - i)));
                    }
                }
                bottom -= 1;
                heading = Heading::North;
                proof {
                    assert(side.take(right - left) =~= side);
                    lemma_values_of_parts(
                        m,
                        side,
                        spiral_cells(top as int, bottom as int, left as int, right as int, heading),
                    );
                }
            },
            Heading::North => {
                let ghost side = northward(left as int, top as int, bottom as int);
                let mut i: usize = bottom;
                while i > top
                    invariant
                        m == matrix@,
                        forall|r: int| 0 <= r < m.len() ==> (#[trigger] m[r])@.len() >= cols,
                        top <= i <= bottom <= m.len(),
                        left < right <= cols,
                        side == northward(left as int, top as int, bottom as int),
                        result@ == done + values_at(m, side.take(bottom - i)),
                    decreases i - top,
                {
                    i -= 1;
                    result.push(matrix[i][left]);
                    proof {
                        assert(result@ =~= done + values_at(m, side.take(bottom - i)));
                    }
                }
                left += 1;
                heading = Heading::East;
                proof {
                    assert(side.take(bottom - top) =~= side);
                    lemma_values_of_parts(
                        m,
                        side,
                        spiral_cells(top as int, bottom as int, left as int, right as int, heading),
                    );
                }
            },
        }
    }
    proof {
        assert(values_at(
            m,
            spiral_cells(top as int, bottom as int, left as int, right as int, heading),
        ) =~= Seq::<T>::empty());
        assert(result@ =~= spiral_of(m));
        lemma_spiral_visits_each_cell_once(0, rows as int, 0, cols as int, Heading::East);
    }
    result
}

/// The values at two runs of cells, one after the other, are the values at
/// the first followed by the values at the second.
proof fn lemma_values_of_parts<T>(
    matrix: Seq<Vec<T>>,
    first: Seq<(int, int)>,
    second: Seq<(int, int)>,
)
    ensures
        values_at(matrix, first + second) == values_at(matrix, first) + values_at(matrix, second),
{
    assert(values_at(matrix, first + second) =~= values_at(matrix, first) + values_at(
        matrix,
        second,
    ));
}

/// Largest side for which every cell value `i * size + j` fits in an `i32`.
pub const MAX_MATRIX_SIDE: i32 = 46340;

/// Builds the `size` x `size` matrix whose cell `(i, j)` holds `i * size + j`,
/// that is, the numbers `0 .. size * size` in row-major order.
pub fn create_matrix(size: i32) -> (matrix: Vec<Vec<i32>>)
    requires
        0 < size <= MAX_MATRIX_SIDE,
    ensures
        matrix@.len() == size,
        forall|i: int| 0 <= i < size ==> (#[trigger] matrix@[i])@.len() == size,
        forall|i: int, j: int|
            0 <= i < size && 0 <= j < size ==> (#[trigger] matrix@[i]@[j]) == i * size + j,
{
    let mut matrix: Vec<Vec<i32>> = Vec::new();
    let mut i: i32 = 0;
    while i < size
        invariant
            0 < size <= MAX_MATRIX_SIDE,
            0 <= i <= size,
            matrix@.len() == i,
            forall|r: int| 0 <= r < i ==> (#[trigger] matrix@[r])@.len() == size,
            forall|r: int, c: int|
                0 <= r < i && 0 <= c < size ==> (#[trigger] matrix@[r]@[c]) == r * size + c,
        decreases size - i,
    {
        let mut row: Vec<i32> = Vec::new();
        let mut j: i32 = 0;
        while j < size
            invariant
                0 < size <= MAX_MATRIX_SIDE,
                0 <= i < size,
                0 <= j <= size,
                row@.len() == j,
                forall|c: int| 0 <= c < j ==> (#[trigger] row@[c]) == i * size + c,
            decreases size - j,
        {
            assert(i * size + j <= (size - 1) * size + (size - 1)) by (nonlinear_arith)
                requires
                    0 <= i < size,
                    0 <= j < size,
            ;
            assert((size - 1) * size + (size - 1) <= 46339 * 46340 + 46339) by (nonlinear_arith)
                requires
                    0 < size <= 46340,
            ;
            assert(0 <= i * size) by (nonlinear_arith)
                requires
                    0 <= i,
                    0 < size,
            ;
            row.push(i * size + j);
            j += 1;
        }
        matrix.push(row);
        i += 1;
    }
    matrix
}

} // verus!
