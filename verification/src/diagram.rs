//! Grid diagrams and the Cromwell moves.
//!
//! A `Diagram` owns a square matrix of cell markers with exactly one
//! over-mark (`'x'`) and one under-mark (`'o'`) in every row and column.
//! It is built from a caller-supplied matrix, validated once, and then
//! mutated in place by the Cromwell moves; a failed move leaves the
//! diagram untouched.

use vstd::prelude::*;

use crate::grid::{
    blank_row, column, count_marker, interleaved, is_square, line_ok, lemma_count_le_len,
    lemma_count_one_exists, lemma_count_one_unique, lemma_count_take_step,
    lemma_rotate_cols_valid, lemma_rotate_rows_valid, lemma_stabilized_valid,
    lemma_swap_cols_valid, lemma_swap_rows_valid, marker_pos, rotate_back, rotate_cols_left,
    rotate_cols_right, rotate_fwd, rotate_rows_down, rotate_rows_up, splice, stabilized,
    swap_cols, swap_rows, valid_grid, EMPTY_MARK, OVER_MARK, UNDER_MARK,
};

verus! {

/// A direction for a translation move.
#[derive(Debug, Clone, Copy)]
pub enum Direction {
    Up,
    Down,
    Left,
    Right,
}

/// An axial direction: whole rows or whole columns.
#[derive(Debug, Clone, Copy)]
pub enum Axis {
    Row,
    Column,
}

/// A cardinal direction, naming the corner of the two-by-two block that a
/// stabilization leaves blank.
#[derive(Debug, Clone, Copy)]
pub enum Cardinality {
    NW,
    SW,
    NE,
    SE,
}

/// A Cromwell move: a grid transformation that changes the diagram without
/// changing the knot it encodes.
pub enum CromwellMove {
    /// Cyclically translates all rows (up or down) or all columns (left or
    /// right) by one position.
    Translation(Direction),
    /// Exchanges the line at `start_index` with the adjacent line at
    /// `start_index + 1` along the given axis.
    Commutation { axis: Axis, start_index: usize },
    /// Replaces the over-mark at `(i, j)` with a two-by-two block, adding
    /// one row and one column.
    Stabilization { cardinality: Cardinality, i: usize, j: usize },
}

/// Why a diagram could not be built or a move could not be applied.
#[derive(Debug, Clone, Copy, PartialEq, Eq)]
pub enum DiagramError {
    /// The input matrix has unequal row and column counts.
    NotSquare,
    /// Some row or column does not hold exactly one over-mark and one
    /// under-mark.
    InvalidMarking,
    /// A commutation was requested at the last row or column index.
    NoAdjacentLine,
    /// The two lines of a commutation are interleaved; exchanging them
    /// would change the knot type.
    InterleavedLines,
    /// A stabilization was requested at a cell that is not an over-mark.
    NotAnOverMark,
}

/// A grid diagram encoding a knot (or the unknot).
pub struct Diagram {
    /// The number of rows and of columns.
    resolution: usize,
    /// The cells, row by row.
    data: Vec<Vec<char>>,
}

/// Where a stabilization inserts its new row: below row `i` for the
/// northern corners, above it for the southern ones.
pub open spec fn stab_row(cardinality: Cardinality, i: int) -> int {
    match cardinality {
        Cardinality::NW | Cardinality::NE => i + 1,
        Cardinality::SW | Cardinality::SE => i,
    }
}

/// Where a stabilization inserts its new column: right of column `j` for
/// the western corners, left of it for the eastern ones.
pub open spec fn stab_col(cardinality: Cardinality, j: int) -> int {
    match cardinality {
        Cardinality::NW | Cardinality::SW => j + 1,
        Cardinality::NE | Cardinality::SE => j,
    }
}

/// The line a commutation move reads: a row or a column of the grid.
pub open spec fn grid_line(m: Seq<Seq<char>>, axis: Axis, k: int) -> Seq<char> {
    match axis {
        Axis::Row => m[k],
        Axis::Column => column(m, k),
    }
}

/// The index bounds a move's caller must respect; out-of-range indices are
/// a caller error, not a reported failure.
pub open spec fn move_in_bounds(n: int, cromwell: CromwellMove) -> bool {
    match cromwell {
        CromwellMove::Translation(_) => true,
        CromwellMove::Commutation { axis, start_index } => start_index < n,
        CromwellMove::Stabilization { cardinality, i, j } => i < n && j < n,
    }
}

impl Diagram {
    /// The mathematical grid this diagram holds.
    pub closed spec fn grid(self) -> Seq<Seq<char>> {
        self.data@.map_values(|r: Vec<char>| r@)
    }

    /// The stored resolution, for use in specifications.
    pub closed spec fn spec_resolution(self) -> int {
        self.resolution as int
    }

    /// The shape invariant: the matrix is square and as large as the
    /// stored resolution says.
    pub open spec fn wf(self) -> bool {
        self.grid().len() == self.spec_resolution() && is_square(self.grid())
    }

    /// The marking invariant: every row and column carries exactly one
    /// over-mark and one under-mark.
    pub open spec fn valid(self) -> bool {
        valid_grid(self.grid())
    }

    /// Builds a diagram from a square matrix of cell markers, validating
    /// it once: `NotSquare` when some row is not as long as the matrix is
    /// tall, `InvalidMarking` when some row or column does not carry
    /// exactly one over-mark and one under-mark.
    pub fn from_matrix(cells: Vec<Vec<char>>) -> (r: Result<Diagram, DiagramError>)
        ensures
            ({
                let m = cells@.map_values(|row: Vec<char>| row@);
                match r {
                    Ok(d) => d.wf() && d.valid() && d.grid() == m && d.spec_resolution() == m.len(),
                    Err(DiagramError::NotSquare) => !is_square(m),
                    Err(DiagramError::InvalidMarking) => is_square(m) && !valid_grid(m),
                    Err(_) => false,
                }
            }),
    {
        let n = cells.len();
        let ghost m = cells@.map_values(|row: Vec<char>| row@);
        for r in 0..n
            invariant
                n == cells.len(),
                m == cells@.map_values(|row: Vec<char>| row@),
                forall|p: int| 0 <= p < r ==> #[trigger] m[p].len() == n,
        {
            proof {
                assert(m[r as int] == cells@[r as int]@);
            }
            if cells[r].len() != n {
                return Err(DiagramError::NotSquare);
            }
        }
        let diagram = Diagram { resolution: n, data: cells };
        assert(diagram.grid() =~= m);
        match diagram.validate() {
            Ok(_) => Ok(diagram),
            Err(e) => Err(e),
        }
    }

    /// Checks the marking invariant, reporting `InvalidMarking` when some
    /// row or column does not carry exactly one over-mark and one
    /// under-mark.
    pub fn validate(&self) -> (r: Result<(), DiagramError>)
        requires
            self.wf(),
        ensures
            r matches Ok(_) <==> self.valid(),
            r matches Err(e) ==> e == DiagramError::InvalidMarking,
    {
        let n = self.resolution;
        for index in 0..n
            invariant
                self.wf(),
                n == self.spec_resolution(),
                forall|p: int| 0 <= p < index ==> line_ok(#[trigger] self.grid()[p]),
                forall|p: int| 0 <= p < index ==> line_ok(#[trigger] column(self.grid(), p)),
        {
            let current_row = self.get_row(index);
            let current_col = self.get_column(index);
            if count_in_line(&current_row, OVER_MARK) != 1 || count_in_line(&current_row, UNDER_MARK)
                != 1 || count_in_line(&current_col, OVER_MARK) != 1 || count_in_line(
                &current_col,
                UNDER_MARK,
            ) != 1 {
                return Err(DiagramError::InvalidMarking);
            }
        }
        Ok(())
    }

    /// The resolution: the number of rows, which equals the number of
    /// columns.
    pub fn get_resolution(&self) -> (r: usize)
        ensures
            r == self.spec_resolution(),
    {
        self.resolution
    }

    /// A reference to the diagram's cells, row by row.
    pub fn get_data(&self) -> (r: &Vec<Vec<char>>)
        ensures
            r@.map_values(|row: Vec<char>| row@) == self.grid(),
            r@.len() == self.grid().len(),
    {
        &self.data
    }

    /// A copy of the `i`th row.
    pub fn get_row(&self, i: usize) -> (r: Vec<char>)
        requires
            self.wf(),
            i < self.spec_resolution(),
        ensures
            r@ == self.grid()[i as int],
    {
        clone_line(&self.data[i])
    }

    /// A copy of the `j`th column, read top to bottom.
    pub fn get_column(&self, j: usize) -> (r: Vec<char>)
        requires
            self.wf(),
            j < self.spec_resolution(),
        ensures
            r@ == column(self.grid(), j as int),
    {
        let n = self.resolution;
        let mut out: Vec<char> = Vec::new();
        for i in 0..n
            invariant
                self.wf(),
                n == self.spec_resolution(),
                j < n,
                out@.len() == i,
                forall|p: int| 0 <= p < i ==> out@[p] == #[trigger] self.grid()[p][j as int],
        {
            proof {
                assert(self.grid()[i as int] == self.data@[i as int]@);
                assert(self.grid()[i as int].len() == self.grid().len());
            }
            out.push(self.data[i][j]);
        }
        assert(out@ =~= column(self.grid(), j as int));
        out
    }

    /// Overwrites the `i`th row with `row`.
    pub fn set_row(&mut self, i: usize, row: &Vec<char>)
        requires
            old(self).wf(),
            i < old(self).spec_resolution(),
            row@.len() == old(self).spec_resolution(),
        ensures
            final(self).wf(),
            final(self).spec_resolution() == old(self).spec_resolution(),
            final(self).grid() == old(self).grid().update(i as int, row@),
    {
        let fresh = clone_line(row);
        self.data.set(i, fresh);
        assert(final(self).grid() =~= old(self).grid().update(i as int, row@));
    }

    /// Overwrites the `i`th column with `col`.
    pub fn set_column(&mut self, i: usize, col: &Vec<char>)
        requires
            old(self).wf(),
            i < old(self).spec_resolution(),
            col@.len() == old(self).spec_resolution(),
        ensures
            final(self).wf(),
            final(self).spec_resolution() == old(self).spec_resolution(),
            final(self).grid() == Seq::new(
                old(self).grid().len(),
                |r: int| old(self).grid()[r].update(i as int, col@[r]),
            ),
    {
        let n = self.resolution;
        for r in 0..n
            invariant
                n == self.spec_resolution(),
                self.spec_resolution() == old(self).spec_resolution(),
                self.grid().len() == n,
                i < n,
                col@.len() == n,
                old(self).wf(),
                forall|p: int| 0 <= p < n ==> #[trigger] self.grid()[p].len() == n,
                forall|p: int|
                    0 <= p < r ==> #[trigger] self.grid()[p] == old(self).grid()[p].update(
                        i as int,
                        col@[p],
                    ),
                forall|p: int| r <= p < n ==> #[trigger] self.grid()[p] == old(self).grid()[p],
        {
            let ghost gpre = self.grid();
            proof {
                assert(gpre[r as int] == self.data@[r as int]@);
            }
            let mut row = clone_line(&self.data[r]);
            row.set(i, col[r]);
            self.data.set(r, row);
            proof {
                assert(row@ == gpre[r as int].update(i as int, col@[r as int]));
                assert forall|p: int| 0 <= p < n implies #[trigger] self.grid()[p] == if p
                    == r as int {
                    gpre[p].update(i as int, col@[p])
                } else {
                    gpre[p]
                } by {
                    assert(self.grid()[p] == self.data@[p]@);
                }
            }
        }
        assert(final(self).grid() =~= Seq::new(
            old(self).grid().len(),
            |r: int| old(self).grid()[r].update(i as int, col@[r]),
        ));
    }
    /// Swaps rows `a` and `b`.
    pub fn exchange_rows(&mut self, a: usize, b: usize)
        requires
            old(self).wf(),
            a < old(self).spec_resolution(),
            b < old(self).spec_resolution(),
        ensures
            final(self).wf(),
            final(self).spec_resolution() == old(self).spec_resolution(),
            final(self).grid() == swap_rows(old(self).grid(), a as int, b as int),
    {
        let ra = clone_line(&self.data[a]);
        let rb = clone_line(&self.data[b]);
        self.data.set(a, rb);
        self.data.set(b, ra);
        proof {
            assert forall|p: int| 0 <= p < self.grid().len() implies #[trigger] self.grid()[p]
                == swap_rows(old(self).grid(), a as int, b as int)[p] by {
                assert(self.grid()[p] == self.data@[p]@);
            }
            assert(self.grid() =~= swap_rows(old(self).grid(), a as int, b as int));
        }
    }

    /// Swaps columns `a` and `b`.
    pub fn exchange_columns(&mut self, a: usize, b: usize)
        requires
            old(self).wf(),
            a < old(self).spec_resolution(),
            b < old(self).spec_resolution(),
        ensures
            final(self).wf(),
            final(self).spec_resolution() == old(self).spec_resolution(),
            final(self).grid() == swap_cols(old(self).grid(), a as int, b as int),
    {
        let n = self.resolution;
        for r in 0..n
            invariant
                n == self.spec_resolution(),
                self.spec_resolution() == old(self).spec_resolution(),
                self.grid().len() == n,
                a < n,
                b < n,
                old(self).wf(),
                forall|p: int| 0 <= p < n ==> #[trigger] self.grid()[p].len() == n,
                forall|p: int|
                    0 <= p < r ==> #[trigger] self.grid()[p] == old(self).grid()[p].update(
                        a as int,
                        old(self).grid()[p][b as int],
                    ).update(b as int, old(self).grid()[p][a as int]),
                forall|p: int| r <= p < n ==> #[trigger] self.grid()[p] == old(self).grid()[p],
        {
            let ghost gpre = self.grid();
            proof {
                assert(gpre[r as int] == self.data@[r as int]@);
            }
            let mut row = clone_line(&self.data[r]);
            let va = row[a];
            let vb = row[b];
            row.set(a, vb);
            row.set(b, va);
            self.data.set(r, row);
            proof {
                assert(row@ == gpre[r as int].update(a as int, gpre[r as int][b as int]).update(
                    b as int,
                    gpre[r as int][a as int],
                ));
                assert forall|p: int| 0 <= p < n implies #[trigger] self.grid()[p] == if p
                    == r as int {
                    gpre[p].update(a as int, gpre[p][b as int]).update(b as int, gpre[p][a as int])
                } else {
                    gpre[p]
                } by {
                    assert(self.grid()[p] == self.data@[p]@);
                }
            }
        }
        assert(final(self).grid() =~= swap_cols(old(self).grid(), a as int, b as int));
    }

    /// Whether two legal lines are interleaved: the intervals their two
    /// marks span overlap without either containing the other.
    pub fn are_interleaved(&self, row_or_column_a: &Vec<char>, row_or_column_b: &Vec<char>) -> (r:
        bool)
        requires
            line_ok(row_or_column_a@),
            line_ok(row_or_column_b@),
        ensures
            r == interleaved(row_or_column_a@, row_or_column_b@),
    {
        let ax = find_unique(row_or_column_a, OVER_MARK);
        let ao = find_unique(row_or_column_a, UNDER_MARK);
        let bx = find_unique(row_or_column_b, OVER_MARK);
        let bo = find_unique(row_or_column_b, UNDER_MARK);
        let a_start = if ax <= ao { ax } else { ao };
        let a_end = if ax <= ao { ao } else { ax };
        let b_start = if bx <= bo { bx } else { bo };
        let b_end = if bx <= bo { bo } else { bx };

        if a_start > b_start && a_end < b_end {
            // `a` is completely contained in `b`
            return false;
        } else if b_start > a_start && b_end < a_end {
            // `b` is completely contained in `a`
            return false;
        } else if a_end < b_start {
            // `a` lies entirely before `b`
            return false;
        } else if a_start > b_end {
            // `a` lies entirely after `b`
            return false;
        }
        // The marks of `a` and `b` must be interleaved
        true
    }

    /// Converts grid indices `(i, j)` to the absolute index `i + j * n`.
    pub fn convert_to_absolute_index(&self, i: usize, j: usize) -> (r: usize)
        requires
            i < self.spec_resolution(),
            j < self.spec_resolution(),
            self.spec_resolution() * self.spec_resolution() <= usize::MAX,
        ensures
            r == i + j * self.spec_resolution(),
            r < self.spec_resolution() * self.spec_resolution(),
    {
        proof {
            let ni = self.spec_resolution();
            assert((i as int) + (j as int) * ni < ni * ni) by (nonlinear_arith)
                requires
                    0 <= i < ni,
                    0 <= j < ni,
            ;
        }
        i + j * self.resolution
    }

    /// Converts an absolute index back to grid indices `(i, j)`.
    pub fn convert_to_grid_indices(&self, absolute_index: usize) -> (r: (usize, usize))
        requires
            self.spec_resolution() >= 1,
        ensures
            r.0 == absolute_index as int % self.spec_resolution(),
            r.1 == absolute_index as int / self.spec_resolution(),
    {
        (absolute_index % self.resolution, absolute_index / self.resolution)
    }

    /// Applies a Cromwell move.  A translation always succeeds; a
    /// commutation fails with `NoAdjacentLine` at the last line and with
    /// `InterleavedLines` when the two lines interleave; a stabilization
    /// fails with `NotAnOverMark` away from an over-mark.  A failed move
    /// leaves the diagram exactly as it was.
    pub fn apply_move(&mut self, cromwell: CromwellMove) -> (r: Result<(), DiagramError>)
        requires
            old(self).wf(),
            old(self).valid(),
            move_in_bounds(old(self).spec_resolution(), cromwell),
        ensures
            final(self).wf(),
            final(self).valid(),
            cromwell matches CromwellMove::Translation(direction) ==> r == Ok::<(), DiagramError>(())
                && final(self).spec_resolution() == old(self).spec_resolution()
                && final(self).grid() == translated(old(self).grid(), direction),
            cromwell matches CromwellMove::Commutation { axis, start_index } ==> ({
                let k = start_index as int;
                let m = old(self).grid();
                if k + 1 == old(self).spec_resolution() {
                    r == Err::<(), DiagramError>(DiagramError::NoAdjacentLine) && *final(self)
                        == *old(self)
                } else if interleaved(grid_line(m, axis, k), grid_line(m, axis, k + 1)) {
                    r == Err::<(), DiagramError>(DiagramError::InterleavedLines) && *final(self)
                        == *old(self)
                } else {
                    r == Ok::<(), DiagramError>(()) && final(self).spec_resolution() == old(
                        self,
                    ).spec_resolution() && final(self).grid() == swap_lines(m, axis, k)
                }
            }),
            cromwell matches CromwellMove::Stabilization { cardinality, i, j } ==> ({
                let m = old(self).grid();
                if m[i as int][j as int] != OVER_MARK {
                    r == Err::<(), DiagramError>(DiagramError::NotAnOverMark) && *final(self)
                        == *old(self)
                } else {
                    r == Ok::<(), DiagramError>(()) && final(self).spec_resolution() == old(
                        self,
                    ).spec_resolution() + 1 && final(self).grid() == stabilized(
                        m,
                        i as int,
                        j as int,
                        stab_row(cardinality, i as int),
                        stab_col(cardinality, j as int),
                    )
                }
            }),
    {
        match cromwell {
            CromwellMove::Translation(direction) => {
                self.translate(direction);
                proof {
                    lemma_rotate_rows_valid(old(self).grid());
                    lemma_rotate_cols_valid(old(self).grid());
                }
                Ok(())
            },
            CromwellMove::Commutation { axis, start_index } => self.commute(axis, start_index),
            CromwellMove::Stabilization { cardinality, i, j } => self.stabilize(cardinality, i, j),
        }
    }

    /// Cyclically rotates all rows or all columns by one position.
    fn translate(&mut self, direction: Direction)
        requires
            old(self).wf(),
        ensures
            final(self).wf(),
            final(self).spec_resolution() == old(self).spec_resolution(),
            final(self).grid() == translated(old(self).grid(), direction),
    {
        match direction {
            Direction::Up => {
                if self.data.len() > 0 {
                    let first_row = self.data.remove(0);
                    self.data.push(first_row);
                }
                assert(self.grid() =~= rotate_rows_up(old(self).grid()));
            },
            Direction::Down => {
                if let Some(last_row) = self.data.pop() {
                    self.data.insert(0, last_row);
                }
                assert(self.grid() =~= rotate_rows_down(old(self).grid()));
            },
            Direction::Left => {
                let n = self.resolution;
                for r in 0..n
                    invariant
                        n == self.spec_resolution(),
                        self.spec_resolution() == old(self).spec_resolution(),
                        self.grid().len() == n,
                        old(self).wf(),
                        forall|p: int| 0 <= p < n ==> #[trigger] self.grid()[p].len() == n,
                        forall|p: int|
                            0 <= p < r ==> #[trigger] self.grid()[p] == rotate_fwd(
                                old(self).grid()[p],
                            ),
                        forall|p: int|
                            r <= p < n ==> #[trigger] self.grid()[p] == old(self).grid()[p],
                {
                    let ghost gpre = self.grid();
                    proof {
                        assert(gpre[r as int] == self.data@[r as int]@);
                    }
                    let mut row = clone_line(&self.data[r]);
                    if row.len() > 0 {
                        let entry = row.remove(0);
                        row.push(entry);
                    }
                    self.data.set(r, row);
                    proof {
                        assert(row@ =~= rotate_fwd(gpre[r as int]));
                        assert forall|p: int| 0 <= p < n implies #[trigger] self.grid()[p] == if p
                            == r as int {
                            rotate_fwd(gpre[p])
                        } else {
                            gpre[p]
                        } by {
                            assert(self.grid()[p] == self.data@[p]@);
                        }
                    }
                }
                assert(final(self).grid() =~= rotate_cols_left(old(self).grid()));
            },
            Direction::Right => {
                let n = self.resolution;
                for r in 0..n
                    invariant
                        n == self.spec_resolution(),
                        self.spec_resolution() == old(self).spec_resolution(),
                        self.grid().len() == n,
                        old(self).wf(),
                        forall|p: int| 0 <= p < n ==> #[trigger] self.grid()[p].len() == n,
                        forall|p: int|
                            0 <= p < r ==> #[trigger] self.grid()[p] == rotate_back(
                                old(self).grid()[p],
                            ),
                        forall|p: int|
                            r <= p < n ==> #[trigger] self.grid()[p] == old(self).grid()[p],
                {
                    let ghost gpre = self.grid();
                    proof {
                        assert(gpre[r as int] == self.data@[r as int]@);
                    }
                    let mut row = clone_line(&self.data[r]);
                    if let Some(entry) = row.pop() {
                        row.insert(0, entry);
                    }
                    self.data.set(r, row);
                    proof {
                        assert(row@ =~= rotate_back(gpre[r as int]));
                        assert forall|p: int| 0 <= p < n implies #[trigger] self.grid()[p] == if p
                            == r as int {
                            rotate_back(gpre[p])
                        } else {
                            gpre[p]
                        } by {
                            assert(self.grid()[p] == self.data@[p]@);
                        }
                    }
                }
                assert(final(self).grid() =~= rotate_cols_right(old(self).grid()));
            },
        }
    }

    /// Exchanges the line at `start_index` with the one at
    /// `start_index + 1` along the given axis, unless the two lines are
    /// interleaved.
    fn commute(&mut self, axis: Axis, start_index: usize) -> (r: Result<(), DiagramError>)
        requires
            old(self).wf(),
            old(self).valid(),
            start_index < old(self).spec_resolution(),
        ensures
            final(self).wf(),
            final(self).valid(),
            ({
                let k = start_index as int;
                let m = old(self).grid();
                if k + 1 == old(self).spec_resolution() {
                    r == Err::<(), DiagramError>(DiagramError::NoAdjacentLine) && *final(self)
                        == *old(self)
                } else if interleaved(grid_line(m, axis, k), grid_line(m, axis, k + 1)) {
                    r == Err::<(), DiagramError>(DiagramError::InterleavedLines) && *final(self)
                        == *old(self)
                } else {
                    r == Ok::<(), DiagramError>(()) && final(self).spec_resolution() == old(
                        self,
                    ).spec_resolution() && final(self).grid() == swap_lines(m, axis, k)
                }
            }),
    {
        // The last row or column has no adjacent line to exchange with.
        if start_index + 1 >= self.resolution {
            return Err(DiagramError::NoAdjacentLine);
        }
        let (line_a, line_b) = match axis {
            Axis::Row => (self.get_row(start_index), self.get_row(start_index + 1)),
            Axis::Column => (self.get_column(start_index), self.get_column(start_index + 1)),
        };
        if !self.are_interleaved(&line_a, &line_b) {
            match axis {
                Axis::Row => self.exchange_rows(start_index, start_index + 1),
                Axis::Column => self.exchange_columns(start_index, start_index + 1),
            }
            proof {
                lemma_swap_rows_valid(old(self).grid(), start_index as int, start_index + 1);
                lemma_swap_cols_valid(old(self).grid(), start_index as int, start_index + 1);
            }
            Ok(())
        } else {
            Err(DiagramError::InterleavedLines)
        }
    }

    /// Replaces the over-mark at `(i, j)` with a two-by-two block of one
    /// over-mark and one under-mark, adding one row and one column.
    fn stabilize(&mut self, cardinality: Cardinality, i: usize, j: usize) -> (r: Result<
        (),
        DiagramError,
    >)
        requires
            old(self).wf(),
            old(self).valid(),
            i < old(self).spec_resolution(),
            j < old(self).spec_resolution(),
        ensures
            final(self).wf(),
            final(self).valid(),
            ({
                let m = old(self).grid();
                if m[i as int][j as int] != OVER_MARK {
                    r == Err::<(), DiagramError>(DiagramError::NotAnOverMark) && *final(self)
                        == *old(self)
                } else {
                    r == Ok::<(), DiagramError>(()) && final(self).spec_resolution() == old(
                        self,
                    ).spec_resolution() + 1 && final(self).grid() == stabilized(
                        m,
                        i as int,
                        j as int,
                        stab_row(cardinality, i as int),
                        stab_col(cardinality, j as int),
                    )
                }
            }),
    {
        proof {
            assert(self.grid()[i as int] == self.data@[i as int]@);
            assert(self.grid()[i as int].len() == self.grid().len());
        }
        if self.data[i][j] != OVER_MARK {
            return Err(DiagramError::NotAnOverMark);
        }
        let jc = match cardinality {
            // Add the new column to the right of column `j`
            Cardinality::NW | Cardinality::SW => j + 1,
            // Add the new column to the left of column `j`
            Cardinality::NE | Cardinality::SE => j,
        };
        let other = if jc == j { j + 1 } else { j };
        let ir = match cardinality {
            // Add the new row below row `i`
            Cardinality::NW | Cardinality::NE => i + 1,
            // Add the new row above row `i`
            Cardinality::SW | Cardinality::SE => i,
        };
        let n = self.resolution;

        // Splice a blank cell into every row at the new column's index.
        for r in 0..n
            invariant
                n == self.spec_resolution(),
                self.spec_resolution() == old(self).spec_resolution(),
                self.grid().len() == n,
                jc <= n,
                old(self).wf(),
                forall|p: int|
                    0 <= p < r ==> #[trigger] self.grid()[p] == splice(
                        old(self).grid()[p],
                        jc as int,
                        EMPTY_MARK,
                    ),
                forall|p: int| r <= p < n ==> #[trigger] self.grid()[p] == old(self).grid()[p],
        {
            let ghost gpre = self.grid();
            proof {
                assert(gpre[r as int] == self.data@[r as int]@);
                assert(old(self).grid()[r as int].len() == n);
            }
            let mut row = clone_line(&self.data[r]);
            row.insert(jc, EMPTY_MARK);
            self.data.set(r, row);
            proof {
                assert(row@ =~= splice(gpre[r as int], jc as int, EMPTY_MARK));
                assert forall|p: int| 0 <= p < n implies #[trigger] self.grid()[p] == if p
                    == r as int {
                    splice(gpre[p], jc as int, EMPTY_MARK)
                } else {
                    gpre[p]
                } by {
                    assert(self.grid()[p] == self.data@[p]@);
                }
            }
        }

        // Move the over-mark of row `i` into the new column.
        let ghost d_cols = self.data@;
        let ghost g_cols = self.grid();
        proof {
            assert(self.grid()[i as int] == self.data@[i as int]@);
        }
        let mut row_i = clone_line(&self.data[i]);
        let width = row_i.len();
        assert(width == n + 1);
        row_i.set(other, EMPTY_MARK);
        row_i.set(jc, OVER_MARK);
        proof {
            assert(row_i@ == splice(old(self).grid()[i as int], jc as int, EMPTY_MARK).update(
                other as int,
                EMPTY_MARK,
            ).update(jc as int, OVER_MARK));
        }
        self.data.set(i, row_i);
        let ghost d_mid = self.data@;

        // Build the new row: blank but for its own two marks.
        let mut extra_row: Vec<char> = Vec::new();
        for k in 0..width
            invariant
                extra_row@.len() == k,
                forall|p: int| 0 <= p < k ==> extra_row@[p] == EMPTY_MARK,
        {
            extra_row.push(EMPTY_MARK);
        }
        proof {
            assert(extra_row@ =~= blank_row((n + 1) as nat));
        }
        extra_row.set(other, OVER_MARK);
        extra_row.set(jc, UNDER_MARK);
        let ghost extra_view = extra_row@;
        self.data.insert(ir, extra_row);
        self.resolution = width;

        proof {
            let m = old(self).grid();
            let st = stabilized(m, i as int, j as int, ir as int, jc as int);
            assert forall|p: int| 0 <= p < self.grid().len() implies #[trigger] self.grid()[p]
                == st[p] by {
                assert(self.grid()[p] == self.data@[p]@);
                if p == ir as int {
                    assert(self.data@[p]@ == extra_view);
                } else {
                    let q = if p < ir as int { p } else { p - 1 };
                    assert(self.data@[p] == d_mid[q]);
                    if q == i as int {
                    } else {
                        assert(d_mid[q] == d_cols[q]);
                        assert(g_cols[q] == d_cols[q]@);
                        assert(g_cols[q] == splice(m[q], jc as int, EMPTY_MARK));
                    }
                }
            }
            assert(self.grid() =~= st);
            lemma_stabilized_valid(m, i as int, j as int, ir as int, jc as int);
        }
        Ok(())
    }
}

/// The grid after a translation move in the given direction.
pub open spec fn translated(m: Seq<Seq<char>>, direction: Direction) -> Seq<Seq<char>> {
    match direction {
        Direction::Up => rotate_rows_up(m),
        Direction::Down => rotate_rows_down(m),
        Direction::Left => rotate_cols_left(m),
        Direction::Right => rotate_cols_right(m),
    }
}

/// The grid after a commutation move: the lines `k` and `k + 1` exchanged
/// along the given axis.
pub open spec fn swap_lines(m: Seq<Seq<char>>, axis: Axis, k: int) -> Seq<Seq<char>> {
    match axis {
        Axis::Row => swap_rows(m, k, k + 1),
        Axis::Column => swap_cols(m, k, k + 1),
    }
}

/// The position of the marker `c` in a line that carries it exactly once.
pub(crate) fn find_unique(line: &Vec<char>, c: char) -> (r: usize)
    requires
        count_marker(line@, c) == 1,
    ensures
        r < line@.len(),
        line@[r as int] == c,
        r == marker_pos(line@, c),
{
    proof {
        lemma_count_one_exists(line@, c);
    }
    let n = line.len();
    let mut k: usize = 0;
    while line[k] != c
        invariant
            n == line@.len(),
            k < n,
            exists|p: int| k <= p < n && line@[p] == c,
        decreases n - k,
    {
        k = k + 1;
        proof {
            let p = choose|p: int| k - 1 <= p < n && line@[p] == c;
            assert(k <= p < n && line@[p] == c);
        }
    }
    proof {
        let p = marker_pos(line@, c);
        assert(0 <= p < line@.len() && line@[p] == c);
        lemma_count_one_unique(line@, k as int, p, c);
    }
    k
}

/// A fresh copy of a line of cells.
fn clone_line(line: &Vec<char>) -> (r: Vec<char>)
    ensures
        r@ == line@,
{
    let mut out: Vec<char> = Vec::new();
    let n = line.len();
    for i in 0..n
        invariant
            n == line@.len(),
            out@ == line@.subrange(0, i as int),
    {
        out.push(line[i]);
        assert(out@ =~= line@.subrange(0, i + 1 as int));
    }
    assert(out@ =~= line@);
    out
}

/// How many cells of `line` carry the marker `c`.
fn count_in_line(line: &Vec<char>, c: char) -> (r: usize)
    ensures
        r == count_marker(line@, c),
{
    let n = line.len();
    let mut count: usize = 0;
    proof {
        assert(line@.take(0) =~= Seq::<char>::empty());
    }
    for i in 0..n
        invariant
            n == line@.len(),
            count == count_marker(line@.take(i as int), c),
            count <= i,
    {
        proof {
            lemma_count_take_step(line@, i as int, c);
            lemma_count_le_len(line@.take(i as int), c);
        }
        if line[i] == c {
            count = count + 1;
        }
    }
    proof {
        assert(line@.take(n as int) =~= line@);
    }
    count
}

} // verus!
