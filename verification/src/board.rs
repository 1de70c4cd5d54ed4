//! The grid of domains, kept in a matrix.

use vstd::prelude::*;
use crate::field::Field;
use crate::text::row_views;

verus! {

/// The grid of a crossword: a matrix of domains, one for each cell.
///
/// The view is the sequence of the rows, each the sequence of its cells.
#[verifier::external_body]
pub struct Board {
    grid: nalgebra::DMatrix<Field>,
}

/// The rows of the matrix that a board holds, first row first, each with
/// its entries from the first column on.
pub uninterp spec fn board_rows(board: Board) -> Seq<Seq<Field>>;

impl View for Board {
    type V = Seq<Seq<Field>>;

    open spec fn view(&self) -> Seq<Seq<Field>> {
        board_rows(*self)
    }
}

/// What is wrong with the text or the rows of a puzzle.
#[derive(Copy, Clone, Debug, PartialEq, Eq, Structural)]
pub enum PuzzleError {
    /// The puzzle has no row.
    NoRows,
    /// The row with this number, counted from zero, differs in length from
    /// the first row.
    Ragged(usize),
    /// The symbol in this row and this column, both counted from zero,
    /// describes no cell.
    Symbol(usize, usize),
}

/// True when every row of `rows` has as many cells as the first.
pub open spec fn rectangular<T>(rows: Seq<Seq<T>>) -> bool {
    forall|r: int| 0 <= r < rows.len() ==> (#[trigger] rows[r]).len() == rows[0].len()
}

/// A grid is well formed when it has a row, all its rows have the same
/// number of cells, and every cell is a domain.
pub open spec fn grid_wf(rows: Seq<Seq<Field>>) -> bool {
    &&& rows.len() > 0
    &&& rectangular(rows)
    &&& forall|r: int, c: int|
        0 <= r < rows.len() && 0 <= c < rows[r].len() ==> (#[trigger] rows[r][c]).wf()
}

/// The number of cells in each row of a well-formed grid.
pub open spec fn width(rows: Seq<Seq<Field>>) -> int {
    rows[0].len() as int
}

/// The grid with the cell at `(row, col)` replaced by `field`.
pub open spec fn with_cell(rows: Seq<Seq<Field>>, row: int, col: int, field: Field) -> Seq<
    Seq<Field>,
> {
    rows.update(row, rows[row].update(col, field))
}

impl Board {
    /// `DMatrix::from_rows` on row vectors made by `RowDVector::from_vec`:
    /// given at least one row, all of one length, the matrix has these rows,
    /// entry for entry.
    #[verifier::external_body]
    fn matrix_from_rows(rows: &Vec<Vec<Field>>) -> (board: Board)
        requires
            rows@.len() > 0,
            rectangular(row_views(rows@)),
        ensures
            board_rows(board) == row_views(rows@),
    {
        let vectors: Vec<nalgebra::RowDVector<Field>> = rows.iter().map(
            |row| nalgebra::RowDVector::from_vec(row.clone()),
        ).collect();
        Board { grid: nalgebra::DMatrix::from_rows(vectors.as_slice()) }
    }

    /// `Matrix::nrows`: the number of rows of the matrix.
    #[verifier::external_body]
    fn matrix_nrows(&self) -> (n: usize)
        ensures
            n == board_rows(*self).len(),
    {
        self.grid.nrows()
    }

    /// `Matrix::ncols`: the number of columns of the matrix, which is the
    /// number of entries of each of its rows.
    #[verifier::external_body]
    fn matrix_ncols(&self) -> (n: usize)
        ensures
            forall|r: int|
                0 <= r < board_rows(*self).len() ==> (#[trigger] board_rows(*self)[r]).len() == n,
    {
        self.grid.ncols()
    }

    /// Indexing the matrix by `(row, column)`: the entry at that place. The
    /// place has to be inside the matrix.
    #[verifier::external_body]
    fn matrix_get(&self, row: usize, col: usize) -> (field: Field)
        requires
            row < board_rows(*self).len(),
            col < board_rows(*self)[row as int].len(),
        ensures
            field == board_rows(*self)[row as int][col as int],
    {
        self.grid[(row, col)]
    }

    /// Assigning through the matrix's index by `(row, column)`: that entry
    /// becomes `field` and no other entry changes. The place has to be
    /// inside the matrix.
    #[verifier::external_body]
    fn matrix_set(&mut self, row: usize, col: usize, field: Field)
        requires
            row < board_rows(*old(self)).len(),
            col < board_rows(*old(self))[row as int].len(),
        ensures
            board_rows(*final(self)) == with_cell(
                board_rows(*old(self)),
                row as int,
                col as int,
                field,
            ),
    {
        self.grid[(row, col)] = field;
    }

    /// `Clone::clone` of the matrix: a matrix with the same rows.
    #[verifier::external_body]
    fn matrix_clone(&self) -> (board: Board)
        ensures
            board_rows(board) == board_rows(*self),
    {
        Board { grid: self.grid.clone() }
    }

    /// `==` on two matrices: true when they have the same shape and equal
    /// entries. For a matrix that has a row, that is to have the same rows.
    #[verifier::external_body]
    fn matrix_eq(&self, other: &Board) -> (same: bool)
        ensures
            board_rows(*self).len() > 0 ==> same == (board_rows(*self) == board_rows(*other)),
    {
        self.grid == other.grid
    }

    /// The grid has a row, is rectangular, and holds domains.
    pub open spec fn wf(&self) -> bool {
        grid_wf(self@)
    }

    /// The board with the given rows of cells. Rows are refused where there
    /// is none, and where one differs in length from the first; the first
    /// such row is named.
    pub fn from_rows(rows: Vec<Vec<Field>>) -> (r: Result<Board, PuzzleError>)
        ensures
            match r {
                Ok(board) => {
                    &&& rows@.len() > 0
                    &&& rectangular(row_views(rows@))
                    &&& board@ == row_views(rows@)
                    &&& board.wf()
                },
                Err(PuzzleError::NoRows) => rows@.len() == 0,
                Err(PuzzleError::Ragged(row)) => {
                    &&& 0 < row < rows@.len()
                    &&& rows@[row as int]@.len() != rows@[0]@.len()
                    &&& forall|k: int| 0 <= k < row ==> (#[trigger] rows@[k])@.len() == rows@[0]@.len()
                },
                Err(PuzzleError::Symbol(_, _)) => false,
            },
    {
        if rows.len() == 0 {
            return Err(PuzzleError::NoRows);
        }
        let ncols = rows[0].len();
        let mut r: usize = 0;
        while r < rows.len()
            invariant
                r <= rows@.len(),
                rows@.len() > 0,
                ncols == rows@[0]@.len(),
                forall|k: int| 0 <= k < r ==> (#[trigger] rows@[k])@.len() == ncols,
                forall|k: int, c: int|
                    0 <= k < r && 0 <= c < rows@[k]@.len() ==> (#[trigger] rows@[k]@[c]).wf(),
            decreases rows@.len() - r,
        {
            if rows[r].len() != ncols {
                return Err(PuzzleError::Ragged(r));
            }
            let mut c: usize = 0;
            while c < ncols
                invariant
                    c <= ncols,
                    r < rows@.len(),
                    rows@[r as int]@.len() == ncols,
                    forall|j: int| 0 <= j < c ==> (#[trigger] rows@[r as int]@[j]).wf(),
                decreases ncols - c,
            {
                let cell = rows[r][c];
                proof {
                    use_type_invariant(cell);
                }
                c = c + 1;
            }
            r = r + 1;
        }
        proof {
            assert forall|k: int| 0 <= k < row_views(rows@).len() implies (#[trigger] row_views(
                rows@,
            )[k]).len() == row_views(rows@)[0].len() by {
                assert(rows@[k]@.len() == ncols);
            }
        }
        let board = Board::matrix_from_rows(&rows);
        proof {
            assert forall|k: int, c: int|
                0 <= k < board@.len() && 0 <= c < board@[k].len() implies (
            #[trigger] board@[k][c]).wf() by {
                assert(rows@[k]@[c].wf());
            }
        }
        Ok(board)
    }

    /// The number of rows.
    pub fn nrows(&self) -> (n: usize)
        ensures
            n == self@.len(),
    {
        self.matrix_nrows()
    }

    /// The number of cells in each row.
    pub fn ncols(&self) -> (n: usize)
        ensures
            forall|r: int| 0 <= r < self@.len() ==> (#[trigger] self@[r]).len() == n,
            self@.len() > 0 ==> n == width(self@),
    {
        let n = self.matrix_ncols();
        proof {
            if self@.len() > 0 {
                assert(self@[0].len() == n);
            }
        }
        n
    }

    /// The domain of the cell at `(row, col)`.
    pub fn get(&self, row: usize, col: usize) -> (field: Field)
        requires
            row < self@.len(),
            col < self@[row as int].len(),
        ensures
            field == self@[row as int][col as int],
            field.wf(),
    {
        let field = self.matrix_get(row, col);
        proof {
            use_type_invariant(field);
        }
        field
    }

    /// Gives the cell at `(row, col)` the domain `field`.
    pub fn set(&mut self, row: usize, col: usize, field: Field)
        requires
            row < old(self)@.len(),
            col < old(self)@[row as int].len(),
        ensures
            final(self)@ == with_cell(old(self)@, row as int, col as int, field),
            old(self).wf() ==> final(self).wf(),
    {
        proof {
            use_type_invariant(field);
            lemma_with_cell_wf(self@, row as int, col as int, field);
        }
        self.matrix_set(row, col, field);
    }

    /// A copy of the board.
    pub fn duplicate(&self) -> (board: Board)
        ensures
            board@ == self@,
    {
        self.matrix_clone()
    }

    /// True when both boards have the same cells.
    pub fn equals(&self, other: &Board) -> (same: bool)
        requires
            self@.len() > 0,
        ensures
            same == (self@ == other@),
    {
        self.matrix_eq(other)
    }
}

/// Replacing a cell of a well-formed grid by a domain leaves the grid well
/// formed and of the same shape.
pub proof fn lemma_with_cell_wf(rows: Seq<Seq<Field>>, row: int, col: int, field: Field)
    requires
        0 <= row < rows.len(),
        0 <= col < rows[row].len(),
        field.wf(),
    ensures
        with_cell(rows, row, col, field).len() == rows.len(),
        forall|r: int|
            0 <= r < rows.len() ==> (#[trigger] with_cell(rows, row, col, field)[r]).len()
                == rows[r].len(),
        grid_wf(rows) ==> grid_wf(with_cell(rows, row, col, field)),
{
    let after = with_cell(rows, row, col, field);
    assert forall|r: int| 0 <= r < rows.len() implies (#[trigger] after[r]).len()
        == rows[r].len() by {}
    if grid_wf(rows) {
        assert forall|r: int, c: int|
            0 <= r < after.len() && 0 <= c < after[r].len() implies (#[trigger] after[r][c]).wf() by {
            if r == row && c == col {
            } else {
                assert(after[r][c] == rows[r][c]);
            }
        }
        assert(after[0].len() == rows[0].len());
    }
}

} // verus!
