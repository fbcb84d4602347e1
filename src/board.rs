use crate::fingerprint::Fingerprint;
use std::collections::hash_map::DefaultHasher;
use std::hash::Hasher;
use vstd::prelude::*;

verus! {

/// A point on the board: row, then column.
pub type Pt = [usize; 2];

/// The mathematical content of a board.
pub struct BoardModel {
    /// The tiles in row-major order; 0 is the empty cell.
    pub cells: Seq<u8>,
    pub rows: nat,
    pub cols: nat,
}

/// A board representing a `rows` by `cols` grid of sliding tiles.
#[derive(Clone, Debug, PartialEq, Eq, Hash)]
pub struct Board {
    cells: Vec<u8>,
    rows: usize,
    cols: usize,
}

impl View for Board {
    type V = BoardModel;

    closed spec fn view(&self) -> BoardModel {
        BoardModel { cells: self.cells@, rows: self.rows as nat, cols: self.cols as nat }
    }
}

/// The flat index of the cell at row `r`, column `c`.
pub open spec fn cell_index(m: BoardModel, r: int, c: int) -> int {
    r * m.cols + c
}

/// Whether the cells fill the grid exactly.
pub open spec fn board_wf(m: BoardModel) -> bool {
    m.cells.len() == m.rows * m.cols
}

/// Whether `i` is the first empty cell.
pub open spec fn is_first_blank(s: Seq<u8>, i: int) -> bool {
    0 <= i < s.len() && s[i] == 0 && forall|k: int| 0 <= k < i ==> s[k] != 0
}

/// The index of the first empty cell.
pub open spec fn first_blank(s: Seq<u8>) -> int {
    choose|i: int| is_first_blank(s, i)
}

/// The board with the cells at flat indices `a` and `b` exchanged.
pub open spec fn swapped(m: BoardModel, a: int, b: int) -> BoardModel {
    BoardModel { cells: m.cells.update(a, m.cells[b]).update(b, m.cells[a]), ..m }
}

/// The boards one slide away from `m`: the empty cell exchanged with its
/// neighbour above, below, to the left and to the right, in that order,
/// where that neighbour exists.
pub open spec fn slides(m: BoardModel) -> Seq<BoardModel> {
    let z = first_blank(m.cells);
    let r = z / (m.cols as int);
    let c = z % (m.cols as int);
    let up = if r >= 1 {
        seq![swapped(m, z, z - m.cols)]
    } else {
        Seq::empty()
    };
    let down = if r + 1 < m.rows {
        seq![swapped(m, z, z + m.cols)]
    } else {
        Seq::empty()
    };
    let left = if c >= 1 {
        seq![swapped(m, z, z - 1)]
    } else {
        Seq::empty()
    };
    let right = if c + 1 < m.cols {
        seq![swapped(m, z, z + 1)]
    } else {
        Seq::empty()
    };
    up + down + left + right
}

/// The index of a cell inside a grid lies inside the grid.
proof fn lemma_cell_in_grid(rows: int, cols: int, r: int, c: int)
    requires
        0 <= r < rows,
        0 <= c < cols,
    ensures
        0 <= r * cols + c < rows * cols,
{
    assert(r * cols + c < (r + 1) * cols) by (nonlinear_arith)
        requires
            c < cols,
    ;
    assert((r + 1) * cols <= rows * cols) by (nonlinear_arith)
        requires
            r + 1 <= rows,
            0 <= cols,
    ;
    assert(0 <= r * cols) by (nonlinear_arith)
        requires
            0 <= r,
            0 <= cols,
    ;
}

impl Board {
    /// Builds a board of the given shape from its cells in row-major order.
    pub fn new(cells: Vec<u8>, shape: &(usize, usize)) -> (r: Self)
        requires
            cells@.len() == shape.0 * shape.1,
        ensures
            r@ == (BoardModel { cells: cells@, rows: shape.0 as nat, cols: shape.1 as nat }),
            board_wf(r@),
    {
        Board { cells, rows: shape.0, cols: shape.1 }
    }

    /// The tiles in row-major order.
    pub fn cells(&self) -> (r: &[u8])
        ensures
            r@ == self@.cells,
    {
        self.cells.as_slice()
    }

    /// The number of rows and of columns.
    pub fn shape(&self) -> (r: (usize, usize))
        ensures
            r.0 == self@.rows,
            r.1 == self@.cols,
    {
        (self.rows, self.cols)
    }

    /// The boards reachable from this one by a single slide, in the order of
    /// `slides`.
    pub fn slide_iter(&self) -> (r: Vec<Board>)
        requires
            board_wf(self@),
            self@.cells.contains(0),
        ensures
            r@.map_values(|b: Board| b@) == slides(self@),
            forall|i: int|
                0 <= i < r@.len() ==> board_wf(#[trigger] r@[i]@) && r@[i]@.cells.contains(0),
    {
        let n = self.cells.len();
        let mut z: usize = 0;
        while z < n && self.cells[z] != 0
            invariant
                n == self.cells@.len(),
                z <= n,
                self.cells@.contains(0),
                forall|k: int| 0 <= k < z ==> self.cells@[k] != 0,
            decreases n - z,
        {
            z += 1;
        }
        proof {
            if z == n {
                let k = choose|k: int| 0 <= k < n && self.cells@[k] == 0;
                assert(self.cells@[k] != 0);
            }
            assert(is_first_blank(self.cells@, z as int));
            let f = first_blank(self.cells@);
            assert(is_first_blank(self.cells@, f));
            if f < z {
                assert(self.cells@[f] != 0);
            } else if f > z {
                assert(self.cells@[z as int] != 0);
            }
            assert(self.cols > 0);
            assert(z as int == (z / self.cols) * self.cols + z % self.cols) by (nonlinear_arith)
                requires
                    self.cols > 0,
            ;
            assert(z / self.cols < self.rows) by (nonlinear_arith)
                requires
                    self.cols > 0,
                    z < self.rows * self.cols,
            ;
        }
        let x1 = z / self.cols;
        let y1 = z % self.cols;
        let p1: Pt = [x1, y1];
        let mut out: Vec<Board> = Vec::new();
        let ghost m = self@;
        proof {
            let z = z as int;
            let cols = m.cols as int;
            assert((x1 - 1) * cols + y1 == z - cols) by (nonlinear_arith)
                requires
                    z == x1 * cols + y1,
            ;
            assert((x1 + 1) * cols + y1 == z + cols) by (nonlinear_arith)
                requires
                    z == x1 * cols + y1,
            ;
        }
        if x1 >= 1 {
            let b = self.permute(&p1, &[x1 - 1, y1]);
            proof {
                assert(b@.cells[z - self.cols] == 0);
            }
            out.push(b);
        }
        if x1 + 1 < self.rows {
            let b = self.permute(&p1, &[x1 + 1, y1]);
            proof {
                lemma_cell_in_grid(self.rows as int, self.cols as int, x1 + 1, y1 as int);
                assert(b@.cells[z + self.cols] == 0);
            }
            out.push(b);
        }
        if y1 >= 1 {
            let b = self.permute(&p1, &[x1, y1 - 1]);
            proof {
                assert(b@.cells[z - 1] == 0);
            }
            out.push(b);
        }
        if y1 + 1 < self.cols {
            let b = self.permute(&p1, &[x1, y1 + 1]);
            proof {
                lemma_cell_in_grid(self.rows as int, self.cols as int, x1 as int, y1 + 1);
                assert(b@.cells[z + 1] == 0);
            }
            out.push(b);
        }
        proof {
            assert(out@.map_values(|b: Board| b@) =~= slides(m));
        }
        out
    }

    /// Returns this board with the tiles at `pt_1` and `pt_2` exchanged.
    pub fn permute(&self, pt_1: &Pt, pt_2: &Pt) -> (r: Self)
        requires
            board_wf(self@),
            pt_1[0] < self@.rows,
            pt_1[1] < self@.cols,
            pt_2[0] < self@.rows,
            pt_2[1] < self@.cols,
        ensures
            r@ == swapped(
                self@,
                cell_index(self@, pt_1[0] as int, pt_1[1] as int),
                cell_index(self@, pt_2[0] as int, pt_2[1] as int),
            ),
            board_wf(r@),
    {
        proof {
            lemma_cell_in_grid(self.rows as int, self.cols as int, pt_1[0] as int, pt_1[1] as int);
            lemma_cell_in_grid(self.rows as int, self.cols as int, pt_2[0] as int, pt_2[1] as int);
        }
        // Both indices lie below the number of cells, which fits in a usize.
        let n_cells = self.cells.len();
        proof {
            assert(n_cells == self.rows * self.cols);
            assert(pt_1[0] * self.cols <= pt_1[0] * self.cols + pt_1[1]);
            assert(pt_2[0] * self.cols <= pt_2[0] * self.cols + pt_2[1]);
        }
        let a = pt_1[0] * self.cols + pt_1[1];
        let b = pt_2[0] * self.cols + pt_2[1];
        let mut cells = self.cells.clone();
        proof {
            assert(cells@ =~= self.cells@);
        }
        let at_a = self.cells[a];
        let at_b = self.cells[b];
        cells.set(a, at_b);
        cells.set(b, at_a);
        let r = Board { cells, rows: self.rows, cols: self.cols };
        proof {
            assert(r@.cells =~= swapped(self@, a as int, b as int).cells);
        }
        r
    }
}

impl Fingerprint for Board {
    open spec fn chunks(&self) -> Seq<Seq<u8>> {
        seq![self@.cells]
    }

    fn write_to(&self, hasher: &mut DefaultHasher) {
        hasher.write(self.cells.as_slice());
        proof {
            assert(hasher@ =~= old(hasher)@ + self.chunks());
        }
    }
}

} // verus!
