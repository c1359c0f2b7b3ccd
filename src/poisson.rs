//! The background grid of blue-noise sampling: which grid cells a candidate must
//! be checked against.
use vstd::prelude::*;

verus! {

/// Cell `x` of a `cols` × `rows` grid lies in the 3 × 3 block around (`row`, `col`).
pub open spec fn near_cell(row: int, col: int, cols: int, rows: int, x: int) -> bool {
    exists|c: int, r: int|
        col - 1 <= c <= col + 1 && row - 1 <= r <= row + 1 && 0 <= c < cols && 0 <= r < rows && x
            == #[trigger] (c + r * cols)
}

/// The cells `c + r * cols` of column `c` for rows `r_lo <= r < r_end`, in order.
pub open spec fn column_cells(c: int, r_lo: int, r_end: int, cols: int) -> Seq<usize>
    decreases r_end - r_lo,
{
    if r_end <= r_lo {
        Seq::empty()
    } else {
        column_cells(c, r_lo, r_end - 1, cols).push((c + (r_end - 1) * cols) as usize)
    }
}

/// The cells of columns `c_lo <= c < c_end` and rows `r_lo <= r <= r_hi`, column
/// by column.
pub open spec fn block_cells(c_lo: int, c_end: int, r_lo: int, r_hi: int, cols: int) -> Seq<usize>
    decreases c_end - c_lo,
{
    if c_end <= c_lo {
        Seq::empty()
    } else {
        block_cells(c_lo, c_end - 1, r_lo, r_hi, cols) + column_cells(c_end - 1, r_lo, r_hi + 1, cols)
    }
}

proof fn lemma_grid_index_unique(c1: int, r1: int, c2: int, r2: int, cols: int)
    requires
        0 <= c1 < cols,
        0 <= c2 < cols,
        0 <= r1,
        0 <= r2,
        c1 + r1 * cols == c2 + r2 * cols,
    ensures
        c1 == c2,
        r1 == r2,
{
    if r1 < r2 {
        assert(r1 * cols + cols <= r2 * cols) by (nonlinear_arith)
            requires r1 < r2, cols > 0;
    } else if r2 < r1 {
        assert(r2 * cols + cols <= r1 * cols) by (nonlinear_arith)
            requires r2 < r1, cols > 0;
    }
}

/// The cells of the grid (`col + row * cols`) that lie in the 3 × 3 block around
/// (`row`, `col`), each once, column by column.
pub fn neighbor_cells(row: usize, col: usize, cols: usize, rows: usize) -> (r: Vec<usize>)
    requires
        row < rows,
        col < cols,
        cols * rows <= usize::MAX,
    ensures
        forall|x: usize| r@.contains(x) <==> near_cell(row as int, col as int, cols as int, rows as int, x as int),
        forall|a: int, b: int| 0 <= a < b < r@.len() ==> r@[a] != r@[b],
        forall|a: int| 0 <= a < r@.len() ==> #[trigger] r@[a] < cols * rows,
        r@ == block_cells(
            if col == 0 { 0 } else { col - 1 },
            if col + 1 < cols { col + 2 } else { col + 1 },
            if row == 0 { 0 } else { row - 1 },
            if row + 1 < rows { row + 1 } else { row as int },
            cols as int,
        ),
{
    let mut cells: Vec<usize> = Vec::new();
    let c_lo: usize = if col == 0 { 0 } else { col - 1 };
    let c_hi: usize = if col + 1 < cols { col + 1 } else { col };
    let r_lo: usize = if row == 0 { 0 } else { row - 1 };
    let r_hi: usize = if row + 1 < rows { row + 1 } else { row };
    let mut c = c_lo;
    while c <= c_hi
        invariant
            c_lo <= c <= c_hi + 1,
            c_hi < cols,
            r_lo <= r_hi < rows,
            row < rows,
            col < cols,
            cols * rows <= usize::MAX,
            c_lo == if col == 0 { 0 } else { col - 1 },
            c_hi == if col + 1 < cols { col + 1 } else { col as int },
            r_lo == if row == 0 { 0 } else { row - 1 },
            r_hi == if row + 1 < rows { row + 1 } else { row as int },
            forall|x: usize| cells@.contains(x) <==> exists|cc: int, rr: int|
                c_lo <= cc < c && r_lo <= rr <= r_hi && x == #[trigger] (cc + rr * cols),
            forall|a: int, b: int| 0 <= a < b < cells@.len() ==> cells@[a] != cells@[b],
            cells@ == block_cells(c_lo as int, c as int, r_lo as int, r_hi as int, cols as int),
        decreases c_hi + 1 - c,
    {
        let mut rr = r_lo;
        proof {
            assert(cells@ =~= block_cells(c_lo as int, c as int, r_lo as int, r_hi as int, cols as int)
                + column_cells(c as int, r_lo as int, rr as int, cols as int));
        }
        while rr <= r_hi
            invariant
                c_lo <= c <= c_hi,
                c_hi < cols,
                r_lo <= rr <= r_hi + 1,
                r_hi < rows,
                cols * rows <= usize::MAX,
                forall|x: usize| cells@.contains(x) <==> exists|cc: int, r2: int|
                    ((c_lo <= cc < c && r_lo <= r2 <= r_hi) || (cc == c && r_lo <= r2 < rr)) && x == #[trigger] (cc + r2 * cols),
                forall|a: int, b: int| 0 <= a < b < cells@.len() ==> cells@[a] != cells@[b],
                cells@ == block_cells(c_lo as int, c as int, r_lo as int, r_hi as int, cols as int)
                    + column_cells(c as int, r_lo as int, rr as int, cols as int),
            decreases r_hi + 1 - rr,
        {
            proof {
                assert(c + rr * cols < cols * rows) by (nonlinear_arith)
                    requires rr < rows, c < cols, rr >= 0, c >= 0;
            }
            let x = c + rr * cols;
            let ghost before = cells@;
            proof {
                if before.contains(x) {
                    let (cc, r2) = choose|cc: int, r2: int|
                        ((c_lo <= cc < c && r_lo <= r2 <= r_hi) || (cc == c && r_lo <= r2 < rr)) && x == #[trigger] (cc + r2 * cols);
                    lemma_grid_index_unique(cc, r2, c as int, rr as int, cols as int);
                }
            }
            cells.push(x);
            proof {
                assert forall|y: usize| cells@.contains(y) <==> exists|cc: int, r2: int|
                    ((c_lo <= cc < c && r_lo <= r2 <= r_hi) || (cc == c && r_lo <= r2 < rr + 1)) && y == #[trigger] (cc + r2 * cols) by {
                    if cells@.contains(y) {
                        let k = choose|k: int| 0 <= k < cells@.len() && cells@[k] == y;
                        if k < before.len() {
                            assert(before.contains(y));
                        } else {
                            assert(y == c + rr * cols);
                        }
                    }
                    if exists|cc: int, r2: int|
                        ((c_lo <= cc < c && r_lo <= r2 <= r_hi) || (cc == c && r_lo <= r2 < rr + 1)) && y == #[trigger] (cc + r2 * cols) {
                        let (cc, r2) = choose|cc: int, r2: int|
                            ((c_lo <= cc < c && r_lo <= r2 <= r_hi) || (cc == c && r_lo <= r2 < rr + 1)) && y == #[trigger] (cc + r2 * cols);
                        if cc == c && r2 == rr {
                            assert(cells@[before.len() as int] == y);
                        } else {
                            assert(before.contains(y));
                            let k = choose|k: int| 0 <= k < before.len() && before[k] == y;
                            assert(cells@[k] == y);
                        }
                    }
                }
            }
            proof {
                assert(cells@ =~= block_cells(c_lo as int, c as int, r_lo as int, r_hi as int, cols as int)
                    + column_cells(c as int, r_lo as int, rr + 1, cols as int));
            }
            rr = rr + 1;
        }
        proof {
            assert(cells@ =~= block_cells(c_lo as int, c + 1, r_lo as int, r_hi as int, cols as int));
        }
        c = c + 1;
    }
    proof {
        assert forall|a: int| 0 <= a < cells@.len() implies #[trigger] cells@[a] < cols * rows by {
            assert(cells@.contains(cells@[a]));
            let (cc, r2) = choose|cc: int, r2: int|
                c_lo <= cc < c && r_lo <= r2 <= r_hi && cells@[a] == #[trigger] (cc + r2 * cols);
            assert(cc + r2 * cols < cols * rows) by (nonlinear_arith)
                requires 0 <= cc < cols, 0 <= r2 < rows;
        }
        assert forall|x: usize| cells@.contains(x) <==> near_cell(row as int, col as int, cols as int, rows as int, x as int) by {
            if near_cell(row as int, col as int, cols as int, rows as int, x as int) {
                let (cc, r2) = choose|cc: int, r2: int|
                    col - 1 <= cc <= col + 1 && row - 1 <= r2 <= row + 1 && 0 <= cc < cols && 0 <= r2 < rows && x
                        == #[trigger] (cc + r2 * cols);
                assert(c_lo <= cc < c && r_lo <= r2 <= r_hi);
            }
        }
    }
    cells
}

} // verus!
