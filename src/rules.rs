use vstd::prelude::*;

verus! {

/// A position of the grid, both coordinates in `0..9`.
pub open spec fn in_grid(r: int, c: int) -> bool {
    0 <= r < 9 && 0 <= c < 9
}

/// The value held at row `r`, column `c`.
pub open spec fn cell(g: [[u8; 9]; 9], r: int, c: int) -> u8 {
    g[r][c]
}

/// Two positions lie in the same 3×3 box.
pub open spec fn same_box(r1: int, c1: int, r2: int, c2: int) -> bool {
    r1 / 3 == r2 / 3 && c1 / 3 == c2 / 3
}

/// Two positions share a row, a column or a box.
pub open spec fn same_unit(r1: int, c1: int, r2: int, c2: int) -> bool {
    r1 == r2 || c1 == c2 || same_box(r1, c1, r2, c2)
}

/// Two distinct positions that share a row, a column or a box.
pub open spec fn peers(r1: int, c1: int, r2: int, c2: int) -> bool {
    same_unit(r1, c1, r2, c2) && !(r1 == r2 && c1 == c2)
}

/// `num` occurs somewhere in row `row`, in column `col`, or in the box holding
/// that position.
pub open spec fn blocked(g: [[u8; 9]; 9], row: int, col: int, num: u8) -> bool {
    exists|y: int, x: int|
        #![trigger cell(g, y, x)]
        in_grid(y, x) && same_unit(row, col, y, x) && cell(g, y, x) == num
}

/// Every cell holds 0 (blank) or a digit 1 to 9.
pub open spec fn well_formed(g: [[u8; 9]; 9]) -> bool {
    forall|r: int, c: int| #![trigger cell(g, r, c)] in_grid(r, c) ==> cell(g, r, c) <= 9
}

/// No nonzero value occurs twice in a row, a column or a box.
pub open spec fn consistent(g: [[u8; 9]; 9]) -> bool {
    forall|r1: int, c1: int, r2: int, c2: int|
        #![trigger cell(g, r1, c1), cell(g, r2, c2)]
        in_grid(r1, c1) && in_grid(r2, c2) && peers(r1, c1, r2, c2) && cell(g, r1, c1) != 0
            ==> cell(g, r1, c1) != cell(g, r2, c2)
}

/// Every cell holds a digit 1 to 9.
pub open spec fn complete(g: [[u8; 9]; 9]) -> bool {
    forall|r: int, c: int|
        #![trigger cell(g, r, c)]
        in_grid(r, c) ==> 1 <= cell(g, r, c) <= 9
}

/// A complete grid in which no digit occurs twice in a row, a column or a box.
pub open spec fn solved(g: [[u8; 9]; 9]) -> bool {
    complete(g) && consistent(g)
}

/// The value at (`r`, `c`) differs from the value of each of its peers.
pub open spec fn fits(g: [[u8; 9]; 9], r: int, c: int) -> bool {
    forall|y: int, x: int|
        #![trigger cell(g, y, x)]
        in_grid(y, x) && peers(r, c, y, x) ==> cell(g, y, x) != cell(g, r, c)
}

/// `s` keeps every nonzero cell of `g`.
pub open spec fn keeps_givens(s: [[u8; 9]; 9], g: [[u8; 9]; 9]) -> bool {
    forall|r: int, c: int|
        #![trigger cell(g, r, c)]
        in_grid(r, c) && cell(g, r, c) != 0 ==> cell(s, r, c) == cell(g, r, c)
}

/// `s` fills the grid `g`: it is complete, keeps the nonzero cells of `g`, and
/// each digit written into a blank of `g` differs from all of its peers.
/// Where `g` is consistent these are exactly the solved grids that keep the
/// givens of `g`.
pub open spec fn completes(s: [[u8; 9]; 9], g: [[u8; 9]; 9]) -> bool {
    &&& complete(s)
    &&& keeps_givens(s, g)
    &&& forall|r: int, c: int|
        #![trigger cell(g, r, c)]
        in_grid(r, c) && cell(g, r, c) == 0 ==> fits(s, r, c)
}

/// The value at position `k` of the row-major order of the cells.
pub open spec fn at(g: [[u8; 9]; 9], k: int) -> u8 {
    cell(g, k / 9, k % 9)
}

/// `a` comes before `b` when the cells are read in row-major order.
pub open spec fn lex_less(a: [[u8; 9]; 9], b: [[u8; 9]; 9]) -> bool {
    exists|k: int|
        #![trigger at(a, k), at(b, k)]
        0 <= k < 81 && at(a, k) < at(b, k) && forall|j: int|
            #![trigger at(a, j)]
            0 <= j < k ==> at(a, j) == at(b, j)
}

/// Whether `num` can be written at (`row`, `col`): false exactly when `num`
/// already occurs in that row, that column, or that 3×3 box. The cell itself
/// is part of all three, so a cell that already holds `num` also gives false.
pub fn is_valid(board: &[[u8; 9]; 9], row: usize, col: usize, num: u8) -> (r: bool)
    requires
        row < 9,
        col < 9,
    ensures
        r == !blocked(*board, row as int, col as int, num),
{
    let mut x: usize = 0;
    while x < 9
        invariant
            x <= 9,
            row < 9,
            forall|j: int| 0 <= j < x ==> cell(*board, row as int, j) != num,
        decreases 9 - x,
    {
        if board[row][x] == num {
            assert(cell(*board, row as int, x as int) == num);
            return false;
        }
        x += 1;
    }
    let mut y: usize = 0;
    while y < 9
        invariant
            y <= 9,
            col < 9,
            forall|j: int| 0 <= j < y ==> cell(*board, j, col as int) != num,
        decreases 9 - y,
    {
        if board[y][col] == num {
            assert(cell(*board, y as int, col as int) == num);
            return false;
        }
        y += 1;
    }
    let box_row: usize = (row / 3) * 3;
    let box_col: usize = (col / 3) * 3;
    let mut i: usize = 0;
    while i < 3
        invariant
            i <= 3,
            row < 9,
            col < 9,
            box_row == (row / 3) * 3,
            box_col == (col / 3) * 3,
            forall|y: int, x: int|
                box_row <= y < box_row + i && box_col <= x < box_col + 3 ==> cell(*board, y, x)
                    != num,
        decreases 3 - i,
    {
        let mut j: usize = 0;
        while j < 3
            invariant
                i < 3,
                j <= 3,
                row < 9,
                col < 9,
                box_row == (row / 3) * 3,
                box_col == (col / 3) * 3,
                forall|y: int, x: int|
                    box_row <= y < box_row + i && box_col <= x < box_col + 3 ==> cell(*board, y, x)
                        != num,
                forall|x: int| box_col <= x < box_col + j ==> #[trigger] cell(*board, box_row + i, x) != num,
            decreases 3 - j,
        {
            if board[box_row + i][box_col + j] == num {
                assert(cell(*board, (box_row + i) as int, (box_col + j) as int) == num);
                assert(same_unit(row as int, col as int, (box_row + i) as int, (box_col + j) as int));
                return false;
            }
            j += 1;
        }
        i += 1;
    }
    assert forall|y: int, x: int|
        in_grid(y, x) && same_unit(row as int, col as int, y, x) implies cell(*board, y, x) != num by {
        if y != row && x != col {
            assert(box_row <= y < box_row + 3 && box_col <= x < box_col + 3);
        }
    }
    true
}

} // verus!
