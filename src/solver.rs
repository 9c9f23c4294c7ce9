use vstd::prelude::*;

use crate::rules::{
    at, blocked, cell, completes, fits, in_grid, is_valid, lex_less, peers, same_unit,
    well_formed,
};

verus! {

/// `g2` is `g` with the value `d` written at (`r`, `c`).
pub open spec fn placed_at(g2: [[u8; 9]; 9], g: [[u8; 9]; 9], r: int, c: int, d: u8) -> bool {
    &&& cell(g2, r, c) == d
    &&& forall|y: int, x: int|
        #![trigger cell(g2, y, x)]
        in_grid(y, x) && !(y == r && x == c) ==> cell(g2, y, x) == cell(g, y, x)
}

/// The number of blank cells among the first `k` cells in row-major order.
pub open spec fn blanks(g: [[u8; 9]; 9], k: int) -> nat
    decreases k,
{
    if k <= 0 {
        0
    } else {
        blanks(g, k - 1) + if at(g, k - 1) == 0 {
            1nat
        } else {
            0nat
        }
    }
}

/// What the search promises for the grid `g` it starts from: `found` tells
/// whether some grid completes `g`; if so, `out` is the first such grid in
/// row-major order, and if not, `out` is `g` itself.
pub open spec fn search_result(g: [[u8; 9]; 9], found: bool, out: [[u8; 9]; 9]) -> bool {
    &&& found ==> completes(out, g)
    &&& found ==> forall|s: [[u8; 9]; 9]| completes(s, g) ==> !lex_less(s, out)
    &&& !found ==> out == g
    &&& !found ==> forall|s: [[u8; 9]; 9]| !completes(s, g)
}

proof fn lemma_grid_eq(a: [[u8; 9]; 9], b: [[u8; 9]; 9])
    requires
        forall|r: int, c: int| #![trigger cell(a, r, c)] in_grid(r, c) ==> cell(a, r, c) == cell(b, r, c),
    ensures
        a == b,
{
    assert forall|r: int| 0 <= r < 9 implies a[r] == b[r] by {
        assert forall|c: int| 0 <= c < 9 implies a[r][c] == b[r][c] by {
            assert(cell(a, r, c) == cell(b, r, c));
        }
        assert(a[r] =~= b[r]);
    }
    assert(a =~= b);
}

proof fn lemma_blanks_drop(g2: [[u8; 9]; 9], g: [[u8; 9]; 9], r: int, c: int, d: u8, k: int)
    requires
        in_grid(r, c),
        placed_at(g2, g, r, c, d),
        d != 0,
        cell(g, r, c) == 0,
        0 <= k <= 81,
    ensures
        k <= 9 * r + c ==> blanks(g2, k) == blanks(g, k),
        k > 9 * r + c ==> blanks(g2, k) < blanks(g, k),
    decreases k,
{
    if k > 0 {
        lemma_blanks_drop(g2, g, r, c, d, k - 1);
        let j = k - 1;
        if j != 9 * r + c {
            assert(!(j / 9 == r && j % 9 == c));
            assert(cell(g2, j / 9, j % 9) == cell(g, j / 9, j % 9));
        } else {
            assert(j / 9 == r && j % 9 == c);
        }
    }
}

/// Writing a digit that is not blocked into a blank keeps every grid that
/// completes the result a grid that completes the original.
proof fn lemma_completes_lift(
    s: [[u8; 9]; 9],
    g: [[u8; 9]; 9],
    g2: [[u8; 9]; 9],
    r: int,
    c: int,
    d: u8,
)
    requires
        in_grid(r, c),
        placed_at(g2, g, r, c, d),
        cell(g, r, c) == 0,
        d != 0,
        !blocked(g, r, c, d),
        completes(s, g2),
    ensures
        completes(s, g),
{
    assert(cell(s, r, c) == d);
    assert forall|y: int, x: int| in_grid(y, x) && cell(g, y, x) != 0 implies cell(s, y, x)
        == cell(g, y, x) by {
        assert(cell(g2, y, x) == cell(g, y, x));
    }
    assert forall|y: int, x: int| in_grid(y, x) && cell(g, y, x) == 0 implies fits(s, y, x) by {
        if y == r && x == c {
            assert forall|p: int, q: int| in_grid(p, q) && peers(r, c, p, q) implies cell(s, p, q)
                != cell(s, r, c) by {
                assert(cell(g2, p, q) == cell(g, p, q));
                if cell(g, p, q) == 0 {
                    assert(fits(s, p, q));
                    assert(peers(p, q, r, c));
                    assert(cell(s, r, c) != cell(s, p, q));
                } else {
                    assert(same_unit(r, c, p, q));
                }
            }
        } else {
            assert(cell(g2, y, x) == cell(g, y, x));
        }
    }
}

/// A grid that completes `g` and holds `d` at a blank (`r`, `c`) completes `g`
/// with `d` written there.
proof fn lemma_completes_lower(
    s: [[u8; 9]; 9],
    g: [[u8; 9]; 9],
    g2: [[u8; 9]; 9],
    r: int,
    c: int,
)
    requires
        in_grid(r, c),
        placed_at(g2, g, r, c, cell(s, r, c)),
        cell(g, r, c) == 0,
        completes(s, g),
    ensures
        completes(s, g2),
{
    assert forall|y: int, x: int| in_grid(y, x) && cell(g2, y, x) != 0 implies cell(s, y, x)
        == cell(g2, y, x) by {
        if !(y == r && x == c) {
            assert(cell(g, y, x) == cell(g2, y, x));
        }
    }
    assert forall|y: int, x: int| in_grid(y, x) && cell(g2, y, x) == 0 implies fits(s, y, x) by {
        if y == r && x == c {
            assert(cell(s, r, c) >= 1);
        } else {
            assert(cell(g, y, x) == cell(g2, y, x));
        }
    }
}

/// A grid that completes `g` never holds, at a blank of `g`, a digit that is
/// blocked there.
proof fn lemma_blocked_excluded(s: [[u8; 9]; 9], g: [[u8; 9]; 9], r: int, c: int, d: u8)
    requires
        in_grid(r, c),
        cell(g, r, c) == 0,
        blocked(g, r, c, d),
        completes(s, g),
    ensures
        cell(s, r, c) != d,
{
    let (y, x) = choose|y: int, x: int|
        #![trigger cell(g, y, x)]
        in_grid(y, x) && same_unit(r, c, y, x) && cell(g, y, x) == d;
    if d != 0 && !(y == r && x == c) {
        assert(cell(s, y, x) == d);
        assert(fits(s, r, c));
        assert(peers(r, c, y, x));
    }
    assert(cell(s, r, c) >= 1);
}

/// Fills the blank cells (those holding 0) of `board` by depth-first search:
/// the first blank in row-major order gets each digit 1 to 9 in turn that
/// `is_valid` accepts, and the search goes on from there, undoing the digit
/// when it leads nowhere. Returns whether the grid could be filled. On
/// success `board` holds the first grid in row-major order that completes the
/// input; on failure no grid does and `board` is left as it was.
pub fn solve(board: &mut [[u8; 9]; 9]) -> (r: bool)
    requires
        well_formed(*old(board)),
    ensures
        search_result(*old(board), r, *final(board)),
    decreases blanks(*old(board), 81),
{
    let ghost g = *board;
    let mut row: usize = 0;
    while row < 9
        invariant
            row <= 9,
            *board == g,
            g == *old(board),
            well_formed(g),
            forall|k: int| 0 <= k < 9 * row ==> #[trigger] at(g, k) != 0,
        decreases 9 - row,
    {
        let mut col: usize = 0;
        while col < 9
            invariant
                row < 9,
                col <= 9,
                *board == g,
                g == *old(board),
                well_formed(g),
                forall|k: int| 0 <= k < 9 * row + col ==> #[trigger] at(g, k) != 0,
            decreases 9 - col,
        {
            if board[row][col] == 0 {
                let ghost k0: int = 9 * row + col;
                assert(k0 / 9 == row && k0 % 9 == col);
                let mut num: u8 = 1;
                while num <= 9
                    invariant
                        1 <= num <= 10,
                        row < 9,
                        col < 9,
                        *board == g,
                        g == *old(board),
                        well_formed(g),
                        cell(g, row as int, col as int) == 0,
                        k0 == 9 * row + col,
                        forall|k: int| 0 <= k < k0 ==> #[trigger] at(g, k) != 0,
                        forall|s: [[u8; 9]; 9]|
                            completes(s, g) ==> #[trigger] cell(s, row as int, col as int) >= num,
                    decreases 10 - num,
                {
                    if is_valid(board, row, col, num) {
                        board[row][col] = num;
                        let ghost placed = *board;
                        proof {
                            assert(placed_at(placed, g, row as int, col as int, num));
                            lemma_blanks_drop(placed, g, row as int, col as int, num, 81);
                            assert forall|y: int, x: int| in_grid(y, x) implies cell(placed, y, x)
                                <= 9 by {
                                if !(y == row && x == col) {
                                    assert(cell(placed, y, x) == cell(g, y, x));
                                }
                            }
                        }
                        if solve(board) {
                            proof {
                                let f = *board;
                                lemma_completes_lift(f, g, placed, row as int, col as int, num);
                                assert forall|s: [[u8; 9]; 9]| completes(s, g) implies !lex_less(
                                    s,
                                    f,
                                ) by {
                                    if lex_less(s, f) {
                                        let k = choose|k: int|
                                            #![trigger at(s, k), at(f, k)]
                                            0 <= k < 81 && at(s, k) < at(f, k) && forall|j: int|
                                                #![trigger at(s, j)]
                                                0 <= j < k ==> at(s, j) == at(f, j);
                                        if k < k0 {
                                            assert(at(g, k) != 0);
                                        } else if k == k0 {
                                            assert(cell(s, row as int, col as int) >= num);
                                        } else {
                                            assert(at(s, k0) == at(f, k0));
                                            lemma_completes_lower(
                                                s,
                                                g,
                                                placed,
                                                row as int,
                                                col as int,
                                            );
                                        }
                                    }
                                }
                            }
                            return true;
                        }
                        board[row][col] = 0;
                        proof {
                            assert forall|y: int, x: int| in_grid(y, x) implies cell(*board, y, x)
                                == cell(g, y, x) by {
                                if !(y == row && x == col) {
                                    assert(cell(placed, y, x) == cell(g, y, x));
                                }
                            }
                            lemma_grid_eq(*board, g);
                            assert forall|s: [[u8; 9]; 9]| completes(s, g) implies #[trigger] cell(
                                s,
                                row as int,
                                col as int,
                            ) >= num + 1 by {
                                if cell(s, row as int, col as int) == num {
                                    lemma_completes_lower(s, g, placed, row as int, col as int);
                                }
                            }
                        }
                    } else {
                        proof {
                            assert forall|s: [[u8; 9]; 9]| completes(s, g) implies #[trigger] cell(
                                s,
                                row as int,
                                col as int,
                            ) >= num + 1 by {
                                lemma_blocked_excluded(s, g, row as int, col as int, num);
                            }
                        }
                    }
                    num += 1;
                }
                proof {
                    assert forall|s: [[u8; 9]; 9]| !completes(s, g) by {
                        if completes(s, g) {
                            assert(cell(s, row as int, col as int) >= 10);
                        }
                    }
                }
                return false;
            }
            col += 1;
        }
        row += 1;
    }
    proof {
        assert forall|r: int, c: int| in_grid(r, c) implies 1 <= cell(g, r, c) <= 9 by {
            assert(at(g, 9 * r + c) != 0);
            assert((9 * r + c) / 9 == r && (9 * r + c) % 9 == c);
        }
        assert forall|s: [[u8; 9]; 9]| completes(s, g) implies !lex_less(s, g) by {
            assert forall|k: int| 0 <= k < 81 implies #[trigger] at(s, k) == at(g, k) by {
                assert(at(g, k) != 0);
            }
        }
    }
    true
}

} // verus!
