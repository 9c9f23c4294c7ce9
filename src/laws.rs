use vstd::prelude::*;
use vstd::relations::injective_on;
use vstd::set_lib::{lemma_int_range, lemma_map_size, lemma_subset_equality, set_int_range};

use crate::rules::{
    at, cell, completes, consistent, fits, in_grid, lex_less, peers, same_box, solved,
};
use crate::solver::search_result;

verus! {

/// `d` is one of the nine values `f(0)`, ..., `f(8)`.
pub open spec fn occurs_in(f: spec_fn(int) -> u8, d: u8) -> bool {
    exists|i: int| 0 <= i < 9 && #[trigger] f(i) == d
}

/// The nine values `f(0)`, ..., `f(8)` are the digits 1 to 9, each once.
pub open spec fn each_digit_once(f: spec_fn(int) -> u8) -> bool {
    &&& forall|i: int| 0 <= i < 9 ==> 1 <= #[trigger] f(i) <= 9
    &&& forall|i: int, j: int| 0 <= i < 9 && 0 <= j < 9 && i != j ==> #[trigger] f(i) != #[trigger] f(j)
    &&& forall|d: u8| 1 <= d <= 9 ==> #[trigger] occurs_in(f, d)
}

/// Row of the `i`-th cell (0 to 8) of the box in box row `br`.
pub open spec fn box_row_of(br: int, i: int) -> int {
    3 * br + i / 3
}

/// Column of the `i`-th cell (0 to 8) of the box in box column `bc`.
pub open spec fn box_col_of(bc: int, i: int) -> int {
    3 * bc + i % 3
}

/// The values of row `r`, by column.
pub open spec fn row_values(g: [[u8; 9]; 9], r: int) -> spec_fn(int) -> u8 {
    |c: int| cell(g, r, c)
}

/// The values of column `c`, by row.
pub open spec fn col_values(g: [[u8; 9]; 9], c: int) -> spec_fn(int) -> u8 {
    |r: int| cell(g, r, c)
}

/// The values of the box in box row `br` and box column `bc`, row by row.
pub open spec fn box_values(g: [[u8; 9]; 9], br: int, bc: int) -> spec_fn(int) -> u8 {
    |i: int| cell(g, box_row_of(br, i), box_col_of(bc, i))
}

/// Nine distinct digits out of 1 to 9 are all of them.
proof fn lemma_nine_distinct_digits(f: spec_fn(int) -> u8)
    requires
        forall|i: int| 0 <= i < 9 ==> 1 <= #[trigger] f(i) <= 9,
        forall|i: int, j: int| 0 <= i < 9 && 0 <= j < 9 && i != j ==> #[trigger] f(i) != #[trigger] f(j),
    ensures
        each_digit_once(f),
{
    let dom = set_int_range(0, 9);
    let h = |i: int| f(i) as int;
    let img = dom.map(h);
    lemma_int_range(0, 9);
    lemma_int_range(1, 10);
    assert(injective_on(h, dom));
    lemma_map_size(dom, img, h);
    assert(img.subset_of(set_int_range(1, 10)));
    lemma_subset_equality(img, set_int_range(1, 10));
    assert forall|d: u8| 1 <= d <= 9 implies #[trigger] occurs_in(f, d) by {
        assert(set_int_range(1, 10).contains(d as int));
        assert(img.contains(d as int));
    }
}

/// Where the givens of `g` never clash, every grid that completes `g` is
/// solved.
pub proof fn lemma_completion_solved(s: [[u8; 9]; 9], g: [[u8; 9]; 9])
    requires
        consistent(g),
        completes(s, g),
    ensures
        solved(s),
{
    assert forall|r1: int, c1: int, r2: int, c2: int|
        in_grid(r1, c1) && in_grid(r2, c2) && peers(r1, c1, r2, c2) && cell(s, r1, c1) != 0
        implies #[trigger] cell(s, r1, c1) != #[trigger] cell(s, r2, c2) by {
        if cell(g, r1, c1) == 0 {
            assert(fits(s, r1, c1));
        } else if cell(g, r2, c2) == 0 {
            assert(fits(s, r2, c2));
            assert(peers(r2, c2, r1, c1));
        } else {
            assert(cell(g, r1, c1) != cell(g, r2, c2));
        }
    }
}

/// A grid that the search fills from a grid whose givens never clash holds
/// each digit 1 to 9 exactly once in every row, every column and every box.
pub proof fn lemma_found_grid_units(g: [[u8; 9]; 9], out: [[u8; 9]; 9])
    requires
        consistent(g),
        search_result(g, true, out),
    ensures
        solved(out),
        forall|r: int| 0 <= r < 9 ==> each_digit_once(#[trigger] row_values(out, r)),
        forall|c: int| 0 <= c < 9 ==> each_digit_once(#[trigger] col_values(out, c)),
        forall|br: int, bc: int|
            0 <= br < 3 && 0 <= bc < 3 ==> each_digit_once(#[trigger] box_values(out, br, bc)),
{
    lemma_completion_solved(out, g);
    assert forall|r: int| 0 <= r < 9 implies each_digit_once(#[trigger] row_values(out, r)) by {
        let f = row_values(out, r);
        assert forall|i: int, j: int| 0 <= i < 9 && 0 <= j < 9 && i != j implies #[trigger] f(i)
            != #[trigger] f(j) by {
            assert(peers(r, i, r, j));
        }
        lemma_nine_distinct_digits(f);
    }
    assert forall|c: int| 0 <= c < 9 implies each_digit_once(#[trigger] col_values(out, c)) by {
        let f = col_values(out, c);
        assert forall|i: int, j: int| 0 <= i < 9 && 0 <= j < 9 && i != j implies #[trigger] f(i)
            != #[trigger] f(j) by {
            assert(peers(i, c, j, c));
        }
        lemma_nine_distinct_digits(f);
    }
    assert forall|br: int, bc: int| 0 <= br < 3 && 0 <= bc < 3 implies each_digit_once(
        #[trigger] box_values(out, br, bc),
    ) by {
        let f = box_values(out, br, bc);
        assert forall|i: int| 0 <= i < 9 implies 1 <= #[trigger] f(i) <= 9 by {
            assert(in_grid(box_row_of(br, i), box_col_of(bc, i)));
        }
        assert forall|i: int, j: int| 0 <= i < 9 && 0 <= j < 9 && i != j implies #[trigger] f(i)
            != #[trigger] f(j) by {
            assert(same_box(box_row_of(br, i), box_col_of(bc, i), box_row_of(br, j), box_col_of(bc, j)));
            assert(peers(box_row_of(br, i), box_col_of(bc, i), box_row_of(br, j), box_col_of(bc, j)));
        }
        lemma_nine_distinct_digits(f);
    }
}

proof fn lemma_first_difference(a: [[u8; 9]; 9], b: [[u8; 9]; 9], k: int, w: int)
    requires
        0 <= k <= w < 81,
        at(a, w) != at(b, w),
        forall|j: int| 0 <= j < k ==> #[trigger] at(a, j) == at(b, j),
    ensures
        lex_less(a, b) || lex_less(b, a),
    decreases w - k,
{
    if at(a, k) == at(b, k) {
        lemma_first_difference(a, b, k + 1, w);
    } else if at(a, k) < at(b, k) {
        assert(lex_less(a, b));
    } else {
        assert forall|j: int| 0 <= j < k implies #[trigger] at(b, j) == at(a, j) by {
            assert(at(a, j) == at(b, j));
        }
        assert(lex_less(b, a));
    }
}

/// Of two different grids, one comes first in row-major order.
pub proof fn lemma_lex_total(a: [[u8; 9]; 9], b: [[u8; 9]; 9])
    requires
        a != b,
    ensures
        lex_less(a, b) || lex_less(b, a),
{
    if forall|k: int| 0 <= k < 81 ==> #[trigger] at(a, k) == at(b, k) {
        assert forall|r: int| 0 <= r < 9 implies a[r] == b[r] by {
            assert forall|c: int| 0 <= c < 9 implies a[r][c] == b[r][c] by {
                assert(at(a, 9 * r + c) == at(b, 9 * r + c));
                assert((9 * r + c) / 9 == r && (9 * r + c) % 9 == c);
            }
            assert(a[r] =~= b[r]);
        }
        assert(a =~= b);
    } else {
        let w = choose|w: int| 0 <= w < 81 && #[trigger] at(a, w) != at(b, w);
        lemma_first_difference(a, b, 0, w);
    }
}

/// The search is deterministic: whatever two runs from the same grid report,
/// they agree on whether a solution was found and on the grid they leave.
pub proof fn lemma_search_deterministic(
    g: [[u8; 9]; 9],
    found1: bool,
    out1: [[u8; 9]; 9],
    found2: bool,
    out2: [[u8; 9]; 9],
)
    requires
        search_result(g, found1, out1),
        search_result(g, found2, out2),
    ensures
        found1 == found2,
        out1 == out2,
{
    if found1 && found2 {
        if out1 != out2 {
            lemma_lex_total(out1, out2);
        }
    }
}

/// Where no grid completes `g`, the search reports failure and leaves `g`
/// exactly as it was.
pub proof fn lemma_unsolvable_left_unchanged(g: [[u8; 9]; 9], found: bool, out: [[u8; 9]; 9])
    requires
        search_result(g, found, out),
        forall|s: [[u8; 9]; 9]| !completes(s, g),
    ensures
        !found,
        out == g,
{
    if found {
        assert(completes(out, g));
    }
}

} // verus!
