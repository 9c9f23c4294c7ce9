use vstd::prelude::*;

use crate::rules::{cell, in_grid, well_formed};

verus! {

/// The value of a nonempty string of decimal digits.
pub open spec fn decimal_value(s: Seq<char>) -> nat
    decreases s.len(),
{
    if s.len() == 0 {
        0
    } else {
        decimal_value(s.drop_last()) * 10 + ((s.last() as int) - ('0' as int)) as nat
    }
}

/// Every character of `s` is one of `0` to `9`.
pub open spec fn all_decimal(s: Seq<char>) -> bool {
    forall|i: int| 0 <= i < s.len() ==> '0' <= #[trigger] s[i] <= '9'
}

/// What reading `s` as a `u8` in base 10 gives: an optional `+` followed by
/// one or more decimal digits whose value is at most 255; anything else
/// (blanks, a sign alone, other characters) is no number.
pub open spec fn parsed_u8(s: Seq<char>) -> Option<u8> {
    let d = if s.len() > 0 && s[0] == '+' {
        s.skip(1)
    } else {
        s
    };
    if d.len() > 0 && all_decimal(d) && decimal_value(d) <= 255 {
        Some(decimal_value(d) as u8)
    } else {
        None
    }
}

/// The cell value that a field of the input stands for: the digit it reads
/// as, or 0 (blank) where it is not a number from 0 to 9.
pub open spec fn field_digit(s: Seq<char>) -> u8 {
    match parsed_u8(s) {
        Some(v) => if v <= 9 {
            v
        } else {
            0
        },
        None => 0,
    }
}

/// Relies on `<u8 as FromStr>::from_str` (`str::parse::<u8>`), which accepts
/// exactly an optional `+` and decimal digits of a value that fits in a byte.
#[verifier::external_body]
fn parse_u8(s: &str) -> (r: Option<u8>)
    ensures
        r == parsed_u8(s@),
{
    s.parse::<u8>().ok()
}

/// The cell value that one field of the input stands for: its number where
/// it reads as 0 to 9, else 0 (blank).
pub fn field_to_digit(field: &str) -> (d: u8)
    ensures
        d == field_digit(field@),
        d <= 9,
{
    match parse_u8(field) {
        Some(v) => if v <= 9 {
            v
        } else {
            0
        },
        None => 0,
    }
}

/// Builds a grid from rows of fields, one row of the grid per record and one
/// cell per field. A field that is not a number from 0 to 9 gives a blank,
/// and so does every cell that no field reaches.
pub fn board_from_fields(records: &Vec<Vec<String>>) -> (board: [[u8; 9]; 9])
    requires
        records@.len() <= 9,
        forall|i: int| 0 <= i < records@.len() ==> (#[trigger] records@[i])@.len() <= 9,
    ensures
        well_formed(board),
        forall|r: int, c: int|
            #![trigger cell(board, r, c)]
            in_grid(r, c) ==> cell(board, r, c) == if r < records@.len() && c
                < records@[r]@.len() {
                field_digit(records@[r]@[c]@)
            } else {
                0
            },
{
    let mut board: [[u8; 9]; 9] = [[0u8; 9]; 9];
    let mut i: usize = 0;
    while i < records.len()
        invariant
            i <= records@.len() <= 9,
            forall|k: int| 0 <= k < records@.len() ==> (#[trigger] records@[k])@.len() <= 9,
            forall|r: int, c: int|
                #![trigger cell(board, r, c)]
                in_grid(r, c) ==> cell(board, r, c) == if r < i && c < records@[r]@.len() {
                    field_digit(records@[r]@[c]@)
                } else {
                    0
                },
        decreases records@.len() - i,
    {
        let row = &records[i];
        let mut j: usize = 0;
        while j < row.len()
            invariant
                i < records@.len() <= 9,
                row@ == records@[i as int]@,
                j <= row@.len() <= 9,
                forall|r: int, c: int|
                    #![trigger cell(board, r, c)]
                    in_grid(r, c) ==> cell(board, r, c) == if (r < i && c < records@[r]@.len()) || (
                    r == i && c < j) {
                        field_digit(records@[r]@[c]@)
                    } else {
                        0
                    },
            decreases row@.len() - j,
        {
            let d = field_to_digit(row[j].as_str());
            let ghost prev = board;
            board[i][j] = d;
            assert forall|r: int, c: int| in_grid(r, c) && !(r == i && c == j) implies #[trigger] cell(
                board,
                r,
                c,
            ) == cell(prev, r, c) by {
                if r != i {
                    assert(board[r] == prev[r]);
                }
            }
            j += 1;
        }
        i += 1;
    }
    board
}

/// The character shown for a cell: `.` for a blank, else its digit.
pub open spec fn glyph(v: u8) -> u8 {
    if v == 0 {
        ('.' as u8)
    } else {
        (v + ('0' as u8)) as u8
    }
}

/// The line between two bands of boxes: `------+-------+------` and a newline.
pub open spec fn separator() -> Seq<u8> {
    let dashes = |n: nat| Seq::new(n, |i: int| '-' as u8);
    dashes(6) + seq!['+' as u8] + dashes(7) + seq!['+' as u8] + dashes(6) + seq!['\n' as u8]
}

/// The text of cell (`r`, `c`): its glyph and a space, after a `| ` where a
/// new box starts within the row.
pub open spec fn cell_text(g: [[u8; 9]; 9], r: int, c: int) -> Seq<u8> {
    (if c % 3 == 0 && c != 0 {
        seq!['|' as u8, ' ' as u8]
    } else {
        Seq::empty()
    }) + seq![glyph(cell(g, r, c)), (' ' as u8)]
}

/// The text of the first `n` cells of row `r`.
pub open spec fn row_text(g: [[u8; 9]; 9], r: int, n: int) -> Seq<u8>
    decreases n,
{
    if n <= 0 {
        Seq::empty()
    } else {
        row_text(g, r, n - 1) + cell_text(g, r, n - 1)
    }
}

/// What stands before row `r`: the separator where a new band of boxes
/// starts, else nothing.
pub open spec fn line_head(r: int) -> Seq<u8> {
    if r % 3 == 0 && r != 0 {
        separator()
    } else {
        Seq::empty()
    }
}

/// The text of the first `n` rows, each ending in a newline.
pub open spec fn board_text(g: [[u8; 9]; 9], n: int) -> Seq<u8>
    decreases n,
{
    if n <= 0 {
        Seq::empty()
    } else {
        board_text(g, n - 1) + line_head(n - 1) + row_text(g, n - 1, 9) + seq!['\n' as u8]
    }
}

fn push_dashes(out: &mut Vec<u8>, n: usize)
    ensures
        final(out)@ == old(out)@ + Seq::new(n as nat, |i: int| '-' as u8),
{
    let mut k: usize = 0;
    while k < n
        invariant
            k <= n,
            out@ == old(out)@ + Seq::new(k as nat, |i: int| '-' as u8),
        decreases n - k,
    {
        out.push('-' as u8);
        k += 1;
        assert(out@ =~= old(out)@ + Seq::new(k as nat, |i: int| '-' as u8));
    }
}

/// Renders the grid as text, one line per row: each cell as its digit or `.`
/// followed by a space, `| ` between boxes, and a line of dashes between the
/// bands of boxes.
pub fn render_board(board: &[[u8; 9]; 9]) -> (text: Vec<u8>)
    requires
        well_formed(*board),
    ensures
        text@ == board_text(*board, 9),
{
    let mut out: Vec<u8> = Vec::new();
    let mut i: usize = 0;
    while i < 9
        invariant
            i <= 9,
            well_formed(*board),
            out@ == board_text(*board, i as int),
        decreases 9 - i,
    {
        let ghost start = out@;
        if i % 3 == 0 && i != 0 {
            push_dashes(&mut out, 6);
            out.push('+' as u8);
            push_dashes(&mut out, 7);
            out.push('+' as u8);
            push_dashes(&mut out, 6);
            out.push('\n' as u8);
        }
        assert(out@ =~= start + line_head(i as int));
        let mut j: usize = 0;
        while j < 9
            invariant
                i < 9,
                j <= 9,
                well_formed(*board),
                out@ == start + line_head(i as int) + row_text(*board, i as int, j as int),
            decreases 9 - j,
        {
            let ghost before = out@;
            if j % 3 == 0 && j != 0 {
                out.push('|' as u8);
                out.push(' ' as u8);
            }
            let v = board[i][j];
            assert(v == cell(*board, i as int, j as int));
            let shown: u8 = if v == 0 {
                ('.' as u8)
            } else {
                v + ('0' as u8)
            };
            out.push(shown);
            out.push(' ' as u8);
            assert(out@ =~= before + cell_text(*board, i as int, j as int));
            j += 1;
        }
        out.push('\n' as u8);
        assert(out@ =~= board_text(*board, i + 1));
        i += 1;
    }
    out
}

} // verus!
