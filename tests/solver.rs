use sudoku_solver::{is_valid, solve};

type Board = [[u8; 9]; 9];

fn board_from_rows(rows: [&str; 9]) -> Board {
    let mut board = [[0u8; 9]; 9];
    for (i, row) in rows.iter().enumerate() {
        for (j, ch) in row.chars().enumerate() {
            board[i][j] = ch.to_digit(10).unwrap() as u8;
        }
    }
    board
}

fn unit_is_permutation(values: [u8; 9]) -> bool {
    let mut seen = [false; 10];
    for v in values {
        if v == 0 || v > 9 || seen[v as usize] {
            return false;
        }
        seen[v as usize] = true;
    }
    true
}

fn is_solved(board: &Board) -> bool {
    for r in 0..9 {
        if !unit_is_permutation(board[r]) {
            return false;
        }
    }
    for c in 0..9 {
        let mut col = [0u8; 9];
        for r in 0..9 {
            col[r] = board[r][c];
        }
        if !unit_is_permutation(col) {
            return false;
        }
    }
    for b in 0..9 {
        let mut cells = [0u8; 9];
        for i in 0..9 {
            cells[i] = board[(b / 3) * 3 + i / 3][(b % 3) * 3 + i % 3];
        }
        if !unit_is_permutation(cells) {
            return false;
        }
    }
    true
}

fn classic_puzzle() -> Board {
    board_from_rows([
        "530070000",
        "600195000",
        "098000060",
        "800060003",
        "400803001",
        "700020006",
        "060000280",
        "000419005",
        "000080079",
    ])
}

fn classic_solution() -> Board {
    board_from_rows([
        "534678912",
        "672195348",
        "198342567",
        "859761423",
        "426853791",
        "713924856",
        "961537284",
        "287419635",
        "345286179",
    ])
}

#[test]
fn empty_grid_is_solved() {
    let mut board = [[0u8; 9]; 9];
    assert!(solve(&mut board));
    assert!(is_solved(&board));
    assert_eq!(board[0], [1, 2, 3, 4, 5, 6, 7, 8, 9]);
}

#[test]
fn empty_grid_gives_first_solution_in_row_major_order() {
    let mut board = [[0u8; 9]; 9];
    assert!(solve(&mut board));
    let expected = board_from_rows([
        "123456789",
        "456789123",
        "789123456",
        "214365897",
        "365897214",
        "897214365",
        "531642978",
        "642978531",
        "978531642",
    ]);
    assert_eq!(board, expected);
}

#[test]
fn classic_puzzle_matches_known_solution() {
    let mut board = classic_puzzle();
    assert!(solve(&mut board));
    assert_eq!(board, classic_solution());
}

#[test]
fn givens_are_kept() {
    let input = classic_puzzle();
    let mut board = input;
    assert!(solve(&mut board));
    for r in 0..9 {
        for c in 0..9 {
            if input[r][c] != 0 {
                assert_eq!(board[r][c], input[r][c]);
            }
        }
    }
    assert!(is_solved(&board));
}

#[test]
fn repeated_digit_in_row_fails_and_leaves_grid() {
    let mut input = [[0u8; 9]; 9];
    input[0] = [5, 5, 1, 2, 3, 4, 6, 7, 0];
    input[1][8] = 8;
    input[2][8] = 9;
    let mut board = input;
    assert!(!solve(&mut board));
    assert_eq!(board, input);
}

#[test]
fn contradiction_after_search_leaves_grid() {
    // The givens never clash, yet every digit tried at the first blanks runs
    // into a blank with no digit left.
    let input = board_from_rows([
        "534678912",
        "600195308",
        "198042567",
        "859761423",
        "426850791",
        "713924856",
        "941537280",
        "287419635",
        "300286179",
    ]);
    let mut board = input;
    assert!(!solve(&mut board));
    assert_eq!(board, input);
}

#[test]
fn single_blank_gets_forced_digit() {
    let mut input = classic_solution();
    input[4][4] = 0;
    let mut board = input;
    assert!(solve(&mut board));
    assert_eq!(board[4][4], 5);
    assert_eq!(board, classic_solution());
}

#[test]
fn full_grid_is_returned_unchanged() {
    let mut board = classic_solution();
    assert!(solve(&mut board));
    assert_eq!(board, classic_solution());
}

#[test]
fn two_runs_give_the_same_grid() {
    let mut first = classic_puzzle();
    first[0][0] = 0;
    first[0][1] = 0;
    first[1][0] = 0;
    let mut second = first;
    let r1 = solve(&mut first);
    let r2 = solve(&mut second);
    assert_eq!(r1, r2);
    assert_eq!(first, second);
}

#[test]
fn is_valid_matches_row_column_and_box() {
    let mut board = [[0u8; 9]; 9];
    board[0][0] = 1;
    board[4][7] = 2;
    board[8][3] = 3;
    board[5][5] = 4;
    for row in 0..9 {
        for col in 0..9 {
            for num in 1..=9u8 {
                let mut present = false;
                for r in 0..9 {
                    for c in 0..9 {
                        let same_unit =
                            r == row || c == col || (r / 3 == row / 3 && c / 3 == col / 3);
                        if same_unit && board[r][c] == num {
                            present = true;
                        }
                    }
                }
                assert_eq!(is_valid(&board, row, col, num), !present);
            }
        }
    }
}

#[test]
fn is_valid_examples() {
    let board = classic_puzzle();
    assert!(!is_valid(&board, 0, 2, 5));
    assert!(!is_valid(&board, 0, 2, 8));
    assert!(!is_valid(&board, 0, 2, 9));
    assert!(is_valid(&board, 0, 2, 4));
    assert!(is_valid(&board, 0, 2, 1));
    assert!(!is_valid(&board, 0, 0, 5));
}
