use sudoku_solver::text::{board_from_fields, field_to_digit, render_board};

fn records(rows: &[&[&str]]) -> Vec<Vec<String>> {
    rows.iter()
        .map(|r| r.iter().map(|f| f.to_string()).collect())
        .collect()
}

#[test]
fn field_digits() {
    assert_eq!(field_to_digit("7"), 7);
    assert_eq!(field_to_digit("0"), 0);
    assert_eq!(field_to_digit("9"), 9);
    assert_eq!(field_to_digit("+3"), 3);
    assert_eq!(field_to_digit("007"), 7);
}

#[test]
fn fields_that_are_not_digits_are_blank() {
    assert_eq!(field_to_digit(""), 0);
    assert_eq!(field_to_digit("x"), 0);
    assert_eq!(field_to_digit("."), 0);
    assert_eq!(field_to_digit(" 5"), 0);
    assert_eq!(field_to_digit("-1"), 0);
    assert_eq!(field_to_digit("+"), 0);
    assert_eq!(field_to_digit("10"), 0);
    assert_eq!(field_to_digit("42"), 0);
    assert_eq!(field_to_digit("300"), 0);
}

#[test]
fn board_from_full_records() {
    let rows = [
        "530070000",
        "600195000",
        "098000060",
        "800060003",
        "400803001",
        "700020006",
        "060000280",
        "000419005",
        "000080079",
    ];
    let recs: Vec<Vec<String>> = rows
        .iter()
        .map(|r| r.chars().map(|c| c.to_string()).collect())
        .collect();
    let board = board_from_fields(&recs);
    for (i, r) in rows.iter().enumerate() {
        for (j, c) in r.chars().enumerate() {
            assert_eq!(board[i][j], c.to_digit(10).unwrap() as u8);
        }
    }
}

#[test]
fn board_from_short_and_messy_records() {
    let recs = records(&[&["1", "x", "", "12", "+4"], &[], &["0", "9"]]);
    let board = board_from_fields(&recs);
    let mut expected = [[0u8; 9]; 9];
    expected[0][0] = 1;
    expected[0][4] = 4;
    expected[2][1] = 9;
    assert_eq!(board, expected);
}

#[test]
fn board_from_no_records_is_empty() {
    let board = board_from_fields(&Vec::new());
    assert_eq!(board, [[0u8; 9]; 9]);
}

#[test]
fn render_empty_board() {
    let text = String::from_utf8(render_board(&[[0u8; 9]; 9])).unwrap();
    let line = ". . . | . . . | . . . \n";
    let sep = "------+-------+------\n";
    let expected = format!(
        "{l}{l}{l}{s}{l}{l}{l}{s}{l}{l}{l}",
        l = line,
        s = sep
    );
    assert_eq!(text, expected);
}

#[test]
fn render_digits() {
    let mut board = [[0u8; 9]; 9];
    board[0] = [1, 2, 3, 4, 5, 6, 7, 8, 9];
    board[8][8] = 5;
    let text = String::from_utf8(render_board(&board)).unwrap();
    let lines: Vec<&str> = text.lines().collect();
    assert_eq!(lines.len(), 11);
    assert_eq!(lines[0], "1 2 3 | 4 5 6 | 7 8 9 ");
    assert_eq!(lines[3], "------+-------+------");
    assert_eq!(lines[10], ". . . | . . . | . . 5 ");
}
