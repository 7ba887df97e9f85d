use sudoku::ParseError;
use sudoku::Sudoku;

#[test]
fn test_parse() {
    let sudoku: Sudoku = "534678912\n\
             672195348\n\
             198342567\n\
             859761423\n\
             426853791\n\
             713924856\n\
             961537284\n\
             287419635\n\
             345286177"
        .parse()
        .unwrap();
    assert_eq!(
        sudoku,
        Sudoku::from_grid(vec![
            vec![5, 3, 4, 6, 7, 8, 9, 1, 2],
            vec![6, 7, 2, 1, 9, 5, 3, 4, 8],
            vec![1, 9, 8, 3, 4, 2, 5, 6, 7],
            vec![8, 5, 9, 7, 6, 1, 4, 2, 3],
            vec![4, 2, 6, 8, 5, 3, 7, 9, 1],
            vec![7, 1, 3, 9, 2, 4, 8, 5, 6],
            vec![9, 6, 1, 5, 3, 7, 2, 8, 4],
            vec![2, 8, 7, 4, 1, 9, 6, 3, 5],
            vec![3, 4, 5, 2, 8, 6, 1, 7, 7],
        ])
        .unwrap()
    );
}

#[test]
fn test_parse_wrong_sudoku_col() {
    let sudoku = "111111111\n\
             111111111\n\
             111111111\n\
             111111111\n\
             111111111\n\
             111111111\n\
             111111111\n\
             111111111\n\
             111111111\n\
             111111111"
        .parse::<Sudoku>()
        .err()
        .unwrap();

    assert_eq!(sudoku, ParseError::WrongColumnSize { column_count: 10 });
}

#[test]
fn test_parse_wrong_sudoku_row() {
    let sudoku = "1111111111\n\
             111111111\n\
             111111111\n\
             111111111\n\
             111111111\n\
             111111111\n\
             111111111\n\
             111111111\n\
             111111111"
        .parse::<Sudoku>()
        .err()
        .unwrap();

    assert_eq!(sudoku, ParseError::WrongRowSize { index: 0, len: 10 });
}

#[test]
fn test_parse_wrong_sudoku_symbol() {
    let sudoku = "a11111111\n\
             111111111\n\
             111111111\n\
             111111111\n\
             111111111\n\
             111111111\n\
             111111111\n\
             111111111\n\
             111111111"
        .parse::<Sudoku>()
        .err()
        .unwrap();

    assert_eq!(sudoku, ParseError::WrongSymbol('a'));
}

#[test]
fn test_parse_same_text_twice_identical() {
    let text = "534678912\n672195348\n198342567\n859761423\n426853791\n\
                713924856\n961537284\n287419635\n345286177";
    assert_eq!(text.parse::<Sudoku>(), text.parse::<Sudoku>());
    let bad = "a11111111";
    assert_eq!(bad.parse::<Sudoku>(), bad.parse::<Sudoku>());
}

#[test]
fn test_parse_symbol_error_before_row_size_error() {
    // Row 0 has ten characters, but the bad symbol sits before the row's
    // length check would fire, so the symbol is reported.
    let err = "11111111a1\n\
             111111111\n\
             111111111\n\
             111111111\n\
             111111111\n\
             111111111\n\
             111111111\n\
             111111111\n\
             111111111"
        .parse::<Sudoku>()
        .err()
        .unwrap();
    assert_eq!(err, ParseError::WrongSymbol('a'));
}

#[test]
fn test_parse_row_size_error_before_later_symbol() {
    // Row 0 finishes, with the wrong size, before the bad symbol of row 1
    // is ever read.
    let err = "1111111111\n\
             a11111111\n\
             111111111\n\
             111111111\n\
             111111111\n\
             111111111\n\
             111111111\n\
             111111111\n\
             111111111"
        .parse::<Sudoku>()
        .err()
        .unwrap();
    assert_eq!(err, ParseError::WrongRowSize { index: 0, len: 10 });
}

#[test]
fn test_parse_empty_text() {
    let err = "".parse::<Sudoku>().err().unwrap();
    assert_eq!(err, ParseError::WrongColumnSize { column_count: 0 });
}

#[test]
fn test_parse_empty_row() {
    let err = "111111111\n\n".parse::<Sudoku>().err().unwrap();
    assert_eq!(err, ParseError::WrongRowSize { index: 1, len: 0 });
}

#[test]
fn test_parse_skips_spaces_inside_rows() {
    let spaced: Sudoku = "1 1 1 1 1 1 1 1 1\n\
             111111111\n\
             111111111\n\
             111111111\n\
             111111111\n\
             111111111\n\
             111111111\n\
             111111111\n\
             111111111"
        .parse()
        .unwrap();
    let plain: Sudoku = "111111111\n\
             111111111\n\
             111111111\n\
             111111111\n\
             111111111\n\
             111111111\n\
             111111111\n\
             111111111\n\
             111111111"
        .parse()
        .unwrap();
    assert_eq!(spaced, plain);
}

#[test]
fn test_parse_crlf_line_breaks() {
    let crlf: Sudoku = "534678912\r\n672195348\r\n198342567\r\n859761423\r\n426853791\r\n\
                713924856\r\n961537284\r\n287419635\r\n345286178\r\n"
        .parse()
        .unwrap();
    let lf: Sudoku = "534678912\n672195348\n198342567\n859761423\n426853791\n\
                713924856\n961537284\n287419635\n345286178"
        .parse()
        .unwrap();
    assert_eq!(crlf, lf);
}

#[test]
fn test_parse_lone_carriage_return_rejected() {
    let err = "11111\r1111\n".parse::<Sudoku>().err().unwrap();
    assert_eq!(err, ParseError::WrongSymbol('\r'));
}

#[test]
fn test_display_renders_spaced_rows() {
    let sudoku: Sudoku = "123456789\n\
             123456789\n\
             123456789\n\
             123456789\n\
             123456789\n\
             123456789\n\
             123456789\n\
             123456789\n\
             123456789"
        .parse()
        .unwrap();
    let line = "1 2 3 4 5 6 7 8 9\n";
    let expected = line.repeat(9);
    assert_eq!(sudoku.display(), expected);
}

#[test]
fn test_display_parse_round_trip() {
    let original: Sudoku = "534678912\n672195348\n198342567\n859761423\n426853791\n\
                713924856\n961537284\n287419635\n345286177"
        .parse()
        .unwrap();
    let rendered = original.display();
    let reparsed: Sudoku = rendered.parse().unwrap();
    assert_eq!(original, reparsed);
}

#[test]
fn test_from_grid_rejects_bad_shapes() {
    assert!(Sudoku::from_grid(vec![vec![1; 9]; 8]).is_none());
    assert!(Sudoku::from_grid(vec![vec![1; 8]; 9]).is_none());
    let mut rows = vec![vec![1; 9]; 9];
    rows[4][4] = 10;
    assert!(Sudoku::from_grid(rows).is_none());
}

#[test]
fn test_cell_and_size() {
    let sudoku: Sudoku = "534678912\n672195348\n198342567\n859761423\n426853791\n\
                713924856\n961537284\n287419635\n345286177"
        .parse()
        .unwrap();
    assert_eq!(sudoku.size(), 9);
    assert_eq!(sudoku.cell(0, 0), 5);
    assert_eq!(sudoku.cell(2, 8), 7);
    assert_eq!(sudoku.cell(8, 8), 7);
}
