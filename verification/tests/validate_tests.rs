use sudoku::Indexes;
use sudoku::Sudoku;
use sudoku::ValidationError;
use sudoku::ValidationErrorType;

#[test]
fn test_validate_sudoku() {
    let sudoku: Sudoku = "534678912\n\
             672195348\n\
             198342567\n\
             859761423\n\
             426853791\n\
             713924856\n\
             961537284\n\
             287419635\n\
             345286177"
        .parse()
        .unwrap();
    println!("{}", sudoku.display());

    assert_eq!(
        sudoku.validate(),
        Err(vec![
            ValidationError::Dublication {
                type_: ValidationErrorType::Row(8),
                value: 7,
                indexes: [(8, 7), (8, 8)].into_iter().collect(),
            },
            ValidationError::Dublication {
                type_: ValidationErrorType::Column(8),
                value: 7,
                indexes: [(2, 8), (8, 8)].into_iter().collect(),
            },
            ValidationError::Dublication {
                type_: ValidationErrorType::Box(8),
                value: 7,
                indexes: [(8, 7), (8, 8)].into_iter().collect()
            }
        ])
    );
}

#[test]
fn test_wrong_sudoku() {
    let sudoku: Sudoku = "111111111\n\
             111111111\n\
             111111111\n\
             111111111\n\
             111111111\n\
             111111111\n\
             111111111\n\
             111111111\n\
             111111111"
        .parse()
        .unwrap();
    println!("{}", sudoku.display());

    assert_eq!(sudoku.validate().err().unwrap().len(), 27);
}

#[test]
fn test_validate_correct_sudoku_returns_grid() {
    let text = "534678912\n\
             672195348\n\
             198342567\n\
             859761423\n\
             426853791\n\
             713924856\n\
             961537284\n\
             287419635\n\
             345286179";
    let sudoku: Sudoku = text.parse().unwrap();
    let again: Sudoku = text.parse().unwrap();
    let validated = sudoku.validate().unwrap();
    assert_eq!(validated, again);
}

#[test]
fn test_validate_all_ones_coordinates() {
    // In the all-ones grid every group is maximally duplicated: each of the
    // 27 errors carries all nine coordinates of its group.
    let sudoku: Sudoku = "111111111\n\
             111111111\n\
             111111111\n\
             111111111\n\
             111111111\n\
             111111111\n\
             111111111\n\
             111111111\n\
             111111111"
        .parse()
        .unwrap();
    let errors = sudoku.validate().err().unwrap();
    assert_eq!(errors.len(), 27);
    let first_row: Indexes = (0..9).map(|j| (0, j)).collect();
    assert_eq!(
        errors[0],
        ValidationError::Dublication {
            type_: ValidationErrorType::Row(0),
            value: 1,
            indexes: first_row,
        }
    );
    let first_column: Indexes = (0..9).map(|i| (i, 0)).collect();
    assert_eq!(
        errors[9],
        ValidationError::Dublication {
            type_: ValidationErrorType::Column(0),
            value: 1,
            indexes: first_column,
        }
    );
    let first_box: Indexes = [(0, 0), (0, 1), (0, 2), (1, 0), (1, 1), (1, 2), (2, 0), (2, 1), (2, 2)]
        .into_iter()
        .collect();
    assert_eq!(
        errors[18],
        ValidationError::Dublication {
            type_: ValidationErrorType::Box(0),
            value: 1,
            indexes: first_box,
        }
    );
}

#[test]
fn test_validate_two_duplicates_in_one_row() {
    // Row 0 holds two duplicated digits; they are reported in ascending
    // digit order, each with its own coordinates.
    let sudoku: Sudoku = "121212999\n\
             345678123\n\
             678912456\n\
             912345678\n\
             234567891\n\
             567891234\n\
             891234567\n\
             456789312\n\
             789123645"
        .parse()
        .unwrap();
    let errors = sudoku.validate().err().unwrap();
    let row_errors: Vec<&ValidationError> = errors
        .iter()
        .filter(|e| {
            let ValidationError::Dublication { type_, .. } = e;
            *type_ == ValidationErrorType::Row(0)
        })
        .collect();
    assert_eq!(row_errors.len(), 3);
    assert_eq!(
        *row_errors[0],
        ValidationError::Dublication {
            type_: ValidationErrorType::Row(0),
            value: 1,
            indexes: [(0, 0), (0, 2), (0, 4)].into_iter().collect(),
        }
    );
    assert_eq!(
        *row_errors[1],
        ValidationError::Dublication {
            type_: ValidationErrorType::Row(0),
            value: 2,
            indexes: [(0, 1), (0, 3), (0, 5)].into_iter().collect(),
        }
    );
    assert_eq!(
        *row_errors[2],
        ValidationError::Dublication {
            type_: ValidationErrorType::Row(0),
            value: 9,
            indexes: [(0, 6), (0, 7), (0, 8)].into_iter().collect(),
        }
    );
}

#[test]
fn test_validate_zero_cells_are_no_digits() {
    // A cell holding 0 carries no digit, so an all-zero grid has no
    // duplicate of the placement domain 1..=9.
    let sudoku: Sudoku = "000000000\n\
             000000000\n\
             000000000\n\
             000000000\n\
             000000000\n\
             000000000\n\
             000000000\n\
             000000000\n\
             000000000"
        .parse()
        .unwrap();
    assert!(sudoku.validate().is_ok());
}
