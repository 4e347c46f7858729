use gamey::{Board, BoardError, Cell, Coordinates, GameY, PlayerId, YenError, YEN};

fn yen(size: u32, turn: u32, layout: &str) -> YEN {
    YEN::new(size, turn, vec!['B', 'R'], layout.to_string())
}

fn reencode(y: YEN) -> YEN {
    GameY::try_from(y).unwrap().to_yen()
}

#[test]
fn decode_reads_rows_from_the_top() {
    let board = yen(3, 3, "B/.R/B..").to_board().unwrap();
    assert_eq!(board.size(), 3);
    assert_eq!(board.cell_count(), 6);
    let expected = [
        Cell::Owned(PlayerId::First),
        Cell::Empty,
        Cell::Owned(PlayerId::Second),
        Cell::Owned(PlayerId::First),
        Cell::Empty,
        Cell::Empty,
    ];
    for (i, cell) in expected.iter().enumerate() {
        assert_eq!(board.cell_at(i), *cell);
    }
}

#[test]
fn decode_maps_row_and_column_to_coordinates() {
    let board = yen(3, 3, "B/.R/B..").to_board().unwrap();
    // row r, column c is the cell x = c, y = r - c, z = size - 1 - r
    assert_eq!(board.get(&Coordinates::new(0, 0, 2)), Cell::Owned(PlayerId::First));
    assert_eq!(board.get(&Coordinates::new(0, 1, 1)), Cell::Empty);
    assert_eq!(board.get(&Coordinates::new(1, 0, 1)), Cell::Owned(PlayerId::Second));
    assert_eq!(board.get(&Coordinates::new(0, 2, 0)), Cell::Owned(PlayerId::First));
    assert_eq!(board.get(&Coordinates::new(1, 1, 0)), Cell::Empty);
    assert_eq!(board.get(&Coordinates::new(2, 0, 0)), Cell::Empty);
}

#[test]
fn encode_of_decode_is_the_same_text() {
    for layout in ["./../...", "B/.R/B..", "R/RB/BRB", "./B./.R./...B"] {
        let size = layout.split('/').count() as u32;
        let back = reencode(yen(size, 7, layout));
        assert_eq!(back.layout(), layout);
        assert_eq!(back.size(), size);
        assert_eq!(back.turn(), 7);
        assert_eq!(back.players(), &vec!['B', 'R']);
    }
}

#[test]
fn decode_of_encode_is_the_same_board() {
    let cells = vec![
        Cell::Owned(PlayerId::Second),
        Cell::Empty,
        Cell::Owned(PlayerId::First),
        Cell::Empty,
        Cell::Empty,
        Cell::Owned(PlayerId::Second),
    ];
    let board = Board::new(3, cells.clone()).unwrap();
    let text = YEN::from_board(&board, 4, vec!['x', 'o']);
    assert_eq!(text.layout(), "o/.x/..o");
    assert_eq!(text.turn(), 4);
    let back = text.to_board().unwrap();
    for (i, cell) in cells.iter().enumerate() {
        assert_eq!(back.cell_at(i), *cell);
    }
}

#[test]
fn empty_board_of_side_three() {
    let game = GameY::try_from(yen(3, 0, "./../...")).unwrap();
    assert_eq!(game.turn(), 0);
    assert_eq!(game.board().size(), 3);
    for i in 0..6 {
        assert_eq!(game.board().cell_at(i), Cell::Empty);
    }
    assert_eq!(game.to_yen().layout(), "./../...");
}

#[test]
fn smallest_board() {
    let board = yen(1, 0, ".").to_board().unwrap();
    assert_eq!(board.cell_count(), 1);
    assert_eq!(board.get(&Coordinates::new(0, 0, 0)), Cell::Empty);
}

#[test]
fn players_must_be_two() {
    let one = YEN::new(1, 0, vec!['B'], ".".to_string());
    assert_eq!(one.to_board().err(), Some(YenError::InvalidPlayers));
    let three = YEN::new(1, 0, vec!['B', 'R', 'G'], ".".to_string());
    assert_eq!(three.to_board().err(), Some(YenError::InvalidPlayers));
    let none = YEN::new(1, 0, vec![], ".".to_string());
    assert_eq!(none.to_board().err(), Some(YenError::InvalidPlayers));
}

#[test]
fn players_must_differ() {
    let same = YEN::new(1, 0, vec!['B', 'B'], ".".to_string());
    assert_eq!(same.to_board().err(), Some(YenError::InvalidPlayers));
}

#[test]
fn players_are_checked_before_the_layout() {
    let y = YEN::new(3, 0, vec!['B', 'B'], "??".to_string());
    assert_eq!(y.to_board().err(), Some(YenError::InvalidPlayers));
}

#[test]
fn row_count_must_be_the_size() {
    assert_eq!(
        yen(3, 0, "./..").to_board().err(),
        Some(YenError::RowCount { expected: 3, found: 2 })
    );
    assert_eq!(
        yen(2, 0, "./../...").to_board().err(),
        Some(YenError::RowCount { expected: 2, found: 3 })
    );
}

#[test]
fn size_zero_has_no_layout() {
    // the empty text is one empty row
    assert_eq!(
        yen(0, 0, "").to_board().err(),
        Some(YenError::RowCount { expected: 0, found: 1 })
    );
}

#[test]
fn trailing_separator_is_one_more_row() {
    assert_eq!(
        yen(2, 0, "./../").to_board().err(),
        Some(YenError::RowCount { expected: 2, found: 3 })
    );
}

#[test]
fn row_length_must_be_row_plus_one() {
    assert_eq!(
        yen(3, 0, "./.../..").to_board().err(),
        Some(YenError::RowLength { row: 1, found: 3 })
    );
    assert_eq!(
        yen(3, 0, "/../...").to_board().err(),
        Some(YenError::RowLength { row: 0, found: 0 })
    );
    assert_eq!(
        yen(1, 0, "").to_board().err(),
        Some(YenError::RowLength { row: 0, found: 0 })
    );
}

#[test]
fn first_wrong_row_is_reported() {
    assert_eq!(
        yen(3, 0, "./B/R").to_board().err(),
        Some(YenError::RowLength { row: 1, found: 1 })
    );
}

#[test]
fn row_lengths_are_checked_before_symbols() {
    assert_eq!(
        yen(2, 0, "?/.").to_board().err(),
        Some(YenError::RowLength { row: 1, found: 1 })
    );
}

#[test]
fn symbols_must_be_known() {
    assert_eq!(
        yen(3, 0, "./.X/...").to_board().err(),
        Some(YenError::UnknownSymbol { row: 1, col: 1, symbol: 'X' })
    );
    assert_eq!(
        yen(3, 0, "./../b.?").to_board().err(),
        Some(YenError::UnknownSymbol { row: 2, col: 0, symbol: 'b' })
    );
}

#[test]
fn symbols_count_characters_not_bytes() {
    let y = YEN::new(2, 0, vec!['é', '日'], "é/.日".to_string());
    let board = y.to_board().unwrap();
    assert_eq!(board.cell_at(0), Cell::Owned(PlayerId::First));
    assert_eq!(board.cell_at(1), Cell::Empty);
    assert_eq!(board.cell_at(2), Cell::Owned(PlayerId::Second));
    assert_eq!(YEN::from_board(&board, 0, vec!['é', '日']).layout(), "é/.日");
}

#[test]
fn try_from_reports_the_codec_error() {
    assert_eq!(
        GameY::try_from(yen(3, 0, "./..")).err(),
        Some(YenError::RowCount { expected: 3, found: 2 })
    );
}

#[test]
fn a_dot_is_always_an_empty_cell() {
    // with '.' as the first player's symbol, the text cannot show that player's stones
    let y = YEN::new(2, 0, vec!['.', 'R'], "./R.".to_string());
    let board = y.to_board().unwrap();
    assert_eq!(board.cell_at(0), Cell::Empty);
    assert_eq!(board.cell_at(1), Cell::Owned(PlayerId::Second));
    assert_eq!(board.cell_at(2), Cell::Empty);
}

#[test]
fn board_needs_a_size() {
    assert_eq!(Board::new(0, vec![]).err(), Some(BoardError::InvalidSize));
}

#[test]
fn board_needs_all_its_cells() {
    assert_eq!(Board::new(2, vec![Cell::Empty; 2]).err(), Some(BoardError::InvalidSize));
    assert_eq!(Board::new(2, vec![Cell::Empty; 4]).err(), Some(BoardError::InvalidSize));
    assert!(Board::new(2, vec![Cell::Empty; 3]).is_ok());
    assert!(Board::new(4, vec![Cell::Empty; 10]).is_ok());
}

#[test]
fn board_lists_coordinates_in_row_major_order() {
    let board = Board::new(3, vec![Cell::Empty; 6]).unwrap();
    let expected = vec![
        Coordinates::new(0, 0, 2),
        Coordinates::new(0, 1, 1),
        Coordinates::new(1, 0, 1),
        Coordinates::new(0, 2, 0),
        Coordinates::new(1, 1, 0),
        Coordinates::new(2, 0, 0),
    ];
    assert_eq!(board.coordinates(), expected);
    for (i, c) in expected.iter().enumerate() {
        assert_eq!(c.to_index(3), i);
        assert!(board.contains(c));
    }
}

#[test]
fn board_set_changes_one_cell() {
    let mut board = Board::new(3, vec![Cell::Empty; 6]).unwrap();
    board.set(&Coordinates::new(1, 0, 1), Cell::Owned(PlayerId::Second));
    for i in 0..6 {
        let expected = if i == 2 { Cell::Owned(PlayerId::Second) } else { Cell::Empty };
        assert_eq!(board.cell_at(i), expected);
    }
    assert_eq!(board.get(&Coordinates::new(1, 0, 1)), Cell::Owned(PlayerId::Second));
}

#[test]
fn board_contains_only_triples_of_the_right_sum() {
    let board = Board::new(3, vec![Cell::Empty; 6]).unwrap();
    assert!(board.contains(&Coordinates::new(1, 1, 0)));
    assert!(!board.contains(&Coordinates::new(1, 1, 1)));
    assert!(!board.contains(&Coordinates::new(0, 0, 0)));
    assert!(!board.contains(&Coordinates::new(3, 0, 0)));
    assert!(!board.contains(&Coordinates::new(u32::MAX, u32::MAX, 4)));
}
