use tictactoe::board::Board;
use tictactoe::board::BoardState;
use tictactoe::board::MoveError;
use tictactoe::board::Player;
use tictactoe::board::Symbol;
use tictactoe::board::Tile;

fn path(coords: &[(u8, u8)]) -> Vec<(u8, u8)> {
    coords.to_vec()
}

#[test]
fn swap_alternates() {
    assert_eq!(Player::First.swap(), Player::Second);
    assert_eq!(Player::Second.swap(), Player::First);
    assert_eq!(Player::First.swap().swap(), Player::First);
}

#[test]
fn new_board_is_empty_and_running() {
    let b = Board::new(0);
    assert_eq!(b.tiles.len(), 9);
    assert_eq!(b.depth, 0);
    assert!(matches!(b.state(), BoardState::Running));
    for row in 1..=3u8 {
        for col in 1..=3u8 {
            assert_eq!(b.symbol_at(row, col), Symbol::Empty);
        }
    }
}

#[test]
fn new_deep_board_is_pending() {
    let b = Board::new(1);
    assert_eq!(b.depth, 1);
    assert!(matches!(b.state(), BoardState::Running));
    for row in 1..=3u8 {
        for col in 1..=3u8 {
            assert_eq!(b.symbol_at(row, col), Symbol::Pending);
        }
    }
}

#[test]
fn empty_cell_tile_is_not_occupied() {
    assert!(!Tile::Cell(None).is_occupied());
    assert!(Tile::Cell(Some(Player::First)).is_occupied());
    assert!(Tile::Cell(Some(Player::Second)).is_occupied());
}

#[test]
fn running_sub_tile_is_not_occupied() {
    let t = Tile::Sub(Box::new(Board::new(0)));
    assert!(!t.is_occupied());
}

#[test]
fn won_sub_tile_is_occupied() {
    let mut b = Board::new(0);
    assert_eq!(b.make_move(Player::First, &path(&[(1, 1)])), Ok(()));
    assert_eq!(b.make_move(Player::First, &path(&[(1, 2)])), Ok(()));
    assert_eq!(b.make_move(Player::First, &path(&[(1, 3)])), Ok(()));
    assert!(matches!(b.state(), BoardState::Complete(Some(Player::First))));
    let t = Tile::Sub(Box::new(b));
    assert!(t.is_occupied());
}

#[test]
fn make_move_rejects_occupied_cell() {
    let mut b = Board::new(0);
    assert_eq!(b.make_move(Player::First, &path(&[(2, 2)])), Ok(()));
    assert_eq!(
        b.make_move(Player::Second, &path(&[(2, 2)])),
        Err(MoveError::CellOccupied)
    );
    assert_eq!(b.symbol_at(2, 2), Symbol::Mark(Player::First));
}

#[test]
fn make_move_rejects_wrong_path_length() {
    let mut b = Board::new(0);
    assert_eq!(
        b.make_move(Player::First, &path(&[(1, 1), (2, 2)])),
        Err(MoveError::PathLength)
    );
    assert_eq!(
        b.make_move(Player::First, &path(&[])),
        Err(MoveError::PathLength)
    );
    let mut deep = Board::new(1);
    assert_eq!(
        deep.make_move(Player::First, &path(&[(1, 1)])),
        Err(MoveError::PathLength)
    );
    assert!(matches!(b.state(), BoardState::Running));
    assert!(matches!(deep.state(), BoardState::Running));
}

#[test]
fn column_win_is_detected() {
    let mut b = Board::new(0);
    assert_eq!(b.make_move(Player::Second, &path(&[(1, 2)])), Ok(()));
    assert_eq!(b.make_move(Player::Second, &path(&[(2, 2)])), Ok(()));
    assert_eq!(b.make_move(Player::Second, &path(&[(3, 2)])), Ok(()));
    assert!(matches!(
        b.state(),
        BoardState::Complete(Some(Player::Second))
    ));
}

#[test]
fn diagonal_win_is_detected() {
    let mut b = Board::new(0);
    assert_eq!(b.make_move(Player::First, &path(&[(1, 1)])), Ok(()));
    assert_eq!(b.make_move(Player::First, &path(&[(2, 2)])), Ok(()));
    assert_eq!(b.make_move(Player::First, &path(&[(3, 3)])), Ok(()));
    assert!(matches!(b.state(), BoardState::Complete(Some(Player::First))));
}

#[test]
fn anti_diagonal_win_is_detected() {
    let mut b = Board::new(0);
    assert_eq!(b.make_move(Player::First, &path(&[(1, 3)])), Ok(()));
    assert_eq!(b.make_move(Player::First, &path(&[(2, 2)])), Ok(()));
    assert_eq!(b.make_move(Player::First, &path(&[(3, 1)])), Ok(()));
    assert!(matches!(b.state(), BoardState::Complete(Some(Player::First))));
}

#[test]
fn two_in_a_line_is_no_win() {
    let mut b = Board::new(0);
    assert_eq!(b.make_move(Player::First, &path(&[(1, 1)])), Ok(()));
    assert_eq!(b.make_move(Player::First, &path(&[(1, 2)])), Ok(()));
    assert!(matches!(b.state(), BoardState::Running));
}

#[test]
fn mixed_line_is_no_win() {
    let mut b = Board::new(0);
    assert_eq!(b.make_move(Player::First, &path(&[(1, 1)])), Ok(()));
    assert_eq!(b.make_move(Player::Second, &path(&[(1, 2)])), Ok(()));
    assert_eq!(b.make_move(Player::First, &path(&[(1, 3)])), Ok(()));
    assert!(matches!(b.state(), BoardState::Running));
}

#[test]
fn full_board_without_line_is_drawn() {
    // X O X
    // X O O
    // O X X
    let mut b = Board::new(0);
    assert_eq!(b.make_move(Player::First, &path(&[(1, 1)])), Ok(()));
    assert_eq!(b.make_move(Player::Second, &path(&[(1, 2)])), Ok(()));
    assert_eq!(b.make_move(Player::First, &path(&[(1, 3)])), Ok(()));
    assert_eq!(b.make_move(Player::Second, &path(&[(2, 2)])), Ok(()));
    assert_eq!(b.make_move(Player::First, &path(&[(2, 1)])), Ok(()));
    assert_eq!(b.make_move(Player::Second, &path(&[(2, 3)])), Ok(()));
    assert_eq!(b.make_move(Player::First, &path(&[(3, 2)])), Ok(()));
    assert_eq!(b.make_move(Player::Second, &path(&[(3, 1)])), Ok(()));
    assert_eq!(b.make_move(Player::First, &path(&[(3, 3)])), Ok(()));
    assert!(matches!(b.state(), BoardState::Complete(None)));
}

#[test]
fn evaluate_is_pure_and_idempotent() {
    let mut b = Board::new(0);
    assert_eq!(b.make_move(Player::First, &path(&[(1, 1)])), Ok(()));
    assert_eq!(b.state(), b.state());
    let before = b.state();
    let rejected = b.make_move(Player::Second, &path(&[(1, 1)]));
    assert_eq!(rejected, Err(MoveError::CellOccupied));
    assert_eq!(b.state(), before);
}

#[test]
fn closed_sub_board_rejects_moves_into_empty_cells() {
    let mut b = Board::new(1);
    assert_eq!(b.make_move(Player::First, &path(&[(1, 1), (1, 1)])), Ok(()));
    assert_eq!(b.make_move(Player::First, &path(&[(1, 1), (1, 2)])), Ok(()));
    assert_eq!(b.make_move(Player::First, &path(&[(1, 1), (1, 3)])), Ok(()));
    assert_eq!(b.symbol_at(1, 1), Symbol::Mark(Player::First));
    // the cell (2, 2) of that sub-board is empty, yet the board is closed
    assert_eq!(
        b.make_move(Player::Second, &path(&[(1, 1), (2, 2)])),
        Err(MoveError::BoardClosed)
    );
    // the neighbouring sub-board is still open
    assert_eq!(b.make_move(Player::Second, &path(&[(1, 2), (2, 2)])), Ok(()));
}

#[test]
fn drawn_sub_board_shows_drawn_and_is_closed() {
    let mut b = Board::new(1);
    let cells = [
        (Player::First, (1, 1)),
        (Player::Second, (1, 2)),
        (Player::First, (1, 3)),
        (Player::Second, (2, 2)),
        (Player::First, (2, 1)),
        (Player::Second, (2, 3)),
        (Player::First, (3, 2)),
        (Player::Second, (3, 1)),
        (Player::First, (3, 3)),
    ];
    for (mark, cell) in cells {
        assert_eq!(b.make_move(mark, &path(&[(2, 2), cell])), Ok(()));
    }
    assert_eq!(b.symbol_at(2, 2), Symbol::Drawn);
    assert!(matches!(b.state(), BoardState::Running));
    assert_eq!(
        b.make_move(Player::First, &path(&[(2, 2), (1, 1)])),
        Err(MoveError::BoardClosed)
    );
}

#[test]
fn rejected_move_leaves_board_unchanged() {
    let mut b = Board::new(1);
    assert_eq!(b.make_move(Player::First, &path(&[(1, 1), (1, 1)])), Ok(()));
    let mut twin = Board::new(1);
    assert_eq!(
        twin.make_move(Player::First, &path(&[(1, 1), (1, 1)])),
        Ok(())
    );
    assert_eq!(b, twin);
    assert_eq!(
        b.make_move(Player::Second, &path(&[(1, 1), (1, 1)])),
        Err(MoveError::CellOccupied)
    );
    assert_eq!(b, twin);
    assert_eq!(
        b.make_move(Player::Second, &path(&[(1, 1)])),
        Err(MoveError::PathLength)
    );
    assert_eq!(b, twin);
}
