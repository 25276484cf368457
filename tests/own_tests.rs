use arrayvec::ArrayVec;
use solver::{turns_to_win, BoardKind, Game, Move, Moves, Player};

fn columns(items: &[Move]) -> ArrayVec<Move, 10> {
    let mut v = ArrayVec::<Move, 10>::new();
    for &x in items {
        v.push(x);
    }
    v
}

fn xo_after(moves: &[(u32, u32)]) -> Game {
    let mut game = Game::new_xo(3, 3, 3);
    for &m in moves {
        game.place(m);
    }
    game
}

#[test]
fn best_move_repeats_with_warm_and_cleared_table() {
    let mut game = xo_after(&[(0, 0)]);
    let first = game.best_move();
    let again = game.best_move();
    game.solver.clear_transpositions();
    let cleared = game.best_move();
    assert_eq!(first, again);
    assert_eq!(first, cleared);
}

#[test]
fn evaluation_same_with_warm_and_cleared_table() {
    let mut game = xo_after(&[(0, 0), (0, 1)]);
    let warm_move = game.best_move();
    let warm = game.evaluation();
    game.solver.clear_transpositions();
    let cold = game.evaluation();
    game.solver.clear_transpositions();
    let cold_move = game.best_move();
    assert_eq!(warm, cold);
    assert_eq!(warm_move, cold_move);
}

#[test]
fn search_leaves_board_unchanged() {
    let mut game = xo_after(&[(1, 1), (0, 0)]);
    let before = game.board.bitboards;
    let text = game.render();
    game.best_move();
    game.evaluation();
    assert_eq!(game.board.bitboards, before);
    assert_eq!(game.render(), text);
}

#[test]
fn undo_restores_free_placement_board() {
    let mut game = xo_after(&[(0, 0)]);
    let before = game.board.bitboards;
    let mov = game.pos_to_move((2, 2));
    game.board.placebit(mov);
    assert_ne!(game.board.bitboards, before);
    game.board.undo_move(mov);
    assert_eq!(game.board.bitboards, before);
    // O is to move again: the next piece lands in O's bitboard
    game.board.placebit(mov);
    assert_eq!(game.board.bitboards[1], mov);
}

#[test]
fn undo_restores_gravity_column() {
    let mut game = Game::new_connect_four(3, 3, 3);
    game.placebit(1);
    game.placebit(1);
    let before = game.board.bitboards;
    game.board.placebit(1);
    assert_eq!(game.board.bitboards[0], (1 << 4) | (1 << 6));
    game.board.undo_move(1);
    assert_eq!(game.board.bitboards, before);
    // the counter went back too: the column takes one more piece, at the same cell
    assert!(game.can_play(1));
    game.board.placebit(1);
    assert_eq!(game.board.bitboards[0], (1 << 4) | (1 << 6));
    assert!(!game.can_play(1));
}

#[test]
fn gravity_column_fills_upwards() {
    let mut game = Game::new_connect_four(3, 3, 3);
    assert!(game.can_play(0));
    game.placebit(0);
    assert_eq!(game.board.bitboards, [0b1, 0]);
    assert!(game.can_play(0));
    game.placebit(0);
    assert_eq!(game.board.bitboards, [0b1, 0b10]);
    assert!(game.can_play(0));
    game.placebit(0);
    assert_eq!(game.board.bitboards, [0b101, 0b10]);
    assert!(!game.can_play(0));
    assert!(game.can_play(1));
}

#[test]
fn immediate_win_is_chosen() {
    let mut game = xo_after(&[(0, 0), (1, 0), (0, 1), (2, 0)]);
    assert_eq!(game.best_move(), game.pos_to_move((0, 2)));
    assert_eq!(game.evaluation(), 1);
}

#[test]
fn four_by_four_with_cold_table() {
    let mut game = Game::new_xo(4, 4, 3);
    game.place((1, 1));
    game.place((1, 0));
    assert_eq!(game.best_move(), game.pos_to_move((2, 1)));
}

#[test]
fn drawn_board_evaluates_to_zero() {
    // X O X
    // X O O
    // O X X
    let mut game = xo_after(&[
        (0, 0),
        (0, 1),
        (0, 2),
        (1, 1),
        (1, 0),
        (1, 2),
        (2, 1),
        (2, 0),
        (2, 2),
    ]);
    assert!(game.board.over());
    assert!(!game.board.has_won(Player::X));
    assert!(!game.board.has_won(Player::O));
    assert_eq!(game.evaluation(), 0);
}

#[test]
fn empty_three_by_three_is_a_draw() {
    let mut game = Game::new_xo(3, 3, 3);
    assert_eq!(game.evaluation(), 0);
}

#[test]
fn evaluation_negative_when_o_wins() {
    // O to move, O completes the middle row
    let mut game = xo_after(&[(0, 0), (1, 0), (2, 2), (1, 1), (0, 2)]);
    assert_eq!(game.evaluation(), -1);
    assert_eq!(game.best_move(), game.pos_to_move((1, 2)));
}

#[test]
fn turns_round_up() {
    assert_eq!(turns_to_win(0), 0);
    assert_eq!(turns_to_win(1), 1);
    assert_eq!(turns_to_win(2), 1);
    assert_eq!(turns_to_win(3), 2);
    assert_eq!(turns_to_win(-3), 2);
    assert_eq!(turns_to_win(-4), 2);
}

#[test]
fn wins_in_every_direction() {
    let vertical = xo_after(&[(0, 0), (0, 1), (1, 0), (1, 1), (2, 0)]);
    assert!(vertical.board.has_won(Player::X));
    let horizontal = xo_after(&[(1, 0), (0, 0), (1, 1), (0, 1), (1, 2)]);
    assert!(horizontal.board.has_won(Player::X));
    let diagonal = xo_after(&[(0, 0), (0, 1), (1, 1), (0, 2), (2, 2)]);
    assert!(diagonal.board.has_won(Player::X));
    let anti = xo_after(&[(2, 0), (0, 0), (1, 1), (0, 1), (0, 2)]);
    assert!(anti.board.has_won(Player::X));
    assert!(anti.board.over());
    assert!(!anti.board.has_won(Player::O));
}

#[test]
fn long_row_needs_every_cell() {
    let mut game = Game::new_xo(6, 6, 5);
    // X on row 0 at columns 0, 1, 3, 4; O on row 5
    for (x, o) in [((0, 0), (5, 0)), ((0, 1), (5, 1)), ((0, 3), (5, 2)), ((0, 4), (5, 4))] {
        game.place(x);
        game.place(o);
    }
    assert!(!game.board.has_won(Player::X));
    game.place((0, 2));
    assert!(game.board.has_won(Player::X));
}

#[test]
fn lines_do_not_wrap_between_columns() {
    // X holds the two upper cells of column 0 and the bottom cell of column 1: consecutive bits
    // but for the sentinel between the columns
    let game = xo_after(&[(1, 0), (0, 2), (0, 0), (2, 2), (2, 1)]);
    assert_eq!(game.board.bitboards[0], 0b10110);
    assert!(!game.board.has_won(Player::X));
    assert!(!game.board.over());
}

#[test]
fn gravity_four_in_a_column() {
    let mut game = Game::new_connect_four(4, 4, 4);
    for _ in 0..3 {
        game.placebit(0);
        game.placebit(1);
    }
    assert!(!game.board.over());
    game.placebit(0);
    assert!(game.board.has_won(Player::X));
    assert!(game.board.over());
}

#[test]
fn render_grid_and_bitboards() {
    let game = xo_after(&[(0, 0), (1, 1)]);
    assert_eq!(game.render(), "X..\n.O.\n...\n");
    assert_eq!(game.board.render(true), "X..\n.O.\n...\n\nX: 100\nO: 100000");
    let empty = Game::new_xo(2, 1, 1);
    assert_eq!(empty.board.render(true), "..\n\nX: 0\nO: 0");
}

#[test]
fn free_cells_in_ascending_order() {
    let game = Game::new_xo(2, 2, 2);
    let mut moves = game.board.generate_moves();
    assert_eq!(moves.next(), Some(0b1));
    assert_eq!(moves.next(), Some(0b10));
    assert_eq!(moves.next(), Some(0b1000));
    assert_eq!(moves.next(), Some(0b10000));
    assert_eq!(moves.next(), None);
    assert_eq!(moves.next(), None);
}

#[test]
fn full_columns_are_skipped() {
    let mut game = Game::new_connect_four(3, 1, 1);
    game.placebit(1);
    assert_eq!(game.board.generate_moves(), Moves::C4Moves(columns(&[0, 2]), 0));
    let mut list = Moves::C4Moves(columns(&[]), 0);
    assert_eq!(list.next(), None);
}

#[test]
fn can_play_refuses_after_game_over() {
    let game = xo_after(&[(0, 0), (1, 0), (0, 1), (2, 0), (0, 2)]);
    assert!(game.board.over());
    assert!(!game.can_play(game.pos_to_move((2, 2))));
}

#[test]
fn shapes_that_fit() {
    assert!(Game::fits(7, 8, 4, BoardKind::C4Board));
    assert!(Game::fits(3, 3, 3, BoardKind::XOBoard));
    assert!(Game::fits(4, 15, 4, BoardKind::XOBoard));
    assert!(!Game::fits(8, 8, 4, BoardKind::XOBoard));
    assert!(!Game::fits(11, 4, 4, BoardKind::C4Board));
    assert!(Game::fits(11, 4, 4, BoardKind::XOBoard));
    assert!(!Game::fits(0, 3, 3, BoardKind::XOBoard));
    assert!(!Game::fits(3, 3, 0, BoardKind::XOBoard));
}

#[test]
fn full_sixty_four_bit_board() {
    // 4 columns of 15 cells plus sentinels use all 64 bits
    let mut game = Game::new(4, 15, 4, BoardKind::XOBoard);
    let mut moves = game.board.generate_moves();
    let mut count = 0;
    let mut last = 0;
    while let Some(m) = moves.next() {
        count += 1;
        last = m;
    }
    assert_eq!(count, 60);
    assert_eq!(last, 1 << 62);
    game.place((0, 3));
    assert_eq!(game.board.bitboards[0], 1 << 62);
}
