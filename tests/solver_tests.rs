use arrayvec::ArrayVec;
use solver::{Game, Move, Moves};

fn columns(items: &[Move]) -> ArrayVec<Move, 10> {
    let mut v = ArrayVec::<Move, 10>::new();
    for &x in items {
        v.push(x);
    }
    v
}

#[test]
fn test_heuristics() {
    let mut game = Game::new_xo(3, 3, 3);

    game.place((0, 0));
    game.place((1, 0));
    game.place((0, 1));
    game.place((2, 0));

    assert_eq!(game.best_move(), game.pos_to_move((0, 2)));
}

#[test]
fn test_algo8() {
    let mut game = Game::new_xo(4, 4, 3);

    game.best_move(); // fills the transposition table
    game.place((1, 1));
    game.place((1, 0));

    println!("{}", game.board.render(true));

    assert_eq!(game.best_move(), game.pos_to_move((2, 1)));
}

#[test]
fn test_algo9() {
    let mut game = Game::new_xo(4, 4, 3);

    game.best_move(); // fills the transposition table
    game.place((0, 1));
    game.place((0, 2));
    game.place((2, 3));
    game.place((1, 2));

    println!("{}", game.board.render(true));

    assert_eq!(game.best_move(), game.pos_to_move((2, 2)));
}

#[test]
fn test_algo10() {
    let mut game = Game::new_xo(3, 3, 3);

    game.place((0, 0));
    game.place((0, 2));
    assert_ne!(game.best_move(), game.pos_to_move((1, 1)));
}

#[test]
fn test_algo2() {
    let mut game = Game::new_xo(3, 3, 3);

    game.place((0, 0)); // X
    game.place((1, 1)); // O
    game.place((0, 1)); // X
    assert_eq!(game.best_move(), game.pos_to_move((0, 2)));
}

#[test]
fn test_algo1() {
    let mut game = Game::new_xo(3, 3, 3);

    game.place((0, 0));
    assert_eq!(game.best_move(), game.pos_to_move((1, 1)));
}

#[test]
fn test_algo3() {
    let mut game = Game::new_xo(3, 3, 3);

    game.place((0, 0)); // X
    println!("{}", game.board.render(true));
    game.place((0, 1)); // O
    assert_ne!(game.best_move(), game.pos_to_move((0, 2)));
}

#[test]
fn test_algo4() {
    let mut game = Game::new_xo(3, 3, 3);

    game.place((0, 0)); // X
    game.place((0, 1)); // O
    game.place((1, 1)); // X
    game.place((2, 2)); // O
    let best_move = game.best_move();
    assert!(best_move == game.pos_to_move((1, 0)) || best_move == game.pos_to_move((2, 0)));
}

#[test]
fn test_algo5() {
    let mut game = Game::new_xo(3, 3, 3);

    game.place((0, 0)); // X
    game.place((1, 1)); // O
    game.place((0, 1)); // X
    game.place((0, 2)); // O
    println!("{}", game.board.render(true));

    assert_eq!(game.best_move(), game.pos_to_move((2, 0)));
}

#[test]
fn test_algo6() {
    let mut game = Game::new_xo(3, 3, 3);

    game.place((0, 0));
    game.place((1, 0));
    game.place((1, 1));
    game.place((2, 2));
    game.place((0, 1));
    game.place((0, 2));

    println!("{}", game.board.render(true));

    assert_eq!(game.best_move(), game.pos_to_move((2, 1)));
}

#[test]
fn test_algo7() {
    let mut game = Game::new_xo(3, 3, 3);

    game.place((1, 1));
    game.place((0, 0));
    game.place((0, 1));

    println!("{}", game.board.render(true));

    assert_eq!(game.best_move(), game.pos_to_move((2, 1)));
}

#[test]
fn test_not_over() {
    let mut game = Game::new_xo(3, 3, 3);

    game.place((2, 0));
    println!("{}", game.board.render(true));
    assert!(!game.board.over());

    game.place((1, 1));
    println!("{}", game.board.render(true));
    assert!(!game.board.over());

    game.place((0, 2));
    println!("{}", game.board.render(true));
    assert!(!game.board.over());
}

#[test]
fn test_connect_4_move_generation() {
    let game = Game::new_connect_four(3, 3, 3);

    assert_eq!(game.board.generate_moves(), Moves::C4Moves(columns(&[0, 1, 2]), 0))
}

#[test]
fn test_xo_moves() {
    let mut moves = Moves::XOMoves(0b11101110111, 0);
    assert_eq!(moves.next().unwrap(), 0b1);
    assert_eq!(moves.next().unwrap(), 0b10);
    assert_eq!(moves.next().unwrap(), 0b100);

    assert_eq!(moves.next().unwrap(), 0b10000);
    assert_eq!(moves.next().unwrap(), 0b100000);
    assert_eq!(moves.next().unwrap(), 0b1000000);
}

#[test]
fn test_c4_moves() {
    let mut moves = Moves::C4Moves(columns(&[1, 2, 3, 4]), 0);
    assert_eq!(moves.next().unwrap(), 1);
    assert_eq!(moves.next().unwrap(), 2);
    assert_eq!(moves.next().unwrap(), 3);
    assert_eq!(moves.next().unwrap(), 4);
}

#[test]
fn test_c4_placement() {
    let mut game = Game::new_connect_four(3, 3, 3);

    game.board.placebit(0);
    assert_eq!(game.board.bitboards[0], 1);

    game.board.placebit(0);
    assert_eq!(game.board.bitboards[1], 0b10);
}

#[test]
fn test_c4_undo() {
    let mut game = Game::new_connect_four(3, 3, 3);

    game.board.placebit(2);
    assert_eq!(game.board.bitboards[0], 1 << 8);

    game.board.undo_move(2);
    assert_eq!(game.board.bitboards[0], 0);
}

#[test]
fn test_can_xo_play() {
    let mut game = Game::new_xo(3, 3, 3);

    assert!(game.can_play(1 << 2));
    game.place((0, 0));
    assert!(!game.can_play(1 << 2));
}

#[test]
fn test_can_c4_play() {
    let mut game = Game::new_connect_four(3, 3, 3);

    for _ in 0..3 {
        assert!(game.can_play(0));
        game.placebit(0);
    }

    assert!(!game.can_play(0));
}
