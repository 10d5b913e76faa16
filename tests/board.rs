use othello::board::Board;

#[test]
fn board_default_test() {
    let mut b = Board::default();

    assert_eq!(b.available_moves(), &[19, 26, 37, 44]);
    b.make_move(44);
    // assert_eq!(b.make_move(44), new(44, 'B', vec![36], 4, 1));
    assert_eq!(b.current_player, 1);

    assert_eq!(b.available_moves(), &[29, 43, 45]);
    b.make_move(29);
    // assert_eq!(b.make_move(29), new(29, 'W', vec![28], 3, 3));
    assert_eq!(b.current_player, 0);

    assert_eq!(b.__repr__(), "\n........\n........\n..?????.\n...WWW..\n...BB...\n....B...\n........\n........\nB to play. Available moves: [18, 19, 20, 21, 22]");
}

#[test]
fn first_move_gives_four_to_one_and_swaps_the_player() {
    let mut b = Board::default();
    assert_eq!(b.current_player, 0);
    let s = b.make_move(44);
    assert_eq!(b.current_player, 1);
    assert_eq!(s.player, 'W');
    assert_eq!((s.black_score, s.white_score), (4, 1));
    assert_eq!(b.board.count(), (1, 4));
    assert!(!s.ended);
    assert!(s.can_move);
    assert_eq!(s, b.state);
}

#[test]
fn initial_state_summary() {
    let b = Board::default();
    let s = &b.state;
    assert_eq!(s.player, 'B');
    assert_eq!((s.black_score, s.white_score), (2, 2));
    assert_eq!(s.cells.len(), 64);
    assert_eq!(s.cells[27], 'W');
    assert_eq!(s.cells[28], 'B');
    assert_eq!(s.cells[19], '?');
    assert_eq!(s.cells[0], '.');
    assert!(b.__repr__().ends_with("B to play. Available moves: [19, 26, 37, 44]"));
}

#[test]
fn pass_swaps_the_player_only() {
    let mut b = Board::default();
    let before = b.board;
    let s = b.pass_move();
    assert_eq!(b.current_player, 1);
    assert_eq!(s.player, 'W');
    assert_eq!(b.board.get(), [before.1, before.0]);
    assert_eq!((s.black_score, s.white_score), (2, 2));
}

#[test]
fn finished_game_reports_the_winner() {
    let mut b = Board::default();
    // Black takes everything: white has no discs and nobody can move.
    b.board = othello::bits::BitBoard(u64::MAX, 0);
    b.pass_move();
    b.pass_move();
    assert!(b.state.ended);
    assert!(!b.state.can_move);
    assert_eq!((b.state.black_score, b.state.white_score), (64, 0));
    assert!(b.__repr__().ends_with("Black won!"));
}
