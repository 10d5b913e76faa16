use othello::ai::{AlphaBetaBot, AlphaBetaEval, Bot};
use othello::bits::BitBoard;
use othello::board::Board;
use rand::rngs::StdRng;
use rand::SeedableRng;

fn split(own_count: u32) -> BitBoard {
    let own = if own_count == 64 { u64::MAX } else { (1u64 << own_count) - 1 };
    BitBoard(own, !own)
}

#[test]
fn test() {
    let mut b = Board::default();
    let ai = [AlphaBetaBot::new(3, 0), AlphaBetaBot::new(6, 10)];

    while !b.state.ended {
        let pos = ai[b.current_player].find_move(&b);
        if pos < 0 {
            b.pass_move();
            println!("PASS");
        } else {
            b.make_move(pos as usize);
            println!("{}\n---\n", b.__repr__());
        }
    }
    // Which side wins depends on the random move order; the game itself must
    // end with neither side able to move and every placement counted.
    assert!(b.board.available_moves() == 0 && b.board.pass_move().available_moves() == 0);
    assert!(b.state.black_score + b.state.white_score <= 64);
}

#[test]
fn wider_wins_rank_higher_and_wider_losses_lower() {
    let e = AlphaBetaEval { count: 64 };
    let w40 = e.final_evaluate(&split(40));
    let w33 = e.final_evaluate(&split(33));
    let l31 = e.final_evaluate(&split(31));
    let l20 = e.final_evaluate(&split(20));
    assert!(w40 > w33);
    assert!(l20 < l31);
    assert_eq!(w40, i32::MAX - 48);
    assert_eq!(w33, i32::MAX - 62);
    assert_eq!(l31, -i32::MAX + 62);
    assert_eq!(l20, -i32::MAX + 40);
    assert_eq!(e.final_evaluate(&split(32)), 0);
}

#[test]
fn heuristic_values() {
    assert_eq!(AlphaBetaEval { count: 4 }.evaluate(&BitBoard::default()), 0);
    // Rows 0-4 against rows 5-7: weights 380 - 372, no moves, and
    // 2 * (64 - 54) * (40 - 24) for the disc margin.
    assert_eq!(AlphaBetaEval { count: 64 }.evaluate(&split(40)), 328);
    assert_eq!(AlphaBetaEval { count: 50 }.evaluate(&split(40)), 8);
    // A corner against the cell diagonal to it: 300 + 80 by weight, and the
    // side to move can capture at 18 while the other side cannot move.
    assert_eq!(AlphaBetaEval { count: 2 }.evaluate(&BitBoard(1, 1 << 9)), 300 + 80 + 10);
}

#[test]
fn search_returns_a_legal_move() {
    let bot = AlphaBetaBot::new(3, 0);
    let mut rng = StdRng::seed_from_u64(7);
    let mut b = BitBoard::default();
    for _ in 0..30 {
        let moves = b.available_moves_list();
        let m = bot.search_move(&b, &mut rng);
        if moves.is_empty() {
            assert_eq!(m, -1);
            b = b.pass_move();
            if b.available_moves() == 0 {
                break;
            }
            continue;
        }
        assert!(m >= 0 && moves.contains(&(m as usize)));
        b = b.make_move(m as usize).unwrap();
    }
}

#[test]
fn search_reports_no_move_when_there_is_none() {
    let bot = AlphaBetaBot::new(4, 10);
    let mut rng = StdRng::seed_from_u64(1);
    assert_eq!(bot.search_move(&split(40), &mut rng), -1);
    // White alone on the board: black cannot capture anything.
    assert_eq!(bot.search_move(&BitBoard(0, 1 << 27), &mut rng), -1);
    let zero = AlphaBetaBot::new(0, 0);
    assert_eq!(zero.search_move(&BitBoard::default(), &mut rng), 19);
}

#[test]
fn search_finds_the_only_move() {
    // Own at 0, opponent at 1: only 2 captures.
    let bot = AlphaBetaBot::new(2, 0);
    let mut rng = StdRng::seed_from_u64(3);
    assert_eq!(bot.search_move(&BitBoard(1, 2), &mut rng), 2);
    let g = Board::default();
    let m = bot.find_move(&g);
    assert!([19, 26, 37, 44].contains(&m));
}

#[test]
fn playout_ends_within_sixty_moves() {
    let bots = [AlphaBetaBot::new(2, 4), AlphaBetaBot::new(3, 6)];
    let mut rng = StdRng::seed_from_u64(11);
    let mut g = Board::default();
    let mut placed = 0;
    let mut turns = 0;
    while !g.state.ended {
        turns += 1;
        assert!(turns < 200);
        let m = bots[g.current_player].search_move(&g.board, &mut rng);
        if m < 0 {
            assert!(g.available_moves().is_empty());
            g.pass_move();
        } else {
            g.make_move(m as usize);
            placed += 1;
        }
    }
    assert!(placed <= 60);
    assert_eq!(g.board.available_moves(), 0);
    assert_eq!(g.board.pass_move().available_moves(), 0);
    let (a, b) = g.board.count();
    assert_eq!(a + b, 4 + placed);
}

fn exact(b: &BitBoard) -> i32 {
    let moves = b.available_moves_list();
    if moves.is_empty() {
        let p = b.pass_move();
        if p.available_moves() == 0 {
            return AlphaBetaEval { count: 64 }.final_evaluate(b);
        }
        return -exact(&p);
    }
    moves.iter().map(|&m| -exact(&b.make_move(m).unwrap())).max().unwrap()
}

#[test]
fn endgame_search_plays_a_best_move() {
    let mut b = BitBoard::default();
    let mut k = 0usize;
    loop {
        let (a, c) = b.count();
        if a + c >= 56 {
            break;
        }
        let moves = b.available_moves_list();
        if moves.is_empty() {
            b = b.pass_move();
            if b.available_moves() == 0 {
                break;
            }
            continue;
        }
        b = b.make_move(moves[(k * 7) % moves.len()]).unwrap();
        k += 1;
    }
    let bot = AlphaBetaBot::new(1, 12);
    let mut rng = StdRng::seed_from_u64(5);
    let m = bot.search_move(&b, &mut rng);
    if b.available_moves() == 0 {
        assert_eq!(m, -1);
    } else {
        let best = exact(&b);
        assert_eq!(-exact(&b.make_move(m as usize).unwrap()), best);
    }
}
