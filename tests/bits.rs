use othello::bits::BitBoard;

const DIRS: [(i32, i32); 8] = [(-1, -1), (-1, 0), (-1, 1), (0, -1), (0, 1), (1, -1), (1, 0), (1, 1)];

fn set(m: u64, i: i32) -> bool {
    (m >> i) & 1 == 1
}

/// Flips by walking each ray cell by cell.
fn walked_flips(own: u64, opp: u64, place: i32) -> u64 {
    let mut all = 0u64;
    for (dr, dc) in DIRS {
        let (mut r, mut c) = (place / 8 + dr, place % 8 + dc);
        let mut run = 0u64;
        while (0..8).contains(&r) && (0..8).contains(&c) && set(opp, r * 8 + c) {
            run |= 1 << (r * 8 + c);
            r += dr;
            c += dc;
        }
        if run != 0 && (0..8).contains(&r) && (0..8).contains(&c) && set(own, r * 8 + c) {
            all |= run;
        }
    }
    all
}

fn walked_move(b: &BitBoard, place: i32) -> Option<BitBoard> {
    if set(b.0 | b.1, place) {
        return None;
    }
    let f = walked_flips(b.0, b.1, place);
    if f == 0 {
        None
    } else {
        Some(BitBoard(b.1 & !f, b.0 | f | 1 << place))
    }
}

fn check_tree(b: &BitBoard, plies: u32) {
    assert_eq!(b.0 & b.1, 0);
    let moves = b.available_moves();
    assert_eq!(moves & (b.0 | b.1), 0);
    for place in 0..64 {
        let fast = b.make_move(place as usize);
        let slow = walked_move(b, place);
        assert_eq!(fast, slow, "cell {}", place);
        assert_eq!(fast.is_some(), set(moves, place));
        if plies > 0 {
            if let Some(n) = fast {
                check_tree(&n, plies - 1);
            }
        }
    }
    if moves == 0 && plies > 0 {
        check_tree(&b.pass_move(), plies - 1);
    }
}

#[test]
fn bits_default_test() {
    let x = BitBoard::default();
    assert_eq!(x.available_moves(), 0x0000_1020_0408_0000);

    let x = x.make_move(44).unwrap();
    assert_eq!(x.get(), [0x0000_0000_0800_0000, 0x0000_1018_1000_0000]);
    assert_eq!(x.count(), (1, 4));
}

#[test]
fn initial_moves_are_the_four_diagonal_neighbours() {
    let x = BitBoard::default();
    assert_eq!(x.available_moves_list(), vec![19, 26, 37, 44]);
    assert_eq!(x.count(), (2, 2));
}

#[test]
fn pass_twice_restores_the_position() {
    let x = BitBoard::default().make_move(19).unwrap();
    let p = x.pass_move();
    assert_eq!(p.get(), [x.1, x.0]);
    assert_eq!(p.pass_move(), x);
}

#[test]
fn occupied_or_capturing_nothing_is_refused() {
    let x = BitBoard::default();
    assert_eq!(x.make_move(27), None);
    assert_eq!(x.make_move(28), None);
    assert_eq!(x.make_move(0), None);
    assert_eq!(x.make_move(20), None);
}

#[test]
fn flips_in_several_directions_at_once() {
    // Own discs at 0, 7 and 56 (three corners); opponent on the rays from 63
    // back to them stops short so that only two rays close.
    let own: u64 = 1 << 0 | 1 << 7 | 1 << 56;
    let mut opp: u64 = 0;
    for i in [9, 18, 27, 36, 45, 54, 15, 23, 31, 39, 47, 55] {
        opp |= 1u64 << i;
    }
    let b = BitBoard(own, opp);
    let n = b.make_move(63).unwrap();
    let diag: u64 = [9, 18, 27, 36, 45, 54].iter().fold(0, |m, i| m | 1u64 << i);
    let col: u64 = [15, 23, 31, 39, 47, 55].iter().fold(0, |m, i| m | 1u64 << i);
    assert_eq!(n.0, 0);
    assert_eq!(n.1, own | diag | col | 1 << 63);
    assert_eq!(walked_move(&b, 63), Some(n));
}

#[test]
fn no_wrap_around_the_board_edge() {
    // Opponent at 7, own at 8: the cell after 7 in the row is 8 only by
    // wrapping, so placing at 6 captures nothing.
    let b = BitBoard(1 << 8, 1 << 7);
    assert_eq!(b.make_move(6), None);
    assert_eq!(b.available_moves() >> 6 & 1, 0);
}

#[test]
fn move_application_matches_the_sandwich_rule() {
    check_tree(&BitBoard::default(), 3);
}

#[test]
fn a_move_adds_exactly_one_disc() {
    let mut b = BitBoard::default();
    for _ in 0..20 {
        let moves = b.available_moves_list();
        if moves.is_empty() {
            b = b.pass_move();
            continue;
        }
        let (a0, a1) = b.count();
        let n = b.make_move(moves[moves.len() / 2]).unwrap();
        let (c0, c1) = n.count();
        assert_eq!(c0 + c1, a0 + a1 + 1);
        assert_eq!(n.0 & n.1, 0);
        b = n;
    }
}
