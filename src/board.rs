//! Turn bookkeeping around a position: whose turn it is, the scores by
//! colour, and a text rendering.
use crate::bits::{is_set, legal_cells, ones, BitBoard};
use vstd::prelude::*;

verus! {

/// Letter of player 0 (black) or 1 (white).
pub open spec fn player_char(p: int) -> char {
    if p == 0 {
        'B'
    } else {
        'W'
    }
}

/// What cell `i` shows when player `p` is to move in `b`: a letter for a
/// disc, `?` for a legal placement, `.` otherwise.
pub open spec fn cell_char(b: BitBoard, p: int, i: int) -> char {
    if is_set(b.0, i) {
        player_char(p)
    } else if is_set(b.1, i) {
        player_char(1 - p)
    } else if b.legal_at(i) {
        '?'
    } else {
        '.'
    }
}

/// Neither side can place a disc.
pub open spec fn game_over(b: BitBoard) -> bool {
    !b.has_move() && !b.pass_move_spec().has_move()
}

/// Relies on `String::push`: appends one character.
#[verifier::external_body]
fn push_char(s: &mut String, c: char)
    ensures
        final(s)@ == old(s)@.push(c),
{
    s.push(c)
}

pub open spec fn digit_char(d: int) -> char {
    seq!['0', '1', '2', '3', '4', '5', '6', '7', '8', '9'][d]
}

/// Decimal digits of `n`, for `n` under 100.
pub open spec fn decimal(n: int) -> Seq<char> {
    if n < 10 {
        seq![digit_char(n)]
    } else {
        seq![digit_char(n / 10), digit_char(n % 10)]
    }
}

/// The numbers of `s` in decimal, separated by `, `.
pub open spec fn joined(s: Seq<usize>) -> Seq<char>
    decreases s.len(),
{
    if s.len() == 0 {
        Seq::empty()
    } else if s.len() == 1 {
        decimal(s[0] as int)
    } else {
        joined(s.drop_last()) + seq![',', ' '] + decimal(s.last() as int)
    }
}

/// The first `n` cells, a line break before each row.
pub open spec fn grid_text(cells: Seq<char>, n: nat) -> Seq<char>
    decreases n,
{
    if n == 0 {
        Seq::empty()
    } else {
        grid_text(cells, (n - 1) as nat) + (if (n - 1) % 8 == 0 {
            seq!['\n']
        } else {
            Seq::empty()
        }) + seq![cells[n - 1]]
    }
}

/// The text of a game: the grid, then either the outcome or who plays
/// next and the legal placements.
pub open spec fn board_text(g: Board) -> Seq<char> {
    grid_text(g.state.cells@, 64) + if g.state.ended {
        if g.state.black_score == g.state.white_score {
            "Game draw!"@
        } else if g.state.black_score < g.state.white_score {
            "White won!"@
        } else {
            "Black won!"@
        }
    } else {
        seq!['\n', player_char(g.current_player as int)] + " to play. Available moves: ["@
            + joined(legal_cells(g.board.0, g.board.1, 64)) + "]"@
    }
}

/// Summary of a position with player `p` to move.
#[derive(Clone, Debug, PartialEq)]
pub struct State {
    pub player: char,
    pub ended: bool,
    pub black_score: i32,
    pub white_score: i32,
    pub cells: Vec<char>,
    pub can_move: bool,
}

impl State {
    /// This is the summary of `b` with player `p` to move.
    pub open spec fn describes(&self, b: BitBoard, p: int) -> bool {
        &&& self.player == player_char(p)
        &&& self.ended == game_over(b)
        &&& self.can_move == b.has_move()
        &&& self.black_score == if p == 0 {
            ones(b.0, 64)
        } else {
            ones(b.1, 64)
        }
        &&& self.white_score == if p == 0 {
            ones(b.1, 64)
        } else {
            ones(b.0, 64)
        }
        &&& self.cells@ == Seq::new(64, |i: int| cell_char(b, p, i))
    }
}

/// A game: the position, the player to move (0 black, 1 white) and the
/// summary of both.
#[derive(Clone)]
pub struct Board {
    pub board: BitBoard,
    pub current_player: usize,
    pub state: State,
}

impl Board {
    pub open spec fn wf(&self) -> bool {
        &&& self.board.wf()
        &&& self.current_player < 2
        &&& self.state.describes(self.board, self.current_player as int)
    }

    /// The start of a game, black to move.
    pub fn default() -> (r: Self)
        ensures
            r.wf(),
            r.board == BitBoard::default_spec(),
            r.current_player == 0,
    {
        let board = BitBoard::default();
        let state = Self::compute_state(&board, 0);
        Self { board, current_player: 0, state }
    }

    /// The legal placements of the player to move, in ascending order.
    pub fn available_moves(&self) -> (r: Vec<usize>)
        requires
            self.wf(),
        ensures
            forall|i: int| 0 <= i < r.len() ==> r[i] < 64 && self.board.legal_at(#[trigger] r[i] as int),
            forall|q: int| 0 <= q < 64 && self.board.legal_at(q) ==> r@.contains(q as usize),
            forall|i: int, k: int| 0 <= i < k < r.len() ==> r[i] < r[k],
            r@ == legal_cells(self.board.0, self.board.1, 64),
    {
        self.board.available_moves_list()
    }

    /// The player to move passes; returns the new summary.
    pub fn pass_move(&mut self) -> (r: State)
        requires
            old(self).board.wf(),
            old(self).current_player < 2,
        ensures
            final(self).wf(),
            final(self).board == old(self).board.pass_move_spec(),
            final(self).current_player == 1 - old(self).current_player,
            r.describes(final(self).board, final(self).current_player as int),
    {
        self.board = self.board.pass_move();
        self.current_player = 1 - self.current_player;
        self.state = Self::compute_state(&self.board, self.current_player);
        Self::compute_state(&self.board, self.current_player)
    }

    /// The player to move places a disc at `place`; returns the new summary.
    pub fn make_move(&mut self, place: usize) -> (r: State)
        requires
            old(self).board.wf(),
            old(self).current_player < 2,
            place < 64,
            old(self).board.legal_at(place as int),
        ensures
            final(self).wf(),
            old(self).board.moved_to(place as int, final(self).board),
            final(self).current_player == 1 - old(self).current_player,
            r.describes(final(self).board, final(self).current_player as int),
    {
        let next = self.board.make_move(place).unwrap();
        self.current_player = 1 - self.current_player;
        self.board = next;
        self.state = Self::compute_state(&self.board, self.current_player);
        Self::compute_state(&self.board, self.current_player)
    }

    /// The grid of the game, followed by the outcome once it has ended, or
    /// else by the player to move and the legal placements.
    pub fn __repr__(&self) -> (r: String)
        requires
            self.wf(),
        ensures
            r@ == board_text(*self),
    {
        let state = &self.state;
        let mut s = String::new();
        let mut i: usize = 0;
        while i < state.cells.len()
            invariant
                self.wf(),
                state == &self.state,
                i <= 64,
                s@ == grid_text(state.cells@, i as nat),
            decreases 64 - i,
        {
            if i % 8 == 0 {
                push_char(&mut s, '\n');
            }
            push_char(&mut s, state.cells[i]);
            proof {
                assert(s@ =~= grid_text(state.cells@, (i + 1) as nat));
            }
            i = i + 1;
        }
        if state.ended {
            if state.black_score == state.white_score {
                s.append("Game draw!");
            } else if state.black_score < state.white_score {
                s.append("White won!");
            } else {
                s.append("Black won!");
            }
        } else {
            push_char(&mut s, '\n');
            push_char(&mut s, if self.current_player == 0 { 'B' } else { 'W' });
            s.append(" to play. Available moves: [");
            let moves = self.available_moves();
            let mut k: usize = 0;
            let ghost base = s@;
            while k < moves.len()
                invariant
                    moves@ == legal_cells(self.board.0, self.board.1, 64),
                    forall|t: int| 0 <= t < moves.len() ==> moves[t] < 64,
                    k <= moves.len(),
                    s@ == base + joined(moves@.take(k as int)),
                decreases moves.len() - k,
            {
                if k > 0 {
                    push_char(&mut s, ',');
                    push_char(&mut s, ' ');
                }
                let n = moves[k];
                if n >= 10 {
                    push_char(&mut s, Self::digit(n / 10));
                }
                push_char(&mut s, Self::digit(n % 10));
                proof {
                    assert(moves@.take(k + 1).drop_last() =~= moves@.take(k as int));
                    assert(s@ =~= base + joined(moves@.take(k + 1)));
                }
                k = k + 1;
            }
            s.append("]");
            proof {
                assert(moves@.take(moves.len() as int) =~= moves@);
            }
        }
        s
    }

    fn digit(d: usize) -> (r: char)
        requires
            d < 10,
        ensures
            r == digit_char(d as int),
    {
        let digits: [char; 10] = ['0', '1', '2', '3', '4', '5', '6', '7', '8', '9'];
        digits[d]
    }

    /// The summary of `board` with `current_player` to move.
    fn compute_state(board: &BitBoard, current_player: usize) -> (r: State)
        requires
            board.wf(),
            current_player < 2,
        ensures
            r.describes(*board, current_player as int),
    {
        let (cnt0, cnt1) = board.count();
        let moves = board.available_moves();
        let player = if current_player == 0 {
            'B'
        } else {
            'W'
        };
        let other = if current_player == 0 {
            'W'
        } else {
            'B'
        };
        let mut cells: Vec<char> = Vec::new();
        let mut i: u64 = 0;
        while i < 64
            invariant
                board.wf(),
                current_player < 2,
                i <= 64,
                player == player_char(current_player as int),
                other == player_char(1 - current_player as int),
                forall|q: int| 0 <= q < 64 ==> (is_set(moves, q) <==> board.legal_at(q)),
                cells@ == Seq::new(i as nat, |k: int| cell_char(*board, current_player as int, k)),
            decreases 64 - i,
        {
            let c = if (board.0 >> i) & 1 == 1 {
                player
            } else if (board.1 >> i) & 1 == 1 {
                other
            } else if (moves >> i) & 1 == 1 {
                '?'
            } else {
                '.'
            };
            cells.push(c);
            i = i + 1;
        }
        let ended = moves == 0 && board.pass_move().available_moves() == 0;
        State {
            player,
            ended,
            black_score: if current_player == 0 {
                cnt0
            } else {
                cnt1
            },
            white_score: if current_player == 0 {
                cnt1
            } else {
                cnt0
            },
            cells,
            can_move: moves != 0,
        }
    }
}

} // verus!
