//! Depth-limited negamax search with alpha-beta pruning and a positional
//! evaluation.
use crate::bits::{is_set, legal_count, ones, BitBoard};
use crate::board::Board;
use rand::rngs::StdRng;
use rand::seq::SliceRandom;
use rand::SeedableRng;
use vstd::prelude::*;

verus! {

#[verifier::external_type_specification]
#[verifier::external_body]
pub struct ExStdRng(StdRng);

/// Relies on rand's `SliceRandom::shuffle`, which only swaps elements in
/// place: the result is a permutation of the input.
#[verifier::external_body]
fn shuffle_cells(cells: &mut Vec<usize>, rng: &mut StdRng)
    ensures
        final(cells)@.to_multiset() == old(cells)@.to_multiset(),
{
    cells.shuffle(rng)
}

/// Relies on rand's `SeedableRng::from_rng` over `OsRng`: a generator seeded
/// by the operating system, or `None` when it supplies no entropy.
#[verifier::external_body]
fn os_seeded_rng() -> Option<StdRng> {
    StdRng::from_rng(rand::rngs::OsRng).ok()
}

/// Relies on rand's `SeedableRng::seed_from_u64`: a generator from a fixed
/// seed, which cannot fail.
#[verifier::external_body]
fn seeded_rng(seed: u64) -> StdRng {
    StdRng::seed_from_u64(seed)
}

/// Positional weight of each cell: corners high, their neighbours low.
pub open spec fn position_weights() -> Seq<int> {
    seq![
        300, -40, 20, 5, 5, 20, -40, 300,
        -40, -80, -5, -5, -5, -5, -80, -40,
        20, -5, 15, 1, 1, 15, -5, 20,
        5, -5, 1, 1, 1, 1, -5, 5,
        5, -5, 1, 1, 1, 1, -5, 5,
        20, -5, 15, 1, 1, 15, -5, 20,
        -40, -80, -5, -5, -5, -5, -80, -40,
        300, -40, 20, 5, 5, 20, -40, 300,
    ]
}

/// Sum of the weights of the cells below `n` that are set in `m`.
pub open spec fn weight_sum(m: u64, n: nat) -> int
    decreases n,
{
    if n == 0 {
        0
    } else {
        weight_sum(m, (n - 1) as nat) + if is_set(m, n - 1) {
            position_weights()[n - 1]
        } else {
            0
        }
    }
}

proof fn lemma_weight_sum_bound(m: u64, n: nat)
    requires
        n <= 64,
    ensures
        -80 * n <= weight_sum(m, n) <= 300 * n,
    decreases n,
{
    if n > 0 {
        lemma_weight_sum_bound(m, (n - 1) as nat);
        assert(-80 <= position_weights()[n - 1] <= 300);
    }
}

/// Score of a finished game with `a` discs against `b`: near the top of the
/// range for a win, higher the wider the margin; near the bottom for a loss,
/// lower the wider the margin; zero for a draw.
pub open spec fn final_score(a: int, b: int) -> int {
    if a > b {
        i32::MAX - (64 - (a - b))
    } else if a < b {
        -i32::MAX + (64 - (b - a))
    } else {
        0
    }
}

/// Mid-game score seen from the side to move: positional weights, mobility,
/// and, once more than 54 discs stood when the search began, the disc margin.
pub open spec fn heuristic_score(start: int, own: u64, opp: u64) -> int {
    weight_sum(own, 64) - weight_sum(opp, 64) + 10 * legal_count(own, opp, 64) - 10 * legal_count(
        opp,
        own,
        64,
    )
        + if start > 54 {
        2 * (start - 54) * (ones(own, 64) - ones(opp, 64))
    } else {
        0
    }
}

/// Scores positions for a search that began with `count` discs on the board.
pub struct AlphaBetaEval {
    pub count: usize,
}

impl AlphaBetaEval {
    /// Weight of cell `i`.
    fn weight(i: usize) -> (r: i32)
        requires
            i < 64,
        ensures
            r == position_weights()[i as int],
    {
        let w: [i32; 64] = [
            300, -40, 20, 5, 5, 20, -40, 300,
            -40, -80, -5, -5, -5, -5, -80, -40,
            20, -5, 15, 1, 1, 15, -5, 20,
            5, -5, 1, 1, 1, 1, -5, 5,
            5, -5, 1, 1, 1, 1, -5, 5,
            20, -5, 15, 1, 1, 15, -5, 20,
            -40, -80, -5, -5, -5, -5, -80, -40,
            300, -40, 20, 5, 5, 20, -40, 300,
        ];
        w[i]
    }

    /// Sum of the weights of the cells set in `m`.
    fn weights_of(m: u64) -> (r: i32)
        ensures
            r == weight_sum(m, 64),
    {
        let mut s: i32 = 0;
        let mut i: usize = 0;
        while i < 64
            invariant
                i <= 64,
                s == weight_sum(m, i as nat),
            decreases 64 - i,
        {
            proof {
                lemma_weight_sum_bound(m, i as nat);
            }
            if (m >> (i as u64)) & 1 == 1 {
                s = s + Self::weight(i);
            }
            i = i + 1;
        }
        s
    }

    /// Heuristic score of a position from the side to move.
    pub fn evaluate(&self, board: &BitBoard) -> (r: i32)
        requires
            board.wf(),
            self.count <= 64,
        ensures
            r == heuristic_score(self.count as int, board.0, board.1),
            -30000 <= r <= 30000,
    {
        let m0 = board.available_moves();
        let m1 = board.pass_move().available_moves();
        let n0 = crate::bits::popcount(m0) as i32;
        let n1 = crate::bits::popcount(m1) as i32;
        proof {
            crate::bits::lemma_ones_legal(m0, board.0, board.1, 64);
            crate::bits::lemma_ones_legal(m1, board.1, board.0, 64);
        }
        let w0 = Self::weights_of(board.0);
        let w1 = Self::weights_of(board.1);
        proof {
            lemma_weight_sum_bound(board.0, 64);
            lemma_weight_sum_bound(board.1, 64);
        }
        let mut score = w0 - w1 + 10 * n0 - 10 * n1;
        if self.count > 54 {
            let (c0, c1) = board.count();
            proof {
                crate::bits::lemma_ones_bound(board.0, 64);
                crate::bits::lemma_ones_bound(board.1, 64);
                assert(-64 * 20 <= 2 * (self.count as int - 54) * (c0 - c1) <= 64 * 20)
                    by (nonlinear_arith)
                    requires
                        54 < self.count <= 64,
                        0 <= c0 <= 64,
                        0 <= c1 <= 64,
                ;
            }
            score = score + 2 * (self.count as i32 - 54) * (c0 - c1);
        }
        score
    }

    /// Exact score of a finished game from the side to move.
    pub fn final_evaluate(&self, board: &BitBoard) -> (r: i32)
        ensures
            r == final_score(ones(board.0, 64) as int, ones(board.1, 64) as int),
            -i32::MAX <= r,
    {
        let (sc1, sc2) = board.count();
        proof {
            crate::bits::lemma_ones_bound(board.0, 64);
            crate::bits::lemma_ones_bound(board.1, 64);
        }
        if sc1 < sc2 {
            -i32::MAX + (64 - (sc2 - sc1))
        } else if sc1 > sc2 {
            i32::MAX - (64 - (sc1 - sc2))
        } else {
            0
        }
    }
}


proof fn lemma_heuristic_bound(count: int, own: u64, opp: u64)
    requires
        0 <= count <= 64,
    ensures
        -30000 <= heuristic_score(count, own, opp) <= 30000,
{
    lemma_weight_sum_bound(own, 64);
    lemma_weight_sum_bound(opp, 64);
    crate::bits::lemma_legal_count_bound(own, opp, 64);
    crate::bits::lemma_legal_count_bound(opp, own, 64);
    crate::bits::lemma_ones_bound(own, 64);
    crate::bits::lemma_ones_bound(opp, 64);
    if count > 54 {
        let (a, b) = (ones(own, 64) as int, ones(opp, 64) as int);
        assert(-1280 <= 2 * (count - 54) * (a - b) <= 1280) by (nonlinear_arith)
            requires
                54 < count <= 64,
                0 <= a <= 64,
                0 <= b <= 64,
        ;
    }
}

/// Negamax value of `b` searched `d` plies deep, for a search that began
/// with `count` discs: the heuristic at depth zero, the negated final score
/// when neither side can move, the negated value after a pass when only the
/// side to move is stuck, and otherwise the best reply.
pub open spec fn negamax(b: BitBoard, d: nat, count: int) -> int
    decreases d, 65nat,
{
    if d == 0 {
        heuristic_score(count, b.0, b.1)
    } else if !b.has_move() {
        if !b.pass_move_spec().has_move() {
            -final_score(ones(b.1, 64) as int, ones(b.0, 64) as int)
        } else {
            -negamax(b.pass_move_spec(), (d - 1) as nat, count)
        }
    } else {
        best_reply(b, d, count, 64)
    }
}

/// Value for the side to move of placing at `q`.
pub open spec fn reply_value(b: BitBoard, d: nat, count: int, q: int) -> int
    recommends
        d > 0,
{
    -negamax(b.after(q), (d - 1) as nat, count)
}

/// The largest reply value over the legal placements below cell `n`, and
/// never under `-i32::MAX`.
pub open spec fn best_reply(b: BitBoard, d: nat, count: int, n: nat) -> int
    decreases d, n,
{
    if d == 0 || n == 0 {
        -i32::MAX
    } else {
        let rest = best_reply(b, d, count, (n - 1) as nat);
        if b.legal_at(n - 1) {
            let c = -negamax(b.after(n - 1), (d - 1) as nat, count);
            if c > rest {
                c
            } else {
                rest
            }
        } else {
            rest
        }
    }
}

/// What an alpha-beta search with window (`alpha`, `beta`) owes: a result
/// inside the window is exact, one at or below `alpha` bounds the value from
/// above, one at or above `beta` bounds it from below.
pub open spec fn window_bound(r: int, v: int, alpha: int, beta: int) -> bool {
    &&& r <= alpha ==> v <= alpha
    &&& r >= beta ==> v >= beta
    &&& alpha < r < beta ==> r == v
}

proof fn lemma_negamax_range(b: BitBoard, d: nat, count: int)
    requires
        0 <= count <= 64,
    ensures
        -i32::MAX <= negamax(b, d, count) <= i32::MAX,
    decreases d, 65nat,
{
    if d == 0 {
        lemma_heuristic_bound(count, b.0, b.1);
    } else if !b.has_move() {
        if !b.pass_move_spec().has_move() {
            crate::bits::lemma_ones_bound(b.0, 64);
            crate::bits::lemma_ones_bound(b.1, 64);
        } else {
            lemma_negamax_range(b.pass_move_spec(), (d - 1) as nat, count);
        }
    } else {
        lemma_best_reply_range(b, d, count, 64);
    }
}

proof fn lemma_best_reply_range(b: BitBoard, d: nat, count: int, n: nat)
    requires
        0 <= count <= 64,
    ensures
        -i32::MAX <= best_reply(b, d, count, n) <= i32::MAX,
    decreases d, n,
{
    if d > 0 && n > 0 {
        lemma_best_reply_range(b, d, count, (n - 1) as nat);
        lemma_negamax_range(b.after(n - 1), (d - 1) as nat, count);
    }
}

/// Every legal reply below `n` is at most the best one.
proof fn lemma_best_reply_above(b: BitBoard, d: nat, count: int, n: nat, q: int)
    requires
        d > 0,
        0 <= q < n,
        b.legal_at(q),
    ensures
        reply_value(b, d, count, q) <= best_reply(b, d, count, n),
    decreases n,
{
    if q < n - 1 {
        lemma_best_reply_above(b, d, count, (n - 1) as nat, q);
    }
}

/// A bound on every legal reply below `n` bounds the best one.
proof fn lemma_best_reply_below(b: BitBoard, d: nat, count: int, n: nat, x: int)
    requires
        d > 0,
        x >= -i32::MAX,
        forall|q: int| 0 <= q < n && b.legal_at(q) ==> reply_value(b, d, count, q) <= x,
    ensures
        best_reply(b, d, count, n) <= x,
    decreases n,
{
    if n > 0 {
        lemma_best_reply_below(b, d, count, (n - 1) as nat, x);
    }
}

/// Empty cells of `b`.
pub open spec fn empty_cells(b: BitBoard) -> int {
    64 - (ones(b.0, 64) + ones(b.1, 64))
}

/// Once the depth covers two plies per empty cell (a placement, and at most
/// one pass before it), the search always reaches the end of the game: the
/// negamax value no longer depends on the depth.
pub proof fn lemma_depth_reaches_game_end(b: BitBoard, d1: nat, d2: nat, count: int)
    requires
        b.wf(),
        (d1 >= 2 * empty_cells(b) + 1 && d2 >= 2 * empty_cells(b) + 1) || (b.has_move() && d1
            >= 2 * empty_cells(b) && d2 >= 2 * empty_cells(b)),
    ensures
        negamax(b, d1, count) == negamax(b, d2, count),
    decreases d1, 65nat,
{
    crate::bits::lemma_ones_disjoint(b.0, b.1, 64);
    if b.has_move() {
        let q = choose|q: int| #[trigger] b.legal_at(q);
        crate::bits::lemma_after_exists(b, q);
        crate::bits::lemma_move_adds_one_disc(b, q, b.after(q));
        crate::bits::lemma_ones_disjoint(b.after(q).0, b.after(q).1, 64);
        lemma_best_reply_same(b, d1, d2, count, 64);
    } else if b.pass_move_spec().has_move() {
        crate::bits::lemma_pass_twice(b);
        lemma_depth_reaches_game_end(b.pass_move_spec(), (d1 - 1) as nat, (d2 - 1) as nat, count);
    }
}

proof fn lemma_best_reply_same(b: BitBoard, d1: nat, d2: nat, count: int, n: nat)
    requires
        b.wf(),
        b.has_move(),
        1 <= empty_cells(b),
        d1 >= 2 * empty_cells(b),
        d2 >= 2 * empty_cells(b),
    ensures
        best_reply(b, d1, count, n) == best_reply(b, d2, count, n),
    decreases d1, n,
{
    if n > 0 {
        lemma_best_reply_same(b, d1, d2, count, (n - 1) as nat);
        if b.legal_at(n - 1) {
            let a = b.after(n - 1);
            crate::bits::lemma_after_exists(b, n - 1);
            crate::bits::lemma_move_adds_one_disc(b, n - 1, a);
            lemma_depth_reaches_game_end(a, (d1 - 1) as nat, (d2 - 1) as nat, count);
        }
    }
}

/// A player of the game.
pub trait Bot {
    /// The player would choose cell `r` in position `b`.
    spec fn chooses(&self, b: BitBoard, r: int) -> bool;

    /// The next move (a cell 0..64) for the player to move, or -1 when there
    /// is no legal move.
    fn find_move(&self, board: &Board) -> (r: i32)
        requires
            board.wf(),
        ensures
            r == -1 <==> !board.board.has_move(),
            r != -1 ==> 0 <= r < 64 && board.board.legal_at(r as int),
            r != -1 ==> self.chooses(board.board, r as int),
    ;
}

impl Bot for AlphaBetaBot {
    /// With a positive search depth, the reply value of `r` is the negamax
    /// value of the position: `r` is a best move. In an endgame searched to
    /// the end, it stays best for every deeper search.
    open spec fn chooses(&self, b: BitBoard, r: int) -> bool {
        &&& self.effective_depth(b) > 0 ==> reply_value(b, self.effective_depth(b), Self::discs(b), r)
            == negamax(b, self.effective_depth(b), Self::discs(b))
        &&& self.effective_depth(b) == 100 && empty_cells(b) <= 49 ==> forall|d: nat|
            d >= 100 ==> #[trigger] reply_value(b, d, Self::discs(b), r) == negamax(
                b,
                d,
                Self::discs(b),
            )
    }

    fn find_move(&self, board: &Board) -> (r: i32) {
        let mut rng = match os_seeded_rng() {
            Some(rng) => rng,
            None => seeded_rng(0x5eed),
        };
        self.search_move(&board.board, &mut rng)
    }
}

/// Plays by negamax search to a fixed depth, and to the end of the game once
/// at most `exhaustive_depth` cells are empty.
pub struct AlphaBetaBot {
    pub depth: usize,
    pub exhaustive_depth: usize,
}

impl AlphaBetaBot {
    pub fn new(depth: usize, exhaustive_depth: usize) -> (r: Self)
        ensures
            r.depth == depth,
            r.exhaustive_depth == exhaustive_depth,
    {
        Self { depth, exhaustive_depth }
    }

    /// Discs on the board.
    pub open spec fn discs(b: BitBoard) -> int {
        (ones(b.0, 64) + ones(b.1, 64)) as int
    }

    /// Depth the search uses on `b`: unbounded in practice (100 plies) once
    /// fewer than `exhaustive_depth` cells are empty, else `depth`.
    pub open spec fn effective_depth(&self, b: BitBoard) -> nat {
        if Self::discs(b) + self.exhaustive_depth > 64 {
            100
        } else {
            self.depth as nat
        }
    }

    /// Chooses a move for the side to move in `board`, using `rng` to order
    /// the candidates; -1 exactly when there is no legal placement. With a
    /// positive depth the move is a best one: its reply value is the negamax
    /// value of the position.
    pub fn search_move(&self, board: &BitBoard, rng: &mut StdRng) -> (r: i32)
        requires
            board.wf(),
        ensures
            r == -1 <==> !board.has_move(),
            r != -1 ==> 0 <= r < 64 && board.legal_at(r as int),
            r != -1 && self.effective_depth(*board) > 0 ==> reply_value(
                *board,
                self.effective_depth(*board),
                Self::discs(*board),
                r as int,
            ) == negamax(*board, self.effective_depth(*board), Self::discs(*board)),
            r != -1 && self.effective_depth(*board) == 100 && empty_cells(*board) <= 49 ==> forall|
                d: nat,
            |
                d >= 100 ==> #[trigger] reply_value(*board, d, Self::discs(*board), r as int)
                    == negamax(*board, d, Self::discs(*board)),
    {
        let (c0, c1) = board.count();
        proof {
            crate::bits::lemma_ones_disjoint(board.0, board.1, 64);
        }
        let count: usize = (c0 + c1) as usize;
        let depth: usize = if self.exhaustive_depth > 64 || count > 64 - self.exhaustive_depth {
            100
        } else {
            self.depth
        };
        let eval = AlphaBetaEval { count };
        if depth == 0 {
            let moves = board.available_moves_list();
            if moves.len() == 0 {
                proof {
                    assert forall|q: int| !(#[trigger] board.legal_at(q)) by {
                        if board.legal_at(q) {
                            assert(moves@.contains(q as usize));
                        }
                    }
                }
                return -1;
            }
            return moves[0] as i32;
        }
        let (_, m) = self.do_search(&eval, rng, board, depth, -i32::MAX, i32::MAX);
        proof {
            if m != -1 && depth == 100 && empty_cells(*board) <= 49 {
                let c = Self::discs(*board);
                let a = board.after(m as int);
                crate::bits::lemma_after_exists(*board, m as int);
                crate::bits::lemma_move_adds_one_disc(*board, m as int, a);
                assert forall|d: nat| d >= 100 implies #[trigger] reply_value(*board, d, c, m as int)
                    == negamax(*board, d, c) by {
                    lemma_depth_reaches_game_end(*board, d, 100, c);
                    lemma_depth_reaches_game_end(a, (d - 1) as nat, 99, c);
                }
            }
        }
        m
    }

    /// Alpha-beta negamax search of `board` to `depth` plies within the
    /// window (`alpha`, `beta`); returns the score and the chosen cell, or -1
    /// where no placement was searched.
    fn do_search(
        &self,
        eval: &AlphaBetaEval,
        rng: &mut StdRng,
        board: &BitBoard,
        depth: usize,
        alpha: i32,
        beta: i32,
    ) -> (r: (i32, i32))
        requires
            board.wf(),
            eval.count <= 64,
            -i32::MAX <= alpha < beta,
        ensures
            -i32::MAX <= r.0,
            depth == 0 ==> r.0 == heuristic_score(eval.count as int, board.0, board.1),
            depth > 0 && !board.has_move() && !board.pass_move_spec().has_move() ==> r.0 == -final_score(
                ones(board.1, 64) as int,
                ones(board.0, 64) as int,
            ),
            depth > 0 && board.has_move() ==> r.0 >= alpha,
            window_bound(r.0 as int, negamax(*board, depth as nat, eval.count as int), alpha as int, beta as int),
            r.1 == -1 <==> (depth == 0 || !board.has_move()),
            r.1 != -1 ==> 0 <= r.1 < 64 && board.legal_at(r.1 as int),
            r.1 != -1 && alpha < negamax(*board, depth as nat, eval.count as int) < beta
                ==> reply_value(*board, depth as nat, eval.count as int, r.1 as int) == negamax(
                *board,
                depth as nat,
                eval.count as int,
            ),
            r.1 != -1 && alpha == -i32::MAX && beta == i32::MAX ==> reply_value(
                *board,
                depth as nat,
                eval.count as int,
                r.1 as int,
            ) == negamax(*board, depth as nat, eval.count as int),
        decreases depth,
    {
        let ghost count = eval.count as int;
        let ghost d = depth as nat;
        if depth == 0 {
            return (eval.evaluate(board), -1);
        }
        let mut moves = board.available_moves_list();
        if moves.len() == 0 {
            proof {
                assert forall|q: int| !(#[trigger] board.legal_at(q)) by {
                    if board.legal_at(q) {
                        assert(moves@.contains(q as usize));
                    }
                }
            }
            let passed = board.pass_move();
            let next = passed.available_moves();
            if next == 0 {
                return (-eval.final_evaluate(&passed), -1);
            }
            let (score, _) = self.do_search(eval, rng, &passed, depth - 1, -beta, -alpha);
            return (-score, -1);
        }
        let ghost listed = moves@;
        shuffle_cells(&mut moves, rng);
        proof {
            listed.to_multiset_ensures();
            moves@.to_multiset_ensures();
            assert forall|t: int| 0 <= t < moves.len() implies #[trigger] moves[t] < 64
                && board.legal_at(moves[t] as int) by {
                assert(moves@.contains(moves[t]));
                assert(moves@.to_multiset().count(moves[t]) > 0);
                assert(listed.to_multiset().count(moves[t]) > 0);
                assert(listed.contains(moves[t]));
            }
            assert forall|q: int| 0 <= q < 64 && board.legal_at(q) implies moves@.contains(
                q as usize,
            ) by {
                assert(listed.contains(q as usize));
                assert(listed.to_multiset().count(q as usize) > 0);
                assert(moves@.to_multiset().count(q as usize) > 0);
            }
            assert(board.legal_at(moves[0] as int));
            assert(board.has_move());
        }
        let ghost a0 = alpha as int;
        let mut alpha = alpha;
        let mut best: usize = moves[0];
        let mut i: usize = 0;
        while i < moves.len() && alpha < beta
            invariant
                board.wf(),
                eval.count <= 64,
                count == eval.count as int,
                d == depth as nat,
                depth > 0,
                -i32::MAX <= a0 < beta,
                a0 <= alpha,
                i <= moves.len(),
                moves.len() > 0,
                best < 64,
                board.legal_at(best as int),
                forall|t: int| 0 <= t < moves.len() ==> #[trigger] moves[t] < 64
                    && board.legal_at(moves[t] as int),
                alpha < beta ==> forall|t: int|
                    0 <= t < i ==> reply_value(*board, d, count, #[trigger] moves[t] as int)
                        <= alpha,
                alpha > a0 ==> (reply_value(*board, d, count, best as int) == alpha || (alpha
                    >= beta && reply_value(*board, d, count, best as int) >= beta)),
                alpha == a0 ==> best == moves[0],
            decreases moves.len() - i,
        {
            let mv = moves[i];
            let next = board.make_move(mv).unwrap();
            let (score, _) = self.do_search(eval, rng, &next, depth - 1, -beta, -alpha);
            proof {
                assert(next == board.after(mv as int));
                assert(reply_value(*board, d, count, mv as int) == -negamax(
                    next,
                    (d - 1) as nat,
                    count,
                ));
            }
            if -score > alpha {
                alpha = -score;
                best = mv;
            }
            i = i + 1;
        }
        proof {
            assert(negamax(*board, d, count) == best_reply(*board, d, count, 64));
            lemma_best_reply_range(*board, d, count, 64);
            lemma_best_reply_above(*board, d, count, 64, best as int);
            lemma_negamax_range(board.after(best as int), (d - 1) as nat, count);
            if alpha < beta {
                assert forall|q: int| 0 <= q < 64 && board.legal_at(q) implies reply_value(
                    *board,
                    d,
                    count,
                    q,
                ) <= alpha by {
                    assert(moves@.contains(q as usize));
                    let t = choose|t: int| 0 <= t < moves.len() && moves@[t] == q as usize;
                    assert(reply_value(*board, d, count, moves[t] as int) <= alpha);
                }
                lemma_best_reply_below(*board, d, count, 64, alpha as int);
                lemma_negamax_range(board.after(moves[0] as int), (d - 1) as nat, count);
                assert(reply_value(*board, d, count, moves[0] as int) <= alpha);
            }
        }
        (alpha, best as i32)
    }
}

/// The score of a finished game grows strictly with the disc margin: a wider
/// win ranks above a narrower one, any win above a draw, a draw above any
/// loss, and a narrow loss above a wide one. Every win also ranks above
/// every mid-game score.
pub proof fn lemma_final_score_order(a1: int, b1: int, a2: int, b2: int)
    requires
        0 <= a1 <= 64,
        0 <= b1 <= 64,
        0 <= a2 <= 64,
        0 <= b2 <= 64,
        a1 + b1 <= 64,
        a2 + b2 <= 64,
    ensures
        a1 - b1 > a2 - b2 ==> final_score(a1, b1) > final_score(a2, b2),
        a1 > b1 ==> final_score(a1, b1) > 30000,
        a1 < b1 ==> final_score(a1, b1) < -30000,
{
}

/// One step of a game: a legal placement, or a pass when only the other
/// side can move.
pub open spec fn game_step(b: BitBoard, nb: BitBoard) -> bool {
    ||| exists|q: int| #[trigger] b.legal_at(q) && nb == b.after(q)
    ||| !b.has_move() && b.pass_move_spec().has_move() && nb == b.pass_move_spec()
}

/// A game ends: played from a position with `D` discs, by any players, it
/// has at most `2 * (64 - D) + 1` steps and at most `64 - D` placements, as
/// each placement adds one disc and a pass is always followed by a
/// placement. From the start (four discs) that is 121 steps and 60
/// placements. A game can go on exactly while some side can move.
pub proof fn lemma_game_ends(s: Seq<BitBoard>)
    requires
        s.len() > 0,
        s[0].wf(),
        forall|i: int| 0 <= i < s.len() - 1 ==> #[trigger] game_step(s[i], s[i + 1]),
    ensures
        s.len() <= 2 * empty_cells(s[0]) + 2,
        forall|i: int| 0 <= i < s.len() ==> s[i].wf() && ones(s[i].0, 64) + ones(s[i].1, 64) <= 64,
        forall|i: int|
            0 <= i < s.len() ==> 2 * (AlphaBetaBot::discs(#[trigger] s[i]) - AlphaBetaBot::discs(
                s[0],
            )) + 1 >= i,
        forall|b: BitBoard| b.wf() ==> (b.has_move() || b.pass_move_spec().has_move() <==> exists|
            nb: BitBoard,
        | #[trigger] game_step(b, nb)),
{
    lemma_game_prefix(s, s.len() - 1);
    assert forall|i: int| 0 <= i < s.len() implies 2 * (AlphaBetaBot::discs(#[trigger] s[i])
        - AlphaBetaBot::discs(s[0])) + 1 >= i by {
        lemma_game_prefix(s, i);
    }
    assert forall|i: int| 0 <= i < s.len() implies s[i].wf() && ones(s[i].0, 64) + ones(s[i].1, 64)
        <= 64 by {
        lemma_game_prefix(s, i);
        crate::bits::lemma_ones_disjoint(s[i].0, s[i].1, 64);
    }
    crate::bits::lemma_ones_disjoint(s[s.len() - 1].0, s[s.len() - 1].1, 64);
    assert forall|b: BitBoard| b.wf() implies (b.has_move() || b.pass_move_spec().has_move() <==> exists|
        nb: BitBoard,
    | #[trigger] game_step(b, nb)) by {
        if b.has_move() {
            let q = choose|q: int| #[trigger] b.legal_at(q);
            assert(game_step(b, b.after(q)));
        } else if b.pass_move_spec().has_move() {
            assert(game_step(b, b.pass_move_spec()));
        }
    }
}

proof fn lemma_game_prefix(s: Seq<BitBoard>, i: int)
    requires
        s.len() > 0,
        0 <= i < s.len(),
        s[0].wf(),
        forall|j: int| 0 <= j < s.len() - 1 ==> #[trigger] game_step(s[j], s[j + 1]),
    ensures
        s[i].wf(),
        2 * (AlphaBetaBot::discs(s[i]) - AlphaBetaBot::discs(s[0])) + 1 >= i,
        2 * (AlphaBetaBot::discs(s[i]) - AlphaBetaBot::discs(s[0])) + 1 == i ==> s[i].has_move(),
    decreases i,
{
    if i > 0 {
        lemma_game_prefix(s, i - 1);
        let b = s[i - 1];
        assert(game_step(s[i - 1], s[(i - 1) + 1]));
        assert(game_step(b, s[i]));
        if exists|q: int| #[trigger] b.legal_at(q) && s[i] == b.after(q) {
            let q = choose|q: int| #[trigger] b.legal_at(q) && s[i] == b.after(q);
            crate::bits::lemma_after_exists(b, q);
            crate::bits::lemma_move_adds_one_disc(b, q, s[i]);
        } else {
            crate::bits::lemma_pass_twice(b);
        }
    }
}

} // verus!
