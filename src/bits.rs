//! Two 64-bit occupancy masks seen from the side to move, with move
//! generation and move application proved against the sandwich rule.
use vstd::prelude::*;

verus! {

/// Whether cell `i` (row `i / 8`, column `i % 8`) is set in `m`.
pub open spec fn is_set(m: u64, i: int) -> bool {
    0 <= i < 64 && (m >> (i as u64)) & 1u64 == 1u64
}

/// Row step of direction `d` (0..8, the eight neighbours in row-major order).
pub open spec fn dir_row(d: int) -> int {
    if d < 3 {
        -1
    } else if d < 5 {
        0
    } else {
        1
    }
}

/// Column step of direction `d`.
pub open spec fn dir_col(d: int) -> int {
    if d == 0 || d == 3 || d == 5 {
        -1
    } else if d == 1 || d == 6 {
        0
    } else {
        1
    }
}

/// `s * j` for a step `s` in -1..=1.
pub open spec fn scaled(s: int, j: int) -> int {
    if s > 0 {
        j
    } else if s < 0 {
        -j
    } else {
        0
    }
}

pub open spec fn ray_row(p: int, d: int, j: int) -> int {
    p / 8 + scaled(dir_row(d), j)
}

pub open spec fn ray_col(p: int, d: int, j: int) -> int {
    p % 8 + scaled(dir_col(d), j)
}

/// The cell `j` steps away from `p` in direction `d` lies on the board
/// (no wrap-around across an edge).
pub open spec fn ray_in(p: int, d: int, j: int) -> bool {
    0 <= ray_row(p, d, j) < 8 && 0 <= ray_col(p, d, j) < 8
}

/// Index of the cell `j` steps away from `p` in direction `d`.
pub open spec fn ray_cell(p: int, d: int, j: int) -> int {
    ray_row(p, d, j) * 8 + ray_col(p, d, j)
}

/// Placing at `p`, the cells 1..=k in direction `d` hold opponent discs and
/// cell k + 1 holds a disc of the mover.
pub open spec fn brackets(own: u64, opp: u64, p: int, d: int, k: int) -> bool {
    &&& 1 <= k
    &&& forall|j: int| 1 <= j <= k ==> ray_in(p, d, j) && is_set(opp, #[trigger] ray_cell(p, d, j))
    &&& ray_in(p, d, k + 1)
    &&& is_set(own, ray_cell(p, d, k + 1))
}

/// Placing at `p` captures a run in direction `d`.
pub open spec fn captures_in(own: u64, opp: u64, p: int, d: int) -> bool {
    exists|k: int| #[trigger] brackets(own, opp, p, d, k)
}

/// Placing at `p` flips `q` through the run in direction `d`.
pub open spec fn flips_in(own: u64, opp: u64, p: int, d: int, q: int) -> bool {
    exists|k: int, j: int|
        #[trigger] brackets(own, opp, p, d, k) && 1 <= j <= k && q == #[trigger] ray_cell(p, d, j)
}

pub open spec fn is_free(own: u64, opp: u64, p: int) -> bool {
    0 <= p < 64 && !is_set(own, p) && !is_set(opp, p)
}

/// The sandwich rule: `p` is empty and flanks a run in some direction.
pub open spec fn legal(own: u64, opp: u64, p: int) -> bool {
    is_free(own, opp, p) && exists|d: int| 0 <= d < 8 && #[trigger] captures_in(own, opp, p, d)
}

/// Placing at `p` flips `q`: the union over directions of the flanked runs.
pub open spec fn flipped(own: u64, opp: u64, p: int, q: int) -> bool {
    exists|d: int| 0 <= d < 8 && #[trigger] flips_in(own, opp, p, d, q)
}

proof fn lemma_set_bit(m: u64, x: u64, q: u64)
    requires
        x < 64,
        q < 64,
    ensures
        ((m | (1u64 << x)) >> q) & 1u64 == 1u64 <==> ((m >> q) & 1u64 == 1u64 || q == x),
{
    assert(((m | (1u64 << x)) >> q) & 1u64 == 1u64 <==> ((m >> q) & 1u64 == 1u64 || q == x))
        by (bit_vector)
        requires
            x < 64,
            q < 64,
    ;
}

proof fn lemma_disjoint_bit(a: u64, b: u64, q: u64)
    requires
        a & b == 0,
        q < 64,
    ensures
        !((a >> q) & 1u64 == 1u64 && (b >> q) & 1u64 == 1u64),
{
    assert(!((a >> q) & 1u64 == 1u64 && (b >> q) & 1u64 == 1u64)) by (bit_vector)
        requires
            a & b == 0,
            q < 64,
    ;
}

proof fn lemma_zero_bit(q: u64)
    ensures
        (0u64 >> q) & 1u64 != 1u64,
{
    assert((0u64 >> q) & 1u64 != 1u64) by (bit_vector);
}

proof fn lemma_set_bit_nonzero(m: u64, x: u64)
    requires
        x < 64,
    ensures
        m | (1u64 << x) != 0,
{
    assert(m | (1u64 << x) != 0) by (bit_vector)
        requires
            x < 64,
    ;
}

proof fn lemma_set_bit_within(m: u64, x: u64, opp: u64)
    requires
        x < 64,
        m & opp == m,
        (opp >> x) & 1u64 == 1u64,
    ensures
        (m | (1u64 << x)) & opp == m | (1u64 << x),
{
    assert((m | (1u64 << x)) & opp == m | (1u64 << x)) by (bit_vector)
        requires
            x < 64,
            m & opp == m,
            (opp >> x) & 1u64 == 1u64,
    ;
}

/// (row step, column step) of direction `d`.
fn dir_step(d: usize) -> (r: (i32, i32))
    requires
        d < 8,
    ensures
        r.0 == dir_row(d as int),
        r.1 == dir_col(d as int),
{
    if d == 0 {
        (-1, -1)
    } else if d == 1 {
        (-1, 0)
    } else if d == 2 {
        (-1, 1)
    } else if d == 3 {
        (0, -1)
    } else if d == 4 {
        (0, 1)
    } else if d == 5 {
        (1, -1)
    } else if d == 6 {
        (1, 0)
    } else {
        (1, 1)
    }
}

/// Cells flipped in direction `d` by a disc placed at `p`: walks the run of
/// opponent discs and keeps it only where a disc of the mover closes it.
fn ray_flips(own: u64, opp: u64, p: usize, d: usize) -> (r: u64)
    requires
        own & opp == 0,
        p < 64,
        d < 8,
    ensures
        forall|q: int| 0 <= q < 64 ==> (is_set(r, q) <==> flips_in(own, opp, p as int, d as int, q)),
        r == 0 <==> !captures_in(own, opp, p as int, d as int),
        r & opp == r,
{
    let (dr, dc) = dir_step(d);
    let mut row: i32 = (p / 8) as i32 + dr;
    let mut col: i32 = (p % 8) as i32 + dc;
    let mut run: u64 = 0;
    let mut j: i32 = 1;
    proof {
        assert(0u64 & opp == 0u64) by (bit_vector);
        assert forall|q: int| 0 <= q < 64 implies !is_set(run, q) by {
            lemma_zero_bit(q as u64);
        }
    }
    while 0 <= row && row < 8 && 0 <= col && col < 8 && (opp >> ((row * 8 + col) as u64)) & 1
        == 1
        invariant
            own & opp == 0,
            p < 64,
            d < 8,
            dr == dir_row(d as int),
            dc == dir_col(d as int),
            1 <= j <= 8,
            row == ray_row(p as int, d as int, j as int),
            col == ray_col(p as int, d as int, j as int),
            forall|i: int|
                1 <= i < j ==> ray_in(p as int, d as int, i) && is_set(
                    opp,
                    #[trigger] ray_cell(p as int, d as int, i),
                ),
            forall|q: int|
                0 <= q < 64 ==> (is_set(run, q) <==> exists|i: int|
                    1 <= i < j && q == #[trigger] ray_cell(p as int, d as int, i)),
            run & opp == run,
            j > 1 ==> run != 0,
        decreases 8 - j,
    {
        let x: u64 = (row * 8 + col) as u64;
        proof {
            assert(ray_in(p as int, d as int, j as int));
            assert(x as int == ray_cell(p as int, d as int, j as int));
            lemma_set_bit_within(run, x, opp);
            lemma_set_bit_nonzero(run, x);
            assert forall|q: int| 0 <= q < 64 implies (is_set(run | (1u64 << x), q) <==> exists|i: int|
                1 <= i < j + 1 && q == #[trigger] ray_cell(p as int, d as int, i)) by {
                lemma_set_bit(run, x, q as u64);
                if q == x as int {
                    assert(q == ray_cell(p as int, d as int, j as int));
                    assert(is_set(run | (1u64 << x), q));
                } else if is_set(run, q) {
                    let i = choose|i: int| 1 <= i < j && q == #[trigger] ray_cell(p as int, d as int, i);
                    assert(1 <= i < j + 1 && q == ray_cell(p as int, d as int, i));
                    assert(is_set(run | (1u64 << x), q));
                } else {
                    assert(!is_set(run | (1u64 << x), q));
                    if exists|i: int| 1 <= i < j + 1 && q == #[trigger] ray_cell(p as int, d as int, i) {
                        let i = choose|i: int| 1 <= i < j + 1 && q == #[trigger] ray_cell(p as int, d as int, i);
                        assert(i != j);
                        assert(1 <= i < j && q == ray_cell(p as int, d as int, i));
                    }
                }
            }
        }
        run = run | (1u64 << x);
        row = row + dr;
        col = col + dc;
        j = j + 1;
    }
    let closed = j >= 2 && 0 <= row && row < 8 && 0 <= col && col < 8 && (own >> ((row * 8
        + col) as u64)) & 1 == 1;
    proof {
        let pp = p as int;
        let dd = d as int;
        assert forall|k: int| #[trigger] brackets(own, opp, pp, dd, k) implies k == j - 1 by {
            if k < j - 1 {
                assert(is_set(opp, ray_cell(pp, dd, k + 1)));
                lemma_disjoint_bit(own, opp, ray_cell(pp, dd, k + 1) as u64);
            } else if k > j - 1 {
                assert(ray_in(pp, dd, j as int) && is_set(opp, ray_cell(pp, dd, j as int)));
            }
        }
    }
    if closed {
        proof {
            let pp = p as int;
            let dd = d as int;
            assert(brackets(own, opp, pp, dd, j - 1));
            assert forall|q: int| 0 <= q < 64 implies (is_set(run, q) <==> flips_in(
                own,
                opp,
                pp,
                dd,
                q,
            )) by {
                if is_set(run, q) {
                    let i = choose|i: int| 1 <= i < j && q == #[trigger] ray_cell(pp, dd, i);
                    assert(brackets(own, opp, pp, dd, j - 1) && 1 <= i <= j - 1 && q == ray_cell(
                        pp,
                        dd,
                        i,
                    ));
                }
                if flips_in(own, opp, pp, dd, q) {
                    let (k, i) = choose|k: int, i: int|
                        #[trigger] brackets(own, opp, pp, dd, k) && 1 <= i <= k && q
                            == #[trigger] ray_cell(pp, dd, i);
                    assert(k == j - 1);
                }
            }
        }
        run
    } else {
        proof {
            let pp = p as int;
            let dd = d as int;
            assert forall|q: int| 0 <= q < 64 implies (is_set(0u64, q) <==> flips_in(
                own,
                opp,
                pp,
                dd,
                q,
            )) by {
                lemma_zero_bit(q as u64);
                if flips_in(own, opp, pp, dd, q) {
                    let (k, i) = choose|k: int, i: int|
                        #[trigger] brackets(own, opp, pp, dd, k) && 1 <= i <= k && q
                            == #[trigger] ray_cell(pp, dd, i);
                    assert(k == j - 1);
                }
            }
            assert(0u64 & opp == 0u64) by (bit_vector);
        }
        0
    }
}

proof fn lemma_or_facts(f: u64, r: u64, opp: u64, q: u64)
    requires
        q < 64,
        f & opp == f,
        r & opp == r,
    ensures
        ((f | r) >> q) & 1u64 == 1u64 <==> ((f >> q) & 1u64 == 1u64 || (r >> q) & 1u64 == 1u64),
        (f | r) & opp == f | r,
        f | r == 0 <==> (f == 0 && r == 0),
{
    assert(((f | r) >> q) & 1u64 == 1u64 <==> ((f >> q) & 1u64 == 1u64 || (r >> q) & 1u64 == 1u64))
        by (bit_vector)
        requires
            q < 64,
    ;
    assert((f | r) & opp == f | r) by (bit_vector)
        requires
            f & opp == f,
            r & opp == r,
    ;
    assert(f | r == 0 <==> (f == 0 && r == 0)) by (bit_vector);
}

/// Every disc flipped by a placement at `p`: the union of the flanked runs
/// over the eight directions.
fn flip_mask(own: u64, opp: u64, p: usize) -> (r: u64)
    requires
        own & opp == 0,
        p < 64,
    ensures
        forall|q: int| 0 <= q < 64 ==> (is_set(r, q) <==> flipped(own, opp, p as int, q)),
        r == 0 <==> !(exists|d: int| 0 <= d < 8 && #[trigger] captures_in(own, opp, p as int, d)),
        r & opp == r,
{
    let mut f: u64 = 0;
    let mut d: usize = 0;
    proof {
        assert(0u64 & opp == 0u64) by (bit_vector);
        assert forall|q: int| 0 <= q < 64 implies !is_set(f, q) by {
            lemma_zero_bit(q as u64);
        }
    }
    while d < 8
        invariant
            own & opp == 0,
            p < 64,
            d <= 8,
            f & opp == f,
            forall|q: int|
                0 <= q < 64 ==> (is_set(f, q) <==> exists|e: int|
                    0 <= e < d && #[trigger] flips_in(own, opp, p as int, e, q)),
            f == 0 <==> !(exists|e: int| 0 <= e < d && #[trigger] captures_in(own, opp, p as int, e)),
        decreases 8 - d,
    {
        let r = ray_flips(own, opp, p, d);
        proof {
            let pp = p as int;
            lemma_or_facts(f, r, opp, 0);
            assert forall|q: int| 0 <= q < 64 implies (is_set(f | r, q) <==> exists|e: int|
                0 <= e < d + 1 && #[trigger] flips_in(own, opp, pp, e, q)) by {
                lemma_or_facts(f, r, opp, q as u64);
                if exists|e: int| 0 <= e < d + 1 && #[trigger] flips_in(own, opp, pp, e, q) {
                    let e = choose|e: int| 0 <= e < d + 1 && #[trigger] flips_in(own, opp, pp, e, q);
                    if e < d {
                        assert(is_set(f, q));
                    } else {
                        assert(is_set(r, q));
                    }
                }
                if is_set(f, q) {
                    let e = choose|e: int| 0 <= e < d && #[trigger] flips_in(own, opp, pp, e, q);
                    assert(0 <= e < d + 1 && flips_in(own, opp, pp, e, q));
                }
                if is_set(r, q) {
                    assert(flips_in(own, opp, pp, d as int, q));
                }
            }
            if exists|e: int| 0 <= e < d + 1 && #[trigger] captures_in(own, opp, pp, e) {
                let e = choose|e: int| 0 <= e < d + 1 && #[trigger] captures_in(own, opp, pp, e);
                if e < d {
                    assert(f != 0);
                } else {
                    assert(r != 0);
                }
            }
            if f != 0 {
                let e = choose|e: int| 0 <= e < d && #[trigger] captures_in(own, opp, pp, e);
                assert(0 <= e < d + 1 && captures_in(own, opp, pp, e));
            }
            if r != 0 {
                assert(captures_in(own, opp, pp, d as int));
            }
        }
        f = f | r;
        d = d + 1;
    }
    f
}

proof fn lemma_occupied(own: u64, opp: u64, x: u64)
    requires
        x < 64,
    ensures
        ((own | opp) >> x) & 1u64 == 1u64 <==> ((own >> x) & 1u64 == 1u64 || (opp >> x) & 1u64
            == 1u64),
{
    assert(((own | opp) >> x) & 1u64 == 1u64 <==> ((own >> x) & 1u64 == 1u64 || (opp >> x) & 1u64
        == 1u64)) by (bit_vector)
        requires
            x < 64,
    ;
}

proof fn lemma_apply_bits(own: u64, opp: u64, f: u64, x: u64, q: u64)
    requires
        own & opp == 0,
        f & opp == f,
        x < 64,
        q < 64,
        (own >> x) & 1u64 != 1u64,
        (opp >> x) & 1u64 != 1u64,
    ensures
        ((opp ^ f) >> q) & 1u64 == 1u64 <==> ((opp >> q) & 1u64 == 1u64 && (f >> q) & 1u64 != 1u64),
        ((own ^ f ^ (1u64 << x)) >> q) & 1u64 == 1u64 <==> ((own >> q) & 1u64 == 1u64 || q == x
            || (f >> q) & 1u64 == 1u64),
        (opp ^ f) & (own ^ f ^ (1u64 << x)) == 0,
{
    assert(((opp ^ f) >> q) & 1u64 == 1u64 <==> ((opp >> q) & 1u64 == 1u64 && (f >> q) & 1u64
        != 1u64)) by (bit_vector)
        requires
            f & opp == f,
            q < 64,
    ;
    assert(((own ^ f ^ (1u64 << x)) >> q) & 1u64 == 1u64 <==> ((own >> q) & 1u64 == 1u64 || q == x
        || (f >> q) & 1u64 == 1u64)) by (bit_vector)
        requires
            own & opp == 0,
            f & opp == f,
            x < 64,
            q < 64,
            (own >> x) & 1u64 != 1u64,
            (opp >> x) & 1u64 != 1u64,
    ;
    assert((opp ^ f) & (own ^ f ^ (1u64 << x)) == 0) by (bit_vector)
        requires
            own & opp == 0,
            f & opp == f,
            x < 64,
            (own >> x) & 1u64 != 1u64,
            (opp >> x) & 1u64 != 1u64,
    ;
}

/// Number of cells below `n` set in `m`.
pub open spec fn ones(m: u64, n: nat) -> nat
    decreases n,
{
    if n == 0 {
        0
    } else {
        ones(m, (n - 1) as nat) + if is_set(m, n - 1) {
            1nat
        } else {
            0nat
        }
    }
}

pub proof fn lemma_ones_bound(m: u64, n: nat)
    ensures
        ones(m, n) <= n,
    decreases n,
{
    if n > 0 {
        lemma_ones_bound(m, (n - 1) as nat);
    }
}

/// Number of legal placements below cell `n`.
pub open spec fn legal_count(own: u64, opp: u64, n: nat) -> nat
    decreases n,
{
    if n == 0 {
        0
    } else {
        legal_count(own, opp, (n - 1) as nat) + if legal(own, opp, n - 1) {
            1nat
        } else {
            0nat
        }
    }
}

/// The legal placements below cell `n`, in ascending order.
pub open spec fn legal_cells(own: u64, opp: u64, n: nat) -> Seq<usize>
    decreases n,
{
    if n == 0 {
        Seq::empty()
    } else if legal(own, opp, n - 1) {
        legal_cells(own, opp, (n - 1) as nat).push((n - 1) as usize)
    } else {
        legal_cells(own, opp, (n - 1) as nat)
    }
}

/// A mask of the legal placements has as many bits as there are legal
/// placements.
pub proof fn lemma_ones_legal(m: u64, own: u64, opp: u64, n: nat)
    requires
        n <= 64,
        forall|q: int| 0 <= q < 64 ==> (is_set(m, q) <==> legal(own, opp, q)),
    ensures
        ones(m, n) == legal_count(own, opp, n),
    decreases n,
{
    if n > 0 {
        lemma_ones_legal(m, own, opp, (n - 1) as nat);
    }
}

/// Number of discs in `m`.
pub fn popcount(m: u64) -> (r: u32)
    ensures
        r == ones(m, 64),
        r <= 64,
{
    let mut c: u32 = 0;
    let mut i: u64 = 0;
    while i < 64
        invariant
            i <= 64,
            c == ones(m, i as nat),
        decreases 64 - i,
    {
        proof {
            lemma_ones_bound(m, i as nat);
        }
        if (m >> i) & 1 == 1 {
            c = c + 1;
        }
        i = i + 1;
    }
    proof {
        lemma_ones_bound(m, 64);
    }
    c
}

/// A position: the discs of the side to move (`.0`) and of the other side
/// (`.1`).
#[derive(Clone, Copy, Debug, PartialEq, Eq, Structural)]
pub struct BitBoard(pub u64, pub u64);

impl BitBoard {
    /// No cell holds discs of both sides.
    pub open spec fn wf(&self) -> bool {
        self.0 & self.1 == 0
    }

    /// The same position with the turn handed over.
    pub open spec fn pass_move_spec(&self) -> BitBoard {
        BitBoard(self.1, self.0)
    }

    /// The side to move has a legal placement.
    pub open spec fn has_move(&self) -> bool {
        exists|q: int| #[trigger] self.legal_at(q)
    }

    /// `b` is the position after the side to move places at `place`: the
    /// flanked discs and `place` join the mover, who becomes the other side.
    pub open spec fn moved_to(&self, place: int, b: BitBoard) -> bool {
        &&& b.wf()
        &&& forall|q: int|
            0 <= q < 64 ==> (is_set(b.0, q) <==> (is_set(self.1, q) && !flipped(
                self.0,
                self.1,
                place,
                q,
            )))
        &&& forall|q: int|
            0 <= q < 64 ==> (is_set(b.1, q) <==> (is_set(self.0, q) || q == place || flipped(
                self.0,
                self.1,
                place,
                q,
            )))
    }

    /// The position after the side to move places at `place`.
    pub open spec fn after(&self, place: int) -> BitBoard {
        choose|nb: BitBoard| self.moved_to(place, nb)
    }

    /// Whether `q` is a legal placement for the side to move.
    pub open spec fn legal_at(&self, q: int) -> bool {
        legal(self.0, self.1, q)
    }

    /// The start: two discs each on the central four cells.
    pub open spec fn default_spec() -> BitBoard {
        BitBoard(0x0000_0008_1000_0000u64, 0x0000_0010_0800_0000u64)
    }

    /// The start: two discs each on the central four cells.
    pub fn default() -> (r: Self)
        ensures
            r == Self::default_spec(),
            r.wf(),
    {
        let r = BitBoard(0x0000_0008_1000_0000, 0x0000_0010_0800_0000);
        assert(0x0000_0008_1000_0000u64 & 0x0000_0010_0800_0000u64 == 0) by (bit_vector);
        r
    }

    /// The two masks, side to move first.
    pub fn get(&self) -> (r: [u64; 2])
        ensures
            r@ == seq![self.0, self.1],
    {
        let r = [self.0, self.1];
        assert(r@ =~= seq![self.0, self.1]);
        r
    }

    /// Hands the turn over without placing a disc.
    pub fn pass_move(&self) -> (r: Self)
        ensures
            r == self.pass_move_spec(),
            self.wf() ==> r.wf(),
    {
        proof {
            let (a, b) = (self.0, self.1);
            assert(a & b == b & a) by (bit_vector);
        }
        BitBoard(self.1, self.0)
    }

    /// The position after the side to move places a disc at `place`, seen
    /// from the other side; `None` when the cell is taken or nothing flips.
    pub fn make_move(&self, place: usize) -> (r: Option<Self>)
        requires
            self.wf(),
            place < 64,
        ensures
            r.is_some() <==> self.legal_at(place as int),
            r matches Some(b) ==> self.moved_to(place as int, b) && b == self.after(place as int),
    {
        proof {
            lemma_occupied(self.0, self.1, place as u64);
        }
        let x: u64 = place as u64;
        if (self.0 | self.1) >> x & 1 == 1 {
            return None;
        }
        let diff = flip_mask(self.0, self.1, place);
        if diff == 0 {
            None
        } else {
            let r = BitBoard(self.1 ^ diff, self.0 ^ diff ^ (1u64 << x));
            proof {
                lemma_apply_bits(self.0, self.1, diff, place as u64, 0);
                assert forall|q: int| 0 <= q < 64 implies (is_set(r.0, q) <==> (is_set(self.1, q)
                    && !flipped(self.0, self.1, place as int, q))) && (is_set(r.1, q) <==> (is_set(
                    self.0,
                    q,
                ) || q == place as int || flipped(self.0, self.1, place as int, q))) by {
                    lemma_apply_bits(self.0, self.1, diff, x, q as u64);
                    assert(is_set(diff, q) <==> flipped(self.0, self.1, place as int, q));
                    assert(is_set(r.0, q) <==> (is_set(self.1, q) && !is_set(diff, q)));
                    assert(is_set(r.1, q) <==> (is_set(self.0, q) || q == place as int || is_set(diff, q)));
                }
                assert(self.moved_to(place as int, r));
                lemma_moved_to_unique(*self, place as int, r, self.after(place as int));
            }
            Some(r)
        }
    }

    /// The legal placements of the side to move, one bit per cell.
    pub fn available_moves(&self) -> (r: u64)
        requires
            self.wf(),
        ensures
            forall|q: int| 0 <= q < 64 ==> (is_set(r, q) <==> self.legal_at(q)),
            forall|q: int| 0 <= q < 64 && is_set(r, q) ==> !is_set(self.0, q) && !is_set(self.1, q),
            r == 0 <==> !self.has_move(),
    {
        let mut m: u64 = 0;
        let mut p: usize = 0;
        proof {
            assert forall|q: int| 0 <= q < 64 implies !is_set(m, q) by {
                lemma_zero_bit(q as u64);
            }
        }
        while p < 64
            invariant
                self.wf(),
                p <= 64,
                forall|q: int| 0 <= q < 64 ==> (is_set(m, q) <==> (q < p && self.legal_at(q))),
                m == 0 <==> forall|q: int| 0 <= q < p ==> !#[trigger] self.legal_at(q),
            decreases 64 - p,
        {
            proof {
                lemma_occupied(self.0, self.1, p as u64);
            }
            let free = (self.0 | self.1) >> (p as u64) & 1 != 1;
            let ok = free && flip_mask(self.0, self.1, p) != 0;
            let next = if ok {
                m | (1u64 << (p as u64))
            } else {
                m
            };
            proof {
                assert(free <==> is_free(self.0, self.1, p as int));
                assert(ok <==> self.legal_at(p as int));
                assert forall|q: int| 0 <= q < 64 implies (is_set(next, q) <==> (q < p + 1
                    && self.legal_at(q))) by {
                    lemma_set_bit(m, p as u64, q as u64);
                    assert(is_set(m, q) <==> (q < p && self.legal_at(q)));
                    if ok {
                        assert(is_set(next, q) <==> (is_set(m, q) || q == p));
                    }
                }
                if ok {
                    lemma_set_bit_nonzero(m, p as u64);
                }
                if m != 0 {
                    let q = choose|q: int| 0 <= q < p && #[trigger] self.legal_at(q);
                    assert(is_set(m, q));
                }
            }
            m = next;
            p = p + 1;
        }
        proof {
            assert forall|q: int| #[trigger] self.legal_at(q) implies 0 <= q < 64 by {}
        }
        m
    }

    /// The legal placements of the side to move, in ascending order.
    pub fn available_moves_list(&self) -> (r: Vec<usize>)
        requires
            self.wf(),
        ensures
            forall|i: int| 0 <= i < r.len() ==> r[i] < 64 && self.legal_at(#[trigger] r[i] as int),
            forall|q: int| 0 <= q < 64 && self.legal_at(q) ==> r@.contains(q as usize),
            forall|i: int, k: int| 0 <= i < k < r.len() ==> r[i] < r[k],
            r@ == legal_cells(self.0, self.1, 64),
    {
        let mask = self.available_moves();
        let mut v: Vec<usize> = Vec::new();
        let mut i: usize = 0;
        while i < 64
            invariant
                i <= 64,
                forall|q: int| 0 <= q < 64 ==> (is_set(mask, q) <==> self.legal_at(q)),
                forall|t: int| 0 <= t < v.len() ==> v[t] < i && self.legal_at(#[trigger] v[t] as int),
                forall|q: int| 0 <= q < i && self.legal_at(q) ==> v@.contains(q as usize),
                forall|t: int, k: int| 0 <= t < k < v.len() ==> v[t] < v[k],
                v@ == legal_cells(self.0, self.1, i as nat),
            decreases 64 - i,
        {
            if mask >> (i as u64) & 1 == 1 {
                let ghost prev = v@;
                v.push(i);
                proof {
                    assert(v[v.len() - 1] == i);
                    assert forall|q: int| 0 <= q < i + 1 && self.legal_at(q) implies v@.contains(
                        q as usize,
                    ) by {
                        if q < i {
                            let t = choose|t: int| 0 <= t < prev.len() && prev[t] == q as usize;
                            assert(v[t] == q as usize);
                        } else {
                            assert(v[v.len() - 1] == q as usize);
                        }
                    }
                }
            }
            proof {
                assert(is_set(mask, i as int) <==> self.legal_at(i as int));
                assert(v@ == legal_cells(self.0, self.1, (i + 1) as nat));
            }
            i = i + 1;
        }
        v
    }

    /// Disc counts of the side to move and of the other side.
    pub fn count(&self) -> (r: (i32, i32))
        ensures
            r.0 == ones(self.0, 64),
            r.1 == ones(self.1, 64),
    {
        (popcount(self.0) as i32, popcount(self.1) as i32)
    }
}

/// Passing twice gives back the same position, with the same side to move.
pub proof fn lemma_pass_twice(b: BitBoard)
    ensures
        b.pass_move_spec().pass_move_spec() == b,
        b.wf() ==> b.pass_move_spec().wf(),
{
    let (x, y) = (b.0, b.1);
    assert(x & y == y & x) by (bit_vector);
}

/// A flipped disc was a disc of the other side.
pub proof fn lemma_flipped_was_opp(own: u64, opp: u64, p: int, q: int)
    requires
        flipped(own, opp, p, q),
    ensures
        is_set(opp, q),
{
    let d = choose|d: int| 0 <= d < 8 && #[trigger] flips_in(own, opp, p, d, q);
    let (k, j) = choose|k: int, j: int|
        #[trigger] brackets(own, opp, p, d, k) && 1 <= j <= k && q == #[trigger] ray_cell(p, d, j);
    assert(is_set(opp, ray_cell(p, d, j)));
}

proof fn lemma_disc_total(b: BitBoard, place: int, nb: BitBoard, n: nat)
    requires
        b.wf(),
        0 <= place < 64,
        !is_set(b.0, place),
        !is_set(b.1, place),
        b.moved_to(place, nb),
        n <= 64,
    ensures
        ones(nb.0, n) + ones(nb.1, n) == ones(b.0, n) + ones(b.1, n) + if place < n {
            1int
        } else {
            0int
        },
    decreases n,
{
    if n > 0 {
        lemma_disc_total(b, place, nb, (n - 1) as nat);
        let q = n - 1;
        lemma_disjoint_bit(b.0, b.1, q as u64);
        lemma_disjoint_bit(nb.0, nb.1, q as u64);
        if flipped(b.0, b.1, place, q) {
            lemma_flipped_was_opp(b.0, b.1, place, q);
        }
    }
}

/// A placement adds exactly one disc to the board, so a game that starts
/// with four discs ends after at most sixty placements.
pub proof fn lemma_move_adds_one_disc(b: BitBoard, place: int, nb: BitBoard)
    requires
        b.wf(),
        b.legal_at(place),
        b.moved_to(place, nb),
    ensures
        ones(nb.0, 64) + ones(nb.1, 64) == ones(b.0, 64) + ones(b.1, 64) + 1,
{
    lemma_disc_total(b, place, nb, 64);
}

proof fn lemma_bits_eq_bv(a: u64, b: u64)
    requires
            (a >> 0u64) & 1u64 == (b >> 0u64) & 1u64,
            (a >> 1u64) & 1u64 == (b >> 1u64) & 1u64,
            (a >> 2u64) & 1u64 == (b >> 2u64) & 1u64,
            (a >> 3u64) & 1u64 == (b >> 3u64) & 1u64,
            (a >> 4u64) & 1u64 == (b >> 4u64) & 1u64,
            (a >> 5u64) & 1u64 == (b >> 5u64) & 1u64,
            (a >> 6u64) & 1u64 == (b >> 6u64) & 1u64,
            (a >> 7u64) & 1u64 == (b >> 7u64) & 1u64,
            (a >> 8u64) & 1u64 == (b >> 8u64) & 1u64,
            (a >> 9u64) & 1u64 == (b >> 9u64) & 1u64,
            (a >> 10u64) & 1u64 == (b >> 10u64) & 1u64,
            (a >> 11u64) & 1u64 == (b >> 11u64) & 1u64,
            (a >> 12u64) & 1u64 == (b >> 12u64) & 1u64,
            (a >> 13u64) & 1u64 == (b >> 13u64) & 1u64,
            (a >> 14u64) & 1u64 == (b >> 14u64) & 1u64,
            (a >> 15u64) & 1u64 == (b >> 15u64) & 1u64,
            (a >> 16u64) & 1u64 == (b >> 16u64) & 1u64,
            (a >> 17u64) & 1u64 == (b >> 17u64) & 1u64,
            (a >> 18u64) & 1u64 == (b >> 18u64) & 1u64,
            (a >> 19u64) & 1u64 == (b >> 19u64) & 1u64,
            (a >> 20u64) & 1u64 == (b >> 20u64) & 1u64,
            (a >> 21u64) & 1u64 == (b >> 21u64) & 1u64,
            (a >> 22u64) & 1u64 == (b >> 22u64) & 1u64,
            (a >> 23u64) & 1u64 == (b >> 23u64) & 1u64,
            (a >> 24u64) & 1u64 == (b >> 24u64) & 1u64,
            (a >> 25u64) & 1u64 == (b >> 25u64) & 1u64,
            (a >> 26u64) & 1u64 == (b >> 26u64) & 1u64,
            (a >> 27u64) & 1u64 == (b >> 27u64) & 1u64,
            (a >> 28u64) & 1u64 == (b >> 28u64) & 1u64,
            (a >> 29u64) & 1u64 == (b >> 29u64) & 1u64,
            (a >> 30u64) & 1u64 == (b >> 30u64) & 1u64,
            (a >> 31u64) & 1u64 == (b >> 31u64) & 1u64,
            (a >> 32u64) & 1u64 == (b >> 32u64) & 1u64,
            (a >> 33u64) & 1u64 == (b >> 33u64) & 1u64,
            (a >> 34u64) & 1u64 == (b >> 34u64) & 1u64,
            (a >> 35u64) & 1u64 == (b >> 35u64) & 1u64,
            (a >> 36u64) & 1u64 == (b >> 36u64) & 1u64,
            (a >> 37u64) & 1u64 == (b >> 37u64) & 1u64,
            (a >> 38u64) & 1u64 == (b >> 38u64) & 1u64,
            (a >> 39u64) & 1u64 == (b >> 39u64) & 1u64,
            (a >> 40u64) & 1u64 == (b >> 40u64) & 1u64,
            (a >> 41u64) & 1u64 == (b >> 41u64) & 1u64,
            (a >> 42u64) & 1u64 == (b >> 42u64) & 1u64,
            (a >> 43u64) & 1u64 == (b >> 43u64) & 1u64,
            (a >> 44u64) & 1u64 == (b >> 44u64) & 1u64,
            (a >> 45u64) & 1u64 == (b >> 45u64) & 1u64,
            (a >> 46u64) & 1u64 == (b >> 46u64) & 1u64,
            (a >> 47u64) & 1u64 == (b >> 47u64) & 1u64,
            (a >> 48u64) & 1u64 == (b >> 48u64) & 1u64,
            (a >> 49u64) & 1u64 == (b >> 49u64) & 1u64,
            (a >> 50u64) & 1u64 == (b >> 50u64) & 1u64,
            (a >> 51u64) & 1u64 == (b >> 51u64) & 1u64,
            (a >> 52u64) & 1u64 == (b >> 52u64) & 1u64,
            (a >> 53u64) & 1u64 == (b >> 53u64) & 1u64,
            (a >> 54u64) & 1u64 == (b >> 54u64) & 1u64,
            (a >> 55u64) & 1u64 == (b >> 55u64) & 1u64,
            (a >> 56u64) & 1u64 == (b >> 56u64) & 1u64,
            (a >> 57u64) & 1u64 == (b >> 57u64) & 1u64,
            (a >> 58u64) & 1u64 == (b >> 58u64) & 1u64,
            (a >> 59u64) & 1u64 == (b >> 59u64) & 1u64,
            (a >> 60u64) & 1u64 == (b >> 60u64) & 1u64,
            (a >> 61u64) & 1u64 == (b >> 61u64) & 1u64,
            (a >> 62u64) & 1u64 == (b >> 62u64) & 1u64,
            (a >> 63u64) & 1u64 == (b >> 63u64) & 1u64,
    ensures
        a == b,
{
    assert(a == b) by (bit_vector)
        requires
            (a >> 0u64) & 1u64 == (b >> 0u64) & 1u64,
            (a >> 1u64) & 1u64 == (b >> 1u64) & 1u64,
            (a >> 2u64) & 1u64 == (b >> 2u64) & 1u64,
            (a >> 3u64) & 1u64 == (b >> 3u64) & 1u64,
            (a >> 4u64) & 1u64 == (b >> 4u64) & 1u64,
            (a >> 5u64) & 1u64 == (b >> 5u64) & 1u64,
            (a >> 6u64) & 1u64 == (b >> 6u64) & 1u64,
            (a >> 7u64) & 1u64 == (b >> 7u64) & 1u64,
            (a >> 8u64) & 1u64 == (b >> 8u64) & 1u64,
            (a >> 9u64) & 1u64 == (b >> 9u64) & 1u64,
            (a >> 10u64) & 1u64 == (b >> 10u64) & 1u64,
            (a >> 11u64) & 1u64 == (b >> 11u64) & 1u64,
            (a >> 12u64) & 1u64 == (b >> 12u64) & 1u64,
            (a >> 13u64) & 1u64 == (b >> 13u64) & 1u64,
            (a >> 14u64) & 1u64 == (b >> 14u64) & 1u64,
            (a >> 15u64) & 1u64 == (b >> 15u64) & 1u64,
            (a >> 16u64) & 1u64 == (b >> 16u64) & 1u64,
            (a >> 17u64) & 1u64 == (b >> 17u64) & 1u64,
            (a >> 18u64) & 1u64 == (b >> 18u64) & 1u64,
            (a >> 19u64) & 1u64 == (b >> 19u64) & 1u64,
            (a >> 20u64) & 1u64 == (b >> 20u64) & 1u64,
            (a >> 21u64) & 1u64 == (b >> 21u64) & 1u64,
            (a >> 22u64) & 1u64 == (b >> 22u64) & 1u64,
            (a >> 23u64) & 1u64 == (b >> 23u64) & 1u64,
            (a >> 24u64) & 1u64 == (b >> 24u64) & 1u64,
            (a >> 25u64) & 1u64 == (b >> 25u64) & 1u64,
            (a >> 26u64) & 1u64 == (b >> 26u64) & 1u64,
            (a >> 27u64) & 1u64 == (b >> 27u64) & 1u64,
            (a >> 28u64) & 1u64 == (b >> 28u64) & 1u64,
            (a >> 29u64) & 1u64 == (b >> 29u64) & 1u64,
            (a >> 30u64) & 1u64 == (b >> 30u64) & 1u64,
            (a >> 31u64) & 1u64 == (b >> 31u64) & 1u64,
            (a >> 32u64) & 1u64 == (b >> 32u64) & 1u64,
            (a >> 33u64) & 1u64 == (b >> 33u64) & 1u64,
            (a >> 34u64) & 1u64 == (b >> 34u64) & 1u64,
            (a >> 35u64) & 1u64 == (b >> 35u64) & 1u64,
            (a >> 36u64) & 1u64 == (b >> 36u64) & 1u64,
            (a >> 37u64) & 1u64 == (b >> 37u64) & 1u64,
            (a >> 38u64) & 1u64 == (b >> 38u64) & 1u64,
            (a >> 39u64) & 1u64 == (b >> 39u64) & 1u64,
            (a >> 40u64) & 1u64 == (b >> 40u64) & 1u64,
            (a >> 41u64) & 1u64 == (b >> 41u64) & 1u64,
            (a >> 42u64) & 1u64 == (b >> 42u64) & 1u64,
            (a >> 43u64) & 1u64 == (b >> 43u64) & 1u64,
            (a >> 44u64) & 1u64 == (b >> 44u64) & 1u64,
            (a >> 45u64) & 1u64 == (b >> 45u64) & 1u64,
            (a >> 46u64) & 1u64 == (b >> 46u64) & 1u64,
            (a >> 47u64) & 1u64 == (b >> 47u64) & 1u64,
            (a >> 48u64) & 1u64 == (b >> 48u64) & 1u64,
            (a >> 49u64) & 1u64 == (b >> 49u64) & 1u64,
            (a >> 50u64) & 1u64 == (b >> 50u64) & 1u64,
            (a >> 51u64) & 1u64 == (b >> 51u64) & 1u64,
            (a >> 52u64) & 1u64 == (b >> 52u64) & 1u64,
            (a >> 53u64) & 1u64 == (b >> 53u64) & 1u64,
            (a >> 54u64) & 1u64 == (b >> 54u64) & 1u64,
            (a >> 55u64) & 1u64 == (b >> 55u64) & 1u64,
            (a >> 56u64) & 1u64 == (b >> 56u64) & 1u64,
            (a >> 57u64) & 1u64 == (b >> 57u64) & 1u64,
            (a >> 58u64) & 1u64 == (b >> 58u64) & 1u64,
            (a >> 59u64) & 1u64 == (b >> 59u64) & 1u64,
            (a >> 60u64) & 1u64 == (b >> 60u64) & 1u64,
            (a >> 61u64) & 1u64 == (b >> 61u64) & 1u64,
            (a >> 62u64) & 1u64 == (b >> 62u64) & 1u64,
            (a >> 63u64) & 1u64 == (b >> 63u64) & 1u64,
    ;
}

proof fn lemma_one_bit(m: u64, q: u64)
    requires
        q < 64,
    ensures
        (m >> q) & 1u64 == 0u64 || (m >> q) & 1u64 == 1u64,
{
    assert((m >> q) & 1u64 == 0u64 || (m >> q) & 1u64 == 1u64) by (bit_vector);
}

/// Two masks with the same cells are equal.
pub proof fn lemma_bits_eq(a: u64, b: u64)
    requires
        forall|q: int| 0 <= q < 64 ==> (is_set(a, q) <==> is_set(b, q)),
    ensures
        a == b,
{
    assert forall|q: u64| q < 64 implies (a >> q) & 1u64 == (b >> q) & 1u64 by {
        lemma_one_bit(a, q);
        lemma_one_bit(b, q);
        assert(is_set(a, q as int) <==> is_set(b, q as int));
    }
    lemma_bits_eq_bv(a, b);
}

/// A placement has exactly one outcome.
pub proof fn lemma_moved_to_unique(b: BitBoard, place: int, x: BitBoard, y: BitBoard)
    requires
        b.moved_to(place, x),
        b.moved_to(place, y) || y == b.after(place),
    ensures
        x == y,
{
    assert(b.moved_to(place, y));
    lemma_bits_eq(x.0, y.0);
    lemma_bits_eq(x.1, y.1);
}

pub proof fn lemma_legal_count_bound(own: u64, opp: u64, n: nat)
    ensures
        legal_count(own, opp, n) <= n,
    decreases n,
{
    if n > 0 {
        lemma_legal_count_bound(own, opp, (n - 1) as nat);
    }
}

/// Disjoint masks hold at most `n` cells below `n` together.
pub proof fn lemma_ones_disjoint(a: u64, b: u64, n: nat)
    requires
        a & b == 0,
        n <= 64,
    ensures
        ones(a, n) + ones(b, n) <= n,
    decreases n,
{
    if n > 0 {
        lemma_ones_disjoint(a, b, (n - 1) as nat);
        lemma_disjoint_bit(a, b, (n - 1) as u64);
    }
}

proof fn lemma_and_bit(a: u64, b: u64, q: u64)
    requires
        q < 64,
    ensures
        ((a & b) >> q) & 1u64 == 1u64 <==> ((a >> q) & 1u64 == 1u64 && (b >> q) & 1u64 == 1u64),
{
    assert(((a & b) >> q) & 1u64 == 1u64 <==> ((a >> q) & 1u64 == 1u64 && (b >> q) & 1u64 == 1u64))
        by (bit_vector)
        requires
            q < 64,
    ;
}

/// The flipped cells below `n` as a mask.
pub open spec fn flip_bits(own: u64, opp: u64, p: int, n: nat) -> u64
    decreases n,
{
    if n == 0 {
        0
    } else if flipped(own, opp, p, n - 1) {
        flip_bits(own, opp, p, (n - 1) as nat) | (1u64 << ((n - 1) as u64))
    } else {
        flip_bits(own, opp, p, (n - 1) as nat)
    }
}

proof fn lemma_flip_bits(own: u64, opp: u64, p: int, n: nat)
    requires
        n <= 64,
    ensures
        forall|q: int|
            0 <= q < 64 ==> (#[trigger] is_set(flip_bits(own, opp, p, n), q) <==> (q < n && flipped(
                own,
                opp,
                p,
                q,
            ))),
    decreases n,
{
    if n == 0 {
        assert(flip_bits(own, opp, p, n) == 0u64);
        assert forall|q: int| 0 <= q < 64 implies !is_set(flip_bits(own, opp, p, n), q) by {
            lemma_zero_bit(q as u64);
            assert(!is_set(0u64, q));
        }
        assert(forall|q: int|
            0 <= q < 64 ==> (#[trigger] is_set(flip_bits(own, opp, p, n), q) <==> (q < n && flipped(
                own,
                opp,
                p,
                q,
            ))));
    } else {
        let k = (n - 1) as nat;
        lemma_flip_bits(own, opp, p, k);
        let m = flip_bits(own, opp, p, k);
        assert forall|q: int|
            0 <= q < 64 implies (#[trigger] is_set(flip_bits(own, opp, p, n), q) <==> (q < n && flipped(
            own,
            opp,
            p,
            q,
        ))) by {
            lemma_set_bit(m, (n - 1) as u64, q as u64);
            assert(is_set(m, q) <==> (q < n - 1 && flipped(own, opp, p, q)));
            if flipped(own, opp, p, n - 1) {
                assert(flip_bits(own, opp, p, n) == m | (1u64 << ((n - 1) as u64)));
                assert(is_set(flip_bits(own, opp, p, n), q) <==> (is_set(m, q) || q == n - 1));
            } else {
                assert(flip_bits(own, opp, p, n) == m);
            }
        }
    }
}

/// Every legal placement has an outcome.
pub proof fn lemma_after_exists(b: BitBoard, place: int)
    requires
        b.wf(),
        b.legal_at(place),
    ensures
        b.moved_to(place, b.after(place)),
        b.after(place).wf(),
{
    let f = flip_bits(b.0, b.1, place, 64);
    lemma_flip_bits(b.0, b.1, place, 64);
    assert forall|q: int| 0 <= q < 64 implies (is_set(f & b.1, q) <==> is_set(f, q)) by {
        lemma_and_bit(f, b.1, q as u64);
        if is_set(f, q) {
            lemma_flipped_was_opp(b.0, b.1, place, q);
        }
    }
    lemma_bits_eq(f & b.1, f);
    let x = place as u64;
    let nb = BitBoard(b.1 ^ f, b.0 ^ f ^ (1u64 << x));
    lemma_apply_bits(b.0, b.1, f, x, 0);
    assert forall|q: int| 0 <= q < 64 implies (is_set(nb.0, q) <==> (is_set(b.1, q) && !flipped(
        b.0,
        b.1,
        place,
        q,
    ))) && (is_set(nb.1, q) <==> (is_set(b.0, q) || q == place || flipped(b.0, b.1, place, q))) by {
        lemma_apply_bits(b.0, b.1, f, x, q as u64);
        assert(is_set(f, q) <==> flipped(b.0, b.1, place, q));
    }
    assert(b.moved_to(place, nb));
}

} // verus!
