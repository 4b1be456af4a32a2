use crate::bits::bit_at;
use crate::patterns::PatternMaskType;
use crate::qr::{is_square, lemma_put_square, put, set_cell, QR};
use vstd::prelude::*;

verus! {

/// The next move of the zigzag walk that lays data into the free cells. Data goes
/// up and down in column pairs from the bottom-right corner; in each pair the walk
/// takes the right cell, then the left, then moves one row on.
#[derive(Copy, Clone, Debug, PartialEq, Eq, Structural)]
pub enum WalkState {
    /// At the bottom-right corner, nothing visited yet.
    Enter,
    /// On the right cell of an upward pair: next, step left.
    StepLeftUp,
    /// On the left cell of an upward pair: next, up and right, or at the top, over
    /// to the next pair (skipping the timing column) heading down.
    ClimbOrTurn,
    /// On the right cell of a downward pair: next, step left.
    StepLeftDown,
    /// On the left cell of a downward pair: next, down and right, or at the bottom,
    /// over to the next pair heading up; at the bottom of column 0 the walk ends.
    DescendOrTurn,
}

/// One move of the walk on a grid of side `w`: the next state and cell (row `y`,
/// column `x`), or `None` when the grid is exhausted.
pub open spec fn walk_step(s: WalkState, x: int, y: int, w: int) -> Option<(WalkState, int, int)> {
    match s {
        WalkState::Enter => Some((WalkState::StepLeftUp, x, y)),
        WalkState::StepLeftUp => Some((WalkState::ClimbOrTurn, x - 1, y)),
        WalkState::ClimbOrTurn => if y == 0 {
            Some((WalkState::StepLeftDown, if x == 7 { x - 2 } else { x - 1 }, y))
        } else {
            Some((WalkState::StepLeftUp, x + 1, y - 1))
        },
        WalkState::StepLeftDown => Some((WalkState::DescendOrTurn, x - 1, y)),
        WalkState::DescendOrTurn => if y == w - 1 {
            if x == 0 { None } else { Some((WalkState::StepLeftUp, x - 1, y)) }
        } else {
            Some((WalkState::StepLeftDown, x + 1, y + 1))
        },
    }
}

/// Column index with the timing column removed.
pub open spec fn rank(x: int) -> int {
    if x > 6 { x - 1 } else { x }
}

/// Where a state may stand: the cell is in the grid and off the timing column, and
/// its column matches the side of the pair and the direction the state implies.
pub open spec fn walk_valid(s: WalkState, x: int, y: int, w: int) -> bool {
    &&& 21 <= w
    &&& w % 4 == 1
    &&& 0 <= x < w
    &&& 0 <= y < w
    &&& x != 6
    &&& match s {
        WalkState::Enter => x == w - 1 && y == w - 1,
        WalkState::StepLeftUp => rank(x) % 4 == 3,
        WalkState::ClimbOrTurn => rank(x) % 4 == 2,
        WalkState::StepLeftDown => rank(x) % 4 == 1,
        WalkState::DescendOrTurn => rank(x) % 4 == 0,
    }
}

/// Moves left within the current pair.
pub open spec fn within(s: WalkState, y: int, w: int) -> int {
    match s {
        WalkState::Enter => 2 * w,
        WalkState::StepLeftUp => 2 * y + 1,
        WalkState::ClimbOrTurn => 2 * y,
        WalkState::StepLeftDown => 2 * (w - 1 - y) + 1,
        WalkState::DescendOrTurn => 2 * (w - 1 - y),
    }
}

/// A bound on the moves left: pairs to the left times a pair's worth, plus the moves
/// left in this pair.
pub open spec fn walk_bound(s: WalkState, x: int, y: int, w: int) -> int {
    (rank(x) / 2) * (2 * w + 1) + within(s, y, w)
}

/// Each move keeps the walk valid and lowers the bound.
pub proof fn lemma_walk_step(s: WalkState, x: int, y: int, w: int)
    requires
        walk_valid(s, x, y, w),
    ensures
        walk_bound(s, x, y, w) >= 0,
        match walk_step(s, x, y, w) {
            Some((s2, x2, y2)) => walk_valid(s2, x2, y2, w) && 0 <= walk_bound(s2, x2, y2, w) < walk_bound(s, x, y, w),
            None => true,
        },
{
    let p = rank(x) / 2;
    assert(p * (2 * w + 1) >= 0) by (nonlinear_arith)
        requires
            p >= 0,
            w >= 0,
    ;
    assert((p - 1) * (2 * w + 1) == p * (2 * w + 1) - (2 * w + 1)) by (nonlinear_arith);
}

/// Free cells met by the walk after state `s`, in order (at most `fuel` moves).
pub open spec fn walk_cells(tags: Seq<Seq<PatternMaskType>>, w: int, s: WalkState, x: int, y: int, fuel: nat) -> Seq<(int, int)>
    decreases fuel,
{
    if fuel == 0 {
        Seq::empty()
    } else {
        match walk_step(s, x, y, w) {
            None => Seq::empty(),
            Some((s2, x2, y2)) => {
                let here = if tags[y2][x2] == PatternMaskType::Free { seq![(y2, x2)] } else { Seq::empty() };
                here + walk_cells(tags, w, s2, x2, y2, (fuel - 1) as nat)
            },
        }
    }
}

proof fn lemma_walk_fuel(tags: Seq<Seq<PatternMaskType>>, w: int, s: WalkState, x: int, y: int, f1: nat, f2: nat)
    requires
        walk_valid(s, x, y, w),
        f1 > walk_bound(s, x, y, w),
        f2 > walk_bound(s, x, y, w),
    ensures
        walk_cells(tags, w, s, x, y, f1) == walk_cells(tags, w, s, x, y, f2),
    decreases f1,
{
    lemma_walk_step(s, x, y, w);
    match walk_step(s, x, y, w) {
        None => {},
        Some((s2, x2, y2)) => {
            lemma_walk_fuel(tags, w, s2, x2, y2, (f1 - 1) as nat, (f2 - 1) as nat);
        },
    }
}

/// Free cells after state `s`, all of them.
pub open spec fn cells_after(tags: Seq<Seq<PatternMaskType>>, w: int, s: WalkState, x: int, y: int) -> Seq<(int, int)> {
    walk_cells(tags, w, s, x, y, (walk_bound(s, x, y, w) + 1) as nat)
}

/// The free cells of a grid of side `w` in the order data is laid into them.
pub open spec fn placement_cells(tags: Seq<Seq<PatternMaskType>>, w: int) -> Seq<(int, int)> {
    cells_after(tags, w, WalkState::Enter, w - 1, w - 1)
}

/// Bits of a byte stream, most significant first in each byte.
pub open spec fn message_bits(m: Seq<u8>) -> Seq<u8> {
    Seq::new(8 * m.len(), |t: int| bit_at(m[t / 8] as nat, (7 - t % 8) as nat))
}

/// `g` with bit `t` of `bits` written at cell `cells[t]`, for `t` below `k`.
pub open spec fn fill(g: Seq<Seq<u8>>, cells: Seq<(int, int)>, bits: Seq<u8>, k: nat) -> Seq<Seq<u8>>
    decreases k,
{
    if k == 0 {
        g
    } else {
        let prev = fill(g, cells, bits, (k - 1) as nat);
        put(prev, cells[k - 1].0, cells[k - 1].1, bits[k - 1])
    }
}

/// One move of the walk.
fn next_position(state: WalkState, x: usize, y: usize, width: usize) -> (r: Option<(WalkState, usize, usize)>)
    requires
        walk_valid(state, x as int, y as int, width as int),
    ensures
        match walk_step(state, x as int, y as int, width as int) {
            Some((s2, x2, y2)) => r == Some((s2, x2 as usize, y2 as usize)),
            None => r is None,
        },
{
    proof {
        lemma_walk_step(state, x as int, y as int, width as int);
    }
    match state {
        WalkState::Enter => Some((WalkState::StepLeftUp, x, y)),
        WalkState::StepLeftUp => Some((WalkState::ClimbOrTurn, x - 1, y)),
        WalkState::ClimbOrTurn => {
            if y == 0 {
                Some((WalkState::StepLeftDown, if x == 7 { x - 2 } else { x - 1 }, y))
            } else {
                Some((WalkState::StepLeftUp, x + 1, y - 1))
            }
        },
        WalkState::StepLeftDown => Some((WalkState::DescendOrTurn, x - 1, y)),
        WalkState::DescendOrTurn => {
            if y == width - 1 {
                if x == 0 {
                    None
                } else {
                    Some((WalkState::StepLeftUp, x - 1, y))
                }
            } else {
                Some((WalkState::StepLeftDown, x + 1, y + 1))
            }
        },
    }
}

proof fn lemma_cells_after_step(tags: Seq<Seq<PatternMaskType>>, w: int, s: WalkState, x: int, y: int)
    requires
        walk_valid(s, x, y, w),
    ensures
        match walk_step(s, x, y, w) {
            None => cells_after(tags, w, s, x, y).len() == 0,
            Some((s2, x2, y2)) => cells_after(tags, w, s, x, y) == (if tags[y2][x2] == PatternMaskType::Free {
                seq![(y2, x2)]
            } else {
                Seq::empty()
            }) + cells_after(tags, w, s2, x2, y2),
        },
{
    lemma_walk_step(s, x, y, w);
    match walk_step(s, x, y, w) {
        None => {},
        Some((s2, x2, y2)) => {
            lemma_walk_fuel(tags, w, s2, x2, y2, walk_bound(s, x, y, w) as nat, (walk_bound(s2, x2, y2, w) + 1) as nat);
        },
    }
}

proof fn lemma_byte_bit(b: u8, j: u32)
    requires
        j < 8,
    ensures
        (b >> (7 - j) as u8) & 1 == bit_at(b as nat, (7 - j) as nat),
{
    let sh: u8 = (7 - j) as u8;
    vstd::bits::lemma_u8_shr_is_div(b, sh);
    let v: u8 = b >> sh;
    assert(v & 1 == v % 2) by (bit_vector);
}

/// `g` agrees with `g0` on every cell of a grid of side `n` that `t` does not tag free.
pub open spec fn keeps_reserved(g0: Seq<Seq<u8>>, g: Seq<Seq<u8>>, t: Seq<Seq<PatternMaskType>>, n: int) -> bool {
    forall|r: int, c: int|
        0 <= r < n && 0 <= c < n && t[r][c] != PatternMaskType::Free ==> #[trigger] g[r][c] == g0[r][c]
}

proof fn lemma_keeps_reserved_put(
    g0: Seq<Seq<u8>>,
    g: Seq<Seq<u8>>,
    t: Seq<Seq<PatternMaskType>>,
    n: int,
    y: int,
    x: int,
    v: u8,
)
    requires
        n >= 0,
        keeps_reserved(g0, g, t, n),
        t[y][x] == PatternMaskType::Free,
        is_square(g, n as nat),
        0 <= y < n,
        0 <= x < n,
    ensures
        keeps_reserved(g0, put(g, y, x, v), t, n),
{
    let h = put(g, y, x, v);
    assert forall|r: int, c: int|
        0 <= r < n && 0 <= c < n && t[r][c] != PatternMaskType::Free implies #[trigger] h[r][c] == g0[r][c] by {
        if r == y {
            assert(c != x);
            assert(g[r].len() == n);
        }
    }
}

proof fn lemma_walk_cells_len(tags: Seq<Seq<PatternMaskType>>, w: int, s: WalkState, x: int, y: int, fuel: nat)
    ensures
        walk_cells(tags, w, s, x, y, fuel).len() <= fuel,
    decreases fuel,
{
    if fuel > 0 {
        match walk_step(s, x, y, w) {
            None => {},
            Some((s2, x2, y2)) => {
                lemma_walk_cells_len(tags, w, s2, x2, y2, (fuel - 1) as nat);
            },
        }
    }
}

proof fn lemma_placement_len(tags: Seq<Seq<PatternMaskType>>, w: int)
    requires
        21 <= w <= 177,
        w % 4 == 1,
    ensures
        placement_cells(tags, w).len() <= 100000,
{
    let b = walk_bound(WalkState::Enter, w - 1, w - 1, w);
    assert(b <= 99999) by (nonlinear_arith)
        requires
            b == ((w - 2) / 2) * (2 * w + 1) + 2 * w,
            21 <= w <= 177,
    ;
    lemma_walk_cells_len(tags, w, WalkState::Enter, w - 1, w - 1, (b + 1) as nat);
}

impl QR {
    /// Number of free cells the zigzag walk meets: how many bits the grid can take.
    pub fn placement_capacity(&self) -> (r: usize)
        requires
            self.wf(),
        ensures
            r == placement_cells(self.tags(), self.size() as int).len(),
    {
        let ghost t0 = self.tags();
        let ghost n = self.size() as int;
        let ghost cells = placement_cells(t0, n);
        proof {
            lemma_placement_len(t0, n);
        }
        let width = self.bitmap.len();
        let mut state = WalkState::Enter;
        let mut x: usize = width - 1;
        let mut y: usize = width - 1;
        let mut count: usize = 0;
        loop
            invariant
                self.wf(),
                t0 == self.tags(),
                n == self.size() == width,
                cells == placement_cells(t0, n),
                cells.len() <= 100000,
                walk_valid(state, x as int, y as int, n),
                count + cells_after(t0, n, state, x as int, y as int).len() == cells.len(),
            ensures
                count == cells.len(),
            decreases walk_bound(state, x as int, y as int, n),
        {
            proof {
                lemma_cells_after_step(t0, n, state, x as int, y as int);
                lemma_walk_step(state, x as int, y as int, n);
            }
            match next_position(state, x, y, width) {
                None => {
                    break ;
                },
                Some((s2, x2, y2)) => {
                    state = s2;
                    x = x2;
                    y = y2;
                },
            }
            proof {
                assert(t0[y as int] == self.pattern_mask@[y as int]@);
            }
            if self.pattern_mask[y][x] == PatternMaskType::Free {
                count = count + 1;
            }
        }
        count
    }

    /// Lays the codeword stream, most significant bit first, into the free cells along
    /// the zigzag walk. Cells tagged as part of a pattern keep their modules.
    pub fn write_message(&mut self, message: Vec<u8>)
        requires
            old(self).wf(),
            message_bits(message@).len() <= placement_cells(old(self).tags(), old(self).size() as int).len(),
        ensures
            final(self).wf(),
            final(self).same_frame(old(self)),
            final(self).tags() == old(self).tags(),
            keeps_reserved(old(self).bits(), final(self).bits(), old(self).tags(), old(self).size() as int),
            final(self).bits() == fill(old(self).bits(), placement_cells(old(self).tags(), old(self).size() as int), message_bits(message@), message_bits(message@).len()),
    {
        let ghost g0 = self.bits();
        let ghost t0 = self.tags();
        let ghost n = self.size() as int;
        let ghost cells = placement_cells(t0, n);
        let ghost mbits = message_bits(message@);
        proof {
            lemma_placement_len(t0, n);
        }
        let width = self.bitmap.len();
        let mut state = WalkState::Enter;
        let mut x: usize = width - 1;
        let mut y: usize = width - 1;
        let ghost mut k: nat = 0;
        assert(cells.subrange(0, cells.len() as int) =~= cells);
        let mut i: usize = 0;
        while i < message.len()
            invariant
                self.wf(),
                self.same_frame(old(self)),
                self.tags() == t0,
                t0 == old(self).tags(),
                g0 == old(self).bits(),
                n == self.size() == width,
                cells == placement_cells(t0, n),
                mbits == message_bits(message@),
                mbits.len() <= cells.len() <= 100000,
                walk_valid(state, x as int, y as int, n),
                i <= message@.len(),
                k == 8 * i,
                k <= cells.len(),
                cells.subrange(k as int, cells.len() as int) == cells_after(t0, n, state, x as int, y as int),
                self.bits() == fill(g0, cells, mbits, k),
                keeps_reserved(g0, self.bits(), t0, n),
            decreases message@.len() - i,
        {
            let mut j: u32 = 0;
            while j < 8
                invariant
                    self.wf(),
                    self.same_frame(old(self)),
                    self.tags() == t0,
                    t0 == old(self).tags(),
                    g0 == old(self).bits(),
                    n == self.size() == width,
                    cells == placement_cells(t0, n),
                    mbits == message_bits(message@),
                    mbits.len() <= cells.len() <= 100000,
                    walk_valid(state, x as int, y as int, n),
                    i < message@.len(),
                    j <= 8,
                    k == 8 * i + j,
                    k <= cells.len(),
                    cells.subrange(k as int, cells.len() as int) == cells_after(t0, n, state, x as int, y as int),
                    self.bits() == fill(g0, cells, mbits, k),
                    keeps_reserved(g0, self.bits(), t0, n),
                decreases 8 - j,
            {
                let bit: u8 = (message[i] >> (7 - j) as u8) & 1;
                proof {
                    lemma_byte_bit(message@[i as int], j);
                    assert((8 * i + j) / 8 == i && (8 * i + j) % 8 == j);
                    assert(bit == mbits[k as int]);
                    assert(k < mbits.len());
                }
                loop
                    invariant_except_break
                        cells.subrange(k as int, cells.len() as int) == cells_after(t0, n, state, x as int, y as int),
                    invariant
                        self.wf(),
                        self.same_frame(old(self)),
                        self.tags() == t0,
                        t0 == old(self).tags(),
                        n == self.size() == width,
                        cells == placement_cells(t0, n),
                        mbits == message_bits(message@),
                        i < message@.len(),
                        j < 8,
                        k == 8 * i + j,
                        k < cells.len(),
                        walk_valid(state, x as int, y as int, n),
                    ensures
                        walk_valid(state, x as int, y as int, n),
                        k < cells.len(),
                        cells[k as int] == (y as int, x as int),
                        t0[y as int][x as int] == PatternMaskType::Free,
                        cells.subrange((k + 1) as int, cells.len() as int) == cells_after(t0, n, state, x as int, y as int),
                    decreases walk_bound(state, x as int, y as int, n),
                {
                    proof {
                        lemma_cells_after_step(t0, n, state, x as int, y as int);
                        lemma_walk_step(state, x as int, y as int, n);
                    }
                    match next_position(state, x, y, width) {
                        None => {
                            proof {
                                assert(cells.subrange(k as int, cells.len() as int).len() > 0);
                                assert(false);
                            }
                            break ;
                        },
                        Some((s2, x2, y2)) => {
                            state = s2;
                            x = x2;
                            y = y2;
                        },
                    }
                    proof {
                        assert(t0[y as int] == self.pattern_mask@[y as int]@);
                    }
                    if self.pattern_mask[y][x] == PatternMaskType::Free {
                        proof {
                            let rest = cells.subrange(k as int, cells.len() as int);
                            assert(rest[0] == cells[k as int]);
                            assert(cells.subrange((k + 1) as int, cells.len() as int) =~= rest.subrange(1, rest.len() as int));
                        }
                        break ;
                    }
                }
                proof {
                    lemma_put_square(self.bits(), n as nat, y as int, x as int, bit);
                    lemma_keeps_reserved_put(g0, self.bits(), t0, n, y as int, x as int, bit);
                    assert(self.bits()[y as int] == self.bitmap@[y as int]@);
                }
                set_cell(&mut self.bitmap, y, x, bit);
                proof {
                    k = k + 1;
                }
                j = j + 1;
            }
            i = i + 1;
        }
        assert(mbits.len() == k);
    }
}

} // verus!
