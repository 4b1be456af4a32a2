use crate::bits::{bits_of, push_to_bit_list};
use crate::error_correction::{poly_remainder, poly_rest, ECLevel, GaloisField};
use crate::qr::{is_square, put, QR};
use vstd::prelude::*;

verus! {

/// What a cell of the symbol holds: data (`Free`) or part of a fixed pattern.
#[derive(Copy, Clone, Debug, PartialEq, Eq, Structural)]
pub enum PatternMaskType {
    Free,
    Finder,
    Timing,
    Alignment,
    Format,
    Version,
    DarkModule,
}

/// `g` with every cell inside `inside` replaced by `v` of that cell.
pub open spec fn stamp<T>(
    g: Seq<Seq<T>>,
    inside: spec_fn(int, int) -> bool,
    v: spec_fn(int, int) -> T,
) -> Seq<Seq<T>> {
    Seq::new(g.len(), |y: int| Seq::new(g[y].len(), |x: int| if inside(y, x) { v(y, x) } else { g[y][x] }))
}

/// The same tag everywhere.
pub open spec fn tag_all(t: PatternMaskType) -> spec_fn(int, int) -> PatternMaskType {
    |y: int, x: int| t
}

pub open spec fn abs(a: int) -> int {
    if a < 0 { -a } else { a }
}

pub open spec fn max(a: int, b: int) -> int {
    if a < b { b } else { a }
}

/// Offset of a finder's center inside its 8x8 area: 3 against the near edge, 4
/// otherwise (the separator sits on the other side).
pub open spec fn finder_center(edge: int) -> int {
    if edge == 0 { 3 } else { 4 }
}

/// The 8x8 area of the finder whose top-left corner is at column `left`, row `top`.
pub open spec fn finder_in(left: int, top: int) -> spec_fn(int, int) -> bool {
    |y: int, x: int| top <= y < top + 8 && left <= x < left + 8
}

/// Rings around the center by Chebyshev distance, odd rings dark, the center dark.
pub open spec fn finder_val(left: int, top: int) -> spec_fn(int, int) -> u8 {
    |y: int, x: int|
        {
            let dx = x - left - finder_center(left);
            let dy = y - top - finder_center(top);
            if dx == 0 && dy == 0 {
                1u8
            } else {
                (max(abs(dx), abs(dy)) % 2) as u8
            }
        }
}

/// The cell sets on the two lines between the finders, at row 6 and column 6.
pub open spec fn timing_in(n: int) -> spec_fn(int, int) -> bool {
    |y: int, x: int| (y == 6 && 8 <= x < n - 8) || (x == 6 && 8 <= y < n - 8)
}

/// Alternating modules, dark on even positions.
pub open spec fn timing_val() -> spec_fn(int, int) -> u8 {
    |y: int, x: int| if y == 6 { (1 - x % 2) as u8 } else { (1 - y % 2) as u8 }
}

/// Writing one more cell, with the value the stamp gives it, extends the stamped area
/// by that cell.
pub proof fn lemma_stamp_put<T>(
    g: Seq<Seq<T>>,
    n: nat,
    r1: spec_fn(int, int) -> bool,
    v1: spec_fn(int, int) -> T,
    r2: spec_fn(int, int) -> bool,
    v2: spec_fn(int, int) -> T,
    y: int,
    x: int,
    a: T,
)
    requires
        is_square(g, n),
        0 <= y < n,
        0 <= x < n,
        r2(y, x),
        v2(y, x) == a,
        forall|p: int, q: int| !(p == y && q == x) ==> #[trigger] r2(p, q) == r1(p, q),
        forall|p: int, q: int| !(p == y && q == x) && r1(p, q) ==> #[trigger] v2(p, q) == v1(p, q),
    ensures
        put(stamp(g, r1, v1), y, x, a) == stamp(g, r2, v2),
        is_square(stamp(g, r2, v2), n),
{
    let lhs = put(stamp(g, r1, v1), y, x, a);
    let rhs = stamp(g, r2, v2);
    assert forall|i: int| 0 <= i < n implies #[trigger] lhs[i] =~= rhs[i] by {
        assert(g[i].len() == n);
    }
    assert(lhs =~= rhs);
}

/// Stamps that agree on every cell of the grid are equal.
pub proof fn lemma_stamp_same<T>(
    g: Seq<Seq<T>>,
    n: nat,
    r1: spec_fn(int, int) -> bool,
    v1: spec_fn(int, int) -> T,
    r2: spec_fn(int, int) -> bool,
    v2: spec_fn(int, int) -> T,
)
    requires
        is_square(g, n),
        forall|p: int, q: int| 0 <= p < n && 0 <= q < n ==> #[trigger] r2(p, q) == r1(p, q),
        forall|p: int, q: int| 0 <= p < n && 0 <= q < n && r1(p, q) ==> #[trigger] v2(p, q) == v1(p, q),
    ensures
        stamp(g, r1, v1) == stamp(g, r2, v2),
        is_square(stamp(g, r1, v1), n),
{
    let lhs = stamp(g, r1, v1);
    let rhs = stamp(g, r2, v2);
    assert forall|i: int| 0 <= i < n implies #[trigger] lhs[i] =~= rhs[i] by {
        assert(g[i].len() == n);
    }
    assert(lhs =~= rhs);
}

/// A stamp over an empty area changes nothing.
pub proof fn lemma_stamp_nothing<T>(g: Seq<Seq<T>>, n: nat, r: spec_fn(int, int) -> bool, v: spec_fn(int, int) -> T)
    requires
        is_square(g, n),
        forall|p: int, q: int| 0 <= p < n && 0 <= q < n ==> !#[trigger] r(p, q),
    ensures
        stamp(g, r, v) == g,
{
    let lhs = stamp(g, r, v);
    assert forall|i: int| 0 <= i < n implies #[trigger] lhs[i] =~= g[i] by {
        assert(g[i].len() == n);
    }
    assert(lhs =~= g);
}

/// Cells of the finder at (`left`, `top`) written once columns before `x`, and rows
/// before `y` of column `x`, are done.
pub open spec fn finder_done(left: int, top: int, x: int, y: int) -> spec_fn(int, int) -> bool {
    |r: int, c: int| (top <= r < top + 8 && left <= c < left + x) || (top <= r < top + y && c == left + x)
}

/// The ring value before the center is forced dark.
pub open spec fn finder_ring(left: int, top: int) -> spec_fn(int, int) -> u8 {
    |r: int, c: int| (max(abs(c - left - finder_center(left)), abs(r - top - finder_center(top))) % 2) as u8
}

impl QR {
    /// Places a finder pattern whose 8x8 area starts at column `left`, row `top`.
    fn create_finder(&mut self, left: usize, top: usize)
        requires
            old(self).wf(),
            left + 8 <= old(self).size(),
            top + 8 <= old(self).size(),
        ensures
            final(self).wf(),
            final(self).same_frame(old(self)),
            final(self).bits() == stamp(old(self).bits(), finder_in(left as int, top as int), finder_val(left as int, top as int)),
            final(self).tags() == stamp(old(self).tags(), finder_in(left as int, top as int), tag_all(PatternMaskType::Finder)),
    {
        let ghost g0 = self.bits();
        let ghost t0 = self.tags();
        let ghost n = self.size();
        let ghost l = left as int;
        let ghost t = top as int;
        let ghost fin = PatternMaskType::Finder;
        let x_center: usize = if left == 0 { 3 } else { 4 };
        let y_center: usize = if top == 0 { 3 } else { 4 };
        proof {
            lemma_stamp_nothing(g0, n, finder_done(l, t, 0, 0), finder_ring(l, t));
            lemma_stamp_nothing(t0, n, finder_done(l, t, 0, 0), tag_all(fin));
        }
        let mut x: usize = 0;
        while x < 8
            invariant
                self.wf(),
                self.same_frame(old(self)),
                n == self.size(),
                g0 == old(self).bits(),
                t0 == old(self).tags(),
                is_square(g0, n),
                is_square(t0, n),
                l == left,
                t == top,
                fin == PatternMaskType::Finder,
                left + 8 <= n,
                top + 8 <= n,
                x_center == finder_center(l),
                y_center == finder_center(t),
                x <= 8,
                self.bits() == stamp(g0, finder_done(l, t, x as int, 0), finder_ring(l, t)),
                self.tags() == stamp(t0, finder_done(l, t, x as int, 0), tag_all(fin)),
            decreases 8 - x,
        {
            let mut y: usize = 0;
            while y < 8
                invariant
                    self.wf(),
                    self.same_frame(old(self)),
                    n == self.size(),
                    g0 == old(self).bits(),
                    t0 == old(self).tags(),
                    is_square(g0, n),
                    is_square(t0, n),
                    l == left,
                    t == top,
                    fin == PatternMaskType::Finder,
                    left + 8 <= n,
                    top + 8 <= n,
                    x_center == finder_center(l),
                    y_center == finder_center(t),
                    x < 8,
                    y <= 8,
                    self.bits() == stamp(g0, finder_done(l, t, x as int, y as int), finder_ring(l, t)),
                    self.tags() == stamp(t0, finder_done(l, t, x as int, y as int), tag_all(fin)),
                decreases 8 - y,
            {
                let dx: usize = if x >= x_center { x - x_center } else { x_center - x };
                let dy: usize = if y >= y_center { y - y_center } else { y_center - y };
                let d: usize = if dx > dy { dx } else { dy };
                proof {
                    let (r, c) = ((y + top) as int, (x + left) as int);
                    lemma_stamp_put(g0, n, finder_done(l, t, x as int, y as int), finder_ring(l, t),
                        finder_done(l, t, x as int, y + 1), finder_ring(l, t), r, c, (d % 2) as u8);
                    lemma_stamp_put(t0, n, finder_done(l, t, x as int, y as int), tag_all(fin),
                        finder_done(l, t, x as int, y + 1), tag_all(fin), r, c, fin);
                }
                self.put_cell(y + top, x + left, (d % 2) as u8, PatternMaskType::Finder);
                y = y + 1;
            }
            proof {
                lemma_stamp_same(g0, n, finder_done(l, t, x as int, 8), finder_ring(l, t), finder_done(l, t, x + 1, 0), finder_ring(l, t));
                lemma_stamp_same(t0, n, finder_done(l, t, x as int, 8), tag_all(fin), finder_done(l, t, x + 1, 0), tag_all(fin));
            }
            x = x + 1;
        }
        proof {
            let (r, c) = ((y_center + top) as int, (x_center + left) as int);
            lemma_stamp_put(g0, n, finder_done(l, t, 8, 0), finder_ring(l, t), finder_in(l, t), finder_val(l, t), r, c, 1u8);
            lemma_stamp_put(t0, n, finder_done(l, t, 8, 0), tag_all(fin), finder_in(l, t), tag_all(fin), r, c, fin);
        }
        self.put_cell(y_center + top, x_center + left, 1, PatternMaskType::Finder);
    }
}

/// Timing cells written for columns (and rows) `8..x`, plus `(6, x)` when `half`.
pub open spec fn timing_done(x: int, half: bool) -> spec_fn(int, int) -> bool {
    |r: int, c: int| (r == 6 && 8 <= c < x) || (c == 6 && 8 <= r < x) || (half && r == 6 && c == x)
}

/// The 5x5 area of the alignment pattern centered at row `cy`, column `cx`.
pub open spec fn align_in(cy: int, cx: int) -> spec_fn(int, int) -> bool {
    |r: int, c: int| abs(r - cy) <= 2 && abs(c - cx) <= 2
}

/// Concentric rings: dark border, light ring, dark center.
pub open spec fn align_val(cy: int, cx: int) -> spec_fn(int, int) -> u8 {
    |r: int, c: int| ((max(abs(r - cy), abs(c - cx)) + 1) % 2) as u8
}

/// Alignment cells written for row offsets before `i`, and column offsets before `j`
/// of row offset `i` (offsets 0..5 from the top-left corner of the area).
pub open spec fn align_done(cy: int, cx: int, i: int, j: int) -> spec_fn(int, int) -> bool {
    |r: int, c: int|
        (cy - 2 <= r < cy - 2 + i && abs(c - cx) <= 2) || (r == cy - 2 + i && cx - 2 <= c < cx - 2 + j)
}

impl QR {
    /// Places the alternating timing lines between the finders.
    fn timing_patterns(&mut self)
        requires
            old(self).wf(),
        ensures
            final(self).wf(),
            final(self).same_frame(old(self)),
            final(self).bits() == stamp(old(self).bits(), timing_in(old(self).size() as int), timing_val()),
            final(self).tags() == stamp(old(self).tags(), timing_in(old(self).size() as int), tag_all(PatternMaskType::Timing)),
    {
        let ghost g0 = self.bits();
        let ghost t0 = self.tags();
        let ghost n = self.size();
        let ghost tim = PatternMaskType::Timing;
        let len = self.bitmap.len();
        proof {
            lemma_stamp_nothing(g0, n, timing_done(8, false), timing_val());
            lemma_stamp_nothing(t0, n, timing_done(8, false), tag_all(tim));
        }
        let mut x: usize = 8;
        while x < len - 8
            invariant
                self.wf(),
                self.same_frame(old(self)),
                n == self.size() == len,
                g0 == old(self).bits(),
                t0 == old(self).tags(),
                is_square(g0, n),
                is_square(t0, n),
                tim == PatternMaskType::Timing,
                8 <= x <= len - 8,
                self.bits() == stamp(g0, timing_done(x as int, false), timing_val()),
                self.tags() == stamp(t0, timing_done(x as int, false), tag_all(tim)),
            decreases len - 8 - x,
        {
            let bit: u8 = (1 - x % 2) as u8;
            proof {
                lemma_stamp_put(g0, n, timing_done(x as int, false), timing_val(), timing_done(x as int, true), timing_val(), 6, x as int, bit);
                lemma_stamp_put(t0, n, timing_done(x as int, false), tag_all(tim), timing_done(x as int, true), tag_all(tim), 6, x as int, tim);
                lemma_stamp_put(g0, n, timing_done(x as int, true), timing_val(), timing_done(x + 1, false), timing_val(), x as int, 6, bit);
                lemma_stamp_put(t0, n, timing_done(x as int, true), tag_all(tim), timing_done(x + 1, false), tag_all(tim), x as int, 6, tim);
            }
            self.put_cell(6, x, bit, PatternMaskType::Timing);
            self.put_cell(x, 6, bit, PatternMaskType::Timing);
            x = x + 1;
        }
        proof {
            lemma_stamp_same(g0, n, timing_done(x as int, false), timing_val(), timing_in(n as int), timing_val());
            lemma_stamp_same(t0, n, timing_done(x as int, false), tag_all(tim), timing_in(n as int), tag_all(tim));
        }
    }

    /// Places one alignment pattern centered at row `center_y`, column `center_x`.
    fn alignment_pattern(&mut self, center_y: usize, center_x: usize)
        requires
            old(self).wf(),
            2 <= center_y,
            center_y + 2 < old(self).size(),
            2 <= center_x,
            center_x + 2 < old(self).size(),
        ensures
            final(self).wf(),
            final(self).same_frame(old(self)),
            final(self).bits() == stamp(old(self).bits(), align_in(center_y as int, center_x as int), align_val(center_y as int, center_x as int)),
            final(self).tags() == stamp(old(self).tags(), align_in(center_y as int, center_x as int), tag_all(PatternMaskType::Alignment)),
    {
        let ghost g0 = self.bits();
        let ghost t0 = self.tags();
        let ghost n = self.size();
        let ghost al = PatternMaskType::Alignment;
        let ghost (cy, cx) = (center_y as int, center_x as int);
        proof {
            lemma_stamp_nothing(g0, n, align_done(cy, cx, 0, 0), align_val(cy, cx));
            lemma_stamp_nothing(t0, n, align_done(cy, cx, 0, 0), tag_all(al));
        }
        let mut i: usize = 0;
        while i < 5
            invariant
                self.wf(),
                self.same_frame(old(self)),
                n == self.size(),
                g0 == old(self).bits(),
                t0 == old(self).tags(),
                is_square(g0, n),
                is_square(t0, n),
                al == PatternMaskType::Alignment,
                cy == center_y,
                cx == center_x,
                2 <= center_y,
                center_y + 2 < n,
                2 <= center_x,
                center_x + 2 < n,
                i <= 5,
                self.bits() == stamp(g0, align_done(cy, cx, i as int, 0), align_val(cy, cx)),
                self.tags() == stamp(t0, align_done(cy, cx, i as int, 0), tag_all(al)),
            decreases 5 - i,
        {
            let mut j: usize = 0;
            while j < 5
                invariant
                    self.wf(),
                    self.same_frame(old(self)),
                    n == self.size(),
                    g0 == old(self).bits(),
                    t0 == old(self).tags(),
                    is_square(g0, n),
                    is_square(t0, n),
                    al == PatternMaskType::Alignment,
                    cy == center_y,
                    cx == center_x,
                    2 <= center_y,
                    center_y + 2 < n,
                    2 <= center_x,
                    center_x + 2 < n,
                    i < 5,
                    j <= 5,
                    self.bits() == stamp(g0, align_done(cy, cx, i as int, j as int), align_val(cy, cx)),
                    self.tags() == stamp(t0, align_done(cy, cx, i as int, j as int), tag_all(al)),
                decreases 5 - j,
            {
                let di: usize = if i >= 2 { i - 2 } else { 2 - i };
                let dj: usize = if j >= 2 { j - 2 } else { 2 - j };
                let d: usize = if di > dj { di } else { dj };
                let bit: u8 = ((d + 1) % 2) as u8;
                proof {
                    let (r, c) = ((center_y - 2 + i) as int, (center_x - 2 + j) as int);
                    lemma_stamp_put(g0, n, align_done(cy, cx, i as int, j as int), align_val(cy, cx), align_done(cy, cx, i as int, j + 1), align_val(cy, cx), r, c, bit);
                    lemma_stamp_put(t0, n, align_done(cy, cx, i as int, j as int), tag_all(al), align_done(cy, cx, i as int, j + 1), tag_all(al), r, c, al);
                }
                self.put_cell(center_y - 2 + i, center_x - 2 + j, bit, PatternMaskType::Alignment);
                j = j + 1;
            }
            proof {
                lemma_stamp_same(g0, n, align_done(cy, cx, i as int, 5), align_val(cy, cx), align_done(cy, cx, i + 1, 0), align_val(cy, cx));
                lemma_stamp_same(t0, n, align_done(cy, cx, i as int, 5), tag_all(al), align_done(cy, cx, i + 1, 0), tag_all(al));
            }
            i = i + 1;
        }
        proof {
            lemma_stamp_same(g0, n, align_done(cy, cx, 5, 0), align_val(cy, cx), align_in(cy, cx), align_val(cy, cx));
            lemma_stamp_same(t0, n, align_done(cy, cx, 5, 0), tag_all(al), align_in(cy, cx), tag_all(al));
        }
    }
}

/// Number of gaps between alignment pattern centers along one side.
pub open spec fn alignment_gaps(version: int) -> int {
    version / 7 + 1
}

/// Distance between alignment pattern centers: the span `width - 12` over the gaps,
/// rounded up to an even number.
pub open spec fn alignment_spacing(version: int) -> int {
    let ng = alignment_gaps(version);
    let w = 17 + 4 * version;
    ((w - 12 + 2 * ng - 1) / (2 * ng)) * 2
}

/// Number of alignment patterns placed: none for version 1, else a pair on the edges
/// per gap but the first, and the full lattice.
pub open spec fn alignment_count(version: int) -> int {
    let ng = alignment_gaps(version);
    if version == 1 { 0 } else { 2 * (ng - 1) + ng * ng }
}

/// Center (row, column) of the `k`-th alignment pattern: edge pairs first, then the
/// lattice row by row, all counted back from `width - 7`.
pub open spec fn alignment_center(version: int, k: int) -> (int, int) {
    let ng = alignment_gaps(version);
    let w = 17 + 4 * version;
    let sp = alignment_spacing(version);
    let ne = 2 * (ng - 1);
    if k < ne {
        let i = k / 2 + 1;
        if k % 2 == 0 { (w - 7 - i * sp, 6) } else { (6, w - 7 - i * sp) }
    } else {
        let m = k - ne;
        (w - 7 - (m / ng) * sp, w - 7 - (m % ng) * sp)
    }
}

/// Whether the 5x5 area around (`cy`, `cx`) lies inside a grid of side `n`.
pub open spec fn fits(cy: int, cx: int, n: int) -> bool {
    2 <= cy && cy + 2 < n && 2 <= cx && cx + 2 < n
}

/// Modules after placing the first `k` alignment patterns of a version in order.
pub open spec fn aligned_bits(g: Seq<Seq<u8>>, version: int, n: int, k: nat) -> Seq<Seq<u8>>
    decreases k,
{
    if k == 0 {
        g
    } else {
        let prev = aligned_bits(g, version, n, (k - 1) as nat);
        let (cy, cx) = alignment_center(version, k - 1);
        if fits(cy, cx, n) { stamp(prev, align_in(cy, cx), align_val(cy, cx)) } else { prev }
    }
}

/// Tags after placing the first `k` alignment patterns of a version in order.
pub open spec fn aligned_tags(g: Seq<Seq<PatternMaskType>>, version: int, n: int, k: nat) -> Seq<Seq<PatternMaskType>>
    decreases k,
{
    if k == 0 {
        g
    } else {
        let prev = aligned_tags(g, version, n, (k - 1) as nat);
        let (cy, cx) = alignment_center(version, k - 1);
        if fits(cy, cx, n) { stamp(prev, align_in(cy, cx), tag_all(PatternMaskType::Alignment)) } else { prev }
    }
}

impl QR {
    /// Places every alignment pattern of the version.
    fn alignment_patterns(&mut self)
        requires
            old(self).wf(),
        ensures
            final(self).wf(),
            final(self).same_frame(old(self)),
            final(self).bits() == aligned_bits(old(self).bits(), old(self).version as int, old(self).size() as int, alignment_count(old(self).version as int) as nat),
            final(self).tags() == aligned_tags(old(self).tags(), old(self).version as int, old(self).size() as int, alignment_count(old(self).version as int) as nat),
    {
        if self.version == 1 {
            return;
        }
        let ghost g0 = self.bits();
        let ghost t0 = self.tags();
        let ghost v = self.version as int;
        let ghost n = self.size() as int;
        let n_gaps: i64 = self.version as i64 / 7 + 1;
        let width: i64 = self.bitmap.len() as i64;
        let spacing: i64 = ((width - 12 + 2 * n_gaps - 1) / (2 * n_gaps)) * 2;
        let n_edge: i64 = 2 * (n_gaps - 1);
        assert(1 <= n_gaps * n_gaps <= 36) by (nonlinear_arith)
            requires
                1 <= n_gaps <= 6,
        ;
        let total: i64 = n_edge + n_gaps * n_gaps;
        proof {
            let numer = width - 12 + 2 * n_gaps - 1;
            let d = 2 * n_gaps;
            vstd::arithmetic::div_mod::lemma_div_pos_is_pos(numer as int, d as int);
            vstd::arithmetic::div_mod::lemma_div_is_ordered_by_denominator(numer as int, 1, d as int);
            assert(numer / 1 == numer);
        }
        let mut k: i64 = 0;
        while k < total
            invariant
                self.wf(),
                self.same_frame(old(self)),
                g0 == old(self).bits(),
                t0 == old(self).tags(),
                v == self.version,
                2 <= v <= 40,
                n == self.size(),
                width == n,
                n_gaps == alignment_gaps(v),
                spacing == alignment_spacing(v),
                0 <= spacing <= 400,
                n_edge == 2 * (n_gaps - 1),
                1 <= n_gaps <= 6,
                total == alignment_count(v),
                total <= 46,
                0 <= k <= total,
                self.bits() == aligned_bits(g0, v, n, k as nat),
                self.tags() == aligned_tags(t0, v, n, k as nat),
            decreases total - k,
        {
            let (cy, cx): (i64, i64) = if k < n_edge {
                let i = k / 2 + 1;
                assert(i * spacing <= 46 * 400) by (nonlinear_arith)
                    requires
                        0 <= i <= 46,
                        0 <= spacing <= 400,
                ;
                if k % 2 == 0 {
                    (width - 7 - i * spacing, 6)
                } else {
                    (6, width - 7 - i * spacing)
                }
            } else {
                let m = k - n_edge;
                assert((m / n_gaps) * spacing <= 46 * 400 && (m % n_gaps) * spacing <= 46 * 400) by (nonlinear_arith)
                    requires
                        0 <= m <= 46,
                        1 <= n_gaps,
                        0 <= spacing <= 400,
                        0 <= m / n_gaps <= m,
                        0 <= m % n_gaps < n_gaps <= 6,
                ;
                (width - 7 - (m / n_gaps) * spacing, width - 7 - (m % n_gaps) * spacing)
            };
            assert((cy as int, cx as int) == alignment_center(v, k as int));
            if 2 <= cy && cy + 2 < width && 2 <= cx && cx + 2 < width {
                self.alignment_pattern(cy as usize, cx as usize);
            }
            k = k + 1;
        }
    }
}

/// Two-bit code of an error-correction level in the format field.
pub open spec fn ec_code(l: ECLevel) -> nat {
    match l {
        ECLevel::L => 1,
        ECLevel::M => 0,
        ECLevel::Q => 3,
        ECLevel::H => 2,
    }
}

/// Divisor of the format field's check bits.
pub open spec fn format_divisor() -> Seq<u8> {
    seq![1u8, 0, 1, 0, 0, 1, 1, 0, 1, 1, 1]
}

/// Mask XORed onto the format field.
pub open spec fn format_mask() -> Seq<u8> {
    seq![1u8, 0, 1, 0, 1, 0, 0, 0, 0, 0, 1, 0, 0, 1, 0]
}

/// Level code, mask id, and ten zeros to hold the check bits.
pub open spec fn format_info(l: ECLevel, mask: nat) -> Seq<u8> {
    bits_of(ec_code(l), 2) + bits_of(mask, 3) + Seq::new(10, |i: int| 0u8)
}

/// The 15 format bits: level and mask followed by their check bits, masked.
pub open spec fn format_word(l: ECLevel, mask: nat) -> Seq<u8> {
    let info = format_info(l, mask);
    let rest = poly_remainder(info, format_divisor());
    Seq::new(15, |i: int| (if i < 5 { info[i] } else { rest[i - 5] }) ^ format_mask()[i])
}

/// First copy of format bit `i`: along row 8 left of the top-left finder, then up
/// column 8 (skipping the timing cells).
pub open spec fn format_pos1(i: int) -> (int, int) {
    if i < 7 {
        (8, if i == 6 { 7 } else { i })
    } else {
        (if i < 9 { 15 - i } else { 14 - i }, 8)
    }
}

/// Second copy of format bit `i`: up column 8 from the bottom, then along row 8 to the
/// right edge.
pub open spec fn format_pos2(n: int, i: int) -> (int, int) {
    if i < 7 { (n - 1 - i, 8) } else { (8, n - 15 + i) }
}

/// Which format bit a cell holds, or -1.
pub open spec fn format_index(n: int, r: int, c: int) -> int {
    if r == 8 && 0 <= c < 6 {
        c
    } else if r == 8 && c == 7 {
        6
    } else if r == 8 && c == 8 {
        7
    } else if r == 8 && n - 8 <= c < n {
        c - n + 15
    } else if c == 8 && r == 7 {
        8
    } else if c == 8 && 0 <= r < 6 {
        14 - r
    } else if c == 8 && n - 7 <= r < n {
        n - 1 - r
    } else {
        -1
    }
}

pub open spec fn format_in(n: int) -> spec_fn(int, int) -> bool {
    |r: int, c: int| format_index(n, r, c) >= 0
}

pub open spec fn format_val(l: ECLevel, mask: nat, n: int) -> spec_fn(int, int) -> u8 {
    |r: int, c: int| format_word(l, mask)[format_index(n, r, c)]
}

/// Format cells of bits before `i` written, and the first copy of bit `i` when `half`.
pub open spec fn format_done(n: int, i: int, half: bool) -> spec_fn(int, int) -> bool {
    |r: int, c: int|
        {
            let j = format_index(n, r, c);
            0 <= j && (j < i || (half && j == i && (r, c) == format_pos1(i)))
        }
}

impl QR {
    /// Writes the format field (level and mask id with check bits) twice beside the
    /// finders, building the field tables for this one call.
    pub fn format_pattern(&mut self)
        requires
            old(self).wf(),
        ensures
            final(self).wf(),
            final(self).same_frame(old(self)),
            final(self).bits() == stamp(old(self).bits(), format_in(old(self).size() as int), format_val(old(self).ec_level, old(self).mask_index as nat, old(self).size() as int)),
            final(self).tags() == stamp(old(self).tags(), format_in(old(self).size() as int), tag_all(PatternMaskType::Format)),
    {
        let gf = GaloisField::new();
        self.format_pattern_with(&gf);
    }

    /// Writes the format field twice beside the finders, with the given field tables.
    pub fn format_pattern_with(&mut self, gf: &GaloisField)
        requires
            old(self).wf(),
            gf.wf(),
        ensures
            final(self).wf(),
            final(self).same_frame(old(self)),
            final(self).bits() == stamp(old(self).bits(), format_in(old(self).size() as int), format_val(old(self).ec_level, old(self).mask_index as nat, old(self).size() as int)),
            final(self).tags() == stamp(old(self).tags(), format_in(old(self).size() as int), tag_all(PatternMaskType::Format)),
    {
        let ghost g0 = self.bits();
        let ghost t0 = self.tags();
        let ghost n = self.size() as int;
        let ghost fm = PatternMaskType::Format;
        let ghost word = format_word(self.ec_level, self.mask_index as nat);
        let ec: u32 = match self.ec_level {
            ECLevel::L => 1,
            ECLevel::M => 0,
            ECLevel::Q => 3,
            ECLevel::H => 2,
        };
        let mut info: Vec<u8> = Vec::new();
        push_to_bit_list(&mut info, ec, 2);
        push_to_bit_list(&mut info, self.mask_index as u32, 3);
        let mut z: usize = 0;
        while z < 10
            invariant
                z <= 10,
                info@ == bits_of(ec as nat, 2) + bits_of(self.mask_index as nat, 3) + Seq::new(z as nat, |i: int| 0u8),
            decreases 10 - z,
        {
            info.push(0);
            z = z + 1;
            assert(info@ =~= bits_of(ec as nat, 2) + bits_of(self.mask_index as nat, 3) + Seq::new(z as nat, |i: int| 0u8));
        }
        assert(info@ == format_info(self.ec_level, self.mask_index as nat));
        let format_divisor: Vec<u8> = vec![1, 0, 1, 0, 0, 1, 1, 0, 1, 1, 1];
        let format_mask: Vec<u8> = vec![1, 0, 1, 0, 1, 0, 0, 0, 0, 0, 1, 0, 0, 1, 0];
        assert(format_divisor@ =~= crate::patterns::format_divisor());
        assert(format_mask@ =~= crate::patterns::format_mask());
        let rest = poly_rest(gf, &info, &format_divisor);
        let ghost info0 = info@;
        let mut i: usize = 0;
        while i < 10
            invariant
                i <= 10,
                rest@.len() == 10,
                info@.len() == 15,
                forall|j: int| 0 <= j < 15 ==> #[trigger] info@[j] == if 5 <= j < 5 + i { rest@[j - 5] } else { info0[j] },
            decreases 10 - i,
        {
            info.set(i + 5, rest[i]);
            i = i + 1;
        }
        let width = self.bitmap.len();
        proof {
            lemma_stamp_nothing(g0, n as nat, format_done(n, 0, false), format_val(self.ec_level, self.mask_index as nat, n));
            lemma_stamp_nothing(t0, n as nat, format_done(n, 0, false), tag_all(fm));
        }
        let mut i: usize = 0;
        while i < 15
            invariant
                self.wf(),
                self.same_frame(old(self)),
                g0 == old(self).bits(),
                t0 == old(self).tags(),
                is_square(g0, n as nat),
                is_square(t0, n as nat),
                n == self.size() == width,
                fm == PatternMaskType::Format,
                word == format_word(self.ec_level, self.mask_index as nat),
                info@.len() == 15,
                format_mask@ == crate::patterns::format_mask(),
                forall|j: int| 0 <= j < 15 ==> (#[trigger] info@[j] ^ format_mask@[j]) == word[j],
                i <= 15,
                self.bits() == stamp(g0, format_done(n, i as int, false), format_val(self.ec_level, self.mask_index as nat, n)),
                self.tags() == stamp(t0, format_done(n, i as int, false), tag_all(fm)),
            decreases 15 - i,
        {
            let bit = info[i] ^ format_mask[i];
            let ghost fv = format_val(self.ec_level, self.mask_index as nat, n);
            let (y1, x1): (usize, usize) = if i < 7 {
                (8, if i == 6 { 7 } else { i })
            } else {
                (if i < 9 { 15 - i } else { 14 - i }, 8)
            };
            let (y2, x2): (usize, usize) = if i < 7 {
                (width - 1 - i, 8)
            } else {
                (8, width - 15 + i)
            };
            proof {
                assert(format_index(n, y1 as int, x1 as int) == i);
                assert(format_index(n, y2 as int, x2 as int) == i);
                lemma_stamp_put(g0, n as nat, format_done(n, i as int, false), fv, format_done(n, i as int, true), fv, y1 as int, x1 as int, bit);
                lemma_stamp_put(t0, n as nat, format_done(n, i as int, false), tag_all(fm), format_done(n, i as int, true), tag_all(fm), y1 as int, x1 as int, fm);
                lemma_stamp_put(g0, n as nat, format_done(n, i as int, true), fv, format_done(n, i + 1, false), fv, y2 as int, x2 as int, bit);
                lemma_stamp_put(t0, n as nat, format_done(n, i as int, true), tag_all(fm), format_done(n, i + 1, false), tag_all(fm), y2 as int, x2 as int, fm);
            }
            self.put_cell(y1, x1, bit, PatternMaskType::Format);
            self.put_cell(y2, x2, bit, PatternMaskType::Format);
            i = i + 1;
        }
        proof {
            let fv = format_val(self.ec_level, self.mask_index as nat, n);
            lemma_stamp_same(g0, n as nat, format_done(n, 15, false), fv, format_in(n), fv);
            lemma_stamp_same(t0, n as nat, format_done(n, 15, false), tag_all(fm), format_in(n), tag_all(fm));
        }
    }
}

/// Divisor of the version field's check bits.
pub open spec fn version_divisor() -> Seq<u8> {
    seq![1u8, 1, 1, 1, 1, 0, 0, 1, 0, 0, 1, 0, 1]
}

/// The 18 version bits: the version in 6 bits, then the remainder of those bits
/// followed by 12 zeros divided by the version divisor.
pub open spec fn version_word(version: nat) -> Seq<u8> {
    let vb = bits_of(version, 6);
    vb + poly_remainder(vb + Seq::new(12, |i: int| 0u8), version_divisor())
}

/// Which version bit (counted from the least significant) a cell holds, or -1: a 6x3
/// block above the bottom-left finder and its transpose left of the top-right finder.
pub open spec fn version_index(n: int, r: int, c: int) -> int {
    if 0 <= r < 6 && n - 11 <= c < n - 8 {
        3 * r + c - (n - 11)
    } else if 0 <= c < 6 && n - 11 <= r < n - 8 {
        3 * c + r - (n - 11)
    } else {
        -1
    }
}

pub open spec fn version_in(n: int, version: int) -> spec_fn(int, int) -> bool {
    |r: int, c: int| version >= 7 && version_index(n, r, c) >= 0
}

/// Cell with index `i` holds bit `i` of the field counted from the least significant
/// end, that is entry `17 - i` of the most-significant-first word.
pub open spec fn version_val(n: int, version: int) -> spec_fn(int, int) -> u8 {
    |r: int, c: int| version_word(version as nat)[17 - version_index(n, r, c)]
}

/// Version cells of bits before `i` written, and the first copy of bit `i` when `half`.
pub open spec fn version_done(n: int, i: int, half: bool) -> spec_fn(int, int) -> bool {
    |r: int, c: int|
        {
            let j = version_index(n, r, c);
            0 <= j && (j < i || (half && j == i && r == i / 3))
        }
}

/// The dark module, above the bottom-left finder.
pub open spec fn dark_in(n: int) -> spec_fn(int, int) -> bool {
    |r: int, c: int| r == n - 8 && c == 8
}

pub open spec fn dark_val() -> spec_fn(int, int) -> u8 {
    |r: int, c: int| 1u8
}

impl QR {
    /// Writes the version field twice, for version 7 and up.
    fn version_information_pattern(&mut self, gf: &GaloisField)
        requires
            old(self).wf(),
            gf.wf(),
        ensures
            final(self).wf(),
            final(self).same_frame(old(self)),
            final(self).bits() == stamp(old(self).bits(), version_in(old(self).size() as int, old(self).version as int), version_val(old(self).size() as int, old(self).version as int)),
            final(self).tags() == stamp(old(self).tags(), version_in(old(self).size() as int, old(self).version as int), tag_all(PatternMaskType::Version)),
    {
        let ghost g0 = self.bits();
        let ghost t0 = self.tags();
        let ghost n = self.size() as int;
        let ghost v = self.version as int;
        let ghost vm = PatternMaskType::Version;
        if self.version < 7 {
            proof {
                lemma_stamp_nothing(g0, n as nat, version_in(n, v), version_val(n, v));
                lemma_stamp_nothing(t0, n as nat, version_in(n, v), tag_all(vm));
            }
            return;
        }
        let version_divisor: Vec<u8> = vec![1, 1, 1, 1, 1, 0, 0, 1, 0, 0, 1, 0, 1];
        assert(version_divisor@ =~= crate::patterns::version_divisor());
        let mut version_bits: Vec<u8> = Vec::new();
        push_to_bit_list(&mut version_bits, self.version as u32, 6);
        assert(version_bits@ =~= bits_of(v as nat, 6));
        let mut padded: Vec<u8> = version_bits.clone();
        assert(padded@ =~= version_bits@);
        let mut z: usize = 0;
        while z < 12
            invariant
                z <= 12,
                padded@ == version_bits@ + Seq::new(z as nat, |i: int| 0u8),
            decreases 12 - z,
        {
            padded.push(0);
            z = z + 1;
            assert(padded@ =~= version_bits@ + Seq::new(z as nat, |i: int| 0u8));
        }
        let ec_version = poly_rest(gf, &padded, &version_divisor);
        let mut word: Vec<u8> = version_bits.clone();
        assert(word@ =~= version_bits@);
        word.append(&mut ec_version.clone());
        assert(word@ =~= version_word(v as nat));
        assert(word@.len() == 18);
        let width = self.bitmap.len();
        proof {
            lemma_stamp_nothing(g0, n as nat, version_done(n, 0, false), version_val(n, v));
            lemma_stamp_nothing(t0, n as nat, version_done(n, 0, false), tag_all(vm));
        }
        let mut i: usize = 0;
        while i < 18
            invariant
                self.wf(),
                self.same_frame(old(self)),
                g0 == old(self).bits(),
                t0 == old(self).tags(),
                is_square(g0, n as nat),
                is_square(t0, n as nat),
                n == self.size() == width,
                v == self.version,
                7 <= v <= 40,
                vm == PatternMaskType::Version,
                word@ == version_word(v as nat),
                word@.len() == 18,
                i <= 18,
                self.bits() == stamp(g0, version_done(n, i as int, false), version_val(n, v)),
                self.tags() == stamp(t0, version_done(n, i as int, false), tag_all(vm)),
            decreases 18 - i,
        {
            let bit = word[17 - i];
            let (y1, x1): (usize, usize) = (i / 3, i % 3 + width - 11);
            let (y2, x2): (usize, usize) = (i % 3 + width - 11, i / 3);
            proof {
                assert(version_index(n, y1 as int, x1 as int) == i);
                assert(version_index(n, y2 as int, x2 as int) == i);
                let vv = version_val(n, v);
                lemma_stamp_put(g0, n as nat, version_done(n, i as int, false), vv, version_done(n, i as int, true), vv, y1 as int, x1 as int, bit);
                lemma_stamp_put(t0, n as nat, version_done(n, i as int, false), tag_all(vm), version_done(n, i as int, true), tag_all(vm), y1 as int, x1 as int, vm);
                lemma_stamp_put(g0, n as nat, version_done(n, i as int, true), vv, version_done(n, i + 1, false), vv, y2 as int, x2 as int, bit);
                lemma_stamp_put(t0, n as nat, version_done(n, i as int, true), tag_all(vm), version_done(n, i + 1, false), tag_all(vm), y2 as int, x2 as int, vm);
            }
            self.put_cell(y1, x1, bit, PatternMaskType::Version);
            self.put_cell(y2, x2, bit, PatternMaskType::Version);
            i = i + 1;
        }
        proof {
            let vv = version_val(n, v);
            lemma_stamp_same(g0, n as nat, version_done(n, 18, false), vv, version_in(n, v), vv);
            lemma_stamp_same(t0, n as nat, version_done(n, 18, false), tag_all(vm), version_in(n, v), tag_all(vm));
        }
    }

    /// Sets the dark module above the bottom-left finder.
    fn dark_module(&mut self)
        requires
            old(self).wf(),
        ensures
            final(self).wf(),
            final(self).same_frame(old(self)),
            final(self).bits() == stamp(old(self).bits(), dark_in(old(self).size() as int), dark_val()),
            final(self).tags() == stamp(old(self).tags(), dark_in(old(self).size() as int), tag_all(PatternMaskType::DarkModule)),
    {
        let ghost n = self.size() as int;
        proof {
            lemma_stamp_nothing(self.bits(), n as nat, |r: int, c: int| false, dark_val());
            lemma_stamp_nothing(self.tags(), n as nat, |r: int, c: int| false, tag_all(PatternMaskType::DarkModule));
            lemma_stamp_put(self.bits(), n as nat, |r: int, c: int| false, dark_val(), dark_in(n), dark_val(), n - 8, 8, 1u8);
            lemma_stamp_put(self.tags(), n as nat, |r: int, c: int| false, tag_all(PatternMaskType::DarkModule), dark_in(n), tag_all(PatternMaskType::DarkModule), n - 8, 8, PatternMaskType::DarkModule);
        }
        self.put_cell(4 * self.version as usize + 9, 8, 1, PatternMaskType::DarkModule);
    }
}

/// Modules after every fixed pattern is placed, in order: the three finders, the
/// timing lines, the alignment patterns, the format field, the version field, the
/// dark module.
pub open spec fn patterned_bits(g: Seq<Seq<u8>>, version: u8, l: ECLevel, mask: nat) -> Seq<Seq<u8>> {
    let n = (17 + 4 * version) as int;
    let v = version as int;
    let g1 = stamp(g, finder_in(0, 0), finder_val(0, 0));
    let g2 = stamp(g1, finder_in(0, n - 8), finder_val(0, n - 8));
    let g3 = stamp(g2, finder_in(n - 8, 0), finder_val(n - 8, 0));
    let g4 = stamp(g3, timing_in(n), timing_val());
    let g5 = aligned_bits(g4, v, n, alignment_count(v) as nat);
    let g6 = stamp(g5, format_in(n), format_val(l, mask, n));
    let g7 = stamp(g6, version_in(n, v), version_val(n, v));
    stamp(g7, dark_in(n), dark_val())
}

/// Tags after every fixed pattern is placed, in the same order.
pub open spec fn patterned_tags(g: Seq<Seq<PatternMaskType>>, version: u8) -> Seq<Seq<PatternMaskType>> {
    let n = (17 + 4 * version) as int;
    let v = version as int;
    let g1 = stamp(g, finder_in(0, 0), tag_all(PatternMaskType::Finder));
    let g2 = stamp(g1, finder_in(0, n - 8), tag_all(PatternMaskType::Finder));
    let g3 = stamp(g2, finder_in(n - 8, 0), tag_all(PatternMaskType::Finder));
    let g4 = stamp(g3, timing_in(n), tag_all(PatternMaskType::Timing));
    let g5 = aligned_tags(g4, v, n, alignment_count(v) as nat);
    let g6 = stamp(g5, format_in(n), tag_all(PatternMaskType::Format));
    let g7 = stamp(g6, version_in(n, v), tag_all(PatternMaskType::Version));
    stamp(g7, dark_in(n), tag_all(PatternMaskType::DarkModule))
}

impl QR {
    /// Places all fixed patterns.
    pub fn apply_patterns(&mut self)
        requires
            old(self).wf(),
        ensures
            final(self).wf(),
            final(self).same_frame(old(self)),
            final(self).bits() == patterned_bits(old(self).bits(), old(self).version, old(self).ec_level, old(self).mask_index as nat),
            final(self).tags() == patterned_tags(old(self).tags(), old(self).version),
    {
        let gf = GaloisField::new();
        self.apply_patterns_with(&gf);
    }

    /// Places all fixed patterns, with the given field tables.
    pub fn apply_patterns_with(&mut self, gf: &GaloisField)
        requires
            old(self).wf(),
            gf.wf(),
        ensures
            final(self).wf(),
            final(self).same_frame(old(self)),
            final(self).bits() == patterned_bits(old(self).bits(), old(self).version, old(self).ec_level, old(self).mask_index as nat),
            final(self).tags() == patterned_tags(old(self).tags(), old(self).version),
    {
        let length = self.bitmap.len();
        self.create_finder(0, 0);
        self.create_finder(0, length - 8);
        self.create_finder(length - 8, 0);
        self.timing_patterns();
        self.alignment_patterns();
        self.format_pattern_with(gf);
        self.version_information_pattern(gf);
        self.dark_module();
    }
}

} // verus!
