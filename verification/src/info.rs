use vstd::prelude::*;

use crate::boardvec::BoardVec;

verus! {

/// Number of points on a board of side length `size`.
pub open spec fn count_spec(size: int) -> int {
    let cr = 2 * size - 1;
    cr * cr - size * (size - 1)
}

/// Range of each coordinate on a board of side length `size`.
pub open spec fn cr_spec(size: int) -> int {
    2 * size - 1
}

/// Whether `(x, y)` lies inside the hexagonal footprint.
pub open spec fn in_bounds_spec(size: int, x: int, y: int) -> bool {
    &&& 0 <= x < cr_spec(size)
    &&& 0 <= y < cr_spec(size)
    &&& size - 1 <= x + y < 3 * size - 2
}

/// Whether `(x, y)` lies on one of the six bounding lines of the footprint.
pub open spec fn on_boundary_spec(size: int, x: int, y: int) -> bool {
    ||| x == 0
    ||| y == 0
    ||| x == cr_spec(size) - 1
    ||| y == cr_spec(size) - 1
    ||| x + y == size - 1
    ||| x + y == 3 * size - 3
}

/// x offset of the `k`-th neighbour direction, in cyclic order around a hex.
pub open spec fn offset_dx(k: int) -> int {
    if k == 0 || k == 1 {
        -1
    } else if k == 3 || k == 4 {
        1
    } else {
        0
    }
}

/// y offset of the `k`-th neighbour direction, in cyclic order around a hex.
pub open spec fn offset_dy(k: int) -> int {
    if k == 1 || k == 2 {
        1
    } else if k == 4 || k == 5 {
        -1
    } else {
        0
    }
}

/// Whether the two on-board coordinates are neighbours on the hex grid.
pub open spec fn adjacent_spec(size: int, x1: int, y1: int, x2: int, y2: int) -> bool {
    &&& in_bounds_spec(size, x1, y1)
    &&& in_bounds_spec(size, x2, y2)
    &&& exists|k: int| 0 <= k < 6 && x2 == x1 + offset_dx(k) && y2 == y1 + offset_dy(k)
}

/// A local tactical template used to bias playouts: if none of `empty` is
/// occupied and the current player holds all of `ours`, play `to_play`.
#[derive(Copy, Clone)]
pub struct Pattern {
    /// Cells which must be occupied by the current player.
    pub ours: BoardVec,
    /// Cells which must not be occupied by either player.
    pub empty: BoardVec,
    /// The point the pattern recommends.
    pub to_play: usize,
}

impl Pattern {
    /// Whether the pattern applies given both players' occupancy.
    pub open spec fn applicable(self, last: Set<int>, current: Set<int>) -> bool {
        &&& self.empty@.disjoint(last)
        &&& self.empty@.disjoint(current)
        &&& self.ours@.subset_of(current)
    }

    /// Structurally valid for a board of `n` points: the recommended point is
    /// on the board and is one of the cells required to be empty.
    pub open spec fn wf(self, n: int) -> bool {
        &&& self.to_play < n
        &&& self.empty@ == Set::<int>::empty().insert(self.to_play as int)
        &&& forall|q: int| self.ours@.contains(q) ==> 0 <= q < n
    }

    /// Returns the recommended point exactly when the pattern applies.
    pub fn check(&self, last_player: &BoardVec, current_player: &BoardVec) -> (r: Option<usize>)
        ensures
            r == (if self.applicable(last_player@, current_player@) {
                Some(self.to_play)
            } else {
                None::<usize>
            }),
    {
        if !last_player.intersects(&self.empty) && !current_player.intersects(&self.empty)
            && current_player.contains(&self.ours) {
            Some(self.to_play)
        } else {
            None
        }
    }
}

/// Whether `(x, y)` lies inside the hexagonal footprint.
fn in_bounds(size: usize, x: usize, y: usize) -> (r: bool)
    requires
        1 <= size <= 7,
    ensures
        r == in_bounds_spec(size as int, x as int, y as int),
{
    let coords_range = 2 * size - 1;
    if x >= coords_range || y >= coords_range {
        return false;
    }
    let s = x + y;
    s >= size - 1 && s < 3 * size - 2
}

/// Whether `(x, y)` lies on the edge of the board.
fn on_boundary_xy(size: usize, x: usize, y: usize) -> (r: bool)
    requires
        1 <= size <= 7,
        x < cr_spec(size as int),
        y < cr_spec(size as int),
    ensures
        r == on_boundary_spec(size as int, x as int, y as int),
{
    let coords_range = 2 * size - 1;
    x == 0 || y == 0 || x == coords_range - 1 || y == coords_range - 1 || x + y == size - 1 || x + y
        == 3 * size - 3
}

/// The `i`-th neighbour of `(x, y)`, if it is on the board.
fn get_adjacent(size: usize, x: usize, y: usize, i: usize) -> (r: Option<(usize, usize)>)
    requires
        1 <= size <= 7,
        i < 6,
        x < cr_spec(size as int),
        y < cr_spec(size as int),
    ensures
        ({
            let nx = x as int + offset_dx(i as int);
            let ny = y as int + offset_dy(i as int);
            match r {
                Some(p) => in_bounds_spec(size as int, nx, ny) && p.0 == nx && p.1 == ny,
                None => !in_bounds_spec(size as int, nx, ny),
            }
        }),
{
    let (dx, dy): (isize, isize) = match i {
        0 => (-1, 0),
        1 => (-1, 1),
        2 => (0, 1),
        3 => (1, 0),
        4 => (1, -1),
        _ => (0, -1),
    };
    let nx = x as isize + dx;
    let ny = y as isize + dy;
    if nx < 0 || ny < 0 {
        return None;
    }
    if !in_bounds(size, nx as usize, ny as usize) {
        return None;
    }
    Some((nx as usize, ny as usize))
}

/// Number of footprint points `(x, y')` with `y' < y`.
pub open spec fn row_prefix_cnt(size: int, x: int, y: int) -> int
    decreases y,
{
    if y <= 0 {
        0
    } else {
        row_prefix_cnt(size, x, y - 1) + if in_bounds_spec(size, x, y - 1) {
            1int
        } else {
            0int
        }
    }
}

/// Number of footprint points in rows before `x`.
pub open spec fn grid_prefix_cnt(size: int, x: int) -> int
    decreases x,
{
    if x <= 0 {
        0
    } else {
        grid_prefix_cnt(size, x - 1) + row_prefix_cnt(size, x - 1, cr_spec(size))
    }
}

/// Lexicographic order on enumeration positions.
pub open spec fn lex_lt(a: int, b: int, x: int, y: int) -> bool {
    a < x || (a == x && b < y)
}

/// Enumerating the whole footprint yields exactly `count_spec(size)` points.
#[verifier::rlimit(60)]
proof fn lemma_grid_total(size: int)
    requires
        1 <= size <= 7,
    ensures
        grid_prefix_cnt(size, cr_spec(size)) == count_spec(size),
{
    reveal_with_fuel(grid_prefix_cnt, 15);
    reveal_with_fuel(row_prefix_cnt, 15);
    if size == 1 {
        assert(count_spec(size) == 1) by (nonlinear_arith)
            requires
                size == 1,
        ;
        assert(grid_prefix_cnt(size, 1) == 1);
    } else if size == 2 {
        assert(count_spec(size) == 7) by (nonlinear_arith)
            requires
                size == 2,
        ;
        assert(grid_prefix_cnt(size, 3) == 7);
    } else if size == 3 {
        assert(count_spec(size) == 19) by (nonlinear_arith)
            requires
                size == 3,
        ;
        assert(grid_prefix_cnt(size, 5) == 19);
    } else if size == 4 {
        assert(count_spec(size) == 37) by (nonlinear_arith)
            requires
                size == 4,
        ;
        assert(grid_prefix_cnt(size, 7) == 37);
    } else if size == 5 {
        assert(count_spec(size) == 61) by (nonlinear_arith)
            requires
                size == 5,
        ;
        assert(grid_prefix_cnt(size, 9) == 61);
    } else if size == 6 {
        assert(count_spec(size) == 91) by (nonlinear_arith)
            requires
                size == 6,
        ;
        assert(grid_prefix_cnt(size, 11) == 91);
    } else {
        assert(count_spec(size) == 127) by (nonlinear_arith)
            requires
                size == 7,
        ;
        assert(grid_prefix_cnt(size, 13) == 127);
    }
}

/// The point count follows the closed formula and fits the 128-bit capacity
/// for every side length the engine accepts.
pub proof fn lemma_count_formula(size: int)
    requires
        1 <= size <= 7,
    ensures
        count_spec(size) == (2 * size - 1) * (2 * size - 1) - size * (size - 1),
        count_spec(size) <= 128,
{
    assert(count_spec(size) == 3 * size * size - 3 * size + 1) by (nonlinear_arith);
    assert(3 * size * size - 3 * size + 1 <= 127) by (nonlinear_arith)
        requires
            1 <= size <= 7,
    ;
}

/// Any accepted configuration has side length at most 7.
pub proof fn lemma_size_le7(size: int)
    requires
        1 <= size,
        count_spec(size) <= 128,
    ensures
        size <= 7,
{
    if size >= 8 {
        assert(size >= 8 ==> count_spec(size) >= 169) by (nonlinear_arith);
    }
}

/// Dense reverse-lookup indices are in range.
proof fn lemma_cidx_bound(a: int, b: int, cr: int)
    requires
        0 <= a < cr,
        0 <= b < cr,
    ensures
        0 <= a * cr + b < cr * cr,
{
    assert(0 <= a * cr + b < cr * cr) by (nonlinear_arith)
        requires
            0 <= a < cr,
            0 <= b < cr,
    ;
}

/// Dense reverse-lookup indexing is injective.
proof fn lemma_cidx_inj(a: int, b: int, c: int, d: int, cr: int)
    requires
        0 <= a < cr,
        0 <= b < cr,
        0 <= c < cr,
        0 <= d < cr,
        a * cr + b == c * cr + d,
    ensures
        a == c,
        b == d,
{
    assert(a == c && b == d) by (nonlinear_arith)
        requires
            0 <= a < cr,
            0 <= b < cr,
            0 <= c < cr,
            0 <= d < cr,
            a * cr + b == c * cr + d,
    ;
}

/// Reverse-table entry for coordinate `(a, b)`.
pub open spec fn rv_at(reverse: Seq<Option<usize>>, cr: int, a: int, b: int) -> Option<usize> {
    reverse[a * cr + b]
}

/// Invariant of the coordinate enumeration: all positions lexicographically
/// before `(x, y)` have been processed, and `coords`/`reverse` agree on them.
pub open spec fn enum_inv(
    s: int,
    cr: int,
    coords: Seq<(usize, usize)>,
    reverse: Seq<Option<usize>>,
    x: int,
    y: int,
) -> bool {
    &&& reverse.len() == cr * cr
    &&& coords.len() == grid_prefix_cnt(s, x) + row_prefix_cnt(s, x, y)
    &&& forall|i: int|
        0 <= i < coords.len() ==> {
            let a = (#[trigger] coords[i]).0 as int;
            let b = coords[i].1 as int;
            &&& in_bounds_spec(s, a, b)
            &&& lex_lt(a, b, x, y)
            &&& rv_at(reverse, cr, a, b) == Some(i as usize)
        }
    &&& forall|i1: int, i2: int|
        #![trigger coords[i1], coords[i2]]
        0 <= i1 < i2 < coords.len() ==> lex_lt(
            coords[i1].0 as int,
            coords[i1].1 as int,
            coords[i2].0 as int,
            coords[i2].1 as int,
        )
    &&& forall|a: int, b: int|
        0 <= a < cr && 0 <= b < cr && !lex_lt(a, b, x, y) ==> (#[trigger] rv_at(
            reverse,
            cr,
            a,
            b,
        )) is None
    &&& forall|a: int, b: int|
        0 <= a < cr && 0 <= b < cr && lex_lt(a, b, x, y) && in_bounds_spec(s, a, b) ==> (
        #[trigger] rv_at(reverse, cr, a, b)) is Some
    &&& forall|a: int, b: int|
        0 <= a < cr && 0 <= b < cr ==> ((#[trigger] rv_at(reverse, cr, a, b)) matches Some(j)
            ==> j < coords.len() && coords[j as int].0 == a && coords[j as int].1 == b)
}

/// Coordinate bijection: looking a point's coordinates back up through the
/// reverse table yields the same point, and every filled reverse entry
/// points back at its own coordinate.
pub proof fn lemma_coordinate_bijection(info: BoardInfo, i: int)
    requires
        info.wf(),
        0 <= i < info.count,
    ensures
        info.rv(info.cx(i), info.cy(i)) == Some(i as usize),
        forall|x: int, y: int|
            0 <= x < info.coords_range && 0 <= y < info.coords_range ==> ((#[trigger] info.rv(x, y))
                matches Some(j) ==> info.cx(j as int) == x && info.cy(j as int) == y),
{
}

/// Adjacency symmetry: `j` is listed as a neighbour of `i` exactly when `i`
/// is listed as a neighbour of `j`; no point is its own neighbour.
pub proof fn lemma_adjacency_symmetry(info: BoardInfo, i: int, j: int)
    requires
        info.wf(),
        0 <= i < info.count,
        0 <= j < info.count,
    ensures
        info.adj(i).contains(j as usize) <==> info.adj(j).contains(i as usize),
        !info.adj(i).contains(i as usize),
{
    if info.adj(i).contains(i as usize) {
        let kk = choose|kk: int| 0 <= kk < info.adj(i).len() && info.adj(i)[kk] == i as usize;
        assert(adjacent_spec(info.size as int, info.cx(i), info.cy(i), info.cx(i), info.cy(i)));
        let k = choose|k: int|
            0 <= k < 6 && info.cx(i) == info.cx(i) + offset_dx(k) && info.cy(i) == info.cy(i)
                + offset_dy(k);
        assert(offset_dx(k) == 0 && offset_dy(k) == 0);
        assert(false);
    }
    let s = info.size as int;
    assert forall|a: int, b: int|
        0 <= a < info.count && 0 <= b < info.count && #[trigger] info.adj(a).contains(
            b as usize,
        ) implies info.adj(b).contains(a as usize) by {
        let kk = choose|kk: int| 0 <= kk < info.adj(a).len() && info.adj(a)[kk] == b as usize;
        assert(adjacent_spec(s, info.cx(a), info.cy(a), info.cx(b), info.cy(b)));
        let k = choose|k: int|
            0 <= k < 6 && info.cx(b) == info.cx(a) + offset_dx(k) && info.cy(b) == info.cy(a)
                + offset_dy(k);
        let k2: int = if k < 3 {
            k + 3
        } else {
            k - 3
        };
        assert(offset_dx(k2) == -offset_dx(k) && offset_dy(k2) == -offset_dy(k));
        assert(adjacent_spec(s, info.cx(b), info.cy(b), info.cx(a), info.cy(a)));
        assert(info.adj(b).contains(a as usize));
    }
    if info.adj(i).contains(j as usize) {
        assert(info.adj(j).contains(i as usize));
    }
    if info.adj(j).contains(i as usize) {
        assert(info.adj(i).contains(j as usize));
    }
}

/// The first `i` coordinates of two well-formed topologies of equal size
/// agree: each table lists the footprint in strictly increasing order, so
/// the listing is unique.
proof fn lemma_coords_prefix(a: BoardInfo, b: BoardInfo, i: int)
    requires
        a.wf(),
        b.wf(),
        a.size == b.size,
        0 <= i <= a.count,
    ensures
        forall|j: int| 0 <= j < i ==> a.coords@[j] == b.coords@[j],
    decreases i,
{
    let s = a.size as int;
    let n = a.count as int;
    if i > 0 {
        lemma_coords_prefix(a, b, i - 1);
        let ii = i - 1;
        assert(in_bounds_spec(s, a.cx(ii), a.cy(ii)));
        match b.rv(a.cx(ii), a.cy(ii)) {
            Some(j) => {
                assert(b.cx(j as int) == a.cx(ii) && b.cy(j as int) == a.cy(ii));
                if (j as int) < ii {
                    assert(b.coords@[j as int] == a.coords@[j as int]);
                    assert(lex_lt(a.cx(j as int), a.cy(j as int), a.cx(ii), a.cy(ii)));
                    assert(false);
                } else if j as int == ii {
                    assert(a.coords@[ii] == b.coords@[ii]);
                } else {
                    assert(lex_lt(b.cx(ii), b.cy(ii), b.cx(j as int), b.cy(j as int)));
                    assert(in_bounds_spec(s, b.cx(ii), b.cy(ii)));
                    match a.rv(b.cx(ii), b.cy(ii)) {
                        Some(j2) => {
                            assert(a.cx(j2 as int) == b.cx(ii) && a.cy(j2 as int) == b.cy(ii));
                            if (j2 as int) < ii {
                                assert(b.coords@[j2 as int] == a.coords@[j2 as int]);
                                assert(lex_lt(
                                    b.cx(j2 as int),
                                    b.cy(j2 as int),
                                    b.cx(ii),
                                    b.cy(ii),
                                ));
                                assert(false);
                            } else if j2 as int == ii {
                                assert(lex_lt(a.cx(ii), a.cy(ii), a.cx(ii), a.cy(ii)));
                                assert(false);
                            } else {
                                assert(lex_lt(a.cx(ii), a.cy(ii), a.cx(j2 as int), a.cy(j2 as int)));
                                assert(false);
                            }
                        },
                        None => {
                            assert(false);
                        },
                    }
                }
            },
            None => {
                assert(false);
            },
        }
    }
}

/// Topology determinism: two well-formed tables for the same side length
/// list the same coordinates at the same indices and answer every reverse
/// lookup alike; in particular, construction is a pure function of `size`
/// as far as the point indexing is concerned.
pub proof fn lemma_topology_deterministic(a: BoardInfo, b: BoardInfo)
    requires
        a.wf(),
        b.wf(),
        a.size == b.size,
    ensures
        a.count == b.count,
        a.coords_range == b.coords_range,
        a.coords@ == b.coords@,
        forall|x: int, y: int|
            0 <= x < a.coords_range && 0 <= y < a.coords_range ==> #[trigger] a.rv(x, y)
                == #[trigger] b.rv(x, y),
{
    let s = a.size as int;
    let n = a.count as int;
    lemma_coords_prefix(a, b, n);
    assert(a.coords@ =~= b.coords@);
    assert forall|x: int, y: int|
        0 <= x < a.coords_range && 0 <= y < a.coords_range implies #[trigger] a.rv(x, y)
        == #[trigger] b.rv(x, y) by {
        if in_bounds_spec(s, x, y) {
            match a.rv(x, y) {
                Some(ja) => {
                    match b.rv(x, y) {
                        Some(jb) => {
                            assert(a.cx(ja as int) == x && a.cy(ja as int) == y);
                            assert(b.cx(jb as int) == x && b.cy(jb as int) == y);
                            assert(a.coords@[jb as int] == b.coords@[jb as int]);
                            if (ja as int) < (jb as int) {
                                assert(lex_lt(a.cx(ja as int), a.cy(ja as int), a.cx(jb as int), a.cy(jb as int)));
                                assert(false);
                            } else if (jb as int) < (ja as int) {
                                assert(lex_lt(a.cx(jb as int), a.cy(jb as int), a.cx(ja as int), a.cy(ja as int)));
                                assert(false);
                            }
                        },
                        None => {
                            assert(false);
                        },
                    }
                },
                None => {
                    assert(false);
                },
            }
        }
    }
}

/// Bounds on the small products that board construction computes.
proof fn lemma_small_products(s: int, cr: int)
    requires
        1 <= s <= 7,
        cr == cr_spec(s),
    ensures
        cr <= 13,
        0 <= s * (s - 1) <= 42,
        0 <= cr * cr <= 169,
{
    assert(0 <= s * (s - 1) <= 42 && 0 <= cr * cr <= 169) by (nonlinear_arith)
        requires
            1 <= s <= 7,
            cr == 2 * s - 1,
    ;
}

/// Static precomputed data about the board: dense point indexing, the
/// coordinate bijection, adjacency lists, and the playout pattern table.
pub struct BoardInfo {
    /// The length of a side.
    pub size: usize,
    /// The maximum value of coordinates + 1.
    pub coords_range: usize,
    /// The total number of points on the board.
    pub count: usize,
    /// Adjacency lists, indexed by point.
    pub adjacencies: Vec<Vec<usize>>,
    /// Coordinates of each point, in enumeration order.
    pub coords: Vec<(usize, usize)>,
    /// Dense map from `x * coords_range + y` back to the point index.
    pub reverse_coords: Vec<Option<usize>>,
    /// Patterns to be used in playouts, keyed by the opponent's last move.
    pub patterns: Vec<Vec<Pattern>>,
}

impl BoardInfo {
    /// Dense reverse-lookup index of coordinate `(x, y)`.
    pub open spec fn cidx(self, x: int, y: int) -> int {
        x * (self.coords_range as int) + y
    }

    /// Reverse lookup of coordinate `(x, y)`.
    pub open spec fn rv(self, x: int, y: int) -> Option<usize> {
        self.reverse_coords@[self.cidx(x, y)]
    }

    /// x coordinate of point `i`.
    pub open spec fn cx(self, i: int) -> int {
        self.coords@[i].0 as int
    }

    /// y coordinate of point `i`.
    pub open spec fn cy(self, i: int) -> int {
        self.coords@[i].1 as int
    }

    /// Adjacency list of point `i`.
    pub open spec fn adj(self, i: int) -> Seq<usize> {
        self.adjacencies@[i]@
    }

    /// Full structural invariant of the precomputed tables.
    pub open spec fn wf(self) -> bool {
        let s = self.size as int;
        let cr = self.coords_range as int;
        let n = self.count as int;
        &&& 1 <= s <= 7
        &&& cr == cr_spec(s)
        &&& n == count_spec(s)
        &&& n <= 128
        &&& self.coords@.len() == n
        &&& self.reverse_coords@.len() == cr * cr
        &&& self.adjacencies@.len() == n
        &&& self.patterns@.len() == n
        &&& forall|i: int|
            0 <= i < n ==> in_bounds_spec(s, #[trigger] self.cx(i), #[trigger] self.cy(i))
        &&& forall|i: int|
            0 <= i < n ==> #[trigger] self.rv(self.cx(i), self.cy(i)) == Some(i as usize)
        &&& forall|x: int, y: int|
            0 <= x < cr && 0 <= y < cr ==> ((#[trigger] self.rv(x, y)) is Some <==> in_bounds_spec(
                s,
                x,
                y,
            ))
        &&& forall|x: int, y: int|
            0 <= x < cr && 0 <= y < cr ==> ((#[trigger] self.rv(x, y)) matches Some(j) ==> j < n
                && self.cx(j as int) == x && self.cy(j as int) == y)
        &&& forall|i1: int, i2: int|
            #![trigger self.cx(i1), self.cx(i2)]
            0 <= i1 < i2 < n ==> lex_lt(self.cx(i1), self.cy(i1), self.cx(i2), self.cy(i2))
        &&& forall|i: int, k1: int, k2: int|
            0 <= i < n && 0 <= k1 < k2 < self.adj(i).len() ==> (#[trigger] self.adj(i)[k1]) != (
            #[trigger] self.adj(i)[k2])
        &&& forall|i: int, k: int|
            0 <= i < n && 0 <= k < self.adj(i).len() ==> (#[trigger] self.adj(i)[k]) < n
                && adjacent_spec(
                s,
                self.cx(i),
                self.cy(i),
                self.cx(self.adj(i)[k] as int),
                self.cy(self.adj(i)[k] as int),
            )
        &&& forall|i: int, j: int|
            #![trigger self.adj(i), self.cx(j)]
            0 <= i < n && 0 <= j < n && adjacent_spec(
                s,
                self.cx(i),
                self.cy(i),
                self.cx(j),
                self.cy(j),
            ) ==> self.adj(i).contains(j as usize)
        &&& forall|i: int, k: int|
            0 <= i < n && 0 <= k < self.patterns@[i]@.len() ==> (#[trigger] self.patterns@[i]@[k]).wf(
                n,
            )
    }

    /// Builds the full topology for a board of side length `size`: coordinate
    /// enumeration, reverse lookup, adjacency lists, and the pattern table.
    pub fn new(size: usize) -> (r: BoardInfo)
        requires
            1 <= size,
            count_spec(size as int) <= 128,
        ensures
            r.wf(),
            r.size == size,
    {
        let ghost s: int = size as int;
        proof {
            lemma_size_le7(s);
            lemma_count_formula(s);
        }
        let coords_range = 2 * size - 1;
        let ghost cr: int = coords_range as int;
        proof {
            assert(cr_spec(s) * cr_spec(s) >= s * (s - 1)) by (nonlinear_arith)
                requires
                    1 <= s <= 7,
            ;
            assert(cr * cr == cr_spec(s) * cr_spec(s));
            lemma_small_products(s, cr);
        }
        let count = coords_range * coords_range - size * (size - 1);
        let ghost n: int = count as int;
        assert(n == count_spec(s));

        // Reverse table, initially all None.
        let mut reverse: Vec<Option<usize>> = Vec::new();
        let total = coords_range * coords_range;
        let mut t: usize = 0;
        while t < total
            invariant
                t <= total,
                reverse@.len() == t,
                forall|k: int| 0 <= k < t ==> (#[trigger] reverse@[k]) is None,
            decreases total - t,
        {
            reverse.push(None);
            t += 1;
        }

        // Enumerate the footprint in lexicographic order.
        let mut coords: Vec<(usize, usize)> = Vec::new();
        proof {
            assert forall|a: int, b: int| 0 <= a < cr && 0 <= b < cr implies (#[trigger] rv_at(
                reverse@,
                cr,
                a,
                b,
            )) is None by {
                lemma_cidx_bound(a, b, cr);
            }
            assert(enum_inv(s, cr, coords@, reverse@, 0, 0));
        }
        let mut x: usize = 0;
        while x < coords_range
            invariant
                1 <= size <= 7,
                s == size as int,
                cr == coords_range as int,
                cr == cr_spec(s),
                x <= coords_range,
                enum_inv(s, cr, coords@, reverse@, x as int, 0),
            decreases coords_range - x,
        {
            let mut y: usize = 0;
            while y < coords_range
                invariant
                    1 <= size <= 7,
                    s == size as int,
                    cr == coords_range as int,
                    cr == cr_spec(s),
                    x < coords_range,
                    y <= coords_range,
                    enum_inv(s, cr, coords@, reverse@, x as int, y as int),
                decreases coords_range - y,
            {
                let ghost prev_r = reverse@;
                let ghost prev_c = coords@;
                if in_bounds(size, x, y) {
                    let idx = coords.len();
                    proof {
                        lemma_small_products(s, cr);
                        lemma_cidx_bound(x as int, y as int, cr);
                    }
                    let ti = x * coords_range + y;
                    reverse[ti] = Some(idx);
                    coords.push((x, y));
                    proof {
                        let xi = x as int;
                        let yi = y as int;
                        assert forall|a: int, b: int| 0 <= a < cr && 0 <= b < cr && (a != xi || b
                            != yi) implies rv_at(reverse@, cr, a, b) == rv_at(prev_r, cr, a, b) by {
                            lemma_cidx_bound(a, b, cr);
                            if a * cr + b == xi * cr + yi {
                                lemma_cidx_inj(a, b, xi, yi, cr);
                            }
                        }
                        assert(rv_at(reverse@, cr, xi, yi) == Some(idx));
                        assert(coords@[idx as int] == (x, y));
                        assert forall|i: int| 0 <= i < coords@.len() implies {
                            let a = (#[trigger] coords@[i]).0 as int;
                            let b = coords@[i].1 as int;
                            &&& in_bounds_spec(s, a, b)
                            &&& lex_lt(a, b, xi, yi + 1)
                            &&& rv_at(reverse@, cr, a, b) == Some(i as usize)
                        } by {
                            if i < prev_c.len() {
                                let a = prev_c[i].0 as int;
                                let b = prev_c[i].1 as int;
                                assert(lex_lt(a, b, xi, yi));
                                assert(a != xi || b != yi);
                            }
                        }
                        assert forall|a: int, b: int| 0 <= a < cr && 0 <= b < cr && !lex_lt(
                            a,
                            b,
                            xi,
                            yi + 1,
                        ) implies (rv_at(reverse@, cr, a, b)) is None by {
                            assert(a != xi || b != yi);
                            assert(!lex_lt(a, b, xi, yi));
                            assert(rv_at(prev_r, cr, a, b) is None);
                        }
                        assert forall|a: int, b: int| 0 <= a < cr && 0 <= b < cr && lex_lt(
                            a,
                            b,
                            xi,
                            yi + 1,
                        ) && in_bounds_spec(s, a, b) implies (rv_at(reverse@, cr, a, b)) is Some by {
                            if a != xi || b != yi {
                                assert(lex_lt(a, b, xi, yi));
                                assert(rv_at(prev_r, cr, a, b) is Some);
                            }
                        }
                        assert forall|a: int, b: int| 0 <= a < cr && 0 <= b < cr implies ((
                        #[trigger] rv_at(
                            reverse@,
                            cr,
                            a,
                            b,
                        )) matches Some(j0) ==> j0 < coords@.len() && coords@[j0 as int].0 == a
                            && coords@[j0 as int].1 == b) by {
                            if a == xi && b == yi {
                                assert(rv_at(reverse@, cr, a, b) == Some(idx));
                            } else {
                                assert(rv_at(reverse@, cr, a, b) == rv_at(prev_r, cr, a, b));
                                match rv_at(prev_r, cr, a, b) {
                                    Some(j0) => {
                                        assert(j0 < prev_c.len() && prev_c[j0 as int].0 == a
                                            && prev_c[j0 as int].1 == b);
                                        assert(coords@[j0 as int] == prev_c[j0 as int]);
                                    },
                                    None => {},
                                }
                            }
                        }
                        assert(row_prefix_cnt(s, xi, yi + 1) == row_prefix_cnt(s, xi, yi) + 1);
                        assert(enum_inv(s, cr, coords@, reverse@, xi, yi + 1));
                    }
                } else {
                    proof {
                        let xi = x as int;
                        let yi = y as int;
                        assert(!in_bounds_spec(s, xi, yi));
                        assert forall|a: int, b: int| 0 <= a < cr && 0 <= b < cr && !lex_lt(
                            a,
                            b,
                            xi,
                            yi + 1,
                        ) implies (rv_at(reverse@, cr, a, b)) is None by {
                            assert(!lex_lt(a, b, xi, yi));
                        }
                        assert forall|a: int, b: int| 0 <= a < cr && 0 <= b < cr && lex_lt(
                            a,
                            b,
                            xi,
                            yi + 1,
                        ) && in_bounds_spec(s, a, b) implies (rv_at(reverse@, cr, a, b)) is Some by {
                            assert(a != xi || b != yi);
                            assert(lex_lt(a, b, xi, yi));
                        }
                        assert(row_prefix_cnt(s, xi, yi + 1) == row_prefix_cnt(s, xi, yi));
                        assert(enum_inv(s, cr, coords@, reverse@, xi, yi + 1));
                    }
                }
                y += 1;
            }
            proof {
                let xi = x as int;
                assert(grid_prefix_cnt(s, xi + 1) == grid_prefix_cnt(s, xi) + row_prefix_cnt(
                    s,
                    xi,
                    cr_spec(s),
                ));
                assert(row_prefix_cnt(s, xi + 1, 0) == 0);
                assert forall|a: int, b: int| 0 <= a < cr && 0 <= b < cr implies (lex_lt(
                    a,
                    b,
                    xi,
                    cr,
                ) == lex_lt(a, b, xi + 1, 0)) by {}
                assert(enum_inv(s, cr, coords@, reverse@, xi + 1, 0));
            }
            x += 1;
        }
        proof {
            lemma_grid_total(s);
            assert(coords@.len() == n);
            assert forall|a: int, b: int| 0 <= a < cr && 0 <= b < cr implies lex_lt(a, b, cr, 0)
                by {}
        }

        // Adjacency lists.
        let mut adj: Vec<Vec<usize>> = Vec::new();
        let mut i: usize = 0;
        while i < count
            invariant
                1 <= size <= 7,
                s == size as int,
                cr == coords_range as int,
                cr == cr_spec(s),
                n == count as int,
                i <= count,
                coords@.len() == n,
                enum_inv(s, cr, coords@, reverse@, cr, 0),
                adj@.len() == i,
                forall|p: int, k: int|
                    0 <= p < i && 0 <= k < adj@[p]@.len() ==> {
                        let t0 = (#[trigger] adj@[p]@[k]) as int;
                        t0 < n && adjacent_spec(
                            s,
                            coords@[p].0 as int,
                            coords@[p].1 as int,
                            coords@[t0].0 as int,
                            coords@[t0].1 as int,
                        )
                    },
                forall|p: int, j0: int|
                    #![trigger adj@[p], coords@[j0]]
                    0 <= p < i && 0 <= j0 < n && adjacent_spec(
                        s,
                        coords@[p].0 as int,
                        coords@[p].1 as int,
                        coords@[j0].0 as int,
                        coords@[j0].1 as int,
                    ) ==> adj@[p]@.contains(j0 as usize),
                forall|p: int, k1: int, k2: int|
                    0 <= p < i && 0 <= k1 < k2 < adj@[p]@.len() ==> (#[trigger] adj@[p]@[k1]) != (
                    #[trigger] adj@[p]@[k2]),
            decreases count - i,
        {
            let c = coords[i];
            let ghost cxi: int = c.0 as int;
            let ghost cyi: int = c.1 as int;
            let mut point_adj: Vec<usize> = Vec::new();
            let mut j: usize = 0;
            while j < 6
                invariant
                    1 <= size <= 7,
                    s == size as int,
                    cr == coords_range as int,
                    cr == cr_spec(s),
                    n == count as int,
                    i < count,
                    j <= 6,
                    coords@.len() == n,
                    enum_inv(s, cr, coords@, reverse@, cr, 0),
                    c == coords@[i as int],
                    cxi == c.0 as int,
                    cyi == c.1 as int,
                    in_bounds_spec(s, cxi, cyi),
                    forall|k: int|
                        0 <= k < point_adj@.len() ==> {
                            let t0 = (#[trigger] point_adj@[k]) as int;
                            t0 < n && adjacent_spec(
                                s,
                                cxi,
                                cyi,
                                coords@[t0].0 as int,
                                coords@[t0].1 as int,
                            )
                        },
                    forall|k0: int|
                        0 <= k0 < j ==> {
                            let nx = cxi + offset_dx(k0);
                            let ny = cyi + #[trigger] offset_dy(k0);
                            in_bounds_spec(s, nx, ny) ==> (rv_at(reverse@, cr, nx, ny) matches Some(
                                t0,
                            ) ==> point_adj@.contains(t0))
                        },
                    forall|k: int|
                        0 <= k < point_adj@.len() ==> exists|k0: int|
                            0 <= k0 < j && coords@[(#[trigger] point_adj@[k]) as int].0 as int
                                == cxi + offset_dx(k0) && coords@[point_adj@[k] as int].1 as int
                                == cyi + offset_dy(k0),
                    forall|k1: int, k2: int|
                        0 <= k1 < k2 < point_adj@.len() ==> (#[trigger] point_adj@[k1]) != (
                        #[trigger] point_adj@[k2]),
                decreases 6 - j,
            {
                let ghost old_pa = point_adj@;
                match get_adjacent(size, c.0, c.1, j) {
                    Some(nc) => {
                        proof {
                            lemma_small_products(s, cr);
                            lemma_cidx_bound(nc.0 as int, nc.1 as int, cr);
                        }
                        let ridx = nc.0 * coords_range + nc.1;
                        match reverse[ridx] {
                            Some(t0) => {
                                proof {
                                    assert(rv_at(reverse@, cr, nc.0 as int, nc.1 as int) == Some(
                                        t0,
                                    ));
                                    assert(t0 < n && coords@[t0 as int].0 == nc.0
                                        && coords@[t0 as int].1 == nc.1);
                                    let k0 = j as int;
                                    assert(0 <= k0 < 6 && coords@[t0 as int].0 as int == cxi
                                        + offset_dx(k0) && coords@[t0 as int].1 as int == cyi
                                        + offset_dy(k0));
                                    assert(adjacent_spec(
                                        s,
                                        cxi,
                                        cyi,
                                        coords@[t0 as int].0 as int,
                                        coords@[t0 as int].1 as int,
                                    ));
                                }
                                let ghost old_adj_row = point_adj@;
                                point_adj.push(t0);
                                proof {
                                    assert forall|k1: int, k2: int|
                                        0 <= k1 < k2 < point_adj@.len() implies (
                                    #[trigger] point_adj@[k1]) != (#[trigger] point_adj@[k2]) by {
                                        if k2 == point_adj@.len() - 1 {
                                            let e = old_adj_row[k1];
                                            let k0 = choose|k0: int|
                                                0 <= k0 < j && coords@[e as int].0 as int == cxi
                                                    + offset_dx(k0) && coords@[e as int].1 as int
                                                    == cyi + offset_dy(k0);
                                            assert(offset_dx(k0) == offset_dx(j as int)
                                                && offset_dy(k0) == offset_dy(j as int) ==> k0
                                                == j as int);
                                            assert(coords@[e as int] != coords@[t0 as int]);
                                        }
                                    }
                                    assert forall|k: int| 0 <= k < point_adj@.len() implies (exists|k0: int|
                                        0 <= k0 < j + 1
                                        && coords@[(#[trigger] point_adj@[k]) as int].0 as int
                                            == cxi + offset_dx(k0)
                                        && coords@[point_adj@[k] as int].1 as int
                                            == cyi + offset_dy(k0)) by {
                                        if k == point_adj@.len() - 1 {
                                            assert(coords@[t0 as int].0 as int == cxi + offset_dx(
                                                j as int,
                                            ) && coords@[t0 as int].1 as int == cyi + offset_dy(
                                                j as int,
                                            ));
                                        } else {
                                            let k0 = choose|k0: int|
                                                0 <= k0 < j && coords@[(old_adj_row[k]) as int].0 as int
                                                    == cxi + offset_dx(k0) && coords@[(
                                                old_adj_row[k]) as int].1 as int == cyi + offset_dy(
                                                    k0,
                                                );
                                            assert(coords@[(point_adj@[k]) as int].0 as int == cxi
                                                + offset_dx(k0) && coords@[(
                                            point_adj@[k]) as int].1 as int == cyi + offset_dy(k0));
                                        }
                                    }
                                }
                            },
                            None => {
                                proof {
                                    assert(lex_lt(nc.0 as int, nc.1 as int, cr, 0));
                                    assert(false);
                                }
                            },
                        }
                    },
                    None => {},
                }
                proof {
                    assert forall|k0: int| 0 <= k0 < j + 1 implies {
                        let nx = cxi + offset_dx(k0);
                        let ny = cyi + #[trigger] offset_dy(k0);
                        in_bounds_spec(s, nx, ny) ==> (rv_at(reverse@, cr, nx, ny) matches Some(t0)
                            ==> point_adj@.contains(t0))
                    } by {
                        let nx = cxi + offset_dx(k0);
                        let ny = cyi + offset_dy(k0);
                        if in_bounds_spec(s, nx, ny) {
                            match rv_at(reverse@, cr, nx, ny) {
                                Some(t0) => {
                                    if k0 < j {
                                        assert(old_pa.contains(t0));
                                        let ix = choose|ix: int|
                                            0 <= ix < old_pa.len() && old_pa[ix] == t0;
                                        assert(point_adj@[ix] == t0);
                                        assert(point_adj@.contains(t0));
                                    } else {
                                        assert(point_adj@[point_adj@.len() - 1] == t0);
                                        assert(point_adj@.contains(t0));
                                    }
                                },
                                None => {},
                            }
                        }
                    }
                }
                j += 1;
            }
            proof {
                assert forall|j0: int| 0 <= j0 < n && adjacent_spec(
                    s,
                    cxi,
                    cyi,
                    coords@[j0].0 as int,
                    coords@[j0].1 as int,
                ) implies point_adj@.contains(j0 as usize) by {
                    let a = coords@[j0].0 as int;
                    let b = coords@[j0].1 as int;
                    let k0 = choose|k0: int|
                        0 <= k0 < 6 && a == cxi + offset_dx(k0) && b == cyi + offset_dy(k0);
                    assert(in_bounds_spec(s, a, b));
                    assert(lex_lt(a, b, cr, 0));
                    assert(rv_at(reverse@, cr, a, b) == Some(j0 as usize));
                    assert(offset_dy(k0) == b - cyi);
                }
            }
            adj.push(point_adj);
            i += 1;
        }

        // Pattern table: slide a window of three consecutive directions
        // around every point.
        let mut patterns: Vec<Vec<Pattern>> = Vec::new();
        let mut i2: usize = 0;
        while i2 < count
            invariant
                1 <= size <= 7,
                s == size as int,
                cr == coords_range as int,
                cr == cr_spec(s),
                n == count as int,
                i2 <= count,
                n <= 128,
                coords@.len() == n,
                enum_inv(s, cr, coords@, reverse@, cr, 0),
                patterns@.len() == i2,
                forall|p: int, k: int|
                    0 <= p < i2 && 0 <= k < patterns@[p]@.len() ==> (
                    #[trigger] patterns@[p]@[k]).wf(n),
            decreases count - i2,
        {
            let c = coords[i2];
            let mut a1 = get_adjacent(size, c.0, c.1, 4);
            let mut a2 = get_adjacent(size, c.0, c.1, 5);
            let mut pats: Vec<Pattern> = Vec::new();
            let mut j: usize = 0;
            while j < 6
                invariant
                    1 <= size <= 7,
                    s == size as int,
                    cr == coords_range as int,
                    cr == cr_spec(s),
                    n == count as int,
                    i2 < count,
                    j <= 6,
                    n <= 128,
                    coords@.len() == n,
                    enum_inv(s, cr, coords@, reverse@, cr, 0),
                    in_bounds_spec(s, c.0 as int, c.1 as int),
                    a1 matches Some(p) ==> in_bounds_spec(s, p.0 as int, p.1 as int),
                    a2 matches Some(p) ==> in_bounds_spec(s, p.0 as int, p.1 as int),
                    forall|k: int| 0 <= k < pats@.len() ==> (#[trigger] pats@[k]).wf(n),
                decreases 6 - j,
            {
                let a3 = get_adjacent(size, c.0, c.1, j);
                match (a1, a2, a3) {
                    (Some(c1), Some(c2), Some(c3)) => {
                        let p1 = Self::lookup(&reverse, coords_range, c1.0, c1.1, Ghost(s), Ghost(coords@));
                        let p2 = Self::lookup(&reverse, coords_range, c2.0, c2.1, Ghost(s), Ghost(coords@));
                        let p3 = Self::lookup(&reverse, coords_range, c3.0, c3.1, Ghost(s), Ghost(coords@));
                        let mut ours = BoardVec::new();
                        ours.set(p1);
                        ours.set(p3);
                        let mut empty = BoardVec::new();
                        empty.set(p2);
                        let pat = Pattern { ours, empty, to_play: p2 };
                        proof {
                            assert(pat.empty@ =~= Set::<int>::empty().insert(p2 as int));
                            assert forall|q: int| pat.ours@.contains(q) implies 0 <= q < n by {}
                            assert(pat.wf(n));
                        }
                        pats.push(pat);
                    },
                    (Some(c1), Some(c2), None) => {
                        let p1 = Self::lookup(&reverse, coords_range, c1.0, c1.1, Ghost(s), Ghost(coords@));
                        let p2 = Self::lookup(&reverse, coords_range, c2.0, c2.1, Ghost(s), Ghost(coords@));
                        let to_play = if on_boundary_xy(size, c1.0, c1.1) {
                            p1
                        } else {
                            p2
                        };
                        let mut empty = BoardVec::new();
                        empty.set(to_play);
                        let pat = Pattern { ours: BoardVec::new(), empty, to_play };
                        proof {
                            assert(pat.empty@ =~= Set::<int>::empty().insert(to_play as int));
                            assert(pat.wf(n));
                        }
                        pats.push(pat);
                    },
                    _ => {},
                }
                a1 = a2;
                a2 = a3;
                j += 1;
            }
            patterns.push(pats);
            i2 += 1;
        }

        let r = BoardInfo {
            size,
            coords_range,
            count,
            adjacencies: adj,
            coords,
            reverse_coords: reverse,
            patterns,
        };
        proof {
            assert forall|x0: int, y0: int| 0 <= x0 < cr && 0 <= y0 < cr implies ((#[trigger] r.rv(
                x0,
                y0,
            )) is Some <==> in_bounds_spec(s, x0, y0)) by {
                assert(r.rv(x0, y0) == rv_at(reverse@, cr, x0, y0));
            }
            assert forall|x0: int, y0: int| 0 <= x0 < cr && 0 <= y0 < cr implies ((#[trigger] r.rv(
                x0,
                y0,
            )) matches Some(j0) ==> j0 < n && r.cx(j0 as int) == x0 && r.cy(j0 as int) == y0) by {
                assert(r.rv(x0, y0) == rv_at(reverse@, cr, x0, y0));
            }
            assert forall|i0: int| 0 <= i0 < n implies #[trigger] r.rv(r.cx(i0), r.cy(i0)) == Some(
                i0 as usize,
            ) by {
                assert(r.rv(r.cx(i0), r.cy(i0)) == rv_at(reverse@, cr, r.cx(i0), r.cy(i0)));
            }
            assert(r.wf());
        }
        r
    }

    /// Reverse lookup that is only called on coordinates known to be on the
    /// board, where the enumeration has filled the entry in.
    fn lookup(
        reverse: &Vec<Option<usize>>,
        coords_range: usize,
        a: usize,
        b: usize,
        Ghost(s): Ghost<int>,
        Ghost(coords): Ghost<Seq<(usize, usize)>>,
    ) -> (t: usize)
        requires
            1 <= s <= 7,
            cr_spec(s) == coords_range as int,
            enum_inv(s, coords_range as int, coords, reverse@, coords_range as int, 0),
            in_bounds_spec(s, a as int, b as int),
        ensures
            rv_at(reverse@, coords_range as int, a as int, b as int) == Some(t),
            t < coords.len(),
            coords[t as int].0 == a,
            coords[t as int].1 == b,
    {
        proof {
            lemma_small_products(s, coords_range as int);
            lemma_cidx_bound(a as int, b as int, coords_range as int);
            assert(lex_lt(a as int, b as int, coords_range as int, 0));
            assert(rv_at(reverse@, coords_range as int, a as int, b as int) is Some);
        }
        match reverse[a * coords_range + b] {
            Some(t) => t,
            None => {
                proof {
                    assert(false);
                }
                0
            },
        }
    }

    /// Whether point `point` is on the edge of the board.
    pub fn on_boundary(&self, point: usize) -> (r: bool)
        requires
            self.wf(),
            point < self.count,
        ensures
            r == on_boundary_spec(self.size as int, self.cx(point as int), self.cy(point as int)),
    {
        proof {
            assert(in_bounds_spec(
                self.size as int,
                self.cx(point as int),
                self.cy(point as int),
            ));
        }
        let c = self.coords[point];
        on_boundary_xy(self.size, c.0, c.1)
    }

    /// The dense index of the point at `(x, y)`, if that coordinate is on the
    /// board.
    pub fn index_of(&self, x: usize, y: usize) -> (r: Option<usize>)
        requires
            self.wf(),
        ensures
            r == (if 0 <= x < self.coords_range && 0 <= y < self.coords_range {
                self.rv(x as int, y as int)
            } else {
                None::<usize>
            }),
            r matches Some(i) ==> i < self.count,
    {
        if x < self.coords_range && y < self.coords_range {
            proof {
                lemma_small_products(self.size as int, self.coords_range as int);
                lemma_cidx_bound(x as int, y as int, self.coords_range as int);
            }
            self.reverse_coords[x * self.coords_range + y]
        } else {
            None
        }
    }
}

} // verus!
