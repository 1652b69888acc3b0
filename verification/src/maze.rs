//! Maze levels: difficulty settings and the tile grid of a level.
use vstd::prelude::*;
use crate::random::{
    below_draw, chacha8_below, chacha8_ratio, random_below, random_ratio, ratio_draw, SeededRng,
};

verus! {

/// The three levels of the game, in increasing difficulty.
#[derive(Debug, Clone, Copy, PartialEq, Eq, Structural)]
pub enum Difficulty {
    Easy,
    Medium,
    Hard,
}

/// Side length of the square grid of a level of the given difficulty.
pub open spec fn spec_side(d: Difficulty) -> usize {
    match d {
        Difficulty::Easy => 21,
        Difficulty::Medium => 31,
        Difficulty::Hard => 41,
    }
}

impl Difficulty {
    /// Returns the (width, height) for the maze grid based on difficulty.
    /// Both are odd, as the recursive backtracker needs.
    pub fn dimensions(&self) -> (r: (usize, usize))
        ensures
            r == (spec_side(*self), spec_side(*self)),
            r.0 % 2 == 1,
            r.1 % 2 == 1,
    {
        match self {
            Difficulty::Easy => (21, 21),
            Difficulty::Medium => (31, 31),
            Difficulty::Hard => (41, 41),
        }
    }
}

} // verus!

verus! {

/// Index of tile `(x, y)` in a row-major grid of width `w`.
pub open spec fn cell_index(w: int, x: int, y: int) -> int {
    y * w + x
}

/// Whether tile `(x, y)` holds a wall in the row-major grid `g` of size `w` by `h`;
/// tiles outside the grid count as walls.
pub open spec fn wall_in(g: Seq<bool>, w: int, h: int, x: int, y: int) -> bool {
    !(0 <= x < w && 0 <= y < h) || g[cell_index(w, x, y)]
}

/// Number of wall tiles in a grid.
pub open spec fn count_walls(g: Seq<bool>) -> nat
    decreases g.len(),
{
    if g.len() == 0 {
        0
    } else {
        count_walls(g.drop_last()) + if g.last() { 1nat } else { 0nat }
    }
}

/// Tiles of a row-major grid of width `w` have distinct indices, all below `w * h`.
pub proof fn lemma_cell_index(w: int, h: int, x: int, y: int)
    requires
        0 <= x < w,
        0 <= y < h,
    ensures
        0 <= cell_index(w, x, y) < w * h,
        cell_index(w, x, y) - x == y * w,
{
    assert(y * w + x < w * h) by (nonlinear_arith)
        requires
            0 <= x < w,
            0 <= y < h,
    ;
    assert(0 <= y * w) by (nonlinear_arith)
        requires
            0 <= y,
            0 <= w,
    ;
}

/// Two tiles inside the grid share an index only if they are the same tile.
pub proof fn lemma_cell_index_injective(w: int, x1: int, y1: int, x2: int, y2: int)
    requires
        0 <= x1 < w,
        0 <= x2 < w,
        0 <= y1,
        0 <= y2,
        cell_index(w, x1, y1) == cell_index(w, x2, y2),
    ensures
        x1 == x2,
        y1 == y2,
{
    assert(y1 == y2) by (nonlinear_arith)
        requires
            0 <= x1 < w,
            0 <= x2 < w,
            0 <= y1,
            0 <= y2,
            y1 * w + x1 == y2 * w + x2,
    ;
}

/// Clearing one tile removes at most that one wall from the count.
pub proof fn lemma_count_walls_clear(g: Seq<bool>, i: int)
    requires
        0 <= i < g.len(),
    ensures
        count_walls(g.update(i, false)) + (if g[i] { 1int } else { 0int }) == count_walls(g),
    decreases g.len(),
{
    if i == g.len() - 1 {
        assert(g.update(i, false).drop_last() =~= g.drop_last());
    } else {
        assert(g.update(i, false).drop_last() =~= g.drop_last().update(i, false));
        lemma_count_walls_clear(g.drop_last(), i);
    }
}

/// A 2D grid representing the game map: `true` is a solid wall, `false` an
/// empty floor tile. Spawn positions are the centres of the tiles listed in
/// `spawn_cells`, that is `(x + 0.5, y + 0.5)`.
#[derive(Debug)]
pub struct GameMap {
    pub width: usize,
    pub height: usize,
    pub grid: Vec<bool>,
    pub spawn_cells: Vec<(usize, usize)>,
}

impl GameMap {
    /// The grid holds exactly one entry per tile.
    pub open spec fn wf(&self) -> bool {
        &&& self.grid@.len() == self.width * self.height
        &&& self.width >= 3
        &&& self.height >= 3
    }

    /// Whether tile `(x, y)` is a wall (tiles outside the map are walls).
    pub open spec fn wall_at(&self, x: int, y: int) -> bool {
        wall_in(self.grid@, self.width as int, self.height as int, x, y)
    }

    /// Check if the tile with the given coordinates is a wall. Coordinates
    /// past the right or bottom edge are treated as walls.
    pub fn is_wall(&self, x: usize, y: usize) -> (r: bool)
        requires
            self.wf(),
        ensures
            r == self.wall_at(x as int, y as int),
    {
        if x >= self.width || y >= self.height {
            return true;
        }
        let n = self.grid.len();
        proof {
            lemma_cell_index(self.width as int, self.height as int, x as int, y as int);
        }
        self.grid[y * self.width + x]
    }
}

} // verus!

verus! {

/// Tile `(x, y)` is an interior tile with both coordinates odd: a room of the
/// maze, as opposed to a passage between two rooms or the outer wall.
pub open spec fn room_cell(w: int, h: int, x: int, y: int) -> bool {
    &&& x % 2 == 1
    &&& y % 2 == 1
    &&& 0 < x < w - 1
    &&& 0 < y < h - 1
}

/// Tile `(x, y)` lies on the outer ring of the grid.
pub open spec fn border_cell(w: int, h: int, x: int, y: int) -> bool {
    &&& 0 <= x < w
    &&& 0 <= y < h
    &&& (x == 0 || y == 0 || x == w - 1 || y == h - 1)
}

/// Tile `(x, y)` lies inside the outer ring of the grid.
pub open spec fn interior_cell(w: int, h: int, x: int, y: int) -> bool {
    &&& 0 < x < w - 1
    &&& 0 < y < h - 1
}

/// Every neighbouring room of room `(x, y)` that the backtracker may move to
/// is floor.
pub open spec fn room_closed(g: Seq<bool>, w: int, h: int, x: int, y: int) -> bool {
    &&& (y > 2 ==> !g[cell_index(w, x, y - 2)])
    &&& (x + 2 < w - 1 ==> !g[cell_index(w, x + 2, y)])
    &&& (y + 2 < h - 1 ==> !g[cell_index(w, x, y + 2)])
    &&& (x > 2 ==> !g[cell_index(w, x - 2, y)])
}

/// The size of a grid this module works on.
pub open spec fn grid_dims_ok(w: int, h: int) -> bool {
    &&& 3 <= w <= 41
    &&& 3 <= h <= 41
    &&& w % 2 == 1
    &&& h % 2 == 1
}

/// A grid of the sizes used here has at most 41 * 41 tiles.
proof fn lemma_grid_small(w: int, h: int)
    requires
        grid_dims_ok(w, h),
    ensures
        w * h <= 1681,
{
    assert(w * h <= 41 * 41) by (nonlinear_arith)
        requires
            3 <= w <= 41,
            3 <= h <= 41,
    ;
}

/// When the room at `(1, 1)` is floor and every floor room is closed, every
/// room is floor.
proof fn lemma_rooms_reached(g: Seq<bool>, w: int, h: int, x: int, y: int)
    requires
        grid_dims_ok(w, h),
        g.len() == w * h,
        !g[cell_index(w, 1, 1)],
        forall|a: int, b: int|
            #[trigger] room_cell(w, h, a, b) && !g[cell_index(w, a, b)] ==> room_closed(
                g,
                w,
                h,
                a,
                b,
            ),
        room_cell(w, h, x, y),
    ensures
        !g[cell_index(w, x, y)],
    decreases x + y,
{
    if x > 1 {
        lemma_rooms_reached(g, w, h, x - 2, y);
        assert(room_cell(w, h, x - 2, y));
    } else if y > 1 {
        lemma_rooms_reached(g, w, h, x, y - 2);
        assert(room_cell(w, h, x, y - 2));
    }
}

/// The rooms next to room `(x, y)` that are still walls, in the order in
/// which the backtracker lists them: up, right, down, left.
pub open spec fn wall_neighbours(g: Seq<bool>, w: int, h: int, x: usize, y: usize) -> Seq<(usize, usize)> {
    (if y > 2 && g[cell_index(w, x as int, y - 2)] { seq![(x, (y - 2) as usize)] } else { seq![] })
    + (if x + 2 < w - 1 && g[cell_index(w, x + 2, y as int)] { seq![((x + 2) as usize, y)] } else { seq![] })
    + (if y + 2 < h - 1 && g[cell_index(w, x as int, y + 2)] { seq![(x, (y + 2) as usize)] } else { seq![] })
    + (if x > 2 && g[cell_index(w, x - 2, y as int)] { seq![((x - 2) as usize, y)] } else { seq![] })
}

/// What holds between two steps of the backtracker: the stack holds distinct
/// floor rooms, every floor room off the stack is closed, the outer ring is
/// solid and the start room is floor.
#[verifier::opaque]
spec fn backtrack_inv(g: Seq<bool>, w: int, h: int, stack: Seq<(usize, usize)>) -> bool {
    &&& grid_dims_ok(w, h)
    &&& g.len() == w * h
    &&& !g[cell_index(w, 1, 1)]
    &&& forall|k: int|
        0 <= k < stack.len() ==> room_cell(w, h, (#[trigger] stack[k]).0 as int, stack[k].1 as int)
            && !g[cell_index(w, stack[k].0 as int, stack[k].1 as int)]
    &&& forall|k1: int, k2: int|
        0 <= k1 < stack.len() && 0 <= k2 < stack.len() && k1 != k2 ==> #[trigger] stack[k1]
            != #[trigger] stack[k2]
    &&& forall|x: usize, y: usize|
        #[trigger] room_cell(w, h, x as int, y as int) && !g[cell_index(w, x as int, y as int)]
            && !stack.contains((x, y)) ==> room_closed(g, w, h, x as int, y as int)
    &&& forall|x: int, y: int| border_cell(w, h, x, y) ==> #[trigger] g[cell_index(w, x, y)]
}

/// Lists the rooms next to room `(x, y)` that are still walls.
fn list_wall_neighbours(grid: &Vec<bool>, w: usize, h: usize, x: usize, y: usize) -> (r: Vec<(usize, usize)>)
    requires
        grid_dims_ok(w as int, h as int),
        grid@.len() == w * h,
        room_cell(w as int, h as int, x as int, y as int),
    ensures
        r@ == wall_neighbours(grid@, w as int, h as int, x, y),
{
    let ghost wi = w as int;
    let ghost hi = h as int;
    proof {
        lemma_grid_small(wi, hi);
    }
    let mut r: Vec<(usize, usize)> = Vec::new();
    if y > 2 {
        proof { lemma_cell_index(wi, hi, x as int, y - 2); }
        if grid[(y - 2) * w + x] {
            r.push((x, y - 2));
        }
    }
    let ghost r1 = r@;
    if x + 2 < w - 1 {
        proof { lemma_cell_index(wi, hi, x + 2, y as int); }
        if grid[y * w + x + 2] {
            r.push((x + 2, y));
        }
    }
    let ghost r2 = r@;
    if y + 2 < h - 1 {
        proof { lemma_cell_index(wi, hi, x as int, y + 2); }
        if grid[(y + 2) * w + x] {
            r.push((x, y + 2));
        }
    }
    let ghost r3 = r@;
    if x > 2 {
        proof { lemma_cell_index(wi, hi, x - 2, y as int); }
        if grid[y * w + x - 2] {
            r.push((x - 2, y));
        }
    }
    assert(r@ =~= wall_neighbours(grid@, wi, hi, x, y));
    r
}

/// Each listed wall neighbour is a wall room two tiles away from `(x, y)`
/// in one direction; the tile between them is interior and not a room.
proof fn lemma_wall_neighbour(g: Seq<bool>, w: int, h: int, x: usize, y: usize, i: int)
    requires
        grid_dims_ok(w, h),
        g.len() == w * h,
        room_cell(w, h, x as int, y as int),
        0 <= i < wall_neighbours(g, w, h, x, y).len(),
    ensures
        ({
            let (nx, ny) = wall_neighbours(g, w, h, x, y)[i];
            let mx = (x + nx) / 2;
            let my = (y + ny) / 2;
            &&& room_cell(w, h, nx as int, ny as int)
            &&& g[cell_index(w, nx as int, ny as int)]
            &&& 0 < mx < w - 1
            &&& 0 < my < h - 1
            &&& !room_cell(w, h, mx, my)
            &&& (mx != nx || my != ny)
            &&& ((nx == x && (ny == y - 2 || ny == y + 2)) || (ny == y && (nx == x - 2 || nx == x + 2)))
        }),
{
    let a: Seq<(usize, usize)> = if y > 2 && g[cell_index(w, x as int, y - 2)] { seq![(x, (y - 2) as usize)] } else { seq![] };
    let b: Seq<(usize, usize)> = if x + 2 < w - 1 && g[cell_index(w, x + 2, y as int)] { seq![((x + 2) as usize, y)] } else { seq![] };
    let c: Seq<(usize, usize)> = if y + 2 < h - 1 && g[cell_index(w, x as int, y + 2)] { seq![(x, (y + 2) as usize)] } else { seq![] };
    let d: Seq<(usize, usize)> = if x > 2 && g[cell_index(w, x - 2, y as int)] { seq![((x - 2) as usize, y)] } else { seq![] };
    let ns = wall_neighbours(g, w, h, x, y);
    assert(ns == a + b + c + d);
    let n = ns[i];
    assert(a.contains(n) || b.contains(n) || c.contains(n) || d.contains(n)) by {
        if i < a.len() {
            assert(a[i] == n);
        } else if i < a.len() + b.len() {
            assert(b[i - a.len()] == n);
        } else if i < a.len() + b.len() + c.len() {
            assert(c[i - a.len() - b.len()] == n);
        } else {
            assert(d[i - a.len() - b.len() - c.len()] == n);
        }
    }
}

/// Popping a closed room off the stack keeps the backtracker invariant.
proof fn lemma_pop_step(g: Seq<bool>, w: int, h: int, stack: Seq<(usize, usize)>)
    requires
        backtrack_inv(g, w, h, stack),
        stack.len() > 0,
        wall_neighbours(g, w, h, stack.last().0, stack.last().1).len() == 0,
    ensures
        backtrack_inv(g, w, h, stack.drop_last()),
{
    reveal(backtrack_inv);
    let (x, y) = stack.last();
    assert(stack[stack.len() - 1] == (x, y));
    assert(room_closed(g, w, h, x as int, y as int));
    let s2 = stack.drop_last();
    assert forall|k1: int, k2: int|
        0 <= k1 < s2.len() && 0 <= k2 < s2.len() && k1 != k2 implies #[trigger] s2[k1] != #[trigger] s2[k2] by {
        assert(s2[k1] == stack[k1]);
        assert(s2[k2] == stack[k2]);
    }
    assert forall|a: usize, b: usize|
        #[trigger] room_cell(w, h, a as int, b as int) && !g[cell_index(w, a as int, b as int)]
        && !s2.contains((a, b)) implies room_closed(g, w, h, a as int, b as int) by {
        if (a, b) != (x, y) {
            if stack.contains((a, b)) {
                let k = choose|k: int| 0 <= k < stack.len() && stack[k] == (a, b);
                assert(k < s2.len());
                assert(s2[k] == (a, b));
            }
        }
    }
    assert forall|k: int| 0 <= k < s2.len() implies room_cell(w, h, (#[trigger] s2[k]).0 as int, s2[k].1 as int)
        && !g[cell_index(w, s2[k].0 as int, s2[k].1 as int)] by {
        assert(s2[k] == stack[k]);
    }
}

/// Carving the passage from the top room to a wall neighbour and pushing
/// that neighbour keeps the backtracker invariant.
#[verifier::rlimit(40)]
proof fn lemma_push_step(
    g0: Seq<bool>,
    w: int,
    h: int,
    stack: Seq<(usize, usize)>,
    i: int,
    g: Seq<bool>,
)
    requires
        backtrack_inv(g0, w, h, stack),
        stack.len() > 0,
        0 <= i < wall_neighbours(g0, w, h, stack.last().0, stack.last().1).len(),
        ({
            let (x, y) = stack.last();
            let (nx, ny) = wall_neighbours(g0, w, h, x, y)[i];
            g == g0.update(cell_index(w, (x + nx) / 2, (y + ny) / 2), false).update(
                cell_index(w, nx as int, ny as int),
                false,
            )
        }),
    ensures
        ({
            let (x, y) = stack.last();
            let n = wall_neighbours(g0, w, h, x, y)[i];
            &&& backtrack_inv(g, w, h, stack.push(n))
            &&& count_walls(g) < count_walls(g0)
        }),
{
    reveal(backtrack_inv);
    let (x, y) = stack.last();
    assert(stack[stack.len() - 1] == (x, y));
    let ns = wall_neighbours(g0, w, h, x, y);
    let (nx, ny) = ns[i];
    let mx = (x + nx) / 2;
    let my = (y + ny) / 2;
    assert(room_cell(w, h, x as int, y as int));
    lemma_wall_neighbour(g0, w, h, x, y, i);
    let mi = cell_index(w, mx, my);
    let di = cell_index(w, nx as int, ny as int);
    lemma_cell_index(w, h, mx, my);
    lemma_cell_index(w, h, nx as int, ny as int);
    lemma_cell_index(w, h, 1, 1);
    let g1 = g0.update(mi, false);
    lemma_count_walls_clear(g0, mi);
    if di == mi {
        lemma_cell_index_injective(w, nx as int, ny as int, mx, my);
    }
    lemma_count_walls_clear(g1, di);
    let s2 = stack.push((nx, ny));
    // Tiles other than the two carved ones keep their state.
    assert forall|a: int, b: int| 0 <= a < w && 0 <= b < h && (a != mx || b != my) && (a != nx || b != ny)
        implies #[trigger] g[cell_index(w, a, b)] == g0[cell_index(w, a, b)] by {
        lemma_cell_index(w, h, a, b);
        if cell_index(w, a, b) == mi {
            lemma_cell_index_injective(w, a, b, mx, my);
        }
        if cell_index(w, a, b) == di {
            lemma_cell_index_injective(w, a, b, nx as int, ny as int);
        }
    }
    assert forall|k: int| 0 <= k < s2.len() implies room_cell(w, h, (#[trigger] s2[k]).0 as int, s2[k].1 as int)
        && !g[cell_index(w, s2[k].0 as int, s2[k].1 as int)] by {
        if k < stack.len() {
            assert(s2[k] == stack[k]);
            let (a, b) = stack[k];
            lemma_cell_index(w, h, a as int, b as int);
        }
    }
    assert forall|k1: int, k2: int|
        0 <= k1 < s2.len() && 0 <= k2 < s2.len() && k1 != k2 implies #[trigger] s2[k1] != #[trigger] s2[k2] by {
        if k1 == stack.len() && k2 < stack.len() {
            assert(!g0[cell_index(w, stack[k2].0 as int, stack[k2].1 as int)]);
        } else if k2 == stack.len() && k1 < stack.len() {
            assert(!g0[cell_index(w, stack[k1].0 as int, stack[k1].1 as int)]);
        } else {
            assert(s2[k1] == stack[k1]);
            assert(s2[k2] == stack[k2]);
        }
    }
    assert forall|a: usize, b: usize|
        #[trigger] room_cell(w, h, a as int, b as int) && !g[cell_index(w, a as int, b as int)]
        && !s2.contains((a, b)) implies room_closed(g, w, h, a as int, b as int) by {
        assert(s2[s2.len() - 1] == (nx, ny));
        assert((a, b) != (nx, ny));
        assert(!g0[cell_index(w, a as int, b as int)]);
        if stack.contains((a, b)) {
            let k = choose|k: int| 0 <= k < stack.len() && stack[k] == (a, b);
            assert(s2[k] == (a, b));
        }
        assert(room_closed(g0, w, h, a as int, b as int));
        if b > 2 { lemma_cell_index(w, h, a as int, b - 2); }
        if a + 2 < w - 1 { lemma_cell_index(w, h, a + 2, b as int); }
        if b + 2 < h - 1 { lemma_cell_index(w, h, a as int, b + 2); }
        if a > 2 { lemma_cell_index(w, h, a - 2, b as int); }
    }
    assert forall|a: int, b: int| border_cell(w, h, a, b) implies #[trigger] g[cell_index(w, a, b)] by {
        lemma_cell_index(w, h, a, b);
    }
}

/// Tiles `a` and `b` share a side.
pub open spec fn side_by_side(a: (int, int), b: (int, int)) -> bool {
    ||| (a.0 == b.0 && (a.1 == b.1 + 1 || a.1 + 1 == b.1))
    ||| (a.1 == b.1 && (a.0 == b.0 + 1 || a.0 + 1 == b.0))
}

/// Step `i` of walk `p` goes to a tile sharing a side.
pub open spec fn walk_step(p: Seq<(int, int)>, i: int) -> bool {
    side_by_side(p[i], p[i + 1])
}

/// `p` is a walk over floor tiles of the `w` by `h` grid `g`, each step
/// going to a tile that shares a side with the one before.
pub open spec fn floor_walk(g: Seq<bool>, w: int, h: int, p: Seq<(int, int)>) -> bool {
    &&& p.len() > 0
    &&& forall|i: int| 0 <= i < p.len() ==> !wall_in(g, w, h, (#[trigger] p[i]).0, p[i].1)
    &&& forall|i: int| 0 <= i < p.len() - 1 ==> #[trigger] walk_step(p, i)
}

/// Tile `(x, y)` can be reached from the start room `(1, 1)` walking over
/// floor tiles of `g`.
pub open spec fn reachable(g: Seq<bool>, w: int, h: int, x: int, y: int) -> bool {
    exists|p: Seq<(int, int)>| #[trigger] floor_walk(g, w, h, p) && p[0] == (1int, 1int) && p.last() == (x, y)
}

/// Every room that is floor can be reached from the start room.
pub open spec fn floor_rooms_reachable(g: Seq<bool>, w: int, h: int) -> bool {
    forall|x: int, y: int| #[trigger] room_cell(w, h, x, y) && !g[cell_index(w, x, y)] ==> reachable(g, w, h, x, y)
}

/// A grid whose floor tiles are all floor in `g2` too.
pub open spec fn floor_kept(g1: Seq<bool>, g2: Seq<bool>) -> bool {
    &&& g1.len() == g2.len()
    &&& forall|i: int| 0 <= i < g1.len() && !g1[i] ==> !(#[trigger] g2[i])
}

/// Opening walls keeps every walk a walk.
proof fn lemma_walk_kept(g1: Seq<bool>, g2: Seq<bool>, w: int, h: int, p: Seq<(int, int)>)
    requires
        g1.len() == w * h,
        floor_kept(g1, g2),
        floor_walk(g1, w, h, p),
    ensures
        floor_walk(g2, w, h, p),
{
    assert forall|i: int| 0 <= i < p.len() implies !wall_in(g2, w, h, (#[trigger] p[i]).0, p[i].1) by {
        assert(!wall_in(g1, w, h, p[i].0, p[i].1));
        lemma_cell_index(w, h, p[i].0, p[i].1);
    }
}

/// Opening walls keeps every reachable tile reachable.
proof fn lemma_reachable_kept(g1: Seq<bool>, g2: Seq<bool>, w: int, h: int, x: int, y: int)
    requires
        g1.len() == w * h,
        floor_kept(g1, g2),
        reachable(g1, w, h, x, y),
    ensures
        reachable(g2, w, h, x, y),
{
    let p = choose|p: Seq<(int, int)>| #[trigger] floor_walk(g1, w, h, p) && p[0] == (1int, 1int) && p.last() == (x, y);
    lemma_walk_kept(g1, g2, w, h, p);
}

/// Rooms reachable before walls are opened stay reachable, and so do all
/// rooms when every room was already floor.
pub proof fn lemma_rooms_reachable_kept(g1: Seq<bool>, g2: Seq<bool>, w: int, h: int)
    requires
        g1.len() == w * h,
        floor_kept(g1, g2),
        forall|x: int, y: int| #[trigger] room_cell(w, h, x, y) ==> reachable(g1, w, h, x, y),
    ensures
        forall|x: int, y: int| #[trigger] room_cell(w, h, x, y) ==> reachable(g2, w, h, x, y),
{
    assert forall|x: int, y: int| #[trigger] room_cell(w, h, x, y) implies reachable(g2, w, h, x, y) by {
        lemma_reachable_kept(g1, g2, w, h, x, y);
    }
}

/// Carving the passage tile `m` and the room `n` next to a reachable room
/// `c` keeps every floor room reachable.
proof fn lemma_carve_reach(g0: Seq<bool>, g: Seq<bool>, w: int, h: int, c: (int, int), m: (int, int), n: (int, int))
    requires
        grid_dims_ok(w, h),
        g0.len() == w * h,
        floor_rooms_reachable(g0, w, h),
        room_cell(w, h, c.0, c.1),
        !g0[cell_index(w, c.0, c.1)],
        0 <= m.0 < w && 0 <= m.1 < h,
        0 <= n.0 < w && 0 <= n.1 < h,
        side_by_side(c, m),
        side_by_side(m, n),
        g == g0.update(cell_index(w, m.0, m.1), false).update(cell_index(w, n.0, n.1), false),
    ensures
        floor_rooms_reachable(g, w, h),
{
    lemma_cell_index(w, h, m.0, m.1);
    lemma_cell_index(w, h, n.0, n.1);
    assert(floor_kept(g0, g));
    assert(reachable(g0, w, h, c.0, c.1));
    let p = choose|p: Seq<(int, int)>| #[trigger] floor_walk(g0, w, h, p) && p[0] == (1int, 1int) && p.last() == c;
    lemma_walk_kept(g0, g, w, h, p);
    let q = p.push(m).push(n);
    assert(floor_walk(g, w, h, q)) by {
        assert forall|i: int| 0 <= i < q.len() implies !wall_in(g, w, h, (#[trigger] q[i]).0, q[i].1) by {
            if i < p.len() {
                assert(q[i] == p[i]);
            }
        }
        assert forall|i: int| 0 <= i < q.len() - 1 implies #[trigger] walk_step(q, i) by {
            if i < p.len() - 1 {
                assert(q[i] == p[i] && q[i + 1] == p[i + 1]);
                assert(walk_step(p, i));
            } else if i == p.len() - 1 {
                assert(q[i] == c && q[i + 1] == m);
            } else {
                assert(q[i] == m && q[i + 1] == n);
            }
        }
    }
    assert(q[0] == (1int, 1int) && q.last() == n);
    assert forall|x: int, y: int| #[trigger] room_cell(w, h, x, y) && !g[cell_index(w, x, y)] implies reachable(g, w, h, x, y) by {
        lemma_cell_index(w, h, x, y);
        if (x, y) == n {
            assert(floor_walk(g, w, h, q));
        } else if (x, y) == m {
            assert(floor_walk(g, w, h, p.push(m)) && p.push(m).last() == m) by {
                assert forall|i: int| 0 <= i < p.push(m).len() implies !wall_in(g, w, h, (#[trigger] p.push(m)[i]).0, p.push(m)[i].1) by {
                    if i < p.len() {
                        assert(p.push(m)[i] == p[i]);
                    }
                }
                assert forall|i: int| 0 <= i < p.push(m).len() - 1 implies #[trigger] walk_step(p.push(m), i) by {
                    if i < p.len() - 1 {
                        assert(p.push(m)[i] == p[i] && p.push(m)[i + 1] == p[i + 1]);
                        assert(walk_step(p, i));
                    }
                }
            }
        } else {
            if cell_index(w, x, y) == cell_index(w, m.0, m.1) {
                lemma_cell_index_injective(w, x, y, m.0, m.1);
            }
            if cell_index(w, x, y) == cell_index(w, n.0, n.1) {
                lemma_cell_index_injective(w, x, y, n.0, n.1);
            }
            assert(!g0[cell_index(w, x, y)]);
            lemma_reachable_kept(g0, g, w, h, x, y);
        }
    }
}

/// A grid holds at most as many walls as tiles.
proof fn lemma_count_walls_len(g: Seq<bool>)
    ensures
        count_walls(g) <= g.len(),
    decreases g.len(),
{
    if g.len() > 0 {
        lemma_count_walls_len(g.drop_last());
    }
}

/// Steps enough for the backtracker on a grid of `n` tiles: each step
/// either opens a wall or drops a room from the stack.
pub open spec fn carve_fuel(n: int) -> nat {
    (2 * n + 1) as nat
}

/// The recursive backtracker run on `g` from the rooms on `stack`, drawing
/// from the generator seeded with `seed` after the draws `draws`, for at
/// most `fuel` steps: the grid it carves and the draws made. Each step
/// looks at the room on top of the stack: with no wall room next to it,
/// the room is dropped; otherwise one of those rooms is drawn (a draw below
/// its bound, as every draw is), the passage to it and the room are opened,
/// and the room goes on the stack.
pub open spec fn carve_run(
    g: Seq<bool>,
    w: int,
    h: int,
    stack: Seq<(usize, usize)>,
    seed: u64,
    draws: Seq<(u8, u64, u64)>,
    fuel: nat,
) -> (Seq<bool>, Seq<(u8, u64, u64)>)
    decreases fuel,
{
    if fuel == 0 || stack.len() == 0 {
        (g, draws)
    } else {
        let top = stack.last();
        let ns = wall_neighbours(g, w, h, top.0, top.1);
        if ns.len() == 0 {
            carve_run(g, w, h, stack.drop_last(), seed, draws, (fuel - 1) as nat)
        } else {
            let i = chacha8_below(seed, draws, ns.len() as u64);
            let d2 = draws.push(below_draw(ns.len() as u64));
            if i >= ns.len() {
                (g, d2)
            } else {
                let n = ns[i as int];
                let g2 = g.update(cell_index(w, (top.0 + n.0) / 2, (top.1 + n.1) / 2), false).update(
                    cell_index(w, n.0 as int, n.1 as int),
                    false,
                );
                carve_run(g2, w, h, stack.push(n), seed, d2, (fuel - 1) as nat)
            }
        }
    }
}

/// At a step of the backtracker whose top room has wall rooms next to it,
/// the room carved is the one at the index drawn from the generator among
/// those neighbours (the draw being below their number, as every draw is):
/// the passage to it and the room itself are opened, it goes on the stack,
/// and carving goes on from there with that draw recorded.
pub proof fn lemma_carve_takes_drawn_room(
    g: Seq<bool>,
    w: int,
    h: int,
    stack: Seq<(usize, usize)>,
    seed: u64,
    draws: Seq<(u8, u64, u64)>,
    fuel: nat,
)
    requires
        fuel > 0,
        stack.len() > 0,
        wall_neighbours(g, w, h, stack.last().0, stack.last().1).len() > 0,
        chacha8_below(seed, draws, wall_neighbours(g, w, h, stack.last().0, stack.last().1).len() as u64)
            < wall_neighbours(g, w, h, stack.last().0, stack.last().1).len(),
    ensures
        ({
            let (x, y) = stack.last();
            let ns = wall_neighbours(g, w, h, x, y);
            let i = chacha8_below(seed, draws, ns.len() as u64) as int;
            let (nx, ny) = ns[i];
            let opened = g.update(cell_index(w, (x + nx) / 2, (y + ny) / 2), false).update(
                cell_index(w, nx as int, ny as int),
                false,
            );
            carve_run(g, w, h, stack, seed, draws, fuel) == carve_run(
                opened,
                w,
                h,
                stack.push((nx, ny)),
                seed,
                draws.push((0u8, ns.len() as u64, 0u64)),
                (fuel - 1) as nat,
            )
        }),
{
}

/// Carves a perfect maze into an all-wall grid with the recursive
/// backtracker, starting from room `(1, 1)`: every room becomes floor, and
/// the outer ring stays solid.
fn carve_passages(grid: &mut Vec<bool>, w: usize, h: usize, rng: &mut SeededRng)
    requires
        grid_dims_ok(w as int, h as int),
        old(grid)@.len() == w * h,
        forall|i: int| 0 <= i < w * h ==> old(grid)@[i],
    ensures
        final(grid)@.len() == w * h,
        forall|x: int, y: int|
            room_cell(w as int, h as int, x, y) ==> !(#[trigger] final(grid)@[cell_index(w as int, x, y)]),
        forall|x: int, y: int|
            border_cell(w as int, h as int, x, y) ==> #[trigger] final(grid)@[cell_index(w as int, x, y)],
        forall|x: int, y: int| #[trigger] room_cell(w as int, h as int, x, y) ==> reachable(final(grid)@, w as int, h as int, x, y),
        (final(grid)@, final(rng).draws()) == carve_run(
            old(grid)@.update(cell_index(w as int, 1, 1), false),
            w as int,
            h as int,
            seq![(1usize, 1usize)],
            old(rng).seed(),
            old(rng).draws(),
            carve_fuel(w * h),
        ),
        final(rng).seed() == old(rng).seed(),
{
    let ghost wi = w as int;
    let ghost hi = h as int;
    let ghost seed = rng.seed();
    proof {
        lemma_cell_index(wi, hi, 1, 1);
        lemma_grid_small(wi, hi);
    }
    grid.set(w + 1, false);
    let mut stack: Vec<(usize, usize)> = Vec::new();
    stack.push((1, 1));
    let ghost target = carve_run(grid@, wi, hi, stack@, seed, rng.draws(), carve_fuel(wi * hi));
    let ghost mut fuel: nat = carve_fuel(wi * hi);
    proof {
        assert(stack@ =~= seq![(1usize, 1usize)]);
        lemma_count_walls_len(grid@);
        assert forall|x: int, y: int| border_cell(wi, hi, x, y) implies #[trigger] grid@[cell_index(wi, x, y)] by {
            lemma_cell_index(wi, hi, x, y);
            if cell_index(wi, x, y) == cell_index(wi, 1, 1) {
                lemma_cell_index_injective(wi, x, y, 1, 1);
            }
        }
        assert forall|x: usize, y: usize|
            #[trigger] room_cell(wi, hi, x as int, y as int) && !grid@[cell_index(wi, x as int, y as int)]
            && !stack@.contains((x, y)) implies room_closed(grid@, wi, hi, x as int, y as int) by {
            lemma_cell_index(wi, hi, x as int, y as int);
            if cell_index(wi, x as int, y as int) == cell_index(wi, 1, 1) {
                lemma_cell_index_injective(wi, x as int, y as int, 1, 1);
                assert(stack@[0] == (x, y));
            }
        }
        reveal(backtrack_inv);
        assert(backtrack_inv(grid@, wi, hi, stack@));
        assert forall|x: int, y: int| #[trigger] room_cell(wi, hi, x, y) && !grid@[cell_index(wi, x, y)]
            implies reachable(grid@, wi, hi, x, y) by {
            lemma_cell_index(wi, hi, x, y);
            if cell_index(wi, x, y) != cell_index(wi, 1, 1) {
                assert(grid@[cell_index(wi, x, y)]);
            }
            lemma_cell_index_injective(wi, x, y, 1, 1);
            let p = seq![(1int, 1int)];
            assert(floor_walk(grid@, wi, hi, p));
        }
    }
    while stack.len() > 0
        invariant
            wi == w,
            hi == h,
            w * h <= 1681,
            backtrack_inv(grid@, wi, hi, stack@),
            floor_rooms_reachable(grid@, wi, hi),
            rng.seed() == seed,
            fuel >= 2 * count_walls(grid@) + stack@.len(),
            carve_run(grid@, wi, hi, stack@, seed, rng.draws(), fuel) == target,
        decreases 2 * count_walls(grid@) + stack@.len(),
    {
        let top = stack[stack.len() - 1];
        let x = top.0;
        let y = top.1;
        proof {
            reveal(backtrack_inv);
            assert(room_cell(wi, hi, x as int, y as int));
        }
        let neighbours = list_wall_neighbours(grid, w, h, x, y);
        proof {
            assert(stack@.last() == (x, y));
        }
        if neighbours.len() == 0 {
            proof {
                lemma_pop_step(grid@, wi, hi, stack@);
                fuel = (fuel - 1) as nat;
            }
            stack.pop();
        } else {
            let ghost d0 = rng.draws();
            let i = random_below(rng, neighbours.len() as u64) as usize;
            let (nx, ny) = neighbours[i];
            let ghost g0 = grid@;
            let ghost s0 = stack@;
            proof {
                reveal(backtrack_inv);
                lemma_wall_neighbour(g0, wi, hi, x, y, i as int);
            }
            let mx = (x + nx) / 2;
            let my = (y + ny) / 2;
            proof {
                lemma_cell_index(wi, hi, mx as int, my as int);
                lemma_cell_index(wi, hi, nx as int, ny as int);
            }
            grid.set(my * w + mx, false);
            grid.set(ny * w + nx, false);
            proof {
                lemma_push_step(g0, wi, hi, s0, i as int, grid@);
                assert(s0[s0.len() - 1] == (x, y));
                assert(!g0[cell_index(wi, x as int, y as int)]);
                lemma_carve_reach(g0, grid@, wi, hi, (x as int, y as int), (mx as int, my as int), (nx as int, ny as int));
                assert(grid@ == g0.update(cell_index(wi, (x + nx) / 2, (y + ny) / 2), false).update(
                    cell_index(wi, nx as int, ny as int),
                    false,
                ));
                assert(rng.draws() == d0.push(below_draw(neighbours@.len() as u64)));
                fuel = (fuel - 1) as nat;
            }
            stack.push((nx, ny));
        }
    }
    assert(carve_run(grid@, wi, hi, stack@, seed, rng.draws(), fuel) == (grid@, rng.draws()));
    proof {
        reveal(backtrack_inv);
        assert forall|a: int, b: int|
            #[trigger] room_cell(wi, hi, a, b) && !grid@[cell_index(wi, a, b)] implies room_closed(grid@, wi, hi, a, b) by {
            assert(room_cell(wi, hi, a as usize as int, b as usize as int));
            assert(!stack@.contains((a as usize, b as usize)));
        }
        assert forall|x: int, y: int| room_cell(wi, hi, x, y) implies !(#[trigger] grid@[cell_index(wi, x, y)]) by {
            lemma_rooms_reached(grid@, wi, hi, x, y);
        }
        assert forall|x: int, y: int| #[trigger] room_cell(wi, hi, x, y) implies reachable(grid@, wi, hi, x, y) by {
            lemma_rooms_reached(grid@, wi, hi, x, y);
        }
    }
}

} // verus!

verus! {

/// The loop-opening pass over the tiles `tiles`, in order, on grid `g`,
/// drawing from the generator seeded with `seed` after the draws `draws`:
/// for each tile that is a wall a yes/no is drawn with chance
/// `percent / 100`, and on yes the tile is opened. Gives the grid and the
/// draws made.
pub open spec fn loops_run(
    g: Seq<bool>,
    w: int,
    tiles: Seq<(usize, usize)>,
    seed: u64,
    draws: Seq<(u8, u64, u64)>,
    percent: u32,
) -> (Seq<bool>, Seq<(u8, u64, u64)>)
    decreases tiles.len(),
{
    if tiles.len() == 0 {
        (g, draws)
    } else {
        let i = cell_index(w, tiles[0].0 as int, tiles[0].1 as int);
        if g[i] {
            let b = chacha8_ratio(seed, draws, percent, 100);
            let g2 = if b { g.update(i, false) } else { g };
            loops_run(g2, w, tiles.drop_first(), seed, draws.push(ratio_draw(percent, 100)), percent)
        } else {
            loops_run(g, w, tiles.drop_first(), seed, draws, percent)
        }
    }
}

/// Opens extra floor tiles: every interior wall tile is cleared with
/// probability `percent / 100`, tiles visited row by row. Nothing else
/// changes; at 0 percent nothing is cleared, at 100 percent every
/// interior tile ends up floor.
fn open_loops(grid: &mut Vec<bool>, w: usize, h: usize, rng: &mut SeededRng, percent: u32)
    requires
        grid_dims_ok(w as int, h as int),
        old(grid)@.len() == w * h,
        percent <= 100,
    ensures
        final(grid)@.len() == w * h,
        forall|x: int, y: int|
            0 <= x < w && 0 <= y < h ==> (#[trigger] final(grid)@[cell_index(w as int, x, y)]
                == old(grid)@[cell_index(w as int, x, y)] || (!final(grid)@[cell_index(w as int, x, y)]
                && 0 < x < w - 1 && 0 < y < h - 1)),
        floor_kept(old(grid)@, final(grid)@),
        percent == 0 ==> final(grid)@ == old(grid)@,
        percent == 100 ==> forall|x: int, y: int|
            0 < x < w - 1 && 0 < y < h - 1 ==> !(#[trigger] final(grid)@[cell_index(w as int, x, y)]),
        (final(grid)@, final(rng).draws()) == loops_run(
            old(grid)@,
            w as int,
            scan_rows(w as int, 1, h as int),
            old(rng).seed(),
            old(rng).draws(),
            percent,
        ),
        final(rng).seed() == old(rng).seed(),
{
    let ghost wi = w as int;
    let ghost hi = h as int;
    let ghost g0 = grid@;
    let ghost seed = rng.seed();
    let ghost target = loops_run(g0, wi, scan_rows(wi, 1, hi), seed, rng.draws(), percent);
    proof {
        lemma_grid_small(wi, hi);
    }
    let mut y: usize = 1;
    while y < h - 1
        invariant
            wi == w,
            hi == h,
            grid_dims_ok(wi, hi),
            w * h <= 1681,
            1 <= y <= h - 1,
            percent <= 100,
            grid@.len() == w * h,
            floor_kept(g0, grid@),
            forall|a: int, b: int|
                0 <= a < w && 0 <= b < h ==> (#[trigger] grid@[cell_index(wi, a, b)] == g0[cell_index(wi, a, b)]
                    || (!grid@[cell_index(wi, a, b)] && 0 < a < w - 1 && 0 < b < h - 1)),
            percent == 0 ==> grid@ == g0,
            percent == 100 ==> forall|a: int, b: int|
                0 < a < w - 1 && 0 < b < y ==> !(#[trigger] grid@[cell_index(wi, a, b)]),
            rng.seed() == seed,
            loops_run(grid@, wi, scan_rows(wi, y as int, hi), seed, rng.draws(), percent) == target,
        decreases h - y,
    {
        let ghost tail = scan_rows(wi, y + 1, hi);
        assert(scan_rows(wi, y as int, hi) =~= scan_row(wi, y as int).skip(0) + tail);
        let mut x: usize = 1;
        while x < w - 1
            invariant
                wi == w,
                hi == h,
                grid_dims_ok(wi, hi),
                w * h <= 1681,
                1 <= y < h - 1,
                1 <= x <= w - 1,
                percent <= 100,
                grid@.len() == w * h,
                floor_kept(g0, grid@),
                forall|a: int, b: int|
                    0 <= a < w && 0 <= b < h ==> (#[trigger] grid@[cell_index(wi, a, b)] == g0[cell_index(wi, a, b)]
                        || (!grid@[cell_index(wi, a, b)] && 0 < a < w - 1 && 0 < b < h - 1)),
                percent == 0 ==> grid@ == g0,
                percent == 100 ==> forall|a: int, b: int|
                    0 < a < w - 1 && 0 < b < y ==> !(#[trigger] grid@[cell_index(wi, a, b)]),
                percent == 100 ==> forall|a: int| 0 < a < x ==> !(#[trigger] grid@[cell_index(wi, a, y as int)]),
                rng.seed() == seed,
                tail == scan_rows(wi, y + 1, hi),
                loops_run(grid@, wi, scan_row(wi, y as int).skip(x - 1) + tail, seed, rng.draws(), percent) == target,
            decreases w - x,
        {
            proof {
                lemma_cell_index(wi, hi, x as int, y as int);
                lemma_skip_front(scan_row(wi, y as int), x - 1, tail);
            }
            let ghost d0 = rng.draws();
            let i = y * w + x;
            let ghost g1 = grid@;
            if grid[i] && random_ratio(rng, percent, 100) {
                grid.set(i, false);
                proof {
                    assert(percent != 0);
                    assert forall|j: int| 0 <= j < g0.len() && !g0[j] implies !(#[trigger] grid@[j]) by {
                        if j != i {
                            assert(!g1[j]);
                        }
                    }
                    assert forall|a: int, b: int| 0 <= a < w && 0 <= b < h implies (#[trigger] grid@[cell_index(wi, a, b)]
                        == g0[cell_index(wi, a, b)] || (!grid@[cell_index(wi, a, b)] && 0 < a < w - 1 && 0 < b < h - 1)) by {
                        lemma_cell_index(wi, hi, a, b);
                        if cell_index(wi, a, b) == i {
                            lemma_cell_index_injective(wi, a, b, x as int, y as int);
                        } else {
                            assert(grid@[cell_index(wi, a, b)] == g1[cell_index(wi, a, b)]);
                        }
                    }
                }
            }
            proof {
                if percent == 100 {
                    assert(!grid@[i as int]);
                    assert forall|a: int, b: int| 0 < a < w - 1 && 0 < b < y implies !(#[trigger] grid@[cell_index(wi, a, b)]) by {
                        lemma_cell_index(wi, hi, a, b);
                        assert(!g1[cell_index(wi, a, b)]);
                        if cell_index(wi, a, b) != i as int {
                            assert(grid@[cell_index(wi, a, b)] == g1[cell_index(wi, a, b)]);
                        }
                    }
                    assert forall|a: int| 0 < a < x + 1 implies !(#[trigger] grid@[cell_index(wi, a, y as int)]) by {
                        lemma_cell_index(wi, hi, a, y as int);
                        if a < x {
                            assert(!g1[cell_index(wi, a, y as int)]);
                            if cell_index(wi, a, y as int) != i as int {
                                assert(grid@[cell_index(wi, a, y as int)] == g1[cell_index(wi, a, y as int)]);
                            }
                        }
                    }
                }
            }
            x += 1;
        }
        assert(scan_row(wi, y as int).skip(x - 1) + tail =~= tail);
        y += 1;
    }
}

/// Each interior tile sharing a side with tile `(x, y)` is floor in `g`.
pub open spec fn neighbours_open(g: Seq<bool>, w: int, h: int, x: int, y: int) -> bool {
    &&& interior_cell(w, h, x - 1, y) ==> !g[cell_index(w, x - 1, y)]
    &&& interior_cell(w, h, x + 1, y) ==> !g[cell_index(w, x + 1, y)]
    &&& interior_cell(w, h, x, y - 1) ==> !g[cell_index(w, x, y - 1)]
    &&& interior_cell(w, h, x, y + 1) ==> !g[cell_index(w, x, y + 1)]
}

/// Opening walls keeps open neighbours open.
proof fn lemma_neighbours_kept(g1: Seq<bool>, g2: Seq<bool>, w: int, h: int, x: int, y: int)
    requires
        g1.len() == w * h,
        floor_kept(g1, g2),
        0 < x < w - 1,
        0 < y < h - 1,
        neighbours_open(g1, w, h, x, y),
    ensures
        neighbours_open(g2, w, h, x, y),
{
    lemma_cell_index(w, h, x - 1, y);
    lemma_cell_index(w, h, x + 1, y);
    lemma_cell_index(w, h, x, y - 1);
    lemma_cell_index(w, h, x, y + 1);
}

/// One neighbour `(x, y)` of a floor tile in the widening pass: when it is a
/// wall of `grid`, a yes/no is drawn with chance `percent / 100`, and on
/// yes an interior neighbour is opened in `wid`. Gives the widened grid and
/// the draws made.
pub open spec fn widen_tile(
    grid: Seq<bool>,
    wid: Seq<bool>,
    w: int,
    h: int,
    x: int,
    y: int,
    seed: u64,
    draws: Seq<(u8, u64, u64)>,
    percent: u32,
) -> (Seq<bool>, Seq<(u8, u64, u64)>) {
    if grid[cell_index(w, x, y)] {
        let b = chacha8_ratio(seed, draws, percent, 100);
        (
            if b && interior_cell(w, h, x, y) { wid.update(cell_index(w, x, y), false) } else { wid },
            draws.push(ratio_draw(percent, 100)),
        )
    } else {
        (wid, draws)
    }
}

/// The widening pass over the tiles `tiles`, in order: around each tile
/// that is floor in `grid`, its left, right, upper and lower neighbours in
/// turn go through `widen_tile`. Gives the widened grid and the draws made.
pub open spec fn widen_run(
    grid: Seq<bool>,
    wid: Seq<bool>,
    w: int,
    h: int,
    tiles: Seq<(usize, usize)>,
    seed: u64,
    draws: Seq<(u8, u64, u64)>,
    percent: u32,
) -> (Seq<bool>, Seq<(u8, u64, u64)>)
    decreases tiles.len(),
{
    if tiles.len() == 0 {
        (wid, draws)
    } else {
        let x = tiles[0].0 as int;
        let y = tiles[0].1 as int;
        if !grid[cell_index(w, x, y)] {
            let s1 = widen_tile(grid, wid, w, h, x - 1, y, seed, draws, percent);
            let s2 = widen_tile(grid, s1.0, w, h, x + 1, y, seed, s1.1, percent);
            let s3 = widen_tile(grid, s2.0, w, h, x, y - 1, seed, s2.1, percent);
            let s4 = widen_tile(grid, s3.0, w, h, x, y + 1, seed, s3.1, percent);
            widen_run(grid, s4.0, w, h, tiles.drop_first(), seed, s4.1, percent)
        } else {
            widen_run(grid, wid, w, h, tiles.drop_first(), seed, draws, percent)
        }
    }
}

/// Clears, with probability `percent / 100` each, the wall tiles next to
/// every interior floor tile of `grid` (left, right, up, down in that
/// order); tiles of the outer ring stay walls. Walls are judged on `grid`
/// as it was before any widening. At 0 percent nothing is cleared; at 100
/// percent every interior tile next to an interior floor tile ends up floor.
fn widen_corridors(grid: &Vec<bool>, w: usize, h: usize, rng: &mut SeededRng, percent: u32) -> (r: Vec<bool>)
    requires
        grid_dims_ok(w as int, h as int),
        grid@.len() == w * h,
        percent <= 100,
    ensures
        r@.len() == w * h,
        forall|x: int, y: int|
            0 <= x < w && 0 <= y < h ==> (#[trigger] r@[cell_index(w as int, x, y)]
                == grid@[cell_index(w as int, x, y)] || (!r@[cell_index(w as int, x, y)]
                && interior_cell(w as int, h as int, x, y))),
        floor_kept(grid@, r@),
        percent == 0 ==> r@ == grid@,
        percent == 100 ==> forall|x: int, y: int|
            0 < x < w - 1 && 0 < y < h - 1 && !(#[trigger] grid@[cell_index(w as int, x, y)])
                ==> neighbours_open(r@, w as int, h as int, x, y),
        (r@, final(rng).draws()) == widen_run(
            grid@,
            grid@,
            w as int,
            h as int,
            scan_rows(w as int, 1, h as int),
            old(rng).seed(),
            old(rng).draws(),
            percent,
        ),
        final(rng).seed() == old(rng).seed(),
{
    let ghost wi = w as int;
    let ghost hi = h as int;
    let ghost seed = rng.seed();
    let ghost target = widen_run(grid@, grid@, wi, hi, scan_rows(wi, 1, hi), seed, rng.draws(), percent);
    proof {
        lemma_grid_small(wi, hi);
    }
    let mut widened = grid.clone();
    assert(widened@ =~= grid@);
    let mut y: usize = 1;
    while y < h - 1
        invariant
            wi == w,
            hi == h,
            grid_dims_ok(wi, hi),
            w * h <= 1681,
            1 <= y <= h - 1,
            percent <= 100,
            grid@.len() == w * h,
            widened@.len() == w * h,
            floor_kept(grid@, widened@),
            forall|a: int, b: int|
                0 <= a < w && 0 <= b < h ==> (#[trigger] widened@[cell_index(wi, a, b)] == grid@[cell_index(wi, a, b)]
                    || (!widened@[cell_index(wi, a, b)] && interior_cell(wi, hi, a, b))),
            percent == 0 ==> widened@ == grid@,
            percent == 100 ==> forall|a: int, b: int|
                0 < a < w - 1 && 0 < b < y && !(#[trigger] grid@[cell_index(wi, a, b)])
                    ==> neighbours_open(widened@, wi, hi, a, b),
            rng.seed() == seed,
            widen_run(grid@, widened@, wi, hi, scan_rows(wi, y as int, hi), seed, rng.draws(), percent) == target,
        decreases h - y,
    {
        let ghost tail = scan_rows(wi, y + 1, hi);
        assert(scan_rows(wi, y as int, hi) =~= scan_row(wi, y as int).skip(0) + tail);
        let mut x: usize = 1;
        while x < w - 1
            invariant
                wi == w,
                hi == h,
                grid_dims_ok(wi, hi),
                w * h <= 1681,
                1 <= y < h - 1,
                1 <= x <= w - 1,
                percent <= 100,
                grid@.len() == w * h,
                widened@.len() == w * h,
                floor_kept(grid@, widened@),
                forall|a: int, b: int|
                    0 <= a < w && 0 <= b < h ==> (#[trigger] widened@[cell_index(wi, a, b)] == grid@[cell_index(wi, a, b)]
                        || (!widened@[cell_index(wi, a, b)] && interior_cell(wi, hi, a, b))),
                percent == 0 ==> widened@ == grid@,
                percent == 100 ==> forall|a: int, b: int|
                    0 < a < w - 1 && 0 < b < y && !(#[trigger] grid@[cell_index(wi, a, b)])
                        ==> neighbours_open(widened@, wi, hi, a, b),
                percent == 100 ==> forall|a: int|
                    0 < a < x && !(#[trigger] grid@[cell_index(wi, a, y as int)])
                        ==> neighbours_open(widened@, wi, hi, a, y as int),
                rng.seed() == seed,
                tail == scan_rows(wi, y + 1, hi),
                widen_run(grid@, widened@, wi, hi, scan_row(wi, y as int).skip(x - 1) + tail, seed, rng.draws(), percent) == target,
            decreases w - x,
        {
            let ghost w0 = widened@;
            let ghost d0 = rng.draws();
            proof {
                lemma_skip_front(scan_row(wi, y as int), x - 1, tail);
            }
            proof {
                lemma_cell_index(wi, hi, x as int, y as int);
                lemma_cell_index(wi, hi, x - 1, y as int);
                lemma_cell_index(wi, hi, x + 1, y as int);
                lemma_cell_index(wi, hi, x as int, y - 1);
                lemma_cell_index(wi, hi, x as int, y + 1);
            }
            if !grid[y * w + x] {
                let ghost xi = x as int;
                let ghost yi = y as int;
                // The draw is made for every wall neighbour; the outer ring
                // is never cleared, so the maze stays enclosed.
                if grid[y * w + (x - 1)] && random_ratio(rng, percent, 100) && x > 1 {
                    clear_tile(&mut widened, w, h, x - 1, y, grid);
                }
                let ghost s1 = widen_tile(grid@, w0, wi, hi, xi - 1, yi, seed, d0, percent);
                assert((widened@, rng.draws()) == s1);
                if grid[y * w + (x + 1)] && random_ratio(rng, percent, 100) && x + 2 < w {
                    clear_tile(&mut widened, w, h, x + 1, y, grid);
                }
                let ghost s2 = widen_tile(grid@, s1.0, wi, hi, xi + 1, yi, seed, s1.1, percent);
                assert((widened@, rng.draws()) == s2);
                if grid[(y - 1) * w + x] && random_ratio(rng, percent, 100) && y > 1 {
                    clear_tile(&mut widened, w, h, x, y - 1, grid);
                }
                let ghost s3 = widen_tile(grid@, s2.0, wi, hi, xi, yi - 1, seed, s2.1, percent);
                assert((widened@, rng.draws()) == s3);
                if grid[(y + 1) * w + x] && random_ratio(rng, percent, 100) && y + 2 < h {
                    clear_tile(&mut widened, w, h, x, y + 1, grid);
                }
                let ghost s4 = widen_tile(grid@, s3.0, wi, hi, xi, yi + 1, seed, s3.1, percent);
                assert((widened@, rng.draws()) == s4);
            }
            proof {
                assert(floor_kept(w0, widened@));
                if percent == 100 {
                    if !grid@[cell_index(wi, x as int, y as int)] {
                        assert(neighbours_open(widened@, wi, hi, x as int, y as int));
                    }
                    assert forall|a: int, b: int|
                        0 < a < w - 1 && 0 < b < y && !(#[trigger] grid@[cell_index(wi, a, b)])
                        implies neighbours_open(widened@, wi, hi, a, b) by {
                        lemma_neighbours_kept(w0, widened@, wi, hi, a, b);
                    }
                    assert forall|a: int|
                        0 < a < x + 1 && !(#[trigger] grid@[cell_index(wi, a, y as int)])
                        implies neighbours_open(widened@, wi, hi, a, y as int) by {
                        if a < x {
                            lemma_neighbours_kept(w0, widened@, wi, hi, a, y as int);
                        }
                    }
                }
            }
            x += 1;
        }
        assert(scan_row(wi, y as int).skip(x - 1) + tail =~= tail);
        y += 1;
    }
    widened
}

/// Clears one interior tile of the grid.
fn clear_tile(widened: &mut Vec<bool>, w: usize, h: usize, x: usize, y: usize, grid: &Vec<bool>)
    requires
        grid_dims_ok(w as int, h as int),
        old(widened)@.len() == w * h,
        grid@.len() == w * h,
        0 <= x < w,
        0 <= y < h,
        interior_cell(w as int, h as int, x as int, y as int),
        forall|a: int, b: int|
            0 <= a < w && 0 <= b < h ==> (#[trigger] old(widened)@[cell_index(w as int, a, b)] == grid@[cell_index(w as int, a, b)]
                || (!old(widened)@[cell_index(w as int, a, b)] && interior_cell(w as int, h as int, a, b))),
        floor_kept(grid@, old(widened)@),
    ensures
        final(widened)@ == old(widened)@.update(cell_index(w as int, x as int, y as int), false),
        floor_kept(old(widened)@, final(widened)@),
        final(widened)@.len() == w * h,
        floor_kept(grid@, final(widened)@),
        forall|a: int, b: int|
            0 <= a < w && 0 <= b < h ==> (#[trigger] final(widened)@[cell_index(w as int, a, b)] == grid@[cell_index(w as int, a, b)]
                || (!final(widened)@[cell_index(w as int, a, b)] && interior_cell(w as int, h as int, a, b))),
{
    let ghost wi = w as int;
    let ghost hi = h as int;
    let ghost g1 = widened@;
    proof {
        lemma_grid_small(wi, hi);
        lemma_cell_index(wi, hi, x as int, y as int);
    }
    widened.set(y * w + x, false);
    proof {
        assert forall|j: int| 0 <= j < grid@.len() && !grid@[j] implies !(#[trigger] widened@[j]) by {
            if j != y * w + x {
                assert(!g1[j]);
            }
        }
        assert forall|a: int, b: int| 0 <= a < w && 0 <= b < h implies (#[trigger] widened@[cell_index(wi, a, b)]
            == grid@[cell_index(wi, a, b)] || (!widened@[cell_index(wi, a, b)] && interior_cell(wi, hi, a, b))) by {
            lemma_cell_index(wi, hi, a, b);
            if cell_index(wi, a, b) == cell_index(wi, x as int, y as int) {
                lemma_cell_index_injective(wi, a, b, x as int, y as int);
            } else {
                assert(widened@[cell_index(wi, a, b)] == g1[cell_index(wi, a, b)]);
            }
        }
    }
}

} // verus!

verus! {

/// A tile where a player may spawn: an interior floor tile.
pub open spec fn spawn_ok(g: Seq<bool>, w: int, h: int, c: (usize, usize)) -> bool {
    &&& 0 < c.0 < w - 1
    &&& 0 < c.1 < h - 1
    &&& !g[cell_index(w, c.0 as int, c.1 as int)]
}

/// Walks the candidate tiles in order, keeping each acceptable tile not kept
/// before, and stops as soon as `desired` tiles are kept.
pub open spec fn gather_spawns(
    g: Seq<bool>,
    w: int,
    h: int,
    cands: Seq<(usize, usize)>,
    acc: Seq<(usize, usize)>,
    desired: nat,
) -> Seq<(usize, usize)>
    decreases cands.len(),
{
    if cands.len() == 0 {
        acc
    } else {
        let c = cands[0];
        if spawn_ok(g, w, h, c) && !acc.contains(c) {
            if acc.len() + 1 >= desired {
                acc.push(c)
            } else {
                gather_spawns(g, w, h, cands.drop_first(), acc.push(c), desired)
            }
        } else {
            gather_spawns(g, w, h, cands.drop_first(), acc, desired)
        }
    }
}

/// The five coordinates tried first along an axis of length `n`, spreading
/// spawns across the map.
pub open spec fn preferred_coords(n: usize) -> Seq<usize> {
    seq![1usize, n / 4, n / 2, ((n * 3) / 4) as usize, if n >= 2 { (n - 2) as usize } else { 0usize }]
}

/// The tiles `(x, y)` for each `x` of `xs`, in order.
pub open spec fn row_of(xs: Seq<usize>, y: usize) -> Seq<(usize, usize)> {
    xs.map_values(|x: usize| (x, y))
}

/// The rows `ys[i..]` of the preferred tiles, row after row.
pub open spec fn preferred_rows(xs: Seq<usize>, ys: Seq<usize>, i: int) -> Seq<(usize, usize)>
    decreases ys.len() - i,
{
    if i >= ys.len() || i < 0 {
        seq![]
    } else {
        row_of(xs, ys[i]) + preferred_rows(xs, ys, i + 1)
    }
}

/// The interior tiles of row `y`, left to right.
pub open spec fn scan_row(w: int, y: int) -> Seq<(usize, usize)> {
    Seq::new(if w >= 2 { (w - 2) as nat } else { 0nat }, |i: int| ((i + 1) as usize, y as usize))
}

/// The interior tiles of rows `y..h-1`, row by row.
pub open spec fn scan_rows(w: int, y: int, h: int) -> Seq<(usize, usize)>
    decreases h - 1 - y,
{
    if y >= h - 1 {
        seq![]
    } else {
        scan_row(w, y) + scan_rows(w, y + 1, h)
    }
}

/// All tiles considered for spawning, in the order they are considered.
pub open spec fn spawn_candidates(w: usize, h: usize) -> Seq<(usize, usize)> {
    preferred_rows(preferred_coords(w), preferred_coords(h), 0) + scan_rows(w as int, 1, h as int)
}

/// The spawn tiles of a grid: the first `desired` distinct acceptable tiles
/// among the candidates.
pub open spec fn spawn_selection(g: Seq<bool>, w: usize, h: usize, desired: nat) -> Seq<(usize, usize)> {
    gather_spawns(g, w as int, h as int, spawn_candidates(w, h), seq![], desired)
}

/// The interior floor tiles of a grid: the tiles where a player may spawn.
pub open spec fn interior_floor(g: Seq<bool>, w: int, h: int) -> Set<(usize, usize)> {
    Set::new(|c: (usize, usize)| spawn_ok(g, w, h, c))
}

/// The spawn selection of a grid is `min(desired, n)` distinct interior
/// floor tiles, `n` being the number of interior floor tiles.
pub open spec fn spawn_count_ok(g: Seq<bool>, w: usize, h: usize, d: nat) -> bool {
    let r = spawn_selection(g, w, h, d);
    let f = interior_floor(g, w as int, h as int);
    &&& f.finite()
    &&& r.len() == (if d <= f.len() { d } else { f.len() })
    &&& r.no_duplicates()
    &&& forall|i: int| 0 <= i < r.len() ==> spawn_ok(g, w as int, h as int, #[trigger] r[i])
}

/// Every interior tile of rows `y0..h-1` is among the scanned tiles.
proof fn lemma_scan_rows_contains(w: int, y0: int, h: int, c: (usize, usize))
    requires
        0 <= y0 <= c.1 < h - 1,
        0 < c.0 < w - 1,
    ensures
        scan_rows(w, y0, h).contains(c),
    decreases h - 1 - y0,
{
    let row = scan_row(w, y0);
    let rest = scan_rows(w, y0 + 1, h);
    assert(scan_rows(w, y0, h) == row + rest);
    if c.1 == y0 {
        let k = c.0 - 1;
        assert(row[k] == c);
        assert((row + rest)[k] == c);
    } else {
        lemma_scan_rows_contains(w, y0 + 1, h, c);
        let k = choose|k: int| 0 <= k < rest.len() && rest[k] == c;
        assert((row + rest)[row.len() + k] == c);
    }
}

/// The spawn selection keeps `min(desired, n)` distinct interior floor
/// tiles, `n` being the number of interior floor tiles.
proof fn lemma_spawn_count(g: Seq<bool>, w: usize, h: usize, d: nat)
    requires
        d > 0,
    ensures
        spawn_count_ok(g, w, h, d),
{
    let wi = w as int;
    let hi = h as int;
    let cands = spawn_candidates(w, h);
    let pref = preferred_rows(preferred_coords(w), preferred_coords(h), 0);
    let scan = scan_rows(wi, 1, hi);
    assert(cands == pref + scan);
    lemma_gather_spawns(g, wi, hi, cands, seq![], d);
    let r = spawn_selection(g, w, h, d);
    let f = interior_floor(g, wi, hi);
    assert(f.subset_of(scan.to_set())) by {
        assert forall|c: (usize, usize)| f.contains(c) implies scan.to_set().contains(c) by {
            lemma_scan_rows_contains(wi, 1, hi, c);
        }
    }
    vstd::seq_lib::seq_to_set_is_finite(scan);
    vstd::set_lib::lemma_set_subset_finite(scan.to_set(), f);
    r.unique_seq_to_set();
    assert(r.to_set().subset_of(f)) by {
        assert forall|c: (usize, usize)| r.to_set().contains(c) implies f.contains(c) by {
            let i = choose|i: int| 0 <= i < r.len() && r[i] == c;
            assert(spawn_ok(g, wi, hi, r[i]));
        }
    }
    vstd::set_lib::lemma_len_subset(r.to_set(), f);
    if r.len() < d {
        assert forall|c: (usize, usize)| f.contains(c) implies r.to_set().contains(c) by {
            lemma_scan_rows_contains(wi, 1, hi, c);
            let k = choose|k: int| 0 <= k < scan.len() && scan[k] == c;
            assert(cands[pref.len() + k] == c);
            assert(r.contains(c));
        }
        assert(r.to_set() =~= f);
    }
}

proof fn lemma_skip_front<T>(s: Seq<T>, j: int, rest: Seq<T>)
    requires
        0 <= j < s.len(),
    ensures
        (s.skip(j) + rest).len() > 0,
        (s.skip(j) + rest)[0] == s[j],
        (s.skip(j) + rest).drop_first() == s.skip(j + 1) + rest,
{
    assert((s.skip(j) + rest).drop_first() =~= s.skip(j + 1) + rest);
}

fn has_cell(v: &Vec<(usize, usize)>, x: usize, y: usize) -> (r: bool)
    ensures
        r == v@.contains((x, y)),
{
    let mut k: usize = 0;
    while k < v.len()
        invariant
            k <= v@.len(),
            forall|j: int| 0 <= j < k ==> v@[j] != (x, y),
        decreases v.len() - k,
    {
        let c = v[k];
        if c.0 == x && c.1 == y {
            assert(v@[k as int] == (x, y));
            return true;
        }
        k += 1;
    }
    false
}

/// Spawn tiles of `grid`: spread candidates first, then every interior floor
/// tile row by row, until `desired` distinct tiles are found.
fn compute_spawn_points(grid: &Vec<bool>, w: usize, h: usize, desired: usize) -> (r: Vec<(usize, usize)>)
    requires
        1 <= w,
        1 <= h,
        w * 3 <= usize::MAX,
        h * 3 <= usize::MAX,
        grid@.len() == w * h,
        desired > 0,
    ensures
        r@ == spawn_selection(grid@, w, h, desired as nat),
        interior_floor(grid@, w as int, h as int).finite(),
        r@.len() == (if desired <= interior_floor(grid@, w as int, h as int).len() {
            desired as nat
        } else {
            interior_floor(grid@, w as int, h as int).len()
        }),
        r@.no_duplicates(),
        forall|i: int| 0 <= i < r@.len() ==> spawn_ok(grid@, w as int, h as int, #[trigger] r@[i]),
{
    let ghost wi = w as int;
    let ghost hi = h as int;
    let ghost d = desired as nat;
    proof {
        lemma_spawn_count(grid@, w, h, d);
    }
    let n = grid.len();
    assert(w * h <= usize::MAX) by {
        assert(n == w * h);
    }
    let mut spawns: Vec<(usize, usize)> = Vec::new();
    let xs: Vec<usize> = vec![1usize, w / 4, w / 2, (w * 3) / 4, if w >= 2 { w - 2 } else { 0 }];
    let ys: Vec<usize> = vec![1usize, h / 4, h / 2, (h * 3) / 4, if h >= 2 { h - 2 } else { 0 }];
    assert(xs@ =~= preferred_coords(w));
    assert(ys@ =~= preferred_coords(h));
    let ghost scan = scan_rows(wi, 1, hi);
    let mut i: usize = 0;
    while i < 5
        invariant
            wi == w,
            hi == h,
            d == desired,
            d > 0,
            grid@.len() == w * h,
            1 <= w && 1 <= h && w * 3 <= usize::MAX && h * 3 <= usize::MAX && w * h <= usize::MAX,
            spawn_count_ok(grid@, w, h, d),
            xs@ == preferred_coords(w),
            ys@ == preferred_coords(h),
            i <= 5,
            spawns@.len() < d,
            spawn_selection(grid@, w, h, d) == gather_spawns(
                grid@, wi, hi, preferred_rows(xs@, ys@, i as int) + scan, spawns@, d),
        decreases 5 - i,
    {
        let y = ys[i];
        let ghost tail = preferred_rows(xs@, ys@, i + 1) + scan;
        assert(preferred_rows(xs@, ys@, i as int) + scan =~= row_of(xs@, y).skip(0) + tail);
        let mut j: usize = 0;
        while j < 5
            invariant
                wi == w,
                hi == h,
                d == desired,
                d > 0,
                grid@.len() == w * h,
                1 <= w && 1 <= h && w * 3 <= usize::MAX && h * 3 <= usize::MAX && w * h <= usize::MAX,
                spawn_count_ok(grid@, w, h, d),
                xs@ == preferred_coords(w),
                i < 5,
                y == ys@[i as int],
                j <= 5,
                spawns@.len() < d,
                spawn_selection(grid@, w, h, d) == gather_spawns(
                    grid@, wi, hi, row_of(xs@, y).skip(j as int) + tail, spawns@, d),
            decreases 5 - j,
        {
            let x = xs[j];
            proof {
                lemma_skip_front(row_of(xs@, y), j as int, tail);
            }
            if x > 0 && y > 0 && x < w - 1 && y < h - 1 {
                proof {
                    lemma_cell_index(wi, hi, x as int, y as int);
                }
                if !grid[y * w + x] {
                    if !has_cell(&spawns, x, y) {
                        spawns.push((x, y));
                        if spawns.len() >= desired {
                            return spawns;
                        }
                    }
                }
            }
            j += 1;
        }
        assert(row_of(xs@, y).skip(5) + tail =~= tail);
        i += 1;
    }
    assert(preferred_rows(xs@, ys@, 5) + scan =~= scan);
    let mut y: usize = 1;
    while y < h - 1
        invariant
            wi == w,
            hi == h,
            d == desired,
            d > 0,
            grid@.len() == w * h,
            1 <= w && 1 <= h && w * 3 <= usize::MAX && h * 3 <= usize::MAX && w * h <= usize::MAX,
            spawn_count_ok(grid@, w, h, d),
            1 <= y,
            h >= 2 ==> y <= h - 1,
            h < 2 ==> y == 1,
            spawns@.len() < d,
            spawn_selection(grid@, w, h, d) == gather_spawns(grid@, wi, hi, scan_rows(wi, y as int, hi), spawns@, d),
        decreases h - y,
    {
        let ghost tail = scan_rows(wi, y + 1, hi);
        assert(scan_rows(wi, y as int, hi) =~= scan_row(wi, y as int).skip(0) + tail);
        let mut x: usize = 1;
        while x < w - 1
            invariant
                wi == w,
                hi == h,
                d == desired,
                d > 0,
                grid@.len() == w * h,
                1 <= w && 1 <= h && w * 3 <= usize::MAX && h * 3 <= usize::MAX && w * h <= usize::MAX,
                spawn_count_ok(grid@, w, h, d),
                1 <= y < h - 1,
                1 <= x,
                w >= 2 ==> x <= w - 1,
                w < 2 ==> x == 1,
                spawns@.len() < d,
                spawn_selection(grid@, w, h, d) == gather_spawns(
                    grid@, wi, hi, scan_row(wi, y as int).skip(x - 1) + tail, spawns@, d),
            decreases w - x,
        {
            proof {
                lemma_skip_front(scan_row(wi, y as int), x - 1, tail);
                lemma_cell_index(wi, hi, x as int, y as int);
            }
            if !grid[y * w + x] {
                if !has_cell(&spawns, x, y) {
                    spawns.push((x, y));
                    if spawns.len() >= desired {
                        return spawns;
                    }
                }
            }
            x += 1;
        }
        assert(scan_row(wi, y as int).skip(x - 1) + tail =~= tail);
        y += 1;
    }
    spawns
}

} // verus!

verus! {

/// Facts about the tiles `gather_spawns` keeps: acceptable, distinct, at
/// most `desired`, and, when fewer than `desired` are kept, every acceptable
/// candidate was kept.
proof fn lemma_gather_spawns(
    g: Seq<bool>,
    w: int,
    h: int,
    cands: Seq<(usize, usize)>,
    acc: Seq<(usize, usize)>,
    d: nat,
)
    requires
        acc.len() < d,
        acc.no_duplicates(),
        forall|i: int| 0 <= i < acc.len() ==> spawn_ok(g, w, h, #[trigger] acc[i]),
    ensures
        ({
            let r = gather_spawns(g, w, h, cands, acc, d);
            &&& r.len() <= d
            &&& r.no_duplicates()
            &&& forall|i: int| 0 <= i < r.len() ==> spawn_ok(g, w, h, #[trigger] r[i])
            &&& forall|c: (usize, usize)| acc.contains(c) ==> #[trigger] r.contains(c)
            &&& r.len() < d ==> forall|k: int|
                0 <= k < cands.len() && spawn_ok(g, w, h, #[trigger] cands[k]) ==> r.contains(cands[k])
        }),
    decreases cands.len(),
{
    if cands.len() > 0 {
        let c = cands[0];
        let rest = cands.drop_first();
        if spawn_ok(g, w, h, c) && !acc.contains(c) {
            let acc2 = acc.push(c);
            assert(acc2.no_duplicates()) by {
                assert forall|i: int, j: int| 0 <= i < acc2.len() && 0 <= j < acc2.len() && i != j implies acc2[i] != acc2[j] by {
                    if i < acc.len() && j < acc.len() {
                        assert(acc2[i] == acc[i] && acc2[j] == acc[j]);
                    } else if i < acc.len() {
                        assert(acc.contains(acc2[i]));
                    } else if j < acc.len() {
                        assert(acc.contains(acc2[j]));
                    }
                }
            }
            assert forall|i: int| 0 <= i < acc2.len() implies spawn_ok(g, w, h, #[trigger] acc2[i]) by {
                if i < acc.len() {
                    assert(acc2[i] == acc[i]);
                }
            }
            assert forall|x: (usize, usize)| acc.contains(x) implies acc2.contains(x) by {
                let i = choose|i: int| 0 <= i < acc.len() && acc[i] == x;
                assert(acc2[i] == x);
            }
            assert(acc2.contains(c)) by {
                assert(acc2[acc.len() as int] == c);
            }
            if acc2.len() < d {
                lemma_gather_spawns(g, w, h, rest, acc2, d);
                let r = gather_spawns(g, w, h, rest, acc2, d);
                assert forall|k: int| 0 <= k < cands.len() && r.len() < d && spawn_ok(g, w, h, #[trigger] cands[k])
                    implies r.contains(cands[k]) by {
                    if k > 0 {
                        assert(cands[k] == rest[k - 1]);
                    }
                }
            }
        } else {
            lemma_gather_spawns(g, w, h, rest, acc, d);
            let r = gather_spawns(g, w, h, rest, acc, d);
            assert forall|k: int| 0 <= k < cands.len() && r.len() < d && spawn_ok(g, w, h, #[trigger] cands[k])
                implies r.contains(cands[k]) by {
                if k > 0 {
                    assert(cands[k] == rest[k - 1]);
                }
            }
        }
    }
}

/// When all rooms are floor, the spawn selection finds `desired` (at most 7)
/// distinct interior floor tiles.
proof fn lemma_spawn_selection(g: Seq<bool>, w: usize, h: usize, d: nat)
    requires
        grid_dims_ok(w as int, h as int),
        w >= 15,
        g.len() == w * h,
        0 < d <= 7,
        forall|x: int, y: int| room_cell(w as int, h as int, x, y) ==> !(#[trigger] g[cell_index(w as int, x, y)]),
    ensures
        ({
            let r = spawn_selection(g, w, h, d);
            &&& r.len() == d
            &&& r.no_duplicates()
            &&& forall|i: int| 0 <= i < r.len() ==> spawn_ok(g, w as int, h as int, #[trigger] r[i])
        }),
{
    let cands = spawn_candidates(w, h);
    let pref = preferred_rows(preferred_coords(w), preferred_coords(h), 0);
    let scan = scan_rows(w as int, 1, h as int);
    assert(scan == scan_row(w as int, 1) + scan_rows(w as int, 2, h as int));
    lemma_gather_spawns(g, w as int, h as int, cands, seq![], d);
    let r = spawn_selection(g, w, h, d);
    if r.len() < d {
        let rooms = Seq::new(7, |k: int| ((2 * k + 1) as usize, 1usize));
        assert forall|k: int| 0 <= k < 7 implies r.contains(#[trigger] rooms[k]) by {
            let x = 2 * k + 1;
            assert(room_cell(w as int, h as int, x, 1));
            assert(scan[x - 1] == rooms[k]);
            assert(cands[pref.len() + x - 1] == rooms[k]);
            assert(spawn_ok(g, w as int, h as int, rooms[k]));
        }
        assert(rooms.no_duplicates());
        rooms.unique_seq_to_set();
        r.unique_seq_to_set();
        assert(rooms.to_set().subset_of(r.to_set()));
        vstd::set_lib::lemma_len_subset(rooms.to_set(), r.to_set());
    }
}

impl Difficulty {
    /// Chance, in percent, that an interior wall tile is opened to add loops.
    pub open spec fn spec_loop_percent(&self) -> u32 {
        match self {
            Difficulty::Easy => 20,
            Difficulty::Medium => 16,
            Difficulty::Hard => 12,
        }
    }

    /// Chance, in percent, that a wall next to a floor tile is cleared to widen corridors.
    pub open spec fn spec_widen_percent(&self) -> u32 {
        match self {
            Difficulty::Easy => 28,
            Difficulty::Medium => 23,
            Difficulty::Hard => 18,
        }
    }

    /// Chance, in percent, that an interior wall tile is opened to add loops
    /// (fewer loops on harder levels).
    pub fn loop_percent(&self) -> (p: u32)
        ensures
            p == self.spec_loop_percent(),
    {
        match self {
            Difficulty::Easy => 20,
            Difficulty::Medium => 16,
            Difficulty::Hard => 12,
        }
    }

    /// Chance, in percent, that a wall next to a floor tile is cleared to
    /// widen corridors (less widening on harder levels).
    pub fn widen_percent(&self) -> (p: u32)
        ensures
            p == self.spec_widen_percent(),
    {
        match self {
            Difficulty::Easy => 28,
            Difficulty::Medium => 23,
            Difficulty::Hard => 18,
        }
    }
}

/// Number of spawn tiles precomputed for every map.
pub const SPAWN_COUNT: usize = 7;

/// What holds of every map generated for a difficulty: its size; every
/// room is floor and the outer ring all walls; every room can be reached from
/// the start room over floor tiles; and its spawn tiles are the spawn
/// selection of its own grid, seven distinct interior floor tiles.
pub open spec fn generated_map(m: GameMap, difficulty: Difficulty) -> bool {
    &&& m.width == spec_side(difficulty)
    &&& m.height == spec_side(difficulty)
    &&& m.wf()
    &&& forall|x: int, y: int| room_cell(m.width as int, m.height as int, x, y) ==> !(#[trigger] m.wall_at(x, y))
    &&& forall|x: int, y: int| border_cell(m.width as int, m.height as int, x, y) ==> #[trigger] m.wall_at(x, y)
    &&& forall|x: int, y: int| #[trigger] room_cell(m.width as int, m.height as int, x, y)
        ==> reachable(m.grid@, m.width as int, m.height as int, x, y)
    &&& m.spawn_cells@ == spawn_selection(m.grid@, m.width, m.height, SPAWN_COUNT as nat)
    &&& m.spawn_cells@.len() == SPAWN_COUNT
    &&& m.spawn_cells@.no_duplicates()
    &&& forall|i: int| 0 <= i < m.spawn_cells@.len() ==> spawn_ok(m.grid@, m.width as int, m.height as int, #[trigger] m.spawn_cells@[i])
}

/// The tile grid of the maze generated from `seed` at difficulty `d`: on an
/// all-wall square grid of the difficulty's side, the start room `(1, 1)`
/// is opened, the backtracker carves from it, then the loop-opening pass and
/// the widening pass run over the interior tiles row by row, all drawing in
/// turn from one ChaCha8 generator seeded with `seed`.
pub open spec fn maze_grid(seed: u64, d: Difficulty) -> Seq<bool> {
    let w = spec_side(d) as int;
    let start = Seq::new((w * w) as nat, |i: int| true).update(cell_index(w, 1, 1), false);
    let carved = carve_run(start, w, w, seq![(1usize, 1usize)], seed, Seq::empty(), carve_fuel(w * w));
    let looped = loops_run(carved.0, w, scan_rows(w, 1, w), seed, carved.1, d.spec_loop_percent());
    widen_run(looped.0, looped.0, w, w, scan_rows(w, 1, w), seed, looped.1, d.spec_widen_percent()).0
}

/// `m` is the map generated from `seed` at difficulty `d`: the map of that
/// difficulty whose grid is `maze_grid(seed, d)` (its spawn tiles follow
/// from the grid).
pub open spec fn map_of_seed(m: GameMap, seed: u64, d: Difficulty) -> bool {
    &&& generated_map(m, d)
    &&& m.grid@ == maze_grid(seed, d)
}

/// The same seed and difficulty give the same map: same size, same tiles,
/// same spawn tiles. This is what lets the server and every client build
/// one maze from the seed they share.
pub proof fn lemma_same_seed_same_maze(m1: GameMap, m2: GameMap, seed: u64, d: Difficulty)
    requires
        map_of_seed(m1, seed, d),
        map_of_seed(m2, seed, d),
    ensures
        m1.width == m2.width,
        m1.height == m2.height,
        m1.grid@ == m2.grid@,
        m1.spawn_cells@ == m2.spawn_cells@,
{
}

impl GameMap {
    /// Generates a new maze from a seed: a recursive-backtracker maze, then
    /// random loops, then widened corridors, all drawn from a ChaCha8
    /// generator seeded with `seed`; then the spawn tiles.
    pub fn generate(seed: u64, difficulty: Difficulty) -> (m: GameMap)
        ensures
            generated_map(m, difficulty),
            map_of_seed(m, seed, difficulty),
    {
        let (w, h) = difficulty.dimensions();
        let ghost wi = w as int;
        let ghost hi = h as int;
        proof {
            lemma_grid_small(wi, hi);
        }
        let mut grid: Vec<bool> = vec![true; w * h];
        assert forall|i: int| 0 <= i < w * h implies grid@[i] by {
            assert(cloned(true, grid@[i]));
        }
        let mut rng = SeededRng::new(seed);
        assert(grid@ =~= Seq::new((wi * wi) as nat, |i: int| true));
        carve_passages(&mut grid, w, h, &mut rng);
        let ghost carved = grid@;
        open_loops(&mut grid, w, h, &mut rng, difficulty.loop_percent());
        let ghost looped = grid@;
        let widened = widen_corridors(&grid, w, h, &mut rng, difficulty.widen_percent());
        let spawn_cells = compute_spawn_points(&widened, w, h, SPAWN_COUNT);
        let m = GameMap { width: w, height: h, grid: widened, spawn_cells };
        proof {
            assert forall|x: int, y: int| room_cell(wi, hi, x, y) implies !(#[trigger] m.wall_at(x, y)) by {
                assert(!carved[cell_index(wi, x, y)]);
                assert(!looped[cell_index(wi, x, y)]);
                assert(!m.grid@[cell_index(wi, x, y)]);
            }
            assert forall|x: int, y: int| border_cell(wi, hi, x, y) implies #[trigger] m.wall_at(x, y) by {
                assert(carved[cell_index(wi, x, y)]);
                assert(looped[cell_index(wi, x, y)]);
            }
            assert forall|x: int, y: int| room_cell(wi, hi, x, y) implies !(#[trigger] m.grid@[cell_index(wi, x, y)]) by {
                assert(!m.wall_at(x, y));
            }
            lemma_spawn_selection(m.grid@, w, h, SPAWN_COUNT as nat);
            lemma_rooms_reachable_kept(carved, looped, wi, hi);
            lemma_rooms_reachable_kept(looped, m.grid@, wi, hi);
        }
        m
    }
}

} // verus!
