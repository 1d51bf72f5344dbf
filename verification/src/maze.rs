//! The maze generator reference rule: a randomized recursive
//! backtracker, with the source of randomness supplied from outside as a
//! plain number per step.
//!
//! Each cell records whether the carver has visited it and which of its
//! four passages are open. Carving maintains the invariants that make
//! the finished maze perfect: passages are symmetric, only visited cells
//! carry passages, and the number of open passage edges is always
//! exactly one less than the number of visited cells — so once every
//! cell is visited the passage graph is a spanning tree.

use vstd::prelude::*;

use crate::buffer::Utils;
use crate::buffer::lemma_idx_in_range;
use crate::buffer::lemma_idx_injective;
use crate::cell::Color;
use crate::driver::Rules;

verus! {

/// One maze cell: the visited flag and the four passage flags.
#[derive(Copy, Clone, Debug, PartialEq, Eq, Structural)]
pub struct MazeCell {
    pub visited: bool,
    pub north: bool,
    pub south: bool,
    pub west: bool,
    pub east: bool,
}

/// How many of a cell's four passages are open.
pub open spec fn passage_count(c: MazeCell) -> int {
    (if c.north {
        1int
    } else {
        0int
    }) + (if c.south {
        1int
    } else {
        0int
    }) + (if c.west {
        1int
    } else {
        0int
    }) + (if c.east {
        1int
    } else {
        0int
    })
}

/// The open passage flags among the first n cells, summed. Every open
/// passage edge is recorded on both of its end cells, so this counts
/// each edge twice.
pub open spec fn half_total(cells: Seq<MazeCell>, n: int) -> int
    decreases n,
{
    if n <= 0 {
        0
    } else {
        half_total(cells, n - 1) + passage_count(cells[n - 1])
    }
}

/// How many of the first n cells are visited.
pub open spec fn visited_total(cells: Seq<MazeCell>, n: int) -> int
    decreases n,
{
    if n <= 0 {
        0
    } else {
        visited_total(cells, n - 1) + if cells[n - 1].visited {
            1int
        } else {
            0int
        }
    }
}

/// The mathematical model of a [`Maze`]: dimensions, the cells in
/// row-major order, and the backtracking stack of coordinates.
#[verifier::ext_equal]
pub struct MazeView {
    pub width: usize,
    pub height: usize,
    pub cells: Seq<MazeCell>,
    pub stack: Seq<(usize, usize)>,
}

impl MazeView {
    /// Row-major index of the coordinate (x, y).
    pub open spec fn idx(self, x: usize, y: usize) -> int {
        y * self.width + x
    }

    /// Whether (x, y) lies inside the maze.
    pub open spec fn in_bounds(self, x: usize, y: usize) -> bool {
        x < self.width && y < self.height
    }

    /// The cell at (x, y).
    pub open spec fn cell(self, x: usize, y: usize) -> MazeCell {
        self.cells[self.idx(x, y)]
    }

    /// How many cells are visited.
    pub open spec fn visited_count(self) -> int {
        visited_total(self.cells, self.cells.len() as int)
    }

    /// Passage symmetry at one cell: each of its passages is open
    /// exactly when the neighbor on that side exists and holds the
    /// matching passage back.
    pub open spec fn sym_at(self, x: usize, y: usize) -> bool {
        &&& (self.cell(x, y).east <==> (x + 1 < self.width && self.cell((x + 1) as usize, y).west))
        &&& (self.cell(x, y).west <==> (x >= 1 && self.cell((x - 1) as usize, y).east))
        &&& (self.cell(x, y).south <==> (y + 1 < self.height && self.cell(
            x,
            (y + 1) as usize,
        ).north))
        &&& (self.cell(x, y).north <==> (y >= 1 && self.cell(x, (y - 1) as usize).south))
    }

    /// Passages are symmetric and never lead out of the maze.
    pub open spec fn passages_symmetric(self) -> bool {
        forall|x: usize, y: usize| self.in_bounds(x, y) ==> #[trigger] self.sym_at(x, y)
    }

    /// The carving invariant. Besides basic shape, it pins the facts the
    /// spanning-tree law rests on: passages are symmetric; an unvisited
    /// cell has no passages; every visited cell other than the start at
    /// (0, 0) has at least one, and so does the start once a second cell
    /// is visited; the stack holds only visited in-bounds coordinates;
    /// and the doubled edge count equals twice the visited cells minus
    /// one.
    pub open spec fn wf(self) -> bool {
        &&& self.width >= 1
        &&& self.height >= 1
        &&& self.width * self.height <= usize::MAX
        &&& self.cells.len() == self.width * self.height
        &&& self.passages_symmetric()
        &&& forall|i: int|
            0 <= i < self.cells.len() && !(#[trigger] self.cells[i]).visited ==> passage_count(
                self.cells[i],
            ) == 0
        &&& forall|i: int|
            0 < i < self.cells.len() && (#[trigger] self.cells[i]).visited ==> passage_count(
                self.cells[i],
            ) >= 1
        &&& self.cells[0].visited
        &&& self.visited_count() >= 2 ==> passage_count(self.cells[0]) >= 1
        &&& self.visited_count() >= 1
        &&& half_total(self.cells, self.cells.len() as int) == 2 * (self.visited_count() - 1)
        &&& forall|k: int|
            0 <= k < self.stack.len() ==> self.in_bounds(
                (#[trigger] self.stack[k]).0,
                self.stack[k].1,
            ) && self.cell(self.stack[k].0, self.stack[k].1).visited
    }
}

/// Updating one cell shifts the passage sum by exactly that cell's
/// difference.
proof fn lemma_half_total_update(cells: Seq<MazeCell>, k: int, c: MazeCell, n: int)
    requires
        0 <= k < cells.len(),
        n <= cells.len(),
    ensures
        half_total(cells.update(k, c), n) == half_total(cells, n) + if 0 <= k < n {
            passage_count(c) - passage_count(cells[k])
        } else {
            0
        },
    decreases n,
{
    if n > 0 {
        lemma_half_total_update(cells, k, c, n - 1);
    }
}

/// Updating one cell shifts the visited count by exactly that cell's
/// difference.
proof fn lemma_visited_total_update(cells: Seq<MazeCell>, k: int, c: MazeCell, n: int)
    requires
        0 <= k < cells.len(),
        n <= cells.len(),
    ensures
        visited_total(cells.update(k, c), n) == visited_total(cells, n) + if 0 <= k < n {
            (if c.visited {
                1int
            } else {
                0int
            }) - (if cells[k].visited {
                1int
            } else {
                0int
            })
        } else {
            0
        },
    decreases n,
{
    if n > 0 {
        lemma_visited_total_update(cells, k, c, n - 1);
    }
}

/// The visited count of a prefix stays between zero and its length.
proof fn lemma_visited_total_bounds(cells: Seq<MazeCell>, n: int)
    ensures
        0 <= visited_total(cells, n),
        n >= 0 ==> visited_total(cells, n) <= n,
    decreases n,
{
    if n > 0 {
        lemma_visited_total_bounds(cells, n - 1);
    }
}

/// A prefix whose visited count equals its length is visited throughout.
proof fn lemma_visited_total_full(cells: Seq<MazeCell>, n: int)
    requires
        visited_total(cells, n) == n,
    ensures
        forall|i: int| 0 <= i < n ==> (#[trigger] cells[i]).visited,
    decreases n,
{
    if n > 0 {
        lemma_visited_total_bounds(cells, n - 1);
        assert(cells[n - 1].visited);
        lemma_visited_total_full(cells, n - 1);
    }
}

/// A prefix of cells without passages sums to zero.
proof fn lemma_half_total_closed(cells: Seq<MazeCell>, n: int)
    requires
        forall|i: int| 0 <= i < n ==> passage_count(#[trigger] cells[i]) == 0,
    ensures
        half_total(cells, n) == 0,
    decreases n,
{
    if n > 0 {
        lemma_half_total_closed(cells, n - 1);
    }
}

/// A prefix of unvisited cells counts zero visits.
proof fn lemma_visited_total_none(cells: Seq<MazeCell>, n: int)
    requires
        forall|i: int| 0 <= i < n ==> !(#[trigger] cells[i]).visited,
    ensures
        visited_total(cells, n) == 0,
    decreases n,
{
    if n > 0 {
        lemma_visited_total_none(cells, n - 1);
    }
}

/// Two distinct cells of a prefix that are both visited put the visited
/// count at two or more.
proof fn lemma_visited_total_two(cells: Seq<MazeCell>, n: int, i: int, j: int)
    requires
        0 <= i < j < n,
        cells[i].visited,
        cells[j].visited,
    ensures
        visited_total(cells, n) >= 2,
    decreases n,
{
    if j == n - 1 {
        lemma_visited_total_one(cells, n - 1, i);
    } else {
        lemma_visited_total_two(cells, n - 1, i, j);
        lemma_visited_total_bounds(cells, n);
        assert(visited_total(cells, n) >= visited_total(cells, n - 1));
    }
}

/// A visited cell of a prefix puts the visited count at one or more.
proof fn lemma_visited_total_one(cells: Seq<MazeCell>, n: int, i: int)
    requires
        0 <= i < n,
        cells[i].visited,
    ensures
        visited_total(cells, n) >= 1,
    decreases n,
{
    if i < n - 1 {
        lemma_visited_total_one(cells, n - 1, i);
    } else {
        lemma_visited_total_bounds(cells, n - 1);
    }
}

/// An unvisited cell of a prefix keeps the visited count below the
/// prefix length.
proof fn lemma_visited_total_missing(cells: Seq<MazeCell>, n: int, j: int)
    requires
        0 <= j < n,
        !cells[j].visited,
    ensures
        visited_total(cells, n) <= n - 1,
    decreases n,
{
    if j == n - 1 {
        lemma_visited_total_bounds(cells, n - 1);
    } else {
        lemma_visited_total_missing(cells, n - 1, j);
    }
}

/// The directions a carving step can take, as the offsets of the four
/// cardinal neighbors: north, south, west, east in that order.
pub open spec fn carve_dest(x: usize, y: usize, d: u8) -> (usize, usize) {
    if d == 0 {
        (x, (y - 1) as usize)
    } else if d == 1 {
        (x, (y + 1) as usize)
    } else if d == 2 {
        ((x - 1) as usize, y)
    } else {
        ((x + 1) as usize, y)
    }
}

/// Whether a step from the visited cell (x, y) can open the passage
/// toward direction d: the neighbor on that side must exist and be
/// unvisited.
pub open spec fn can_carve(v: MazeView, x: usize, y: usize, d: u8) -> bool {
    &&& v.in_bounds(x, y)
    &&& v.cell(x, y).visited
    &&& d < 4
    &&& d == 0 ==> y >= 1 && !v.cell(x, (y - 1) as usize).visited
    &&& d == 1 ==> y + 1 < v.height && !v.cell(x, (y + 1) as usize).visited
    &&& d == 2 ==> x >= 1 && !v.cell((x - 1) as usize, y).visited
    &&& d == 3 ==> x + 1 < v.width && !v.cell((x + 1) as usize, y).visited
}

/// The current cell after the passage toward direction d opens.
pub open spec fn carve_cur_cell(c: MazeCell, d: u8) -> MazeCell {
    if d == 0 {
        MazeCell { north: true, ..c }
    } else if d == 1 {
        MazeCell { south: true, ..c }
    } else if d == 2 {
        MazeCell { west: true, ..c }
    } else {
        MazeCell { east: true, ..c }
    }
}

/// The neighbor after the passage toward direction d opens: the matching
/// passage back, and its visited mark.
pub open spec fn carve_dest_cell(c: MazeCell, d: u8) -> MazeCell {
    if d == 0 {
        MazeCell { south: true, visited: true, ..c }
    } else if d == 1 {
        MazeCell { north: true, visited: true, ..c }
    } else if d == 2 {
        MazeCell { east: true, visited: true, ..c }
    } else {
        MazeCell { west: true, visited: true, ..c }
    }
}

/// The maze after one carving step from (x, y) toward direction d,
/// before the new cell is pushed on the stack.
pub open spec fn carve_view(v: MazeView, x: usize, y: usize, d: u8) -> MazeView {
    let dest = carve_dest(x, y, d);
    MazeView {
        cells: v.cells.update(v.idx(x, y), carve_cur_cell(v.cell(x, y), d)).update(
            v.idx(dest.0, dest.1),
            carve_dest_cell(v.cell(dest.0, dest.1), d),
        ),
        ..v
    }
}

/// Whether some cardinal neighbor of (x, y) is still unvisited.
pub open spec fn has_unvisited_neighbor(v: MazeView, x: usize, y: usize) -> bool {
    ||| (y >= 1 && !v.cell(x, (y - 1) as usize).visited)
    ||| (y + 1 < v.height && !v.cell(x, (y + 1) as usize).visited)
    ||| (x >= 1 && !v.cell((x - 1) as usize, y).visited)
    ||| (x + 1 < v.width && !v.cell((x + 1) as usize, y).visited)
}

/// Where every cell of the carved maze comes from: the two cells of the
/// opened passage change as stated, everything else is untouched.
proof fn lemma_carve_lookup(v: MazeView, x: usize, y: usize, d: u8)
    requires
        v.wf(),
        can_carve(v, x, y, d),
    ensures
        forall|a: usize, b: usize|
            v.in_bounds(a, b) ==> #[trigger] carve_view(v, x, y, d).cell(a, b) == (if a
                == carve_dest(x, y, d).0 && b == carve_dest(x, y, d).1 {
                carve_dest_cell(v.cell(carve_dest(x, y, d).0, carve_dest(x, y, d).1), d)
            } else if a == x && b == y {
                carve_cur_cell(v.cell(x, y), d)
            } else {
                v.cell(a, b)
            }),
{
    let w = carve_view(v, x, y, d);
    let dest = carve_dest(x, y, d);
    let nx = dest.0;
    let ny = dest.1;
    lemma_idx_in_range(x, y, v.width, v.height);
    lemma_idx_in_range(nx, ny, v.width, v.height);
    lemma_idx_injective(x, y, nx, ny, v.width, v.height);
    assert forall|a: usize, b: usize| v.in_bounds(a, b) implies #[trigger] w.cell(a, b) == (if a
        == nx && b == ny {
        carve_dest_cell(v.cell(nx, ny), d)
    } else if a == x && b == y {
        carve_cur_cell(v.cell(x, y), d)
    } else {
        v.cell(a, b)
    }) by {
        lemma_idx_in_range(a, b, v.width, v.height);
        if !(a == x && b == y) {
            lemma_idx_injective(a, b, x, y, v.width, v.height);
        }
        if !(a == nx && b == ny) {
            lemma_idx_injective(a, b, nx, ny, v.width, v.height);
        }
    }
}

/// Opening a passage keeps passages symmetric: the two new half-flags
/// face each other, and no other flag moves.
#[verifier::rlimit(100)]
proof fn lemma_carve_symmetry(v: MazeView, x: usize, y: usize, d: u8)
    requires
        v.wf(),
        can_carve(v, x, y, d),
    ensures
        carve_view(v, x, y, d).passages_symmetric(),
{
    let w = carve_view(v, x, y, d);
    lemma_carve_lookup(v, x, y, d);
    assert forall|a: usize, b: usize| w.in_bounds(a, b) implies #[trigger] w.sym_at(a, b) by {
        assert(v.in_bounds(a, b));
        assert(v.sym_at(a, b));
        if a + 1 < v.width {
            assert(v.sym_at((a + 1) as usize, b));
        }
        if a >= 1 {
            assert(v.sym_at((a - 1) as usize, b));
        }
        if b + 1 < v.height {
            assert(v.sym_at(a, (b + 1) as usize));
        }
        if b >= 1 {
            assert(v.sym_at(a, (b - 1) as usize));
        }
    }
}

/// Opening a passage raises the doubled edge count by two and the
/// visited count by one.
proof fn lemma_carve_counts(v: MazeView, x: usize, y: usize, d: u8)
    requires
        v.wf(),
        can_carve(v, x, y, d),
    ensures
        half_total(carve_view(v, x, y, d).cells, carve_view(v, x, y, d).cells.len() as int)
            == half_total(v.cells, v.cells.len() as int) + 2,
        carve_view(v, x, y, d).visited_count() == v.visited_count() + 1,
{
    let dest = carve_dest(x, y, d);
    let nx = dest.0;
    let ny = dest.1;
    let ci = v.idx(x, y);
    let ni = v.idx(nx, ny);
    let c1 = carve_cur_cell(v.cell(x, y), d);
    let n1 = carve_dest_cell(v.cell(nx, ny), d);
    lemma_idx_in_range(x, y, v.width, v.height);
    lemma_idx_in_range(nx, ny, v.width, v.height);
    lemma_idx_injective(x, y, nx, ny, v.width, v.height);
    // the passage the neighbor gains was closed, as all of an unvisited
    // cell's are, and so was the matching one on the current cell
    assert(v.sym_at(x, y));
    assert(passage_count(v.cell(nx, ny)) == 0);
    assert(passage_count(n1) == 1);
    assert(passage_count(c1) == passage_count(v.cell(x, y)) + 1);
    lemma_half_total_update(v.cells, ci, c1, v.cells.len() as int);
    let cs1 = v.cells.update(ci, c1);
    lemma_half_total_update(cs1, ni, n1, cs1.len() as int);
    lemma_visited_total_update(v.cells, ci, c1, v.cells.len() as int);
    lemma_visited_total_update(cs1, ni, n1, cs1.len() as int);
}

/// Passage symmetry is a fact about the cells alone: it carries over to
/// any view with the same cells and dimensions, whatever its stack.
proof fn lemma_sym_same_cells(u: MazeView, w: MazeView)
    requires
        u.passages_symmetric(),
        u.width == w.width,
        u.height == w.height,
        u.cells == w.cells,
    ensures
        w.passages_symmetric(),
{
    assert forall|a: usize, b: usize| w.in_bounds(a, b) implies #[trigger] w.sym_at(a, b) by {
        assert(u.sym_at(a, b));
    }
}

/// Opening one passage preserves the carving invariant, marks exactly
/// the destination newly visited, and raises the visited count by one.
#[verifier::rlimit(100)]
proof fn lemma_carve(v: MazeView, x: usize, y: usize, d: u8)
    requires
        v.wf(),
        can_carve(v, x, y, d),
    ensures
        carve_view(v, x, y, d).wf(),
        carve_view(v, x, y, d).visited_count() == v.visited_count() + 1,
        forall|a: usize, b: usize|
            v.in_bounds(a, b) ==> (#[trigger] carve_view(v, x, y, d).cell(a, b)).visited == (
            v.cell(a, b).visited || (a, b) == carve_dest(x, y, d)),
        carve_view(v, x, y, d).cell(carve_dest(x, y, d).0, carve_dest(x, y, d).1).visited,
{
    let w = carve_view(v, x, y, d);
    let dest = carve_dest(x, y, d);
    let nx = dest.0;
    let ny = dest.1;
    let ci = v.idx(x, y);
    let ni = v.idx(nx, ny);
    lemma_idx_in_range(x, y, v.width, v.height);
    lemma_idx_in_range(nx, ny, v.width, v.height);
    lemma_idx_injective(x, y, nx, ny, v.width, v.height);
    lemma_carve_lookup(v, x, y, d);
    lemma_carve_symmetry(v, x, y, d);
    lemma_carve_counts(v, x, y, d);

    // the start stays visited, and keeps a passage once a second cell is
    // visited
    if !(x == 0 && y == 0) {
        lemma_idx_injective(x, y, 0, 0, v.width, v.height);
        lemma_idx_in_range(0, 0, v.width, v.height);
        lemma_visited_total_two(v.cells, v.cells.len() as int, 0, ci);
    }
    if !(nx == 0 && ny == 0) {
        lemma_idx_injective(nx, ny, 0, 0, v.width, v.height);
    } else {
        assert(v.cells[0].visited && !v.cell(nx, ny).visited);
    }

    assert forall|i: int| 0 <= i < w.cells.len() && !(#[trigger] w.cells[i]).visited implies
        passage_count(w.cells[i]) == 0 by {
        if i != ci && i != ni {
            assert(w.cells[i] == v.cells[i]);
        }
    }
    assert forall|i: int| 0 < i < w.cells.len() && (#[trigger] w.cells[i]).visited implies
        passage_count(w.cells[i]) >= 1 by {
        if i != ci && i != ni {
            assert(w.cells[i] == v.cells[i]);
        }
    }
    assert forall|k: int| 0 <= k < w.stack.len() implies w.in_bounds(
        (#[trigger] w.stack[k]).0,
        w.stack[k].1,
    ) && w.cell(w.stack[k].0, w.stack[k].1).visited by {
        assert(v.in_bounds(v.stack[k].0, v.stack[k].1));
        assert(v.cell(v.stack[k].0, v.stack[k].1).visited);
    }
}

/// The spanning-tree law: once the visited count reaches width times
/// height, every cell has at least one open passage — no cell is
/// isolated — and the number of open passage edges (each recorded on
/// both end cells, hence the factor two) is exactly the number of cells
/// minus one, so the passage graph has no cycle. A maze of a single
/// cell is the one exception: it is complete with no passages at all.
pub proof fn lemma_spanning_tree(m: MazeView)
    requires
        m.wf(),
        m.visited_count() == m.width * m.height,
        m.width * m.height >= 2,
    ensures
        forall|i: int| 0 <= i < m.cells.len() ==> passage_count(#[trigger] m.cells[i]) >= 1,
        half_total(m.cells, m.cells.len() as int) == 2 * (m.width * m.height - 1),
{
    lemma_visited_total_full(m.cells, m.cells.len() as int);
}

/// The carver's state: the grid of cells, the backtracking stack, and a
/// running count of visited cells. Carving starts at (0, 0).
pub struct Maze {
    width: usize,
    height: usize,
    cells: Vec<MazeCell>,
    stack: Vec<(usize, usize)>,
    visited_count: usize,
}

impl View for Maze {
    type V = MazeView;

    closed spec fn view(&self) -> MazeView {
        MazeView { width: self.width, height: self.height, cells: self.cells@, stack: self.stack@ }
    }
}

impl Maze {
    /// The running count matches the cells.
    pub closed spec fn count_ok(&self) -> bool {
        self.visited_count == self@.visited_count()
    }

    /// Well-formedness: the carving invariant, plus the running count.
    pub open spec fn wf(&self) -> bool {
        self@.wf() && self.count_ok()
    }

    /// A fresh maze: every passage closed, only the start at (0, 0)
    /// visited and on the stack.
    pub fn new(width: usize, height: usize) -> (maze: Maze)
        requires
            width >= 1,
            height >= 1,
            width * height <= usize::MAX,
        ensures
            maze.wf(),
            maze@.width == width,
            maze@.height == height,
            maze@.visited_count() == 1,
            maze@.stack.len() == 1,
            forall|a: usize, b: usize|
                maze@.in_bounds(a, b) ==> ((#[trigger] maze@.cell(a, b)).visited <==> (a == 0 && b
                    == 0)),
    {
        let total: usize = width * height;
        proof {
            assert(width * height >= 1) by (nonlinear_arith)
                requires
                    width >= 1,
                    height >= 1,
            ;
        }
        let mut cells: Vec<MazeCell> = Vec::new();
        let mut i: usize = 0;
        while i < total
            invariant
                i <= total,
                cells@.len() == i,
                forall|k: int| 0 <= k < i ==> #[trigger] cells@[k] == (MazeCell {
                    visited: false,
                    north: false,
                    south: false,
                    west: false,
                    east: false,
                }),
            decreases total - i,
        {
            cells.push(MazeCell { visited: false, north: false, south: false, west: false, east: false });
            i = i + 1;
        }
        let ghost pre = cells@;
        proof {
            lemma_visited_total_none(pre, pre.len() as int);
        }
        cells.set(0, MazeCell { visited: true, north: false, south: false, west: false, east: false });
        let mut stack: Vec<(usize, usize)> = Vec::new();
        stack.push((0, 0));
        let maze = Maze { width, height, cells, stack, visited_count: 1 };
        proof {
            let m = maze@;
            lemma_visited_total_update(
                pre,
                0,
                MazeCell { visited: true, north: false, south: false, west: false, east: false },
                total as int,
            );
            lemma_half_total_closed(m.cells, m.cells.len() as int);
            assert forall|a: usize, b: usize| m.in_bounds(a, b) implies ((#[trigger] m.cell(
                a,
                b,
            )).visited <==> (a == 0 && b == 0)) by {
                lemma_idx_in_range(a, b, width, height);
                if !(a == 0 && b == 0) {
                    lemma_idx_injective(a, b, 0, 0, width, height);
                }
            }
            assert forall|a: usize, b: usize| m.in_bounds(a, b) implies #[trigger] m.sym_at(
                a,
                b,
            ) by {
                lemma_idx_in_range(a, b, width, height);
                if a + 1 < width {
                    lemma_idx_in_range((a + 1) as usize, b, width, height);
                }
                if a >= 1 {
                    lemma_idx_in_range((a - 1) as usize, b, width, height);
                }
                if b + 1 < height {
                    lemma_idx_in_range(a, (b + 1) as usize, width, height);
                }
                if b >= 1 {
                    lemma_idx_in_range(a, (b - 1) as usize, width, height);
                }
            }
            assert(m.passages_symmetric());
        }
        maze
    }

    /// The maze width in cells.
    pub fn width(&self) -> (w: usize)
        ensures
            w == self@.width,
    {
        self.width
    }

    /// The maze height in cells.
    pub fn height(&self) -> (h: usize)
        ensures
            h == self@.height,
    {
        self.height
    }

    /// How many cells the carver has visited so far.
    pub fn visited_cells(&self) -> (n: usize)
        requires
            self.wf(),
        ensures
            n == self@.visited_count(),
    {
        self.visited_count
    }

    /// Whether the carving is finished: the backtracker has popped its
    /// whole stack.
    pub fn done(&self) -> (done: bool)
        ensures
            done == (self@.stack.len() == 0),
    {
        self.stack.len() == 0
    }

    /// One carving step. The top of the stack is inspected: if it still
    /// has unvisited cardinal neighbors, `pick` selects one of them —
    /// any number serves, a random one gives the usual random maze — and
    /// the passage between the two cells opens; otherwise the carver
    /// backtracks by popping the stack. Returns whether the carving is
    /// finished, which is when the stack has emptied; reaching full
    /// visited count does not by itself stop anything.
    #[verifier::rlimit(100)]
    pub fn step(&mut self, pick: usize) -> (done: bool)
        requires
            old(self).wf(),
        ensures
            final(self).wf(),
            final(self)@.width == old(self)@.width,
            final(self)@.height == old(self)@.height,
            done == (final(self)@.stack.len() == 0),
            old(self)@.stack.len() == 0 ==> final(self)@ == old(self)@,
            (old(self)@.stack.len() > 0 && !has_unvisited_neighbor(
                old(self)@,
                old(self)@.stack.last().0,
                old(self)@.stack.last().1,
            )) ==> final(self)@ == (MazeView { stack: old(self)@.stack.drop_last(), ..old(self)@ }),
            (old(self)@.stack.len() > 0 && has_unvisited_neighbor(
                old(self)@,
                old(self)@.stack.last().0,
                old(self)@.stack.last().1,
            )) ==> exists|d: u8|
                can_carve(old(self)@, old(self)@.stack.last().0, old(self)@.stack.last().1, d)
                    && final(self)@ == (MazeView {
                    stack: old(self)@.stack.push(
                        carve_dest(old(self)@.stack.last().0, old(self)@.stack.last().1, d),
                    ),
                    ..carve_view(
                        old(self)@,
                        old(self)@.stack.last().0,
                        old(self)@.stack.last().1,
                        d,
                    )
                }),
            final(self)@.visited_count() >= old(self)@.visited_count(),
    {
        let ghost v0 = self@;
        let slen = self.stack.len();
        if slen == 0 {
            return true;
        }
        let (x, y) = self.stack[slen - 1];
        proof {
            assert(v0.stack.last() == (x, y));
            assert(v0.in_bounds(x, y) && v0.cell(x, y).visited);
        }
        let mut dirs: Vec<u8> = Vec::new();
        if y >= 1 && !self.cell(x, y - 1).visited {
            dirs.push(0);
        }
        assert(forall|j: int| 0 <= j < dirs@.len() ==> can_carve(v0, x, y, #[trigger] dirs@[j]));
        if y + 1 < self.height && !self.cell(x, y + 1).visited {
            dirs.push(1);
        }
        assert(forall|j: int| 0 <= j < dirs@.len() ==> can_carve(v0, x, y, #[trigger] dirs@[j]));
        if x >= 1 && !self.cell(x - 1, y).visited {
            dirs.push(2);
        }
        assert(forall|j: int| 0 <= j < dirs@.len() ==> can_carve(v0, x, y, #[trigger] dirs@[j]));
        if x + 1 < self.width && !self.cell(x + 1, y).visited {
            dirs.push(3);
        }
        assert(forall|j: int| 0 <= j < dirs@.len() ==> can_carve(v0, x, y, #[trigger] dirs@[j]));
        assert((dirs@.len() > 0) == has_unvisited_neighbor(v0, x, y));

        if dirs.len() == 0 {
            self.backtrack_step();
            return self.stack.len() == 0;
        }

        let d = dirs[pick % dirs.len()];
        assert(can_carve(v0, x, y, d));
        self.carve_step(x, y, d);
        proof {
            assert(can_carve(v0, x, y, d) && self@ == (MazeView {
                stack: v0.stack.push(carve_dest(x, y, d)),
                ..carve_view(v0, x, y, d)
            }));
        }
        false
    }

    /// Backtracks: pops the exhausted cell off the stack.
    fn backtrack_step(&mut self)
        requires
            old(self).wf(),
            old(self)@.stack.len() > 0,
        ensures
            final(self).wf(),
            final(self)@ == (MazeView { stack: old(self)@.stack.drop_last(), ..old(self)@ }),
    {
        let ghost v0 = self@;
        self.stack.pop();
        proof {
            assert(self@ =~= (MazeView { stack: v0.stack.drop_last(), ..v0 }));
            lemma_sym_same_cells(v0, self@);
            assert forall|k: int| 0 <= k < self@.stack.len() implies self@.in_bounds(
                (#[trigger] self@.stack[k]).0,
                self@.stack[k].1,
            ) && self@.cell(self@.stack[k].0, self@.stack[k].1).visited by {
                assert(self@.stack[k] == v0.stack[k]);
                assert(v0.in_bounds(v0.stack[k].0, v0.stack[k].1));
                assert(v0.cell(v0.stack[k].0, v0.stack[k].1).visited);
            }
        }
    }

    /// Opens the passage from (x, y) toward direction d and walks into
    /// the newly visited neighbor.
    #[verifier::rlimit(100)]
    fn carve_step(&mut self, x: usize, y: usize, d: u8)
        requires
            old(self).wf(),
            can_carve(old(self)@, x, y, d),
        ensures
            final(self).wf(),
            final(self)@ == (MazeView {
                stack: old(self)@.stack.push(carve_dest(x, y, d)),
                ..carve_view(old(self)@, x, y, d)
            }),
            final(self)@.visited_count() == old(self)@.visited_count() + 1,
    {
        let ghost v0 = self@;
        proof {
            lemma_carve(v0, x, y, d);
        }
        // reading the length as a usize bounds the index arithmetic
        let _grid_len: usize = self.cells.len();
        proof {
            lemma_idx_in_range(x, y, self.width, self.height);
        }
        let ci: usize = y * self.width + x;
        let (nx, ny) = if d == 0 {
            (x, y - 1)
        } else if d == 1 {
            (x, y + 1)
        } else if d == 2 {
            (x - 1, y)
        } else {
            (x + 1, y)
        };
        proof {
            assert((nx, ny) == carve_dest(x, y, d));
            lemma_idx_in_range(nx, ny, self.width, self.height);
            lemma_idx_injective(x, y, nx, ny, self.width, self.height);
        }
        let ni: usize = ny * self.width + nx;
        let mut c = self.cells[ci];
        if d == 0 {
            c.north = true;
        } else if d == 1 {
            c.south = true;
        } else if d == 2 {
            c.west = true;
        } else {
            c.east = true;
        }
        self.cells.set(ci, c);
        let mut nc = self.cells[ni];
        nc.visited = true;
        if d == 0 {
            nc.south = true;
        } else if d == 1 {
            nc.north = true;
        } else if d == 2 {
            nc.east = true;
        } else {
            nc.west = true;
        }
        self.cells.set(ni, nc);
        proof {
            assert(c == carve_cur_cell(v0.cell(x, y), d));
            assert(nc == carve_dest_cell(v0.cell(nx, ny), d));
            lemma_visited_total_missing(v0.cells, v0.cells.len() as int, ni as int);
        }
        self.visited_count = self.visited_count + 1;
        self.stack.push((nx, ny));
        proof {
            let w = carve_view(v0, x, y, d);
            assert(self@ =~= (MazeView { stack: v0.stack.push((nx, ny)), ..w }));
            lemma_sym_same_cells(w, self@);
            assert forall|k: int| 0 <= k < self@.stack.len() implies self@.in_bounds(
                (#[trigger] self@.stack[k]).0,
                self@.stack[k].1,
            ) && self@.cell(self@.stack[k].0, self@.stack[k].1).visited by {
                if k < v0.stack.len() {
                    assert(self@.stack[k] == v0.stack[k]);
                    let a = v0.stack[k].0;
                    let b = v0.stack[k].1;
                    assert(v0.in_bounds(a, b));
                    assert(v0.cell(a, b).visited);
                    assert(w.cell(a, b).visited);
                    assert(self@.cell(a, b) == w.cell(a, b));
                } else {
                    assert(self@.stack[k] == (nx, ny));
                    assert(w.cell(nx, ny).visited);
                    assert(self@.cell(nx, ny) == w.cell(nx, ny));
                }
            }
        }
    }

    /// The cell at (x, y).
    pub fn cell(&self, x: usize, y: usize) -> (c: MazeCell)
        requires
            self.wf(),
            self@.in_bounds(x, y),
        ensures
            c == self@.cell(x, y),
    {
        proof {
            lemma_idx_in_range(x, y, self.width, self.height);
        }
        // reading the length as a usize bounds the index arithmetic
        let _grid_len: usize = self.cells.len();
        self.cells[y * self.width + x]
    }
}

/// Draws a maze into the buffer: each cell becomes a floor glyph on an
/// odd screen coordinate, with the glyph between two cells open exactly
/// when the passage between them is. Unvisited cells stay wall-colored,
/// so the carving can be watched frame by frame.
fn render_maze(maze: &Maze, utils: &mut Utils)
    requires
        maze.wf(),
        2 * maze@.width + 1 <= usize::MAX,
        2 * maze@.height + 1 <= usize::MAX,
        old(utils).wf(),
    ensures
        final(utils).wf(),
        final(utils)@.width == old(utils)@.width,
        final(utils)@.height == old(utils)@.height,
{
    let mw = maze.width();
    let mh = maze.height();
    let ghost uw = utils@.width;
    let ghost uh = utils@.height;
    let mut y: usize = 0;
    while y < mh
        invariant
            maze.wf(),
            mw == maze@.width,
            mh == maze@.height,
            2 * mw + 1 <= usize::MAX,
            2 * mh + 1 <= usize::MAX,
            utils.wf(),
            utils@.width == uw,
            utils@.height == uh,
            y <= mh,
        decreases mh - y,
    {
        let mut x: usize = 0;
        while x < mw
            invariant
                maze.wf(),
                mw == maze@.width,
                mh == maze@.height,
                2 * mw + 1 <= usize::MAX,
                2 * mh + 1 <= usize::MAX,
                utils.wf(),
                utils@.width == uw,
                utils@.height == uh,
                x <= mw,
                y < mh,
            decreases mw - x,
        {
            let c = maze.cell(x, y);
            let sx = 2 * x + 1;
            let sy = 2 * y + 1;
            if c.visited {
                utils.draw(sx, sy, ' ', Color::Black);
            } else {
                utils.draw(sx, sy, '#', Color::DarkGrey);
            }
            if c.east {
                utils.draw(sx + 1, sy, ' ', Color::Black);
            }
            if c.south {
                utils.draw(sx, sy + 1, ' ', Color::Black);
            }
            x = x + 1;
        }
        y = y + 1;
    }
}

/// The maze generator as a rule: each update advances the carving one
/// step, driven by a small deterministic generator seeded at
/// construction, and redraws the maze. Only cells whose glyph actually
/// changed reach the display, so a frame costs a handful of writes.
pub struct MazeRules {
    maze: Maze,
    rng_state: u64,
}

impl MazeRules {
    #[verifier::type_invariant]
    spec fn type_inv(&self) -> bool {
        &&& self.maze.wf()
        &&& 2 * self.maze@.width + 1 <= usize::MAX
        &&& 2 * self.maze@.height + 1 <= usize::MAX
    }

    /// A rule that carves a width-by-height maze, choosing passages with
    /// the given seed. The maze needs a buffer of at least
    /// 2 * width + 1 by 2 * height + 1 cells to draw itself completely;
    /// on a smaller one the parts outside are simply not displayed.
    pub fn new(width: usize, height: usize, seed: u64) -> (rules: MazeRules)
        requires
            width >= 1,
            height >= 1,
            width * height <= usize::MAX,
            2 * width + 1 <= usize::MAX,
            2 * height + 1 <= usize::MAX,
    {
        MazeRules { maze: Maze::new(width, height), rng_state: seed }
    }

    /// How many cells the carver has visited so far.
    pub fn visited_cells(&self) -> (n: usize)
    {
        proof {
            use_type_invariant(&*self);
        }
        self.maze.visited_cells()
    }

    /// Whether the carving is finished.
    pub fn done(&self) -> (done: bool)
    {
        self.maze.done()
    }
}

impl Rules for MazeRules {
    fn on_user_create(&mut self, utils: &mut Utils) -> (keep_running: bool) {
        proof {
            use_type_invariant(&*self);
        }
        let w = utils.width();
        let h = utils.height();
        utils.fill(0, 0, w, h, '#', Color::DarkGrey);
        proof {
            crate::buffer::lemma_fill_spec_effect(old(utils)@, 0, 0, w, h, '#', Color::DarkGrey);
        }
        let mut maze = Maze::new(1, 1);
        core::mem::swap(&mut maze, &mut self.maze);
        render_maze(&maze, utils);
        core::mem::swap(&mut maze, &mut self.maze);
        true
    }

    fn on_user_update(&mut self, utils: &mut Utils, elapsed_nanos: u64) -> (keep_running: bool) {
        proof {
            use_type_invariant(&*self);
        }
        self.rng_state = self.rng_state.wrapping_mul(6364136223846793005).wrapping_add(
            1442695040888963407,
        );
        let pick = (self.rng_state >> 33) as usize;
        let mut maze = Maze::new(1, 1);
        core::mem::swap(&mut maze, &mut self.maze);
        maze.step(pick);
        render_maze(&maze, utils);
        core::mem::swap(&mut maze, &mut self.maze);
        true
    }
}

} // verus!
