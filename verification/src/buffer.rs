//! The cell buffer: a width x height grid of cells plus the record of
//! which coordinates changed since the last committed flush.
//!
//! All mutators are bounds-checked: a write outside the grid is silently
//! ignored, never an error. A write that would not change the stored cell
//! is also ignored, so the dirty list records exactly the coordinates
//! whose committed value is stale, each at most once.

use vstd::prelude::*;

use crate::cell::Cell;
use crate::cell::Color;

verus! {

/// The mathematical model of a [`Utils`] buffer: the grid as a sequence
/// in row-major order, the dirty list as a sequence of coordinates, and
/// the input snapshot captured for the current frame.
#[verifier::ext_equal]
pub struct BufferView {
    pub width: usize,
    pub height: usize,
    pub grid: Seq<Cell>,
    pub dirty: Seq<(usize, usize)>,
    pub keys: Seq<u16>,
}

impl BufferView {
    /// Row-major index of the coordinate (x, y).
    pub open spec fn idx(self, x: usize, y: usize) -> int {
        y * self.width + x
    }

    /// Whether (x, y) lies inside the grid.
    pub open spec fn in_bounds(self, x: usize, y: usize) -> bool {
        x < self.width && y < self.height
    }

    /// The cell currently stored at (x, y).
    pub open spec fn cell_at(self, x: usize, y: usize) -> Cell {
        self.grid[self.idx(x, y)]
    }

    /// Whether (x, y) changed since the last flush.
    pub open spec fn is_dirty(self, x: usize, y: usize) -> bool {
        self.dirty.contains((x, y))
    }

    /// Well-formedness: the grid has exactly width * height cells, and the
    /// dirty list holds only in-bounds coordinates, each at most once.
    pub open spec fn wf(self) -> bool {
        &&& self.grid.len() == self.width * self.height
        &&& forall|i: int|
            0 <= i < self.dirty.len() ==> self.in_bounds(
                #[trigger] self.dirty[i].0,
                self.dirty[i].1,
            )
        &&& forall|i: int, j: int|
            0 <= i < j < self.dirty.len() ==> self.dirty[i] != self.dirty[j]
    }
}

/// What one draw does to the model: out-of-bounds writes and writes of the
/// value already stored are ignored; an effective change updates the grid
/// and marks the coordinate dirty unless it is marked already.
pub open spec fn draw_spec(v: BufferView, x: usize, y: usize, glyph: char, color: Color) -> BufferView {
    let cell = Cell { glyph, color };
    if !v.in_bounds(x, y) {
        v
    } else if v.cell_at(x, y) == cell {
        v
    } else {
        BufferView {
            grid: v.grid.update(v.idx(x, y), cell),
            dirty: if v.is_dirty(x, y) {
                v.dirty
            } else {
                v.dirty.push((x, y))
            },
            ..v
        }
    }
}

/// A row-major index computed from in-bounds coordinates stays inside the
/// grid.
pub proof fn lemma_idx_in_range(x: usize, y: usize, width: usize, height: usize)
    requires
        x < width,
        y < height,
    ensures
        0 <= y * width + x < width * height,
{
    assert(x < width && y < height ==> 0 <= y * width + x < width * height) by (nonlinear_arith);
}

/// A draw keeps the buffer well-formed and never changes its dimensions or
/// its input snapshot.
pub proof fn lemma_draw_spec_wf(v: BufferView, x: usize, y: usize, glyph: char, color: Color)
    requires
        v.wf(),
    ensures
        draw_spec(v, x, y, glyph, color).wf(),
        draw_spec(v, x, y, glyph, color).width == v.width,
        draw_spec(v, x, y, glyph, color).height == v.height,
        draw_spec(v, x, y, glyph, color).keys == v.keys,
        draw_spec(v, x, y, glyph, color).dirty.len() >= v.dirty.len(),
{
    let w = draw_spec(v, x, y, glyph, color);
    if v.in_bounds(x, y) {
        lemma_idx_in_range(x, y, v.width, v.height);
    }
    if v.in_bounds(x, y) && v.cell_at(x, y) != (Cell { glyph, color }) && !v.is_dirty(x, y) {
        assert forall|i: int| 0 <= i < w.dirty.len() implies w.in_bounds(
            #[trigger] w.dirty[i].0,
            w.dirty[i].1,
        ) by {
            if i < v.dirty.len() {
                assert(w.dirty[i] == v.dirty[i]);
                assert(v.in_bounds(v.dirty[i].0, v.dirty[i].1));
            } else {
                assert(w.dirty[i] == (x, y));
            }
        }
        assert forall|i: int, j: int| 0 <= i < j < w.dirty.len() implies w.dirty[i] != w.dirty[j] by {
            if j == w.dirty.len() - 1 {
                assert(!v.dirty.contains((x, y)));
                assert(v.dirty[i] != (x, y));
            }
        }
    }
}

/// Distinct in-bounds coordinates have distinct row-major indices.
pub proof fn lemma_idx_injective(a: usize, b: usize, x: usize, y: usize, width: usize, height: usize)
    requires
        a < width,
        b < height,
        x < width,
        y < height,
        !(a == x && b == y),
    ensures
        b * width + a != y * width + x,
{
    assert((a < width && b < height && x < width && y < height && !(a == x && b == y))
        ==> b * width + a != y * width + x) by (nonlinear_arith);
}

/// What one draw does, coordinate by coordinate: only (x, y) can change,
/// and (x, y) ends up dirty exactly when it was dirty already or the draw
/// effectively changed it.
pub proof fn lemma_draw_spec_effect(v: BufferView, x: usize, y: usize, glyph: char, color: Color)
    requires
        v.wf(),
    ensures
        draw_spec(v, x, y, glyph, color).wf(),
        draw_spec(v, x, y, glyph, color).width == v.width,
        draw_spec(v, x, y, glyph, color).height == v.height,
        draw_spec(v, x, y, glyph, color).keys == v.keys,
        forall|a: usize, b: usize|
            v.in_bounds(a, b) ==> #[trigger] draw_spec(v, x, y, glyph, color).cell_at(a, b)
                == if a == x && b == y {
                    (Cell { glyph, color })
                } else {
                    v.cell_at(a, b)
                },
        forall|a: usize, b: usize|
            #[trigger] draw_spec(v, x, y, glyph, color).is_dirty(a, b) <==> v.is_dirty(a, b) || (
            a == x && b == y && v.in_bounds(x, y) && v.cell_at(x, y) != (Cell { glyph, color })),
{
    let cell = Cell { glyph, color };
    let w = draw_spec(v, x, y, glyph, color);
    lemma_draw_spec_wf(v, x, y, glyph, color);
    if v.in_bounds(x, y) {
        lemma_idx_in_range(x, y, v.width, v.height);
    }
    assert forall|a: usize, b: usize| v.in_bounds(a, b) implies #[trigger] w.cell_at(a, b)
        == if a == x && b == y {
            cell
        } else {
            v.cell_at(a, b)
        } by {
        lemma_idx_in_range(a, b, v.width, v.height);
        if v.in_bounds(x, y) && v.cell_at(x, y) != cell && !(a == x && b == y) {
            lemma_idx_injective(a, b, x, y, v.width, v.height);
            assert(v.idx(a, b) != v.idx(x, y));
        }
    }
    assert forall|a: usize, b: usize| #[trigger] w.is_dirty(a, b) <==> v.is_dirty(a, b) || (a == x
        && b == y && v.in_bounds(x, y) && v.cell_at(x, y) != cell) by {
        if v.in_bounds(x, y) && v.cell_at(x, y) != cell && !v.is_dirty(x, y) {
            assert(w.dirty == v.dirty.push((x, y)));
            if v.is_dirty(a, b) {
                let k = choose|k: int| 0 <= k < v.dirty.len() && v.dirty[k] == (a, b);
                assert(w.dirty[k] == (a, b));
            }
            if a == x && b == y {
                assert(w.dirty[v.dirty.len() as int] == (x, y));
            }
            if w.is_dirty(a, b) && !(a == x && b == y) {
                let k = choose|k: int| 0 <= k < w.dirty.len() && w.dirty[k] == (a, b);
                assert(k < v.dirty.len());
                assert(v.dirty[k] == (a, b));
            }
        }
    }
}

/// One row of a fill: draws from x (inclusive) to x2 (exclusive) at row y,
/// left to right.
pub open spec fn fill_row_spec(
    v: BufferView,
    x: usize,
    x2: usize,
    y: usize,
    glyph: char,
    color: Color,
) -> BufferView
    decreases x2 - x,
{
    if x >= x2 {
        v
    } else {
        fill_row_spec(draw_spec(v, x, y, glyph, color), (x + 1) as usize, x2, y, glyph, color)
    }
}

/// A fill: applies a draw to every coordinate of the half-open rectangle
/// [x1, x2) x [y, y2), row-major.
pub open spec fn fill_spec(
    v: BufferView,
    x1: usize,
    y: usize,
    x2: usize,
    y2: usize,
    glyph: char,
    color: Color,
) -> BufferView
    decreases y2 - y,
{
    if y >= y2 {
        v
    } else {
        fill_spec(fill_row_spec(v, x1, x2, y, glyph, color), x1, (y + 1) as usize, x2, y2, glyph, color)
    }
}

/// What one row of a fill does, coordinate by coordinate.
proof fn lemma_fill_row_spec_effect(
    v: BufferView,
    x: usize,
    x2: usize,
    y: usize,
    glyph: char,
    color: Color,
)
    requires
        v.wf(),
    ensures
        fill_row_spec(v, x, x2, y, glyph, color).wf(),
        fill_row_spec(v, x, x2, y, glyph, color).width == v.width,
        fill_row_spec(v, x, x2, y, glyph, color).height == v.height,
        fill_row_spec(v, x, x2, y, glyph, color).keys == v.keys,
        forall|a: usize, b: usize|
            v.in_bounds(a, b) ==> #[trigger] fill_row_spec(v, x, x2, y, glyph, color).cell_at(a, b)
                == if x <= a < x2 && b == y {
                    (Cell { glyph, color })
                } else {
                    v.cell_at(a, b)
                },
        forall|a: usize, b: usize|
            #[trigger] fill_row_spec(v, x, x2, y, glyph, color).is_dirty(a, b) <==> v.is_dirty(a, b)
                || (x <= a < x2 && b == y && v.in_bounds(a, b) && v.cell_at(a, b) != (Cell {
                glyph,
                color,
            })),
    decreases x2 - x,
{
    let cell = Cell { glyph, color };
    if x < x2 {
        let v1 = draw_spec(v, x, y, glyph, color);
        lemma_draw_spec_effect(v, x, y, glyph, color);
        lemma_fill_row_spec_effect(v1, (x + 1) as usize, x2, y, glyph, color);
    }
}

/// What a fill does, coordinate by coordinate: every in-bounds coordinate
/// of the rectangle ends up holding the new cell, every other coordinate
/// keeps its value, and a coordinate ends up dirty exactly when it was
/// dirty already or the fill effectively changed it.
pub proof fn lemma_fill_spec_effect(
    v: BufferView,
    x1: usize,
    y1: usize,
    x2: usize,
    y2: usize,
    glyph: char,
    color: Color,
)
    requires
        v.wf(),
    ensures
        fill_spec(v, x1, y1, x2, y2, glyph, color).wf(),
        fill_spec(v, x1, y1, x2, y2, glyph, color).width == v.width,
        fill_spec(v, x1, y1, x2, y2, glyph, color).height == v.height,
        fill_spec(v, x1, y1, x2, y2, glyph, color).keys == v.keys,
        forall|a: usize, b: usize|
            v.in_bounds(a, b) ==> #[trigger] fill_spec(v, x1, y1, x2, y2, glyph, color).cell_at(
                a,
                b,
            ) == if x1 <= a < x2 && y1 <= b < y2 {
                (Cell { glyph, color })
            } else {
                v.cell_at(a, b)
            },
        forall|a: usize, b: usize|
            #[trigger] fill_spec(v, x1, y1, x2, y2, glyph, color).is_dirty(a, b) <==> v.is_dirty(
                a,
                b,
            ) || (x1 <= a < x2 && y1 <= b < y2 && v.in_bounds(a, b) && v.cell_at(a, b) != (Cell {
                glyph,
                color,
            })),
    decreases y2 - y1,
{
    let cell = Cell { glyph, color };
    if y1 < y2 {
        let v1 = fill_row_spec(v, x1, x2, y1, glyph, color);
        lemma_fill_row_spec_effect(v, x1, x2, y1, glyph, color);
        lemma_fill_spec_effect(v1, x1, (y1 + 1) as usize, x2, y2, glyph, color);
    }
}

/// The half-open rectangle [x1, x2) x [y1, y2) as a set of coordinates.
pub open spec fn rect_set(x1: usize, y1: usize, x2: usize, y2: usize) -> Set<(usize, usize)> {
    Set::new(|p: (usize, usize)| x1 <= p.0 < x2 && y1 <= p.1 < y2)
}

/// One row of a rectangle: [x1, x2) at height y.
spec fn row_set(x1: usize, x2: usize, y: usize) -> Set<(usize, usize)> {
    Set::new(|p: (usize, usize)| x1 <= p.0 < x2 && p.1 == y)
}

proof fn lemma_row_set_card(x1: usize, x2: usize, y: usize)
    requires
        x1 <= x2,
    ensures
        row_set(x1, x2, y).finite(),
        row_set(x1, x2, y).len() == x2 - x1,
    decreases x2 - x1,
{
    if x1 == x2 {
        assert(row_set(x1, x2, y) =~= Set::<(usize, usize)>::empty());
    } else {
        let xm = (x2 - 1) as usize;
        lemma_row_set_card(x1, xm, y);
        assert(!row_set(x1, xm, y).contains((xm, y)));
        assert(row_set(x1, x2, y) =~= row_set(x1, xm, y).insert((xm, y)));
    }
}

/// The union of two finite disjoint sets is exactly as large as both
/// together.
proof fn lemma_disjoint_union_card<A>(s1: Set<A>, s2: Set<A>)
    requires
        s1.finite(),
        s2.finite(),
        s1.disjoint(s2),
    ensures
        s1.union(s2).finite(),
        s1.union(s2).len() == s1.len() + s2.len(),
    decreases s1.len(),
{
    if s1.is_empty() {
        assert(s1.union(s2) =~= s2);
        assert(s1.len() == 0);
    } else {
        let a = s1.choose();
        assert(s1.contains(a));
        assert(s1.union(s2).remove(a) =~= s1.remove(a).union(s2));
        lemma_disjoint_union_card(s1.remove(a), s2);
        assert(s1.union(s2) =~= s1.remove(a).union(s2).insert(a));
        assert(!s1.remove(a).union(s2).contains(a));
    }
}

/// A rectangle holds exactly width times height coordinates.
pub proof fn lemma_rect_set_card(x1: usize, y1: usize, x2: usize, y2: usize)
    requires
        x1 <= x2,
        y1 <= y2,
    ensures
        rect_set(x1, y1, x2, y2).finite(),
        rect_set(x1, y1, x2, y2).len() == (x2 - x1) * (y2 - y1),
    decreases y2 - y1,
{
    if y1 == y2 {
        assert(rect_set(x1, y1, x2, y2) =~= Set::<(usize, usize)>::empty());
    } else {
        let ym = (y2 - 1) as usize;
        lemma_rect_set_card(x1, y1, x2, ym);
        lemma_row_set_card(x1, x2, ym);
        assert(rect_set(x1, y1, x2, ym).disjoint(row_set(x1, x2, ym)));
        lemma_disjoint_union_card(rect_set(x1, y1, x2, ym), row_set(x1, x2, ym));
        assert(rect_set(x1, y1, x2, y2) =~= rect_set(x1, y1, x2, ym).union(row_set(x1, x2, ym)));
        assert((x2 - x1) * (ym - y1) + (x2 - x1) == (x2 - x1) * (y2 - y1)) by (nonlinear_arith)
            requires
                y1 <= ym,
                ym == y2 - 1,
        ;
    }
}

/// The coordinates a fill actually writes: its rectangle clipped to the
/// grid.
pub open spec fn clipped_rect_set(
    v: BufferView,
    x1: usize,
    y1: usize,
    x2: usize,
    y2: usize,
) -> Set<(usize, usize)> {
    rect_set(x1, y1, x2, y2).intersect(rect_set(0, 0, v.width, v.height))
}

/// A fill touches exactly the in-bounds part of its rectangle: those
/// coordinates take the new cell and nothing else changes, so no
/// out-of-range coordinate ever enters the grid or the dirty list. Fully
/// in bounds, that is exactly (x2 - x1) * (y2 - y1) coordinates; a
/// rectangle that sticks out of the grid touches a strict, correctly
/// clipped subset of its coordinates.
pub proof fn lemma_fill_touches(
    v: BufferView,
    x1: usize,
    y1: usize,
    x2: usize,
    y2: usize,
    glyph: char,
    color: Color,
)
    requires
        v.wf(),
        x1 <= x2,
        y1 <= y2,
    ensures
        fill_spec(v, x1, y1, x2, y2, glyph, color).wf(),
        forall|a: usize, b: usize|
            v.in_bounds(a, b) ==> #[trigger] fill_spec(v, x1, y1, x2, y2, glyph, color).cell_at(
                a,
                b,
            ) == if clipped_rect_set(v, x1, y1, x2, y2).contains((a, b)) {
                (Cell { glyph, color })
            } else {
                v.cell_at(a, b)
            },
        forall|a: usize, b: usize|
            #[trigger] fill_spec(v, x1, y1, x2, y2, glyph, color).is_dirty(a, b) ==> v.is_dirty(
                a,
                b,
            ) || clipped_rect_set(v, x1, y1, x2, y2).contains((a, b)),
        clipped_rect_set(v, x1, y1, x2, y2).finite(),
        clipped_rect_set(v, x1, y1, x2, y2).subset_of(rect_set(x1, y1, x2, y2)),
        x2 <= v.width && y2 <= v.height ==> clipped_rect_set(v, x1, y1, x2, y2).len() == (x2 - x1)
            * (y2 - y1),
        (exists|p: (usize, usize)| rect_set(x1, y1, x2, y2).contains(p) && !v.in_bounds(p.0, p.1))
            ==> clipped_rect_set(v, x1, y1, x2, y2).len() < (x2 - x1) * (y2 - y1),
{
    lemma_fill_spec_effect(v, x1, y1, x2, y2, glyph, color);
    lemma_rect_set_card(x1, y1, x2, y2);
    let rect = rect_set(x1, y1, x2, y2);
    let clipped = clipped_rect_set(v, x1, y1, x2, y2);
    vstd::set_lib::lemma_len_intersect(rect, rect_set(0, 0, v.width, v.height));
    if x2 <= v.width && y2 <= v.height {
        assert(clipped =~= rect);
    }
    if exists|p: (usize, usize)| rect.contains(p) && !v.in_bounds(p.0, p.1) {
        let p = choose|p: (usize, usize)| rect.contains(p) && !v.in_bounds(p.0, p.1);
        assert(!clipped.contains(p));
        clipped.lemma_subset_not_in_lt(rect, p);
    }
}

/// Repeating a draw changes nothing: once a glyph and color are stored
/// at a coordinate, drawing the same pair there again leaves both the
/// grid and the dirty list exactly as they were, so the coordinate is
/// marked dirty only by the first of two identical draws.
pub proof fn lemma_draw_twice_same(v: BufferView, x: usize, y: usize, glyph: char, color: Color)
    requires
        v.wf(),
    ensures
        draw_spec(draw_spec(v, x, y, glyph, color), x, y, glyph, color) == draw_spec(
            v,
            x,
            y,
            glyph,
            color,
        ),
{
    let w = draw_spec(v, x, y, glyph, color);
    if v.in_bounds(x, y) {
        lemma_idx_in_range(x, y, v.width, v.height);
        assert(w.cell_at(x, y) == (Cell { glyph, color }));
    }
}

/// The cell buffer. It owns the grid (one glyph and one color per cell),
/// the list of coordinates changed since the last flush, and the input
/// snapshot for the current frame.
pub struct Utils {
    width: usize,
    height: usize,
    grid: Vec<Cell>,
    dirty: Vec<(usize, usize)>,
    keys: Vec<u16>,
}

impl View for Utils {
    type V = BufferView;

    closed spec fn view(&self) -> BufferView {
        BufferView {
            width: self.width,
            height: self.height,
            grid: self.grid@,
            dirty: self.dirty@,
            keys: self.keys@,
        }
    }
}

impl Utils {
    /// Well-formedness of the buffer, stated over its model.
    pub open spec fn wf(&self) -> bool {
        self@.wf()
    }

    /// Creates a buffer of the given dimensions. Every cell starts as
    /// the null glyph in black — a placeholder no simulation draws, so
    /// the first frame commits every cell it actually touches. Nothing
    /// is dirty and no keys are recorded.
    pub fn new(height: usize, width: usize) -> (utils: Utils)
        requires
            width * height <= usize::MAX,
        ensures
            utils.wf(),
            utils@.width == width,
            utils@.height == height,
            utils@.grid =~= Seq::new(
                (width * height) as nat,
                |i: int| (Cell { glyph: '\0', color: Color::Black }),
            ),
            utils@.dirty =~= Seq::<(usize, usize)>::empty(),
            utils@.keys =~= Seq::<u16>::empty(),
    {
        let total: usize = width * height;
        let mut grid: Vec<Cell> = Vec::new();
        let mut i: usize = 0;
        while i < total
            invariant
                i <= total,
                grid@ =~= Seq::new(i as nat, |k: int| (Cell { glyph: '\0', color: Color::Black })),
            decreases total - i,
        {
            grid.push(Cell { glyph: '\0', color: Color::Black });
            i = i + 1;
        }
        Utils { width, height, grid, dirty: Vec::new(), keys: Vec::new() }
    }

    /// The grid width in cells.
    pub fn width(&self) -> (w: usize)
        ensures
            w == self@.width,
    {
        self.width
    }

    /// The grid height in cells.
    pub fn height(&self) -> (h: usize)
        ensures
            h == self@.height,
    {
        self.height
    }

    /// The key codes captured for the current frame.
    pub fn keys(&self) -> (keys: &Vec<u16>)
        ensures
            keys@ == self@.keys,
    {
        &self.keys
    }

    /// The cell stored at (x, y), or `None` outside the grid.
    pub fn cell_at(&self, x: usize, y: usize) -> (cell: Option<Cell>)
        requires
            self.wf(),
        ensures
            cell == if self@.in_bounds(x, y) {
                Some(self@.cell_at(x, y))
            } else {
                None::<Cell>
            },
    {
        if x < self.width && y < self.height {
            // reading the length as a usize bounds the index arithmetic
            let _grid_len: usize = self.grid.len();
            proof {
                lemma_idx_in_range(x, y, self.width, self.height);
            }
            Some(self.grid[y * self.width + x])
        } else {
            None
        }
    }

    /// The number of coordinates changed since the last flush.
    pub fn dirty_len(&self) -> (n: usize)
        ensures
            n == self@.dirty.len(),
    {
        self.dirty.len()
    }

    /// Whether (x, y) is recorded as changed since the last flush.
    pub fn is_dirty(&self, x: usize, y: usize) -> (dirty: bool)
        ensures
            dirty == self@.is_dirty(x, y),
    {
        let mut i: usize = 0;
        let n: usize = self.dirty.len();
        while i < n
            invariant
                i <= n,
                n == self@.dirty.len(),
                forall|j: int| 0 <= j < i ==> self@.dirty[j] != (x, y),
            decreases n - i,
        {
            let (dx, dy) = self.dirty[i];
            if dx == x && dy == y {
                assert(self@.dirty[i as int] == (x, y));
                return true;
            }
            i = i + 1;
        }
        false
    }

    /// The i-th recorded dirty coordinate, in recorded order.
    pub fn dirty_coord(&self, i: usize) -> (coord: (usize, usize))
        requires
            i < self@.dirty.len(),
        ensures
            coord == self@.dirty[i as int],
    {
        self.dirty[i]
    }

    /// Drains the dirty list; the grid and the input snapshot stay.
    pub(crate) fn clear_dirty(&mut self)
        ensures
            final(self)@ =~= (BufferView { dirty: Seq::empty(), ..old(self)@ }),
    {
        self.dirty.clear();
    }

    /// Records the input snapshot for the coming frame.
    pub fn set_keys(&mut self, keys: Vec<u16>)
        ensures
            final(self)@ =~= (BufferView { keys: keys@, ..old(self)@ }),
    {
        self.keys = keys;
    }

    /// Writes `glyph` in `color` at (x, y). The write is ignored when the
    /// coordinate is out of bounds or the cell already holds that value;
    /// an effective change marks the coordinate dirty, once per frame.
    pub fn draw(&mut self, x: usize, y: usize, glyph: char, color: Color)
        requires
            old(self).wf(),
        ensures
            final(self).wf(),
            final(self)@ == draw_spec(old(self)@, x, y, glyph, color),
    {
        proof {
            lemma_draw_spec_wf(old(self)@, x, y, glyph, color);
        }
        if x < self.width && y < self.height {
            // reading the length as a usize bounds the index arithmetic
            let _grid_len: usize = self.grid.len();
            proof {
                lemma_idx_in_range(x, y, self.width, self.height);
            }
            let i: usize = y * self.width + x;
            let cell = Cell { glyph, color };
            if !(self.grid[i] == cell) {
                let marked = self.is_dirty(x, y);
                self.grid.set(i, cell);
                if !marked {
                    self.dirty.push((x, y));
                }
                assert(self@ =~= draw_spec(old(self)@, x, y, glyph, color));
            } else {
                assert(self@ =~= draw_spec(old(self)@, x, y, glyph, color));
            }
        } else {
            assert(self@ =~= draw_spec(old(self)@, x, y, glyph, color));
        }
    }

    /// Applies [`Utils::draw`] to every cell of the half-open rectangle
    /// [x1, x2) x [y1, y2), row-major. There is no special out-of-bounds
    /// handling beyond the per-cell clamp-to-ignore.
    pub fn fill(&mut self, x1: usize, y1: usize, x2: usize, y2: usize, glyph: char, color: Color)
        requires
            old(self).wf(),
        ensures
            final(self).wf(),
            final(self)@ == fill_spec(old(self)@, x1, y1, x2, y2, glyph, color),
    {
        let ghost target = fill_spec(old(self)@, x1, y1, x2, y2, glyph, color);
        let mut y: usize = y1;
        while y < y2
            invariant
                self.wf(),
                y1 <= y,
                y <= y2 || y == y1,
                fill_spec(self@, x1, y, x2, y2, glyph, color) == target,
            decreases y2 - y,
        {
            let mut x: usize = x1;
            while x < x2
                invariant
                    self.wf(),
                    x1 <= x,
                    x <= x2 || x == x1,
                    y < y2,
                    fill_spec(
                        fill_row_spec(self@, x, x2, y, glyph, color),
                        x1,
                        (y + 1) as usize,
                        x2,
                        y2,
                        glyph,
                        color,
                    ) == target,
                decreases x2 - x,
            {
                self.draw(x, y, glyph, color);
                x = x + 1;
            }
            y = y + 1;
        }
    }

    /// Writes the characters of `text` left to right starting at (x, y).
    /// With `transparent` set, space characters are skipped entirely (no
    /// write, no dirty mark), so text can overlay a background without
    /// clobbering it. Characters that would land outside the grid, or
    /// past the end of the address space, are ignored like any other
    /// out-of-bounds draw.
    pub fn draw_string(&mut self, x: usize, y: usize, text: &str, color: Color, transparent: bool)
        requires
            old(self).wf(),
        ensures
            final(self).wf(),
            final(self)@ == draw_string_spec(old(self)@, x as int, y, text@, color, transparent),
    {
        let ghost target = draw_string_spec(old(self)@, x as int, y, text@, color, transparent);
        let n: usize = text.unicode_len();
        proof {
            assert(text@.subrange(0, n as int) =~= text@);
        }
        let mut i: usize = 0;
        while i < n
            invariant
                self.wf(),
                i <= n,
                n == text@.len(),
                draw_string_spec(
                    self@,
                    x as int + i as int,
                    y,
                    text@.subrange(i as int, n as int),
                    color,
                    transparent,
                ) == target,
            decreases n - i,
        {
            let c = text.get_char(i);
            let ghost rest = text@.subrange(i as int, n as int);
            assert(rest[0] == c);
            assert(rest.subrange(1, rest.len() as int) =~= text@.subrange(i as int + 1, n as int));
            if !(transparent && c == ' ') {
                match x.checked_add(i) {
                    Some(xi) => {
                        self.draw(xi, y, c, color);
                    },
                    None => {
                        // the coordinate lies beyond the address space,
                        // hence beyond the grid: nothing to write
                    },
                }
            }
            i = i + 1;
        }
    }
}

/// What `draw_string` does: the character at offset `i` of `text` is
/// drawn at (x + i, y), except that spaces are skipped when `transparent`
/// is set, and offsets past `usize::MAX` are out of bounds by definition.
/// The running coordinate `x` is mathematical, so walking off the end of
/// the address space merely leaves the remaining characters unwritten.
pub open spec fn draw_string_spec(
    v: BufferView,
    x: int,
    y: usize,
    text: Seq<char>,
    color: Color,
    transparent: bool,
) -> BufferView
    decreases text.len(),
{
    if text.len() == 0 {
        v
    } else {
        let next = if transparent && text[0] == ' ' {
            v
        } else if 0 <= x <= usize::MAX {
            draw_spec(v, x as usize, y, text[0], color)
        } else {
            v
        };
        draw_string_spec(next, x + 1, y, text.subrange(1, text.len() as int), color, transparent)
    }
}

} // verus!
