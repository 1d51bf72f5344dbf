//! The frame differ's output side: turning the dirty list into the
//! minimal list of positioned writes for the physical display, and the
//! laws that make the diff discipline trustworthy.

use vstd::prelude::*;

use crate::buffer::BufferView;
use crate::buffer::Utils;
use crate::buffer::draw_spec;
use crate::buffer::lemma_draw_spec_wf;
use crate::buffer::lemma_idx_in_range;
use crate::cell::Cell;
use crate::cell::Color;

verus! {

/// One positioned write for the display sink: move the cursor to (x, y)
/// and emit this glyph in this color.
#[derive(Copy, Clone, Debug, PartialEq, Eq, Structural)]
pub struct WriteOp {
    pub x: usize,
    pub y: usize,
    pub glyph: char,
    pub color: Color,
}

/// The writes a flush emits: one per recorded dirty coordinate, in
/// recorded order, each carrying the cell currently stored there.
pub open spec fn flush_writes_spec(v: BufferView) -> Seq<WriteOp> {
    Seq::new(
        v.dirty.len(),
        |i: int|
            (WriteOp {
                x: v.dirty[i].0,
                y: v.dirty[i].1,
                glyph: v.cell_at(v.dirty[i].0, v.dirty[i].1).glyph,
                color: v.cell_at(v.dirty[i].0, v.dirty[i].1).color,
            }),
    )
}

/// The buffer a flush leaves behind: the same grid and input snapshot,
/// with the dirty list drained.
pub open spec fn flush_state_spec(v: BufferView) -> BufferView {
    BufferView { dirty: Seq::empty(), ..v }
}

/// How many of the writes in `ws` before position `n` target (x, y).
pub open spec fn writes_at_prefix(ws: Seq<WriteOp>, x: usize, y: usize, n: int) -> int
    decreases n,
{
    if n <= 0 {
        0
    } else {
        writes_at_prefix(ws, x, y, n - 1) + if ws[n - 1].x == x && ws[n - 1].y == y {
            1int
        } else {
            0int
        }
    }
}

/// How many of the writes in `ws` target (x, y).
pub open spec fn writes_at(ws: Seq<WriteOp>, x: usize, y: usize) -> int {
    writes_at_prefix(ws, x, y, ws.len() as int)
}

/// In a well-formed buffer each coordinate is dirty at most once, so the
/// flush targets a coordinate exactly once if it is dirty and never
/// otherwise.
pub proof fn lemma_flush_writes_at(v: BufferView, x: usize, y: usize)
    requires
        v.wf(),
    ensures
        writes_at(flush_writes_spec(v), x, y) == if v.is_dirty(x, y) {
            1int
        } else {
            0int
        },
{
    lemma_flush_writes_at_prefix(v, x, y, v.dirty.len() as int);
    if !v.is_dirty(x, y) {
        assert forall|k: int| 0 <= k < v.dirty.len() implies v.dirty[k] != (x, y) by {
            if v.dirty[k] == (x, y) {
                assert(v.dirty.contains((x, y)));
            }
        }
    }
}

proof fn lemma_flush_writes_at_prefix(v: BufferView, x: usize, y: usize, n: int)
    requires
        v.wf(),
        n <= v.dirty.len(),
    ensures
        writes_at_prefix(flush_writes_spec(v), x, y, n) == if exists|k: int|
            0 <= k < n && v.dirty[k] == (x, y) {
            1int
        } else {
            0int
        },
    decreases n,
{
    if n > 0 {
        lemma_flush_writes_at_prefix(v, x, y, n - 1);
        let ws = flush_writes_spec(v);
        if ws[n - 1].x == x && ws[n - 1].y == y {
            assert(v.dirty[n - 1] == (x, y));
            assert forall|k: int| 0 <= k < n - 1 implies v.dirty[k] != (x, y) by {
                assert(v.dirty[k] != v.dirty[n - 1]);
            }
        } else {
            assert(v.dirty[n - 1] != (x, y));
            assert(forall|k: int| 0 <= k < n && #[trigger] v.dirty[k] == (x, y) ==> k < n - 1);
        }
    }
}

/// The writes a well-formed buffer flushes are all in bounds, each
/// carries the cell the grid holds at its coordinate, and no two target
/// the same coordinate.
pub proof fn lemma_flush_writes_wf(v: BufferView)
    requires
        v.wf(),
    ensures
        flush_writes_spec(v).len() == v.dirty.len(),
        forall|i: int|
            0 <= i < flush_writes_spec(v).len() ==> {
                &&& (#[trigger] flush_writes_spec(v)[i]).x < v.width
                &&& flush_writes_spec(v)[i].y < v.height
                &&& flush_writes_spec(v)[i].glyph == v.cell_at(
                    flush_writes_spec(v)[i].x,
                    flush_writes_spec(v)[i].y,
                ).glyph
                &&& flush_writes_spec(v)[i].color == v.cell_at(
                    flush_writes_spec(v)[i].x,
                    flush_writes_spec(v)[i].y,
                ).color
            },
        forall|i: int, j: int|
            0 <= i < j < flush_writes_spec(v).len() ==> !((#[trigger] flush_writes_spec(v)[i]).x
                == (#[trigger] flush_writes_spec(v)[j]).x && flush_writes_spec(v)[i].y
                == flush_writes_spec(v)[j].y),
{
    let ws = flush_writes_spec(v);
    assert forall|i: int| 0 <= i < ws.len() implies {
        &&& (#[trigger] ws[i]).x < v.width
        &&& ws[i].y < v.height
        &&& ws[i].glyph == v.cell_at(ws[i].x, ws[i].y).glyph
        &&& ws[i].color == v.cell_at(ws[i].x, ws[i].y).color
    } by {
        assert(v.in_bounds(v.dirty[i].0, v.dirty[i].1));
    }
    assert forall|i: int, j: int| 0 <= i < j < ws.len() implies !((#[trigger] ws[i]).x == (
    #[trigger] ws[j]).x && ws[i].y == ws[j].y) by {
        if ws[i].x == ws[j].x && ws[i].y == ws[j].y {
            assert(v.dirty[i] == (v.dirty[i].0, v.dirty[i].1));
            assert(v.dirty[j] == (v.dirty[j].0, v.dirty[j].1));
            assert(v.dirty[i] == v.dirty[j]);
        }
    }
}

/// Flushing drains the dirty list, so a second flush with no draws in
/// between performs zero writes.
pub proof fn lemma_flush_twice(v: BufferView)
    ensures
        flush_state_spec(v).dirty.len() == 0,
        flush_writes_spec(flush_state_spec(v)).len() == 0,
{
}

/// The buffer after a sequence of draws, applied first to last, all at
/// one coordinate.
pub open spec fn draw_all_spec(v: BufferView, x: usize, y: usize, ops: Seq<Cell>) -> BufferView
    decreases ops.len(),
{
    if ops.len() == 0 {
        v
    } else {
        draw_all_spec(
            draw_spec(v, x, y, ops[0].glyph, ops[0].color),
            x,
            y,
            ops.subrange(1, ops.len() as int),
        )
    }
}

/// A draw never cleans a dirty coordinate.
proof fn lemma_draw_spec_dirty_monotone(
    v: BufferView,
    x: usize,
    y: usize,
    glyph: char,
    color: Color,
    a: usize,
    b: usize,
)
    requires
        v.is_dirty(a, b),
    ensures
        draw_spec(v, x, y, glyph, color).is_dirty(a, b),
{
    let w = draw_spec(v, x, y, glyph, color);
    let k = choose|k: int| 0 <= k < v.dirty.len() && v.dirty[k] == (a, b);
    assert(w.dirty.len() >= v.dirty.len());
    assert(w.dirty[k] == (a, b));
}

/// Neither does a whole sequence of draws.
proof fn lemma_draw_all_dirty_monotone(
    v: BufferView,
    x: usize,
    y: usize,
    ops: Seq<Cell>,
    a: usize,
    b: usize,
)
    requires
        v.is_dirty(a, b),
    ensures
        draw_all_spec(v, x, y, ops).is_dirty(a, b),
    decreases ops.len(),
{
    if ops.len() > 0 {
        lemma_draw_spec_dirty_monotone(v, x, y, ops[0].glyph, ops[0].color, a, b);
        lemma_draw_all_dirty_monotone(
            draw_spec(v, x, y, ops[0].glyph, ops[0].color),
            x,
            y,
            ops.subrange(1, ops.len() as int),
            a,
            b,
        );
    }
}

/// An effective draw leaves its coordinate marked dirty.
proof fn lemma_draw_spec_marks(v: BufferView, x: usize, y: usize, glyph: char, color: Color)
    requires
        v.in_bounds(x, y),
        v.cell_at(x, y) != (Cell { glyph, color }),
    ensures
        draw_spec(v, x, y, glyph, color).is_dirty(x, y),
{
    let w = draw_spec(v, x, y, glyph, color);
    if v.is_dirty(x, y) {
        lemma_draw_spec_dirty_monotone(v, x, y, glyph, color, x, y);
    } else {
        assert(w.dirty == v.dirty.push((x, y)));
        assert(w.dirty[v.dirty.len() as int] == (x, y));
    }
}

/// A sequence of draws keeps the buffer well-formed, leaves the last
/// drawn value in the grid, and marks the coordinate dirty whenever the
/// final value differs from what was stored before the sequence.
proof fn lemma_draw_all_effect(v: BufferView, x: usize, y: usize, ops: Seq<Cell>)
    requires
        v.wf(),
        v.in_bounds(x, y),
        ops.len() > 0,
    ensures
        draw_all_spec(v, x, y, ops).wf(),
        draw_all_spec(v, x, y, ops).cell_at(x, y) == ops.last(),
        ops.last() != v.cell_at(x, y) ==> draw_all_spec(v, x, y, ops).is_dirty(x, y),
        v.is_dirty(x, y) ==> draw_all_spec(v, x, y, ops).is_dirty(x, y),
    decreases ops.len(),
{
    lemma_idx_in_range(x, y, v.width, v.height);
    let first = ops[0];
    let v1 = draw_spec(v, x, y, first.glyph, first.color);
    let rest = ops.subrange(1, ops.len() as int);
    lemma_draw_spec_wf(v, x, y, first.glyph, first.color);
    assert(v1.cell_at(x, y) == first);
    if v.is_dirty(x, y) {
        lemma_draw_all_dirty_monotone(v, x, y, ops, x, y);
    }
    if ops.len() == 1 {
        assert(draw_all_spec(v1, x, y, rest) == v1);
        assert(ops.last() == first);
        if ops.last() != v.cell_at(x, y) {
            lemma_draw_spec_marks(v, x, y, first.glyph, first.color);
        }
    } else {
        lemma_draw_all_effect(v1, x, y, rest);
        assert(rest.last() == ops.last());
        if ops.last() != v.cell_at(x, y) {
            if ops.last() != v1.cell_at(x, y) {
                // the tail itself causes an effective change
            } else {
                // the first draw already changed the cell, so it is marked
                assert(first != v.cell_at(x, y));
                lemma_draw_spec_marks(v, x, y, first.glyph, first.color);
                lemma_draw_all_dirty_monotone(v1, x, y, rest, x, y);
            }
        }
    }
}

/// For any sequence of draws to one coordinate within a frame, only the
/// last value persists in the grid, and the following flush targets the
/// coordinate at most once: exactly once when the coordinate was already
/// dirty or the last value differs from the committed cell, since the
/// grid then still holds a value the display has not seen.
pub proof fn lemma_last_draw_wins(v: BufferView, x: usize, y: usize, ops: Seq<Cell>)
    requires
        v.wf(),
        v.in_bounds(x, y),
        ops.len() > 0,
    ensures
        draw_all_spec(v, x, y, ops).wf(),
        draw_all_spec(v, x, y, ops).cell_at(x, y) == ops.last(),
        writes_at(flush_writes_spec(draw_all_spec(v, x, y, ops)), x, y) <= 1,
        v.is_dirty(x, y) || ops.last() != v.cell_at(x, y) ==> writes_at(
            flush_writes_spec(draw_all_spec(v, x, y, ops)),
            x,
            y,
        ) == 1,
{
    lemma_draw_all_effect(v, x, y, ops);
    lemma_flush_writes_at(draw_all_spec(v, x, y, ops), x, y);
}

impl Utils {
    /// Commits the frame: returns one positioned write per dirty
    /// coordinate, in recorded order, each carrying the cell currently
    /// stored there, and drains the dirty list. The grid itself is left
    /// untouched.
    pub fn flush(&mut self) -> (writes: Vec<WriteOp>)
        requires
            old(self).wf(),
        ensures
            final(self).wf(),
            final(self)@ == flush_state_spec(old(self)@),
            writes@ == flush_writes_spec(old(self)@),
    {
        let ghost orig = old(self)@;
        let mut writes: Vec<WriteOp> = Vec::new();
        let n: usize = self.dirty_len();
        let mut i: usize = 0;
        while i < n
            invariant
                self.wf(),
                self@ == orig,
                i <= n,
                n == self@.dirty.len(),
                writes@ =~= flush_writes_spec(orig).subrange(0, i as int),
            decreases n - i,
        {
            let (x, y) = self.dirty_coord(i);
            assert(self@.in_bounds(x, y));
            let cell = match self.cell_at(x, y) {
                Some(c) => c,
                None => Cell { glyph: '\0', color: Color::Black },
            };
            writes.push(WriteOp { x, y, glyph: cell.glyph, color: cell.color });
            assert(writes@ =~= flush_writes_spec(orig).subrange(0, i as int + 1));
            i = i + 1;
        }
        self.clear_dirty();
        proof {
            assert(self@ =~= flush_state_spec(orig));
            assert(writes@ =~= flush_writes_spec(orig));
        }
        writes
    }
}

} // verus!
