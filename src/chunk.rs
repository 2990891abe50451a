//! Cells and the square chunks that own them.

use vstd::prelude::*;

use crate::resolver::CHUNK_AREA;

verus! {

/// Width and height, in chunks, of the rectangle that is drawn.
pub const CHUNKS_TO_DRAW: i32 = 5;

/// One cell as drawn: its column and row on screen and whether it is alive.
#[derive(Clone, Copy, Debug, PartialEq, Eq, Structural)]
pub struct Glyph {
    pub column: i64,
    pub row: i64,
    pub alive: bool,
}

/// The glyphs of chunk `c` for a viewport whose corner is chunk `(vx, vy)`, in index order.
pub open spec fn chunk_glyphs(c: Chunk, vx: int, vy: int) -> Seq<Glyph> {
    Seq::new(
        64,
        |k: int|
            Glyph {
                column: ((c.x - vx) * 8 + k % 8) as i64,
                row: ((c.y - vy) * 8 + k / 8) as i64,
                alive: c.cells@[k].alive_current,
            },
    )
}

/// A cell with its state in the current generation and the one being computed.
#[derive(Clone, Copy, Debug, PartialEq, Eq, Structural)]
pub struct Cell {
    pub alive_current: bool,
    pub alive_next: bool,
}

/// A square tile of cells at chunk coordinate `(x, y)`; cell `idx` sits at
/// column `idx % CHUNK_SIZE` and row `idx / CHUNK_SIZE`.
#[derive(Clone, Debug)]
pub struct Chunk {
    pub x: i32,
    pub y: i32,
    pub cells: Vec<Cell>,
}

impl Chunk {
    /// A chunk holds exactly one cell per local index.
    pub open spec fn wf(&self) -> bool {
        self.cells@.len() == CHUNK_AREA
    }

    /// Every cell is dead in the current generation.
    pub open spec fn all_dead(&self) -> bool {
        forall|k: int| 0 <= k < self.cells@.len() ==> !(#[trigger] self.cells@[k]).alive_current
    }

    /// Whether the chunk lies in the drawn rectangle whose corner is chunk `(vx, vy)`.
    pub open spec fn in_viewport(&self, vx: int, vy: int) -> bool {
        vx <= self.x < vx + CHUNKS_TO_DRAW && vy <= self.y < vy + CHUNKS_TO_DRAW
    }

    /// A chunk at `(x, y)` whose cells are all dead in both buffers.
    pub fn new(x: i32, y: i32) -> (r: Chunk)
        ensures
            r.wf(),
            r.x == x,
            r.y == y,
            forall|k: int|
                0 <= k < CHUNK_AREA ==> #[trigger] r.cells@[k] == (Cell {
                    alive_current: false,
                    alive_next: false,
                }),
    {
        let mut cells: Vec<Cell> = Vec::with_capacity(CHUNK_AREA);
        let mut i: usize = 0;
        while i < CHUNK_AREA
            invariant
                i <= CHUNK_AREA,
                cells@.len() == i,
                forall|k: int|
                    0 <= k < i ==> #[trigger] cells@[k] == (Cell {
                        alive_current: false,
                        alive_next: false,
                    }),
            decreases CHUNK_AREA - i,
        {
            cells.push(Cell { alive_current: false, alive_next: false });
            i = i + 1;
        }
        Chunk { x, y, cells }
    }

    /// Whether cell `idx` is alive in the current generation.
    pub fn is_alive_at(&self, idx: usize) -> (r: bool)
        requires
            self.wf(),
            idx < CHUNK_AREA,
        ensures
            r == self.cells@[idx as int].alive_current,
    {
        self.cells[idx].alive_current
    }

    /// Whether no cell of the chunk is alive in the current generation.
    pub fn is_dead(&self) -> (r: bool)
        ensures
            r == self.all_dead(),
    {
        let mut i: usize = 0;
        while i < self.cells.len()
            invariant
                i <= self.cells@.len(),
                forall|k: int| 0 <= k < i ==> !(#[trigger] self.cells@[k]).alive_current,
            decreases self.cells@.len() - i,
        {
            if self.cells[i].alive_current {
                return false;
            }
            i = i + 1;
        }
        true
    }

    /// Whether the chunk lies in the drawn rectangle whose corner is chunk `(vx, vy)`.
    pub fn within_viewport(&self, vx: i32, vy: i32) -> (r: bool)
        ensures
            r == self.in_viewport(vx as int, vy as int),
    {
        let x = self.x as i64;
        let y = self.y as i64;
        vx as i64 <= x && x < vx as i64 + CHUNKS_TO_DRAW as i64 && vy as i64 <= y && y
            < vy as i64 + CHUNKS_TO_DRAW as i64
    }

    /// Sets the current state of cell `idx`, leaving every other cell as it was.
    pub fn set_alive(&mut self, idx: usize, alive: bool)
        requires
            old(self).wf(),
            idx < CHUNK_AREA,
        ensures
            final(self).wf(),
            final(self).x == old(self).x,
            final(self).y == old(self).y,
            final(self).cells@ == old(self).cells@.update(
                idx as int,
                Cell { alive_current: alive, ..old(self).cells@[idx as int] },
            ),
    {
        let c = self.cells[idx];
        self.cells.set(idx, Cell { alive_current: alive, ..c });
    }

    /// Moves every cell's next state into its current state and clears the next state.
    pub fn swap_buffers(&mut self)
        ensures
            final(self).x == old(self).x,
            final(self).y == old(self).y,
            final(self).cells@.len() == old(self).cells@.len(),
            forall|k: int|
                0 <= k < old(self).cells@.len() ==> #[trigger] final(self).cells@[k] == (Cell {
                    alive_current: old(self).cells@[k].alive_next,
                    alive_next: false,
                }),
    {
        let mut k: usize = 0;
        while k < self.cells.len()
            invariant
                k <= self.cells@.len(),
                self.x == old(self).x,
                self.y == old(self).y,
                self.cells@.len() == old(self).cells@.len(),
                forall|j: int|
                    0 <= j < k ==> #[trigger] self.cells@[j] == (Cell {
                        alive_current: old(self).cells@[j].alive_next,
                        alive_next: false,
                    }),
                forall|j: int| k <= j < self.cells@.len() ==> #[trigger] self.cells@[j] == old(self).cells@[j],
            decreases self.cells@.len() - k,
        {
            let c = self.cells[k];
            self.cells.set(k, Cell { alive_current: c.alive_next, alive_next: false });
            k = k + 1;
        }
    }

    /// The glyphs of this chunk for a viewport whose corner is chunk `(vx, vy)`.
    pub fn glyphs(&self, vx: i32, vy: i32, out: &mut Vec<Glyph>)
        requires
            self.wf(),
        ensures
            final(out)@ == old(out)@ + chunk_glyphs(*self, vx as int, vy as int),
    {
        let ghost o = out@;
        let bx = (self.x as i64 - vx as i64) * 8;
        let by = (self.y as i64 - vy as i64) * 8;
        let mut k: usize = 0;
        while k < CHUNK_AREA
            invariant
                k <= CHUNK_AREA,
                self.wf(),
                bx == (self.x - vx) * 8,
                by == (self.y - vy) * 8,
                out@ == o + chunk_glyphs(*self, vx as int, vy as int).subrange(0, k as int),
            decreases CHUNK_AREA - k,
        {
            let g = Glyph {
                column: bx + (k % 8) as i64,
                row: by + (k / 8) as i64,
                alive: self.cells[k].alive_current,
            };
            out.push(g);
            assert(chunk_glyphs(*self, vx as int, vy as int).subrange(0, k + 1)
                =~= chunk_glyphs(*self, vx as int, vy as int).subrange(0, k as int).push(g));
            k = k + 1;
        }
        assert(chunk_glyphs(*self, vx as int, vy as int).subrange(0, 64) =~= chunk_glyphs(
            *self,
            vx as int,
            vy as int,
        ));
    }
}

} // verus!
