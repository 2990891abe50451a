//! The grid of chunks, its work queue and the step that advances it one generation.

use std::collections::VecDeque;

use vstd::prelude::*;

use crate::action::{
    lemma_modes_concat, lemma_modes_prefix, lemma_modes_prepend, lemma_qsum_concat,
    lemma_qsum_const, lemma_qsum_prepend, modes_after, qsum, Action,
};
use crate::chunk::{chunk_glyphs, Cell, Chunk, Glyph};
use crate::drain::{
    action_ok, cell_commands, cell_target, chunk_commands, chunk_weight, covered, create_cmd,
    creates_neighbour, drain_inv, drained, lemma_create_new, lemma_drain_init,
    lemma_drain_result, lemma_drop_head, lemma_eval_cell, lemma_eval_chunk, live_cell,
    live_weight, neighbour_chunk, pending, queue_ok,
    requested, swapped, work_weight,
};
use crate::grid::{
    alive_in, chunks_wf, count_upto, created_at, holds, in_range, lemma_frozen,
    lemma_frozen_count, lemma_holds_unique, live_neighbours, present, stepped, wanted,
};
use crate::resolver::{
    chunk_of, global_of, global_position, lemma_global_resolve, local_of, neighbour_offset,
    resolve, CHUNK_AREA,
};

verus! {

/// The glyphs of every chunk of `s` inside the viewport whose corner is chunk
/// `(vx, vy)`, chunk after chunk in the order of `s`.
pub open spec fn frame_of(s: Seq<Chunk>, vx: int, vy: int) -> Seq<Glyph>
    decreases s.len(),
{
    if s.len() == 0 {
        Seq::empty()
    } else {
        frame_of(s.drop_last(), vx, vy) + if s.last().in_viewport(vx, vy) {
            chunk_glyphs(s.last(), vx, vy)
        } else {
            Seq::empty()
        }
    }
}

/// The whole simulation: chunks by coordinate, pending work, and display state.
pub struct Universe {
    pub chunks: Vec<Chunk>,
    pub actions: VecDeque<Action>,
    pub auto: bool,
    pub generation: u64,
    pub vx: i32,
    pub vy: i32,
}

impl Universe {
    /// Chunks are well formed with distinct coordinates, and between steps the
    /// queue holds display commands only.
    pub open spec fn wf(&self) -> bool {
        &&& chunks_wf(self.chunks@)
        &&& forall|n: int| 0 <= n < self.actions@.len() ==> (#[trigger] self.actions@[n]).is_mode()
    }

    /// An empty universe at generation zero, paused, with the viewport at the origin.
    pub fn new() -> (r: Universe)
        ensures
            r.wf(),
            r.chunks@.len() == 0,
            r.actions@.len() == 0,
            !r.auto,
            r.generation == 0,
            r.vx == 0,
            r.vy == 0,
    {
        Universe {
            chunks: Vec::new(),
            actions: VecDeque::new(),
            auto: false,
            generation: 0,
            vx: 0,
            vy: 0,
        }
    }

    /// Index of the chunk at `(x, y)`, if there is one.
    pub fn find_chunk(&self, x: i32, y: i32) -> (r: Option<usize>)
        ensures
            match r {
                Some(i) => holds(self.chunks@, i as int, x as int, y as int),
                None => !present(self.chunks@, x as int, y as int),
            },
    {
        let mut i: usize = 0;
        while i < self.chunks.len()
            invariant
                i <= self.chunks@.len(),
                forall|j: int| 0 <= j < i ==> !holds(self.chunks@, j, x as int, y as int),
            decreases self.chunks@.len() - i,
        {
            if self.chunks[i].x == x && self.chunks[i].y == y {
                return Some(i);
            }
            i = i + 1;
        }
        None
    }

    /// Index of the chunk at `(cx, cy)`; a coordinate outside `i32` never holds a chunk.
    fn find_wide(&self, cx: i64, cy: i64) -> (r: Option<usize>)
        ensures
            match r {
                Some(i) => holds(self.chunks@, i as int, cx as int, cy as int),
                None => !present(self.chunks@, cx as int, cy as int),
            },
    {
        if cx < i32::MIN as i64 || cx > i32::MAX as i64 || cy < i32::MIN as i64 || cy
            > i32::MAX as i64 {
            return None;
        }
        self.find_chunk(cx as i32, cy as i32)
    }

    /// Whether a chunk exists at `(x, y)`.
    pub fn has_chunk(&self, x: i32, y: i32) -> (r: bool)
        ensures
            r == present(self.chunks@, x as int, y as int),
    {
        self.find_chunk(x, y).is_some()
    }

    /// Whether the cell at global position `(gx, gy)` is alive in the current generation.
    pub fn is_alive(&self, gx: i64, gy: i64) -> (r: bool)
        requires
            chunks_wf(self.chunks@),
        ensures
            r == alive_in(self.chunks@, gx as int, gy as int),
    {
        let ((cx, cy), k) = resolve(gx, gy);
        match self.find_wide(cx, cy) {
            Some(i) => {
                let r = self.chunks[i].cells[k].alive_current;
                proof {
                    let c = chunk_of(gx as int, gy as int);
                    if alive_in(self.chunks@, gx as int, gy as int) {
                        let j = choose|j: int|
                            #[trigger] holds(self.chunks@, j, c.0, c.1)
                                && self.chunks@[j].cells@[local_of(
                                gx as int,
                                gy as int,
                            )].alive_current;
                        lemma_holds_unique(self.chunks@, i as int, j, c.0, c.1);
                    }
                    if r {
                        assert(holds(self.chunks@, i as int, c.0, c.1));
                    }
                }
                r
            },
            None => false,
        }
    }

    /// Number of live cells, in the current generation, among the eight neighbours
    /// of cell `idx` of the chunk at `(x, y)`; cells of missing chunks count as dead.
    pub fn check_neighbours(&self, x: i32, y: i32, idx: usize) -> (r: u32)
        requires
            chunks_wf(self.chunks@),
            idx < CHUNK_AREA,
        ensures
            r as int == live_neighbours(
                self.chunks@,
                global_of(x as int, y as int, idx as int).0,
                global_of(x as int, y as int, idx as int).1,
            ),
    {
        let (gx, gy) = global_position(x, y, idx);
        let mut count: u32 = 0;
        let mut j: usize = 0;
        while j < 8
            invariant
                j <= 8,
                chunks_wf(self.chunks@),
                count as int == count_upto(self.chunks@, gx as int, gy as int, j as int),
                count <= j,
                -(i32::MAX as i64) * 8 - 16 <= gx <= (i32::MAX as i64) * 8 + 16,
                -(i32::MAX as i64) * 8 - 16 <= gy <= (i32::MAX as i64) * 8 + 16,
            decreases 8 - j,
        {
            let (dx, dy) = neighbour_offset(j);
            let alive = self.is_alive(gx + dx, gy + dy);
            if alive {
                count = count + 1;
            }
            j = j + 1;
        }
        count
    }

    /// Queues the evaluation of every cell of the chunk at `(x, y)` at the back.
    fn push_cells(&mut self, x: i32, y: i32)
        ensures
            final(self).actions@ == old(self).actions@ + cell_commands(x, y),
            final(self).chunks@ == old(self).chunks@,
            final(self).auto == old(self).auto,
            final(self).generation == old(self).generation,
            final(self).vx == old(self).vx,
            final(self).vy == old(self).vy,
    {
        let ghost q0 = self.actions@;
        let mut k: usize = 0;
        while k < CHUNK_AREA
            invariant
                k <= CHUNK_AREA,
                self.actions@ == q0 + cell_commands(x, y).subrange(0, k as int),
                self.chunks@ == old(self).chunks@,
                self.auto == old(self).auto,
                self.generation == old(self).generation,
                self.vx == old(self).vx,
                self.vy == old(self).vy,
            decreases CHUNK_AREA - k,
        {
            self.actions.push_back(Action::EvaluateCell { x, y, idx: k });
            assert(cell_commands(x, y).subrange(0, k + 1) =~= cell_commands(x, y).subrange(
                0,
                k as int,
            ).push(Action::EvaluateCell { x, y, idx: k }));
            k = k + 1;
        }
        assert(cell_commands(x, y).subrange(0, 64) =~= cell_commands(x, y));
    }

    /// Queues at the front the creation of each missing chunk that holds a neighbour
    /// of cell `idx` of the chunk at `(x, y)`.
    fn request_neighbours(&mut self, x: i32, y: i32, idx: usize)
        requires
            idx < CHUNK_AREA,
        ensures
            final(self).chunks@ == old(self).chunks@,
            final(self).auto == old(self).auto,
            final(self).generation == old(self).generation,
            final(self).vx == old(self).vx,
            final(self).vy == old(self).vy,
            final(self).actions@.len() >= old(self).actions@.len(),
            final(self).actions@ == final(self).actions@.subrange(
                0,
                final(self).actions@.len() - old(self).actions@.len(),
            ) + old(self).actions@,
            forall|n: int|
                0 <= n < final(self).actions@.len() - old(self).actions@.len() ==> creates_neighbour(
                    global_of(x as int, y as int, idx as int).0,
                    global_of(x as int, y as int, idx as int).1,
                    #[trigger] final(self).actions@[n],
                ),
            covered(
                final(self).chunks@,
                final(self).actions@,
                global_of(x as int, y as int, idx as int).0,
                global_of(x as int, y as int, idx as int).1,
            ),
    {
        let ghost q0 = self.actions@;
        let (gx, gy) = global_position(x, y, idx);
        let ghost g = global_of(x as int, y as int, idx as int);
        let mut j: usize = 0;
        while j < 8
            invariant
                j <= 8,
                gx == g.0,
                gy == g.1,
                -(i32::MAX as i64) * 8 - 16 <= gx <= (i32::MAX as i64) * 8 + 16,
                -(i32::MAX as i64) * 8 - 16 <= gy <= (i32::MAX as i64) * 8 + 16,
                self.chunks@ == old(self).chunks@,
                self.auto == old(self).auto,
                self.generation == old(self).generation,
                self.vx == old(self).vx,
                self.vy == old(self).vy,
                self.actions@.len() >= q0.len(),
                self.actions@ == self.actions@.subrange(0, self.actions@.len() - q0.len()) + q0,
                forall|n: int|
                    0 <= n < self.actions@.len() - q0.len() ==> creates_neighbour(
                        g.0,
                        g.1,
                        #[trigger] self.actions@[n],
                    ),
                forall|j2: int|
                    0 <= j2 < j ==> requested(
                        self.chunks@,
                        self.actions@,
                        #[trigger] neighbour_chunk(g.0, g.1, j2),
                    ),
            decreases 8 - j,
        {
            let (dx, dy) = neighbour_offset(j);
            let ((cx, cy), _k) = resolve(gx + dx, gy + dy);
            let ghost c = neighbour_chunk(g.0, g.1, j as int);
            if cx >= i32::MIN as i64 && cx <= i32::MAX as i64 && cy >= i32::MIN as i64 && cy
                <= i32::MAX as i64 {
                if self.find_chunk(cx as i32, cy as i32).is_none() {
                    let a = Action::CreateChunk { x: cx as i32, y: cy as i32 };
                    let ghost before = self.actions@;
                    self.actions.push_front(a);
                    proof {
                        let p = before.len() - q0.len();
                        assert(self.actions@ =~= self.actions@.subrange(0, p + 1) + q0);
                        assert(self.actions@[0] == a);
                        assert forall|n: int|
                            0 <= n < self.actions@.len() - q0.len() implies creates_neighbour(
                            g.0,
                            g.1,
                            #[trigger] self.actions@[n],
                        ) by {
                            if n == 0 {
                                assert(in_range(neighbour_chunk(g.0, g.1, j as int)));
                                assert(self.actions@[n] == create_cmd(
                                    neighbour_chunk(g.0, g.1, j as int),
                                ));
                            } else {
                                assert(self.actions@[n] == before[n - 1]);
                            }
                        }
                        assert forall|j2: int| 0 <= j2 <= j implies requested(
                            self.chunks@,
                            self.actions@,
                            #[trigger] neighbour_chunk(g.0, g.1, j2),
                        ) by {
                            let c2 = neighbour_chunk(g.0, g.1, j2);
                            if j2 == j {
                                assert(self.actions@[0] == a);
                            } else if in_range(c2) && !present(self.chunks@, c2.0, c2.1) {
                                let m = choose|m: int|
                                    0 <= m < before.len() && before[m] == create_cmd(c2);
                                assert(self.actions@[m + 1] == before[m]);
                            }
                        }
                    }
                }
            }
            j = j + 1;
        }
        assert(q0 == old(self).actions@);
        assert(self.actions@ == self.actions@.subrange(0, self.actions@.len() - q0.len()) + q0);
    }

    /// Writes `v` as the next state of cell `idx` of chunk `i`.
    fn set_next(&mut self, i: usize, idx: usize, v: bool)
        requires
            i < old(self).chunks@.len(),
            old(self).chunks@[i as int].wf(),
            idx < CHUNK_AREA,
        ensures
            final(self).chunks@.len() == old(self).chunks@.len(),
            forall|j: int|
                0 <= j < old(self).chunks@.len() && j != i ==> #[trigger] final(self).chunks@[j]
                    == old(self).chunks@[j],
            final(self).chunks@[i as int].x == old(self).chunks@[i as int].x,
            final(self).chunks@[i as int].y == old(self).chunks@[i as int].y,
            final(self).chunks@[i as int].cells@ == old(self).chunks@[i as int].cells@.update(
                idx as int,
                Cell { alive_next: v, ..old(self).chunks@[i as int].cells@[idx as int] },
            ),
            final(self).actions@ == old(self).actions@,
            final(self).auto == old(self).auto,
            final(self).generation == old(self).generation,
            final(self).vx == old(self).vx,
            final(self).vy == old(self).vy,
    {
        let c = self.chunks[i].cells[idx];
        self.chunks[i].cells.set(idx, Cell { alive_next: v, ..c });
    }

    /// Drains the queue, then swaps the buffers: creates the chunks asked for and
    /// those that live cells need, evaluates the queued cells, carries out the
    /// display commands in order, and moves every next state into the current one.
    pub fn execute_actions(&mut self)
        requires
            chunks_wf(old(self).chunks@),
            queue_ok(old(self).chunks@, old(self).actions@),
        ensures
            drained(old(self).chunks@, old(self).actions@, final(self).chunks@),
            final(self).actions@.len() == 0,
            (final(self).vx, final(self).vy, final(self).auto) == modes_after(
                old(self).actions@,
                old(self).vx,
                old(self).vy,
                old(self).auto,
            ),
            final(self).generation == old(self).generation,
    {
        let ghost g0 = self.chunks@;
        let ghost q0 = self.actions@;
        let ghost m0 = modes_after(self.actions@, self.vx, self.vy, self.auto);
        proof {
            lemma_drain_init(g0, q0);
        }
        loop
            invariant
                drain_inv(g0, q0, self.chunks@, self.actions@),
                modes_after(self.actions@, self.vx, self.vy, self.auto) == m0,
                self.generation == old(self).generation,
                g0 == old(self).chunks@,
                m0 == modes_after(old(self).actions@, old(self).vx, old(self).vy, old(self).auto),
                q0 == old(self).actions@,
            ensures
                drain_inv(g0, q0, self.chunks@, Seq::<Action>::empty()),
                self.actions@.len() == 0,
                modes_after(self.actions@, self.vx, self.vy, self.auto) == m0,
                self.generation == old(self).generation,
            decreases
                qsum(self.actions@, chunk_weight(g0)),
                qsum(self.actions@, live_weight(g0)),
                qsum(self.actions@, work_weight()),
        {
            let ghost q = self.actions@;
            let ghost s = self.chunks@;
            let ghost e0 = qsum(q, chunk_weight(g0));
            let ghost l0 = qsum(q, live_weight(g0));
            let ghost w0 = qsum(q, work_weight());
            match self.actions.pop_front() {
                None => {
                    proof {
                        assert(self.actions@ =~= Seq::<Action>::empty());
                        assert(modes_after(self.actions@, self.vx, self.vy, self.auto) == (
                            self.vx,
                            self.vy,
                            self.auto,
                        ));
                    }
                    break;
                },
                Some(a) => {
                    let ghost rest = self.actions@;
                    proof {
                        assert(q =~= seq![a] + rest);
                        lemma_qsum_prepend(rest, a, chunk_weight(g0));
                        lemma_qsum_prepend(rest, a, live_weight(g0));
                        lemma_qsum_prepend(rest, a, work_weight());
                        lemma_modes_prepend(rest, a, self.vx, self.vy, self.auto);
                        assert(action_ok(g0, q0, s, q[0]));
                    }
                    match a {
                        Action::CreateChunk { x, y } => {
                            if self.create_chunk(x, y) {
                                let ghost c = self.chunks@.last();
                                proof {
                                    assert(self.chunks@ =~= s.push(c));
                                    assert(c.wf());
                                }
                                let b = Action::EvaluateChunk { x, y };
                                self.actions.push_front(b);
                                proof {
                                    lemma_create_new(g0, q0, s, c, x, y, rest);
                                    lemma_qsum_prepend(rest, b, chunk_weight(g0));
                                    lemma_qsum_prepend(rest, b, live_weight(g0));
                                    lemma_qsum_prepend(rest, b, work_weight());
                                    lemma_modes_prepend(rest, b, self.vx, self.vy, self.auto);
                                    lemma_frozen(g0, s, x as int, y as int);
                                }
                            } else {
                                proof {
                                    lemma_drop_head(g0, q0, s, a, rest);
                                }
                            }
                        },
                        Action::EvaluateChunk { x, y } => {
                            match self.find_chunk(x, y) {
                                Some(_) => {
                                    self.push_cells(x, y);
                                    proof {
                                        lemma_eval_chunk(g0, q0, s, x, y, rest);
                                        let cells = cell_commands(x, y);
                                        lemma_qsum_concat(rest, cells, chunk_weight(g0));
                                        lemma_qsum_concat(rest, cells, live_weight(g0));
                                        lemma_qsum_concat(rest, cells, work_weight());
                                        lemma_qsum_const(cells, chunk_weight(g0), 0);
                                        lemma_qsum_const(cells, work_weight(), 1);
                                        if !present(g0, x as int, y as int) {
                                            assert forall|n: int| 0 <= n < cells.len() implies (
                                            #[trigger] live_weight(g0)(cells[n])) == 0nat by {
                                                if live_cell(g0, x as int, y as int, n) {
                                                    let i = choose|i: int| #[trigger] holds(
                                                        g0,
                                                        i,
                                                        x as int,
                                                        y as int,
                                                    ) && g0[i].cells@[n].alive_current;
                                                }
                                            }
                                            lemma_qsum_const(cells, live_weight(g0), 0);
                                        }
                                        lemma_modes_concat(rest, cells, self.vx, self.vy, self.auto);
                                    }
                                },
                                None => {
                                    // unreachable: the invariant keeps every queued
                                    // evaluation on an existing chunk
                                    self.actions.push_front(Action::CreateChunk { x, y });
                                },
                            }
                        },
                        Action::EvaluateCell { x, y, idx } => {
                            match self.find_chunk(x, y) {
                                Some(i) => {
                                    let alive = self.chunks[i].cells[idx].alive_current;
                                    if alive {
                                        self.request_neighbours(x, y, idx);
                                    }
                                    let ghost q2 = self.actions@;
                                    let ghost p = q2.subrange(0, q2.len() - rest.len());
                                    let n = self.check_neighbours(x, y, idx);
                                    let next = n == 3 || (n == 2 && alive);
                                    proof {
                                        let g = global_of(x as int, y as int, idx as int);
                                        lemma_global_resolve(x as int, y as int, idx as int);
                                        lemma_frozen(g0, s, g.0, g.1);
                                        lemma_frozen_count(g0, s, g.0, g.1);
                                        let cg = chunk_of(g.0, g.1);
                                        assert(holds(s, i as int, cg.0, cg.1));
                                        if alive_in(s, g.0, g.1) {
                                            let i2 = choose|i2: int| #[trigger] holds(s, i2, cg.0, cg.1)
                                                && s[i2].cells@[local_of(g.0, g.1)].alive_current;
                                            lemma_holds_unique(s, i as int, i2, cg.0, cg.1);
                                        }
                                        assert(alive == alive_in(g0, g.0, g.1));
                                        assert(next == cell_target(g0, x, y, idx as int));
                                        if !alive {
                                            assert(q2 =~= rest);
                                            assert(p.len() == 0);
                                        }
                                        assert(q2 =~= p + rest);
                                    }
                                    self.set_next(i, idx, next);
                                    proof {
                                        lemma_eval_cell(g0, q0, s, self.chunks@, i as int, idx, p, rest);
                                        lemma_qsum_concat(p, rest, chunk_weight(g0));
                                        lemma_qsum_concat(p, rest, live_weight(g0));
                                        lemma_qsum_concat(p, rest, work_weight());
                                        assert forall|m: int| 0 <= m < p.len() implies (
                                        #[trigger] chunk_weight(g0)(p[m])) == 0nat && live_weight(
                                            g0,
                                        )(p[m]) == 0nat && !p[m].is_mode() by {
                                            assert(p[m] == q2[m]);
                                        }
                                        lemma_qsum_const(p, chunk_weight(g0), 0);
                                        lemma_qsum_const(p, live_weight(g0), 0);
                                        lemma_modes_prefix(p, rest, self.vx, self.vy, self.auto);
                                        if alive {
                                            let g = global_of(x as int, y as int, idx as int);
                                            assert(i < g0.len()) by {
                                                if i >= g0.len() {
                                                    assert(!s[i as int].cells@[idx as int].alive_current);
                                                }
                                            }
                                            assert(holds(g0, i as int, x as int, y as int));
                                            assert(live_cell(g0, x as int, y as int, idx as int));
                                        }
                                    }
                                },
                                None => {},
                            }
                        },
                        Action::PanViewport { dx, dy } => {
                            self.vx = self.vx.wrapping_add(dx);
                            self.vy = self.vy.wrapping_add(dy);
                            proof {
                                lemma_drop_head(g0, q0, s, a, rest);
                            }
                        },
                        Action::ToggleAutoRun => {
                            self.auto = !self.auto;
                            proof {
                                lemma_drop_head(g0, q0, s, a, rest);
                            }
                        },
                    }
                },
            }
        }
        let ghost s1 = self.chunks@;
        self.swap_buffers();
        proof {
            lemma_drain_result(g0, q0, s1, self.chunks@);
        }
    }

    /// Moves each cell's next state into its current state, in every chunk.
    fn swap_buffers(&mut self)
        ensures
            swapped(old(self).chunks@, final(self).chunks@),
            final(self).actions@ == old(self).actions@,
            final(self).auto == old(self).auto,
            final(self).generation == old(self).generation,
            final(self).vx == old(self).vx,
            final(self).vy == old(self).vy,
    {
        let mut i: usize = 0;
        while i < self.chunks.len()
            invariant
                i <= self.chunks@.len(),
                self.chunks@.len() == old(self).chunks@.len(),
                forall|j: int|
                    0 <= j < i ==> (#[trigger] self.chunks@[j]).x == old(self).chunks@[j].x
                        && self.chunks@[j].y == old(self).chunks@[j].y
                        && self.chunks@[j].cells@.len() == old(self).chunks@[j].cells@.len(),
                forall|j: int, k: int|
                    0 <= j < i && 0 <= k < old(self).chunks@[j].cells@.len()
                        ==> #[trigger] self.chunks@[j].cells@[k] == (Cell {
                        alive_current: old(self).chunks@[j].cells@[k].alive_next,
                        alive_next: false,
                    }),
                forall|j: int| i <= j < self.chunks@.len() ==> #[trigger] self.chunks@[j] == old(self).chunks@[j],
                self.actions@ == old(self).actions@,
                self.auto == old(self).auto,
                self.generation == old(self).generation,
                self.vx == old(self).vx,
                self.vy == old(self).vy,
            decreases self.chunks@.len() - i,
        {
            self.chunks[i].swap_buffers();
            i = i + 1;
        }
    }

    /// Advances the universe one generation: every chunk is evaluated, chunks are
    /// created where live cells reach into missing ones, the display commands
    /// queued before are carried out, and the buffers are swapped.
    pub fn step(&mut self)
        requires
            old(self).wf(),
            old(self).generation < u64::MAX,
        ensures
            final(self).wf(),
            final(self).generation == old(self).generation + 1,
            final(self).actions@.len() == 0,
            (final(self).vx, final(self).vy, final(self).auto) == modes_after(
                old(self).actions@,
                old(self).vx,
                old(self).vy,
                old(self).auto,
            ),
            stepped(old(self).chunks@, final(self).chunks@),
            forall|i: int, k: int|
                0 <= i < final(self).chunks@.len() && 0 <= k < CHUNK_AREA
                    ==> !(#[trigger] final(self).chunks@[i].cells@[k]).alive_next,
    {
        let ghost s0 = self.chunks@;
        let ghost q0 = self.actions@;
        let mut i: usize = 0;
        while i < self.chunks.len()
            invariant
                i <= self.chunks@.len(),
                self.chunks@ == s0,
                self.actions@ == q0 + chunk_commands(s0).subrange(0, i as int),
                self.auto == old(self).auto,
                self.generation == old(self).generation,
                self.vx == old(self).vx,
                self.vy == old(self).vy,
            decreases self.chunks@.len() - i,
        {
            let a = Action::EvaluateChunk { x: self.chunks[i].x, y: self.chunks[i].y };
            self.actions.push_back(a);
            assert(chunk_commands(s0).subrange(0, i + 1) =~= chunk_commands(s0).subrange(
                0,
                i as int,
            ).push(a));
            i = i + 1;
        }
        proof {
            let q = self.actions@;
            assert(chunk_commands(s0).subrange(0, s0.len() as int) =~= chunk_commands(s0));
            assert forall|n: int| 0 <= n < chunk_commands(s0).len() implies !(
            #[trigger] chunk_commands(s0)[n]).is_mode() by {}
            lemma_modes_concat(q0, chunk_commands(s0), self.vx, self.vy, self.auto);
            assert forall|n: int| 0 <= n < q.len() implies (#[trigger] q[n]).is_mode() || q[n]
                is EvaluateChunk by {
                if n >= q0.len() {
                    assert(q[n] == chunk_commands(s0)[n - q0.len()]);
                }
            }
            assert forall|n: int| 0 <= n < q.len() implies match #[trigger] q[n] {
                Action::EvaluateChunk { x, y } => present(s0, x as int, y as int),
                Action::EvaluateCell { x, y, idx } => present(s0, x as int, y as int) && idx
                    < CHUNK_AREA,
                _ => true,
            } by {
                if n >= q0.len() {
                    let i = n - q0.len();
                    assert(q[n] == chunk_commands(s0)[i]);
                    assert(holds(s0, i, s0[i].x as int, s0[i].y as int));
                }
            }
            assert forall|i: int, k: int| 0 <= i < s0.len() && 0 <= k < 64 implies #[trigger] pending(
                q,
                s0[i].x,
                s0[i].y,
                k,
            ) by {
                assert(q[q0.len() + i] == Action::EvaluateChunk { x: s0[i].x, y: s0[i].y });
            }
            assert forall|x: i32, y: i32| !q.contains(Action::CreateChunk { x, y }) by {
                if q.contains(Action::CreateChunk { x, y }) {
                    let n = choose|n: int| 0 <= n < q.len() && q[n] == Action::CreateChunk { x, y };
                    assert(q[n].is_mode() || q[n] is EvaluateChunk);
                }
            }
        }
        self.execute_actions();
        self.generation = self.generation + 1;
        proof {
            let t = self.chunks@;
            assert forall|cx: int, cy: int| in_range((cx, cy)) implies (#[trigger] present(
                t,
                cx,
                cy,
            ) <==> present(s0, cx, cy) || wanted(s0, cx, cy)) by {
                if present(s0, cx, cy) {
                    let i = choose|i: int| holds(s0, i, cx, cy);
                    assert(holds(t, i, cx, cy));
                }
            }
        }
    }

    /// Makes sure a chunk exists at `(x, y)`: a missing one is appended, all dead;
    /// an existing one is left as it is. Returns whether a chunk was created.
    pub fn create_chunk(&mut self, x: i32, y: i32) -> (created: bool)
        ensures
            created == !present(old(self).chunks@, x as int, y as int),
            created_at(old(self).chunks@, x as int, y as int, final(self).chunks@),
            present(final(self).chunks@, x as int, y as int),
            final(self).actions@ == old(self).actions@,
            final(self).auto == old(self).auto,
            final(self).generation == old(self).generation,
            final(self).vx == old(self).vx,
            final(self).vy == old(self).vy,
    {
        match self.find_chunk(x, y) {
            Some(_) => false,
            None => {
                let ghost s = self.chunks@;
                let c = Chunk::new(x, y);
                self.chunks.push(c);
                proof {
                    assert(holds(self.chunks@, self.chunks@.len() - 1, x as int, y as int));
                    assert(self.chunks@.drop_last() =~= s);
                    assert(self.chunks@.last() == c);
                }
                true
            },
        }
    }

    /// Places `chunk` in the universe, replacing the chunk with the same coordinate
    /// if there is one.
    pub fn insert_chunk(&mut self, chunk: Chunk)
        requires
            chunks_wf(old(self).chunks@),
            chunk.wf(),
        ensures
            chunks_wf(final(self).chunks@),
            present(old(self).chunks@, chunk.x as int, chunk.y as int) ==> exists|i: int|
                #[trigger] holds(old(self).chunks@, i, chunk.x as int, chunk.y as int)
                    && final(self).chunks@ == old(self).chunks@.update(i, chunk),
            !present(old(self).chunks@, chunk.x as int, chunk.y as int) ==> final(self).chunks@
                == old(self).chunks@.push(chunk),
            final(self).actions@ == old(self).actions@,
            final(self).auto == old(self).auto,
            final(self).generation == old(self).generation,
            final(self).vx == old(self).vx,
            final(self).vy == old(self).vy,
    {
        let ghost s = self.chunks@;
        match self.find_chunk(chunk.x, chunk.y) {
            Some(i) => {
                self.chunks.set(i, chunk);
                proof {
                    let t = self.chunks@;
                    assert forall|j: int, j2: int|
                        0 <= j < t.len() && 0 <= j2 < t.len() && j != j2 implies !(
                        #[trigger] t[j].x == #[trigger] t[j2].x && t[j].y == t[j2].y) by {
                        assert(t[j].x == s[j].x && t[j].y == s[j].y);
                        assert(t[j2].x == s[j2].x && t[j2].y == s[j2].y);
                    }
                    assert(holds(s, i as int, chunk.x as int, chunk.y as int));
                }
            },
            None => {
                self.chunks.push(chunk);
                proof {
                    let t = self.chunks@;
                    assert forall|j: int, j2: int|
                        0 <= j < t.len() && 0 <= j2 < t.len() && j != j2 implies !(
                        #[trigger] t[j].x == #[trigger] t[j2].x && t[j].y == t[j2].y) by {
                        if j == s.len() {
                            assert(!holds(s, j2, chunk.x as int, chunk.y as int));
                        } else if j2 == s.len() {
                            assert(!holds(s, j, chunk.x as int, chunk.y as int));
                        } else {
                            assert(t[j] == s[j] && t[j2] == s[j2]);
                        }
                    }
                    assert forall|j: int| 0 <= j < t.len() implies (#[trigger] t[j]).wf() by {
                        if j < s.len() {
                            assert(t[j] == s[j]);
                        }
                    }
                }
            },
        }
    }

    /// Queues a move of the viewport by `(dx, dy)` chunks, carried out at the next step.
    pub fn pan_viewport(&mut self, dx: i32, dy: i32)
        requires
            old(self).wf(),
        ensures
            final(self).wf(),
            final(self).actions@ == old(self).actions@.push(Action::PanViewport { dx, dy }),
            final(self).chunks@ == old(self).chunks@,
            final(self).auto == old(self).auto,
            final(self).generation == old(self).generation,
            final(self).vx == old(self).vx,
            final(self).vy == old(self).vy,
    {
        self.actions.push_back(Action::PanViewport { dx, dy });
    }

    /// Queues a switch of automatic stepping, carried out at the next step.
    pub fn toggle_auto_run(&mut self)
        requires
            old(self).wf(),
        ensures
            final(self).wf(),
            final(self).actions@ == old(self).actions@.push(Action::ToggleAutoRun),
            final(self).chunks@ == old(self).chunks@,
            final(self).auto == old(self).auto,
            final(self).generation == old(self).generation,
            final(self).vx == old(self).vx,
            final(self).vy == old(self).vy,
    {
        self.actions.push_back(Action::ToggleAutoRun);
    }

    /// What the display shows: the cells of each chunk inside the viewport, with
    /// their screen position.
    pub fn render(&self) -> (r: Vec<Glyph>)
        requires
            chunks_wf(self.chunks@),
        ensures
            r@ == frame_of(self.chunks@, self.vx as int, self.vy as int),
    {
        let mut out: Vec<Glyph> = Vec::new();
        let mut i: usize = 0;
        while i < self.chunks.len()
            invariant
                i <= self.chunks@.len(),
                chunks_wf(self.chunks@),
                out@ == frame_of(self.chunks@.subrange(0, i as int), self.vx as int, self.vy as int),
            decreases self.chunks@.len() - i,
        {
            let ghost before = out@;
            if self.chunks[i].within_viewport(self.vx, self.vy) {
                self.chunks[i].glyphs(self.vx, self.vy, &mut out);
            }
            proof {
                let sub = self.chunks@.subrange(0, i + 1);
                assert(sub.drop_last() =~= self.chunks@.subrange(0, i as int));
                assert(sub.last() == self.chunks@[i as int]);
                if !self.chunks@[i as int].in_viewport(self.vx as int, self.vy as int) {
                    assert(out@ =~= before + Seq::<Glyph>::empty());
                }
            }
            i = i + 1;
        }
        assert(self.chunks@.subrange(0, self.chunks@.len() as int) =~= self.chunks@);
        out
    }
}

} // verus!
