//! Properties of the step and of chunk creation, stated over their contracts.

use vstd::prelude::*;

use crate::chunk::Chunk;
use crate::grid::{
    alive_in, chunks_wf, created_at, holds, in_range, lemma_live_neighbours_unfold, life_rule,
    next_alive, present, stepped, wanted,
};
use crate::resolver::{chunk_of, offset_x, offset_y};

verus! {

/// A step of a universe without chunks creates none.
pub proof fn lemma_empty_step(s: Seq<Chunk>, t: Seq<Chunk>)
    requires
        s.len() == 0,
        stepped(s, t),
    ensures
        t.len() == 0,
{
    if t.len() > 0 {
        let c = (t[0].x as int, t[0].y as int);
        assert(holds(t, 0, c.0, c.1));
        assert(present(t, c.0, c.1));
        assert(in_range(c));
        if wanted(s, c.0, c.1) {
            let (gx, gy, j) = choose|gx: int, gy: int, j: int|
                0 <= j < 8 && #[trigger] alive_in(s, gx, gy) && #[trigger] chunk_of(
                    gx + offset_x(j),
                    gy + offset_y(j),
                ) == c;
            let cg = chunk_of(gx, gy);
            let i = choose|i: int| #[trigger] holds(s, i, cg.0, cg.1)
                && s[i].cells@[crate::resolver::local_of(gx, gy)].alive_current;
        }
        if present(s, c.0, c.1) {
            let i = choose|i: int| holds(s, i, c.0, c.1);
        }
    }
}

/// Creating the same chunk twice leaves one chunk at that coordinate, and the
/// second creation changes nothing; a chunk that already existed keeps its cells.
pub proof fn lemma_create_twice(s: Seq<Chunk>, x: int, y: int, t1: Seq<Chunk>, t2: Seq<Chunk>)
    requires
        chunks_wf(s),
        created_at(s, x, y, t1),
        created_at(t1, x, y, t2),
    ensures
        t2 == t1,
        present(s, x, y) ==> t1 == s,
        present(t2, x, y),
        forall|i: int, j: int| holds(t2, i, x, y) && holds(t2, j, x, y) ==> i == j,
{
    if present(s, x, y) {
        assert(present(t1, x, y));
        let i = choose|i: int| holds(s, i, x, y);
        assert forall|i1: int, j1: int| holds(t2, i1, x, y) && holds(t2, j1, x, y) implies i1
            == j1 by {
            if i1 != j1 {
                assert(s[i1].x == s[j1].x);
            }
        }
    } else {
        assert(holds(t1, s.len() as int, x, y));
        assert(present(t1, x, y));
        assert forall|i1: int, j1: int| holds(t2, i1, x, y) && holds(t2, j1, x, y) implies i1
            == j1 by {
            if i1 < s.len() {
                assert(t1[i1] == s[i1]);
                assert(holds(s, i1, x, y));
            }
            if j1 < s.len() {
                assert(t1[j1] == s[j1]);
                assert(holds(s, j1, x, y));
            }
        }
    }
}

/// A cell at least one cell away from every edge of its chunk has all its
/// neighbours in that chunk.
pub proof fn lemma_interior_neighbours(gx: int, gy: int, j: int)
    requires
        1 <= gx % 8 <= 6,
        1 <= gy % 8 <= 6,
        0 <= j < 8,
    ensures
        chunk_of(gx + offset_x(j), gy + offset_y(j)) == chunk_of(gx, gy),
{
    let dx = offset_x(j);
    let dy = offset_y(j);
    assert(-1 <= dx <= 1 && -1 <= dy <= 1);
    assert((gx + dx) / 8 == gx / 8) by {
        assert(gx == (gx / 8) * 8 + gx % 8);
        assert(gx + dx == (gx / 8) * 8 + (gx % 8 + dx));
        assert(0 <= gx % 8 + dx < 8);
        vstd::arithmetic::div_mod::lemma_fundamental_div_mod_converse(
            gx + dx,
            8,
            gx / 8,
            gx % 8 + dx,
        );
    }
    assert((gy + dy) / 8 == gy / 8) by {
        assert(gy == (gy / 8) * 8 + gy % 8);
        assert(gy + dy == (gy / 8) * 8 + (gy % 8 + dy));
        assert(0 <= gy % 8 + dy < 8);
        vstd::arithmetic::div_mod::lemma_fundamental_div_mod_converse(
            gy + dy,
            8,
            gy / 8,
            gy % 8 + dy,
        );
    }
}

/// When no live cell touches the edge of its chunk, a step creates no chunk and
/// keeps every chunk in its place.
pub proof fn lemma_growth_containment(s: Seq<Chunk>, t: Seq<Chunk>)
    requires
        chunks_wf(s),
        stepped(s, t),
        forall|gx: int, gy: int|
            #[trigger] alive_in(s, gx, gy) ==> 1 <= gx % 8 <= 6 && 1 <= gy % 8 <= 6,
    ensures
        t.len() == s.len(),
        forall|i: int| 0 <= i < s.len() ==> (#[trigger] t[i]).x == s[i].x && t[i].y == s[i].y,
{
    if t.len() > s.len() {
        let j = s.len() as int;
        let c = (t[j].x as int, t[j].y as int);
        assert(holds(t, j, c.0, c.1));
        assert(in_range(c));
        assert(present(t, c.0, c.1));
        if wanted(s, c.0, c.1) {
            let (gx, gy, jj) = choose|gx: int, gy: int, jj: int|
                0 <= jj < 8 && #[trigger] alive_in(s, gx, gy) && #[trigger] chunk_of(
                    gx + offset_x(jj),
                    gy + offset_y(jj),
                ) == c;
            lemma_interior_neighbours(gx, gy, jj);
            let cg = chunk_of(gx, gy);
            let i = choose|i: int| #[trigger] holds(s, i, cg.0, cg.1)
                && s[i].cells@[crate::resolver::local_of(gx, gy)].alive_current;
            assert(holds(s, i, c.0, c.1));
        }
        assert(present(s, c.0, c.1));
        let i = choose|i: int| holds(s, i, c.0, c.1);
        assert(t[i].x == s[i].x && t[i].y == s[i].y);
        assert(t[i].x == t[j].x && t[i].y == t[j].y);
    }
}


/// `(gx, gy)` lies in the two-by-two block whose top left cell is `(a, b)`.
pub open spec fn in_block(a: int, b: int, gx: int, gy: int) -> bool {
    a <= gx <= a + 1 && b <= gy <= b + 1
}

/// `(gx, gy)` lies on the horizontal line of three cells centred on `(a, b)`.
pub open spec fn in_row(a: int, b: int, gx: int, gy: int) -> bool {
    gy == b && a - 1 <= gx <= a + 1
}

/// `(gx, gy)` lies on the vertical line of three cells centred on `(a, b)`.
pub open spec fn in_column(a: int, b: int, gx: int, gy: int) -> bool {
    gx == a && b - 1 <= gy <= b + 1
}

/// Live cells of phase `k` (taken modulo four) of a glider moving towards
/// increasing coordinates, whose bounding box starts at `(a, b)`.
pub open spec fn glider_cells(k: int, a: int, b: int, gx: int, gy: int) -> bool {
    let x = gx - a;
    let y = gy - b;
    if k % 4 == 0 {
        (x == 1 && y == 0) || (x == 2 && y == 1) || (x == 0 && y == 2) || (x == 1 && y == 2) || (x
            == 2 && y == 2)
    } else if k % 4 == 1 {
        (x == 0 && y == 1) || (x == 2 && y == 1) || (x == 1 && y == 2) || (x == 2 && y == 2) || (x
            == 1 && y == 3)
    } else if k % 4 == 2 {
        (x == 2 && y == 1) || (x == 0 && y == 2) || (x == 2 && y == 2) || (x == 1 && y == 3) || (x
            == 2 && y == 3)
    } else {
        (x == 1 && y == 1) || (x == 2 && y == 2) || (x == 3 && y == 2) || (x == 1 && y == 3) || (x
            == 2 && y == 3)
    }
}

/// Live cells of the five-cell seed whose rows read `X..`, `..X`, `XXX` from `(a, b)`.
pub open spec fn hook_cells(a: int, b: int, gx: int, gy: int) -> bool {
    let x = gx - a;
    let y = gy - b;
    (x == 0 && y == 0) || (x == 2 && y == 1) || (x == 0 && y == 2) || (x == 1 && y == 2) || (x == 2
        && y == 2)
}

/// Number of the eight neighbours of `(gx, gy)` that satisfy `p`.
pub open spec fn pattern_count(p: spec_fn(int, int) -> bool, gx: int, gy: int) -> int {
    (if p(gx - 1, gy - 1) { 1int } else { 0 }) + (if p(gx, gy - 1) { 1int } else { 0 }) + (if p(
        gx + 1,
        gy - 1,
    ) {
        1int
    } else {
        0
    }) + (if p(gx - 1, gy) { 1int } else { 0 }) + (if p(gx + 1, gy) { 1int } else { 0 }) + (if p(
        gx - 1,
        gy + 1,
    ) {
        1int
    } else {
        0
    }) + (if p(gx, gy + 1) { 1int } else { 0 }) + (if p(gx + 1, gy + 1) { 1int } else { 0 })
}

/// A cell of a chunk coordinate out of range is never alive.
proof fn lemma_out_of_range_dead(s: Seq<Chunk>, gx: int, gy: int)
    requires
        !in_range(chunk_of(gx, gy)),
    ensures
        !alive_in(s, gx, gy),
{
    if alive_in(s, gx, gy) {
        let c = chunk_of(gx, gy);
        let i = choose|i: int| #[trigger] holds(s, i, c.0, c.1)
            && s[i].cells@[crate::resolver::local_of(gx, gy)].alive_current;
    }
}

/// Floor division by the chunk size keeps the order of coordinates.
proof fn lemma_chunk_of_monotone(x0: int, y0: int, x1: int, y1: int)
    ensures
        x0 <= x1 ==> chunk_of(x0, y0).0 <= chunk_of(x1, y1).0,
        y0 <= y1 ==> chunk_of(x0, y0).1 <= chunk_of(x1, y1).1,
{
    if x0 <= x1 {
        vstd::arithmetic::div_mod::lemma_div_is_ordered(x0, x1, 8);
    }
    if y0 <= y1 {
        vstd::arithmetic::div_mod::lemma_div_is_ordered(y0, y1, 8);
    }
}

/// When the live cells of `s` are those of pattern `p`, and Conway's rule applied
/// to `p` gives pattern `q` inside an in-range box, the live cells after a step
/// are those of `q`.
proof fn lemma_pattern_step(
    s: Seq<Chunk>,
    t: Seq<Chunk>,
    p: spec_fn(int, int) -> bool,
    q: spec_fn(int, int) -> bool,
    x0: int,
    y0: int,
    x1: int,
    y1: int,
)
    requires
        stepped(s, t),
        in_range(chunk_of(x0, y0)),
        in_range(chunk_of(x1, y1)),
        forall|gx: int, gy: int| #[trigger] alive_in(s, gx, gy) == p(gx, gy),
        forall|gx: int, gy: int| #[trigger] q(gx, gy) ==> x0 <= gx <= x1 && y0 <= gy <= y1,
        forall|gx: int, gy: int|
            life_rule(p(gx, gy), pattern_count(p, gx, gy)) == #[trigger] q(gx, gy),
    ensures
        forall|gx: int, gy: int| #[trigger] alive_in(t, gx, gy) == q(gx, gy),
{
    assert forall|gx: int, gy: int| #[trigger] alive_in(t, gx, gy) == q(gx, gy) by {
        if in_range(chunk_of(gx, gy)) {
            lemma_live_neighbours_unfold(s, gx, gy);
            assert(alive_in(s, gx - 1, gy - 1) == p(gx - 1, gy - 1));
            assert(alive_in(s, gx, gy - 1) == p(gx, gy - 1));
            assert(alive_in(s, gx + 1, gy - 1) == p(gx + 1, gy - 1));
            assert(alive_in(s, gx - 1, gy) == p(gx - 1, gy));
            assert(alive_in(s, gx + 1, gy) == p(gx + 1, gy));
            assert(alive_in(s, gx - 1, gy + 1) == p(gx - 1, gy + 1));
            assert(alive_in(s, gx, gy + 1) == p(gx, gy + 1));
            assert(alive_in(s, gx + 1, gy + 1) == p(gx + 1, gy + 1));
            assert(alive_in(s, gx, gy) == p(gx, gy));
            assert(next_alive(s, gx, gy) == q(gx, gy));
        } else {
            lemma_out_of_range_dead(t, gx, gy);
            lemma_chunk_of_monotone(x0, y0, gx, gy);
            lemma_chunk_of_monotone(gx, gy, x1, y1);
        }
    }
}

/// A universe whose only live cells form a two-by-two block is unchanged by a step.
pub proof fn lemma_block_still(s: Seq<Chunk>, t: Seq<Chunk>, a: int, b: int)
    requires
        stepped(s, t),
        in_range(chunk_of(a, b)),
        in_range(chunk_of(a + 1, b + 1)),
        forall|gx: int, gy: int| #[trigger] alive_in(s, gx, gy) == in_block(a, b, gx, gy),
    ensures
        forall|gx: int, gy: int| #[trigger] alive_in(t, gx, gy) == in_block(a, b, gx, gy),
{
    let p = |gx: int, gy: int| in_block(a, b, gx, gy);
    lemma_pattern_step(s, t, p, p, a, b, a + 1, b + 1);
}

/// A horizontal line of three live cells stands vertical after one step and
/// horizontal again after two.
pub proof fn lemma_blinker(s: Seq<Chunk>, t: Seq<Chunk>, u: Seq<Chunk>, a: int, b: int)
    requires
        stepped(s, t),
        stepped(t, u),
        in_range(chunk_of(a - 1, b - 1)),
        in_range(chunk_of(a + 1, b + 1)),
        forall|gx: int, gy: int| #[trigger] alive_in(s, gx, gy) == in_row(a, b, gx, gy),
    ensures
        forall|gx: int, gy: int| #[trigger] alive_in(t, gx, gy) == in_column(a, b, gx, gy),
        forall|gx: int, gy: int| #[trigger] alive_in(u, gx, gy) == in_row(a, b, gx, gy),
{
    let row = |gx: int, gy: int| in_row(a, b, gx, gy);
    let column = |gx: int, gy: int| in_column(a, b, gx, gy);
    lemma_pattern_step(s, t, row, column, a - 1, b - 1, a + 1, b + 1);
    lemma_pattern_step(t, u, column, row, a - 1, b - 1, a + 1, b + 1);
}

/// Each step moves a glider to its next phase; after four steps it has the shape
/// it started with, moved one cell along each axis.
pub proof fn lemma_glider(
    s0: Seq<Chunk>,
    s1: Seq<Chunk>,
    s2: Seq<Chunk>,
    s3: Seq<Chunk>,
    s4: Seq<Chunk>,
    a: int,
    b: int,
)
    requires
        stepped(s0, s1),
        stepped(s1, s2),
        stepped(s2, s3),
        stepped(s3, s4),
        in_range(chunk_of(a, b)),
        in_range(chunk_of(a + 3, b + 3)),
        forall|gx: int, gy: int| #[trigger] alive_in(s0, gx, gy) == glider_cells(0, a, b, gx, gy),
    ensures
        forall|gx: int, gy: int| #[trigger] alive_in(s1, gx, gy) == glider_cells(1, a, b, gx, gy),
        forall|gx: int, gy: int| #[trigger] alive_in(s2, gx, gy) == glider_cells(2, a, b, gx, gy),
        forall|gx: int, gy: int| #[trigger] alive_in(s3, gx, gy) == glider_cells(3, a, b, gx, gy),
        forall|gx: int, gy: int|
            #[trigger] alive_in(s4, gx, gy) == glider_cells(0, a + 1, b + 1, gx, gy),
{
    let g0 = |gx: int, gy: int| glider_cells(0, a, b, gx, gy);
    let g1 = |gx: int, gy: int| glider_cells(1, a, b, gx, gy);
    let g2 = |gx: int, gy: int| glider_cells(2, a, b, gx, gy);
    let g3 = |gx: int, gy: int| glider_cells(3, a, b, gx, gy);
    let g4 = |gx: int, gy: int| glider_cells(0, a + 1, b + 1, gx, gy);
    lemma_pattern_step(s0, s1, g0, g1, a, b, a + 3, b + 3);
    lemma_pattern_step(s1, s2, g1, g2, a, b, a + 3, b + 3);
    lemma_pattern_step(s2, s3, g2, g3, a, b, a + 3, b + 3);
    lemma_pattern_step(s3, s4, g3, g4, a, b, a + 3, b + 3);
}

/// The five-cell seed `X..`, `..X`, `XXX` is the second phase of a glider after one step.
pub proof fn lemma_hook_becomes_glider(s: Seq<Chunk>, t: Seq<Chunk>, a: int, b: int)
    requires
        stepped(s, t),
        in_range(chunk_of(a, b)),
        in_range(chunk_of(a + 3, b + 3)),
        forall|gx: int, gy: int| #[trigger] alive_in(s, gx, gy) == hook_cells(a, b, gx, gy),
    ensures
        forall|gx: int, gy: int| #[trigger] alive_in(t, gx, gy) == glider_cells(1, a, b, gx, gy),
{
    let h = |gx: int, gy: int| hook_cells(a, b, gx, gy);
    let g1 = |gx: int, gy: int| glider_cells(1, a, b, gx, gy);
    lemma_pattern_step(s, t, h, g1, a, b, a + 3, b + 3);
}

} // verus!
