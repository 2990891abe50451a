//! The mathematical model of a set of chunks: which cells are alive, and the
//! Game of Life successor of that configuration.

use vstd::prelude::*;

use crate::chunk::{Cell, Chunk};
use crate::resolver::{chunk_of, local_of, offset_x, offset_y, lemma_resolve_inverse};

verus! {

/// `s[i]` is the chunk at `(cx, cy)`.
pub open spec fn holds(s: Seq<Chunk>, i: int, cx: int, cy: int) -> bool {
    0 <= i < s.len() && s[i].x == cx && s[i].y == cy
}

/// Some chunk of `s` sits at `(cx, cy)`.
pub open spec fn present(s: Seq<Chunk>, cx: int, cy: int) -> bool {
    exists|i: int| holds(s, i, cx, cy)
}

/// Every chunk is well formed and no two chunks share a coordinate.
pub open spec fn chunks_wf(s: Seq<Chunk>) -> bool {
    &&& forall|i: int| 0 <= i < s.len() ==> (#[trigger] s[i]).wf()
    &&& forall|i: int, j: int|
        0 <= i < s.len() && 0 <= j < s.len() && i != j ==> !(#[trigger] s[i].x == #[trigger] s[j].x
            && s[i].y == s[j].y)
}

/// A chunk coordinate that fits the coordinate type.
pub open spec fn in_range(c: (int, int)) -> bool {
    i32::MIN <= c.0 <= i32::MAX && i32::MIN <= c.1 <= i32::MAX
}

/// The cell at global position `(gx, gy)` is alive; a cell of a missing chunk is dead.
pub open spec fn alive_in(s: Seq<Chunk>, gx: int, gy: int) -> bool {
    exists|i: int|
        #[trigger] holds(s, i, chunk_of(gx, gy).0, chunk_of(gx, gy).1)
            && s[i].cells@[local_of(gx, gy)].alive_current
}

/// The `j`-th neighbour of `(gx, gy)` is alive.
pub open spec fn neighbour_alive(s: Seq<Chunk>, gx: int, gy: int, j: int) -> bool {
    alive_in(s, gx + offset_x(j), gy + offset_y(j))
}

/// Number of live cells among the first `k` neighbours of `(gx, gy)`.
pub open spec fn count_upto(s: Seq<Chunk>, gx: int, gy: int, k: int) -> int
    decreases k,
{
    if k <= 0 {
        0
    } else {
        count_upto(s, gx, gy, k - 1) + if neighbour_alive(s, gx, gy, k - 1) {
            1int
        } else {
            0int
        }
    }
}

/// Number of live cells among the eight neighbours of `(gx, gy)`.
pub open spec fn live_neighbours(s: Seq<Chunk>, gx: int, gy: int) -> int {
    count_upto(s, gx, gy, 8)
}

/// Conway's rule: birth on three neighbours, survival on two or three.
pub open spec fn life_rule(alive: bool, n: int) -> bool {
    n == 3 || (n == 2 && alive)
}

/// State of the cell at `(gx, gy)` in the generation after `s`.
pub open spec fn next_alive(s: Seq<Chunk>, gx: int, gy: int) -> bool {
    life_rule(alive_in(s, gx, gy), live_neighbours(s, gx, gy))
}

/// Some live cell of `s` has a neighbour inside the chunk `(cx, cy)`.
pub open spec fn wanted(s: Seq<Chunk>, cx: int, cy: int) -> bool {
    exists|gx: int, gy: int, j: int|
        0 <= j < 8 && #[trigger] alive_in(s, gx, gy) && #[trigger] chunk_of(
            gx + offset_x(j),
            gy + offset_y(j),
        ) == (cx, cy)
}

/// `s` grew from `g0` by appending all-dead chunks, and no current state changed.
pub open spec fn frozen(g0: Seq<Chunk>, s: Seq<Chunk>) -> bool {
    &&& g0.len() <= s.len()
    &&& forall|i: int| 0 <= i < g0.len() ==> (#[trigger] s[i]).x == g0[i].x && s[i].y == g0[i].y
    &&& forall|i: int, k: int|
        0 <= i < g0.len() && 0 <= k < 64 ==> (#[trigger] s[i].cells@[k]).alive_current
            == g0[i].cells@[k].alive_current
    &&& forall|i: int, k: int|
        g0.len() <= i < s.len() && 0 <= k < 64 ==> !(#[trigger] s[i].cells@[k]).alive_current
}

pub proof fn lemma_holds_unique(s: Seq<Chunk>, i: int, j: int, cx: int, cy: int)
    requires
        chunks_wf(s),
        holds(s, i, cx, cy),
        holds(s, j, cx, cy),
    ensures
        i == j,
{
    if i != j {
        assert(s[i].x == s[j].x);
    }
}

/// Growing `g0` into `s` keeps every chunk and every live cell, and adds none.
pub proof fn lemma_frozen(g0: Seq<Chunk>, s: Seq<Chunk>, gx: int, gy: int)
    requires
        frozen(g0, s),
        chunks_wf(g0),
        chunks_wf(s),
    ensures
        alive_in(s, gx, gy) == alive_in(g0, gx, gy),
        present(g0, gx, gy) ==> present(s, gx, gy),
{
    let c = chunk_of(gx, gy);
    let k = local_of(gx, gy);
    lemma_resolve_inverse(gx, gy);
    if alive_in(g0, gx, gy) {
        let i = choose|i: int| #[trigger] holds(g0, i, c.0, c.1) && g0[i].cells@[k].alive_current;
        assert(s[i].cells@[k].alive_current);
        assert(holds(s, i, c.0, c.1));
    }
    if alive_in(s, gx, gy) {
        let i = choose|i: int| #[trigger] holds(s, i, c.0, c.1) && s[i].cells@[k].alive_current;
        assert(s[i].cells@[k].alive_current);
        assert(i < g0.len());
        assert(holds(g0, i, c.0, c.1));
    }
    if present(g0, gx, gy) {
        let i = choose|i: int| holds(g0, i, gx, gy);
        assert(holds(s, i, gx, gy));
    }
}

/// A live neighbour is counted: no live cell among the eight neighbours means a count of zero,
/// and a count of zero means no live neighbour.
pub proof fn lemma_count_zero(s: Seq<Chunk>, gx: int, gy: int)
    ensures
        live_neighbours(s, gx, gy) == 0 <==> forall|j: int|
            0 <= j < 8 ==> !#[trigger] neighbour_alive(s, gx, gy, j),
        0 <= live_neighbours(s, gx, gy) <= 8,
{
    reveal_with_fuel(count_upto, 9);
    if live_neighbours(s, gx, gy) == 0 {
        assert forall|j: int| 0 <= j < 8 implies !#[trigger] neighbour_alive(s, gx, gy, j) by {
            assert(j == 0 || j == 1 || j == 2 || j == 3 || j == 4 || j == 5 || j == 6 || j == 7);
        }
    }
}


/// Growing `g0` into `s` leaves every neighbour count unchanged.
pub proof fn lemma_frozen_count(g0: Seq<Chunk>, s: Seq<Chunk>, gx: int, gy: int)
    requires
        frozen(g0, s),
        chunks_wf(g0),
        chunks_wf(s),
    ensures
        live_neighbours(s, gx, gy) == live_neighbours(g0, gx, gy),
{
    reveal_with_fuel(count_upto, 9);
    assert forall|j: int| 0 <= j < 8 implies #[trigger] neighbour_alive(s, gx, gy, j)
        == neighbour_alive(g0, gx, gy, j) by {
        lemma_frozen(g0, s, gx + offset_x(j), gy + offset_y(j));
    }
    assert(neighbour_alive(s, gx, gy, 0) == neighbour_alive(g0, gx, gy, 0));
    assert(neighbour_alive(s, gx, gy, 1) == neighbour_alive(g0, gx, gy, 1));
    assert(neighbour_alive(s, gx, gy, 2) == neighbour_alive(g0, gx, gy, 2));
    assert(neighbour_alive(s, gx, gy, 3) == neighbour_alive(g0, gx, gy, 3));
    assert(neighbour_alive(s, gx, gy, 4) == neighbour_alive(g0, gx, gy, 4));
    assert(neighbour_alive(s, gx, gy, 5) == neighbour_alive(g0, gx, gy, 5));
    assert(neighbour_alive(s, gx, gy, 6) == neighbour_alive(g0, gx, gy, 6));
    assert(neighbour_alive(s, gx, gy, 7) == neighbour_alive(g0, gx, gy, 7));
}


/// `t` is one generation after `s`: chunks of `s` keep their place, chunks exist
/// exactly where `s` had them or where a live cell of `s` has a neighbour, and on
/// every cell of an in-range chunk Conway's rule has been applied.
pub open spec fn stepped(s: Seq<Chunk>, t: Seq<Chunk>) -> bool {
    &&& chunks_wf(t)
    &&& s.len() <= t.len()
    &&& forall|i: int| 0 <= i < s.len() ==> (#[trigger] t[i]).x == s[i].x && t[i].y == s[i].y
    &&& forall|cx: int, cy: int|
        in_range((cx, cy)) ==> (#[trigger] present(t, cx, cy) <==> present(s, cx, cy) || wanted(
            s,
            cx,
            cy,
        ))
    &&& forall|gx: int, gy: int|
        in_range(chunk_of(gx, gy)) ==> #[trigger] alive_in(t, gx, gy) == next_alive(s, gx, gy)
}


/// `c` is a chunk at `(x, y)` whose cells are all dead in both buffers.
pub open spec fn fresh_chunk(c: Chunk, x: int, y: int) -> bool {
    &&& c.wf()
    &&& c.x == x
    &&& c.y == y
    &&& forall|k: int|
        0 <= k < 64 ==> #[trigger] c.cells@[k] == (Cell { alive_current: false, alive_next: false })
}

/// `t` results from creating the chunk `(x, y)` in `s`: nothing changes if it
/// exists, otherwise a fresh chunk is appended.
pub open spec fn created_at(s: Seq<Chunk>, x: int, y: int, t: Seq<Chunk>) -> bool {
    if present(s, x, y) {
        t == s
    } else {
        t.len() == s.len() + 1 && t.drop_last() == s && fresh_chunk(t.last(), x, y)
    }
}


/// The neighbour count written out over the eight offsets.
pub proof fn lemma_live_neighbours_unfold(s: Seq<Chunk>, gx: int, gy: int)
    ensures
        live_neighbours(s, gx, gy) == (if alive_in(s, gx - 1, gy - 1) { 1int } else { 0 }) + (
        if alive_in(s, gx, gy - 1) { 1int } else { 0 }) + (if alive_in(s, gx + 1, gy - 1) {
            1int
        } else {
            0
        }) + (if alive_in(s, gx - 1, gy) { 1int } else { 0 }) + (if alive_in(s, gx + 1, gy) {
            1int
        } else {
            0
        }) + (if alive_in(s, gx - 1, gy + 1) { 1int } else { 0 }) + (if alive_in(s, gx, gy + 1) {
            1int
        } else {
            0
        }) + (if alive_in(s, gx + 1, gy + 1) { 1int } else { 0 }),
{
    reveal_with_fuel(count_upto, 9);
}

} // verus!
