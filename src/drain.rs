//! The invariant that the step executor keeps while it drains its queue, and the
//! facts that each kind of action preserves it.

use vstd::prelude::*;

use crate::action::Action;
use crate::chunk::{Cell, Chunk};
use crate::grid::{
    alive_in, chunks_wf, frozen, holds, in_range, lemma_count_zero, lemma_frozen,
    lemma_holds_unique, neighbour_alive, next_alive, present, wanted,
};
use crate::resolver::{
    chunk_of, global_of, lemma_resolve_inverse, local_of, offset_x, offset_y, CHUNK_AREA,
};

verus! {

/// Chunk that holds the `j`-th neighbour of global position `(gx, gy)`.
pub open spec fn neighbour_chunk(gx: int, gy: int, j: int) -> (int, int) {
    chunk_of(gx + offset_x(j), gy + offset_y(j))
}

/// The command that creates the chunk at `c`.
pub open spec fn create_cmd(c: (int, int)) -> Action {
    Action::CreateChunk { x: c.0 as i32, y: c.1 as i32 }
}

/// `a` creates a chunk, within range, that holds a neighbour of `(gx, gy)`.
pub open spec fn creates_neighbour(gx: int, gy: int, a: Action) -> bool {
    exists|j: int|
        0 <= j < 8 && in_range(#[trigger] neighbour_chunk(gx, gy, j)) && a == create_cmd(
            neighbour_chunk(gx, gy, j),
        )
}

/// Work is still queued for cell `k` of the chunk at `(x, y)`.
pub open spec fn pending(q: Seq<Action>, x: i32, y: i32, k: int) -> bool {
    q.contains(Action::EvaluateChunk { x, y }) || q.contains(
        Action::EvaluateCell { x, y, idx: k as usize },
    )
}

/// The chunk `c` exists, is queued for creation, or lies beyond the coordinate range.
pub open spec fn requested(s: Seq<Chunk>, q: Seq<Action>, c: (int, int)) -> bool {
    !in_range(c) || present(s, c.0, c.1) || q.contains(create_cmd(c))
}

/// Every chunk that holds a neighbour of `(gx, gy)` is requested.
pub open spec fn covered(s: Seq<Chunk>, q: Seq<Action>, gx: int, gy: int) -> bool {
    forall|j: int|
        0 <= j < 8 ==> requested(s, q, #[trigger] neighbour_chunk(gx, gy, j))
}

/// The evaluation commands for every cell of the chunk at `(x, y)`, in index order.
pub open spec fn cell_commands(x: i32, y: i32) -> Seq<Action> {
    Seq::new(64, |n: int| Action::EvaluateCell { x, y, idx: n as usize })
}

/// `a` refers only to chunks that may be referred to: evaluations to existing
/// chunks, creations to chunks that a live cell of `g0` needs or that the initial
/// queue `q0` asked for.
pub open spec fn action_ok(g0: Seq<Chunk>, q0: Seq<Action>, s: Seq<Chunk>, a: Action) -> bool {
    match a {
        Action::CreateChunk { x, y } => wanted(g0, x as int, y as int) || q0.contains(
            Action::CreateChunk { x, y },
        ),
        Action::EvaluateChunk { x, y } => present(s, x as int, y as int),
        Action::EvaluateCell { x, y, idx } => present(s, x as int, y as int) && idx < CHUNK_AREA,
        _ => true,
    }
}

/// Next state that cell `k` of the chunk at `(x, y)` must receive from generation `g0`.
pub open spec fn cell_target(g0: Seq<Chunk>, x: i32, y: i32, k: int) -> bool {
    next_alive(g0, global_of(x as int, y as int, k).0, global_of(x as int, y as int, k).1)
}

/// Cell `k` of chunk `s[i]` is evaluated during the drain: its chunk is new, or the
/// initial queue `q0` holds work for it.
pub open spec fn to_evaluate(g0: Seq<Chunk>, q0: Seq<Action>, s: Seq<Chunk>, i: int, k: int) -> bool {
    i >= g0.len() || pending(q0, s[i].x, s[i].y, k)
}

/// If the initial queue `q0` holds no work for cell `k` of `g0[i]`, neither does
/// `q`, and the cell keeps its next state.
pub open spec fn untouched_at(
    g0: Seq<Chunk>,
    q0: Seq<Action>,
    s: Seq<Chunk>,
    q: Seq<Action>,
    i: int,
    k: int,
) -> bool {
    !pending(q0, s[i].x, s[i].y, k) ==> !pending(q, s[i].x, s[i].y, k)
        && s[i].cells@[k].alive_next == g0[i].cells@[k].alive_next
}

/// Cells of the snapshot for which the initial queue holds no work get none, and
/// keep their next state.
pub open spec fn untouched_kept(g0: Seq<Chunk>, q0: Seq<Action>, s: Seq<Chunk>, q: Seq<Action>) -> bool {
    forall|i: int, k: int|
        0 <= i < g0.len() && 0 <= k < 64 ==> #[trigger] untouched_at(g0, q0, s, q, i, k)
}

/// A step from `(s, q)` to `(s2, q2)` neither queues work for cell `k` of `s[i]`
/// nor changes its next state, unless `q` held work for it.
pub open spec fn left_alone(s: Seq<Chunk>, q: Seq<Action>, s2: Seq<Chunk>, q2: Seq<Action>, i: int, k: int) -> bool {
    !pending(q, s[i].x, s[i].y, k) ==> !pending(q2, s[i].x, s[i].y, k)
        && s2[i].cells@[k].alive_next == s[i].cells@[k].alive_next
}

/// Every creation that the initial queue asked for is done or still queued.
pub open spec fn asked_requested(q0: Seq<Action>, s: Seq<Chunk>, q: Seq<Action>) -> bool {
    forall|x: i32, y: i32|
        #[trigger] q0.contains(Action::CreateChunk { x, y }) ==> requested(
            s,
            q,
            (x as int, y as int),
        )
}

/// While the queue `q` drains from the initial queue `q0`, chunks `s` grow out of
/// the snapshot `g0`: every cell to evaluate either holds its target next state or
/// is still pending, every live cell to evaluate either is pending or has all its
/// neighbouring chunks requested, and every other cell is left alone.
pub open spec fn drain_inv(g0: Seq<Chunk>, q0: Seq<Action>, s: Seq<Chunk>, q: Seq<Action>) -> bool {
    &&& chunks_wf(g0)
    &&& chunks_wf(s)
    &&& frozen(g0, s)
    &&& forall|n: int| 0 <= n < q.len() ==> action_ok(g0, q0, s, #[trigger] q[n])
    &&& forall|i: int|
        g0.len() <= i < s.len() ==> wanted(g0, (#[trigger] s[i]).x as int, s[i].y as int)
            || q0.contains(Action::CreateChunk { x: s[i].x, y: s[i].y })
    &&& forall|i: int, k: int|
        0 <= i < s.len() && 0 <= k < 64 && to_evaluate(g0, q0, s, i, k) ==> (
        #[trigger] s[i].cells@[k]).alive_next == cell_target(g0, s[i].x, s[i].y, k) || pending(
            q,
            s[i].x,
            s[i].y,
            k,
        )
    &&& forall|i: int, k: int|
        0 <= i < g0.len() && 0 <= k < 64 && (#[trigger] g0[i].cells@[k]).alive_current && pending(
            q0,
            g0[i].x,
            g0[i].y,
            k,
        ) ==> pending(q, g0[i].x, g0[i].y, k) || covered(
            s,
            q,
            global_of(g0[i].x as int, g0[i].y as int, k).0,
            global_of(g0[i].x as int, g0[i].y as int, k).1,
        )
    &&& untouched_kept(g0, q0, s, q)
    &&& asked_requested(q0, s, q)
}

/// A step from `(s, q)` to `(s2, q2)` that keeps chunks, keeps or carries out each
/// queued creation, and neither touches nor queues work for a cell without work
/// keeps the last two parts of the invariant.
pub proof fn lemma_side_step(
    g0: Seq<Chunk>,
    q0: Seq<Action>,
    s: Seq<Chunk>,
    q: Seq<Action>,
    s2: Seq<Chunk>,
    q2: Seq<Action>,
)
    requires
        untouched_kept(g0, q0, s, q),
        asked_requested(q0, s, q),
        g0.len() <= s.len() <= s2.len(),
        forall|cx: int, cy: int| present(s, cx, cy) ==> #[trigger] present(s2, cx, cy),
        forall|x: i32, y: i32|
            #[trigger] q.contains(Action::CreateChunk { x, y }) ==> q2.contains(
                Action::CreateChunk { x, y },
            ) || present(s2, x as int, y as int),
        forall|i: int| 0 <= i < s.len() ==> (#[trigger] s2[i]).x == s[i].x && s2[i].y == s[i].y,
        forall|i: int, k: int|
            0 <= i < g0.len() && 0 <= k < 64 ==> #[trigger] left_alone(s, q, s2, q2, i, k),
    ensures
        untouched_kept(g0, q0, s2, q2),
        asked_requested(q0, s2, q2),
        forall|c: (int, int)| requested(s, q, c) ==> #[trigger] requested(s2, q2, c),
{
    assert forall|c: (int, int)| requested(s, q, c) implies #[trigger] requested(s2, q2, c) by {
        if in_range(c) && !present(s, c.0, c.1) && q.contains(create_cmd(c)) {
            let x = c.0 as i32;
            let y = c.1 as i32;
            assert(q.contains(Action::CreateChunk { x, y }));
            assert(present(s, x as int, y as int) ==> present(s2, x as int, y as int));
        }
        if in_range(c) && present(s, c.0, c.1) {
            assert(present(s2, c.0, c.1));
        }
    }
    assert forall|i: int, k: int| 0 <= i < g0.len() && 0 <= k < 64 implies #[trigger] untouched_at(
        g0,
        q0,
        s2,
        q2,
        i,
        k,
    ) by {
        assert(untouched_at(g0, q0, s, q, i, k));
        assert(left_alone(s, q, s2, q2, i, k));
        assert(s2[i].x == s[i].x && s2[i].y == s[i].y);
    }
    assert forall|x: i32, y: i32| #[trigger] q0.contains(Action::CreateChunk { x, y }) implies requested(
        s2,
        q2,
        (x as int, y as int),
    ) by {
        assert(requested(s, q, (x as int, y as int)));
    }
}

pub proof fn lemma_contains_concat(a: Seq<Action>, b: Seq<Action>)
    ensures
        forall|x: Action| #[trigger] (a + b).contains(x) <==> a.contains(x) || b.contains(x),
{
    assert forall|x: Action| #[trigger] (a + b).contains(x) <==> a.contains(x) || b.contains(x) by {
        if (a + b).contains(x) {
            let m = choose|m: int| 0 <= m < (a + b).len() && (a + b)[m] == x;
            if m < a.len() {
                assert(a[m] == x);
            } else {
                assert(b[m - a.len()] == x);
            }
        }
        if a.contains(x) {
            let m = choose|m: int| 0 <= m < a.len() && a[m] == x;
            assert((a + b)[m] == x);
        }
        if b.contains(x) {
            let m = choose|m: int| 0 <= m < b.len() && b[m] == x;
            assert((a + b)[m + a.len()] == x);
        }
    }
}

/// Dropping a display command, or the creation of a chunk that exists, from the
/// front of the queue keeps the invariant.
pub proof fn lemma_drop_head(g0: Seq<Chunk>, q0: Seq<Action>, s: Seq<Chunk>, a: Action, rest: Seq<Action>)
    requires
        drain_inv(g0, q0, s, seq![a] + rest),
        a.is_mode() || (a is CreateChunk && present(
            s,
            a->CreateChunk_x as int,
            a->CreateChunk_y as int,
        )),
    ensures
        drain_inv(g0, q0, s, rest),
{
    let q = seq![a] + rest;
    lemma_contains_concat(seq![a], rest);
    assert forall|n: int| 0 <= n < rest.len() implies action_ok(g0, q0, s, #[trigger] rest[n]) by {
        assert(rest[n] == q[n + 1]);
    }
    assert forall|i: int, k: int|
        0 <= i < g0.len() && 0 <= k < 64 && (#[trigger] g0[i].cells@[k]).alive_current && pending(q0, g0[i].x, g0[i].y, k) implies pending(
        rest,
        g0[i].x,
        g0[i].y,
        k,
    ) || covered(
        s,
        rest,
        global_of(g0[i].x as int, g0[i].y as int, k).0,
        global_of(g0[i].x as int, g0[i].y as int, k).1,
    ) by {
        let g = global_of(g0[i].x as int, g0[i].y as int, k);
        if !pending(q, g0[i].x, g0[i].y, k) {
            assert forall|j: int| 0 <= j < 8 implies requested(
                s,
                rest,
                #[trigger] neighbour_chunk(g.0, g.1, j),
            ) by {
                let c = neighbour_chunk(g.0, g.1, j);
                assert(requested(s, q, c));
                if in_range(c) && !present(s, c.0, c.1) && !rest.contains(create_cmd(c)) {
                    assert(seq![a].contains(create_cmd(c)));
                    assert(seq![a][0] == create_cmd(c));
                }
            }
        }
    }
    assert forall|x: i32, y: i32| #[trigger] q.contains(Action::CreateChunk { x, y }) implies rest.contains(
        Action::CreateChunk { x, y },
    ) || present(s, x as int, y as int) by {
        if !rest.contains(Action::CreateChunk { x, y }) {
            assert(seq![a].contains(Action::CreateChunk { x, y }));
            assert(seq![a][0] == Action::CreateChunk { x, y });
        }
    }
    lemma_side_step(g0, q0, s, q, s, rest);
}


/// Two chunk sequences with the same coordinates, index by index, have the same chunks present.
pub proof fn lemma_same_coords(s: Seq<Chunk>, s2: Seq<Chunk>)
    requires
        s.len() == s2.len(),
        forall|i: int| 0 <= i < s.len() ==> (#[trigger] s2[i]).x == s[i].x && s2[i].y == s[i].y,
    ensures
        forall|cx: int, cy: int| #[trigger] present(s2, cx, cy) == present(s, cx, cy),
{
    assert forall|cx: int, cy: int| #[trigger] present(s2, cx, cy) == present(s, cx, cy) by {
        if present(s, cx, cy) {
            let i = choose|i: int| holds(s, i, cx, cy);
            assert(holds(s2, i, cx, cy));
        }
        if present(s2, cx, cy) {
            let i = choose|i: int| holds(s2, i, cx, cy);
            assert(holds(s, i, cx, cy));
        }
    }
}

/// Expanding an existing chunk's evaluation into one evaluation per cell keeps the invariant.
pub proof fn lemma_eval_chunk(g0: Seq<Chunk>, q0: Seq<Action>, s: Seq<Chunk>, x: i32, y: i32, rest: Seq<Action>)
    requires
        drain_inv(g0, q0, s, seq![Action::EvaluateChunk { x, y }] + rest),
        present(s, x as int, y as int),
    ensures
        drain_inv(g0, q0, s, rest + cell_commands(x, y)),
{
    let a = Action::EvaluateChunk { x, y };
    let q = seq![a] + rest;
    let q2 = rest + cell_commands(x, y);
    lemma_contains_concat(seq![a], rest);
    lemma_contains_concat(rest, cell_commands(x, y));
    assert forall|n: int| 0 <= n < q2.len() implies action_ok(g0, q0, s, #[trigger] q2[n]) by {
        if n < rest.len() {
            assert(q2[n] == q[n + 1]);
        } else {
            assert(q2[n] == cell_commands(x, y)[n - rest.len()]);
        }
    }
    assert forall|i: int, k: int| 0 <= i < s.len() && 0 <= k < 64 && pending(
        q,
        s[i].x,
        s[i].y,
        k,
    ) implies #[trigger] pending(q2, s[i].x, s[i].y, k) by {
        if s[i].x == x && s[i].y == y {
            assert(cell_commands(x, y)[k] == Action::EvaluateCell { x, y, idx: k as usize });
            assert(cell_commands(x, y).contains(Action::EvaluateCell { x, y, idx: k as usize }));
        } else {
            assert(!seq![a].contains(Action::EvaluateChunk { x: s[i].x, y: s[i].y })) by {
                assert(seq![a][0] == a);
            }
        }
    }
    assert forall|i: int, k: int|
        0 <= i < s.len() && 0 <= k < 64 && to_evaluate(g0, q0, s, i, k) implies (#[trigger] s[i].cells@[k]).alive_next
        == cell_target(g0, s[i].x, s[i].y, k) || pending(q2, s[i].x, s[i].y, k) by {
        assert(pending(q, s[i].x, s[i].y, k) ==> pending(q2, s[i].x, s[i].y, k));
    }
    assert forall|i: int, k: int|
        0 <= i < g0.len() && 0 <= k < 64 && (#[trigger] g0[i].cells@[k]).alive_current && pending(q0, g0[i].x, g0[i].y, k) implies pending(
        q2,
        g0[i].x,
        g0[i].y,
        k,
    ) || covered(
        s,
        q2,
        global_of(g0[i].x as int, g0[i].y as int, k).0,
        global_of(g0[i].x as int, g0[i].y as int, k).1,
    ) by {
        let g = global_of(g0[i].x as int, g0[i].y as int, k);
        assert(s[i].x == g0[i].x && s[i].y == g0[i].y);
        assert(pending(q, s[i].x, s[i].y, k) ==> pending(q2, s[i].x, s[i].y, k));
        if !pending(q, g0[i].x, g0[i].y, k) {
            assert forall|j: int| 0 <= j < 8 implies requested(
                s,
                q2,
                #[trigger] neighbour_chunk(g.0, g.1, j),
            ) by {
                let c = neighbour_chunk(g.0, g.1, j);
                assert(requested(s, q, c));
                if in_range(c) && !present(s, c.0, c.1) && !rest.contains(create_cmd(c)) {
                    assert(seq![a][0] == a);
                }
            }
        }
    }
    assert forall|x2: i32, y2: i32| #[trigger] q.contains(Action::CreateChunk { x: x2, y: y2 }) implies q2.contains(
        Action::CreateChunk { x: x2, y: y2 },
    ) || present(s, x2 as int, y2 as int) by {
        assert(!seq![a].contains(Action::CreateChunk { x: x2, y: y2 }));
    }
    assert forall|i: int, k: int| 0 <= i < g0.len() && 0 <= k < 64 implies #[trigger] left_alone(
        s,
        q,
        s,
        q2,
        i,
        k,
    ) by {
        if !pending(q, s[i].x, s[i].y, k) {
            assert(q.contains(a));
            assert(!(s[i].x == x && s[i].y == y));
            let e = Action::EvaluateCell { x: s[i].x, y: s[i].y, idx: k as usize };
            if cell_commands(x, y).contains(e) {
                let m = choose|m: int| 0 <= m < cell_commands(x, y).len() && cell_commands(x, y)[m] == e;
            }
        }
    }
    lemma_side_step(g0, q0, s, q, s, q2);
}

/// Creating a missing chunk, all dead, and queueing its evaluation at the front
/// keeps the invariant.
pub proof fn lemma_create_new(
    g0: Seq<Chunk>,
    q0: Seq<Action>,
    s: Seq<Chunk>,
    c: Chunk,
    x: i32,
    y: i32,
    rest: Seq<Action>,
)
    requires
        drain_inv(g0, q0, s, seq![Action::CreateChunk { x, y }] + rest),
        !present(s, x as int, y as int),
        c.wf(),
        c.x == x,
        c.y == y,
        forall|k: int|
            0 <= k < CHUNK_AREA ==> #[trigger] c.cells@[k] == (Cell {
                alive_current: false,
                alive_next: false,
            }),
    ensures
        drain_inv(g0, q0, s.push(c), seq![Action::EvaluateChunk { x, y }] + rest),
{
    let a = Action::CreateChunk { x, y };
    let b = Action::EvaluateChunk { x, y };
    let q = seq![a] + rest;
    let q2 = seq![b] + rest;
    let s2 = s.push(c);
    lemma_contains_concat(seq![a], rest);
    lemma_contains_concat(seq![b], rest);
    assert(seq![a][0] == a);
    assert(seq![b][0] == b);
    assert(q[0] == a);
    assert(holds(s2, s.len() as int, x as int, y as int));
    assert forall|cx: int, cy: int| present(s, cx, cy) implies #[trigger] present(s2, cx, cy) by {
        let i = choose|i: int| holds(s, i, cx, cy);
        assert(holds(s2, i, cx, cy));
    }
    assert forall|i: int| 0 <= i < s2.len() implies (#[trigger] s2[i]).wf() by {
        if i < s.len() {
            assert(s2[i] == s[i]);
        }
    }
    assert forall|i: int, j: int|
        0 <= i < s2.len() && 0 <= j < s2.len() && i != j implies !(#[trigger] s2[i].x
        == #[trigger] s2[j].x && s2[i].y == s2[j].y) by {
        if i == s.len() {
            assert(!holds(s, j, x as int, y as int));
        } else if j == s.len() {
            assert(!holds(s, i, x as int, y as int));
        } else {
            assert(s2[i] == s[i] && s2[j] == s[j]);
        }
    }
    assert(chunks_wf(s2));
    assert forall|i: int, k: int|
        0 <= i < g0.len() && 0 <= k < 64 implies (#[trigger] s2[i].cells@[k]).alive_current
        == g0[i].cells@[k].alive_current by {
        assert(s2[i] == s[i]);
    }
    assert forall|i: int, k: int|
        g0.len() <= i < s2.len() && 0 <= k < 64 implies !(#[trigger] s2[i].cells@[k]).alive_current by {
        if i < s.len() {
            assert(s2[i] == s[i]);
        }
    }
    assert forall|i: int| 0 <= i < g0.len() implies (#[trigger] s2[i]).x == g0[i].x && s2[i].y
        == g0[i].y by {
        assert(s2[i] == s[i]);
    }
    assert(frozen(g0, s2));
    assert forall|n: int| 0 <= n < q2.len() implies action_ok(g0, q0, s2, #[trigger] q2[n]) by {
        if n > 0 {
            assert(q2[n] == q[n]);
            assert(action_ok(g0, q0, s, q[n]));
        }
    }
    assert forall|i: int|
        g0.len() <= i < s2.len() implies wanted(g0, (#[trigger] s2[i]).x as int, s2[i].y as int)
        || q0.contains(Action::CreateChunk { x: s2[i].x, y: s2[i].y }) by {
        if i < s.len() {
            assert(s2[i] == s[i]);
        }
    }
    assert forall|i: int, k: int|
        0 <= i < s2.len() && 0 <= k < 64 && to_evaluate(g0, q0, s2, i, k) implies (#[trigger] s2[i].cells@[k]).alive_next
        == cell_target(g0, s2[i].x, s2[i].y, k) || pending(q2, s2[i].x, s2[i].y, k) by {
        if i == s.len() {
            assert(q2.contains(b));
        } else {
            assert(s2[i] == s[i]);
            if s[i].cells@[k].alive_next != cell_target(g0, s[i].x, s[i].y, k) {
                assert(pending(q, s[i].x, s[i].y, k));
                assert(!seq![a].contains(Action::EvaluateChunk { x: s[i].x, y: s[i].y }));
                assert(!seq![a].contains(
                    Action::EvaluateCell { x: s[i].x, y: s[i].y, idx: k as usize },
                ));
            }
        }
    }
    assert forall|i: int, k: int|
        0 <= i < g0.len() && 0 <= k < 64 && (#[trigger] g0[i].cells@[k]).alive_current && pending(q0, g0[i].x, g0[i].y, k) implies pending(
        q2,
        g0[i].x,
        g0[i].y,
        k,
    ) || covered(
        s2,
        q2,
        global_of(g0[i].x as int, g0[i].y as int, k).0,
        global_of(g0[i].x as int, g0[i].y as int, k).1,
    ) by {
        let g = global_of(g0[i].x as int, g0[i].y as int, k);
        assert(!seq![a].contains(Action::EvaluateChunk { x: g0[i].x, y: g0[i].y }));
        assert(!seq![a].contains(Action::EvaluateCell { x: g0[i].x, y: g0[i].y, idx: k as usize }));
        if !pending(q, g0[i].x, g0[i].y, k) {
            assert forall|j: int| 0 <= j < 8 implies requested(
                s2,
                q2,
                #[trigger] neighbour_chunk(g.0, g.1, j),
            ) by {
                let cc = neighbour_chunk(g.0, g.1, j);
                assert(requested(s, q, cc));
                if in_range(cc) && !present(s, cc.0, cc.1) && !rest.contains(create_cmd(cc)) {
                    assert(seq![a].contains(create_cmd(cc)));
                    assert(create_cmd(cc) == a);
                    assert(present(s2, cc.0, cc.1));
                }
            }
        }
    }
    assert forall|x2: i32, y2: i32| #[trigger] q.contains(Action::CreateChunk { x: x2, y: y2 }) implies q2.contains(
        Action::CreateChunk { x: x2, y: y2 },
    ) || present(s2, x2 as int, y2 as int) by {
        if !rest.contains(Action::CreateChunk { x: x2, y: y2 }) {
            assert(seq![a].contains(Action::CreateChunk { x: x2, y: y2 }));
        }
    }
    assert forall|i: int| 0 <= i < s.len() implies (#[trigger] s2[i]).x == s[i].x && s2[i].y
        == s[i].y by {
        assert(s2[i] == s[i]);
    }
    assert forall|i: int, k: int| 0 <= i < g0.len() && 0 <= k < 64 implies #[trigger] left_alone(
        s,
        q,
        s2,
        q2,
        i,
        k,
    ) by {
        if !pending(q, s[i].x, s[i].y, k) {
            assert(s2[i] == s[i]);
            assert(!holds(s, i, x as int, y as int));
            let e1 = Action::EvaluateChunk { x: s[i].x, y: s[i].y };
            let e2 = Action::EvaluateCell { x: s[i].x, y: s[i].y, idx: k as usize };
            assert(e1 != b);
            assert(!seq![b].contains(e1));
            assert(!seq![b].contains(e2));
            assert(!rest.contains(e1) && !rest.contains(e2));
        }
    }
    lemma_side_step(g0, q0, s, q, s2, q2);
}


/// Evaluating cell `idx` of chunk `s[i]` keeps the invariant: its next state is
/// written, and when it is alive, the creation of each missing neighbouring chunk
/// has been queued in front.
pub proof fn lemma_eval_cell(
    g0: Seq<Chunk>,
    q0: Seq<Action>,
    s: Seq<Chunk>,
    s2: Seq<Chunk>,
    i: int,
    idx: usize,
    p: Seq<Action>,
    rest: Seq<Action>,
)
    requires
        0 <= i < s.len(),
        idx < CHUNK_AREA,
        drain_inv(g0, q0, s, seq![Action::EvaluateCell { x: s[i].x, y: s[i].y, idx }] + rest),
        s[i].cells@[idx as int].alive_current ==> covered(
            s,
            p + rest,
            global_of(s[i].x as int, s[i].y as int, idx as int).0,
            global_of(s[i].x as int, s[i].y as int, idx as int).1,
        ),
        forall|n: int|
            0 <= n < p.len() ==> creates_neighbour(
                global_of(s[i].x as int, s[i].y as int, idx as int).0,
                global_of(s[i].x as int, s[i].y as int, idx as int).1,
                #[trigger] p[n],
            ),
        !s[i].cells@[idx as int].alive_current ==> p.len() == 0,
        s2.len() == s.len(),
        forall|j: int| 0 <= j < s.len() && j != i ==> #[trigger] s2[j] == s[j],
        s2[i].x == s[i].x,
        s2[i].y == s[i].y,
        s2[i].cells@ == s[i].cells@.update(
            idx as int,
            Cell {
                alive_next: cell_target(g0, s[i].x, s[i].y, idx as int),
                ..s[i].cells@[idx as int]
            },
        ),
    ensures
        drain_inv(g0, q0, s2, p + rest),
{
    let x = s[i].x;
    let y = s[i].y;
    let a = Action::EvaluateCell { x, y, idx };
    let q = seq![a] + rest;
    let q2 = p + rest;
    let g = global_of(x as int, y as int, idx as int);
    lemma_contains_concat(seq![a], rest);
    lemma_contains_concat(p, rest);
    assert(seq![a][0] == a);
    assert forall|j: int| 0 <= j < s.len() implies (#[trigger] s2[j]).x == s[j].x && s2[j].y
        == s[j].y by {
        if j != i {
            assert(s2[j] == s[j]);
        }
    }
    lemma_same_coords(s, s2);
    assert forall|j: int| 0 <= j < s2.len() implies (#[trigger] s2[j]).wf() by {
        if j != i {
            assert(s2[j] == s[j]);
        }
    }
    assert forall|j: int, j2: int|
        0 <= j < s2.len() && 0 <= j2 < s2.len() && j != j2 implies !(#[trigger] s2[j].x
        == #[trigger] s2[j2].x && s2[j].y == s2[j2].y) by {
        assert(s2[j].x == s[j].x && s2[j2].x == s[j2].x);
        assert(s2[j].y == s[j].y && s2[j2].y == s[j2].y);
    }
    assert(chunks_wf(s2));
    assert forall|j: int, k: int|
        0 <= j < s2.len() && 0 <= k < 64 implies (#[trigger] s2[j].cells@[k]).alive_current
        == s[j].cells@[k].alive_current by {
        if j != i {
            assert(s2[j] == s[j]);
        }
    }
    assert forall|j: int| 0 <= j < g0.len() implies (#[trigger] s2[j]).x == g0[j].x && s2[j].y
        == g0[j].y by {
        assert(s2[j].x == s[j].x && s2[j].y == s[j].y);
    }
    assert forall|j: int, k: int|
        0 <= j < g0.len() && 0 <= k < 64 implies (#[trigger] s2[j].cells@[k]).alive_current
        == g0[j].cells@[k].alive_current by {
        assert(s2[j].cells@[k].alive_current == s[j].cells@[k].alive_current);
        assert(s[j].cells@[k].alive_current == g0[j].cells@[k].alive_current);
    }
    assert forall|j: int, k: int|
        g0.len() <= j < s2.len() && 0 <= k < 64 implies !(#[trigger] s2[j].cells@[k]).alive_current by {
        assert(s2[j].cells@[k].alive_current == s[j].cells@[k].alive_current);
        assert(!s[j].cells@[k].alive_current);
    }
    assert(frozen(g0, s2));
    if s[i].cells@[idx as int].alive_current {
        assert(i < g0.len()) by {
            if i >= g0.len() {
                assert(!s[i].cells@[idx as int].alive_current);
            }
        }
        assert(g0[i].cells@[idx as int].alive_current);
        crate::resolver::lemma_global_resolve(x as int, y as int, idx as int);
        let cg = chunk_of(g.0, g.1);
        assert(holds(g0, i, cg.0, cg.1));
        assert(g0[i].cells@[local_of(g.0, g.1)].alive_current);
        assert(alive_in(g0, g.0, g.1));
    }
    assert forall|n: int| 0 <= n < q2.len() implies action_ok(g0, q0, s2, #[trigger] q2[n]) by {
        if n < p.len() {
            assert(q2[n] == p[n]);
            assert(creates_neighbour(g.0, g.1, p[n]));
            let j = choose|j: int|
                0 <= j < 8 && in_range(#[trigger] neighbour_chunk(g.0, g.1, j)) && p[n]
                    == create_cmd(neighbour_chunk(g.0, g.1, j));
            let c = neighbour_chunk(g.0, g.1, j);
            assert(chunk_of(g.0 + offset_x(j), g.1
                + offset_y(j)) == c);
            assert(wanted(g0, c.0, c.1));
        } else {
            assert(q2[n] == rest[n - p.len()]);
            assert(rest[n - p.len()] == q[n - p.len() + 1]);
            assert(action_ok(g0, q0, s, q[n - p.len() + 1]));
        }
    }
    assert forall|j: int|
        g0.len() <= j < s2.len() implies wanted(g0, (#[trigger] s2[j]).x as int, s2[j].y as int)
        || q0.contains(Action::CreateChunk { x: s2[j].x, y: s2[j].y }) by {
        assert(s2[j].x == s[j].x && s2[j].y == s[j].y);
    }
    assert forall|j: int, k: int|
        0 <= j < s2.len() && 0 <= k < 64 && to_evaluate(g0, q0, s2, j, k) implies (#[trigger] s2[j].cells@[k]).alive_next
        == cell_target(g0, s2[j].x, s2[j].y, k) || pending(q2, s2[j].x, s2[j].y, k) by {
        if j == i && k == idx {
        } else {
            assert(s2[j].cells@[k] == s[j].cells@[k]);
            if s[j].cells@[k].alive_next != cell_target(g0, s[j].x, s[j].y, k) {
                assert(pending(q, s[j].x, s[j].y, k));
                if seq![a].contains(Action::EvaluateCell { x: s[j].x, y: s[j].y, idx: k as usize }) {
                    lemma_holds_unique(s, i, j, x as int, y as int);
                }
            }
        }
    }
    assert forall|j: int, k: int|
        0 <= j < g0.len() && 0 <= k < 64 && (#[trigger] g0[j].cells@[k]).alive_current && pending(q0, g0[j].x, g0[j].y, k) implies pending(
        q2,
        g0[j].x,
        g0[j].y,
        k,
    ) || covered(
        s2,
        q2,
        global_of(g0[j].x as int, g0[j].y as int, k).0,
        global_of(g0[j].x as int, g0[j].y as int, k).1,
    ) by {
        let gj = global_of(g0[j].x as int, g0[j].y as int, k);
        assert(s[j].x == g0[j].x && s[j].y == g0[j].y);
        if j == i && k == idx {
            assert(s[i].cells@[idx as int].alive_current);
            assert forall|jj: int| 0 <= jj < 8 implies requested(
                s2,
                q2,
                #[trigger] neighbour_chunk(gj.0, gj.1, jj),
            ) by {
                assert(requested(s, q2, neighbour_chunk(gj.0, gj.1, jj)));
            }
        } else {
            if seq![a].contains(Action::EvaluateCell { x: g0[j].x, y: g0[j].y, idx: k as usize }) {
                lemma_holds_unique(s, i, j, x as int, y as int);
            }
            if !pending(q, g0[j].x, g0[j].y, k) {
                assert forall|jj: int| 0 <= jj < 8 implies requested(
                    s2,
                    q2,
                    #[trigger] neighbour_chunk(gj.0, gj.1, jj),
                ) by {
                    let cc = neighbour_chunk(gj.0, gj.1, jj);
                    assert(requested(s, q, cc));
                }
            }
        }
    }
    assert forall|x2: i32, y2: i32| #[trigger] q.contains(Action::CreateChunk { x: x2, y: y2 }) implies q2.contains(
        Action::CreateChunk { x: x2, y: y2 },
    ) || present(s2, x2 as int, y2 as int) by {
        assert(!seq![a].contains(Action::CreateChunk { x: x2, y: y2 }));
    }
    assert forall|j: int, k: int| 0 <= j < g0.len() && 0 <= k < 64 implies #[trigger] left_alone(
        s,
        q,
        s2,
        q2,
        j,
        k,
    ) by {
        if !pending(q, s[j].x, s[j].y, k) {
            let e1 = Action::EvaluateChunk { x: s[j].x, y: s[j].y };
            let e2 = Action::EvaluateCell { x: s[j].x, y: s[j].y, idx: k as usize };
            if p.contains(e1) {
                let m = choose|m: int| 0 <= m < p.len() && p[m] == e1;
                assert(creates_neighbour(g.0, g.1, p[m]));
            }
            if p.contains(e2) {
                let m = choose|m: int| 0 <= m < p.len() && p[m] == e2;
                assert(creates_neighbour(g.0, g.1, p[m]));
            }
            if j == i && k == idx {
                assert(q.contains(a));
            } else {
                assert(s2[j].cells@[k] == s[j].cells@[k]);
            }
        }
    }
    lemma_side_step(g0, q0, s, q, s2, q2);
}


/// `t` is `s` with each next state moved into the current buffer and the next buffer cleared.
pub open spec fn swapped(s: Seq<Chunk>, t: Seq<Chunk>) -> bool {
    &&& t.len() == s.len()
    &&& forall|i: int| 0 <= i < s.len() ==> (#[trigger] t[i]).x == s[i].x && t[i].y == s[i].y
        && t[i].cells@.len() == s[i].cells@.len()
    &&& forall|i: int, k: int|
        0 <= i < s.len() && 0 <= k < s[i].cells@.len() ==> #[trigger] t[i].cells@[k] == (Cell {
            alive_current: s[i].cells@[k].alive_next,
            alive_next: false,
        })
}

/// Every cell of `g0` has work queued in `q0`.
pub open spec fn all_queued(g0: Seq<Chunk>, q0: Seq<Action>) -> bool {
    forall|i: int, k: int|
        0 <= i < g0.len() && 0 <= k < 64 ==> #[trigger] pending(q0, g0[i].x, g0[i].y, k)
}

/// What draining the queue `q0` and swapping the buffers makes of the chunks `g0`:
/// chunks keep their place; each cell with queued work, and each cell of a new
/// chunk, takes its Conway successor state; each other cell takes its former next
/// state; every next state is cleared; new chunks are the asked-for ones and those
/// that a live cell needs. When every cell has work queued, every chunk that a live
/// cell needs exists and the current generation is the successor of `g0`.
pub open spec fn drained(g0: Seq<Chunk>, q0: Seq<Action>, t: Seq<Chunk>) -> bool {
    &&& chunks_wf(t)
    &&& g0.len() <= t.len()
    &&& forall|i: int| 0 <= i < g0.len() ==> (#[trigger] t[i]).x == g0[i].x && t[i].y == g0[i].y
    &&& forall|i: int, k: int|
        0 <= i < t.len() && 0 <= k < 64 ==> !(#[trigger] t[i].cells@[k]).alive_next
    &&& forall|i: int, k: int|
        0 <= i < g0.len() && 0 <= k < 64 ==> (#[trigger] t[i].cells@[k]).alive_current == if pending(
            q0,
            g0[i].x,
            g0[i].y,
            k,
        ) {
            cell_target(g0, g0[i].x, g0[i].y, k)
        } else {
            g0[i].cells@[k].alive_next
        }
    &&& forall|i: int, k: int|
        g0.len() <= i < t.len() && 0 <= k < 64 ==> (#[trigger] t[i].cells@[k]).alive_current
            == cell_target(g0, t[i].x, t[i].y, k)
    &&& forall|cx: int, cy: int|
        in_range((cx, cy)) && #[trigger] present(t, cx, cy) ==> present(g0, cx, cy) || wanted(
            g0,
            cx,
            cy,
        ) || q0.contains(Action::CreateChunk { x: cx as i32, y: cy as i32 })
    &&& forall|x: i32, y: i32|
        #[trigger] q0.contains(Action::CreateChunk { x, y }) ==> present(t, x as int, y as int)
    &&& all_queued(g0, q0) ==> forall|cx: int, cy: int|
        in_range((cx, cy)) && #[trigger] wanted(g0, cx, cy) ==> present(t, cx, cy)
    &&& all_queued(g0, q0) ==> forall|gx: int, gy: int|
        in_range(chunk_of(gx, gy)) ==> #[trigger] alive_in(t, gx, gy) == next_alive(g0, gx, gy)
}

/// Once the queue is empty, every cell to evaluate holds its next state, every
/// other cell keeps it, and chunks exist where they were asked for or needed.
pub proof fn lemma_drain_done(g0: Seq<Chunk>, q0: Seq<Action>, s: Seq<Chunk>)
    requires
        drain_inv(g0, q0, s, Seq::<Action>::empty()),
    ensures
        forall|i: int, k: int|
            0 <= i < s.len() && 0 <= k < 64 && to_evaluate(g0, q0, s, i, k) ==> (
            #[trigger] s[i].cells@[k]).alive_next == cell_target(g0, s[i].x, s[i].y, k),
        forall|cx: int, cy: int|
            in_range((cx, cy)) && #[trigger] present(s, cx, cy) ==> present(g0, cx, cy) || wanted(
                g0,
                cx,
                cy,
            ) || q0.contains(Action::CreateChunk { x: cx as i32, y: cy as i32 }),
        forall|x: i32, y: i32|
            #[trigger] q0.contains(Action::CreateChunk { x, y }) ==> present(s, x as int, y as int),
        all_queued(g0, q0) ==> forall|cx: int, cy: int|
            in_range((cx, cy)) && #[trigger] wanted(g0, cx, cy) ==> present(s, cx, cy),
        all_queued(g0, q0) ==> forall|gx: int, gy: int|
            in_range(chunk_of(gx, gy)) && !present(s, chunk_of(gx, gy).0, chunk_of(gx, gy).1)
                ==> !(#[trigger] next_alive(g0, gx, gy)),
{
    let q = Seq::<Action>::empty();
    assert forall|cx: int, cy: int|
        in_range((cx, cy)) && #[trigger] present(s, cx, cy) implies present(g0, cx, cy) || wanted(
        g0,
        cx,
        cy,
    ) || q0.contains(Action::CreateChunk { x: cx as i32, y: cy as i32 }) by {
        let i = choose|i: int| holds(s, i, cx, cy);
        if i < g0.len() {
            assert(holds(g0, i, cx, cy));
        }
    }
    assert forall|x: i32, y: i32| #[trigger] q0.contains(Action::CreateChunk { x, y }) implies present(
        s,
        x as int,
        y as int,
    ) by {
        assert(requested(s, q, (x as int, y as int)));
    }
    if all_queued(g0, q0) {
        assert forall|cx: int, cy: int|
            in_range((cx, cy)) && #[trigger] wanted(g0, cx, cy) implies present(s, cx, cy) by {
            lemma_wanted_present(g0, q0, s, cx, cy);
        }
        assert forall|gx: int, gy: int|
            in_range(chunk_of(gx, gy)) && !present(
                s,
                chunk_of(gx, gy).0,
                chunk_of(gx, gy).1,
            ) implies !(#[trigger] next_alive(g0, gx, gy)) by {
            let c = chunk_of(gx, gy);
            lemma_frozen(g0, s, c.0, c.1);
            if alive_in(g0, gx, gy) {
                let i = choose|i: int| #[trigger] holds(g0, i, c.0, c.1)
                    && g0[i].cells@[local_of(gx, gy)].alive_current;
                assert(holds(s, i, c.0, c.1));
            }
            assert forall|j: int| 0 <= j < 8 implies !#[trigger] neighbour_alive(g0, gx, gy, j) by {
                if neighbour_alive(g0, gx, gy, j) {
                    let hx = gx + offset_x(j);
                    let hy = gy + offset_y(j);
                    let jj = 7 - j;
                    assert(hx + offset_x(jj) == gx && hy + offset_y(jj) == gy);
                    assert(alive_in(g0, hx, hy));
                    assert(chunk_of(hx + offset_x(jj), hy + offset_y(jj)) == c);
                    assert(wanted(g0, c.0, c.1));
                    lemma_wanted_present(g0, q0, s, c.0, c.1);
                }
            }
            lemma_count_zero(g0, gx, gy);
        }
    }
}

proof fn lemma_wanted_present(g0: Seq<Chunk>, q0: Seq<Action>, s: Seq<Chunk>, cx: int, cy: int)
    requires
        drain_inv(g0, q0, s, Seq::<Action>::empty()),
        all_queued(g0, q0),
        in_range((cx, cy)),
        wanted(g0, cx, cy),
    ensures
        present(s, cx, cy),
{
    let q = Seq::<Action>::empty();
    let (gx, gy, j) = choose|gx: int, gy: int, j: int|
        0 <= j < 8 && #[trigger] alive_in(g0, gx, gy) && #[trigger] chunk_of(
            gx + offset_x(j),
            gy + offset_y(j),
        ) == (cx, cy);
    let c = chunk_of(gx, gy);
    let k = local_of(gx, gy);
    lemma_resolve_inverse(gx, gy);
    let i = choose|i: int| #[trigger] holds(g0, i, c.0, c.1) && g0[i].cells@[k].alive_current;
    assert(g0[i].cells@[k].alive_current);
    assert(pending(q0, g0[i].x, g0[i].y, k));
    assert(!q.contains(Action::EvaluateChunk { x: g0[i].x, y: g0[i].y }));
    assert(!q.contains(Action::EvaluateCell { x: g0[i].x, y: g0[i].y, idx: k as usize }));
    assert(global_of(g0[i].x as int, g0[i].y as int, k) == (gx, gy));
    assert(covered(s, q, gx, gy));
    assert(requested(s, q, neighbour_chunk(gx, gy, j)));
    assert(!q.contains(create_cmd((cx, cy))));
}

/// Swapping the buffers once the queue is empty gives the result that `drained` states.
pub proof fn lemma_drain_result(g0: Seq<Chunk>, q0: Seq<Action>, s: Seq<Chunk>, t: Seq<Chunk>)
    requires
        drain_inv(g0, q0, s, Seq::<Action>::empty()),
        swapped(s, t),
    ensures
        drained(g0, q0, t),
{
    lemma_drain_done(g0, q0, s);
    lemma_same_coords(s, t);
    assert forall|j: int| 0 <= j < t.len() implies (#[trigger] t[j]).wf() by {
        assert(s[j].wf());
    }
    assert forall|j: int, j2: int|
        0 <= j < t.len() && 0 <= j2 < t.len() && j != j2 implies !(#[trigger] t[j].x
        == #[trigger] t[j2].x && t[j].y == t[j2].y) by {
        assert(t[j].x == s[j].x && t[j2].x == s[j2].x);
    }
    assert forall|i: int| 0 <= i < g0.len() implies (#[trigger] t[i]).x == g0[i].x && t[i].y
        == g0[i].y by {
        assert(s[i].x == g0[i].x);
    }
    assert forall|i: int, k: int| 0 <= i < t.len() && 0 <= k < 64 implies !(
    #[trigger] t[i].cells@[k]).alive_next by {
        assert(s[i].wf());
    }
    assert forall|i: int, k: int| 0 <= i < g0.len() && 0 <= k < 64 implies (
    #[trigger] t[i].cells@[k]).alive_current == if pending(q0, g0[i].x, g0[i].y, k) {
        cell_target(g0, g0[i].x, g0[i].y, k)
    } else {
        g0[i].cells@[k].alive_next
    } by {
        assert(s[i].wf());
        assert(s[i].x == g0[i].x && s[i].y == g0[i].y);
        assert(s[i].cells@[k].alive_next == t[i].cells@[k].alive_current);
        assert(untouched_at(g0, q0, s, Seq::<Action>::empty(), i, k));
        if pending(q0, g0[i].x, g0[i].y, k) {
            assert(to_evaluate(g0, q0, s, i, k));
        }
    }
    assert forall|i: int, k: int| g0.len() <= i < t.len() && 0 <= k < 64 implies (
    #[trigger] t[i].cells@[k]).alive_current == cell_target(g0, t[i].x, t[i].y, k) by {
        assert(s[i].wf());
        assert(to_evaluate(g0, q0, s, i, k));
        assert(s[i].cells@[k].alive_next == t[i].cells@[k].alive_current);
    }
    if all_queued(g0, q0) {
        assert forall|gx: int, gy: int| in_range(chunk_of(gx, gy)) implies #[trigger] alive_in(
            t,
            gx,
            gy,
        ) == next_alive(g0, gx, gy) by {
            lemma_swap_cell(g0, q0, s, t, gx, gy);
        }
    }
}

/// With every cell queued, a cell's state after the swap is its Conway successor.
proof fn lemma_swap_cell(g0: Seq<Chunk>, q0: Seq<Action>, s: Seq<Chunk>, t: Seq<Chunk>, gx: int, gy: int)
    requires
        drain_inv(g0, q0, s, Seq::<Action>::empty()),
        swapped(s, t),
        all_queued(g0, q0),
        in_range(chunk_of(gx, gy)),
    ensures
        alive_in(t, gx, gy) == next_alive(g0, gx, gy),
{
    lemma_drain_done(g0, q0, s);
    let c = chunk_of(gx, gy);
    let k = local_of(gx, gy);
    lemma_resolve_inverse(gx, gy);
    lemma_same_coords(s, t);
    if present(s, c.0, c.1) {
        let i = choose|i: int| holds(s, i, c.0, c.1);
        assert(holds(t, i, c.0, c.1));
        assert(s[i].wf());
        if i < g0.len() {
            assert(s[i].x == g0[i].x && s[i].y == g0[i].y);
            assert(pending(q0, g0[i].x, g0[i].y, k));
        }
        assert(to_evaluate(g0, q0, s, i, k));
        assert(t[i].cells@[k].alive_current == s[i].cells@[k].alive_next);
        if alive_in(t, gx, gy) {
            let i2 = choose|i2: int| #[trigger] holds(t, i2, c.0, c.1)
                && t[i2].cells@[k].alive_current;
            assert(holds(s, i2, c.0, c.1));
            lemma_holds_unique(s, i, i2, c.0, c.1);
        }
    } else {
        if alive_in(t, gx, gy) {
            let i2 = choose|i2: int| #[trigger] holds(t, i2, c.0, c.1)
                && t[i2].cells@[k].alive_current;
            assert(holds(s, i2, c.0, c.1));
        }
    }
}

/// Some cell `k` of the chunk at `(x, y)` in `g0` is alive.
pub open spec fn live_cell(g0: Seq<Chunk>, x: int, y: int, k: int) -> bool {
    exists|i: int| #[trigger] holds(g0, i, x, y) && g0[i].cells@[k].alive_current
}

/// Termination measure, first part: evaluations of chunks of the snapshot.
pub open spec fn chunk_weight(g0: Seq<Chunk>) -> spec_fn(Action) -> nat {
    |a: Action|
        match a {
            Action::EvaluateChunk { x, y } => if present(g0, x as int, y as int) {
                1nat
            } else {
                0nat
            },
            _ => 0nat,
        }
}

/// Termination measure, second part: evaluations of cells alive in the snapshot.
pub open spec fn live_weight(g0: Seq<Chunk>) -> spec_fn(Action) -> nat {
    |a: Action|
        match a {
            Action::EvaluateCell { x, y, idx } => if live_cell(g0, x as int, y as int, idx as int) {
                1nat
            } else {
                0nat
            },
            _ => 0nat,
        }
}

/// Termination measure, last part: work that each action can still give rise to.
pub open spec fn work_weight() -> spec_fn(Action) -> nat {
    |a: Action|
        match a {
            Action::CreateChunk { .. } => 66nat,
            Action::EvaluateChunk { .. } => 65nat,
            _ => 1nat,
        }
}


/// One evaluation command per chunk of `s`, in the order of `s`.
pub open spec fn chunk_commands(s: Seq<Chunk>) -> Seq<Action> {
    Seq::new(s.len(), |i: int| Action::EvaluateChunk { x: s[i].x, y: s[i].y })
}

/// Evaluations in `q` name existing chunks and cells.
pub open spec fn queue_ok(s: Seq<Chunk>, q: Seq<Action>) -> bool {
    forall|n: int|
        0 <= n < q.len() ==> match #[trigger] q[n] {
            Action::EvaluateChunk { x, y } => present(s, x as int, y as int),
            Action::EvaluateCell { x, y, idx } => present(s, x as int, y as int) && idx
                < CHUNK_AREA,
            _ => true,
        }
}

/// A drain starts with its invariant holding.
pub proof fn lemma_drain_init(s: Seq<Chunk>, q: Seq<Action>)
    requires
        chunks_wf(s),
        queue_ok(s, q),
    ensures
        drain_inv(s, q, s, q),
{
    assert forall|n: int| 0 <= n < q.len() implies action_ok(s, q, s, #[trigger] q[n]) by {
        if q[n] is CreateChunk {
            assert(q.contains(q[n]));
        }
    }
    assert forall|x: i32, y: i32| #[trigger] q.contains(Action::CreateChunk { x, y }) implies requested(
        s,
        q,
        (x as int, y as int),
    ) by {
        assert(create_cmd((x as int, y as int)) == Action::CreateChunk { x, y });
    }
}

} // verus!
