//! Commands held in the universe's work queue.

use vstd::prelude::*;

verus! {

/// One unit of work for the step executor, or a command for the display.
#[derive(Clone, Copy, Debug, PartialEq, Eq, Structural)]
pub enum Action {
    /// Materialise the chunk at `(x, y)` if it does not exist yet.
    CreateChunk { x: i32, y: i32 },
    /// Queue the evaluation of every cell of the chunk at `(x, y)`.
    EvaluateChunk { x: i32, y: i32 },
    /// Compute the next state of cell `idx` of the chunk at `(x, y)`.
    EvaluateCell { x: i32, y: i32, idx: usize },
    /// Move the viewport by `(dx, dy)` chunks.
    PanViewport { dx: i32, dy: i32 },
    /// Switch automatic stepping on or off.
    ToggleAutoRun,
}

impl Action {
    /// Whether the action concerns the display rather than the grid.
    pub open spec fn is_mode(self) -> bool {
        self is PanViewport || self is ToggleAutoRun
    }
}

/// Display state: viewport corner and whether steps run on their own.
pub open spec fn mode_effect(a: Action, vx: i32, vy: i32, auto: bool) -> (i32, i32, bool) {
    match a {
        Action::PanViewport { dx, dy } => (vx.wrapping_add(dx), vy.wrapping_add(dy), auto),
        Action::ToggleAutoRun => (vx, vy, !auto),
        _ => (vx, vy, auto),
    }
}

/// Display state after carrying out, in order, the display commands of `q`.
pub open spec fn modes_after(q: Seq<Action>, vx: i32, vy: i32, auto: bool) -> (i32, i32, bool)
    decreases q.len(),
{
    if q.len() == 0 {
        (vx, vy, auto)
    } else {
        let st = mode_effect(q[0], vx, vy, auto);
        modes_after(q.drop_first(), st.0, st.1, st.2)
    }
}

/// Sum of `f` over the actions of `q`.
pub open spec fn qsum(q: Seq<Action>, f: spec_fn(Action) -> nat) -> nat
    decreases q.len(),
{
    if q.len() == 0 {
        0
    } else {
        f(q[0]) + qsum(q.drop_first(), f)
    }
}

pub proof fn lemma_qsum_push(q: Seq<Action>, a: Action, f: spec_fn(Action) -> nat)
    ensures
        qsum(q.push(a), f) == qsum(q, f) + f(a),
    decreases q.len(),
{
    if q.len() == 0 {
        assert(q.push(a).drop_first() =~= q);
    } else {
        assert(q.push(a).drop_first() =~= q.drop_first().push(a));
        lemma_qsum_push(q.drop_first(), a, f);
    }
}

pub proof fn lemma_qsum_prepend(q: Seq<Action>, a: Action, f: spec_fn(Action) -> nat)
    ensures
        qsum(seq![a] + q, f) == f(a) + qsum(q, f),
{
    assert((seq![a] + q).drop_first() =~= q);
}

pub proof fn lemma_modes_push(q: Seq<Action>, a: Action, vx: i32, vy: i32, auto: bool)
    requires
        !a.is_mode(),
    ensures
        modes_after(q.push(a), vx, vy, auto) == modes_after(q, vx, vy, auto),
    decreases q.len(),
{
    if q.len() == 0 {
        assert(q.push(a).drop_first() =~= q);
    } else {
        assert(q.push(a).drop_first() =~= q.drop_first().push(a));
        let st = mode_effect(q[0], vx, vy, auto);
        lemma_modes_push(q.drop_first(), a, st.0, st.1, st.2);
    }
}

pub proof fn lemma_modes_prepend(q: Seq<Action>, a: Action, vx: i32, vy: i32, auto: bool)
    ensures
        modes_after(seq![a] + q, vx, vy, auto) == {
            let st = mode_effect(a, vx, vy, auto);
            modes_after(q, st.0, st.1, st.2)
        },
{
    assert((seq![a] + q).drop_first() =~= q);
}

} // verus!

verus! {

pub proof fn lemma_qsum_concat(a: Seq<Action>, b: Seq<Action>, f: spec_fn(Action) -> nat)
    ensures
        qsum(a + b, f) == qsum(a, f) + qsum(b, f),
    decreases b.len(),
{
    if b.len() == 0 {
        assert(a + b =~= a);
    } else {
        let b0 = b.drop_last();
        assert(a + b =~= (a + b0).push(b.last()));
        assert(b =~= b0.push(b.last()));
        lemma_qsum_concat(a, b0, f);
        lemma_qsum_push(a + b0, b.last(), f);
        lemma_qsum_push(b0, b.last(), f);
    }
}

pub proof fn lemma_qsum_const(q: Seq<Action>, f: spec_fn(Action) -> nat, c: nat)
    requires
        forall|n: int| 0 <= n < q.len() ==> f(#[trigger] q[n]) == c,
    ensures
        qsum(q, f) == q.len() * c,
    decreases q.len(),
{
    if q.len() > 0 {
        assert forall|n: int| 0 <= n < q.drop_first().len() implies f(
            #[trigger] q.drop_first()[n],
        ) == c by {
            assert(q.drop_first()[n] == q[n + 1]);
        }
        lemma_qsum_const(q.drop_first(), f, c);
        assert(q.len() * c == c + (q.len() - 1) * c) by (nonlinear_arith);
    }
}

pub proof fn lemma_modes_concat(a: Seq<Action>, b: Seq<Action>, vx: i32, vy: i32, auto: bool)
    requires
        forall|n: int| 0 <= n < b.len() ==> !(#[trigger] b[n]).is_mode(),
    ensures
        modes_after(a + b, vx, vy, auto) == modes_after(a, vx, vy, auto),
    decreases b.len(),
{
    if b.len() == 0 {
        assert(a + b =~= a);
    } else {
        let b0 = b.drop_last();
        assert(a + b =~= (a + b0).push(b.last()));
        assert(!b[b.len() - 1].is_mode());
        lemma_modes_push(a + b0, b.last(), vx, vy, auto);
        lemma_modes_concat(a, b0, vx, vy, auto);
    }
}

pub proof fn lemma_modes_prefix(a: Seq<Action>, b: Seq<Action>, vx: i32, vy: i32, auto: bool)
    requires
        forall|n: int| 0 <= n < a.len() ==> !(#[trigger] a[n]).is_mode(),
    ensures
        modes_after(a + b, vx, vy, auto) == modes_after(b, vx, vy, auto),
    decreases a.len(),
{
    if a.len() > 0 {
        assert(a + b =~= seq![a[0]] + (a.drop_first() + b));
        lemma_modes_prepend(a.drop_first() + b, a[0], vx, vy, auto);
        assert forall|n: int| 0 <= n < a.drop_first().len() implies !(
        #[trigger] a.drop_first()[n]).is_mode() by {
            assert(a.drop_first()[n] == a[n + 1]);
        }
        lemma_modes_prefix(a.drop_first(), b, vx, vy, auto);
    }
}

} // verus!
