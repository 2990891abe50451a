//! Translation between global cell coordinates and (chunk coordinate, local index) pairs.

use vstd::prelude::*;

verus! {

/// Side length of a chunk, in cells.
pub const CHUNK_SIZE: usize = 8;

/// Number of cells in a chunk.
pub const CHUNK_AREA: usize = 64;

/// Global position of local index `idx` of the chunk at `(cx, cy)`.
pub open spec fn global_of(cx: int, cy: int, idx: int) -> (int, int) {
    (cx * 8 + idx % 8, cy * 8 + idx / 8)
}

/// Coordinate of the chunk that owns global position `(gx, gy)` (floor division).
pub open spec fn chunk_of(gx: int, gy: int) -> (int, int) {
    (gx / 8, gy / 8)
}

/// Local index, inside its chunk, of global position `(gx, gy)`.
pub open spec fn local_of(gx: int, gy: int) -> int {
    (gy % 8) * 8 + gx % 8
}

/// Horizontal part of the `j`-th neighbour offset.
pub open spec fn offset_x(j: int) -> int {
    if j == 0 || j == 3 || j == 5 {
        -1
    } else if j == 1 || j == 6 {
        0
    } else {
        1
    }
}

/// Vertical part of the `j`-th neighbour offset.
pub open spec fn offset_y(j: int) -> int {
    if j < 3 {
        -1
    } else if j < 5 {
        0
    } else {
        1
    }
}

/// Resolving a global position and mapping it back gives the same position,
/// for every pair of integers, negative ones included.
pub proof fn lemma_resolve_inverse(gx: int, gy: int)
    ensures
        global_of(chunk_of(gx, gy).0, chunk_of(gx, gy).1, local_of(gx, gy)) == (gx, gy),
        0 <= local_of(gx, gy) < 64,
{
    let lx = gx % 8;
    let ly = gy % 8;
    assert(0 <= lx < 8 && 0 <= ly < 8);
    assert(gx == (gx / 8) * 8 + lx);
    assert(gy == (gy / 8) * 8 + ly);
    assert((ly * 8 + lx) % 8 == lx && (ly * 8 + lx) / 8 == ly) by (nonlinear_arith)
        requires
            0 <= lx < 8,
            0 <= ly < 8,
    ;
}

/// Mapping a chunk coordinate and local index to a global position and resolving
/// it again gives back the same chunk and index.
pub proof fn lemma_global_resolve(cx: int, cy: int, idx: int)
    requires
        0 <= idx < 64,
    ensures
        chunk_of(global_of(cx, cy, idx).0, global_of(cx, cy, idx).1) == (cx, cy),
        local_of(global_of(cx, cy, idx).0, global_of(cx, cy, idx).1) == idx,
{
    let lx = idx % 8;
    let ly = idx / 8;
    assert(0 <= lx < 8 && 0 <= ly < 8);
    assert((cx * 8 + lx) / 8 == cx && (cx * 8 + lx) % 8 == lx) by (nonlinear_arith)
        requires
            0 <= lx < 8,
    ;
    assert((cy * 8 + ly) / 8 == cy && (cy * 8 + ly) % 8 == ly) by (nonlinear_arith)
        requires
            0 <= ly < 8,
    ;
}

/// The `j`-th neighbour offset: all of `{-1, 0, 1}²` but `(0, 0)`, row by row.
pub fn neighbour_offset(j: usize) -> (r: (i64, i64))
    requires
        j < 8,
    ensures
        r.0 == offset_x(j as int),
        r.1 == offset_y(j as int),
{
    let dx: i64 = if j == 0 || j == 3 || j == 5 {
        -1
    } else if j == 1 || j == 6 {
        0
    } else {
        1
    };
    let dy: i64 = if j < 3 {
        -1
    } else if j < 5 {
        0
    } else {
        1
    };
    (dx, dy)
}

/// Global position of local index `idx` of the chunk at `(cx, cy)`.
pub fn global_position(cx: i32, cy: i32, idx: usize) -> (r: (i64, i64))
    requires
        idx < CHUNK_AREA,
    ensures
        (r.0 as int, r.1 as int) == global_of(cx as int, cy as int, idx as int),
{
    let lx = (idx % CHUNK_SIZE) as i64;
    let ly = (idx / CHUNK_SIZE) as i64;
    (cx as i64 * 8 + lx, cy as i64 * 8 + ly)
}

/// Chunk coordinate and local index of global position `(gx, gy)`, by floor division.
pub fn resolve(gx: i64, gy: i64) -> (r: ((i64, i64), usize))
    ensures
        (r.0.0 as int, r.0.1 as int) == chunk_of(gx as int, gy as int),
        r.1 as int == local_of(gx as int, gy as int),
        r.1 < CHUNK_AREA,
{
    let cx = match gx.checked_div_euclid(8) {
        Some(v) => v,
        None => 0,
    };
    let cy = match gy.checked_div_euclid(8) {
        Some(v) => v,
        None => 0,
    };
    let lx = match gx.checked_rem_euclid(8) {
        Some(v) => v,
        None => 0,
    };
    let ly = match gy.checked_rem_euclid(8) {
        Some(v) => v,
        None => 0,
    };
    proof {
        lemma_resolve_inverse(gx as int, gy as int);
    }
    ((cx, cy), (ly * 8 + lx) as usize)
}

} // verus!
