use life::action::Action;
use life::chunk::{Chunk, Glyph};
use life::resolver::{global_position, neighbour_offset, resolve, CHUNK_AREA, CHUNK_SIZE};
use life::universe::Universe;

fn seed(u: &mut Universe, cells: &[(i64, i64)]) {
    for &(gx, gy) in cells {
        let ((cx, cy), k) = resolve(gx, gy);
        let (cx, cy) = (cx as i32, cy as i32);
        match u.find_chunk(cx, cy) {
            Some(i) => u.chunks[i].set_alive(k, true),
            None => {
                let mut c = Chunk::new(cx, cy);
                c.set_alive(k, true);
                u.insert_chunk(c);
            }
        }
    }
}

fn live(u: &Universe, lo: i64, hi: i64) -> Vec<(i64, i64)> {
    let mut out = Vec::new();
    for y in lo..hi {
        for x in lo..hi {
            if u.is_alive(x, y) {
                out.push((x, y));
            }
        }
    }
    out
}

fn sorted(mut v: Vec<(i64, i64)>) -> Vec<(i64, i64)> {
    v.sort();
    v
}

fn shifted(v: &[(i64, i64)], dx: i64, dy: i64) -> Vec<(i64, i64)> {
    sorted(v.iter().map(|&(x, y)| (x + dx, y + dy)).collect())
}

#[test]
fn resolve_floors_negative_coordinates() {
    assert_eq!(resolve(-1, -1), ((-1, -1), 7 * CHUNK_SIZE + 7));
    assert_eq!(resolve(-8, -9), ((-1, -2), 7 * CHUNK_SIZE));
    assert_eq!(resolve(0, 0), ((0, 0), 0));
    assert_eq!(resolve(13, 7), ((1, 0), 7 * CHUNK_SIZE + 5));
}

#[test]
fn resolve_then_global_position_is_identity() {
    for gy in -20i64..20 {
        for gx in -20i64..20 {
            let ((cx, cy), k) = resolve(gx, gy);
            assert!(k < CHUNK_AREA);
            assert_eq!(global_position(cx as i32, cy as i32, k), (gx, gy));
        }
    }
    let ((cx, cy), k) = resolve(i64::MIN, i64::MAX);
    assert_eq!((cx, cy, k), (i64::MIN / 8, i64::MAX / 8, 7 * CHUNK_SIZE));
}

#[test]
fn global_position_exact_values() {
    assert_eq!(global_position(-1, 2, 10), (-6, 17));
    assert_eq!(global_position(0, 0, 63), (7, 7));
    assert_eq!(global_position(i32::MIN, i32::MAX, 0), (i32::MIN as i64 * 8, i32::MAX as i64 * 8));
}

#[test]
fn neighbour_offsets_cover_the_ring() {
    let got: Vec<(i64, i64)> = (0..8).map(neighbour_offset).collect();
    assert_eq!(
        got,
        vec![(-1, -1), (0, -1), (1, -1), (-1, 0), (1, 0), (-1, 1), (0, 1), (1, 1)]
    );
}

#[test]
fn chunk_queries() {
    let mut c = Chunk::new(2, -3);
    assert!(c.is_dead());
    assert_eq!(c.cells.len(), CHUNK_AREA);
    c.set_alive(9, true);
    assert!(c.is_alive_at(9));
    assert!(!c.is_alive_at(10));
    assert!(!c.is_dead());
    assert!(c.within_viewport(0, -5));
    assert!(c.within_viewport(-2, -7));
    assert!(!c.within_viewport(3, -3));
    assert!(!c.within_viewport(0, -2));
    assert!(!c.within_viewport(-3, -3));
}

#[test]
fn neighbours_are_counted_across_chunk_edges() {
    let mut u = Universe::new();
    seed(&mut u, &[(-1, -1), (0, -1), (1, -1), (-1, 0), (1, 1), (5, 5)]);
    // cell (0, 0) is index 0 of chunk (0, 0); its neighbours lie in four chunks
    assert_eq!(u.check_neighbours(0, 0, 0), 5);
    // cell (-1, 1) sits in chunk (-1, 0); neighbour chunk (-1, 1) is missing
    let ((cx, cy), k) = resolve(-1, 1);
    assert_eq!(u.check_neighbours(cx as i32, cy as i32, k), 1);
    assert_eq!(u.check_neighbours(0, 0, 4 * CHUNK_SIZE + 4), 1);
}

#[test]
fn still_life_block() {
    let mut u = Universe::new();
    let block = vec![(3, 3), (4, 3), (3, 4), (4, 4)];
    seed(&mut u, &block);
    for _ in 0..6 {
        u.step();
        assert_eq!(live(&u, -10, 20), block);
    }
    assert_eq!(u.chunks.len(), 1);
    assert_eq!(u.generation, 6);
}

#[test]
fn blinker_oscillates() {
    let mut u = Universe::new();
    let horizontal = vec![(2, 4), (3, 4), (4, 4)];
    let vertical = vec![(3, 3), (3, 4), (3, 5)];
    seed(&mut u, &horizontal);
    u.step();
    assert_eq!(sorted(live(&u, -10, 20)), sorted(vertical.clone()));
    u.step();
    assert_eq!(live(&u, -10, 20), horizontal);
    u.step();
    assert_eq!(sorted(live(&u, -10, 20)), sorted(vertical));
}

#[test]
fn blinker_across_a_chunk_edge() {
    let mut u = Universe::new();
    seed(&mut u, &[(-1, 0), (0, 0), (1, 0)]);
    u.step();
    assert_eq!(sorted(live(&u, -10, 10)), vec![(0, -1), (0, 0), (0, 1)]);
    u.step();
    assert_eq!(sorted(live(&u, -10, 10)), vec![(-1, 0), (0, 0), (1, 0)]);
}

#[test]
fn glider_translates_and_grows() {
    let mut u = Universe::new();
    seed(&mut u, &[(1, 1), (3, 2), (1, 3), (2, 3), (3, 3)]);
    u.step();
    let first = sorted(live(&u, -10, 60));
    assert_eq!(first.len(), 5);
    for _ in 0..4 {
        u.step();
    }
    assert_eq!(sorted(live(&u, -10, 60)), shifted(&first, 1, 1));
    for _ in 0..56 {
        u.step();
    }
    let later = sorted(live(&u, -10, 60));
    assert_eq!(later, shifted(&first, 15, 15));
    assert!(u.has_chunk(1, 1));
    assert!(u.has_chunk(2, 2));
}

#[test]
fn standard_glider_moves_one_cell_in_four_steps() {
    let mut u = Universe::new();
    let glider = vec![(2, 1), (3, 2), (1, 3), (2, 3), (3, 3)];
    seed(&mut u, &glider);
    for _ in 0..4 {
        u.step();
    }
    assert_eq!(sorted(live(&u, -10, 20)), shifted(&glider, 1, 1));
}

#[test]
fn empty_grid_step_only_counts() {
    let mut u = Universe::new();
    u.step();
    assert_eq!(u.chunks.len(), 0);
    assert_eq!(u.generation, 1);
    assert_eq!(u.actions.len(), 0);
}

#[test]
fn creating_twice_keeps_one_chunk() {
    let mut u = Universe::new();
    assert!(u.create_chunk(0, 0));
    u.chunks[0].set_alive(9, true);
    assert!(!u.create_chunk(0, 0));
    assert_eq!(u.chunks.len(), 1);
    assert!(u.chunks[0].is_alive_at(9));
    assert!(u.create_chunk(-1, 0));
    assert_eq!(u.chunks.len(), 2);
    assert!(u.chunks[1].is_dead());
}

#[test]
fn interior_pattern_creates_no_chunk() {
    let mut u = Universe::new();
    seed(&mut u, &[(3, 3), (4, 3), (3, 4), (4, 4), (2, 6), (3, 6), (4, 6)]);
    u.step();
    assert_eq!(u.chunks.len(), 1);
}

#[test]
fn live_edge_cell_creates_neighbour_chunks() {
    let mut u = Universe::new();
    seed(&mut u, &[(0, 0)]);
    u.step();
    assert_eq!(u.chunks.len(), 4);
    for &(x, y) in &[(0, 0), (-1, -1), (0, -1), (-1, 0)] {
        assert!(u.has_chunk(x, y));
    }
    assert!(!u.has_chunk(1, 0));
    assert_eq!(live(&u, -10, 10), vec![]);
}

#[test]
fn birth_in_a_new_chunk() {
    let mut u = Universe::new();
    // three live cells on the left edge of chunk (0, 0) give birth at (-1, 1)
    seed(&mut u, &[(0, 0), (0, 1), (0, 2)]);
    u.step();
    assert_eq!(sorted(live(&u, -10, 10)), vec![(-1, 1), (0, 1), (1, 1)]);
    assert!(u.has_chunk(-1, 0));
}

#[test]
fn display_commands_run_at_the_next_step() {
    let mut u = Universe::new();
    u.pan_viewport(1, 0);
    u.pan_viewport(0, -2);
    u.toggle_auto_run();
    assert_eq!(u.actions.len(), 3);
    assert!(matches!(u.actions[2], Action::ToggleAutoRun));
    assert_eq!((u.vx, u.vy, u.auto), (0, 0, false));
    u.step();
    assert_eq!((u.vx, u.vy, u.auto), (1, -2, true));
    u.toggle_auto_run();
    u.step();
    assert!(!u.auto);
}

#[test]
fn pan_wraps_at_the_coordinate_limit() {
    let mut u = Universe::new();
    u.vx = i32::MAX;
    u.pan_viewport(1, 0);
    u.step();
    assert_eq!(u.vx, i32::MIN);
}

#[test]
fn render_lists_cells_in_the_viewport() {
    let mut u = Universe::new();
    seed(&mut u, &[(1, 0), (-1, 0)]);
    let frame = u.render();
    // chunk (0, 0) is in view, chunk (-1, 0) is not
    assert_eq!(frame.len(), CHUNK_AREA);
    assert_eq!(frame[1], Glyph { column: 1, row: 0, alive: true });
    assert_eq!(frame[8], Glyph { column: 0, row: 1, alive: false });
    assert_eq!(frame.iter().filter(|g| g.alive).count(), 1);
    u.pan_viewport(-1, 0);
    u.step();
    let frame = u.render();
    let alive: Vec<(i64, i64)> = frame.iter().filter(|g| g.alive).map(|g| (g.column, g.row)).collect();
    assert!(alive.is_empty());
    assert!(frame.iter().any(|g| g.column == 0 && g.row == 0));
}

#[test]
fn no_chunk_is_created_beyond_the_coordinate_range() {
    let mut u = Universe::new();
    let edge = i32::MAX as i64 * 8 + 7;
    seed(&mut u, &[(edge, 0)]);
    assert!(u.has_chunk(i32::MAX, 0));
    u.step();
    assert_eq!(u.chunks.len(), 2);
    assert!(u.has_chunk(i32::MAX, -1));
    assert!(!u.is_alive(edge, 0));
}

#[test]
fn executor_applies_the_rule_and_swaps_buffers() {
    let mut u = Universe::new();
    seed(&mut u, &[(2, 3), (4, 3)]);
    u.actions.push_back(Action::EvaluateChunk { x: 0, y: 0 });
    u.execute_actions();
    assert_eq!(live(&u, -10, 20), vec![]);
    assert!(u.chunks[0].cells.iter().all(|c| !c.alive_next));
    assert_eq!(u.actions.len(), 0);
    assert_eq!(u.generation, 0);
}

#[test]
fn executor_keeps_a_blinker_turning() {
    let mut u = Universe::new();
    seed(&mut u, &[(2, 4), (3, 4), (4, 4)]);
    u.actions.push_back(Action::EvaluateChunk { x: 0, y: 0 });
    u.execute_actions();
    assert_eq!(sorted(live(&u, -10, 20)), vec![(3, 3), (3, 4), (3, 5)]);
}

#[test]
fn executor_creates_a_requested_chunk_once() {
    let mut u = Universe::new();
    u.actions.push_back(Action::CreateChunk { x: 2, y: 3 });
    u.actions.push_back(Action::CreateChunk { x: 2, y: 3 });
    u.execute_actions();
    assert_eq!(u.chunks.len(), 1);
    assert!(u.has_chunk(2, 3));
    assert!(u.chunks[0].is_dead());
    assert_eq!(u.actions.len(), 0);
}

#[test]
fn executor_leaves_unqueued_cells_with_their_next_state() {
    let mut u = Universe::new();
    seed(&mut u, &[(1, 1), (9, 1)]);
    // only chunk (1, 0) is evaluated; chunk (0, 0) takes its cleared next state
    u.actions.push_back(Action::EvaluateChunk { x: 1, y: 0 });
    u.execute_actions();
    assert_eq!(live(&u, -10, 20), vec![]);
    assert_eq!(u.chunks.len(), 2);
}

#[test]
fn executor_carries_out_display_commands() {
    let mut u = Universe::new();
    u.actions.push_back(Action::PanViewport { dx: 1, dy: -1 });
    u.actions.push_back(Action::ToggleAutoRun);
    u.execute_actions();
    assert_eq!((u.vx, u.vy, u.auto), (1, -1, true));
    assert_eq!(u.chunks.len(), 0);
}
