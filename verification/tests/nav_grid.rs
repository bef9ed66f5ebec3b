use std::collections::HashSet;

use korchevatel::layer::Layer;
use korchevatel::nav_grid::{NavGrid, PathSegment};

const CELL_SIZE: f32 = 100.0;

/// World coordinate to cell coordinate, as the game converts positions (anchor at the origin).
fn cell(v: f32) -> usize {
    (v / CELL_SIZE).floor() as usize
}

/// Cell coordinate to the world coordinate of the cell's centre.
fn world(c: usize) -> f32 {
    (c as f32 + 0.5) * CELL_SIZE
}

struct Rect {
    min: (usize, usize),
    max: (usize, usize),
}

fn rect(min_x: f32, min_y: f32, max_x: f32, max_y: f32) -> Rect {
    Rect {
        min: (cell(min_x.min(max_x)), cell(min_y.min(max_y))),
        max: (cell(min_x.max(max_x)), cell(min_y.max(max_y))),
    }
}

fn add_ground(grid: &mut NavGrid, r: Rect, layer: Layer) {
    grid.add_ground(r.min, r.max, layer.id() as usize - 1);
}

fn add_obstacle(grid: &mut NavGrid, r: Rect, layer: &Layer) {
    grid.add_obstacle(r.min, r.max, layer);
}

fn find_path(
    grid: &NavGrid,
    start: (f32, f32),
    start_layer: Layer,
    target: (f32, f32),
    target_layer: Layer,
    limit: usize,
) -> Option<Vec<PathSegment>> {
    grid.find_path(
        (cell(start.0), cell(start.1)),
        start_layer,
        (cell(target.0), cell(target.1)),
        target_layer,
        limit,
    )
}

fn make_grid() -> NavGrid {
    let mut grid = NavGrid::new(10, 10, 3);
    grid.fill_walkable();
    grid
}

fn path_is_valid(grid: &NavGrid, path: &[PathSegment]) -> bool {
    for seg in path {
        let x = cell(world(seg.x));
        let y = cell(world(seg.y));
        if grid.is_blocked(x, y, seg.layer.id() as usize - 1) {
            return false;
        }
    }
    true
}

#[test]
fn ground_marks_walkable_cells_only_on_its_layer() {
    let mut grid = NavGrid::new(10, 10, 3);
    add_ground(&mut grid, rect(0.0, 0.0, 250.0, 50.0), Layer::new(2));

    assert_eq!(grid.count_walkable(Layer::new(1)), 0);
    assert!(grid.count_walkable(Layer::new(2)) > 0);
    assert_eq!(grid.count_walkable(Layer::new(3)), 0);
}

#[test]
fn ground_is_not_blocking_obstacle() {
    let mut grid = NavGrid::new(10, 10, 3);
    add_ground(&mut grid, rect(0.0, 0.0, 250.0, 50.0), Layer::new(2));

    assert!(grid.count_walkable(Layer::new(2)) > 0);
    assert_eq!(grid.count_blocked(Layer::new(2)), 0);
}

#[test]
fn obstacles_block_only_their_layer() {
    let mut grid = make_grid();
    add_obstacle(&mut grid, rect(100.0, 0.0, 200.0, 100.0), &Layer::new(2));

    assert_eq!(grid.count_blocked(Layer::new(1)), 0);
    assert!(grid.count_blocked(Layer::new(2)) > 0);
    assert_eq!(grid.count_blocked(Layer::new(3)), 0);
}

#[test]
fn find_path_on_same_layer_moves_horizontally() {
    let grid = make_grid();
    let layer = Layer::new(1);

    let path = find_path(&grid, (100.0, 100.0), layer, (700.0, 100.0), layer, 1_000).expect("path");

    assert!(path.len() > 1);
    assert_eq!(path.last().expect("last").layer, layer);
    assert!(world(path.last().expect("last").x) > world(path.first().expect("first").x));
    assert!(path.iter().all(|segment| segment.layer == layer));
}

#[test]
fn find_path_between_layers_uses_intermediate_layers() {
    let grid = make_grid();

    let path = find_path(
        &grid,
        (100.0, 100.0),
        Layer::new(3),
        (100.0, 100.0),
        Layer::new(1),
        1_000,
    )
    .expect("path");

    let used_layers = path.iter().map(|p| p.layer.id()).collect::<Vec<_>>();
    assert_eq!(used_layers, vec![3, 2, 1]);
}

#[test]
fn find_path_avoids_blocked_intermediate_layer_cells() {
    let mut grid = make_grid();
    add_obstacle(&mut grid, rect(0.0, 0.0, 100.0, 1_000.0), &Layer::new(2));

    let path = find_path(&grid, (50.0, 50.0), Layer::new(3), (50.0, 50.0), Layer::new(1), 1_000)
        .expect("path");

    let layer_2_segment = path
        .iter()
        .find(|segment| segment.layer == Layer::new(2))
        .expect("layer 2 segment");

    assert!(world(layer_2_segment.x) >= 150.0);
    assert!(path_is_valid(&grid, &path));
}

#[test]
fn find_path_returns_none_when_no_standable_start_or_target() {
    let mut grid = NavGrid::new(10, 10, 3);
    add_ground(&mut grid, rect(0.0, 0.0, 200.0, 100.0), Layer::new(1));

    assert!(find_path(&grid, (50.0, 50.0), Layer::new(1), (850.0, 50.0), Layer::new(1), 1_000).is_none());

    assert!(find_path(&grid, (850.0, 50.0), Layer::new(1), (50.0, 50.0), Layer::new(1), 1_000).is_none());
}

#[test]
fn find_path_through_layers_and_obstacles() {
    let mut grid = make_grid();
    let layer1 = Layer::new(1);
    let layer2 = Layer::new(2);
    let layer3 = Layer::new(3);

    // A wall across x.
    add_obstacle(&mut grid, rect(300.0, 0.0, 400.0, 1000.0), &layer1);

    // A wall across y.
    add_obstacle(&mut grid, rect(0.0, 500.0, 1000.0, 600.0), &layer2);

    // One blocked cell on layer 3.
    add_obstacle(&mut grid, rect(600.0, 600.0, 700.0, 700.0), &layer3);

    // Start and target need a detour in x and y and a layer change.
    let path = find_path(&grid, (100.0, 100.0), layer1, (900.0, 900.0), layer3, 50_000);

    assert!(path.is_some(), "Path should exist");
    let path = path.expect("path");

    assert!(path.len() > 2, "Path should have multiple segments");

    assert!(path_is_valid(&grid, &path), "Path must not go through obstacles");

    let last = path.last().expect("last path segment");
    assert_eq!(last.layer.id(), 3);

    let used_layers = path.iter().map(|p| p.layer.id()).collect::<HashSet<_>>();
    assert!(used_layers.len() > 1, "Path should include layer changes");
}
