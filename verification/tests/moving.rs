use korchevatel::hit::{bullet_hole_sprite, BULLET_HOLE_SPRITES};
use korchevatel::layer::Layer;
use korchevatel::movement::{
    axis, layer_change_target, z_direction_towards, Direction, GroundProbe, LayerChange,
    ProbeStep,
};
use korchevatel::nav_grid::NavGrid;

#[test]
fn layer_change_follows_command() {
    assert_eq!(layer_change_target(Layer::new(2), 0, 4), LayerChange::NoCommand);
    assert_eq!(layer_change_target(Layer::new(2), 1, 4), LayerChange::To(Layer::new(3)));
    assert_eq!(layer_change_target(Layer::new(2), -1, 4), LayerChange::To(Layer::new(1)));
}

#[test]
fn layer_change_stays_within_gameplay_layers() {
    assert_eq!(layer_change_target(Layer::new(1), -1, 4), LayerChange::OutOfRange);
    assert_eq!(layer_change_target(Layer::new(3), 1, 4), LayerChange::OutOfRange);
    assert_eq!(layer_change_target(Layer::new(3), -5, 4), LayerChange::To(Layer::new(2)));
}

#[test]
fn ground_probe_lands_on_ground() {
    let mut probe = GroundProbe::new();
    assert_eq!(probe.record(Some(true)), ProbeStep::CastAgain);
    assert_eq!(probe.record(None), ProbeStep::Ground);

    let mut probe = GroundProbe::new();
    assert_eq!(probe.record(Some(true)), ProbeStep::CastAgain);
    assert_eq!(probe.record(Some(true)), ProbeStep::Ground);
}

#[test]
fn ground_probe_refuses_obstacles_and_void() {
    let mut probe = GroundProbe::new();
    assert_eq!(probe.record(None), ProbeStep::NoGround);

    let mut probe = GroundProbe::new();
    assert_eq!(probe.record(Some(false)), ProbeStep::Obstacle);

    let mut probe = GroundProbe::new();
    assert_eq!(probe.record(Some(true)), ProbeStep::CastAgain);
    assert_eq!(probe.record(Some(false)), ProbeStep::Obstacle);
}

#[test]
fn z_direction_points_to_waypoint_layer() {
    assert_eq!(z_direction_towards(Layer::new(1), Layer::new(2)), 1);
    assert_eq!(z_direction_towards(Layer::new(3), Layer::new(2)), -1);
    assert_eq!(z_direction_towards(Layer::new(2), Layer::new(2)), 0);
}

#[test]
fn axis_combines_two_keys() {
    assert_eq!(axis(true, false), 1);
    assert_eq!(axis(false, true), -1);
    assert_eq!(axis(true, true), 0);
    assert_eq!(axis(false, false), 0);
    assert_eq!(Direction::default(), Direction::Right);
}

#[test]
fn bullet_hole_sprite_is_on_the_sheet() {
    for _ in 0..1000 {
        assert!(bullet_hole_sprite() < BULLET_HOLE_SPRITES);
    }
}

#[test]
fn limit_cell_clamps_into_grid() {
    let grid = NavGrid::new(10, 5, 2);
    assert_eq!(grid.limit_cell((3, 4)), (3, 4));
    assert_eq!(grid.limit_cell((30, 40)), (9, 4));
    assert_eq!(grid.limit_cell((usize::MAX, 0)), (9, 0));
}

#[test]
fn ground_and_obstacle_outside_layers_are_ignored() {
    let mut grid = NavGrid::new(10, 10, 2);
    grid.add_ground((0, 0), (9, 9), 5);
    grid.add_obstacle((0, 0), (9, 9), &Layer::new(3));
    assert_eq!(grid.count_walkable(Layer::new(1)), 0);
    assert_eq!(grid.count_walkable(Layer::new(2)), 0);
    assert_eq!(grid.count_blocked(Layer::new(1)), 0);
    assert_eq!(grid.count_blocked(Layer::new(2)), 0);
}

#[test]
fn ground_rectangle_is_clamped() {
    let mut grid = NavGrid::new(10, 10, 2);
    grid.add_ground((2, 3), (50, 4), 1);
    assert_eq!(grid.count_walkable(Layer::new(2)), 8 * 2);
    assert!(grid.is_walkable(9, 4, 1));
    assert!(!grid.is_walkable(1, 4, 1));
    grid.reset();
    assert_eq!(grid.count_walkable(Layer::new(2)), 0);
}

#[test]
fn find_path_is_shortest() {
    let mut grid = NavGrid::new(10, 1, 2);
    grid.fill_walkable();
    // A wall on layer 1 forces a detour through layer 2.
    grid.add_obstacle((4, 0), (4, 0), &Layer::new(1));
    let path = grid
        .find_path((1, 0), Layer::new(1), (7, 0), Layer::new(1), 1_000)
        .expect("path");
    // 6 steps sideways plus 2 layer changes: 8 segments after the start.
    assert_eq!(path.len(), 9);
    assert_eq!(path[0].x, 1);
    assert_eq!(path[8].x, 7);
    assert!(path.iter().all(|s| !(s.x == 4 && s.layer == Layer::new(1))));
}

#[test]
fn find_path_gives_up_at_search_limit() {
    let mut grid = NavGrid::new(10, 1, 1);
    grid.fill_walkable();
    assert!(grid.find_path((0, 0), Layer::new(1), (9, 0), Layer::new(1), 5).is_none());
    assert!(grid.find_path((0, 0), Layer::new(1), (9, 0), Layer::new(1), 10).is_some());
}

#[test]
fn find_path_none_when_target_unreachable() {
    let mut grid = NavGrid::new(10, 1, 1);
    grid.fill_walkable();
    grid.add_obstacle((5, 0), (5, 0), &Layer::new(1));
    assert!(grid.find_path((0, 0), Layer::new(1), (9, 0), Layer::new(1), 1_000).is_none());
}

#[test]
fn find_path_lands_on_nearest_standable_row() {
    let mut grid = NavGrid::new(3, 5, 1);
    grid.add_ground((0, 4), (0, 4), 0);
    grid.add_ground((1, 1), (1, 1), 0);
    grid.add_ground((1, 3), (1, 3), 0);
    grid.add_ground((2, 0), (2, 0), 0);
    let path = grid
        .find_path((0, 4), Layer::new(1), (2, 4), Layer::new(1), 1_000)
        .expect("path");
    let cells: Vec<(usize, usize)> = path.iter().map(|s| (s.x, s.y)).collect();
    assert_eq!(cells, vec![(0, 4), (1, 3), (2, 0)]);
}

#[test]
fn find_path_to_own_column_is_one_segment() {
    let mut grid = NavGrid::new(4, 4, 2);
    grid.fill_walkable();
    let path = grid
        .find_path((2, 3), Layer::new(2), (2, 0), Layer::new(2), 1_000)
        .expect("path");
    assert_eq!(path.len(), 1);
    assert_eq!((path[0].x, path[0].y, path[0].layer), (2, 3, Layer::new(2)));
}

#[test]
fn find_path_none_outside_grid_or_layers() {
    let mut grid = NavGrid::new(4, 4, 2);
    grid.fill_walkable();
    assert!(grid.find_path((4, 0), Layer::new(1), (0, 0), Layer::new(1), 1_000).is_none());
    assert!(grid.find_path((0, 0), Layer::new(3), (0, 0), Layer::new(1), 1_000).is_none());
    assert!(grid.find_path((0, 0), Layer::new(1), (0, 0), Layer::new(3), 1_000).is_none());
}

#[test]
fn find_path_limit_counts_cells_taken_off() {
    let mut grid = NavGrid::new(4, 3, 1);
    grid.fill_walkable();
    assert!(grid.find_path((0, 0), Layer::new(1), (3, 0), Layer::new(1), 3).is_none());
    assert!(grid.find_path((0, 0), Layer::new(1), (3, 0), Layer::new(1), 4).is_some());
}

#[test]
fn find_path_stays_on_start_row_to_target_column() {
    let mut grid = NavGrid::new(4, 3, 1);
    grid.fill_walkable();
    let path = grid
        .find_path((0, 0), Layer::new(1), (3, 2), Layer::new(1), 100)
        .expect("path");
    let cells: Vec<(usize, usize, u32)> = path.iter().map(|s| (s.x, s.y, s.layer.id())).collect();
    assert_eq!(cells, vec![(0, 0, 1), (1, 0, 1), (2, 0, 1), (3, 0, 1)]);
}

#[test]
fn raising_the_limit_keeps_the_found_path() {
    let mut grid = NavGrid::new(10, 10, 3);
    grid.fill_walkable();
    grid.add_obstacle((0, 0), (1, 9), &Layer::new(2));
    let low = grid.find_path((0, 0), Layer::new(3), (0, 0), Layer::new(1), 1_000).expect("path");
    let high = grid.find_path((0, 0), Layer::new(3), (0, 0), Layer::new(1), 50_000).expect("path");
    assert_eq!(low, high);
    assert_eq!(low.first().map(|s| s.layer.id()), Some(3));
    assert_eq!(low.last().map(|s| s.layer.id()), Some(1));
}
