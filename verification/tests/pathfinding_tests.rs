use dose_response::pathfinding::{Grid, Path};
use dose_response::point::{point, Point};

fn is_walk(grid: &Grid, from: Point, to: Point, steps: &[Point]) -> bool {
    let mut here = from;
    for step in steps {
        if here.tile_distance(*step) != 1 || !grid.is_walkable(*step) {
            return false;
        }
        here = *step;
    }
    here == to
}

#[test]
fn open_grid_corner_to_corner_takes_nine_steps() {
    let grid = Grid::new(point(0, 0), 10, 10, true);
    let path = Path::find(point(0, 0), point(9, 9), &grid).expect("a path");
    assert_eq!(path.len(), 9);
    assert!(is_walk(&grid, point(0, 0), point(9, 9), path.waypoints()));
    assert_eq!(*path.waypoints().last().unwrap(), point(9, 9));
}

#[test]
fn a_wall_across_the_grid_leaves_no_path() {
    let mut grid = Grid::new(point(0, 0), 10, 10, true);
    for y in 0..10 {
        grid.set_walkable(point(5, y), false);
    }
    assert!(Path::find(point(0, 0), point(9, 9), &grid).is_none());
    assert!(Path::find(point(4, 4), point(6, 4), &grid).is_none());
    assert_eq!(Path::find(point(0, 0), point(4, 9), &grid).unwrap().len(), 9);
}

#[test]
fn a_gap_in_the_wall_is_found() {
    let mut grid = Grid::new(point(-5, -5), 11, 11, true);
    for y in -5..=5 {
        if y != 5 {
            grid.set_walkable(point(0, y), false);
        }
    }
    let path = Path::find(point(-1, -5), point(1, -5), &grid).expect("a path");
    assert!(is_walk(&grid, point(-1, -5), point(1, -5), path.waypoints()));
    // Down to the gap in the last row and up again.
    assert_eq!(path.len(), 20);
}

#[test]
fn the_path_to_where_one_stands_has_no_steps() {
    let grid = Grid::new(point(0, 0), 3, 3, false);
    let mut path = Path::find(point(1, 1), point(1, 1), &grid).expect("a path");
    assert!(path.is_empty());
    assert_eq!(path.len(), 0);
    assert_eq!(path.next(), None);
}

#[test]
fn a_blocked_goal_and_tiles_outside_the_grid_cannot_be_reached() {
    let mut grid = Grid::new(point(0, 0), 4, 4, true);
    grid.set_walkable(point(3, 3), false);
    grid.set_walkable(point(100, 100), true);
    assert!(Path::find(point(0, 0), point(3, 3), &grid).is_none());
    assert!(Path::find(point(0, 0), point(4, 4), &grid).is_none());
    assert!(Path::find(point(-1, 0), point(1, 1), &grid).is_none());
    assert!(!grid.is_walkable(point(100, 100)));
    assert!(!grid.has(point(4, 0)));
    assert!(grid.has(point(3, 0)));
}

#[test]
fn the_start_need_not_be_walkable() {
    let mut grid = Grid::new(point(0, 0), 3, 1, true);
    grid.set_walkable(point(0, 0), false);
    let path = Path::find(point(0, 0), point(2, 0), &grid).expect("a path");
    assert_eq!(path.waypoints(), &vec![point(1, 0), point(2, 0)]);
}

#[test]
fn a_path_is_walked_step_by_step() {
    let grid = Grid::new(point(0, 0), 4, 1, true);
    let mut path = Path::find(point(0, 0), point(3, 0), &grid).expect("a path");
    assert_eq!(path.len(), 3);
    assert_eq!(path.walk_one_step(), point(1, 0));
    assert_eq!(path.len(), 2);
    assert_eq!(path.next(), Some(point(2, 0)));
    assert_eq!(path.next(), Some(point(3, 0)));
    assert!(path.is_empty());
    assert_eq!(path.next(), None);
}

#[test]
fn the_shortest_way_around_an_obstacle_is_taken() {
    // . . . . .
    // . # # # .
    // S # G # .
    // . # . # .
    // . . . . .
    let mut grid = Grid::new(point(0, 0), 5, 5, true);
    for p in [(1, 1), (2, 1), (3, 1), (1, 2), (3, 2), (1, 3), (3, 3)] {
        grid.set_walkable(point(p.0, p.1), false);
    }
    let path = Path::find(point(0, 2), point(2, 2), &grid).expect("a path");
    assert!(is_walk(&grid, point(0, 2), point(2, 2), path.waypoints()));
    assert_eq!(path.len(), 4);
    assert_eq!(*path.waypoints().last().unwrap(), point(2, 2));
    assert_eq!(path.waypoints()[2], point(2, 3));
}

#[test]
fn an_empty_grid_holds_nothing() {
    let grid = Grid::new(point(0, 0), 0, 0, true);
    assert!(!grid.has(point(0, 0)));
    assert!(Path::find(point(0, 0), point(0, 0), &grid).is_none());
}
