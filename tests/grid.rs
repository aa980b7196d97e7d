use puddle_core::droplet::{Droplet, DropletId, Snapshot};
use puddle_core::grid::{Cell, Grid};
use puddle_core::location::Location;

fn loc(y: i32, x: i32) -> Location {
    Location { y, x }
}

#[test]
fn test_connected() {
    let cell = Some(Cell { pin: 0 });
    let grid1 = Grid {
        vec: vec![vec![None, cell], vec![cell, None]],
    };
    let grid2 = Grid {
        vec: vec![vec![cell, cell], vec![None, None]],
    };

    assert!(!grid1.is_connected());
    assert!(grid2.is_connected())
}

#[test]
fn grid_self_compatible() {
    let g1 = Grid::rectangle(5, 4);
    let g2 = Grid::rectangle(5, 4);
    let zero = Location { x: 0, y: 0 };
    assert!(g1.is_compatible_within(zero, &g2, &Snapshot::default()))
}

#[test]
fn grid_self_place() {
    let grid = Grid::rectangle(5, 4);

    let map = grid.place(&grid, &Snapshot::default()).unwrap();

    let identity_locs: Vec<(Location, Location)> =
        grid.locations().into_iter().map(|(l, _)| (l, l)).collect();
    assert_eq!(&identity_locs, &map);
}

#[test]
fn rectangle_numbers_pins_row_by_row() {
    let g = Grid::rectangle(2, 3);
    assert_eq!(g.max_height(), 2);
    assert_eq!(g.max_width(), 3);
    assert_eq!(g.get_cell(&loc(0, 0)), Some(&Cell { pin: 0 }));
    assert_eq!(g.get_cell(&loc(0, 2)), Some(&Cell { pin: 2 }));
    assert_eq!(g.get_cell(&loc(1, 0)), Some(&Cell { pin: 3 }));
    assert_eq!(g.get_cell(&loc(1, 2)), Some(&Cell { pin: 5 }));
}

#[test]
fn get_cell_outside_or_absent() {
    let c = Some(Cell { pin: 7 });
    let g = Grid { vec: vec![vec![c, None], vec![c]] };
    assert_eq!(g.get_cell(&loc(-1, 0)), None);
    assert_eq!(g.get_cell(&loc(0, -1)), None);
    assert_eq!(g.get_cell(&loc(0, 1)), None);
    assert_eq!(g.get_cell(&loc(1, 1)), None);
    assert_eq!(g.get_cell(&loc(2, 0)), None);
    assert_eq!(g.get_cell(&loc(1, 0)), Some(&Cell { pin: 7 }));
}

#[test]
fn max_width_of_ragged_and_empty_grids() {
    let c = Some(Cell { pin: 0 });
    let g = Grid { vec: vec![vec![c], vec![c, c, None], vec![]] };
    assert_eq!(g.max_width(), 3);
    assert_eq!(g.max_height(), 3);
    let empty = Grid { vec: vec![] };
    assert_eq!(empty.max_width(), 0);
    assert_eq!(empty.max_height(), 0);
}

#[test]
fn from_function_fills_every_position() {
    let g = Grid::from_function(
        |l: Location| if (l.y + l.x) % 2 == 0 { Some(Cell { pin: (10 * l.y + l.x) as u32 }) } else { None },
        2,
        3,
    );
    assert_eq!(g.max_height(), 2);
    assert_eq!(g.get_cell(&loc(0, 0)), Some(&Cell { pin: 0 }));
    assert_eq!(g.get_cell(&loc(0, 1)), None);
    assert_eq!(g.get_cell(&loc(1, 1)), Some(&Cell { pin: 11 }));
    assert_eq!(g.get_cell(&loc(0, 2)), Some(&Cell { pin: 2 }));
}

#[test]
fn locations_in_row_major_order() {
    let c = Some(Cell { pin: 1 });
    let d = Some(Cell { pin: 2 });
    let g = Grid { vec: vec![vec![None, c], vec![d, None, c]] };
    let locs = g.locations();
    assert_eq!(locs, vec![(loc(0, 1), Cell { pin: 1 }), (loc(1, 0), Cell { pin: 2 }), (loc(1, 2), Cell { pin: 1 })]);
}

#[test]
fn neighbors_at_a_corner() {
    let g = Grid::rectangle(3, 3);
    assert_eq!(g.neighbors4(&loc(0, 0)), vec![loc(1, 0), loc(0, 1)]);
    assert_eq!(g.neighbors8(&loc(0, 0)), vec![loc(1, 0), loc(0, 1), loc(1, 1)]);
    assert_eq!(g.neighbors9(&loc(0, 0)), vec![loc(1, 0), loc(0, 1), loc(1, 1), loc(0, 0)]);
    assert_eq!(g.neighbors4(&loc(1, 1)).len(), 4);
    assert_eq!(g.neighbors8(&loc(1, 1)).len(), 8);
}

#[test]
fn neighbors_skip_absent_cells() {
    let c = Some(Cell { pin: 0 });
    let g = Grid { vec: vec![vec![c, None], vec![c, c]] };
    assert_eq!(g.neighbors4(&loc(0, 0)), vec![loc(1, 0)]);
    // a location without a cell is left out of its own 9-neighborhood
    assert_eq!(g.neighbors9(&loc(0, 1)), vec![loc(0, 0), loc(1, 0), loc(1, 1)]);
    assert_eq!(g.neighbors9(&loc(0, 1)), g.neighbors8(&loc(0, 1)));
    // nor does an anchor without a cell enter a droplet's neighborhood
    let far = Grid { vec: vec![vec![None, None, None], vec![None, None, None], vec![None, None, c]] };
    assert_eq!(far.neighbors_dimensions(&loc(0, 0), &loc(1, 1)), vec![]);
}

#[test]
fn neighbors_dimensions_is_union_without_repeats() {
    let g = Grid::rectangle(3, 4);
    let mut r = g.neighbors_dimensions(&loc(0, 0), &loc(1, 2));
    r.sort_by_key(|l| (l.y, l.x));
    assert_eq!(r, vec![loc(0, 0), loc(0, 1), loc(0, 2), loc(1, 0), loc(1, 1), loc(1, 2)]);
    assert!(g.neighbors_dimensions(&loc(0, 0), &loc(0, 0)).is_empty());
}

#[test]
fn place_avoids_a_droplet() {
    let board = Grid::rectangle(5, 4);
    let pattern = Grid::rectangle(1, 1);
    let id = DropletId { id: 0, process_id: 0 };
    let snapshot = Snapshot { droplets: vec![Droplet::new(id, 1, loc(0, 0), loc(1, 1))] };
    assert!(!pattern.is_compatible_within(loc(0, 1), &board, &snapshot));
    assert!(pattern.is_compatible_within(loc(0, 2), &board, &snapshot));
    let m = board.place(&pattern, &snapshot).unwrap();
    assert_eq!(m, vec![(loc(0, 0), loc(0, 2))]);
    for (_, target) in &m {
        for d in &snapshot.droplets {
            assert!(d.box_distance(target.y as i64, target.x as i64) > 0);
        }
    }
}

#[test]
fn place_without_room() {
    let board = Grid::rectangle(2, 2);
    let pattern = Grid::rectangle(3, 1);
    assert_eq!(board.place(&pattern, &Snapshot::default()), None);
    let blocked = Snapshot {
        droplets: vec![Droplet::new(DropletId { id: 1, process_id: 0 }, 1, loc(0, 0), loc(2, 2))],
    };
    assert_eq!(board.place(&Grid::rectangle(1, 1), &blocked), None);
}

#[test]
fn box_distance_and_blocking() {
    let d = Droplet::new(DropletId { id: 0, process_id: 3 }, 2, loc(2, 2), loc(1, 1));
    assert_eq!(d.box_distance(2, 2), 0);
    assert_eq!(d.box_distance(3, 3), 0);
    assert_eq!(d.box_distance(5, 3), 2);
    assert_eq!(d.box_distance(0, 2), 2);
    let s = Snapshot { droplets: vec![d] };
    assert!(s.is_blocked(1, 2) == false);
    assert!(s.is_blocked(3, 2));
}

#[test]
fn manhattan_distance() {
    assert_eq!(loc(0, 0).distance_to(&loc(3, -4)), 7);
    assert_eq!(loc(i32::MIN, i32::MIN).distance_to(&loc(i32::MAX, i32::MAX)), 2 * (u32::MAX as u64));
}
