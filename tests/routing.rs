use puddle_core::droplet::{Droplet, DropletId};
use puddle_core::grid::{Cell, Grid};
use puddle_core::location::Location;
use puddle_core::routing::{route_one, Node, WAIT_COST};

fn loc(y: i32, x: i32) -> Location {
    Location { y, x }
}

fn droplet_to(start: Location, dest: Option<Location>) -> Droplet {
    let mut d = Droplet::new(DropletId { id: 0, process_id: 0 }, 1, start, loc(1, 1));
    d.destination = dest;
    d
}

fn check_contiguous(path: &[Location], start: Location, end: Location) {
    assert_eq!(path[0], start);
    assert_eq!(*path.last().unwrap(), end);
    for win in path.windows(2) {
        assert!(win[0].distance_to(&win[1]) <= 1);
    }
}

#[test]
fn route_along_a_row() {
    let g = Grid::rectangle(1, 5);
    let path = route_one(&droplet_to(loc(0, 0), Some(loc(0, 4))), &g).unwrap();
    assert_eq!(path, vec![loc(0, 0), loc(0, 1), loc(0, 2), loc(0, 3), loc(0, 4)]);
}

#[test]
fn route_on_connected_board_is_contiguous() {
    let c = Some(Cell { pin: 0 });
    let g = Grid {
        vec: vec![
            vec![c, c, c, c],
            vec![None, None, None, c],
            vec![c, c, c, c],
            vec![c, None, None, None],
        ],
    };
    assert!(g.is_connected());
    let path = route_one(&droplet_to(loc(0, 0), Some(loc(3, 0))), &g).unwrap();
    check_contiguous(&path, loc(0, 0), loc(3, 0));
    assert_eq!(path.len(), 10);
    for l in &path {
        assert!(g.get_cell(l).is_some());
    }
}

#[test]
fn route_to_self_is_one_location() {
    let g = Grid::rectangle(2, 2);
    let path = route_one(&droplet_to(loc(1, 1), Some(loc(1, 1))), &g).unwrap();
    assert_eq!(path, vec![loc(1, 1)]);
}

#[test]
fn unreachable_destination_gives_no_path() {
    let c = Some(Cell { pin: 0 });
    let g = Grid { vec: vec![vec![c, None, c]] };
    assert!(!g.is_connected());
    assert_eq!(route_one(&droplet_to(loc(0, 0), Some(loc(0, 2))), &g), None);
}

#[test]
fn no_destination_gives_no_path() {
    let g = Grid::rectangle(2, 2);
    assert_eq!(route_one(&droplet_to(loc(0, 0), None), &g), None);
}

#[test]
fn expand_moves_then_waits() {
    let g = Grid::rectangle(2, 2);
    let n = Node { location: loc(0, 0), time: 3 };
    let succ = n.expand(&g);
    assert_eq!(
        succ,
        vec![
            (1, Node { location: loc(1, 0), time: 4 }),
            (1, Node { location: loc(0, 1), time: 4 }),
            (WAIT_COST, Node { location: loc(0, 0), time: 4 }),
        ]
    );
}
