use omino_hole::assemble::Edge;
use omino_hole::board::Board;
use omino_hole::omino::{Dir, FreePoint, Grid, Point, TileState};

#[test]
fn neighbors_correct() {
    let mut ans: Vec<Point> = vec![
        Point { x: -2, y: 3 },
        Point { x: 0, y: 3 },
        Point { x: -1, y: 4 },
        Point { x: -1, y: 2 },
    ];
    ans.sort();
    let mut neighbors = Grid::get_neighbors(Point { x: -1, y: 3 });
    neighbors.sort();
    assert_eq!(neighbors, ans)
}

#[test]
fn neighbors_stop_at_the_grid_edge() {
    let mut corner = Grid::get_neighbors(Point { x: 16, y: 0 });
    corner.sort();
    assert_eq!(corner, vec![Point { x: 15, y: 0 }, Point { x: 16, y: 1 }]);
    let mut far = Grid::get_neighbors(Point { x: -16, y: 16 });
    far.sort();
    assert_eq!(far, vec![Point { x: -16, y: 15 }, Point { x: -15, y: 16 }]);
}

#[test]
fn fresh_grid_borders_left_half_of_row_zero() {
    let mut grid = Grid::default();
    assert_eq!(grid.get_pos(Point { x: -1, y: 0 }), TileState::Border);
    assert_eq!(grid.get_pos(Point { x: -16, y: 0 }), TileState::Border);
    assert_eq!(grid.get_pos(Point { x: 0, y: 0 }), TileState::Free);
    assert_eq!(grid.get_pos(Point { x: -1, y: 1 }), TileState::Free);
    assert_eq!(grid.get_pos(Point { x: 16, y: 16 }), TileState::Free);
    grid.set_pos(Point { x: 3, y: 4 }, TileState::Occupied);
    assert_eq!(grid.get_pos(Point { x: 3, y: 4 }), TileState::Occupied);
    assert_eq!(grid.get_pos(Point { x: 4, y: 3 }), TileState::Free);
}

#[test]
fn tile_characters() {
    assert_eq!(TileState::Border.to_char(), 'B');
    assert_eq!(TileState::Occupied.to_char(), '#');
    assert_eq!(TileState::Reachable.to_char(), 'r');
    assert_eq!(TileState::Free.to_char(), '.');
}

#[test]
fn point_conversions() {
    let p = Point { x: -4, y: 9 };
    let f = FreePoint::from_point(p);
    assert_eq!(f, FreePoint { x: -4, y: 9 });
    assert_eq!(f.to_point(), p);
}

#[test]
fn neighbors_with_directions() {
    let n = FreePoint { x: 2, y: 3 }.get_neighbors_with_directions();
    assert_eq!(n[0], (FreePoint { x: 2, y: 4 }, Dir::N));
    assert_eq!(n[1], (FreePoint { x: 3, y: 3 }, Dir::E));
    assert_eq!(n[2], (FreePoint { x: 2, y: 2 }, Dir::S));
    assert_eq!(n[3], (FreePoint { x: 1, y: 3 }, Dir::W));
}

#[test]
fn board_add_and_undo() {
    let mut board = Board::empty();
    let a = vec![FreePoint { x: 0, y: 1 }, FreePoint { x: 1, y: 1 }];
    let b = vec![FreePoint { x: 1, y: 1 }, FreePoint { x: 2, y: 1 }];
    assert!(board.add(&a));
    assert!(board.contains(FreePoint { x: 1, y: 1 }));
    assert!(!board.add(&b));
    assert!(!board.contains(FreePoint { x: 2, y: 1 }));
    assert_eq!(board.next_edge_to_cover(), Some(Edge(FreePoint { x: 1, y: 0 }, Dir::W)));
    board.undo(&a);
    assert!(!board.contains(FreePoint { x: 0, y: 1 }));
    assert!(board.add(&b));
    board.add_always(&a);
    assert!(board.contains(FreePoint { x: 0, y: 1 }));
}

#[test]
fn board_add_translated() {
    let mut board = Board::empty();
    let shape = vec![FreePoint { x: 0, y: 0 }, FreePoint { x: 1, y: 0 }];
    assert!(board.add_(&shape, FreePoint { x: -33, y: 33 }));
    assert!(board.contains(FreePoint { x: -32, y: 33 }));
    assert!(!board.add_(&shape, FreePoint { x: -32, y: 33 }));
    assert!(!board.contains(FreePoint { x: -31, y: 33 }));
    board.undo_(&shape, FreePoint { x: -33, y: 33 });
    assert!(!board.contains(FreePoint { x: -33, y: 33 }));
    assert_eq!(board.next_edge_to_cover(), Some(Edge(FreePoint { x: 0, y: 1 }, Dir::S)));
}
