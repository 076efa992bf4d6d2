use automaze::bitgrid::BitGrid;
use automaze::position::Position;

#[test]
fn smoke_test() {
    let mut grid = BitGrid::new(5, 10);

    assert_eq!(grid.iter(), BitGrid::with_dim_from(&grid).iter());

    assert_eq!(grid.iter(), vec![]);
    assert!(grid.is_empty());

    grid.insert(Position { i: 4, j: 9 });
    assert!(grid.contains(Position { i: 4, j: 9 }));
    assert_eq!(grid.iter(), vec![Position { i: 4, j: 9 }]);
    assert!(!grid.is_empty());
    assert!(!grid.contains(Position { i: 0, j: 0 }));
}

#[test]
fn members_come_in_row_major_order() {
    let mut grid = BitGrid::new(3, 3);
    grid.insert(Position { i: 2, j: 0 });
    grid.insert(Position { i: 0, j: 2 });
    grid.insert(Position { i: 1, j: 1 });
    grid.insert(Position { i: 0, j: 2 });
    assert_eq!(
        grid.iter(),
        vec![Position { i: 0, j: 2 }, Position { i: 1, j: 1 }, Position { i: 2, j: 0 }]
    );
}

#[test]
fn out_of_bounds_is_never_a_member() {
    let mut grid = BitGrid::new(2, 2);
    grid.insert(Position { i: 1, j: 1 });
    assert!(!grid.contains(Position { i: -1, j: 1 }));
    assert!(!grid.contains(Position { i: 1, j: 2 }));
    assert!(!grid.contains(Position { i: 2, j: 1 }));
}
