use automaze::position::{Movement, Position};

#[test]
fn move_down_and_left() {
    let p0 = Position { i: 3, j: 5 };
    let p1 = p0.next(Movement::Down);
    let p2 = p1.next(Movement::Left);
    assert_eq!(p2, Position { i: 4, j: 4 });
}

#[test]
fn position_before_movement() {
    let p0 = Position { i: 3, j: 5 };
    let p1 = p0.next(Movement::Down);
    let p2 = p1.next(Movement::Left);
    assert_eq!(p2.previous(Movement::Left), p1);
    assert_eq!(p1.previous(Movement::Down), p0);
}

#[test]
fn distance_is_manhattan() {
    let a = Position { i: -2, j: 7 };
    let b = Position { i: 3, j: 1 };
    assert_eq!(a.distance(&b), 11);
    assert_eq!(b.distance(&a), 11);
    assert_eq!(a.distance(&a), 0);
}

#[test]
fn movement_letters() {
    let letters: Vec<char> = [Movement::Up, Movement::Down, Movement::Left, Movement::Right]
        .iter()
        .map(|&m| char::from(m))
        .collect();
    assert_eq!(letters, vec!['U', 'D', 'L', 'R']);
    assert_eq!(Movement::Right.to_tuple(), (0, 1));
    assert_eq!(Movement::Up.to_tuple(), (-1, 0));
}
