use automaze::automaton::{lives_lost, Automaton, ReplayError};
use automaze::grid::Grid;
use automaze::parse::{parse_allow_indeterminate, ParseError};
use automaze::position::{Movement, Position};

fn parse(s: &str) -> Automaton {
    parse_allow_indeterminate(s, 0..0, 0..0).unwrap()
}

#[test]
fn parse_grid_and_display_back() {
    const INPUT: &str = "\
        0 0 0 0 0\n\
        0 1 0 1 4\n\
        3 0 1 0 0\n\
        0 0 0 0 0";

    let initial = parse(INPUT);
    assert_eq!(initial.grid().height(), 4);
    assert_eq!(initial.grid().width(), 5);
    assert_eq!(initial.source(), Position { i: 2, j: 0 });
    assert_eq!(initial.destination(), Position { i: 1, j: 4 });
    assert_eq!(initial.to_string(), INPUT.replace(['3', '4'], "0"));
}

#[test]
fn one_generation() {
    const INPUT: &str = "\
        1 1 1 0\n\
        3 1 4 1\n\
        0 1 1 0";
    const EXPECTED: &str = "\
        0 0 0 1\n\
        1 1 0 0\n\
        1 0 0 1";

    let initial = parse(INPUT);
    let second = initial.next_generation();
    assert_eq!(second.to_string(), EXPECTED);
}

#[test]
fn immutable_endpoints() {
    const INPUT: &str = "\
        1 1 1 0\n\
        3 1 4 1\n\
        0 1 1 0";
    const EXPECTED: &str = "\
        0 0 0 1\n\
        0 1 0 0\n\
        1 0 0 1";

    let mut automaton = parse(INPUT);
    automaton.immutable_endpoints = true;

    automaton = automaton.next_generation();
    assert_eq!(automaton.to_string(), EXPECTED);

    for _ in 0..10 {
        automaton = automaton.next_generation();
        assert_eq!(automaton.alive(Position { i: 1, j: 0 }), Some(false));
        assert_eq!(automaton.alive(Position { i: 1, j: 2 }), Some(false));
    }
}

#[test]
fn next_generation_is_deterministic() {
    let a = parse("1 1 1 0\n3 1 4 1\n0 1 1 0");
    let b = parse("1 1 1 0\n3 1 4 1\n0 1 1 0");
    let mut x = a.next_generation();
    let mut y = b.next_generation();
    for _ in 0..5 {
        assert_eq!(x.to_string(), y.to_string());
        x = x.next_generation();
        y = y.next_generation();
    }
    assert_eq!(a.next_generation().to_string(), a.next_generation().to_string());
}

#[test]
fn rule_survival_and_birth() {
    // Centre cell alive with 4 live neighbours survives; with 3 it dies.
    let survive = parse("1 0 1\n0 1 0\n1 3 1\n0 4 0");
    assert_eq!(survive.grid().count_neighbors(1, 1), 4);
    assert_eq!(survive.next_generation().alive(Position { i: 1, j: 1 }), Some(true));
    let die = parse("1 0 1\n0 1 0\n1 3 0\n0 4 0");
    assert_eq!(die.grid().count_neighbors(1, 1), 3);
    assert_eq!(die.next_generation().alive(Position { i: 1, j: 1 }), Some(false));
    // Dead cell with 2 live neighbours is born; with 5 it stays dead.
    let born = parse("1 0 1\n0 0 0\n3 0 4");
    assert_eq!(born.next_generation().alive(Position { i: 1, j: 1 }), Some(true));
    let crowded = parse("1 1 1\n1 0 1\n3 0 4");
    assert_eq!(crowded.grid().count_neighbors(1, 1), 5);
    assert_eq!(crowded.next_generation().alive(Position { i: 1, j: 1 }), Some(false));
}

#[test]
fn parse_automaton_errors() {
    let no_window = || (0..0, 0..0);
    let p = |s: &str| {
        let (r, c) = no_window();
        parse_allow_indeterminate(s, r, c).unwrap_err()
    };
    assert_eq!(p(""), ParseError::Empty);
    assert_eq!(p("3 0\n4"), ParseError::Ragged { row: 1 });
    assert_eq!(p("3 0 4 7"), ParseError::BadCell { row: 0, col: 3 });
    assert_eq!(p("3 x 4"), ParseError::Indeterminate { row: 0, col: 1 });
    assert_eq!(p("0 0 4"), ParseError::MissingSource);
    assert_eq!(p("3 0 0"), ParseError::MissingDestination);
    assert_eq!(p("3 3 4"), ParseError::ExtraSource { row: 0, col: 1 });
    assert_eq!(p("3 4\n0 4"), ParseError::ExtraDestination { row: 1, col: 1 });
}

#[test]
fn parse_indeterminate_inside_window() {
    let a = parse_allow_indeterminate("3 x\nx 4", 0..2, 0..2).unwrap();
    assert_eq!(a.to_string(), "0 0\n0 0");
    assert_eq!(
        parse_allow_indeterminate("3 x\nx 4", 0..1, 0..2).unwrap_err(),
        ParseError::Indeterminate { row: 1, col: 0 }
    );
}

#[test]
fn overwrite_automaton_grid() {
    let mut a = parse("3 0 0\n0 0 0\n0 0 4");
    let inner = Grid::from_nested_vecs(vec![vec![true, true]]);
    a.overwrite(&inner, 1, 1);
    assert_eq!(a.to_string(), "0 0 0\n0 1 1\n0 0 0");
    a.set_immutable_endpoints(true);
    assert!(a.immutable_endpoints);
}

#[test]
fn replay_counts_lives_lost() {
    let a = parse("3 0 0 4\n1 1 0 0");
    assert_eq!(lives_lost(&[Movement::Right, Movement::Right, Movement::Right], a), Ok(1));
}

#[test]
fn replay_errors() {
    assert_eq!(lives_lost(&[Movement::Right], parse("3 0 4")), Err(ReplayError::MissedDestination));
    assert_eq!(
        lives_lost(&[Movement::Left, Movement::Right], parse("3 0 4")),
        Err(ReplayError::OffGrid { generation: 1 })
    );
    // Arriving on a live cell at the last tick is a fault.
    assert_eq!(
        lives_lost(&[Movement::Right, Movement::Right], parse("3 0 4\n1 0 1")),
        Err(ReplayError::BlockedEndpoint { generation: 2 })
    );
    // A live cell at the tick before the last costs a life.
    assert_eq!(lives_lost(&[Movement::Right, Movement::Right], parse("3 0 4\n1 1 0")), Ok(1));
    assert_eq!(lives_lost(&[Movement::Right, Movement::Right], parse("3 0 4")), Ok(0));
    assert_eq!(
        lives_lost(&[Movement::Right, Movement::Right, Movement::Right, Movement::Right], parse("3 0 0 0 4\n1 1 0 1 1")),
        Ok(2)
    );
}

#[test]
fn replay_of_empty_path_checks_the_source() {
    let mut a = parse("3 0 4");
    assert_eq!(lives_lost(&[], a.clone()), Err(ReplayError::MissedDestination));
    a.overwrite(&Grid::from_nested_vecs(vec![vec![true]]), 0, 0);
    assert_eq!(
        lives_lost(&[Movement::Right, Movement::Right], a),
        Err(ReplayError::BlockedEndpoint { generation: 0 })
    );
}
