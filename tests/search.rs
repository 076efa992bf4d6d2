use automaze::automaton::{lives_lost, Automaton};
use automaze::parse::parse_allow_indeterminate;
use automaze::grid::Grid;
use automaze::position::{Movement, Position};
use automaze::search::{find_path, find_path_robust, path_to_string};

const MAX_GENERATIONS: usize = 50_000;
const MAX_PESSIMISM: u16 = 50;

fn parse(s: &str) -> Automaton {
    parse_allow_indeterminate(s, 0..0, 0..0).unwrap()
}

fn validade_path_format(path: &str) {
    for movement in path.split(' ') {
        assert!(["D", "U", "R", "L"].contains(&movement));
    }
}

const MAZE: &str = "\
    3 0 0 1 0 0\n\
    0 1 1 0 1 1\n\
    0 0 1 1 0 0\n\
    0 0 0 0 0 4";

#[test]
fn shortest_path() {
    const GOLDEN_LENGTH: usize = 14;

    let automaton = parse(MAZE);
    let path = find_path(automaton.clone(), MAX_GENERATIONS, MAX_PESSIMISM).unwrap();

    assert_eq!(lives_lost(&path, automaton), Ok(0));
    assert_eq!(path.len(), GOLDEN_LENGTH);

    validade_path_format(&path_to_string(&path));
}

#[test]
fn shortest_path_robust() {
    let automaton = parse(MAZE);
    let path = find_path_robust(automaton.clone(), MAX_GENERATIONS).unwrap();
    assert_eq!(lives_lost(&path, automaton), Ok(0));
    assert_eq!(path.len(), 14);
    validade_path_format(&path_to_string(&path));
}

#[test]
fn shortest_path_is_not_shorter_than_manhattan_distance() {
    let automaton = parse(MAZE);
    let distance = automaton.source().distance(&automaton.destination()) as usize;
    let path = find_path_robust(automaton, MAX_GENERATIONS).unwrap();
    assert!(path.len() >= distance);
    assert_eq!(distance, 8);
}

#[test]
fn generation_cap_below_shortest_gives_best_effort() {
    let automaton = parse(MAZE);
    let attempt = find_path_robust(automaton.clone(), 14).unwrap_err();
    assert!(attempt.len() <= 14);
    let attempt = find_path(automaton.clone(), 14, u16::MAX).unwrap_err();
    assert!(attempt.len() <= 14);
    assert_eq!(find_path(automaton, 15, u16::MAX).unwrap().len(), 14);
}

#[test]
fn straight_row_both_variants() {
    let a = parse("3 0 4");
    let heuristic_path = find_path(a.clone(), 10, MAX_PESSIMISM).unwrap();
    let robust_path = find_path_robust(a, 10).unwrap();
    assert_eq!(path_to_string(&heuristic_path), "R R");
    assert_eq!(path_to_string(&robust_path), "R R");
}

#[test]
fn destination_turning_alive_gives_best_effort() {
    const INPUT: &str = "\
        3 1 1 0 1\n\
        1 1 1 0 0\n\
        0 1 0 0 0\n\
        1 1 1 4 1\n\
        1 0 0 1 1";
    let a = parse(INPUT);
    let robust = find_path_robust(a.clone(), 30);
    assert!(robust.is_err());
    let heuristic = find_path(a, 30, MAX_PESSIMISM);
    assert!(heuristic.is_err());
}

#[test]
fn robust_search_is_deterministic() {
    let a = parse(MAZE);
    let first = find_path_robust(a.clone(), MAX_GENERATIONS).unwrap();
    let second = find_path_robust(a, MAX_GENERATIONS).unwrap();
    assert_eq!(first, second);
}

#[test]
fn replay_of_found_paths_loses_no_life() {
    let a = parse("3 0 0 0\n0 1 1 0\n0 0 0 4");
    let heuristic_path = find_path(a.clone(), 100, MAX_PESSIMISM).unwrap();
    let robust_path = find_path_robust(a.clone(), 100).unwrap();
    assert_eq!(lives_lost(&heuristic_path, a.clone()), Ok(0));
    assert_eq!(lives_lost(&robust_path, a), Ok(0));
    assert_eq!(heuristic_path.len(), robust_path.len());
}

#[test]
fn path_text_format() {
    assert_eq!(path_to_string(&[]), "");
    assert_eq!(path_to_string(&[Movement::Up]), "U");
    assert_eq!(path_to_string(&[Movement::Down, Movement::Left, Movement::Right, Movement::Up]), "D L R U");
}

#[test]
fn zero_generations_gives_empty_best_effort() {
    let a = parse("3 0 4");
    assert_eq!(find_path(a.clone(), 0, MAX_PESSIMISM), Err(vec![]));
    assert_eq!(find_path_robust(a, 0), Err(vec![]));
}

#[test]
fn source_equal_to_destination_needs_no_movement() {
    let p = Position { i: 1, j: 1 };
    let a = Automaton::new(Grid::new(3, 3), p, p, false);
    assert_eq!(find_path(a.clone(), 5, 0), Ok(vec![]));
    assert_eq!(find_path_robust(a, 5), Ok(vec![]));
}

#[test]
fn pruned_best_effort_is_no_farther_than_the_source() {
    let a = parse(MAZE);
    let distance = a.source().distance(&a.destination()) as i32;
    for cap in 1..14 {
        let attempt = find_path(a.clone(), cap, 0).unwrap_err();
        assert!(attempt.len() <= cap);
        let (mut i, mut j) = (0i32, 0i32);
        for m in &attempt {
            let (di, dj) = m.to_tuple();
            i += di as i32;
            j += dj as i32;
        }
        assert!((3 - i).abs() + (5 - j).abs() <= distance);
    }
}
