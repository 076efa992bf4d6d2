use automaze::grid::Grid;
use automaze::parse::{parse_grid, ParseError};

#[test]
fn get_shared_or_mut_references() {
    //     Grid
    // +-----------+
    // | 0 1 1 1 1 |
    // | 1 1 1 1 1 |
    // +-----------+

    let vecs = vec![vec![false, true, true, true, true], vec![true; 5]];
    let mut grid = Grid::from_nested_vecs(vecs);
    assert_eq!(grid.height(), 2);
    assert_eq!(grid.width(), 5);

    assert_eq!(grid.get(1, 3), Some(true));
    assert_eq!(grid.get(2, 3), None);
    assert_eq!(grid.get(-1, 3), None);
    assert_eq!(grid.get(1, 5), None);
    assert_eq!(grid.get(1, -1), None);

    grid.set(1, 3, false);
    assert_eq!(grid.get(1, 3), Some(false));
}

#[test]
fn iterate_through_all_cells() {
    //   Grid
    // +-------+
    // | 0 1 1 |
    // | 1 1 1 |
    // +-------+

    let vecs = vec![vec![false, true, true], vec![true; 3]];
    let grid = Grid::from_nested_vecs(vecs);

    assert_eq!(
        grid.cells(),
        vec![
            (0, 0, false),
            (0, 1, true),
            (0, 2, true),
            (1, 0, true),
            (1, 1, true),
            (1, 2, true)
        ]
    );
}

#[test]
fn count_neighbors() {
    //    Grid           Moore neighborhoods
    //  +-------+      +-------+      +-------+
    //  | 0 1 1 |      | 0 1 1 |      |       |
    //  | 1 1 1 |      | 1 * 1 |      |   1 1 |
    //  | 1 1 1 |      | 1 1 1 |      |   1 * |
    //  +-------+      +-------+      +-------+
    //                (i,j)=(1,1)    (i,j)=(2,2)

    let vecs = vec![vec![false, true, true], vec![true; 3], vec![true; 3]];
    let grid = Grid::from_nested_vecs(vecs);

    assert_eq!(grid.count_neighbors(1, 1), 7);
    assert_eq!(grid.count_neighbors(2, 2), 3);
}

#[test]
fn parse_and_display_back() {
    const INITIAL: &str = "\
        0 1 1\n\
        1 1 0\n\
        1 0 0";
    let grid: Grid = INITIAL.parse().unwrap();
    assert_eq!(grid.to_string(), INITIAL);
}

#[test]
fn rotate_once() {
    const INITIAL: &str = "\
        0 1 1 0\n\
        1 1 0 0\n\
        0 0 1 0";
    const ROTATED: &str = "\
        0 1 0\n\
        0 1 1\n\
        1 0 1\n\
        0 0 0";
    let grid: Grid = INITIAL.parse().unwrap();
    assert_eq!(grid.rotate().to_string(), ROTATED);
}

#[test]
fn flip_horizontally_once() {
    const INITIAL: &str = "\
        0 1 1 0\n\
        1 1 0 0\n\
        0 0 1 0";
    const FLIPPED: &str = "\
        0 1 1 0\n\
        0 0 1 1\n\
        0 1 0 0";
    let grid: Grid = INITIAL.parse().unwrap();
    assert_eq!(grid.flip().to_string(), FLIPPED);
}

#[test]
fn invert() {
    const INITIAL: &str = "\
        0 1 1 0\n\
        1 1 0 0\n\
        0 0 1 0";
    const INVERTED: &str = "\
        1 0 0 1\n\
        0 0 1 1\n\
        1 1 0 1";
    let grid: Grid = INITIAL.parse().unwrap();
    assert_eq!(grid.invert().to_string(), INVERTED);
}

#[test]
fn overwrite() {
    const INITIAL: &str = "\
        0 1 1 0\n\
        1 1 0 0\n\
        0 0 1 0";
    const OTHER: &str = "\
        0 1\n\
        1 1";
    const CHANGED: &str = "\
        0 1 1 0\n\
        1 1 0 1\n\
        0 0 1 1";
    let mut grid: Grid = INITIAL.parse().unwrap();
    grid.overwrite(&OTHER.parse().unwrap(), 1, 2);
    assert_eq!(grid.to_string(), CHANGED);
}

#[test]
fn extract() {
    const INITIAL: &str = "\
        0 1 1 0\n\
        1 1 0 0\n\
        0 0 1 0";
    const SUB: &str = "\
        1 1 0\n\
        0 0 1";
    let grid: Grid = INITIAL.parse().unwrap();
    assert_eq!(grid.extract(1, 0, 2, 3).to_string(), SUB);
}

#[test]
fn new_grid_is_all_dead() {
    let grid = Grid::new(2, 3);
    assert_eq!(grid.raw(), &[false; 6][..]);
    assert_eq!(grid.to_string(), "0 0 0\n0 0 0");
}

#[test]
fn empty_grid_has_no_cells() {
    let grid = Grid::new(0, 4);
    assert!(grid.cells().is_empty());
    assert_eq!(grid.to_string(), "");
}

#[test]
fn corner_counts_no_neighbors_beyond_the_edge() {
    let grid = Grid::from_nested_vecs(vec![vec![true; 3]; 3]);
    assert_eq!(grid.count_neighbors(0, 0), 3);
    assert_eq!(grid.count_neighbors(0, 1), 5);
    assert_eq!(grid.count_neighbors(1, 1), 8);
}

#[test]
fn parse_accepts_crlf_and_trailing_newline() {
    let grid = parse_grid("0 1\r\n1 0\n").unwrap();
    assert_eq!(grid.to_string(), "0 1\n1 0");
}

#[test]
fn parse_grid_errors() {
    assert_eq!(parse_grid("").unwrap_err(), ParseError::Empty);
    assert_eq!(parse_grid("0 1\n1").unwrap_err(), ParseError::Ragged { row: 1 });
    assert_eq!(parse_grid("0 2").unwrap_err(), ParseError::BadCell { row: 0, col: 1 });
    assert_eq!(parse_grid("0  1").unwrap_err(), ParseError::BadCell { row: 0, col: 1 });
    assert_eq!(parse_grid("3 0").unwrap_err(), ParseError::BadCell { row: 0, col: 0 });
    assert_eq!(parse_grid("0 x").unwrap_err(), ParseError::Indeterminate { row: 0, col: 1 });
    let wide = vec!["0"; 32768].join(" ");
    assert_eq!(parse_grid(&wide).unwrap_err(), ParseError::TooLarge);
}
