use automaze::grid::Grid;
use automaze::puzzle::{code, generate_inner_grids};

#[test]
fn codes_of_extreme_grids() {
    let dead = Grid::new(10, 10);
    assert_eq!(code(&dead), 0);
    let alive = dead.invert();
    assert_eq!(code(&alive), (1u128 << 100) - 1);
}

#[test]
fn all_variants_are_generated_with_their_codes() {
    let patterns = generate_inner_grids();
    assert_eq!(patterns.len(), 48);
    // The first entry is the first base pattern itself, the second its inversion.
    assert_eq!(patterns[0].0, 1236127829419321043349668863);
    assert_eq!(patterns[1].0, 1266414472398810080453353536512);
    assert_eq!(patterns[0].1.invert().to_string(), patterns[1].1.to_string());
    for (c, g) in &patterns {
        assert_eq!(*c, code(g));
        assert_eq!((g.height(), g.width()), (10, 10));
    }
}
