//! Candidate fillings of the 10 by 10 region left open in the largest
//! maze: every rotation, mirror image and inversion of three base patterns.
use vstd::prelude::*;
use vstd::arithmetic::power2::{lemma2_to64, lemma2_to64_rest, lemma_pow2_adds, lemma_pow2_strictly_increases, lemma_pow2_unfold, pow2};
use crate::grid::{lemma_offset, Grid, GridModel};

verus! {

/// The cells of base pattern `b` (0, 1 or 2), row-major, 1 for alive.
pub open spec fn base_pattern(b: int) -> Seq<u8> {
    if b == 0 {
        seq![
            0u8, 0u8, 0u8, 0u8, 0u8, 0u8, 0u8, 0u8, 0u8, 0u8,
            1u8, 1u8, 1u8, 1u8, 1u8, 1u8, 1u8, 1u8, 1u8, 0u8,
            1u8, 0u8, 0u8, 0u8, 0u8, 0u8, 0u8, 0u8, 0u8, 0u8,
            1u8, 1u8, 1u8, 1u8, 1u8, 1u8, 1u8, 1u8, 1u8, 0u8,
            1u8, 0u8, 0u8, 0u8, 0u8, 0u8, 0u8, 0u8, 0u8, 0u8,
            1u8, 1u8, 1u8, 1u8, 1u8, 1u8, 1u8, 1u8, 1u8, 0u8,
            1u8, 0u8, 0u8, 0u8, 0u8, 0u8, 0u8, 0u8, 0u8, 0u8,
            1u8, 1u8, 1u8, 1u8, 1u8, 1u8, 1u8, 1u8, 1u8, 0u8,
            1u8, 0u8, 0u8, 0u8, 0u8, 0u8, 0u8, 0u8, 0u8, 0u8,
            1u8, 1u8, 1u8, 1u8, 1u8, 1u8, 1u8, 1u8, 1u8, 1u8,
        ]
    } else if b == 1 {
        seq![
            0u8, 0u8, 0u8, 0u8, 0u8, 0u8, 0u8, 0u8, 0u8, 0u8,
            0u8, 1u8, 0u8, 1u8, 1u8, 1u8, 0u8, 1u8, 1u8, 1u8,
            0u8, 1u8, 0u8, 1u8, 0u8, 1u8, 0u8, 1u8, 0u8, 1u8,
            0u8, 1u8, 0u8, 1u8, 0u8, 1u8, 0u8, 1u8, 0u8, 1u8,
            0u8, 1u8, 0u8, 1u8, 0u8, 1u8, 0u8, 1u8, 0u8, 1u8,
            0u8, 1u8, 0u8, 1u8, 0u8, 1u8, 0u8, 1u8, 0u8, 1u8,
            0u8, 1u8, 0u8, 1u8, 0u8, 1u8, 0u8, 1u8, 0u8, 1u8,
            0u8, 1u8, 0u8, 1u8, 0u8, 1u8, 0u8, 1u8, 0u8, 1u8,
            0u8, 1u8, 1u8, 1u8, 0u8, 1u8, 1u8, 1u8, 0u8, 1u8,
            0u8, 0u8, 0u8, 0u8, 0u8, 0u8, 0u8, 0u8, 0u8, 1u8,
        ]
    } else {
        seq![
            1u8, 1u8, 1u8, 1u8, 1u8, 1u8, 1u8, 1u8, 1u8, 1u8,
            0u8, 0u8, 0u8, 0u8, 0u8, 0u8, 0u8, 0u8, 0u8, 1u8,
            0u8, 1u8, 1u8, 1u8, 1u8, 1u8, 1u8, 1u8, 0u8, 1u8,
            0u8, 1u8, 0u8, 0u8, 0u8, 0u8, 0u8, 1u8, 0u8, 1u8,
            0u8, 1u8, 0u8, 1u8, 1u8, 1u8, 0u8, 1u8, 0u8, 1u8,
            0u8, 1u8, 0u8, 1u8, 0u8, 1u8, 0u8, 1u8, 0u8, 1u8,
            0u8, 1u8, 0u8, 1u8, 0u8, 0u8, 0u8, 1u8, 0u8, 1u8,
            0u8, 1u8, 0u8, 1u8, 1u8, 1u8, 1u8, 1u8, 0u8, 1u8,
            0u8, 1u8, 0u8, 0u8, 0u8, 0u8, 0u8, 0u8, 0u8, 1u8,
            0u8, 1u8, 1u8, 1u8, 1u8, 1u8, 1u8, 1u8, 1u8, 1u8,
        ]
    }
}

/// The cells of base pattern `b`, row-major, 1 for alive.
fn base_bits(b: usize) -> (r: Vec<u8>)
    requires
        b < 3,
    ensures
        r@ == base_pattern(b as int),
{
    if b == 0 {
        let r = vec![
            0u8, 0u8, 0u8, 0u8, 0u8, 0u8, 0u8, 0u8, 0u8, 0u8,
            1u8, 1u8, 1u8, 1u8, 1u8, 1u8, 1u8, 1u8, 1u8, 0u8,
            1u8, 0u8, 0u8, 0u8, 0u8, 0u8, 0u8, 0u8, 0u8, 0u8,
            1u8, 1u8, 1u8, 1u8, 1u8, 1u8, 1u8, 1u8, 1u8, 0u8,
            1u8, 0u8, 0u8, 0u8, 0u8, 0u8, 0u8, 0u8, 0u8, 0u8,
            1u8, 1u8, 1u8, 1u8, 1u8, 1u8, 1u8, 1u8, 1u8, 0u8,
            1u8, 0u8, 0u8, 0u8, 0u8, 0u8, 0u8, 0u8, 0u8, 0u8,
            1u8, 1u8, 1u8, 1u8, 1u8, 1u8, 1u8, 1u8, 1u8, 0u8,
            1u8, 0u8, 0u8, 0u8, 0u8, 0u8, 0u8, 0u8, 0u8, 0u8,
            1u8, 1u8, 1u8, 1u8, 1u8, 1u8, 1u8, 1u8, 1u8, 1u8,
        ];
        proof {
            assert(r@ =~= base_pattern(0));
        }
        r
    } else if b == 1 {
        let r = vec![
            0u8, 0u8, 0u8, 0u8, 0u8, 0u8, 0u8, 0u8, 0u8, 0u8,
            0u8, 1u8, 0u8, 1u8, 1u8, 1u8, 0u8, 1u8, 1u8, 1u8,
            0u8, 1u8, 0u8, 1u8, 0u8, 1u8, 0u8, 1u8, 0u8, 1u8,
            0u8, 1u8, 0u8, 1u8, 0u8, 1u8, 0u8, 1u8, 0u8, 1u8,
            0u8, 1u8, 0u8, 1u8, 0u8, 1u8, 0u8, 1u8, 0u8, 1u8,
            0u8, 1u8, 0u8, 1u8, 0u8, 1u8, 0u8, 1u8, 0u8, 1u8,
            0u8, 1u8, 0u8, 1u8, 0u8, 1u8, 0u8, 1u8, 0u8, 1u8,
            0u8, 1u8, 0u8, 1u8, 0u8, 1u8, 0u8, 1u8, 0u8, 1u8,
            0u8, 1u8, 1u8, 1u8, 0u8, 1u8, 1u8, 1u8, 0u8, 1u8,
            0u8, 0u8, 0u8, 0u8, 0u8, 0u8, 0u8, 0u8, 0u8, 1u8,
        ];
        proof {
            assert(r@ =~= base_pattern(1));
        }
        r
    } else {
        let r = vec![
            1u8, 1u8, 1u8, 1u8, 1u8, 1u8, 1u8, 1u8, 1u8, 1u8,
            0u8, 0u8, 0u8, 0u8, 0u8, 0u8, 0u8, 0u8, 0u8, 1u8,
            0u8, 1u8, 1u8, 1u8, 1u8, 1u8, 1u8, 1u8, 0u8, 1u8,
            0u8, 1u8, 0u8, 0u8, 0u8, 0u8, 0u8, 1u8, 0u8, 1u8,
            0u8, 1u8, 0u8, 1u8, 1u8, 1u8, 0u8, 1u8, 0u8, 1u8,
            0u8, 1u8, 0u8, 1u8, 0u8, 1u8, 0u8, 1u8, 0u8, 1u8,
            0u8, 1u8, 0u8, 1u8, 0u8, 0u8, 0u8, 1u8, 0u8, 1u8,
            0u8, 1u8, 0u8, 1u8, 1u8, 1u8, 1u8, 1u8, 0u8, 1u8,
            0u8, 1u8, 0u8, 0u8, 0u8, 0u8, 0u8, 0u8, 0u8, 1u8,
            0u8, 1u8, 1u8, 1u8, 1u8, 1u8, 1u8, 1u8, 1u8, 1u8,
        ];
        proof {
            assert(r@ =~= base_pattern(2));
        }
        r
    }
}

/// The number whose binary digits, most significant first, are the cells.
pub open spec fn code_of(s: Seq<bool>) -> nat
    decreases s.len(),
{
    if s.len() == 0 {
        0
    } else {
        2 * code_of(s.drop_last()) + if s.last() {
            1nat
        } else {
            0nat
        }
    }
}

/// The code of a 10 by 10 grid: its cells, row-major, as binary digits.
pub fn code(grid: &Grid) -> (r: u128)
    requires
        grid.wf(),
        grid@.cells.len() == 100,
    ensures
        r as nat == code_of(grid@.cells),
{
    let raw = grid.raw();
    proof {
        lemma2_to64();
        lemma2_to64_rest();
        lemma_pow2_adds(50, 50);
    }
    let mut code: u128 = 0;
    let mut k: usize = 0;
    while k < 100
        invariant
            raw@ == grid@.cells,
            raw.len() == 100,
            k <= 100,
            code as nat == code_of(raw@.subrange(0, k as int)),
            code_of(raw@.subrange(0, k as int)) < pow2(k as nat),
            pow2(100) == 0x10000000000000000000000000,
        decreases 100 - k,
    {
        proof {
            assert(raw@.subrange(0, k + 1).drop_last() =~= raw@.subrange(0, k as int));
            lemma_pow2_unfold((k + 1) as nat);
            if k + 1 < 100 {
                lemma_pow2_strictly_increases((k + 1) as nat, 100);
            }
        }
        code = code * 2 + if raw[k] { 1 } else { 0 };
        k += 1;
    }
    proof {
        assert(raw@.subrange(0, 100) =~= raw@);
    }
    code
}

/// Whether an entry holds a 10 by 10 grid together with its code.
pub open spec fn coded(e: (u128, Grid)) -> bool {
    &&& e.1.wf()
    &&& e.1@.height == 10
    &&& e.1@.width == 10
    &&& e.0 as nat == code_of(e.1@.cells)
}

/// `r` has the shape and the cells of `g`.
pub open spec fn same_cells(r: GridModel, g: GridModel) -> bool {
    &&& r.height == g.height
    &&& r.width == g.width
    &&& forall|x: int, y: int| #[trigger] r.in_bounds((x, y)) ==> r.at((x, y)) == g.at((x, y))
}

/// `r` is `g` with every cell inverted.
pub open spec fn inverse_of(r: GridModel, g: GridModel) -> bool {
    &&& r.height == g.height
    &&& r.width == g.width
    &&& forall|x: int, y: int| #[trigger] r.in_bounds((x, y)) ==> r.at((x, y)) == !g.at((x, y))
}

/// `r` is the mirror image of `g`, flipped horizontally.
pub open spec fn mirror_of(r: GridModel, g: GridModel) -> bool {
    &&& r.height == g.height
    &&& r.width == g.width
    &&& forall|x: int, y: int| #[trigger] r.in_bounds((x, y)) ==> r.at((x, y)) == g.at((x, g.width - 1 - y))
}

/// `r` is `g` turned a quarter clockwise.
pub open spec fn rotation_of(r: GridModel, g: GridModel) -> bool {
    &&& r.height == g.width
    &&& r.width == g.height
    &&& forall|x: int, y: int| #[trigger] r.in_bounds((x, y)) ==> r.at((x, y)) == g.at((g.height - 1 - y, x))
}

/// `r` holds base pattern `b`.
pub open spec fn is_base(r: GridModel, b: int) -> bool {
    &&& r.height == 10
    &&& r.width == 10
    &&& forall|x: int, y: int| #[trigger] r.in_bounds((x, y)) ==> r.at((x, y)) == (base_pattern(b)[10 * x + y] == 1u8)
}

/// Base pattern `b` as a grid.
fn base_grid(b: usize) -> (r: Grid)
    requires
        b < 3,
    ensures
        r.wf(),
        is_base(r@, b as int),
{
    let bits = base_bits(b);
    let mut rows: Vec<Vec<bool>> = Vec::new();
    let mut i: usize = 0;
    while i < 10
        invariant
            bits@ == base_pattern(b as int),
            bits.len() == 100,
            i <= 10,
            rows.len() == i,
            forall|k: int| 0 <= k < i ==> #[trigger] rows[k].len() == 10,
            forall|k: int, j: int| 0 <= k < i && 0 <= j < 10 ==> #[trigger] rows[k]@[j] == (bits@[10 * k + j] == 1u8),
        decreases 10 - i,
    {
        let mut row: Vec<bool> = Vec::new();
        let mut j: usize = 0;
        while j < 10
            invariant
                bits.len() == 100,
                i < 10,
                j <= 10,
                row.len() == j,
                forall|q: int| 0 <= q < j ==> #[trigger] row@[q] == (bits@[10 * i + q] == 1u8),
            decreases 10 - j,
        {
            row.push(bits[10 * i + j] == 1u8);
            j += 1;
        }
        rows.push(row);
        i += 1;
    }
    let ghost rv = rows@;
    let r = Grid::from_nested_vecs(rows);
    proof {
        assert forall|x: int, y: int| #[trigger] r@.in_bounds((x, y)) implies r@.at((x, y)) == (base_pattern(
            b as int,
        )[10 * x + y] == 1u8) by {
            assert(rv[x]@[y] == (bits@[10 * x + y] == 1u8));
        }
    }
    r
}

/// `invert` read cell by cell.
proof fn lemma_inverse(r: GridModel, g: GridModel)
    requires
        g.wf(),
        r.height == g.height,
        r.width == g.width,
        forall|k: int| 0 <= k < r.cells.len() ==> #[trigger] r.cells[k] == !g.cells[k],
        r.cells.len() == g.cells.len(),
    ensures
        inverse_of(r, g),
{
    assert forall|x: int, y: int| #[trigger] r.in_bounds((x, y)) implies r.at((x, y)) == !g.at((x, y)) by {
        lemma_offset(x, y, g.height, g.width);
    }
}

fn push_coded(patterns: &mut Vec<(u128, Grid)>, grid: Grid)
    requires
        grid.wf(),
        grid@.height == 10,
        grid@.width == 10,
    ensures
        final(patterns)@ == old(patterns)@.push(final(patterns)@.last()),
        final(patterns)@.last().1@ == grid@,
        coded(final(patterns)@.last()),
{
    let c = code(&grid);
    patterns.push((c, grid));
}

/// Every rotation, mirror image and inversion of the three base patterns,
/// each with its code. For each base pattern, four groups of four, one per
/// quarter turn: the turned pattern, its inversion, its inverted mirror
/// image and its mirror image.
#[verifier::rlimit(60)]
pub fn generate_inner_grids() -> (r: Vec<(u128, Grid)>)
    ensures
        r.len() == 48,
        forall|t: int| 0 <= t < r.len() ==> coded(#[trigger] r[t]),
        forall|t: int|
            0 <= t < 48 && t % 4 == 0 ==> {
                &&& inverse_of(r[t + 1].1@, (#[trigger] r[t]).1@)
                &&& mirror_of(r[t + 3].1@, r[t].1@)
                &&& inverse_of(r[t + 2].1@, r[t + 3].1@)
            },
        forall|t: int|
            0 <= t < 48 && t % 4 == 0 && t % 16 != 0 ==> rotation_of((#[trigger] r[t]).1@, r[t - 4].1@),
        is_base(r[0].1@, 0),
        is_base(r[16].1@, 1),
        is_base(r[32].1@, 2),
{
    let mut patterns: Vec<(u128, Grid)> = Vec::new();
    let mut b: usize = 0;
    while b < 3
        invariant
            b <= 3,
            patterns.len() == 16 * b,
            forall|t: int| 0 <= t < patterns.len() ==> coded(#[trigger] patterns[t]),
            forall|t: int|
                0 <= t < patterns.len() && t % 4 == 0 ==> {
                    &&& inverse_of(patterns[t + 1].1@, (#[trigger] patterns[t]).1@)
                    &&& mirror_of(patterns[t + 3].1@, patterns[t].1@)
                    &&& inverse_of(patterns[t + 2].1@, patterns[t + 3].1@)
                },
            forall|t: int|
                0 <= t < patterns.len() && t % 4 == 0 && t % 16 != 0 ==> rotation_of(
                    (#[trigger] patterns[t]).1@,
                    patterns[t - 4].1@,
                ),
            b > 0 ==> is_base(patterns[0].1@, 0),
            b > 1 ==> is_base(patterns[16].1@, 1),
            b > 2 ==> is_base(patterns[32].1@, 2),
        decreases 3 - b,
    {
        let mut grid = base_grid(b);
        let mut rotations: usize = 0;
        while rotations < 4
            invariant
                b < 3,
                rotations <= 4,
                grid.wf(),
                grid@.height == 10,
                grid@.width == 10,
                patterns.len() == 16 * b + 4 * rotations,
                rotations == 0 ==> is_base(grid@, b as int),
                rotations > 0 ==> same_cells(patterns[patterns.len() - 4].1@, grid@),
                forall|t: int| 0 <= t < patterns.len() ==> coded(#[trigger] patterns[t]),
                forall|t: int|
                    0 <= t < patterns.len() && t % 4 == 0 ==> {
                        &&& inverse_of(patterns[t + 1].1@, (#[trigger] patterns[t]).1@)
                        &&& mirror_of(patterns[t + 3].1@, patterns[t].1@)
                        &&& inverse_of(patterns[t + 2].1@, patterns[t + 3].1@)
                    },
                forall|t: int|
                    0 <= t < patterns.len() && t % 4 == 0 && t % 16 != 0 ==> rotation_of(
                        (#[trigger] patterns[t]).1@,
                        patterns[t - 4].1@,
                    ),
                b > 0 ==> is_base(patterns[0].1@, 0),
                b > 1 ==> is_base(patterns[16].1@, 1),
                rotations > 0 ==> is_base(patterns[16 * b as int].1@, b as int),
            decreases 4 - rotations,
        {
            let ghost prev = grid@;
            if rotations > 0 {
                grid = grid.rotate();
            }
            let flip = grid.flip();
            let same = grid.extract(0, 0, 10, 10);
            let inverted = grid.invert();
            let flip_inverted = flip.invert();
            let ghost (gv, fv, sv, iv, fiv) = (grid@, flip@, same@, inverted@, flip_inverted@);
            proof {
                lemma_inverse(iv, gv);
                lemma_inverse(fiv, fv);
                assert(same_cells(sv, gv));
                assert(mirror_of(fv, sv)) by {
                    assert forall|x: int, y: int| #[trigger] fv.in_bounds((x, y)) implies fv.at((x, y)) == sv.at(
                        (x, sv.width - 1 - y),
                    ) by {
                        assert(sv.in_bounds((x, sv.width - 1 - y)));
                    }
                }
                assert(inverse_of(iv, sv)) by {
                    assert forall|x: int, y: int| #[trigger] iv.in_bounds((x, y)) implies iv.at((x, y)) == !sv.at((x, y)) by {
                        assert(sv.in_bounds((x, y)));
                    }
                }
                if rotations > 0 {
                    let old_first = patterns[patterns.len() - 4].1@;
                    assert(rotation_of(sv, old_first)) by {
                        assert forall|x: int, y: int| #[trigger] sv.in_bounds((x, y)) implies sv.at((x, y))
                            == old_first.at((old_first.height - 1 - y, x)) by {
                            assert(gv.in_bounds((x, y)));
                            assert(old_first.in_bounds((old_first.height - 1 - y, x)));
                        }
                    }
                } else {
                    assert(is_base(sv, b as int)) by {
                        assert forall|x: int, y: int| #[trigger] sv.in_bounds((x, y)) implies sv.at((x, y)) == (base_pattern(
                            b as int,
                        )[10 * x + y] == 1u8) by {
                            assert(gv.in_bounds((x, y)));
                        }
                    }
                }
            }
            let ghost before = patterns@;
            push_coded(&mut patterns, same);
            push_coded(&mut patterns, inverted);
            push_coded(&mut patterns, flip_inverted);
            push_coded(&mut patterns, flip);
            proof {
                let l = before.len() as int;
                assert(patterns@.len() == l + 4);
                assert forall|t: int| 0 <= t < l implies patterns[t] == before[t] by {}
                assert(patterns[l].1@ == sv);
                assert(patterns[l + 1].1@ == iv);
                assert(patterns[l + 2].1@ == fiv);
                assert(patterns[l + 3].1@ == fv);
                assert(l % 4 == 0);
                assert forall|t: int| 0 <= t < patterns.len() && t % 4 == 0 implies {
                    &&& inverse_of(patterns[t + 1].1@, (#[trigger] patterns[t]).1@)
                    &&& mirror_of(patterns[t + 3].1@, patterns[t].1@)
                    &&& inverse_of(patterns[t + 2].1@, patterns[t + 3].1@)
                } by {
                    if t < l {
                        assert(before[t] == patterns[t]);
                        assert(t + 3 < l);
                        assert(before[t + 1] == patterns[t + 1]);
                        assert(before[t + 2] == patterns[t + 2]);
                        assert(before[t + 3] == patterns[t + 3]);
                    } else {
                        assert(t == l);
                    }
                }
                assert forall|t: int| 0 <= t < patterns.len() && t % 4 == 0 && t % 16 != 0 implies rotation_of(
                    (#[trigger] patterns[t]).1@,
                    patterns[t - 4].1@,
                ) by {
                    if t < l {
                        assert(before[t] == patterns[t]);
                        assert(before[t - 4] == patterns[t - 4]);
                    } else {
                        assert(t == l);
                        assert(rotations > 0);
                        assert(patterns[t - 4] == before[l - 4]);
                    }
                }
                if b > 0 {
                    assert(patterns[0] == before[0]);
                }
                if b > 1 {
                    assert(patterns[16] == before[16]);
                }
                if rotations > 0 {
                    assert(patterns[16 * b as int] == before[16 * b as int]);
                }
                assert(same_cells(patterns[patterns.len() - 4].1@, gv));
            }
            rotations += 1;
        }
        b += 1;
    }
    patterns
}

} // verus!
