//! Generation-synchronised breadth-first search for a route from the source
//! to the destination of an automaton.
use vstd::prelude::*;
use crate::automaton::{generation, is_route, lemma_generation_frame, open_at, trace, Automaton, AutomatonModel};
use crate::bitgrid::{members, BitGrid};
use crate::position::{fits_i16, letter, manhattan, shift, unshift, Cell, Movement, Position};
use crate::trail::{
    cell_key, key_of, trail_cells, trail_get, trail_insert, trail_is_empty, trail_map, trail_new,
    trail_positions, Trail, TrailMap,
};

verus! {

/// Whether some movement leads from a cell of `prev` to `c`.
pub open spec fn came_from(prev: Set<Cell>, c: Cell) -> bool {
    ||| prev.contains(unshift(c, Movement::Up))
    ||| prev.contains(unshift(c, Movement::Down))
    ||| prev.contains(unshift(c, Movement::Left))
    ||| prev.contains(unshift(c, Movement::Right))
}

/// The cells reachable from the source in exactly `n` movements, one per
/// generation, standing on a dead cell after every movement.
pub open spec fn reach(a: AutomatonModel, n: nat) -> Set<Cell>
    decreases n,
{
    if n == 0 {
        set![a.source]
    } else {
        let prev = reach(a, (n - 1) as nat);
        Set::new(|c: Cell| open_at(a, n, c) && came_from(prev, c))
    }
}

/// The first movement, in the order Up, Down, Left, Right, that leads from a
/// cell of `prev` to `c`.
pub open spec fn first_step(prev: Set<Cell>, c: Cell) -> Movement {
    if prev.contains(unshift(c, Movement::Up)) {
        Movement::Up
    } else if prev.contains(unshift(c, Movement::Down)) {
        Movement::Down
    } else if prev.contains(unshift(c, Movement::Left)) {
        Movement::Left
    } else {
        Movement::Right
    }
}

/// The path rebuilt backwards from `c` at layer `g` of a membership history,
/// taking at each layer the first movement that explains the step.
pub open spec fn retrace(hist: Seq<Set<Cell>>, g: nat, c: Cell) -> Seq<Movement>
    decreases g,
{
    if g == 0 {
        Seq::empty()
    } else {
        let m = first_step(hist[g - 1], c);
        retrace(hist, (g - 1) as nat, unshift(c, m)).push(m)
    }
}

/// Every member of the layers `1 ..= g` is explained by the layer before it.
pub open spec fn layered(hist: Seq<Set<Cell>>, g: nat) -> bool {
    &&& g < hist.len()
    &&& forall|k: int, c: Cell|
        1 <= k <= g && #[trigger] hist[k].contains(c) ==> came_from(hist[k - 1], c)
}

/// The membership sets of a history of bit grids.
pub open spec fn layer_sets(hist: Seq<BitGrid>) -> Seq<Set<Cell>> {
    hist.map_values(|b: BitGrid| members(b@))
}

/// Appending a movement does not change the cells visited before it.
pub proof fn lemma_trace_push(s: Cell, p: Seq<Movement>, m: Movement, k: int)
    requires
        0 <= k <= p.len(),
    ensures
        trace(s, p.push(m), k) == trace(s, p, k),
    decreases k,
{
    if k > 0 {
        lemma_trace_push(s, p, m, k - 1);
        assert(p.push(m)[k - 1] == p[k - 1]);
    }
}

/// A retraced path starts at the single member of layer 0, visits a member of
/// every layer, and ends at `c`.
pub proof fn lemma_retrace_route(hist: Seq<Set<Cell>>, g: nat, c: Cell, s: Cell)
    requires
        layered(hist, g),
        hist[g as int].contains(c),
        hist[0] == set![s],
    ensures
        retrace(hist, g, c).len() == g,
        trace(s, retrace(hist, g, c), g as int) == c,
        forall|k: int| 0 <= k <= g ==> #[trigger] hist[k].contains(trace(s, retrace(hist, g, c), k)),
    decreases g,
{
    if g == 0 {
        assert(set![s].contains(c));
    } else {
        let m = first_step(hist[g - 1], c);
        let prev = unshift(c, m);
        assert(came_from(hist[g - 1], c));
        assert(hist[g - 1].contains(prev));
        lemma_retrace_route(hist, (g - 1) as nat, prev, s);
        let p = retrace(hist, (g - 1) as nat, prev);
        assert forall|k: int| 0 <= k <= g implies #[trigger] hist[k].contains(
            trace(s, retrace(hist, g, c), k),
        ) by {
            if k < g {
                lemma_trace_push(s, p, m, k);
            } else {
                lemma_trace_push(s, p, m, k - 1);
            }
        }
        lemma_trace_push(s, p, m, g - 1);
    }
}

/// Every member of a layer after the first is dead in its generation.
pub proof fn lemma_reach_open(a: AutomatonModel, n: nat, c: Cell)
    requires
        n >= 1,
        reach(a, n).contains(c),
    ensures
        open_at(a, n, c),
{
}

/// A route built from the layers of `reach` is a route of the automaton.
pub proof fn lemma_reach_route(a: AutomatonModel, path: Seq<Movement>, c: Cell)
    requires
        trace(a.source, path, path.len() as int) == c,
        forall|k: int| 0 <= k <= path.len() ==> #[trigger] reach(a, k as nat).contains(trace(a.source, path, k)),
    ensures
        is_route(a, path, c),
{
    assert forall|k: int| 1 <= k <= path.len() implies #[trigger] open_at(a, k as nat, trace(a.source, path, k)) by {
        assert(reach(a, k as nat).contains(trace(a.source, path, k)));
        lemma_reach_open(a, k as nat, trace(a.source, path, k));
    }
}

/// The reach sets of every generation are layered.
pub proof fn lemma_reach_layered(a: AutomatonModel, hist: Seq<Set<Cell>>, g: nat)
    requires
        g < hist.len(),
        forall|k: int| 0 <= k <= g ==> #[trigger] hist[k] == reach(a, k as nat),
    ensures
        layered(hist, g),
{
    assert forall|k: int, c: Cell| 1 <= k <= g && #[trigger] hist[k].contains(c) implies came_from(
        hist[k - 1],
        c,
    ) by {
        assert(hist[k] == reach(a, k as nat));
        assert(hist[k - 1] == reach(a, (k - 1) as nat));
    }
}

/// Whether the walk back from `c` at layer `g` of a membership history
/// finds a predecessor in every earlier layer.
pub open spec fn retraceable(hist: Seq<Set<Cell>>, g: nat, c: Cell) -> bool
    decreases g,
{
    &&& g < hist.len()
    &&& hist[g as int].contains(c)
    &&& (g == 0 || (came_from(hist[g - 1], c) && retraceable(
        hist,
        (g - 1) as nat,
        unshift(c, first_step(hist[g - 1], c)),
    )))
}

/// In a layered history every member can be walked back to layer 0.
pub proof fn lemma_layered_retraceable(hist: Seq<Set<Cell>>, g: nat, c: Cell)
    requires
        layered(hist, g),
        hist[g as int].contains(c),
    ensures
        retraceable(hist, g, c),
    decreases g,
{
    if g > 0 {
        assert(came_from(hist[g - 1], c));
        let prev = unshift(c, first_step(hist[g - 1], c));
        assert(hist[g - 1].contains(prev));
        lemma_layered_retraceable(hist, (g - 1) as nat, prev);
    }
}

/// Rebuilds the path that reached `pos` at generation `gen` of a membership
/// history, walking back one layer at a time.
pub fn assemble_path_from_sets(history: &[BitGrid], gen: usize, pos: Position) -> (r: Vec<Movement>)
    requires
        gen < history.len(),
        forall|k: int| 0 <= k <= gen ==> (#[trigger] history[k]).wf(),
        retraceable(layer_sets(history@), gen as nat, pos@),
    ensures
        r@ == retrace(layer_sets(history@), gen as nat, pos@),
{
    let ghost hist = layer_sets(history@);
    let mut path: Vec<Movement> = vec![Movement::Up; gen];
    let mut cur: usize = gen;
    let mut p = pos;
    while cur > 0
        invariant
            hist == layer_sets(history@),
            gen < history.len(),
            forall|k: int| 0 <= k <= gen ==> (#[trigger] history[k]).wf(),
            cur <= gen,
            path.len() == gen,
            retraceable(hist, cur as nat, p@),
            retrace(hist, gen as nat, pos@) == retrace(hist, cur as nat, p@) + path@.subrange(
                cur as int,
                gen as int,
            ),
        decreases cur,
    {
        let ghost before = path@;
        assert(history[cur as int].wf());
        assert(hist[cur as int] == members(history[cur as int]@));
        assert(came_from(hist[cur - 1], p@));
        let layer = &history[cur - 1];
        let m = if layer.contains(p.previous(Movement::Up)) {
            Movement::Up
        } else if layer.contains(p.previous(Movement::Down)) {
            Movement::Down
        } else if layer.contains(p.previous(Movement::Left)) {
            Movement::Left
        } else {
            Movement::Right
        };
        assert(m == first_step(hist[cur - 1], p@));
        let prev = p.previous(m);
        path.set(cur - 1, m);
        proof {
            assert(path@.subrange(cur - 1, gen as int) =~= seq![m] + before.subrange(
                cur as int,
                gen as int,
            ));
            assert(retrace(hist, cur as nat, p@) == retrace(hist, (cur - 1) as nat, prev@).push(m));
            assert(retrace(hist, (cur - 1) as nat, prev@).push(m) + before.subrange(cur as int, gen as int)
                =~= retrace(hist, (cur - 1) as nat, prev@) + path@.subrange(cur - 1, gen as int));
        }
        p = prev;
        cur -= 1;
    }
    proof {
        assert(path@.subrange(0, gen as int) =~= path@);
        assert(retrace(hist, 0, p@) + path@ =~= path@);
    }
    path
}

/// The cells dead at generation `n` that some movement reaches from `srcs`.
pub open spec fn frontier(a: AutomatonModel, n: nat, srcs: Set<Cell>) -> Set<Cell> {
    Set::new(|c: Cell| open_at(a, n, c) && came_from(srcs, c))
}

/// The cells of the first `t` positions of `ps`.
pub open spec fn prefix_cells(ps: Seq<Position>, t: int) -> Set<Cell> {
    Set::new(|c: Cell| exists|s: int| 0 <= s < t && (#[trigger] ps[s])@ == c)
}

/// Once a layer is empty, every later layer is empty.
pub proof fn lemma_reach_empty_after(a: AutomatonModel, n: nat, m: nat)
    requires
        reach(a, n) == Set::<Cell>::empty(),
        n <= m,
    ensures
        reach(a, m) == Set::<Cell>::empty(),
    decreases m - n,
{
    if n < m {
        lemma_reach_empty_after(a, n, (m - 1) as nat);
        assert(reach(a, m) =~= Set::<Cell>::empty());
    }
}

/// Every member of a layer lies on the grid.
pub proof fn lemma_reach_in_bounds(a: AutomatonModel, n: nat, c: Cell)
    requires
        a.wf(),
        reach(a, n).contains(c),
    ensures
        a.grid.in_bounds(c),
{
    if n > 0 {
        lemma_generation_frame(a, n);
    }
}

/// Adding one position to the explored prefix adds its open neighbours.
proof fn lemma_frontier_step(a: AutomatonModel, n: nat, ps: Seq<Position>, t: int)
    requires
        0 <= t < ps.len(),
    ensures
        frontier(a, n, prefix_cells(ps, t + 1)) == frontier(a, n, prefix_cells(ps, t)).union(
            Set::new(
                |c: Cell|
                    open_at(a, n, c) && (c == shift(ps[t]@, Movement::Up) || c == shift(ps[t]@, Movement::Down)
                        || c == shift(ps[t]@, Movement::Left) || c == shift(ps[t]@, Movement::Right)),
            ),
        ),
{
    assert(prefix_cells(ps, t + 1) =~= prefix_cells(ps, t).insert(ps[t]@)) by {
        assert forall|c: Cell| prefix_cells(ps, t + 1).contains(c) implies prefix_cells(ps, t).insert(
            ps[t]@,
        ).contains(c) by {
            let s = choose|s: int| 0 <= s < t + 1 && (#[trigger] ps[s])@ == c;
            if s < t {
                assert(prefix_cells(ps, t).contains(c));
            }
        }
        assert forall|c: Cell| prefix_cells(ps, t).insert(ps[t]@).contains(c) implies prefix_cells(
            ps,
            t + 1,
        ).contains(c) by {
            if c == ps[t]@ {
                assert(ps[t]@ == c);
            } else {
                let s = choose|s: int| 0 <= s < t && (#[trigger] ps[s])@ == c;
                assert(0 <= s < t + 1 && ps[s]@ == c);
            }
        }
    }
    assert(frontier(a, n, prefix_cells(ps, t + 1)) =~= frontier(a, n, prefix_cells(ps, t)).union(
        Set::new(
            |c: Cell|
                open_at(a, n, c) && (c == shift(ps[t]@, Movement::Up) || c == shift(ps[t]@, Movement::Down)
                    || c == shift(ps[t]@, Movement::Left) || c == shift(ps[t]@, Movement::Right)),
        ),
    ));
}

/// The reach sets of generations `0 ..= n`.
pub open spec fn reach_seq(a: AutomatonModel, n: nat) -> Seq<Set<Cell>> {
    Seq::new(n + 1, |k: int| reach(a, k as nat))
}

/// A retraced path depends only on the layers before its generation.
proof fn lemma_retrace_prefix(h1: Seq<Set<Cell>>, h2: Seq<Set<Cell>>, g: nat, c: Cell)
    requires
        g <= h1.len(),
        g <= h2.len(),
        forall|k: int| 0 <= k < g ==> h1[k] == h2[k],
    ensures
        retrace(h1, g, c) == retrace(h2, g, c),
    decreases g,
{
    if g > 0 {
        assert(h1[g - 1] == h2[g - 1]);
        lemma_retrace_prefix(h1, h2, (g - 1) as nat, unshift(c, first_step(h1[g - 1], c)));
    }
}

/// Tries one movement from `pos` in the robust search: when it lands on a
/// cell that is dead in `next_gen`, that cell joins `to_visit`, and becomes
/// the best so far when it is strictly closer to the destination.
fn visit_robust(
    next_gen: &Automaton,
    pos: Position,
    movement: Movement,
    gen1: usize,
    to_visit: &mut BitGrid,
    best_pos: &mut Position,
    best_dist: &mut u16,
    best_gen: &mut usize,
)
    requires
        next_gen.wf(),
        next_gen@.grid.in_bounds(pos@),
        old(to_visit).wf(),
        old(to_visit)@.height == next_gen@.grid.height,
        old(to_visit)@.width == next_gen@.grid.width,
    ensures
        final(to_visit).wf(),
        final(to_visit)@.height == next_gen@.grid.height,
        final(to_visit)@.width == next_gen@.grid.width,
        ({
            let c = shift(pos@, movement);
            let open = next_gen@.grid.in_bounds(c) && !next_gen@.grid.at(c);
            &&& members(final(to_visit)@) == if open {
                members(old(to_visit)@).insert(c)
            } else {
                members(old(to_visit)@)
            }
            &&& if open && manhattan(c, next_gen@.destination) < *old(best_dist) {
                &&& final(best_pos)@ == c
                &&& *final(best_dist) as int == manhattan(c, next_gen@.destination)
                &&& *final(best_gen) == gen1
            } else {
                &&& *final(best_pos) == *old(best_pos)
                &&& *final(best_dist) == *old(best_dist)
                &&& *final(best_gen) == *old(best_gen)
            }
        }),
{
    let next = pos.next(movement);
    if let Some(false) = next_gen.alive(next) {
        let destination = next_gen.destination();
        let dist = next.distance(&destination);
        if dist < *best_dist {
            *best_pos = next;
            *best_dist = dist;
            *best_gen = gen1;
        }
        to_visit.insert(next);
    }
}

/// Finds a route from the source to the destination without pruning: the
/// reached set of every generation is kept whole, as one bit per cell, and
/// the route is rebuilt from those sets.
///
/// Returns `Ok` with a shortest route when the destination is reachable at
/// some generation below `max_generations`. Otherwise returns `Err` with a
/// best-effort route: one that ends at a reached cell closest to the
/// destination, at the first generation where that distance is reached.
/// Both routes are the ones rebuilt from the reach sets (see `retrace`).
#[verifier::rlimit(60)]
pub fn find_path_robust(automaton: Automaton, max_generations: usize) -> (r: Result<Vec<Movement>, Vec<Movement>>)
    requires
        automaton.wf(),
    ensures
        match r {
            Ok(path) => {
                &&& path.len() < max_generations
                &&& is_route(automaton@, path@, automaton@.destination)
                &&& reach(automaton@, path.len() as nat).contains(automaton@.destination)
                &&& forall|g: nat| g < path.len() ==> !#[trigger] reach(automaton@, g).contains(automaton@.destination)
                &&& path@ == retrace(reach_seq(automaton@, path.len() as nat), path.len() as nat, automaton@.destination)
            },
            Err(path) => {
                let end = trace(automaton@.source, path@, path.len() as int);
                &&& forall|g: nat| g < max_generations ==> !#[trigger] reach(automaton@, g).contains(automaton@.destination)
                &&& path.len() <= max_generations
                &&& reach(automaton@, path.len() as nat).contains(end)
                &&& is_route(automaton@, path@, end)
                &&& forall|g: nat, c: Cell|
                    g <= max_generations && #[trigger] reach(automaton@, g).contains(c) ==> manhattan(end, automaton@.destination)
                        <= manhattan(c, automaton@.destination)
                &&& forall|g: nat, c: Cell|
                    g < path.len() && #[trigger] reach(automaton@, g).contains(c) ==> manhattan(end, automaton@.destination)
                        < manhattan(c, automaton@.destination)
                &&& path@ == retrace(reach_seq(automaton@, path.len() as nat), path.len() as nat, end)
            },
        },
{
    let ghost a = automaton@;
    let source = automaton.source();
    let destination = automaton.destination();
    let mut sim = automaton;
    let mut reached: Vec<BitGrid> = Vec::new();
    let mut first = BitGrid::new(sim.grid().height(), sim.grid().width());
    first.insert(source);
    reached.push(first);
    proof {
        assert(members(reached[0]@) =~= reach(a, 0));
        lemma_generation_frame(a, 0);
    }
    let mut best_pos = source;
    let mut best_dist = source.distance(&destination);
    let mut best_gen: usize = 0;
    let mut gen: usize = 0;
    while gen < max_generations
        invariant
            a == automaton@,
            a.wf(),
            sim.wf(),
            sim@ == generation(a, gen as nat),
            source@ == a.source,
            destination@ == a.destination,
            gen <= max_generations,
            reached.len() == gen + 1,
            forall|k: int|
                0 <= k <= gen ==> {
                    &&& (#[trigger] reached[k]).wf()
                    &&& reached[k]@.height == a.grid.height
                    &&& reached[k]@.width == a.grid.width
                    &&& members(reached[k]@) == reach(a, k as nat)
                },
            forall|g: nat| g < gen ==> !#[trigger] reach(a, g).contains(a.destination),
            best_gen <= gen,
            reach(a, best_gen as nat).contains(best_pos@),
            best_dist as int == manhattan(best_pos@, a.destination),
            forall|g: nat, c: Cell|
                g <= gen && #[trigger] reach(a, g).contains(c) ==> best_dist <= manhattan(c, a.destination),
            forall|g: nat, c: Cell|
                g < best_gen && #[trigger] reach(a, g).contains(c) ==> best_dist < manhattan(c, a.destination),
        ensures
            forall|g: nat| g < max_generations ==> !#[trigger] reach(a, g).contains(a.destination),
            forall|g: nat, c: Cell|
                g <= max_generations && #[trigger] reach(a, g).contains(c) ==> best_dist <= manhattan(
                    c,
                    a.destination,
                ),
        decreases max_generations - gen,
    {
        proof {
            lemma_generation_frame(a, gen as nat);
            lemma_generation_frame(a, (gen + 1) as nat);
        }
        let next_generation = sim.next_generation();
        let mut to_visit = BitGrid::with_dim_from(&reached[gen]);
        let ps = reached[gen].iter();
        let ghost layer = reach(a, gen as nat);
        proof {
            assert(reached[gen as int].wf());
            assert(members(reached[gen as int]@) == layer);
            assert(prefix_cells(ps@, 0) =~= Set::<Cell>::empty());
            assert(frontier(a, (gen + 1) as nat, Set::<Cell>::empty()) =~= Set::<Cell>::empty());
        }
        let mut t: usize = 0;
        while t < ps.len()
            invariant
                a == automaton@,
                a.wf(),
                next_generation.wf(),
                next_generation@ == generation(a, (gen + 1) as nat),
                next_generation@.grid.height == a.grid.height,
                next_generation@.grid.width == a.grid.width,
                next_generation@.destination == a.destination,
                sim@ == generation(a, gen as nat),
                destination@ == a.destination,
                gen < max_generations,
                reached.len() == gen + 1,
                forall|k: int|
                    0 <= k <= gen ==> {
                        &&& (#[trigger] reached[k]).wf()
                        &&& reached[k]@.height == a.grid.height
                        &&& reached[k]@.width == a.grid.width
                        &&& members(reached[k]@) == reach(a, k as nat)
                    },
                layer == reach(a, gen as nat),
                forall|s: int| 0 <= s < ps.len() ==> layer.contains(#[trigger] ps[s]@),
                forall|c: Cell| #[trigger] layer.contains(c) ==> exists|s: int| 0 <= s < ps.len() && ps[s]@ == c,
                t <= ps.len(),
                forall|s: int| 0 <= s < t ==> (#[trigger] ps[s])@ != a.destination,
                to_visit.wf(),
                to_visit@.height == a.grid.height,
                to_visit@.width == a.grid.width,
                members(to_visit@) == frontier(a, (gen + 1) as nat, prefix_cells(ps@, t as int)),
                forall|g: nat| g < gen ==> !#[trigger] reach(a, g).contains(a.destination),
                best_gen <= gen + 1,
                best_gen <= gen ==> reach(a, best_gen as nat).contains(best_pos@),
                best_gen == gen + 1 ==> members(to_visit@).contains(best_pos@),
                best_dist as int == manhattan(best_pos@, a.destination),
                forall|g: nat, c: Cell|
                    g <= gen && #[trigger] reach(a, g).contains(c) ==> best_dist <= manhattan(c, a.destination),
                forall|c: Cell| #[trigger] members(to_visit@).contains(c) ==> best_dist <= manhattan(c, a.destination),
                forall|g: nat, c: Cell|
                    g < best_gen && #[trigger] reach(a, g).contains(c) ==> best_dist < manhattan(c, a.destination),
            decreases ps.len() - t,
        {
            let pos = ps[t];
            proof {
                lemma_reach_in_bounds(a, gen as nat, pos@);
            }
            if pos == destination {
                proof {
                    let hist = layer_sets(reached@);
                    assert forall|k: int| 0 <= k <= gen implies #[trigger] hist[k] == reach(a, k as nat) by {
                        assert(reached[k].wf());
                    }
                    lemma_reach_layered(a, hist, gen as nat);
                    lemma_layered_retraceable(hist, gen as nat, pos@);
                }
                let path = assemble_path_from_sets(&reached, gen, pos);
                proof {
                    let hist = layer_sets(reached@);
                    assert(hist[0] == reach(a, 0));
                    assert(hist[0] =~= set![a.source]);
                    lemma_retrace_route(hist, gen as nat, pos@, a.source);
                    assert forall|k: int| 0 <= k <= path.len() implies #[trigger] reach(a, k as nat).contains(
                        trace(a.source, path@, k),
                    ) by {
                        assert(hist[k].contains(trace(a.source, path@, k)));
                    }
                    lemma_reach_route(a, path@, a.destination);
                    lemma_retrace_prefix(hist, reach_seq(a, gen as nat), gen as nat, pos@);
                }
                return Ok(path);
            }
            let ghost before = members(to_visit@);
            let ghost dist0 = best_dist;
            let ghost gen0 = best_gen;
            visit_robust(&next_generation, pos, Movement::Up, gen + 1, &mut to_visit, &mut best_pos, &mut best_dist, &mut best_gen);
            visit_robust(&next_generation, pos, Movement::Down, gen + 1, &mut to_visit, &mut best_pos, &mut best_dist, &mut best_gen);
            visit_robust(&next_generation, pos, Movement::Left, gen + 1, &mut to_visit, &mut best_pos, &mut best_dist, &mut best_gen);
            visit_robust(&next_generation, pos, Movement::Right, gen + 1, &mut to_visit, &mut best_pos, &mut best_dist, &mut best_gen);
            proof {
                lemma_frontier_step(a, (gen + 1) as nat, ps@, t as int);
                assert(members(to_visit@) =~= frontier(a, (gen + 1) as nat, prefix_cells(ps@, t + 1)));
                if best_gen != gen0 || best_dist != dist0 {
                    assert(best_dist < dist0);
                    assert forall|g: nat, c: Cell| g < best_gen && #[trigger] reach(a, g).contains(c) implies best_dist
                        < manhattan(c, a.destination) by {
                        assert(g <= gen);
                    }
                }
            }
            t += 1;
        }
        proof {
            assert(prefix_cells(ps@, ps.len() as int) =~= layer);
            assert(members(to_visit@) =~= reach(a, (gen + 1) as nat));
            assert(!layer.contains(a.destination)) by {
                if layer.contains(a.destination) {
                    let s = choose|s: int| 0 <= s < ps.len() && ps[s]@ == a.destination;
                    assert(ps[s]@ != a.destination);
                }
            }
        }
        if to_visit.is_empty() {
            proof {
                assert forall|g: nat, c: Cell|
                    g <= max_generations && #[trigger] reach(a, g).contains(c) implies best_dist <= manhattan(
                        c,
                        a.destination,
                    ) by {
                    if g > gen {
                        lemma_reach_empty_after(a, (gen + 1) as nat, g);
                    }
                }
                assert forall|g: nat| g < max_generations implies !#[trigger] reach(a, g).contains(a.destination) by {
                    if g > gen {
                        lemma_reach_empty_after(a, (gen + 1) as nat, g);
                    }
                }
            }
            break;
        }
        sim = next_generation;
        reached.push(to_visit);
        gen += 1;
    }
    proof {
        let hist = layer_sets(reached@);
        assert forall|k: int| 0 <= k <= gen implies #[trigger] hist[k] == reach(a, k as nat) by {
            assert(reached[k].wf());
        }
        lemma_reach_layered(a, hist, gen as nat);
        assert(best_gen <= gen);
        lemma_reach_layered(a, hist, best_gen as nat);
        lemma_layered_retraceable(hist, best_gen as nat, best_pos@);
    }
    let path = assemble_path_from_sets(&reached, best_gen, best_pos);
    proof {
        let hist = layer_sets(reached@);
        assert(hist[0] == reach(a, 0));
        assert(hist[0] =~= set![a.source]);
        lemma_retrace_route(hist, best_gen as nat, best_pos@, a.source);
        assert forall|k: int| 0 <= k <= path.len() implies #[trigger] reach(a, k as nat).contains(
            trace(a.source, path@, k),
        ) by {
            assert(hist[k].contains(trace(a.source, path@, k)));
        }
        lemma_reach_route(a, path@, best_pos@);
        lemma_retrace_prefix(hist, reach_seq(a, best_gen as nat), best_gen as nat, best_pos@);
    }
    Err(path)
}

/// The contents of a history of trails.
pub open spec fn trail_maps(hist: Seq<Trail>) -> Seq<TrailMap> {
    hist.map_values(|t: Trail| trail_map(t))
}

/// Every entry of the layers `1 ..= g` points back to an entry of the layer before it.
pub open spec fn chained(hist: Seq<TrailMap>, g: nat) -> bool {
    &&& g < hist.len()
    &&& forall|k: int, c: Cell|
        1 <= k <= g && #[trigger] trail_cells(hist[k]).contains(c) ==> trail_cells(hist[k - 1]).contains(
            unshift(c, hist[k][cell_key(c)]),
        )
}

/// The path rebuilt backwards from `c` at layer `g` of a parent-pointer
/// history, following the stored movements.
pub open spec fn unwind(hist: Seq<TrailMap>, g: nat, c: Cell) -> Seq<Movement>
    decreases g,
{
    if g == 0 {
        Seq::empty()
    } else {
        let m = hist[g as int][cell_key(c)];
        unwind(hist, (g - 1) as nat, unshift(c, m)).push(m)
    }
}

/// An unwound path starts at the single cell of layer 0, visits a cell of
/// every layer, and ends at `c`.
pub proof fn lemma_unwind_route(hist: Seq<TrailMap>, g: nat, c: Cell, s: Cell)
    requires
        chained(hist, g),
        trail_cells(hist[g as int]).contains(c),
        trail_cells(hist[0]) == set![s],
    ensures
        unwind(hist, g, c).len() == g,
        trace(s, unwind(hist, g, c), g as int) == c,
        forall|k: int| 0 <= k <= g ==> #[trigger] trail_cells(hist[k]).contains(trace(s, unwind(hist, g, c), k)),
    decreases g,
{
    if g == 0 {
        assert(set![s].contains(c));
    } else {
        let m = hist[g as int][cell_key(c)];
        let prev = unshift(c, m);
        assert(trail_cells(hist[g - 1]).contains(prev));
        lemma_unwind_route(hist, (g - 1) as nat, prev, s);
        let p = unwind(hist, (g - 1) as nat, prev);
        assert forall|k: int| 0 <= k <= g implies #[trigger] trail_cells(hist[k]).contains(
            trace(s, unwind(hist, g, c), k),
        ) by {
            if k < g {
                lemma_trace_push(s, p, m, k);
            } else {
                lemma_trace_push(s, p, m, k - 1);
            }
        }
        lemma_trace_push(s, p, m, g - 1);
    }
}

/// Whether the walk back from `c` at layer `g` of a parent-pointer history,
/// following the stored movements, stays inside the history.
pub open spec fn walkable(hist: Seq<TrailMap>, g: nat, c: Cell) -> bool
    decreases g,
{
    &&& g < hist.len()
    &&& trail_cells(hist[g as int]).contains(c)
    &&& (g == 0 || walkable(hist, (g - 1) as nat, unshift(c, hist[g as int][cell_key(c)])))
}

/// In a chained history every entry can be walked back to layer 0.
pub proof fn lemma_chained_walkable(hist: Seq<TrailMap>, g: nat, c: Cell)
    requires
        chained(hist, g),
        trail_cells(hist[g as int]).contains(c),
    ensures
        walkable(hist, g, c),
    decreases g,
{
    if g > 0 {
        let prev = unshift(c, hist[g as int][cell_key(c)]);
        assert(trail_cells(hist[g - 1]).contains(prev));
        lemma_chained_walkable(hist, (g - 1) as nat, prev);
    }
}

/// Rebuilds the path that reached `pos` at generation `gen` of a
/// parent-pointer history, following the stored movements backwards.
pub fn assemble_path(history: &[Trail], gen: usize, pos: Position) -> (r: Vec<Movement>)
    requires
        walkable(trail_maps(history@), gen as nat, pos@),
    ensures
        r@ == unwind(trail_maps(history@), gen as nat, pos@),
{
    let ghost hist = trail_maps(history@);
    let mut path: Vec<Movement> = vec![Movement::Up; gen];
    let mut cur: usize = gen;
    let mut p = pos;
    while cur > 0
        invariant
            hist == trail_maps(history@),
            cur <= gen,
            path.len() == gen,
            walkable(hist, cur as nat, p@),
            unwind(hist, gen as nat, pos@) == unwind(hist, cur as nat, p@) + path@.subrange(
                cur as int,
                gen as int,
            ),
        decreases cur,
    {
        let ghost before = path@;
        assert(hist[cur as int] == trail_map(history[cur as int]));
        assert(cell_key(p@) == key_of(p));
        let m = trail_get(&history[cur], (p.i, p.j)).unwrap();
        assert(m == hist[cur as int][cell_key(p@)]);
        assert(walkable(hist, (cur - 1) as nat, unshift(p@, m)));
        assert(trail_cells(hist[cur - 1]).contains(unshift(p@, m)));
        let prev = p.previous(m);
        path.set(cur - 1, m);
        proof {
            assert(path@.subrange(cur - 1, gen as int) =~= seq![m] + before.subrange(
                cur as int,
                gen as int,
            ));
            assert(unwind(hist, cur as nat, p@) == unwind(hist, (cur - 1) as nat, prev@).push(m));
            assert(unwind(hist, (cur - 1) as nat, prev@).push(m) + before.subrange(cur as int, gen as int)
                =~= unwind(hist, (cur - 1) as nat, prev@) + path@.subrange(cur - 1, gen as int));
        }
        p = prev;
        cur -= 1;
    }
    proof {
        assert(path@.subrange(0, gen as int) =~= path@);
        assert(unwind(hist, 0, p@) + path@ =~= path@);
    }
    path
}

/// Whether pruning can never apply: the budget exceeds every distance on the grid.
pub open spec fn unpruned(a: AutomatonModel, max_pessimism: u16) -> bool {
    max_pessimism as int >= a.grid.height + a.grid.width
}

/// The running state of one expansion of the heuristic search: the next
/// layer's entries so far, and the best position with its distance and
/// generation.
pub struct Expansion {
    pub map: TrailMap,
    pub best_pos: Position,
    pub best_dist: u16,
    pub best_gen: usize,
}

/// The expansion state held by a trail and the running best.
pub open spec fn expansion(t: Trail, best_pos: Position, best_dist: u16, best_gen: usize) -> Expansion {
    Expansion { map: trail_map(t), best_pos, best_dist, best_gen }
}

/// One movement from `pos` in the heuristic search, against the next
/// generation `m`. A landing cell that is dead in `m` is dropped when it is
/// farther from the destination than the best distance so far plus
/// `max_pessimism`; otherwise it becomes the best so far when strictly
/// closer, and joins the next layer with this movement unless it is there.
pub open spec fn try_move(
    m: AutomatonModel,
    max_pessimism: u16,
    gen1: usize,
    st: Expansion,
    pos: Position,
    mv: Movement,
) -> Expansion {
    let c = shift(pos@, mv);
    let open = m.grid.in_bounds(c) && !m.grid.at(c);
    let d = manhattan(c, m.destination);
    let kept = open && d <= st.best_dist + max_pessimism;
    let map = if kept && !st.map.contains_key(cell_key(c)) {
        st.map.insert(cell_key(c), mv)
    } else {
        st.map
    };
    if open && d < st.best_dist {
        Expansion { map, best_pos: Position { i: c.0 as i16, j: c.1 as i16 }, best_dist: d as u16, best_gen: gen1 }
    } else {
        Expansion { map, ..st }
    }
}

/// The four movements from `pos`, in the order Up, Down, Left, Right.
pub open spec fn try_all(m: AutomatonModel, max_pessimism: u16, gen1: usize, st: Expansion, pos: Position) -> Expansion {
    let st = try_move(m, max_pessimism, gen1, st, pos, Movement::Up);
    let st = try_move(m, max_pessimism, gen1, st, pos, Movement::Down);
    let st = try_move(m, max_pessimism, gen1, st, pos, Movement::Left);
    try_move(m, max_pessimism, gen1, st, pos, Movement::Right)
}

/// The expansion of the positions `ps`, in that order, from state `st`.
pub open spec fn expand_fold(m: AutomatonModel, max_pessimism: u16, gen1: usize, st: Expansion, ps: Seq<Position>) -> Expansion
    decreases ps.len(),
{
    if ps.len() == 0 {
        st
    } else {
        try_all(m, max_pessimism, gen1, expand_fold(m, max_pessimism, gen1, st, ps.drop_last()), ps.last())
    }
}

/// Tries one movement from `pos` in the heuristic search (see `try_move`).
fn visit_pruned(
    next_gen: &Automaton,
    pos: Position,
    movement: Movement,
    gen1: usize,
    max_pessimism: u16,
    to_visit: &mut Trail,
    best_pos: &mut Position,
    best_dist: &mut u16,
    best_gen: &mut usize,
)
    requires
        next_gen.wf(),
        next_gen@.grid.in_bounds(pos@),
    ensures
        expansion(*final(to_visit), *final(best_pos), *final(best_dist), *final(best_gen)) == try_move(
            next_gen@,
            max_pessimism,
            gen1,
            expansion(*old(to_visit), *old(best_pos), *old(best_dist), *old(best_gen)),
            pos,
            movement,
        ),
        ({
            let c = shift(pos@, movement);
            let open = next_gen@.grid.in_bounds(c) && !next_gen@.grid.at(c);
            let kept = open && manhattan(c, next_gen@.destination) <= *old(best_dist) + max_pessimism;
            &&& fits_i16(c)
            &&& trail_map(*final(to_visit)) == if kept && !trail_map(*old(to_visit)).contains_key(cell_key(c)) {
                trail_map(*old(to_visit)).insert(cell_key(c), movement)
            } else {
                trail_map(*old(to_visit))
            }
            &&& *final(best_dist) <= *old(best_dist)
            &&& open ==> *final(best_dist) <= manhattan(c, next_gen@.destination)
            &&& if open && manhattan(c, next_gen@.destination) < *old(best_dist) {
                &&& final(best_pos)@ == c
                &&& *final(best_dist) as int == manhattan(c, next_gen@.destination)
                &&& *final(best_gen) == gen1
            } else {
                &&& *final(best_pos) == *old(best_pos)
                &&& *final(best_dist) == *old(best_dist)
                &&& *final(best_gen) == *old(best_gen)
            }
        }),
{
    let next = pos.next(movement);
    if let Some(false) = next_gen.alive(next) {
        let destination = next_gen.destination();
        let dist = next.distance(&destination);
        if dist < *best_dist {
            *best_pos = next;
            *best_dist = dist;
            *best_gen = gen1;
        } else if dist as u32 > *best_dist as u32 + max_pessimism as u32 {
            return;
        }
        if trail_get(to_visit, (next.i, next.j)).is_none() {
            trail_insert(to_visit, (next.i, next.j), movement);
        }
    }
}

/// The cells dead in `m` that some movement reaches from `srcs`.
pub open spec fn successors(m: AutomatonModel, srcs: Set<Cell>) -> Set<Cell> {
    Set::new(|c: Cell| m.grid.in_bounds(c) && !m.grid.at(c) && came_from(srcs, c))
}

/// The cells dead in `m` that one movement reaches from `p`.
pub open spec fn open_neighbors(m: AutomatonModel, p: Cell) -> Set<Cell> {
    Set::new(
        |c: Cell|
            m.grid.in_bounds(c) && !m.grid.at(c) && (c == shift(p, Movement::Up) || c == shift(p, Movement::Down)
                || c == shift(p, Movement::Left) || c == shift(p, Movement::Right)),
    )
}

/// Adding one position to the explored prefix adds its open neighbours.
proof fn lemma_successors_step(m: AutomatonModel, ps: Seq<Position>, t: int)
    requires
        0 <= t < ps.len(),
    ensures
        successors(m, prefix_cells(ps, t + 1)) == successors(m, prefix_cells(ps, t)).union(
            open_neighbors(m, ps[t]@),
        ),
{
    assert(prefix_cells(ps, t + 1) =~= prefix_cells(ps, t).insert(ps[t]@)) by {
        assert forall|c: Cell| prefix_cells(ps, t + 1).contains(c) implies prefix_cells(ps, t).insert(
            ps[t]@,
        ).contains(c) by {
            let s = choose|s: int| 0 <= s < t + 1 && (#[trigger] ps[s])@ == c;
            if s < t {
                assert(prefix_cells(ps, t).contains(c));
            }
        }
        assert forall|c: Cell| prefix_cells(ps, t).insert(ps[t]@).contains(c) implies prefix_cells(
            ps,
            t + 1,
        ).contains(c) by {
            if c == ps[t]@ {
                assert(ps[t]@ == c);
            } else {
                let s = choose|s: int| 0 <= s < t && (#[trigger] ps[s])@ == c;
                assert(0 <= s < t + 1 && ps[s]@ == c);
            }
        }
    }
    assert(successors(m, prefix_cells(ps, t + 1)) =~= successors(m, prefix_cells(ps, t)).union(
        open_neighbors(m, ps[t]@),
    ));
}

/// Tries the four movements from `pos` in the heuristic search.
#[verifier::rlimit(40)]
fn visit_all(
    next_gen: &Automaton,
    pos: Position,
    gen1: usize,
    max_pessimism: u16,
    to_visit: &mut Trail,
    best_pos: &mut Position,
    best_dist: &mut u16,
    best_gen: &mut usize,
)
    requires
        next_gen.wf(),
        next_gen@.grid.in_bounds(pos@),
        *old(best_dist) as int == manhattan(old(best_pos)@, next_gen@.destination),
        forall|c: Cell| #[trigger] trail_cells(trail_map(*old(to_visit))).contains(c) ==> *old(best_dist) <= manhattan(
            c,
            next_gen@.destination,
        ),
    ensures
        expansion(*final(to_visit), *final(best_pos), *final(best_dist), *final(best_gen)) == try_all(
            next_gen@,
            max_pessimism,
            gen1,
            expansion(*old(to_visit), *old(best_pos), *old(best_dist), *old(best_gen)),
            pos,
        ),
        ({
            let before = trail_map(*old(to_visit));
            let after = trail_map(*final(to_visit));
            let added = open_neighbors(next_gen@, pos@);
            &&& trail_cells(after).subset_of(trail_cells(before).union(added))
            &&& trail_cells(before).subset_of(trail_cells(after))
            &&& unpruned(next_gen@, max_pessimism) ==> trail_cells(after) == trail_cells(before).union(added)
            &&& forall|c: Cell|
                #[trigger] trail_cells(after).contains(c) ==> (trail_cells(before).contains(c) && after[cell_key(c)]
                    == before[cell_key(c)]) || unshift(c, after[cell_key(c)]) == pos@
            &&& *final(best_dist) <= *old(best_dist)
            &&& *final(best_dist) as int == manhattan(final(best_pos)@, next_gen@.destination)
            &&& (*final(best_gen) == *old(best_gen) && *final(best_pos) == *old(best_pos)) || (*final(best_gen) == gen1
                && trail_cells(after).contains(final(best_pos)@))
            &&& forall|c: Cell| #[trigger] trail_cells(after).contains(c) ==> *final(best_dist) <= manhattan(
                c,
                next_gen@.destination,
            )
            &&& forall|c: Cell| #[trigger] added.contains(c) ==> *final(best_dist) <= manhattan(c, next_gen@.destination)
        }),
{
    let ghost m = next_gen@;
    let ghost s0 = expansion(*to_visit, *best_pos, *best_dist, *best_gen);
    visit_pruned(next_gen, pos, Movement::Up, gen1, max_pessimism, to_visit, best_pos, best_dist, best_gen);
    let ghost s1 = expansion(*to_visit, *best_pos, *best_dist, *best_gen);
    visit_pruned(next_gen, pos, Movement::Down, gen1, max_pessimism, to_visit, best_pos, best_dist, best_gen);
    let ghost s2 = expansion(*to_visit, *best_pos, *best_dist, *best_gen);
    visit_pruned(next_gen, pos, Movement::Left, gen1, max_pessimism, to_visit, best_pos, best_dist, best_gen);
    let ghost s3 = expansion(*to_visit, *best_pos, *best_dist, *best_gen);
    visit_pruned(next_gen, pos, Movement::Right, gen1, max_pessimism, to_visit, best_pos, best_dist, best_gen);
    proof {
        assert(s1 == try_move(m, max_pessimism, gen1, s0, pos, Movement::Up));
        assert(s2 == try_move(m, max_pessimism, gen1, s1, pos, Movement::Down));
        assert(s3 == try_move(m, max_pessimism, gen1, s2, pos, Movement::Left));
        let before = trail_map(*old(to_visit));
        let after = trail_map(*to_visit);
        let added = open_neighbors(m, pos@);
        assert(trail_cells(after).subset_of(trail_cells(before).union(added)));
        if unpruned(m, max_pessimism) {
            assert(trail_cells(after) =~= trail_cells(before).union(added));
        }
        assert(*best_dist <= s3.best_dist <= s2.best_dist <= s1.best_dist);
    }
}

/// Expands the positions `ps` of one layer of the heuristic search, in that
/// order, into the next layer. Reports whether one of them is the
/// destination (the expansion is then not needed); otherwise the next
/// layer and the running best are those of `expand_fold` over `ps`.
fn expand_layer(
    ps: &Vec<Position>,
    next_gen: &Automaton,
    gen1: usize,
    max_pessimism: u16,
    best_pos: &mut Position,
    best_dist: &mut u16,
    best_gen: &mut usize,
) -> (r: (Trail, bool))
    requires
        next_gen.wf(),
        forall|s: int| 0 <= s < ps.len() ==> next_gen@.grid.in_bounds(#[trigger] ps[s]@),
        *old(best_dist) as int == manhattan(old(best_pos)@, next_gen@.destination),
    ensures
        ({
            let layer = prefix_cells(ps@, ps.len() as int);
            let next = trail_cells(trail_map(r.0));
            &&& r.1 == layer.contains(next_gen@.destination)
            &&& !r.1 ==> expansion(r.0, *final(best_pos), *final(best_dist), *final(best_gen)) == expand_fold(
                next_gen@,
                max_pessimism,
                gen1,
                (Expansion { map: TrailMap::empty(), best_pos: *old(best_pos), best_dist: *old(best_dist), best_gen: *old(best_gen) }),
                ps@,
            )
            &&& !r.1 ==> next.subset_of(successors(next_gen@, layer))
            &&& !r.1 && unpruned(next_gen@, max_pessimism) ==> next == successors(next_gen@, layer)
            &&& !r.1 ==> forall|c: Cell| #[trigger] successors(next_gen@, layer).contains(c) ==> *final(best_dist)
                <= manhattan(c, next_gen@.destination)
            &&& forall|c: Cell| #[trigger] next.contains(c) ==> layer.contains(unshift(c, trail_map(r.0)[cell_key(c)]))
            &&& *final(best_dist) <= *old(best_dist)
            &&& *final(best_dist) as int == manhattan(final(best_pos)@, next_gen@.destination)
            &&& (*final(best_gen) == *old(best_gen) && *final(best_pos) == *old(best_pos)) || (*final(best_gen) == gen1
                && next.contains(final(best_pos)@))
            &&& forall|c: Cell| #[trigger] next.contains(c) ==> *final(best_dist) <= manhattan(c, next_gen@.destination)
        }),
{
    let ghost m = next_gen@;
    let ghost exact = unpruned(m, max_pessimism);
    let ghost init = Expansion { map: TrailMap::empty(), best_pos: *best_pos, best_dist: *best_dist, best_gen: *best_gen };
    let destination = next_gen.destination();
    let mut to_visit = trail_new();
    proof {
        assert(prefix_cells(ps@, 0) =~= Set::<Cell>::empty());
        assert(trail_cells(trail_map(to_visit)) =~= Set::<Cell>::empty());
        assert(successors(m, Set::<Cell>::empty()) =~= Set::<Cell>::empty());
        assert(ps@.subrange(0, 0) =~= Seq::<Position>::empty());
    }
    let ghost best0 = *best_dist;
    let ghost gen0 = *best_gen;
    let ghost pos0 = *best_pos;
    let mut t: usize = 0;
    while t < ps.len()
        invariant
            next_gen.wf(),
            m == next_gen@,
            exact == unpruned(m, max_pessimism),
            destination@ == m.destination,
            forall|s: int| 0 <= s < ps.len() ==> m.grid.in_bounds(#[trigger] ps[s]@),
            t <= ps.len(),
            forall|s: int| 0 <= s < t ==> (#[trigger] ps[s])@ != m.destination,
            init == (Expansion { map: TrailMap::empty(), best_pos: pos0, best_dist: best0, best_gen: gen0 }),
            expansion(to_visit, *best_pos, *best_dist, *best_gen) == expand_fold(m, max_pessimism, gen1, init, ps@.subrange(0, t as int)),
            trail_cells(trail_map(to_visit)).subset_of(successors(m, prefix_cells(ps@, t as int))),
            exact ==> trail_cells(trail_map(to_visit)) == successors(m, prefix_cells(ps@, t as int)),
            forall|c: Cell| #[trigger] trail_cells(trail_map(to_visit)).contains(c) ==> prefix_cells(ps@, t as int).contains(
                unshift(c, trail_map(to_visit)[cell_key(c)]),
            ),
            best0 == *old(best_dist),
            gen0 == *old(best_gen),
            pos0 == *old(best_pos),
            *best_dist <= best0,
            *best_dist as int == manhattan(best_pos@, m.destination),
            (*best_gen == gen0 && *best_pos == pos0) || (*best_gen == gen1 && trail_cells(trail_map(to_visit)).contains(best_pos@)),
            forall|c: Cell| #[trigger] trail_cells(trail_map(to_visit)).contains(c) ==> *best_dist <= manhattan(c, m.destination),
            forall|c: Cell| #[trigger] successors(m, prefix_cells(ps@, t as int)).contains(c) ==> *best_dist <= manhattan(c, m.destination),
        decreases ps.len() - t,
    {
        let pos = ps[t];
        if pos == destination {
            proof {
                assert(prefix_cells(ps@, ps.len() as int).contains(pos@));
            }
            return (to_visit, true);
        }
        let ghost before = trail_map(to_visit);
        let ghost dist_before = *best_dist;
        visit_all(next_gen, pos, gen1, max_pessimism, &mut to_visit, best_pos, best_dist, best_gen);
        proof {
            lemma_successors_step(m, ps@, t as int);
            assert(prefix_cells(ps@, t + 1) =~= prefix_cells(ps@, t as int).insert(ps[t as int]@)) by {
                assert forall|c: Cell| prefix_cells(ps@, t + 1).contains(c) implies prefix_cells(ps@, t as int).insert(
                    ps[t as int]@,
                ).contains(c) by {
                    let s = choose|s: int| 0 <= s < t + 1 && (#[trigger] ps@[s])@ == c;
                    if s < t {
                        assert(prefix_cells(ps@, t as int).contains(c));
                    }
                }
                assert forall|c: Cell| prefix_cells(ps@, t as int).insert(ps[t as int]@).contains(c) implies prefix_cells(
                    ps@,
                    t + 1,
                ).contains(c) by {
                    if c == ps[t as int]@ {
                        assert(ps@[t as int]@ == c);
                    } else {
                        let s = choose|s: int| 0 <= s < t && (#[trigger] ps@[s])@ == c;
                        assert(0 <= s < t + 1 && ps@[s]@ == c);
                    }
                }
            }
            let after = trail_map(to_visit);
            assert forall|c: Cell| #[trigger] trail_cells(after).contains(c) implies prefix_cells(ps@, t + 1).contains(
                unshift(c, after[cell_key(c)]),
            ) by {
                if !(trail_cells(before).contains(c) && after[cell_key(c)] == before[cell_key(c)]) {
                    assert(unshift(c, after[cell_key(c)]) == pos@);
                }
            }
            if exact {
                assert(trail_cells(after) =~= successors(m, prefix_cells(ps@, t + 1)));
            }
            assert(ps@.subrange(0, t + 1).drop_last() =~= ps@.subrange(0, t as int));
            assert(ps@.subrange(0, t + 1).last() == pos);
        }
        t += 1;
    }
    proof {
        assert(ps@.subrange(0, ps.len() as int) =~= ps@);
        assert(!prefix_cells(ps@, ps.len() as int).contains(m.destination)) by {
            if prefix_cells(ps@, ps.len() as int).contains(m.destination) {
                let s = choose|s: int| 0 <= s < ps.len() && (#[trigger] ps@[s])@ == m.destination;
                assert(ps[s]@ != m.destination);
            }
        }
    }
    (to_visit, false)
}

/// Expands one layer of the heuristic search into the next, its positions
/// taken in the order the trail hands them out (see `expand_layer`).
fn expand_pruned(
    layer_trail: &Trail,
    next_gen: &Automaton,
    gen1: usize,
    max_pessimism: u16,
    best_pos: &mut Position,
    best_dist: &mut u16,
    best_gen: &mut usize,
) -> (r: (Trail, bool))
    requires
        next_gen.wf(),
        forall|c: Cell| #[trigger] trail_cells(trail_map(*layer_trail)).contains(c) ==> next_gen@.grid.in_bounds(c),
        *old(best_dist) as int == manhattan(old(best_pos)@, next_gen@.destination),
    ensures
        ({
            let layer = trail_cells(trail_map(*layer_trail));
            let next = trail_cells(trail_map(r.0));
            &&& r.1 == layer.contains(next_gen@.destination)
            &&& !r.1 ==> next.subset_of(successors(next_gen@, layer))
            &&& !r.1 && unpruned(next_gen@, max_pessimism) ==> next == successors(next_gen@, layer)
            &&& !r.1 ==> forall|c: Cell| #[trigger] successors(next_gen@, layer).contains(c) ==> *final(best_dist)
                <= manhattan(c, next_gen@.destination)
            &&& forall|c: Cell| #[trigger] next.contains(c) ==> layer.contains(unshift(c, trail_map(r.0)[cell_key(c)]))
            &&& *final(best_dist) <= *old(best_dist)
            &&& *final(best_dist) as int == manhattan(final(best_pos)@, next_gen@.destination)
            &&& (*final(best_gen) == *old(best_gen) && *final(best_pos) == *old(best_pos)) || (*final(best_gen) == gen1
                && next.contains(final(best_pos)@))
            &&& forall|c: Cell| #[trigger] next.contains(c) ==> *final(best_dist) <= manhattan(c, next_gen@.destination)
        }),
{
    let ghost layer = trail_cells(trail_map(*layer_trail));
    let ps = trail_positions(layer_trail);
    proof {
        assert forall|s: int| 0 <= s < ps.len() implies next_gen@.grid.in_bounds(#[trigger] ps[s]@) by {
            assert(cell_key(ps[s]@) == key_of(ps[s]));
            assert(layer.contains(ps[s]@));
        }
        assert(prefix_cells(ps@, ps.len() as int) =~= layer) by {
            assert forall|c: Cell| #[trigger] layer.contains(c) implies prefix_cells(ps@, ps.len() as int).contains(c) by {
                let s = choose|s: int| 0 <= s < ps.len() && key_of(ps[s]) == cell_key(c);
                assert(ps@[s]@ == c);
            }
            assert forall|c: Cell| prefix_cells(ps@, ps.len() as int).contains(c) implies #[trigger] layer.contains(c) by {
                let s = choose|s: int| 0 <= s < ps.len() && (#[trigger] ps@[s])@ == c;
                assert(cell_key(ps[s]@) == key_of(ps[s]));
            }
        }
    }
    expand_layer(&ps, next_gen, gen1, max_pessimism, best_pos, best_dist, best_gen)
}

/// The successors of a part of a layer lie in the next layer; those of the
/// whole layer are the next layer.
proof fn lemma_successors_reach(a: AutomatonModel, n: nat, layer: Set<Cell>)
    requires
        layer.subset_of(reach(a, n)),
    ensures
        successors(generation(a, n + 1), layer).subset_of(reach(a, n + 1)),
        layer == reach(a, n) ==> successors(generation(a, n + 1), layer) == reach(a, n + 1),
{
    assert(successors(generation(a, n + 1), layer).subset_of(reach(a, n + 1)));
    if layer == reach(a, n) {
        assert(successors(generation(a, n + 1), layer) =~= reach(a, n + 1));
    }
}

/// Appending a layer whose entries point back into the last layer keeps a
/// history chained.
proof fn lemma_chain_push(hist: Seq<TrailMap>, next: TrailMap, g: nat)
    requires
        chained(hist, g),
        hist.len() == g + 1,
        forall|c: Cell| #[trigger] trail_cells(next).contains(c) ==> trail_cells(hist[g as int]).contains(
            unshift(c, next[cell_key(c)]),
        ),
    ensures
        chained(hist.push(next), g + 1),
{
    let h2 = hist.push(next);
    assert forall|k: int, c: Cell|
        1 <= k <= g + 1 && #[trigger] trail_cells(h2[k]).contains(c) implies trail_cells(h2[k - 1]).contains(
        unshift(c, h2[k][cell_key(c)]),
    ) by {
        if k <= g {
            assert(h2[k] == hist[k]);
            assert(h2[k - 1] == hist[k - 1]);
        }
    }
}

/// The route that a chained history of layers, each inside the matching
/// reach set, records to `pos` at generation `gen`.
fn route_from_trails(reached: &Vec<Trail>, gen: usize, pos: Position, Ghost(a): Ghost<AutomatonModel>) -> (r: Vec<Movement>)
    requires
        chained(trail_maps(reached@), gen as nat),
        trail_cells(trail_maps(reached@)[0]) == set![a.source],
        forall|k: int|
            0 <= k <= gen ==> #[trigger] trail_cells(trail_maps(reached@)[k]).subset_of(reach(a, k as nat)),
        trail_cells(trail_maps(reached@)[gen as int]).contains(pos@),
    ensures
        r.len() == gen,
        is_route(a, r@, pos@),
        reach(a, gen as nat).contains(pos@),
{
    let ghost hist = trail_maps(reached@);
    proof {
        lemma_unwind_route(hist, gen as nat, pos@, a.source);
        lemma_chained_walkable(hist, gen as nat, pos@);
    }
    let path = assemble_path(reached.as_slice(), gen, pos);
    proof {
        assert forall|k: int| 0 <= k <= path.len() implies #[trigger] reach(a, k as nat).contains(
            trace(a.source, path@, k),
        ) by {
            assert(trail_cells(hist[k]).contains(trace(a.source, path@, k)));
            assert(trail_cells(hist[k]).subset_of(reach(a, k as nat)));
        }
        lemma_reach_route(a, path@, pos@);
        assert(trail_cells(hist[gen as int]).subset_of(reach(a, gen as nat)));
    }
    path
}

/// What holds at the start of every round of the heuristic search, with
/// `hist` the layers so far and `gen` the current generation.
#[verifier::opaque]
pub open spec fn searching(
    a: AutomatonModel,
    max_pessimism: u16,
    hist: Seq<TrailMap>,
    gen: nat,
    best_pos: Position,
    best_dist: u16,
    best_gen: nat,
) -> bool {
    let exact = unpruned(a, max_pessimism);
    &&& hist.len() == gen + 1
    &&& chained(hist, gen)
    &&& trail_cells(hist[0]) == set![a.source]
    &&& forall|k: int| 0 <= k <= gen ==> #[trigger] trail_cells(hist[k]).subset_of(reach(a, k as nat))
    &&& exact ==> forall|k: int| 0 <= k <= gen ==> #[trigger] trail_cells(hist[k]) == reach(a, k as nat)
    &&& forall|g: int| 0 <= g < gen ==> !#[trigger] trail_cells(hist[g]).contains(a.destination)
    &&& best_gen <= gen
    &&& trail_cells(hist[best_gen as int]).contains(best_pos@)
    &&& best_dist as int == manhattan(best_pos@, a.destination)
    &&& forall|g: int, c: Cell|
        0 <= g <= gen && #[trigger] trail_cells(hist[g]).contains(c) ==> best_dist <= manhattan(c, a.destination)
    &&& exact ==> forall|g: nat| g < gen ==> !#[trigger] reach(a, g).contains(a.destination)
    &&& exact ==> forall|g: nat, c: Cell|
        g <= gen && #[trigger] reach(a, g).contains(c) ==> best_dist <= manhattan(c, a.destination)
    &&& best_dist <= manhattan(a.source, a.destination)
    &&& best_pos@ == a.destination ==> best_gen == gen
    &&& gen >= 1 ==> forall|c: Cell| #[trigger] reach(a, 1).contains(c) ==> best_dist <= manhattan(c, a.destination)
    &&& a.source == a.destination ==> gen == 0
}

/// What holds when the heuristic search gives up, with `hist` the layers
/// kept and the best position found.
#[verifier::opaque]
pub open spec fn searched(
    a: AutomatonModel,
    max_pessimism: u16,
    max_generations: nat,
    hist: Seq<TrailMap>,
    best_pos: Position,
    best_dist: u16,
    best_gen: nat,
) -> bool {
    let exact = unpruned(a, max_pessimism);
    &&& best_gen < hist.len()
    &&& best_gen <= max_generations
    &&& chained(hist, best_gen)
    &&& trail_cells(hist[0]) == set![a.source]
    &&& forall|k: int| 0 <= k <= best_gen ==> #[trigger] trail_cells(hist[k]).subset_of(reach(a, k as nat))
    &&& trail_cells(hist[best_gen as int]).contains(best_pos@)
    &&& best_dist as int == manhattan(best_pos@, a.destination)
    &&& best_dist <= manhattan(a.source, a.destination)
    &&& best_pos@ == a.destination ==> best_gen == max_generations
    &&& max_generations >= 1 && a.source != a.destination ==> forall|c: Cell|
        #[trigger] reach(a, 1).contains(c) ==> best_dist <= manhattan(c, a.destination)
    &&& a.source == a.destination ==> max_generations == 0
    &&& exact ==> forall|g: nat| g < max_generations ==> !#[trigger] reach(a, g).contains(a.destination)
    &&& exact ==> forall|g: nat, c: Cell|
        g <= max_generations && #[trigger] reach(a, g).contains(c) ==> best_dist <= manhattan(c, a.destination)
}

/// The first round starts from the source alone.
proof fn lemma_searching_start(a: AutomatonModel, max_pessimism: u16, hist: Seq<TrailMap>, best_dist: u16)
    requires
        a.wf(),
        hist.len() == 1,
        trail_cells(hist[0]) == set![a.source],
        best_dist as int == manhattan(a.source, a.destination),
    ensures
        searching(a, max_pessimism, hist, 0, Position { i: a.source.0 as i16, j: a.source.1 as i16 }, best_dist, 0),
{
    reveal(searching);
    assert(reach(a, 0) =~= set![a.source]);
    assert(trail_cells(hist[0]).contains(a.source));
}

/// Facts of a round that the expansion and the path assembly need.
proof fn lemma_searching_layer(
    a: AutomatonModel,
    max_pessimism: u16,
    hist: Seq<TrailMap>,
    gen: nat,
    best_pos: Position,
    best_dist: u16,
    best_gen: nat,
)
    requires
        a.wf(),
        searching(a, max_pessimism, hist, gen, best_pos, best_dist, best_gen),
    ensures
        hist.len() == gen + 1,
        chained(hist, gen),
        trail_cells(hist[0]) == set![a.source],
        forall|k: int| 0 <= k <= gen ==> #[trigger] trail_cells(hist[k]).subset_of(reach(a, k as nat)),
        forall|c: Cell| #[trigger] trail_cells(hist[gen as int]).contains(c) ==> a.grid.in_bounds(c),
        best_dist as int == manhattan(best_pos@, a.destination),
        trail_cells(hist[gen as int]).contains(a.destination) ==> (a.source == a.destination ==> gen == 0),
        unpruned(a, max_pessimism) ==> forall|g: nat| g < gen ==> !#[trigger] reach(a, g).contains(a.destination),
{
    reveal(searching);
    assert forall|c: Cell| #[trigger] trail_cells(hist[gen as int]).contains(c) implies a.grid.in_bounds(c) by {
        let k = gen as int;
        assert(0 <= k <= gen);
        assert(trail_cells(hist[k]).subset_of(reach(a, k as nat)));
        lemma_reach_in_bounds(a, gen, c);
    }
}

/// One round that neither found the destination nor emptied the frontier
/// leads to the next round.
#[verifier::rlimit(60)]
proof fn lemma_searching_step(
    a: AutomatonModel,
    max_pessimism: u16,
    hist: Seq<TrailMap>,
    gen: nat,
    best_pos: Position,
    best_dist: u16,
    best_gen: nat,
    next_map: TrailMap,
    best_pos2: Position,
    best_dist2: u16,
    best_gen2: nat,
)
    requires
        a.wf(),
        searching(a, max_pessimism, hist, gen, best_pos, best_dist, best_gen),
        ({
            let m = generation(a, gen + 1);
            let layer = trail_cells(hist[gen as int]);
            let next = trail_cells(next_map);
            &&& !layer.contains(a.destination)
            &&& next.subset_of(successors(m, layer))
            &&& unpruned(m, max_pessimism) ==> next == successors(m, layer)
            &&& forall|c: Cell| #[trigger] successors(m, layer).contains(c) ==> best_dist2 <= manhattan(c, a.destination)
            &&& forall|c: Cell| #[trigger] next.contains(c) ==> layer.contains(unshift(c, next_map[cell_key(c)]))
            &&& best_dist2 <= best_dist
            &&& best_dist2 as int == manhattan(best_pos2@, a.destination)
            &&& (best_gen2 == best_gen && best_pos2 == best_pos) || (best_gen2 == gen + 1 && next.contains(best_pos2@))
            &&& forall|c: Cell| #[trigger] next.contains(c) ==> best_dist2 <= manhattan(c, a.destination)
        }),
    ensures
        searching(a, max_pessimism, hist.push(next_map), gen + 1, best_pos2, best_dist2, best_gen2),
{
    reveal(searching);
    let exact = unpruned(a, max_pessimism);
    let m = generation(a, gen + 1);
    let layer = trail_cells(hist[gen as int]);
    let next = trail_cells(next_map);
    let h2 = hist.push(next_map);
    lemma_generation_frame(a, gen + 1);
    lemma_successors_reach(a, gen, layer);
    lemma_chain_push(hist, next_map, gen);
    assert forall|k: int| 0 <= k <= gen implies h2[k] == hist[k] by {}
    assert(h2[gen + 1 as int] == next_map);
    if gen == 0 {
        assert(layer =~= reach(a, 0));
    }
    if exact {
        assert(layer == reach(a, gen));
        assert(unpruned(m, max_pessimism));
        assert(next == reach(a, gen + 1));
        assert(!reach(a, gen).contains(a.destination));
        assert forall|g: nat, c: Cell| g <= gen + 1 && #[trigger] reach(a, g).contains(c) implies best_dist2 <= manhattan(
            c,
            a.destination,
        ) by {
            if g == gen + 1 {
                assert(next.contains(c));
            }
        }
    }
    if a.source == a.destination {
        assert(layer.contains(a.source));
    }
    if best_pos2@ == a.destination && best_gen2 != gen + 1 {
        assert(best_gen == gen);
        assert(layer.contains(a.destination));
    }
    assert forall|g: int, c: Cell|
        0 <= g <= gen + 1 && #[trigger] trail_cells(h2[g]).contains(c) implies best_dist2 <= manhattan(c, a.destination) by {
        if g <= gen {
            assert(trail_cells(hist[g]).contains(c));
        }
    }
    assert forall|k: int| 0 <= k <= gen + 1 implies #[trigger] trail_cells(h2[k]).subset_of(reach(a, k as nat)) by {
        if k <= gen {
            assert(trail_cells(hist[k]).subset_of(reach(a, k as nat)));
        }
    }
    if exact {
        assert forall|k: int| 0 <= k <= gen + 1 implies #[trigger] trail_cells(h2[k]) == reach(a, k as nat) by {
            if k <= gen {
                assert(trail_cells(hist[k]) == reach(a, k as nat));
            }
        }
    }
}

/// A round that emptied the frontier ends the search.
#[verifier::rlimit(60)]
proof fn lemma_searching_break(
    a: AutomatonModel,
    max_pessimism: u16,
    max_generations: nat,
    hist: Seq<TrailMap>,
    gen: nat,
    best_pos: Position,
    best_dist: u16,
    best_gen: nat,
    next_map: TrailMap,
    best_pos2: Position,
    best_dist2: u16,
    best_gen2: nat,
)
    requires
        a.wf(),
        gen < max_generations,
        searching(a, max_pessimism, hist, gen, best_pos, best_dist, best_gen),
        ({
            let m = generation(a, gen + 1);
            let layer = trail_cells(hist[gen as int]);
            let next = trail_cells(next_map);
            &&& !layer.contains(a.destination)
            &&& next == Set::<Cell>::empty()
            &&& unpruned(m, max_pessimism) ==> next == successors(m, layer)
            &&& forall|c: Cell| #[trigger] successors(m, layer).contains(c) ==> best_dist2 <= manhattan(c, a.destination)
            &&& best_dist2 <= best_dist
            &&& best_dist2 as int == manhattan(best_pos2@, a.destination)
            &&& (best_gen2 == best_gen && best_pos2 == best_pos) || (best_gen2 == gen + 1 && next.contains(best_pos2@))
        }),
    ensures
        searched(a, max_pessimism, max_generations, hist, best_pos2, best_dist2, best_gen2),
{
    reveal(searching);
    reveal(searched);
    let exact = unpruned(a, max_pessimism);
    let m = generation(a, gen + 1);
    let layer = trail_cells(hist[gen as int]);
    lemma_generation_frame(a, gen + 1);
    lemma_successors_reach(a, gen, layer);
    assert(best_gen2 == best_gen && best_pos2 == best_pos);
    if gen == 0 {
        assert(layer =~= reach(a, 0));
    }
    if a.source == a.destination {
        assert(layer.contains(a.source));
    }
    if best_pos2@ == a.destination {
        assert(layer.contains(a.destination));
    }
    assert forall|k: int| 0 <= k <= best_gen implies #[trigger] trail_cells(hist[k]).subset_of(reach(a, k as nat)) by {}
    if exact {
        assert(layer == reach(a, gen));
        assert(unpruned(m, max_pessimism));
        assert(reach(a, gen + 1) =~= Set::<Cell>::empty());
        lemma_exhausted(a, max_generations, gen, best_dist2);
    }
}

/// With an empty layer after generation `gen`, what holds up to `gen` holds
/// up to any later cap.
proof fn lemma_exhausted(a: AutomatonModel, max_generations: nat, gen: nat, best_dist: u16)
    requires
        gen < max_generations,
        reach(a, gen + 1) == Set::<Cell>::empty(),
        !reach(a, gen).contains(a.destination),
        forall|g: nat| g < gen ==> !#[trigger] reach(a, g).contains(a.destination),
        forall|g: nat, c: Cell| g <= gen && #[trigger] reach(a, g).contains(c) ==> best_dist <= manhattan(c, a.destination),
    ensures
        forall|g: nat| g < max_generations ==> !#[trigger] reach(a, g).contains(a.destination),
        forall|g: nat, c: Cell|
            g <= max_generations && #[trigger] reach(a, g).contains(c) ==> best_dist <= manhattan(c, a.destination),
{
    assert forall|g: nat, c: Cell|
        g <= max_generations && #[trigger] reach(a, g).contains(c) implies best_dist <= manhattan(c, a.destination) by {
        if g > gen {
            lemma_reach_empty_after(a, gen + 1, g);
        }
    }
    assert forall|g: nat| g < max_generations implies !#[trigger] reach(a, g).contains(a.destination) by {
        if g > gen {
            lemma_reach_empty_after(a, gen + 1, g);
        }
    }
}

/// Reaching the generation cap ends the search.
proof fn lemma_searching_exit(
    a: AutomatonModel,
    max_pessimism: u16,
    hist: Seq<TrailMap>,
    gen: nat,
    best_pos: Position,
    best_dist: u16,
    best_gen: nat,
)
    requires
        a.wf(),
        searching(a, max_pessimism, hist, gen, best_pos, best_dist, best_gen),
    ensures
        searched(a, max_pessimism, gen, hist, best_pos, best_dist, best_gen),
{
    reveal(searching);
    reveal(searched);
    assert forall|k: int| 0 <= k <= best_gen implies #[trigger] trail_cells(hist[k]).subset_of(reach(a, k as nat)) by {}
}

/// Finds a route from the source to the destination, keeping for every
/// reached position the movement that first reached it.
///
/// A candidate is dropped when its distance to the destination exceeds the
/// best distance seen so far plus `max_pessimism`; this saves memory and
/// time, at the price of possibly longer routes or none at all. Every
/// returned path is a route of the automaton: `Ok` ends at the destination
/// at a generation below `max_generations`, `Err` ends at the best cell
/// found. When `max_pessimism` is at least the grid's height plus width
/// nothing is ever dropped, and the result is that of an exact search:
/// `Ok` with a shortest route exactly when one exists below the cap, else
/// `Err` ending at a reached cell closest to the destination.
///
/// The pruning bound is not frozen per generation: it follows the best
/// distance as it improves, also within one generation, so which candidates
/// of a generation are dropped depends on the order in which that
/// generation's positions are expanded (the order the hash map hands out
/// its keys). Whatever that order, the source is the destination gives
/// `Ok` with no movement, and a best-effort end is never farther from the
/// destination than the source nor than any cell reachable at generation 1.
#[verifier::rlimit(60)]
pub fn find_path(automaton: Automaton, max_generations: usize, max_pessimism: u16) -> (r: Result<
    Vec<Movement>,
    Vec<Movement>,
>)
    requires
        automaton.wf(),
    ensures
        automaton@.source == automaton@.destination && max_generations > 0 ==> (r is Ok && r->Ok_0.len() == 0),
        match r {
            Ok(path) => {
                &&& path.len() < max_generations
                &&& is_route(automaton@, path@, automaton@.destination)
                &&& reach(automaton@, path.len() as nat).contains(automaton@.destination)
                &&& unpruned(automaton@, max_pessimism) ==> forall|g: nat|
                    g < path.len() ==> !#[trigger] reach(automaton@, g).contains(automaton@.destination)
            },
            Err(path) => {
                let end = trace(automaton@.source, path@, path.len() as int);
                &&& path.len() <= max_generations
                &&& reach(automaton@, path.len() as nat).contains(end)
                &&& is_route(automaton@, path@, end)
                &&& end == automaton@.destination ==> path.len() == max_generations
                &&& manhattan(end, automaton@.destination) <= manhattan(automaton@.source, automaton@.destination)
                &&& max_generations >= 1 && automaton@.source != automaton@.destination ==> forall|c: Cell|
                    #[trigger] reach(automaton@, 1).contains(c) ==> manhattan(end, automaton@.destination) <= manhattan(
                        c,
                        automaton@.destination,
                    )
                &&& unpruned(automaton@, max_pessimism) ==> forall|g: nat|
                    g < max_generations ==> !#[trigger] reach(automaton@, g).contains(automaton@.destination)
                &&& unpruned(automaton@, max_pessimism) ==> forall|g: nat, c: Cell|
                    g <= max_generations && #[trigger] reach(automaton@, g).contains(c) ==> manhattan(
                        end,
                        automaton@.destination,
                    ) <= manhattan(c, automaton@.destination)
            },
        },
{
    let ghost a = automaton@;
    let source = automaton.source();
    let destination = automaton.destination();
    let mut sim = automaton;
    let mut reached: Vec<Trail> = Vec::new();
    let mut first = trail_new();
    // The movement stored for the source is never followed.
    trail_insert(&mut first, (source.i, source.j), Movement::Down);
    reached.push(first);
    let mut best_pos = source;
    let mut best_dist = source.distance(&destination);
    let mut best_gen: usize = 0;
    proof {
        lemma_generation_frame(a, 0);
        assert(trail_cells(trail_maps(reached@)[0]) =~= set![a.source]);
        lemma_searching_start(a, max_pessimism, trail_maps(reached@), best_dist);
    }
    let mut gen: usize = 0;
    loop
        invariant_except_break
            gen <= max_generations,
        invariant
            a == automaton@,
            a.wf(),
            sim.wf(),
            sim@ == generation(a, gen as nat),
            destination@ == a.destination,
            reached.len() == gen + 1,
            searching(a, max_pessimism, trail_maps(reached@), gen as nat, best_pos, best_dist, best_gen as nat),
        ensures
            searched(a, max_pessimism, max_generations as nat, trail_maps(reached@), best_pos, best_dist, best_gen as nat),
        decreases max_generations - gen,
    {
        let ghost hist = trail_maps(reached@);
        proof {
            lemma_generation_frame(a, gen as nat);
            lemma_generation_frame(a, (gen + 1) as nat);
            lemma_searching_layer(a, max_pessimism, hist, gen as nat, best_pos, best_dist, best_gen as nat);
        }
        if gen >= max_generations {
            proof {
                lemma_searching_exit(a, max_pessimism, hist, gen as nat, best_pos, best_dist, best_gen as nat);
            }
            break;
        }
        let next_generation = sim.next_generation();
        proof {
            assert(hist[gen as int] == trail_map(reached[gen as int]));
        }
        let ghost (bp, bd, bg) = (best_pos, best_dist, best_gen);
        let (to_visit, found) = expand_pruned(&reached[gen], &next_generation, gen + 1, max_pessimism, &mut best_pos, &mut best_dist, &mut best_gen);
        if found {
            let path = route_from_trails(&reached, gen, destination, Ghost(a));
            return Ok(path);
        }
        if trail_is_empty(&to_visit) {
            proof {
                assert(trail_cells(trail_map(to_visit)) =~= Set::<Cell>::empty());
                lemma_searching_break(a, max_pessimism, max_generations as nat, hist, gen as nat, bp, bd, bg as nat,
                    trail_map(to_visit), best_pos, best_dist, best_gen as nat);
            }
            break;
        }
        proof {
            lemma_searching_step(a, max_pessimism, hist, gen as nat, bp, bd, bg as nat, trail_map(to_visit), best_pos,
                best_dist, best_gen as nat);
        }
        sim = next_generation;
        reached.push(to_visit);
        proof {
            assert(trail_maps(reached@) =~= hist.push(trail_map(to_visit)));
        }
        gen += 1;
    }
    proof {
        reveal(searched);
    }
    let path = route_from_trails(&reached, best_gen, best_pos, Ghost(a));
    Err(path)
}

/// The text of a path: its movement letters separated by single spaces.
pub open spec fn path_text(path: Seq<Movement>) -> Seq<char>
    decreases path.len(),
{
    if path.len() == 0 {
        Seq::empty()
    } else if path.len() == 1 {
        seq![letter(path[0])]
    } else {
        path_text(path.drop_last()) + seq![' ', letter(path.last())]
    }
}

/// Returns the space-separated list of movements as a string.
pub fn path_to_string(path: &[Movement]) -> (r: String)
    ensures
        r@ == path_text(path@),
{
    let mut buf: Vec<char> = Vec::new();
    let mut k: usize = 0;
    while k < path.len()
        invariant
            k <= path.len(),
            buf@ == path_text(path@.subrange(0, k as int)),
        decreases path.len() - k,
    {
        let ghost before = buf@;
        if k != 0 {
            buf.push(' ');
        }
        buf.push(path[k].to_char());
        proof {
            assert(path@.subrange(0, k + 1).drop_last() =~= path@.subrange(0, k as int));
            if k == 0 {
                assert(buf@ =~= seq![letter(path@[0])]);
            } else {
                assert(buf@ =~= before + seq![' ', letter(path@[k as int])]);
            }
        }
        k += 1;
    }
    proof {
        assert(path@.subrange(0, path.len() as int) =~= path@);
    }
    crate::text::string_of(&buf)
}

/// A route's length bounds the distance it covers: a cell reachable at
/// generation `n` is at most `n` steps from the source.
pub proof fn lemma_reach_distance(a: AutomatonModel, n: nat, c: Cell)
    requires
        reach(a, n).contains(c),
    ensures
        manhattan(a.source, c) <= n,
    decreases n,
{
    if n > 0 {
        let prev = reach(a, (n - 1) as nat);
        let m = first_step(prev, c);
        assert(prev.contains(unshift(c, m)));
        lemma_reach_distance(a, (n - 1) as nat, unshift(c, m));
    }
}

/// Shortest path: a route to the destination found at generation `n`, the
/// first at which the destination is reachable, has length `n`, which is
/// never less than the Manhattan distance from source to destination.
pub proof fn lemma_shortest_route(a: AutomatonModel, path: Seq<Movement>)
    requires
        reach(a, path.len() as nat).contains(a.destination),
        forall|g: nat| g < path.len() ==> !#[trigger] reach(a, g).contains(a.destination),
    ensures
        forall|g: nat| #[trigger] reach(a, g).contains(a.destination) ==> path.len() <= g,
        manhattan(a.source, a.destination) <= path.len(),
{
    lemma_reach_distance(a, path.len() as nat, a.destination);
}

/// Idempotent reconstruction: rebuilding a path from the same history, at
/// the same generation and position, gives the same movements, for both
/// kinds of history.
pub proof fn lemma_reconstruction_deterministic(
    sets1: Seq<Set<Cell>>,
    sets2: Seq<Set<Cell>>,
    trails1: Seq<TrailMap>,
    trails2: Seq<TrailMap>,
    g: nat,
    c: Cell,
)
    requires
        sets1 == sets2,
        trails1 == trails2,
    ensures
        retrace(sets1, g, c) == retrace(sets2, g, c),
        unwind(trails1, g, c) == unwind(trails2, g, c),
{
}

/// Idempotent reconstruction, over the histories themselves: two histories
/// with the same members (or the same entries) in every generation rebuild
/// the same path from the same generation and position.
pub proof fn lemma_assembly_deterministic(
    h1: Seq<BitGrid>,
    h2: Seq<BitGrid>,
    t1: Seq<Trail>,
    t2: Seq<Trail>,
    g: nat,
    pos: Position,
)
    requires
        h1.len() == h2.len(),
        forall|k: int| 0 <= k < h1.len() ==> members((#[trigger] h1[k])@) == members(h2[k]@),
        t1.len() == t2.len(),
        forall|k: int| 0 <= k < t1.len() ==> trail_map(#[trigger] t1[k]) == trail_map(t2[k]),
    ensures
        retrace(layer_sets(h1), g, pos@) == retrace(layer_sets(h2), g, pos@),
        unwind(trail_maps(t1), g, pos@) == unwind(trail_maps(t2), g, pos@),
{
    assert(layer_sets(h1) =~= layer_sets(h2));
    assert(trail_maps(t1) =~= trail_maps(t2));
}

} // verus!
