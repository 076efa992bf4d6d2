//! The automaton: a grid plus the agent's endpoints, and its transition rule.
use vstd::prelude::*;
use crate::grid::{lemma_cell_at, lemma_offset, Grid, GridModel};
use crate::position::{shift, Cell, Movement, Position};

verus! {

/// Mathematical model of an automaton.
pub struct AutomatonModel {
    pub grid: GridModel,
    pub source: Cell,
    pub destination: Cell,
    pub immutable_endpoints: bool,
}

impl AutomatonModel {
    /// The grid is well formed and both endpoints lie on it.
    pub open spec fn wf(self) -> bool {
        &&& self.grid.wf()
        &&& self.grid.in_bounds(self.source)
        &&& self.grid.in_bounds(self.destination)
    }
}

/// The transition rule: a live cell survives with 4 or 5 live neighbours,
/// a dead cell is born with 2, 3 or 4.
pub open spec fn rule(alive: bool, n: int) -> bool {
    if alive {
        4 <= n <= 5
    } else {
        2 <= n <= 4
    }
}

/// Applies the rule to every cell at once, against the old grid.
pub open spec fn evolve(g: GridModel) -> GridModel {
    GridModel {
        cells: Seq::new(g.cells.len(), |k: int| rule(g.cells[k], g.neighbors(g.cell_of(k)))),
        ..g
    }
}

/// The next generation: the rule, then (when endpoints are immutable) both
/// endpoints forced dead.
pub open spec fn successor(a: AutomatonModel) -> AutomatonModel {
    let g = evolve(a.grid);
    let g = if a.immutable_endpoints {
        GridModel {
            cells: g.cells.update(g.offset(a.source), false).update(g.offset(a.destination), false),
            ..g
        }
    } else {
        g
    };
    AutomatonModel { grid: g, ..a }
}

/// The automaton after `n` transitions.
pub open spec fn generation(a: AutomatonModel, n: nat) -> AutomatonModel
    decreases n,
{
    if n == 0 {
        a
    } else {
        successor(generation(a, (n - 1) as nat))
    }
}

/// Whether `c` is on the grid and dead at generation `n`.
pub open spec fn open_at(a: AutomatonModel, n: nat, c: Cell) -> bool {
    let g = generation(a, n).grid;
    g.in_bounds(c) && !g.at(c)
}

/// The cell reached from `start` after the first `k` movements of `path`.
pub open spec fn trace(start: Cell, path: Seq<Movement>, k: int) -> Cell
    decreases k,
{
    if k <= 0 || path.len() < k {
        start
    } else {
        shift(trace(start, path, k - 1), path[k - 1])
    }
}

/// Whether `path`, taken from the source one movement per generation,
/// ends at `target` and stands on a dead cell after every movement.
pub open spec fn is_route(a: AutomatonModel, path: Seq<Movement>, target: Cell) -> bool {
    &&& trace(a.source, path, path.len() as int) == target
    &&& forall|k: int| 1 <= k <= path.len() ==> #[trigger] open_at(a, k as nat, trace(a.source, path, k))
}

/// Transitions change the cells only: shape, endpoints and flag stay.
pub proof fn lemma_generation_frame(a: AutomatonModel, n: nat)
    requires
        a.wf(),
    ensures
        generation(a, n).wf(),
        generation(a, n).grid.height == a.grid.height,
        generation(a, n).grid.width == a.grid.width,
        generation(a, n).source == a.source,
        generation(a, n).destination == a.destination,
        generation(a, n).immutable_endpoints == a.immutable_endpoints,
    decreases n,
{
    if n > 0 {
        let p = generation(a, (n - 1) as nat);
        lemma_generation_frame(a, (n - 1) as nat);
        assert(evolve(p.grid).cells.len() == p.grid.cells.len());
        lemma_offset(p.source.0, p.source.1, p.grid.height, p.grid.width);
        lemma_offset(p.destination.0, p.destination.1, p.grid.height, p.grid.width);
        assert(successor(p).grid.cells.len() == p.grid.cells.len());
    }
}

/// Why replaying a path failed.
#[derive(Debug, Clone, Copy, PartialEq, Eq, Structural)]
pub enum ReplayError {
    /// The agent stood outside the grid at this generation.
    OffGrid { generation: usize },
    /// The agent stood on a live cell at the first or last replayed generation.
    BlockedEndpoint { generation: usize },
    /// The path does not end at the destination.
    MissedDestination,
}

/// The outcome of replaying `path` from tick `k` on, with `lost` lives
/// already lost. Ticks run from 0 (at the source) to `path.len()` (after the
/// last movement). A live cell at a tick strictly between the first and the
/// last costs a life; a live cell at the first or the last tick, a tick off
/// the grid, or an end away from the destination is a fault.
pub open spec fn replay_from(a: AutomatonModel, path: Seq<Movement>, k: nat, lost: nat) -> Result<
    nat,
    ReplayError,
>
    decreases path.len() + 1 - k,
{
    if k > path.len() {
        if trace(a.source, path, path.len() as int) == a.destination {
            Ok(lost)
        } else {
            Err(ReplayError::MissedDestination)
        }
    } else {
        let c = trace(a.source, path, k as int);
        let g = generation(a, k).grid;
        if !g.in_bounds(c) {
            Err(ReplayError::OffGrid { generation: k as usize })
        } else if g.at(c) {
            if k == 0 || k == path.len() {
                Err(ReplayError::BlockedEndpoint { generation: k as usize })
            } else {
                replay_from(a, path, k + 1, lost + 1)
            }
        } else {
            replay_from(a, path, k + 1, lost)
        }
    }
}

/// The outcome of replaying `path` against a fresh simulation of `a`.
pub open spec fn replay(a: AutomatonModel, path: Seq<Movement>) -> Result<nat, ReplayError> {
    replay_from(a, path, 0, 0)
}

/// The automaton: its grid, the agent's source and destination, and whether
/// those two cells are kept dead after every transition.
#[derive(Debug, Clone)]
pub struct Automaton {
    grid: Grid,
    source: Position,
    destination: Position,
    pub immutable_endpoints: bool,
}

impl View for Automaton {
    type V = AutomatonModel;

    closed spec fn view(&self) -> AutomatonModel {
        AutomatonModel {
            grid: self.grid@,
            source: self.source@,
            destination: self.destination@,
            immutable_endpoints: self.immutable_endpoints,
        }
    }
}

impl Automaton {
    pub open spec fn wf(&self) -> bool {
        self@.wf()
    }

    /// An automaton over `grid` with the given endpoints, both on the grid.
    pub fn new(grid: Grid, source: Position, destination: Position, immutable_endpoints: bool) -> (r: Self)
        requires
            grid.wf(),
            grid@.in_bounds(source@),
            grid@.in_bounds(destination@),
        ensures
            r.wf(),
            r@ == (AutomatonModel {
                grid: grid@,
                source: source@,
                destination: destination@,
                immutable_endpoints,
            }),
    {
        Automaton { grid, source, destination, immutable_endpoints }
    }

    pub fn grid(&self) -> (r: &Grid)
        ensures
            r@ == self@.grid,
            self.wf() ==> r.wf(),
    {
        &self.grid
    }

    pub fn source(&self) -> (r: Position)
        ensures
            r@ == self@.source,
    {
        self.source
    }

    pub fn destination(&self) -> (r: Position)
        ensures
            r@ == self@.destination,
    {
        self.destination
    }

    /// Sets whether the endpoints are kept dead after every transition.
    pub fn set_immutable_endpoints(&mut self, value: bool)
        ensures
            final(self)@ == (AutomatonModel { immutable_endpoints: value, ..old(self)@ }),
    {
        self.immutable_endpoints = value;
    }

    /// Overwrites part of the grid, starting at `(i, j)`, with the cells of `other`.
    pub fn overwrite(&mut self, other: &Grid, i: i16, j: i16)
        requires
            old(self).wf(),
            other.wf(),
            0 <= i,
            0 <= j,
            i + other@.height <= old(self)@.grid.height,
            j + other@.width <= old(self)@.grid.width,
        ensures
            final(self).wf(),
            final(self)@.source == old(self)@.source,
            final(self)@.destination == old(self)@.destination,
            final(self)@.immutable_endpoints == old(self)@.immutable_endpoints,
            final(self)@.grid.height == old(self)@.grid.height,
            final(self)@.grid.width == old(self)@.grid.width,
            forall|x: int, y: int|
                #[trigger] final(self)@.grid.in_bounds((x, y)) ==> final(self)@.grid.at((x, y))
                    == if other@.in_bounds((x - i, y - j)) {
                    other@.at((x - i, y - j))
                } else {
                    old(self)@.grid.at((x, y))
                },
    {
        self.grid.overwrite(other, i, j);
    }

    /// Whether the cell at `pos` is alive, or `None` off the grid.
    pub fn alive(&self, pos: Position) -> (r: Option<bool>)
        requires
            self.wf(),
        ensures
            r == if self@.grid.in_bounds(pos@) {
                Some(self@.grid.at(pos@))
            } else {
                None
            },
    {
        self.grid.get(pos.i, pos.j)
    }

    /// The next generation, as a new value.
    pub fn next_generation(&self) -> (r: Self)
        requires
            self.wf(),
        ensures
            r.wf(),
            r@ == successor(self@),
    {
        let h = self.grid.height();
        let w = self.grid.width();
        let cells = self.grid.cells();
        let mut new_gen = Grid::new(h, w);
        let n = cells.len();
        let ghost g = self@.grid;
        let mut k: usize = 0;
        while k < n
            invariant
                g == self@.grid,
                self.wf(),
                n == g.cells.len(),
                cells.len() == n,
                forall|t: int|
                    0 <= t < n ==> {
                        &&& (#[trigger] cells[t]).0 as int == g.cell_of(t).0
                        &&& cells[t].1 as int == g.cell_of(t).1
                        &&& cells[t].2 == g.cells[t]
                    },
                new_gen.wf(),
                new_gen@.height == g.height,
                new_gen@.width == g.width,
                k <= n,
                forall|t: int|
                    0 <= t < n ==> #[trigger] new_gen@.cells[t] == if t < k {
                        rule(g.cells[t], g.neighbors(g.cell_of(t)))
                    } else {
                        false
                    },
            decreases n - k,
        {
            let (i, j, alive) = cells[k];
            proof {
                lemma_cell_at(g, k as int);
            }
            let alive_neighbors = self.grid.count_neighbors(i, j);
            let new_cell = if alive {
                4 <= alive_neighbors && alive_neighbors <= 5
            } else {
                2 <= alive_neighbors && alive_neighbors <= 4
            };
            new_gen.set(i, j, new_cell);
            k += 1;
        }
        proof {
            assert(new_gen@.cells =~= evolve(g).cells);
            assert(new_gen@ == evolve(g));
        }
        if self.immutable_endpoints {
            new_gen.set(self.source.i, self.source.j, false);
            new_gen.set(self.destination.i, self.destination.j, false);
        }
        Automaton {
            grid: new_gen,
            source: self.source,
            destination: self.destination,
            immutable_endpoints: self.immutable_endpoints,
        }
    }

    /// The grid as rows of space-separated `0`/`1` digits, one row per line.
    pub fn to_string(&self) -> (r: String)
        requires
            self.wf(),
        ensures
            r@ == self@.grid.text(),
    {
        self.grid.to_string()
    }
}

/// Replays `path` from the source against an independent simulation of
/// `automaton`, one movement per generation, and returns the number of ticks
/// strictly between the first and the last at which the agent stood on a
/// live cell. Standing on a live cell at the first tick (the source) or at
/// the last (after the final movement), leaving the grid, or ending away
/// from the destination is a fault, reported with the tick where it occurred.
pub fn lives_lost(path: &[Movement], automaton: Automaton) -> (r: Result<usize, ReplayError>)
    requires
        automaton.wf(),
    ensures
        match r {
            Ok(count) => replay(automaton@, path@) == Ok::<nat, ReplayError>(count as nat),
            Err(e) => replay(automaton@, path@) == Err::<nat, ReplayError>(e),
        },
{
    let ghost a = automaton@;
    let mut sim = automaton;
    let mut current = sim.source;
    let mut lost: usize = 0;
    let n = path.len();
    let mut k: usize = 0;
    proof {
        lemma_generation_frame(a, 0);
    }
    while k < n
        invariant
            a == automaton@,
            a.wf(),
            n == path@.len(),
            k <= n,
            sim.wf(),
            sim@ == generation(a, k as nat),
            current@ == trace(a.source, path@, k as int),
            lost <= k,
            replay(a, path@) == replay_from(a, path@, k as nat, lost as nat),
        decreases n - k,
    {
        proof {
            lemma_generation_frame(a, k as nat);
            lemma_generation_frame(a, (k + 1) as nat);
        }
        match sim.alive(current) {
            None => {
                assert(replay_from(a, path@, k as nat, lost as nat) == Err::<nat, ReplayError>(
                    ReplayError::OffGrid { generation: k },
                ));
                return Err(ReplayError::OffGrid { generation: k });
            },
            Some(true) => {
                if k == 0 {
                    assert(replay_from(a, path@, k as nat, lost as nat) == Err::<nat, ReplayError>(
                        ReplayError::BlockedEndpoint { generation: k },
                    ));
                    return Err(ReplayError::BlockedEndpoint { generation: k });
                }
                lost = lost + 1;
            },
            Some(false) => {},
        }
        sim = sim.next_generation();
        current = current.next(path[k]);
        k += 1;
    }
    proof {
        lemma_generation_frame(a, k as nat);
    }
    match sim.alive(current) {
        None => {
            assert(replay_from(a, path@, k as nat, lost as nat) == Err::<nat, ReplayError>(
                ReplayError::OffGrid { generation: k },
            ));
            return Err(ReplayError::OffGrid { generation: k });
        },
        Some(true) => {
            assert(replay_from(a, path@, k as nat, lost as nat) == Err::<nat, ReplayError>(
                ReplayError::BlockedEndpoint { generation: k },
            ));
            return Err(ReplayError::BlockedEndpoint { generation: k });
        },
        Some(false) => {},
    }
    assert(replay_from(a, path@, k as nat, lost as nat) == replay_from(a, path@, (k + 1) as nat, lost as nat));
    if current == sim.destination {
        Ok(lost)
    } else {
        Err(ReplayError::MissedDestination)
    }
}

/// Replaying a route that starts on a dead source and stands on a dead cell
/// after every movement, from tick `k` on, loses no further life.
proof fn lemma_replay_clean(a: AutomatonModel, path: Seq<Movement>, k: nat)
    requires
        a.wf(),
        !a.grid.at(a.source),
        is_route(a, path, a.destination),
        k <= path.len() + 1,
    ensures
        replay_from(a, path, k, 0) == Ok::<nat, ReplayError>(0),
    decreases path.len() + 1 - k,
{
    if k <= path.len() {
        lemma_replay_clean(a, path, k + 1);
        if k == 0 {
            assert(trace(a.source, path, 0) == a.source);
        } else {
            assert(open_at(a, k, trace(a.source, path, k as int)));
        }
    }
}

/// Replay consistency: a route from a dead source to the destination, on
/// dead cells after every movement, replays to the destination at a tick
/// count equal to its length and loses no life (so it touches no live cell
/// at the first or the last tick).
pub proof fn lemma_route_replays(a: AutomatonModel, path: Seq<Movement>)
    requires
        a.wf(),
        !a.grid.at(a.source),
        is_route(a, path, a.destination),
    ensures
        replay(a, path) == Ok::<nat, ReplayError>(0),
{
    lemma_replay_clean(a, path, 0);
}

/// Determinism: the next generation is a function of the grid, the
/// endpoints and the flag alone.
pub proof fn lemma_successor_deterministic(a: AutomatonModel, b: AutomatonModel)
    requires
        a == b,
    ensures
        successor(a) == successor(b),
{
}

/// Rule correctness: a cell that is not a protected endpoint is alive in the
/// next generation exactly when the rule says so for its current state and
/// its live neighbours on the grid (out-of-grid cells count as dead); a
/// protected endpoint is dead.
pub proof fn lemma_rule_applies(a: AutomatonModel, c: Cell)
    requires
        a.wf(),
        a.grid.in_bounds(c),
    ensures
        0 <= a.grid.neighbors(c) <= 8,
        a.immutable_endpoints && (c == a.source || c == a.destination) ==> !successor(a).grid.at(c),
        !(a.immutable_endpoints && (c == a.source || c == a.destination)) ==> successor(a).grid.at(c) == rule(
            a.grid.at(c),
            a.grid.neighbors(c),
        ),
{
    let g = a.grid;
    lemma_offset(c.0, c.1, g.height, g.width);
    lemma_offset(a.source.0, a.source.1, g.height, g.width);
    lemma_offset(a.destination.0, a.destination.1, g.height, g.width);
    assert(g.cell_of(g.offset(c)) == c);
    if c != a.source {
        assert(g.offset(c) != g.offset(a.source)) by {
            assert(g.cell_of(g.offset(a.source)) == a.source);
        }
    }
    if c != a.destination {
        assert(g.offset(c) != g.offset(a.destination)) by {
            assert(g.cell_of(g.offset(a.destination)) == a.destination);
        }
    }
}

} // verus!
