//! One generation of parent pointers: for every reached position, the
//! movement that first reached it. Kept in an `ahash` hash map.
use vstd::prelude::*;
use ahash::AHashMap;
use crate::position::{fits_i16, Cell, Movement, Position};

verus! {

#[verifier::external_type_specification]
#[verifier::external_body]
#[verifier::reject_recursive_types(K)]
#[verifier::reject_recursive_types(V)]
#[verifier::reject_recursive_types(S)]
pub struct ExAHashMap<K, V, S>(AHashMap<K, V, S>);

#[verifier::external_type_specification]
#[verifier::external_body]
pub struct ExRandomState(ahash::RandomState);

/// Parent pointers of one generation, keyed by `(row, column)`.
pub type Trail = AHashMap<(i16, i16), Movement>;

/// The mathematical content of a trail.
pub type TrailMap = Map<(i16, i16), Movement>;

/// The entries held by a trail.
pub uninterp spec fn trail_map(m: AHashMap<(i16, i16), Movement>) -> TrailMap;

/// The map key of a position.
pub open spec fn key_of(p: Position) -> (i16, i16) {
    (p.i, p.j)
}

/// The map key of a cell whose coordinates fit in `i16`.
pub open spec fn cell_key(c: Cell) -> (i16, i16) {
    (c.0 as i16, c.1 as i16)
}

/// The cells that a trail holds an entry for.
pub open spec fn trail_cells(m: TrailMap) -> Set<Cell> {
    Set::new(|c: Cell| fits_i16(c) && m.contains_key(cell_key(c)))
}

/// Relies on `AHashMap::new`: a map with no entry.
#[verifier::external_body]
pub(crate) fn trail_new() -> (r: Trail)
    ensures
        trail_map(r) == TrailMap::empty(),
{
    AHashMap::new()
}

/// Relies on `AHashMap::get`: the value stored under `k`, if any.
#[verifier::external_body]
pub(crate) fn trail_get(m: &Trail, k: (i16, i16)) -> (r: Option<Movement>)
    ensures
        r == if trail_map(*m).contains_key(k) {
            Some(trail_map(*m)[k])
        } else {
            None
        },
{
    m.get(&k).copied()
}

/// Relies on `AHashMap::insert`: stores `v` under `k`, replacing any value there.
#[verifier::external_body]
pub(crate) fn trail_insert(m: &mut Trail, k: (i16, i16), v: Movement)
    ensures
        trail_map(*final(m)) == trail_map(*old(m)).insert(k, v),
{
    m.insert(k, v);
}

/// Relies on `HashMap::is_empty` (through `AHashMap`'s `Deref`): whether there is no entry.
#[verifier::external_body]
pub(crate) fn trail_is_empty(m: &Trail) -> (r: bool)
    ensures
        r == (trail_map(*m) == TrailMap::empty()),
{
    m.is_empty()
}

/// Relies on `HashMap::keys` (through `AHashMap`'s `Deref`): every key once,
/// in an order that depends on the map's random hasher.
#[verifier::external_body]
fn trail_keys(m: &Trail) -> (r: Vec<(i16, i16)>)
    ensures
        forall|t: int| 0 <= t < r.len() ==> trail_map(*m).contains_key(#[trigger] r[t]),
        forall|k: (i16, i16)|
            #[trigger] trail_map(*m).contains_key(k) ==> exists|t: int| 0 <= t < r.len() && r[t] == k,
{
    m.keys().copied().collect()
}

/// The positions that a trail holds an entry for, in no particular order.
pub(crate) fn trail_positions(m: &Trail) -> (r: Vec<Position>)
    ensures
        forall|t: int| 0 <= t < r.len() ==> trail_map(*m).contains_key(key_of(#[trigger] r[t])),
        forall|k: (i16, i16)|
            #[trigger] trail_map(*m).contains_key(k) ==> exists|t: int| 0 <= t < r.len() && key_of(r[t]) == k,
{
    let keys = trail_keys(m);
    let mut out: Vec<Position> = Vec::new();
    let mut t: usize = 0;
    while t < keys.len()
        invariant
            t <= keys.len(),
            out.len() == t,
            forall|s: int| 0 <= s < keys.len() ==> trail_map(*m).contains_key(#[trigger] keys[s]),
            forall|s: int| 0 <= s < t ==> key_of(#[trigger] out[s]) == keys[s],
        decreases keys.len() - t,
    {
        let k = keys[t];
        out.push(Position { i: k.0, j: k.1 });
        t += 1;
    }
    proof {
        assert forall|t: int| 0 <= t < out.len() implies trail_map(*m).contains_key(key_of(#[trigger] out[t])) by {
            assert(key_of(out[t]) == keys[t]);
        }
        assert forall|k: (i16, i16)| #[trigger] trail_map(*m).contains_key(k) implies exists|t: int|
            0 <= t < out.len() && key_of(out[t]) == k by {
            let t = choose|t: int| 0 <= t < keys.len() && keys[t] == k;
            assert(key_of(out[t]) == keys[t]);
        }
    }
    out
}

} // verus!
