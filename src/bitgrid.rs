//! A compact reached-set: one bit per cell of a grid-shaped rectangle.
use vstd::prelude::*;
use bit_vec::BitVec;
use crate::grid::{lemma_cell_of, lemma_offset, GridModel};
use crate::position::{Cell, Position};

verus! {

#[verifier::external_type_specification]
#[verifier::external_body]
#[verifier::reject_recursive_types(B)]
pub struct ExBitVec<B>(BitVec<B>);

/// The bits held by a bit vector, in index order.
pub uninterp spec fn bits_of(v: BitVec) -> Seq<bool>;

/// Relies on `BitVec::from_elem`: `nbits` bits, each equal to `bit`.
#[verifier::external_body]
fn bits_from_elem(nbits: usize, bit: bool) -> (r: BitVec)
    ensures
        bits_of(r) == Seq::new(nbits as nat, |k: int| bit),
{
    BitVec::from_elem(nbits, bit)
}

/// Relies on `BitVec::get`: the bit at `i`, or `None` past the end.
#[verifier::external_body]
fn bits_get(v: &BitVec, i: usize) -> (r: Option<bool>)
    ensures
        r == if i < bits_of(*v).len() {
            Some(bits_of(*v)[i as int])
        } else {
            None
        },
{
    v.get(i)
}

/// Relies on `BitVec::set`: changes the bit at `i` (which must exist) and no other.
#[verifier::external_body]
fn bits_set(v: &mut BitVec, i: usize, x: bool)
    requires
        i < bits_of(*old(v)).len(),
    ensures
        bits_of(*final(v)) == bits_of(*old(v)).update(i as int, x),
{
    v.set(i, x)
}

/// Relies on `BitVec::none`: whether every bit is 0.
#[verifier::external_body]
fn bits_none(v: &BitVec) -> (r: bool)
    ensures
        r == (forall|k: int| 0 <= k < bits_of(*v).len() ==> !#[trigger] bits_of(*v)[k]),
{
    v.none()
}

/// The set of cells of a grid model that are alive (here: members).
pub open spec fn members(m: GridModel) -> Set<Cell> {
    Set::new(|c: Cell| m.live(c))
}

/// Set membership over a rectangle of cells, stored as one bit per cell.
#[derive(Debug)]
pub struct BitGrid {
    height: i16,
    width: i16,
    raw: BitVec,
}

impl View for BitGrid {
    type V = GridModel;

    closed spec fn view(&self) -> GridModel {
        GridModel { height: self.height as int, width: self.width as int, cells: bits_of(self.raw) }
    }
}

impl BitGrid {
    pub open spec fn wf(&self) -> bool {
        self@.wf()
    }

    /// An empty set over a `height` by `width` rectangle.
    pub fn new(height: i16, width: i16) -> (r: Self)
        requires
            height >= 0,
            width >= 0,
        ensures
            r.wf(),
            r@.height == height,
            r@.width == width,
            members(r@) == Set::<Cell>::empty(),
    {
        proof {
            assert(height * width <= i16::MAX * i16::MAX) by (nonlinear_arith)
                requires
                    0 <= height <= i16::MAX,
                    0 <= width <= i16::MAX,
            ;
            assert(0 <= height * width) by (nonlinear_arith)
                requires
                    0 <= height,
                    0 <= width,
            ;
        }
        let raw = bits_from_elem(height as usize * width as usize, false);
        let r = BitGrid { height, width, raw };
        proof {
            assert forall|c: Cell| !#[trigger] r@.live(c) by {
                if r@.in_bounds(c) {
                    lemma_offset(c.0, c.1, height as int, width as int);
                }
            }
            assert(members(r@) =~= Set::<Cell>::empty());
        }
        r
    }

    /// An empty set with the same shape as `other`.
    pub fn with_dim_from(other: &BitGrid) -> (r: Self)
        requires
            other.wf(),
        ensures
            r.wf(),
            r@.height == other@.height,
            r@.width == other@.width,
            members(r@) == Set::<Cell>::empty(),
    {
        BitGrid::new(other.height, other.width)
    }

    /// Row-major offset of `position`, or `None` when it is out of bounds.
    fn offset(&self, position: Position) -> (r: Option<usize>)
        requires
            self.wf(),
        ensures
            r is Some <==> self@.in_bounds(position@),
            r is Some ==> r->0 as int == self@.offset(position@),
            r is Some ==> r->0 < self@.cells.len(),
    {
        if position.i < 0 || position.i >= self.height || position.j < 0 || position.j >= self.width {
            return None;
        }
        proof {
            lemma_offset(position.i as int, position.j as int, self.height as int, self.width as int);
            assert(position.i * self.width <= i16::MAX * i16::MAX) by (nonlinear_arith)
                requires
                    0 <= position.i <= i16::MAX,
                    0 <= self.width <= i16::MAX,
            ;
        }
        Some(position.i as usize * self.width as usize + position.j as usize)
    }

    /// Adds `position`, which must be in bounds.
    pub fn insert(&mut self, position: Position)
        requires
            old(self).wf(),
            old(self)@.in_bounds(position@),
        ensures
            final(self).wf(),
            final(self)@.height == old(self)@.height,
            final(self)@.width == old(self)@.width,
            members(final(self)@) == members(old(self)@).insert(position@),
    {
        let k = self.offset(position).unwrap();
        let ghost before = self@;
        bits_set(&mut self.raw, k, true);
        proof {
            assert forall|c: Cell| #[trigger] self@.live(c) == (before.live(c) || c == position@) by {
                if self@.in_bounds(c) && c != position@ {
                    lemma_offset(c.0, c.1, self.height as int, self.width as int);
                    lemma_offset(position.i as int, position.j as int, self.height as int, self.width as int);
                    assert(self@.offset(c) != k);
                }
            }
            assert(members(self@) =~= members(before).insert(position@));
        }
    }

    /// Whether `position` is a member; `false` when it is out of bounds.
    pub fn contains(&self, position: Position) -> (r: bool)
        requires
            self.wf(),
        ensures
            r == members(self@).contains(position@),
    {
        match self.offset(position) {
            Some(k) => match bits_get(&self.raw, k) {
                Some(b) => b,
                None => false,
            },
            None => false,
        }
    }

    /// Whether the set has no member.
    pub fn is_empty(&self) -> (r: bool)
        requires
            self.wf(),
        ensures
            r == (members(self@) == Set::<Cell>::empty()),
    {
        let r = bits_none(&self.raw);
        proof {
            if r {
                assert(members(self@) =~= Set::<Cell>::empty()) by {
                    assert forall|c: Cell| !#[trigger] self@.live(c) by {
                        if self@.in_bounds(c) {
                            lemma_offset(c.0, c.1, self.height as int, self.width as int);
                        }
                    }
                }
            } else {
                let k = choose|k: int| 0 <= k < bits_of(self.raw).len() && #[trigger] bits_of(self.raw)[k];
                lemma_cell_of(k, self.height as int, self.width as int);
                let c = self@.cell_of(k);
                assert(self@.offset(c) == k) by (nonlinear_arith)
                    requires
                        self@.offset(c) == (k / self@.width) * self@.width + k % self@.width,
                        (k / self@.width) * self@.width + k % self@.width == k,
                ;
                assert(members(self@).contains(c));
            }
        }
        r
    }

    /// The members, in row-major order.
    pub fn iter(&self) -> (r: Vec<Position>)
        requires
            self.wf(),
        ensures
            forall|t: int| 0 <= t < r.len() ==> #[trigger] members(self@).contains(r[t]@),
            forall|c: Cell|
                #[trigger] members(self@).contains(c) ==> exists|t: int| 0 <= t < r.len() && r[t]@ == c,
            forall|s: int, t: int|
                0 <= s < t < r.len() ==> self@.offset(#[trigger] r[s]@) < self@.offset(#[trigger] r[t]@),
    {
        proof {
            assert(self.height * self.width <= i16::MAX * i16::MAX) by (nonlinear_arith)
                requires
                    0 <= self.height <= i16::MAX,
                    0 <= self.width <= i16::MAX,
            ;
        }
        let n = self.height as usize * self.width as usize;
        let mut out: Vec<Position> = Vec::new();
        let mut k: usize = 0;
        while k < n
            invariant
                self.wf(),
                n == self@.cells.len(),
                k <= n,
                forall|t: int| 0 <= t < out.len() ==> members(self@).contains(#[trigger] out[t]@),
                forall|t: int| 0 <= t < out.len() ==> self@.offset(#[trigger] out[t]@) < k,
                forall|c: Cell|
                    #[trigger] members(self@).contains(c) && self@.offset(c) < k ==> exists|t: int|
                        0 <= t < out.len() && out[t]@ == c,
                forall|s: int, t: int|
                    0 <= s < t < out.len() ==> self@.offset(#[trigger] out[s]@) < self@.offset(
                        #[trigger] out[t]@,
                    ),
            decreases n - k,
        {
            proof {
                lemma_cell_of(k as int, self.height as int, self.width as int);
            }
            let w = self.width as usize;
            let p = Position { i: (k / w) as i16, j: (k % w) as i16 };
            proof {
                assert(self@.offset(p@) == k) by (nonlinear_arith)
                    requires
                        self@.offset(p@) == (k / w) * w + k % w,
                        (k / w) * w + k % w == k,
                ;
            }
            let ghost before = out@;
            if bits_get(&self.raw, k) == Some(true) {
                out.push(p);
                proof {
                    assert(out[out.len() - 1] == p);
                    assert(members(self@).contains(p@));
                    assert forall|t: int| 0 <= t < out.len() - 1 implies out[t] == before[t] by {}
                }
            }
            proof {
                assert forall|c: Cell|
                    #[trigger] members(self@).contains(c) && self@.offset(c) < k + 1 implies exists|t: int|
                        0 <= t < out.len() && out[t]@ == c by {
                    if self@.offset(c) == k {
                        lemma_offset(c.0, c.1, self.height as int, self.width as int);
                        lemma_offset(p.i as int, p.j as int, self.height as int, self.width as int);
                        assert(c == p@);
                        assert(out[out.len() - 1]@ == c);
                    } else {
                        let t = choose|t: int| 0 <= t < before.len() && before[t]@ == c;
                        assert(out[t]@ == c);
                    }
                }
            }
            k += 1;
        }
        proof {
            assert forall|c: Cell| #[trigger] members(self@).contains(c) implies exists|t: int|
                0 <= t < out.len() && out[t]@ == c by {
                lemma_offset(c.0, c.1, self.height as int, self.width as int);
            }
        }
        out
    }
}

} // verus!
