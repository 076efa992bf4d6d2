//! A dense two-dimensional grid of boolean cells.
use vstd::prelude::*;
use crate::position::Cell;

verus! {

/// Mathematical model of a grid: dimensions and row-major cells.
pub struct GridModel {
    pub height: int,
    pub width: int,
    pub cells: Seq<bool>,
}

impl GridModel {
    /// Dimensions fit in `i16` and the cells fill the rectangle exactly.
    pub open spec fn wf(self) -> bool {
        &&& 0 <= self.height <= i16::MAX
        &&& 0 <= self.width <= i16::MAX
        &&& self.cells.len() == self.height * self.width
    }

    pub open spec fn in_bounds(self, c: Cell) -> bool {
        0 <= c.0 < self.height && 0 <= c.1 < self.width
    }

    /// Row-major offset of a cell.
    pub open spec fn offset(self, c: Cell) -> int {
        c.0 * self.width + c.1
    }

    /// The cell stored at a row-major offset.
    pub open spec fn cell_of(self, k: int) -> Cell {
        (k / self.width, k % self.width)
    }

    /// The value of an in-bounds cell.
    pub open spec fn at(self, c: Cell) -> bool {
        self.cells[self.offset(c)]
    }

    /// Whether `c` is in bounds and alive; the grid does not wrap.
    pub open spec fn live(self, c: Cell) -> bool {
        self.in_bounds(c) && self.at(c)
    }

    /// 1 if the cell at offset `(di, dj)` from `c` is alive, else 0.
    pub open spec fn live_count(self, c: Cell, di: int, dj: int) -> int {
        if self.live((c.0 + di, c.1 + dj)) { 1 } else { 0 }
    }

    /// Number of live cells among the eight Moore neighbours of `c`.
    pub open spec fn neighbors(self, c: Cell) -> int {
        self.live_count(c, -1, -1) + self.live_count(c, -1, 0) + self.live_count(c, -1, 1)
            + self.live_count(c, 0, -1) + self.live_count(c, 0, 1)
            + self.live_count(c, 1, -1) + self.live_count(c, 1, 0) + self.live_count(c, 1, 1)
    }

    /// The text of the cell at offset `k`: its digit, preceded by a space
    /// inside a row or by a newline at the start of every row but the first.
    pub open spec fn cell_text(self, k: int) -> Seq<char> {
        let d = if self.cells[k] { '1' } else { '0' };
        if self.cell_of(k).1 != 0 {
            seq![' ', d]
        } else if self.cell_of(k).0 != 0 {
            seq!['\n', d]
        } else {
            seq![d]
        }
    }

    /// The text of the first `k` cells.
    pub open spec fn text_upto(self, k: nat) -> Seq<char>
        decreases k,
    {
        if k == 0 {
            Seq::empty()
        } else {
            self.text_upto((k - 1) as nat) + self.cell_text(k - 1)
        }
    }

    /// The grid as rows of space-separated `0`/`1` digits, one row per line.
    pub open spec fn text(self) -> Seq<char> {
        self.text_upto(self.cells.len())
    }
}

/// The offset of an in-bounds cell lies in the grid and maps back to the cell.
pub proof fn lemma_offset(i: int, j: int, h: int, w: int)
    requires
        0 <= i < h,
        0 <= j < w,
    ensures
        0 <= i * w + j < h * w,
        (i * w + j) / w == i,
        (i * w + j) % w == j,
{
    assert(0 <= i * w + j < h * w) by (nonlinear_arith)
        requires
            0 <= i < h,
            0 <= j < w,
    ;
    vstd::arithmetic::div_mod::lemma_fundamental_div_mod_converse(i * w + j, w, i, j);
}

/// Every offset inside the grid is the offset of an in-bounds cell.
pub proof fn lemma_cell_of(k: int, h: int, w: int)
    requires
        0 <= k < h * w,
        0 <= h,
        0 <= w,
    ensures
        w > 0,
        0 <= k / w < h,
        0 <= k % w < w,
        (k / w) * w + k % w == k,
{
    if w <= 0 {
        assert(h * w <= 0) by (nonlinear_arith)
            requires
                0 <= h,
                w <= 0,
        ;
    }
    vstd::arithmetic::div_mod::lemma_fundamental_div_mod(k, w);
    assert(k / w < h) by (nonlinear_arith)
        requires
            0 <= k < h * w,
            w > 0,
            k == w * (k / w) + k % w,
            0 <= k % w < w,
    ;
    assert(0 <= k / w) by (nonlinear_arith)
        requires
            0 <= k,
            w > 0,
            k == w * (k / w) + k % w,
            k % w < w,
    ;
    assert((k / w) * w == w * (k / w)) by (nonlinear_arith);
}

/// The cell stored at an offset of a well-formed grid is in bounds and has that offset.
pub proof fn lemma_cell_at(g: GridModel, k: int)
    requires
        g.wf(),
        0 <= k < g.cells.len(),
    ensures
        g.in_bounds(g.cell_of(k)),
        g.offset(g.cell_of(k)) == k,
{
    lemma_cell_of(k, g.height, g.width);
    assert((k / g.width) * g.width + k % g.width == k);
}

/// A two-dimensional grid of bool values, `true` meaning alive.
#[derive(Debug, Clone)]
pub struct Grid {
    height: i16,
    width: i16,
    raw: Vec<bool>,
}

impl View for Grid {
    type V = GridModel;

    closed spec fn view(&self) -> GridModel {
        GridModel { height: self.height as int, width: self.width as int, cells: self.raw@ }
    }
}

impl Grid {
    /// The grid's own invariant.
    pub open spec fn wf(&self) -> bool {
        self@.wf()
    }

    /// Creates a grid from rows of equal, non-zero count.
    pub fn from_nested_vecs(vecs: Vec<Vec<bool>>) -> (r: Self)
        requires
            vecs.len() >= 1,
            vecs.len() <= i16::MAX,
            vecs[0].len() <= i16::MAX,
            forall|i: int| 0 <= i < vecs.len() ==> #[trigger] vecs[i].len() == vecs[0].len(),
        ensures
            r.wf(),
            r@.height == vecs.len(),
            r@.width == vecs[0].len(),
            forall|i: int, j: int|
                r@.in_bounds((i, j)) ==> r@.at((i, j)) == #[trigger] vecs[i]@[j],
    {
        let h = vecs.len();
        let w = vecs[0].len();
        let mut raw: Vec<bool> = Vec::new();
        let mut r: usize = 0;
        while r < h
            invariant
                h == vecs.len(),
                w == vecs[0].len(),
                1 <= h <= i16::MAX,
                w <= i16::MAX,
                r <= h,
                forall|i: int| 0 <= i < vecs.len() ==> #[trigger] vecs[i].len() == w,
                raw.len() == r * w,
                forall|i: int, j: int|
                    0 <= i < r && 0 <= j < w ==> raw@[i * w + j] == #[trigger] vecs[i]@[j],
            decreases h - r,
        {
            let row = &vecs[r];
            let mut c: usize = 0;
            while c < w
                invariant
                    h == vecs.len(),
                    w == vecs[0].len(),
                    1 <= h <= i16::MAX,
                    w <= i16::MAX,
                    r < h,
                    c <= w,
                    row == vecs[r as int],
                    row.len() == w,
                    raw.len() == r * w + c,
                    forall|i: int, j: int|
                        0 <= i < r && 0 <= j < w ==> raw@[i * w + j] == #[trigger] vecs[i]@[j],
                    forall|j: int| 0 <= j < c ==> raw@[r * w + j] == #[trigger] row@[j],
                decreases w - c,
            {
                proof {
                    assert(r * w + c < h * w) by (nonlinear_arith)
                        requires
                            r < h,
                            c < w,
                    ;
                    assert(h * w <= i16::MAX * i16::MAX) by (nonlinear_arith)
                        requires
                            h <= i16::MAX,
                            w <= i16::MAX,
                    ;
                }
                raw.push(row[c]);
                proof {
                    assert forall|i: int, j: int| 0 <= i < r && 0 <= j < w implies raw@[i * w + j]
                        == #[trigger] vecs[i]@[j] by {
                        lemma_offset(i, j, r as int, w as int);
                    }
                }
                c += 1;
            }
            proof {
                assert forall|i: int, j: int| 0 <= i < r + 1 && 0 <= j < w implies raw@[i * w + j]
                    == #[trigger] vecs[i]@[j] by {
                    if i == r {
                        assert(row@[j] == vecs[i]@[j]);
                    }
                }
                assert(raw.len() == (r + 1) * w) by (nonlinear_arith)
                    requires
                        raw.len() == r * w + w,
                ;
            }
            r += 1;
        }
        let r = Grid { height: h as i16, width: w as i16, raw };
        proof {
            assert forall|i: int, j: int| r@.in_bounds((i, j)) implies r@.at((i, j))
                == #[trigger] vecs[i]@[j] by {}
        }
        r
    }

    pub fn height(&self) -> (r: i16)
        ensures
            r as int == self@.height,
    {
        self.height
    }

    pub fn width(&self) -> (r: i16)
        ensures
            r as int == self@.width,
    {
        self.width
    }

    /// Row-major offset of `(i, j)`, or `None` when it is out of bounds.
    fn index(&self, i: i16, j: i16) -> (r: Option<usize>)
        requires
            self.wf(),
        ensures
            r is Some <==> self@.in_bounds((i as int, j as int)),
            r is Some ==> r->0 as int == self@.offset((i as int, j as int)),
            r is Some ==> r->0 < self@.cells.len(),
    {
        if i < 0 || i >= self.height || j < 0 || j >= self.width {
            return None;
        }
        proof {
            lemma_offset(i as int, j as int, self.height as int, self.width as int);
            assert(self.height * self.width <= i16::MAX * i16::MAX) by (nonlinear_arith)
                requires
                    0 <= self.height <= i16::MAX,
                    0 <= self.width <= i16::MAX,
            ;
            assert(i * self.width <= i16::MAX * i16::MAX) by (nonlinear_arith)
                requires
                    0 <= i <= i16::MAX,
                    0 <= self.width <= i16::MAX,
            ;
        }
        Some(i as usize * self.width as usize + j as usize)
    }

    /// Returns the value in cell `(i, j)`, or `None` if `(i, j)` is not in bounds.
    pub fn get(&self, i: i16, j: i16) -> (r: Option<bool>)
        requires
            self.wf(),
        ensures
            r == (if self@.in_bounds((i as int, j as int)) {
                Some(self@.at((i as int, j as int)))
            } else {
                None
            }),
    {
        match self.index(i, j) {
            Some(k) => Some(self.raw[k]),
            None => None,
        }
    }

    /// Sets cell `(i, j)` to `value`.
    pub fn set(&mut self, i: i16, j: i16, value: bool)
        requires
            old(self).wf(),
            old(self)@.in_bounds((i as int, j as int)),
        ensures
            final(self).wf(),
            final(self)@ == (GridModel {
                cells: old(self)@.cells.update(old(self)@.offset((i as int, j as int)), value),
                ..old(self)@
            }),
    {
        let k = self.index(i, j).unwrap();
        self.raw.set(k, value);
    }

    /// The cell at a row-major offset, as `i16` coordinates.
    fn coords(&self, k: usize) -> (r: (i16, i16))
        requires
            self.wf(),
            k < self@.cells.len(),
        ensures
            r.0 as int == self@.cell_of(k as int).0,
            r.1 as int == self@.cell_of(k as int).1,
            self@.in_bounds(self@.cell_of(k as int)),
            self@.offset(self@.cell_of(k as int)) == k,
    {
        proof {
            lemma_cell_of(k as int, self.height as int, self.width as int);
        }
        let w = self.width as usize;
        ((k / w) as i16, (k % w) as i16)
    }

    /// All cells as `(row, column, value)`, in row-major order.
    pub fn cells(&self) -> (r: Vec<(i16, i16, bool)>)
        requires
            self.wf(),
        ensures
            r.len() == self@.cells.len(),
            forall|k: int|
                0 <= k < r.len() ==> {
                    &&& (#[trigger] r[k]).0 as int == self@.cell_of(k).0
                    &&& r[k].1 as int == self@.cell_of(k).1
                    &&& r[k].2 == self@.cells[k]
                },
    {
        let mut out: Vec<(i16, i16, bool)> = Vec::new();
        let n = self.raw.len();
        let mut k: usize = 0;
        while k < n
            invariant
                self.wf(),
                n == self@.cells.len(),
                k <= n,
                out.len() == k,
                forall|t: int|
                    0 <= t < k ==> {
                        &&& (#[trigger] out[t]).0 as int == self@.cell_of(t).0
                        &&& out[t].1 as int == self@.cell_of(t).1
                        &&& out[t].2 == self@.cells[t]
                    },
            decreases n - k,
        {
            let (i, j) = self.coords(k);
            out.push((i, j, self.raw[k]));
            k += 1;
        }
        out
    }

    /// 1 if the cell at `(i + di, j + dj)` is in bounds and alive, else 0.
    fn live_count(&self, i: i16, j: i16, di: i16, dj: i16) -> (r: u8)
        requires
            self.wf(),
            self@.in_bounds((i as int, j as int)),
            -1 <= di <= 1,
            -1 <= dj <= 1,
        ensures
            r as int == self@.live_count((i as int, j as int), di as int, dj as int),
    {
        match self.get(i + di, j + dj) {
            Some(true) => 1,
            _ => 0,
        }
    }

    /// Count cells set to `true` in the Moore neighbourhood of `(i, j)`.
    ///
    /// The grid does not wrap around its edges.
    pub fn count_neighbors(&self, i: i16, j: i16) -> (r: u8)
        requires
            self.wf(),
            self@.in_bounds((i as int, j as int)),
        ensures
            r as int == self@.neighbors((i as int, j as int)),
            r <= 8,
    {
        self.live_count(i, j, -1, -1) + self.live_count(i, j, -1, 0) + self.live_count(i, j, -1, 1)
            + self.live_count(i, j, 0, -1) + self.live_count(i, j, 0, 1)
            + self.live_count(i, j, 1, -1) + self.live_count(i, j, 1, 0)
            + self.live_count(i, j, 1, 1)
    }

    /// Creates a grid of `height` and `width` with all values set to `false`.
    pub fn new(height: i16, width: i16) -> (r: Self)
        requires
            height >= 0,
            width >= 0,
        ensures
            r.wf(),
            r@.height == height,
            r@.width == width,
            forall|k: int| 0 <= k < r@.cells.len() ==> !#[trigger] r@.cells[k],
    {
        proof {
            assert(height * width <= i16::MAX * i16::MAX) by (nonlinear_arith)
                requires
                    0 <= height <= i16::MAX,
                    0 <= width <= i16::MAX,
            ;
            assert(0 <= height * width) by (nonlinear_arith)
                requires
                    0 <= height,
                    0 <= width,
            ;
        }
        let n = height as usize * width as usize;
        let raw = vec![false; n];
        Grid { height, width, raw }
    }

    /// Rotate once, clockwise.
    pub fn rotate(&self) -> (r: Self)
        requires
            self.wf(),
        ensures
            r.wf(),
            r@.height == self@.width,
            r@.width == self@.height,
            forall|x: int, y: int|
                #[trigger] r@.in_bounds((x, y)) ==> r@.at((x, y)) == self@.at(
                    (self@.height - 1 - y, x),
                ),
    {
        let rh = self.width;
        let rw = self.height;
        let n = self.raw.len();
        proof {
            assert(n == rh * rw) by (nonlinear_arith)
                requires
                    n == rw * rh,
            ;
        }
        let mut raw: Vec<bool> = Vec::new();
        let mut k: usize = 0;
        while k < n
            invariant
                self.wf(),
                rh == self@.width,
                rw == self@.height,
                n == rh * rw,
                n == self@.cells.len(),
                k <= n,
                raw.len() == k,
                forall|t: int|
                    0 <= t < k ==> #[trigger] raw@[t] == self@.at(
                        (self@.height - 1 - t % (rw as int), t / (rw as int)),
                    ),
            decreases n - k,
        {
            proof {
                lemma_cell_of(k as int, rh as int, rw as int);
            }
            let x = (k / rw as usize) as i16;
            let y = (k % rw as usize) as i16;
            let v = match self.get(self.height - 1 - y, x) {
                Some(v) => v,
                None => false,
            };
            raw.push(v);
            k += 1;
        }
        let r = Grid { height: rh, width: rw, raw };
        proof {
            assert forall|x: int, y: int| #[trigger] r@.in_bounds((x, y)) implies r@.at((x, y))
                == self@.at((self@.height - 1 - y, x)) by {
                lemma_offset(x, y, rh as int, rw as int);
            }
        }
        r
    }

    /// Flip once, horizontally.
    ///
    /// To flip vertically, rotate twice then flip horizontally.
    pub fn flip(&self) -> (r: Self)
        requires
            self.wf(),
        ensures
            r.wf(),
            r@.height == self@.height,
            r@.width == self@.width,
            forall|x: int, y: int|
                #[trigger] r@.in_bounds((x, y)) ==> r@.at((x, y)) == self@.at(
                    (x, self@.width - 1 - y),
                ),
    {
        let n = self.raw.len();
        let mut raw: Vec<bool> = Vec::new();
        let mut k: usize = 0;
        while k < n
            invariant
                self.wf(),
                n == self@.cells.len(),
                k <= n,
                raw.len() == k,
                forall|t: int|
                    0 <= t < k ==> #[trigger] raw@[t] == self@.at(
                        (self@.cell_of(t).0, self@.width - 1 - self@.cell_of(t).1),
                    ),
            decreases n - k,
        {
            let (x, y) = self.coords(k);
            let v = match self.get(x, self.width - 1 - y) {
                Some(v) => v,
                None => false,
            };
            raw.push(v);
            k += 1;
        }
        let r = Grid { height: self.height, width: self.width, raw };
        proof {
            assert forall|x: int, y: int| #[trigger] r@.in_bounds((x, y)) implies r@.at((x, y))
                == self@.at((x, self@.width - 1 - y)) by {
                lemma_offset(x, y, self.height as int, self.width as int);
            }
        }
        r
    }

    /// Invert all cells.
    pub fn invert(&self) -> (r: Self)
        requires
            self.wf(),
        ensures
            r.wf(),
            r@.height == self@.height,
            r@.width == self@.width,
            forall|k: int| 0 <= k < r@.cells.len() ==> #[trigger] r@.cells[k] == !self@.cells[k],
    {
        let n = self.raw.len();
        let mut raw: Vec<bool> = Vec::new();
        let mut k: usize = 0;
        while k < n
            invariant
                n == self@.cells.len(),
                k <= n,
                raw.len() == k,
                forall|t: int| 0 <= t < k ==> #[trigger] raw@[t] == !self@.cells[t],
            decreases n - k,
        {
            raw.push(!self.raw[k]);
            k += 1;
        }
        Grid { height: self.height, width: self.width, raw }
    }

    /// Overwrite part of `self`, starting at offset `(i, j)`, with the cells of `other`.
    pub fn overwrite(&mut self, other: &Self, i: i16, j: i16)
        requires
            old(self).wf(),
            other.wf(),
            0 <= i,
            0 <= j,
            i + other@.height <= old(self)@.height,
            j + other@.width <= old(self)@.width,
        ensures
            final(self).wf(),
            final(self)@.height == old(self)@.height,
            final(self)@.width == old(self)@.width,
            forall|x: int, y: int|
                #[trigger] final(self)@.in_bounds((x, y)) ==> final(self)@.at((x, y)) == if other@.in_bounds(
                    (x - i, y - j),
                ) {
                    other@.at((x - i, y - j))
                } else {
                    old(self)@.at((x, y))
                },
    {
        let n = self.raw.len();
        let mut raw: Vec<bool> = Vec::new();
        let mut k: usize = 0;
        while k < n
            invariant
                self.wf(),
                other.wf(),
                0 <= i,
                0 <= j,
                i + other@.height <= self@.height,
                j + other@.width <= self@.width,
                n == self@.cells.len(),
                k <= n,
                raw.len() == k,
                forall|t: int|
                    0 <= t < k ==> #[trigger] raw@[t] == if other@.in_bounds(
                        (self@.cell_of(t).0 - i, self@.cell_of(t).1 - j),
                    ) {
                        other@.at((self@.cell_of(t).0 - i, self@.cell_of(t).1 - j))
                    } else {
                        self@.cells[t]
                    },
            decreases n - k,
        {
            let (x, y) = self.coords(k);
            let v = match other.get(x - i, y - j) {
                Some(v) => v,
                None => self.raw[k],
            };
            raw.push(v);
            k += 1;
        }
        let ghost prev = self@;
        self.raw = raw;
        proof {
            assert forall|x: int, y: int| #[trigger] self@.in_bounds((x, y)) implies self@.at((x, y))
                == if other@.in_bounds((x - i, y - j)) {
                other@.at((x - i, y - j))
            } else {
                prev.at((x, y))
            } by {
                lemma_offset(x, y, self.height as int, self.width as int);
            }
        }
    }

    /// Extract the `height` by `width` part of `self` whose top-left cell is `(i, j)`.
    pub fn extract(&self, i: i16, j: i16, height: i16, width: i16) -> (r: Self)
        requires
            self.wf(),
            0 <= i,
            0 <= j,
            0 <= height,
            0 <= width,
            i + height <= self@.height,
            j + width <= self@.width,
        ensures
            r.wf(),
            r@.height == height,
            r@.width == width,
            forall|x: int, y: int|
                #[trigger] r@.in_bounds((x, y)) ==> r@.at((x, y)) == self@.at((i + x, j + y)),
    {
        let shape = Grid::new(height, width);
        let n = shape.raw.len();
        let mut raw: Vec<bool> = Vec::new();
        let mut k: usize = 0;
        while k < n
            invariant
                self.wf(),
                shape.wf(),
                shape@.height == height,
                shape@.width == width,
                0 <= i,
                0 <= j,
                i + height <= self@.height,
                j + width <= self@.width,
                n == shape@.cells.len(),
                k <= n,
                raw.len() == k,
                forall|t: int|
                    0 <= t < k ==> #[trigger] raw@[t] == self@.at(
                        (i + shape@.cell_of(t).0, j + shape@.cell_of(t).1),
                    ),
            decreases n - k,
        {
            let (x, y) = shape.coords(k);
            let v = match self.get(i + x, j + y) {
                Some(v) => v,
                None => false,
            };
            raw.push(v);
            k += 1;
        }
        let r = Grid { height, width, raw };
        proof {
            assert forall|x: int, y: int| #[trigger] r@.in_bounds((x, y)) implies r@.at((x, y))
                == self@.at((i + x, j + y)) by {
                lemma_offset(x, y, height as int, width as int);
            }
        }
        r
    }

    /// The grid as rows of space-separated `0`/`1` digits, one row per line.
    pub fn to_text(&self) -> (r: Vec<char>)
        requires
            self.wf(),
        ensures
            r@ == self@.text(),
    {
        let n = self.raw.len();
        let mut out: Vec<char> = Vec::new();
        let mut k: usize = 0;
        while k < n
            invariant
                self.wf(),
                n == self@.cells.len(),
                k <= n,
                out@ == self@.text_upto(k as nat),
            decreases n - k,
        {
            let (i, j) = self.coords(k);
            let ghost before = out@;
            if j != 0 {
                out.push(' ');
            } else if i != 0 {
                out.push('\n');
            }
            out.push(if self.raw[k] { '1' } else { '0' });
            proof {
                assert(out@ =~= before + self@.cell_text(k as int));
            }
            k += 1;
        }
        out
    }

    /// The grid as rows of space-separated `0`/`1` digits, one row per line.
    pub fn to_string(&self) -> (r: String)
        requires
            self.wf(),
        ensures
            r@ == self@.text(),
    {
        let chars = self.to_text();
        crate::text::string_of(&chars)
    }

    /// The cells in row-major order.
    pub fn raw(&self) -> (r: &[bool])
        ensures
            r@ == self@.cells,
    {
        self.raw.as_slice()
    }
}

} // verus!
