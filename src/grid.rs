use vstd::prelude::*;

use crate::types::{Coords, Id};

verus! {

/// Hands out object ids for one match, counting up from 1.
#[derive(Debug, Clone, Copy)]
pub struct IdGen {
    pub next: usize,
}

impl IdGen {
    pub fn new() -> (r: IdGen)
        ensures
            r.next == 1,
    {
        IdGen { next: 1 }
    }
}

/// Starts the id sequence of a new match again from 1.
pub fn reset_id(ids: &mut IdGen)
    ensures
        final(ids).next == 1,
{
    ids.next = 1;
}

/// The next id of the match; every id handed out is larger than the ones before.
pub fn new_id(ids: &mut IdGen) -> (r: Id)
    requires
        old(ids).next < usize::MAX,
    ensures
        r.0 == old(ids).next,
        final(ids).next == old(ids).next + 1,
{
    let r = Id(ids.next);
    ids.next = ids.next + 1;
    r
}

pub open spec fn in_bounds(c: Coords, size: nat) -> bool {
    c.0 < size && c.1 < size
}

/// Row-major position of a cell in the dense grid.
pub open spec fn cell_index(c: Coords, size: nat) -> int {
    c.1 * size + c.0
}

pub proof fn lemma_cell_index(c: Coords, size: nat)
    requires
        in_bounds(c, size),
    ensures
        0 <= cell_index(c, size) < size * size,
{
    assert(c.1 * size + c.0 < size * size) by (nonlinear_arith)
        requires
            c.1 < size,
            c.0 < size,
    ;
}

pub proof fn lemma_cell_index_injective(a: Coords, b: Coords, size: nat)
    requires
        in_bounds(a, size),
        in_bounds(b, size),
        a != b,
    ensures
        cell_index(a, size) != cell_index(b, size),
{
    if a.1 == b.1 {
    } else if a.1 < b.1 {
        assert(a.1 * size + a.0 < b.1 * size + b.0) by (nonlinear_arith)
            requires
                a.1 < b.1,
                a.0 < size,
        ;
    } else {
        assert(b.1 * size + b.0 < a.1 * size + a.0) by (nonlinear_arith)
            requires
                b.1 < a.1,
                b.0 < size,
        ;
    }
}

/// Which object stands on each cell of a square grid.
#[derive(Debug, Clone)]
pub struct GridMap {
    pub size: usize,
    pub cells: Vec<Option<Id>>,
}

impl GridMap {
    pub open spec fn wf(&self) -> bool {
        &&& self.cells@.len() == self.size * self.size
        &&& self.size < usize::MAX
    }

    /// The object on cell `c`; cells off the grid hold none.
    pub open spec fn at(&self, c: Coords) -> Option<Id> {
        if in_bounds(c, self.size as nat) {
            self.cells@[cell_index(c, self.size as nat)]
        } else {
            None
        }
    }

    /// An empty grid of side `size`.
    pub fn empty(size: usize) -> (r: GridMap)
        requires
            size * size <= usize::MAX,
            size < usize::MAX,
        ensures
            r.wf(),
            r.size == size,
            forall|c: Coords| r.at(c) is None,
    {
        let n: usize = size * size;
        let mut cells: Vec<Option<Id>> = Vec::new();
        let mut i: usize = 0;
        while i < n
            invariant
                i <= n,
                n == size * size,
                cells@.len() == i,
                forall|k: int| 0 <= k < i ==> cells@[k] is None,
            decreases n - i,
        {
            cells.push(None);
            i = i + 1;
        }
        let r = GridMap { size, cells };
        assert forall|c: Coords| r.at(c) is None by {
            if in_bounds(c, size as nat) {
                lemma_cell_index(c, size as nat);
            }
        }
        r
    }

    pub fn contains(&self, c: Coords) -> (r: bool)
        requires
            self.wf(),
        ensures
            r == self.at(c) is Some,
    {
        self.get(c).is_some()
    }

    pub fn get(&self, c: Coords) -> (r: Option<Id>)
        requires
            self.wf(),
        ensures
            r == self.at(c),
    {
        if c.0 < self.size && c.1 < self.size {
            proof {
                lemma_cell_index(c, self.size as nat);
            }
            let n = self.cells.len();
            assert(c.1 * self.size + c.0 < self.size * self.size && c.1 * self.size
                <= self.size * self.size) by (nonlinear_arith)
                requires
                    c.1 < self.size,
                    c.0 < self.size,
            ;
            self.cells[c.1 * self.size + c.0]
        } else {
            None
        }
    }

    /// Puts `v` on the cell `c`, leaving every other cell as it was.
    pub fn set(&mut self, c: Coords, v: Option<Id>)
        requires
            old(self).wf(),
            in_bounds(c, old(self).size as nat),
        ensures
            final(self).wf(),
            final(self).size == old(self).size,
            final(self).at(c) == v,
            forall|d: Coords| d != c ==> final(self).at(d) == old(self).at(d),
    {
        proof {
            lemma_cell_index(c, self.size as nat);
        }
        let n = self.cells.len();
        assert(c.1 * self.size + c.0 < self.size * self.size && c.1 * self.size <= self.size
            * self.size) by (nonlinear_arith)
            requires
                c.1 < self.size,
                c.0 < self.size,
        ;
        let k: usize = c.1 * self.size + c.0;
        self.cells.set(k, v);
        proof {
            assert forall|d: Coords| d != c implies self.at(d) == old(self).at(d) by {
                if in_bounds(d, self.size as nat) {
                    lemma_cell_index(d, self.size as nat);
                    lemma_cell_index_injective(c, d, self.size as nat);
                }
            }
        }
    }
}

/// `rows` is the grid `g` written out row by row: `rows[y][x]` holds what
/// stands on cell `(x, y)`.
pub open spec fn rows_match(g: GridMap, rows: Seq<Vec<Option<Id>>>) -> bool {
    &&& rows.len() == g.size
    &&& forall|y: int| 0 <= y < rows.len() ==> (#[trigger] rows[y])@.len() == g.size
    &&& forall|y: int, x: int|
        0 <= y < g.size && 0 <= x < g.size ==> (#[trigger] rows[y]@[x]) == g.at(Coords(x as usize, y as usize))
}

impl GridMap {
    /// The grid as rows, first row first, `None` for an empty cell.
    pub fn to_rows(&self) -> (r: Vec<Vec<Option<Id>>>)
        requires
            self.wf(),
        ensures
            rows_match(*self, r@),
    {
        let mut rows: Vec<Vec<Option<Id>>> = Vec::new();
        let mut y: usize = 0;
        while y < self.size
            invariant
                self.wf(),
                y <= self.size,
                rows@.len() == y,
                forall|k: int| 0 <= k < y ==> (#[trigger] rows@[k])@.len() == self.size,
                forall|k: int, x: int|
                    0 <= k < y && 0 <= x < self.size ==> (#[trigger] rows@[k]@[x]) == self.at(Coords(x as usize, k as usize)),
            decreases self.size - y,
        {
            let mut row: Vec<Option<Id>> = Vec::new();
            let mut x: usize = 0;
            while x < self.size
                invariant
                    self.wf(),
                    y < self.size,
                    x <= self.size,
                    row@.len() == x,
                    forall|j: int| 0 <= j < x ==> (#[trigger] row@[j]) == self.at(Coords(j as usize, y)),
                decreases self.size - x,
            {
                row.push(self.get(Coords(x, y)));
                x = x + 1;
            }
            rows.push(row);
            y = y + 1;
        }
        rows
    }

    /// The grid of side `size` written out as `rows`.
    pub fn from_rows(rows: &Vec<Vec<Option<Id>>>, size: usize) -> (r: GridMap)
        requires
            size * size <= usize::MAX,
            size < usize::MAX,
            rows@.len() == size,
            forall|y: int| 0 <= y < size ==> (#[trigger] rows@[y])@.len() == size,
        ensures
            r.wf(),
            rows_match(r, rows@),
    {
        let mut g = GridMap::empty(size);
        let mut y: usize = 0;
        while y < size
            invariant
                g.wf(),
                g.size == size,
                y <= size,
                rows@.len() == size,
                forall|k: int| 0 <= k < size ==> (#[trigger] rows@[k])@.len() == size,
                forall|k: int, x: int|
                    0 <= k < y && 0 <= x < size ==> (#[trigger] rows@[k]@[x]) == g.at(Coords(x as usize, k as usize)),
                forall|c: Coords| c.1 >= y ==> #[trigger] g.at(c) is None,
            decreases size - y,
        {
            let mut x: usize = 0;
            while x < size
                invariant
                    g.wf(),
                    g.size == size,
                    y < size,
                    x <= size,
                    rows@.len() == size,
                    forall|k: int| 0 <= k < size ==> (#[trigger] rows@[k])@.len() == size,
                    forall|k: int, j: int|
                        0 <= k < y && 0 <= j < size ==> (#[trigger] rows@[k]@[j]) == g.at(Coords(j as usize, k as usize)),
                    forall|j: int| 0 <= j < x ==> (#[trigger] rows@[y as int]@[j]) == g.at(Coords(j as usize, y)),
                    forall|c: Coords| (c.1 > y || (c.1 == y && c.0 >= x)) ==> #[trigger] g.at(c) is None,
                decreases size - x,
            {
                let v = rows[y][x];
                g.set(Coords(x, y), v);
                x = x + 1;
            }
            y = y + 1;
        }
        g
    }
}

/// Writing a grid out as rows and reading it back gives the same grid.
pub proof fn lemma_rows_round_trip(g: GridMap, rows: Seq<Vec<Option<Id>>>, h: GridMap)
    requires
        rows_match(g, rows),
        rows_match(h, rows),
    ensures
        forall|c: Coords| #[trigger] h.at(c) == g.at(c),
{
    assert forall|c: Coords| #[trigger] h.at(c) == g.at(c) by {
        if in_bounds(c, g.size as nat) {
            assert(rows[c.1 as int]@[c.0 as int] == g.at(Coords(c.0, c.1)));
        }
    }
}

} // verus!
