//! The grid of cells that makes up a maze.

use vstd::prelude::*;

pub mod cell;
pub mod cell_edge;
pub mod coordinates;
pub mod direction;

use crate::maze::cell::Cell;
use crate::maze::cell_edge::CellEdge;
use crate::maze::coordinates::Coordinates;
use crate::maze::direction::Direction;

verus! {

/// A maze: a grid of `columns` by `rows` addresses, each holding a cell or nothing yet.
/// Cells are stored row by row.
#[derive(Debug)]
pub struct Maze {
    columns: u32,
    rows: u32,
    cells: Vec<Option<Cell>>,
}

/// The position one step from `p` in direction `d`.
pub open spec fn step_from(p: (int, int), d: Direction) -> (int, int) {
    (p.0 + d.step().0, p.1 + d.step().1)
}

/// A step and the step back in the opposite direction return to the start, and steps
/// in different directions lead to different places, none of them the start.
pub proof fn lemma_steps(p: (int, int))
    ensures
        forall|d: Direction| #[trigger] step_from(step_from(p, d), d.reversed()) == p,
        forall|d: Direction| #[trigger] step_from(p, d) != p,
        forall|d: Direction| #[trigger] d.reversed().reversed() == d,
        forall|d1: Direction, d2: Direction|
            #[trigger] step_from(p, d1) == #[trigger] step_from(p, d2) ==> d1 == d2,
{
    assert forall|d1: Direction, d2: Direction|
        #[trigger] step_from(p, d1) == #[trigger] step_from(p, d2) implies d1 == d2 by {
        match d1 {
            Direction::North => {},
            Direction::East => {},
            Direction::South => {},
            Direction::West => {},
        }
    }
    assert forall|d: Direction| #[trigger] step_from(step_from(p, d), d.reversed()) == p by {
        match d {
            Direction::North => {},
            Direction::East => {},
            Direction::South => {},
            Direction::West => {},
        }
    }
}

/// A sum over slots that are all empty is zero, for a function that is zero on them.
pub proof fn lemma_all_empty(s: Seq<Option<Cell>>, f: spec_fn(Option<Cell>) -> nat)
    requires
        f(None) == 0,
        forall|i: int| 0 <= i < s.len() ==> (#[trigger] s[i]) is None,
    ensures
        sum_slots(s, f) == 0,
    decreases s.len(),
{
    if s.len() > 0 {
        assert(s.last() == s[s.len() - 1]);
        lemma_all_empty(s.drop_last(), f);
    }
}

/// The number of `d` among the four edges of what a slot holds that are in state `e`.
pub open spec fn edges_in_state(o: Option<Cell>, e: CellEdge) -> nat {
    match o {
        None => 0,
        Some(c) => (if c.edge_at(Direction::North) == Some(e) {
            1nat
        } else {
            0nat
        }) + (if c.edge_at(Direction::East) == Some(e) {
            1nat
        } else {
            0nat
        }) + (if c.edge_at(Direction::South) == Some(e) {
            1nat
        } else {
            0nat
        }) + (if c.edge_at(Direction::West) == Some(e) {
            1nat
        } else {
            0nat
        }),
    }
}

/// 1 for a slot that holds a cell, 0 for an empty one.
pub open spec fn occupied(o: Option<Cell>) -> nat {
    if o is Some {
        1
    } else {
        0
    }
}

/// Counts the sides of a slot's cell that are in state `e`.
pub open spec fn edge_counter(e: CellEdge) -> spec_fn(Option<Cell>) -> nat {
    |o: Option<Cell>| edges_in_state(o, e)
}

/// Counts a slot that holds a cell.
pub open spec fn cell_counter() -> spec_fn(Option<Cell>) -> nat {
    |o: Option<Cell>| occupied(o)
}

/// The sum of `f` over the slots of `s`.
pub open spec fn sum_slots(s: Seq<Option<Cell>>, f: spec_fn(Option<Cell>) -> nat) -> nat
    decreases s.len(),
{
    if s.len() == 0 {
        0
    } else {
        sum_slots(s.drop_last(), f) + f(s.last())
    }
}

/// Replacing one slot changes a sum by the difference of the two values.
pub proof fn lemma_sum_update(
    s: Seq<Option<Cell>>,
    f: spec_fn(Option<Cell>) -> nat,
    i: int,
    x: Option<Cell>,
)
    requires
        0 <= i < s.len(),
    ensures
        sum_slots(s.update(i, x), f) + f(s[i]) == sum_slots(s, f) + f(x),
    decreases s.len(),
{
    let t = s.update(i, x);
    if i == s.len() - 1 {
        assert(t.drop_last() =~= s.drop_last());
    } else {
        assert(t.drop_last() =~= s.drop_last().update(i, x));
        lemma_sum_update(s.drop_last(), f, i, x);
    }
}

/// Counting occupied slots where every slot is occupied gives the length.
pub proof fn lemma_all_occupied(s: Seq<Option<Cell>>)
    requires
        forall|i: int| 0 <= i < s.len() ==> (#[trigger] s[i]) is Some,
    ensures
        sum_slots(s, cell_counter()) == s.len(),
    decreases s.len(),
{
    if s.len() > 0 {
        assert(s.last() == s[s.len() - 1]);
        lemma_all_occupied(s.drop_last());
    }
}

impl Maze {
    /// The edge at `p` in direction `d` agrees with what lies beyond it: nothing but a
    /// border (or nothing yet) faces the outside, nothing is assigned towards an empty
    /// address, and two cells that face each other show the same non-border state.
    pub open spec fn edge_agrees(self, p: (int, int), d: Direction) -> bool {
        match self.cell_at(p) {
            None => true,
            Some(c) => {
                let q = step_from(p, d);
                let e = c.edge_at(d);
                if !self.in_grid(q) {
                    e is None || e == Some(CellEdge::Border)
                } else {
                    match self.cell_at(q) {
                        None => e is None,
                        Some(n) => e == n.edge_at(d.reversed()) && e != Some(CellEdge::Border),
                    }
                }
            },
        }
    }

    /// Every edge of every cell agrees with what lies beyond it.
    pub open spec fn edges_agree(self) -> bool {
        forall|p: (int, int), d: Direction|
            self.in_grid(p) ==> #[trigger] self.edge_agrees(p, d)
    }

    /// Every address holds a cell, and every cell has all four edges assigned.
    pub open spec fn complete(self) -> bool {
        forall|p: (int, int)|
            self.in_grid(p) ==> (#[trigger] self.cell_at(p)) is Some && self.cell_at(
                p,
            ).unwrap().fully_assigned()
    }

    /// The edge of the cell at `p` in direction `d`.
    pub open spec fn edge_from(self, p: (int, int), d: Direction) -> Option<CellEdge> {
        self.cell_at(p).unwrap().edge_at(d)
    }

    /// A passage leads from the cell at `p` to position `q`.
    pub open spec fn linked(self, p: (int, int), q: (int, int)) -> bool {
        &&& self.in_grid(p)
        &&& self.cell_at(p) is Some
        &&& exists|d: Direction|
            q == step_from(p, d) && #[trigger] self.edge_from(p, d) == Some(CellEdge::Passage)
    }

    /// `path` is a non-empty walk through the grid along passages.
    pub open spec fn is_path(self, path: Seq<(int, int)>) -> bool {
        &&& path.len() >= 1
        &&& forall|i: int| 0 <= i < path.len() ==> self.in_grid(#[trigger] path[i])
        &&& forall|i: int|
            0 <= i < path.len() - 1 ==> #[trigger] self.linked(path[i], path[i + 1])
    }

    /// There is a walk along passages from `p` to `q`.
    pub open spec fn reachable(self, p: (int, int), q: (int, int)) -> bool {
        exists|path: Seq<(int, int)>|
            #![trigger self.is_path(path)]
            self.is_path(path) && path[0] == p && path.last() == q
    }

    /// Every address can be reached from every other along passages.
    pub open spec fn connected(self) -> bool {
        forall|p: (int, int), q: (int, int)|
            #![trigger self.in_grid(p), self.in_grid(q)]
            self.in_grid(p) && self.in_grid(q) ==> self.reachable(p, q)
    }

    /// `c` is a cycle: at least three distinct positions, each joined by a passage to the
    /// next, and the last to the first.
    pub open spec fn is_cycle(self, c: Seq<(int, int)>) -> bool {
        &&& c.len() >= 3
        &&& forall|i: int, j: int| 0 <= i < j < c.len() ==> #[trigger] c[i] != #[trigger] c[j]
        &&& forall|i: int| 0 <= i < c.len() ==> #[trigger] self.linked(c[i], c[(i + 1) % (c.len() as int)])
    }

    /// No walk along passages leads round a cycle.
    pub open spec fn acyclic(self) -> bool {
        forall|c: Seq<(int, int)>| !#[trigger] self.is_cycle(c)
    }

    /// The number of cell sides in the given state, over the whole grid.
    pub open spec fn count_edges(self, e: CellEdge) -> nat {
        sum_slots(self.slots(), edge_counter(e))
    }

    /// The number of addresses that hold a cell.
    pub open spec fn count_cells(self) -> nat {
        sum_slots(self.slots(), cell_counter())
    }

    /// The number of columns.
    pub closed spec fn width(self) -> nat {
        self.columns as nat
    }

    /// The number of rows.
    pub closed spec fn height(self) -> nat {
        self.rows as nat
    }

    /// What each address holds, row by row.
    pub closed spec fn slots(self) -> Seq<Option<Cell>> {
        self.cells@
    }

    /// The position `p` (column, row) lies inside the grid.
    pub open spec fn in_grid(self, p: (int, int)) -> bool {
        0 <= p.0 < self.width() && 0 <= p.1 < self.height()
    }

    /// The place in `slots` of position `p`.
    pub open spec fn index_of(self, p: (int, int)) -> int {
        p.1 * self.width() + p.0
    }

    /// The position stored at place `i` of `slots`.
    pub open spec fn position_of(self, i: int) -> (int, int) {
        (i % (self.width() as int), i / (self.width() as int))
    }

    /// What the address at position `p` holds.
    pub open spec fn cell_at(self, p: (int, int)) -> Option<Cell> {
        self.slots()[self.index_of(p)]
    }

    /// The maze has one slot per address, and each cell is stored at its own coordinates.
    pub open spec fn wf(self) -> bool {
        &&& self.width() * self.height() <= u32::MAX
        &&& self.slots().len() == self.width() * self.height()
        &&& forall|i: int|
            0 <= i < self.slots().len() && (#[trigger] self.slots()[i]) is Some ==> {
                let p = self.slots()[i].unwrap().location()@;
                self.in_grid(p) && self.index_of(p) == i
            }
    }

    /// Positions inside the grid and places of `slots` correspond one to one.
    pub proof fn lemma_index(self)
        ensures
            forall|p: (int, int)|
                self.in_grid(p) ==> 0 <= #[trigger] self.index_of(p) < self.width()
                    * self.height() && self.position_of(self.index_of(p)) == p,
            forall|i: int|
                0 <= i < self.width() * self.height() ==> self.in_grid(
                    #[trigger] self.position_of(i),
                ) && self.index_of(self.position_of(i)) == i,
    {
        let w = self.width() as int;
        let h = self.height() as int;
        assert forall|p: (int, int)| self.in_grid(p) implies 0 <= #[trigger] self.index_of(p) < w
            * h && self.position_of(self.index_of(p)) == p by {
            let (c, r) = p;
            assert(0 <= r * w + c < w * h) by (nonlinear_arith)
                requires
                    0 <= c < w,
                    0 <= r < h,
            ;
            assert((r * w + c) % w == c && (r * w + c) / w == r) by (nonlinear_arith)
                requires
                    0 <= c < w,
                    0 <= r,
            ;
        }
        assert forall|i: int| 0 <= i < w * h implies self.in_grid(#[trigger] self.position_of(i))
            && self.index_of(self.position_of(i)) == i by {
            assert(w > 0) by (nonlinear_arith)
                requires
                    0 <= i < w * h,
                    w >= 0,
                    h >= 0,
            ;
            assert(0 <= i % w < w && 0 <= i / w < h && (i / w) * w + i % w == i) by (nonlinear_arith)
                requires
                    0 <= i < w * h,
                    w > 0,
            ;
        }
    }

    /// Creates a maze of the given size in which no address holds a cell.
    pub fn new(columns: u32, rows: u32) -> (r: Maze)
        requires
            columns * rows <= u32::MAX,
        ensures
            r.wf(),
            r.width() == columns,
            r.height() == rows,
            forall|i: int| 0 <= i < r.slots().len() ==> (#[trigger] r.slots()[i]) is None,
    {
        let count = columns * rows;
        let mut cells: Vec<Option<Cell>> = Vec::new();
        let mut i: u32 = 0;
        while i < count
            invariant
                i <= count,
                cells@.len() == i,
                forall|j: int| 0 <= j < cells@.len() ==> (#[trigger] cells@[j]) is None,
            decreases count - i,
        {
            cells.push(None);
            i = i + 1;
        }
        Maze { columns, rows, cells }
    }

    /// Returns the number of columns.
    pub fn columns(&self) -> (r: u32)
        ensures
            r == self.width(),
    {
        self.columns
    }

    /// Returns the number of rows.
    pub fn rows(&self) -> (r: u32)
        ensures
            r == self.height(),
    {
        self.rows
    }

    /// Returns the place in the cell storage of the given coordinates.
    fn get_index(&self, coordinates: &Coordinates) -> (r: usize)
        requires
            self.wf(),
            self.in_grid(coordinates@),
        ensures
            r == self.index_of(coordinates@),
            r < self.slots().len(),
    {
        proof {
            self.lemma_index();
        }
        let row = coordinates.row() as u32;
        let column = coordinates.column() as u32;
        assert(row * self.columns + column <= u32::MAX) by (nonlinear_arith)
            requires
                row < self.rows,
                column < self.columns,
                self.columns * self.rows <= u32::MAX,
        ;
        (row * self.columns + column) as usize
    }

    /// Returns what the address at the given coordinates holds.
    pub fn cell(&self, coordinates: &Coordinates) -> (r: Option<Cell>)
        requires
            self.wf(),
            self.in_grid(coordinates@),
        ensures
            r == self.cell_at(coordinates@),
    {
        let index = self.get_index(coordinates);
        self.cells[index]
    }

    /// Stores the given cell at its own coordinates, replacing what was there.
    pub fn set_cell(&mut self, cell: Cell)
        requires
            old(self).wf(),
            old(self).in_grid(cell.location()@),
        ensures
            final(self).wf(),
            final(self).width() == old(self).width(),
            final(self).height() == old(self).height(),
            final(self).slots() == old(self).slots().update(
                old(self).index_of(cell.location()@),
                Some(cell),
            ),
            forall|p: (int, int)|
                #![trigger final(self).cell_at(p)]
                old(self).in_grid(p) ==> final(self).cell_at(p) == if p == cell.location()@ {
                    Some(cell)
                } else {
                    old(self).cell_at(p)
                },
    {
        proof {
            self.lemma_index();
        }
        let index = self.get_index(&cell.coordinates());
        self.cells.set(index, Some(cell));
    }

    /// Returns true when the given coordinates lie inside the maze.
    pub fn in_bounds(&self, coordinates: &Coordinates) -> (r: bool)
        ensures
            r == self.in_grid(coordinates@),
    {
        let row = coordinates.row();
        let column = coordinates.column();
        0 <= row && (row as u32) < self.rows && 0 <= column && (column as u32) < self.columns
    }

    /// Returns what each address holds, row by row; the maze is left as it is.
    pub fn cells(&self) -> (r: Vec<Option<Cell>>)
        ensures
            r@ == self.slots(),
    {
        let mut out: Vec<Option<Cell>> = Vec::new();
        let mut i: usize = 0;
        while i < self.cells.len()
            invariant
                i <= self.cells@.len(),
                out@ == self.cells@.subrange(0, i as int),
            decreases self.cells@.len() - i,
        {
            out.push(self.cells[i]);
            i = i + 1;
            assert(out@ =~= self.cells@.subrange(0, i as int));
        }
        assert(out@ =~= self.cells@);
        out
    }
}


/// The number of unit steps between `p` and `q` along the grid.
pub open spec fn grid_distance(p: (int, int), q: (int, int)) -> nat {
    ((if p.0 >= q.0 {
        p.0 - q.0
    } else {
        q.0 - p.0
    }) + (if p.1 >= q.1 {
        p.1 - q.1
    } else {
        q.1 - p.1
    })) as nat
}

impl Maze {
    /// In a complete maze whose edges agree, a passage or a wall leads to a cell whose
    /// edge facing back is the same, and an edge is a border exactly when no address lies
    /// beyond it.
    pub proof fn lemma_edge_symmetry(self, p: (int, int), d: Direction)
        requires
            self.complete(),
            self.edges_agree(),
            self.in_grid(p),
        ensures
            self.edge_from(p, d) == Some(CellEdge::Passage) ==> self.in_grid(step_from(p, d))
                && self.edge_from(step_from(p, d), d.reversed()) == Some(CellEdge::Passage),
            self.edge_from(p, d) == Some(CellEdge::Wall) ==> self.in_grid(step_from(p, d))
                && self.edge_from(step_from(p, d), d.reversed()) == Some(CellEdge::Wall),
            self.edge_from(p, d) == Some(CellEdge::Border) <==> !self.in_grid(step_from(p, d)),
    {
        assert(self.edge_agrees(p, d));
        assert(self.cell_at(p).unwrap().fully_assigned());
        match d {
            Direction::North => {},
            Direction::East => {},
            Direction::South => {},
            Direction::West => {},
        }
    }

    /// When edges agree and every cell has all its edges assigned, every address is
    /// filled as soon as one is: an assigned edge towards an address means a cell there.
    pub proof fn lemma_fill(self, root: (int, int), p: (int, int))
        requires
            self.edges_agree(),
            self.in_grid(root),
            self.cell_at(root) is Some,
            forall|x: (int, int)|
                self.in_grid(x) && (#[trigger] self.cell_at(x)) is Some ==> self.cell_at(
                    x,
                ).unwrap().fully_assigned(),
            self.in_grid(p),
        ensures
            self.cell_at(p) is Some,
        decreases grid_distance(p, root),
    {
        if p != root {
            let d = if p.0 > root.0 {
                Direction::West
            } else if p.0 < root.0 {
                Direction::East
            } else if p.1 > root.1 {
                Direction::South
            } else {
                Direction::North
            };
            let p2 = step_from(p, d);
            self.lemma_fill(root, p2);
            lemma_steps(p2);
            lemma_steps(p);
            assert(step_from(p2, d.reversed()) == p);
            assert(self.edge_agrees(p2, d.reversed()));
            assert(self.cell_at(p2).unwrap().edge_at(d.reversed()) is Some);
        }
    }

    /// Passages lead both ways.
    pub proof fn lemma_linked_back(self, p: (int, int), q: (int, int))
        requires
            self.edges_agree(),
            self.linked(p, q),
        ensures
            self.linked(q, p),
    {
        let d = choose|d: Direction|
            q == step_from(p, d) && #[trigger] self.edge_from(p, d) == Some(CellEdge::Passage);
        lemma_steps(p);
        assert(self.edge_agrees(p, d));
        assert(step_from(q, d.reversed()) == p);
        assert(self.edge_from(q, d.reversed()) == Some(CellEdge::Passage));
    }

    /// A path walked backwards is a path.
    pub proof fn lemma_reverse_path(self, path: Seq<(int, int)>)
        requires
            self.edges_agree(),
            self.is_path(path),
        ensures
            self.is_path(path.reverse()),
            path.reverse()[0] == path.last(),
            path.reverse().last() == path[0],
    {
        let r = path.reverse();
        let n = path.len();
        assert forall|i: int| 0 <= i < r.len() implies self.in_grid(#[trigger] r[i]) by {
            assert(r[i] == path[n - 1 - i]);
        }
        assert forall|i: int| 0 <= i < r.len() - 1 implies #[trigger] self.linked(r[i], r[i + 1]) by {
            assert(r[i] == path[n - 1 - i]);
            assert(r[i + 1] == path[n - 2 - i]);
            assert(self.linked(path[n - 2 - i], path[(n - 2 - i) + 1]));
            self.lemma_linked_back(path[n - 2 - i], path[n - 1 - i]);
        }
    }

    /// A path followed by a path that starts where the first ends is a path.
    pub proof fn lemma_join_paths(self, a: Seq<(int, int)>, b: Seq<(int, int)>)
        requires
            self.is_path(a),
            self.is_path(b),
            a.last() == b[0],
        ensures
            self.is_path(a + b.drop_first()),
            (a + b.drop_first())[0] == a[0],
            (a + b.drop_first()).last() == b.last(),
    {
        let j = a + b.drop_first();
        let n = a.len();
        assert forall|i: int| 0 <= i < j.len() implies self.in_grid(#[trigger] j[i]) by {
            if i >= n {
                assert(j[i] == b[i - n + 1]);
            }
        }
        assert forall|i: int| 0 <= i < j.len() - 1 implies #[trigger] self.linked(j[i], j[i + 1]) by {
            if i < n - 1 {
                assert(j[i] == a[i] && j[i + 1] == a[i + 1]);
            } else if i == n - 1 {
                assert(j[i] == b[0] && j[i + 1] == b[1]);
                assert(self.linked(b[0], b[0int + 1]));
            } else {
                assert(j[i] == b[i - n + 1] && j[i + 1] == b[i - n + 2]);
                assert(self.linked(b[i - n + 1], b[(i - n + 1) + 1]));
            }
        }
        if b.len() > 1 {
            assert(j.last() == b[b.len() - 1]);
        }
    }
}

} // verus!
