//! Maze generation by a randomised depth-first walk with backtracking.

use vstd::prelude::*;

use crate::maze::cell::Cell;
use crate::maze::cell_edge::CellEdge;
use crate::maze::coordinates::{lemma_add_view, sum_fits, Coordinates};
use crate::maze::direction::Direction;
use crate::maze::{
    cell_counter, edge_counter, edges_in_state, lemma_all_empty, lemma_all_occupied, lemma_steps,
    lemma_sum_update, step_from, sum_slots, Maze,
};
use crate::random::random_below;
use vstd::arithmetic::div_mod::{lemma_mod_self_0, lemma_small_mod};

verus! {

/// The work still pending in a slot: every empty address costs more than any cell.
spec fn pending(o: Option<Cell>) -> nat {
    match o {
        None => 5,
        Some(c) => c.open_directions().len(),
    }
}

/// Setting the unassigned edge between the cell at `p` and the address beyond it in
/// direction `d` to the same interior state on both sides (creating the cell beyond,
/// with nothing else assigned, if there was none) keeps all edges in agreement.
proof fn lemma_link_keeps_agreement(
    m0: Maze,
    m1: Maze,
    p: (int, int),
    d: Direction,
    t1: Cell,
    n1: Cell,
    e: CellEdge,
)
    requires
        m0.wf(),
        m0.edges_agree(),
        m1.width() == m0.width(),
        m1.height() == m0.height(),
        m0.in_grid(p),
        m0.cell_at(p) is Some,
        m0.cell_at(p).unwrap().edge_at(d) is None,
        m0.in_grid(step_from(p, d)),
        e != CellEdge::Border,
        t1.edge_at(d) == Some(e),
        forall|d2: Direction|
            d2 != d ==> #[trigger] t1.edge_at(d2) == m0.cell_at(p).unwrap().edge_at(d2),
        n1.edge_at(d.reversed()) == Some(e),
        forall|d2: Direction|
            d2 != d.reversed() ==> #[trigger] n1.edge_at(d2) == if m0.cell_at(
                step_from(p, d),
            ) is Some {
                m0.cell_at(step_from(p, d)).unwrap().edge_at(d2)
            } else {
                None
            },
        forall|x: (int, int)|
            #![trigger m1.cell_at(x)]
            m0.in_grid(x) ==> m1.cell_at(x) == if x == step_from(p, d) {
                Some(n1)
            } else if x == p {
                Some(t1)
            } else {
                m0.cell_at(x)
            },
    ensures
        m1.edges_agree(),
{
    let q = step_from(p, d);
    lemma_steps(p);
    lemma_steps(q);
    assert forall|x: (int, int), e2: Direction| m1.in_grid(x) implies #[trigger] m1.edge_agrees(
        x,
        e2,
    ) by {
        lemma_steps(x);
        let r = step_from(x, e2);
        assert(m0.edge_agrees(x, e2));
        if m0.in_grid(r) {
            lemma_steps(r);
            assert(m0.edge_agrees(r, e2.reversed()));
            assert(m1.cell_at(r) == m1.cell_at(r));
        }
        if x == p {
        } else if x == q {
        } else {
        }
    }
}

/// Setting the unassigned edge of the cell at `p` in direction `d`, which faces the
/// outside of the grid, to a border keeps all edges in agreement.
proof fn lemma_border_keeps_agreement(m0: Maze, m1: Maze, p: (int, int), d: Direction, t1: Cell)
    requires
        m0.wf(),
        m0.edges_agree(),
        m1.width() == m0.width(),
        m1.height() == m0.height(),
        m0.in_grid(p),
        m0.cell_at(p) is Some,
        !m0.in_grid(step_from(p, d)),
        t1.edge_at(d) == Some(CellEdge::Border),
        forall|d2: Direction|
            d2 != d ==> #[trigger] t1.edge_at(d2) == m0.cell_at(p).unwrap().edge_at(d2),
        forall|x: (int, int)|
            #![trigger m1.cell_at(x)]
            m0.in_grid(x) ==> m1.cell_at(x) == if x == p {
                Some(t1)
            } else {
                m0.cell_at(x)
            },
    ensures
        m1.edges_agree(),
{
    lemma_steps(p);
    assert forall|x: (int, int), e2: Direction| m1.in_grid(x) implies #[trigger] m1.edge_agrees(
        x,
        e2,
    ) by {
        lemma_steps(x);
        let r = step_from(x, e2);
        assert(m0.edge_agrees(x, e2));
        if m0.in_grid(r) {
            lemma_steps(r);
            assert(m1.cell_at(r) == m1.cell_at(r));
        }
    }
}

/// Assigning one unassigned edge of a cell leaves one direction fewer pending, and adds
/// one side in the assigned state.
proof fn lemma_assign_counts(c0: Cell, c1: Cell, d: Direction, e: CellEdge)
    requires
        c0.edge_at(d) is None,
        c1.edge_at(d) == Some(e),
        forall|d2: Direction| d2 != d ==> #[trigger] c1.edge_at(d2) == c0.edge_at(d2),
    ensures
        pending(Some(c1)) + 1 == pending(Some(c0)),
        forall|e2: CellEdge|
            #[trigger] edges_in_state(Some(c1), e2) == edges_in_state(Some(c0), e2) + if e2
                == e {
                1nat
            } else {
                0nat
            },
{
    c0.lemma_open_count();
    c1.lemma_open_count();
    assert(c1.edge_at(Direction::North) == c0.edge_at(Direction::North) || d == Direction::North);
    assert(c1.edge_at(Direction::East) == c0.edge_at(Direction::East) || d == Direction::East);
    assert(c1.edge_at(Direction::South) == c0.edge_at(Direction::South) || d == Direction::South);
    assert(c1.edge_at(Direction::West) == c0.edge_at(Direction::West) || d == Direction::West);
}

/// Counts the directions still pending in a slot.
spec fn pending_counter() -> spec_fn(Option<Cell>) -> nat {
    |o: Option<Cell>| pending(o)
}

/// Every active cell is stored in `m`, and every stored cell with an unassigned edge is
/// active.
#[verifier::opaque]
spec fn tracks(m: Maze, stack: Seq<Coordinates>) -> bool {
    &&& forall|j: int|
        0 <= j < stack.len() ==> m.in_grid(#[trigger] stack[j]@) && m.cell_at(stack[j]@) is Some
    &&& forall|p: (int, int)|
        m.in_grid(p) && (#[trigger] m.cell_at(p)) is Some && !m.cell_at(
            p,
        ).unwrap().fully_assigned() ==> exists|j: int| 0 <= j < stack.len() && #[trigger] stack[j]@ == p
}

/// The passages of `m` number one fewer than its cells, each counted from both sides.
#[verifier::opaque]
spec fn counted(m: Maze) -> bool {
    &&& m.count_cells() >= 1
    &&& m.count_edges(CellEdge::Passage) == 2 * (m.count_cells() - 1)
}

/// Assigning the unassigned edge `d` of the cell in slot `i` to `e` keeps the number of
/// cells, adds a passage side when `e` is a passage, and leaves one direction fewer
/// pending.
proof fn lemma_assign_in_slots(
    sl: Seq<Option<Cell>>,
    i: int,
    c0: Cell,
    c1: Cell,
    d: Direction,
    e: CellEdge,
)
    requires
        0 <= i < sl.len(),
        sl[i] == Some(c0),
        c0.edge_at(d) is None,
        c1.edge_at(d) == Some(e),
        forall|d2: Direction| d2 != d ==> #[trigger] c1.edge_at(d2) == c0.edge_at(d2),
    ensures
        sum_slots(sl.update(i, Some(c1)), cell_counter()) == sum_slots(sl, cell_counter()),
        sum_slots(sl.update(i, Some(c1)), edge_counter(CellEdge::Passage)) == sum_slots(
            sl,
            edge_counter(CellEdge::Passage),
        ) + if e == CellEdge::Passage {
            1nat
        } else {
            0nat
        },
        sum_slots(sl.update(i, Some(c1)), pending_counter()) + 1 == sum_slots(
            sl,
            pending_counter(),
        ),
{
    lemma_assign_counts(c0, c1, d, e);
    lemma_sum_update(sl, cell_counter(), i, Some(c1));
    lemma_sum_update(sl, edge_counter(CellEdge::Passage), i, Some(c1));
    lemma_sum_update(sl, pending_counter(), i, Some(c1));
}

/// Storing a cell with no assigned edge in the empty slot `i` adds a cell, no passage
/// side, and leaves less pending.
proof fn lemma_new_cell_in_slots(sl: Seq<Option<Cell>>, i: int, n0: Cell)
    requires
        0 <= i < sl.len(),
        sl[i] is None,
        forall|d2: Direction| (#[trigger] n0.edge_at(d2)) is None,
    ensures
        sum_slots(sl.update(i, Some(n0)), cell_counter()) == sum_slots(sl, cell_counter()) + 1,
        sum_slots(sl.update(i, Some(n0)), edge_counter(CellEdge::Passage)) == sum_slots(
            sl,
            edge_counter(CellEdge::Passage),
        ),
        sum_slots(sl.update(i, Some(n0)), pending_counter()) + 1 == sum_slots(
            sl,
            pending_counter(),
        ),
{
    n0.lemma_open_count();
    assert(n0.edge_at(Direction::North) is None);
    assert(n0.edge_at(Direction::East) is None);
    assert(n0.edge_at(Direction::South) is None);
    assert(n0.edge_at(Direction::West) is None);
    lemma_sum_update(sl, cell_counter(), i, Some(n0));
    lemma_sum_update(sl, edge_counter(CellEdge::Passage), i, Some(n0));
    lemma_sum_update(sl, pending_counter(), i, Some(n0));
}

/// The stack still tracks the active cells when no cell is removed and only the cell at
/// the top, `p`, may have gained unassigned edges among cells that had none.
proof fn lemma_tracks_same(m0: Maze, m1: Maze, s: Seq<Coordinates>, p: (int, int))
    requires
        tracks(m0, s),
        s.len() > 0,
        s.last()@ == p,
        m1.width() == m0.width(),
        m1.height() == m0.height(),
        forall|x: (int, int)|
            m0.in_grid(x) && #[trigger] m0.cell_at(x) is Some ==> m1.cell_at(x) is Some,
        forall|x: (int, int)|
            m0.in_grid(x) && x != p && (#[trigger] m1.cell_at(x)) is Some && !m1.cell_at(
                x,
            ).unwrap().fully_assigned() ==> m0.cell_at(x) is Some && !m0.cell_at(
                x,
            ).unwrap().fully_assigned(),
    ensures
        tracks(m1, s),
{
    reveal(tracks);
    assert forall|x: (int, int)|
        m1.in_grid(x) && (#[trigger] m1.cell_at(x)) is Some && !m1.cell_at(
            x,
        ).unwrap().fully_assigned() implies exists|j: int| 0 <= j < s.len() && #[trigger] s[j]@ == x by {
        if x == p {
            assert(s[s.len() - 1]@ == x);
        } else {
            assert(m0.cell_at(x) is Some);
        }
    }
    assert forall|j: int| 0 <= j < s.len() implies m1.in_grid(#[trigger] s[j]@) && m1.cell_at(
        s[j]@,
    ) is Some by {
        assert(m0.in_grid(s[j]@));
    }
}

/// The stack with the new cell `q` pushed tracks the active cells when no cell is
/// removed and only `p` and `q` may be stored cells with unassigned edges that were not
/// before.
proof fn lemma_tracks_push(
    m0: Maze,
    m1: Maze,
    s0: Seq<Coordinates>,
    s1: Seq<Coordinates>,
    p: (int, int),
    q: (int, int),
)
    requires
        tracks(m0, s0),
        s0.len() > 0,
        s0.last()@ == p,
        s1.len() == s0.len() + 1,
        s1.drop_last() == s0,
        s1.last()@ == q,
        m0.in_grid(q),
        m1.cell_at(q) is Some,
        m1.width() == m0.width(),
        m1.height() == m0.height(),
        forall|x: (int, int)|
            m0.in_grid(x) && #[trigger] m0.cell_at(x) is Some ==> m1.cell_at(x) is Some,
        forall|x: (int, int)|
            m0.in_grid(x) && x != p && x != q && (#[trigger] m1.cell_at(x)) is Some
                && !m1.cell_at(x).unwrap().fully_assigned() ==> m0.cell_at(x) is Some
                && !m0.cell_at(x).unwrap().fully_assigned(),
    ensures
        tracks(m1, s1),
{
    reveal(tracks);
    assert forall|x: (int, int)|
        m1.in_grid(x) && (#[trigger] m1.cell_at(x)) is Some && !m1.cell_at(
            x,
        ).unwrap().fully_assigned() implies exists|j: int| 0 <= j < s1.len() && #[trigger] s1[j]@ == x by {
        if x == p {
            assert(s1[s0.len() - 1] == s0[s0.len() - 1]);
        } else if x == q {
            assert(s1[s0.len() as int]@ == x);
        } else {
            assert(m0.cell_at(x) is Some);
            let j = choose|j: int| 0 <= j < s0.len() && #[trigger] s0[j]@ == x;
            assert(s1[j] == s0[j]);
        }
    }
    assert forall|j: int| 0 <= j < s1.len() implies m1.in_grid(#[trigger] s1[j]@) && m1.cell_at(
        s1[j]@,
    ) is Some by {
        if j < s0.len() {
            assert(s1[j] == s0[j]);
            assert(m0.in_grid(s0[j]@));
        }
    }
}

/// A place in `c` where `depth` is largest.
proof fn lemma_deepest(c: Seq<(int, int)>, depth: Map<(int, int), nat>) -> (k: int)
    requires
        c.len() > 0,
    ensures
        0 <= k < c.len(),
        forall|i: int| 0 <= i < c.len() ==> depth[#[trigger] c[i]] <= depth[c[k]],
    decreases c.len(),
{
    if c.len() == 1 {
        0
    } else {
        let front = c.drop_last();
        let k0 = lemma_deepest(front, depth);
        assert forall|i: int| 0 <= i < front.len() implies depth[#[trigger] c[i]] <= depth[c[k0]] by {
            assert(c[i] == front[i]);
        }
        if depth[c.last()] > depth[c[k0]] {
            c.len() - 1
        } else {
            k0
        }
    }
}

/// One step of the walk from the unassigned edge `d` of the active cell at `p`, taking
/// `m0` to `m1` and the stack `s0` to `s1`: where the edge faces the outside it becomes a
/// border; where it faces a cell it becomes a wall on both sides; where it faces an
/// empty address, a new cell is made there, joined by a passage on both sides and
/// pushed. Only the edges named change, and no other address.
spec fn step_taken(
    m0: Maze,
    m1: Maze,
    s0: Seq<Coordinates>,
    s1: Seq<Coordinates>,
    p: (int, int),
    d: Direction,
) -> bool {
    let q = step_from(p, d);
    let c0 = m0.cell_at(p).unwrap();
    let c1 = m1.cell_at(p).unwrap();
    &&& forall|x: (int, int)|
        m0.in_grid(x) && x != p && x != q ==> #[trigger] m1.cell_at(x) == m0.cell_at(x)
    &&& m1.cell_at(p) is Some
    &&& c1.location() == c0.location()
    &&& forall|d2: Direction| d2 != d ==> #[trigger] c1.edge_at(d2) == c0.edge_at(d2)
    &&& if !m0.in_grid(q) {
        &&& c1.edge_at(d) == Some(CellEdge::Border)
        &&& s1 == s0
    } else if m0.cell_at(q) is Some {
        let n0 = m0.cell_at(q).unwrap();
        let n1 = m1.cell_at(q).unwrap();
        &&& c1.edge_at(d) == Some(CellEdge::Wall)
        &&& m1.cell_at(q) is Some
        &&& n1.location() == n0.location()
        &&& n1.edge_at(d.reversed()) == Some(CellEdge::Wall)
        &&& forall|d2: Direction| d2 != d.reversed() ==> #[trigger] n1.edge_at(d2) == n0.edge_at(d2)
        &&& s1 == s0
    } else {
        let n1 = m1.cell_at(q).unwrap();
        &&& c1.edge_at(d) == Some(CellEdge::Passage)
        &&& m1.cell_at(q) is Some
        &&& n1.location()@ == q
        &&& n1.edge_at(d.reversed()) == Some(CellEdge::Passage)
        &&& forall|d2: Direction| d2 != d.reversed() ==> (#[trigger] n1.edge_at(d2)) is None
        &&& s1.len() == s0.len() + 1
        &&& s1.drop_last() == s0
        &&& s1.last()@ == q
    }
}

/// A step of the walk removes no cell and leaves every assigned edge as it was.
proof fn lemma_step_keeps(
    m0: Maze,
    m1: Maze,
    s0: Seq<Coordinates>,
    s1: Seq<Coordinates>,
    p: (int, int),
    d: Direction,
)
    requires
        m0.edges_agree(),
        m0.in_grid(p),
        m0.cell_at(p) is Some,
        m0.cell_at(p).unwrap().edge_at(d) is None,
        step_taken(m0, m1, s0, s1, p, d),
    ensures
        forall|x: (int, int)|
            m0.in_grid(x) && #[trigger] m0.cell_at(x) is Some ==> {
                &&& m1.cell_at(x) is Some
                &&& m1.cell_at(x).unwrap().location() == m0.cell_at(x).unwrap().location()
                &&& forall|d2: Direction|
                    (#[trigger] m0.cell_at(x).unwrap().edge_at(d2)) is Some ==> m1.cell_at(
                        x,
                    ).unwrap().edge_at(d2) == m0.cell_at(x).unwrap().edge_at(d2)
            },
{
    let q = step_from(p, d);
    assert forall|x: (int, int)| m0.in_grid(x) && #[trigger] m0.cell_at(x) is Some implies {
        &&& m1.cell_at(x) is Some
        &&& m1.cell_at(x).unwrap().location() == m0.cell_at(x).unwrap().location()
        &&& forall|d2: Direction|
            (#[trigger] m0.cell_at(x).unwrap().edge_at(d2)) is Some ==> m1.cell_at(
                x,
            ).unwrap().edge_at(d2) == m0.cell_at(x).unwrap().edge_at(d2)
    } by {
        if x == q && x != p {
            assert(m0.edge_agrees(p, d));
        }
    }
}

/// Returns a maze of the given size, fully populated with fully assigned cells whose
/// edges agree with their neighbours, and whose passages form a spanning tree: they
/// connect every cell to every other, no cycle runs along them, and there are
/// `columns * rows - 1` of them (each counted here from both of its sides).
pub fn generate(columns: u32, rows: u32) -> (r: Maze)
    requires
        columns >= 1,
        rows >= 1,
        columns * rows <= i32::MAX,
    ensures
        r.width() == columns,
        r.height() == rows,
        r.wf(),
        r.complete(),
        r.edges_agree(),
        r.connected(),
        r.acyclic(),
        r.count_cells() == columns * rows,
        r.count_edges(CellEdge::Passage) == 2 * (columns * rows - 1),
{
    let mut maze_generator = MazeGenerator::new(columns, rows);
    maze_generator.populate();
    maze_generator.maze
}

/// Builds a maze by walking it depth first, carving passages into unvisited cells.
pub struct MazeGenerator {
    maze: Maze,
    /// Where the walk started.
    root: Ghost<(int, int)>,
    /// For each visited cell but the first, the direction of the passage by which it
    /// was reached.
    parent: Ghost<Map<(int, int), Direction>>,
    /// For each visited cell, how many passages lie between it and the first.
    depth: Ghost<Map<(int, int), nat>>,
}

impl MazeGenerator {
    /// The maze being built.
    pub closed spec fn grid(self) -> Maze {
        self.maze
    }

    /// The maze has a size that generation accepts, and no address holds a cell yet.
    pub open spec fn fresh(self) -> bool {
        &&& self.grid().wf()
        &&& self.grid().width() >= 1
        &&& self.grid().height() >= 1
        &&& self.grid().width() * self.grid().height() <= i32::MAX
        &&& forall|i: int|
            0 <= i < self.grid().slots().len() ==> (#[trigger] self.grid().slots()[i]) is None
    }

    /// Each visited cell but the root was reached by a passage from a cell nearer to the
    /// root.
    #[verifier::opaque]
    closed spec fn rooted(self) -> bool {
        let m = self.maze;
        &&& m.in_grid(self.root@)
        &&& m.cell_at(self.root@) is Some
        &&& forall|p: (int, int)|
            m.in_grid(p) && #[trigger] m.cell_at(p) is Some && p != self.root@ ==> {
                let d = self.parent@[p];
                let q = step_from(p, d);
                &&& m.in_grid(q)
                &&& m.cell_at(q) is Some
                &&& m.edge_from(p, d) == Some(CellEdge::Passage)
                &&& self.depth@[q] < self.depth@[p]
            }
    }

    /// Every passage joins a visited cell to the cell it was reached from.
    #[verifier::opaque]
    closed spec fn tree_links(self) -> bool {
        let m = self.maze;
        forall|x: (int, int), d: Direction|
            m.in_grid(x) && m.cell_at(x) is Some && #[trigger] m.edge_from(x, d) == Some(
                CellEdge::Passage,
            ) ==> (x != self.root@ && self.parent@[x] == d) || (step_from(x, d) != self.root@
                && self.parent@[step_from(x, d)] == d.reversed())
    }

    /// What holds between steps of the walk, with `stack` the cells still active.
    #[verifier::opaque]
    closed spec fn walking(self, stack: Seq<Coordinates>) -> bool {
        let m = self.maze;
        &&& m.wf()
        &&& m.width() >= 1
        &&& m.height() >= 1
        &&& m.width() * m.height() <= i32::MAX
        &&& m.edges_agree()
        &&& tracks(m, stack)
        &&& self.rooted()
        &&& self.tree_links()
        &&& counted(m)
    }

    /// `self` is `before` with the edge in direction `d` of the cell `t0` and the edge
    /// facing it of the cell `n0` both set to `e`, giving `t1` and `n1`, both stored.
    closed spec fn joined(
        self,
        before: MazeGenerator,
        t0: Cell,
        t1: Cell,
        n0: Cell,
        n1: Cell,
        d: Direction,
        e: CellEdge,
    ) -> bool {
        &&& t1.location() == t0.location()
        &&& t1.edge_at(d) == Some(e)
        &&& forall|d2: Direction| d2 != d ==> #[trigger] t1.edge_at(d2) == t0.edge_at(d2)
        &&& n1.location() == n0.location()
        &&& n1.edge_at(d.reversed()) == Some(e)
        &&& forall|d2: Direction| d2 != d.reversed() ==> #[trigger] n1.edge_at(d2) == n0.edge_at(d2)
        &&& self.maze.wf()
        &&& self.maze.width() == before.maze.width()
        &&& self.maze.height() == before.maze.height()
        &&& self.maze.slots() == before.maze.slots().update(
            before.maze.index_of(t0.location()@),
            Some(t1),
        ).update(before.maze.index_of(n0.location()@), Some(n1))
        &&& forall|p: (int, int)|
            #![trigger self.maze.cell_at(p)]
            before.maze.in_grid(p) ==> self.maze.cell_at(p) == if p == n0.location()@ {
                Some(n1)
            } else if p == t0.location()@ {
                Some(t1)
            } else {
                before.maze.cell_at(p)
            }
        &&& self.root == before.root
        &&& self.parent == before.parent
        &&& self.depth == before.depth
    }

    /// How much work the walk has left.
    closed spec fn remaining(self, stack: Seq<Coordinates>) -> nat {
        sum_slots(self.maze.slots(), pending_counter()) + stack.len()
    }

    /// Creates a generator for a maze of the given size.
    pub fn new(columns: u32, rows: u32) -> (r: MazeGenerator)
        requires
            columns >= 1,
            rows >= 1,
            columns * rows <= i32::MAX,
        ensures
            r.fresh(),
            r.grid().width() == columns,
            r.grid().height() == rows,
    {
        let cell_grid = Maze::new(columns, rows);
        MazeGenerator {
            maze: cell_grid,
            root: Ghost((0, 0)),
            parent: Ghost(Map::empty()),
            depth: Ghost(Map::empty()),
        }
    }

    /// Creates a cell with no assigned edges at the given coordinates, stores it and
    /// makes it the active cell.
    fn add_new_cell(
        &mut self,
        visit_stack: &mut Vec<Coordinates>,
        coordinates: Coordinates,
    ) -> (r: Cell)
        requires
            old(self).maze.wf(),
            old(self).maze.in_grid(coordinates@),
        ensures
            r.location() == coordinates,
            forall|d: Direction| (#[trigger] r.edge_at(d)) is None,
            final(self).maze.wf(),
            final(self).maze.width() == old(self).maze.width(),
            final(self).maze.height() == old(self).maze.height(),
            final(self).maze.slots() == old(self).maze.slots().update(
                old(self).maze.index_of(coordinates@),
                Some(r),
            ),
            forall|p: (int, int)|
                #![trigger final(self).maze.cell_at(p)]
                old(self).maze.in_grid(p) ==> final(self).maze.cell_at(p) == if p == coordinates@ {
                    Some(r)
                } else {
                    old(self).maze.cell_at(p)
                },
            final(self).root == old(self).root,
            final(self).parent == old(self).parent,
            final(self).depth == old(self).depth,
            final(visit_stack)@ == old(visit_stack)@.push(coordinates),
    {
        let new_cell = Cell::new(coordinates);
        self.maze.set_cell(new_cell);
        visit_stack.push(coordinates);
        new_cell
    }

    /// Gives the edge between two cells the same state on both sides, and stores both.
    fn create_edge(
        &mut self,
        target_cell: &mut Cell,
        neighbor_cell: &mut Cell,
        direction: &Direction,
        cell_edge: CellEdge,
    )
        requires
            old(self).maze.wf(),
            old(self).maze.in_grid(old(target_cell).location()@),
            old(self).maze.in_grid(old(neighbor_cell).location()@),
            old(target_cell).location()@ != old(neighbor_cell).location()@,
        ensures
            final(self).joined(
                *old(self),
                *old(target_cell),
                *final(target_cell),
                *old(neighbor_cell),
                *final(neighbor_cell),
                *direction,
                cell_edge,
            ),
    {
        target_cell.set_edge(direction, Some(cell_edge));
        self.maze.set_cell(*target_cell);
        neighbor_cell.set_edge(&direction.opposite(), Some(cell_edge));
        self.maze.set_cell(*neighbor_cell);
    }

    /// Opens a passage between two cells.
    fn create_passage(
        &mut self,
        target_cell: &mut Cell,
        neighbor_cell: &mut Cell,
        direction: &Direction,
    )
        requires
            old(self).maze.wf(),
            old(self).maze.in_grid(old(target_cell).location()@),
            old(self).maze.in_grid(old(neighbor_cell).location()@),
            old(target_cell).location()@ != old(neighbor_cell).location()@,
        ensures
            final(self).joined(
                *old(self),
                *old(target_cell),
                *final(target_cell),
                *old(neighbor_cell),
                *final(neighbor_cell),
                *direction,
                CellEdge::Passage,
            ),
    {
        self.create_edge(target_cell, neighbor_cell, direction, CellEdge::Passage);
    }

    /// Puts an interior wall between two cells.
    fn create_wall(
        &mut self,
        target_cell: &mut Cell,
        neighbor_cell: &mut Cell,
        direction: &Direction,
    )
        requires
            old(self).maze.wf(),
            old(self).maze.in_grid(old(target_cell).location()@),
            old(self).maze.in_grid(old(neighbor_cell).location()@),
            old(target_cell).location()@ != old(neighbor_cell).location()@,
        ensures
            final(self).joined(
                *old(self),
                *old(target_cell),
                *final(target_cell),
                *old(neighbor_cell),
                *final(neighbor_cell),
                *direction,
                CellEdge::Wall,
            ),
    {
        self.create_edge(target_cell, neighbor_cell, direction, CellEdge::Wall);
    }

    /// Marks the cell's edge in the given direction as a border of the maze, and stores
    /// the cell.
    fn create_border(&mut self, cell: &mut Cell, direction: &Direction)
        requires
            old(self).maze.wf(),
            old(self).maze.in_grid(old(cell).location()@),
        ensures
            final(cell).location() == old(cell).location(),
            final(cell).edge_at(*direction) == Some(CellEdge::Border),
            forall|d: Direction|
                d != *direction ==> #[trigger] final(cell).edge_at(d) == old(cell).edge_at(d),
            final(self).maze.wf(),
            final(self).maze.width() == old(self).maze.width(),
            final(self).maze.height() == old(self).maze.height(),
            final(self).maze.slots() == old(self).maze.slots().update(
                old(self).maze.index_of(old(cell).location()@),
                Some(*final(cell)),
            ),
            forall|p: (int, int)|
                #![trigger final(self).maze.cell_at(p)]
                old(self).maze.in_grid(p) ==> final(self).maze.cell_at(p) == if p == old(
                    cell,
                ).location()@ {
                    Some(*final(cell))
                } else {
                    old(self).maze.cell_at(p)
                },
            final(self).root == old(self).root,
            final(self).parent == old(self).parent,
            final(self).depth == old(self).depth,
    {
        cell.set_edge(direction, Some(CellEdge::Border));
        self.maze.set_cell(*cell);
    }

    /// Dropping a fully assigned cell from the top of the stack keeps the walk going.
    proof fn lemma_pop_step(g: MazeGenerator, s0: Seq<Coordinates>)
        requires
            g.walking(s0),
            s0.len() > 0,
            g.maze.cell_at(s0.last()@) is Some,
            g.maze.cell_at(s0.last()@).unwrap().fully_assigned(),
        ensures
            g.walking(s0.drop_last()),
            g.remaining(s0.drop_last()) < g.remaining(s0),
    {
        reveal(MazeGenerator::walking);
        reveal(tracks);
        let m0 = g.maze;
        let s1 = s0.drop_last();
        assert forall|x: (int, int)|
            m0.in_grid(x) && (#[trigger] m0.cell_at(x)) is Some && !m0.cell_at(
                x,
            ).unwrap().fully_assigned() implies exists|j: int|
            0 <= j < s1.len() && #[trigger] s1[j]@ == x by {
            let j = choose|j: int| 0 <= j < s0.len() && #[trigger] s0[j]@ == x;
            assert(j != s0.len() - 1);
            assert(s1[j] == s0[j]);
        }
        assert forall|j: int| 0 <= j < s1.len() implies m0.in_grid(#[trigger] s1[j]@) && m0.cell_at(
            s1[j]@,
        ) is Some by {
            assert(s1[j] == s0[j]);
        }
    }

    /// The walk stays rooted when the cells stay where they are and every passage stays.
    proof fn lemma_rooted_same(g0: MazeGenerator, g1: MazeGenerator)
        requires
            g0.rooted(),
            g1.root == g0.root,
            g1.parent == g0.parent,
            g1.depth == g0.depth,
            g1.maze.width() == g0.maze.width(),
            g1.maze.height() == g0.maze.height(),
            forall|x: (int, int)|
                g0.maze.in_grid(x) ==> ((#[trigger] g1.maze.cell_at(x)) is Some <==> g0.maze.cell_at(
                    x,
                ) is Some),
            forall|x: (int, int), d: Direction|
                g0.maze.in_grid(x) && g0.maze.cell_at(x) is Some && g0.maze.edge_from(x, d) == Some(
                    CellEdge::Passage,
                ) ==> #[trigger] g1.maze.edge_from(x, d) == Some(CellEdge::Passage),
        ensures
            g1.rooted(),
    {
        reveal(MazeGenerator::rooted);
        let m0 = g0.maze;
        let m1 = g1.maze;
        assert(m1.cell_at(g1.root@) is Some);
        assert forall|x: (int, int)|
            m1.in_grid(x) && #[trigger] m1.cell_at(x) is Some && x != g1.root@ implies {
            let d2 = g1.parent@[x];
            let y = step_from(x, d2);
            &&& m1.in_grid(y)
            &&& m1.cell_at(y) is Some
            &&& m1.edge_from(x, d2) == Some(CellEdge::Passage)
            &&& g1.depth@[y] < g1.depth@[x]
        } by {
            assert(m0.cell_at(x) is Some);
            let y = step_from(x, g0.parent@[x]);
            assert(m0.in_grid(y));
            assert(m1.cell_at(y) is Some);
        }
    }

    /// The walk stays rooted when a new cell `q` is reached by a passage in direction
    /// `dq` from the cell `p` that was visited before, and no other cell or passage
    /// changes.
    proof fn lemma_rooted_grow(
        g0: MazeGenerator,
        g1: MazeGenerator,
        p: (int, int),
        q: (int, int),
        dq: Direction,
    )
        requires
            g0.rooted(),
            g1.maze.width() == g0.maze.width(),
            g1.maze.height() == g0.maze.height(),
            g0.maze.in_grid(p),
            g0.maze.cell_at(p) is Some,
            g0.maze.in_grid(q),
            g0.maze.cell_at(q) is None,
            g1.maze.cell_at(q) is Some,
            step_from(q, dq) == p,
            g1.maze.edge_from(q, dq) == Some(CellEdge::Passage),
            g1.root == g0.root,
            g1.parent@ == g0.parent@.insert(q, dq),
            g1.depth@ == g0.depth@.insert(q, g0.depth@[p] + 1),
            forall|x: (int, int)|
                g0.maze.in_grid(x) && x != q ==> ((#[trigger] g1.maze.cell_at(x)) is Some
                    <==> g0.maze.cell_at(x) is Some),
            forall|x: (int, int), d: Direction|
                g0.maze.in_grid(x) && g0.maze.cell_at(x) is Some && g0.maze.edge_from(x, d) == Some(
                    CellEdge::Passage,
                ) ==> #[trigger] g1.maze.edge_from(x, d) == Some(CellEdge::Passage),
        ensures
            g1.rooted(),
    {
        reveal(MazeGenerator::rooted);
        let m0 = g0.maze;
        let m1 = g1.maze;
        assert(m0.cell_at(g0.root@) is Some);
        assert(m1.cell_at(g1.root@) is Some);
        assert forall|x: (int, int)|
            m1.in_grid(x) && #[trigger] m1.cell_at(x) is Some && x != g1.root@ implies {
            let d2 = g1.parent@[x];
            let y = step_from(x, d2);
            &&& m1.in_grid(y)
            &&& m1.cell_at(y) is Some
            &&& m1.edge_from(x, d2) == Some(CellEdge::Passage)
            &&& g1.depth@[y] < g1.depth@[x]
        } by {
            if x == q {
                assert(m1.cell_at(p) is Some);
            } else {
                assert(m0.cell_at(x) is Some);
                let y = step_from(x, g0.parent@[x]);
                assert(m0.in_grid(y));
                assert(m0.cell_at(y) is Some);
                assert(m1.cell_at(y) is Some);
            }
        }
    }

    /// Every passage still joins a cell to its parent when no passage is added and the
    /// parents stay.
    proof fn lemma_links_same(g0: MazeGenerator, g1: MazeGenerator)
        requires
            g0.tree_links(),
            g1.root == g0.root,
            g1.parent == g0.parent,
            g1.maze.width() == g0.maze.width(),
            g1.maze.height() == g0.maze.height(),
            forall|x: (int, int), d: Direction|
                g0.maze.in_grid(x) && g1.maze.cell_at(x) is Some && #[trigger] g1.maze.edge_from(
                    x,
                    d,
                ) == Some(CellEdge::Passage) ==> g0.maze.cell_at(x) is Some && g0.maze.edge_from(
                    x,
                    d,
                ) == Some(CellEdge::Passage),
        ensures
            g1.tree_links(),
    {
        reveal(MazeGenerator::tree_links);
        assert forall|x: (int, int), d: Direction|
            g1.maze.in_grid(x) && g1.maze.cell_at(x) is Some && #[trigger] g1.maze.edge_from(x, d)
                == Some(CellEdge::Passage) implies (x != g1.root@ && g1.parent@[x] == d) || (
            step_from(x, d) != g1.root@ && g1.parent@[step_from(x, d)] == d.reversed()) by {
            assert(g0.maze.edge_from(x, d) == Some(CellEdge::Passage));
        }
    }

    /// Every passage still joins a cell to its parent after carving from `p` in
    /// direction `d` into the new cell `q`, whose parent is then `p`.
    proof fn lemma_links_grow(
        g0: MazeGenerator,
        g1: MazeGenerator,
        p: (int, int),
        d: Direction,
    )
        requires
            g0.tree_links(),
            g0.maze.edges_agree(),
            g0.maze.in_grid(p),
            g0.maze.in_grid(step_from(p, d)),
            g0.maze.cell_at(step_from(p, d)) is None,
            g0.maze.cell_at(g0.root@) is Some,
            g0.maze.in_grid(g0.root@),
            g1.root == g0.root,
            g1.parent@ == g0.parent@.insert(step_from(p, d), d.reversed()),
            g1.maze.width() == g0.maze.width(),
            g1.maze.height() == g0.maze.height(),
            forall|x: (int, int), d2: Direction|
                g0.maze.in_grid(x) && g1.maze.cell_at(x) is Some && #[trigger] g1.maze.edge_from(
                    x,
                    d2,
                ) == Some(CellEdge::Passage) ==> (x == p && d2 == d) || (x == step_from(p, d)
                    && d2 == d.reversed()) || (g0.maze.cell_at(x) is Some && g0.maze.edge_from(
                    x,
                    d2,
                ) == Some(CellEdge::Passage)),
        ensures
            g1.tree_links(),
    {
        reveal(MazeGenerator::tree_links);
        let q = step_from(p, d);
        lemma_steps(p);
        assert forall|x: (int, int), d2: Direction|
            g1.maze.in_grid(x) && g1.maze.cell_at(x) is Some && #[trigger] g1.maze.edge_from(x, d2)
                == Some(CellEdge::Passage) implies (x != g1.root@ && g1.parent@[x] == d2) || (
            step_from(x, d2) != g1.root@ && g1.parent@[step_from(x, d2)] == d2.reversed()) by {
            if x == p && d2 == d {
            } else if x == q && d2 == d.reversed() {
            } else {
                assert(g0.maze.cell_at(x) is Some && g0.maze.edge_from(x, d2) == Some(
                    CellEdge::Passage,
                ));
                assert(g0.maze.edge_agrees(x, d2));
                assert(x != q);
                assert(step_from(x, d2) != q);
            }
        }
    }

    /// Marking the unassigned edge of the active cell that faces the outside as a border
    /// keeps the walk going.
    proof fn lemma_border_step(
        g0: MazeGenerator,
        g1: MazeGenerator,
        s: Seq<Coordinates>,
        p: (int, int),
        d: Direction,
        t1: Cell,
    )
        requires
            g0.walking(s),
            s.len() > 0,
            s.last()@ == p,
            g0.maze.in_grid(p),
            g0.maze.cell_at(p) is Some,
            g0.maze.cell_at(p).unwrap().edge_at(d) is None,
            !g0.maze.in_grid(step_from(p, d)),
            t1.edge_at(d) == Some(CellEdge::Border),
            forall|d2: Direction|
                d2 != d ==> #[trigger] t1.edge_at(d2) == g0.maze.cell_at(p).unwrap().edge_at(d2),
            g1.maze.wf(),
            g1.maze.width() == g0.maze.width(),
            g1.maze.height() == g0.maze.height(),
            g1.maze.slots() == g0.maze.slots().update(g0.maze.index_of(p), Some(t1)),
            forall|x: (int, int)|
                #![trigger g1.maze.cell_at(x)]
                g0.maze.in_grid(x) ==> g1.maze.cell_at(x) == if x == p {
                    Some(t1)
                } else {
                    g0.maze.cell_at(x)
                },
            g1.root == g0.root,
            g1.parent == g0.parent,
            g1.depth == g0.depth,
        ensures
            g1.walking(s),
            g1.remaining(s) < g0.remaining(s),
    {
        reveal(MazeGenerator::walking);
        reveal(counted);
        let m0 = g0.maze;
        let m1 = g1.maze;
        let c0 = m0.cell_at(p).unwrap();
        m0.lemma_index();
        lemma_border_keeps_agreement(m0, m1, p, d, t1);
        lemma_assign_in_slots(m0.slots(), m0.index_of(p), c0, t1, d, CellEdge::Border);
        assert forall|x: (int, int)|
            m0.in_grid(x) && #[trigger] m0.cell_at(x) is Some implies m1.cell_at(x) is Some by {}
        assert forall|x: (int, int)|
            m0.in_grid(x) && x != p && (#[trigger] m1.cell_at(x)) is Some && !m1.cell_at(
                x,
            ).unwrap().fully_assigned() implies m0.cell_at(x) is Some && !m0.cell_at(
                x,
            ).unwrap().fully_assigned() by {}
        lemma_tracks_same(m0, m1, s, p);
        assert forall|x: (int, int)|
            m0.in_grid(x) implies ((#[trigger] m1.cell_at(x)) is Some <==> m0.cell_at(x) is Some) by {}
        assert forall|x: (int, int), d2: Direction|
            m0.in_grid(x) && m0.cell_at(x) is Some && m0.edge_from(x, d2) == Some(
                CellEdge::Passage,
            ) implies #[trigger] m1.edge_from(x, d2) == Some(CellEdge::Passage) by {
            assert(m1.cell_at(x) == m1.cell_at(x));
        }
        MazeGenerator::lemma_rooted_same(g0, g1);
        assert forall|x: (int, int), d2: Direction|
            m0.in_grid(x) && m1.cell_at(x) is Some && #[trigger] m1.edge_from(x, d2) == Some(
                CellEdge::Passage,
            ) implies m0.cell_at(x) is Some && m0.edge_from(x, d2) == Some(CellEdge::Passage) by {
            assert(m1.cell_at(x) == m1.cell_at(x));
        }
        MazeGenerator::lemma_links_same(g0, g1);
    }

    /// Putting a wall on the unassigned edge between the active cell and a cell that was
    /// visited before keeps the walk going.
    proof fn lemma_wall_step(
        g0: MazeGenerator,
        g1: MazeGenerator,
        s: Seq<Coordinates>,
        p: (int, int),
        d: Direction,
        t1: Cell,
        n1: Cell,
    )
        requires
            g0.walking(s),
            s.len() > 0,
            s.last()@ == p,
            g0.maze.in_grid(p),
            g0.maze.cell_at(p) is Some,
            g0.maze.cell_at(p).unwrap().edge_at(d) is None,
            g0.maze.in_grid(step_from(p, d)),
            g0.maze.cell_at(step_from(p, d)) is Some,
            t1.edge_at(d) == Some(CellEdge::Wall),
            forall|d2: Direction|
                d2 != d ==> #[trigger] t1.edge_at(d2) == g0.maze.cell_at(p).unwrap().edge_at(d2),
            n1.edge_at(d.reversed()) == Some(CellEdge::Wall),
            forall|d2: Direction|
                d2 != d.reversed() ==> #[trigger] n1.edge_at(d2) == g0.maze.cell_at(
                    step_from(p, d),
                ).unwrap().edge_at(d2),
            g1.maze.wf(),
            g1.maze.width() == g0.maze.width(),
            g1.maze.height() == g0.maze.height(),
            g1.maze.slots() == g0.maze.slots().update(g0.maze.index_of(p), Some(t1)).update(
                g0.maze.index_of(step_from(p, d)),
                Some(n1),
            ),
            forall|x: (int, int)|
                #![trigger g1.maze.cell_at(x)]
                g0.maze.in_grid(x) ==> g1.maze.cell_at(x) == if x == step_from(p, d) {
                    Some(n1)
                } else if x == p {
                    Some(t1)
                } else {
                    g0.maze.cell_at(x)
                },
            g1.root == g0.root,
            g1.parent == g0.parent,
            g1.depth == g0.depth,
        ensures
            g1.walking(s),
            g1.remaining(s) < g0.remaining(s),
    {
        reveal(MazeGenerator::walking);
        reveal(counted);
        let m0 = g0.maze;
        let m1 = g1.maze;
        let q = step_from(p, d);
        let c0 = m0.cell_at(p).unwrap();
        let n0 = m0.cell_at(q).unwrap();
        let ip = m0.index_of(p);
        let iq = m0.index_of(q);
        m0.lemma_index();
        lemma_steps(p);
        assert(m0.edge_agrees(p, d));
        assert(n0.edge_at(d.reversed()) is None);
        lemma_link_keeps_agreement(m0, m1, p, d, t1, n1, CellEdge::Wall);
        let a = m0.slots().update(ip, Some(t1));
        lemma_assign_in_slots(m0.slots(), ip, c0, t1, d, CellEdge::Wall);
        lemma_assign_in_slots(a, iq, n0, n1, d.reversed(), CellEdge::Wall);
        assert forall|x: (int, int)|
            m0.in_grid(x) && #[trigger] m0.cell_at(x) is Some implies m1.cell_at(x) is Some by {}
        assert forall|x: (int, int)|
            m0.in_grid(x) && x != p && (#[trigger] m1.cell_at(x)) is Some && !m1.cell_at(
                x,
            ).unwrap().fully_assigned() implies m0.cell_at(x) is Some && !m0.cell_at(
                x,
            ).unwrap().fully_assigned() by {}
        lemma_tracks_same(m0, m1, s, p);
        assert forall|x: (int, int)|
            m0.in_grid(x) implies ((#[trigger] m1.cell_at(x)) is Some <==> m0.cell_at(x) is Some) by {}
        assert forall|x: (int, int), d2: Direction|
            m0.in_grid(x) && m0.cell_at(x) is Some && m0.edge_from(x, d2) == Some(
                CellEdge::Passage,
            ) implies #[trigger] m1.edge_from(x, d2) == Some(CellEdge::Passage) by {
            assert(m1.cell_at(x) == m1.cell_at(x));
        }
        MazeGenerator::lemma_rooted_same(g0, g1);
        assert forall|x: (int, int), d2: Direction|
            m0.in_grid(x) && m1.cell_at(x) is Some && #[trigger] m1.edge_from(x, d2) == Some(
                CellEdge::Passage,
            ) implies m0.cell_at(x) is Some && m0.edge_from(x, d2) == Some(CellEdge::Passage) by {
            assert(m1.cell_at(x) == m1.cell_at(x));
        }
        MazeGenerator::lemma_links_same(g0, g1);
    }

    /// Carving a passage from the active cell into an empty address, where a new cell is
    /// created and becomes the active one, keeps the walk going.
    proof fn lemma_carve_step(
        g0: MazeGenerator,
        g1: MazeGenerator,
        s0: Seq<Coordinates>,
        s1: Seq<Coordinates>,
        p: (int, int),
        d: Direction,
        n0: Cell,
        t1: Cell,
        n1: Cell,
    )
        requires
            g0.walking(s0),
            s0.len() > 0,
            s0.last()@ == p,
            g0.maze.in_grid(p),
            g0.maze.cell_at(p) is Some,
            g0.maze.cell_at(p).unwrap().edge_at(d) is None,
            g0.maze.in_grid(step_from(p, d)),
            g0.maze.cell_at(step_from(p, d)) is None,
            forall|d2: Direction| (#[trigger] n0.edge_at(d2)) is None,
            t1.edge_at(d) == Some(CellEdge::Passage),
            forall|d2: Direction|
                d2 != d ==> #[trigger] t1.edge_at(d2) == g0.maze.cell_at(p).unwrap().edge_at(d2),
            n1.edge_at(d.reversed()) == Some(CellEdge::Passage),
            forall|d2: Direction| d2 != d.reversed() ==> #[trigger] n1.edge_at(d2) == n0.edge_at(d2),
            g1.maze.wf(),
            g1.maze.width() == g0.maze.width(),
            g1.maze.height() == g0.maze.height(),
            g1.maze.slots() == g0.maze.slots().update(
                g0.maze.index_of(step_from(p, d)),
                Some(n0),
            ).update(g0.maze.index_of(p), Some(t1)).update(
                g0.maze.index_of(step_from(p, d)),
                Some(n1),
            ),
            forall|x: (int, int)|
                #![trigger g1.maze.cell_at(x)]
                g0.maze.in_grid(x) ==> g1.maze.cell_at(x) == if x == step_from(p, d) {
                    Some(n1)
                } else if x == p {
                    Some(t1)
                } else {
                    g0.maze.cell_at(x)
                },
            s1.len() == s0.len() + 1,
            s1.drop_last() == s0,
            s1.last()@ == step_from(p, d),
            g1.root == g0.root,
            g1.parent@ == g0.parent@.insert(step_from(p, d), d.reversed()),
            g1.depth@ == g0.depth@.insert(step_from(p, d), g0.depth@[p] + 1),
        ensures
            g1.walking(s1),
            g1.remaining(s1) < g0.remaining(s0),
    {
        reveal(MazeGenerator::walking);
        reveal(counted);
        let m0 = g0.maze;
        let m1 = g1.maze;
        let q = step_from(p, d);
        let c0 = m0.cell_at(p).unwrap();
        let ip = m0.index_of(p);
        let iq = m0.index_of(q);
        m0.lemma_index();
        lemma_steps(p);
        lemma_steps(q);
        assert forall|d2: Direction| d2 != d.reversed() implies #[trigger] n1.edge_at(d2) == if m0.cell_at(
            q,
        ) is Some {
            m0.cell_at(q).unwrap().edge_at(d2)
        } else {
            None
        } by {}
        lemma_link_keeps_agreement(m0, m1, p, d, t1, n1, CellEdge::Passage);
        let a = m0.slots().update(iq, Some(n0));
        let b = a.update(ip, Some(t1));
        lemma_new_cell_in_slots(m0.slots(), iq, n0);
        lemma_assign_in_slots(a, ip, c0, t1, d, CellEdge::Passage);
        lemma_assign_in_slots(b, iq, n0, n1, d.reversed(), CellEdge::Passage);
        assert forall|x: (int, int)|
            m0.in_grid(x) && #[trigger] m0.cell_at(x) is Some implies m1.cell_at(x) is Some by {}
        assert forall|x: (int, int)|
            m0.in_grid(x) && x != p && x != q && (#[trigger] m1.cell_at(x)) is Some
                && !m1.cell_at(x).unwrap().fully_assigned() implies m0.cell_at(x) is Some
                && !m0.cell_at(x).unwrap().fully_assigned() by {}
        lemma_tracks_push(m0, m1, s0, s1, p, q);
        assert forall|x: (int, int)|
            m0.in_grid(x) && x != q implies ((#[trigger] m1.cell_at(x)) is Some <==> m0.cell_at(
                x,
            ) is Some) by {}
        assert forall|x: (int, int), d2: Direction|
            m0.in_grid(x) && m0.cell_at(x) is Some && m0.edge_from(x, d2) == Some(
                CellEdge::Passage,
            ) implies #[trigger] m1.edge_from(x, d2) == Some(CellEdge::Passage) by {
            assert(m1.cell_at(x) == m1.cell_at(x));
        }
        assert(step_from(q, d.reversed()) == p);
        MazeGenerator::lemma_rooted_grow(g0, g1, p, q, d.reversed());
        assert forall|x: (int, int), d2: Direction|
            m0.in_grid(x) && m1.cell_at(x) is Some && #[trigger] m1.edge_from(x, d2) == Some(
                CellEdge::Passage,
            ) implies (x == p && d2 == d) || (x == q && d2 == d.reversed()) || (m0.cell_at(x) is Some
            && m0.edge_from(x, d2) == Some(CellEdge::Passage)) by {
            assert(m1.cell_at(x) == m1.cell_at(x));
        }
        assert(m0.cell_at(g0.root@) is Some && m0.in_grid(g0.root@)) by {
            reveal(MazeGenerator::rooted);
        }
        MazeGenerator::lemma_links_grow(g0, g1, p, d);
    }

    /// Takes one step of the walk from the active cell on top of `visit_stack`: drops it
    /// when all its edges are assigned, else assigns one of its unassigned edges, picked
    /// at random, carving into a new cell where the edge leads to an empty address.
    fn process_active_cell(&mut self, visit_stack: &mut Vec<Coordinates>)
        requires
            old(self).maze.wf(),
            old(self).maze.width() * old(self).maze.height() <= i32::MAX,
            old(self).maze.edges_agree(),
            old(visit_stack)@.len() > 0,
            forall|j: int|
                0 <= j < old(visit_stack)@.len() ==> old(self).maze.in_grid(
                    #[trigger] old(visit_stack)@[j]@,
                ) && old(self).maze.cell_at(old(visit_stack)@[j]@) is Some,
        ensures
            final(self).maze.wf(),
            final(self).maze.width() == old(self).maze.width(),
            final(self).maze.height() == old(self).maze.height(),
            final(self).maze.edges_agree(),
            forall|j: int|
                0 <= j < final(visit_stack)@.len() ==> final(self).maze.in_grid(
                    #[trigger] final(visit_stack)@[j]@,
                ) && final(self).maze.cell_at(final(visit_stack)@[j]@) is Some,
            ({
                let s = old(visit_stack)@;
                let p = s.last()@;
                let c0 = old(self).maze.cell_at(p).unwrap();
                &&& c0.fully_assigned() ==> final(visit_stack)@ == s.drop_last()
                    && final(self).maze.slots() == old(self).maze.slots()
                &&& !c0.fully_assigned() ==> exists|d: Direction|
                    #![trigger step_taken(old(self).maze, final(self).maze, s, final(visit_stack)@, p, d)]
                    c0.edge_at(d) is None && step_taken(
                        old(self).maze,
                        final(self).maze,
                        s,
                        final(visit_stack)@,
                        p,
                        d,
                    )
            }),
            forall|x: (int, int)|
                old(self).maze.in_grid(x) && #[trigger] old(self).maze.cell_at(x) is Some ==> {
                    &&& final(self).maze.cell_at(x) is Some
                    &&& final(self).maze.cell_at(x).unwrap().location() == old(self).maze.cell_at(
                        x,
                    ).unwrap().location()
                    &&& forall|d: Direction|
                        (#[trigger] old(self).maze.cell_at(x).unwrap().edge_at(d)) is Some
                            ==> final(self).maze.cell_at(x).unwrap().edge_at(d) == old(
                            self,
                        ).maze.cell_at(x).unwrap().edge_at(d)
                },
            old(self).walking(old(visit_stack)@) ==> final(self).walking(final(visit_stack)@)
                && final(self).remaining(final(visit_stack)@) < old(self).remaining(
                old(visit_stack)@,
            ),
    {
        let ghost g0 = *self;
        let ghost m0 = self.maze;
        let ghost s0 = visit_stack@;
        proof {
            m0.lemma_index();
        }
        let top = visit_stack.len() - 1;
        let cell_coordinates = visit_stack[top];
        let ghost p = cell_coordinates@;
        assert(m0.in_grid(s0[top as int]@));
        assert(m0.width() <= i32::MAX && m0.height() <= i32::MAX) by (nonlinear_arith)
            requires
                m0.width() >= 1,
                m0.height() >= 1,
                m0.width() * m0.height() <= i32::MAX,
        ;
        let mut current_cell = match self.maze.cell(&cell_coordinates) {
            Some(cell) => cell,
            None => {
                return ;
            },
        };
        let ghost c0 = current_cell;
        assert(m0.slots()[m0.index_of(p)] == Some(c0));
        assert(c0.location()@ == p);
        if current_cell.is_fully_assigned() {
            visit_stack.pop();
            proof {
                assert(visit_stack@ =~= s0.drop_last());
                assert forall|j: int| 0 <= j < visit_stack@.len() implies m0.in_grid(
                    #[trigger] visit_stack@[j]@,
                ) && m0.cell_at(visit_stack@[j]@) is Some by {
                    assert(visit_stack@[j] == s0[j]);
                }
                if g0.walking(s0) {
                    reveal(MazeGenerator::walking);
                    MazeGenerator::lemma_pop_step(g0, s0);
                }
            }
            return ;
        }
        let direction = current_cell.random_unassigned_direction();
        let offset = direction.coordinates();
        let ghost q = step_from(p, direction);
        assert(sum_fits(current_cell.location()@, offset@));
        let neighbor_coordinates = current_cell.coordinates() + offset;
        proof {
            lemma_add_view(c0.location(), offset);
            lemma_steps(p);
        }
        assert(neighbor_coordinates@ == q);
        if self.maze.in_bounds(&neighbor_coordinates) {
            match self.maze.cell(&neighbor_coordinates) {
                Some(mut neighbor_cell) => {
                    let ghost n0 = neighbor_cell;
                    assert(m0.slots()[m0.index_of(q)] == Some(n0));
                    assert(n0.location()@ == q);
                    self.create_wall(&mut current_cell, &mut neighbor_cell, &direction);
                    proof {
                        let m1 = self.maze;
                        assert(m0.edge_agrees(p, direction));
                        lemma_link_keeps_agreement(
                            m0,
                            m1,
                            p,
                            direction,
                            current_cell,
                            neighbor_cell,
                            CellEdge::Wall,
                        );
                        assert(step_taken(m0, m1, s0, visit_stack@, p, direction));
                        lemma_step_keeps(m0, m1, s0, visit_stack@, p, direction);
                        assert forall|j: int| 0 <= j < visit_stack@.len() implies m1.in_grid(
                            #[trigger] visit_stack@[j]@,
                        ) && m1.cell_at(visit_stack@[j]@) is Some by {
                            assert(m0.cell_at(visit_stack@[j]@) is Some);
                        }
                        if g0.walking(s0) {
                            MazeGenerator::lemma_wall_step(
                                g0,
                                *self,
                                s0,
                                p,
                                direction,
                                current_cell,
                                neighbor_cell,
                            );
                        }
                    }
                },
                None => {
                    // The neighbour has not been visited: create a cell there, joined by a passage.
                    let mut neighbor_cell = self.add_new_cell(visit_stack, neighbor_coordinates);
                    let ghost n0 = neighbor_cell;
                    self.create_passage(&mut current_cell, &mut neighbor_cell, &direction);
                    self.parent = Ghost(self.parent@.insert(q, direction.reversed()));
                    self.depth = Ghost(self.depth@.insert(q, self.depth@[p] + 1));
                    proof {
                        let m1 = self.maze;
                        assert(visit_stack@.drop_last() =~= s0);
                        assert forall|d2: Direction| d2 != direction.reversed() implies #[trigger] neighbor_cell.edge_at(
                            d2,
                        ) == if m0.cell_at(q) is Some {
                            m0.cell_at(q).unwrap().edge_at(d2)
                        } else {
                            None
                        } by {}
                        lemma_link_keeps_agreement(
                            m0,
                            m1,
                            p,
                            direction,
                            current_cell,
                            neighbor_cell,
                            CellEdge::Passage,
                        );
                        assert(step_taken(m0, m1, s0, visit_stack@, p, direction));
                        lemma_step_keeps(m0, m1, s0, visit_stack@, p, direction);
                        assert forall|j: int| 0 <= j < visit_stack@.len() implies m1.in_grid(
                            #[trigger] visit_stack@[j]@,
                        ) && m1.cell_at(visit_stack@[j]@) is Some by {
                            if j < s0.len() {
                                assert(visit_stack@[j] == s0[j]);
                                assert(m0.cell_at(s0[j]@) is Some);
                            }
                        }
                        if g0.walking(s0) {
                            MazeGenerator::lemma_carve_step(
                                g0,
                                *self,
                                s0,
                                visit_stack@,
                                p,
                                direction,
                                n0,
                                current_cell,
                                neighbor_cell,
                            );
                        }
                    }
                },
            }
        } else {
            // The neighbour lies outside the maze: the edge is a border.
            self.create_border(&mut current_cell, &direction);
            proof {
                let m1 = self.maze;
                lemma_border_keeps_agreement(m0, m1, p, direction, current_cell);
                assert(step_taken(m0, m1, s0, visit_stack@, p, direction));
                lemma_step_keeps(m0, m1, s0, visit_stack@, p, direction);
                assert forall|j: int| 0 <= j < visit_stack@.len() implies m1.in_grid(
                    #[trigger] visit_stack@[j]@,
                ) && m1.cell_at(visit_stack@[j]@) is Some by {
                    assert(m0.cell_at(visit_stack@[j]@) is Some);
                }
                if g0.walking(s0) {
                    MazeGenerator::lemma_border_step(g0, *self, s0, p, direction, current_cell);
                }
            }
        }
    }

    /// Starts the walk at a cell created at random coordinates.
    fn add_first_cell(&mut self, visit_stack: &mut Vec<Coordinates>)
        requires
            old(self).fresh(),
            old(visit_stack)@.len() == 0,
        ensures
            final(self).walking(final(visit_stack)@),
            final(self).maze.width() == old(self).maze.width(),
            final(self).maze.height() == old(self).maze.height(),
            final(visit_stack)@.len() == 1,
            ({
                let start = final(visit_stack)@[0];
                let m = final(self).maze;
                &&& m.in_grid(start@)
                &&& m.cell_at(start@) is Some
                &&& m.cell_at(start@).unwrap().location() == start
                &&& forall|d: Direction| (#[trigger] m.cell_at(start@).unwrap().edge_at(d)) is None
                &&& forall|x: (int, int)|
                    m.in_grid(x) && x != start@ ==> (#[trigger] m.cell_at(x)) is None
            }),
    {
        let ghost m0 = self.maze;
        let row = random_below(self.maze.rows());
        let column = random_below(self.maze.columns());
        assert(column < i32::MAX && row < i32::MAX) by (nonlinear_arith)
            requires
                column < m0.width(),
                row < m0.height(),
                m0.width() >= 1,
                m0.height() >= 1,
                m0.width() * m0.height() <= i32::MAX,
        ;
        let coordinates = Coordinates::new(column as i32, row as i32);
        let ghost p = coordinates@;
        let ghost s0 = visit_stack@;
        let first_cell = self.add_new_cell(visit_stack, coordinates);
        self.root = Ghost(p);
        self.depth = Ghost(Map::empty().insert(p, 0nat));
        proof {
            reveal(MazeGenerator::walking);
            reveal(MazeGenerator::rooted);
            reveal(MazeGenerator::tree_links);
            reveal(tracks);
            reveal(counted);
            let m1 = self.maze;
            m0.lemma_index();
            lemma_steps(p);
            assert forall|x: (int, int)| m0.in_grid(x) implies (#[trigger] m0.cell_at(x)) is None by {}
            assert forall|x: (int, int), e: Direction| m1.in_grid(x) implies #[trigger] m1.edge_agrees(
                x,
                e,
            ) by {
                let r = step_from(x, e);
                if x == p && m1.in_grid(r) {
                    assert(m1.cell_at(r) == m0.cell_at(r));
                }
            }
            assert(visit_stack@[0]@ == p);
            lemma_all_empty(m0.slots(), cell_counter());
            lemma_all_empty(m0.slots(), edge_counter(CellEdge::Passage));
            lemma_new_cell_in_slots(m0.slots(), m0.index_of(p), first_cell);
        }
    }

    /// Fills the maze: starting from a random cell, walks it depth first until every
    /// cell has all four edges assigned.
    pub fn populate(&mut self)
        requires
            old(self).fresh(),
        ensures
            final(self).grid().width() == old(self).grid().width(),
            final(self).grid().height() == old(self).grid().height(),
            final(self).grid().wf(),
            final(self).grid().complete(),
            final(self).grid().edges_agree(),
            final(self).grid().connected(),
            final(self).grid().acyclic(),
            final(self).grid().count_cells() == final(self).grid().width()
                * final(self).grid().height(),
            final(self).grid().count_edges(CellEdge::Passage) == 2 * (final(self).grid().width()
                * final(self).grid().height() - 1),
    {
        let ghost width = self.maze.width();
        let ghost height = self.maze.height();
        let mut visit_stack: Vec<Coordinates> = Vec::new();
        self.add_first_cell(&mut visit_stack);
        while visit_stack.len() > 0
            invariant
                self.walking(visit_stack@),
                self.maze.width() == width,
                self.maze.height() == height,
            decreases self.remaining(visit_stack@),
        {
            proof {
                reveal(MazeGenerator::walking);
                reveal(tracks);
            }
            self.process_active_cell(&mut visit_stack);
        }
        proof {
            assert(visit_stack@ =~= Seq::<Coordinates>::empty());
            self.lemma_finished();
        }
    }

    /// A path along passages from the visited cell `p` back to the root.
    proof fn lemma_path_to_root(self, p: (int, int)) -> (path: Seq<(int, int)>)
        requires
            self.rooted(),
            self.maze.in_grid(p),
            self.maze.cell_at(p) is Some,
        ensures
            self.maze.is_path(path),
            path[0] == p,
            path.last() == self.root@,
        decreases self.depth@[p],
    {
        reveal(MazeGenerator::rooted);
        if p == self.root@ {
            seq![p]
        } else {
            let d = self.parent@[p];
            let q = step_from(p, d);
            let rest = self.lemma_path_to_root(q);
            assert(self.maze.linked(p, q));
            let path = seq![p] + rest;
            assert forall|i: int| 0 <= i < path.len() implies self.maze.in_grid(#[trigger] path[i]) by {
                if i > 0 {
                    assert(path[i] == rest[i - 1]);
                }
            }
            assert forall|i: int| 0 <= i < path.len() - 1 implies #[trigger] self.maze.linked(
                path[i],
                path[i + 1],
            ) by {
                if i > 0 {
                    assert(path[i] == rest[i - 1] && path[i + 1] == rest[(i - 1) + 1]);
                }
            }
            assert(path.last() == rest.last());
            path
        }
    }

    /// No cycle runs along the passages: at its deepest cell a cycle would need two
    /// different neighbours nearer the root, but each cell has one parent.
    proof fn lemma_no_cycle(self, c: Seq<(int, int)>)
        requires
            self.rooted(),
            self.tree_links(),
            self.maze.edges_agree(),
        ensures
            !self.maze.is_cycle(c),
    {
        reveal(MazeGenerator::rooted);
        reveal(MazeGenerator::tree_links);
        let m = self.maze;
        if m.is_cycle(c) {
            let n = c.len() as int;
            let k = lemma_deepest(c, self.depth@);
            let kp = (k + 1) % n;
            let km = if k == 0 {
                n - 1
            } else {
                k - 1
            };
            if k + 1 < n {
                lemma_small_mod((k + 1) as nat, n as nat);
            } else {
                lemma_mod_self_0(n);
            }
            if k == 0 {
                lemma_mod_self_0(n);
            } else {
                lemma_small_mod(k as nat, n as nat);
            }
            assert((km + 1) % n == k);
            assert(km != kp);
            if km < kp {
                assert(c[km] != c[kp]);
            } else {
                assert(c[kp] != c[km]);
            }
            let here = c[k];
            assert(m.linked(c[k], c[(k + 1) % n]));
            let db = choose|db: Direction|
                c[kp] == step_from(here, db) && #[trigger] m.edge_from(here, db) == Some(
                    CellEdge::Passage,
                );
            assert(m.edge_agrees(here, db));
            lemma_steps(here);
            lemma_steps(c[kp]);
            if !(here != self.root@ && self.parent@[here] == db) {
                assert(step_from(c[kp], db.reversed()) == here);
                assert(m.cell_at(c[kp]) is Some);
                assert(self.depth@[c[kp]] <= self.depth@[c[k]]);
            }
            assert(m.linked(c[km], c[(km + 1) % n]));
            let before = c[km];
            let da = choose|da: Direction|
                here == step_from(before, da) && #[trigger] m.edge_from(before, da) == Some(
                    CellEdge::Passage,
                );
            lemma_steps(before);
            if before != self.root@ && self.parent@[before] == da {
                assert(self.depth@[c[km]] <= self.depth@[c[k]]);
            } else {
                assert(step_from(here, da.reversed()) == before);
            }
        }
    }

    /// When no cell is active any more, the maze is complete, its edges agree, it is
    /// connected and acyclic, and its passages number one fewer than its cells.
    proof fn lemma_finished(self)
        requires
            self.walking(Seq::empty()),
        ensures
            self.maze.wf(),
            self.maze.complete(),
            self.maze.edges_agree(),
            self.maze.connected(),
            self.maze.acyclic(),
            self.maze.count_cells() == self.maze.width() * self.maze.height(),
            self.maze.count_edges(CellEdge::Passage) == 2 * (self.maze.width() * self.maze.height()
                - 1),
    {
        reveal(MazeGenerator::walking);
        reveal(tracks);
        reveal(counted);
        let m = self.maze;
        assert(self.rooted() && m.in_grid(self.root@) && m.cell_at(self.root@) is Some) by {
            reveal(MazeGenerator::rooted);
        }
        assert forall|x: (int, int)| m.in_grid(x) && (#[trigger] m.cell_at(x)) is Some implies m.cell_at(
            x,
        ).unwrap().fully_assigned() by {
            if !m.cell_at(x).unwrap().fully_assigned() {
                let j = choose|j: int| 0 <= j < 0 && #[trigger] Seq::<Coordinates>::empty()[j]@ == x;
            }
        }
        assert forall|x: (int, int)| m.in_grid(x) implies (#[trigger] m.cell_at(x)) is Some by {
            m.lemma_fill(self.root@, x);
        }
        m.lemma_index();
        assert forall|i: int| 0 <= i < m.slots().len() implies (#[trigger] m.slots()[i]) is Some by {
            assert(m.cell_at(m.position_of(i)) is Some);
        }
        lemma_all_occupied(m.slots());
        assert forall|c: Seq<(int, int)>| !#[trigger] m.is_cycle(c) by {
            self.lemma_no_cycle(c);
        }
        assert forall|a: (int, int), b: (int, int)|
            #![trigger m.in_grid(a), m.in_grid(b)]
            m.in_grid(a) && m.in_grid(b) implies m.reachable(a, b) by {
            assert(m.cell_at(a) is Some);
            assert(m.cell_at(b) is Some);
            let pa = self.lemma_path_to_root(a);
            let pb = self.lemma_path_to_root(b);
            m.lemma_reverse_path(pb);
            m.lemma_join_paths(pa, pb.reverse());
            assert(m.is_path(pa + pb.reverse().drop_first()));
        }
    }
}

} // verus!
