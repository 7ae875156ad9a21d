//! The hexagonal grid: cells in axial coordinates `(q, r)`, the six
//! directions, and the six cells around a cell.

use vstd::prelude::*;

verus! {

/// A cell of the grid in axial coordinates `(q, r)`, as executable code holds it.
pub type Coordinate = (i64, i64);

/// A cell of the unbounded mathematical grid.
pub type Cell = (int, int);

/// The mathematical cell that a machine coordinate stands for.
pub open spec fn cell(c: Coordinate) -> Cell {
    (c.0 as int, c.1 as int)
}

/// The cells that a sequence of coordinates stands for, in the same order.
pub open spec fn cells(v: Seq<Coordinate>) -> Seq<Cell> {
    v.map_values(|c: Coordinate| cell(c))
}

/// Whether both coordinates of `c` are machine integers.
pub open spec fn on_grid(c: Cell) -> bool {
    i64::MIN <= c.0 <= i64::MAX && i64::MIN <= c.1 <= i64::MAX
}

/// One of the six ways to step from a hexagonal cell to an adjacent one.
#[derive(Copy, Clone, PartialEq, Eq, Debug, Structural)]
pub enum Direction {
    East,
    SouthEast,
    SouthWest,
    West,
    NorthWest,
    NorthEast,
}

impl Direction {
    /// The change `(dq, dr)` in axial coordinates that one step makes.
    pub open spec fn delta(self) -> Cell {
        match self {
            Direction::East => (1, 0),
            Direction::SouthEast => (0, 1),
            Direction::SouthWest => (-1, 1),
            Direction::West => (-1, 0),
            Direction::NorthWest => (0, -1),
            Direction::NorthEast => (1, -1),
        }
    }

    /// The change `(dq, dr)` in axial coordinates that one step makes.
    pub fn offset(self) -> (d: Coordinate)
        ensures
            cell(d) == self.delta(),
    {
        match self {
            Direction::East => (1, 0),
            Direction::SouthEast => (0, 1),
            Direction::SouthWest => (-1, 1),
            Direction::West => (-1, 0),
            Direction::NorthWest => (0, -1),
            Direction::NorthEast => (1, -1),
        }
    }
}

/// The cell reached from `c` by one step in direction `d`.
pub open spec fn step(c: Cell, d: Direction) -> Cell {
    (c.0 + d.delta().0, c.1 + d.delta().1)
}

/// The six cells around `c`, clockwise from the north-east.
pub open spec fn neighbors(c: Cell) -> Seq<Cell> {
    seq![
        (c.0 + 1, c.1 - 1),
        (c.0 + 1, c.1),
        (c.0, c.1 + 1),
        (c.0 - 1, c.1 + 1),
        (c.0 - 1, c.1),
        (c.0, c.1 - 1),
    ]
}

/// The six directions in the order in which `neighbors` lists the cells.
pub open spec fn clockwise() -> Seq<Direction> {
    seq![
        Direction::NorthEast,
        Direction::East,
        Direction::SouthEast,
        Direction::SouthWest,
        Direction::West,
        Direction::NorthWest,
    ]
}

/// Whether `a` and `b` share an edge.
pub open spec fn adjacent(a: Cell, b: Cell) -> bool {
    neighbors(a).contains(b)
}

/// Each cell around `c` is one step from `c`, in the direction that stands at
/// the same place of `clockwise`; so the cells around `c` are the cells one
/// step away from it.
pub proof fn lemma_neighbors_are_steps(c: Cell)
    ensures
        neighbors(c).len() == 6,
        clockwise().len() == 6,
        forall|i: int| 0 <= i < 6 ==> #[trigger] neighbors(c)[i] == step(c, clockwise()[i]),
        forall|d: Direction| adjacent(c, #[trigger] step(c, d)),
        forall|b: Cell| adjacent(c, b) ==> exists|d: Direction| step(c, d) == b,
{
    assert forall|d: Direction| adjacent(c, #[trigger] step(c, d)) by {
        let i: int = match d {
            Direction::NorthEast => 0,
            Direction::East => 1,
            Direction::SouthEast => 2,
            Direction::SouthWest => 3,
            Direction::West => 4,
            Direction::NorthWest => 5,
        };
        assert(neighbors(c)[i] == step(c, d));
    }
    assert forall|b: Cell| adjacent(c, b) implies exists|d: Direction| step(c, d) == b by {
        let i = choose|i: int| 0 <= i < 6 && neighbors(c)[i] == b;
        assert(step(c, clockwise()[i]) == b);
    }
}

/// Sharing an edge is mutual, and no cell shares an edge with itself.
pub proof fn lemma_adjacent_symmetric(a: Cell, b: Cell)
    ensures
        adjacent(a, b) == adjacent(b, a),
        !adjacent(a, a),
{
    if adjacent(a, b) {
        let i = choose|i: int| 0 <= i < 6 && neighbors(a)[i] == b;
        let j = (i + 3) % 6;
        assert(neighbors(b)[j] == a);
    }
    if adjacent(b, a) {
        let i = choose|i: int| 0 <= i < 6 && neighbors(b)[i] == a;
        let j = (i + 3) % 6;
        assert(neighbors(a)[j] == b);
    }
}

} // verus!
