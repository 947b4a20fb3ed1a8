use vstd::prelude::*;
use vstd::std_specs::ops::AddSpec;

verus! {

/// A location in a maze, as a column and a row.
#[derive(Copy, Clone, Debug, PartialEq, Eq, Structural)]
pub struct Coordinates {
    column: i32,
    row: i32,
}

impl View for Coordinates {
    type V = (int, int);

    /// The column and the row, as mathematical integers.
    closed spec fn view(&self) -> (int, int) {
        (self.column as int, self.row as int)
    }
}

/// True when the componentwise sum of `a` and `b` fits in `i32`.
pub open spec fn sum_fits(a: (int, int), b: (int, int)) -> bool {
    i32::MIN <= a.0 + b.0 <= i32::MAX && i32::MIN <= a.1 + b.1 <= i32::MAX
}

impl Coordinates {
    /// The offset that, added to coordinates, gives the coordinates above them.
    pub fn up() -> (r: Coordinates)
        ensures
            r@ == (0int, 1int),
    {
        Coordinates { column: 0, row: 1 }
    }

    /// The offset that, added to coordinates, gives the coordinates to their right.
    pub fn right() -> (r: Coordinates)
        ensures
            r@ == (1int, 0int),
    {
        Coordinates { column: 1, row: 0 }
    }

    /// The offset that, added to coordinates, gives the coordinates below them.
    pub fn down() -> (r: Coordinates)
        ensures
            r@ == (0int, -1int),
    {
        Coordinates { column: 0, row: -1 }
    }

    /// The offset that, added to coordinates, gives the coordinates to their left.
    pub fn left() -> (r: Coordinates)
        ensures
            r@ == (-1int, 0int),
    {
        Coordinates { column: -1, row: 0 }
    }

    /// Creates coordinates with the given column and row.
    pub fn new(column: i32, row: i32) -> (r: Coordinates)
        ensures
            r@ == (column as int, row as int),
    {
        Coordinates { column, row }
    }

    /// Returns the row.
    pub fn row(&self) -> (r: i32)
        ensures
            r as int == self@.1,
    {
        self.row
    }

    /// Returns the column.
    pub fn column(&self) -> (r: i32)
        ensures
            r as int == self@.0,
    {
        self.column
    }

    /// The column and the row lie in the range of `i32`.
    pub proof fn lemma_view_bounds(c: Coordinates)
        ensures
            i32::MIN <= c@.0 <= i32::MAX,
            i32::MIN <= c@.1 <= i32::MAX,
    {
    }

    /// Two coordinates with the same column and row are the same value.
    pub proof fn lemma_view_injective(a: Coordinates, b: Coordinates)
        ensures
            a@ == b@ <==> a == b,
    {
    }
}

impl std::ops::Add<Coordinates> for Coordinates {
    type Output = Coordinates;

    fn add(self, increment: Coordinates) -> (r: Coordinates) {
        Coordinates { column: self.column + increment.column, row: self.row + increment.row }
    }
}

impl vstd::std_specs::ops::AddSpecImpl<Coordinates> for Coordinates {
    open spec fn obeys_add_spec() -> bool {
        true
    }

    open spec fn add_req(self, increment: Coordinates) -> bool {
        sum_fits(self@, increment@)
    }

    closed spec fn add_spec(self, increment: Coordinates) -> Coordinates {
        Coordinates {
            column: (self.column + increment.column) as i32,
            row: (self.row + increment.row) as i32,
        }
    }
}

/// Adding coordinates adds their columns and their rows.
pub proof fn lemma_add_view(a: Coordinates, b: Coordinates)
    requires
        sum_fits(a@, b@),
    ensures
        (#[trigger] a.add_spec(b))@ == (a@.0 + b@.0, a@.1 + b@.1),
{
}

} // verus!
