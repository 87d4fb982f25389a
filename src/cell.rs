use vstd::prelude::*;

verus! {

/// Bit index of the `visited` flag.
pub const VISITED_BIT: u8 = 0;
/// Bit index of the `right` wall flag.
pub const RIGHT_BIT: u8 = 1;
/// Bit index of the `bottom` wall flag.
pub const BOTTOM_BIT: u8 = 2;

/// Whether bit `i` of `b` is set.
pub open spec fn bit_of(b: u8, i: u8) -> bool {
    (b >> i) & 1u8 == 1u8
}

/// `b` with bit `i` set to `v`.
pub open spec fn with_bit(b: u8, i: u8, v: bool) -> u8 {
    if v {
        b | (1u8 << i)
    } else {
        b & !(1u8 << i)
    }
}

/// Setting one bit changes that bit and keeps every other one.
pub proof fn lemma_with_bit(b: u8, i: u8, v: bool, j: u8)
    requires
        i < 8,
        j < 8,
    ensures
        bit_of(with_bit(b, i, v), j) == if i == j { v } else { bit_of(b, j) },
{
    if v {
        assert(((b | (1u8 << i)) >> j) & 1u8 == 1u8 <==> (i == j || (b >> j) & 1u8 == 1u8))
            by (bit_vector)
            requires
                i < 8,
                j < 8,
        ;
    } else {
        assert(((b & !(1u8 << i)) >> j) & 1u8 == 1u8 <==> (i != j && (b >> j) & 1u8 == 1u8))
            by (bit_vector)
            requires
                i < 8,
                j < 8,
        ;
    }
}

/// One grid cell: three independent flags packed into a byte.
///
/// `right` and `bottom` say whether the edge to the right neighbour and to the
/// neighbour below is still closed; the cell to the left or above owns every
/// other edge.
#[derive(Clone, Copy, Debug, PartialEq, Eq, Structural)]
pub struct MazeCell(pub u8);

impl MazeCell {
    pub open spec fn visited_flag(self) -> bool {
        bit_of(self.0, VISITED_BIT)
    }

    pub open spec fn right_flag(self) -> bool {
        bit_of(self.0, RIGHT_BIT)
    }

    pub open spec fn bottom_flag(self) -> bool {
        bit_of(self.0, BOTTOM_BIT)
    }

    pub open spec fn with_flag(self, i: u8, v: bool) -> MazeCell {
        MazeCell(with_bit(self.0, i, v))
    }

    /// Setting one flag changes that flag and keeps the other two.
    pub proof fn lemma_with_flag(self, i: u8, v: bool)
        requires
            i == VISITED_BIT || i == RIGHT_BIT || i == BOTTOM_BIT,
        ensures
            self.with_flag(i, v).visited_flag() == if i == VISITED_BIT { v } else { self.visited_flag() },
            self.with_flag(i, v).right_flag() == if i == RIGHT_BIT { v } else { self.right_flag() },
            self.with_flag(i, v).bottom_flag() == if i == BOTTOM_BIT { v } else { self.bottom_flag() },
    {
        lemma_with_bit(self.0, i, v, VISITED_BIT);
        lemma_with_bit(self.0, i, v, RIGHT_BIT);
        lemma_with_bit(self.0, i, v, BOTTOM_BIT);
    }

    /// The default cell: not yet visited, with both of its walls closed.
    pub fn new() -> (r: MazeCell)
        ensures
            r.0 == 6,
            !r.visited_flag(),
            r.right_flag(),
            r.bottom_flag(),
    {
        assert((6u8 >> 0u8) & 1u8 == 0u8 && (6u8 >> 1u8) & 1u8 == 1u8 && (6u8 >> 2u8) & 1u8 == 1u8)
            by (bit_vector);
        MazeCell(6)
    }

    fn get_bit(&self, i: u8) -> (r: bool)
        requires
            i < 8,
        ensures
            r == bit_of(self.0, i),
    {
        (self.0 >> i) & 1u8 == 1u8
    }

    fn set_bit(&mut self, i: u8, v: bool)
        requires
            i < 8,
        ensures
            *final(self) == old(self).with_flag(i, v),
            forall|j: u8| j < 8 ==> bit_of(final(self).0, j) == if i == j { v } else { bit_of(old(self).0, j) },
    {
        proof {
            assert forall|j: u8| j < 8 implies bit_of(with_bit(self.0, i, v), j) == if i == j { v } else { bit_of(self.0, j) } by {
                lemma_with_bit(self.0, i, v, j);
            }
        }
        if v {
            self.0 = self.0 | (1u8 << i);
        } else {
            self.0 = self.0 & !(1u8 << i);
        }
    }

    /// Whether the traversal has entered this cell.
    pub fn visited(&self) -> (r: bool)
        ensures
            r == self.visited_flag(),
    {
        self.get_bit(VISITED_BIT)
    }

    /// Whether the edge to the right neighbour is closed.
    pub fn right(&self) -> (r: bool)
        ensures
            r == self.right_flag(),
    {
        self.get_bit(RIGHT_BIT)
    }

    /// Whether the edge to the neighbour below is closed.
    pub fn bottom(&self) -> (r: bool)
        ensures
            r == self.bottom_flag(),
    {
        self.get_bit(BOTTOM_BIT)
    }

    pub fn set_visited(&mut self, v: bool)
        ensures
            *final(self) == old(self).with_flag(VISITED_BIT, v),
            final(self).visited_flag() == v,
            final(self).right_flag() == old(self).right_flag(),
            final(self).bottom_flag() == old(self).bottom_flag(),
    {
        self.set_bit(VISITED_BIT, v)
    }

    pub fn set_right(&mut self, v: bool)
        ensures
            *final(self) == old(self).with_flag(RIGHT_BIT, v),
            final(self).right_flag() == v,
            final(self).visited_flag() == old(self).visited_flag(),
            final(self).bottom_flag() == old(self).bottom_flag(),
    {
        self.set_bit(RIGHT_BIT, v)
    }

    pub fn set_bottom(&mut self, v: bool)
        ensures
            *final(self) == old(self).with_flag(BOTTOM_BIT, v),
            final(self).bottom_flag() == v,
            final(self).visited_flag() == old(self).visited_flag(),
            final(self).right_flag() == old(self).right_flag(),
    {
        self.set_bit(BOTTOM_BIT, v)
    }
}

} // verus!
