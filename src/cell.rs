use crate::errors::PercolationError;
use vstd::prelude::*;

verus! {

/// Ids are stored in 24 bits: every id is below this bound.
pub const ID_LIMIT: u32 = 0x100_0000;

/// The id held in the three low bytes, most significant first.
pub open spec fn packed_id(a: u8, b: u8, c: u8) -> u32 {
    ((a as u32) << 16u32) | ((b as u32) << 8u32) | (c as u32)
}

/// A lattice site: an 8-bit colour and a 24-bit cluster id packed in four bytes.
///
/// Colour 0 is the background; id 0 means "no cluster".
#[derive(Clone, Copy, Debug)]
pub struct Cell {
    repr: [u8; 4],
}

impl View for Cell {
    /// `(colour, id)`.
    type V = (u8, u32);

    closed spec fn view(&self) -> (u8, u32) {
        (self.repr[0], packed_id(self.repr[1], self.repr[2], self.repr[3]))
    }
}

/// The id of a cell always fits in 24 bits.
pub proof fn lemma_id_fits(c: Cell)
    ensures
        c@.1 < ID_LIMIT,
{
    let (a, b, d) = (c.repr[1], c.repr[2], c.repr[3]);
    assert(((a as u32) << 16u32) | ((b as u32) << 8u32) | (d as u32) < 0x100_0000u32)
        by (bit_vector);
}

impl Default for Cell {
    fn default() -> (r: Self)
        ensures
            r@ == (0u8, 0u32),
    {
        Cell::new(0)
    }
}

impl Cell {
    /// A cell of the given colour, not yet in any cluster.
    pub fn new(color: u8) -> (r: Self)
        ensures
            r@ == (color, 0u32),
    {
        proof {
            assert(((0u8 as u32) << 16u32) | ((0u8 as u32) << 8u32) | (0u8 as u32) == 0u32)
                by (bit_vector);
        }
        Cell { repr: [color, 0, 0, 0] }
    }

    pub fn get_color(&self) -> (r: u8)
        ensures
            r == self@.0,
    {
        self.repr[0]
    }

    pub fn same_color(&self, other: &Self) -> (r: bool)
        ensures
            r == (self@.0 == other@.0),
    {
        self.get_color() == other.get_color()
    }

    /// Whether this is a background cell.
    pub fn is_white(&self) -> (r: bool)
        ensures
            r == (self@.0 == 0),
    {
        self.get_color() == 0
    }

    pub fn set_color(&mut self, color: u8)
        ensures
            final(self)@ == (color, old(self)@.1),
    {
        self.repr = [color, self.repr[1], self.repr[2], self.repr[3]];
    }

    pub fn get_id(&self) -> (r: u32)
        ensures
            r == self@.1,
    {
        ((self.repr[1] as u32) << 16u32) | ((self.repr[2] as u32) << 8u32) | (self.repr[3] as u32)
    }

    pub fn is_id(&self, candidate: u32) -> (r: bool)
        ensures
            r == (self@.1 == candidate),
    {
        self.get_id() == candidate
    }

    /// Stores `id`; an id that does not fit in 24 bits is refused and the cell is left as it was.
    pub fn set_id(&mut self, id: u32) -> (r: Result<(), PercolationError>)
        ensures
            id < ID_LIMIT ==> r is Ok && final(self)@ == (old(self)@.0, id),
            id >= ID_LIMIT ==> r == Err::<(), _>(PercolationError::ClusterIdOverflow)
                && *final(self) == *old(self),
    {
        if id >= ID_LIMIT {
            return Err(PercolationError::ClusterIdOverflow);
        }
        let a = (id >> 16u32) as u8;
        let b = (id >> 8u32) as u8;
        let c = id as u8;
        proof {
            assert(id < 0x100_0000u32 ==> ((((id >> 16u32) as u8) as u32) << 16u32) | ((((id
                >> 8u32) as u8) as u32) << 8u32) | ((id as u8) as u32) == id) by (bit_vector);
        }
        self.repr = [self.repr[0], a, b, c];
        Ok(())
    }

    /// Sets the id to `to` when it is `from`; any other cell is left as it was.
    pub fn replace_id(&mut self, from: u32, to: u32) -> (r: Result<(), PercolationError>)
        ensures
            old(self)@.1 != from ==> r is Ok && *final(self) == *old(self),
            old(self)@.1 == from && to < ID_LIMIT ==> r is Ok && final(self)@ == (old(self)@.0, to),
            old(self)@.1 == from && to >= ID_LIMIT ==> r == Err::<(), _>(
                PercolationError::ClusterIdOverflow,
            ) && *final(self) == *old(self),
    {
        if self.is_id(from) {
            self.set_id(to)
        } else {
            Ok(())
        }
    }

    /// Reports a cell whose colour and id disagree (background with an id, or the reverse).
    pub fn validate(&self) -> (r: Result<(), PercolationError>)
        ensures
            r is Ok <==> ((self@.0 == 0) == (self@.1 == 0)),
            r is Err ==> r == Err::<(), _>(PercolationError::InvariantViolation),
    {
        if self.is_white() != self.is_id(0) {
            Err(PercolationError::InvariantViolation)
        } else {
            Ok(())
        }
    }
}

} // verus!
