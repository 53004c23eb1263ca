//! The packed byte that holds one cell: a live-neighbour count, a liveness flag
//! and a "liveness just changed" flag.

use vstd::prelude::*;

verus! {

/// The five low bits of a cell byte hold the live-neighbour count.
pub const COUNT_MASK: u8 = 0x1F;

/// Bit 6 of a cell byte: the cell's liveness differs from the generation before.
pub const CHANGED_BIT: u8 = 0x40;

/// Bit 7 of a cell byte: the cell is alive.
pub const ALIVE_BIT: u8 = 0x80;

/// The neighbour count stored in a cell byte.
pub open spec fn count_of(byte: u8) -> u8 {
    byte & 0x1F
}

/// Whether a cell byte marks its cell alive.
pub open spec fn alive_of(byte: u8) -> bool {
    byte & 0x80 != 0
}

/// Whether a cell byte marks its cell as changed.
pub open spec fn changed_of(byte: u8) -> bool {
    byte & 0x40 != 0
}

/// The three fields of a cell, unpacked.
#[derive(Clone, Copy, Debug, PartialEq, Eq, Structural)]
pub struct CellState {
    pub count: u8,
    pub alive: bool,
    pub changed: bool,
}

impl CellState {
    /// The byte that stores this cell. Only the five low bits of `count` fit.
    pub open spec fn encode(self) -> u8 {
        (self.count & 0x1F) | (if self.alive { 0x80u8 } else { 0u8 }) | (if self.changed { 0x40u8 } else { 0u8 })
    }

    /// The cell that a byte stores.
    pub open spec fn decode(byte: u8) -> CellState {
        CellState { count: count_of(byte), alive: alive_of(byte), changed: changed_of(byte) }
    }

    pub fn pack(self) -> (byte: u8)
        ensures
            byte == self.encode(),
    {
        let alive: u8 = if self.alive { ALIVE_BIT } else { 0 };
        let changed: u8 = if self.changed { CHANGED_BIT } else { 0 };
        (self.count & COUNT_MASK) | alive | changed
    }

    pub fn unpack(byte: u8) -> (cell: CellState)
        ensures
            cell == CellState::decode(byte),
    {
        CellState {
            count: byte & COUNT_MASK,
            alive: byte & ALIVE_BIT != 0,
            changed: byte & CHANGED_BIT != 0,
        }
    }
}

/// Packing a cell whose count fits in five bits and unpacking the byte gives
/// the same three fields back.
pub proof fn lemma_pack_round_trip(cell: CellState)
    requires
        cell.count <= 0x1F,
    ensures
        CellState::decode(cell.encode()) == cell,
{
    let c = cell.count;
    let a: u8 = if cell.alive { 0x80 } else { 0 };
    let k: u8 = if cell.changed { 0x40 } else { 0 };
    assert(((c & 0x1F) | a | k) & 0x1F == c && ((((c & 0x1F) | a | k) & 0x80) != 0 <==> a != 0) && ((((c
        & 0x1F) | a | k) & 0x40) != 0 <==> k != 0)) by (bit_vector)
        requires
            c <= 0x1F,
            a == 0x80 || a == 0,
            k == 0x40 || k == 0,
    ;
}

/// Unpacking a byte whose spare bit is clear and packing the fields gives the
/// same byte back.
pub proof fn lemma_unpack_round_trip(byte: u8)
    requires
        byte & 0x20 == 0,
    ensures
        CellState::decode(byte).encode() == byte,
{
    assert(((byte & 0x1F) & 0x1F) | (if byte & 0x80 != 0 { 0x80u8 } else { 0u8 }) | (if byte & 0x40 != 0 {
        0x40u8
    } else {
        0u8
    }) == byte) by (bit_vector)
        requires
            byte & 0x20 == 0,
    ;
}

/// A packed byte, read as a number: the count, plus 64 if changed, plus 128 if
/// alive.
pub proof fn lemma_encode_value(cell: CellState)
    requires
        cell.count <= 0x1F,
    ensures
        cell.encode() == cell.count + (if cell.changed { 64int } else { 0 }) + (if cell.alive { 128int } else { 0 }),
{
    let c = cell.count;
    let a: u8 = if cell.alive { 0x80 } else { 0 };
    let k: u8 = if cell.changed { 0x40 } else { 0 };
    assert(((c & 0x1F) | a | k) == c + k + a) by (bit_vector)
        requires
            c <= 0x1F,
            a == 0x80 || a == 0,
            k == 0x40 || k == 0,
    ;
}

} // verus!
