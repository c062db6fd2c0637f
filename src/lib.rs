//! Extraction of the tile maps and tilesets of a GBC cartridge ROM: banked
//! address translation, map and tileset records, the run-length coded BG
//! streams, tile rendering onto an RGB canvas, and the grouping of maps
//! into zones by their neighbor links.

pub mod tileset;
pub mod map;
pub mod canvas;
pub mod zone;

pub use canvas::Canvas;
pub use map::{BGDecoder, WorldMap, NUM_MAPS};
pub use tileset::{get_tileset, tileset_offset, NUM_TILESETS};

use vstd::prelude::*;

verus! {

/// Size of one switchable ROM bank.
pub const BANK_SIZE: usize = 0x4000;

/// Length of the ROM up to and including the map tables (banks 0x00..0x5A).
pub const MIN_ROM_LEN: usize = 0x5B * 0x4000;

/// Start of the switchable ROM window.
pub const ROM1_START: u16 = 0x4000;

/// End (exclusive) of the switchable ROM window.
pub const ROM1_END: u16 = 0x8000;

/// Little-endian 16-bit value of two bytes.
pub open spec fn u16_le(lo: u8, hi: u8) -> u16 {
    (lo as u16 | ((hi as u16) << 8u16)) as u16
}

/// The 16-bit little-endian value stored at `offset` in `buf`.
pub open spec fn u16_at(buf: Seq<u8>, offset: int) -> u16 {
    u16_le(buf[offset], buf[offset + 1])
}

/// Reads a little-endian 16-bit value at `offset`.
pub fn read_u16(buf: &[u8], offset: usize) -> (r: u16)
    requires
        offset + 1 < buf@.len(),
    ensures
        r == u16_at(buf@, offset as int),
        r as int == buf@[offset as int] + 256 * buf@[offset + 1],
{
    let lo = buf[offset];
    let hi = buf[offset + 1];
    proof {
        assert((lo as u16 | ((hi as u16) << 8u16)) as int == lo + 256 * hi) by (bit_vector);
    }
    (lo as u16) | ((hi as u16) << 8)
}

/// Whether `addr` lies in the switchable ROM window.
pub open spec fn in_rom1(addr: int) -> bool {
    ROM1_START <= addr < ROM1_END
}

/// The linear file offset of the banked address `bank:addr`.
pub open spec fn rom1_offset_spec(bank: int, addr: int) -> int {
    BANK_SIZE * bank + (addr - ROM1_START)
}

/// Gets the ROM offset for a switchable-window address `bank:addr`.
pub fn rom1_offset(bank: u8, addr: u16) -> (r: usize)
    requires
        in_rom1(addr as int),
    ensures
        r == rom1_offset_spec(bank as int, addr as int),
{
    BANK_SIZE * bank as usize + (addr as usize - ROM1_START as usize)
}

} // verus!
