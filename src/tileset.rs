//! Tilesets.
//!
//! A tileset is a block of 16x12 tile patterns (0xC00 bytes) followed
//! by 8 palettes (0x40 bytes). Tilesets are stored in banks 0x40..0x53,
//! five per bank; tilesets 98 and 99 are zero filled.
use vstd::prelude::*;
use vstd::slice::slice_subrange;
use crate::{rom1_offset_spec, BANK_SIZE};

verus! {

pub const NUM_TILESETS: u8 = 98;

/// Bytes of tile patterns in a tileset.
pub const TILES_LEN: usize = 0xC00;

/// Bytes of palettes in a tileset; they follow the tile patterns.
pub const PALETTES_LEN: usize = 0x40;

/// Distance between two tilesets of one bank.
pub const TILESET_STRIDE: usize = 0xC40;

/// The ROM offset at which tileset `id` starts.
pub open spec fn tileset_offset_spec(id: int) -> int {
    rom1_offset_spec(0x40 + id / 5, 0x4001 + (id % 5) * TILESET_STRIDE)
}

/// Gets the ROM offset to a tileset.
pub fn tileset_offset(tileset_id: u8) -> (r: usize)
    ensures
        r == tileset_offset_spec(tileset_id as int),
{
    let bank = 0x40 + tileset_id as usize / 5;
    let addr = 0x4001 + (tileset_id as usize % 5) * TILESET_STRIDE;
    BANK_SIZE * bank + (addr - 0x4000)
}

/// Whether the whole of tileset `id` lies inside the ROM.
pub open spec fn tileset_in_rom(rom: Seq<u8>, id: int) -> bool {
    tileset_offset_spec(id) + TILES_LEN + PALETTES_LEN <= rom.len()
}

/// The tile patterns of tileset `id`.
pub open spec fn tileset_tiles(rom: Seq<u8>, id: int) -> Seq<u8> {
    rom.subrange(tileset_offset_spec(id), tileset_offset_spec(id) + TILES_LEN)
}

/// The palettes of tileset `id`.
pub open spec fn tileset_palettes(rom: Seq<u8>, id: int) -> Seq<u8> {
    rom.subrange(
        tileset_offset_spec(id) + TILES_LEN,
        tileset_offset_spec(id) + TILES_LEN + PALETTES_LEN,
    )
}

/// Gets the tiles and palettes of a tileset from the ROM.
pub fn get_tileset<'a>(rom: &'a [u8], tileset_id: u8) -> (r: (&'a [u8], &'a [u8]))
    requires
        tileset_in_rom(rom@, tileset_id as int),
    ensures
        r.0@ == tileset_tiles(rom@, tileset_id as int),
        r.1@ == tileset_palettes(rom@, tileset_id as int),
        r.0@.len() == TILES_LEN,
        r.1@.len() == PALETTES_LEN,
{
    let ofs = tileset_offset(tileset_id);
    let tiles = slice_subrange(rom, ofs, ofs + TILES_LEN);
    let palettes = slice_subrange(rom, ofs + TILES_LEN, ofs + TILES_LEN + PALETTES_LEN);
    (tiles, palettes)
}

} // verus!
