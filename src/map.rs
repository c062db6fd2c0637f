//! Maps.
//!
//! A map is one screen of data, identified by an id. Map records (0x14
//! bytes each) are stored in banks 0x54/0x55. The first byte is the
//! tileset id; the next 2*4 bytes are the ids of the neighboring maps in
//! the up/right/down/left directions. The rest of the record is unknown.
//!
//! The location of the BG data (tiles and attributes) of a map is kept in
//! a separate table in bank 0x5A. Tile and attribute data are compressed
//! with a simple run-length scheme.
use vstd::prelude::*;
use vstd::slice::slice_subrange;
use crate::canvas::{in_tile, tile_color, Canvas};
use crate::tileset::{get_tileset, tileset_in_rom, tileset_palettes, tileset_tiles};
use crate::{in_rom1, read_u16, rom1_offset, rom1_offset_spec, u16_at, MIN_ROM_LEN, ROM1_END};

verus! {

pub const NUM_MAPS: u16 = 1545;

/// Maps with a smaller id have their record in bank 0x54, the others in 0x55.
pub const MAP_SPLIT: u16 = 800;

/// Size of one map record.
pub const MAP_RECORD_LEN: u16 = 0x14;

/// Number of attribute bytes decoded for a map (20x19).
pub const ATTRIBS_LEN: usize = 380;

#[derive(Copy, Clone, Debug, PartialEq, Eq, Structural)]
pub struct WorldMap {
    pub map_id: u16,
}

/// The ROM offset of the record of map `id`.
pub open spec fn map_record_offset(id: int) -> int {
    if id < MAP_SPLIT {
        rom1_offset_spec(0x54, 0x4001 + MAP_RECORD_LEN * id)
    } else {
        rom1_offset_spec(0x55, 0x4001 + MAP_RECORD_LEN * (id - MAP_SPLIT))
    }
}

/// The record of map `id`.
pub open spec fn map_record(rom: Seq<u8>, id: int) -> Seq<u8> {
    rom.subrange(map_record_offset(id), map_record_offset(id) + MAP_RECORD_LEN)
}

/// The neighbor of map `id` in direction `d` (0 up, 1 right, 2 down, 3 left).
pub open spec fn neighbor_spec(rom: Seq<u8>, id: int, d: int) -> Option<WorldMap> {
    let n = u16_at(rom, map_record_offset(id) + 1 + 2 * d) & 0x7FFF;
    if n < NUM_MAPS {
        Some(WorldMap { map_id: n })
    } else {
        None
    }
}

/// The (bank, address) of the compressed BG data of map `id`.
pub open spec fn bg_location_spec(rom: Seq<u8>, id: int) -> (u8, u16) {
    let ofs = rom1_offset_spec(0x5A, 0x4001 + 3 * id);
    (rom[ofs + 2], u16_at(rom, ofs))
}

/// A tile-number byte that is copied as it is.
pub open spec fn is_tile_literal(a: u8) -> bool {
    a & 0x80 == 0 || a >= 0xA0
}

/// The bytes that the run byte `a` of the tile stream stands for, after `prev`.
pub open spec fn tile_run(a: u8, prev: u8) -> Seq<u8> {
    let count = ((a & 0xF) + 2) as nat;
    if a & 0x10 != 0 {
        Seq::new(count, |k: int| ((prev + k + 1) % 256) as u8)
    } else {
        Seq::new(count, |k: int| prev)
    }
}

/// Decodes tile numbers from `input[i..]` after the output `out` until at
/// least `len` bytes are out; gives the output and the input bytes consumed.
pub open spec fn unpack_tiles(input: Seq<u8>, i: nat, out: Seq<u8>, len: nat) -> Option<(Seq<u8>, nat)>
    decreases input.len() - i,
{
    if out.len() >= len {
        Some((out, i))
    } else if i >= input.len() {
        None
    } else if is_tile_literal(input[i as int]) {
        unpack_tiles(input, i + 1, out.push(input[i as int]), len)
    } else if out.len() == 0 {
        None
    } else {
        unpack_tiles(input, i + 1, out + tile_run(input[i as int], out.last()), len)
    }
}

/// The tile numbers decoded from `bank:addr` to fill `len` bytes, with the
/// input bytes consumed; `None` where the stream is corrupt.
pub open spec fn tiles_from(rom: Seq<u8>, bank: u8, addr: u16, len: nat) -> Option<(Seq<u8>, nat)> {
    let ofs = rom1_offset_spec(bank as int, addr as int);
    if !in_rom1(addr as int) || ofs > rom.len() {
        None
    } else {
        match unpack_tiles(rom.subrange(ofs, rom.len() as int), 0, Seq::empty(), len) {
            Some(r) => if r.0.len() == len && addr + r.1 < ROM1_END {
                Some(r)
            } else {
                None
            },
            None => None,
        }
    }
}

/// An attribute byte that is copied as it is: its palette number is neither 6 nor 7.
pub open spec fn is_attrib_literal(a: u8) -> bool {
    a & 6 != 6
}

/// The length of the run that the attribute byte `a` stands for.
pub open spec fn attrib_run_len(a: u8) -> nat {
    (((a >> 4u8) | ((a & 1) << 4u8)) + 2) as nat
}

/// Decodes attributes from `input[i..]` after the output `out` until at
/// least `len` bytes are out.
pub open spec fn unpack_attribs(input: Seq<u8>, i: nat, out: Seq<u8>, len: nat) -> Option<Seq<u8>>
    decreases input.len() - i,
{
    if out.len() >= len {
        Some(out)
    } else if i >= input.len() {
        None
    } else if is_attrib_literal(input[i as int]) {
        unpack_attribs(input, i + 1, out.push(input[i as int]), len)
    } else if out.len() == 0 {
        None
    } else {
        unpack_attribs(
            input,
            i + 1,
            out + Seq::new(attrib_run_len(input[i as int]), |k: int| out.last()),
            len,
        )
    }
}

proof fn lemma_unpack_attribs_literals(input: Seq<u8>, i: nat, out: Seq<u8>, len: nat)
    requires
        forall|t: int| 0 <= t < out.len() ==> is_attrib_literal(#[trigger] out[t]),
    ensures
        unpack_attribs(input, i, out, len) matches Some(s) ==> forall|t: int| 0 <= t < s.len() ==> is_attrib_literal(#[trigger] s[t]),
    decreases input.len() - i,
{
    if out.len() < len && i < input.len() {
        let a = input[i as int];
        if is_attrib_literal(a) {
            let o2 = out.push(a);
            assert forall|t: int| 0 <= t < o2.len() implies is_attrib_literal(#[trigger] o2[t]) by {
                if t < out.len() {
                    assert(o2[t] == out[t]);
                }
            }
            lemma_unpack_attribs_literals(input, i + 1, o2, len);
        } else if out.len() > 0 {
            let o2 = out + Seq::new(attrib_run_len(a), |k: int| out.last());
            assert forall|t: int| 0 <= t < o2.len() implies is_attrib_literal(#[trigger] o2[t]) by {
                if t < out.len() {
                    assert(o2[t] == out[t]);
                } else {
                    assert(o2[t] == out[out.len() - 1]);
                }
            }
            lemma_unpack_attribs_literals(input, i + 1, o2, len);
        }
    }
}

/// Decoded attributes never select palette 6 or 7: those palette numbers
/// mark runs in the compressed stream, and runs only repeat earlier bytes.
pub proof fn lemma_attribs_no_run_palettes(rom: Seq<u8>, bank: u8, addr: u16, cap: nat)
    requires
        attribs_from(rom, bank, addr, cap) is Some,
    ensures
        forall|t: int| 0 <= t < (attribs_from(rom, bank, addr, cap)->0).len()
            ==> (#[trigger] (attribs_from(rom, bank, addr, cap)->0)[t]) & 7 != 6
                && (attribs_from(rom, bank, addr, cap)->0)[t] & 7 != 7,
{
    let start = attribs_start(rom, bank, addr)->0;
    let ofs = rom1_offset_spec(start.0 as int, start.1 as int);
    lemma_unpack_attribs_literals(rom.subrange(ofs, rom.len() as int), 0, Seq::empty(), ATTRIBS_LEN as nat);
    let s = attribs_from(rom, bank, addr, cap)->0;
    assert forall|t: int| 0 <= t < s.len() implies #[trigger] s[t] & 7 != 6 && s[t] & 7 != 7 by {
        let b = s[t];
        assert(is_attrib_literal(b));
        assert(b & 6 != 6 ==> b & 7 != 6 && b & 7 != 7) by (bit_vector);
    }
}

/// Where the attribute stream starts: a first byte of 7 moves it to the
/// start of the next bank.
pub open spec fn attribs_start(rom: Seq<u8>, bank: u8, addr: u16) -> Option<(u8, u16)> {
    let ofs = rom1_offset_spec(bank as int, addr as int);
    if !in_rom1(addr as int) || ofs >= rom.len() {
        None
    } else if rom[ofs] == 7 {
        if bank < 255 {
            Some(((bank + 1) as u8, 0x4001u16))
        } else {
            None
        }
    } else {
        Some((bank, addr))
    }
}

/// The attributes decoded from `bank:addr` into a buffer of `cap` bytes.
pub open spec fn attribs_from(rom: Seq<u8>, bank: u8, addr: u16, cap: nat) -> Option<Seq<u8>> {
    match attribs_start(rom, bank, addr) {
        None => None,
        Some(start) => {
            let ofs = rom1_offset_spec(start.0 as int, start.1 as int);
            if ofs > rom.len() {
                None
            } else {
            match unpack_attribs(rom.subrange(ofs, rom.len() as int), 0, Seq::empty(), ATTRIBS_LEN as nat) {
                Some(s) => if s.len() <= cap {
                    Some(s)
                } else {
                    None
                },
                None => None,
            }
            }
        },
    }
}

/// Decoding never shortens what is already out.
proof fn lemma_unpack_attribs_grows(input: Seq<u8>, i: nat, out: Seq<u8>, len: nat)
    ensures
        unpack_attribs(input, i, out, len) matches Some(s) ==> s.len() >= out.len(),
    decreases input.len() - i,
{
    if out.len() < len && i < input.len() {
        if is_attrib_literal(input[i as int]) {
            lemma_unpack_attribs_grows(input, i + 1, out.push(input[i as int]), len);
        } else if out.len() > 0 {
            lemma_unpack_attribs_grows(
                input,
                i + 1,
                out + Seq::new(attrib_run_len(input[i as int]), |k: int| out.last()),
                len,
            );
        }
    }
}

/// The tile numbers and attributes of map `id`, decoded into buffers of
/// `tiles_len` and `attribs_cap` bytes.
pub open spec fn bg_spec(rom: Seq<u8>, id: int, tiles_len: nat, attribs_cap: nat) -> Option<(Seq<u8>, Seq<u8>)> {
    let loc = bg_location_spec(rom, id);
    match tiles_from(rom, loc.0, loc.1, tiles_len) {
        None => None,
        Some(t) => match attribs_from(rom, loc.0, (loc.1 + t.1) as u16, attribs_cap) {
            None => None,
            Some(a) => Some((t.0, a)),
        },
    }
}

/// Map width in tiles.
pub const MAP_TILES_W: usize = 20;

/// Map height in tiles.
pub const MAP_TILES_H: usize = 18;

/// Number of tiles on a map (20x18).
pub const MAP_TILES: usize = 360;

/// Size of the attribute buffer: some maps decode past 20x18.
pub const ATTRIBS_BUF_LEN: usize = 450;

/// The signed value of a tile-number byte.
pub open spec fn signed_tile_num(tn: u8) -> int {
    if tn < 128 {
        tn as int
    } else {
        tn - 256
    }
}

/// The VRAM address of a tile number in the signed addressing mode.
pub open spec fn tile_address_spec(tn: u8) -> int {
    0x9000 + 16 * signed_tile_num(tn)
}

/// Whether a tile number addresses the tileset region 0x8C00..0x9800.
pub open spec fn tile_num_valid(tn: u8) -> bool {
    0x8C00 <= tile_address_spec(tn) < 0x9800
}

/// Whether (px, py) lies in the 160x144 map with the top-left at (x, y).
pub open spec fn in_map(x: int, y: int, px: int, py: int) -> bool {
    x <= px < x + 160 && y <= py < y + 144
}

/// The index of the tile that covers pixel (mx, my) of a map.
pub open spec fn cell_of(mx: int, my: int) -> int {
    (my / 8) * 20 + mx / 8
}

/// The color of pixel (mx, my) of a map with the given tile numbers and
/// attributes, drawn with a tileset's tiles and palettes.
pub open spec fn map_color(tiles: Seq<u8>, palettes: Seq<u8>, nums: Seq<u8>, attribs: Seq<u8>, mx: int, my: int) -> (u8, u8, u8) {
    let i = cell_of(mx, my);
    let ofs = tile_address_spec(nums[i]) - 0x8C00;
    let pal = 8 * (attribs[i] & 7);
    tile_color(tiles.subrange(ofs, ofs + 16), palettes.subrange(pal as int, pal + 8), mx % 8, my % 8)
}

/// Whether map `id` can be drawn: its tileset lies in the ROM, its BG data
/// decodes, and each of its tile numbers addresses the tileset region.
pub open spec fn map_drawable(rom: Seq<u8>, id: int) -> bool {
    &&& tileset_in_rom(rom, map_record(rom, id)[0] as int)
    &&& bg_spec(rom, id, MAP_TILES as nat, ATTRIBS_BUF_LEN as nat) is Some
    &&& forall|i: int| 0 <= i < MAP_TILES ==> tile_num_valid(#[trigger] (bg_spec(rom, id, MAP_TILES as nat, ATTRIBS_BUF_LEN as nat)->0).0[i])
}

/// The color of pixel (mx, my) of map `id` as drawn.
pub open spec fn map_pixel(rom: Seq<u8>, id: int, mx: int, my: int) -> (u8, u8, u8) {
    let ts = map_record(rom, id)[0] as int;
    let bg = bg_spec(rom, id, MAP_TILES as nat, ATTRIBS_BUF_LEN as nat)->0;
    map_color(tileset_tiles(rom, ts), tileset_palettes(rom, ts), bg.0, bg.1, mx, my)
}

proof fn lemma_cell(mx: int, my: int, i: int)
    requires
        0 <= i < 360,
        0 <= mx,
        0 <= my,
    ensures
        (8 * (i % 20) <= mx < 8 * (i % 20) + 8 && 8 * (i / 20) <= my < 8 * (i / 20) + 8)
            <==> (mx < 160 && my < 144 && cell_of(mx, my) == i),
        mx < 160 && my < 144 && cell_of(mx, my) == i ==> mx - 8 * (i % 20) == mx % 8 && my - 8 * (i / 20) == my % 8,
        mx < 160 && my < 144 ==> 0 <= cell_of(mx, my) < 360,
{
}

/// Gets the VRAM address of a tile number: maps use the signed tile
/// addressing mode, based at 0x9000.
pub fn tile_address(tile_num: u8) -> (r: u16)
    ensures
        r == tile_address_spec(tile_num),
{
    if tile_num < 128 {
        0x9000 + 16 * tile_num as u16
    } else {
        0x9000 - 16 * (256 - tile_num as u16)
    }
}

impl WorldMap {
    pub fn with_id(map_id: u16) -> (r: WorldMap)
        ensures
            r.map_id == map_id,
    {
        WorldMap { map_id }
    }

    /// Gets the map record located in banks 0x54/0x55.
    pub fn get_map_struct<'a>(self, rom: &'a [u8]) -> (r: &'a [u8])
        requires
            self.map_id < NUM_MAPS,
            rom@.len() >= MIN_ROM_LEN,
        ensures
            r@ == map_record(rom@, self.map_id as int),
            r@.len() == MAP_RECORD_LEN,
    {
        let bank: u8;
        let addr: u16;
        if self.map_id < MAP_SPLIT {
            bank = 0x54;
            addr = 0x4001 + MAP_RECORD_LEN * self.map_id;
        } else {
            bank = 0x55;
            addr = 0x4001 + MAP_RECORD_LEN * (self.map_id - MAP_SPLIT);
        }
        let offset = rom1_offset(bank, addr);
        slice_subrange(rom, offset, offset + MAP_RECORD_LEN as usize)
    }

    /// Gets the tileset for this map.
    pub fn tileset_id(self, rom: &[u8]) -> (r: u8)
        requires
            self.map_id < NUM_MAPS,
            rom@.len() >= MIN_ROM_LEN,
        ensures
            r == rom@[map_record_offset(self.map_id as int)],
    {
        let map_struct = self.get_map_struct(rom);
        map_struct[0]
    }

    /// Gets the neighbor of this map in direction `d` (up/right/down/left).
    fn neighbor(self, map_struct: &[u8], d: usize) -> (r: Option<WorldMap>)
        requires
            d < 4,
            map_struct@.len() == MAP_RECORD_LEN,
        ensures
            r == (if u16_at(map_struct@, 1 + 2 * d) & 0x7FFF < NUM_MAPS {
                Some(WorldMap { map_id: u16_at(map_struct@, 1 + 2 * d) & 0x7FFF })
            } else {
                None::<WorldMap>
            }),
    {
        let n = read_u16(map_struct, 1 + 2 * d);
        // The meaning of the high bit is unknown.
        let n = n & 0x7FFF;
        if n < NUM_MAPS {
            Some(WorldMap::with_id(n))
        } else {
            None
        }
    }

    /// Gets the neighbors of this map in the up/right/down/left directions.
    pub fn neighbors(self, rom: &[u8]) -> (r: [Option<WorldMap>; 4])
        requires
            self.map_id < NUM_MAPS,
            rom@.len() >= MIN_ROM_LEN,
        ensures
            forall|d: int| 0 <= d < 4 ==> #[trigger] r@[d] == neighbor_spec(rom@, self.map_id as int, d),
    {
        let map_struct = self.get_map_struct(rom);
        let r = [
            self.neighbor(map_struct, 0),
            self.neighbor(map_struct, 1),
            self.neighbor(map_struct, 2),
            self.neighbor(map_struct, 3),
        ];
        assert forall|d: int| 0 <= d < 4 implies #[trigger] r@[d] == neighbor_spec(rom@, self.map_id as int, d) by {
            assert(map_struct@[1 + 2 * d] == rom@[map_record_offset(self.map_id as int) + 1 + 2 * d]);
            assert(map_struct@[2 + 2 * d] == rom@[map_record_offset(self.map_id as int) + 2 + 2 * d]);
        }
        r
    }

    /// Gets the location (bank, address) of the compressed BG data.
    pub fn bg_location(self, rom: &[u8]) -> (r: (u8, u16))
        requires
            self.map_id < NUM_MAPS,
            rom@.len() >= MIN_ROM_LEN,
        ensures
            r == bg_location_spec(rom@, self.map_id as int),
    {
        let offset = rom1_offset(0x5A, 0x4001 + 3 * self.map_id);
        let addr = read_u16(rom, offset);
        let bank = rom[offset + 2];
        (bank, addr)
    }

    /// Decodes BG tile and attribute data into the output buffers.
    pub fn decode_bg(self, rom: &[u8], tiles: &mut [u8], attribs: &mut [u8]) -> (ok: bool)
        requires
            self.map_id < NUM_MAPS,
            rom@.len() >= MIN_ROM_LEN,
        ensures
            ok == bg_spec(rom@, self.map_id as int, old(tiles)@.len() as nat, old(attribs)@.len() as nat) is Some,
            final(tiles)@.len() == old(tiles)@.len(),
            final(attribs)@.len() == old(attribs)@.len(),
            ok ==> ({
                let r = bg_spec(rom@, self.map_id as int, old(tiles)@.len() as nat, old(attribs)@.len() as nat)->0;
                &&& final(tiles)@ == r.0
                &&& final(attribs)@ == r.1 + old(attribs)@.subrange(r.1.len() as int, old(attribs)@.len() as int)
                &&& r.1.len() >= ATTRIBS_LEN
            }),
    {
        let (bank, addr) = self.bg_location(rom);
        let mut decoder = BGDecoder { bank, addr };
        if !decoder.decode_map_tiles(rom, tiles) {
            return false;
        }
        decoder.decode_map_attribs(rom, attribs)
    }

    /// Draws the map on the canvas with the upper-left at (X,Y). Nothing
    /// is drawn when the map's data is corrupt.
    pub fn draw(self, rom: &[u8], canvas: &mut Canvas, x: u32, y: u32) -> (ok: bool)
        requires
            self.map_id < NUM_MAPS,
            rom@.len() >= MIN_ROM_LEN,
            old(canvas).wf(),
        ensures
            ok == map_drawable(rom@, self.map_id as int),
            final(canvas).wf(),
            final(canvas).width == old(canvas).width,
            final(canvas).height == old(canvas).height,
            !ok ==> *final(canvas) == *old(canvas),
            ok ==> forall|px: int, py: int| #[trigger] final(canvas).in_bounds(px, py) ==> final(canvas).color_at(px, py) == (
                if in_map(x as int, y as int, px, py) {
                    map_pixel(rom@, self.map_id as int, px - x, py - y)
                } else {
                    old(canvas).color_at(px, py)
                }),
    {
        let tileset_id = self.tileset_id(rom);
        let ofs = crate::tileset::tileset_offset(tileset_id);
        if ofs > rom.len() || rom.len() - ofs < 0xC40 {
            return false;
        }
        let (tiles, palettes) = get_tileset(rom, tileset_id);
        let mut tile_nums = vec![0u8; MAP_TILES];
        let mut attribs = vec![0u8; ATTRIBS_BUF_LEN];
        if !self.decode_bg(rom, tile_nums.as_mut_slice(), attribs.as_mut_slice()) {
            return false;
        }
        let ghost bg = bg_spec(rom@, self.map_id as int, MAP_TILES as nat, ATTRIBS_BUF_LEN as nat)->0;
        assert(map_record(rom@, self.map_id as int)[0] == tileset_id);
        assert(attribs@.subrange(0, bg.1.len() as int) =~= bg.1);
        // Each tile number must address the tileset region 0x8C00..0x9800.
        let mut k: usize = 0;
        while k < MAP_TILES
            invariant
                *canvas == *old(canvas),
                canvas.wf(),
                bg_spec(rom@, self.map_id as int, MAP_TILES as nat, ATTRIBS_BUF_LEN as nat) is Some,
                bg == bg_spec(rom@, self.map_id as int, MAP_TILES as nat, ATTRIBS_BUF_LEN as nat)->0,
                map_record(rom@, self.map_id as int)[0] == tileset_id,
                tileset_in_rom(rom@, tileset_id as int),
                tile_nums@ == bg.0,
                tile_nums@.len() == MAP_TILES,
                forall|t: int| 0 <= t < k ==> tile_num_valid(#[trigger] bg.0[t]),
            decreases MAP_TILES - k,
        {
            let addr = tile_address(tile_nums[k]);
            if addr < 0x8C00 || addr >= 0x9800 {
                return false;
            }
            k += 1;
        }
        let ghost orig = *canvas;
        let mut i: usize = 0;
        while i < MAP_TILES
            invariant
                orig == *old(canvas),
                canvas.wf(),
                canvas.width == orig.width,
                canvas.height == orig.height,
                tile_nums@ == bg.0,
                tile_nums@.len() == MAP_TILES,
                attribs@.len() == ATTRIBS_BUF_LEN,
                bg.1.len() <= ATTRIBS_BUF_LEN,
                bg.1.len() >= ATTRIBS_LEN,
                attribs@.subrange(0, bg.1.len() as int) == bg.1,
                tiles@ == tileset_tiles(rom@, tileset_id as int),
                palettes@ == tileset_palettes(rom@, tileset_id as int),
                tiles@.len() == 0xC00,
                palettes@.len() == 0x40,
                forall|t: int| 0 <= t < MAP_TILES ==> tile_num_valid(#[trigger] bg.0[t]),
                i <= MAP_TILES,
                forall|px: int, py: int| #[trigger] canvas.in_bounds(px, py) ==> canvas.color_at(px, py) == (
                    if in_map(x as int, y as int, px, py) && cell_of(px - x, py - y) < i {
                        map_color(tiles@, palettes@, bg.0, bg.1, px - x, py - y)
                    } else {
                        orig.color_at(px, py)
                    }),
            decreases MAP_TILES - i,
        {
            let tile_num = tile_nums[i];
            assert(tile_num_valid(bg.0[i as int]));
            let a = attribs[i];
            let palette_num = a & 7;
            assert(palette_num <= 7) by (bit_vector)
                requires
                    palette_num == a & 7,
            ;
            assert(attribs@[i as int] == attribs@.subrange(0, bg.1.len() as int)[i as int]);
            let ofs = (tile_address(tile_num) - 0x8C00) as usize;
            let tile = slice_subrange(tiles, ofs, ofs + 16);
            let pofs = 8 * palette_num as usize;
            let palette = slice_subrange(palettes, pofs, pofs + 8);
            let tx = x as u64 + 8 * (i % MAP_TILES_W) as u64;
            let ty = y as u64 + 8 * (i / MAP_TILES_W) as u64;
            let ghost prev = *canvas;
            if tx <= u32::MAX as u64 && ty <= u32::MAX as u64 {
                canvas.draw_tile(tile, palette, tx as u32, ty as u32);
            }
            assert forall|px: int, py: int| #[trigger] canvas.in_bounds(px, py) implies canvas.color_at(px, py) == (
                if in_map(x as int, y as int, px, py) && cell_of(px - x, py - y) < i + 1 {
                    map_color(tiles@, palettes@, bg.0, bg.1, px - x, py - y)
                } else {
                    orig.color_at(px, py)
                }) by {
                assert(prev.in_bounds(px, py));
                if px >= x && py >= y {
                    lemma_cell(px - x, py - y, i as int);
                }
            }
            i += 1;
        }
        true
    }
}

/// Cursor over the compressed BG data of a map.
pub struct BGDecoder {
    pub bank: u8,
    pub addr: u16,
}

impl BGDecoder {
    /// Decodes compressed BG map tile numbers into `output`, filling it.
    /// On success the cursor moves past the tile data, where the attribute
    /// data starts.
    pub fn decode_map_tiles(&mut self, rom: &[u8], output: &mut [u8]) -> (ok: bool)
        ensures
            ok == tiles_from(rom@, old(self).bank, old(self).addr, old(output)@.len() as nat) is Some,
            final(output)@.len() == old(output)@.len(),
            ok ==> ({
                let r = tiles_from(rom@, old(self).bank, old(self).addr, old(output)@.len() as nat)->0;
                &&& final(output)@ == r.0
                &&& final(self).bank == old(self).bank
                &&& final(self).addr == old(self).addr + r.1
            }),
    {
        if self.addr < 0x4000 || self.addr >= ROM1_END {
            return false;
        }
        let offset = rom1_offset(self.bank, self.addr);
        if offset > rom.len() {
            return false;
        }
        let ghost input = rom@.subrange(offset as int, rom@.len() as int);
        let ghost len = output@.len() as nat;
        let mut i: usize = 0;
        let mut j: usize = 0;
        assert(output@.subrange(0, 0) =~= Seq::<u8>::empty());
        while j < output.len()
            invariant
                offset <= rom@.len(),
                input == rom@.subrange(offset as int, rom@.len() as int),
                len == output@.len(),
                len == old(output)@.len(),
                input.len() == rom@.len() - offset,
                i <= input.len(),
                j <= len,
                0x4000 <= self.addr < ROM1_END,
                offset == rom1_offset_spec(self.bank as int, self.addr as int),
                self.bank == old(self).bank,
                self.addr == old(self).addr,
                unpack_tiles(input, 0, Seq::empty(), len) == unpack_tiles(input, i as nat, output@.subrange(0, j as int), len),
            decreases input.len() - i,
        {
            if i >= rom.len() - offset {
                return false;
            }
            let a = rom[offset + i];
            i += 1;
            if a & 0x80 == 0 || a >= 0xA0 {
                // Copy a literal byte to the output.
                proof {
                    assert(output@.subrange(0, j as int).push(a) =~= output@.update(j as int, a).subrange(0, j + 1));
                }
                output[j] = a;
                j += 1;
            } else {
                if j == 0 {
                    return false;
                }
                let count: usize = (a & 0xF) as usize + 2;
                let ghost before = output@.subrange(0, j as int);
                let ghost run = tile_run(a, output@[j - 1]);
                let ghost prev = output@[j - 1];
                if count > output.len() - j {
                    assert(unpack_tiles(input, (i - 1) as nat, before, len) == unpack_tiles(input, i as nat, before + run, len));
                    assert((before + run).len() > len);
                    return false;
                }
                let delta = a & 0x10 != 0;
                let j0 = j;
                let mut k: usize = 0;
                while k < count
                    invariant
                        run.len() == count,
                        run == tile_run(a, prev),
                        delta == (a & 0x10 != 0),
                        before.len() == j0,
                        j0 > 0,
                        j == j0 + k,
                        k <= count,
                        j0 + count <= len,
                        len == output@.len(),
                        output@.subrange(0, j as int) == before + run.subrange(0, k as int),
                        prev == before.last(),
                    decreases count - k,
                {
                    let p = output[j - 1];
                    proof {
                        if k > 0 {
                            assert(p == (before + run.subrange(0, k as int))[j - 1]);
                            assert(p == run[k - 1]);
                        } else {
                            assert(p == (before + run.subrange(0, k as int))[j - 1]);
                        }
                    }
                    // Repeat the previous byte, or count up from it.
                    let v = if delta {
                        if p == 255 {
                            0
                        } else {
                            p + 1
                        }
                    } else {
                        p
                    };
                    assert(v == run[k as int]);
                    proof {
                        assert((before + run.subrange(0, k as int)).push(v) =~= (before + run.subrange(0, k + 1)));
                        assert(output@.subrange(0, j as int).push(v) =~= output@.update(j as int, v).subrange(0, j + 1));
                    }
                    output[j] = v;
                    j += 1;
                    k += 1;
                }
                assert(run.subrange(0, count as int) =~= run);
            }
        }
        assert(output@.subrange(0, j as int) =~= output@);
        // Move the cursor to the end of the tile data: attribute data comes next.
        if i >= (ROM1_END - self.addr) as usize {
            return false;
        }
        self.addr = self.addr + i as u16;
        true
    }

    /// Decodes compressed BG map attributes into `output`: 20x19 bytes
    /// are decoded, the rest of `output` is kept.
    pub fn decode_map_attribs(&mut self, rom: &[u8], output: &mut [u8]) -> (ok: bool)
        ensures
            ok == attribs_from(rom@, old(self).bank, old(self).addr, old(output)@.len() as nat) is Some,
            final(output)@.len() == old(output)@.len(),
            ok ==> ({
                let s = attribs_from(rom@, old(self).bank, old(self).addr, old(output)@.len() as nat)->0;
                let start = attribs_start(rom@, old(self).bank, old(self).addr)->0;
                &&& final(output)@ == s + old(output)@.subrange(s.len() as int, old(output)@.len() as int)
                &&& s.len() >= ATTRIBS_LEN
                &&& final(self).bank == start.0
                &&& final(self).addr == start.1
            }),
    {
        if self.addr < 0x4000 || self.addr >= ROM1_END {
            return false;
        }
        let mut offset = rom1_offset(self.bank, self.addr);
        if offset >= rom.len() {
            return false;
        }
        // If the first byte is 7, the attributes don't fit in the current
        // bank: they start at the beginning of the next one.
        if rom[offset] == 7 {
            if self.bank == 255 {
                return false;
            }
            self.bank = self.bank + 1;
            self.addr = 0x4001;
            offset = rom1_offset(self.bank, self.addr);
        }
        if offset > rom.len() {
            return false;
        }
        let ghost input = rom@.subrange(offset as int, rom@.len() as int);
        let ghost cap = output@.len() as nat;
        let ghost orig = output@;
        let mut i: usize = 0;
        let mut j: usize = 0;
        assert(output@.subrange(0, 0) =~= Seq::<u8>::empty());
        while j < ATTRIBS_LEN
            invariant
                offset <= rom@.len(),
                input == rom@.subrange(offset as int, rom@.len() as int),
                cap == output@.len(),
                cap == old(output)@.len(),
                orig == old(output)@,
                input.len() == rom@.len() - offset,
                i <= input.len(),
                j <= cap,
                Some((self.bank, self.addr)) == attribs_start(rom@, old(self).bank, old(self).addr),
                offset == rom1_offset_spec(self.bank as int, self.addr as int),
                output@.subrange(j as int, cap as int) == orig.subrange(j as int, cap as int),
                unpack_attribs(input, 0, Seq::empty(), ATTRIBS_LEN as nat) == unpack_attribs(input, i as nat, output@.subrange(0, j as int), ATTRIBS_LEN as nat),
            decreases input.len() - i,
        {
            if i >= rom.len() - offset {
                return false;
            }
            let a = rom[offset + i];
            i += 1;
            if a & 0x6 != 0x6 {
                // Copy a literal byte to the output. Since a & 7 is also the
                // palette number, maps never use palette 6 or 7.
                if j >= output.len() {
                    assert(unpack_attribs(input, (i - 1) as nat, output@.subrange(0, j as int), ATTRIBS_LEN as nat)
                        == unpack_attribs(input, i as nat, output@.subrange(0, j as int).push(a), ATTRIBS_LEN as nat));
                    proof {
                        lemma_unpack_attribs_grows(input, i as nat, output@.subrange(0, j as int).push(a), ATTRIBS_LEN as nat);
                    }
                    return false;
                }
                proof {
                    assert(output@.subrange(0, j as int).push(a) =~= output@.update(j as int, a).subrange(0, j + 1));
                    assert(output@.update(j as int, a).subrange(j + 1, cap as int) =~= orig.subrange(j + 1, cap as int)) by {
                        assert(output@.subrange(j as int, cap as int).subrange(1, cap - j) =~= output@.subrange(j + 1, cap as int));
                        assert(orig.subrange(j as int, cap as int).subrange(1, cap - j) =~= orig.subrange(j + 1, cap as int));
                    }
                }
                output[j] = a;
                j += 1;
            } else {
                if j == 0 {
                    return false;
                }
                let count: usize = ((a >> 4) | ((a & 1) << 4)) as usize + 2;
                let ghost before = output@.subrange(0, j as int);
                let ghost prev = output@[j - 1];
                let ghost run = Seq::new(attrib_run_len(a), |k: int| prev);
                assert(before.last() == prev);
                if count > output.len() - j {
                    assert(unpack_attribs(input, (i - 1) as nat, before, ATTRIBS_LEN as nat) == unpack_attribs(input, i as nat, before + run, ATTRIBS_LEN as nat));
                    assert((before + run).len() > cap);
                    proof {
                        lemma_unpack_attribs_grows(input, i as nat, before + run, ATTRIBS_LEN as nat);
                    }
                    return false;
                }
                let j0 = j;
                let mut k: usize = 0;
                while k < count
                    invariant
                        run.len() == count,
                        forall|t: int| 0 <= t < count ==> #[trigger] run[t] == prev,
                        before.len() == j0,
                        j0 > 0,
                        j == j0 + k,
                        k <= count,
                        j0 + count <= cap,
                        cap == output@.len(),
                        cap == orig.len(),
                        output@.subrange(0, j as int) == before + run.subrange(0, k as int),
                        output@.subrange(j as int, cap as int) == orig.subrange(j as int, cap as int),
                        prev == before.last(),
                    decreases count - k,
                {
                    // Repeat the previous byte.
                    let p = output[j - 1];
                    proof {
                        assert(p == (before + run.subrange(0, k as int))[j - 1]);
                        assert((before + run.subrange(0, k as int)).push(p) =~= (before + run.subrange(0, k + 1)));
                        assert(output@.subrange(0, j as int).push(p) =~= output@.update(j as int, p).subrange(0, j + 1));
                        assert(output@.update(j as int, p).subrange(j + 1, cap as int) =~= orig.subrange(j + 1, cap as int)) by {
                            assert(output@.subrange(j as int, cap as int).subrange(1, cap - j) =~= output@.subrange(j + 1, cap as int));
                            assert(orig.subrange(j as int, cap as int).subrange(1, cap - j) =~= orig.subrange(j + 1, cap as int));
                        }
                    }
                    output[j] = p;
                    j += 1;
                    k += 1;
                }
                assert(run.subrange(0, count as int) =~= run);
            }
        }
        assert(output@ =~= output@.subrange(0, j as int) + orig.subrange(j as int, cap as int));
        true
    }
}

} // verus!
