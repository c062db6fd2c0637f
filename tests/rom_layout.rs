use blue_sphere::map::{WorldMap, NUM_MAPS};
use blue_sphere::tileset::{get_tileset, tileset_offset};
use blue_sphere::{read_u16, rom1_offset, MIN_ROM_LEN};

fn patterned_rom() -> Vec<u8> {
    (0..MIN_ROM_LEN).map(|i| (i * 7 + i / 251) as u8).collect()
}

#[test]
fn resolve_window_edges() {
    assert_eq!(rom1_offset(0x12, 0x4000), 0x4000 * 0x12);
    assert_eq!(rom1_offset(0x12, 0x7FFF), 0x4000 * 0x12 + 0x3FFF);
    assert_eq!(rom1_offset(0, 0x4000), 0);
    assert_eq!(rom1_offset(0xFF, 0x7FFF), 0x4000 * 0xFF + 0x3FFF);
}

#[test]
fn read_u16_little_endian() {
    let buf = [0x34u8, 0x12, 0xFF];
    assert_eq!(read_u16(&buf, 0), 0x1234);
    assert_eq!(read_u16(&buf, 1), 0xFF12);
}

#[test]
fn map_record_selection() {
    let rom = patterned_rom();
    let at = |bank: u8, addr: u16| {
        let o = rom1_offset(bank, addr);
        rom[o..o + 0x14].to_vec()
    };
    assert_eq!(WorldMap::with_id(0).get_map_struct(&rom), &at(0x54, 0x4001)[..]);
    assert_eq!(WorldMap::with_id(800).get_map_struct(&rom), &at(0x55, 0x4001)[..]);
    assert_eq!(WorldMap::with_id(799).get_map_struct(&rom), &at(0x54, 0x4001 + 0x14 * 799)[..]);
    assert_eq!(WorldMap::with_id(NUM_MAPS - 1).get_map_struct(&rom).len(), 0x14);
}

#[test]
fn tileset_id_and_neighbors() {
    let mut rom = vec![0u8; MIN_ROM_LEN];
    let o = rom1_offset(0x54, 0x4001 + 0x14 * 3);
    rom[o] = 42;
    // up: 5, right: 0x8006 (high bit ignored), down: 1545 (none), left: 0xFFFF (none)
    rom[o + 1..o + 9].copy_from_slice(&[5, 0, 6, 0x80, 0x09, 0x06, 0xFF, 0xFF]);
    let map = WorldMap::with_id(3);
    assert_eq!(map.tileset_id(&rom), 42);
    let n = map.neighbors(&rom);
    assert_eq!(n[0], Some(WorldMap::with_id(5)));
    assert_eq!(n[1], Some(WorldMap::with_id(6)));
    assert_eq!(n[2], None);
    assert_eq!(n[3], None);
}

#[test]
fn bg_location_from_side_table() {
    let mut rom = vec![0u8; MIN_ROM_LEN];
    let o = rom1_offset(0x5A, 0x4001 + 3 * 10);
    rom[o..o + 3].copy_from_slice(&[0x34, 0x52, 0x61]);
    assert_eq!(WorldMap::with_id(10).bg_location(&rom), (0x61, 0x5234));
}

#[test]
fn tileset_layout() {
    assert_eq!(tileset_offset(0), 0x40 * 0x4000 + 1);
    assert_eq!(tileset_offset(4), 0x40 * 0x4000 + 1 + 4 * 0xC40);
    assert_eq!(tileset_offset(5), 0x41 * 0x4000 + 1);
    assert_eq!(tileset_offset(97), 0x53 * 0x4000 + 1 + 2 * 0xC40);
    let rom = patterned_rom();
    let (tiles, palettes) = get_tileset(&rom, 7);
    let o = tileset_offset(7);
    assert_eq!(tiles, &rom[o..o + 0xC00]);
    assert_eq!(palettes, &rom[o + 0xC00..o + 0xC40]);
}
