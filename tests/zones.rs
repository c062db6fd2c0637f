use blue_sphere::map::NUM_MAPS;
use blue_sphere::zone::{sweep_zones, Placement, ZoneBuilder};
use blue_sphere::{rom1_offset, MIN_ROM_LEN};

/// A ROM in which no map has a neighbor.
fn isolated_rom() -> Vec<u8> {
    let mut rom = vec![0u8; MIN_ROM_LEN];
    for id in 0..NUM_MAPS {
        let o = record(id);
        for b in &mut rom[o + 1..o + 9] {
            *b = 0xFF;
        }
    }
    rom
}

fn record(id: u16) -> usize {
    if id < 800 {
        rom1_offset(0x54, 0x4001 + 0x14 * id)
    } else {
        rom1_offset(0x55, 0x4001 + 0x14 * (id - 800))
    }
}

/// Sets the neighbor of `id` in direction `d` (up, right, down, left).
fn link(rom: &mut [u8], id: u16, d: usize, to: u16) {
    let o = record(id) + 1 + 2 * d;
    rom[o] = to as u8;
    rom[o + 1] = (to >> 8) as u8;
}

fn check_partition(rom: &[u8]) -> usize {
    let zones = sweep_zones(rom);
    let mut seen = vec![0u32; NUM_MAPS as usize];
    for z in &zones {
        assert!(!z.map_locations.is_empty());
        for p in &z.map_locations {
            seen[p.map_id as usize] += 1;
        }
    }
    assert!(seen.iter().all(|&n| n == 1));
    zones.len()
}

#[test]
fn sweep_places_every_map_once() {
    let rom = isolated_rom();
    assert_eq!(check_partition(&rom), NUM_MAPS as usize);
}

#[test]
fn two_cycle_is_placed_once_each() {
    let mut rom = isolated_rom();
    link(&mut rom, 10, 1, 11);
    link(&mut rom, 11, 3, 10);
    let mut b = ZoneBuilder::new();
    let z = b.build_zone(&rom, 10);
    assert_eq!(
        z.map_locations,
        vec![Placement { x: 0, y: 0, map_id: 10 }, Placement { x: 1, y: 0, map_id: 11 }]
    );
    assert!(b.already_visited[10] && b.already_visited[11]);
    assert!(!b.already_visited[12]);
    // A second zone from a visited map is empty.
    assert!(b.build_zone(&rom, 11).map_locations.is_empty());
    assert_eq!(check_partition(&rom), NUM_MAPS as usize - 1);
}

#[test]
fn grid_positions_follow_directions() {
    let mut rom = isolated_rom();
    link(&mut rom, 0, 0, 1); // up
    link(&mut rom, 0, 1, 2); // right
    link(&mut rom, 0, 2, 3); // down
    link(&mut rom, 0, 3, 4); // left
    link(&mut rom, 1, 1, 2 | 0x8000); // high bit ignored; already seeded
    let mut b = ZoneBuilder::new();
    let z = b.build_zone(&rom, 0);
    let mut got: Vec<(i16, i16, u16)> = z.map_locations.iter().map(|p| (p.x, p.y, p.map_id)).collect();
    got.sort();
    assert_eq!(got, vec![(-1, 0, 4), (0, -1, 1), (0, 0, 0), (0, 1, 3), (1, 0, 2)]);
    assert_eq!(check_partition(&rom), NUM_MAPS as usize - 4);
}

#[test]
fn empty_zone_draws_nothing() {
    let rom = isolated_rom();
    let mut b = ZoneBuilder::new();
    b.build_zone(&rom, 5);
    let z = b.build_zone(&rom, 5);
    assert!(z.draw_zone(&rom).is_none());
}

#[test]
fn single_map_zone_draws_one_screen() {
    let mut rom = isolated_rom();
    let loc = rom1_offset(0x5A, 0x4001);
    rom[loc..loc + 3].copy_from_slice(&[0x00, 0x40, 0x30]);
    let o = rom1_offset(0x30, 0x4000);
    let mut data = vec![0x00u8];
    data.extend(std::iter::repeat(0x8Fu8).take(21));
    data.extend([0x00u8, 0x00]);
    data.extend(std::iter::repeat(0x00u8).take(380));
    rom[o..o + data.len()].copy_from_slice(&data);
    let mut b = ZoneBuilder::new();
    let z = b.build_zone(&rom, 0);
    let c = z.draw_zone(&rom).expect("drawable zone");
    assert_eq!((c.width, c.height), (160, 144));
    assert_eq!(c.pixels.len(), 3 * 160 * 144);
    // Map 1 has no BG data where its table entry points.
    let z1 = b.build_zone(&rom, 1);
    assert!(z1.draw_zone(&rom).is_none());
}
