use blue_sphere::canvas::{color_from_palette, decode_tile_pixel, scale_channel, Canvas};
use blue_sphere::map::{tile_address, WorldMap};
use blue_sphere::tileset::tileset_offset;
use blue_sphere::{rom1_offset, MIN_ROM_LEN};

#[test]
fn channel_scaling() {
    assert_eq!(scale_channel(31), 255);
    assert_eq!(scale_channel(0), 0);
    assert_eq!(scale_channel(15), 123);
    assert_eq!(scale_channel(1), 8);
}

#[test]
fn palette_colors() {
    // color 0: red 31; color 1: green 15; color 2: blue 1; color 3: white
    let palette = [0x1F, 0x00, 0xE0, 0x01, 0x00, 0x04, 0xFF, 0x7F];
    assert_eq!(color_from_palette(&palette, 0), (255, 0, 0));
    assert_eq!(color_from_palette(&palette, 1), (0, 123, 0));
    assert_eq!(color_from_palette(&palette, 2), (0, 0, 8));
    assert_eq!(color_from_palette(&palette, 3), (255, 255, 255));
}

#[test]
fn tile_pixel_planes() {
    // Row 0: 01233210 -> 0x5a, 0x3c
    let mut tile = [0u8; 16];
    tile[0] = 0x5A;
    tile[1] = 0x3C;
    let row: Vec<u8> = (0..8).map(|dx| decode_tile_pixel(&tile, dx, 0)).collect();
    assert_eq!(row, vec![0, 1, 2, 3, 3, 2, 1, 0]);
    assert_eq!(decode_tile_pixel(&tile, 3, 1), 0);
}

#[test]
fn canvas_starts_black() {
    let c = Canvas::new(3, 2);
    assert_eq!(c.pixels, vec![0u8; 18]);
    assert_eq!((c.width, c.height), (3, 2));
}

#[test]
fn put_rgb_inside_and_outside() {
    let mut c = Canvas::new(3, 2);
    c.put_rgb((1, 2, 3), 2, 1);
    assert_eq!(&c.pixels[15..18], &[1, 2, 3]);
    c.put_rgb((9, 9, 9), 3, 0);
    c.put_rgb((9, 9, 9), 0, 2);
    assert_eq!(c.pixels.iter().filter(|&&b| b == 9).count(), 0);
}

#[test]
fn put_color_from_palette() {
    let palette = [0x00, 0x00, 0x1F, 0x00];
    let mut c = Canvas::new(2, 1);
    c.put_color(1, &palette, 1, 0);
    assert_eq!(c.pixels, vec![0, 0, 0, 255, 0, 0]);
}

#[test]
fn draw_tile_clips_at_right_edge() {
    let width = 12;
    let mut c = Canvas::new(width, 8);
    let tile = [0xFFu8; 16];
    let palette = [0, 0, 0, 0, 0, 0, 0xFF, 0x7F];
    c.draw_tile(&tile, &palette, width - 4, 0);
    for y in 0..8usize {
        for x in 0..width as usize {
            let o = 3 * (y * width as usize + x);
            let expect = if x >= width as usize - 4 { 255 } else { 0 };
            assert_eq!(c.pixels[o..o + 3], [expect; 3]);
        }
    }
}

#[test]
fn draw_tile_far_off_canvas() {
    let mut c = Canvas::new(4, 4);
    let tile = [0xFFu8; 16];
    let palette = [0xFFu8; 8];
    c.draw_tile(&tile, &palette, u32::MAX - 2, u32::MAX - 2);
    assert_eq!(c.pixels, vec![0u8; 48]);
}

#[test]
fn tile_index_signedness() {
    assert_eq!(tile_address(0xFF), 0x8FF0);
    assert_eq!(tile_address(0x00), 0x9000);
    assert_eq!(tile_address(0x7F), 0x97F0);
    assert_eq!(tile_address(0xC0), 0x8C00);
    assert_eq!(tile_address(0xBF), 0x8BF0);
    assert_eq!(tile_address(0x80), 0x8800);
}

/// A ROM whose map 0 uses tileset 0, with every tile number `tile_num`
/// and every attribute `attrib`.
fn one_map_rom(tile_num: u8, attrib: u8) -> Vec<u8> {
    let mut rom = vec![0u8; MIN_ROM_LEN];
    let rec = rom1_offset(0x54, 0x4001);
    rom[rec] = 0;
    let loc = rom1_offset(0x5A, 0x4001);
    rom[loc..loc + 3].copy_from_slice(&[0x00, 0x40, 0x30]);
    let o = rom1_offset(0x30, 0x4000);
    // 360 tiles: one literal, then runs of 17 and a tail
    let mut data = vec![tile_num];
    let mut n = 1;
    while n + 17 <= 360 {
        data.push(0x8F);
        n += 17;
    }
    while n < 360 {
        data.push(tile_num);
        n += 1;
    }
    data.extend(std::iter::repeat(attrib).take(380));
    rom[o..o + data.len()].copy_from_slice(&data);
    // tileset 0: tile at 0x9000 is solid color 1; palette 2 color 1 is blue.
    let ts = tileset_offset(0);
    let t = ts + (0x9000 - 0x8C00);
    rom[t..t + 16].copy_from_slice(&[0xFF, 0x00, 0xFF, 0x00, 0xFF, 0x00, 0xFF, 0x00, 0xFF, 0x00, 0xFF, 0x00, 0xFF, 0x00, 0xFF, 0x00]);
    let p = ts + 0xC00 + 8 * 2;
    rom[p + 2] = 0x00;
    rom[p + 3] = 0x7C;
    rom
}

#[test]
fn draw_map_fills_its_region() {
    let rom = one_map_rom(0x00, 0x02);
    let mut c = Canvas::new(170, 150);
    assert!(WorldMap::with_id(0).draw(&rom, &mut c, 5, 3));
    let at = |x: usize, y: usize| {
        let o = 3 * (y * 170 + x);
        (c.pixels[o], c.pixels[o + 1], c.pixels[o + 2])
    };
    assert_eq!(at(5, 3), (0, 0, 255));
    assert_eq!(at(164, 146), (0, 0, 255));
    assert_eq!(at(4, 3), (0, 0, 0));
    assert_eq!(at(165, 3), (0, 0, 0));
    assert_eq!(at(5, 147), (0, 0, 0));
}

#[test]
fn draw_map_rejects_bad_tile_number() {
    let rom = one_map_rom(0xBF, 0x02);
    let mut c = Canvas::new(8, 8);
    assert!(!WorldMap::with_id(0).draw(&rom, &mut c, 0, 0));
    assert_eq!(c.pixels, vec![0u8; 192]);
}

#[test]
fn decode_bg_both_streams() {
    let rom = one_map_rom(0x05, 0x01);
    let mut tiles = [0u8; 360];
    let mut attribs = [0u8; 450];
    assert!(WorldMap::with_id(0).decode_bg(&rom, &mut tiles, &mut attribs));
    assert_eq!(tiles[0], 0x05);
    assert_eq!(tiles[1], 0x05);
    assert_eq!(tiles[359], 0x05);
    assert!(attribs[..380].iter().all(|&b| b == 0x01));
    assert!(attribs[380..].iter().all(|&b| b == 0));
}
