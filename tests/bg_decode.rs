use blue_sphere::map::BGDecoder;
use blue_sphere::rom1_offset;

fn rom_with(bank: u8, addr: u16, bytes: &[u8]) -> Vec<u8> {
    let mut rom = vec![0u8; 0x4000 * (bank as usize + 2)];
    let o = rom1_offset(bank, addr);
    rom[o..o + bytes.len()].copy_from_slice(bytes);
    rom
}

#[test]
fn tile_literal_copied() {
    let rom = rom_with(1, 0x4100, &[0x12]);
    let mut dec = BGDecoder { bank: 1, addr: 0x4100 };
    let mut out = [0u8; 1];
    assert!(dec.decode_map_tiles(&rom, &mut out));
    assert_eq!(out, [0x12]);
    assert_eq!(dec.addr, 0x4101);
    assert_eq!(dec.bank, 1);
}

#[test]
fn tile_delta_run() {
    let rom = rom_with(1, 0x4100, &[0x10, 0x92]);
    let mut dec = BGDecoder { bank: 1, addr: 0x4100 };
    let mut out = [0u8; 5];
    assert!(dec.decode_map_tiles(&rom, &mut out));
    assert_eq!(out, [0x10, 0x11, 0x12, 0x13, 0x14]);
    assert_eq!(dec.addr, 0x4102);
}

#[test]
fn tile_delta_run_wraps() {
    let rom = rom_with(1, 0x4000, &[0xFE, 0x90]);
    let mut dec = BGDecoder { bank: 1, addr: 0x4000 };
    let mut out = [0u8; 3];
    assert!(dec.decode_map_tiles(&rom, &mut out));
    assert_eq!(out, [0xFE, 0xFF, 0x00]);
}

#[test]
fn tile_plain_run_and_high_literal() {
    let rom = rom_with(1, 0x4000, &[0x07, 0x83, 0xA5, 0x7F]);
    let mut dec = BGDecoder { bank: 1, addr: 0x4000 };
    let mut out = [0u8; 8];
    assert!(dec.decode_map_tiles(&rom, &mut out));
    assert_eq!(out, [0x07, 0x07, 0x07, 0x07, 0x07, 0x07, 0xA5, 0x7F]);
    assert_eq!(dec.addr, 0x4004);
}

#[test]
fn tile_run_without_previous_byte_fails() {
    let rom = rom_with(1, 0x4000, &[0x83]);
    let mut dec = BGDecoder { bank: 1, addr: 0x4000 };
    let mut out = [0u8; 4];
    assert!(!dec.decode_map_tiles(&rom, &mut out));
}

#[test]
fn tile_run_past_output_fails() {
    let rom = rom_with(1, 0x4000, &[0x01, 0x8F]);
    let mut dec = BGDecoder { bank: 1, addr: 0x4000 };
    let mut out = [0u8; 4];
    assert!(!dec.decode_map_tiles(&rom, &mut out));
}

#[test]
fn tile_cursor_outside_window_fails() {
    let rom = rom_with(1, 0x4000, &[0x01]);
    let mut dec = BGDecoder { bank: 1, addr: 0x3FFF };
    let mut out = [0u8; 1];
    assert!(!dec.decode_map_tiles(&rom, &mut out));
    // Decoding that would move the cursor to 0x8000 fails too.
    let rom = rom_with(1, 0x7FFF, &[0x01]);
    let mut dec = BGDecoder { bank: 1, addr: 0x7FFF };
    assert!(!dec.decode_map_tiles(&rom, &mut out));
}

#[test]
fn tile_stream_cut_short_fails() {
    let rom = vec![0x01u8; 0x4000 + 3];
    let mut dec = BGDecoder { bank: 1, addr: 0x4000 };
    let mut out = [0u8; 4];
    assert!(!dec.decode_map_tiles(&rom, &mut out));
}

#[test]
fn attrib_run_repeats_previous() {
    // 0x36: palette bits 6, run of ((0x36 >> 4) | 0) + 2 = 5.
    let mut bytes = vec![0x03u8, 0x36];
    bytes.extend(std::iter::repeat(0x01u8).take(374));
    let rom = rom_with(1, 0x4000, &bytes);
    let mut dec = BGDecoder { bank: 1, addr: 0x4000 };
    let mut out = [0xEEu8; 450];
    assert!(dec.decode_map_attribs(&rom, &mut out));
    assert_eq!(&out[..6], &[0x03, 0x03, 0x03, 0x03, 0x03, 0x03]);
    assert!(out[6..380].iter().all(|&b| b == 0x01));
    assert!(out[380..].iter().all(|&b| b == 0xEE));
    assert!(out[..380].iter().all(|&b| b & 7 != 6 && b & 7 != 7));
}

#[test]
fn attrib_run_length_uses_bit_zero() {
    // 0x17: bit 0 adds 16, run of (1 | 16) + 2 = 19.
    let mut bytes = vec![0x02u8, 0x17];
    bytes.extend(std::iter::repeat(0x00u8).take(360));
    let rom = rom_with(1, 0x4000, &bytes);
    let mut dec = BGDecoder { bank: 1, addr: 0x4000 };
    let mut out = [0u8; 380];
    assert!(dec.decode_map_attribs(&rom, &mut out));
    assert!(out[..20].iter().all(|&b| b == 0x02));
    assert_eq!(out[20], 0x00);
}

#[test]
fn attrib_marker_moves_to_next_bank() {
    let mut rom = vec![0x05u8; 0x4000 * 3];
    rom[rom1_offset(1, 0x7FF0)] = 0x07;
    let mut dec = BGDecoder { bank: 1, addr: 0x7FF0 };
    let mut out = [0u8; 380];
    assert!(dec.decode_map_attribs(&rom, &mut out));
    assert_eq!(dec.bank, 2);
    assert_eq!(dec.addr, 0x4001);
    assert!(out.iter().all(|&b| b == 0x05));
}

#[test]
fn attrib_output_too_small_fails() {
    let rom = rom_with(1, 0x4000, &[0x01; 400]);
    let mut dec = BGDecoder { bank: 1, addr: 0x4000 };
    let mut out = [0u8; 100];
    assert!(!dec.decode_map_attribs(&rom, &mut out));
}
