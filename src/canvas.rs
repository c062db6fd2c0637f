//! Canvas of RGB888 pixels, and the rendering of GBC tiles onto it.
use vstd::prelude::*;
use crate::{read_u16, u16_at};

verus! {

/// Canvas of RGB888 pixels, row-major, three bytes per pixel.
pub struct Canvas {
    pub pixels: Vec<u8>,
    pub width: u32,
    pub height: u32,
}

/// Index of the first byte of pixel (x, y) on a canvas `w` pixels wide.
pub open spec fn pixel_index(w: int, x: int, y: int) -> int {
    3 * (w * y + x)
}

/// Scales a 5-bit channel to 8 bits, rounding to nearest.
pub open spec fn scale5(c: int) -> int {
    (c * 255 + 15) / 31
}

/// The RGB888 color of a BGR555 value (no color correction).
pub open spec fn bgr555_color(bgr: u16) -> (u8, u8, u8) {
    (
        scale5((bgr & 0x1F) as int) as u8,
        scale5(((bgr >> 5u16) & 0x1F) as int) as u8,
        scale5(((bgr >> 10u16) & 0x1F) as int) as u8,
    )
}

/// The RGB888 color of color number `n` of a GBC palette.
pub open spec fn palette_color(palette: Seq<u8>, n: int) -> (u8, u8, u8) {
    bgr555_color(u16_at(palette, 2 * n))
}

/// The color number (0..3) of pixel (dx, dy) of a 16-byte planar tile.
pub open spec fn tile_pixel(tile: Seq<u8>, dx: int, dy: int) -> u8 {
    let lo = (tile[2 * dy] >> ((7 - dx) as u8)) & 1;
    let hi = (tile[2 * dy + 1] >> ((7 - dx) as u8)) & 1;
    (lo | (hi << 1u8)) as u8
}

/// Whether (px, py) lies in the 8x8 block with the top-left at (x, y).
pub open spec fn in_tile(x: int, y: int, px: int, py: int) -> bool {
    x <= px < x + 8 && y <= py < y + 8
}

/// The color that a tile puts at (dx, dy) of its 8x8 block.
pub open spec fn tile_color(tile: Seq<u8>, palette: Seq<u8>, dx: int, dy: int) -> (u8, u8, u8) {
    palette_color(palette, tile_pixel(tile, dx, dy) as int)
}

proof fn lemma_pixel_index_bounds(w: int, h: int, x: int, y: int)
    requires
        0 <= x < w,
        0 <= y < h,
    ensures
        0 <= w * y,
        w * y + x < w * h,
        0 <= pixel_index(w, x, y),
        pixel_index(w, x, y) + 3 <= 3 * w * h,
{
    assert(w * y + x < w * h) by (nonlinear_arith)
        requires
            0 <= x < w,
            0 <= y < h,
    ;
    assert(0 <= w * y) by (nonlinear_arith)
        requires
            0 <= x < w,
            0 <= y < h,
    ;
    assert(3 * (w * h) == 3 * w * h) by (nonlinear_arith);
}

proof fn lemma_pixel_index_distinct(w: int, x: int, y: int, x2: int, y2: int)
    requires
        0 <= x < w,
        0 <= x2 < w,
        0 <= y,
        0 <= y2,
        x != x2 || y != y2,
    ensures
        pixel_index(w, x, y) + 3 <= pixel_index(w, x2, y2) || pixel_index(w, x2, y2) + 3 <= pixel_index(w, x, y),
{
    if y < y2 {
        assert(w * y + x < w * y2 + x2) by (nonlinear_arith)
            requires
                0 <= x < w,
                0 <= x2 < w,
                y < y2,
        ;
    } else if y2 < y {
        assert(w * y2 + x2 < w * y + x) by (nonlinear_arith)
            requires
                0 <= x < w,
                0 <= x2 < w,
                y2 < y,
        ;
    }
}

impl Canvas {
    /// The pixel buffer holds three bytes for each pixel.
    pub open spec fn wf(&self) -> bool {
        self.pixels@.len() == 3 * self.width * self.height
    }

    /// Whether (x, y) lies on the canvas.
    pub open spec fn in_bounds(&self, x: int, y: int) -> bool {
        0 <= x < self.width && 0 <= y < self.height
    }

    /// The color of pixel (x, y).
    pub open spec fn color_at(&self, x: int, y: int) -> (u8, u8, u8) {
        let i = pixel_index(self.width as int, x, y);
        (self.pixels@[i], self.pixels@[i + 1], self.pixels@[i + 2])
    }

    /// Create black canvas.
    pub fn new(w: u32, h: u32) -> (r: Canvas)
        requires
            3 * w * h <= usize::MAX,
        ensures
            r.wf(),
            r.width == w,
            r.height == h,
            forall|i: int| 0 <= i < r.pixels@.len() ==> #[trigger] r.pixels@[i] == 0,
            forall|px: int, py: int| #[trigger] r.in_bounds(px, py) ==> r.color_at(px, py) == (0u8, 0u8, 0u8),
    {
        assert(w * h <= 3 * w * h) by (nonlinear_arith)
            requires
                0 <= w,
                0 <= h,
        ;
        assert(3 * (w * h) == 3 * w * h) by (nonlinear_arith);
        let n: usize = 3 * (w as usize * h as usize);
        let r = Canvas { pixels: vec![0u8; n], width: w, height: h };
        assert forall|px: int, py: int| #[trigger] r.in_bounds(px, py) implies r.color_at(px, py) == (0u8, 0u8, 0u8) by {
            lemma_pixel_index_bounds(w as int, h as int, px, py);
        }
        r
    }

    /// Put RGB color at (X,Y); a pixel off the canvas is dropped.
    pub fn put_rgb(&mut self, rgb: (u8, u8, u8), x: u32, y: u32)
        requires
            old(self).wf(),
        ensures
            final(self).wf(),
            final(self).width == old(self).width,
            final(self).height == old(self).height,
            forall|px: int, py: int| #[trigger] final(self).in_bounds(px, py) ==> final(self).color_at(px, py) == (
                if px == x && py == y {
                    rgb
                } else {
                    old(self).color_at(px, py)
                }),
    {
        if x < self.width && y < self.height {
            proof {
                lemma_pixel_index_bounds(self.width as int, self.height as int, x as int, y as int);
                assert(3 * self.width * self.height == 3 * (self.width * self.height)) by (nonlinear_arith);
            }
            let len = self.pixels.len();
            let offset: usize = 3 * (self.width as usize * y as usize + x as usize);
            let ghost before = *self;
            self.pixels.set(offset, rgb.0);
            self.pixels.set(offset + 1, rgb.1);
            self.pixels.set(offset + 2, rgb.2);
            assert forall|px: int, py: int| #[trigger] self.in_bounds(px, py) implies self.color_at(px, py) == (
                if px == x && py == y {
                    rgb
                } else {
                    before.color_at(px, py)
                }) by {
                lemma_pixel_index_bounds(self.width as int, self.height as int, px, py);
                if px != x || py != y {
                    lemma_pixel_index_distinct(self.width as int, x as int, y as int, px, py);
                }
            }
        }
    }

    /// Put color `color_num` of a GBC palette at (X,Y).
    pub fn put_color(&mut self, color_num: u8, palette: &[u8], x: u32, y: u32)
        requires
            old(self).wf(),
            2 * color_num + 1 < palette@.len(),
        ensures
            final(self).wf(),
            final(self).width == old(self).width,
            final(self).height == old(self).height,
            forall|px: int, py: int| #[trigger] final(self).in_bounds(px, py) ==> final(self).color_at(px, py) == (
                if px == x && py == y {
                    palette_color(palette@, color_num as int)
                } else {
                    old(self).color_at(px, py)
                }),
    {
        let rgb = color_from_palette(palette, color_num);
        self.put_rgb(rgb, x, y);
    }

    /// Draw GBC tile with the top-left at the (X,Y) position; the pixels
    /// that fall off the canvas are dropped.
    pub fn draw_tile(&mut self, tile: &[u8], palette: &[u8], x: u32, y: u32)
        requires
            old(self).wf(),
            tile@.len() >= 16,
            palette@.len() >= 8,
        ensures
            final(self).wf(),
            final(self).width == old(self).width,
            final(self).height == old(self).height,
            forall|px: int, py: int| #[trigger] final(self).in_bounds(px, py) ==> final(self).color_at(px, py) == (
                if in_tile(x as int, y as int, px, py) {
                    tile_color(tile@, palette@, px - x, py - y)
                } else {
                    old(self).color_at(px, py)
                }),
    {
        // A tile is 8x8 pixels in 16 bytes; 2 bytes make one row. A pixel
        // is a color number 0-3 in the palette. Example row:
        //
        //     [Color#] --> [Bits]   --> [Bytes]
        //     01233210 --> 01011010 --> 0x5a
        //                  00111100 --> 0x3c
        let ghost orig = *self;
        let mut dy: u32 = 0;
        while dy < 8
            invariant
                orig == *old(self),
                self.wf(),
                self.width == orig.width,
                self.height == orig.height,
                tile@.len() >= 16,
                palette@.len() >= 8,
                dy <= 8,
                forall|px: int, py: int| #[trigger] self.in_bounds(px, py) ==> self.color_at(px, py) == (
                    if in_tile(x as int, y as int, px, py) && py - y < dy {
                        tile_color(tile@, palette@, px - x, py - y)
                    } else {
                        orig.color_at(px, py)
                    }),
            decreases 8 - dy,
        {
            let mut dx: u32 = 0;
            while dx < 8
                invariant
                    orig == *old(self),
                    self.wf(),
                    self.width == orig.width,
                    self.height == orig.height,
                    tile@.len() >= 16,
                    palette@.len() >= 8,
                    dy < 8,
                    dx <= 8,
                    forall|px: int, py: int| #[trigger] self.in_bounds(px, py) ==> self.color_at(px, py) == (
                        if in_tile(x as int, y as int, px, py) && (py - y < dy || (py - y == dy && px - x < dx)) {
                            tile_color(tile@, palette@, px - x, py - y)
                        } else {
                            orig.color_at(px, py)
                        }),
                decreases 8 - dx,
            {
                let color_num = decode_tile_pixel(tile, dx, dy);
                let px = x as u64 + dx as u64;
                let py = y as u64 + dy as u64;
                let ghost prev = *self;
                if px < self.width as u64 && py < self.height as u64 {
                    self.put_color(color_num, palette, px as u32, py as u32);
                }
                assert forall|qx: int, qy: int| #[trigger] self.in_bounds(qx, qy) implies self.color_at(qx, qy) == (
                    if in_tile(x as int, y as int, qx, qy) && (qy - y < dy || (qy - y == dy && qx - x < dx + 1)) {
                        tile_color(tile@, palette@, qx - x, qy - y)
                    } else {
                        orig.color_at(qx, qy)
                    }) by {
                    assert(prev.in_bounds(qx, qy));
                    if qx == px && qy == py {
                        assert(self.color_at(qx, qy) == tile_color(tile@, palette@, dx as int, dy as int));
                    }
                }
                dx += 1;
            }
            dy += 1;
        }
    }
}

/// Scales a 5-bit channel to 8 bits.
pub fn scale_channel(c: u16) -> (r: u8)
    requires
        c < 32,
    ensures
        r == scale5(c as int),
{
    ((c * 255 + 15) / 31) as u8
}

/// The RGB888 color of color number `color_num` of a GBC palette.
pub fn color_from_palette(palette: &[u8], color_num: u8) -> (r: (u8, u8, u8))
    requires
        2 * color_num + 1 < palette@.len(),
    ensures
        r == palette_color(palette@, color_num as int),
{
    let bgr = read_u16(palette, 2 * color_num as usize);
    let r = bgr & 0x1F;
    let g = (bgr >> 5) & 0x1F;
    let b = (bgr >> 10) & 0x1F;
    assert(r < 32 && g < 32 && b < 32) by (bit_vector)
        requires
            r == bgr & 0x1F,
            g == (bgr >> 5u16) & 0x1F,
            b == (bgr >> 10u16) & 0x1F,
    ;
    // Raw color: no GBC color correction.
    (scale_channel(r), scale_channel(g), scale_channel(b))
}

/// The color number (0..3) of pixel (dx, dy) of a planar 8x8 tile.
pub fn decode_tile_pixel(tile: &[u8], dx: u32, dy: u32) -> (r: u8)
    requires
        tile@.len() >= 16,
        dx < 8,
        dy < 8,
    ensures
        r == tile_pixel(tile@, dx as int, dy as int),
        r < 4,
{
    // Each row is two bytes: the low bit plane, then the high bit plane.
    let shift = (7 - dx) as u8;
    let t0 = tile[2 * dy as usize];
    let t1 = tile[2 * dy as usize + 1];
    let lo = (t0 >> shift) & 1;
    let hi = (t1 >> shift) & 1;
    assert(lo <= 1 && hi <= 1) by (bit_vector)
        requires
            lo == (t0 >> shift) & 1,
            hi == (t1 >> shift) & 1,
    ;
    assert(lo | (hi << 1u8) < 4) by (bit_vector)
        requires
            lo <= 1,
            hi <= 1,
    ;
    lo | (hi << 1)
}

} // verus!
