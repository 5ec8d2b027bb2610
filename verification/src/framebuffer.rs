use vstd::prelude::*;
use crate::color::{Color, packed, unpacked};

verus! {

/// A software framebuffer: a row-major grid of colors with a fixed width and
/// height, a background color used by `clear`, and a current drawing color
/// used only by the `is_point_set` query.
pub struct Framebuffer {
    pub width: usize,
    pub height: usize,
    pub buffer: Vec<Color>,
    pub background_color: Color,
    pub current_color: Color,
}

/// The flat row-major index of a grid cell is within the grid's area.
proof fn lemma_row_major_bounds(w: int, h: int, px: int, py: int)
    requires
        0 <= px < w,
        0 <= py < h,
    ensures
        0 <= py * w + px < w * h,
{
    assert(0 <= py * w + px && py * w + px < w * h) by (nonlinear_arith)
        requires
            0 <= px < w,
            0 <= py < h,
    ;
}

/// Distinct grid cells have distinct flat row-major indices.
proof fn lemma_row_major_injective(w: int, px1: int, py1: int, px2: int, py2: int)
    requires
        0 <= px1 < w,
        0 <= px2 < w,
        py1 * w + px1 == py2 * w + px2,
    ensures
        px1 == px2 && py1 == py2,
{
    assert(px1 == px2 && py1 == py2) by (nonlinear_arith)
        requires
            0 <= px1 < w,
            0 <= px2 < w,
            py1 * w + px1 == py2 * w + px2,
    ;
}

/// `(px, py)` lies in the rectangle of size `rw` by `rh` anchored at `(x, y)`.
pub open spec fn in_rect(x: int, y: int, rw: int, rh: int, px: int, py: int) -> bool {
    x <= px < x + rw && y <= py < y + rh
}

/// Restate the flat-buffer effect of a clipped single-pixel write as an
/// effect on the two-dimensional pixel grid.
proof fn lemma_point_update(pre: Framebuffer, post: Framebuffer, x: int, y: int, color: Color)
    requires
        pre.wf(),
        post.width == pre.width,
        post.height == pre.height,
        pre.in_bounds(x, y) ==> post.buffer@ == pre.buffer@.update(y * pre.width + x, color),
        !pre.in_bounds(x, y) ==> post.buffer@ == pre.buffer@,
    ensures
        forall|px: int, py: int|
            pre.in_bounds(px, py) ==> post.pixel(px, py) == (if px == x && py == y {
                color
            } else {
                pre.pixel(px, py)
            }),
{
    assert forall|px: int, py: int| pre.in_bounds(px, py) implies post.pixel(px, py) == (if px == x
        && py == y {
        color
    } else {
        pre.pixel(px, py)
    }) by {
        lemma_row_major_bounds(pre.width as int, pre.height as int, px, py);
        if pre.in_bounds(x, y) {
            lemma_row_major_bounds(pre.width as int, pre.height as int, x, y);
            if py * pre.width + px == y * pre.width + x {
                lemma_row_major_injective(pre.width as int, px, py, x, y);
            }
        }
    }
}

impl Framebuffer {
    /// The pixel grid is well formed: exactly one color per cell.
    pub open spec fn wf(self) -> bool {
        self.buffer@.len() == self.width * self.height
    }

    /// The color of the pixel at column `x`, row `y`.
    pub open spec fn pixel(self, x: int, y: int) -> Color {
        self.buffer@[y * self.width + x]
    }

    /// `(x, y)` is a valid pixel coordinate of this framebuffer.
    pub open spec fn in_bounds(self, x: int, y: int) -> bool {
        0 <= x < self.width && 0 <= y < self.height
    }

    /// Dimensions, background and drawing color agree with `other`'s.
    pub open spec fn same_config(self, other: Self) -> bool {
        &&& self.width == other.width
        &&& self.height == other.height
        &&& self.background_color == other.background_color
        &&& self.current_color == other.current_color
    }

    /// Build a `width` by `height` buffer with every pixel black, a black
    /// background and white as the current drawing color.
    pub fn new(width: usize, height: usize) -> (fb: Framebuffer)
        requires
            width * height <= usize::MAX,
        ensures
            fb.wf(),
            fb.width == width,
            fb.height == height,
            fb.background_color == (Color { r: 0, g: 0, b: 0 }),
            fb.current_color == (Color { r: 255, g: 255, b: 255 }),
            forall|k: int| 0 <= k < fb.buffer@.len() ==> fb.buffer@[k] == (Color {
                r: 0,
                g: 0,
                b: 0,
            }),
    {
        let n = width * height;
        let mut buffer: Vec<Color> = Vec::new();
        let mut i: usize = 0;
        while i < n
            invariant
                i <= n,
                buffer@.len() == i,
                forall|k: int| 0 <= k < i ==> buffer@[k] == (Color { r: 0, g: 0, b: 0 }),
            decreases n - i,
        {
            buffer.push(Color::new(0, 0, 0));
            i = i + 1;
        }
        Framebuffer {
            width,
            height,
            buffer,
            background_color: Color::new(0, 0, 0),
            current_color: Color::new(255, 255, 255),
        }
    }

    /// Write one pixel, silently clipped: coordinates outside the grid leave
    /// the buffer untouched.
    pub fn point_with_color(&mut self, x: usize, y: usize, color: Color)
        requires
            old(self).wf(),
        ensures
            final(self).wf(),
            final(self).same_config(*old(self)),
            final(self).buffer@.len() == old(self).buffer@.len(),
            old(self).in_bounds(x as int, y as int) ==> final(self).buffer@ == old(
                self,
            ).buffer@.update(y * old(self).width + x, color),
            !old(self).in_bounds(x as int, y as int) ==> final(self).buffer@ == old(self).buffer@,
    {
        if x < self.width && y < self.height {
            let n = self.buffer.len();
            proof {
                lemma_row_major_bounds(
                    self.width as int,
                    self.height as int,
                    x as int,
                    y as int,
                );
            }
            let idx = y * self.width + x;
            self.buffer[idx] = color;
        }
    }

    /// Store a new background color; existing pixels are not repainted.
    pub fn set_background_color(&mut self, color: Color)
        ensures
            final(self).background_color == color,
            final(self).width == old(self).width,
            final(self).height == old(self).height,
            final(self).buffer == old(self).buffer,
            final(self).current_color == old(self).current_color,
    {
        self.background_color = color;
    }

    /// Unpack a 24-bit value and store it as the current drawing color.
    pub fn set_current_color(&mut self, color: u32)
        ensures
            final(self).current_color == unpacked(color),
            final(self).width == old(self).width,
            final(self).height == old(self).height,
            final(self).buffer == old(self).buffer,
            final(self).background_color == old(self).background_color,
    {
        self.current_color = Color::from_hex(color);
    }

    /// Fill the `width` by `height` rectangle anchored at `(x, y)` with
    /// `color`. Every cell of the requested rectangle is visited; cells
    /// outside the pixel grid are clipped, so only pixels both in bounds and
    /// inside the rectangle change, and they all become `color`.
    pub fn draw_rectangle(&mut self, x: usize, y: usize, width: usize, height: usize, color: Color)
        requires
            old(self).wf(),
            x + width <= usize::MAX,
            y + height <= usize::MAX,
        ensures
            final(self).wf(),
            final(self).same_config(*old(self)),
            final(self).buffer@.len() == old(self).buffer@.len(),
            forall|px: int, py: int|
                old(self).in_bounds(px, py) ==> final(self).pixel(px, py) == (if in_rect(
                    x as int,
                    y as int,
                    width as int,
                    height as int,
                    px,
                    py,
                ) {
                    color
                } else {
                    old(self).pixel(px, py)
                }),
    {
        let mut i: usize = 0;
        while i < width
            invariant
                i <= width,
                x + width <= usize::MAX,
                y + height <= usize::MAX,
                self.wf(),
                self.same_config(*old(self)),
                self.buffer@.len() == old(self).buffer@.len(),
                forall|px: int, py: int|
                    old(self).in_bounds(px, py) ==> self.pixel(px, py) == (if in_rect(
                        x as int,
                        y as int,
                        i as int,
                        height as int,
                        px,
                        py,
                    ) {
                        color
                    } else {
                        old(self).pixel(px, py)
                    }),
            decreases width - i,
        {
            let mut j: usize = 0;
            while j < height
                invariant
                    j <= height,
                    i < width,
                    x + width <= usize::MAX,
                    y + height <= usize::MAX,
                    self.wf(),
                    self.same_config(*old(self)),
                    self.buffer@.len() == old(self).buffer@.len(),
                    forall|px: int, py: int|
                        old(self).in_bounds(px, py) ==> self.pixel(px, py) == (if in_rect(
                            x as int,
                            y as int,
                            i as int,
                            height as int,
                            px,
                            py,
                        ) || in_rect((x + i) as int, y as int, 1, j as int, px, py) {
                            color
                        } else {
                            old(self).pixel(px, py)
                        }),
                decreases height - j,
            {
                let ghost pre = *self;
                self.point_with_color(x + i, y + j, color);
                proof {
                    lemma_point_update(pre, *self, (x + i) as int, (y + j) as int, color);
                }
                j = j + 1;
            }
            i = i + 1;
        }
    }

    /// Overwrite every pixel with the background color.
    pub fn clear(&mut self)
        requires
            old(self).wf(),
        ensures
            final(self).wf(),
            final(self).same_config(*old(self)),
            final(self).buffer@.len() == old(self).buffer@.len(),
            forall|k: int| 0 <= k < final(self).buffer@.len() ==> final(self).buffer@[k] == old(
                self,
            ).background_color,
    {
        let n = self.buffer.len();
        let bg = self.background_color;
        let mut i: usize = 0;
        while i < n
            invariant
                i <= n,
                n == self.buffer@.len(),
                bg == self.background_color,
                self.width == old(self).width,
                self.height == old(self).height,
                self.buffer@.len() == old(self).buffer@.len(),
                self.background_color == old(self).background_color,
                self.current_color == old(self).current_color,
                forall|k: int| 0 <= k < i ==> self.buffer@[k] == bg,
            decreases n - i,
        {
            self.buffer[i] = bg;
            i = i + 1;
        }
    }

    /// True exactly when `(x, y)` is in bounds and that pixel holds the
    /// current drawing color; out-of-bounds queries are false.
    pub fn is_point_set(&self, x: usize, y: usize) -> (r: bool)
        requires
            self.wf(),
        ensures
            r == (self.in_bounds(x as int, y as int) && self.pixel(x as int, y as int)
                == self.current_color),
    {
        if x < self.width && y < self.height {
            let n = self.buffer.len();
            proof {
                lemma_row_major_bounds(
                    self.width as int,
                    self.height as int,
                    x as int,
                    y as int,
                );
            }
            self.buffer[y * self.width + x] == self.current_color
        } else {
            false
        }
    }

    /// Pack every pixel into a 24-bit value, in the buffer's own order.
    pub fn to_u32_buffer(&self) -> (r: Vec<u32>)
        ensures
            r@.len() == self.buffer@.len(),
            forall|k: int| 0 <= k < r@.len() ==> r@[k] == packed(self.buffer@[k]),
    {
        let n = self.buffer.len();
        let mut r: Vec<u32> = Vec::new();
        let mut i: usize = 0;
        while i < n
            invariant
                i <= n,
                n == self.buffer@.len(),
                r@.len() == i,
                forall|k: int| 0 <= k < i ==> r@[k] == packed(self.buffer@[k]),
            decreases n - i,
        {
            let p = self.buffer[i].to_hex();
            r.push(p);
            i = i + 1;
        }
        r
    }
}

/// One rasterized glyph: a row-major bitmap of per-sub-pixel alpha coverage,
/// together with the offset of the bitmap's top-left corner from the text
/// anchor point. Rasterization itself happens outside this crate; this type
/// carries its result as plain values.
pub struct Glyph {
    pub off_x: i32,
    pub off_y: i32,
    pub width: usize,
    pub height: usize,
    pub coverage: Vec<u8>,
}

impl Glyph {
    /// The bitmap is well formed: one coverage value per sub-pixel, and
    /// dimensions small enough for 32-bit signed positioning.
    pub open spec fn wf(self) -> bool {
        &&& self.coverage@.len() == self.width * self.height
        &&& self.width <= i32::MAX
        &&& self.height <= i32::MAX
    }

    /// The glyph anchored at `(x, y)` covers the buffer pixel `(px, py)`.
    pub open spec fn covers(self, x: int, y: int, px: int, py: int) -> bool {
        &&& x + self.off_x <= px < x + self.off_x + self.width
        &&& y + self.off_y <= py < y + self.off_y + self.height
    }

    /// The coverage the glyph anchored at `(x, y)` has at pixel `(px, py)`.
    pub open spec fn alpha_at(self, x: int, y: int, px: int, py: int) -> u8 {
        self.coverage@[(py - y - self.off_y) * self.width + (px - x - self.off_x)]
    }
}

/// The color a pixel of `pre` takes once `g`, anchored at `(x, y)` and drawn
/// in `color`, is composited over it.
pub open spec fn blended_pixel(
    pre: Framebuffer,
    g: Glyph,
    x: int,
    y: int,
    color: Color,
    px: int,
    py: int,
) -> Color {
    unpacked(blend(packed(pre.pixel(px, py)), packed(color), g.alpha_at(x, y, px, py) as u32))
}

/// The glyph sub-pixel that `(px, py)` maps to comes before `(col, row)` in
/// row-major order.
pub open spec fn glyph_cell_before(
    g: Glyph,
    x: int,
    y: int,
    px: int,
    py: int,
    row: int,
    col: int,
) -> bool {
    py - y - g.off_y < row || (py - y - g.off_y == row && px - x - g.off_x < col)
}

impl Framebuffer {
    /// Composite one glyph over the buffer, anchored at `(x, y)`, drawing in
    /// `color`. Every covered sub-pixel that lands inside the grid is alpha
    /// blended over the existing pixel; sub-pixels outside the grid are
    /// clipped and every uncovered pixel is untouched.
    pub fn draw_glyph(&mut self, x: usize, y: usize, glyph: &Glyph, color: Color)
        requires
            old(self).wf(),
            glyph.wf(),
            x <= i32::MAX,
            y <= i32::MAX,
            old(self).width <= i32::MAX,
            old(self).height <= i32::MAX,
        ensures
            final(self).wf(),
            final(self).same_config(*old(self)),
            final(self).buffer@.len() == old(self).buffer@.len(),
            forall|px: int, py: int|
                old(self).in_bounds(px, py) ==> final(self).pixel(px, py) == (if glyph.covers(
                    x as int,
                    y as int,
                    px,
                    py,
                ) {
                    blended_pixel(*old(self), *glyph, x as int, y as int, color, px, py)
                } else {
                    old(self).pixel(px, py)
                }),
    {
        let cov_len = glyph.coverage.len();
        let mut gy: usize = 0;
        while gy < glyph.height
            invariant
                gy <= glyph.height,
                glyph.wf(),
                cov_len == glyph.coverage@.len(),
                x <= i32::MAX,
                y <= i32::MAX,
                old(self).width <= i32::MAX,
                old(self).height <= i32::MAX,
                self.wf(),
                self.same_config(*old(self)),
                self.buffer@.len() == old(self).buffer@.len(),
                forall|px: int, py: int|
                    old(self).in_bounds(px, py) ==> self.pixel(px, py) == (if glyph.covers(
                        x as int,
                        y as int,
                        px,
                        py,
                    ) && glyph_cell_before(*glyph, x as int, y as int, px, py, gy as int, 0) {
                        blended_pixel(*old(self), *glyph, x as int, y as int, color, px, py)
                    } else {
                        old(self).pixel(px, py)
                    }),
            decreases glyph.height - gy,
        {
            let mut gx: usize = 0;
            while gx < glyph.width
                invariant
                    gx <= glyph.width,
                    gy < glyph.height,
                    glyph.wf(),
                    cov_len == glyph.coverage@.len(),
                    x <= i32::MAX,
                    y <= i32::MAX,
                    old(self).width <= i32::MAX,
                    old(self).height <= i32::MAX,
                    self.wf(),
                    self.same_config(*old(self)),
                    self.buffer@.len() == old(self).buffer@.len(),
                    forall|px: int, py: int|
                        old(self).in_bounds(px, py) ==> self.pixel(px, py) == (if glyph.covers(
                            x as int,
                            y as int,
                            px,
                            py,
                        ) && glyph_cell_before(
                            *glyph,
                            x as int,
                            y as int,
                            px,
                            py,
                            gy as int,
                            gx as int,
                        ) {
                            blended_pixel(*old(self), *glyph, x as int, y as int, color, px, py)
                        } else {
                            old(self).pixel(px, py)
                        }),
                decreases glyph.width - gx,
            {
                proof {
                    lemma_row_major_bounds(
                        glyph.width as int,
                        glyph.height as int,
                        gx as int,
                        gy as int,
                    );
                }
                let alpha = glyph.coverage[gy * glyph.width + gx];
                let px_i: i64 = x as i64 + gx as i64 + glyph.off_x as i64;
                let py_i: i64 = y as i64 + gy as i64 + glyph.off_y as i64;
                if 0 <= px_i && px_i < self.width as i64 && 0 <= py_i && py_i < self.height as i64 {
                    let px = px_i as usize;
                    let py = py_i as usize;
                    let n = self.buffer.len();
                    proof {
                        lemma_row_major_bounds(
                            self.width as int,
                            self.height as int,
                            px as int,
                            py as int,
                        );
                    }
                    let existing = self.buffer[py * self.width + px].to_hex();
                    let blended = blend_colors(existing, color.to_hex(), alpha as u32);
                    let nc = Color::from_hex(blended);
                    let ghost pre = *self;
                    self.point_with_color(px, py, nc);
                    proof {
                        lemma_point_update(pre, *self, px as int, py as int, nc);
                    }
                }
                gx = gx + 1;
            }
            gy = gy + 1;
        }
    }
}

/// The color pixel `(px, py)` holds after the glyphs are composited in
/// order over `pre`, all anchored at `(x, y)` and drawn in `color`. Each
/// glyph's effect on a pixel depends only on that pixel's previous color
/// and the glyph's coverage there.
pub open spec fn glyphs_pixel(
    pre: Framebuffer,
    gs: Seq<Glyph>,
    x: int,
    y: int,
    color: Color,
    px: int,
    py: int,
) -> Color
    decreases gs.len(),
{
    if gs.len() == 0 {
        pre.pixel(px, py)
    } else {
        let prev = glyphs_pixel(pre, gs.drop_last(), x, y, color, px, py);
        let g = gs.last();
        if g.covers(x, y, px, py) {
            unpacked(blend(packed(prev), packed(color), g.alpha_at(x, y, px, py) as u32))
        } else {
            prev
        }
    }
}

impl Framebuffer {
    /// Composite a rasterized text's glyphs over the buffer, in order, all
    /// anchored at `(x, y)` and drawn in `color`: every covered sub-pixel
    /// inside the grid is alpha blended and everything else is untouched.
    pub fn draw_glyphs(&mut self, x: usize, y: usize, glyphs: &Vec<Glyph>, color: Color)
        requires
            old(self).wf(),
            forall|i: int| 0 <= i < glyphs@.len() ==> (#[trigger] glyphs@[i]).wf(),
            x <= i32::MAX,
            y <= i32::MAX,
            old(self).width <= i32::MAX,
            old(self).height <= i32::MAX,
        ensures
            final(self).wf(),
            final(self).same_config(*old(self)),
            final(self).buffer@.len() == old(self).buffer@.len(),
            forall|px: int, py: int|
                old(self).in_bounds(px, py) ==> final(self).pixel(px, py) == glyphs_pixel(
                    *old(self),
                    glyphs@,
                    x as int,
                    y as int,
                    color,
                    px,
                    py,
                ),
    {
        let n = glyphs.len();
        let mut i: usize = 0;
        while i < n
            invariant
                i <= n,
                n == glyphs@.len(),
                forall|k: int| 0 <= k < glyphs@.len() ==> (#[trigger] glyphs@[k]).wf(),
                x <= i32::MAX,
                y <= i32::MAX,
                old(self).width <= i32::MAX,
                old(self).height <= i32::MAX,
                self.wf(),
                self.same_config(*old(self)),
                self.buffer@.len() == old(self).buffer@.len(),
                forall|px: int, py: int|
                    old(self).in_bounds(px, py) ==> self.pixel(px, py) == glyphs_pixel(
                        *old(self),
                        glyphs@.take(i as int),
                        x as int,
                        y as int,
                        color,
                        px,
                        py,
                    ),
            decreases n - i,
        {
            self.draw_glyph(x, y, &glyphs[i], color);
            proof {
                assert(glyphs@.take(i + 1).drop_last() =~= glyphs@.take(i as int));
                assert(glyphs@.take(i + 1).last() == glyphs@[i as int]);
            }
            i = i + 1;
        }
        proof {
            assert(glyphs@.take(n as int) =~= glyphs@);
        }
    }
}

/// One channel of under-alpha compositing: the existing value weighted by
/// `255 - alpha` plus the incoming value weighted by `alpha`, truncated by
/// integer division.
pub open spec fn blend_channel(e: int, n: int, a: int) -> int {
    (e * (255 - a) + n * a) / 255
}

/// The packed color produced by blending `incoming` over `existing` with the
/// given alpha, channel by channel.
pub open spec fn blend(existing: u32, incoming: u32, alpha: u32) -> u32 {
    ((blend_channel(
        ((existing >> 16) & 0xFF) as int,
        ((incoming >> 16) & 0xFF) as int,
        alpha as int,
    ) as u32) << 16) | ((blend_channel(
        ((existing >> 8) & 0xFF) as int,
        ((incoming >> 8) & 0xFF) as int,
        alpha as int,
    ) as u32) << 8) | (blend_channel(
        (existing & 0xFF) as int,
        (incoming & 0xFF) as int,
        alpha as int,
    ) as u32)
}

/// A blended channel of two channel values in range stays in range.
proof fn lemma_blend_channel_bound(e: int, n: int, a: int)
    requires
        0 <= e <= 255,
        0 <= n <= 255,
        0 <= a <= 255,
    ensures
        0 <= blend_channel(e, n, a) <= 255,
        0 <= e * (255 - a) + n * a <= 65025,
{
    assert(0 <= e * (255 - a) + n * a <= 65025 && 0 <= (e * (255 - a) + n * a) / 255 <= 255)
        by (nonlinear_arith)
        requires
            0 <= e <= 255,
            0 <= n <= 255,
            0 <= a <= 255,
    ;
}

/// Blend the packed color `new` over the packed color `existing` with the
/// given alpha, per channel, truncating as the compositing formula does.
pub fn blend_colors(existing: u32, new: u32, alpha: u32) -> (r: u32)
    requires
        alpha <= 255,
    ensures
        r == blend(existing, new, alpha),
{
    let existing_r = (existing >> 16) & 0xFF;
    let existing_g = (existing >> 8) & 0xFF;
    let existing_b = existing & 0xFF;

    let new_r = (new >> 16) & 0xFF;
    let new_g = (new >> 8) & 0xFF;
    let new_b = new & 0xFF;

    proof {
        assert((existing >> 16) & 0xFF <= 255 && (existing >> 8) & 0xFF <= 255 && existing & 0xFF
            <= 255) by (bit_vector);
        assert((new >> 16) & 0xFF <= 255 && (new >> 8) & 0xFF <= 255 && new & 0xFF <= 255)
            by (bit_vector);
        lemma_blend_channel_bound(existing_r as int, new_r as int, alpha as int);
        lemma_blend_channel_bound(existing_g as int, new_g as int, alpha as int);
        lemma_blend_channel_bound(existing_b as int, new_b as int, alpha as int);
    }
    let blended_r = (existing_r * (255 - alpha) + new_r * alpha) / 255;
    let blended_g = (existing_g * (255 - alpha) + new_g * alpha) / 255;
    let blended_b = (existing_b * (255 - alpha) + new_b * alpha) / 255;

    (blended_r << 16) | (blended_g << 8) | blended_b
}

} // verus!
