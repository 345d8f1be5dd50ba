//! The text console drawn on a linear frame buffer: glyphs of 9 by 16
//! pixels in a grid of character cells, a cursor on the bottom line, and
//! scrolling by whole text lines.

use vstd::prelude::*;

verus! {

/// Pixel rows of a character cell.
pub const CHAR_H: usize = 16;

/// Pixel columns of a character cell.
pub const CHAR_W: usize = 9;

/// The colour of pixels that no glyph covers.
pub const BACKGROUND: u32 = 0x00101010;

/// Bytes of one glyph in the font: two bytes per pixel column, bit `k`
/// of a column for pixel row `k`.
pub const GLYPH_BYTES: usize = 18;

/// The colour of printed text.
pub const TEXT_COLOUR: u32 = 0xFFFF_FFFF;

/// `i = q * d + r` with `0 <= r < d` gives `i / d == q` and `i % d == r`.
proof fn lemma_row_col(q: int, d: int, r: int)
    requires
        d > 0,
        0 <= r < d,
    ensures
        (q * d + r) / d == q,
        (q * d + r) % d == r,
{
    vstd::arithmetic::div_mod::lemma_fundamental_div_mod_converse(q * d + r, d, q, r);
}

/// The pixel rows of column `cx` of `glyph`, bit `k` for row `k`.
pub open spec fn glyph_bits(glyph: Seq<u8>, cx: int) -> u16 {
    ((glyph[2 * cx] as u16) + ((glyph[2 * cx + 1] as u16) << 8u16)) as u16
}

/// The colour of pixel (`cx`, `cy`) of `glyph` drawn in `colour`.
pub open spec fn glyph_pixel(glyph: Seq<u8>, cx: int, cy: int, colour: u32) -> u32 {
    if (glyph_bits(glyph, cx) >> (cy as u16)) & 1 == 1 {
        colour
    } else {
        BACKGROUND
    }
}

/// The word at pixel row `i / p` and column `i % p` is word
/// `(i / p) * p + i % p`.
proof fn lemma_pos(i: int, p: int)
    requires
        p > 0,
        0 <= i,
    ensures
        i == (i / p) * p + i % p,
        0 <= i % p < p,
{
    vstd::arithmetic::div_mod::lemma_fundamental_div_mod(i, p);
    assert(p * (i / p) == (i / p) * p) by (nonlinear_arith);
}

/// `fb` with the pixels of `glyph` for cell (`x`, `y`) drawn, in the order
/// column by column and each column top down, up to column `kx` row `ky`
/// (not included). Pixel (`cx`, `cy`) of the cell is word
/// `(16 * y + cy) * pitch + 9 * x + cx`; words beyond `fb` are not drawn.
pub open spec fn drawn_upto(
    fb: Seq<u32>,
    pitch: int,
    glyph: Seq<u8>,
    x: int,
    y: int,
    colour: u32,
    kx: int,
    ky: int,
) -> Seq<u32> {
    Seq::new(
        fb.len(),
        |i: int|
            {
                let r = i - (16 * y * pitch + 9 * x);
                let cy = r / pitch;
                let cx = r % pitch;
                if 0 <= r && cy < 16 && cx < 9 && (cx < kx || (cx == kx && cy < ky)) {
                    glyph_pixel(glyph, cx, cy, colour)
                } else {
                    fb[i]
                }
            },
    )
}

/// `fb` with `glyph` drawn in cell (`x`, `y`).
pub open spec fn drawn(fb: Seq<u32>, pitch: int, glyph: Seq<u8>, x: int, y: int, colour: u32) -> Seq<u32> {
    drawn_upto(fb, pitch, glyph, x, y, colour, 9, 0)
}

/// Word `i` lies in the text grid of `cw` by `ch` cells, with rows of
/// `pitch` words, at pixel row `i / pitch`, earlier than pixel row `py`,
/// or in row `py` before column `px`.
pub open spec fn grid_before(i: int, pitch: int, cw: int, ch: int, py: int, px: int) -> bool {
    let y = i / pitch;
    let x = i % pitch;
    &&& 0 <= i
    &&& x < 9 * cw
    &&& y < 16 * ch
    &&& (y < py || (y == py && x < px))
}

/// `fb` with the text grid moved up by one text line, processed row by
/// row up to pixel row `py` column `px` (not included): grid pixels of the
/// last text line become the background, the others take the pixel one
/// text line (16 pixel rows) below.
pub open spec fn shifted_upto(fb: Seq<u32>, pitch: int, cw: int, ch: int, py: int, px: int) -> Seq<u32> {
    Seq::new(
        fb.len(),
        |i: int|
            if grid_before(i, pitch, cw, ch, py, px) {
                if i / pitch < 16 * (ch - 1) {
                    fb[i + 16 * pitch]
                } else {
                    BACKGROUND
                }
            } else {
                fb[i]
            },
    )
}

/// `fb` with the text grid moved up by one text line.
pub open spec fn shifted(fb: Seq<u32>, pitch: int, cw: int, ch: int) -> Seq<u32> {
    shifted_upto(fb, pitch, cw, ch, 16 * ch, 0)
}

/// The console: the frame buffer's geometry in pixels and character
/// cells, its pixel format, and the cursor and shift state of text input.
pub struct StaticData {
    pub size: usize,
    pub pixel_w: usize,
    pub pixel_h: usize,
    pub char_w: usize,
    pub char_h: usize,
    pub pitch: usize,
    pub format: u32,
    pub cursor: usize,
    pub shift: u8,
}

impl StaticData {
    /// The grid has a cell and its rows fit in the pitch.
    pub open spec fn wf(&self) -> bool {
        &&& self.char_w >= 1
        &&& self.char_h >= 1
        &&& self.pitch >= 9 * self.char_w
    }

    /// The grid lies in the frame buffer `fb`.
    pub open spec fn fits(&self, fb: Seq<u32>) -> bool {
        16 * self.char_h * self.pitch <= fb.len()
    }

    /// The console of a frame buffer of `size` bytes, `width` by `height`
    /// pixels with `pitch` pixels per row: as many cells as fit, the
    /// cursor at the start of the bottom line, shift released.
    pub fn new(size: usize, width: usize, height: usize, pitch: usize, format: u32) -> (r: Self)
        requires
            pitch >= width,
        ensures
            r.size == size,
            r.pixel_w == width,
            r.pixel_h == height,
            r.pitch == pitch,
            r.format == format,
            r.char_w == width / 9,
            r.char_h == height / 16,
            r.cursor == 0,
            r.shift == 0,
            width >= 9 && height >= 16 ==> r.wf(),
    {
        StaticData {
            size,
            pixel_w: width,
            pixel_h: height,
            char_w: width / CHAR_W,
            char_h: height / CHAR_H,
            pitch,
            format,
            cursor: 0,
            shift: 0,
        }
    }
}


/// The glyph of byte `c` in `font`: its 18 bytes from `18 * c` on.
pub open spec fn glyph_of(font: Seq<u8>, c: int) -> Seq<u8> {
    font.subrange(18 * c, font.len() as int)
}

/// Each byte has a glyph of its own in a font of 256 glyphs: the glyph
/// of byte `c` starts with the 18 font bytes from `18 * c` on.
pub proof fn lemma_glyph_bytes(font: Seq<u8>, c: int)
    requires
        0 <= c < 256,
        font.len() >= 256 * 18,
    ensures
        glyph_of(font, c).len() >= 18,
        forall|i: int| 0 <= i < 18 ==> #[trigger] glyph_of(font, c)[i] == font[18 * c + i],
{
}

impl StaticData {
    /// Draws `glyph` in `colour` in cell (`x`, `y`), column by column;
    /// words beyond `fb` are skipped. Returns `false`, drawing nothing,
    /// when both `x` and `y` lie outside the grid (one of them outside
    /// alone does not stop it).
    pub fn print_char(&self, fb: &mut [u32], glyph: &[u8], x: usize, y: usize, colour: u32) -> (r: bool)
        requires
            glyph@.len() >= 18,
            self.pitch >= 9,
            (16 * y + 15) * self.pitch + 9 * x + 8 <= usize::MAX,
        ensures
            r == !(x >= self.char_w && y >= self.char_h),
            r ==> final(fb)@ == drawn(old(fb)@, self.pitch as int, glyph@, x as int, y as int, colour),
            !r ==> final(fb)@ == old(fb)@,
    {
        if x >= self.char_w && y >= self.char_h {
            return false;
        }
        let pitch = self.pitch;
        assert(16 * y + 15 <= (16 * y + 15) * pitch) by (nonlinear_arith)
            requires pitch >= 1, y >= 0;
        let base_x = x * CHAR_W;
        let base_y = y * CHAR_H;
        let ghost fb0 = fb@;
        let ghost base = 16 * y * pitch + 9 * x;
        proof {
            assert(16 * y * pitch <= (16 * y + 15) * pitch) by (nonlinear_arith)
                requires pitch >= 0, y >= 0;
        }
        let mut cx: usize = 0;
        while cx < CHAR_W
            invariant
                0 <= cx <= 9,
                pitch == self.pitch,
                pitch >= 9,
                glyph@.len() >= 18,
                base_x == 9 * x,
                base_y == 16 * y,
                base == 16 * y * pitch + 9 * x,
                (16 * y + 15) * pitch + 9 * x + 8 <= usize::MAX,
                fb@ == drawn_upto(fb0, pitch as int, glyph@, x as int, y as int, colour, cx as int, 0),
            decreases 9 - cx,
        {
            let col = cx * 2;
            let lo = glyph[col] as u16;
            let hi = glyph[col + 1] as u16;
            assert((hi << 8u16) <= 0xFF00) by (bit_vector)
                requires hi < 256;
            let col_data: u16 = lo + (hi << 8);
            let mut cy: usize = 0;
            while cy < CHAR_H
                invariant
                    0 <= cx < 9,
                    0 <= cy <= 16,
                    pitch == self.pitch,
                    pitch >= 9,
                    glyph@.len() >= 18,
                    base_x == 9 * x,
                    base_y == 16 * y,
                    base == 16 * y * pitch + 9 * x,
                    col_data == glyph_bits(glyph@, cx as int),
                    (16 * y + 15) * pitch + 9 * x + 8 <= usize::MAX,
                    fb@.len() == fb0.len(),
                    fb@ == drawn_upto(fb0, pitch as int, glyph@, x as int, y as int, colour, cx as int, cy as int),
                decreases 16 - cy,
            {
                let pixel = if (col_data >> (cy as u16)) & 1 == 1 {
                    colour
                } else {
                    BACKGROUND
                };
                proof {
                    assert((base_y + cy) * pitch <= (16 * y + 15) * pitch) by (nonlinear_arith)
                        requires base_y + cy <= 16 * y + 15, pitch >= 0;
                    assert((base_y + cy) * pitch == 16 * y * pitch + cy * pitch) by (nonlinear_arith)
                        requires base_y == 16 * y;
                }
                let idx = base_x + cx + (base_y + cy) * pitch;
                let ghost before = fb@;
                if idx < fb.len() {
                    fb[idx] = pixel;
                }
                proof {
                    lemma_row_col(cy as int, pitch as int, cx as int);
                    assert(idx == base + (cy * pitch + cx));
                    assert forall|i: int| 0 <= i < fb0.len() implies fb@[i] == drawn_upto(
                        fb0,
                        pitch as int,
                        glyph@,
                        x as int,
                        y as int,
                        colour,
                        cx as int,
                        cy + 1,
                    )[i] by {
                        let r = i - base;
                        let p = pitch as int;
                        if i != idx && 0 <= r && r / p < 16 && r % p < 9 {
                            lemma_pos(r, p);
                            if r / p == cy && r % p == cx {
                                assert(r == cy * pitch + cx);
                            }
                        }
                    }
                    assert(fb@ =~= drawn_upto(fb0, pitch as int, glyph@, x as int, y as int, colour, cx as int, cy + 1));
                }
                cy = cy + 1;
            }
            proof {
                assert(drawn_upto(fb0, pitch as int, glyph@, x as int, y as int, colour, cx as int, 16) =~= drawn_upto(
                    fb0,
                    pitch as int,
                    glyph@,
                    x as int,
                    y as int,
                    colour,
                    cx + 1,
                    0,
                ));
            }
            cx = cx + 1;
        }
        true
    }
}


/// One more grid word written by the scroll: word (`x`, `y`) takes its
/// final value.
proof fn lemma_shift_step(fb0: Seq<u32>, fb1: Seq<u32>, p: int, cw: int, ch: int, y: int, x: int, v: u32)
    requires
        fb1 == shifted_upto(fb0, p, cw, ch, y, x),
        p >= 9 * cw,
        cw >= 1,
        0 <= y < 16 * ch,
        0 <= x < 9 * cw,
        fb0.len() >= 16 * ch * p,
        v == (if y < 16 * (ch - 1) { fb0[y * p + x + 16 * p] } else { BACKGROUND }),
    ensures
        fb1.update(y * p + x, v) =~= shifted_upto(fb0, p, cw, ch, y, x + 1),
{
    lemma_row_col(y, p, x);
    assert((y + 1) * p <= 16 * ch * p) by (nonlinear_arith)
        requires y + 1 <= 16 * ch, p >= 0;
    assert((y + 1) * p == y * p + p) by (nonlinear_arith);
    assert(fb1.len() == fb0.len());
    assert forall|i: int| 0 <= i < fb0.len() implies #[trigger] fb1.update(y * p + x, v)[i] == shifted_upto(
        fb0,
        p,
        cw,
        ch,
        y,
        x + 1,
    )[i] by {
        if i != y * p + x && 0 <= i {
            lemma_pos(i, p);
            if i / p == y && i % p == x {
                assert(i == y * p + x);
            }
        }
    }
}

/// A finished pixel row of the scroll is the start of the next.
proof fn lemma_shift_row(fb0: Seq<u32>, p: int, cw: int, ch: int, y: int)
    requires
        p > 0,
    ensures
        shifted_upto(fb0, p, cw, ch, y, 9 * cw) =~= shifted_upto(fb0, p, cw, ch, y + 1, 0),
{
    assert forall|i: int| 0 <= i < fb0.len() implies #[trigger] grid_before(i, p, cw, ch, y, 9 * cw) == grid_before(
        i,
        p,
        cw,
        ch,
        y + 1,
        0,
    ) by {
        lemma_pos(i, p);
    }
}

impl StaticData {
    /// Moves the text grid up by one text line and clears the last one.
    pub fn shift_up(&self, fb: &mut [u32])
        requires
            self.wf(),
            self.fits(old(fb)@),
        ensures
            final(fb)@ == shifted(old(fb)@, self.pitch as int, self.char_w as int, self.char_h as int),
    {
        let pitch = self.pitch;
        let ghost p = pitch as int;
        let ghost cw = self.char_w as int;
        let ghost ch = self.char_h as int;
        let ghost fb0 = fb@;
        let n = fb.len();
        proof {
            assert(16 * ch * p <= usize::MAX);
            assert(9 * cw <= 16 * ch * p) by (nonlinear_arith)
                requires p >= 9 * cw, ch >= 1, cw >= 1;
        }
        proof {
            assert(16 * ch <= 16 * ch * p) by (nonlinear_arith)
                requires p >= 1, ch >= 1;
        }
        let width = CHAR_W * self.char_w;
        let moved = CHAR_H * (self.char_h - 1);
        let rows = CHAR_H * self.char_h;
        let mut y: usize = 0;
        while y < moved
            invariant
                self.wf(),
                pitch == self.pitch,
                p == pitch,
                cw == self.char_w,
                ch == self.char_h,
                width == 9 * cw,
                moved == 16 * (ch - 1),
                rows == 16 * ch,
                fb0.len() >= 16 * ch * p,
                16 * ch * p <= usize::MAX,
                0 <= y <= moved,
                fb@ == shifted_upto(fb0, p, cw, ch, y as int, 0),
            decreases moved - y,
        {
            proof {
                assert((y + 17) * p <= 16 * ch * p) by (nonlinear_arith)
                    requires y + 17 <= 16 * ch, p >= 0;
                assert((y + 17) * p == y * p + 16 * p + p) by (nonlinear_arith);
            }
            let yy = y * pitch;
            let mut x: usize = 0;
            while x < width
                invariant
                    self.wf(),
                    pitch == self.pitch,
                    p == pitch,
                    cw == self.char_w,
                    ch == self.char_h,
                    width == 9 * cw,
                    moved == 16 * (ch - 1),
                    fb0.len() >= 16 * ch * p,
                    16 * ch * p <= usize::MAX,
                    0 <= y < moved,
                    yy == y * p,
                    y * p + 16 * p + p <= 16 * ch * p,
                    0 <= x <= width,
                    fb@ == shifted_upto(fb0, p, cw, ch, y as int, x as int),
                decreases width - x,
            {
                let pos = yy + x;
                proof {
                    lemma_row_col(y + 16, p, x as int);
                    assert((y + 16) * p == y * p + 16 * p) by (nonlinear_arith);
                    assert(!grid_before(pos + 16 * p, p, cw, ch, y as int, x as int));
                }
                let v = fb[pos + pitch * CHAR_H];
                proof {
                    lemma_shift_step(fb0, fb@, p, cw, ch, y as int, x as int, v);
                }
                fb[pos] = v;
                x = x + 1;
            }
            proof {
                lemma_shift_row(fb0, p, cw, ch, y as int);
            }
            y = y + 1;
        }
        while y < rows
            invariant
                self.wf(),
                pitch == self.pitch,
                p == pitch,
                cw == self.char_w,
                ch == self.char_h,
                width == 9 * cw,
                moved == 16 * (ch - 1),
                rows == 16 * ch,
                fb0.len() >= 16 * ch * p,
                16 * ch * p <= usize::MAX,
                moved <= y <= rows,
                fb@ == shifted_upto(fb0, p, cw, ch, y as int, 0),
            decreases rows - y,
        {
            proof {
                assert((y + 1) * p <= 16 * ch * p) by (nonlinear_arith)
                    requires y + 1 <= 16 * ch, p >= 0;
                assert((y + 1) * p == y * p + p) by (nonlinear_arith);
            }
            let yy = y * pitch;
            let mut x: usize = 0;
            while x < width
                invariant
                    self.wf(),
                    pitch == self.pitch,
                    p == pitch,
                    cw == self.char_w,
                    ch == self.char_h,
                    width == 9 * cw,
                    moved == 16 * (ch - 1),
                    fb0.len() >= 16 * ch * p,
                    16 * ch * p <= usize::MAX,
                    moved <= y < 16 * ch,
                    yy == y * p,
                    y * p + p <= 16 * ch * p,
                    0 <= x <= width,
                    fb@ == shifted_upto(fb0, p, cw, ch, y as int, x as int),
                decreases width - x,
            {
                proof {
                    lemma_shift_step(fb0, fb@, p, cw, ch, y as int, x as int, BACKGROUND);
                }
                fb[yy + x] = BACKGROUND;
                x = x + 1;
            }
            proof {
                lemma_shift_row(fb0, p, cw, ch, y as int);
            }
            y = y + 1;
        }
    }

    /// Paints the whole text grid in the background colour.
    pub fn clear(&self, fb: &mut [u32])
        requires
            self.wf(),
            self.fits(old(fb)@),
        ensures
            final(fb)@.len() == old(fb)@.len(),
            forall|i: int|
                0 <= i < old(fb)@.len() ==> #[trigger] final(fb)@[i] == if grid_before(
                    i,
                    self.pitch as int,
                    self.char_w as int,
                    self.char_h as int,
                    16 * self.char_h,
                    0,
                ) {
                    BACKGROUND
                } else {
                    old(fb)@[i]
                },
    {
        let pitch = self.pitch;
        let ghost p = pitch as int;
        let ghost cw = self.char_w as int;
        let ghost ch = self.char_h as int;
        let ghost fb0 = fb@;
        let width = CHAR_W * self.char_w;
        let n = fb.len();
        proof {
            assert(16 * ch * p <= usize::MAX);
            assert(9 * cw <= 16 * ch * p) by (nonlinear_arith)
                requires p >= 9 * cw, ch >= 1, cw >= 1;
            assert(16 * ch <= 16 * ch * p) by (nonlinear_arith)
                requires p >= 1, ch >= 1;
        }
        let rows = CHAR_H * self.char_h;
        let mut y: usize = 0;
        while y < rows
            invariant
                self.wf(),
                pitch == self.pitch,
                p == pitch,
                cw == self.char_w,
                ch == self.char_h,
                width == 9 * cw,
                rows == 16 * ch,
                fb0.len() >= 16 * ch * p,
                16 * ch * p <= usize::MAX,
                0 <= y <= rows,
                fb@.len() == fb0.len(),
                forall|i: int|
                    0 <= i < fb0.len() ==> #[trigger] fb@[i] == if grid_before(i, p, cw, ch, y as int, 0) {
                        BACKGROUND
                    } else {
                        fb0[i]
                    },
            decreases rows - y,
        {
            proof {
                assert((y + 1) * p <= 16 * ch * p) by (nonlinear_arith)
                    requires y + 1 <= 16 * ch, p >= 0;
                assert((y + 1) * p == y * p + p) by (nonlinear_arith);
            }
            let yy = y * pitch;
            let mut x: usize = 0;
            while x < width
                invariant
                    self.wf(),
                    pitch == self.pitch,
                    p == pitch,
                    cw == self.char_w,
                    ch == self.char_h,
                    width == 9 * cw,
                    fb0.len() >= 16 * ch * p,
                    16 * ch * p <= usize::MAX,
                    0 <= y < 16 * ch,
                    yy == y * p,
                    y * p + p <= 16 * ch * p,
                    0 <= x <= width,
                    fb@.len() == fb0.len(),
                    forall|i: int|
                        0 <= i < fb0.len() ==> #[trigger] fb@[i] == if grid_before(i, p, cw, ch, y as int, x as int) {
                            BACKGROUND
                        } else {
                            fb0[i]
                        },
                decreases width - x,
            {
                proof {
                    lemma_row_col(y as int, p, x as int);
                    assert forall|i: int| 0 <= i < fb0.len() && i != yy + x implies grid_before(i, p, cw, ch, y as int, x + 1)
                        == grid_before(i, p, cw, ch, y as int, x as int) by {
                        lemma_pos(i, p);
                        if i / p == y && i % p == x {
                            assert(i == y * p + x);
                        }
                    }
                }
                fb[yy + x] = BACKGROUND;
                x = x + 1;
            }
            y = y + 1;
        }
    }
}


/// The frame buffer and cursor after printing the bytes of `s`, from
/// cursor `c` on, on the bottom line of console `d`: before each byte a
/// cursor past the last cell goes back to the line's start and the grid
/// scrolls up; the byte's glyph is drawn at the cursor, which moves on.
pub open spec fn printed(d: StaticData, fb: Seq<u32>, c: int, font: Seq<u8>, s: Seq<u8>) -> (Seq<u32>, int)
    decreases s.len(),
{
    if s.len() == 0 {
        (fb, c)
    } else {
        let prev = printed(d, fb, c, font, s.drop_last());
        let fb1 = if prev.1 >= d.char_w {
            shifted(prev.0, d.pitch as int, d.char_w as int, d.char_h as int)
        } else {
            prev.0
        };
        let c1 = if prev.1 >= d.char_w { 0 } else { prev.1 };
        (drawn(fb1, d.pitch as int, glyph_of(font, s.last() as int), c1, d.char_h - 1, TEXT_COLOUR), c1 + 1)
    }
}

/// `d` with cursor `c` and shift state `s`, its geometry unchanged.
pub open spec fn with_state(d: StaticData, c: int, s: u8) -> StaticData {
    StaticData { cursor: c as usize, shift: s, ..d }
}

impl StaticData {
    /// Prints `string` on the bottom line from the cursor on, one glyph of
    /// `font` per byte, scrolling when the line is full.
    pub fn raw_print(&mut self, fb: &mut [u32], font: &[u8], string: &[u8])
        requires
            old(self).wf(),
            old(self).fits(old(fb)@),
            font@.len() >= 256 * 18,
        ensures
            ({
                let r = printed(*old(self), old(fb)@, old(self).cursor as int, font@, string@);
                &&& final(fb)@ == r.0
                &&& final(fb)@.len() == old(fb)@.len()
                &&& *final(self) == with_state(*old(self), r.1, old(self).shift)
            }),
    {
        let ghost d0 = *self;
        let ghost fb0 = fb@;
        let n = fb.len();
        let mut k: usize = 0;
        while k < string.len()
            invariant
                d0 == *old(self),
                d0.wf(),
                font@.len() >= 256 * 18,
                0 <= k <= string@.len(),
                fb@.len() == fb0.len(),
                d0.fits(fb0),
                *self == with_state(d0, self.cursor as int, d0.shift),
                fb0.len() <= usize::MAX,
                (fb@, self.cursor as int) == printed(d0, fb0, d0.cursor as int, font@, string@.take(k as int)),
            decreases string@.len() - k,
        {
            proof {
                assert(string@.take(k + 1).drop_last() =~= string@.take(k as int));
            }
            if self.cursor >= self.char_w {
                self.cursor = 0;
                self.shift_up(fb);
            }
            let start = (string[k] as usize) * GLYPH_BYTES;
            let glyph = vstd::slice::slice_subrange(font, start, font.len());
            let y = self.char_h - 1;
            proof {
                let p = self.pitch as int;
                assert(self.cursor < self.char_w);
                assert((16 * y + 15) * p + 9 * self.cursor + 8 < 16 * self.char_h * p) by (nonlinear_arith)
                    requires
                        y == self.char_h - 1,
                        9 * self.cursor + 8 < p,
                        p >= 9,
                ;
            }
            let ok = self.print_char(fb, glyph, self.cursor, y, TEXT_COLOUR);
            self.cursor = self.cursor + 1;
            k = k + 1;
        }
        proof {
            assert(string@.take(string@.len() as int) =~= string@);
        }
    }

    /// Prints `string`, then starts a new line: the cursor goes back to
    /// the line's start and the grid scrolls up.
    pub fn raw_println(&mut self, fb: &mut [u32], font: &[u8], string: &[u8])
        requires
            old(self).wf(),
            old(self).fits(old(fb)@),
            font@.len() >= 256 * 18,
        ensures
            ({
                let r = printed(*old(self), old(fb)@, old(self).cursor as int, font@, string@);
                &&& final(fb)@ == shifted(
                    r.0,
                    old(self).pitch as int,
                    old(self).char_w as int,
                    old(self).char_h as int,
                )
                &&& *final(self) == with_state(*old(self), 0, old(self).shift)
            }),
    {
        self.raw_print(fb, font, string);
        self.cursor = 0;
        self.shift_up(fb);
    }
}


/// The character of each key's make code, plain in the lower half and
/// with shift held (code + 0x80) in the upper; 0 for keys without one.
pub const SCANCODE_MAP: [u8; 256] = [
    // 00: ..1234567890-=..
    0, 0, 0x31, 0x32, 0x33, 0x34, 0x35, 0x36, 0x37, 0x38, 0x39, 0x30, 0x2D, 0x3D, 0, 0,
    // 10: qwertyuiop[]..as
    0x71, 0x77, 0x65, 0x72, 0x74, 0x79, 0x75, 0x69, 0x6F, 0x70, 0x5B, 0x5D, 0, 0, 0x61, 0x73,
    // 20: dfghjkl;'`.#zxcv
    0x64, 0x66, 0x67, 0x68, 0x6A, 0x6B, 0x6C, 0x3B, 0x27, 0x60, 0, 0x23, 0x7A, 0x78, 0x63, 0x76,
    // 30: bnm,./... ......
    0x62, 0x6E, 0x6D, 0x2C, 0x2E, 0x2F, 0, 0, 0, 0x20, 0, 0, 0, 0, 0, 0,
    // 40: ................
    0, 0, 0, 0, 0, 0, 0, 0, 0, 0, 0, 0, 0, 0, 0, 0,
    // 50: ......\.........
    0, 0, 0, 0, 0, 0, 0x5C, 0, 0, 0, 0, 0, 0, 0, 0, 0,
    // 60: ................
    0, 0, 0, 0, 0, 0, 0, 0, 0, 0, 0, 0, 0, 0, 0, 0,
    // 70: ................
    0, 0, 0, 0, 0, 0, 0, 0, 0, 0, 0, 0, 0, 0, 0, 0,
    // 80: ..!".$%^&*()_+..
    0, 0, 0x21, 0x22, 0, 0x24, 0x25, 0x5E, 0x26, 0x2A, 0x28, 0x29, 0x5F, 0x2B, 0, 0,
    // 90: QWERTYUIOP{}..AS
    0x51, 0x57, 0x45, 0x52, 0x54, 0x59, 0x55, 0x49, 0x4F, 0x50, 0x7B, 0x7D, 0, 0, 0x41, 0x53,
    // A0: DFGHJKL:@..~ZXCV
    0x44, 0x46, 0x47, 0x48, 0x4A, 0x4B, 0x4C, 0x3A, 0x40, 0, 0, 0x7E, 0x5A, 0x58, 0x43, 0x56,
    // B0: BNM<>?... ......
    0x42, 0x4E, 0x4D, 0x3C, 0x3E, 0x3F, 0, 0, 0, 0x20, 0, 0, 0, 0, 0, 0,
    // C0: ................
    0, 0, 0, 0, 0, 0, 0, 0, 0, 0, 0, 0, 0, 0, 0, 0,
    // D0: ......|.........
    0, 0, 0, 0, 0, 0, 0x7C, 0, 0, 0, 0, 0, 0, 0, 0, 0,
    // E0: ................
    0, 0, 0, 0, 0, 0, 0, 0, 0, 0, 0, 0, 0, 0, 0, 0,
    // F0: ................
    0, 0, 0, 0, 0, 0, 0, 0, 0, 0, 0, 0, 0, 0, 0, 0,
];

/// The console's state after key code `scancode` on console `d` with
/// frame buffer `fb`: the new frame buffer, cursor and shift state. A make
/// code (below 0x80), with the shift bit added, that maps to a character
/// draws it at the cursor, which moves on and wraps with a scroll at the
/// line's end; left shift (0x2A) sets the shift bit; backspace (0x0E)
/// moves the cursor back and blanks its cell; enter (0x1C) scrolls and
/// returns the cursor. Releasing left shift (0xAA) clears the shift bit.
pub open spec fn keyed(d: StaticData, fb: Seq<u32>, font: Seq<u8>, scancode: u8) -> (Seq<u32>, int, u8) {
    let y = d.char_h - 1;
    let c = d.cursor as int;
    if scancode < 0x80 {
        let code = scancode | d.shift;
        let map = SCANCODE_MAP@[code as int];
        if map == 0 {
            if code == 0x2A {
                (fb, c, 0x80)
            } else if code == 0x0E {
                if c != 0 {
                    (drawn(fb, d.pitch as int, glyph_of(font, 32), c - 1, y, TEXT_COLOUR), c - 1, d.shift)
                } else {
                    (fb, c, d.shift)
                }
            } else if code == 0x1C {
                (shifted(fb, d.pitch as int, d.char_w as int, d.char_h as int), 0, d.shift)
            } else {
                (fb, c, d.shift)
            }
        } else {
            let fb1 = drawn(fb, d.pitch as int, glyph_of(font, map as int), c, y, TEXT_COLOUR);
            if c + 1 == d.char_w {
                (shifted(fb1, d.pitch as int, d.char_w as int, d.char_h as int), 0, d.shift)
            } else {
                (fb1, c + 1, d.shift)
            }
        }
    } else if scancode == 0xAA {
        (fb, c, 0)
    } else {
        (fb, c, d.shift)
    }
}

/// A key that maps to a character draws that character: for a make code
/// `k` (below 0x80) with shift up (0) or held (0x80), the character is
/// entry `k + 0x80` of `SCANCODE_MAP` when shift is held and entry `k`
/// otherwise; when that entry is not 0, its glyph is drawn at the cursor
/// on the last line, the cursor moves on (back to 0 with a scroll at the
/// line's end) and the shift state stays.
pub proof fn lemma_key_draws(d: StaticData, fb: Seq<u32>, font: Seq<u8>, k: u8)
    requires
        k < 0x80,
        d.shift == 0 || d.shift == 0x80,
        SCANCODE_MAP@[k + d.shift] != 0,
    ensures
        ({
            let ch = SCANCODE_MAP@[k + d.shift];
            let fb1 = drawn(fb, d.pitch as int, glyph_of(font, ch as int), d.cursor as int, d.char_h - 1, TEXT_COLOUR);
            let r = keyed(d, fb, font, k);
            &&& r.0 == (if d.cursor + 1 == d.char_w {
                shifted(fb1, d.pitch as int, d.char_w as int, d.char_h as int)
            } else {
                fb1
            })
            &&& r.1 == (if d.cursor + 1 == d.char_w { 0 } else { d.cursor + 1 })
            &&& r.2 == d.shift
        }),
{
    let sh = d.shift;
    assert((k | sh) as int == k + sh) by (bit_vector)
        requires
            k < 0x80,
            sh == 0 || sh == 0x80,
    ;
}

/// The keys that draw nothing: pressing left shift (0x2A) holds shift and
/// releasing it (0xAA) lets it go, both leaving the screen and cursor as
/// they are; without shift, enter (0x1C) scrolls and returns the cursor
/// to 0, and backspace (0x0E) moves the cursor back and blanks that cell
/// with the space glyph (nothing happens at column 0).
pub proof fn lemma_control_keys(d: StaticData, fb: Seq<u32>, font: Seq<u8>)
    requires
        d.shift == 0 || d.shift == 0x80,
    ensures
        keyed(d, fb, font, 0x2A) == (fb, d.cursor as int, 0x80u8),
        keyed(d, fb, font, 0xAA) == (fb, d.cursor as int, 0u8),
        d.shift == 0 ==> keyed(d, fb, font, 0x1C) == (
            shifted(fb, d.pitch as int, d.char_w as int, d.char_h as int),
            0int,
            0u8,
        ),
        d.shift == 0 && d.cursor > 0 ==> keyed(d, fb, font, 0x0E) == (
            drawn(fb, d.pitch as int, glyph_of(font, 32), d.cursor - 1, d.char_h - 1, TEXT_COLOUR),
            d.cursor - 1,
            0u8,
        ),
        d.shift == 0 && d.cursor == 0 ==> keyed(d, fb, font, 0x0E) == (fb, 0int, 0u8),
{
    assert(0x2Au8 | 0 == 0x2A && 0x2Au8 | 0x80 == 0xAA && 0x1Cu8 | 0 == 0x1C && 0x0Eu8 | 0 == 0x0E) by (bit_vector);
}

impl StaticData {
    /// Handles key code `scancode` from the keyboard: see `keyed`.
    pub fn input_scancode(&mut self, fb: &mut [u32], font: &[u8], scancode: u8)
        requires
            old(self).wf(),
            old(self).fits(old(fb)@),
            font@.len() >= 256 * 18,
            old(self).shift == 0 || old(self).shift == 0x80,
            (16 * old(self).char_h - 1) * old(self).pitch + 9 * old(self).cursor + 8 <= usize::MAX,
        ensures
            ({
                let r = keyed(*old(self), old(fb)@, font@, scancode);
                &&& final(fb)@ == r.0
                &&& *final(self) == with_state(*old(self), r.1, r.2)
            }),
    {
        let y = self.char_h - 1;
        assert(16 * y + 15 == 16 * self.char_h - 1);
        if scancode < 0x80 {
            let code = scancode | self.shift;
            let map = SCANCODE_MAP[code as usize];
            if map == 0 {
                if code == 0x2A {
                    self.shift = 0x80;
                } else if code == 0x0E {
                    if self.cursor != 0 {
                        self.cursor = self.cursor - 1;
                        let glyph = vstd::slice::slice_subrange(font, 32 * GLYPH_BYTES, font.len());
                        let ok = self.print_char(fb, glyph, self.cursor, y, TEXT_COLOUR);
                    }
                } else if code == 0x1C {
                    self.shift_up(fb);
                    self.cursor = 0;
                }
            } else {
                let glyph = vstd::slice::slice_subrange(font, (map as usize) * GLYPH_BYTES, font.len());
                let ok = self.print_char(fb, glyph, self.cursor, y, TEXT_COLOUR);
                self.cursor = self.cursor + 1;
                if self.cursor == self.char_w {
                    self.shift_up(fb);
                    self.cursor = 0;
                }
            }
        } else if scancode == 0xAA {
            self.shift = 0;
        }
    }
}


/// The decimal digits of `n` as ASCII, most significant first, without
/// leading zeros ("0" for 0).
pub open spec fn decimal(n: nat) -> Seq<u8>
    decreases n,
{
    if n < 10 {
        seq![(48 + n) as u8]
    } else {
        decimal(n / 10).push((48 + n % 10) as u8)
    }
}

/// The number that the ASCII decimal digits of `s` denote.
pub open spec fn decimal_value(s: Seq<u8>) -> int
    decreases s.len(),
{
    if s.len() == 0 {
        0
    } else {
        decimal_value(s.drop_last()) * 10 + (s.last() - 48)
    }
}

/// The digits `print_num` shows for `n` are decimal digits and denote `n`.
pub proof fn lemma_decimal_value(n: nat)
    ensures
        decimal_value(decimal(n)) == n,
        decimal(n).len() >= 1,
        forall|i: int| 0 <= i < decimal(n).len() ==> 48 <= #[trigger] decimal(n)[i] <= 57,
    decreases n,
{
    if n < 10 {
        assert(decimal(n).drop_last() =~= Seq::<u8>::empty());
        assert(decimal_value(Seq::<u8>::empty()) == 0);
        assert(decimal(n).last() == 48 + n);
    } else {
        lemma_decimal_value(n / 10);
        let d = decimal(n / 10);
        assert(decimal(n).drop_last() =~= d);
        assert(decimal(n).last() == 48 + n % 10);
        vstd::arithmetic::div_mod::lemma_fundamental_div_mod(n as int, 10);
        assert(decimal_value(decimal(n)) == decimal_value(d) * 10 + n % 10);
        assert forall|i: int| 0 <= i < decimal(n).len() implies 48 <= #[trigger] decimal(n)[i] <= 57 by {
            if i < d.len() {
                assert(decimal(n)[i] == d[i]);
            }
        }
    }
}

/// `num` in decimal ASCII, after a '-' when it is negative.
pub open spec fn signed_decimal(num: int) -> Seq<u8> {
    if num < 0 {
        seq![45u8] + decimal((-num) as nat)
    } else {
        decimal(num as nat)
    }
}

/// The ASCII hex digit of `v` (0 to 15), upper case.
pub open spec fn hex_char(v: int) -> u8 {
    if v < 10 {
        (48 + v) as u8
    } else {
        (65 + v - 10) as u8
    }
}

/// The low `nibbles` hex digits of `num`, most significant first.
pub open spec fn hex(num: u64, nibbles: int) -> Seq<u8> {
    Seq::new(nibbles as nat, |k: int| hex_char(((num >> ((4 * (nibbles - 1 - k)) as u64)) & 0xF) as int))
}

/// The value of a hex digit `c` ('0' to '9', 'A' to 'F').
pub open spec fn hex_digit_value(c: u8) -> int {
    if c <= 57 {
        c - 48
    } else {
        c - 55
    }
}

/// The number that the hex digits of `s` denote.
pub open spec fn hex_value(s: Seq<u8>) -> int
    decreases s.len(),
{
    if s.len() == 0 {
        0
    } else {
        hex_value(s.drop_last()) * 16 + hex_digit_value(s.last())
    }
}

/// The low `n` hex digits of `num` are those of `num >> 4` followed by
/// the digit of its low nibble.
proof fn lemma_hex_step(num: u64, n: int)
    requires
        1 <= n <= 16,
    ensures
        hex(num, n) =~= hex(num >> 4u64, n - 1).push(hex_char((num & 0xF) as int)),
{
    assert forall|k: int| 0 <= k < n - 1 implies #[trigger] hex(num, n)[k] == hex(num >> 4u64, n - 1)[k] by {
        let sh = (4 * (n - 2 - k)) as u64;
        assert(sh < 60);
        assert(((num >> 4u64) >> sh) == num >> ((sh + 4) as u64)) by (bit_vector)
            requires sh < 60;
        assert((4 * (n - 1 - k)) as u64 == (sh + 4) as u64);
    }
    assert((num >> 0u64) & 0xF == num & 0xF) by (bit_vector);
    assert((4 * (n - 1 - (n - 1))) as u64 == 0u64);
}

/// The digits `print_hex` shows for `num` over `n` nibbles denote `num`
/// modulo `16^n`: the low `n / 2` bytes of the integer.
pub proof fn lemma_hex_value(num: u64, n: nat)
    requires
        n <= 16,
    ensures
        hex_value(hex(num, n as int)) == (num as int) % vstd::arithmetic::power::pow(16, n),
    decreases n,
{
    reveal(vstd::arithmetic::power::pow);
    if n == 0 {
        assert(hex(num, 0) =~= Seq::<u8>::empty());
    } else {
        let p = vstd::arithmetic::power::pow(16, (n - 1) as nat);
        vstd::arithmetic::power::lemma_pow_positive(16, (n - 1) as nat);
        lemma_hex_step(num, n as int);
        lemma_hex_value(num >> 4u64, (n - 1) as nat);
        let d = hex(num, n as int);
        assert(d.drop_last() =~= hex(num >> 4u64, n - 1));
        assert(num >> 4u64 == num / 16) by (bit_vector);
        assert(num & 0xF == num % 16) by (bit_vector);
        assert(hex_digit_value(hex_char((num & 0xF) as int)) == num % 16);
        vstd::arithmetic::div_mod::lemma_mod_breakdown(num as int, 16, p);
        assert(vstd::arithmetic::power::pow(16, n) == 16 * p);
    }
}

/// Appends the decimal digits of `n` to `out`.
fn push_decimal(out: &mut Vec<u8>, n: u128)
    ensures
        final(out)@ == old(out)@ + decimal(n as nat),
    decreases n,
{
    let next = n / 10;
    if next > 0 {
        push_decimal(out, next);
    }
    out.push((n % 10) as u8 + 48);
    proof {
        if n < 10 {
            assert(decimal(n as nat) =~= seq![(48 + n) as u8]);
        } else {
            assert(decimal(n as nat) =~= decimal((n / 10) as nat).push((48 + n % 10) as u8));
        }
    }
}

/// `num` in decimal ASCII, after a '-' when it is negative.
pub fn decimal_digits(num: i128) -> (r: Vec<u8>)
    requires
        num > i128::MIN,
    ensures
        r@ == signed_decimal(num as int),
{
    let mut out: Vec<u8> = Vec::new();
    let n: u128 = if num < 0 {
        out.push(45);
        (-num) as u128
    } else {
        num as u128
    };
    push_decimal(&mut out, n);
    proof {
        if num < 0 {
            assert(out@ =~= seq![45u8] + decimal((-num) as nat));
        } else {
            assert(out@ =~= decimal(num as nat));
        }
    }
    out
}

/// The low `bytes * 2` hex digits of `num`, upper case, most significant
/// first: the digits of a `bytes`-byte integer whose bits `num` holds.
pub fn hex_digits(num: u64, bytes: u64) -> (r: Vec<u8>)
    requires
        1 <= bytes <= 8,
    ensures
        r@ == hex(num, 2 * bytes),
{
    let nibbles = bytes * 2;
    let mut out: Vec<u8> = Vec::new();
    let mut k: u64 = 0;
    while k < nibbles
        invariant
            nibbles == 2 * bytes,
            1 <= bytes <= 8,
            0 <= k <= nibbles,
            out@ =~= hex(num, nibbles as int).take(k as int),
        decreases nibbles - k,
    {
        let shift = 4 * (nibbles - 1 - k);
        let v = (num >> shift) & 0xF;
        assert(v <= 15) by (bit_vector)
            requires v == (num >> shift) & 0xF;
        let c = if v < 10 {
            v as u8 + 48
        } else {
            v as u8 + 55
        };
        out.push(c);
        k = k + 1;
    }
    out
}

impl StaticData {
    /// Prints `num` in decimal, after a '-' when it is negative.
    pub fn print_num(&mut self, fb: &mut [u32], font: &[u8], num: i128)
        requires
            old(self).wf(),
            old(self).fits(old(fb)@),
            font@.len() >= 256 * 18,
            num > i128::MIN,
        ensures
            ({
                let r = printed(*old(self), old(fb)@, old(self).cursor as int, font@, signed_decimal(num as int));
                &&& final(fb)@ == r.0
                &&& *final(self) == with_state(*old(self), r.1, old(self).shift)
            }),
    {
        let digits = decimal_digits(num);
        self.raw_print(fb, font, digits.as_slice());
    }

    /// Prints the `bytes * 2` hex digits of a `bytes`-byte integer whose
    /// bits `num` holds, most significant first.
    pub fn print_hex(&mut self, fb: &mut [u32], font: &[u8], num: u64, bytes: u64)
        requires
            old(self).wf(),
            old(self).fits(old(fb)@),
            font@.len() >= 256 * 18,
            1 <= bytes <= 8,
        ensures
            ({
                let r = printed(*old(self), old(fb)@, old(self).cursor as int, font@, hex(num, 2 * bytes));
                &&& final(fb)@ == r.0
                &&& *final(self) == with_state(*old(self), r.1, old(self).shift)
            }),
    {
        let digits = hex_digits(num, bytes);
        self.raw_print(fb, font, digits.as_slice());
    }
}

} // verus!
