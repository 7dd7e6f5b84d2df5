//! Writing text to the linear frame buffer with an 8x8 font. The frame buffer's
//! memory is modelled by the writer's byte buffer.
use crate::boot_info::{BootInfo, PixelFormat};
use vstd::prelude::*;

verus! {

/// A colour: red, green and blue intensities.
#[derive(Debug, Clone, Copy, PartialEq, Eq, Structural)]
pub struct Color(pub u8, pub u8, pub u8);

/// Writes text to the frame buffer, 8x8 pixels per character, with a cursor at
/// `(x, y)`.
pub struct FrameBufferWriter {
    pub buffer: Vec<u8>,
    pub width: usize,
    pub height: usize,
    pub stride: usize,
    pub bytes_per_pixel: usize,
    pub x: usize,
    pub y: usize,
    pub fg_color: Color,
    pub bg_color: Color,
    pub color_format: PixelFormat,
    /// The glyph of each character code: one byte per row.
    pub font: Vec<[u8; 8]>,
}

/// The grey level of a colour: `(77 r + 150 g + 29 b) / 256`.
pub open spec fn gray(c: Color) -> u8 {
    ((c.0 as int * 77 + c.1 as int * 150 + c.2 as int * 29) / 256) as u8
}

/// The bytes that a pixel of colour `c` takes in the format `f`, each with its
/// position in the pixel, in the order they are written.
pub open spec fn pixel_writes(f: PixelFormat, c: Color) -> Seq<(int, u8)> {
    match f {
        PixelFormat::Rgb => seq![(0, c.0), (1, c.1), (2, c.2)],
        PixelFormat::Bgr => seq![(0, c.2), (1, c.1), (2, c.0)],
        PixelFormat::U8 => seq![(0, gray(c))],
        PixelFormat::Unknown { red_position, green_position, blue_position } => seq![
            (red_position as int, c.0),
            (green_position as int, c.1),
            (blue_position as int, c.2),
        ],
    }
}

/// The furthest byte position past a pixel's offset that writing it computes.
pub open spec fn reach(f: PixelFormat) -> int {
    match f {
        PixelFormat::Unknown { red_position, green_position, blue_position } => {
            let m1 = if red_position > green_position { red_position } else { green_position };
            let m2 = if m1 > blue_position { m1 } else { blue_position };
            if m2 > 2 { m2 as int } else { 2 }
        },
        _ => 2,
    }
}

/// `buf` after the writes `ws` at `offset`, in order; a write past the end of
/// the buffer is left out.
pub open spec fn apply_writes(buf: Seq<u8>, offset: int, ws: Seq<(int, u8)>) -> Seq<u8>
    decreases ws.len(),
{
    if ws.len() == 0 {
        buf
    } else {
        let b = apply_writes(buf, offset, ws.drop_last());
        let (p, v) = ws.last();
        if 0 <= offset + p < b.len() {
            b.update(offset + p, v)
        } else {
            b
        }
    }
}

/// The configuration of a writer: the screen's geometry, the pixel format, the
/// colours and the font.
pub struct Screen {
    pub width: int,
    pub height: int,
    pub stride: int,
    pub bpp: int,
    pub format: PixelFormat,
    pub fg: Color,
    pub bg: Color,
    pub font: Seq<Seq<u8>>,
}

/// Byte offset of the pixel `(x, y)`.
pub open spec fn pixel_offset(scr: Screen, x: int, y: int) -> int {
    (y * scr.stride + x) * scr.bpp
}

/// The buffer after the pixel `(x, y)` was set to `c`: nothing happens when the
/// pixel's first three bytes do not all lie in the buffer.
pub open spec fn with_pixel(buf: Seq<u8>, scr: Screen, x: int, y: int, c: Color) -> Seq<u8> {
    let off = pixel_offset(scr, x, y);
    if off + 2 >= buf.len() {
        buf
    } else {
        apply_writes(buf, off, pixel_writes(scr.format, c))
    }
}

/// Whether writing the pixel `(x, y)` into a buffer of `n` bytes stays in the
/// buffer: either its first three bytes do not all lie there (and nothing is
/// written), or every byte its format writes does.
pub open spec fn pixel_held(scr: Screen, n: int, x: int, y: int) -> bool {
    let off = pixel_offset(scr, x, y);
    off + 2 < n ==> off + reach(scr.format) < n
}

/// The buffer after the first `k` of the 64 pixels of `glyph` were drawn at
/// `(x, y)`: pixel `k` is at row `k / 8`, column `k % 8`; row `r` of the glyph
/// goes to screen column `x + r`, and its bit `c` to screen row `y + c`.
pub open spec fn glyph_drawn(buf: Seq<u8>, scr: Screen, glyph: Seq<u8>, x: int, y: int, k: int) -> Seq<u8>
    decreases k,
{
    if k <= 0 {
        buf
    } else {
        let prev = glyph_drawn(buf, scr, glyph, x, y, k - 1);
        let row = (k - 1) / 8;
        let col = (k - 1) % 8;
        let on = (glyph[row] >> (col as u8)) & 1 != 0;
        with_pixel(prev, scr, x + row, y + col, if on { scr.fg } else { scr.bg })
    }
}

/// Where the cursor row goes on a new line.
pub open spec fn next_line(scr: Screen, y: int) -> int {
    if y + 8 + 8 >= scr.height {
        0
    } else {
        y + 8
    }
}

/// Whether the character `ch` goes to a new line rather than being drawn: it is
/// a line feed, or no room is left on the line.
pub open spec fn breaks_line(scr: Screen, x: int, ch: char) -> bool {
    ch == '\n' || x + 8 >= scr.width
}

/// Buffer and cursor after the characters `cs` were written from `(x, y)`: a
/// character that breaks the line moves to the next one and is not drawn; any
/// other is drawn and moves the cursor 8 pixels right.
pub open spec fn text_written(buf: Seq<u8>, scr: Screen, x: int, y: int, cs: Seq<char>) -> (Seq<u8>, int, int)
    decreases cs.len(),
{
    if cs.len() == 0 {
        (buf, x, y)
    } else {
        let (b, x1, y1) = text_written(buf, scr, x, y, cs.drop_last());
        let ch = cs.last();
        if breaks_line(scr, x1, ch) {
            (b, 0, next_line(scr, y1))
        } else {
            (glyph_drawn(b, scr, scr.font[ch as int], x1, y1, 64), x1 + 8, y1)
        }
    }
}

/// The state `(buffer, x, y)` after the characters `cs` were written from the
/// state `st`.
pub open spec fn written(st: (Seq<u8>, int, int), scr: Screen, cs: Seq<char>) -> (Seq<u8>, int, int) {
    text_written(st.0, scr, st.1, st.2, cs)
}

/// The screen `scr` with the colours `fg` on `bg`.
pub open spec fn recolored(scr: Screen, fg: Color, bg: Color) -> Screen {
    Screen { fg: fg, bg: bg, ..scr }
}

/// Whether every character of `cs` that gets drawn has a glyph in the font.
pub open spec fn glyphs_exist(scr: Screen, x: int, y: int, cs: Seq<char>) -> bool
    decreases cs.len(),
{
    if cs.len() == 0 {
        true
    } else {
        let (b, x1, y1) = text_written(Seq::empty(), scr, x, y, cs.drop_last());
        &&& glyphs_exist(scr, x, y, cs.drop_last())
        &&& !breaks_line(scr, x1, cs.last()) ==> (cs.last() as int) < scr.font.len()
    }
}

/// The buffer after the first `k` pixels of the screen were cleared to `c`,
/// column by column.
pub open spec fn cleared(buf: Seq<u8>, scr: Screen, c: Color, k: int) -> Seq<u8>
    decreases k,
{
    if k <= 0 {
        buf
    } else {
        with_pixel(cleared(buf, scr, c, k - 1), scr, (k - 1) / scr.height, (k - 1) % scr.height, c)
    }
}

/// A character's code is not negative.
proof fn lemma_char_code(c: char)
    ensures
        0 <= c as int,
        c as u32 as int == c as int,
{
}

/// The cursor after writing depends on neither the buffer written to nor the
/// colours: only on the screen's size.
pub proof fn lemma_text_written_cursor(
    b1: Seq<u8>,
    b2: Seq<u8>,
    scr1: Screen,
    scr2: Screen,
    x: int,
    y: int,
    cs: Seq<char>,
)
    requires
        scr1.width == scr2.width,
        scr1.height == scr2.height,
    ensures
        text_written(b1, scr1, x, y, cs).1 == text_written(b2, scr2, x, y, cs).1,
        text_written(b1, scr1, x, y, cs).2 == text_written(b2, scr2, x, y, cs).2,
    decreases cs.len(),
{
    if cs.len() > 0 {
        lemma_text_written_cursor(b1, b2, scr1, scr2, x, y, cs.drop_last());
    }
}

/// Whether glyphs exist depends only on the screen's size and font.
pub proof fn lemma_glyphs_exist_screens(scr1: Screen, scr2: Screen, x: int, y: int, cs: Seq<char>)
    requires
        scr1.width == scr2.width,
        scr1.height == scr2.height,
        scr1.font == scr2.font,
    ensures
        glyphs_exist(scr1, x, y, cs) == glyphs_exist(scr2, x, y, cs),
    decreases cs.len(),
{
    if cs.len() > 0 {
        lemma_glyphs_exist_screens(scr1, scr2, x, y, cs.drop_last());
        lemma_text_written_cursor(Seq::empty(), Seq::empty(), scr1, scr2, x, y, cs.drop_last());
    }
}

/// Writing two texts one after the other is writing them joined.
pub proof fn law_text_written_concat(buf: Seq<u8>, scr: Screen, x: int, y: int, a: Seq<char>, c: Seq<char>)
    ensures
        text_written(buf, scr, x, y, a + c) == written(text_written(buf, scr, x, y, a), scr, c),
    decreases c.len(),
{
    if c.len() == 0 {
        assert(a + c =~= a);
    } else {
        assert((a + c).drop_last() =~= a + c.drop_last());
        assert((a + c).last() == c.last());
        law_text_written_concat(buf, scr, x, y, a, c.drop_last());
    }
}

/// Glyphs exist for two texts joined exactly when they exist for the first,
/// and for the second from where the first leaves the cursor.
pub proof fn lemma_glyphs_exist_concat(scr: Screen, x: int, y: int, a: Seq<char>, c: Seq<char>)
    ensures
        glyphs_exist(scr, x, y, a + c) == (glyphs_exist(scr, x, y, a) && glyphs_exist(
            scr,
            text_written(Seq::empty(), scr, x, y, a).1,
            text_written(Seq::empty(), scr, x, y, a).2,
            c,
        )),
    decreases c.len(),
{
    let st = text_written(Seq::empty(), scr, x, y, a);
    if c.len() == 0 {
        assert(a + c =~= a);
    } else {
        let c1 = c.drop_last();
        assert((a + c).drop_last() =~= a + c1);
        assert((a + c).last() == c.last());
        lemma_glyphs_exist_concat(scr, x, y, a, c1);
        law_text_written_concat(Seq::empty(), scr, x, y, a, c1);
        lemma_text_written_cursor(st.0, Seq::empty(), scr, scr, st.1, st.2, c1);
    }
}

/// Glyphs exist for every prefix of a text whose glyphs exist.
pub proof fn lemma_glyphs_exist_prefix(scr: Screen, x: int, y: int, cs: Seq<char>, n: int)
    requires
        glyphs_exist(scr, x, y, cs),
        0 <= n <= cs.len(),
    ensures
        glyphs_exist(scr, x, y, cs.take(n)),
    decreases cs.len(),
{
    if n < cs.len() {
        assert(cs.drop_last().take(n) =~= cs.take(n));
        lemma_glyphs_exist_prefix(scr, x, y, cs.drop_last(), n);
    } else {
        assert(cs.take(n) =~= cs);
    }
}

/// The texts `parts` joined in order.
pub open spec fn joined(parts: Seq<Seq<char>>) -> Seq<char>
    decreases parts.len(),
{
    if parts.len() == 0 {
        Seq::empty()
    } else {
        joined(parts.drop_last()) + parts.last()
    }
}

/// The state and colours of the writer `w` after the texts `parts` were written
/// one after the other, `parts[i]` in the colours `colors[i]` (foreground,
/// background); the writer keeps the colours of the last part.
pub open spec fn parts_written(w: FrameBufferWriter, parts: Seq<Seq<char>>, colors: Seq<(Color, Color)>) -> (
    (Seq<u8>, int, int),
    Color,
    Color,
)
    decreases parts.len(),
{
    if parts.len() == 0 {
        (w.state(), w.fg_color, w.bg_color)
    } else {
        let prev = parts_written(w, parts.drop_last(), colors.drop_last());
        let fg = colors.last().0;
        let bg = colors.last().1;
        (written(prev.0, recolored(w.screen(), fg, bg), parts.last()), fg, bg)
    }
}

/// The cursor after writing texts in turn, whatever their colours, is the
/// cursor after writing them joined.
pub proof fn lemma_parts_cursor(w: FrameBufferWriter, parts: Seq<Seq<char>>, colors: Seq<(Color, Color)>)
    requires
        parts.len() == colors.len(),
    ensures
        parts_written(w, parts, colors).0.1 == text_written(
            Seq::empty(),
            w.screen(),
            w.x as int,
            w.y as int,
            joined(parts),
        ).1,
        parts_written(w, parts, colors).0.2 == text_written(
            Seq::empty(),
            w.screen(),
            w.x as int,
            w.y as int,
            joined(parts),
        ).2,
    decreases parts.len(),
{
    if parts.len() > 0 {
        let scr = w.screen();
        let prev = parts_written(w, parts.drop_last(), colors.drop_last());
        let rec = recolored(scr, colors.last().0, colors.last().1);
        lemma_parts_cursor(w, parts.drop_last(), colors.drop_last());
        lemma_text_written_cursor(prev.0.0, Seq::empty(), rec, scr, prev.0.1, prev.0.2, parts.last());
        let mid = text_written(Seq::empty(), scr, w.x as int, w.y as int, joined(parts.drop_last()));
        law_text_written_concat(Seq::empty(), scr, w.x as int, w.y as int, joined(parts.drop_last()), parts.last());
        lemma_text_written_cursor(mid.0, Seq::empty(), scr, scr, mid.1, mid.2, parts.last());
    }
}

/// Glyphs exist for the first `n` texts joined when they exist for all of them.
pub proof fn lemma_glyphs_exist_parts_prefix(scr: Screen, x: int, y: int, parts: Seq<Seq<char>>, n: int)
    requires
        glyphs_exist(scr, x, y, joined(parts)),
        0 <= n <= parts.len(),
    ensures
        glyphs_exist(scr, x, y, joined(parts.take(n))),
    decreases parts.len(),
{
    if n == parts.len() {
        assert(parts.take(n) =~= parts);
    } else {
        lemma_glyphs_exist_concat(scr, x, y, joined(parts.drop_last()), parts.last());
        assert(parts.drop_last().take(n) =~= parts.take(n));
        lemma_glyphs_exist_parts_prefix(scr, x, y, parts.drop_last(), n);
    }
}

impl FrameBufferWriter {
    /// The writer's configuration.
    pub open spec fn screen(&self) -> Screen {
        Screen {
            width: self.width as int,
            height: self.height as int,
            stride: self.stride as int,
            bpp: self.bytes_per_pixel as int,
            format: self.color_format,
            fg: self.fg_color,
            bg: self.bg_color,
            font: self.font@.map_values(|g: [u8; 8]| g@),
        }
    }

    /// The buffer and the cursor.
    pub open spec fn state(&self) -> (Seq<u8>, int, int) {
        (self.buffer@, self.x as int, self.y as int)
    }

    /// The cursor stays on the screen, and any pixel within 8 pixels past the
    /// screen's edges can be addressed without overflow.
    pub open spec fn wf(&self) -> bool {
        &&& self.cursor_ok()
        &&& self.geometry_ok()
        &&& self.pixels_held()
    }

    /// The cursor is on the screen: at most at its right edge, and on the top
    /// line or on a line that has room for a character below it.
    pub open spec fn cursor_ok(&self) -> bool {
        &&& self.x <= self.width
        &&& self.y == 0 || self.y + 8 < self.height
    }

    /// Every pixel up to 8 past the screen's edges whose first three bytes lie
    /// in the buffer has all the bytes its format writes in the buffer.
    pub open spec fn pixels_held(&self) -> bool {
        forall|x: int, y: int|
            0 <= x <= self.width + 8 && 0 <= y <= self.height + 8 ==> #[trigger] pixel_held(
                self.screen(),
                self.buffer@.len() as int,
                x,
                y,
            )
    }

    /// The screen's geometry, 8 pixels past its edges, can be addressed
    /// without overflow.
    pub open spec fn geometry_ok(&self) -> bool {
        &&& self.width + 8 <= usize::MAX
        &&& self.height + 16 <= usize::MAX
        &&& (self.height + 8) * self.stride + self.width + 8 <= usize::MAX
        &&& ((self.height + 8) * self.stride + self.width + 8) * self.bytes_per_pixel + reach(
            self.color_format,
        ) <= usize::MAX
    }

    /// The pixel `(x, y)` can be addressed without overflow.
    pub open spec fn pixel_fits(&self, x: int, y: int) -> bool {
        &&& 0 <= x
        &&& 0 <= y
        &&& y * self.stride + x <= usize::MAX
        &&& (y * self.stride + x) * self.bytes_per_pixel + reach(self.color_format) <= usize::MAX
    }

    /// In a sound writer, every pixel up to 8 past the screen's edges fits.
    proof fn lemma_pixel_fits(&self, x: int, y: int)
        requires
            self.geometry_ok(),
            0 <= x <= self.width + 8,
            0 <= y <= self.height + 8,
        ensures
            self.pixel_fits(x, y),
    {
        let s = self.stride as int;
        let b = self.bytes_per_pixel as int;
        let h = self.height as int;
        let w = self.width as int;
        assert(y * s <= (h + 8) * s) by (nonlinear_arith)
            requires
                0 <= y <= h + 8,
                0 <= s,
        ;
        assert((y * s + x) * b <= ((h + 8) * s + w + 8) * b) by (nonlinear_arith)
            requires
                y * s + x <= (h + 8) * s + w + 8,
                0 <= b,
        ;
    }

    /// Writes `v` at `i` when `i` lies in the buffer.
    fn put_byte(&mut self, i: usize, v: u8)
        ensures
            final(self).buffer@ == if i < old(self).buffer@.len() {
                old(self).buffer@.update(i as int, v)
            } else {
                old(self).buffer@
            },
            final(self).width == old(self).width,
            final(self).height == old(self).height,
            final(self).stride == old(self).stride,
            final(self).bytes_per_pixel == old(self).bytes_per_pixel,
            final(self).x == old(self).x,
            final(self).y == old(self).y,
            final(self).fg_color == old(self).fg_color,
            final(self).bg_color == old(self).bg_color,
            final(self).color_format == old(self).color_format,
            final(self).font@ == old(self).font@,
    {
        if i < self.buffer.len() {
            self.buffer.set(i, v);
        }
    }

    /// Sets the pixel `(x, y)` to `color`, when its first three bytes lie in the
    /// buffer.
    fn set_pixel(&mut self, x: usize, y: usize, color: Color)
        requires
            old(self).pixel_fits(x as int, y as int),
            pixel_held(old(self).screen(), old(self).buffer@.len() as int, x as int, y as int),
        ensures
            final(self).buffer@ == with_pixel(old(self).buffer@, old(self).screen(), x as int, y as int, color),
            final(self).buffer@.len() == old(self).buffer@.len(),
            final(self).width == old(self).width,
            final(self).height == old(self).height,
            final(self).stride == old(self).stride,
            final(self).bytes_per_pixel == old(self).bytes_per_pixel,
            final(self).x == old(self).x,
            final(self).y == old(self).y,
            final(self).fg_color == old(self).fg_color,
            final(self).bg_color == old(self).bg_color,
            final(self).color_format == old(self).color_format,
            final(self).font@ == old(self).font@,
    {
        let ghost b0 = self.buffer@;
        let offset = (y * self.stride + x) * self.bytes_per_pixel;
        if offset + 2 >= self.buffer.len() {
            return;
        }
        let ghost ws = pixel_writes(self.color_format, color);
        proof {
            reveal_with_fuel(apply_writes, 4);
        }
        match self.color_format {
            PixelFormat::Rgb => {
                self.put_byte(offset + 0, color.0);
                self.put_byte(offset + 1, color.1);
                self.put_byte(offset + 2, color.2);
                assert(ws.drop_last().drop_last().drop_last() =~= Seq::<(int, u8)>::empty());
            },
            PixelFormat::Bgr => {
                self.put_byte(offset + 0, color.2);
                self.put_byte(offset + 1, color.1);
                self.put_byte(offset + 2, color.0);
                assert(ws.drop_last().drop_last().drop_last() =~= Seq::<(int, u8)>::empty());
            },
            PixelFormat::U8 => {
                let v = ((color.0 as u16 * 77 + color.1 as u16 * 150 + color.2 as u16 * 29) >> 8) as u8;
                proof {
                    let t = (color.0 as u16 * 77 + color.1 as u16 * 150 + color.2 as u16 * 29) as u16;
                    assert((t >> 8) == t / 256) by (bit_vector);
                    assert(t / 256 < 256);
                }
                self.put_byte(offset, v);
                assert(ws.drop_last() =~= Seq::<(int, u8)>::empty());
            },
            PixelFormat::Unknown { red_position, green_position, blue_position } => {
                self.put_byte(offset + red_position, color.0);
                self.put_byte(offset + green_position, color.1);
                self.put_byte(offset + blue_position, color.2);
                assert(ws.drop_last().drop_last().drop_last() =~= Seq::<(int, u8)>::empty());
            },
        }
    }

    /// Smaller coordinates fit when larger ones do.
    proof fn lemma_pixel_fits_mono(&self, x: int, y: int, x2: int, y2: int)
        requires
            self.pixel_fits(x2, y2),
            0 <= x <= x2,
            0 <= y <= y2,
        ensures
            self.pixel_fits(x, y),
    {
        let s = self.stride as int;
        let b = self.bytes_per_pixel as int;
        assert(y * s <= y2 * s) by (nonlinear_arith)
            requires
                0 <= y <= y2,
                0 <= s,
        ;
        assert((y * s + x) * b <= (y2 * s + x2) * b) by (nonlinear_arith)
            requires
                y * s + x <= y2 * s + x2,
                0 <= b,
        ;
    }

    /// Draws the glyph of `ch` with its top-left corner at the cursor, in the
    /// foreground colour on the background colour, and moves the cursor 8 pixels
    /// right.
    pub fn draw_char(&mut self, ch: char)
        requires
            (ch as int) < old(self).font@.len(),
            old(self).x + 8 <= usize::MAX,
            old(self).y + 8 <= usize::MAX,
            old(self).pixel_fits(old(self).x + 7, old(self).y + 7),
            forall|r: int, c: int|
                0 <= r < 8 && 0 <= c < 8 ==> #[trigger] pixel_held(
                    old(self).screen(),
                    old(self).buffer@.len() as int,
                    old(self).x + r,
                    old(self).y + c,
                ),
        ensures
            final(self).buffer@ == glyph_drawn(
                old(self).buffer@,
                old(self).screen(),
                old(self).font@[ch as int]@,
                old(self).x as int,
                old(self).y as int,
                64,
            ),
            final(self).x == old(self).x + 8,
            final(self).y == old(self).y,
            final(self).screen() == old(self).screen(),
            final(self).buffer@.len() == old(self).buffer@.len(),
    {
        let ghost scr = self.screen();
        let ghost b0 = self.buffer@;
        let glyph = self.font[ch as u32 as usize];
        let mut row: usize = 0;
        while row < 8
            invariant
                row <= 8,
                self.screen() == scr,
                self.x == old(self).x,
                self.y == old(self).y,
                self.buffer@.len() == b0.len(),
                (ch as int) < scr.font.len(),
                self.x + 8 <= usize::MAX,
                self.y + 8 <= usize::MAX,
                glyph@ == scr.font[ch as int],
                self.pixel_fits(self.x + 7, self.y + 7),
                forall|r: int, c: int|
                    0 <= r < 8 && 0 <= c < 8 ==> #[trigger] pixel_held(scr, b0.len() as int, self.x + r, self.y + c),
                self.buffer@ == glyph_drawn(b0, scr, glyph@, self.x as int, self.y as int, row * 8),
            decreases 8 - row,
        {
            let byte = glyph[row];
            let mut col: usize = 0;
            while col < 8
                invariant
                    row < 8,
                    col <= 8,
                    byte == glyph@[row as int],
                    self.screen() == scr,
                    self.x == old(self).x,
                    self.y == old(self).y,
                    self.buffer@.len() == b0.len(),
                    (ch as int) < scr.font.len(),
                    self.x + 8 <= usize::MAX,
                    self.y + 8 <= usize::MAX,
                    glyph@ == scr.font[ch as int],
                    self.pixel_fits(self.x + 7, self.y + 7),
                    forall|r: int, c: int|
                        0 <= r < 8 && 0 <= c < 8 ==> #[trigger] pixel_held(scr, b0.len() as int, self.x + r, self.y + c),
                    self.buffer@ == glyph_drawn(b0, scr, glyph@, self.x as int, self.y as int, row * 8 + col),
                decreases 8 - col,
            {
                let pixel_on = (byte >> (col as u8)) & 1 != 0;
                let color = if pixel_on {
                    self.fg_color
                } else {
                    self.bg_color
                };
                proof {
                    self.lemma_pixel_fits_mono(self.x + row, self.y + col, self.x + 7, self.y + 7);
                    assert((row * 8 + col) / 8 == row && (row * 8 + col) % 8 == col) by (nonlinear_arith)
                        requires
                            row < 8,
                            col < 8,
                    ;
                }
                assert(pixel_held(scr, b0.len() as int, self.x + row, self.y + col));
                self.set_pixel(self.x + row, self.y + col, color);
                col = col + 1;
            }
            row = row + 1;
        }
        self.x = self.x + 8;
    }

    /// Moves the cursor to the start of the next text line, back to the top when
    /// no room is left below.
    pub fn newline(&mut self)
        requires
            old(self).y + 16 <= usize::MAX,
        ensures
            final(self).x == 0,
            final(self).y == next_line(old(self).screen(), old(self).y as int),
            final(self).screen() == old(self).screen(),
            final(self).buffer@ == old(self).buffer@,
    {
        self.x = 0;
        self.y += 8;
        if self.y + 8 >= self.height {
            self.y = 0
        }
    }

    /// Writes `s` at the cursor: a line feed, or a character for which no room is
    /// left on the line, moves to the next line and is not drawn; every other
    /// character is drawn and moves the cursor right.
    pub fn write_str(&mut self, s: &str)
        requires
            old(self).wf(),
            glyphs_exist(old(self).screen(), old(self).x as int, old(self).y as int, s@),
        ensures
            (final(self).buffer@, final(self).x as int, final(self).y as int) == text_written(
                old(self).buffer@,
                old(self).screen(),
                old(self).x as int,
                old(self).y as int,
                s@,
            ),
            final(self).screen() == old(self).screen(),
            final(self).wf(),
            old(self).x < old(self).width ==> final(self).x < final(self).width,
    {
        broadcast use vstd::string::axiom_spec_iter;

        let ghost scr = self.screen();
        let ghost b0 = self.buffer@;
        let ghost x0 = self.x as int;
        let ghost y0 = self.y as int;
        for ch in it: s.chars()
            invariant
                it.seq() == s@,
                self.wf(),
                x0 < scr.width ==> self.x < self.width,
                self.screen() == scr,
                glyphs_exist(scr, x0, y0, s@),
                (self.buffer@, self.x as int, self.y as int) == text_written(
                    b0,
                    scr,
                    x0,
                    y0,
                    s@.take(it.index()),
                ),
        {
            proof {
                lemma_glyphs_exist_prefix(scr, x0, y0, s@, it.index() + 1);
                lemma_text_written_cursor(b0, Seq::empty(), scr, scr, x0, y0, s@.take(it.index()));
                assert(s@.take(it.index() + 1).drop_last() =~= s@.take(it.index()));
                assert(s@.take(it.index() + 1).last() == ch);
            }
            if ch == '\n' || self.x + 8 >= self.width {
                self.newline();
            } else {
                proof {
                    self.lemma_pixel_fits(self.x + 7, self.y + 7);
                    lemma_char_code(ch);
                    assert(scr.font[ch as int] == self.font@[ch as int]@);
                }
                self.draw_char(ch);
            }
        }
        assert(s@.take(s@.len() as int) =~= s@);
    }

    /// Whether the writer has a glyph for every character of `s` that writing
    /// it from the cursor would draw.
    pub fn can_write(&self, s: &str) -> (b: bool)
        requires
            self.wf(),
        ensures
            b == glyphs_exist(self.screen(), self.x as int, self.y as int, s@),
    {
        broadcast use vstd::string::axiom_spec_iter;

        let ghost scr = self.screen();
        let mut x = self.x;
        let mut y = self.y;
        let mut ok = true;
        for ch in it: s.chars()
            invariant
                it.seq() == s@,
                self.wf(),
                scr == self.screen(),
                x <= self.width,
                y == 0 || y + 8 < self.height,
                ok == glyphs_exist(scr, self.x as int, self.y as int, s@.take(it.index())),
                x == text_written(Seq::empty(), scr, self.x as int, self.y as int, s@.take(it.index())).1,
                y == text_written(Seq::empty(), scr, self.x as int, self.y as int, s@.take(it.index())).2,
        {
            proof {
                assert(s@.take(it.index() + 1).drop_last() =~= s@.take(it.index()));
                assert(s@.take(it.index() + 1).last() == ch);
                lemma_char_code(ch);
            }
            if ch == '\n' || x + 8 >= self.width {
                x = 0;
                if y + 16 >= self.height {
                    y = 0;
                } else {
                    y = y + 8;
                }
            } else {
                let code = (ch as u32) as usize;
                if code >= self.font.len() {
                    ok = false;
                }
                x = x + 8;
            }
        }
        proof {
            assert(s@.take(s@.len() as int) =~= s@);
        }
        ok
    }

    /// Writes the texts `parts` one after the other, each in its colours:
    /// `parts[i]` in `colors[i]` (foreground, background).
    pub fn write_parts(&mut self, parts: &[&str], colors: &[(Color, Color)])
        requires
            old(self).wf(),
            parts@.len() == colors@.len(),
            glyphs_exist(
                old(self).screen(),
                old(self).x as int,
                old(self).y as int,
                joined(parts@.map_values(|p: &str| p@)),
            ),
        ensures
            ({
                let (st, fg, bg) = parts_written(*old(self), parts@.map_values(|p: &str| p@), colors@);
                &&& final(self).state() == st
                &&& final(self).screen() == recolored(old(self).screen(), fg, bg)
            }),
            final(self).wf(),
    {
        let ghost w0 = *self;
        let ghost scr0 = self.screen();
        let ghost ps = parts@.map_values(|p: &str| p@);
        let ghost cs = colors@;
        let mut i: usize = 0;
        while i < parts.len()
            invariant
                0 <= i <= parts@.len(),
                parts@.len() == colors@.len(),
                ps == parts@.map_values(|p: &str| p@),
                cs == colors@,
                scr0 == w0.screen(),
                glyphs_exist(scr0, w0.x as int, w0.y as int, joined(ps)),
                self.wf(),
                ({
                    let (st, fg, bg) = parts_written(w0, ps.take(i as int), cs.take(i as int));
                    &&& self.state() == st
                    &&& self.screen() == recolored(scr0, fg, bg)
                }),
            decreases parts@.len() - i,
        {
            let ghost pi = ps.take(i as int);
            let ghost pn = ps.take(i + 1);
            let ghost ci = cs.take(i as int);
            let ghost cn = cs.take(i + 1);
            proof {
                assert(pn.drop_last() =~= pi);
                assert(cn.drop_last() =~= ci);
                assert(pn.last() == parts@[i as int]@);
                lemma_glyphs_exist_parts_prefix(scr0, w0.x as int, w0.y as int, ps, i + 1);
                lemma_glyphs_exist_concat(scr0, w0.x as int, w0.y as int, joined(pi), parts@[i as int]@);
                lemma_parts_cursor(w0, pi, ci);
            }
            let ghost pre = *self;
            let (fg, bg) = colors[i];
            self.fg_color = fg;
            self.bg_color = bg;
            proof {
                assert forall|x: int, y: int|
                    0 <= x <= self.width + 8 && 0 <= y <= self.height + 8 implies #[trigger] pixel_held(
                    self.screen(),
                    self.buffer@.len() as int,
                    x,
                    y,
                ) by {
                    assert(pixel_held(pre.screen(), pre.buffer@.len() as int, x, y));
                }
                lemma_glyphs_exist_screens(
                    scr0,
                    self.screen(),
                    self.x as int,
                    self.y as int,
                    parts@[i as int]@,
                );
            }
            self.write_str(parts[i]);
            i = i + 1;
        }
        proof {
            assert(ps.take(parts@.len() as int) =~= ps);
            assert(cs.take(parts@.len() as int) =~= cs);
        }
    }

    /// Clears the whole screen to the background colour, column by column, and
    /// puts the cursor at the top-left corner.
    pub fn erase(&mut self)
        requires
            old(self).geometry_ok(),
            old(self).pixels_held(),
        ensures
            final(self).buffer@ == cleared(
                old(self).buffer@,
                old(self).screen(),
                old(self).bg_color,
                old(self).width * old(self).height,
            ),
            final(self).x == 0,
            final(self).y == 0,
            final(self).screen() == old(self).screen(),
            final(self).wf(),
    {
        let ghost scr = self.screen();
        let ghost b0 = self.buffer@;
        let h = self.height;
        let w = self.width;
        assert(cleared(b0, scr, scr.bg, 0 * h) == b0);
        for x in 0..w
            invariant
                w == self.width,
                self.geometry_ok(),
                self.pixels_held(),
                self.screen() == scr,
                h == self.height,
                self.buffer@ == cleared(b0, scr, scr.bg, x * h),
        {
            for y in 0..h
                invariant
                    x < w,
                    w == self.width,
                    self.geometry_ok(),
                    self.pixels_held(),
                    self.screen() == scr,
                    h == self.height,
                    self.buffer@ == cleared(b0, scr, scr.bg, x * h + y),
            {
                proof {
                    self.lemma_pixel_fits(x as int, y as int);
                    let k = x * h + y;
                    assert(k / (h as int) == x && k % (h as int) == y) by (nonlinear_arith)
                        requires
                            k == x * h + y,
                            y < h,
                    ;
                }
                self.set_pixel(x, y, self.bg_color);
            }
            assert(x * h + h == (x + 1) * h) by (nonlinear_arith);
        }
        self.x = 0;
        self.y = 0;
    }

    /// Whether the writer is sound: see `wf`.
    pub fn is_sound(&self) -> (b: bool)
        ensures
            b == self.wf(),
    {
        self.geometry_sound() && self.pixels_in_buffer()
    }

    /// Whether the cursor and the geometry are sound: see `geometry_ok`.
    fn geometry_sound(&self) -> (b: bool)
        ensures
            b == (self.cursor_ok() && self.geometry_ok()),
    {
        if self.x > self.width {
            return false;
        }
        if !(self.y == 0 || (self.y < usize::MAX - 8 && self.y + 8 < self.height)) {
            return false;
        }
        if self.width > usize::MAX - 8 || self.height > usize::MAX - 16 {
            return false;
        }
        let rows = match (self.height + 8).checked_mul(self.stride) {
            Some(r) => r,
            None => return false,
        };
        if rows > usize::MAX - self.width - 8 {
            return false;
        }
        let pixels = rows + self.width + 8;
        let bytes = match pixels.checked_mul(self.bytes_per_pixel) {
            Some(b) => b,
            None => return false,
        };
        bytes <= usize::MAX - reach_of(self.color_format)
    }

    /// Whether every pixel up to 8 past the screen's edges stays in the buffer:
    /// see `pixels_held`.
    fn pixels_in_buffer(&self) -> (b: bool)
        requires
            self.geometry_ok(),
        ensures
            b == self.pixels_held(),
    {
        let ghost scr = self.screen();
        let n = self.buffer.len();
        let reach = reach_of(self.color_format);
        if reach == 2 {
            return true;
        }
        let w = self.width + 8;
        let h = self.height + 8;
        let mut y: usize = 0;
        while y <= h
            invariant
                self.geometry_ok(),
                scr == self.screen(),
                n == self.buffer@.len(),
                reach == crate::log::display::reach(self.color_format),
                w == self.width + 8,
                h == self.height + 8,
                h + 8 <= usize::MAX,
                y <= h + 1,
                forall|xx: int, yy: int|
                    0 <= xx <= w && 0 <= yy < y ==> #[trigger] pixel_held(scr, n as int, xx, yy),
            decreases h + 1 - y,
        {
            let mut x: usize = 0;
            loop
                invariant_except_break
                    x <= w,
                    forall|xx: int| 0 <= xx < x ==> #[trigger] pixel_held(scr, n as int, xx, y as int),
                invariant
                    self.geometry_ok(),
                    scr == self.screen(),
                    n == self.buffer@.len(),
                    reach == crate::log::display::reach(self.color_format),
                    w == self.width + 8,
                    h == self.height + 8,
                    h + 8 <= usize::MAX,
                    y <= h,
                    forall|xx: int, yy: int|
                        0 <= xx <= w && 0 <= yy < y ==> #[trigger] pixel_held(scr, n as int, xx, yy),
                ensures
                    forall|xx: int| 0 <= xx <= w ==> #[trigger] pixel_held(scr, n as int, xx, y as int),
                decreases w - x,
            {
                proof {
                    self.lemma_pixel_fits(x as int, y as int);
                }
                let off = (y * self.stride + x) * self.bytes_per_pixel;
                if off + 2 < n && off + reach >= n {
                    assert(!pixel_held(scr, n as int, x as int, y as int));
                    return false;
                }
                if x == w {
                    break;
                }
                x = x + 1;
            }
            y = y + 1;
        }
        true
    }
}

/// The furthest byte position past a pixel's offset that writing it computes.
fn reach_of(f: PixelFormat) -> (r: usize)
    ensures
        r == reach(f),
{
    match f {
        PixelFormat::Unknown { red_position, green_position, blue_position } => {
            let m1 = if red_position > green_position { red_position } else { green_position };
            let m2 = if m1 > blue_position { m1 } else { blue_position };
            if m2 > 2 { m2 } else { 2 }
        },
        _ => 2,
    }
}

/// A writer for the frame buffer that the bootloader set up, white on black with
/// the cursor at the top-left corner: `pixels` holds that buffer's bytes and
/// `font` the glyphs.
pub fn init_framebuffer_writer(boot_info: BootInfo, pixels: Vec<u8>, font: Vec<[u8; 8]>) -> (w: FrameBufferWriter)
    requires
        boot_info.frame_buffer is Some,
        pixels@.len() == boot_info.frame_buffer->0.buffer.len,
    ensures
        w.buffer@ == pixels@,
        w.width == boot_info.frame_buffer->0.width,
        w.height == boot_info.frame_buffer->0.height,
        w.stride == boot_info.frame_buffer->0.stride,
        w.bytes_per_pixel == boot_info.frame_buffer->0.bytes_per_pixel,
        w.color_format == boot_info.frame_buffer->0.pixel_format,
        w.x == 0,
        w.y == 0,
        w.fg_color == Color(255, 255, 255),
        w.bg_color == Color(0, 0, 0),
        w.font@ == font@,
{
    let fb = boot_info.frame_buffer.unwrap();
    FrameBufferWriter {
        buffer: pixels,
        width: fb.width,
        height: fb.height,
        stride: fb.stride,
        bytes_per_pixel: fb.bytes_per_pixel,
        x: 0,
        y: 0,
        fg_color: Color(255, 255, 255),
        bg_color: Color(0, 0, 0),
        color_format: fb.pixel_format,
        font,
    }
}

/// Whether bit `c` (0 the least significant) of the glyph row `g` is set.
pub open spec fn glyph_bit(g: u8, c: int) -> bool {
    (g as nat / vstd::arithmetic::power2::pow2(c as nat)) % 2 == 1
}

/// Whether the pixel at byte offset `off` of `b` shows the colour `col` in the
/// format `f`: red, green and blue in that order for RGB, the other way round
/// for BGR, the grey level for one-byte pixels, and each at its own position
/// otherwise.
pub open spec fn pixel_shows(b: Seq<u8>, f: PixelFormat, off: int, col: Color) -> bool {
    match f {
        PixelFormat::Rgb => b[off] == col.0 && b[off + 1] == col.1 && b[off + 2] == col.2,
        PixelFormat::Bgr => b[off] == col.2 && b[off + 1] == col.1 && b[off + 2] == col.0,
        PixelFormat::U8 => b[off] == ((col.0 as int * 77 + col.1 as int * 150 + col.2 as int * 29) / 256) as u8,
        PixelFormat::Unknown { red_position, green_position, blue_position } => {
            &&& b[off + red_position] == col.0
            &&& b[off + green_position] == col.1
            &&& b[off + blue_position] == col.2
        },
    }
}

/// The three colour positions of a format are distinct.
pub open spec fn positions_distinct(f: PixelFormat) -> bool {
    match f {
        PixelFormat::Unknown { red_position, green_position, blue_position } => red_position
            != green_position && red_position != blue_position && green_position != blue_position,
        _ => true,
    }
}

/// Writing keeps its length.
proof fn lemma_apply_writes_len(buf: Seq<u8>, off: int, ws: Seq<(int, u8)>)
    ensures
        apply_writes(buf, off, ws).len() == buf.len(),
    decreases ws.len(),
{
    if ws.len() > 0 {
        lemma_apply_writes_len(buf, off, ws.drop_last());
    }
}

/// Writing leaves alone every byte no write goes to.
proof fn lemma_apply_writes_other(buf: Seq<u8>, off: int, ws: Seq<(int, u8)>, i: int)
    requires
        0 <= i < buf.len(),
        forall|j: int| 0 <= j < ws.len() ==> off + (#[trigger] ws[j]).0 != i,
    ensures
        apply_writes(buf, off, ws)[i] == buf[i],
    decreases ws.len(),
{
    if ws.len() > 0 {
        assert(off + ws[ws.len() - 1].0 != i);
        assert(forall|j: int| 0 <= j < ws.drop_last().len() ==> ws.drop_last()[j] == ws[j]);
        lemma_apply_writes_other(buf, off, ws.drop_last(), i);
        lemma_apply_writes_len(buf, off, ws.drop_last());
    }
}

/// Every position a pixel's format writes lies between 0 and `reach`.
proof fn lemma_pixel_writes_positions(f: PixelFormat, col: Color)
    ensures
        forall|j: int|
            0 <= j < pixel_writes(f, col).len() ==> 0 <= (#[trigger] pixel_writes(f, col)[j]).0 <= reach(f),
{
}

/// Setting a pixel leaves alone every byte before its offset or past its
/// reach, and keeps the length.
proof fn lemma_with_pixel_keeps(buf: Seq<u8>, scr: Screen, px: int, py: int, col: Color, i: int)
    requires
        0 <= i < buf.len(),
        i < pixel_offset(scr, px, py) || i > pixel_offset(scr, px, py) + reach(scr.format),
    ensures
        with_pixel(buf, scr, px, py, col)[i] == buf[i],
        with_pixel(buf, scr, px, py, col).len() == buf.len(),
{
    let off = pixel_offset(scr, px, py);
    lemma_pixel_writes_positions(scr.format, col);
    lemma_apply_writes_len(buf, off, pixel_writes(scr.format, col));
    if off + 2 < buf.len() {
        lemma_apply_writes_other(buf, off, pixel_writes(scr.format, col), i);
    }
}

/// Setting a pixel keeps the buffer's length.
proof fn lemma_with_pixel_len(buf: Seq<u8>, scr: Screen, px: int, py: int, col: Color)
    ensures
        with_pixel(buf, scr, px, py, col).len() == buf.len(),
{
    lemma_apply_writes_len(buf, pixel_offset(scr, px, py), pixel_writes(scr.format, col));
}

/// Setting a pixel whose bytes lie in the buffer makes it show the colour.
proof fn lemma_with_pixel_shows(buf: Seq<u8>, scr: Screen, px: int, py: int, col: Color)
    requires
        0 <= pixel_offset(scr, px, py),
        pixel_offset(scr, px, py) + reach(scr.format) < buf.len(),
        positions_distinct(scr.format),
    ensures
        pixel_shows(with_pixel(buf, scr, px, py, col), scr.format, pixel_offset(scr, px, py), col),
{
    reveal_with_fuel(apply_writes, 4);
    let off = pixel_offset(scr, px, py);
    let ws = pixel_writes(scr.format, col);
    match scr.format {
        PixelFormat::U8 => {
            assert(ws.drop_last() =~= Seq::<(int, u8)>::empty());
        },
        _ => {
            assert(ws.drop_last().drop_last().drop_last() =~= Seq::<(int, u8)>::empty());
        },
    }
}

/// Drawing a glyph keeps the buffer's length.
proof fn lemma_glyph_drawn_len(buf: Seq<u8>, scr: Screen, glyph: Seq<u8>, x: int, y: int, k: int)
    ensures
        glyph_drawn(buf, scr, glyph, x, y, k).len() == buf.len(),
    decreases k,
{
    if k > 0 {
        let prev = glyph_drawn(buf, scr, glyph, x, y, k - 1);
        lemma_glyph_drawn_len(buf, scr, glyph, x, y, k - 1);
        let row = (k - 1) / 8;
        let col = (k - 1) % 8;
        lemma_with_pixel_len(prev, scr, x + row, y + col, scr.fg);
        lemma_with_pixel_len(prev, scr, x + row, y + col, scr.bg);
    }
}

/// Two different pixels of an 8x8 cell lie at least a pixel apart.
proof fn lemma_cell_pixels_apart(scr: Screen, x: int, y: int, r: int, c: int, r2: int, c2: int)
    requires
        0 <= r < 8,
        0 <= c < 8,
        0 <= r2 < 8,
        0 <= c2 < 8,
        r != r2 || c != c2,
        scr.stride >= 8,
        scr.bpp > 0,
    ensures
        pixel_offset(scr, x + r2, y + c2) + scr.bpp <= pixel_offset(scr, x + r, y + c) || pixel_offset(
            scr,
            x + r,
            y + c,
        ) + scr.bpp <= pixel_offset(scr, x + r2, y + c2),
{
    let s = scr.stride;
    let b = scr.bpp;
    let i1 = (y + c) * s + x + r;
    let i2 = (y + c2) * s + x + r2;
    assert(i1 != i2) by (nonlinear_arith)
        requires
            i1 == (y + c) * s + x + r,
            i2 == (y + c2) * s + x + r2,
            0 <= r < 8,
            0 <= c < 8,
            0 <= r2 < 8,
            0 <= c2 < 8,
            r != r2 || c != c2,
            s >= 8,
    {
        if c == c2 {
        } else if c < c2 {
            assert((c2 - c) * s >= s);
            assert(i2 - i1 == (c2 - c) * s + (r2 - r));
        } else {
            assert((c - c2) * s >= s);
            assert(i1 - i2 == (c - c2) * s + (r - r2));
        }
    }
    assert(i2 * b + b <= i1 * b || i1 * b + b <= i2 * b) by (nonlinear_arith)
        requires
            i1 != i2,
            b > 0,
    {
        if i1 < i2 {
            assert(i2 * b >= (i1 + 1) * b);
        } else {
            assert(i1 * b >= (i2 + 1) * b);
        }
    }
}

/// Bit `c` of `g` as the drawing tests it is `glyph_bit`.
proof fn lemma_glyph_bit(g: u8, c: int)
    requires
        0 <= c < 8,
    ensures
        ((g >> (c as u8)) & 1 != 0) == glyph_bit(g, c),
{
    vstd::bits::lemma_u8_shr_is_div(g, c as u8);
    let h = g >> (c as u8);
    assert((h & 1 != 0) == (h % 2 == 1)) by (bit_vector);
}

/// Once drawn, pixel `(r, c)` of the cell keeps its colour while the rest of
/// the cell is drawn.
proof fn lemma_glyph_drawn_pixel(buf: Seq<u8>, scr: Screen, glyph: Seq<u8>, x: int, y: int, r: int, c: int, k: int)
    requires
        0 <= r < 8,
        0 <= c < 8,
        r * 8 + c + 1 <= k <= 64,
        glyph.len() == 8,
        scr.stride >= 8,
        scr.bpp > reach(scr.format),
        positions_distinct(scr.format),
        0 <= pixel_offset(scr, x + r, y + c),
        pixel_offset(scr, x + r, y + c) + reach(scr.format) < buf.len(),
    ensures
        pixel_shows(
            glyph_drawn(buf, scr, glyph, x, y, k),
            scr.format,
            pixel_offset(scr, x + r, y + c),
            if glyph_bit(glyph[r], c) {
                scr.fg
            } else {
                scr.bg
            },
        ),
    decreases k,
{
    let off = pixel_offset(scr, x + r, y + c);
    let color = if glyph_bit(glyph[r], c) { scr.fg } else { scr.bg };
    let prev = glyph_drawn(buf, scr, glyph, x, y, k - 1);
    lemma_glyph_drawn_len(buf, scr, glyph, x, y, k - 1);
    let row = (k - 1) / 8;
    let col = (k - 1) % 8;
    let on = (glyph[row] >> (col as u8)) & 1 != 0;
    let pc = if on { scr.fg } else { scr.bg };
    if k == r * 8 + c + 1 {
        assert(row == r && col == c);
        lemma_glyph_bit(glyph[r], c);
        lemma_with_pixel_shows(prev, scr, x + r, y + c, pc);
    } else {
        lemma_glyph_drawn_pixel(buf, scr, glyph, x, y, r, c, k - 1);
        assert(0 <= row < 8 && 0 <= col < 8);
        assert(row != r || col != c);
        lemma_cell_pixels_apart(scr, x, y, r, c, row, col);
        let cur = glyph_drawn(buf, scr, glyph, x, y, k);
        assert(cur == with_pixel(prev, scr, x + row, y + col, pc));
        assert forall|i: int| off <= i <= off + reach(scr.format) implies cur[i] == prev[i] by {
            lemma_with_pixel_keeps(prev, scr, x + row, y + col, pc, i);
        }
        match scr.format {
            PixelFormat::Unknown { red_position, green_position, blue_position } => {
                assert(cur[off + red_position] == prev[off + red_position]);
                assert(cur[off + green_position] == prev[off + green_position]);
                assert(cur[off + blue_position] == prev[off + blue_position]);
            },
            _ => {
                assert(cur[off] == prev[off]);
                assert(cur[off + 1] == prev[off + 1]);
                assert(cur[off + 2] == prev[off + 2]);
            },
        }
    }
}

/// Law: drawing a character shows its glyph. After the glyph `glyph` is drawn
/// with its top-left corner at `(x, y)`, the pixel `(x + r, y + c)` shows the
/// foreground colour when bit `c` of row `r` of the glyph is set and the
/// background colour when it is clear, for every pixel of the cell whose bytes
/// lie in the buffer. (`draw_char` ensures its buffer is this `glyph_drawn`.)
/// The rows of the screen are at least 8 pixels apart, each pixel's bytes fit
/// in its own `bpp` bytes, and an `Unknown` format names three different
/// positions.
pub proof fn law_draw_char_shows_glyph(buf: Seq<u8>, scr: Screen, glyph: Seq<u8>, x: int, y: int, r: int, c: int)
    requires
        0 <= r < 8,
        0 <= c < 8,
        glyph.len() == 8,
        scr.stride >= 8,
        scr.bpp > reach(scr.format),
        positions_distinct(scr.format),
        0 <= pixel_offset(scr, x + r, y + c),
        pixel_offset(scr, x + r, y + c) + reach(scr.format) < buf.len(),
    ensures
        glyph_drawn(buf, scr, glyph, x, y, 64).len() == buf.len(),
        pixel_shows(
            glyph_drawn(buf, scr, glyph, x, y, 64),
            scr.format,
            pixel_offset(scr, x + r, y + c),
            if glyph_bit(glyph[r], c) {
                scr.fg
            } else {
                scr.bg
            },
        ),
{
    lemma_glyph_drawn_len(buf, scr, glyph, x, y, 64);
    lemma_glyph_drawn_pixel(buf, scr, glyph, x, y, r, c, 64);
}

/// Two different pixels whose columns lie within a row's stride lie at least
/// a pixel apart.
proof fn lemma_pixels_apart(scr: Screen, px: int, py: int, qx: int, qy: int)
    requires
        0 <= px < scr.stride,
        0 <= qx < scr.stride,
        0 <= py,
        0 <= qy,
        px != qx || py != qy,
        scr.bpp > 0,
    ensures
        pixel_offset(scr, qx, qy) + scr.bpp <= pixel_offset(scr, px, py) || pixel_offset(scr, px, py)
            + scr.bpp <= pixel_offset(scr, qx, qy),
{
    let s = scr.stride;
    let b = scr.bpp;
    let i1 = py * s + px;
    let i2 = qy * s + qx;
    assert(i1 != i2) by (nonlinear_arith)
        requires
            i1 == py * s + px,
            i2 == qy * s + qx,
            0 <= px < s,
            0 <= qx < s,
            px != qx || py != qy,
    {
        if py == qy {
        } else if py < qy {
            assert((qy - py) * s >= s);
            assert(i2 - i1 == (qy - py) * s + (qx - px));
        } else {
            assert((py - qy) * s >= s);
            assert(i1 - i2 == (py - qy) * s + (px - qx));
        }
    }
    assert(i2 * b + b <= i1 * b || i1 * b + b <= i2 * b) by (nonlinear_arith)
        requires
            i1 != i2,
            b > 0,
    {
        if i1 < i2 {
            assert(i2 * b >= (i1 + 1) * b);
        } else {
            assert(i1 * b >= (i2 + 1) * b);
        }
    }
}

/// Clearing keeps the buffer's length.
proof fn lemma_cleared_len(buf: Seq<u8>, scr: Screen, c: Color, k: int)
    ensures
        cleared(buf, scr, c, k).len() == buf.len(),
    decreases k,
{
    if k > 0 {
        lemma_cleared_len(buf, scr, c, k - 1);
        lemma_with_pixel_len(cleared(buf, scr, c, k - 1), scr, (k - 1) / scr.height, (k - 1) % scr.height, c);
    }
}

/// Once cleared, pixel `(px, py)` keeps the colour while the rest of the
/// screen is cleared.
proof fn lemma_cleared_pixel(buf: Seq<u8>, scr: Screen, c: Color, px: int, py: int, k: int)
    requires
        0 <= px < scr.width,
        0 <= py < scr.height,
        px * scr.height + py + 1 <= k <= scr.width * scr.height,
        scr.stride >= scr.width,
        scr.bpp > reach(scr.format),
        positions_distinct(scr.format),
        pixel_offset(scr, px, py) + reach(scr.format) < buf.len(),
    ensures
        pixel_shows(cleared(buf, scr, c, k), scr.format, pixel_offset(scr, px, py), c),
    decreases k,
{
    let h = scr.height;
    let off = pixel_offset(scr, px, py);
    let prev = cleared(buf, scr, c, k - 1);
    lemma_cleared_len(buf, scr, c, k - 1);
    let qx = (k - 1) / h;
    let qy = (k - 1) % h;
    assert(0 <= off) by (nonlinear_arith)
        requires
            off == (py * scr.stride + px) * scr.bpp,
            0 <= px,
            0 <= py,
            scr.stride >= 0,
            scr.bpp >= 0,
    ;
    if k == px * h + py + 1 {
        assert(qx == px && qy == py) by (nonlinear_arith)
            requires
                k - 1 == px * h + py,
                0 <= py < h,
                qx == (k - 1) / h,
                qy == (k - 1) % h,
        ;
        lemma_with_pixel_shows(prev, scr, px, py, c);
    } else {
        lemma_cleared_pixel(buf, scr, c, px, py, k - 1);
        assert(0 <= qx < scr.width && 0 <= qy < h && (qx != px || qy != py)) by (nonlinear_arith)
            requires
                k - 1 != px * h + py,
                0 <= k - 1 < scr.width * h,
                h > 0,
                qx == (k - 1) / h,
                qy == (k - 1) % h,
        {
            assert(k - 1 == qx * h + qy);
        }
        lemma_pixels_apart(scr, px, py, qx, qy);
        let cur = cleared(buf, scr, c, k);
        assert forall|i: int| off <= i <= off + reach(scr.format) implies cur[i] == prev[i] by {
            lemma_with_pixel_keeps(prev, scr, qx, qy, c, i);
        }
        match scr.format {
            PixelFormat::Unknown { red_position, green_position, blue_position } => {
                assert(cur[off + red_position] == prev[off + red_position]);
                assert(cur[off + green_position] == prev[off + green_position]);
                assert(cur[off + blue_position] == prev[off + blue_position]);
            },
            _ => {
                assert(cur[off] == prev[off]);
                assert(cur[off + 1] == prev[off + 1]);
                assert(cur[off + 2] == prev[off + 2]);
            },
        }
    }
}

/// Law: clearing the screen (what `erase` does, with the background colour)
/// leaves every pixel of the screen whose bytes lie in the buffer showing the
/// colour. Each row's stride holds the screen's width, each pixel's bytes fit
/// in its own `bpp` bytes, and an `Unknown` format names three different
/// positions.
pub proof fn law_erase_clears_every_pixel(buf: Seq<u8>, scr: Screen, c: Color, px: int, py: int)
    requires
        0 <= px < scr.width,
        0 <= py < scr.height,
        scr.stride >= scr.width,
        scr.bpp > reach(scr.format),
        positions_distinct(scr.format),
        pixel_offset(scr, px, py) + reach(scr.format) < buf.len(),
    ensures
        cleared(buf, scr, c, scr.width * scr.height).len() == buf.len(),
        pixel_shows(cleared(buf, scr, c, scr.width * scr.height), scr.format, pixel_offset(scr, px, py), c),
{
    lemma_cleared_len(buf, scr, c, scr.width * scr.height);
    assert(px * scr.height + py + 1 <= scr.width * scr.height) by (nonlinear_arith)
        requires
            0 <= px < scr.width,
            0 <= py < scr.height,
    {
        assert(px * scr.height + scr.height <= scr.width * scr.height);
    }
    lemma_cleared_pixel(buf, scr, c, px, py, scr.width * scr.height);
}

} // verus!
