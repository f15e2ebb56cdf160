//! Frame-buffer logic of an SSD1306 128x64 monochrome display. The driver
//! draws into a buffer of one bit per pixel and computes the bytes to send;
//! the caller performs the bus transfers.

use vstd::prelude::*;
use vstd::std_specs::iter::IteratorSpec;
use crate::ssd1306_error::Error;
use crate::ssd1306_registers::{
    WHITE, BLACK, CHARGEPUMP, COLUMNADDR, DEACTIVATE_SCROLL, DISPLAYALLON_RESUME, DISPLAYOFF, DISPLAYON,
    EXTERNALVCC, INVERTDISPLAY, LCDHEIGHT, LCDWIDTH, MEMORYMODE, NORMALDISPLAY, PAGEADDR,
    SETCOMPINS, SETCONTRAST, SETDISPLAYCLOCKDIV, SETDISPLAYOFFSET, SETMULTIPLEX, SETPRECHARGE,
    SETSTARTLINE, SETVCOMDETECT, SWITCHCAPVCC,
};

verus! {

/// The bus address used when the caller names none.
pub const DEFAULT_ADDRESS: u8 = 0x3C;

/// The register that `read` asks for.
pub const TEMP_REGISTER: u8 = 0x15;

/// Bytes in the frame buffer: one bit per pixel, eight rows per byte.
pub const BUFFER_SIZE: usize = 1024;

/// How the panel's voltage is generated.
pub const VCC_STATE: u8 = SWITCHCAPVCC;

/// Contrast when not dimmed.
pub const CONTRAST: u8 = 0x8F;

/// Columns of a glyph.
pub const FONT_WIDTH: u16 = 5;

/// Rows of a glyph.
pub const FONT_HEIGHT: u16 = 8;

/// Horizontal advance from one character to the next.
pub const FONT_WIDTH_1: u16 = 6;

/// Vertical advance from one text line to the next.
pub const FONT_HEIGHT_1: u16 = 9;

/// Largest number of data bytes sent in one transfer.
pub const CHUNK_SIZE: usize = 32;

/// Index of the buffer byte that holds pixel `(x, y)`: each column takes
/// `LCDHEIGHT / 8` consecutive bytes.
pub open spec fn pixel_index(x: int, y: int) -> int {
    8 * x + y / 8
}

/// `buf` with the bit of pixel `(x, y)` set.
pub open spec fn set_pixel(buf: Seq<u8>, x: int, y: int) -> Seq<u8> {
    let idx = pixel_index(x, y);
    buf.update(idx, buf[idx] | (1u8 << ((y % 8) as u8)))
}

/// Setting pixel `(x, y)` in `buf`: the new buffer, or the point when it lies
/// off the screen or past the buffer.
pub open spec fn plot(buf: Seq<u8>, x: int, y: int) -> Result<Seq<u8>, (int, int)> {
    if x < 0 || y < 0 || x > LCDWIDTH || y > LCDHEIGHT || pixel_index(x, y) >= buf.len() {
        Err((x, y))
    } else {
        Ok(set_pixel(buf, x, y))
    }
}

/// Rows `j..8` of one glyph column `col` at `(x, y)`: each set bit sets its pixel.
pub open spec fn glyph_column(buf: Seq<u8>, x: int, y: int, col: u8, j: int) -> Seq<u8>
    decreases 8 - j,
{
    if j >= 8 {
        buf
    } else {
        let next = if (col >> (j as u8)) & 1u8 == 1u8 {
            set_pixel(buf, x, y + j)
        } else {
            buf
        };
        glyph_column(next, x, y, col, j + 1)
    }
}

/// Columns `i..FONT_WIDTH` of the glyph of `code` at `(x, y)`; a column past
/// the end of the glyph table draws nothing.
pub open spec fn glyph(buf: Seq<u8>, font: Seq<u8>, x: int, y: int, code: int, i: int) -> Seq<u8>
    decreases FONT_WIDTH - i,
{
    if i >= FONT_WIDTH {
        buf
    } else {
        let idx = code * FONT_WIDTH + i;
        let next = if idx < font.len() {
            glyph_column(buf, x + i, y, font[idx], 0)
        } else {
            buf
        };
        glyph(next, font, x, y, code, i + 1)
    }
}

/// Pixel `(x, y)` is set in `buf`.
pub open spec fn pixel_on(buf: Seq<u8>, x: int, y: int) -> bool {
    (buf[pixel_index(x, y)] >> ((y % 8) as u8)) & 1u8 == 1u8
}

/// `(x, y)` lies on the screen.
pub open spec fn on_screen(x: int, y: int) -> bool {
    0 <= x < LCDWIDTH && 0 <= y < LCDHEIGHT
}

/// The glyph of `code` drawn at `(gx, gy)` covers pixel `(x, y)`: the pixel
/// lies in column `i` and row `j` of the glyph's box, column `i` is in the
/// table, and bit `j` of it is set.
pub open spec fn glyph_covers(font: Seq<u8>, code: int, gx: int, gy: int, x: int, y: int) -> bool {
    &&& gx <= x < gx + FONT_WIDTH
    &&& gy <= y < gy + FONT_HEIGHT
    &&& code * FONT_WIDTH + (x - gx) < font.len()
    &&& (font[code * FONT_WIDTH + (x - gx)] >> ((y - gy) as u8)) & 1u8 == 1u8
}

proof fn lemma_set_pixel(buf: Seq<u8>, a: int, b: int, x: int, y: int)
    requires
        buf.len() == BUFFER_SIZE,
        on_screen(a, b),
        on_screen(x, y),
    ensures
        set_pixel(buf, a, b).len() == BUFFER_SIZE,
        pixel_on(set_pixel(buf, a, b), x, y) == (pixel_on(buf, x, y) || (x == a && y == b)),
{
    let i1 = pixel_index(a, b);
    let i2 = pixel_index(x, y);
    if i1 == i2 {
        assert(x == a && y / 8 == b / 8) by (nonlinear_arith)
            requires
                8 * x + y / 8 == 8 * a + b / 8,
                0 <= y < 64,
                0 <= b < 64,
        ;
        let v = buf[i1];
        let s = (b % 8) as u8;
        let t = (y % 8) as u8;
        assert(((v | (1u8 << s)) >> t) & 1u8 == 1u8 <==> ((v >> t) & 1u8 == 1u8 || s == t))
            by (bit_vector)
            requires
                s < 8,
                t < 8,
        ;
    }
}

proof fn lemma_glyph_column(buf: Seq<u8>, cx: int, gy: int, col: u8, j: int)
    requires
        buf.len() == BUFFER_SIZE,
        0 <= cx < LCDWIDTH,
        0 <= gy,
        gy + FONT_HEIGHT < LCDHEIGHT,
        0 <= j <= 8,
    ensures
        glyph_column(buf, cx, gy, col, j).len() == BUFFER_SIZE,
        forall|x: int, y: int|
            on_screen(x, y) ==> #[trigger] pixel_on(glyph_column(buf, cx, gy, col, j), x, y) == (
            pixel_on(buf, x, y) || (x == cx && gy + j <= y < gy + 8 && (col >> ((y - gy) as u8))
                & 1u8 == 1u8)),
    decreases 8 - j,
{
    if j < 8 {
        let set = (col >> (j as u8)) & 1u8 == 1u8;
        let next = if set {
            set_pixel(buf, cx, gy + j)
        } else {
            buf
        };
        lemma_glyph_column(next, cx, gy, col, j + 1);
        assert forall|x: int, y: int| on_screen(x, y) implies #[trigger] pixel_on(
            glyph_column(buf, cx, gy, col, j),
            x,
            y,
        ) == (pixel_on(buf, x, y) || (x == cx && gy + j <= y < gy + 8 && (col >> ((y - gy) as u8))
            & 1u8 == 1u8)) by {
            if set {
                lemma_set_pixel(buf, cx, gy + j, x, y);
            }
        }
    }
}

proof fn lemma_glyph_from(buf: Seq<u8>, font: Seq<u8>, gx: int, gy: int, code: int, i: int)
    requires
        buf.len() == BUFFER_SIZE,
        0 <= gx,
        0 <= gy,
        0 <= code,
        glyph_fits(gx, gy),
        0 <= i <= FONT_WIDTH,
    ensures
        glyph(buf, font, gx, gy, code, i).len() == BUFFER_SIZE,
        forall|x: int, y: int|
            on_screen(x, y) ==> #[trigger] pixel_on(glyph(buf, font, gx, gy, code, i), x, y) == (
            pixel_on(buf, x, y) || (gx + i <= x && glyph_covers(font, code, gx, gy, x, y))),
    decreases FONT_WIDTH - i,
{
    if i < FONT_WIDTH {
        let idx = code * FONT_WIDTH + i;
        let next = if idx < font.len() {
            glyph_column(buf, gx + i, gy, font[idx], 0)
        } else {
            buf
        };
        if idx < font.len() {
            lemma_glyph_column(buf, gx + i, gy, font[idx], 0);
        }
        lemma_glyph_from(next, font, gx, gy, code, i + 1);
        assert forall|x: int, y: int| on_screen(x, y) implies #[trigger] pixel_on(
            glyph(buf, font, gx, gy, code, i),
            x,
            y,
        ) == (pixel_on(buf, x, y) || (gx + i <= x && glyph_covers(font, code, gx, gy, x, y))) by {
            assert(pixel_on(next, x, y) == (pixel_on(buf, x, y) || (idx < font.len() && x == gx
                + i && gy <= y < gy + 8 && (font[idx] >> ((y - gy) as u8)) & 1u8 == 1u8)));
        }
    }
}

/// Drawing a glyph sets exactly the pixels it covers: on the screen, a pixel
/// is set afterwards when it was set before or the glyph covers it. As every
/// bit of the buffer is a pixel on the screen, this fixes the whole buffer.
pub proof fn lemma_glyph_pixels(buf: Seq<u8>, font: Seq<u8>, gx: int, gy: int, code: int)
    requires
        buf.len() == BUFFER_SIZE,
        0 <= gx,
        0 <= gy,
        0 <= code,
        glyph_fits(gx, gy),
    ensures
        glyph(buf, font, gx, gy, code, 0).len() == BUFFER_SIZE,
        forall|x: int, y: int|
            on_screen(x, y) ==> #[trigger] pixel_on(glyph(buf, font, gx, gy, code, 0), x, y) == (
            pixel_on(buf, x, y) || glyph_covers(font, code, gx, gy, x, y)),
{
    lemma_glyph_from(buf, font, gx, gy, code, 0);
}

/// A glyph whose box reaches the right or bottom edge is not drawn.
pub open spec fn glyph_fits(x: int, y: int) -> bool {
    x + FONT_WIDTH < LCDWIDTH && y + FONT_HEIGHT < LCDHEIGHT
}

/// The code that `CP437_CONTROL` gives a character, if any.
pub uninterp spec fn cp437_of(c: char) -> Option<u8>;

/// Relies on `codepage_437::CP437_CONTROL.encode`: the code page 437 byte
/// of a character, if it has one; an ASCII character is its own byte.
#[verifier::external_body]
fn encode_cp437(c: char) -> (r: Option<u8>)
    ensures
        r == cp437_of(c),
        (c as u32) < 128 ==> r == Some(c as u8),
{
    codepage_437::CP437_CONTROL.encode(c)
}

/// What `draw_char_at` does to the buffer.
pub open spec fn char_at(buf: Seq<u8>, font: Seq<u8>, x: int, y: int, c: char) -> Seq<u8> {
    if !glyph_fits(x, y) {
        buf
    } else {
        match cp437_of(c) {
            Some(code) => glyph(buf, font, x, y, code as int, 0),
            None => buf,
        }
    }
}

/// What `draw_char` does: the buffer and the new cursor. A newline moves to
/// the start of the next text line; a carriage return does nothing; any
/// other character is drawn at the cursor, after moving to the next line when
/// it would cross the right edge.
pub open spec fn char_step(buf: Seq<u8>, font: Seq<u8>, cx: u16, cy: u16, c: char) -> (
    Seq<u8>,
    u16,
    u16,
) {
    if c == '\n' {
        (buf, 0, next_line(cy))
    } else if c == '\r' {
        (buf, cx, cy)
    } else {
        let (x, y) = if cx + FONT_WIDTH_1 > LCDWIDTH {
            (0u16, next_line(cy))
        } else {
            (cx, cy)
        };
        (char_at(buf, font, x as int, y as int, c), (x + FONT_WIDTH_1) as u16, y)
    }
}

/// The row of the text line below the one at `cy`, wrapping around past
/// the largest `u16`.
pub open spec fn next_line(cy: u16) -> u16 {
    ((cy + FONT_HEIGHT_1) % 0x10000) as u16
}

/// `char_step` for each character of `text` in turn.
pub open spec fn text_steps(buf: Seq<u8>, font: Seq<u8>, cx: u16, cy: u16, text: Seq<char>) -> (
    Seq<u8>,
    u16,
    u16,
)
    decreases text.len(),
{
    if text.len() == 0 {
        (buf, cx, cy)
    } else {
        let (b, x, y) = char_step(buf, font, cx, cy, text[0]);
        text_steps(b, font, x, y, text.drop_first())
    }
}

/// Absolute value.
pub open spec fn abs(a: int) -> int {
    if a < 0 {
        -a
    } else {
        a
    }
}

/// The columns `xr..=x1` of a line in the frame where it advances one column
/// per step and at most one row: `err` decides when `yr` moves by `ystep`.
/// For a steep line, columns and rows are the screen's rows and columns. The
/// buffer after setting the pixels in order, and the first point that could
/// not be set (where drawing stopped).
pub open spec fn trace(
    buf: Seq<u8>,
    steep: bool,
    xr: int,
    yr: int,
    x1: int,
    err: int,
    dx: int,
    dy: int,
    ystep: int,
) -> (Seq<u8>, Option<(int, int)>)
    decreases x1 + 1 - xr,
{
    if xr > x1 {
        (buf, None)
    } else {
        let (px, py) = if steep {
            (yr, xr)
        } else {
            (xr, yr)
        };
        match plot(buf, px, py) {
            Err(pt) => (buf, Some(pt)),
            Ok(next) => if err - dy < 0 {
                trace(next, steep, xr + 1, yr + ystep, x1, err - dy + dx, dx, dy, ystep)
            } else {
                trace(next, steep, xr + 1, yr, x1, err - dy, dx, dy, ystep)
            },
        }
    }
}

/// The line from `(x0, y0)` to `(x1, y1)` by Bresenham's rule, drawn from
/// its end with the smaller major coordinate.
pub open spec fn line(buf: Seq<u8>, x0: int, y0: int, x1: int, y1: int) -> (Seq<u8>, Option<(int, int)>) {
    let steep = abs(y1 - y0) > abs(x1 - x0);
    let (a0, b0, a1, b1) = if steep {
        (y0, x0, y1, x1)
    } else {
        (x0, y0, x1, y1)
    };
    let (c0, d0, c1, d1) = if a0 > a1 {
        (a1, b1, a0, b0)
    } else {
        (a0, b0, a1, b1)
    };
    trace(
        buf,
        steep,
        c0,
        d0,
        c1,
        (c1 - c0) / 2,
        c1 - c0,
        abs(d1 - d0),
        if d0 < d1 {
            1
        } else {
            -1
        },
    )
}

proof fn lemma_trace_on_screen(
    buf: Seq<u8>,
    steep: bool,
    a0: int,
    b0: int,
    a1: int,
    b1: int,
    k: int,
    m: int,
    err: int,
)
    requires
        buf.len() == BUFFER_SIZE,
        0 <= a0 <= a1,
        0 <= b0,
        0 <= b1,
        steep ==> a1 < LCDHEIGHT && b0 < LCDWIDTH && b1 < LCDWIDTH,
        !steep ==> a1 < LCDWIDTH && b0 < LCDHEIGHT && b1 < LCDHEIGHT,
        abs(b1 - b0) <= a1 - a0,
        0 <= k,
        0 <= m,
        0 <= err,
        a1 - a0 > 0 ==> err < a1 - a0,
        a1 - a0 == 0 ==> err == 0 && k == 0 && m == 0,
        err == (a1 - a0) / 2 - k * abs(b1 - b0) + m * (a1 - a0),
    ensures
        ({
            let (b, e) = trace(
                buf,
                steep,
                a0 + k,
                if b0 < b1 {
                    b0 + m
                } else {
                    b0 - m
                },
                a1,
                err,
                a1 - a0,
                abs(b1 - b0),
                if b0 < b1 {
                    1
                } else {
                    -1
                },
            );
            e == None::<(int, int)> && b.len() == BUFFER_SIZE
        }),
    decreases a1 + 1 - (a0 + k),
{
    let dx = a1 - a0;
    let dy = abs(b1 - b0);
    let ystep: int = if b0 < b1 {
        1
    } else {
        -1
    };
    let xr = a0 + k;
    let yr = if b0 < b1 {
        b0 + m
    } else {
        b0 - m
    };
    if xr <= a1 {
        if dx > 0 {
            assert(m <= dy) by (nonlinear_arith)
                requires
                    err == dx / 2 - k * dy + m * dx,
                    err < dx,
                    k <= dx,
                    dx > 0,
                    0 <= dy,
                    0 <= m,
            ;
        }
        assert(0 <= yr);
        let (px, py) = if steep {
            (yr, xr)
        } else {
            (xr, yr)
        };
        assert(on_screen(px, py));
        assert(pixel_index(px, py) < BUFFER_SIZE);
        let next = set_pixel(buf, px, py);
        assert(plot(buf, px, py) == Ok::<Seq<u8>, (int, int)>(next));
        assert(next.len() == BUFFER_SIZE);
        let here = trace(buf, steep, xr, yr, a1, err, dx, dy, ystep);
        if err - dy < 0 {
            let y2 = if b0 < b1 {
                b0 + (m + 1)
            } else {
                b0 - (m + 1)
            };
            assert(yr + ystep == y2);
            assert(here == trace(next, steep, xr + 1, y2, a1, err - dy + dx, dx, dy, ystep));
            assert(err - dy + dx == dx / 2 - (k + 1) * dy + (m + 1) * dx) by (nonlinear_arith)
                requires
                    err == dx / 2 - k * dy + m * dx,
            ;
            lemma_trace_on_screen(next, steep, a0, b0, a1, b1, k + 1, m + 1, err - dy + dx);
        } else {
            assert(err - dy == dx / 2 - (k + 1) * dy + m * dx) by (nonlinear_arith)
                requires
                    err == dx / 2 - k * dy + m * dx,
            ;
            assert(here == trace(next, steep, xr + 1, yr, a1, err - dy, dx, dy, ystep));
            if dx == 0 {
                assert(a0 + (k + 1) > a1);
                assert(trace(next, steep, xr + 1, yr, a1, err - dy, dx, dy, ystep) == (
                    next,
                    None::<(int, int)>,
                ));
            } else {
                lemma_trace_on_screen(next, steep, a0, b0, a1, b1, k + 1, m, err - dy);
            }
        }
    }
}

/// A line whose two ends lie on the screen is drawn whole: no point of it is
/// refused, and the buffer keeps its length.
pub proof fn lemma_line_on_screen(buf: Seq<u8>, x0: int, y0: int, x1: int, y1: int)
    requires
        buf.len() == BUFFER_SIZE,
        on_screen(x0, y0),
        on_screen(x1, y1),
    ensures
        line(buf, x0, y0, x1, y1).1 == None::<(int, int)>,
        line(buf, x0, y0, x1, y1).0.len() == BUFFER_SIZE,
{
    let steep = abs(y1 - y0) > abs(x1 - x0);
    let (a0, b0, a1, b1) = if steep {
        (y0, x0, y1, x1)
    } else {
        (x0, y0, x1, y1)
    };
    let (c0, d0, c1, d1) = if a0 > a1 {
        (a1, b1, a0, b0)
    } else {
        (a0, b0, a1, b1)
    };
    lemma_trace_on_screen(buf, steep, c0, d0, c1, d1, 0, 0, (c1 - c0) / 2);
}

/// A horizontal line of `w + 1` pixels from `(x, y)`, refused when it starts
/// or ends off the screen.
pub open spec fn h_line(buf: Seq<u8>, x: int, y: int, w: int) -> (Seq<u8>, Option<(int, int)>) {
    if x >= LCDWIDTH || y >= LCDHEIGHT {
        (buf, Some((x, y)))
    } else if x + w >= LCDWIDTH {
        (buf, Some((x + w, y)))
    } else {
        line(buf, x, y, x + w, y)
    }
}

/// A vertical line of `h + 1` pixels from `(x, y)`, refused when it starts or
/// ends off the screen.
pub open spec fn v_line(buf: Seq<u8>, x: int, y: int, h: int) -> (Seq<u8>, Option<(int, int)>) {
    if x >= LCDWIDTH || y >= LCDHEIGHT {
        (buf, Some((x, y)))
    } else if y + h >= LCDHEIGHT {
        (buf, Some((x, y + h)))
    } else {
        line(buf, x, y, x, y + h)
    }
}

/// Vertical lines at columns `x..end`, left to right, stopping at the first
/// that is refused or cut short.
pub open spec fn columns(buf: Seq<u8>, x: int, end: int, y: int, h: int) -> (Seq<u8>, Option<(int, int)>)
    decreases end - x,
{
    if x >= end {
        (buf, None)
    } else {
        let (next, e) = v_line(buf, x, y, h);
        if e is Some {
            (next, e)
        } else {
            columns(next, x + 1, end, y, h)
        }
    }
}

/// Columns that fit on the screen are all drawn; when they run past its right
/// edge, drawing stops at column `LCDWIDTH`, which is refused.
pub proof fn lemma_columns_on_screen(buf: Seq<u8>, x: int, end: int, y: int, h: int)
    requires
        buf.len() == BUFFER_SIZE,
        0 <= x <= LCDWIDTH,
        0 <= y,
        0 <= h,
        y + h < LCDHEIGHT,
    ensures
        end <= LCDWIDTH ==> columns(buf, x, end, y, h).1 == None::<(int, int)>,
        end > LCDWIDTH ==> columns(buf, x, end, y, h).1 == Some((LCDWIDTH as int, y)),
    decreases end - x,
{
    if x < end {
        if x < LCDWIDTH {
            lemma_line_on_screen(buf, x, y, x, y + h);
            let (next, e) = v_line(buf, x, y, h);
            lemma_columns_on_screen(next, x + 1, end, y, h);
        }
    }
}

/// `r` reports the outcome `e` of a drawing operation: success, or the
/// point that stopped it.
pub open spec fn drawn<E>(r: Result<(), Error<E>>, e: Option<(int, int)>) -> bool {
    match e {
        None => r is Ok,
        Some(pt) => r == Err::<(), Error<E>>(
            Error::OutsideScreenAccess {
                x: #[verifier::truncate] (pt.0 as i16),
                y: #[verifier::truncate] (pt.1 as i16),
            },
        ),
    }
}

/// The writes that bring the controller up, each a control byte followed by
/// commands.
pub open spec fn init_commands() -> Seq<Seq<u8>> {
    seq![
        seq![0x00u8, DISPLAYOFF, SETDISPLAYCLOCKDIV, 0x80, SETMULTIPLEX, (LCDHEIGHT - 1) as u8],
        seq![0x00u8, SETDISPLAYOFFSET, 0x00, SETSTARTLINE | 0x00u8, CHARGEPUMP],
        seq![0x00u8, if VCC_STATE == EXTERNALVCC { 0x10u8 } else { 0x14u8 }],
        seq![0x00u8, MEMORYMODE, 0x01, 0xA1, 0xC8],
        seq![0x00u8, SETCOMPINS, 0x02],
        seq![0x00u8, SETCONTRAST, CONTRAST],
        seq![0x00u8, SETPRECHARGE, if VCC_STATE == EXTERNALVCC { 0x22u8 } else { 0xF1u8 }],
        seq![
            0x00u8,
            SETVCOMDETECT,
            0x40,
            DISPLAYALLON_RESUME,
            NORMALDISPLAY,
            DEACTIVATE_SCROLL,
            DISPLAYON,
        ],
    ]
}

/// The views of a list of byte vectors.
pub open spec fn views(v: Seq<Vec<u8>>) -> Seq<Seq<u8>> {
    v.map_values(|b: Vec<u8>| b@)
}

/// Frame buffer, text cursor and bus address of one display.
pub struct DisplayDriver {
    address: u8,
    buffer: Vec<u8>,
    font: Vec<u8>,
    cursor_x: u16,
    cursor_y: u16,
}

impl DisplayDriver {
    /// The frame buffer.
    pub closed spec fn pixels(&self) -> Seq<u8> {
        self.buffer@
    }

    /// The glyph table: `FONT_WIDTH` column bytes per character code, bit
    /// `j` of a column being row `j`.
    pub closed spec fn glyphs(&self) -> Seq<u8> {
        self.font@
    }

    /// The bus address.
    pub closed spec fn bus_address(&self) -> u8 {
        self.address
    }

    /// Where the next character goes.
    pub closed spec fn cursor(&self) -> (u16, u16) {
        (self.cursor_x, self.cursor_y)
    }

    /// The buffer covers the screen.
    pub open spec fn wf(&self) -> bool {
        self.pixels().len() == BUFFER_SIZE
    }

    /// A driver at `address` (`DEFAULT_ADDRESS` when `None`) drawing into
    /// `buffer` and writing text with the glyphs of `font`, with the cursor at
    /// the top left. The controller is brought up by sending `init_sequence`
    /// to that address.
    pub fn new(address: Option<u8>, buffer: Vec<u8>, font: Vec<u8>) -> (r: DisplayDriver)
        requires
            buffer@.len() == BUFFER_SIZE,
        ensures
            r.wf(),
            r.pixels() == buffer@,
            r.glyphs() == font@,
            r.bus_address() == match address {
                Some(a) => a,
                None => DEFAULT_ADDRESS,
            },
            r.cursor() == (0u16, 0u16),
    {
        let address = match address {
            Some(a) => a,
            None => DEFAULT_ADDRESS,
        };
        DisplayDriver { address, buffer, font, cursor_x: 0, cursor_y: 0 }
    }

    /// The writes that bring the controller up, in order.
    pub fn init_sequence(&self) -> (r: Vec<Vec<u8>>)
        ensures
            views(r@) == init_commands(),
    {
        let mut r: Vec<Vec<u8>> = Vec::new();
        r.push(vec![0x00, DISPLAYOFF, SETDISPLAYCLOCKDIV, 0x80, SETMULTIPLEX, (LCDHEIGHT - 1) as u8]);
        r.push(vec![0x00, SETDISPLAYOFFSET, 0x00, SETSTARTLINE | 0x00, CHARGEPUMP]);
        if VCC_STATE == EXTERNALVCC {
            r.push(vec![0x00, 0x10]);
        } else {
            r.push(vec![0x00, 0x14]);
        }
        r.push(vec![0x00, MEMORYMODE, 0x01, 0xA1, 0xC8]);
        let com_pins: u8 = 0x02;
        r.push(vec![0x00, SETCOMPINS, com_pins]);
        r.push(vec![0x00, SETCONTRAST, CONTRAST]);
        if VCC_STATE == EXTERNALVCC {
            r.push(vec![0x00, SETPRECHARGE, 0x22]);
        } else {
            r.push(vec![0x00, SETPRECHARGE, 0xF1]);
        }
        r.push(
            vec![
                0x00,
                SETVCOMDETECT,
                0x40,
                DISPLAYALLON_RESUME,
                NORMALDISPLAY,
                DEACTIVATE_SCROLL,
                DISPLAYON,
            ],
        );
        proof {
            assert(views(r@) =~~= init_commands());
        }
        r
    }

    /// The write that sets the column and page window to the whole screen.
    pub fn start_of_data(&self) -> (r: Vec<u8>)
        ensures
            r@ == seq![0x00u8, COLUMNADDR, 0x00, (LCDWIDTH - 1) as u8, PAGEADDR, 0x00, ((LCDHEIGHT / 8) - 1) as u8],
    {
        let last_x_pixel_index: u8 = (LCDWIDTH - 1) as u8;
        let last_y_byte_index: u8 = ((LCDHEIGHT / 8) - 1) as u8;
        let r = vec![0x00, COLUMNADDR, 0x00, last_x_pixel_index, PAGEADDR, 0x00, last_y_byte_index];
        proof {
            assert(r@ =~= seq![0x00u8, COLUMNADDR, 0x00, (LCDWIDTH - 1) as u8, PAGEADDR, 0x00, ((LCDHEIGHT / 8) - 1) as u8]);
        }
        r
    }

    /// The data transfers that send the whole frame buffer, after
    /// `start_of_data`.
    pub fn display(&self) -> (r: Vec<Vec<u8>>)
        requires
            self.wf(),
        ensures
            r@.len() == BUFFER_SIZE / CHUNK_SIZE,
            forall|i: int|
                0 <= i < r@.len() ==> (#[trigger] r@[i])@ == self.pixels().subrange(
                    i * CHUNK_SIZE,
                    i * CHUNK_SIZE + CHUNK_SIZE,
                ),
    {
        self.display_num(BUFFER_SIZE)
    }

    /// The data transfers that send the first `num` bytes of the frame
    /// buffer: consecutive pieces of `CHUNK_SIZE` bytes, the last one shorter
    /// when `num` is no multiple of it. Each is sent after a `0x40` byte.
    pub fn display_num(&self, num: usize) -> (r: Vec<Vec<u8>>)
        requires
            self.wf(),
            num <= BUFFER_SIZE,
        ensures
            r@.len() == (num + CHUNK_SIZE - 1) / CHUNK_SIZE as int,
            forall|i: int|
                0 <= i < r@.len() ==> (#[trigger] r@[i])@ == self.pixels().subrange(
                    i * CHUNK_SIZE,
                    if i * CHUNK_SIZE + CHUNK_SIZE <= num {
                        i * CHUNK_SIZE + CHUNK_SIZE
                    } else {
                        num as int
                    },
                ),
    {
        let chunk_size: usize = CHUNK_SIZE;
        let count: usize = (num + chunk_size - 1) / chunk_size;
        let mut r: Vec<Vec<u8>> = Vec::new();
        let mut i: usize = 0;
        while i < count
            invariant
                self.wf(),
                num <= BUFFER_SIZE,
                chunk_size == CHUNK_SIZE,
                count == (num + CHUNK_SIZE - 1) / CHUNK_SIZE as int,
                i <= count,
                r@.len() == i,
                forall|k: int|
                    0 <= k < i ==> (#[trigger] r@[k])@ == self.pixels().subrange(
                        k * CHUNK_SIZE,
                        if k * CHUNK_SIZE + CHUNK_SIZE <= num {
                            k * CHUNK_SIZE + CHUNK_SIZE
                        } else {
                            num as int
                        },
                    ),
            decreases count - i,
        {
            let first = chunk_size * i;
            assert(first < num) by (nonlinear_arith)
                requires
                    i < count,
                    count == (num + 32 - 1) / 32,
                    first == 32 * i,
                    chunk_size == 32,
            ;
            let mut last = chunk_size * i + chunk_size - 1;
            if last > num - 1 {
                last = num - 1;
            }
            let chunk = vstd::slice::slice_to_vec(
                vstd::slice::slice_subrange(self.buffer.as_slice(), first, last + 1),
            );
            r.push(chunk);
            i = i + 1;
        }
        r
    }

    /// Clears every pixel.
    pub fn clear_display(&mut self)
        requires
            old(self).wf(),
        ensures
            final(self).wf(),
            final(self).pixels() == Seq::new(BUFFER_SIZE as nat, |i: int| 0u8),
            final(self).cursor() == old(self).cursor(),
            final(self).bus_address() == old(self).bus_address(),
            final(self).glyphs() == old(self).glyphs(),
    {
        self.fill_screen(BLACK);
    }

    /// The write that turns inverted display on or off.
    pub fn invert_display(&self, inverted: bool) -> (r: Vec<u8>)
        ensures
            r@ == seq![0x00u8, if inverted { INVERTDISPLAY } else { NORMALDISPLAY }],
    {
        let r = if inverted {
            vec![0x00, INVERTDISPLAY]
        } else {
            vec![0x00, NORMALDISPLAY]
        };
        proof {
            assert(r@ =~= seq![0x00u8, if inverted { INVERTDISPLAY } else { NORMALDISPLAY }]);
        }
        r
    }

    /// The write that sets the contrast to its lowest (`dim`) or usual value.
    pub fn dim(&self, dim: bool) -> (r: Vec<u8>)
        ensures
            r@ == seq![0x00u8, SETCONTRAST, if dim { 0x00u8 } else { CONTRAST }],
    {
        let r = if dim {
            vec![0x00, SETCONTRAST, 0x0]
        } else {
            vec![0x00, SETCONTRAST, CONTRAST]
        };
        proof {
            assert(r@ =~= seq![0x00u8, SETCONTRAST, if dim { 0x00u8 } else { CONTRAST }]);
        }
        r
    }

    /// Sets pixel `(x, y)`, whatever `color`. A point past the right or bottom
    /// edge, or past the end of the buffer, leaves the buffer as it was and is
    /// reported.
    pub fn draw_pixel<E>(&mut self, x: u16, y: u16, color: u8) -> (r: Result<(), Error<E>>)
        requires
            old(self).wf(),
        ensures
            final(self).wf(),
            final(self).cursor() == old(self).cursor(),
            final(self).bus_address() == old(self).bus_address(),
            final(self).glyphs() == old(self).glyphs(),
            match plot(old(self).pixels(), x as int, y as int) {
                Ok(b) => r is Ok && final(self).pixels() == b,
                Err(_) => r == Err::<(), Error<E>>(Error::OutsideScreenAccess { x: #[verifier::truncate] (x as i16), y: #[verifier::truncate] (y as i16) })
                    && final(self).pixels() == old(self).pixels(),
            },
    {
        if x > LCDWIDTH || y > LCDHEIGHT {
            return Err(Error::OutsideScreenAccess { x: #[verifier::truncate] (x as i16), y: #[verifier::truncate] (y as i16) });
        }
        let byte: u8 = 1u8 << ((y % 8) as u8);
        let bytes_per_column: u16 = LCDHEIGHT / 8;
        assert(bytes_per_column == 8);
        let byte_index: u16 = bytes_per_column * x + (y / 8);
        if (byte_index as usize) < self.buffer.len() {
            let old_byte = self.buffer[byte_index as usize];
            self.buffer.set(byte_index as usize, old_byte | byte);
            Ok(())
        } else {
            Err(Error::OutsideScreenAccess { x: #[verifier::truncate] (x as i16), y: #[verifier::truncate] (y as i16) })
        }
    }

    /// Sets every byte of the buffer to `0xFF` for a non-zero `color`, to
    /// `0x00` otherwise.
    pub fn fill_screen(&mut self, color: u8)
        requires
            old(self).wf(),
        ensures
            final(self).wf(),
            final(self).pixels() == Seq::new(
                BUFFER_SIZE as nat,
                |i: int|
                    if color != 0 {
                        0xFFu8
                    } else {
                        0x00u8
                    },
            ),
            final(self).cursor() == old(self).cursor(),
            final(self).bus_address() == old(self).bus_address(),
            final(self).glyphs() == old(self).glyphs(),
    {
        if color != 0 {
            self.fill_screen_byte(0xFF);
        } else {
            self.fill_screen_byte(0x00);
        }
    }

    /// Sets every byte of the buffer to `byte`.
    pub fn fill_screen_byte(&mut self, byte: u8)
        requires
            old(self).wf(),
        ensures
            final(self).wf(),
            final(self).pixels() == Seq::new(BUFFER_SIZE as nat, |i: int| byte),
            final(self).cursor() == old(self).cursor(),
            final(self).bus_address() == old(self).bus_address(),
            final(self).glyphs() == old(self).glyphs(),
    {
        let mut i: usize = 0;
        while i < BUFFER_SIZE
            invariant
                self.wf(),
                i <= BUFFER_SIZE,
                self.cursor() == old(self).cursor(),
                self.bus_address() == old(self).bus_address(),
                self.glyphs() == old(self).glyphs(),
                forall|k: int| 0 <= k < i ==> self.buffer@[k] == byte,
            decreases BUFFER_SIZE - i,
        {
            self.buffer.set(i, byte);
            i = i + 1;
        }
        proof {
            assert(self.pixels() =~= Seq::new(BUFFER_SIZE as nat, |i: int| byte));
        }
    }

    /// Draws the line from `(x0, y0)` to `(x1, y1)`. Drawing stops at the
    /// first point off the screen, which is reported; the pixels set before it
    /// stay set.
    pub fn draw_line<E>(&mut self, x0: u16, y0: u16, x1: u16, y1: u16, color: u8) -> (r: Result<
        (),
        Error<E>,
    >)
        requires
            old(self).wf(),
            x0 <= i16::MAX,
            y0 <= i16::MAX,
            x1 <= i16::MAX,
            y1 <= i16::MAX,
        ensures
            final(self).wf(),
            final(self).cursor() == old(self).cursor(),
            final(self).bus_address() == old(self).bus_address(),
            final(self).glyphs() == old(self).glyphs(),
            ({
                let (b, e) = line(old(self).pixels(), x0 as int, y0 as int, x1 as int, y1 as int);
                final(self).pixels() == b && drawn(r, e)
            }),
            on_screen(x0 as int, y0 as int) && on_screen(x1 as int, y1 as int) ==> r is Ok,
    {
        proof {
            if on_screen(x0 as int, y0 as int) && on_screen(x1 as int, y1 as int) {
                lemma_line_on_screen(self.pixels(), x0 as int, y0 as int, x1 as int, y1 as int);
            }
        }
        let sx0 = x0 as i16;
        let sy0 = y0 as i16;
        let sx1 = x1 as i16;
        let sy1 = y1 as i16;
        let ady: i16 = if sy1 < sy0 { sy0 - sy1 } else { sy1 - sy0 };
        let adx: i16 = if sx1 < sx0 { sx0 - sx1 } else { sx1 - sx0 };
        let steep = ady > adx;
        let (a0, b0, a1, b1) = if steep { (sy0, sx0, sy1, sx1) } else { (sx0, sy0, sx1, sy1) };
        let (a0, b0, a1, b1) = if a0 > a1 { (a1, b1, a0, b0) } else { (a0, b0, a1, b1) };
        let dx: i16 = a1 - a0;
        let dy: i16 = if b1 < b0 { b0 - b1 } else { b1 - b0 };
        let mut err: i16 = dx / 2;
        let y_step: i16 = if b0 < b1 { 1 } else { -1 };
        let mut x_runner: i16 = a0;
        let mut y_runner: i16 = b0;
        while x_runner <= a1
            invariant
                self.wf(),
                self.cursor() == old(self).cursor(),
                self.bus_address() == old(self).bus_address(),
                self.glyphs() == old(self).glyphs(),
                0 <= dy <= dx,
                0 <= a1,
                y_step == 1 || y_step == -1,
                0 <= x_runner,
                -1 <= y_runner,
                0 <= err <= dx,
                on_screen(x0 as int, y0 as int) && on_screen(x1 as int, y1 as int) ==> line(
                    old(self).pixels(),
                    x0 as int,
                    y0 as int,
                    x1 as int,
                    y1 as int,
                ).1 == None::<(int, int)>,
                ({
                    let (b, e) = trace(self.pixels(), steep, x_runner as int, y_runner as int, a1 as int, err as int, dx as int, dy as int, y_step as int);
                    let (b0, e0) = line(old(self).pixels(), x0 as int, y0 as int, x1 as int, y1 as int);
                    b == b0 && e == e0
                }),
            decreases a1 + 1 - x_runner,
        {
            let (px, py) = if steep { (y_runner, x_runner) } else { (x_runner, y_runner) };
            if px < 0 || py < 0 {
                proof {
                    assert(plot(self.pixels(), px as int, py as int) == Err::<Seq<u8>, (int, int)>(
                        (px as int, py as int),
                    ));
                    assert(#[verifier::truncate] ((px as int) as i16) == px);
                    assert(#[verifier::truncate] ((py as int) as i16) == py);
                }
                return Err(Error::OutsideScreenAccess { x: px, y: py });
            }
            match self.draw_pixel::<E>(px as u16, py as u16, color) {
                Ok(()) => {},
                Err(e) => {
                    return Err(e);
                },
            }
            err = err - dy;
            if err < 0 {
                y_runner = y_runner + y_step;
                err = err + dx;
            }
            x_runner = x_runner + 1;
        }
        Ok(())
    }

    /// Draws the `w + 1` pixels from `(x, y)` rightwards. A start off the
    /// screen, or an end at or past its right edge, is reported and nothing is
    /// drawn.
    pub fn draw_fast_h_line<E>(&mut self, x: u16, y: u16, w: u16, color: u8) -> (r: Result<
        (),
        Error<E>,
    >)
        requires
            old(self).wf(),
            x < LCDWIDTH && y < LCDHEIGHT ==> x + w <= u16::MAX,
        ensures
            final(self).wf(),
            final(self).cursor() == old(self).cursor(),
            final(self).bus_address() == old(self).bus_address(),
            final(self).glyphs() == old(self).glyphs(),
            ({
                let (b, e) = h_line(old(self).pixels(), x as int, y as int, w as int);
                final(self).pixels() == b && drawn(r, e)
            }),
            x + w < LCDWIDTH && y < LCDHEIGHT ==> r is Ok,
    {
        if x >= LCDWIDTH || y >= LCDHEIGHT {
            return Err(Error::OutsideScreenAccess { x: #[verifier::truncate] (x as i16), y: #[verifier::truncate] (y as i16) });
        } else if x + w >= LCDWIDTH {
            return Err(Error::OutsideScreenAccess { x: #[verifier::truncate] ((x + w) as i16), y: y as i16 });
        }
        self.draw_line(x, y, x + w, y, color)
    }

    /// Draws the `h + 1` pixels from `(x, y)` downwards. A start off the
    /// screen, or an end at or past its bottom edge, is reported and nothing
    /// is drawn.
    pub fn draw_fast_v_line<E>(&mut self, x: u16, y: u16, h: u16, color: u8) -> (r: Result<
        (),
        Error<E>,
    >)
        requires
            old(self).wf(),
            x < LCDWIDTH && y < LCDHEIGHT ==> y + h <= u16::MAX,
        ensures
            final(self).wf(),
            final(self).cursor() == old(self).cursor(),
            final(self).bus_address() == old(self).bus_address(),
            final(self).glyphs() == old(self).glyphs(),
            ({
                let (b, e) = v_line(old(self).pixels(), x as int, y as int, h as int);
                final(self).pixels() == b && drawn(r, e)
            }),
            x < LCDWIDTH && y + h < LCDHEIGHT ==> r is Ok,
    {
        if x >= LCDWIDTH || y >= LCDHEIGHT {
            return Err(Error::OutsideScreenAccess { x: #[verifier::truncate] (x as i16), y: #[verifier::truncate] (y as i16) });
        } else if y + h >= LCDHEIGHT {
            return Err(Error::OutsideScreenAccess { x: x as i16, y: #[verifier::truncate] ((y + h) as i16) });
        }
        self.draw_line(x, y, x, y + h, color)
    }

    /// Fills the columns `x..x + w` with vertical lines of `h + 1` pixels
    /// from row `y`, stopping at the first column that is refused.
    pub fn draw_fill_rect<E>(&mut self, x: u16, y: u16, w: u16, h: u16, color: u8) -> (r: Result<
        (),
        Error<E>,
    >)
        requires
            old(self).wf(),
            x + w <= u16::MAX,
            w > 0 && y < LCDHEIGHT ==> y + h <= u16::MAX,
        ensures
            final(self).wf(),
            final(self).cursor() == old(self).cursor(),
            final(self).bus_address() == old(self).bus_address(),
            final(self).glyphs() == old(self).glyphs(),
            ({
                let (b, e) = columns(old(self).pixels(), x as int, x + w, y as int, h as int);
                final(self).pixels() == b && drawn(r, e)
            }),
            w == 0 || (x + w <= LCDWIDTH && y + h < LCDHEIGHT) ==> r is Ok,
            x <= LCDWIDTH < x + w && y + h < LCDHEIGHT ==> r == Err::<(), Error<E>>(
                Error::OutsideScreenAccess { x: LCDWIDTH as i16, y: y as i16 },
            ),
    {
        proof {
            if x <= LCDWIDTH && y + h < LCDHEIGHT {
                lemma_columns_on_screen(self.pixels(), x as int, x + w, y as int, h as int);
            }
        }
        let end: u16 = x + w;
        let mut i: u16 = x;
        while i < end
            invariant
                self.wf(),
                self.cursor() == old(self).cursor(),
                self.bus_address() == old(self).bus_address(),
                self.glyphs() == old(self).glyphs(),
                x <= i,
                end == x + w,
                w > 0 && y < LCDHEIGHT ==> y + h <= u16::MAX,
                i <= end || x >= end,
                x <= LCDWIDTH < end && y + h < LCDHEIGHT ==> columns(
                    old(self).pixels(),
                    x as int,
                    end as int,
                    y as int,
                    h as int,
                ).1 == Some((LCDWIDTH as int, y as int)),
                columns(self.pixels(), i as int, end as int, y as int, h as int) == columns(
                    old(self).pixels(),
                    x as int,
                    end as int,
                    y as int,
                    h as int,
                ),
            decreases end - i,
        {
            match self.draw_fast_v_line::<E>(i, y, h, color) {
                Ok(()) => {},
                Err(e) => {
                    return Err(e);
                },
            }
            i = i + 1;
        }
        Ok(())
    }

    /// Draws the glyph of character code `code` with its top left corner at
    /// `(x, y)`, when its box fits on the screen without reaching the right or
    /// bottom edge; otherwise draws nothing. Pixels are only ever set.
    pub fn draw_glyph(&mut self, x: u16, y: u16, code: u8, color: u8)
        requires
            old(self).wf(),
        ensures
            final(self).wf(),
            final(self).glyphs() == old(self).glyphs(),
            final(self).cursor() == old(self).cursor(),
            final(self).bus_address() == old(self).bus_address(),
            final(self).pixels() == if glyph_fits(x as int, y as int) {
                glyph(old(self).pixels(), old(self).glyphs(), x as int, y as int, code as int, 0)
            } else {
                old(self).pixels()
            },
            glyph_fits(x as int, y as int) ==> forall|px: int, py: int|
                on_screen(px, py) ==> #[trigger] pixel_on(final(self).pixels(), px, py) == (
                pixel_on(old(self).pixels(), px, py) || glyph_covers(
                    old(self).glyphs(),
                    code as int,
                    x as int,
                    y as int,
                    px,
                    py,
                )),
    {
        if x >= LCDWIDTH - FONT_WIDTH || y >= LCDHEIGHT - FONT_HEIGHT {
            return;
        }
        proof {
            lemma_glyph_pixels(self.pixels(), self.glyphs(), x as int, y as int, code as int);
        }
        let mut i: u16 = 0;
        while i < FONT_WIDTH
            invariant
                self.wf(),
                self.glyphs() == old(self).glyphs(),
                self.cursor() == old(self).cursor(),
                self.bus_address() == old(self).bus_address(),
                glyph_fits(x as int, y as int),
                i <= FONT_WIDTH,
                glyph(self.pixels(), self.glyphs(), x as int, y as int, code as int, i as int)
                    == glyph(old(self).pixels(), old(self).glyphs(), x as int, y as int, code as int, 0),
            decreases FONT_WIDTH - i,
        {
            let idx: usize = code as usize * FONT_WIDTH as usize + i as usize;
            if idx < self.font.len() {
                let col: u8 = self.font[idx];
                let mut line: u8 = col;
                let mut j: u8 = 0;
                let ghost start = self.pixels();
                assert(col >> 0u8 == col) by (bit_vector);
                while j < 8
                    invariant
                        self.wf(),
                        self.glyphs() == old(self).glyphs(),
                        self.cursor() == old(self).cursor(),
                        self.bus_address() == old(self).bus_address(),
                        glyph_fits(x as int, y as int),
                        i < FONT_WIDTH,
                        j <= 8,
                        line == col >> j,
                        glyph_column(self.pixels(), x + i, y as int, col, j as int) == glyph_column(
                            start,
                            x + i,
                            y as int,
                            col,
                            0,
                        ),
                    decreases 8 - j,
                {
                    proof {
                        assert((line & 1u8 != 0u8) == (line & 1u8 == 1u8)) by (bit_vector);
                        assert((col >> j) >> 1u8 == col >> ((j + 1) as u8)) by (bit_vector)
                            requires
                                j < 8,
                        ;
                    }
                    if line & 1 != 0 {
                        let _ = self.draw_pixel::<()>(x + i, y + j as u16, color);
                    }
                    line = line >> 1;
                    j = j + 1;
                }
            }
            i = i + 1;
        }
    }

    /// Draws `character` with its top left corner at `(x, y)`, as its code
    /// page 437 glyph, when it has one and the glyph fits (see `draw_glyph`).
    pub fn draw_char_at(&mut self, x: u16, y: u16, character: char, color: u8)
        requires
            old(self).wf(),
        ensures
            final(self).wf(),
            final(self).glyphs() == old(self).glyphs(),
            final(self).cursor() == old(self).cursor(),
            final(self).bus_address() == old(self).bus_address(),
            final(self).pixels() == char_at(
                old(self).pixels(),
                old(self).glyphs(),
                x as int,
                y as int,
                character,
            ),
            glyph_fits(x as int, y as int) ==> match cp437_of(character) {
                Some(code) => forall|px: int, py: int|
                    on_screen(px, py) ==> #[trigger] pixel_on(final(self).pixels(), px, py) == (
                    pixel_on(old(self).pixels(), px, py) || glyph_covers(
                        old(self).glyphs(),
                        code as int,
                        x as int,
                        y as int,
                        px,
                        py,
                    )),
                None => final(self).pixels() == old(self).pixels(),
            },
    {
        if x >= LCDWIDTH - FONT_WIDTH || y >= LCDHEIGHT - FONT_HEIGHT {
            return;
        }
        match encode_cp437(character) {
            Some(code) => self.draw_glyph(x, y, code, color),
            None => {},
        }
    }

    /// Writes `character` at the cursor and advances it (see `char_step`).
    pub fn draw_char(&mut self, character: char)
        requires
            old(self).wf(),
        ensures
            final(self).wf(),
            final(self).glyphs() == old(self).glyphs(),
            final(self).bus_address() == old(self).bus_address(),
            ({
                let (b, x, y) = char_step(
                    old(self).pixels(),
                    old(self).glyphs(),
                    old(self).cursor().0,
                    old(self).cursor().1,
                    character,
                );
                final(self).pixels() == b && final(self).cursor() == (x, y)
            }),
    {
        if character == '\n' {
            self.cursor_x = 0;
            self.cursor_y = self.cursor_y.wrapping_add(FONT_HEIGHT_1);
        } else if character != '\r' {
            if self.cursor_x > LCDWIDTH - FONT_WIDTH_1 {
                self.cursor_x = 0;
                self.cursor_y = self.cursor_y.wrapping_add(FONT_HEIGHT_1);
            }
            self.draw_char_at(self.cursor_x, self.cursor_y, character, WHITE);
            self.cursor_x = self.cursor_x + FONT_WIDTH_1;
        }
    }

    /// Writes each character of `text` in turn with `draw_char`.
    pub fn draw_string(&mut self, text: &str)
        requires
            old(self).wf(),
        ensures
            final(self).wf(),
            final(self).glyphs() == old(self).glyphs(),
            final(self).bus_address() == old(self).bus_address(),
            ({
                let (b, x, y) = text_steps(
                    old(self).pixels(),
                    old(self).glyphs(),
                    old(self).cursor().0,
                    old(self).cursor().1,
                    text@,
                );
                final(self).pixels() == b && final(self).cursor() == (x, y)
            }),
    {
        let mut chars = text.chars();
        loop
            invariant
                self.wf(),
                self.glyphs() == old(self).glyphs(),
                self.bus_address() == old(self).bus_address(),
                chars.obeys_prophetic_iter_laws(),
                chars.decrease() is Some,
                text_steps(self.pixels(), self.glyphs(), self.cursor().0, self.cursor().1, chars.remaining())
                    == text_steps(old(self).pixels(), old(self).glyphs(), old(self).cursor().0, old(self).cursor().1, text@),
            ensures
                text_steps(self.pixels(), self.glyphs(), self.cursor().0, self.cursor().1, Seq::<char>::empty())
                    == text_steps(old(self).pixels(), old(self).glyphs(), old(self).cursor().0, old(self).cursor().1, text@),
            decreases chars.decrease()->0,
        {
            match chars.next() {
                Some(character) => self.draw_char(character),
                None => break,
            }
        }
    }

    /// Scrolling is not supported: does nothing.
    pub fn start_scroll_right(&self, start: u8, stop: u8) {
    }

    /// Scrolling is not supported: does nothing.
    pub fn start_scroll_left(&self, start: u8, stop: u8) {
    }

    /// Scrolling is not supported: does nothing.
    pub fn start_scroll_diag_right(&self, start: u8, stop: u8) {
    }

    /// Scrolling is not supported: does nothing.
    pub fn start_scroll_diag_left(&self, start: u8, stop: u8) {
    }

    /// Scrolling is not supported: does nothing.
    pub fn stop_scroll(&self) {
    }

    /// Rectangle outlines are not supported: does nothing.
    pub fn draw_rect(x: i16, y: i16, w: i16, h: i16, color: u16) {
    }

    /// Circles are not supported: does nothing.
    pub fn draw_circle(x0: i16, y0: i16, r: i16, color: u16) {
    }

    /// Circle quadrants are not supported: does nothing.
    pub fn draw_circle_helper(x0: i16, y0: i16, r: i16, corner_name: u8, color: u16) {
    }

    /// Filled circles are not supported: does nothing.
    pub fn fill_circle(x0: i16, y0: i16, r: i16, color: u16) {
    }

    /// Filled circle halves are not supported: does nothing.
    pub fn fill_circle_helper(x0: i16, y0: i16, r: i16, corner_name: u8, color: u16) {
    }

    /// The bus address.
    pub fn address(&self) -> (r: u8)
        ensures
            r == self.bus_address(),
    {
        self.address
    }

    /// The frame buffer.
    pub fn buffer(&self) -> (r: &[u8])
        ensures
            r@ == self.pixels(),
    {
        self.buffer.as_slice()
    }

    /// Where the next character goes.
    pub fn cursor_position(&self) -> (r: (u16, u16))
        ensures
            r == self.cursor(),
    {
        (self.cursor_x, self.cursor_y)
    }

    /// Moves the text cursor.
    pub fn set_cursor(&mut self, x: u16, y: u16)
        ensures
            final(self).cursor() == (x, y),
            final(self).pixels() == old(self).pixels(),
            final(self).bus_address() == old(self).bus_address(),
            final(self).glyphs() == old(self).glyphs(),
            final(self).wf() == old(self).wf(),
    {
        self.cursor_x = x;
        self.cursor_y = y;
    }
}

} // verus!
