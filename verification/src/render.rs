//! Render a screen to a PNG image, so colors and attributes can be visually
//! inspected. Text reading is cheaper and preferred; screenshots are for when
//! color / layout actually matters.
//!
//! A screen is painted cell by cell, row by row: first the background of a cell
//! where it is not the paper's, then its glyph. [`paint_plan`] lists these steps.
//! The shapes of the glyphs come from outside as a [`Raster`] for each step, and
//! [`screen_to_png`] paints them in the order of the plan.

use crate::canvas;
use crate::canvas::Canvas;
use crate::emulator;
use crate::emulator::Color;
use vstd::prelude::*;

verus! {

pub const CELL_W: u32 = 9;

pub const CELL_H: u32 = 18;

/// Red, green and blue.
pub type Rgb = (u8, u8, u8);

// ---- Colors -----------------------------------------------------------------

/// The default foreground.
pub open spec fn ink() -> Rgb {
    (229, 229, 229)
}

/// The default background.
pub open spec fn paper() -> Rgb {
    (0, 0, 0)
}

/// One of the six levels of the color cube.
pub open spec fn cube_level(v: int) -> u8 {
    if v == 0 {
        0u8
    } else {
        (55 + 40 * v) as u8
    }
}

/// The classic xterm 256-color palette: sixteen named colors, a cube of six
/// levels of red, green and blue, and a ramp of grays.
pub open spec fn palette(idx: u8) -> Rgb {
    if idx == 0 {
        (0, 0, 0)
    } else if idx == 1 {
        (205, 0, 0)
    } else if idx == 2 {
        (0, 205, 0)
    } else if idx == 3 {
        (205, 205, 0)
    } else if idx == 4 {
        (0, 0, 238)
    } else if idx == 5 {
        (205, 0, 205)
    } else if idx == 6 {
        (0, 205, 205)
    } else if idx == 7 {
        (229, 229, 229)
    } else if idx == 8 {
        (127, 127, 127)
    } else if idx == 9 {
        (255, 0, 0)
    } else if idx == 10 {
        (0, 255, 0)
    } else if idx == 11 {
        (255, 255, 0)
    } else if idx == 12 {
        (92, 92, 255)
    } else if idx == 13 {
        (255, 0, 255)
    } else if idx == 14 {
        (0, 255, 255)
    } else if idx == 15 {
        (255, 255, 255)
    } else if idx <= 231 {
        let c = idx as int - 16;
        (cube_level(c / 36), cube_level(c / 6 % 6), cube_level(c % 6))
    } else {
        let v = (8 + 10 * (idx - 232)) as u8;
        (v, v, v)
    }
}

fn cube(v: u8) -> (r: u8)
    requires
        v <= 5,
    ensures
        r == cube_level(v as int),
{
    if v == 0 {
        0
    } else {
        55 + v * 40
    }
}

/// The classic xterm 256-color palette entry for an indexed color.
fn idx_to_rgb(idx: u8) -> (r: Rgb)
    ensures
        r == palette(idx),
{
    match idx {
        0 => (0, 0, 0),
        1 => (205, 0, 0),
        2 => (0, 205, 0),
        3 => (205, 205, 0),
        4 => (0, 0, 238),
        5 => (205, 0, 205),
        6 => (0, 205, 205),
        7 => (229, 229, 229),
        8 => (127, 127, 127),
        9 => (255, 0, 0),
        10 => (0, 255, 0),
        11 => (255, 255, 0),
        12 => (92, 92, 255),
        13 => (255, 0, 255),
        14 => (0, 255, 255),
        15 => (255, 255, 255),
        _ => {
            if idx <= 231 {
                let c: u8 = idx - 16;
                assert(c as int % 36 / 6 == c as int / 6 % 6);
                (cube(c / 36), cube((c % 36) / 6), cube(c % 6))
            } else {
                let v: u8 = 8 + (idx - 232) * 10;
                (v, v, v)
            }
        },
    }
}

/// The color that a cell shows.
pub open spec fn resolved(color: Color, default: Rgb) -> Rgb {
    match color {
        Color::Default => default,
        Color::Idx(i) => palette(i),
        Color::Rgb(r, g, b) => (r, g, b),
    }
}

fn resolve(color: Color, default: Rgb) -> (r: Rgb)
    ensures
        r == resolved(color, default),
{
    match color {
        Color::Default => default,
        Color::Idx(i) => idx_to_rgb(i),
        Color::Rgb(r, g, b) => (r, g, b),
    }
}

// ---- The plan ---------------------------------------------------------------

/// One step of painting.
#[derive(Clone, Copy, Debug, PartialEq, Eq)]
pub enum Paint {
    /// Fill the background of a cell.
    Fill { row: u16, col: u16, color: Rgb },
    /// Draw the glyph of a character at a cell.
    Glyph { row: u16, col: u16, ch: char, color: Rgb },
}

/// The step that fills the background of a cell, unless it is the paper's.
pub open spec fn fill_paint(row: u16, col: u16, bg: Rgb) -> Seq<Paint> {
    if bg == paper() {
        Seq::empty()
    } else {
        seq![Paint::Fill { row, col, color: bg }]
    }
}

/// The character that a cell shows: the first of its text, unless it is blank.
pub open spec fn shown_char(text: Seq<char>) -> Option<char> {
    if text.len() == 0 || text[0] == ' ' || text[0] == '\0' {
        None
    } else {
        Some(text[0])
    }
}

/// The step that draws the glyph of a cell, unless the cell shows none.
pub open spec fn glyph_paint(row: u16, col: u16, shown: Option<char>, fg: Rgb) -> Seq<Paint> {
    match shown {
        Some(ch) => seq![Paint::Glyph { row, col, ch, color: fg }],
        None => Seq::empty(),
    }
}

/// The steps that paint one cell.
pub open spec fn cell_paints(
    cells: Map<(int, int), emulator::CellModel>,
    row: u16,
    col: u16,
) -> Seq<Paint> {
    if cells.contains_key((row as int, col as int)) {
        let cell = cells[(row as int, col as int)];
        let front = resolved(cell.fg, ink());
        let back = resolved(cell.bg, paper());
        if cell.inverse {
            fill_paint(row, col, front) + glyph_paint(row, col, shown_char(cell.text), back)
        } else {
            fill_paint(row, col, back) + glyph_paint(row, col, shown_char(cell.text), front)
        }
    } else {
        Seq::empty()
    }
}

/// The steps that paint the first `n` cells of a row.
pub open spec fn row_paints(
    cells: Map<(int, int), emulator::CellModel>,
    row: u16,
    n: nat,
) -> Seq<Paint>
    decreases n,
{
    if n == 0 {
        Seq::empty()
    } else {
        row_paints(cells, row, (n - 1) as nat) + cell_paints(cells, row, (n - 1) as u16)
    }
}

/// The steps that paint the first `n` rows of a screen.
pub open spec fn screen_paints(
    cells: Map<(int, int), emulator::CellModel>,
    n: nat,
    cols: nat,
) -> Seq<Paint>
    decreases n,
{
    if n == 0 {
        Seq::empty()
    } else {
        screen_paints(cells, (n - 1) as nat, cols) + row_paints(cells, (n - 1) as u16, cols)
    }
}

/// All steps that paint a screen, in order.
pub open spec fn plan_of(m: emulator::ScreenModel) -> Seq<Paint> {
    screen_paints(m.cells(), m.live.len(), m.cols)
}

fn first_shown(s: &str) -> (r: Option<char>)
    ensures
        r == shown_char(s@),
{
    let chars = crate::text::chars_of(s);
    if chars.len() == 0 || chars[0] == ' ' || chars[0] == '\0' {
        None
    } else {
        Some(chars[0])
    }
}

proof fn lemma_one_glyph(row: u16, col: u16, ch: char, fg: Rgb)
    ensures
        glyph_paint(row, col, Some(ch), fg).len() == 1,
        glyph_paint(row, col, Some(ch), fg)[0] == (Paint::Glyph { row, col, ch, color: fg }),
{
}

fn paint_cell(screen: &vt100::Screen, row: u16, col: u16, plan: &mut Vec<Paint>)
    ensures
        final(plan)@ == old(plan)@ + cell_paints(
            emulator::screen_model(*screen).cells(),
            row,
            col,
        ),
{
    let cell = match emulator::cell_at(screen, row, col) {
        Some(cell) => cell,
        None => {
            assert(plan@ + Seq::<Paint>::empty() =~= plan@);
            return ;
        },
    };
    let ghost before = plan@;
    let ghost model = emulator::screen_model(*screen).cells()[(row as int, col as int)];
    assert(model == cell@);
    let front = resolve(cell.fg, (229, 229, 229));
    let back = resolve(cell.bg, (0, 0, 0));
    let (fg, bg) = if cell.inverse {
        (back, front)
    } else {
        (front, back)
    };
    // Background fill.
    if bg.0 != 0 || bg.1 != 0 || bg.2 != 0 {
        plan.push(Paint::Fill { row, col, color: bg });
    }
    assert(plan@ =~= before + fill_paint(row, col, bg));
    // Glyph.
    let shown = first_shown(cell.text.as_str());
    if let Some(ch) = shown {
        plan.push(Paint::Glyph { row, col, ch, color: fg });
        proof {
            lemma_one_glyph(row, col, ch, fg);
        }
    }
    assert(plan@ =~= before + (fill_paint(row, col, bg) + glyph_paint(row, col, shown, fg)));
}

/// The steps that paint the visible screen.
pub fn paint_plan(screen: &vt100::Screen) -> (plan: Vec<Paint>)
    ensures
        plan@ == plan_of(emulator::screen_model(*screen)),
{
    let ghost cells = emulator::screen_model(*screen).cells();
    let (rows, cols) = emulator::size(screen);
    let mut plan: Vec<Paint> = Vec::new();
    let mut row: u16 = 0;
    while row < rows
        invariant
            row <= rows,
            cells == emulator::screen_model(*screen).cells(),
            plan@ == screen_paints(cells, row as nat, cols as nat),
        decreases rows - row,
    {
        let ghost before = plan@;
        let mut col: u16 = 0;
        assert(before + Seq::<Paint>::empty() =~= before);
        while col < cols
            invariant
                col <= cols,
                cells == emulator::screen_model(*screen).cells(),
                plan@ == before + row_paints(cells, row, col as nat),
            decreases cols - col,
        {
            paint_cell(screen, row, col, &mut plan);
            col += 1;
            assert(plan@ =~= before + row_paints(cells, row, col as nat));
        }
        row += 1;
    }
    plan
}

// ---- Painting ---------------------------------------------------------------

/// How much of a pixel a glyph covers, from 0 to 256, at a place counted from
/// the glyph's upper left corner.
#[derive(Clone, Copy)]
pub struct Sample {
    pub gx: u32,
    pub gy: u32,
    pub alpha: u16,
}

/// The shape of a glyph: where its upper left corner lies in the picture, and
/// the pixels that it covers.
pub struct Raster {
    pub base_x: i64,
    pub base_y: i64,
    pub samples: Vec<Sample>,
}

impl Raster {
    /// No pixel is covered by more than all of it, and no place overflows.
    pub open spec fn wf(&self) -> bool {
        forall|i: int|
            0 <= i < self.samples@.len() ==> (#[trigger] self.samples@[i]).alpha <= 256
                && self.base_x + self.samples@[i].gx <= i64::MAX && self.base_y
                + self.samples@[i].gy <= i64::MAX
    }
}

/// A rectangle of a picture in one color.
pub open spec fn filled(
    p: canvas::Picture,
    x0: int,
    y0: int,
    x1: int,
    y1: int,
    color: Rgb,
) -> canvas::Picture {
    canvas::Picture {
        pixels: Map::new(
            |at: (int, int)| p.pixels.contains_key(at),
            |at: (int, int)|
                if x0 <= at.0 < x1 && y0 <= at.1 < y1 {
                    (color.0, color.1, color.2, 255u8)
                } else {
                    p.pixels[at]
                },
        ),
        ..p
    }
}

/// A channel of which `alpha` parts in 256 are the glyph's.
pub open spec fn blended(fg: u8, bg: u8, alpha: u16) -> u8 {
    ((fg * alpha + bg * (256 - alpha)) / 256) as u8
}

/// A picture with one pixel of a glyph drawn. What lies outside the picture is
/// left out.
pub open spec fn sampled(
    p: canvas::Picture,
    base_x: int,
    base_y: int,
    s: Sample,
    color: Rgb,
) -> canvas::Picture {
    let x = base_x + s.gx;
    let y = base_y + s.gy;
    if p.holds(x, y) {
        let bg = p.pixels[(x, y)];
        canvas::Picture {
            pixels: p.pixels.insert(
                (x, y),
                (
                    blended(color.0, bg.0, s.alpha),
                    blended(color.1, bg.1, s.alpha),
                    blended(color.2, bg.2, s.alpha),
                    255u8,
                ),
            ),
            ..p
        }
    } else {
        p
    }
}

/// A picture with the first `n` pixels of a glyph drawn.
pub open spec fn glyph_drawn(
    p: canvas::Picture,
    base_x: int,
    base_y: int,
    samples: Seq<Sample>,
    n: nat,
    color: Rgb,
) -> canvas::Picture
    decreases n,
{
    if n == 0 {
        p
    } else {
        sampled(
            glyph_drawn(p, base_x, base_y, samples, (n - 1) as nat, color),
            base_x,
            base_y,
            samples[n - 1],
            color,
        )
    }
}

/// A picture after one step. A step without a raster draws nothing.
pub open spec fn step_painted(
    p: canvas::Picture,
    step: Paint,
    raster: Option<Raster>,
) -> canvas::Picture {
    match step {
        Paint::Fill { row, col, color } => filled(
            p,
            col * CELL_W,
            row * CELL_H,
            col * CELL_W + CELL_W,
            row * CELL_H + CELL_H,
            color,
        ),
        Paint::Glyph { row, col, ch, color } => match raster {
            Some(r) => glyph_drawn(
                p,
                r.base_x as int,
                r.base_y as int,
                r.samples@,
                r.samples@.len(),
                color,
            ),
            None => p,
        },
    }
}

/// A picture after the first `n` steps of a plan, each with the raster at its
/// own place in the list.
pub open spec fn plan_painted(
    p: canvas::Picture,
    plan: Seq<Paint>,
    rasters: Seq<Raster>,
    n: nat,
) -> canvas::Picture
    decreases n,
{
    if n == 0 {
        p
    } else {
        step_painted(
            plan_painted(p, plan, rasters, (n - 1) as nat),
            plan[n - 1],
            if n - 1 < rasters.len() {
                Some(rasters[n - 1])
            } else {
                None
            },
        )
    }
}

/// The picture of a screen, the glyphs having the given shapes.
pub open spec fn screen_picture(
    m: emulator::ScreenModel,
    rasters: Seq<Raster>,
) -> canvas::Picture {
    let plan = plan_of(m);
    plan_painted(
        canvas::plain(m.cols * CELL_W as nat, m.live.len() * CELL_H as nat, (0, 0, 0, 255)),
        plan,
        rasters,
        plan.len(),
    )
}

/// Clamp an integer pixel coordinate into `0..max`, or `None` if out of range.
fn pixel_index(coord: i64, max: u32) -> (r: Option<u32>)
    ensures
        r is Some <==> 0 <= coord < max,
        r is Some ==> r->0 == coord,
{
    if 0 <= coord && coord < max as i64 {
        Some(coord as u32)
    } else {
        None
    }
}

/// Alpha-blend one 8-bit color channel using integer math (`alpha` is 0..=256).
fn blend_channel(fg: u8, bg: u8, alpha: u16) -> (r: u8)
    requires
        alpha <= 256,
    ensures
        r == blended(fg, bg, alpha),
{
    proof {
        lemma_blend_range(fg, bg, alpha);
    }
    let rest: u16 = 256 - alpha;
    let front: u16 = fg as u16 * alpha;
    let back: u16 = bg as u16 * rest;
    let mixed: u16 = (front + back) / 256;
    mixed as u8
}

proof fn lemma_blend_range(fg: u8, bg: u8, alpha: u16)
    requires
        alpha <= 256,
    ensures
        0 <= fg * alpha <= 65280,
        0 <= bg * (256 - alpha) <= 65280,
        fg * alpha + bg * (256 - alpha) <= 65280,
{
    assert(0 <= fg * alpha <= 255 * alpha) by (nonlinear_arith)
        requires
            0 <= fg <= 255,
            0 <= alpha,
    ;
    assert(0 <= bg * (256 - alpha) <= 255 * (256 - alpha)) by (nonlinear_arith)
        requires
            0 <= bg <= 255,
            0 <= alpha <= 256,
    ;
}

fn fill_cell(c: &mut Canvas, row: u16, col: u16, color: Rgb, width: u32, height: u32)
    requires
        old(c)@.wf(),
        old(c)@.width == width,
        old(c)@.height == height,
    ensures
        final(c)@ == step_painted(old(c)@, Paint::Fill { row, col, color }, None),
        final(c)@.wf(),
{
    let x0: u32 = col as u32 * CELL_W;
    let y0: u32 = row as u32 * CELL_H;
    let x1: u32 = if x0 + CELL_W < width {
        x0 + CELL_W
    } else {
        width
    };
    let y1: u32 = if y0 + CELL_H < height {
        y0 + CELL_H
    } else {
        height
    };
    let ghost start = c@;
    let mut y: u32 = y0;
    assert(c@ =~= filled(start, x0 as int, y0 as int, x1 as int, y as int, color));
    while y < y1
        invariant
            y0 <= y,
            y <= y1 || y == y0,
            y1 <= height,
            x1 <= width,
            start.wf(),
            start.width == width,
            start.height == height,
            c@ == filled(start, x0 as int, y0 as int, x1 as int, y as int, color),
        decreases y1 - y,
    {
        let ghost rows_done = c@;
        let mut x: u32 = x0;
        assert(c@ =~= filled(rows_done, x0 as int, y as int, x as int, y + 1, color));
        while x < x1
            invariant
                y0 <= y < y1 <= height,
                x0 <= x,
                x <= x1 || x == x0,
                x1 <= width,
                rows_done.width == width,
                rows_done.height == height,
                rows_done.wf(),
                c@ == filled(rows_done, x0 as int, y as int, x as int, y + 1, color),
            decreases x1 - x,
        {
            canvas::put_pixel(c, x, y, (color.0, color.1, color.2, 255));
            x += 1;
            assert(rows_done.pixels.contains_key((x - 1, y as int)));
            assert(c@ =~= filled(rows_done, x0 as int, y as int, x as int, y + 1, color));
        }
        y += 1;
        assert(c@ =~= filled(start, x0 as int, y0 as int, x1 as int, y as int, color));
    }
    assert(c@ =~= step_painted(start, Paint::Fill { row, col, color }, None));
}

fn draw_glyph(c: &mut Canvas, raster: &Raster, color: Rgb, width: u32, height: u32)
    requires
        old(c)@.wf(),
        old(c)@.width == width,
        old(c)@.height == height,
        raster.wf(),
    ensures
        final(c)@ == glyph_drawn(
            old(c)@,
            raster.base_x as int,
            raster.base_y as int,
            raster.samples@,
            raster.samples@.len(),
            color,
        ),
        final(c)@.wf(),
        final(c)@.width == width,
        final(c)@.height == height,
{
    let ghost start = c@;
    let mut i: usize = 0;
    while i < raster.samples.len()
        invariant
            i <= raster.samples@.len(),
            raster.wf(),
            c@.wf(),
            c@.width == width,
            c@.height == height,
            c@ == glyph_drawn(
                start,
                raster.base_x as int,
                raster.base_y as int,
                raster.samples@,
                i as nat,
                color,
            ),
        decreases raster.samples.len() - i,
    {
        let s = raster.samples[i];
        let ghost before = c@;
        let x = pixel_index(raster.base_x + s.gx as i64, width);
        let y = pixel_index(raster.base_y + s.gy as i64, height);
        if let (Some(px), Some(py)) = (x, y) {
            let bg = canvas::get_pixel(c, px, py);
            canvas::put_pixel(
                c,
                px,
                py,
                (
                    blend_channel(color.0, bg.0, s.alpha),
                    blend_channel(color.1, bg.1, s.alpha),
                    blend_channel(color.2, bg.2, s.alpha),
                    255,
                ),
            );
        }
        assert(c@ =~= sampled(before, raster.base_x as int, raster.base_y as int, s, color));
        i += 1;
    }
}

/// Why a picture cannot be had.
#[derive(Debug)]
pub enum RenderError {
    /// The encoder refuses the picture.
    Encoder(image::ImageError),
}

/// Render the visible screen to PNG bytes. The rasters are those of the steps of
/// [`paint_plan`], one for each; the raster of a fill is not looked at.
pub fn screen_to_png(screen: &vt100::Screen, rasters: &[Raster]) -> (r: Result<
    Vec<u8>,
    RenderError,
>)
    requires
        4 * ((emulator::screen_model(*screen).cols * CELL_W) * (emulator::screen_model(
            *screen,
        ).live.len() * CELL_H)) <= isize::MAX,
        forall|i: int| 0 <= i < rasters@.len() ==> (#[trigger] rasters@[i]).wf(),
    ensures
        r is Ok <==> canvas::png_file(
            screen_picture(emulator::screen_model(*screen), rasters@),
        ) is Some,
        r is Ok ==> r->Ok_0@ == canvas::png_file(
            screen_picture(emulator::screen_model(*screen), rasters@),
        )->0,
{
    let (rows, cols) = emulator::size(screen);
    let width: u32 = cols as u32 * CELL_W;
    let height: u32 = rows as u32 * CELL_H;
    let plan = paint_plan(screen);
    let mut c = canvas::blank(width, height, (0, 0, 0, 255));
    let ghost start = c@;
    let mut i: usize = 0;
    while i < plan.len()
        invariant
            i <= plan@.len(),
            forall|j: int| 0 <= j < rasters@.len() ==> (#[trigger] rasters@[j]).wf(),
            c@.wf(),
            c@.width == width,
            c@.height == height,
            c@ == plan_painted(start, plan@, rasters@, i as nat),
        decreases plan.len() - i,
    {
        match plan[i] {
            Paint::Fill { row, col, color } => fill_cell(&mut c, row, col, color, width, height),
            Paint::Glyph { row: _, col: _, ch: _, color } => {
                if i < rasters.len() {
                    draw_glyph(&mut c, &rasters[i], color, width, height);
                }
            },
        }
        i += 1;
    }
    match canvas::encode_png(&c) {
        Ok(png) => Ok(png),
        Err(e) => Err(RenderError::Encoder(e)),
    }
}

// ---- Laws -------------------------------------------------------------------

/// A glyph that covers nothing of a pixel leaves it, one that covers all of it
/// replaces it, and every other one gives a value between the two.
pub proof fn blending_stays_between(fg: u8, bg: u8, alpha: u16)
    requires
        alpha <= 256,
    ensures
        blended(fg, bg, 0) == bg,
        blended(fg, bg, 256) == fg,
        fg <= bg ==> fg <= blended(fg, bg, alpha) <= bg,
        bg <= fg ==> bg <= blended(fg, bg, alpha) <= fg,
{
    lemma_blend_range(fg, bg, alpha);
    let low = if fg <= bg {
        fg as int
    } else {
        bg as int
    };
    let high = if fg <= bg {
        bg as int
    } else {
        fg as int
    };
    let a = alpha as int;
    let f = fg as int;
    let b = bg as int;
    assert(low * a <= f * a <= high * a) by (nonlinear_arith)
        requires
            low <= f <= high,
            0 <= a,
    ;
    assert(low * (256 - a) <= b * (256 - a) <= high * (256 - a)) by (nonlinear_arith)
        requires
            low <= b <= high,
            a <= 256,
    ;
    assert(low * a + low * (256 - a) == 256 * low) by (nonlinear_arith);
    assert(high * a + high * (256 - a) == 256 * high) by (nonlinear_arith);
}

/// Whether every pixel of a picture is opaque.
pub open spec fn opaque(p: canvas::Picture) -> bool {
    forall|x: int, y: int| p.holds(x, y) ==> (#[trigger] p.pixels[(x, y)]).3 == 255
}

/// Painting leaves the size of a picture, and an opaque picture opaque.
pub proof fn painting_keeps_size_and_opacity(
    p: canvas::Picture,
    plan: Seq<Paint>,
    rasters: Seq<Raster>,
    n: nat,
)
    requires
        p.wf(),
        opaque(p),
        n <= plan.len(),
    ensures
        plan_painted(p, plan, rasters, n).wf(),
        plan_painted(p, plan, rasters, n).width == p.width,
        plan_painted(p, plan, rasters, n).height == p.height,
        opaque(plan_painted(p, plan, rasters, n)),
    decreases n,
{
    if n > 0 {
        painting_keeps_size_and_opacity(p, plan, rasters, (n - 1) as nat);
        let q = plan_painted(p, plan, rasters, (n - 1) as nat);
        match plan[n - 1] {
            Paint::Fill { row, col, color } => {
                let r = filled(
                    q,
                    col * CELL_W,
                    row * CELL_H,
                    col * CELL_W + CELL_W,
                    row * CELL_H + CELL_H,
                    color,
                );
                assert forall|x: int, y: int| r.holds(x, y) implies (#[trigger] r.pixels[(x, y)]).3
                    == 255 by {
                    assert(q.pixels.contains_key((x, y)));
                    assert(q.pixels[(x, y)].3 == 255);
                }
                assert forall|x: int, y: int| #[trigger]
                    r.pixels.contains_key((x, y)) <==> r.holds(x, y) by {
                    assert(q.pixels.contains_key((x, y)) <==> q.holds(x, y));
                }
            },
            Paint::Glyph { row, col, ch, color } => {
                if n - 1 < rasters.len() {
                    let g = rasters[n - 1];
                    lemma_glyph_keeps(
                        q,
                        g.base_x as int,
                        g.base_y as int,
                        g.samples@,
                        g.samples@.len(),
                        color,
                    );
                }
            },
        }
    }
}

proof fn lemma_glyph_keeps(
    p: canvas::Picture,
    base_x: int,
    base_y: int,
    samples: Seq<Sample>,
    n: nat,
    color: Rgb,
)
    requires
        p.wf(),
        opaque(p),
    ensures
        glyph_drawn(p, base_x, base_y, samples, n, color).wf(),
        glyph_drawn(p, base_x, base_y, samples, n, color).width == p.width,
        glyph_drawn(p, base_x, base_y, samples, n, color).height == p.height,
        opaque(glyph_drawn(p, base_x, base_y, samples, n, color)),
    decreases n,
{
    if n > 0 {
        lemma_glyph_keeps(p, base_x, base_y, samples, (n - 1) as nat, color);
        let q = glyph_drawn(p, base_x, base_y, samples, (n - 1) as nat, color);
        let r = sampled(q, base_x, base_y, samples[n - 1], color);
        assert forall|x: int, y: int| #[trigger] r.pixels.contains_key((x, y)) <==> r.holds(x, y) by {
            assert(q.pixels.contains_key((x, y)) <==> q.holds(x, y));
        }
        assert forall|x: int, y: int| r.holds(x, y) implies (#[trigger] r.pixels[(x, y)]).3
            == 255 by {
            assert(q.holds(x, y) ==> q.pixels[(x, y)].3 == 255);
        }
    }
}

/// The picture of a screen has nine columns and eighteen rows of pixels for each
/// cell, and every pixel of it is opaque.
pub proof fn screenshots_are_opaque(m: emulator::ScreenModel, rasters: Seq<Raster>)
    ensures
        screen_picture(m, rasters).width == 9 * m.cols,
        screen_picture(m, rasters).height == 18 * m.live.len(),
        screen_picture(m, rasters).wf(),
        opaque(screen_picture(m, rasters)),
{
    let p = canvas::plain(
        m.cols * CELL_W as nat,
        m.live.len() * CELL_H as nat,
        (0, 0, 0, 255),
    );
    let plan = plan_of(m);
    painting_keeps_size_and_opacity(p, plan, rasters, plan.len());
}

/// A cell in the default colors with nothing in it, or a space, needs no step.
pub proof fn blank_cells_need_no_paint(
    cells: Map<(int, int), emulator::CellModel>,
    row: u16,
    col: u16,
)
    requires
        cells.contains_key((row as int, col as int)),
        resolved(cells[(row as int, col as int)].bg, paper()) == paper(),
        !cells[(row as int, col as int)].inverse,
        shown_char(cells[(row as int, col as int)].text) is None,
    ensures
        cell_paints(cells, row, col) == Seq::<Paint>::empty(),
{
    assert(cell_paints(cells, row, col) =~= Seq::<Paint>::empty());
}

/// The colors of a cell. One that is not inverse is filled with its background and drawn
/// with its foreground, an inverse one the other way round; the terminal's own foreground
/// is (229, 229, 229) and its background black. A black fill is left out, and so is the
/// glyph of a cell that shows no character.
pub proof fn cells_are_painted_in_their_colors(
    cells: Map<(int, int), emulator::CellModel>,
    row: u16,
    col: u16,
)
    requires
        cells.contains_key((row as int, col as int)),
    ensures
        ({
            let cell = cells[(row as int, col as int)];
            let front = resolved(cell.fg, (229, 229, 229));
            let back = resolved(cell.bg, (0, 0, 0));
            let fill = if cell.inverse {
                front
            } else {
                back
            };
            let ink = if cell.inverse {
                back
            } else {
                front
            };
            let steps = cell_paints(cells, row, col);
            &&& forall|color: Rgb| #[trigger]
                steps.contains(Paint::Fill { row, col, color }) <==> color == fill && fill != (
                    0u8,
                    0u8,
                    0u8,
                )
            &&& forall|ch: char, color: Rgb| #[trigger]
                steps.contains(Paint::Glyph { row, col, ch, color }) <==> cell.text.len() > 0 && ch
                    == cell.text[0] && ch != ' ' && ch != '\0' && color == ink
            &&& steps.len() <= 2
            &&& steps.len() == 2 ==> steps[0] is Fill && steps[1] is Glyph
            &&& forall|i: int| 0 <= i < steps.len() ==> place(#[trigger] steps[i]) == (row, col)
        }),
{
    let cell = cells[(row as int, col as int)];
    let front = resolved(cell.fg, (229, 229, 229));
    let back = resolved(cell.bg, (0, 0, 0));
    let (ink, fill) = if cell.inverse {
        (back, front)
    } else {
        (front, back)
    };
    let steps = cell_paints(cells, row, col);
    let shown = shown_char(cell.text);
    let first = fill_paint(row, col, fill);
    let second = glyph_paint(row, col, shown, ink);
    assert(steps == first + second);
    if fill != paper() {
        assert(steps[0] == (Paint::Fill { row, col, color: fill }));
    }
    if shown is Some {
        lemma_one_glyph(row, col, shown->0, ink);
        assert(steps[first.len() as int] == second[0]);
    }
    assert forall|i: int| 0 <= i < steps.len() implies (#[trigger] steps[i]) == (Paint::Fill {
        row,
        col,
        color: fill,
    }) || (shown is Some && steps[i] == (Paint::Glyph { row, col, ch: shown->0, color: ink })) by {
        if i < first.len() {
            assert(steps[i] == first[i]);
        } else {
            assert(steps[i] == second[i - first.len()]);
        }
    }
    assert forall|i: int| 0 <= i < steps.len() && (#[trigger] steps[i]) is Fill implies fill
        != paper() by {
        if i >= first.len() {
            assert(steps[i] == second[i - first.len()]);
        }
    }
}

/// The cell that a step belongs to.
pub open spec fn place(step: Paint) -> (u16, u16) {
    match step {
        Paint::Fill { row, col, color } => (row, col),
        Paint::Glyph { row, col, ch, color } => (row, col),
    }
}

/// An inverse cell is painted as the cell that is not inverse and has its foreground and
/// its background exchanged.
pub proof fn inverse_cells_exchange_their_colors(
    cells: Map<(int, int), emulator::CellModel>,
    row: u16,
    col: u16,
)
    requires
        cells.contains_key((row as int, col as int)),
        cells[(row as int, col as int)].inverse,
    ensures
        ({
            let cell = cells[(row as int, col as int)];
            let (r, g, b) = resolved(cell.fg, (229, 229, 229));
            let (x, y, z) = resolved(cell.bg, (0, 0, 0));
            let turned = emulator::CellModel {
                fg: Color::Rgb(x, y, z),
                bg: Color::Rgb(r, g, b),
                inverse: false,
                ..cell
            };
            cell_paints(cells, row, col) == cell_paints(
                cells.insert((row as int, col as int), turned),
                row,
                col,
            )
        }),
{
}

/// What a color means: the terminal's own is the default, a direct one is itself, and the
/// others are those of the xterm palette: eight colors, the same eight bright, a cube of
/// six levels each of red, green and blue, and twenty-four grays.
pub proof fn colors_are_those_of_xterm(default: Rgb, r: u8, g: u8, b: u8, gray: u8)
    requires
        r < 6,
        g < 6,
        b < 6,
        gray < 24,
    ensures
        resolved(Color::Default, default) == default,
        resolved(Color::Rgb(r, g, b), default) == (r, g, b),
        ({
            let level = seq![0u8, 95, 135, 175, 215, 255];
            resolved(Color::Idx((16 + 36 * r + 6 * g + b) as u8), default) == (
                level[r as int],
                level[g as int],
                level[b as int],
            )
        }),
        ({
            let v = (8 + 10 * gray) as u8;
            resolved(Color::Idx((232 + gray) as u8), default) == (v, v, v)
        }),
        ({
            let dark = seq![
                (0u8, 0u8, 0u8),
                (205, 0, 0),
                (0, 205, 0),
                (205, 205, 0),
                (0, 0, 238),
                (205, 0, 205),
                (0, 205, 205),
                (229, 229, 229),
            ];
            forall|i: u8|
                i < 8 ==> #[trigger] resolved(Color::Idx(i), default) == dark[i as int]
        }),
        ({
            let bright = seq![
                (127u8, 127u8, 127u8),
                (255, 0, 0),
                (0, 255, 0),
                (255, 255, 0),
                (92, 92, 255),
                (255, 0, 255),
                (0, 255, 255),
                (255, 255, 255),
            ];
            forall|i: u8|
                8 <= i < 16 ==> #[trigger] resolved(Color::Idx(i), default) == bright[i - 8]
        }),
{
    let c = 36 * r + 6 * g + b;
    assert(c / 36 == r && c / 6 % 6 == g && c % 6 == b) by (nonlinear_arith)
        requires
            c == 36 * r + 6 * g + b,
            0 <= r < 6,
            0 <= g < 6,
            0 <= b < 6,
    ;
}

/// A direct color is painted as it is, also where its parts are larger than a palette
/// entry.
pub proof fn direct_colors_are_kept(color: Rgb, default: Rgb)
    ensures
        resolved(Color::Rgb(color.0, color.1, color.2), default) == color,
{
}

/// A plan paints every cell of the screen, and nothing else: a step stands in it exactly
/// where it is one of the steps of a cell of the screen.
pub proof fn plans_paint_every_cell(m: emulator::ScreenModel, step: Paint)
    requires
        m.live.len() <= 0xffff,
        m.cols <= 0xffff,
    ensures
        plan_of(m).contains(step) <==> exists|row: u16, col: u16|
            row < m.live.len() && col < m.cols && (#[trigger] cell_paints(
                m.cells(),
                row,
                col,
            )).contains(step),
{
    lemma_screen_steps(m.cells(), m.live.len(), m.cols, step);
}

proof fn lemma_row_steps(
    cells: Map<(int, int), emulator::CellModel>,
    row: u16,
    n: nat,
    step: Paint,
)
    requires
        n <= 0xffff,
    ensures
        row_paints(cells, row, n).contains(step) <==> exists|col: u16|
            col < n && (#[trigger] cell_paints(cells, row, col)).contains(step),
    decreases n,
{
    if n > 0 {
        let a = row_paints(cells, row, (n - 1) as nat);
        let last = (n - 1) as u16;
        let b = cell_paints(cells, row, last);
        lemma_row_steps(cells, row, (n - 1) as nat, step);
        lemma_contains_either(a, b, step);
        if exists|col: u16| col < n && (#[trigger] cell_paints(cells, row, col)).contains(step) {
            let col = choose|col: u16|
                col < n && (#[trigger] cell_paints(cells, row, col)).contains(step);
            if col == last {
                assert(b.contains(step));
            } else {
                assert(col < n - 1 && cell_paints(cells, row, col).contains(step));
            }
        }
    }
}

proof fn lemma_screen_steps(
    cells: Map<(int, int), emulator::CellModel>,
    n: nat,
    cols: nat,
    step: Paint,
)
    requires
        n <= 0xffff,
        cols <= 0xffff,
    ensures
        screen_paints(cells, n, cols).contains(step) <==> exists|row: u16, col: u16|
            row < n && col < cols && (#[trigger] cell_paints(cells, row, col)).contains(step),
    decreases n,
{
    if n > 0 {
        let a = screen_paints(cells, (n - 1) as nat, cols);
        let last = (n - 1) as u16;
        let b = row_paints(cells, last, cols);
        lemma_screen_steps(cells, (n - 1) as nat, cols, step);
        lemma_row_steps(cells, last, cols, step);
        lemma_contains_either(a, b, step);
        if exists|row: u16, col: u16|
            row < n && col < cols && (#[trigger] cell_paints(cells, row, col)).contains(step) {
            let (row, col) = choose|row: u16, col: u16|
                row < n && col < cols && (#[trigger] cell_paints(cells, row, col)).contains(step);
            if row == last {
                assert(b.contains(step));
            } else {
                assert(row < n - 1 && cell_paints(cells, row, col).contains(step));
            }
        }
    }
}

proof fn lemma_contains_either(a: Seq<Paint>, b: Seq<Paint>, step: Paint)
    ensures
        (a + b).contains(step) <==> a.contains(step) || b.contains(step),
{
    let all = a + b;
    if all.contains(step) {
        let i = choose|i: int| 0 <= i < all.len() && all[i] == step;
        if i < a.len() {
            assert(a[i] == step);
        } else {
            assert(b[i - a.len()] == step);
        }
    }
    if a.contains(step) {
        let i = choose|i: int| 0 <= i < a.len() && a[i] == step;
        assert(all[i] == step);
    }
    if b.contains(step) {
        let i = choose|i: int| 0 <= i < b.len() && b[i] == step;
        assert(all[i + a.len()] == step);
    }
}

/// A fill colors all of its cell and nothing else: the nine columns and eighteen rows of
/// pixels that start at nine times its column and eighteen times its row.
pub proof fn fills_color_their_cell(
    p: canvas::Picture,
    row: u16,
    col: u16,
    color: Rgb,
    raster: Option<Raster>,
    x: int,
    y: int,
)
    requires
        p.wf(),
        p.holds(x, y),
    ensures
        step_painted(p, Paint::Fill { row, col, color }, raster).pixels[(x, y)] == (if 9 * col <= x
            < 9 * col + 9 && 18 * row <= y < 18 * row + 18 {
            (color.0, color.1, color.2, 255u8)
        } else {
            p.pixels[(x, y)]
        }),
{
    assert(p.pixels.contains_key((x, y)));
}

/// A glyph touches only the pixels that its raster covers, counted from the raster's own
/// corner, and a step without a raster none.
pub proof fn glyphs_touch_their_samples_only(
    p: canvas::Picture,
    step: Paint,
    raster: Option<Raster>,
    x: int,
    y: int,
)
    requires
        step is Glyph,
        raster matches Some(r) ==> forall|i: int|
            0 <= i < r.samples@.len() ==> r.base_x + (#[trigger] r.samples@[i]).gx != x || r.base_y
                + r.samples@[i].gy != y,
    ensures
        step_painted(p, step, raster).pixels[(x, y)] == p.pixels[(x, y)],
{
    if let Some(r) = raster {
        let color = match step {
            Paint::Glyph { row, col, ch, color } => color,
            Paint::Fill { row, col, color } => color,
        };
        lemma_untouched(
            p,
            r.base_x as int,
            r.base_y as int,
            r.samples@,
            r.samples@.len(),
            color,
            x,
            y,
        );
    }
}

proof fn lemma_untouched(
    p: canvas::Picture,
    base_x: int,
    base_y: int,
    samples: Seq<Sample>,
    n: nat,
    color: Rgb,
    x: int,
    y: int,
)
    requires
        n <= samples.len(),
        forall|i: int|
            0 <= i < n ==> base_x + (#[trigger] samples[i]).gx != x || base_y + samples[i].gy != y,
    ensures
        glyph_drawn(p, base_x, base_y, samples, n, color).pixels[(x, y)] == p.pixels[(x, y)],
    decreases n,
{
    if n > 0 {
        lemma_untouched(p, base_x, base_y, samples, (n - 1) as nat, color, x, y);
        assert(base_x + samples[n - 1].gx != x || base_y + samples[n - 1].gy != y);
    }
}

/// A glyph mixes its color into a pixel by as much as it covers of it: so many parts in 256
/// are the glyph's and the rest what was there, each channel by itself and rounded down.
pub proof fn glyphs_mix_in_their_color(
    p: canvas::Picture,
    row: u16,
    col: u16,
    ch: char,
    color: Rgb,
    raster: Raster,
    k: int,
    x: int,
    y: int,
)
    requires
        p.holds(x, y),
        0 <= k < raster.samples@.len(),
        raster.base_x + raster.samples@[k].gx == x,
        raster.base_y + raster.samples@[k].gy == y,
        raster.samples@[k].alpha <= 256,
        forall|i: int|
            0 <= i < raster.samples@.len() && i != k ==> raster.base_x + (
            #[trigger] raster.samples@[i]).gx != x || raster.base_y + raster.samples@[i].gy != y,
    ensures
        ({
            let alpha = raster.samples@[k].alpha as int;
            let under = p.pixels[(x, y)];
            let over = step_painted(
                p,
                Paint::Glyph { row, col, ch, color },
                Some(raster),
            ).pixels[(x, y)];
            &&& 256 * over.0 <= color.0 * alpha + under.0 * (256 - alpha) < 256 * over.0 + 256
            &&& 256 * over.1 <= color.1 * alpha + under.1 * (256 - alpha) < 256 * over.1 + 256
            &&& 256 * over.2 <= color.2 * alpha + under.2 * (256 - alpha) < 256 * over.2 + 256
            &&& over.3 == 255
        }),
{
    let s = raster.samples@;
    let bx = raster.base_x as int;
    let by = raster.base_y as int;
    let before = glyph_drawn(p, bx, by, s, k as nat, color);
    lemma_untouched(p, bx, by, s, k as nat, color, x, y);
    lemma_glyph_size(p, bx, by, s, k as nat, color);
    lemma_blend_range(color.0, before.pixels[(x, y)].0, s[k].alpha);
    lemma_blend_range(color.1, before.pixels[(x, y)].1, s[k].alpha);
    lemma_blend_range(color.2, before.pixels[(x, y)].2, s[k].alpha);
    lemma_untouched_after(p, bx, by, s, (k + 1) as nat, s.len(), color, x, y);
}

proof fn lemma_glyph_size(
    p: canvas::Picture,
    base_x: int,
    base_y: int,
    samples: Seq<Sample>,
    n: nat,
    color: Rgb,
)
    ensures
        glyph_drawn(p, base_x, base_y, samples, n, color).width == p.width,
        glyph_drawn(p, base_x, base_y, samples, n, color).height == p.height,
    decreases n,
{
    if n > 0 {
        lemma_glyph_size(p, base_x, base_y, samples, (n - 1) as nat, color);
    }
}

proof fn lemma_untouched_after(
    p: canvas::Picture,
    base_x: int,
    base_y: int,
    samples: Seq<Sample>,
    from: nat,
    n: nat,
    color: Rgb,
    x: int,
    y: int,
)
    requires
        from <= n <= samples.len(),
        forall|i: int|
            from <= i < n ==> base_x + (#[trigger] samples[i]).gx != x || base_y + samples[i].gy
                != y,
    ensures
        glyph_drawn(p, base_x, base_y, samples, n, color).pixels[(x, y)] == glyph_drawn(
            p,
            base_x,
            base_y,
            samples,
            from,
            color,
        ).pixels[(x, y)],
    decreases n,
{
    if n > from {
        lemma_untouched_after(p, base_x, base_y, samples, from, (n - 1) as nat, color, x, y);
        assert(base_x + samples[n - 1].gx != x || base_y + samples[n - 1].gy != y);
    }
}

/// Steps are painted in the order of the plan, each on what those before it have painted
/// and with the raster at its own place, and those that come later cover it: a picture
/// after so many steps and one more is the picture with that one step added.
pub proof fn later_steps_cover_earlier_ones(
    p: canvas::Picture,
    first: Seq<Paint>,
    last: Paint,
    rasters: Seq<Raster>,
    glyph: Raster,
)
    requires
        rasters.len() == first.len(),
    ensures
        plan_painted(p, first.push(last), rasters.push(glyph), first.len() + 1) == step_painted(
            plan_painted(p, first, rasters, first.len()),
            last,
            Some(glyph),
        ),
        plan_painted(p, first.push(last), rasters, first.len() + 1) == step_painted(
            plan_painted(p, first, rasters, first.len()),
            last,
            None,
        ),
        plan_painted(p, Seq::empty(), rasters, 0) == p,
{
    lemma_plan_prefix(p, first, last, rasters, glyph, first.len());
}

proof fn lemma_plan_prefix(
    p: canvas::Picture,
    first: Seq<Paint>,
    last: Paint,
    rasters: Seq<Raster>,
    glyph: Raster,
    n: nat,
)
    requires
        n <= first.len(),
        rasters.len() == first.len(),
    ensures
        plan_painted(p, first.push(last), rasters.push(glyph), n) == plan_painted(
            p,
            first,
            rasters,
            n,
        ),
        plan_painted(p, first.push(last), rasters, n) == plan_painted(p, first, rasters, n),
    decreases n,
{
    if n > 0 {
        lemma_plan_prefix(p, first, last, rasters, glyph, (n - 1) as nat);
    }
}

/// Whether a step reaches a pixel: a fill all of its cell, a glyph what its raster covers.
pub open spec fn reaches(step: Paint, rasters: Seq<Raster>, k: int, x: int, y: int) -> bool {
    match step {
        Paint::Fill { row, col, color } => 9 * col <= x < 9 * col + 9 && 18 * row <= y < 18 * row
            + 18,
        Paint::Glyph { row, col, ch, color } => k < rasters.len() && exists|i: int|
            0 <= i < rasters[k].samples@.len() && rasters[k].base_x + (
            #[trigger] rasters[k].samples@[i]).gx == x && rasters[k].base_y
                + rasters[k].samples@[i].gy == y,
    }
}

/// What no step reaches is black, and what a fill colors keeps its color unless a later step
/// reaches it.
pub proof fn pixels_show_the_last_step_that_reaches_them(
    m: emulator::ScreenModel,
    rasters: Seq<Raster>,
    x: int,
    y: int,
)
    requires
        0 <= x < 9 * m.cols,
        0 <= y < 18 * m.live.len(),
    ensures
        (forall|k: int|
            0 <= k < plan_of(m).len() ==> !reaches(#[trigger] plan_of(m)[k], rasters, k, x, y))
            ==> screen_picture(m, rasters).pixels[(x, y)] == (0u8, 0u8, 0u8, 255u8),
        forall|k: int, row: u16, col: u16, color: Rgb|
            0 <= k < plan_of(m).len() && #[trigger] plan_of(m)[k] == (#[trigger] fill_step(
                row,
                col,
                color,
            )) && 9 * col <= x < 9 * col + 9 && 18 * row <= y < 18 * row + 18 && (forall|j: int|
                k < j < plan_of(m).len() ==> !reaches(#[trigger] plan_of(m)[j], rasters, j, x, y))
                ==> screen_picture(m, rasters).pixels[(x, y)] == (color.0, color.1, color.2, 255u8),
{
    let p = canvas::plain(m.cols * CELL_W as nat, m.live.len() * CELL_H as nat, (0, 0, 0, 255));
    let plan = plan_of(m);
    let n = plan.len();
    if forall|k: int| 0 <= k < n ==> !reaches(#[trigger] plan[k], rasters, k, x, y) {
        lemma_not_reached(p, plan, rasters, 0, n, x, y);
    }
    assert forall|k: int, row: u16, col: u16, color: Rgb|
        0 <= k < n && #[trigger] plan[k] == (#[trigger] fill_step(row, col, color)) && 9 * col <= x
            < 9 * col + 9 && 18 * row <= y < 18 * row + 18 && (forall|j: int|
            k < j < n ==> !reaches(#[trigger] plan[j], rasters, j, x, y)) implies screen_picture(
        m,
        rasters,
    ).pixels[(x, y)] == (color.0, color.1, color.2, 255u8) by {
        lemma_painted_has(p, plan, rasters, k as nat, x, y);
        lemma_not_reached(p, plan, rasters, (k + 1) as nat, n, x, y);
        let q = plan_painted(p, plan, rasters, k as nat);
        assert(q.pixels.contains_key((x, y)));
    }
}

/// The step that fills a cell.
pub open spec fn fill_step(row: u16, col: u16, color: Rgb) -> Paint {
    Paint::Fill { row, col, color }
}

proof fn lemma_painted_has(
    p: canvas::Picture,
    plan: Seq<Paint>,
    rasters: Seq<Raster>,
    n: nat,
    x: int,
    y: int,
)
    requires
        p.pixels.contains_key((x, y)),
        n <= plan.len(),
    ensures
        plan_painted(p, plan, rasters, n).pixels.contains_key((x, y)),
    decreases n,
{
    if n > 0 {
        lemma_painted_has(p, plan, rasters, (n - 1) as nat, x, y);
        let q = plan_painted(p, plan, rasters, (n - 1) as nat);
        if n - 1 < rasters.len() {
            if let Paint::Glyph { row, col, ch, color } = plan[n - 1] {
                let r = rasters[n - 1];
                lemma_glyph_has(
                    q,
                    r.base_x as int,
                    r.base_y as int,
                    r.samples@,
                    r.samples@.len(),
                    color,
                    x,
                    y,
                );
            }
        }
    }
}

proof fn lemma_glyph_has(
    p: canvas::Picture,
    base_x: int,
    base_y: int,
    samples: Seq<Sample>,
    n: nat,
    color: Rgb,
    x: int,
    y: int,
)
    requires
        p.pixels.contains_key((x, y)),
    ensures
        glyph_drawn(p, base_x, base_y, samples, n, color).pixels.contains_key((x, y)),
    decreases n,
{
    if n > 0 {
        lemma_glyph_has(p, base_x, base_y, samples, (n - 1) as nat, color, x, y);
    }
}

proof fn lemma_not_reached(
    p: canvas::Picture,
    plan: Seq<Paint>,
    rasters: Seq<Raster>,
    from: nat,
    n: nat,
    x: int,
    y: int,
)
    requires
        p.pixels.contains_key((x, y)),
        from <= n <= plan.len(),
        forall|j: int| from <= j < n ==> !reaches(#[trigger] plan[j], rasters, j, x, y),
    ensures
        plan_painted(p, plan, rasters, n).pixels[(x, y)] == plan_painted(
            p,
            plan,
            rasters,
            from,
        ).pixels[(x, y)],
    decreases n,
{
    if n > from {
        lemma_not_reached(p, plan, rasters, from, (n - 1) as nat, x, y);
        lemma_painted_has(p, plan, rasters, (n - 1) as nat, x, y);
        let q = plan_painted(p, plan, rasters, (n - 1) as nat);
        assert(!reaches(plan[n - 1], rasters, n - 1, x, y));
        if plan[n - 1] is Glyph {
            let raster = if n - 1 < rasters.len() {
                Some(rasters[n - 1])
            } else {
                None
            };
            glyphs_touch_their_samples_only(q, plan[n - 1], raster, x, y);
        }
    }
}

/// Whether a cell comes before another, or is it: by rows, and by columns within a row.
pub open spec fn not_after(a: (u16, u16), b: (u16, u16)) -> bool {
    a.0 < b.0 || (a.0 == b.0 && a.1 <= b.1)
}

/// A plan goes through the rows from the top, and through each row from the left.
pub proof fn plans_go_row_by_row(m: emulator::ScreenModel, i: int, j: int)
    requires
        m.live.len() <= 0xffff,
        m.cols <= 0xffff,
        0 <= i <= j < plan_of(m).len(),
    ensures
        not_after(place(plan_of(m)[i]), place(plan_of(m)[j])),
{
    lemma_screen_order(m.cells(), m.live.len(), m.cols, i, j);
}

proof fn lemma_row_order(
    cells: Map<(int, int), emulator::CellModel>,
    row: u16,
    n: nat,
    i: int,
    j: int,
)
    requires
        n <= 0xffff,
        0 <= i <= j < row_paints(cells, row, n).len(),
    ensures
        place(row_paints(cells, row, n)[i]).0 == row,
        place(row_paints(cells, row, n)[j]).0 == row,
        place(row_paints(cells, row, n)[i]).1 <= place(row_paints(cells, row, n)[j]).1 < n,
    decreases n,
{
    if n > 0 {
        let a = row_paints(cells, row, (n - 1) as nat);
        let last = (n - 1) as u16;
        let b = cell_paints(cells, row, last);
        if cells.contains_key((row as int, last as int)) {
            cells_are_painted_in_their_colors(cells, row, last);
        }
        if i < a.len() {
            let k = if j < a.len() {
                j
            } else {
                i
            };
            lemma_row_order(cells, row, (n - 1) as nat, i, k);
        } else {
            assert(place(b[i - a.len()]) == (row, last));
        }
        if j >= a.len() {
            assert(place(b[j - a.len()]) == (row, last));
        }
    }
}

proof fn lemma_screen_order(
    cells: Map<(int, int), emulator::CellModel>,
    n: nat,
    cols: nat,
    i: int,
    j: int,
)
    requires
        n <= 0xffff,
        cols <= 0xffff,
        0 <= i <= j < screen_paints(cells, n, cols).len(),
    ensures
        not_after(
            place(screen_paints(cells, n, cols)[i]),
            place(screen_paints(cells, n, cols)[j]),
        ),
        place(screen_paints(cells, n, cols)[j]).0 < n,
    decreases n,
{
    if n > 0 {
        let a = screen_paints(cells, (n - 1) as nat, cols);
        let last = (n - 1) as u16;
        let b = row_paints(cells, last, cols);
        if i < a.len() {
            let k = if j < a.len() {
                j
            } else {
                i
            };
            lemma_screen_order(cells, (n - 1) as nat, cols, i, k);
        }
        if j >= a.len() {
            let k = if i < a.len() {
                j - a.len()
            } else {
                i - a.len()
            };
            lemma_row_order(cells, last, cols, k, j - a.len());
        }
    }
}

} // verus!
