//! The terminal emulator and its screen.
//!
//! An [`Emulator`] is given the output of a program and the sizes that its
//! terminal takes on, in order ([`Run`]), and makes a screen of it. A
//! `vt100::Screen` holds a grid of rows, the rows that have scrolled off its
//! top, and how far a reader has scrolled back into those. Its contents are
//! modelled by [`ScreenModel`]. The functions here are the only ones that touch
//! the emulator.

use crate::text;
use vstd::prelude::*;

verus! {

/// The screen of the `vt100` emulator.
#[verifier::external_type_specification]
#[verifier::external_body]
pub struct ExScreen(vt100::Screen);

/// A color as a cell names it.
#[derive(Clone, Copy, PartialEq, Eq, Structural)]
pub enum Color {
    /// The terminal's own foreground or background.
    Default,
    /// An entry of the 256-color palette.
    Idx(u8),
    /// Red, green and blue.
    Rgb(u8, u8, u8),
}

/// One cell of the screen.
pub struct Cell {
    /// The character drawn in the cell and those combined with it; empty where
    /// nothing was written.
    pub text: String,
    pub fg: Color,
    pub bg: Color,
    /// Foreground and background are exchanged.
    pub inverse: bool,
    /// The cell is the right half of a double-width character.
    pub continuation: bool,
}

/// What a cell holds.
#[verifier::ext_equal]
pub struct CellModel {
    pub text: Seq<char>,
    pub fg: Color,
    pub bg: Color,
    pub inverse: bool,
    pub continuation: bool,
}

impl View for Cell {
    type V = CellModel;

    open spec fn view(&self) -> CellModel {
        CellModel {
            text: self.text@,
            fg: self.fg,
            bg: self.bg,
            inverse: self.inverse,
            continuation: self.continuation,
        }
    }
}

/// What a screen holds.
#[verifier::ext_equal]
pub struct ScreenModel {
    /// The width of the screen.
    pub cols: nat,
    /// The text of each row of the screen, cut to the width.
    pub live: Seq<Seq<char>>,
    /// The text of each row that has scrolled off the top, oldest first, cut to
    /// the width.
    pub scrolled: Seq<Seq<char>>,
    /// How many rows a reader has scrolled back.
    pub offset: nat,
    pub cursor_row: nat,
    pub cursor_col: nat,
    pub cursor_hidden: bool,
    /// What the view shows as one text, for each distance scrolled back.
    pub texts: Map<nat, Seq<char>>,
    /// The escape sequences that draw the view, for each distance scrolled back.
    pub drawings: Map<nat, Seq<u8>>,
    /// The cells of the view by row and column, for each distance scrolled back.
    pub grids: Map<nat, Map<(int, int), CellModel>>,
}

/// What a screen holds.
pub uninterp spec fn screen_model(s: vt100::Screen) -> ScreenModel;

impl ScreenModel {
    /// All rows in order, those that have scrolled off first.
    pub open spec fn history(self) -> Seq<Seq<char>> {
        self.scrolled + self.live
    }

    /// The rows in view: as many as the screen has, starting as far above it as
    /// the reader has scrolled back.
    pub open spec fn in_view(self) -> Seq<Seq<char>> {
        let top = self.scrolled.len() - self.offset;
        self.history().subrange(top, top + self.live.len())
    }

    /// What the view shows, as one text.
    pub open spec fn text(self) -> Seq<char> {
        self.texts[self.offset]
    }

    /// What the view shows, with the escape sequences that draw it.
    pub open spec fn ansi(self) -> Seq<u8> {
        self.drawings[self.offset]
    }

    /// The cells of the view, by row and column.
    pub open spec fn cells(self) -> Map<(int, int), CellModel> {
        self.grids[self.offset]
    }

    /// The same screen with its view scrolled back by so many rows, or to the
    /// oldest row where there are not so many.
    pub open spec fn scrolled_to(self, rows: nat) -> ScreenModel {
        ScreenModel {
            offset: if rows < self.scrolled.len() {
                rows
            } else {
                self.scrolled.len()
            },
            ..self
        }
    }

    /// Whether the view can be drawn with escape sequences: it has columns, it is not
    /// scrolled back to rows that may have been written while there were none, and a
    /// single column does not hold the right half of a double-width character, of
    /// which the left half is then looked for before the first column.
    pub open spec fn has_ansi(self) -> bool {
        &&& 1 <= self.cols
        &&& self.offset == 0
        &&& self.cols == 1 ==> forall|row: u16| !#[trigger] self.starts_halved(row)
    }

    /// Whether a row of the view starts with the right half of a double-width
    /// character.
    pub open spec fn starts_halved(self, row: u16) -> bool {
        &&& row < self.live.len()
        &&& self.cells().contains_key((row as int, 0))
        &&& self.cells()[(row as int, 0)].continuation
    }
}

// ---- Emulators --------------------------------------------------------------

/// What an emulator is given.
pub enum Input {
    /// Output of the program, in one piece.
    Output(Seq<u8>),
    /// A new number of rows and of columns.
    Size(u16, u16),
}

/// All that an emulator has been given.
#[verifier::ext_equal]
pub struct Run {
    /// The number of rows at the start.
    pub rows: u16,
    /// The number of columns at the start.
    pub cols: u16,
    /// How many of the rows that scroll off the top are kept.
    pub kept: nat,
    /// What it has been given since, in order.
    pub inputs: Seq<Input>,
}

/// The sizes at which an emulator takes any output: a full last row can scroll up,
/// the widest character (three columns) fits, and the column behind the last tab
/// stop can be counted with 16 bits.
pub open spec fn roomy(rows: u16, cols: u16) -> bool {
    2 <= rows && 3 <= cols <= 0xfff7
}

impl Run {
    /// The run with one more input.
    pub open spec fn given(self, input: Input) -> Run {
        Run { inputs: self.inputs.push(input), ..self }
    }

    /// Rows and columns now.
    pub open spec fn size(self) -> (u16, u16)
        decreases self.inputs.len(),
    {
        if self.inputs.len() == 0 {
            (self.rows, self.cols)
        } else {
            match self.inputs.last() {
                Input::Output(_) => Run { inputs: self.inputs.drop_last(), ..self }.size(),
                Input::Size(rows, cols) => (rows, cols),
            }
        }
    }

    /// All output so far.
    pub open spec fn output(self) -> Seq<u8>
        decreases self.inputs.len(),
    {
        if self.inputs.len() == 0 {
            Seq::empty()
        } else {
            let before = Run { inputs: self.inputs.drop_last(), ..self }.output();
            match self.inputs.last() {
                Input::Output(bytes) => before + bytes,
                Input::Size(_, _) => before,
            }
        }
    }

    /// Whether all output so far is made of characters that take at most one column.
    pub open spec fn plain(self) -> bool {
        narrow(self.output())
    }

    /// Whether the emulator takes any output now: its sizes have been roomy, and it
    /// has never become narrower while it may hold a double-width character, which
    /// that can cut in two.
    pub open spec fn takes_output(self) -> bool
        decreases self.inputs.len(),
    {
        if self.inputs.len() == 0 {
            roomy(self.rows, self.cols)
        } else {
            let before = Run { inputs: self.inputs.drop_last(), ..self };
            before.takes_output() && match self.inputs.last() {
                Input::Output(_) => true,
                Input::Size(rows, cols) => roomy(rows, cols) && (before.size().1 <= cols
                    || before.plain()),
            }
        }
    }
}

/// The code points of three bytes or less among which all characters are that take
/// more than one column.
pub open spec fn wide(c: int) -> bool {
    ||| 0x1100 <= c <= 0x115f
    ||| c == 0x17a4
    ||| c == 0x17d8
    ||| 0x231a <= c <= 0x231b
    ||| 0x2329 <= c <= 0x232a
    ||| 0x23e9 <= c <= 0x23f3
    ||| 0x25fd <= c <= 0x25fe
    ||| 0x2614 <= c <= 0x2615
    ||| 0x2630 <= c <= 0x2637
    ||| 0x2648 <= c <= 0x2653
    ||| 0x267f <= c <= 0x26fd
    ||| 0x2705 <= c <= 0x270b
    ||| c == 0x2728
    ||| 0x274c <= c <= 0x2757
    ||| 0x2795 <= c <= 0x2797
    ||| 0x27b0 <= c <= 0x27bf
    ||| 0x2b1b <= c <= 0x2b1c
    ||| 0x2b50 <= c <= 0x2b55
    ||| 0x2e80 <= c <= 0xa4c6
    ||| 0xa960 <= c <= 0xa97c
    ||| 0xac00 <= c <= 0xd7a3
    ||| 0xf900 <= c <= 0xfaff
    ||| 0xfe10 <= c <= 0xfe6b
    ||| 0xff01 <= c <= 0xff60
    ||| 0xffe0 <= c <= 0xffe6
}

/// The code point that three bytes of UTF-8 encode.
pub open spec fn code_point(a: u8, b: u8, c: u8) -> int {
    0x1000 * (a - 0xe0) + 0x40 * (b - 0x80) + (c - 0x80)
}

/// Whether a character that may take more than one column is encoded in a byte
/// string from some byte on: any of four bytes, and the wide ones of three.
pub open spec fn wide_at(bytes: Seq<u8>, i: int) -> bool {
    ||| 0xf0 <= bytes[i]
    ||| {
        &&& i + 2 < bytes.len()
        &&& 0xe1 <= bytes[i]
        &&& 0x80 <= bytes[i + 1] <= 0xbf
        &&& 0x80 <= bytes[i + 2] <= 0xbf
        &&& wide(code_point(bytes[i], bytes[i + 1], bytes[i + 2]))
    }
}

/// Output whose characters take at most one column each.
pub open spec fn narrow(bytes: Seq<u8>) -> bool {
    forall|i: int| 0 <= i < bytes.len() ==> !#[trigger] wide_at(bytes, i)
}

/// The last two bytes, or all where there are not so many.
pub open spec fn last_two(bytes: Seq<u8>) -> Seq<u8> {
    if bytes.len() <= 2 {
        bytes
    } else {
        bytes.skip(bytes.len() - 2)
    }
}

/// Whether output is narrow shows where its parts are and where they meet.
proof fn lemma_narrow_parts(a: Seq<u8>, b: Seq<u8>)
    ensures
        narrow(a + b) == (narrow(a) && narrow(last_two(a) + b)),
        last_two(a + b) == last_two(last_two(a) + b),
{
    let all = a + b;
    let seam = last_two(a) + b;
    let cut = a.len() - last_two(a).len();
    assert(last_two(all) =~= last_two(seam));
    assert(seam =~= all.skip(cut));
    if narrow(all) {
        assert forall|i: int| 0 <= i < a.len() implies !#[trigger] wide_at(a, i) by {
            assert(!wide_at(all, i));
        }
        assert forall|i: int| 0 <= i < seam.len() implies !#[trigger] wide_at(seam, i) by {
            assert(!wide_at(all, i + cut));
        }
    }
    if narrow(a) && narrow(seam) {
        assert forall|i: int| 0 <= i < all.len() implies !#[trigger] wide_at(all, i) by {
            if i < cut {
                assert(!wide_at(a, i));
            } else {
                assert(!wide_at(seam, i - cut));
            }
        }
    }
}

fn is_wide(c: u32) -> (b: bool)
    ensures
        b == wide(c as int),
{
    (0x1100 <= c && c <= 0x115f) || c == 0x17a4 || c == 0x17d8 || (0x231a <= c && c <= 0x231b) || (
    0x2329 <= c && c <= 0x232a) || (0x23e9 <= c && c <= 0x23f3) || (0x25fd <= c && c <= 0x25fe) || (
    0x2614 <= c && c <= 0x2615) || (0x2630 <= c && c <= 0x2637) || (0x2648 <= c && c <= 0x2653) || (
    0x267f <= c && c <= 0x26fd) || (0x2705 <= c && c <= 0x270b) || c == 0x2728 || (0x274c <= c && c
        <= 0x2757) || (0x2795 <= c && c <= 0x2797) || (0x27b0 <= c && c <= 0x27bf) || (0x2b1b <= c
        && c <= 0x2b1c) || (0x2b50 <= c && c <= 0x2b55) || (0x2e80 <= c && c <= 0xa4c6) || (0xa960
        <= c && c <= 0xa97c) || (0xac00 <= c && c <= 0xd7a3) || (0xf900 <= c && c <= 0xfaff) || (
    0xfe10 <= c && c <= 0xfe6b) || (0xff01 <= c && c <= 0xff60) || (0xffe0 <= c && c <= 0xffe6)
}

fn is_narrow(bytes: &Vec<u8>) -> (b: bool)
    ensures
        b == narrow(bytes@),
{
    let mut i: usize = 0;
    while i < bytes.len()
        invariant
            i <= bytes@.len(),
            forall|j: int| 0 <= j < i ==> !#[trigger] wide_at(bytes@, j),
        decreases bytes.len() - i,
    {
        let lead = bytes[i];
        if lead >= 0xf0 {
            assert(wide_at(bytes@, i as int));
            return false;
        }
        if lead >= 0xe1 && bytes.len() - i > 2 {
            let b = bytes[i + 1];
            let c = bytes[i + 2];
            if 0x80 <= b && b <= 0xbf && 0x80 <= c && c <= 0xbf && is_wide(
                0x1000 * (lead as u32 - 0xe0) + 0x40 * (b as u32 - 0x80) + (c as u32 - 0x80),
            ) {
                assert(wide_at(bytes@, i as int));
                return false;
            }
        }
        i += 1;
    }
    true
}

/// Follows output and tells whether all of its characters take at most one column.
pub struct WidthWatch {
    narrow: bool,
    tail: Vec<u8>,
}

impl WidthWatch {
    /// Whether that is the output so far.
    pub closed spec fn has_seen(&self, output: Seq<u8>) -> bool {
        self.narrow == narrow(output) && self.tail@ == last_two(output)
    }

    pub(crate) fn new() -> (w: Self)
        ensures
            w.has_seen(Seq::empty()),
    {
        let tail: Vec<u8> = Vec::new();
        assert(tail@ =~= last_two(Seq::empty()));
        WidthWatch { narrow: true, tail }
    }

    /// Takes more output.
    pub(crate) fn see(&mut self, bytes: &[u8])
        ensures
            forall|output: Seq<u8>| #[trigger]
                old(self).has_seen(output) ==> final(self).has_seen(output + bytes@),
    {
        let ghost before = *self;
        let mut seam: Vec<u8> = Vec::new();
        std::mem::swap(&mut seam, &mut self.tail);
        seam.extend_from_slice(bytes);
        assert(seam@ =~= before.tail@ + bytes@);
        self.narrow = self.narrow && is_narrow(&seam);
        let from: usize = if seam.len() <= 2 {
            0
        } else {
            seam.len() - 2
        };
        let end = vstd::slice::slice_subrange(seam.as_slice(), from, seam.len());
        assert(end@ =~= last_two(seam@));
        self.tail = vstd::slice::slice_to_vec(end);
        proof {
            assert forall|output: Seq<u8>| #[trigger] before.has_seen(output) implies self.has_seen(
                output + bytes@,
            ) by {
                lemma_narrow_parts(output, bytes@);
            }
        }
    }

    /// Whether all characters so far take at most one column.
    pub(crate) fn is_narrow(&self) -> (b: bool)
        ensures
            forall|output: Seq<u8>| #[trigger] self.has_seen(output) ==> b == narrow(output),
    {
        self.narrow
    }
}

/// What is known of a run with one more input.
pub(crate) proof fn given_properties(run: Run, input: Input)
    ensures
        run.given(input).size() == (match input {
            Input::Output(_) => run.size(),
            Input::Size(rows, cols) => (rows, cols),
        }),
        run.given(input).output() == (match input {
            Input::Output(bytes) => run.output() + bytes,
            Input::Size(_, _) => run.output(),
        }),
        run.given(input).takes_output() == (run.takes_output() && match input {
            Input::Output(_) => true,
            Input::Size(rows, cols) => roomy(rows, cols) && (run.size().1 <= cols
                || run.plain()),
        }),
{
    let more = run.given(input);
    assert(more.inputs.drop_last() =~= run.inputs);
    assert(Run { inputs: more.inputs.drop_last(), ..more } == run);
}

/// A `vt100::Parser` without callbacks: the terminal emulator of a session.
///
/// The parser is public for a program that goes on feeding an emulator that may no
/// longer take every output.
#[verifier::external_body]
pub struct Emulator {
    pub parser: vt100::Parser,
}

/// All that an emulator has been given.
pub uninterp spec fn emulator_run(e: Emulator) -> Run;

/// What the screen of an emulator holds.
pub uninterp spec fn emulator_screen(e: Emulator) -> ScreenModel;

/// The screen that an emulator makes of what it has been given.
pub uninterp spec fn emulated(run: Run) -> ScreenModel;

/// Whether a screen has the size that the emulator was last given, shows the live
/// rows, and keeps no more of the others than it may.
pub open spec fn sized(m: ScreenModel, run: Run) -> bool {
    &&& m.live.len() == run.size().0
    &&& m.cols == run.size().1
    &&& m.offset == 0
    &&& m.scrolled.len() <= run.kept
}

/// `Parser::new`: an emulator of that size that has been given nothing. The last row
/// is counted from the number of rows, so there must be one.
#[verifier::external_body]
pub(crate) fn start(rows: u16, cols: u16, kept: usize) -> (e: Emulator)
    requires
        1 <= rows,
    ensures
        emulator_run(e) == (Run { rows, cols, kept: kept as nat, inputs: Seq::empty() }),
        emulator_screen(e) == emulated(emulator_run(e)),
        sized(emulator_screen(e), emulator_run(e)),
{
    Emulator { parser: vt100::Parser::new(rows, cols, kept) }
}

/// `Parser::process`: gives the emulator a piece of output. What the screen then
/// holds follows from all that the emulator has been given; the size stays, and the
/// view stays at the live rows.
///
/// It panics on some output where the screen has less than two rows (a full last row
/// scrolls up by one) or three columns (U+17D8 takes three), where a tab from the
/// column behind the last leads past what 16 bits can count, and where a double-width
/// character has been cut in two by a smaller width, on the screen or on the one that
/// is not shown.
///
/// A character is printed only where its UTF-8 encoding stands in the output, all
/// chunks joined. How many columns it takes is decided by the table of the crate
/// `unicode-width`, in which every character of three bytes or less that takes more
/// than one lies within the ranges of [`wide`].
#[verifier::external_body]
pub(crate) fn process(e: &mut Emulator, bytes: &[u8])
    requires
        emulator_run(*old(e)).takes_output(),
        emulator_screen(*old(e)) == emulated(emulator_run(*old(e))),
        emulator_screen(*old(e)).offset == 0,
    ensures
        emulator_run(*final(e)) == emulator_run(*old(e)).given(Input::Output(bytes@)),
        emulator_screen(*final(e)) == emulated(emulator_run(*final(e))),
        sized(emulator_screen(*final(e)), emulator_run(*final(e))),
{
    e.parser.process(bytes);
}

/// `Screen::set_size` of the emulator's screen: gives the emulator a new size. The
/// last row and the last column are counted from the numbers, old and new, so there
/// must be one of each. What the screen holds still follows from all that the
/// emulator has been given, if it did.
#[verifier::external_body]
pub(crate) fn set_size(e: &mut Emulator, rows: u16, cols: u16)
    requires
        1 <= rows,
        1 <= cols,
        1 <= emulator_screen(*old(e)).live.len(),
    ensures
        emulator_run(*final(e)) == emulator_run(*old(e)).given(Input::Size(rows, cols)),
        emulator_screen(*old(e)).offset == 0 && emulator_screen(*old(e)) == emulated(
            emulator_run(*old(e)),
        ) ==> emulator_screen(*final(e)) == emulated(emulator_run(*final(e))),
        emulator_screen(*final(e)).live.len() == rows,
        emulator_screen(*final(e)).cols == cols,
        emulator_screen(*final(e)).offset == emulator_screen(*old(e)).offset,
        emulator_screen(*final(e)).scrolled.len() == emulator_screen(*old(e)).scrolled.len(),
{
    e.parser.screen_mut().set_size(rows, cols);
}

/// `Screen::set_scrollback` of the emulator's screen: scrolls the view back by so
/// many rows, or to the oldest row where there are not so many. What the screen holds
/// stays. The rows that have scrolled off are held in memory, so their number fits a
/// `usize`.
#[verifier::external_body]
pub(crate) fn set_scrollback(e: &mut Emulator, rows: usize)
    ensures
        emulator_run(*final(e)) == emulator_run(*old(e)),
        emulator_screen(*final(e)) == emulator_screen(*old(e)).scrolled_to(rows as nat),
        emulator_screen(*final(e)).scrolled.len() <= usize::MAX,
{
    e.parser.screen_mut().set_scrollback(rows);
}

/// `Parser::screen`: the emulator's screen.
#[verifier::external_body]
pub(crate) fn screen_of(e: &Emulator) -> (s: &vt100::Screen)
    ensures
        screen_model(*s) == emulator_screen(*e),
{
    e.parser.screen()
}

// ---- Screens ----------------------------------------------------------------

/// `Screen::size`: the number of rows of the screen and its width.
#[verifier::external_body]
pub(crate) fn size(screen: &vt100::Screen) -> (r: (u16, u16))
    ensures
        r.0 == screen_model(*screen).live.len(),
        r.1 == screen_model(*screen).cols,
{
    screen.size()
}

/// `Screen::cursor_position`: row and column of the cursor, from 0.
#[verifier::external_body]
pub(crate) fn cursor_position(screen: &vt100::Screen) -> (r: (u16, u16))
    ensures
        r.0 == screen_model(*screen).cursor_row,
        r.1 == screen_model(*screen).cursor_col,
{
    screen.cursor_position()
}

/// `Screen::hide_cursor`: whether the program has hidden the cursor.
#[verifier::external_body]
pub(crate) fn cursor_hidden(screen: &vt100::Screen) -> (r: bool)
    ensures
        r == screen_model(*screen).cursor_hidden,
{
    screen.hide_cursor()
}

/// `Screen::contents`: the view as plain text. The columns are counted with 16 bits,
/// up to the one behind the last: a double-width character is only ever written, and
/// only ever kept by an insertion, where another column is to its right.
#[verifier::external_body]
pub(crate) fn contents(screen: &vt100::Screen) -> (r: String)
    ensures
        r@ == screen_model(*screen).text(),
{
    screen.contents()
}

/// `Screen::contents_formatted`: the view with the escape sequences that draw it.
#[verifier::external_body]
pub(crate) fn contents_formatted(screen: &vt100::Screen) -> (r: Vec<u8>)
    requires
        screen_model(*screen).has_ansi(),
    ensures
        r@ == screen_model(*screen).ansi(),
{
    screen.contents_formatted()
}

/// `Screen::scrollback`: how many rows the reader has scrolled back.
#[verifier::external_body]
pub(crate) fn scrollback(screen: &vt100::Screen) -> (r: usize)
    ensures
        r == screen_model(*screen).offset,
{
    screen.scrollback()
}

/// `Screen::rows` over the whole width: the text of each row in view.
#[verifier::external_body]
pub(crate) fn row_texts(screen: &vt100::Screen, cols: u16) -> (r: Vec<String>)
    requires
        cols == screen_model(*screen).cols,
    ensures
        text::views(r@) == screen_model(*screen).in_view(),
{
    screen.rows(0, cols).collect()
}

/// `Screen::cell`, with what the cell's `contents`, `fgcolor`, `bgcolor`, `inverse`
/// and `is_wide_continuation` say of it.
#[verifier::external_body]
pub(crate) fn cell_at(screen: &vt100::Screen, row: u16, col: u16) -> (r: Option<Cell>)
    ensures
        r is Some <==> screen_model(*screen).cells().contains_key((row as int, col as int)),
        r is Some ==> r->0@ == screen_model(*screen).cells()[(row as int, col as int)],
{
    let cell = screen.cell(row, col)?;
    let fg = match cell.fgcolor() {
        vt100::Color::Default => Color::Default,
        vt100::Color::Idx(i) => Color::Idx(i),
        vt100::Color::Rgb(r, g, b) => Color::Rgb(r, g, b),
    };
    let bg = match cell.bgcolor() {
        vt100::Color::Default => Color::Default,
        vt100::Color::Idx(i) => Color::Idx(i),
        vt100::Color::Rgb(r, g, b) => Color::Rgb(r, g, b),
    };
    let text = cell.contents().to_string();
    let continuation = cell.is_wide_continuation();
    Some(Cell { text, fg, bg, inverse: cell.inverse(), continuation })
}

// ---- Laws -------------------------------------------------------------------

/// The three bytes that encode a character from U+1000 to U+FFFF.
pub open spec fn three_bytes(c: int) -> Seq<u8> {
    seq![(0xe0 + c / 0x1000) as u8, (0x80 + c / 0x40 % 0x40) as u8, (0x80 + c % 0x40) as u8]
}

/// A character that takes more than one column is noticed wherever it stands in the output:
/// any that is encoded in four bytes, and of those encoded in three the ones in the ranges of
/// wide characters, Hangul, ideographs, full-width forms and symbols.
pub proof fn wide_characters_are_noticed(
    before: Seq<u8>,
    after: Seq<u8>,
    lead: u8,
    c: int,
    k: int,
)
    requires
        0x1000 <= c <= 0xffff,
    ensures
        lead >= 0xf0 ==> !narrow(before + seq![lead] + after),
        ({
            let ranges = seq![
                (0x1100int, 0x115fint),
                (0x17a4, 0x17a4),
                (0x17d8, 0x17d8),
                (0x231a, 0x231b),
                (0x2329, 0x232a),
                (0x23e9, 0x23f3),
                (0x25fd, 0x25fe),
                (0x2614, 0x2615),
                (0x2630, 0x2637),
                (0x2648, 0x2653),
                (0x267f, 0x26fd),
                (0x2705, 0x270b),
                (0x2728, 0x2728),
                (0x274c, 0x2757),
                (0x2795, 0x2797),
                (0x27b0, 0x27bf),
                (0x2b1b, 0x2b1c),
                (0x2b50, 0x2b55),
                (0x2e80, 0xa4c6),
                (0xa960, 0xa97c),
                (0xac00, 0xd7a3),
                (0xf900, 0xfaff),
                (0xfe10, 0xfe6b),
                (0xff01, 0xff60),
                (0xffe0, 0xffe6),
            ];
            0 <= k < ranges.len() && ranges[k].0 <= c <= ranges[k].1 ==> !narrow(
                before + three_bytes(c) + after,
            )
        }),
{
    if lead >= 0xf0 {
        let all = before + seq![lead] + after;
        let at = before.len() as int;
        assert(all[at] == lead);
        assert(wide_at(all, at));
    }
    let all = before + three_bytes(c) + after;
    let at = before.len() as int;
    lemma_three_bytes(c);
    assert(all[at] == three_bytes(c)[0]);
    assert(all[at + 1] == three_bytes(c)[1]);
    assert(all[at + 2] == three_bytes(c)[2]);
    if wide(c) {
        assert(wide_at(all, at));
    }
}

proof fn lemma_three_bytes(c: int)
    requires
        0x1000 <= c <= 0xffff,
    ensures
        0xe1 <= three_bytes(c)[0] <= 0xef,
        0x80 <= three_bytes(c)[1] <= 0xbf,
        0x80 <= three_bytes(c)[2] <= 0xbf,
        code_point(three_bytes(c)[0], three_bytes(c)[1], three_bytes(c)[2]) == c,
{
    assert(c == 0x1000 * (c / 0x1000) + 0x40 * (c / 0x40 % 0x40) + c % 0x40) by {
        assert(c / 0x40 / 0x40 == c / 0x1000);
    }
}

/// Output without a wide character is not taken for wide: what is written in Latin, Greek or
/// Cyrillic letters, that is with characters of one or two bytes, and the lines and blocks
/// that boxes are drawn with.
pub proof fn ordinary_output_is_narrow(bytes: Seq<u8>, c: int)
    requires
        forall|i: int| 0 <= i < bytes.len() ==> #[trigger] bytes[i] < 0xe0,
        0x2500 <= c <= 0x25fc,
    ensures
        narrow(bytes),
        narrow(bytes + three_bytes(c)),
        narrow(three_bytes(c) + bytes),
{
    lemma_three_bytes(c);
    let a = bytes + three_bytes(c);
    let b = three_bytes(c) + bytes;
    let n = bytes.len() as int;
    assert forall|i: int| 0 <= i < a.len() implies !#[trigger] wide_at(a, i) by {
        if i < n {
            assert(a[i] == bytes[i]);
        } else if i == n {
            assert(a[i + 1] == three_bytes(c)[1] && a[i + 2] == three_bytes(c)[2]);
            assert(a[i] == three_bytes(c)[0]);
        } else {
            assert(a[i] == three_bytes(c)[i - n]);
        }
    }
    assert forall|i: int| 0 <= i < b.len() implies !#[trigger] wide_at(b, i) by {
        if i == 0 {
            assert(b[i + 1] == three_bytes(c)[1] && b[i + 2] == three_bytes(c)[2]);
            assert(b[i] == three_bytes(c)[0]);
        } else if i < 3 {
            assert(b[i] == three_bytes(c)[i]);
        } else {
            assert(b[i] == bytes[i - 3]);
        }
    }
}

/// Which terminals take output: those of at least two rows and three columns, and at most
/// 65527 of these, that have never been of another size, nor become narrower after output
/// with a wide character.
pub proof fn terminals_that_take_output(run: Run, rows: u16, cols: u16, bytes: Seq<u8>)
    ensures
        run.inputs.len() == 0 ==> (run.takes_output() <==> 2 <= run.rows && 3 <= run.cols
            <= 65527),
        run.given(Input::Output(bytes)).takes_output() <==> run.takes_output(),
        run.given(Input::Size(rows, cols)).takes_output() <==> run.takes_output() && 2 <= rows && 3
            <= cols <= 65527 && (run.size().1 <= cols || narrow(run.output())),
        run.inputs.len() == 0 ==> run.size() == (run.rows, run.cols) && run.output().len() == 0,
        run.given(Input::Output(bytes)).size() == run.size(),
        run.given(Input::Size(rows, cols)).size() == (rows, cols),
        run.given(Input::Output(bytes)).output() == run.output() + bytes,
        run.given(Input::Size(rows, cols)).output() == run.output(),
        run.given(Input::Output(bytes)).inputs == run.inputs.push(Input::Output(bytes)),
        run.given(Input::Size(rows, cols)).inputs == run.inputs.push(Input::Size(rows, cols)),
{
    given_properties(run, Input::Output(bytes));
    given_properties(run, Input::Size(rows, cols));
}

/// All rows in order: those that have scrolled off first, the oldest of them at the start,
/// and behind them those of the screen. The view has as many as the screen, and scrolled
/// back by so many rows it starts that far above it.
pub proof fn views_are_windows_of_the_history(m: ScreenModel, rows: nat, i: int)
    ensures
        m.history().len() == m.scrolled.len() + m.live.len(),
        0 <= i < m.scrolled.len() ==> m.history()[i] == m.scrolled[i],
        0 <= i < m.live.len() ==> m.history()[m.scrolled.len() + i] == m.live[i],
        rows <= m.scrolled.len() ==> m.scrolled_to(rows).offset == rows,
        rows > m.scrolled.len() ==> m.scrolled_to(rows).offset == m.scrolled.len(),
        m.scrolled_to(rows).history() == m.history(),
        m.scrolled_to(rows).live == m.live,
        m.scrolled_to(0).in_view() == m.live,
        rows <= m.scrolled.len() && 0 <= i < m.live.len() ==> m.scrolled_to(rows).in_view()[i]
            == m.history()[m.scrolled.len() - rows + i],
{
    assert(m.scrolled_to(0).in_view() =~= m.live);
}

/// Which views can be drawn: those at the live rows of a screen with two columns or more,
/// and with one column those that hold no half of a character.
pub proof fn views_that_can_be_drawn(m: ScreenModel, row: u16)
    ensures
        m.cols == 0 || m.offset > 0 ==> !m.has_ansi(),
        m.cols >= 2 && m.offset == 0 ==> m.has_ansi(),
        m.cols == 1 && row < m.live.len() && m.cells().contains_key((row as int, 0))
            && m.cells()[(row as int, 0)].continuation ==> !m.has_ansi(),
        m.cols == 1 && m.offset == 0 && (forall|r: u16|
            r < m.live.len() && m.cells().contains_key((r as int, 0)) ==> !(
            #[trigger] m.cells()[(r as int, 0)]).continuation) ==> m.has_ansi(),
{
    if m.cols == 1 && row < m.live.len() && m.cells().contains_key((row as int, 0))
        && m.cells()[(row as int, 0)].continuation {
        assert(m.starts_halved(row));
    }
}

} // verus!
