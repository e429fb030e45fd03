//! Sessions: a program that runs either under a real PTY (so it behaves as if
//! attached to a terminal, full TUI support) or with plain pipes (separate
//! stdout/stderr, no TTY).
//!
//! For PTY sessions the child's output is continuously parsed by a `vt100`
//! terminal emulator, so the on-screen grid can be queried as text at any time.
//! Whether the child toggles raw mode, switches to the alternate screen, exits
//! and restarts a child does not matter: bytes are fed to the emulator and the
//! resulting screen is read.
//!
//! What is kept here is the state of a session in memory, with the emulator of a
//! PTY session. The processes, the terminals and the threads that hand over their
//! output belong to the program around it.

use crate::canvas;
use crate::emulator;
use crate::emulator::Emulator;
use crate::emulator::WidthWatch;
use crate::error::SessionKind;
use crate::kitty;
use crate::kitty::KittyDetector;
use crate::render;
use crate::text;
use std::collections::HashMap;
use vstd::prelude::*;
use vstd::utf8::*;

verus! {

/// Options shared by both spawn modes.
pub struct SpawnOpts {
    pub command: String,
    pub args: Vec<String>,
    pub cwd: Option<String>,
    pub env: HashMap<String, String>,
    pub cols: u16,
    pub rows: u16,
    /// Per-stream output cap for piped sessions, in bytes (ring buffer).
    pub buffer_bytes: usize,
}

/// Number of scrollback lines retained by the terminal emulator (pty mode).
pub const PTY_SCROLLBACK_LINES: usize = 5000;

// ---- Stream buffers ---------------------------------------------------------

/// The least capacity of a stream buffer.
pub const MIN_STREAM_BYTES: usize = 4096;

/// What a stream buffer holds.
#[verifier::ext_equal]
pub struct StreamModel {
    pub data: Seq<u8>,
    pub dropped: nat,
    pub cap: nat,
}

/// A buffer after more output: it keeps the newest bytes up to its capacity and
/// counts the others.
pub open spec fn stream_pushed(m: StreamModel, bytes: Seq<u8>) -> StreamModel {
    let all = m.data + bytes;
    if all.len() > m.cap {
        let over = (all.len() - m.cap) as nat;
        StreamModel { data: all.skip(over as int), dropped: m.dropped + over, ..m }
    } else {
        StreamModel { data: all, ..m }
    }
}

/// What a reader of a buffer is told: the output, behind a notice where bytes
/// were dropped.
pub open spec fn stream_text(m: StreamModel) -> Seq<char> {
    if m.dropped > 0 {
        "[tui_mcp: "@ + text::dec(m.dropped)
            + " earlier byte(s) dropped. Output buffer capped at "@ + text::dec(m.cap)
            + " bytes, read more often with clear=true to avoid loss]\n"@ + text::utf8_lossy(m.data)
    } else {
        text::utf8_lossy(m.data)
    }
}

/// A bounded output buffer. When the accumulated data exceeds `cap`, the oldest
/// bytes are dropped and counted, so readers can be told data was lost rather
/// than silently receiving a truncated stream.
pub struct StreamBuf {
    data: Vec<u8>,
    dropped: u64,
    cap: usize,
}

impl View for StreamBuf {
    type V = StreamModel;

    closed spec fn view(&self) -> StreamModel {
        StreamModel { data: self.data@, dropped: self.dropped as nat, cap: self.cap as nat }
    }
}

impl StreamBuf {
    /// The data fits the capacity, and the capacity is not too small.
    pub open spec fn wf(&self) -> bool {
        self@.data.len() <= self@.cap && MIN_STREAM_BYTES <= self@.cap <= usize::MAX
            && self@.dropped <= u64::MAX
    }

    pub fn new(cap: usize) -> (b: Self)
        ensures
            b.wf(),
            b@ == (StreamModel {
                data: Seq::empty(),
                dropped: 0,
                cap: if cap < MIN_STREAM_BYTES {
                    MIN_STREAM_BYTES as nat
                } else {
                    cap as nat
                },
            }),
    {
        StreamBuf {
            data: Vec::new(),
            dropped: 0,
            cap: if cap < MIN_STREAM_BYTES {
                MIN_STREAM_BYTES
            } else {
                cap
            },
        }
    }

    /// How many bytes have been dropped so far.
    pub fn dropped(&self) -> (n: u64)
        ensures
            n == self@.dropped,
    {
        self.dropped
    }

    /// Adds output. The count of dropped bytes must not exceed 64 bits.
    pub fn push(&mut self, bytes: &[u8])
        requires
            old(self).wf(),
            old(self)@.dropped + bytes@.len() <= u64::MAX,
        ensures
            final(self).wf(),
            final(self)@ == stream_pushed(old(self)@, bytes@),
    {
        let ghost all = self.data@ + bytes@;
        self.data.extend_from_slice(bytes);
        assert(self.data@ =~= all);
        if self.data.len() > self.cap {
            let overflow: usize = self.data.len() - self.cap;
            let kept = vstd::slice::slice_subrange(self.data.as_slice(), overflow, self.data.len());
            assert(kept@ =~= all.skip(overflow as int));
            self.data = vstd::slice::slice_to_vec(kept);
            self.dropped = self.dropped + overflow as u64;
        }
    }

    /// The output so far; with `clear` the buffer is emptied, and what was
    /// dropped stays counted.
    pub fn read(&mut self, clear: bool) -> (s: String)
        requires
            old(self).wf(),
        ensures
            final(self).wf(),
            s@ == stream_text(old(self)@),
            final(self)@ == (if clear {
                StreamModel { data: Seq::empty(), ..old(self)@ }
            } else {
                old(self)@
            }),
    {
        let data = text::from_utf8_lossy(self.data.as_slice());
        let mut s = String::new();
        if self.dropped > 0 {
            // Tell the caller the stream overflowed so it isn't mistaken for the
            // program's real, complete output.
            s.append("[tui_mcp: ");
            text::push_dec(&mut s, self.dropped);
            s.append(" earlier byte(s) dropped. Output buffer capped at ");
            text::push_dec(&mut s, self.cap as u64);
            s.append(" bytes, read more often with clear=true to avoid loss]\n");
        }
        s.append(data.as_str());
        assert(s@ =~= stream_text(self@));
        if clear {
            self.data.clear();
        }
        s
    }
}

// ---- Screens ----------------------------------------------------------------

/// A snapshot of a PTY screen.
pub struct ScreenDump {
    pub text: String,
    pub cursor_row: u16,
    pub cursor_col: u16,
    pub cursor_hidden: bool,
    pub rows: u16,
    pub cols: u16,
}

#[derive(Clone, Copy, Debug, PartialEq, Eq, Structural)]
pub enum ScreenFormat {
    Text,
    Ansi,
}

/// A screen dump as a human-readable block with a status line. Size is width x
/// height. Cursor is x (column) and y (row), both 0-based.
pub open spec fn dump_text(d: ScreenDump) -> Seq<char> {
    "[size "@ + text::dec(d.cols as nat) + "W x "@ + text::dec(d.rows as nat) + "H] cursor=(x"@
        + text::dec(d.cursor_col as nat) + ", y"@ + text::dec(d.cursor_row as nat) + ")"@ + (
    if d.cursor_hidden {
        " hidden"@
    } else {
        ""@
    }) + "\n"@ + d.text@
}

impl ScreenDump {
    /// The dump as a block of text with a status line.
    pub fn render(&self) -> (s: String)
        ensures
            s@ == dump_text(*self),
    {
        let mut s = String::new();
        s.append("[size ");
        text::push_dec(&mut s, self.cols as u64);
        s.append("W x ");
        text::push_dec(&mut s, self.rows as u64);
        s.append("H] cursor=(x");
        text::push_dec(&mut s, self.cursor_col as u64);
        s.append(", y");
        text::push_dec(&mut s, self.cursor_row as u64);
        s.append(")");
        if self.cursor_hidden {
            s.append(" hidden");
        } else {
            s.append("");
        }
        s.append("\n");
        s.append(self.text.as_str());
        assert(s@ =~= dump_text(*self));
        s
    }
}

/// Whether a dump is the snapshot of a screen in a format.
pub open spec fn shows(d: ScreenDump, m: emulator::ScreenModel, format: ScreenFormat) -> bool {
    &&& d.text@ == match format {
        ScreenFormat::Text => m.text(),
        ScreenFormat::Ansi => text::utf8_lossy(m.ansi()),
    }
    &&& d.cursor_row == m.cursor_row
    &&& d.cursor_col == m.cursor_col
    &&& d.cursor_hidden == m.cursor_hidden
    &&& d.rows == m.live.len()
    &&& d.cols == m.cols
}

/// The rows without the blank ones at the end.
pub open spec fn without_blank_end(lines: Seq<Seq<char>>) -> Seq<Seq<char>>
    decreases lines.len(),
{
    if lines.len() > 0 && text::blank(lines.last()) {
        without_blank_end(lines.drop_last())
    } else {
        lines
    }
}

// ---- Command lines ----------------------------------------------------------

/// An argument as it is shown: in quotes where it is empty or has whitespace.
pub open spec fn shown_arg(arg: Seq<char>) -> Seq<char> {
    if arg.len() == 0 || text::has_whitespace(arg) {
        "\""@ + arg + "\""@
    } else {
        arg
    }
}

/// A command and its first `n` arguments, separated by spaces.
pub open spec fn shown_command(command: Seq<char>, args: Seq<Seq<char>>, n: nat) -> Seq<char>
    decreases n,
{
    if n == 0 {
        command
    } else {
        shown_command(command, args, (n - 1) as nat) + " "@ + shown_arg(args[n - 1])
    }
}

/// The command line of a session.
pub open spec fn cmdline_of(opts: SpawnOpts) -> Seq<char> {
    shown_command(opts.command@, text::views(opts.args@), opts.args@.len())
}

/// The directory that a session runs in: the one asked for, else the server's
/// own, else `.`.
pub open spec fn cwd_of(opts: SpawnOpts, current: Option<Seq<char>>) -> Seq<char> {
    match (opts.cwd, current) {
        (Some(dir), _) => dir@,
        (None, Some(dir)) => dir,
        (None, None) => "."@,
    }
}

/// The view of an optional string.
pub open spec fn opt_view(s: Option<String>) -> Option<Seq<char>> {
    match s {
        Some(s) => Some(s@),
        None => None,
    }
}

/// Human-readable command line for display, e.g. `vim -u NONE "my file.txt"`.
pub fn format_cmdline(opts: &SpawnOpts) -> (r: String)
    ensures
        r@ == cmdline_of(*opts),
{
    let ghost args = text::views(opts.args@);
    let mut out = opts.command.clone();
    let mut i: usize = 0;
    while i < opts.args.len()
        invariant
            i <= opts.args@.len(),
            args == text::views(opts.args@),
            out@ == shown_command(opts.command@, args, i as nat),
        decreases opts.args.len() - i,
    {
        let ghost before = out@;
        let arg = opts.args[i].as_str();
        assert(args[i as int] == arg@);
        out.append(" ");
        let chars = text::chars_of(arg);
        if chars.len() == 0 || text::any_whitespace(arg) {
            out.append("\"");
            out.append(arg);
            out.append("\"");
        } else {
            out.append(arg);
        }
        assert(out@ =~= before + " "@ + shown_arg(args[i as int]));
        i += 1;
    }
    out
}

/// The working directory the child will actually run in: the explicit `cwd` if
/// given, otherwise the server's current directory (so it can be reproduced).
pub fn resolve_cwd(opts: &SpawnOpts, current_dir: Option<String>) -> (r: String)
    ensures
        r@ == cwd_of(*opts, opt_view(current_dir)),
{
    match &opts.cwd {
        Some(dir) => dir.clone(),
        None => match current_dir {
            Some(dir) => dir,
            None => ".".to_string(),
        },
    }
}

// ---- Cursor reports ---------------------------------------------------------

/// A cursor position report: `CSI row;col R`, counted from 1.
pub open spec fn cursor_report(row: nat, col: nat) -> Seq<char> {
    "\x1b["@ + text::dec(row + 1) + ";"@ + text::dec(col + 1) + "R"@
}

/// The reply to a cursor-position report request (DSR `CSI 6 n`): the terminal
/// answers `CSI row;col R`, 1-based. `row`/`col` are the emulator's 0-based
/// cursor position.
pub fn cursor_position_report(row: u16, col: u16) -> (r: String)
    ensures
        r@ == cursor_report(row as nat, col as nat),
{
    let mut out = String::new();
    out.append("\x1b[");
    text::push_dec(&mut out, row as u64 + 1);
    out.append(";");
    text::push_dec(&mut out, col as u64 + 1);
    out.append("R");
    assert(out@ =~= cursor_report(row as nat, col as nat));
    out
}

// ---- PTY sessions -----------------------------------------------------------

/// A program under a pseudo terminal.
pub struct PtySession {
    cols: u16,
    rows: u16,
    cmdline: String,
    cwd: String,
    detector: KittyDetector,
    emulator: Emulator,
    /// The emulator takes any output.
    feeds: bool,
    /// What is known of the widths of the characters so far.
    widths: WidthWatch,
}

/// What came of a chunk of output.
pub struct Handled {
    /// What must be written back to the program.
    pub reply: Vec<u8>,
    /// The emulator has been given the chunk.
    pub fed: bool,
}

/// What is written back to a program for a chunk of its output: the answers to
/// its queries of the keyboard flags, and a cursor position report where it
/// asked for one.
pub open spec fn output_replies(
    m: kitty::InputModes,
    chunk: Seq<u8>,
    screen: emulator::ScreenModel,
) -> Seq<u8> {
    let (after, answers) = kitty::run(m, chunk);
    if after.cursor_request {
        answers + encode_utf8(cursor_report(screen.cursor_row, screen.cursor_col))
    } else {
        answers
    }
}

impl PtySession {
    pub closed spec fn wf(&self) -> bool {
        &&& self.detector.wf()
        &&& 1 <= emulator::emulator_screen(self.emulator).live.len()
        &&& self.feeds == emulator::emulator_run(self.emulator).takes_output()
        &&& self.feeds ==> {
            let run = emulator::emulator_run(self.emulator);
            &&& run.size() == (self.rows, self.cols)
            &&& self.widths.has_seen(run.output())
            &&& run.kept == PTY_SCROLLBACK_LINES
            &&& emulator::emulator_screen(self.emulator) == emulator::emulated(run)
            &&& emulator::sized(emulator::emulated(run), run)
        }
    }

    /// What the program has negotiated on its input.
    pub closed spec fn modes(&self) -> kitty::InputModes {
        self.detector@
    }

    pub closed spec fn shown_cmdline(&self) -> Seq<char> {
        self.cmdline@
    }

    pub closed spec fn shown_cwd(&self) -> Seq<char> {
        self.cwd@
    }

    /// Columns and rows of the terminal.
    pub closed spec fn dimensions(&self) -> (u16, u16) {
        (self.cols, self.rows)
    }

    pub closed spec fn emulator_held(&self) -> Emulator {
        self.emulator
    }

    /// Whether the session gives output to its emulator: not where the terminal has
    /// been too small, too wide for 16 bits, or made narrower after output with
    /// double-width characters. The emulator may then break down, and the program
    /// around the session has to feed it.
    pub open spec fn feeds(&self) -> bool {
        self.run().takes_output()
    }

    /// All that the emulator has been given.
    pub open spec fn run(&self) -> emulator::Run {
        emulator::emulator_run(self.emulator_held())
    }

    /// The screen.
    pub open spec fn shown(&self) -> emulator::ScreenModel {
        emulator::emulator_screen(self.emulator_held())
    }

    /// The state of a session that has just been started. The emulator needs a row.
    pub fn new(opts: &SpawnOpts, current_dir: Option<String>) -> (s: Self)
        requires
            1 <= opts.rows,
        ensures
            s.wf(),
            s.modes() == (kitty::InputModes {
                flags: 0,
                paste: false,
                cursor_request: false,
                scan: kitty::Scan::Ground,
            }),
            s.shown_cmdline() == cmdline_of(*opts),
            s.shown_cwd() == cwd_of(*opts, opt_view(current_dir)),
            s.dimensions() == (opts.cols, opts.rows),
            s.feeds() == emulator::roomy(opts.rows, opts.cols),
            s.run() == (emulator::Run {
                rows: opts.rows,
                cols: opts.cols,
                kept: PTY_SCROLLBACK_LINES as nat,
                inputs: Seq::empty(),
            }),
            s.shown() == emulator::emulated(s.run()),
    {
        PtySession {
            cols: opts.cols,
            rows: opts.rows,
            cmdline: format_cmdline(opts),
            cwd: resolve_cwd(opts, current_dir),
            detector: KittyDetector::new(0, false),
            emulator: emulator::start(opts.rows, opts.cols, PTY_SCROLLBACK_LINES),
            feeds: is_roomy(opts.rows, opts.cols),
            widths: WidthWatch::new(),
        }
    }

    /// Takes a chunk of output: notes what the program negotiates, says what must be
    /// written back to it, and gives the chunk to the emulator where the session
    /// feeds it.
    ///
    /// Without the cursor position report, ConPTY on Windows (created with
    /// `PSEUDOCONSOLE_INHERIT_CURSOR`) blocks at startup and no interactive
    /// program ever renders. The position is that before the chunk, so a request
    /// that arrives behind cursor movement in the same chunk is answered with the
    /// earlier position. That is exact for the ConPTY startup handshake, where
    /// the request is the first output.
    pub fn on_output(&mut self, chunk: &[u8]) -> (r: Handled)
        requires
            old(self).wf(),
        ensures
            final(self).wf(),
            r.reply@ == output_replies(old(self).modes(), chunk@, old(self).shown()),
            r.fed == old(self).feeds(),
            final(self).feeds() == old(self).feeds(),
            r.fed ==> final(self).run() == old(self).run().given(
                emulator::Input::Output(chunk@),
            ),
            r.fed ==> final(self).shown() == emulator::emulated(final(self).run()),
            !r.fed ==> final(self).emulator_held() == old(self).emulator_held(),
            final(self).modes() == (kitty::InputModes {
                cursor_request: false,
                ..kitty::run(old(self).modes(), chunk@).0
            }),
            final(self).shown_cmdline() == old(self).shown_cmdline(),
            final(self).shown_cwd() == old(self).shown_cwd(),
            final(self).dimensions() == old(self).dimensions(),
    {
        let mut reply = self.detector.feed(chunk);
        if self.detector.take_cursor_report_request() {
            let (row, col) = emulator::cursor_position(emulator::screen_of(&self.emulator));
            let report = text::bytes_of(cursor_position_report(row, col).as_str());
            reply.extend_from_slice(report.as_slice());
        }
        if self.feeds {
            proof {
                emulator::given_properties(self.run(), emulator::Input::Output(chunk@));
            }
            emulator::process(&mut self.emulator, chunk);
            self.widths.see(chunk);
        }
        Handled { reply, fed: self.feeds }
    }

    /// Current kitty keyboard-protocol flags (0 = legacy encoding).
    pub fn kitty_flags(&self) -> (f: u8)
        ensures
            f == self.modes().flags,
    {
        self.detector.flags()
    }

    /// Whether the program has enabled bracketed paste mode.
    pub fn paste_enabled(&self) -> (p: bool)
        ensures
            p == self.modes().paste,
    {
        self.detector.paste()
    }

    /// The kind of the session, and what its program has negotiated.
    pub open spec fn kind_of(&self) -> SessionKind {
        SessionKind::Pty { kitty_flags: self.modes().flags, paste: self.modes().paste }
    }

    pub fn kind(&self) -> (k: SessionKind)
        ensures
            k == self.kind_of(),
    {
        SessionKind::Pty { kitty_flags: self.kitty_flags(), paste: self.paste_enabled() }
    }

    pub fn cmdline(&self) -> (s: &str)
        ensures
            s@ == self.shown_cmdline(),
    {
        self.cmdline.as_str()
    }

    pub fn cwd(&self) -> (s: &str)
        ensures
            s@ == self.shown_cwd(),
    {
        self.cwd.as_str()
    }

    /// Gives the terminal new dimensions, and the emulator with it. It needs a row
    /// and a column.
    pub fn resize(&mut self, cols: u16, rows: u16)
        requires
            old(self).wf(),
            1 <= cols,
            1 <= rows,
        ensures
            final(self).wf(),
            final(self).dimensions() == (cols, rows),
            final(self).feeds() == (old(self).feeds() && emulator::roomy(rows, cols)
                && (old(self).dimensions().0 <= cols || old(self).run().plain())),
            final(self).run() == old(self).run().given(emulator::Input::Size(rows, cols)),
            old(self).feeds() ==> final(self).shown() == emulator::emulated(final(self).run()),
            final(self).shown().live.len() == rows,
            final(self).shown().cols == cols,
            final(self).shown().scrolled.len() == old(self).shown().scrolled.len(),
            final(self).modes() == old(self).modes(),
            final(self).shown_cmdline() == old(self).shown_cmdline(),
            final(self).shown_cwd() == old(self).shown_cwd(),
    {
        proof {
            emulator::given_properties(self.run(), emulator::Input::Size(rows, cols));
        }
        emulator::set_size(&mut self.emulator, rows, cols);
        self.feeds = self.feeds && is_roomy(rows, cols) && (self.cols <= cols
            || self.widths.is_narrow());
        self.cols = cols;
        self.rows = rows;
    }

    /// Columns and rows of the terminal.
    pub fn size(&self) -> (r: (u16, u16))
        ensures
            r == self.dimensions(),
    {
        (self.cols, self.rows)
    }

    /// The screen.
    pub fn screen(&self) -> (s: &vt100::Screen)
        ensures
            emulator::screen_model(*s) == self.shown(),
    {
        emulator::screen_of(&self.emulator)
    }

    /// The emulator, for a program that feeds it where the session does not.
    pub fn emulator_mut(&mut self) -> (e: &mut Emulator)
        requires
            old(self).wf(),
            !old(self).feeds(),
        ensures
            *e == old(self).emulator_held(),
            final(self).emulator_held() == *final(e),
            1 <= emulator::emulator_screen(*final(e)).live.len() && !emulator::emulator_run(
                *final(e),
            ).takes_output() ==> final(self).wf(),
            final(self).modes() == old(self).modes(),
            final(self).shown_cmdline() == old(self).shown_cmdline(),
            final(self).shown_cwd() == old(self).shown_cwd(),
            final(self).dimensions() == old(self).dimensions(),
    {
        &mut self.emulator
    }

    /// The screen as text, with where the cursor is.
    pub fn dump(&self, format: ScreenFormat) -> (d: ScreenDump)
        requires
            format == ScreenFormat::Ansi ==> self.shown().has_ansi(),
        ensures
            shows(d, self.shown(), format),
    {
        dump_screen(self.screen(), format)
    }

    /// The screen as text, where the emulator can draw it: with escape sequences not
    /// where it has no column, has a single one that holds the right half of a
    /// double-width character, or is scrolled back.
    pub fn try_dump(&self, format: ScreenFormat) -> (r: Option<ScreenDump>)
        ensures
            r is Some <==> (format == ScreenFormat::Ansi ==> self.shown().has_ansi()),
            r matches Some(d) ==> shows(d, self.shown(), format),
    {
        if format == ScreenFormat::Text || is_drawable(self.screen()) {
            Some(self.dump(format))
        } else {
            None
        }
    }

    /// Render the visible screen to a PNG (for color / layout inspection), the
    /// glyphs having the given shapes.
    pub fn screenshot(&self, rasters: &[render::Raster]) -> (r: Result<
        Vec<u8>,
        render::RenderError,
    >)
        requires
            4 * ((self.shown().cols * render::CELL_W) * (self.shown().live.len()
                * render::CELL_H)) <= isize::MAX,
            forall|i: int| 0 <= i < rasters@.len() ==> (#[trigger] rasters@[i]).wf(),
        ensures
            r is Ok <==> canvas::png_file(render::screen_picture(self.shown(), rasters@)) is Some,
            r is Ok ==> r->Ok_0@ == canvas::png_file(
                render::screen_picture(self.shown(), rasters@),
            )->0,
    {
        render::screen_to_png(self.screen(), rasters)
    }

    /// Render the visible screen to a PNG, where the picture is not larger than
    /// memory can hold.
    pub fn try_screenshot(&self, rasters: &[render::Raster]) -> (r: Option<
        Result<Vec<u8>, render::RenderError>,
    >)
        requires
            forall|i: int| 0 <= i < rasters@.len() ==> (#[trigger] rasters@[i]).wf(),
        ensures
            r is Some <==> 4 * ((self.shown().cols * render::CELL_W) * (self.shown().live.len()
                * render::CELL_H)) <= isize::MAX,
            r matches Some(png) ==> (png is Ok <==> canvas::png_file(
                render::screen_picture(self.shown(), rasters@),
            ) is Some),
            r matches Some(Ok(bytes)) ==> bytes@ == canvas::png_file(
                render::screen_picture(self.shown(), rasters@),
            )->0,
    {
        let (rows, cols) = emulator::size(self.screen());
        let width: u128 = cols as u128 * render::CELL_W as u128;
        let height: u128 = rows as u128 * render::CELL_H as u128;
        assert(width * height <= 600000 * 1200000) by (nonlinear_arith)
            requires
                0 <= width <= 600000,
                0 <= height <= 1200000,
        ;
        if 4 * (width * height) <= isize::MAX as u128 {
            Some(self.screenshot(rasters))
        } else {
            None
        }
    }

    /// Full logical history (scrollback + visible), one entry per line, with
    /// trailing blank lines trimmed. The emulator keeps this internally. We
    /// reconstruct it by walking the scrollback offset, and leave the view at
    /// the screen.
    pub fn scrollback_lines(&mut self) -> (r: Vec<String>)
        requires
            old(self).wf(),
        ensures
            final(self).wf(),
            text::views(r@) == without_blank_end(old(self).shown().history()),
            final(self).shown() == old(self).shown().scrolled_to(0),
            final(self).run() == old(self).run(),
            final(self).feeds() == old(self).feeds(),
            final(self).modes() == old(self).modes(),
            final(self).shown_cmdline() == old(self).shown_cmdline(),
            final(self).shown_cwd() == old(self).shown_cwd(),
            final(self).dimensions() == old(self).dimensions(),
    {
        history_lines(&mut self.emulator)
    }
}

/// Whether an emulator of that size takes any output.
fn is_roomy(rows: u16, cols: u16) -> (b: bool)
    ensures
        b == emulator::roomy(rows, cols),
{
    2 <= rows && 3 <= cols && cols <= 0xfff7
}

/// Whether a screen can be drawn with escape sequences.
fn is_drawable(screen: &vt100::Screen) -> (b: bool)
    ensures
        b == emulator::screen_model(*screen).has_ansi(),
{
    let ghost m = emulator::screen_model(*screen);
    let (rows, cols) = emulator::size(screen);
    if cols == 0 || emulator::scrollback(screen) != 0 {
        return false;
    }
    if cols == 1 {
        let mut row: u16 = 0;
        while row < rows
            invariant
                row <= rows,
                rows == m.live.len(),
                m.cols == 1,
                m == emulator::screen_model(*screen),
                forall|r: u16| r < row ==> !#[trigger] m.starts_halved(r),
            decreases rows - row,
        {
            match emulator::cell_at(screen, row, 0) {
                Some(cell) => if cell.continuation {
                    assert(m.starts_halved(row));
                    return false;
                },
                None => {},
            }
            row += 1;
        }
    }
    true
}

/// A screen as text, with where the cursor is.
pub fn dump_screen(screen: &vt100::Screen, format: ScreenFormat) -> (d: ScreenDump)
    requires
        format == ScreenFormat::Ansi ==> emulator::screen_model(*screen).has_ansi(),
    ensures
        shows(d, emulator::screen_model(*screen), format),
{
    let (cursor_row, cursor_col) = emulator::cursor_position(screen);
    let (rows, cols) = emulator::size(screen);
    let text = match format {
        ScreenFormat::Text => emulator::contents(screen),
        ScreenFormat::Ansi => {
            text::from_utf8_lossy(emulator::contents_formatted(screen).as_slice())
        },
    };
    ScreenDump {
        text,
        cursor_row,
        cursor_col,
        cursor_hidden: emulator::cursor_hidden(screen),
        rows,
        cols,
    }
}

/// All rows of an emulator's screen without the blank ones at the end, read window
/// by window from the oldest one. The view is left at the live rows.
fn history_lines(e: &mut Emulator) -> (r: Vec<String>)
    requires
        1 <= emulator::emulator_screen(*old(e)).live.len(),
    ensures
        text::views(r@) == without_blank_end(emulator::emulator_screen(*old(e)).history()),
        emulator::emulator_screen(*final(e)) == emulator::emulator_screen(*old(e)).scrolled_to(0),
        emulator::emulator_run(*final(e)) == emulator::emulator_run(*old(e)),
{
    let ghost start = emulator::emulator_screen(*e);
    let ghost all = start.history();
    let (rows, cols) = emulator::size(emulator::screen_of(e));
    let rows: usize = rows as usize;
    emulator::set_scrollback(e, usize::MAX);
    let above = emulator::scrollback(emulator::screen_of(e));
    let mut lines: Vec<String> = Vec::new();
    let mut k: usize = above;
    assert(all.take(0) =~= text::views(lines@));
    // The lines above the window at `k` are done.
    loop
        invariant_except_break
            lines@.len() < above - k + rows,
        invariant
            rows == start.live.len(),
            rows > 0,
            cols == start.cols,
            emulator::emulator_run(*e) == emulator::emulator_run(*old(e)),
            all == start.history(),
            k <= above,
            above == start.scrolled.len(),
            emulator::emulator_screen(*e).scrolled_to(0) == start.scrolled_to(0),
            lines@.len() >= above - k,
            text::views(lines@) == all.take(lines@.len() as int),
        ensures
            emulator::emulator_run(*e) == emulator::emulator_run(*old(e)),
            emulator::emulator_screen(*e).scrolled_to(0) == start.scrolled_to(0),
            text::views(lines@) == all,
        decreases k,
    {
        emulator::set_scrollback(e, k);
        let window = emulator::row_texts(emulator::screen_of(e), cols);
        let ghost seen = text::views(window@);
        let ghost top = above - k;
        assert(seen == all.subrange(top, top + rows));
        assert(window@.len() == seen.len());
        assert(seen.len() == rows);
        let mut i: usize = lines.len() - (above - k);
        while i < window.len()
            invariant
                i <= window@.len(),
                seen == text::views(window@),
                seen == all.subrange(top, top + rows),
                0 <= top,
                top + rows <= all.len(),
                lines@.len() == top + i,
                text::views(lines@) == all.take(lines@.len() as int),
            decreases window.len() - i,
        {
            let ghost before = lines@;
            assert(seen.len() == rows);
            lines.push(window[i].clone());
            assert(seen[i as int] == window@[i as int]@);
            assert(text::views(lines@) =~= text::views(before).push(seen[i as int]));
            assert(all.take(lines@.len() as int) =~= all.take(before.len() as int).push(
                all[before.len() as int],
            ));
            i += 1;
        }
        assert(window@.len() == rows);
        if k == 0 {
            assert(all.take(all.len() as int) =~= all);
            break ;
        }
        k = if k < rows {
            0
        } else {
            k - rows
        };
    }
    emulator::set_scrollback(e, 0);
    while lines.len() > 0 && text::is_blank(lines[lines.len() - 1].as_str())
        invariant
            without_blank_end(text::views(lines@)) == without_blank_end(all),
        decreases lines@.len(),
    {
        let ghost before = lines@;
        let _ = lines.pop();
        assert(text::views(before).last() == before.last()@);
        assert(text::views(before).drop_last() =~= text::views(lines@));
    }
    assert(lines@.len() > 0 ==> text::views(lines@).last() == lines@.last()@);
    lines
}

// ---- Piped sessions ---------------------------------------------------------

#[derive(Clone, Copy, Debug, PartialEq, Eq, Structural)]
pub enum Stream {
    Stdout,
    Stderr,
}

/// A program with plain pipes.
pub struct PipedSession {
    stdout: StreamBuf,
    stderr: StreamBuf,
    cmdline: String,
    cwd: String,
}

impl PipedSession {
    pub closed spec fn wf(&self) -> bool {
        self.stdout.wf() && self.stderr.wf()
    }

    /// What is buffered of a stream.
    pub closed spec fn stream(&self, which: Stream) -> StreamModel {
        match which {
            Stream::Stdout => self.stdout@,
            Stream::Stderr => self.stderr@,
        }
    }

    pub closed spec fn shown_cmdline(&self) -> Seq<char> {
        self.cmdline@
    }

    pub closed spec fn shown_cwd(&self) -> Seq<char> {
        self.cwd@
    }

    /// The state of a session that has just been started.
    pub fn new(opts: &SpawnOpts, current_dir: Option<String>) -> (s: Self)
        ensures
            s.wf(),
            forall|which: Stream| #[trigger]
                s.stream(which) == (StreamModel {
                    data: Seq::empty(),
                    dropped: 0,
                    cap: if opts.buffer_bytes < MIN_STREAM_BYTES {
                        MIN_STREAM_BYTES as nat
                    } else {
                        opts.buffer_bytes as nat
                    },
                }),
            s.shown_cmdline() == cmdline_of(*opts),
            s.shown_cwd() == cwd_of(*opts, opt_view(current_dir)),
    {
        PipedSession {
            stdout: StreamBuf::new(opts.buffer_bytes),
            stderr: StreamBuf::new(opts.buffer_bytes),
            cmdline: format_cmdline(opts),
            cwd: resolve_cwd(opts, current_dir),
        }
    }

    pub fn cmdline(&self) -> (s: &str)
        ensures
            s@ == self.shown_cmdline(),
    {
        self.cmdline.as_str()
    }

    pub fn cwd(&self) -> (s: &str)
        ensures
            s@ == self.shown_cwd(),
    {
        self.cwd.as_str()
    }

    /// How many bytes of a stream have been dropped so far.
    pub fn dropped(&self, which: Stream) -> (n: u64)
        ensures
            n == self.stream(which).dropped,
    {
        match which {
            Stream::Stdout => self.stdout.dropped(),
            Stream::Stderr => self.stderr.dropped(),
        }
    }

    /// Takes note of a chunk of output.
    pub fn on_output(&mut self, which: Stream, bytes: &[u8])
        requires
            old(self).wf(),
            old(self).stream(which).dropped + bytes@.len() <= u64::MAX,
        ensures
            final(self).wf(),
            forall|w: Stream| #[trigger]
                final(self).stream(w) == (if w == which {
                    stream_pushed(old(self).stream(w), bytes@)
                } else {
                    old(self).stream(w)
                }),
            final(self).shown_cmdline() == old(self).shown_cmdline(),
            final(self).shown_cwd() == old(self).shown_cwd(),
    {
        match which {
            Stream::Stdout => self.stdout.push(bytes),
            Stream::Stderr => self.stderr.push(bytes),
        }
    }

    /// The buffered output of a stream, which `clear` empties.
    pub fn read_stream(&mut self, which: Stream, clear: bool) -> (s: String)
        requires
            old(self).wf(),
        ensures
            final(self).wf(),
            s@ == stream_text(old(self).stream(which)),
            forall|w: Stream| #[trigger]
                final(self).stream(w) == (if w == which && clear {
                    StreamModel { data: Seq::empty(), ..old(self).stream(w) }
                } else {
                    old(self).stream(w)
                }),
            final(self).shown_cmdline() == old(self).shown_cmdline(),
            final(self).shown_cwd() == old(self).shown_cwd(),
    {
        match which {
            Stream::Stdout => self.stdout.read(clear),
            Stream::Stderr => self.stderr.read(clear),
        }
    }
}

/// A session of either kind.
pub enum Session {
    Pty(PtySession),
    Piped(PipedSession),
}

impl Session {
    /// The kind of a session, and what its program has negotiated.
    pub open spec fn kind_of(&self) -> SessionKind {
        match self {
            Session::Pty(p) => p.kind_of(),
            Session::Piped(_) => SessionKind::Piped,
        }
    }

    pub fn kind(&self) -> (k: SessionKind)
        ensures
            k == self.kind_of(),
    {
        match self {
            Session::Pty(p) => p.kind(),
            Session::Piped(_) => SessionKind::Piped,
        }
    }
}

// ---- Laws -------------------------------------------------------------------

/// What a session shows is what its emulator makes of the output and the sizes that
/// the session was given, in order: a screen of the session's dimensions, with its
/// view at the live rows.
pub proof fn the_screen_follows_the_output(s: PtySession)
    requires
        s.wf(),
        s.feeds(),
    ensures
        s.shown() == emulator::emulated(s.run()),
        s.run().kept == PTY_SCROLLBACK_LINES,
        s.run().size() == (s.dimensions().1, s.dimensions().0),
        s.shown().live.len() == s.dimensions().1,
        s.shown().cols == s.dimensions().0,
        s.shown().offset == 0,
        s.shown().has_ansi(),
{
    widths_stay_roomy(s.run());
}

/// The history of a session is the screen and at most as many lines above it as the
/// emulator keeps.
pub proof fn the_history_is_bounded(s: PtySession)
    requires
        s.wf(),
        s.feeds(),
    ensures
        s.shown().history().len() <= PTY_SCROLLBACK_LINES + s.dimensions().1,
        without_blank_end(s.shown().history()).len() <= PTY_SCROLLBACK_LINES + s.dimensions().1,
{
    history_loses_only_blank_lines(s.shown().history());
}

proof fn widths_stay_roomy(run: emulator::Run)
    requires
        run.takes_output(),
    ensures
        emulator::roomy(run.size().0, run.size().1),
    decreases run.inputs.len(),
{
    if run.inputs.len() > 0 {
        widths_stay_roomy(emulator::Run { inputs: run.inputs.drop_last(), ..run });
    }
}

/// A terminal of at least two rows and three columns is fed all along, unless it
/// becomes narrower after output with characters that may take two columns.
pub proof fn roomy_terminals_are_fed(run: emulator::Run, rows: u16, cols: u16, chunk: Seq<u8>)
    requires
        run.takes_output(),
    ensures
        run.given(emulator::Input::Output(chunk)).takes_output(),
        run.given(emulator::Input::Output(chunk)).size() == run.size(),
        run.given(emulator::Input::Output(chunk)).output() == run.output() + chunk,
        run.given(emulator::Input::Size(rows, cols)).output() == run.output(),
        emulator::roomy(rows, cols) && (run.size().1 <= cols || run.plain()) ==> run.given(
            emulator::Input::Size(rows, cols),
        ).takes_output(),
{
    emulator::given_properties(run, emulator::Input::Output(chunk));
    emulator::given_properties(run, emulator::Input::Size(rows, cols));
}

/// How output is cut into chunks does not matter to a stream buffer.
pub proof fn stream_chunks_do_not_matter(m: StreamModel, a: Seq<u8>, b: Seq<u8>)
    requires
        m.data.len() <= m.cap,
    ensures
        stream_pushed(stream_pushed(m, a), b) == stream_pushed(m, a + b),
{
    let one = stream_pushed(stream_pushed(m, a), b);
    let all = stream_pushed(m, a + b);
    assert(m.data + (a + b) =~= (m.data + a) + b);
    assert(one.data =~= all.data);
}

/// Every byte of output is either held or counted as dropped, and what is held
/// are the newest bytes, never more than the capacity.
pub proof fn stream_bytes_are_accounted_for(m: StreamModel, bytes: Seq<u8>)
    requires
        m.data.len() <= m.cap,
    ensures
        stream_pushed(m, bytes).data.len() + stream_pushed(m, bytes).dropped == m.data.len()
            + m.dropped + bytes.len(),
        stream_pushed(m, bytes).data.is_suffix_of(m.data + bytes),
        stream_pushed(m, bytes).data.len() <= stream_pushed(m, bytes).cap,
        stream_pushed(m, bytes).cap == m.cap,
{
    let all = m.data + bytes;
    let kept = stream_pushed(m, bytes).data;
    assert(all.subrange(all.len() - kept.len(), all.len() as int) =~= kept);
}

/// A buffer that takes on all chunks of some output, one after the other.
pub open spec fn stream_pushed_all(m: StreamModel, chunks: Seq<Seq<u8>>) -> StreamModel
    decreases chunks.len(),
{
    if chunks.len() == 0 {
        m
    } else {
        stream_pushed(stream_pushed_all(m, chunks.drop_last()), chunks.last())
    }
}

/// A new buffer that was given some output in any number of chunks holds the newest
/// bytes of it, in order and never more than its capacity, and counts all others.
pub proof fn streams_hold_the_newest_bytes(cap: nat, chunks: Seq<Seq<u8>>)
    ensures
        ({
            let all = chunks.flatten();
            let m = stream_pushed_all(
                StreamModel { data: Seq::empty(), dropped: 0, cap },
                chunks,
            );
            let held = if all.len() < cap {
                all.len()
            } else {
                cap
            };
            &&& m.data == all.skip(all.len() - held)
            &&& m.dropped == all.len() - held
            &&& m.cap == cap
        }),
    decreases chunks.len(),
{
    let start = StreamModel { data: Seq::<u8>::empty(), dropped: 0, cap };
    let all = chunks.flatten();
    if chunks.len() == 0 {
        assert(all =~= Seq::<u8>::empty());
        assert(all.skip(0) =~= all);
    } else {
        let init = chunks.drop_last();
        streams_hold_the_newest_bytes(cap, init);
        let before = init.flatten();
        assert(chunks =~= init.push(chunks.last()));
        init.lemma_flatten_push(chunks.last());
        assert(all =~= before + chunks.last());
        let m = stream_pushed_all(start, chunks);
        let held = if all.len() < cap {
            all.len()
        } else {
            cap
        };
        assert(m.data =~= all.skip(all.len() - held));
    }
}

/// Output of which something was dropped is never mistaken for complete output:
/// what a reader gets starts with the notice where bytes were dropped, and is the
/// output alone where none were.
pub proof fn lost_output_is_announced(m: StreamModel)
    ensures
        m.dropped > 0 ==> ("[tui_mcp: "@ + text::dec(m.dropped)).is_prefix_of(stream_text(m)),
        m.dropped == 0 ==> stream_text(m) == text::utf8_lossy(m.data),
{
    if m.dropped > 0 {
        let notice = "[tui_mcp: "@ + text::dec(m.dropped);
        let all = stream_text(m);
        assert(all.subrange(0, notice.len() as int) =~= notice);
    }
}

/// Reading the history leaves what the screen shows: a view that was at the
/// live rows is there again.
pub proof fn reading_history_leaves_the_screen(m: emulator::ScreenModel)
    requires
        m.offset == 0,
    ensures
        m.scrolled_to(0) == m,
{
}

/// What is read of a pty session's history is every line in order, up to the
/// last one that is not blank.
pub proof fn history_loses_only_blank_lines(lines: Seq<Seq<char>>)
    ensures
        without_blank_end(lines).is_prefix_of(lines),
        without_blank_end(lines).len() > 0 ==> !text::blank(without_blank_end(lines).last()),
        forall|i: int|
            without_blank_end(lines).len() <= i < lines.len() ==> text::blank(#[trigger] lines[i]),
    decreases lines.len(),
{
    if lines.len() > 0 && text::blank(lines.last()) {
        let init = lines.drop_last();
        history_loses_only_blank_lines(init);
        let kept = without_blank_end(lines);
        assert(lines.subrange(0, kept.len() as int) =~= init.subrange(0, kept.len() as int));
        assert forall|i: int| kept.len() <= i < lines.len() implies text::blank(
            #[trigger] lines[i],
        ) by {
            if i < init.len() {
                assert(init[i] == lines[i]);
            }
        }
    } else {
        assert(lines.subrange(0, lines.len() as int) =~= lines);
    }
}

/// What a reader is told of dropped output: how much of it, how much the buffer holds, and
/// behind that, on a line of its own, the output.
pub proof fn lost_output_is_told_with_its_size(m: StreamModel)
    requires
        m.dropped > 0,
    ensures
        stream_text(m) == "[tui_mcp: "@ + text::dec(m.dropped)
            + " earlier byte(s) dropped. Output buffer capped at "@ + text::dec(m.cap)
            + " bytes, read more often with clear=true to avoid loss]\n"@ + text::utf8_lossy(m.data),
        text::utf8_lossy(m.data).is_suffix_of(stream_text(m)),
{
    let all = stream_text(m);
    let out = text::utf8_lossy(m.data);
    assert(all.subrange(all.len() - out.len(), all.len() as int) =~= out);
}

/// Output that fits the buffer is held as it came, and nothing of it is counted as dropped;
/// of output that does not fit, exactly what is too much is dropped, from the front. The
/// least capacity is 4096 bytes.
pub proof fn nothing_is_dropped_before_time(m: StreamModel, bytes: Seq<u8>, i: int)
    requires
        m.data.len() <= m.cap,
    ensures
        m.data.len() + bytes.len() <= m.cap ==> stream_pushed(m, bytes).data == m.data + bytes
            && stream_pushed(m, bytes).dropped == m.dropped,
        m.data.len() + bytes.len() > m.cap ==> stream_pushed(m, bytes).data.len() == m.cap
            && stream_pushed(m, bytes).dropped == m.dropped + m.data.len() + bytes.len() - m.cap,
        0 <= i < stream_pushed(m, bytes).data.len() && i < bytes.len() ==> stream_pushed(
            m,
            bytes,
        ).data[stream_pushed(m, bytes).data.len() - 1 - i] == bytes[bytes.len() - 1 - i],
        MIN_STREAM_BYTES == 4096,
        PTY_SCROLLBACK_LINES == 5000,
{
}

/// A dump starts with the width, the height and where the cursor is, column first, says so
/// where the cursor is hidden, and has the text behind that line.
pub proof fn dumps_tell_size_and_cursor(d: ScreenDump)
    ensures
        !d.cursor_hidden ==> dump_text(d) == "[size "@ + text::dec(d.cols as nat) + "W x "@
            + text::dec(d.rows as nat) + "H] cursor=(x"@ + text::dec(d.cursor_col as nat) + ", y"@
            + text::dec(d.cursor_row as nat) + ")\n"@ + d.text@,
        d.cursor_hidden ==> dump_text(d) == "[size "@ + text::dec(d.cols as nat) + "W x "@
            + text::dec(d.rows as nat) + "H] cursor=(x"@ + text::dec(d.cursor_col as nat) + ", y"@
            + text::dec(d.cursor_row as nat) + ") hidden\n"@ + d.text@,
{
    reveal_strlit(")");
    reveal_strlit("");
    reveal_strlit("\n");
    reveal_strlit(" hidden");
    reveal_strlit(")\n");
    reveal_strlit(") hidden\n");
    let front = "[size "@ + text::dec(d.cols as nat) + "W x "@ + text::dec(d.rows as nat)
        + "H] cursor=(x"@ + text::dec(d.cursor_col as nat) + ", y"@ + text::dec(
        d.cursor_row as nat,
    );
    if d.cursor_hidden {
        assert(dump_text(d) =~= front + ") hidden\n"@ + d.text@);
    } else {
        assert(dump_text(d) =~= front + ")\n"@ + d.text@);
    }
}

/// Dumps of one screen as text and with escape sequences tell the same size and cursor, and
/// those of the screen: its rows and columns, and the cursor's.
pub proof fn dumps_are_of_the_screen(
    d: ScreenDump,
    m: emulator::ScreenModel,
    format: ScreenFormat,
)
    requires
        shows(d, m, format),
    ensures
        d.rows == m.live.len(),
        d.cols == m.cols,
        d.cursor_row == m.cursor_row,
        d.cursor_col == m.cursor_col,
        d.cursor_hidden == m.cursor_hidden,
        format == ScreenFormat::Text ==> d.text@ == m.texts[m.offset],
        format == ScreenFormat::Ansi ==> d.text@ == text::utf8_lossy(m.drawings[m.offset]),
{
}

/// A command line shows every word, separated by single spaces: the command as it is, and
/// each argument as it is or, where it is empty or has whitespace in it, between quotes.
pub proof fn command_lines_show_every_argument(
    command: Seq<char>,
    args: Seq<Seq<char>>,
    arg: Seq<char>,
)
    ensures
        shown_command(command, args, 0) == command,
        shown_command(command, args.push(arg), args.len() + 1) == shown_command(
            command,
            args,
            args.len(),
        ) + seq![' '] + (if arg.len() == 0 || exists|i: int|
            0 <= i < arg.len() && text::unicode_whitespace(#[trigger] arg[i]) {
            seq!['"'] + arg + seq!['"']
        } else {
            arg
        }),
{
    lemma_command_prefix(command, args, arg, args.len());
    reveal_strlit(" ");
    reveal_strlit("\"");
    assert(" "@ =~= seq![' ']);
    assert("\""@ =~= seq!['"']);
}

proof fn lemma_command_prefix(command: Seq<char>, args: Seq<Seq<char>>, arg: Seq<char>, n: nat)
    requires
        n <= args.len(),
    ensures
        shown_command(command, args.push(arg), n) == shown_command(command, args, n),
    decreases n,
{
    if n > 0 {
        lemma_command_prefix(command, args, arg, (n - 1) as nat);
    }
}

/// The words of a command line without an empty one or one with whitespace in it can be told
/// apart again: they are what stands between the spaces.
pub proof fn plain_command_lines_split_at_spaces(
    command: Seq<char>,
    args: Seq<Seq<char>>,
    n: nat,
)
    requires
        n <= args.len(),
        !command.contains(' '),
        forall|i: int|
            0 <= i < args.len() ==> (#[trigger] args[i]).len() > 0 && !text::has_whitespace(args[i]),
    ensures
        text::split(shown_command(command, args, n), ' ') == seq![command] + args.take(n as int),
    decreases n,
{
    if n == 0 {
        lemma_no_separator(command, ' ');
        assert(seq![command] + args.take(0) =~= seq![command]);
    } else {
        plain_command_lines_split_at_spaces(command, args, (n - 1) as nat);
        let front = shown_command(command, args, (n - 1) as nat);
        let arg = args[n - 1];
        reveal_strlit(" ");
        assert(" "@ =~= seq![' ']);
        assert(!arg.contains(' ')) by {
            if arg.contains(' ') {
                let i = choose|i: int| 0 <= i < arg.len() && arg[i] == ' ';
                assert(text::unicode_whitespace(arg[i]));
            }
        }
        lemma_one_more_part(front, arg, ' ');
        assert(seq![command] + args.take(n as int) =~= (seq![command] + args.take(n - 1)).push(
            arg,
        ));
    }
}

proof fn lemma_no_separator(s: Seq<char>, sep: char)
    requires
        !s.contains(sep),
    ensures
        text::split(s, sep) == seq![s],
    decreases s.len(),
{
    if s.len() > 0 {
        let init = s.drop_last();
        assert(s.contains(s.last()));
        assert forall|c: char| init.contains(c) implies s.contains(c) by {
            let i = choose|i: int| 0 <= i < init.len() && init[i] == c;
            assert(s[i] == c);
        }
        lemma_no_separator(init, sep);
        assert(init.push(s.last()) =~= s);
        assert(text::split(s, sep) =~= seq![s]);
    }
}

proof fn lemma_one_more_part(front: Seq<char>, part: Seq<char>, sep: char)
    requires
        !part.contains(sep),
    ensures
        text::split(front + seq![sep] + part, sep) == text::split(front, sep).push(part),
    decreases part.len(),
{
    let s = front + seq![sep] + part;
    if part.len() == 0 {
        assert(s.drop_last() =~= front);
        assert(part =~= Seq::<char>::empty());
    } else {
        let init = part.drop_last();
        assert(part.contains(part.last()));
        assert forall|c: char| init.contains(c) implies part.contains(c) by {
            let i = choose|i: int| 0 <= i < init.len() && init[i] == c;
            assert(part[i] == c);
        }
        assert(s.drop_last() =~= front + seq![sep] + init);
        lemma_one_more_part(front, init, sep);
        assert(init.push(part.last()) =~= part);
        assert(text::split(s, sep) =~= text::split(front, sep).push(part));
    }
}

/// A session runs in the directory it was given, else in the server's own, else in `.`.
pub proof fn directories_are_taken_in_order(opts: SpawnOpts, current: Option<Seq<char>>)
    ensures
        opts.cwd is Some ==> cwd_of(opts, current) == opts.cwd->0@,
        opts.cwd is None && current is Some ==> cwd_of(opts, current) == current->0,
        opts.cwd is None && current is None ==> cwd_of(opts, current) == seq!['.'],
{
    reveal_strlit(".");
    assert("."@ =~= seq!['.']);
}

/// A program that asks for the cursor is told row and column, counted from 1 and the row
/// first, as they were before the output that asks, and behind all else that it is told.
pub proof fn the_cursor_is_told(m: kitty::InputModes, chunk: Seq<u8>, screen: emulator::ScreenModel)
    ensures
        kitty::run(m, chunk).0.cursor_request ==> output_replies(m, chunk, screen) == kitty::run(
            m,
            chunk,
        ).1 + (seq![0x1bu8, 0x5b] + text::dec_bytes(screen.cursor_row + 1) + seq![0x3bu8]
            + text::dec_bytes(screen.cursor_col + 1) + seq![0x52u8]),
        !kitty::run(m, chunk).0.cursor_request ==> output_replies(m, chunk, screen) == kitty::run(
            m,
            chunk,
        ).1,
{
    let row = text::dec(screen.cursor_row + 1);
    let col = text::dec(screen.cursor_col + 1);
    let report = cursor_report(screen.cursor_row, screen.cursor_col);
    text::encode_utf8_concat("\x1b["@ + row + ";"@ + col, "R"@);
    text::encode_utf8_concat("\x1b["@ + row + ";"@, col);
    text::encode_utf8_concat("\x1b["@ + row, ";"@);
    text::encode_utf8_concat("\x1b["@, row);
    lemma_dec_is_ascii(screen.cursor_row + 1);
    lemma_dec_is_ascii(screen.cursor_col + 1);
    reveal_strlit("\x1b[");
    reveal_strlit(";");
    reveal_strlit("R");
    is_ascii_chars_encode_utf8("\x1b["@);
    is_ascii_chars_encode_utf8(";"@);
    is_ascii_chars_encode_utf8("R"@);
    assert(encode_utf8("\x1b["@) =~= seq![0x1bu8, 0x5b]);
    assert(encode_utf8(";"@) =~= seq![0x3bu8]);
    assert(encode_utf8("R"@) =~= seq![0x52u8]);
    assert(encode_utf8(report) =~= seq![0x1bu8, 0x5b] + text::dec_bytes(screen.cursor_row + 1)
        + seq![0x3bu8] + text::dec_bytes(screen.cursor_col + 1) + seq![0x52u8]);
}

proof fn lemma_dec_is_ascii(n: nat)
    ensures
        encode_utf8(text::dec(n)) == text::dec_bytes(n),
    decreases n,
{
    let last = seq![text::digit(n % 10)];
    assert(is_ascii_chars(last));
    is_ascii_chars_encode_utf8(last);
    assert(last[0] as u8 == 0x30 + n % 10);
    assert(encode_utf8(last) =~= seq![(0x30 + n % 10) as u8]);
    if n >= 10 {
        lemma_dec_is_ascii(n / 10);
        text::encode_utf8_concat(text::dec(n / 10), last);
        assert(text::dec(n) =~= text::dec(n / 10) + last);
        assert(text::dec_bytes(n) =~= text::dec_bytes(n / 10) + seq![(0x30 + n % 10) as u8]);
    } else {
        assert(text::dec(n) =~= last);
        assert(text::dec_bytes(n) =~= seq![(0x30 + n % 10) as u8]);
    }
}

} // verus!
