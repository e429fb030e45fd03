//! What the tools ask for and what their callers are told.

use crate::error;
use crate::registry::SessionInfo;
use crate::session;
use crate::session::ScreenDump;
use crate::session::ScreenFormat;
use crate::session::SpawnOpts;
use crate::session::Stream;
use crate::text;
use std::collections::HashMap;
use vstd::prelude::*;

verus! {

// ---- Starting ---------------------------------------------------------------

pub const DEFAULT_COLS: u16 = 80;

pub const DEFAULT_ROWS: u16 = 24;

/// 2 MiB.
pub const DEFAULT_BUFFER_BYTES: usize = 2097152;

/// What is asked of `session_start`.
pub struct StartRequest {
    pub command: String,
    pub args: Vec<String>,
    pub cwd: Option<String>,
    pub env: HashMap<String, String>,
    pub cols: Option<u16>,
    pub rows: Option<u16>,
    /// "pty" (default) or "piped".
    pub mode: Option<String>,
    pub buffer_bytes: Option<usize>,
}

/// Whether a session runs under a pseudo terminal: unless piped mode is asked
/// for.
pub open spec fn asks_for_pty(mode: Option<String>) -> bool {
    match mode {
        Some(m) => m@ != "piped"@,
        None => true,
    }
}

/// How a session is started: whether under a pseudo terminal, and with which
/// options.
pub fn start_options(request: StartRequest) -> (r: (bool, SpawnOpts))
    ensures
        r.0 == asks_for_pty(request.mode),
        r.1.command == request.command,
        r.1.args == request.args,
        r.1.cwd == request.cwd,
        r.1.env == request.env,
        r.1.cols == request.cols.unwrap_or(DEFAULT_COLS),
        r.1.rows == request.rows.unwrap_or(DEFAULT_ROWS),
        r.1.buffer_bytes == request.buffer_bytes.unwrap_or(DEFAULT_BUFFER_BYTES),
{
    let mode_pty = match &request.mode {
        Some(m) => !text::str_eq(m.as_str(), "piped"),
        None => true,
    };
    (
        mode_pty,
        SpawnOpts {
            command: request.command,
            args: request.args,
            cwd: request.cwd,
            env: request.env,
            cols: request.cols.unwrap_or(DEFAULT_COLS),
            rows: request.rows.unwrap_or(DEFAULT_ROWS),
            buffer_bytes: request.buffer_bytes.unwrap_or(DEFAULT_BUFFER_BYTES),
        },
    )
}

/// Whether a character makes a shell read a word as something else.
pub open spec fn is_awkward(c: char) -> bool {
    text::unicode_whitespace(c) || c == '"' || c == '\'' || c == '\\' || c == '$' || c == '`'
}

/// A text with every single quote closed, escaped and opened again.
pub open spec fn quotes_escaped(s: Seq<char>) -> Seq<char>
    decreases s.len(),
{
    if s.len() == 0 {
        Seq::empty()
    } else if s.last() == '\'' {
        quotes_escaped(s.drop_last()) + seq!['\'', '\\', '\'', '\'']
    } else {
        quotes_escaped(s.drop_last()).push(s.last())
    }
}

/// A text as one word of a shell command line.
pub open spec fn quoted(s: Seq<char>) -> Seq<char> {
    if s.len() == 0 || exists|i: int| 0 <= i < s.len() && is_awkward(#[trigger] s[i]) {
        seq!['\''] + quotes_escaped(s) + seq!['\'']
    } else {
        s
    }
}

/// Quote a path for a shell command line if it contains awkward characters.
pub fn shell_quote(s: &str) -> (r: String)
    ensures
        r@ == quoted(s@),
{
    let v = text::chars_of(s);
    let mut awkward = v.len() == 0;
    let mut i: usize = 0;
    while i < v.len()
        invariant
            i <= v@.len(),
            v@ == s@,
            awkward == (v@.len() == 0 || exists|j: int| 0 <= j < i && is_awkward(#[trigger] s@[j])),
        decreases v.len() - i,
    {
        let c = v[i];
        assert(s@[i as int] == c);
        if text::is_whitespace(c) || c == '"' || c == '\'' || c == '\\' || c == '$' || c == '`' {
            assert(is_awkward(s@[i as int]));
            awkward = true;
        }
        i += 1;
    }
    if !awkward {
        return s.to_string();
    }
    let mut out = String::new();
    out.push('\'');
    assert(v@.take(0) =~= Seq::<char>::empty());
    assert(out@ =~= seq!['\''] + quotes_escaped(v@.take(0)));
    let mut k: usize = 0;
    while k < v.len()
        invariant
            k <= v@.len(),
            out@ == seq!['\''] + quotes_escaped(v@.take(k as int)),
        decreases v.len() - k,
    {
        let c = v[k];
        let ghost before = out@;
        let ghost upto = v@.take(k + 1);
        assert(upto.drop_last() =~= v@.take(k as int));
        assert(upto.last() == c);
        if c == '\'' {
            out.push('\'');
            out.push('\\');
            out.push('\'');
            out.push('\'');
        } else {
            out.push(c);
        }
        assert(out@ =~= seq!['\''] + quotes_escaped(upto));
        k += 1;
    }
    assert(v@.take(v@.len() as int) =~= v@);
    out.push('\'');
    assert(out@ =~= seq!['\''] + quotes_escaped(v@) + seq!['\'']);
    out
}

/// What the caller of `session_start` is told.
pub open spec fn start_text(
    name: Seq<char>,
    mode_pty: bool,
    cmdline: Seq<char>,
    cwd: Seq<char>,
) -> Seq<char> {
    "started session '"@ + name + "' ("@ + (if mode_pty {
        "pty"@
    } else {
        "piped"@
    }) + " mode)\n  command: "@ + cmdline + "\n  cwd: "@ + cwd + "\n\n  to reproduce: (cd "@
        + quoted(cwd) + " && "@ + cmdline + ")"@
}

/// What the caller of `session_start` is told.
pub fn start_reply(name: &str, mode_pty: bool, cmdline: &str, cwd: &str) -> (r: String)
    ensures
        r@ == start_text(name@, mode_pty, cmdline@, cwd@),
{
    let mut out = String::new();
    out.append("started session '");
    out.append(name);
    out.append("' (");
    if mode_pty {
        out.append("pty");
    } else {
        out.append("piped");
    }
    out.append(" mode)\n  command: ");
    out.append(cmdline);
    out.append("\n  cwd: ");
    out.append(cwd);
    out.append("\n\n  to reproduce: (cd ");
    out.append(shell_quote(cwd).as_str());
    out.append(" && ");
    out.append(cmdline);
    out.append(")");
    assert(out@ =~= start_text(name@, mode_pty, cmdline@, cwd@));
    out
}

// ---- Listing and stopping ---------------------------------------------------

/// One entry of the listing.
pub open spec fn info_text(s: SessionInfo) -> Seq<char> {
    s.name@ + " ["@ + s.kind@ + ", pid "@ + (match s.pid {
        Some(pid) => text::dec(pid as nat),
        None => "-"@,
    }) + ", "@ + (match s.status {
        Some(status) => status@,
        None => "running"@,
    }) + "]\n  command: "@ + s.cmdline@ + "\n  cwd: "@ + s.cwd@ + "\n"@
}

/// The first `n` entries of the listing.
pub open spec fn infos_text(list: Seq<SessionInfo>, n: nat) -> Seq<char>
    decreases n,
{
    if n == 0 {
        Seq::empty()
    } else {
        infos_text(list, (n - 1) as nat) + info_text(list[n - 1])
    }
}

fn push_info(out: &mut String, s: &SessionInfo)
    ensures
        final(out)@ == old(out)@ + info_text(*s),
{
    out.append(s.name.as_str());
    out.append(" [");
    out.append(s.kind);
    out.append(", pid ");
    match s.pid {
        Some(pid) => text::push_dec(out, pid as u64),
        None => out.append("-"),
    }
    out.append(", ");
    match &s.status {
        Some(status) => out.append(status.as_str()),
        None => out.append("running"),
    }
    out.append("]\n  command: ");
    out.append(s.cmdline.as_str());
    out.append("\n  cwd: ");
    out.append(s.cwd.as_str());
    out.append("\n");
    assert(out@ =~= old(out)@ + info_text(*s));
}

/// What the caller of `session_list` is told.
pub fn list_reply(list: &[SessionInfo]) -> (r: String)
    ensures
        r@ == (if list@.len() == 0 {
            "no active sessions"@
        } else {
            infos_text(list@, list@.len())
        }),
{
    if list.len() == 0 {
        return "no active sessions".to_string();
    }
    let mut out = String::new();
    assert(out@ =~= Seq::<char>::empty());
    let mut i: usize = 0;
    while i < list.len()
        invariant
            i <= list@.len(),
            out@ == infos_text(list@, i as nat),
        decreases list.len() - i,
    {
        push_info(&mut out, &list[i]);
        i += 1;
    }
    out
}

/// What the caller of `session_stop` is told.
pub fn stop_reply(name: &str) -> (r: String)
    ensures
        r@ == "stopped session '"@ + name@ + "'"@,
{
    text::framed("stopped session '", name, "'")
}

/// What the caller of `session_purge` is told.
pub fn purge_reply(names: &[String]) -> (r: String)
    ensures
        r@ == (if names@.len() == 0 {
            "no exited sessions to purge"@
        } else {
            "purged "@ + text::dec(names@.len()) + ": "@ + text::joined(
                text::views(names@),
                ", "@,
                names@.len(),
            )
        }),
{
    if names.len() == 0 {
        return "no exited sessions to purge".to_string();
    }
    let mut out = String::new();
    out.append("purged ");
    text::push_dec(&mut out, names.len() as u64);
    out.append(": ");
    out.append(text::join(names, ", ").as_str());
    assert(out@ =~= "purged "@ + text::dec(names@.len()) + ": "@ + text::joined(
        text::views(names@),
        ", "@,
        names@.len(),
    ));
    out
}

// ---- Signals ----------------------------------------------------------------

/// The signals that can be sent.
#[derive(Clone, Copy, Debug, PartialEq, Eq, Structural)]
pub enum Signal {
    Int,
    Term,
    Kill,
    Hup,
    Quit,
    Tstp,
    Cont,
    Stop,
    Winch,
    Usr1,
    Usr2,
}

/// The signal that a name stands for, in any ASCII case, with a leading "SIG" or
/// without, and with or without whitespace around it.
pub open spec fn signal_named(name: Seq<char>) -> Option<Signal> {
    let n = text::stripped(text::upper(text::trimmed(name)), "SIG"@);
    if n == "INT"@ {
        Some(Signal::Int)
    } else if n == "TERM"@ {
        Some(Signal::Term)
    } else if n == "KILL"@ {
        Some(Signal::Kill)
    } else if n == "HUP"@ {
        Some(Signal::Hup)
    } else if n == "QUIT"@ {
        Some(Signal::Quit)
    } else if n == "TSTP"@ {
        Some(Signal::Tstp)
    } else if n == "CONT"@ {
        Some(Signal::Cont)
    } else if n == "STOP"@ {
        Some(Signal::Stop)
    } else if n == "WINCH"@ {
        Some(Signal::Winch)
    } else if n == "USR1"@ {
        Some(Signal::Usr1)
    } else if n == "USR2"@ {
        Some(Signal::Usr2)
    } else {
        None
    }
}

/// Map a signal name (with or without a leading "SIG") to a signal.
pub fn parse_signal(name: &str) -> (r: Option<Signal>)
    ensures
        r == signal_named(name@),
{
    let trimmed = text::trim(name);
    let upper = text::to_upper(trimmed.as_str());
    let bare = text::strip(upper.as_str(), "SIG");
    let n = bare.as_str();
    if text::str_eq(n, "INT") {
        Some(Signal::Int)
    } else if text::str_eq(n, "TERM") {
        Some(Signal::Term)
    } else if text::str_eq(n, "KILL") {
        Some(Signal::Kill)
    } else if text::str_eq(n, "HUP") {
        Some(Signal::Hup)
    } else if text::str_eq(n, "QUIT") {
        Some(Signal::Quit)
    } else if text::str_eq(n, "TSTP") {
        Some(Signal::Tstp)
    } else if text::str_eq(n, "CONT") {
        Some(Signal::Cont)
    } else if text::str_eq(n, "STOP") {
        Some(Signal::Stop)
    } else if text::str_eq(n, "WINCH") {
        Some(Signal::Winch)
    } else if text::str_eq(n, "USR1") {
        Some(Signal::Usr1)
    } else if text::str_eq(n, "USR2") {
        Some(Signal::Usr2)
    } else {
        None
    }
}

/// The full name of a signal.
pub open spec fn signal_text(s: Signal) -> Seq<char> {
    match s {
        Signal::Int => "SIGINT"@,
        Signal::Term => "SIGTERM"@,
        Signal::Kill => "SIGKILL"@,
        Signal::Hup => "SIGHUP"@,
        Signal::Quit => "SIGQUIT"@,
        Signal::Tstp => "SIGTSTP"@,
        Signal::Cont => "SIGCONT"@,
        Signal::Stop => "SIGSTOP"@,
        Signal::Winch => "SIGWINCH"@,
        Signal::Usr1 => "SIGUSR1"@,
        Signal::Usr2 => "SIGUSR2"@,
    }
}

impl Signal {
    /// The full name of the signal.
    pub fn name(self) -> (r: &'static str)
        ensures
            r@ == signal_text(self),
    {
        match self {
            Signal::Int => "SIGINT",
            Signal::Term => "SIGTERM",
            Signal::Kill => "SIGKILL",
            Signal::Hup => "SIGHUP",
            Signal::Quit => "SIGQUIT",
            Signal::Tstp => "SIGTSTP",
            Signal::Cont => "SIGCONT",
            Signal::Stop => "SIGSTOP",
            Signal::Winch => "SIGWINCH",
            Signal::Usr1 => "SIGUSR1",
            Signal::Usr2 => "SIGUSR2",
        }
    }
}

/// The signal that is asked for, or why there is none.
pub fn wanted_signal(name: &str) -> (r: Result<Signal, error::ToolError>)
    ensures
        r is Ok <==> signal_named(name@) is Some,
        r matches Ok(s) ==> signal_named(name@) == Some(s),
        r matches Err(e) ==> (e matches error::ToolError::UnknownSignal(n) && n@ == name@),
{
    match parse_signal(name) {
        Some(s) => Ok(s),
        None => {
            let unknown = name.to_string();
            Err(error::ToolError::UnknownSignal(unknown))
        },
    }
}

/// What the caller of `signal` is told.
pub fn signal_reply(s: Signal, pid: u32) -> (r: String)
    ensures
        r@ == "sent "@ + signal_text(s) + " to pid "@ + text::dec(pid as nat),
{
    let mut out = String::new();
    out.append("sent ");
    out.append(s.name());
    out.append(" to pid ");
    text::push_dec(&mut out, pid as u64);
    assert(out@ =~= "sent "@ + signal_text(s) + " to pid "@ + text::dec(pid as nat));
    out
}

// ---- Screens and streams ----------------------------------------------------

/// The format that is asked for: plain text unless `ansi` is named.
pub fn screen_format(s: Option<&str>) -> (f: ScreenFormat)
    ensures
        f == (if s is Some && s->0@ == "ansi"@ {
            ScreenFormat::Ansi
        } else {
            ScreenFormat::Text
        }),
{
    match s {
        Some(name) => if text::str_eq(name, "ansi") {
            ScreenFormat::Ansi
        } else {
            ScreenFormat::Text
        },
        None => ScreenFormat::Text,
    }
}

/// The stream that is asked for: stdout unless `stderr` is named.
pub fn wanted_stream(s: Option<&str>) -> (w: Stream)
    ensures
        w == (if s is Some && s->0@ == "stderr"@ {
            Stream::Stderr
        } else {
            Stream::Stdout
        }),
{
    match s {
        Some(name) => if text::str_eq(name, "stderr") {
            Stream::Stderr
        } else {
            Stream::Stdout
        },
        None => Stream::Stdout,
    }
}

/// Format a screen dump as a human-readable block with a status line.
/// Size is width x height. Cursor is x (column) and y (row), both 0-based.
pub fn render_dump(d: &ScreenDump) -> (r: String)
    ensures
        r@ == session::dump_text(*d),
{
    d.render()
}

/// What the caller of `resize` is told.
pub fn resize_reply(cols: u16, rows: u16) -> (r: String)
    ensures
        r@ == "resized to "@ + text::dec(cols as nat) + "x"@ + text::dec(rows as nat),
{
    let mut out = String::new();
    out.append("resized to ");
    text::push_dec(&mut out, cols as u64);
    out.append("x");
    text::push_dec(&mut out, rows as u64);
    assert(out@ =~= "resized to "@ + text::dec(cols as nat) + "x"@ + text::dec(rows as nat));
    out
}

/// The character of a six-bit value in the standard base64 alphabet.
pub open spec fn base64_digit(v: int) -> char {
    if v < 26 {
        ((0x41 + v) as u32) as char
    } else if v < 52 {
        ((0x61 + v - 26) as u32) as char
    } else if v < 62 {
        ((0x30 + v - 52) as u32) as char
    } else if v == 62 {
        '+'
    } else {
        '/'
    }
}

/// A byte of the input, or zero behind its end.
pub open spec fn byte_or_zero(bytes: Seq<u8>, i: int) -> int {
    if i < bytes.len() {
        bytes[i] as int
    } else {
        0
    }
}

/// A character of a base64 text: four characters stand for the 24 bits of three
/// bytes, and those of which no bit belongs to the input are padding.
pub open spec fn base64_char(bytes: Seq<u8>, i: int) -> char {
    let k = 3 * (i / 4);
    let bits = 65536 * byte_or_zero(bytes, k) + 256 * byte_or_zero(bytes, k + 1) + byte_or_zero(
        bytes,
        k + 2,
    );
    if 6 * i >= 8 * bytes.len() {
        '='
    } else if i % 4 == 0 {
        base64_digit(bits / 262144 % 64)
    } else if i % 4 == 1 {
        base64_digit(bits / 4096 % 64)
    } else if i % 4 == 2 {
        base64_digit(bits / 64 % 64)
    } else {
        base64_digit(bits % 64)
    }
}

/// A byte string in base64, in the standard alphabet and with padding.
pub open spec fn base64_text(bytes: Seq<u8>) -> Seq<char> {
    Seq::new(4 * ((bytes.len() + 2) / 3), |i: int| base64_char(bytes, i))
}

/// `Engine::encode` of the `base64` crate's `STANDARD` engine: the padded base64
/// text of the bytes. The text must not be longer than a vector can be.
#[verifier::external_body]
fn base64_encode(bytes: &[u8]) -> (r: String)
    requires
        4 * ((bytes@.len() + 2) / 3) <= isize::MAX,
    ensures
        r@ == base64_text(bytes@),
{
    base64::Engine::encode(&base64::engine::general_purpose::STANDARD, bytes)
}

/// A PNG file as the text that an image reply carries.
pub fn image_text(png: &[u8]) -> (r: String)
    requires
        4 * ((png@.len() + 2) / 3) <= isize::MAX,
    ensures
        r@ == base64_text(png@),
{
    base64_encode(png)
}

// ---- Sleeping ---------------------------------------------------------------

/// The longest sleep, in milliseconds.
pub const MAX_SLEEP_MS: u64 = 60000;

/// How long a sleep takes: as long as asked for, up to the caller's cap and the
/// hard cap.
pub open spec fn slept(ms: u64, max_ms: Option<u64>) -> u64 {
    let cap = match max_ms {
        Some(m) if m < MAX_SLEEP_MS => m,
        _ => MAX_SLEEP_MS,
    };
    if ms < cap {
        ms
    } else {
        cap
    }
}

/// How long to sleep, and what the caller is told.
pub fn sleep(ms: u64, max_ms: Option<u64>) -> (r: (u64, String))
    ensures
        r.0 == slept(ms, max_ms),
        r.0 <= MAX_SLEEP_MS,
        r.1@ == "slept "@ + text::dec(r.0 as nat) + "ms"@,
{
    let cap: u64 = match max_ms {
        Some(m) => if m < MAX_SLEEP_MS {
            m
        } else {
            MAX_SLEEP_MS
        },
        None => MAX_SLEEP_MS,
    };
    let time: u64 = if ms < cap {
        ms
    } else {
        cap
    };
    let mut number = String::new();
    text::push_dec(&mut number, time);
    assert(number@ =~= text::dec(time as nat));
    (time, text::framed("slept ", number.as_str(), "ms"))
}

// ---- Laws -------------------------------------------------------------------

/// What a shell makes of a word: single quotes keep what stands between them, a
/// backslash outside of them keeps the character behind it.
pub open spec fn shell_reading(s: Seq<char>, in_quotes: bool) -> Seq<char>
    decreases s.len(),
{
    if s.len() == 0 {
        Seq::empty()
    } else if s[0] == '\'' {
        shell_reading(s.skip(1), !in_quotes)
    } else if s[0] == '\\' && !in_quotes && s.len() > 1 {
        seq![s[1]] + shell_reading(s.skip(2), in_quotes)
    } else {
        seq![s[0]] + shell_reading(s.skip(1), in_quotes)
    }
}

/// A quoted text means the text: a shell reads it back.
pub proof fn quoting_is_read_back(s: Seq<char>)
    ensures
        shell_reading(quoted(s), false) == s,
{
    if s.len() == 0 || exists|i: int| 0 <= i < s.len() && is_awkward(#[trigger] s[i]) {
        let end = seq!['\''];
        lemma_escaped_is_read_back(s, end);
        let q = quoted(s);
        assert(q.skip(1) =~= quotes_escaped(s) + end);
        assert(end.skip(1) =~= Seq::<char>::empty());
        assert(shell_reading(Seq::<char>::empty(), false) == Seq::<char>::empty());
        assert(shell_reading(end, true) =~= Seq::<char>::empty());
        assert(s + Seq::<char>::empty() =~= s);
    } else {
        lemma_plain_is_read_back(s);
    }
}

proof fn lemma_escaped_is_read_back(s: Seq<char>, rest: Seq<char>)
    ensures
        shell_reading(quotes_escaped(s) + rest, true) == s + shell_reading(rest, true),
    decreases s.len(),
{
    if s.len() == 0 {
        assert(quotes_escaped(s) + rest =~= rest);
        assert(s + shell_reading(rest, true) =~= shell_reading(rest, true));
    } else {
        let init = s.drop_last();
        let c = s.last();
        if c == '\'' {
            let mark = seq!['\'', '\\', '\'', '\''];
            lemma_escaped_is_read_back(init, mark + rest);
            assert(quotes_escaped(s) + rest =~= quotes_escaped(init) + (mark + rest));
            let all = mark + rest;
            let one = all.skip(1);
            let three = one.skip(2);
            assert(one =~= seq!['\\', '\'', '\''] + rest);
            assert(three =~= seq!['\''] + rest);
            assert(three.skip(1) =~= rest);
            assert(shell_reading(all, true) == shell_reading(one, false));
            assert(shell_reading(one, false) == seq!['\''] + shell_reading(three, false));
            assert(shell_reading(three, false) == shell_reading(rest, true));
        } else {
            lemma_escaped_is_read_back(init, seq![c] + rest);
            assert(quotes_escaped(s) + rest =~= quotes_escaped(init) + (seq![c] + rest));
            assert((seq![c] + rest).skip(1) =~= rest);
        }
        assert(init + (seq![c] + shell_reading(rest, true)) =~= s + shell_reading(rest, true));
    }
}

proof fn lemma_plain_is_read_back(s: Seq<char>)
    requires
        forall|i: int| 0 <= i < s.len() ==> !is_awkward(#[trigger] s[i]),
    ensures
        shell_reading(s, false) == s,
    decreases s.len(),
{
    if s.len() > 0 {
        let rest = s.skip(1);
        assert(!is_awkward(s[0]));
        assert forall|i: int| 0 <= i < rest.len() implies !is_awkward(#[trigger] rest[i]) by {
            assert(rest[i] == s[i + 1]);
        }
        lemma_plain_is_read_back(rest);
        assert(seq![s[0]] + rest =~= s);
    }
}

/// No sleep is longer than a minute, than the caller's cap, or than asked for.
pub proof fn sleeps_are_capped(ms: u64, max_ms: Option<u64>)
    ensures
        slept(ms, max_ms) <= 60000,
        slept(ms, max_ms) <= ms,
        max_ms matches Some(m) ==> slept(ms, max_ms) <= m,
{
}

/// Which texts are quoted: an empty one, and one that has whitespace, a quote of either kind,
/// a backslash, a dollar sign or a backquote in it. Quoted texts stand between single quotes,
/// and all others are left as they are.
pub proof fn awkward_texts_are_quoted(s: Seq<char>, i: int)
    ensures
        s.len() == 0 ==> quoted(s) == seq!['\'', '\''],
        0 <= i < s.len() && (text::unicode_whitespace(s[i]) || s[i] == '"' || s[i] == '\'' || s[i]
            == '\\' || s[i] == '$' || s[i] == '`') ==> quoted(s).len() >= s.len() + 2 && quoted(
            s,
        )[0] == '\'' && quoted(s).last() == '\'',
        s.len() > 0 && (forall|k: int|
            0 <= k < s.len() ==> !text::unicode_whitespace(#[trigger] s[k]) && s[k] != '"' && s[k]
                != '\'' && s[k] != '\\' && s[k] != '$' && s[k] != '`') ==> quoted(s) == s,
{
    if s.len() == 0 {
        assert(quoted(s) =~= seq!['\'', '\'']);
    }
    if 0 <= i < s.len() && is_awkward(s[i]) {
        lemma_escaping_lengthens(s);
    }
}

proof fn lemma_escaping_lengthens(s: Seq<char>)
    ensures
        quotes_escaped(s).len() >= s.len(),
    decreases s.len(),
{
    if s.len() > 0 {
        lemma_escaping_lengthens(s.drop_last());
    }
}

/// A session starts under a pseudo terminal unless its mode is exactly `piped`; without a
/// size it has 80 columns and 24 rows, and without a buffer size two mebibytes.
pub proof fn starts_have_their_defaults(mode: Option<String>)
    ensures
        mode is None ==> asks_for_pty(mode),
        mode matches Some(m) ==> (asks_for_pty(mode) <==> m@ != seq!['p', 'i', 'p', 'e', 'd']),
        DEFAULT_COLS == 80,
        DEFAULT_ROWS == 24,
        DEFAULT_BUFFER_BYTES == 2 * 1024 * 1024,
{
    reveal_strlit("piped");
    assert("piped"@ =~= seq!['p', 'i', 'p', 'e', 'd']);
}

/// What is told of a started session: its name, its mode, its command line and directory,
/// and a line for a shell that goes to the directory, quoted, and runs the command line.
pub proof fn starts_are_told(name: Seq<char>, cmdline: Seq<char>, cwd: Seq<char>)
    ensures
        start_text(name, true, cmdline, cwd) == "started session '"@ + name
            + "' (pty mode)\n  command: "@ + cmdline + "\n  cwd: "@ + cwd
            + "\n\n  to reproduce: (cd "@ + quoted(cwd) + " && "@ + cmdline + ")"@,
        start_text(name, false, cmdline, cwd) == "started session '"@ + name
            + "' (piped mode)\n  command: "@ + cmdline + "\n  cwd: "@ + cwd
            + "\n\n  to reproduce: (cd "@ + quoted(cwd) + " && "@ + cmdline + ")"@,
{
    reveal_strlit("' (");
    reveal_strlit("pty");
    reveal_strlit("piped");
    reveal_strlit(" mode)\n  command: ");
    reveal_strlit("' (pty mode)\n  command: ");
    reveal_strlit("' (piped mode)\n  command: ");
    assert("' (pty mode)\n  command: "@ =~= "' ("@ + "pty"@ + " mode)\n  command: "@);
    assert("' (piped mode)\n  command: "@ =~= "' ("@ + "piped"@ + " mode)\n  command: "@);
    let end = "\n  cwd: "@ + cwd + "\n\n  to reproduce: (cd "@ + quoted(cwd) + " && "@ + cmdline
        + ")"@;
    assert(start_text(name, true, cmdline, cwd) =~= "started session '"@ + name
        + "' (pty mode)\n  command: "@ + cmdline + "\n  cwd: "@ + cwd
        + "\n\n  to reproduce: (cd "@ + quoted(cwd) + " && "@ + cmdline + ")"@);
    assert(start_text(name, false, cmdline, cwd) =~= "started session '"@ + name
        + "' (piped mode)\n  command: "@ + cmdline + "\n  cwd: "@ + cwd
        + "\n\n  to reproduce: (cd "@ + quoted(cwd) + " && "@ + cmdline + ")"@);
}

/// An entry of a listing: name, kind, process number or `-`, status or `running`, and on
/// lines of their own the command line and the directory. Entries follow each other in the
/// order of the list.
pub proof fn entries_tell_their_session(list: Seq<SessionInfo>, s: SessionInfo)
    ensures
        ({
            let pid = match s.pid {
                Some(pid) => text::dec(pid as nat),
                None => seq!['-'],
            };
            let status = match s.status {
                Some(status) => status@,
                None => seq!['r', 'u', 'n', 'n', 'i', 'n', 'g'],
            };
            info_text(s) == s.name@ + " ["@ + s.kind@ + ", pid "@ + pid + ", "@ + status
                + "]\n  command: "@ + s.cmdline@ + "\n  cwd: "@ + s.cwd@ + "\n"@
        }),
        infos_text(list, 0).len() == 0,
        infos_text(list.push(s), list.len() + 1) == infos_text(list, list.len()) + info_text(s),
{
    reveal_strlit("-");
    reveal_strlit("running");
    assert("-"@ =~= seq!['-']);
    assert("running"@ =~= seq!['r', 'u', 'n', 'n', 'i', 'n', 'g']);
    lemma_infos_prefix(list, s, list.len());
}

proof fn lemma_infos_prefix(list: Seq<SessionInfo>, s: SessionInfo, n: nat)
    requires
        n <= list.len(),
    ensures
        infos_text(list.push(s), n) == infos_text(list, n),
    decreases n,
{
    if n > 0 {
        lemma_infos_prefix(list, s, (n - 1) as nat);
    }
}

/// A signal is asked for by its name, with `SIG` in front or without, and by nothing else:
/// the case of letters and whitespace around it do not matter. Its full name is told.
pub proof fn signals_have_their_names(name: Seq<char>)
    ensures
        signal_named(name) == Some(Signal::Int) <==> ({
            let n = text::upper(text::trimmed(name));
            n == "INT"@ || n == "SIGINT"@
        }),
        signal_named(name) == Some(Signal::Term) <==> ({
            let n = text::upper(text::trimmed(name));
            n == "TERM"@ || n == "SIGTERM"@
        }),
        signal_named(name) == Some(Signal::Kill) <==> ({
            let n = text::upper(text::trimmed(name));
            n == "KILL"@ || n == "SIGKILL"@
        }),
        signal_named(name) == Some(Signal::Hup) <==> ({
            let n = text::upper(text::trimmed(name));
            n == "HUP"@ || n == "SIGHUP"@
        }),
        signal_named(name) == Some(Signal::Quit) <==> ({
            let n = text::upper(text::trimmed(name));
            n == "QUIT"@ || n == "SIGQUIT"@
        }),
        signal_named(name) == Some(Signal::Tstp) <==> ({
            let n = text::upper(text::trimmed(name));
            n == "TSTP"@ || n == "SIGTSTP"@
        }),
        signal_named(name) == Some(Signal::Cont) <==> ({
            let n = text::upper(text::trimmed(name));
            n == "CONT"@ || n == "SIGCONT"@
        }),
        signal_named(name) == Some(Signal::Stop) <==> ({
            let n = text::upper(text::trimmed(name));
            n == "STOP"@ || n == "SIGSTOP"@
        }),
        signal_named(name) == Some(Signal::Winch) <==> ({
            let n = text::upper(text::trimmed(name));
            n == "WINCH"@ || n == "SIGWINCH"@
        }),
        signal_named(name) == Some(Signal::Usr1) <==> ({
            let n = text::upper(text::trimmed(name));
            n == "USR1"@ || n == "SIGUSR1"@
        }),
        signal_named(name) == Some(Signal::Usr2) <==> ({
            let n = text::upper(text::trimmed(name));
            n == "USR2"@ || n == "SIGUSR2"@
        }),
        signal_text(Signal::Int) == "SIGINT"@,
        signal_text(Signal::Term) == "SIGTERM"@,
        signal_text(Signal::Kill) == "SIGKILL"@,
        signal_text(Signal::Hup) == "SIGHUP"@,
        signal_text(Signal::Quit) == "SIGQUIT"@,
        signal_text(Signal::Tstp) == "SIGTSTP"@,
        signal_text(Signal::Cont) == "SIGCONT"@,
        signal_text(Signal::Stop) == "SIGSTOP"@,
        signal_text(Signal::Winch) == "SIGWINCH"@,
        signal_text(Signal::Usr1) == "SIGUSR1"@,
        signal_text(Signal::Usr2) == "SIGUSR2"@,
{
    let u = text::upper(text::trimmed(name));
    lemma_signal_names_differ();
    lemma_bare_name(u, "INT"@, "SIGINT"@);
    lemma_bare_name(u, "TERM"@, "SIGTERM"@);
    lemma_bare_name(u, "KILL"@, "SIGKILL"@);
    lemma_bare_name(u, "HUP"@, "SIGHUP"@);
    lemma_bare_name(u, "QUIT"@, "SIGQUIT"@);
    lemma_bare_name(u, "TSTP"@, "SIGTSTP"@);
    lemma_bare_name(u, "CONT"@, "SIGCONT"@);
    lemma_bare_name(u, "STOP"@, "SIGSTOP"@);
    lemma_bare_name(u, "WINCH"@, "SIGWINCH"@);
    lemma_bare_name(u, "USR1"@, "SIGUSR1"@);
    lemma_bare_name(u, "USR2"@, "SIGUSR2"@);
}

/// A name is what is left of a text without `SIG` exactly where the text is the name or the
/// name behind `SIG`.
proof fn lemma_bare_name(u: Seq<char>, bare: Seq<char>, full: Seq<char>)
    requires
        full == "SIG"@ + bare,
        !"SIG"@.is_prefix_of(bare),
    ensures
        text::stripped(u, "SIG"@) == bare <==> u == bare || u == full,
{
    text::prefixes_are_taken_off("SIG"@, bare);
    if "SIG"@.is_prefix_of(u) {
        let rest = u.skip("SIG"@.len() as int);
        assert(u =~= "SIG"@ + rest);
        text::prefixes_are_taken_off("SIG"@, rest);
    } else {
        text::prefixes_are_taken_off("SIG"@, u);
    }
}

#[verifier::rlimit(50)]
proof fn lemma_signal_names_differ()
    ensures
        "INT"@ != "TERM"@,
        "INT"@ != "KILL"@,
        "INT"@ != "HUP"@,
        "INT"@ != "QUIT"@,
        "INT"@ != "TSTP"@,
        "INT"@ != "CONT"@,
        "INT"@ != "STOP"@,
        "INT"@ != "WINCH"@,
        "INT"@ != "USR1"@,
        "INT"@ != "USR2"@,
        "TERM"@ != "KILL"@,
        "TERM"@ != "HUP"@,
        "TERM"@ != "QUIT"@,
        "TERM"@ != "TSTP"@,
        "TERM"@ != "CONT"@,
        "TERM"@ != "STOP"@,
        "TERM"@ != "WINCH"@,
        "TERM"@ != "USR1"@,
        "TERM"@ != "USR2"@,
        "KILL"@ != "HUP"@,
        "KILL"@ != "QUIT"@,
        "KILL"@ != "TSTP"@,
        "KILL"@ != "CONT"@,
        "KILL"@ != "STOP"@,
        "KILL"@ != "WINCH"@,
        "KILL"@ != "USR1"@,
        "KILL"@ != "USR2"@,
        "HUP"@ != "QUIT"@,
        "HUP"@ != "TSTP"@,
        "HUP"@ != "CONT"@,
        "HUP"@ != "STOP"@,
        "HUP"@ != "WINCH"@,
        "HUP"@ != "USR1"@,
        "HUP"@ != "USR2"@,
        "QUIT"@ != "TSTP"@,
        "QUIT"@ != "CONT"@,
        "QUIT"@ != "STOP"@,
        "QUIT"@ != "WINCH"@,
        "QUIT"@ != "USR1"@,
        "QUIT"@ != "USR2"@,
        "TSTP"@ != "CONT"@,
        "TSTP"@ != "STOP"@,
        "TSTP"@ != "WINCH"@,
        "TSTP"@ != "USR1"@,
        "TSTP"@ != "USR2"@,
        "CONT"@ != "STOP"@,
        "CONT"@ != "WINCH"@,
        "CONT"@ != "USR1"@,
        "CONT"@ != "USR2"@,
        "STOP"@ != "WINCH"@,
        "STOP"@ != "USR1"@,
        "STOP"@ != "USR2"@,
        "WINCH"@ != "USR1"@,
        "WINCH"@ != "USR2"@,
        "USR1"@ != "USR2"@,
        "SIGINT"@ == "SIG"@ + "INT"@,
        !"SIG"@.is_prefix_of("INT"@),
        "SIGTERM"@ == "SIG"@ + "TERM"@,
        !"SIG"@.is_prefix_of("TERM"@),
        "SIGKILL"@ == "SIG"@ + "KILL"@,
        !"SIG"@.is_prefix_of("KILL"@),
        "SIGHUP"@ == "SIG"@ + "HUP"@,
        !"SIG"@.is_prefix_of("HUP"@),
        "SIGQUIT"@ == "SIG"@ + "QUIT"@,
        !"SIG"@.is_prefix_of("QUIT"@),
        "SIGTSTP"@ == "SIG"@ + "TSTP"@,
        !"SIG"@.is_prefix_of("TSTP"@),
        "SIGCONT"@ == "SIG"@ + "CONT"@,
        !"SIG"@.is_prefix_of("CONT"@),
        "SIGSTOP"@ == "SIG"@ + "STOP"@,
        !"SIG"@.is_prefix_of("STOP"@),
        "SIGWINCH"@ == "SIG"@ + "WINCH"@,
        !"SIG"@.is_prefix_of("WINCH"@),
        "SIGUSR1"@ == "SIG"@ + "USR1"@,
        !"SIG"@.is_prefix_of("USR1"@),
        "SIGUSR2"@ == "SIG"@ + "USR2"@,
        !"SIG"@.is_prefix_of("USR2"@),
{
    reveal_strlit("SIG");
    reveal_strlit("INT");
    reveal_strlit("SIGINT");
    assert("SIGINT"@ =~= "SIG"@ + "INT"@);
    reveal_strlit("TERM");
    reveal_strlit("SIGTERM");
    assert("SIGTERM"@ =~= "SIG"@ + "TERM"@);
    reveal_strlit("KILL");
    reveal_strlit("SIGKILL");
    assert("SIGKILL"@ =~= "SIG"@ + "KILL"@);
    reveal_strlit("HUP");
    reveal_strlit("SIGHUP");
    assert("SIGHUP"@ =~= "SIG"@ + "HUP"@);
    reveal_strlit("QUIT");
    reveal_strlit("SIGQUIT");
    assert("SIGQUIT"@ =~= "SIG"@ + "QUIT"@);
    reveal_strlit("TSTP");
    reveal_strlit("SIGTSTP");
    assert("SIGTSTP"@ =~= "SIG"@ + "TSTP"@);
    reveal_strlit("CONT");
    reveal_strlit("SIGCONT");
    assert("SIGCONT"@ =~= "SIG"@ + "CONT"@);
    reveal_strlit("STOP");
    reveal_strlit("SIGSTOP");
    assert("SIGSTOP"@ =~= "SIG"@ + "STOP"@);
    reveal_strlit("WINCH");
    reveal_strlit("SIGWINCH");
    assert("SIGWINCH"@ =~= "SIG"@ + "WINCH"@);
    reveal_strlit("USR1");
    reveal_strlit("SIGUSR1");
    assert("SIGUSR1"@ =~= "SIG"@ + "USR1"@);
    reveal_strlit("USR2");
    reveal_strlit("SIGUSR2");
    assert("SIGUSR2"@ =~= "SIG"@ + "USR2"@);
    assert("INT"@.len() != "TERM"@.len());
    assert("INT"@.len() != "KILL"@.len());
    assert("INT"@[0] != "HUP"@[0]);
    assert("INT"@.len() != "QUIT"@.len());
    assert("INT"@.len() != "TSTP"@.len());
    assert("INT"@.len() != "CONT"@.len());
    assert("INT"@.len() != "STOP"@.len());
    assert("INT"@.len() != "WINCH"@.len());
    assert("INT"@.len() != "USR1"@.len());
    assert("INT"@.len() != "USR2"@.len());
    assert("TERM"@[0] != "KILL"@[0]);
    assert("TERM"@.len() != "HUP"@.len());
    assert("TERM"@[0] != "QUIT"@[0]);
    assert("TERM"@[1] != "TSTP"@[1]);
    assert("TERM"@[0] != "CONT"@[0]);
    assert("TERM"@[0] != "STOP"@[0]);
    assert("TERM"@.len() != "WINCH"@.len());
    assert("TERM"@[0] != "USR1"@[0]);
    assert("TERM"@[0] != "USR2"@[0]);
    assert("KILL"@.len() != "HUP"@.len());
    assert("KILL"@[0] != "QUIT"@[0]);
    assert("KILL"@[0] != "TSTP"@[0]);
    assert("KILL"@[0] != "CONT"@[0]);
    assert("KILL"@[0] != "STOP"@[0]);
    assert("KILL"@.len() != "WINCH"@.len());
    assert("KILL"@[0] != "USR1"@[0]);
    assert("KILL"@[0] != "USR2"@[0]);
    assert("HUP"@.len() != "QUIT"@.len());
    assert("HUP"@.len() != "TSTP"@.len());
    assert("HUP"@.len() != "CONT"@.len());
    assert("HUP"@.len() != "STOP"@.len());
    assert("HUP"@.len() != "WINCH"@.len());
    assert("HUP"@.len() != "USR1"@.len());
    assert("HUP"@.len() != "USR2"@.len());
    assert("QUIT"@[0] != "TSTP"@[0]);
    assert("QUIT"@[0] != "CONT"@[0]);
    assert("QUIT"@[0] != "STOP"@[0]);
    assert("QUIT"@.len() != "WINCH"@.len());
    assert("QUIT"@[0] != "USR1"@[0]);
    assert("QUIT"@[0] != "USR2"@[0]);
    assert("TSTP"@[0] != "CONT"@[0]);
    assert("TSTP"@[0] != "STOP"@[0]);
    assert("TSTP"@.len() != "WINCH"@.len());
    assert("TSTP"@[0] != "USR1"@[0]);
    assert("TSTP"@[0] != "USR2"@[0]);
    assert("CONT"@[0] != "STOP"@[0]);
    assert("CONT"@.len() != "WINCH"@.len());
    assert("CONT"@[0] != "USR1"@[0]);
    assert("CONT"@[0] != "USR2"@[0]);
    assert("STOP"@.len() != "WINCH"@.len());
    assert("STOP"@[0] != "USR1"@[0]);
    assert("STOP"@[0] != "USR2"@[0]);
    assert("WINCH"@.len() != "USR1"@.len());
    assert("WINCH"@.len() != "USR2"@.len());
    assert("USR1"@[3] != "USR2"@[3]);
    assert(!"SIG"@.is_prefix_of("INT"@)) by {
        if "SIG"@.is_prefix_of("INT"@) {
            assert("INT"@.subrange(0, 3)[1] == "INT"@[1]);
            assert("INT"@.subrange(0, 3)[0] == "INT"@[0]);
        }
    }
    assert(!"SIG"@.is_prefix_of("TERM"@)) by {
        if "SIG"@.is_prefix_of("TERM"@) {
            assert("TERM"@.subrange(0, 3)[1] == "TERM"@[1]);
            assert("TERM"@.subrange(0, 3)[0] == "TERM"@[0]);
        }
    }
    assert(!"SIG"@.is_prefix_of("KILL"@)) by {
        if "SIG"@.is_prefix_of("KILL"@) {
            assert("KILL"@.subrange(0, 3)[1] == "KILL"@[1]);
            assert("KILL"@.subrange(0, 3)[0] == "KILL"@[0]);
        }
    }
    assert(!"SIG"@.is_prefix_of("HUP"@)) by {
        if "SIG"@.is_prefix_of("HUP"@) {
            assert("HUP"@.subrange(0, 3)[1] == "HUP"@[1]);
            assert("HUP"@.subrange(0, 3)[0] == "HUP"@[0]);
        }
    }
    assert(!"SIG"@.is_prefix_of("QUIT"@)) by {
        if "SIG"@.is_prefix_of("QUIT"@) {
            assert("QUIT"@.subrange(0, 3)[1] == "QUIT"@[1]);
            assert("QUIT"@.subrange(0, 3)[0] == "QUIT"@[0]);
        }
    }
    assert(!"SIG"@.is_prefix_of("TSTP"@)) by {
        if "SIG"@.is_prefix_of("TSTP"@) {
            assert("TSTP"@.subrange(0, 3)[1] == "TSTP"@[1]);
            assert("TSTP"@.subrange(0, 3)[0] == "TSTP"@[0]);
        }
    }
    assert(!"SIG"@.is_prefix_of("CONT"@)) by {
        if "SIG"@.is_prefix_of("CONT"@) {
            assert("CONT"@.subrange(0, 3)[1] == "CONT"@[1]);
            assert("CONT"@.subrange(0, 3)[0] == "CONT"@[0]);
        }
    }
    assert(!"SIG"@.is_prefix_of("STOP"@)) by {
        if "SIG"@.is_prefix_of("STOP"@) {
            assert("STOP"@.subrange(0, 3)[1] == "STOP"@[1]);
            assert("STOP"@.subrange(0, 3)[0] == "STOP"@[0]);
        }
    }
    assert(!"SIG"@.is_prefix_of("WINCH"@)) by {
        if "SIG"@.is_prefix_of("WINCH"@) {
            assert("WINCH"@.subrange(0, 3)[1] == "WINCH"@[1]);
            assert("WINCH"@.subrange(0, 3)[0] == "WINCH"@[0]);
        }
    }
    assert(!"SIG"@.is_prefix_of("USR1"@)) by {
        if "SIG"@.is_prefix_of("USR1"@) {
            assert("USR1"@.subrange(0, 3)[1] == "USR1"@[1]);
            assert("USR1"@.subrange(0, 3)[0] == "USR1"@[0]);
        }
    }
    assert(!"SIG"@.is_prefix_of("USR2"@)) by {
        if "SIG"@.is_prefix_of("USR2"@) {
            assert("USR2"@.subrange(0, 3)[1] == "USR2"@[1]);
            assert("USR2"@.subrange(0, 3)[0] == "USR2"@[0]);
        }
    }
}

/// A sleep is as long as asked for wherever neither the caller's cap nor a minute is shorter,
/// and as long as the shorter of these otherwise.
pub proof fn sleeps_are_no_shorter_than_needed(ms: u64, cap: u64)
    ensures
        ms <= 60000 ==> slept(ms, None) == ms,
        ms > 60000 ==> slept(ms, None) == 60000,
        ms <= cap && ms <= 60000 ==> slept(ms, Some(cap)) == ms,
        cap <= ms && cap <= 60000 ==> slept(ms, Some(cap)) == cap,
        60000 <= ms && 60000 <= cap ==> slept(ms, Some(cap)) == 60000,
        MAX_SLEEP_MS == 60000,
{
}

/// The value of a character of the standard base64 alphabet: capital letters, small letters,
/// digits, plus and slash.
pub open spec fn base64_value(c: char) -> int {
    if 'A' <= c <= 'Z' {
        c as int - 'A' as int
    } else if 'a' <= c <= 'z' {
        26 + (c as int - 'a' as int)
    } else if '0' <= c <= '9' {
        52 + (c as int - '0' as int)
    } else if c == '+' {
        62
    } else {
        63
    }
}

/// A base64 text has four characters for each three bytes begun, and reads back as the
/// bytes: the first byte of each three is in the first two characters, the second in the
/// second and third, and the last in the last two. What no byte is in is an equals sign.
pub proof fn base64_reads_back(bytes: Seq<u8>, g: int)
    requires
        0 <= g,
        3 * g < bytes.len(),
    ensures
        ({
            let t = base64_text(bytes);
            let a = base64_value(t[4 * g]);
            let b = base64_value(t[4 * g + 1]);
            let c = base64_value(t[4 * g + 2]);
            let d = base64_value(t[4 * g + 3]);
            &&& t.len() == 4 * ((bytes.len() + 2) / 3)
            &&& bytes[3 * g] == 4 * a + b / 16
            &&& 3 * g + 1 < bytes.len() ==> bytes[3 * g + 1] == 16 * (b % 16) + c / 4
            &&& 3 * g + 2 < bytes.len() ==> bytes[3 * g + 2] == 64 * (c % 4) + d
            &&& 3 * g + 1 >= bytes.len() ==> t[4 * g + 2] == '=' && t[4 * g + 3] == '='
            &&& 3 * g + 2 >= bytes.len() ==> t[4 * g + 3] == '='
            &&& 3 * g + 1 < bytes.len() ==> t[4 * g + 2] != '='
            &&& 3 * g + 2 < bytes.len() ==> t[4 * g + 3] != '='
        }),
{
    let x = byte_or_zero(bytes, 3 * g);
    let y = byte_or_zero(bytes, 3 * g + 1);
    let z = byte_or_zero(bytes, 3 * g + 2);
    let bits = 65536 * x + 256 * y + z;
    let t = base64_text(bytes);
    assert(4 * g / 4 == g);
    assert((4 * g + 1) / 4 == g);
    assert((4 * g + 2) / 4 == g);
    assert((4 * g + 3) / 4 == g);
    let p = bits / 262144 % 64;
    let q = bits / 4096 % 64;
    let r = bits / 64 % 64;
    let s = bits % 64;
    lemma_base64_digit(p);
    lemma_base64_digit(q);
    lemma_base64_digit(r);
    lemma_base64_digit(s);
    lemma_base64_bits(x, y, z);
    lemma_base64_length(bytes.len() as int, g);
    assert(t[4 * g] == base64_char(bytes, 4 * g));
    assert(t[4 * g + 1] == base64_char(bytes, 4 * g + 1));
    assert(t[4 * g + 2] == base64_char(bytes, 4 * g + 2));
    assert(t[4 * g + 3] == base64_char(bytes, 4 * g + 3));
}

proof fn lemma_base64_length(n: int, g: int)
    requires
        0 <= g,
        3 * g < n,
    ensures
        4 * g + 3 < 4 * ((n + 2) / 3),
{
}

proof fn lemma_base64_bits(x: int, y: int, z: int)
    requires
        0 <= x < 256,
        0 <= y < 256,
        0 <= z < 256,
    ensures
        ({
            let bits = 65536 * x + 256 * y + z;
            let p = bits / 262144 % 64;
            let q = bits / 4096 % 64;
            let r = bits / 64 % 64;
            let s = bits % 64;
            &&& x == 4 * p + q / 16
            &&& y == 16 * (q % 16) + r / 4
            &&& z == 64 * (r % 4) + s
        }),
{
    let a = x / 4;
    let b = x % 4;
    let c = y / 16;
    let d = y % 16;
    let e = z / 64;
    let f = z % 64;
    let high = 64 * a + (16 * b + c);
    let low = 64 * (4 * d + e) + f;
    assert(65536 * x + 256 * y + z == 4096 * high + low);
    lemma_parts(4096, high, low);
    lemma_parts(64, a, 16 * b + c);
    lemma_parts(64, 4 * d + e, f);
    lemma_parts(64, 64 * high + (4 * d + e), f);
    lemma_parts(64, high, 4 * d + e);
    lemma_parts(262144, a, 4096 * (16 * b + c) + low);
    lemma_parts(16, b, c);
    lemma_parts(4, d, e);
}

/// Quotient and remainder of a number that is given by them.
proof fn lemma_parts(n: int, q: int, r: int)
    requires
        n > 0,
        0 <= r < n,
    ensures
        (n * q + r) / n == q,
        (n * q + r) % n == r,
{
    vstd::arithmetic::mul::lemma_mul_is_commutative(n, q);
    vstd::arithmetic::div_mod::lemma_fundamental_div_mod_converse(n * q + r, n, q, r);
}

proof fn lemma_base64_digit(v: int)
    requires
        0 <= v < 64,
    ensures
        base64_value(base64_digit(v)) == v,
        base64_digit(v) != '=',
{
}

} // verus!
