use std::collections::HashMap;
use tui_mcp::error::{require_kind, SessionKind, Tool, ToolError};
use tui_mcp::registry::SessionInfo;
use tui_mcp::session::{ScreenDump, ScreenFormat, Stream};
use tui_mcp::tools::{
    image_text, list_reply, parse_signal, purge_reply, render_dump, resize_reply, screen_format,
    shell_quote, signal_reply, sleep, start_options, start_reply, stop_reply, wanted_signal,
    wanted_stream, Signal, StartRequest,
};

fn request(mode: Option<&str>) -> StartRequest {
    StartRequest {
        command: "vim".to_string(),
        args: vec!["a b".to_string()],
        cwd: None,
        env: HashMap::from([("TERM".to_string(), "xterm".to_string())]),
        cols: None,
        rows: Some(50),
        mode: mode.map(|m| m.to_string()),
        buffer_bytes: None,
    }
}

#[test]
fn screen_format_selects_ansi() {
    assert!(matches!(screen_format(Some("ansi")), ScreenFormat::Ansi));
    assert!(matches!(screen_format(Some("text")), ScreenFormat::Text));
    assert!(matches!(screen_format(None), ScreenFormat::Text));
}

#[test]
fn streams_are_stdout_unless_named() {
    assert_eq!(wanted_stream(Some("stderr")), Stream::Stderr);
    assert_eq!(wanted_stream(Some("STDERR")), Stream::Stdout);
    assert_eq!(wanted_stream(None), Stream::Stdout);
}

#[test]
fn starting_has_defaults() {
    let (pty, opts) = start_options(request(None));
    assert!(pty);
    assert_eq!((opts.cols, opts.rows), (80, 50));
    assert_eq!(opts.buffer_bytes, 2 * 1024 * 1024);
    assert_eq!(opts.command, "vim");
    assert_eq!(opts.args, vec!["a b".to_string()]);
    assert_eq!(opts.env["TERM"], "xterm");
    assert!(!start_options(request(Some("piped"))).0);
    assert!(start_options(request(Some("anything"))).0);
}

#[test]
fn start_reply_can_be_reproduced() {
    assert_eq!(
        start_reply("s", true, "vim \"a b\"", "/my dir"),
        "started session 's' (pty mode)\n  command: vim \"a b\"\n  cwd: /my dir\n\n  \
         to reproduce: (cd '/my dir' && vim \"a b\")"
    );
    assert!(start_reply("s", false, "cat", "/").contains("(piped mode)"));
}

#[test]
fn shell_words_are_quoted_where_needed() {
    assert_eq!(shell_quote("/usr/bin"), "/usr/bin");
    assert_eq!(shell_quote(""), "''");
    assert_eq!(shell_quote("it's"), r"'it'\''s'");
    assert_eq!(shell_quote("a b"), "'a b'");
    assert_eq!(shell_quote("$HOME"), "'$HOME'");
    assert_eq!(shell_quote("a\"b"), "'a\"b'");
    assert_eq!(shell_quote(r"a\b"), r"'a\b'");
    assert_eq!(shell_quote("`x`"), "'`x`'");
    assert_eq!(shell_quote("a\u{2003}b"), "'a\u{2003}b'");
}

#[test]
fn listings_tell_of_every_session() {
    assert_eq!(list_reply(&[]), "no active sessions");
    let list = vec![
        SessionInfo {
            name: "a".to_string(),
            kind: "pty",
            pid: Some(42),
            cmdline: "vim x".to_string(),
            cwd: "/tmp".to_string(),
            status: None,
        },
        SessionInfo {
            name: "b".to_string(),
            kind: "piped",
            pid: None,
            cmdline: "cat".to_string(),
            cwd: "/".to_string(),
            status: Some("exit status: 0".to_string()),
        },
    ];
    assert_eq!(
        list_reply(&list),
        "a [pty, pid 42, running]\n  command: vim x\n  cwd: /tmp\n\
         b [piped, pid -, exit status: 0]\n  command: cat\n  cwd: /\n"
    );
}

#[test]
fn stop_purge_and_resize_replies() {
    assert_eq!(stop_reply("x"), "stopped session 'x'");
    assert_eq!(purge_reply(&[]), "no exited sessions to purge");
    assert_eq!(
        purge_reply(&["a".to_string(), "b".to_string()]),
        "purged 2: a, b"
    );
    assert_eq!(resize_reply(120, 40), "resized to 120x40");
}

#[test]
fn signals_are_found_by_name() {
    let table = vec![
        ("INT", Signal::Int, "SIGINT"),
        ("term", Signal::Term, "SIGTERM"),
        ("SIGKILL", Signal::Kill, "SIGKILL"),
        (" sighup\n", Signal::Hup, "SIGHUP"),
        ("Quit", Signal::Quit, "SIGQUIT"),
        ("TSTP", Signal::Tstp, "SIGTSTP"),
        ("CONT", Signal::Cont, "SIGCONT"),
        ("STOP", Signal::Stop, "SIGSTOP"),
        ("WINCH", Signal::Winch, "SIGWINCH"),
        ("USR1", Signal::Usr1, "SIGUSR1"),
        ("sigusr2", Signal::Usr2, "SIGUSR2"),
    ];
    for (name, signal, full) in table {
        assert_eq!(parse_signal(name), Some(signal));
        assert_eq!(signal_reply(signal, 7), format!("sent {full} to pid 7"));
    }
    assert_eq!(parse_signal("SIGSIGINT"), None);
    assert_eq!(parse_signal("SEGV"), None);
    assert_eq!(wanted_signal("hup"), Ok(Signal::Hup));
    let e = wanted_signal("nope").unwrap_err();
    assert_eq!(e.message(), "unknown signal 'nope'");
    assert!(e.is_invalid_params());
}

#[test]
fn dumps_have_a_status_line() {
    let d = ScreenDump {
        text: "x".to_string(),
        cursor_row: 1,
        cursor_col: 2,
        cursor_hidden: true,
        rows: 3,
        cols: 4,
    };
    assert_eq!(render_dump(&d), "[size 4W x 3H] cursor=(x2, y1) hidden\nx");
}

#[test]
fn sleeping_is_capped() {
    assert_eq!(sleep(100, None), (100, "slept 100ms".to_string()));
    assert_eq!(sleep(100, Some(30)).0, 30);
    assert_eq!(sleep(100_000, Some(90_000)).0, 60_000);
    assert_eq!(sleep(100_000, None), (60_000, "slept 60000ms".to_string()));
}

#[test]
fn images_are_sent_in_base64() {
    assert_eq!(image_text(b""), "");
    assert_eq!(image_text(b"f"), "Zg==");
    assert_eq!(image_text(b"fo"), "Zm8=");
    assert_eq!(image_text(b"foo"), "Zm9v");
    assert_eq!(image_text(b"foobar"), "Zm9vYmFy");
    assert_eq!(image_text(&[0xfb, 0xff, 0xbf, 0x00, 0x10, 0x83]), "+/+/ABCD");
}

#[test]
fn tools_refuse_sessions_of_the_wrong_kind() {
    let pty = SessionKind::Pty { kitty_flags: 0, paste: false };
    let table = vec![
        (Tool::ReadScreen, true, "session is piped, use read_output instead"),
        (Tool::Screenshot, true, "screenshots need a pty session"),
        (Tool::Scrollback, true, "scrollback needs a pty session"),
        (Tool::Resize, true, "cannot resize a piped session"),
        (Tool::ReadOutput, false, "session is pty, use read_screen instead"),
        (Tool::CloseStdin, false, "not a piped session"),
        (Tool::WaitForText, true, "wait_for_text needs a pty session"),
        (Tool::WaitForChange, true, "wait_for_change needs a pty session"),
        (Tool::WaitForStable, true, "wait_for_stable needs a pty session"),
        (Tool::WaitForOutput, false, "wait_for_output needs a piped session"),
    ];
    for (tool, wants_pty, message) in table {
        let (right, wrong) = if wants_pty {
            (pty, SessionKind::Piped)
        } else {
            (SessionKind::Piped, pty)
        };
        assert_eq!(require_kind(tool, right), Ok(()));
        let e = require_kind(tool, wrong).unwrap_err();
        assert_eq!(e, ToolError::WrongKind(tool));
        assert_eq!(e.message(), message);
        assert!(!e.is_invalid_params());
    }
}

/// What a shell makes of a word with single quotes and backslashes.
fn shell_reading(word: &str) -> String {
    let mut out = String::new();
    let mut quoted = false;
    let mut chars = word.chars();
    while let Some(c) = chars.next() {
        match c {
            '\'' => quoted = !quoted,
            '\\' if !quoted => out.extend(chars.next()),
            _ => out.push(c),
        }
    }
    out
}

#[test]
fn quoted_words_are_read_back() {
    for s in ["", "plain", "it's", "''", "a b\\c", "$x `y` \"z\"", "'", "tab\there"] {
        assert_eq!(shell_reading(&shell_quote(s)), s);
    }
}
