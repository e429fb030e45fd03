use std::collections::HashMap;
use tui_mcp::error::SessionKind;
use tui_mcp::session::{
    cursor_position_report, format_cmdline, resolve_cwd, PipedSession, PtySession, ScreenFormat,
    Session, SpawnOpts, Stream, StreamBuf, MIN_STREAM_BYTES, PTY_SCROLLBACK_LINES,
};

fn opts(command: &str, args: &[&str], cwd: Option<&str>) -> SpawnOpts {
    SpawnOpts {
        command: command.to_string(),
        args: args.iter().map(|a| a.to_string()).collect(),
        cwd: cwd.map(|c| c.to_string()),
        env: HashMap::new(),
        cols: 80,
        rows: 25,
        buffer_bytes: 0,
    }
}

fn terminal(rows: u16, cols: u16) -> PtySession {
    PtySession::new(&SpawnOpts { rows, cols, ..opts("sh", &[], None) }, None)
}

fn showing(rows: u16, cols: u16, output: &str) -> PtySession {
    let mut s = terminal(rows, cols);
    assert!(s.on_output(output.as_bytes()).fed);
    s
}

#[test]
fn cursor_report_is_one_based_row_then_col() {
    // DSR reply is `CSI row;col R`, 1-based, row before col.
    assert_eq!(cursor_position_report(0, 0), "\x1b[1;1R");
    assert_eq!(cursor_position_report(24, 79), "\x1b[25;80R");
}

#[test]
fn command_lines_quote_empty_and_spaced_arguments() {
    assert_eq!(
        format_cmdline(&opts("vim", &["-u", "NONE", "my file.txt", ""], None)),
        "vim -u NONE \"my file.txt\" \"\""
    );
    assert_eq!(format_cmdline(&opts("htop", &[], None)), "htop");
    assert_eq!(format_cmdline(&opts("x", &["a\u{a0}b"], None)), "x \"a\u{a0}b\"");
}

#[test]
fn directories_are_resolved_in_order() {
    let here = Some("/srv".to_string());
    assert_eq!(resolve_cwd(&opts("x", &[], Some("/tmp")), here.clone()), "/tmp");
    assert_eq!(resolve_cwd(&opts("x", &[], None), here), "/srv");
    assert_eq!(resolve_cwd(&opts("x", &[], None), None), ".");
}

#[test]
fn stream_buffer_keeps_the_newest_bytes() {
    let mut b = StreamBuf::new(0);
    b.push(&[b'a'; 4000]);
    assert_eq!(b.dropped(), 0);
    b.push(&[b'b'; 100]);
    assert_eq!(b.dropped(), 4);
    let text = b.read(false);
    let notice = "[tui_mcp: 4 earlier byte(s) dropped. Output buffer capped at 4096 bytes, \
                  read more often with clear=true to avoid loss]\n";
    assert!(text.starts_with(notice));
    let rest = &text[notice.len()..];
    assert_eq!(rest.len(), MIN_STREAM_BYTES);
    assert!(rest.starts_with("aaa") && rest.ends_with("bbb"));
}

#[test]
fn clearing_a_stream_keeps_the_count_of_dropped_bytes() {
    let mut b = StreamBuf::new(5000);
    b.push(&[b'x'; 5001]);
    assert!(b.read(true).ends_with('x'));
    assert_eq!(
        b.read(false),
        "[tui_mcp: 1 earlier byte(s) dropped. Output buffer capped at 5000 bytes, \
         read more often with clear=true to avoid loss]\n"
    );
}

#[test]
fn stream_chunks_add_up() {
    let mut whole = StreamBuf::new(0);
    let mut parts = StreamBuf::new(0);
    let data: Vec<u8> = (0..9000).map(|i| b'a' + (i % 26) as u8).collect();
    whole.push(&data);
    for chunk in data.chunks(700) {
        parts.push(chunk);
    }
    assert_eq!(whole.dropped(), 9000 - 4096);
    assert_eq!(whole.dropped(), parts.dropped());
    assert_eq!(whole.read(false), parts.read(false));
}

#[test]
fn ill_formed_output_is_replaced() {
    let mut b = StreamBuf::new(0);
    b.push(b"a\xffb");
    assert_eq!(b.read(true), "a\u{fffd}b");
    assert_eq!(b.read(true), "");
}

#[test]
fn piped_streams_are_separate() {
    let mut s = PipedSession::new(&opts("cat", &["-n"], None), Some("/here".to_string()));
    s.on_output(Stream::Stdout, b"out");
    s.on_output(Stream::Stderr, b"err");
    assert_eq!(s.read_stream(Stream::Stdout, false), "out");
    assert_eq!(s.read_stream(Stream::Stderr, true), "err");
    assert_eq!(s.read_stream(Stream::Stderr, false), "");
    assert_eq!(s.read_stream(Stream::Stdout, true), "out");
    assert_eq!(s.dropped(Stream::Stdout), 0);
    assert_eq!(s.cmdline(), "cat -n");
    assert_eq!(s.cwd(), "/here");
}

#[test]
fn pty_output_is_answered_with_flags_and_cursor() {
    let mut s = PtySession::new(&opts("vim", &[], Some("/x")), None);
    assert_eq!(s.size(), (80, 25));
    assert!(s.on_output(b"ab\r\ncd").reply.is_empty());
    let handled = s.on_output(b"\x1b[>5u\x1b[?u\x1b[6n");
    assert_eq!(handled.reply, b"\x1b[?5u\x1b[2;3R");
    assert!(handled.fed);
    // The cursor is where it was before the chunk.
    assert_eq!(s.on_output(b"efg\x1b[6n").reply, b"\x1b[2;3R");
    assert_eq!(s.on_output(b"\x1b[6n").reply, b"\x1b[2;6R");
    assert_eq!(s.kitty_flags(), 5);
    assert!(!s.paste_enabled());
    assert!(s.on_output(b"\x1b[?2004h").reply.is_empty());
    assert!(s.paste_enabled());
    s.resize(100, 30);
    assert_eq!(s.size(), (100, 30));
    assert_eq!(s.cmdline(), "vim");
    assert_eq!(s.cwd(), "/x");
    let session = Session::Pty(s);
    assert_eq!(session.kind(), SessionKind::Pty { kitty_flags: 5, paste: true });
}

#[test]
fn piped_sessions_have_their_kind() {
    let session = Session::Piped(PipedSession::new(&opts("cat", &[], None), None));
    assert_eq!(session.kind(), SessionKind::Piped);
}

#[test]
fn dumps_show_text_cursor_and_size() {
    let s = showing(3, 10, "hello\r\n  x\x1b[?25l");
    let d = s.dump(ScreenFormat::Text);
    assert_eq!(d.text, "hello\n  x");
    assert_eq!((d.cursor_row, d.cursor_col), (1, 3));
    assert!(d.cursor_hidden);
    assert_eq!((d.rows, d.cols), (3, 10));
    assert_eq!(d.render(), "[size 10W x 3H] cursor=(x3, y1) hidden\nhello\n  x");
}

#[test]
fn ansi_dumps_carry_escape_sequences() {
    let s = showing(3, 10, "\x1b[31mred");
    let d = s.try_dump(ScreenFormat::Ansi).unwrap();
    assert!(d.text.contains("\x1b[31m"));
    assert!(d.text.contains("red"));
    let plain = s.try_dump(ScreenFormat::Text).unwrap();
    assert_eq!(plain.text, "red");
    assert_eq!(plain.render(), "[size 10W x 3H] cursor=(x3, y0)\nred");
}

#[test]
fn history_is_complete_and_in_order() {
    for rows in 2..6u16 {
        let mut s = terminal(rows, 20);
        let mut expected: Vec<String> = Vec::new();
        for i in 0..17 {
            assert!(s.on_output(format!("line {i}\r\n").as_bytes()).fed);
            expected.push(format!("line {i}"));
        }
        assert_eq!(s.scrollback_lines(), expected, "{rows} rows");
        assert_eq!(s.screen().scrollback(), 0);
        // Reading leaves everything as it was.
        assert_eq!(s.scrollback_lines(), expected, "{rows} rows");
    }
}

#[test]
fn history_keeps_blank_lines_inside_and_drops_them_at_the_end() {
    let mut s = showing(4, 20, "one\r\n\r\ntwo\r\n   \r\n");
    assert_eq!(s.scrollback_lines(), vec!["one", "", "two"]);
    assert!(terminal(4, 20).scrollback_lines().is_empty());
}

#[test]
fn history_is_as_long_as_the_emulator_keeps() {
    let mut s = terminal(2, 20);
    for i in 0..5010 {
        s.on_output(format!("line {i}\r\n").as_bytes());
    }
    let lines = s.scrollback_lines();
    // The last row is blank, so 5000 lines above the screen and one of it are left.
    assert_eq!(lines.len(), PTY_SCROLLBACK_LINES + 1);
    assert_eq!(lines[0], "line 9");
    assert_eq!(lines[PTY_SCROLLBACK_LINES], "line 5009");
}

#[test]
fn output_is_given_to_the_emulator_once_and_in_order() {
    let mut s = terminal(5, 20);
    let mut p = vt100::Parser::new(5, 20, PTY_SCROLLBACK_LINES);
    for chunk in ["one ", "\x1b[3", "1mtwo\r\n", "three\x1b[2;2Hx", "\u{6f22}\u{5b57}"] {
        assert!(s.on_output(chunk.as_bytes()).fed);
        p.process(chunk.as_bytes());
        assert_eq!(s.screen().state_formatted(), p.screen().state_formatted());
    }
    s.resize(30, 8);
    p.screen_mut().set_size(8, 30);
    assert_eq!(s.screen().size(), (8, 30));
    assert_eq!(s.dump(ScreenFormat::Text).cols, 30);
    assert!(s.on_output(b"\x1b[8;1Hlast").fed);
    p.process(b"\x1b[8;1Hlast");
    assert_eq!(s.screen().state_formatted(), p.screen().state_formatted());
}

#[test]
fn narrowed_terminals_are_left_to_the_program() {
    let mut s = showing(5, 20, "wide \u{6f22}");
    s.resize(19, 5);
    assert_eq!(s.screen().size(), (5, 19));
    let handled = s.on_output(b"\x1b[6nmore");
    assert_eq!(handled.reply, b"\x1b[1;8R");
    assert!(!handled.fed);
    assert_eq!(s.dump(ScreenFormat::Text).text, "wide \u{6f22}");
    s.emulator_mut().parser.process(b" more");
    assert_eq!(s.dump(ScreenFormat::Text).text, "wide \u{6f22} more");
    assert_eq!(s.scrollback_lines(), vec!["wide \u{6f22} more"]);
    // It stays so when the terminal grows again.
    s.resize(40, 10);
    assert!(!s.on_output(b"x").fed);
}

#[test]
fn terminals_with_ascii_output_can_become_narrower() {
    let mut s = showing(5, 20, "left and right end");
    s.resize(8, 3);
    assert!(s.on_output(b"\r\nmore").fed);
    assert_eq!(s.dump(ScreenFormat::Text).text, "left and\nmore");
    // Wide characters come later, and the width stays.
    assert!(s.on_output("\u{6f22}\u{5b57}\u{6f22}".as_bytes()).fed);
    s.resize(8, 6);
    assert!(s.on_output(b"x").fed);
    s.resize(7, 6);
    assert!(!s.on_output(b"x").fed);
}

#[test]
fn the_smallest_and_the_widest_terminals_that_are_fed() {
    let full = "\u{17d8}ab\u{6f22}\t\r\n".repeat(9);
    for (rows, cols, fed) in
        [(2, 3, true), (1, 3, false), (2, 2, false), (2, 0xfff7, true), (2, 0xfff8, false)]
    {
        let mut s = terminal(rows, cols);
        assert_eq!(s.on_output(full.as_bytes()).fed, fed, "{rows} x {cols}");
    }
    let mut widest = terminal(2, 0xfff7);
    widest.on_output(b"\x1b[1;65527Hx\ty\x1b[2;65526Hz\t\t");
    assert_eq!(widest.dump(ScreenFormat::Text).cursor_col, 0xfff6);
}

/// A screen of one column whose first row holds the right half of a character that a
/// smaller width has cut in two.
fn halved() -> PtySession {
    let mut s = showing(3, 10, "\x1b[1;5H\u{6f22}");
    s.resize(5, 3);
    s.resize(10, 3);
    s.emulator_mut().parser.process("\x1b[1;6H\u{5b57}\x1b[1;5H\x1b[X\x1b[1;1H\x1b[6P".as_bytes());
    s.resize(1, 3);
    s.emulator_mut().parser.process(b"\x1b[2;1Ha\x1b[2K");
    s
}

#[test]
fn screens_with_one_column_are_drawn() {
    let mut s = terminal(3, 1);
    s.emulator_mut().parser.process(b"\x1b[31ma");
    assert!(s.try_dump(ScreenFormat::Ansi).unwrap().text.contains("\x1b[31m"));
    assert_eq!(s.try_dump(ScreenFormat::Text).unwrap().text, "a");
    assert!(terminal(3, 0).try_dump(ScreenFormat::Ansi).is_none());
}

#[test]
fn half_a_character_in_a_single_column_is_not_drawn() {
    let s = halved();
    assert!(s.screen().cell(0, 0).unwrap().is_wide_continuation());
    assert!(s.try_dump(ScreenFormat::Ansi).is_none());
    assert_eq!(s.try_dump(ScreenFormat::Text).unwrap().text, "");
}

#[test]
fn terminals_with_narrow_output_can_become_narrower() {
    let text = "caf\u{e9} \u{3b1} \u{416} \u{2500}\u{2588}\u{25bf} \u{276f} \u{2713} \u{2026} \u{28ff} \u{e0b0}";
    for size in [1usize, 2, 3, 7, 100] {
        let mut s = terminal(5, 40);
        for chunk in text.as_bytes().chunks(size) {
            assert!(s.on_output(chunk).fed);
        }
        s.resize(10, 5);
        assert!(s.on_output(b"\x1b[5;1Hx").fed);
        assert!(s.dump(ScreenFormat::Text).text.ends_with('x'));
    }
}

#[test]
fn wide_output_is_noticed_across_chunks() {
    for wide in ["\u{6f22}", "\u{1f600}", "\u{231a}", "\u{17d8}", "\u{1100}"] {
        for size in [1usize, 2, 3, 100] {
            let mut s = terminal(5, 40);
            for chunk in format!("\u{e9}{wide}.").as_bytes().chunks(size) {
                assert!(s.on_output(chunk).fed);
            }
            s.resize(39, 5);
            assert!(!s.on_output(b"x").fed, "{wide:?} by {size}");
        }
    }
    // A character that is not complete yet has not been written.
    let mut s = terminal(5, 40);
    s.on_output(b"\xe6\xbc");
    s.resize(39, 5);
    assert!(s.on_output(b"\xa2").fed);
    assert_eq!(s.dump(ScreenFormat::Text).text, "\u{6f22}");
    s.resize(38, 5);
    assert!(!s.on_output(b"x").fed);
}

#[test]
fn no_double_width_character_is_taken_for_narrow() {
    let mut fed = 0;
    for c in (0xa0..0x30000u32).filter_map(char::from_u32) {
        let mut s = showing(2, 4, &c.to_string());
        let wide = s.screen().cell(0, 0).unwrap().is_wide();
        s.resize(3, 2);
        if s.on_output(b"").fed {
            assert!(!wide, "{c:?}");
            fed += 1;
        }
    }
    assert!(fed > 10_000);
}

#[test]
fn the_widest_screen_is_read() {
    let mut s = terminal(1, 0xffff);
    assert!(!s.on_output(b"x").fed);
    s.emulator_mut().parser.process("\x1b[1;65534H\u{6f22}".as_bytes());
    let d = s.dump(ScreenFormat::Text);
    assert!(d.text.ends_with('\u{6f22}'));
    assert_eq!(d.text.chars().count(), 65534);
    assert_eq!(s.scrollback_lines(), vec![d.text]);
}
