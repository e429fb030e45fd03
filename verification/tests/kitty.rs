use tui_mcp::kitty::KittyDetector;

fn detector() -> KittyDetector {
    KittyDetector::new(0, false)
}

#[test]
fn push_sets_flags() {
    let mut d = detector();
    let reply = d.feed(b"\x1b[>1u");
    assert!(reply.is_empty());
    assert_eq!(d.flags(), 1);
}

#[test]
fn set_flags_form() {
    let mut d = detector();
    d.feed(b"\x1b[=5;1u");
    assert_eq!(d.flags(), 5);
}

#[test]
fn pop_disables() {
    let mut d = detector();
    d.feed(b"\x1b[>7u");
    assert_eq!(d.flags(), 7);
    d.feed(b"\x1b[<u");
    assert_eq!(d.flags(), 0);
}

#[test]
fn query_is_answered_with_current_flags() {
    let mut d = detector();
    d.feed(b"\x1b[>2u");
    let reply = d.feed(b"\x1b[?u");
    assert_eq!(reply, b"\x1b[?2u");
}

#[test]
fn sequence_split_across_feeds() {
    let mut d = detector();
    d.feed(b"\x1b[>");
    d.feed(b"1u");
    assert_eq!(d.flags(), 1);
}

#[test]
fn ignores_unrelated_output() {
    let mut d = detector();
    d.feed(b"hello \x1b[2J world \x1b[1;5H");
    assert_eq!(d.flags(), 0);
}

#[test]
fn bracketed_paste_toggles() {
    let mut d = detector();
    d.feed(b"\x1b[?2004h");
    assert!(d.paste());
    d.feed(b"\x1b[?2004l");
    assert!(!d.paste());
}

#[test]
fn other_private_modes_do_not_touch_paste() {
    let mut d = detector();
    d.feed(b"\x1b[?1000h\x1b[?25l");
    assert!(!d.paste());
}

#[test]
fn omitted_and_bad_flags_have_defaults() {
    let mut d = detector();
    d.feed(b"\x1b[>u");
    assert_eq!(d.flags(), 1);
    d.feed(b"\x1b[=u");
    assert_eq!(d.flags(), 0);
    d.feed(b"\x1b[>300u");
    assert_eq!(d.flags(), 1);
    d.feed(b"\x1b[=x;1u");
    assert_eq!(d.flags(), 1);
    d.feed(b"\x1b[=+31;1u");
    assert_eq!(d.flags(), 31);
    d.feed(b"\x1b[>007u");
    assert_eq!(d.flags(), 7);
    d.feed(b"\x1b[>255u");
    assert_eq!(d.flags(), 255);
}

#[test]
fn several_queries_in_one_chunk_are_all_answered() {
    let mut d = detector();
    let reply = d.feed(b"\x1b[?u\x1b[>5u\x1b[?u");
    assert_eq!(reply, b"\x1b[?0u\x1b[?5u");
}

#[test]
fn paste_is_found_among_other_modes() {
    let mut d = detector();
    d.feed(b"\x1b[?25;2004;1h");
    assert!(d.paste());
    d.feed(b"\x1b[2004l");
    assert!(d.paste());
    d.feed(b"\x1b[?2004;25l");
    assert!(!d.paste());
}

#[test]
fn runaway_sequences_are_dropped() {
    let mut d = detector();
    let mut data = b"\x1b[>1".to_vec();
    data.extend_from_slice(&[b'0'; 40]);
    data.extend_from_slice(b"u");
    d.feed(&data);
    assert_eq!(d.flags(), 0);
    d.feed(b"\x1b[>3u");
    assert_eq!(d.flags(), 3);
}

#[test]
fn longest_sequence_still_counts() {
    let mut d = detector();
    let mut data = b"\x1b[>".to_vec();
    data.extend_from_slice(&[b'0'; 30]);
    data.extend_from_slice(b"9u");
    d.feed(&data);
    assert_eq!(d.flags(), 9);
}

#[test]
fn escape_before_something_else_is_dropped() {
    let mut d = detector();
    d.feed(b"\x1b\x1b[>1u");
    assert_eq!(d.flags(), 0);
}

#[test]
fn chunking_does_not_change_the_outcome() {
    let data = b"x\x1b[>5u\x1b[?2004h\x1b[?u\x1b[6n";
    for cut in 0..=data.len() {
        let mut d = detector();
        let mut reply = d.feed(&data[..cut]);
        reply.extend(d.feed(&data[cut..]));
        assert_eq!(reply, b"\x1b[?5u");
        assert_eq!(d.flags(), 5);
        assert!(d.paste());
        assert!(d.take_cursor_report_request());
    }
}

#[test]
fn cursor_report_requests_are_taken_once() {
    let mut d = detector();
    assert!(!d.take_cursor_report_request());
    assert!(d.feed(b"\x1b[6n").is_empty());
    assert!(d.take_cursor_report_request());
    assert!(!d.take_cursor_report_request());
    d.feed(b"\x1b[5n\x1b[?6n\x1b[66n");
    assert!(!d.take_cursor_report_request());
}

#[test]
fn only_the_right_first_byte_counts() {
    let mut d = detector();
    assert!(d.feed(b"\x1b[5u\x1b[2004h\x1b[>2004h\x1b[!9u\x1b[u").is_empty());
    assert_eq!(d.flags(), 0);
    assert!(!d.paste());
    assert!(d.feed(b"\x1b[?1000;2004h\x1b[?20045h").is_empty());
    assert!(d.paste());
    assert!(d.feed(b"\x1b[?2004;1l").is_empty());
    assert!(!d.paste());
    assert_eq!(d.feed(b"\x1b[?u"), b"\x1b[?0u");
}

#[test]
fn completing_a_sequence_only_adds_to_the_answers() {
    let mut d = detector();
    assert_eq!(d.feed(b"\x1b[?u\x1b[>3u\x1b[?1;2004h\x1b[?u\x1b[=2"), b"\x1b[?0u\x1b[?3u");
    assert_eq!((d.flags(), d.paste()), (3, true));
    assert!(d.feed(b"h").is_empty());
    assert_eq!((d.flags(), d.paste()), (3, true));
}
