use tui_mcp::error::{SessionKind, ToolError};
use tui_mcp::input::{
    burst, char_count, key_bytes_for, next_batch, next_cycles, parse_combo, parse_keys, paste,
    send_bytes, send_key, send_keys_reply, send_mouse, typed_bytes, Batch, Cycles,
};
use tui_mcp::keys::Mods;

const PLAIN: SessionKind = SessionKind::Pty { kitty_flags: 0, paste: false };
const KITTY: SessionKind = SessionKind::Pty { kitty_flags: 1, paste: true };

fn words(list: &[&str]) -> Vec<String> {
    list.iter().map(|w| w.to_string()).collect()
}

#[test]
fn parse_combo_plain_key() {
    let (key, mods) = parse_combo("enter");
    assert_eq!(key, "enter");
    assert!(!mods.ctrl && !mods.alt && !mods.shift);
}

#[test]
fn parse_combo_with_modifiers() {
    let (key, mods) = parse_combo("ctrl+shift+a");
    assert_eq!(key, "a");
    assert!(mods.ctrl && mods.shift && !mods.alt);
}

#[test]
fn parse_combo_single_plus_is_literal() {
    // A lone "+" has no modifiers and is treated as the key itself.
    let (key, _mods) = parse_combo("+");
    assert_eq!(key, "+");
}

#[test]
fn combos_that_end_in_a_plus_are_taken_whole() {
    let (key, mods) = parse_combo("ctrl+");
    assert_eq!(key, "ctrl+");
    assert!(!mods.ctrl);
    let (key, mods) = parse_combo("+a");
    assert_eq!(key, "a");
    assert!(!mods.ctrl && !mods.alt && !mods.shift);
}

#[test]
fn keys_follow_the_session() {
    let ctrl = Mods { shift: false, alt: false, ctrl: true };
    assert_eq!(key_bytes_for(PLAIN, "c", ctrl), Some(vec![3]));
    assert_eq!(key_bytes_for(KITTY, "c", ctrl), Some(b"\x1b[99;5u".to_vec()));
    assert_eq!(key_bytes_for(SessionKind::Piped, "c", ctrl), Some(vec![3]));
    assert_eq!(key_bytes_for(KITTY, "up", ctrl), Some(b"\x1b[1;5A".to_vec()));
    assert_eq!(key_bytes_for(KITTY, "a", Mods::default()), Some(b"a".to_vec()));
    assert_eq!(key_bytes_for(KITTY, "nokey", ctrl), None);
}

#[test]
fn send_key_tells_what_it_sent() {
    let press = send_key("s", "c", &words(&["ctrl"]), Some(3), Some(KITTY)).unwrap();
    assert_eq!(press.bytes, b"\x1b[99;5u".to_vec());
    assert_eq!(press.count, 3);
    assert_eq!(press.reply, "sent key 'c' x3 (kitty)");
    let press = send_key("s", "up", &[], Some(0), Some(KITTY)).unwrap();
    assert_eq!(press.bytes, b"\x1b[A".to_vec());
    assert_eq!(press.reply, "sent key 'up' x1");
}

#[test]
fn unknown_keys_are_refused_before_missing_sessions() {
    let e = send_key("s", "nokey", &[], None, None).err().unwrap();
    assert_eq!(e, ToolError::UnknownKey("nokey".to_string()));
    assert_eq!(e.message(), "unknown key 'nokey'");
    assert!(e.is_invalid_params());
    let e = send_key("s", "a", &[], None, None).err().unwrap();
    assert_eq!(e, ToolError::NoSession("s".to_string()));
}

#[test]
fn a_bad_combo_has_the_whole_list_refused() {
    let presses = parse_keys(&words(&["ctrl+c", "enter", "h"])).unwrap();
    let keys: Vec<&str> = presses.iter().map(|p| p.0.as_str()).collect();
    assert_eq!(keys, vec!["c", "enter", "h"]);
    assert!(presses[0].1.ctrl && !presses[1].1.ctrl);
    let e = parse_keys(&words(&["a", "ctrl+bad", "worse"])).err().unwrap();
    assert_eq!(e, ToolError::UnknownKey("bad".to_string()));
}

#[test]
fn bursts_hold_one_entry_for_each_press() {
    let presses = parse_keys(&words(&["alt+x", "enter"])).unwrap();
    assert_eq!(burst(PLAIN, &presses), vec![b"\x1bx".to_vec(), b"\r".to_vec()]);
    assert_eq!(burst(KITTY, &presses), vec![b"\x1b[120;3u".to_vec(), b"\r".to_vec()]);
    assert_eq!(send_keys_reply(&words(&["ctrl+c", "enter"])), "sent 2 key(s): ctrl+c enter");
    assert_eq!(send_keys_reply(&[]), "sent 0 key(s): ");
}

#[test]
fn batches_are_one_burst_or_one_by_one() {
    assert_eq!(next_batch(3, None, 0), Some(Batch { from: 0, to: 3, pause_ms: 0 }));
    assert_eq!(next_batch(3, Some(0), 1), None);
    assert_eq!(next_batch(0, None, 0), Some(Batch { from: 0, to: 0, pause_ms: 0 }));
    assert_eq!(next_batch(3, Some(20), 2), Some(Batch { from: 2, to: 3, pause_ms: 20 }));
    assert_eq!(next_batch(3, Some(20), 3), None);
    assert_eq!(next_batch(0, Some(20), 0), None);
}

#[test]
fn cycles_add_up_whatever_the_delay() {
    for count in 1..5 {
        for delay in [None, Some(0), Some(30)] {
            let mut round = 0;
            let mut sent = 0;
            let mut pauses = 0;
            while let Some(c) = next_cycles(count, delay, round) {
                sent += c.cycles;
                pauses += c.pause_ms;
                round += 1;
            }
            assert_eq!(sent, count);
            assert_eq!(pauses, delay.unwrap_or(0) * u64::from(count - 1));
        }
    }
    assert_eq!(next_cycles(2, None, 0), Some(Cycles { cycles: 2, pause_ms: 0 }));
}

#[test]
fn typed_text_is_sent_whole_or_by_character() {
    let text = "a\u{e9}\u{1f600}";
    assert_eq!(char_count(text), 3);
    assert_eq!(typed_bytes(text, 0, 3), text.as_bytes().to_vec());
    assert_eq!(typed_bytes(text, 1, 2), "\u{e9}".as_bytes().to_vec());
    assert_eq!(typed_bytes("", 0, 0), Vec::<u8>::new());
}

#[test]
fn pastes_are_framed_where_the_program_asked_for_it() {
    assert_eq!(
        paste("a\nb", KITTY),
        (b"\x1b[200~a\nb\x1b[201~".to_vec(), "pasted (bracketed)")
    );
    let raw = "pasted (raw, program has not enabled bracketed paste)";
    assert_eq!(paste("a\nb", PLAIN), (b"a\nb".to_vec(), raw));
    assert_eq!(paste("x", SessionKind::Piped), (b"x".to_vec(), raw));
}

#[test]
fn raw_bytes_are_counted() {
    let (bytes, reply) = send_bytes(r"\x1b[A\n");
    assert_eq!(bytes, b"\x1b[A\n".to_vec());
    assert_eq!(reply, "sent 4 bytes");
}

#[test]
fn mouse_plans_repeat_the_click() {
    let plan = send_mouse(3, 4, Some("left"), &[], Some(2)).unwrap();
    assert_eq!(plan.reports, vec![b"\x1b[<0;3;4M".to_vec(), b"\x1b[<0;3;4m".to_vec()]);
    assert_eq!(plan.count, 2);
    assert_eq!(plan.reply, "mouse 'left' x2 at (3,4)");
    let plan = send_mouse(1, 2, None, &words(&["ctrl"]), None).unwrap();
    assert_eq!(plan.reports[0], b"\x1b[<16;1;2M".to_vec());
    assert_eq!(plan.reply, "mouse 'left' x1 at (1,2)");
    let e = send_mouse(1, 2, Some("nonsense"), &[], None).err().unwrap();
    assert_eq!(e.message(), "unknown mouse action 'nonsense'");
    assert!(e.is_invalid_params());
}

#[test]
fn pacing_sends_the_same_bytes() {
    let text = "gr\u{fc}n \u{1f600}!";
    let mut typed = Vec::new();
    let mut round = 0;
    while let Some(b) = next_batch(char_count(text), Some(5), round) {
        typed.extend(typed_bytes(text, b.from, b.to));
        round += 1;
    }
    assert_eq!(round, char_count(text));
    assert_eq!(typed, text.as_bytes());

    let presses = parse_keys(&words(&["ctrl+c", "up", "x"])).unwrap();
    let mut paced = Vec::new();
    let mut round = 0;
    while let Some(b) = next_batch(presses.len(), Some(5), round) {
        paced.extend(burst(KITTY, &presses[b.from..b.to]));
        round += 1;
    }
    assert_eq!(paced, burst(KITTY, &presses));
    assert_eq!(paced.len(), presses.len());
}

#[test]
fn joined_combos_come_apart() {
    for (combo, key) in [("alt+shift+f", "f"), ("shift+alt+f", "f"), ("Alt+SHIFT+alt+F5", "F5")] {
        let (k, m) = parse_combo(combo);
        assert_eq!(k, key);
        assert!(m.alt && m.shift && !m.ctrl);
    }
}
