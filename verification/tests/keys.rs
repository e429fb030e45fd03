use tui_mcp::keys::{key_to_bytes, kitty_encode, unescape, Mods};

fn mods(shift: bool, alt: bool, ctrl: bool) -> Mods {
    Mods { shift, alt, ctrl }
}

#[test]
fn plain_char_is_literal() {
    assert_eq!(key_to_bytes("a", Mods::default()), Some(b"a".to_vec()));
}

#[test]
fn ctrl_c_is_control_code() {
    assert_eq!(
        key_to_bytes("c", mods(false, false, true)),
        Some(vec![0x03])
    );
}

#[test]
fn alt_prefixes_escape() {
    assert_eq!(
        key_to_bytes("x", mods(false, true, false)),
        Some(vec![0x1b, b'x'])
    );
}

#[test]
fn named_keys() {
    assert_eq!(key_to_bytes("enter", Mods::default()), Some(vec![b'\r']));
    assert_eq!(key_to_bytes("esc", Mods::default()), Some(vec![0x1b]));
    assert_eq!(
        key_to_bytes("up", Mods::default()),
        Some(vec![0x1b, b'[', b'A'])
    );
    assert_eq!(key_to_bytes("backspace", Mods::default()), Some(vec![0x7f]));
}

#[test]
fn arrow_with_modifier_uses_csi_param() {
    assert_eq!(
        key_to_bytes("up", mods(false, false, true)),
        Some(b"\x1b[1;5A".to_vec())
    );
}

#[test]
fn unknown_multichar_key_is_none() {
    assert_eq!(key_to_bytes("notakey", Mods::default()), None);
}

#[test]
fn kitty_disabled_returns_none() {
    assert_eq!(kitty_encode("c", mods(false, false, true), 0), None);
}

#[test]
fn kitty_encodes_ctrl_c() {
    assert_eq!(
        kitty_encode("c", mods(false, false, true), 1),
        Some(b"\x1b[99;5u".to_vec())
    );
}

#[test]
fn kitty_plain_key_falls_back_unless_report_all() {
    // Disambiguate mode: unmodified text keys stay literal (None -> legacy).
    assert_eq!(kitty_encode("a", Mods::default(), 1), None);
    // Report-all-keys mode (bit 3): even plain keys are encoded.
    assert_eq!(
        kitty_encode("a", Mods::default(), 0b1000),
        Some(b"\x1b[97u".to_vec())
    );
}

#[test]
fn unescape_handles_c_escapes() {
    assert_eq!(unescape(r"\n\r\t"), vec![b'\n', b'\r', b'\t']);
    assert_eq!(unescape(r"\e"), vec![0x1b]);
    assert_eq!(unescape(r"\x1b[A"), vec![0x1b, b'[', b'A']);
    assert_eq!(unescape(r"\\"), vec![b'\\']);
    assert_eq!(unescape("plain"), b"plain".to_vec());
}

#[test]
fn unescape_trailing_backslash_is_literal() {
    assert_eq!(unescape(r"ab\"), vec![b'a', b'b', b'\\']);
}

#[test]
fn modifier_words_in_any_case_and_order() {
    let list: Vec<String> = vec!["Control".to_string(), "META".to_string(), "nothing".to_string()];
    let m = Mods::from_list(&list);
    assert!(m.ctrl && m.alt && !m.shift);
    let reversed: Vec<String> = vec!["option".to_string(), "Shift".to_string(), "ctrl".to_string()];
    let m = Mods::from_list(&reversed);
    assert!(m.ctrl && m.alt && m.shift);
    let none = Mods::from_list(&[]);
    assert!(!none.ctrl && !none.alt && !none.shift);
}

#[test]
fn key_names_in_any_case() {
    assert_eq!(key_to_bytes("PageUp", Mods::default()), Some(b"\x1b[5~".to_vec()));
    assert_eq!(key_to_bytes("pgup", Mods::default()), Some(b"\x1b[5~".to_vec()));
    assert_eq!(key_to_bytes("A", Mods::default()), Some(b"A".to_vec()));
}

#[test]
fn every_named_key_has_its_sequence() {
    let table: Vec<(&str, &[u8])> = vec![
        ("return", b"\r"),
        ("cr", b"\r"),
        ("tab", b"\t"),
        ("escape", b"\x1b"),
        ("bs", b"\x7f"),
        ("space", b" "),
        ("delete", b"\x1b[3~"),
        ("del", b"\x1b[3~"),
        ("insert", b"\x1b[2~"),
        ("ins", b"\x1b[2~"),
        ("home", b"\x1b[H"),
        ("end", b"\x1b[F"),
        ("pagedown", b"\x1b[6~"),
        ("pgdn", b"\x1b[6~"),
        ("down", b"\x1b[B"),
        ("right", b"\x1b[C"),
        ("left", b"\x1b[D"),
        ("f1", b"\x1bOP"),
        ("f2", b"\x1bOQ"),
        ("f3", b"\x1bOR"),
        ("f4", b"\x1bOS"),
        ("f5", b"\x1b[15~"),
        ("f6", b"\x1b[17~"),
        ("f7", b"\x1b[18~"),
        ("f8", b"\x1b[19~"),
        ("f9", b"\x1b[20~"),
        ("f10", b"\x1b[21~"),
        ("f11", b"\x1b[23~"),
        ("f12", b"\x1b[24~"),
    ];
    for (name, bytes) in table {
        assert_eq!(key_to_bytes(name, Mods::default()), Some(bytes.to_vec()), "{name}");
    }
}

#[test]
fn modified_keys_carry_the_parameter() {
    assert_eq!(key_to_bytes("tab", mods(true, false, false)), Some(b"\x1b[Z".to_vec()));
    assert_eq!(key_to_bytes("f1", mods(true, false, false)), Some(b"\x1b[1;2P".to_vec()));
    assert_eq!(key_to_bytes("delete", mods(true, true, true)), Some(b"\x1b[3;8~".to_vec()));
    assert_eq!(key_to_bytes("space", mods(false, true, false)), Some(b"\x1b ".to_vec()));
}

#[test]
fn control_codes_of_characters() {
    let ctrl = mods(false, false, true);
    assert_eq!(key_to_bytes("@", ctrl), Some(vec![0x00]));
    assert_eq!(key_to_bytes("_", ctrl), Some(vec![0x1f]));
    assert_eq!(key_to_bytes("Z", ctrl), Some(vec![0x1a]));
    assert_eq!(key_to_bytes("1", ctrl), Some(vec![0x31]));
    assert_eq!(key_to_bytes("\u{e9}", ctrl), Some("\u{e9}".as_bytes().to_vec()));
    assert_eq!(key_to_bytes("a", mods(false, true, true)), Some(vec![0x1b, 0x01]));
    assert_eq!(key_to_bytes("", ctrl), None);
}

#[test]
fn kitty_codes_of_named_keys() {
    let alt = mods(false, true, false);
    assert_eq!(kitty_encode("enter", alt, 1), Some(b"\x1b[13;3u".to_vec()));
    assert_eq!(kitty_encode("tab", alt, 1), Some(b"\x1b[9;3u".to_vec()));
    assert_eq!(kitty_encode("esc", alt, 1), Some(b"\x1b[27;3u".to_vec()));
    assert_eq!(kitty_encode("bs", alt, 1), Some(b"\x1b[127;3u".to_vec()));
    assert_eq!(kitty_encode("space", alt, 1), Some(b"\x1b[32;3u".to_vec()));
    assert_eq!(kitty_encode("up", alt, 31), None);
    assert_eq!(kitty_encode("notakey", alt, 31), None);
}

#[test]
fn kitty_lowers_letters_beyond_ascii() {
    let ctrl = mods(false, false, true);
    assert_eq!(kitty_encode("C", ctrl, 1), Some(b"\x1b[99;5u".to_vec()));
    assert_eq!(kitty_encode("\u{c4}", ctrl, 1), Some(b"\x1b[228;5u".to_vec()));
}

#[test]
fn unescape_hexadecimal_edges() {
    assert_eq!(unescape(r"\x41\xfF"), vec![0x41, 0xff]);
    assert_eq!(unescape(r"\x4"), vec![0x04]);
    assert_eq!(unescape(r"\x"), Vec::<u8>::new());
    assert_eq!(unescape(r"\xzz!"), vec![b'!']);
    assert_eq!(unescape(r"\x+a"), vec![0x0a]);
    assert_eq!(unescape(r"\0\E\q"), vec![0x00, 0x1b, b'\\', b'q']);
}

#[test]
fn escaped_text_and_bytes_come_back() {
    let text = r"a\b\\c";
    let doubled = text.replace('\\', r"\\");
    assert_eq!(unescape(&doubled), text.as_bytes().to_vec());
    let bytes: Vec<u8> = (0..=255).collect();
    let escaped: String = bytes.iter().map(|b| format!("\\x{b:02x}")).collect();
    assert_eq!(unescape(&escaped), bytes);
    assert_eq!(unescape("gr\u{fc}n"), "gr\u{fc}n".as_bytes().to_vec());
}
