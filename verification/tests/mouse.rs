use tui_mcp::keys::Mods;
use tui_mcp::mouse::{action_to_bytes, parse_action, Button, MouseAction};

#[test]
fn left_click_is_press_then_release() {
    let seqs = action_to_bytes(MouseAction::Left, 3, 4, Mods::default());
    assert_eq!(seqs.len(), 2);
    assert_eq!(seqs[0], b"\x1b[<0;3;4M");
    assert_eq!(seqs[1], b"\x1b[<0;3;4m");
}

#[test]
fn right_click_uses_button_2() {
    let seqs = action_to_bytes(MouseAction::Right, 1, 1, Mods::default());
    assert_eq!(seqs[0], b"\x1b[<2;1;1M");
}

#[test]
fn scroll_up_is_button_64() {
    let seqs = action_to_bytes(MouseAction::ScrollUp, 5, 6, Mods::default());
    assert_eq!(seqs, vec![b"\x1b[<64;5;6M".to_vec()]);
}

#[test]
fn modifiers_are_added_to_button_code() {
    // ctrl = 16, so a left press becomes button 0 | 16 = 16.
    let mods = Mods {
        shift: false,
        alt: false,
        ctrl: true,
    };
    let seqs = action_to_bytes(MouseAction::Down(Button::Left), 2, 2, mods);
    assert_eq!(seqs[0], b"\x1b[<16;2;2M");
}

#[test]
fn parses_action_names() {
    assert!(matches!(parse_action("left"), Some(MouseAction::Left)));
    assert!(matches!(
        parse_action("scroll_down"),
        Some(MouseAction::ScrollDown)
    ));
    assert!(matches!(parse_action("drag"), Some(MouseAction::Move(_))));
    assert!(parse_action("nonsense").is_none());
}

#[test]
fn every_action_has_its_code() {
    let none = Mods::default();
    let one = |action| action_to_bytes(action, 7, 8, none);
    assert_eq!(one(MouseAction::ScrollDown), vec![b"\x1b[<65;7;8M".to_vec()]);
    assert_eq!(one(MouseAction::Middle)[1], b"\x1b[<1;7;8m".to_vec());
    assert_eq!(one(MouseAction::Down(Button::Right)), vec![b"\x1b[<2;7;8M".to_vec()]);
    assert_eq!(one(MouseAction::Up(Button::Middle)), vec![b"\x1b[<1;7;8m".to_vec()]);
    assert_eq!(one(MouseAction::Move(Button::Left)), vec![b"\x1b[<32;7;8M".to_vec()]);
    assert_eq!(one(MouseAction::Hover), vec![b"\x1b[<35;7;8M".to_vec()]);
}

#[test]
fn all_modifiers_add_up() {
    let all = Mods { shift: true, alt: true, ctrl: true };
    let seqs = action_to_bytes(MouseAction::ScrollDown, 65535, 1, all);
    assert_eq!(seqs, vec![b"\x1b[<93;65535;1M".to_vec()]);
}

#[test]
fn action_names_and_their_synonyms() {
    assert!(matches!(parse_action("CLICK"), Some(MouseAction::Left)));
    assert!(matches!(parse_action("wheel_up"), Some(MouseAction::ScrollUp)));
    assert!(matches!(parse_action("scrolldown"), Some(MouseAction::ScrollDown)));
    assert!(matches!(parse_action("press"), Some(MouseAction::Down(Button::Left))));
    assert!(matches!(parse_action("right_down"), Some(MouseAction::Down(Button::Right))));
    assert!(matches!(parse_action("middle_down"), Some(MouseAction::Down(Button::Middle))));
    assert!(matches!(parse_action("release"), Some(MouseAction::Up(Button::Left))));
    assert!(matches!(parse_action("right_up"), Some(MouseAction::Up(Button::Right))));
    assert!(matches!(parse_action("middle_up"), Some(MouseAction::Up(Button::Middle))));
    assert!(matches!(parse_action("move"), Some(MouseAction::Move(Button::Left))));
    assert!(matches!(parse_action("Hover"), Some(MouseAction::Hover)));
}

#[test]
fn clicks_are_a_press_and_a_release() {
    let m = Mods { shift: true, alt: false, ctrl: false };
    let mut parts = action_to_bytes(MouseAction::Down(Button::Right), 2, 3, m);
    parts.extend(action_to_bytes(MouseAction::Up(Button::Right), 2, 3, m));
    assert_eq!(action_to_bytes(MouseAction::Right, 2, 3, m), parts);
}
