//! Translate mouse actions into SGR (1006) mouse-reporting escape sequences.
//!
//! The target application must have enabled mouse reporting (e.g. `ESC[?1000h`
//! / `?1006h`) for these to have an effect. Most full-screen TUIs do.

use crate::keys::Mods;
use crate::text;
use vstd::prelude::*;

verus! {

#[derive(Clone, Copy, PartialEq, Eq, Structural)]
pub enum MouseAction {
    Left,
    Right,
    Middle,
    ScrollUp,
    ScrollDown,
    /// Button press without release (for building drags manually).
    Down(Button),
    /// Button release.
    Up(Button),
    /// Pointer motion with a button held (drag step).
    Move(Button),
    /// Pointer motion with no button held.
    Hover,
}

#[derive(Clone, Copy, PartialEq, Eq, Structural)]
pub enum Button {
    Left,
    Middle,
    Right,
}

impl Button {
    /// The number of the button in a report.
    pub open spec fn code(self) -> nat {
        match self {
            Button::Left => 0,
            Button::Middle => 1,
            Button::Right => 2,
        }
    }

    fn base(self) -> (b: u8)
        ensures
            b == self.code(),
            b <= 2,
    {
        match self {
            Button::Left => 0,
            Button::Middle => 1,
            Button::Right => 2,
        }
    }
}

/// The action that a name stands for, in any ASCII case.
pub open spec fn action_named(name: Seq<char>) -> Option<MouseAction> {
    let n = text::lower(name);
    if n == "left"@ || n == "click"@ {
        Some(MouseAction::Left)
    } else if n == "right"@ {
        Some(MouseAction::Right)
    } else if n == "middle"@ {
        Some(MouseAction::Middle)
    } else if n == "scroll_up"@ || n == "scrollup"@ || n == "wheel_up"@ {
        Some(MouseAction::ScrollUp)
    } else if n == "scroll_down"@ || n == "scrolldown"@ || n == "wheel_down"@ {
        Some(MouseAction::ScrollDown)
    } else if n == "down"@ || n == "press"@ {
        Some(MouseAction::Down(Button::Left))
    } else if n == "right_down"@ {
        Some(MouseAction::Down(Button::Right))
    } else if n == "middle_down"@ {
        Some(MouseAction::Down(Button::Middle))
    } else if n == "up"@ || n == "release"@ {
        Some(MouseAction::Up(Button::Left))
    } else if n == "right_up"@ {
        Some(MouseAction::Up(Button::Right))
    } else if n == "middle_up"@ {
        Some(MouseAction::Up(Button::Middle))
    } else if n == "move"@ || n == "drag"@ {
        Some(MouseAction::Move(Button::Left))
    } else if n == "hover"@ {
        Some(MouseAction::Hover)
    } else {
        None
    }
}

pub fn parse_action(name: &str) -> (r: Option<MouseAction>)
    ensures
        r == action_named(name@),
{
    let lowered = text::to_lower(name);
    let n = lowered.as_str();
    if text::str_eq(n, "left") || text::str_eq(n, "click") {
        Some(MouseAction::Left)
    } else if text::str_eq(n, "right") {
        Some(MouseAction::Right)
    } else if text::str_eq(n, "middle") {
        Some(MouseAction::Middle)
    } else if text::str_eq(n, "scroll_up") || text::str_eq(n, "scrollup") || text::str_eq(
        n,
        "wheel_up",
    ) {
        Some(MouseAction::ScrollUp)
    } else if text::str_eq(n, "scroll_down") || text::str_eq(n, "scrolldown") || text::str_eq(
        n,
        "wheel_down",
    ) {
        Some(MouseAction::ScrollDown)
    } else if text::str_eq(n, "down") || text::str_eq(n, "press") {
        Some(MouseAction::Down(Button::Left))
    } else if text::str_eq(n, "right_down") {
        Some(MouseAction::Down(Button::Right))
    } else if text::str_eq(n, "middle_down") {
        Some(MouseAction::Down(Button::Middle))
    } else if text::str_eq(n, "up") || text::str_eq(n, "release") {
        Some(MouseAction::Up(Button::Left))
    } else if text::str_eq(n, "right_up") {
        Some(MouseAction::Up(Button::Right))
    } else if text::str_eq(n, "middle_up") {
        Some(MouseAction::Up(Button::Middle))
    } else if text::str_eq(n, "move") || text::str_eq(n, "drag") {
        Some(MouseAction::Move(Button::Left))
    } else if text::str_eq(n, "hover") {
        Some(MouseAction::Hover)
    } else {
        None
    }
}

/// What the modifiers add to a button code: shift 4, alt 8, ctrl 16.
pub open spec fn modifier_code(m: Mods) -> nat {
    ((if m.shift { 4int } else { 0 }) + (if m.alt { 8int } else { 0 }) + (if m.ctrl {
        16int
    } else {
        0
    })) as nat
}

fn modifier_bits(mods: Mods) -> (b: u8)
    ensures
        b == modifier_code(mods),
        b <= 28,
{
    let mut b: u8 = 0;
    if mods.shift {
        b += 4;
    }
    if mods.alt {
        b += 8;
    }
    if mods.ctrl {
        b += 16;
    }
    b
}

/// One report: `ESC [ < <code> ; <x> ; <y>` and `m` for a release, else `M`.
pub open spec fn report(code: nat, x: nat, y: nat, release: bool) -> Seq<u8> {
    seq![0x1bu8, 0x5b, 0x3c] + text::dec_bytes(code) + seq![0x3bu8] + text::dec_bytes(x)
        + seq![0x3bu8] + text::dec_bytes(y) + seq![
        if release {
            0x6du8
        } else {
            0x4du8
        },
    ]
}

/// The button code of an action without modifiers. Wheel codes start at 64, and
/// motion adds 32 to the held button, or to 3 where none is held.
pub open spec fn action_code(action: MouseAction) -> nat {
    match action {
        MouseAction::Left => 0,
        MouseAction::Middle => 1,
        MouseAction::Right => 2,
        MouseAction::ScrollUp => 64,
        MouseAction::ScrollDown => 65,
        MouseAction::Down(b) => b.code(),
        MouseAction::Up(b) => b.code(),
        MouseAction::Move(b) => 32 + b.code(),
        MouseAction::Hover => 35,
    }
}

/// The reports of an action. A click is a press and a release.
pub open spec fn action_reports(action: MouseAction, x: nat, y: nat, m: Mods) -> Seq<Seq<u8>> {
    let code = action_code(action) + modifier_code(m);
    match action {
        MouseAction::Left | MouseAction::Middle | MouseAction::Right => seq![
            report(code, x, y, false),
            report(code, x, y, true),
        ],
        MouseAction::Up(_) => seq![report(code, x, y, true)],
        _ => seq![report(code, x, y, false)],
    }
}

fn press(code: u8, x: u16, y: u16, release: bool) -> (r: Vec<u8>)
    ensures
        r@ == report(code as nat, x as nat, y as nat, release),
{
    let mut out: Vec<u8> = vec![0x1b, 0x5b, 0x3c];
    text::push_dec_bytes(&mut out, code as u64);
    out.push(0x3b);
    text::push_dec_bytes(&mut out, x as u64);
    out.push(0x3b);
    text::push_dec_bytes(&mut out, y as u64);
    out.push(
        if release {
            0x6d
        } else {
            0x4d
        },
    );
    assert(out@ =~= report(code as nat, x as nat, y as nat, release));
    out
}

/// Build the SGR sequence(s) for an action at 1-based column/row `(x, y)`.
/// A full left-click is press + release, hence a `Vec` of sequences.
pub fn action_to_bytes(action: MouseAction, x: u16, y: u16, mods: Mods) -> (r: Vec<Vec<u8>>)
    ensures
        text::byte_views(r@) == action_reports(action, x as nat, y as nat, mods),
{
    let m = modifier_bits(mods);
    let mut out: Vec<Vec<u8>> = Vec::new();
    match action {
        MouseAction::Left => {
            out.push(press(m, x, y, false));
            out.push(press(m, x, y, true));
        },
        MouseAction::Middle => {
            out.push(press(1 + m, x, y, false));
            out.push(press(1 + m, x, y, true));
        },
        MouseAction::Right => {
            out.push(press(2 + m, x, y, false));
            out.push(press(2 + m, x, y, true));
        },
        MouseAction::ScrollUp => out.push(press(64 + m, x, y, false)),
        MouseAction::ScrollDown => out.push(press(65 + m, x, y, false)),
        MouseAction::Down(b) => out.push(press(b.base() + m, x, y, false)),
        MouseAction::Up(b) => out.push(press(b.base() + m, x, y, true)),
        // Motion events set bit 5 (32).
        MouseAction::Move(b) => out.push(press(32 + b.base() + m, x, y, false)),
        MouseAction::Hover => out.push(press(35 + m, x, y, false)),
    }
    assert(text::byte_views(out@) =~= action_reports(action, x as nat, y as nat, mods));
    out
}

// ---- Laws -------------------------------------------------------------------

/// A click is the press of its button followed by its release.
pub proof fn click_is_press_then_release(x: nat, y: nat, m: Mods)
    ensures
        action_reports(MouseAction::Left, x, y, m) == action_reports(
            MouseAction::Down(Button::Left),
            x,
            y,
            m,
        ) + action_reports(MouseAction::Up(Button::Left), x, y, m),
        action_reports(MouseAction::Middle, x, y, m) == action_reports(
            MouseAction::Down(Button::Middle),
            x,
            y,
            m,
        ) + action_reports(MouseAction::Up(Button::Middle), x, y, m),
        action_reports(MouseAction::Right, x, y, m) == action_reports(
            MouseAction::Down(Button::Right),
            x,
            y,
            m,
        ) + action_reports(MouseAction::Up(Button::Right), x, y, m),
{
    assert(action_reports(MouseAction::Left, x, y, m) =~= action_reports(
        MouseAction::Down(Button::Left),
        x,
        y,
        m,
    ) + action_reports(MouseAction::Up(Button::Left), x, y, m));
    assert(action_reports(MouseAction::Middle, x, y, m) =~= action_reports(
        MouseAction::Down(Button::Middle),
        x,
        y,
        m,
    ) + action_reports(MouseAction::Up(Button::Middle), x, y, m));
    assert(action_reports(MouseAction::Right, x, y, m) =~= action_reports(
        MouseAction::Down(Button::Right),
        x,
        y,
        m,
    ) + action_reports(MouseAction::Up(Button::Right), x, y, m));
}

/// The number sent for an action tells the code of the action and the modifiers
/// apart: the modifiers use the bits that no action uses.
pub proof fn modifiers_do_not_disturb_the_button(a: MouseAction, b: MouseAction, m: Mods, n: Mods)
    requires
        action_code(a) + modifier_code(m) == action_code(b) + modifier_code(n),
    ensures
        action_code(a) == action_code(b),
        m == n,
{
}

/// Action names mean the same in every ASCII case.
pub proof fn action_names_ignore_case(a: Seq<char>, b: Seq<char>)
    requires
        text::lower(a) == text::lower(b),
    ensures
        action_named(a) == action_named(b),
{
}

/// A program that decodes the number of a report by the SGR rules finds what was asked
/// for. Take the number whose bits say it: bit 2 shift, bit 3 alt, bit 4 ctrl, bit 5
/// motion, bit 6 the wheel, and the two lowest the button (left 0, middle 1, right 2,
/// none 3) or the direction of the wheel (up 0, down 1). Each action sends that number
/// with the column and the row, in this order, behind `ESC [ <`: a press or a motion ends
/// in `M`, a release in `m`, and a click is a press and a release.
pub proof fn reports_say_what_was_asked(action: MouseAction, x: nat, y: nat, m: Mods, n: u8)
    requires
        (n & 4 != 0) == m.shift,
        (n & 8 != 0) == m.alt,
        (n & 16 != 0) == m.ctrl,
        (n & 32 != 0) == (action is Move || action is Hover),
        (n & 64 != 0) == (action is ScrollUp || action is ScrollDown),
        n & 128 == 0,
        n & 3 == (match action {
            MouseAction::Left
            | MouseAction::Down(Button::Left)
            | MouseAction::Up(Button::Left)
            | MouseAction::Move(Button::Left)
            | MouseAction::ScrollUp => 0u8,
            MouseAction::Middle
            | MouseAction::Down(Button::Middle)
            | MouseAction::Up(Button::Middle)
            | MouseAction::Move(Button::Middle)
            | MouseAction::ScrollDown => 1,
            MouseAction::Right
            | MouseAction::Down(Button::Right)
            | MouseAction::Up(Button::Right)
            | MouseAction::Move(Button::Right) => 2,
            MouseAction::Hover => 3,
        }),
    ensures
        ({
            let head = seq![0x1bu8, 0x5b, 0x3c] + text::dec_bytes(n as nat) + seq![0x3bu8]
                + text::dec_bytes(x) + seq![0x3bu8] + text::dec_bytes(y);
            action_reports(action, x, y, m) == (match action {
                MouseAction::Left | MouseAction::Middle | MouseAction::Right => seq![
                    head + seq![0x4du8],
                    head + seq![0x6du8],
                ],
                MouseAction::Up(_) => seq![head + seq![0x6du8]],
                _ => seq![head + seq![0x4du8]],
            })
        }),
{
    assert(n == (n & 3) + (n & 4) + (n & 8) + (n & 16) + (n & 32) + (n & 64)) by (bit_vector)
        requires
            n & 128 == 0,
    ;
    assert((n & 4 == 0 || n & 4 == 4) && (n & 8 == 0 || n & 8 == 8) && (n & 16 == 0 || n & 16 == 16)
        && (n & 32 == 0 || n & 32 == 32) && (n & 64 == 0 || n & 64 == 64)) by (bit_vector);
    assert(n == action_code(action) + modifier_code(m));
}

/// The bits of a report's number: shift, alt and ctrl stand in it exactly where they are
/// held, whatever the action.
pub proof fn modifiers_are_read_from_their_bits(action: MouseAction, m: Mods)
    ensures
        action_code(action) + modifier_code(m) < 128,
        (((action_code(action) + modifier_code(m)) as u8) & 4 != 0) == m.shift,
        (((action_code(action) + modifier_code(m)) as u8) & 8 != 0) == m.alt,
        (((action_code(action) + modifier_code(m)) as u8) & 16 != 0) == m.ctrl,
        (((action_code(action) + modifier_code(m)) as u8) & 32 != 0) == (action is Move
            || action is Hover),
        (((action_code(action) + modifier_code(m)) as u8) & 64 != 0) == (action is ScrollUp
            || action is ScrollDown),
{
    let a = action_code(action) as u8;
    let s = if m.shift { 4u8 } else { 0 };
    let t = if m.alt { 8u8 } else { 0 };
    let c = if m.ctrl { 16u8 } else { 0 };
    let n = (a + s + t + c) as u8;
    assert(n == action_code(action) + modifier_code(m));
    assert(n & 4 == s && n & 8 == t && n & 16 == c && n & 32 == a & 32 && n & 64 == a & 64)
        by (bit_vector)
        requires
            a <= 3 || 32 <= a <= 35 || a == 64 || a == 65,
            s == 0 || s == 4,
            t == 0 || t == 8,
            c == 0 || c == 16,
            n == (a + s + t + c) as u8,
    ;
    assert((a <= 3 ==> a & 32 == 0 && a & 64 == 0) && (32 <= a <= 35 ==> a & 32 == 32 && a & 64
        == 0) && (64 <= a <= 65 ==> a & 32 == 0 && a & 64 == 64)) by (bit_vector);
}

/// The names of the actions, in any ASCII case: the buttons by their own names and
/// `click`, the wheel by three names in each direction, presses, releases, dragging with
/// the left button, and hovering. There are no others.
pub proof fn actions_have_their_names(name: Seq<char>)
    ensures
        ({
            let n = text::lower(name);
            let a = action_named(name);
            &&& (a == Some(MouseAction::Left)) == (n == "left"@ || n == "click"@)
            &&& (a == Some(MouseAction::Right)) == (n == "right"@)
            &&& (a == Some(MouseAction::Middle)) == (n == "middle"@)
            &&& (a == Some(MouseAction::ScrollUp)) == (n == "scroll_up"@ || n == "scrollup"@ || n
                == "wheel_up"@)
            &&& (a == Some(MouseAction::ScrollDown)) == (n == "scroll_down"@ || n == "scrolldown"@
                || n == "wheel_down"@)
            &&& (a == Some(MouseAction::Down(Button::Left))) == (n == "down"@ || n == "press"@)
            &&& (a == Some(MouseAction::Down(Button::Right))) == (n == "right_down"@)
            &&& (a == Some(MouseAction::Down(Button::Middle))) == (n == "middle_down"@)
            &&& (a == Some(MouseAction::Up(Button::Left))) == (n == "up"@ || n == "release"@)
            &&& (a == Some(MouseAction::Up(Button::Right))) == (n == "right_up"@)
            &&& (a == Some(MouseAction::Up(Button::Middle))) == (n == "middle_up"@)
            &&& (a == Some(MouseAction::Move(Button::Left))) == (n == "move"@ || n == "drag"@)
            &&& (a == Some(MouseAction::Hover)) == (n == "hover"@)
        }),
        action_named(name) matches Some(MouseAction::Move(b)) ==> b == Button::Left,
{
    lemma_names_differ(text::lower(name));
}

/// No two of the names are the same: they differ in length or in a character.
proof fn lemma_names_differ(n: Seq<char>)
    ensures
        n == "left"@ ==> n.len() == 4 && n[0] == 'l',
        n == "click"@ ==> n.len() == 5 && n[0] == 'c',
        n == "right"@ ==> n.len() == 5 && n[0] == 'r',
        n == "middle"@ ==> n.len() == 6 && n[0] == 'm',
        n == "scroll_up"@ ==> n.len() == 9 && n[0] == 's',
        n == "scrollup"@ ==> n.len() == 8 && n[0] == 's',
        n == "wheel_up"@ ==> n.len() == 8 && n[0] == 'w',
        n == "scroll_down"@ ==> n.len() == 11 && n[0] == 's',
        n == "scrolldown"@ ==> n.len() == 10 && n[0] == 's',
        n == "wheel_down"@ ==> n.len() == 10 && n[0] == 'w',
        n == "down"@ ==> n.len() == 4 && n[0] == 'd' && n[1] == 'o',
        n == "press"@ ==> n.len() == 5 && n[0] == 'p',
        n == "right_down"@ ==> n.len() == 10 && n[0] == 'r',
        n == "middle_down"@ ==> n.len() == 11 && n[0] == 'm',
        n == "up"@ ==> n.len() == 2,
        n == "release"@ ==> n.len() == 7,
        n == "right_up"@ ==> n.len() == 8 && n[0] == 'r',
        n == "middle_up"@ ==> n.len() == 9 && n[0] == 'm',
        n == "move"@ ==> n.len() == 4 && n[0] == 'm',
        n == "drag"@ ==> n.len() == 4 && n[0] == 'd' && n[1] == 'r',
        n == "hover"@ ==> n.len() == 5 && n[0] == 'h',
{
    reveal_strlit("left");
    reveal_strlit("click");
    reveal_strlit("right");
    reveal_strlit("middle");
    reveal_strlit("scroll_up");
    reveal_strlit("scrollup");
    reveal_strlit("wheel_up");
    reveal_strlit("scroll_down");
    reveal_strlit("scrolldown");
    reveal_strlit("wheel_down");
    reveal_strlit("down");
    reveal_strlit("press");
    reveal_strlit("right_down");
    reveal_strlit("middle_down");
    reveal_strlit("up");
    reveal_strlit("release");
    reveal_strlit("right_up");
    reveal_strlit("middle_up");
    reveal_strlit("move");
    reveal_strlit("drag");
    reveal_strlit("hover");
}

} // verus!
