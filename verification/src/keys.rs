//! Key names and modifiers, and the bytes that a terminal application reads on
//! its standard input when such a key is pressed.

use crate::text;
use vstd::prelude::*;
use vstd::utf8::*;

verus! {

/// Modifier flags. Combined into the xterm modifier parameter (1 + bitmask).
#[derive(Clone, Copy)]
pub struct Mods {
    pub shift: bool,
    pub alt: bool,
    pub ctrl: bool,
}

impl Default for Mods {
    /// No modifier is held.
    fn default() -> (m: Mods)
        ensures
            m == (Mods { shift: false, alt: false, ctrl: false }),
    {
        Mods { shift: false, alt: false, ctrl: false }
    }
}

/// Whether a word names the shift key, in any ASCII case.
pub open spec fn names_shift(word: Seq<char>) -> bool {
    text::lower(word) == "shift"@
}

/// Whether a word names the alt key.
pub open spec fn names_alt(word: Seq<char>) -> bool {
    let w = text::lower(word);
    w == "alt"@ || w == "meta"@ || w == "option"@
}

/// Whether a word names the control key.
pub open spec fn names_ctrl(word: Seq<char>) -> bool {
    let w = text::lower(word);
    w == "ctrl"@ || w == "control"@
}

/// The modifiers that a list of words names. Other words say nothing.
pub open spec fn mods_named(words: Seq<Seq<char>>) -> Mods {
    Mods {
        shift: exists|i: int| 0 <= i < words.len() && names_shift(#[trigger] words[i]),
        alt: exists|i: int| 0 <= i < words.len() && names_alt(#[trigger] words[i]),
        ctrl: exists|i: int| 0 <= i < words.len() && names_ctrl(#[trigger] words[i]),
    }
}

impl Mods {
    /// Whether any modifier is held.
    pub open spec fn some_held(self) -> bool {
        self.shift || self.alt || self.ctrl
    }

    /// The modifier parameter of xterm and kitty: 1 + (shift=1, alt=2, ctrl=4).
    pub open spec fn param(self) -> nat {
        (1 + (if self.shift { 1int } else { 0 }) + (if self.alt { 2int } else { 0 }) + (if self.ctrl {
            4int
        } else {
            0
        })) as nat
    }

    /// The modifiers named in a list, such as `["Ctrl", "shift"]`.
    pub fn from_list(list: &[String]) -> (m: Self)
        ensures
            m == mods_named(text::views(list@)),
    {
        let ghost words = text::views(list@);
        let mut m = Mods::default();
        let mut i: usize = 0;
        while i < list.len()
            invariant
                i <= list@.len(),
                words == text::views(list@),
                m == mods_named(words.take(i as int)),
            decreases list.len() - i,
        {
            let ghost before = words.take(i as int);
            let ghost after = words.take(i + 1);
            let w = text::to_lower(list[i].as_str());
            assert(after =~= before.push(words[i as int]));
            proof {
                lemma_mods_push(before, words[i as int]);
            }
            if text::str_eq(w.as_str(), "shift") {
                m.shift = true;
            } else if text::str_eq(w.as_str(), "alt") || text::str_eq(w.as_str(), "meta")
                || text::str_eq(w.as_str(), "option") {
                m.alt = true;
            } else if text::str_eq(w.as_str(), "ctrl") || text::str_eq(w.as_str(), "control") {
                m.ctrl = true;
            }
            proof {
                lemma_modifier_words_differ();
            }
            i += 1;
        }
        assert(words.take(words.len() as int) =~= words);
        m
    }

    fn any(self) -> (b: bool)
        ensures
            b == self.some_held(),
    {
        self.shift || self.alt || self.ctrl
    }

    fn xterm_param(self) -> (p: u8)
        ensures
            p == self.param(),
            1 <= p <= 8,
    {
        let mut p: u8 = 1;
        if self.shift {
            p += 1;
        }
        if self.alt {
            p += 2;
        }
        if self.ctrl {
            p += 4;
        }
        p
    }
}

proof fn lemma_mods_push(words: Seq<Seq<char>>, word: Seq<char>)
    ensures
        mods_named(words.push(word)) == (Mods {
            shift: mods_named(words).shift || names_shift(word),
            alt: mods_named(words).alt || names_alt(word),
            ctrl: mods_named(words).ctrl || names_ctrl(word),
        }),
{
    let all = words.push(word);
    assert(all[words.len() as int] == word);
    if mods_named(words).shift {
        let i = choose|i: int| 0 <= i < words.len() && names_shift(#[trigger] words[i]);
        assert(names_shift(all[i]));
    }
    if mods_named(words).alt {
        let i = choose|i: int| 0 <= i < words.len() && names_alt(#[trigger] words[i]);
        assert(names_alt(all[i]));
    }
    if mods_named(words).ctrl {
        let i = choose|i: int| 0 <= i < words.len() && names_ctrl(#[trigger] words[i]);
        assert(names_ctrl(all[i]));
    }
}

proof fn lemma_modifier_words_differ()
    ensures
        "shift"@ != "alt"@,
        "shift"@ != "meta"@,
        "shift"@ != "option"@,
        "shift"@ != "ctrl"@,
        "shift"@ != "control"@,
        "alt"@ != "ctrl"@,
        "alt"@ != "control"@,
        "meta"@ != "ctrl"@,
        "meta"@ != "control"@,
        "option"@ != "ctrl"@,
        "option"@ != "control"@,
{
    reveal_strlit("shift");
    reveal_strlit("alt");
    reveal_strlit("meta");
    reveal_strlit("option");
    reveal_strlit("ctrl");
    reveal_strlit("control");
    assert("shift"@[0] == 's');
    assert("alt"@[0] == 'a');
    assert("meta"@[0] == 'm');
    assert("option"@[0] == 'o');
    assert("ctrl"@[0] == 'c');
    assert("control"@[0] == 'c');
}

// ---- Key names --------------------------------------------------------------

/// What a key name stands for.
#[derive(Clone, Copy, PartialEq, Eq, Structural)]
pub enum Key {
    Enter,
    Tab,
    Escape,
    Backspace,
    Space,
    /// Sent as `ESC [ <number> ~`.
    Tilde(u32),
    /// Sent as `ESC [ <letter>`.
    Letter(u8),
    /// F1 to F4, sent as `ESC O <letter>`.
    Function(u8),
    /// A single character, which stands for itself.
    Char(char),
}

/// The key that a name stands for. Names are compared without regard to ASCII
/// case; a name of one character is that character.
pub open spec fn key_named(name: Seq<char>) -> Option<Key> {
    let n = text::lower(name);
    if n == "enter"@ || n == "return"@ || n == "cr"@ {
        Some(Key::Enter)
    } else if n == "tab"@ {
        Some(Key::Tab)
    } else if n == "escape"@ || n == "esc"@ {
        Some(Key::Escape)
    } else if n == "backspace"@ || n == "bs"@ {
        Some(Key::Backspace)
    } else if n == "space"@ {
        Some(Key::Space)
    } else if n == "delete"@ || n == "del"@ {
        Some(Key::Tilde(3))
    } else if n == "insert"@ || n == "ins"@ {
        Some(Key::Tilde(2))
    } else if n == "home"@ {
        Some(Key::Letter(0x48))
    } else if n == "end"@ {
        Some(Key::Letter(0x46))
    } else if n == "pageup"@ || n == "pgup"@ {
        Some(Key::Tilde(5))
    } else if n == "pagedown"@ || n == "pgdn"@ {
        Some(Key::Tilde(6))
    } else if n == "up"@ {
        Some(Key::Letter(0x41))
    } else if n == "down"@ {
        Some(Key::Letter(0x42))
    } else if n == "right"@ {
        Some(Key::Letter(0x43))
    } else if n == "left"@ {
        Some(Key::Letter(0x44))
    } else if n == "f1"@ {
        Some(Key::Function(0x50))
    } else if n == "f2"@ {
        Some(Key::Function(0x51))
    } else if n == "f3"@ {
        Some(Key::Function(0x52))
    } else if n == "f4"@ {
        Some(Key::Function(0x53))
    } else if n == "f5"@ {
        Some(Key::Tilde(15))
    } else if n == "f6"@ {
        Some(Key::Tilde(17))
    } else if n == "f7"@ {
        Some(Key::Tilde(18))
    } else if n == "f8"@ {
        Some(Key::Tilde(19))
    } else if n == "f9"@ {
        Some(Key::Tilde(20))
    } else if n == "f10"@ {
        Some(Key::Tilde(21))
    } else if n == "f11"@ {
        Some(Key::Tilde(23))
    } else if n == "f12"@ {
        Some(Key::Tilde(24))
    } else if name.len() == 1 {
        Some(Key::Char(name[0]))
    } else {
        None
    }
}

/// Looks a key name up.
pub fn find_key(name: &str) -> (k: Option<Key>)
    ensures
        k == key_named(name@),
{
    let lowered = text::to_lower(name);
    let n = lowered.as_str();
    if text::str_eq(n, "enter") || text::str_eq(n, "return") || text::str_eq(n, "cr") {
        Some(Key::Enter)
    } else if text::str_eq(n, "tab") {
        Some(Key::Tab)
    } else if text::str_eq(n, "escape") || text::str_eq(n, "esc") {
        Some(Key::Escape)
    } else if text::str_eq(n, "backspace") || text::str_eq(n, "bs") {
        Some(Key::Backspace)
    } else if text::str_eq(n, "space") {
        Some(Key::Space)
    } else if text::str_eq(n, "delete") || text::str_eq(n, "del") {
        Some(Key::Tilde(3))
    } else if text::str_eq(n, "insert") || text::str_eq(n, "ins") {
        Some(Key::Tilde(2))
    } else if text::str_eq(n, "home") {
        Some(Key::Letter(0x48))
    } else if text::str_eq(n, "end") {
        Some(Key::Letter(0x46))
    } else if text::str_eq(n, "pageup") || text::str_eq(n, "pgup") {
        Some(Key::Tilde(5))
    } else if text::str_eq(n, "pagedown") || text::str_eq(n, "pgdn") {
        Some(Key::Tilde(6))
    } else if text::str_eq(n, "up") {
        Some(Key::Letter(0x41))
    } else if text::str_eq(n, "down") {
        Some(Key::Letter(0x42))
    } else if text::str_eq(n, "right") {
        Some(Key::Letter(0x43))
    } else if text::str_eq(n, "left") {
        Some(Key::Letter(0x44))
    } else if text::str_eq(n, "f1") {
        Some(Key::Function(0x50))
    } else if text::str_eq(n, "f2") {
        Some(Key::Function(0x51))
    } else if text::str_eq(n, "f3") {
        Some(Key::Function(0x52))
    } else if text::str_eq(n, "f4") {
        Some(Key::Function(0x53))
    } else if text::str_eq(n, "f5") {
        Some(Key::Tilde(15))
    } else if text::str_eq(n, "f6") {
        Some(Key::Tilde(17))
    } else if text::str_eq(n, "f7") {
        Some(Key::Tilde(18))
    } else if text::str_eq(n, "f8") {
        Some(Key::Tilde(19))
    } else if text::str_eq(n, "f9") {
        Some(Key::Tilde(20))
    } else if text::str_eq(n, "f10") {
        Some(Key::Tilde(21))
    } else if text::str_eq(n, "f11") {
        Some(Key::Tilde(23))
    } else if text::str_eq(n, "f12") {
        Some(Key::Tilde(24))
    } else {
        let chars = text::chars_of(name);
        if chars.len() == 1 {
            Some(Key::Char(chars[0]))
        } else {
            None
        }
    }
}

// ---- The xterm encoding -----------------------------------------------------

/// The bytes with a leading ESC where alt is held.
pub open spec fn alt_prefixed(bytes: Seq<u8>, m: Mods) -> Seq<u8> {
    if m.alt {
        seq![0x1bu8] + bytes
    } else {
        bytes
    }
}

/// `ESC [ 1 ; <param> <letter>`.
pub open spec fn modified_letter(letter: u8, m: Mods) -> Seq<u8> {
    seq![0x1bu8, 0x5b, 0x31, 0x3b] + text::dec_bytes(m.param()) + seq![letter]
}

/// What an ASCII character becomes while control is held: the characters from
/// `@` to `_`, and the small letters, become the codes from 0 to 31.
pub open spec fn control_code(c: char) -> u8 {
    let u = text::ascii_upper(c);
    if '@' <= u <= '_' {
        (u as u32 - 0x40) as u8
    } else {
        c as u8
    }
}

/// The bytes of a character key.
pub open spec fn char_bytes(c: char, m: Mods) -> Seq<u8> {
    alt_prefixed(
        if m.ctrl && c <= '\u{7f}' {
            seq![control_code(c)]
        } else {
            text::utf8(c)
        },
        m,
    )
}

/// The bytes of a key in the xterm encoding.
pub open spec fn key_bytes(key: Key, m: Mods) -> Seq<u8> {
    match key {
        Key::Enter => seq![0x0du8],
        Key::Tab => if m.shift {
            seq![0x1bu8, 0x5b, 0x5a]
        } else {
            seq![0x09u8]
        },
        Key::Escape => seq![0x1bu8],
        Key::Backspace => seq![0x7fu8],
        Key::Space => alt_prefixed(seq![0x20u8], m),
        Key::Tilde(n) => if m.some_held() {
            seq![0x1bu8, 0x5b] + text::dec_bytes(n as nat) + seq![0x3bu8] + text::dec_bytes(
                m.param(),
            ) + seq![0x7eu8]
        } else {
            seq![0x1bu8, 0x5b] + text::dec_bytes(n as nat) + seq![0x7eu8]
        },
        Key::Letter(b) => if m.some_held() {
            modified_letter(b, m)
        } else {
            seq![0x1bu8, 0x5b, b]
        },
        Key::Function(b) => if m.some_held() {
            modified_letter(b, m)
        } else {
            seq![0x1bu8, 0x4f, b]
        },
        Key::Char(c) => char_bytes(c, m),
    }
}

/// A CSI sequence that ends in a final letter (arrows, Home/End, F1-F4).
/// With modifiers it becomes `ESC [ 1 ; <param> <final>`.
fn csi_letter(final_byte: u8, mods: Mods) -> (r: Vec<u8>)
    ensures
        r@ == key_bytes(Key::Letter(final_byte), mods),
{
    if mods.any() {
        let mut out: Vec<u8> = vec![0x1b, 0x5b, 0x31, 0x3b];
        text::push_dec_bytes(&mut out, mods.xterm_param() as u64);
        out.push(final_byte);
        assert(out@ =~= modified_letter(final_byte, mods));
        out
    } else {
        let out: Vec<u8> = vec![0x1b, 0x5b, final_byte];
        assert(out@ =~= seq![0x1bu8, 0x5b, final_byte]);
        out
    }
}

/// A CSI sequence of the `ESC [ <num> ~` form (Insert, Delete, `PageUp`, F5-F12).
fn csi_tilde(num: u32, mods: Mods) -> (r: Vec<u8>)
    ensures
        r@ == key_bytes(Key::Tilde(num), mods),
{
    let mut out: Vec<u8> = vec![0x1b, 0x5b];
    text::push_dec_bytes(&mut out, num as u64);
    if mods.any() {
        out.push(0x3b);
        text::push_dec_bytes(&mut out, mods.xterm_param() as u64);
    }
    out.push(0x7e);
    assert(out@ =~= key_bytes(Key::Tilde(num), mods));
    out
}

/// F1-F4 without mods use SS3 (`ESC O P` etc.); with mods use the CSI form.
fn csi_ss3_or_mod(final_byte: u8, mods: Mods) -> (r: Vec<u8>)
    ensures
        r@ == key_bytes(Key::Function(final_byte), mods),
{
    if mods.any() {
        csi_letter(final_byte, mods)
    } else {
        let out: Vec<u8> = vec![0x1b, 0x4f, final_byte];
        assert(out@ =~= seq![0x1bu8, 0x4f, final_byte]);
        out
    }
}

/// Apply ctrl (collapse to control code) and alt (ESC prefix) to a character.
fn char_with_mods(c: char, mods: Mods) -> (r: Vec<u8>)
    ensures
        r@ == char_bytes(c, mods),
{
    let mut out: Vec<u8> = Vec::new();
    if mods.ctrl && c <= '\u{7f}' {
        let upper = text::to_upper_char(c) as u8;
        if 0x40 <= upper && upper <= 0x5f {
            assert(upper & 0x1f == upper - 0x40) by (bit_vector)
                requires
                    0x40 <= upper <= 0x5f,
            ;
            out.push(upper & 0x1f);
        } else {
            out.push(c as u8);
        }
        assert(out@ =~= seq![control_code(c)]);
    } else {
        text::push_utf8(&mut out, c);
        assert(out@ =~= text::utf8(c));
    }
    prefix_alt(out, mods)
}

/// Alt is sent as a leading ESC byte.
fn prefix_alt(bytes: Vec<u8>, mods: Mods) -> (r: Vec<u8>)
    ensures
        r@ == alt_prefixed(bytes@, mods),
{
    if mods.alt {
        let mut out: Vec<u8> = vec![0x1b];
        out.extend_from_slice(&bytes);
        assert(out@ =~= seq![0x1bu8] + bytes@);
        out
    } else {
        bytes
    }
}

/// Translate a named key into bytes. Returns `None` for unknown names.
pub fn key_to_bytes(name: &str, mods: Mods) -> (r: Option<Vec<u8>>)
    ensures
        r is Some <==> key_named(name@) is Some,
        r is Some ==> r->0@ == key_bytes(key_named(name@)->0, mods),
{
    let key = match find_key(name) {
        Some(key) => key,
        None => {
            return None;
        },
    };
    let bytes = match key {
        Key::Enter => vec![0x0d],
        Key::Tab => if mods.shift {
            vec![0x1b, 0x5b, 0x5a]
        } else {
            vec![0x09]
        },
        Key::Escape => vec![0x1b],
        Key::Backspace => vec![0x7f],
        Key::Space => prefix_alt(vec![0x20], mods),
        Key::Tilde(n) => csi_tilde(n, mods),
        Key::Letter(b) => csi_letter(b, mods),
        Key::Function(b) => csi_ss3_or_mod(b, mods),
        Key::Char(c) => char_with_mods(c, mods),
    };
    assert(bytes@ =~= key_bytes(key, mods));
    Some(bytes)
}

// ---- The kitty encoding -----------------------------------------------------

/// The code of a key in the kitty keyboard protocol. The keys that kitty leaves
/// in their CSI-letter and CSI-tilde forms have none.
pub open spec fn kitty_code(key: Key) -> Option<nat> {
    match key {
        Key::Enter => Some(13),
        Key::Tab => Some(9),
        Key::Escape => Some(27),
        Key::Backspace => Some(127),
        Key::Space => Some(32),
        Key::Char(c) => Some(text::unicode_lowercase_head(c) as nat),
        _ => None,
    }
}

/// The escape code of a key press: `ESC [ <code> u`, or with modifiers
/// `ESC [ <code> ; <param> u`.
pub open spec fn kitty_escape(code: nat, m: Mods) -> Seq<u8> {
    if m.some_held() {
        seq![0x1bu8, 0x5b] + text::dec_bytes(code) + seq![0x3bu8] + text::dec_bytes(m.param())
            + seq![0x75u8]
    } else {
        seq![0x1bu8, 0x5b] + text::dec_bytes(code) + seq![0x75u8]
    }
}

/// The bytes of a key press under the kitty protocol with the given flags, or
/// `None` where the key keeps its xterm encoding: when the protocol is off, for
/// a key without a code, and for a key without ctrl or alt unless the program
/// asked for all keys as escape codes (bit 3).
pub open spec fn kitty_bytes(key: Option<Key>, m: Mods, flags: u8) -> Option<Seq<u8>> {
    if flags != 0 && key is Some && kitty_code(key->0) is Some && (flags & 8 != 0 || m.ctrl || m.alt) {
        Some(kitty_escape(kitty_code(key->0)->0, m))
    } else {
        None
    }
}

/// The kitty key code for a key name, or `None` for keys we leave to the legacy
/// (xterm) encoding: arrows, function keys, Home/End, and so on, which kitty keeps
/// in their CSI-letter / CSI-tilde forms.
fn kitty_keycode(name: &str) -> (r: Option<u32>)
    ensures
        r is Some <==> key_named(name@) is Some && kitty_code(key_named(name@)->0) is Some,
        r is Some ==> r->0 == kitty_code(key_named(name@)->0)->0,
{
    match find_key(name) {
        Some(Key::Enter) => Some(13),
        Some(Key::Tab) => Some(9),
        Some(Key::Escape) => Some(27),
        Some(Key::Backspace) => Some(127),
        Some(Key::Space) => Some(32),
        Some(Key::Char(c)) => Some(text::lowercase_head(c) as u32),
        _ => None,
    }
}

/// Encode a key press in the kitty keyboard protocol, or `None` to fall back to
/// [`key_to_bytes`]. Returns `None` when the protocol is disabled (`flags == 0`),
/// for keys handled by the legacy encoder, or for unmodified text keys unless
/// "report all keys as escape codes" (bit 3) is set, matching kitty semantics
/// where plain typing still arrives as text.
pub fn kitty_encode(name: &str, mods: Mods, flags: u8) -> (r: Option<Vec<u8>>)
    ensures
        r is Some <==> kitty_bytes(key_named(name@), mods, flags) is Some,
        r is Some ==> r->0@ == kitty_bytes(key_named(name@), mods, flags)->0,
{
    if flags == 0 {
        return None;
    }
    let code = match kitty_keycode(name) {
        Some(code) => code,
        None => {
            return None;
        },
    };
    let report_all = flags & 8 != 0;
    if !(report_all || mods.ctrl || mods.alt) {
        return None;
    }
    let mut out: Vec<u8> = vec![0x1b, 0x5b];
    text::push_dec_bytes(&mut out, code as u64);
    if mods.any() {
        out.push(0x3b);
        text::push_dec_bytes(&mut out, mods.xterm_param() as u64);
    }
    out.push(0x75);
    assert(out@ =~= kitty_escape(code as nat, mods));
    Some(out)
}

// ---- C-style escapes --------------------------------------------------------

/// The value of a hexadecimal digit.
pub open spec fn hex_digit(c: char) -> Option<nat> {
    if '0' <= c <= '9' {
        Some((c as u32 - 0x30) as nat)
    } else if 'a' <= c <= 'f' {
        Some((c as u32 - 0x57) as nat)
    } else if 'A' <= c <= 'F' {
        Some((c as u32 - 0x37) as nat)
    } else {
        None
    }
}

/// The byte that the one or two characters behind `\x` stand for: hexadecimal
/// digits, the first of which may be replaced by a plus sign.
pub open spec fn hex_byte(h: Seq<char>) -> Option<u8> {
    if h.len() == 1 && hex_digit(h[0]) is Some {
        Some(hex_digit(h[0])->0 as u8)
    } else if h.len() == 2 && h[0] == '+' && hex_digit(h[1]) is Some {
        Some(hex_digit(h[1])->0 as u8)
    } else if h.len() == 2 && hex_digit(h[0]) is Some && hex_digit(h[1]) is Some {
        Some((16 * hex_digit(h[0])->0 + hex_digit(h[1])->0) as u8)
    } else {
        None
    }
}

/// The bytes of a backslash and the character behind it, `\x` aside.
pub open spec fn escape_bytes(c: char) -> Seq<u8> {
    if c == 'n' {
        seq![0x0au8]
    } else if c == 'r' {
        seq![0x0du8]
    } else if c == 't' {
        seq![0x09u8]
    } else if c == '0' {
        seq![0x00u8]
    } else if c == 'e' || c == 'E' {
        seq![0x1bu8]
    } else if c == '\\' {
        seq![0x5cu8]
    } else {
        seq![0x5cu8] + text::utf8(c)
    }
}

/// The bytes that a text with C-style escapes stands for. A `\x` whose digits
/// give no byte stands for nothing, and a backslash at the end for itself.
pub open spec fn unescaped(s: Seq<char>) -> Seq<u8>
    decreases s.len(),
{
    if s.len() == 0 {
        Seq::empty()
    } else if s[0] != '\\' {
        text::utf8(s[0]) + unescaped(s.skip(1))
    } else if s.len() == 1 {
        seq![0x5cu8]
    } else if s[1] == 'x' {
        let end: int = if s.len() < 4 {
            s.len() as int
        } else {
            4
        };
        let byte = match hex_byte(s.subrange(2, end)) {
            Some(b) => seq![b],
            None => Seq::empty(),
        };
        byte + unescaped(s.skip(end))
    } else {
        escape_bytes(s[1]) + unescaped(s.skip(2))
    }
}

fn digit_value(c: char) -> (r: Option<u8>)
    ensures
        r is Some <==> hex_digit(c) is Some,
        r is Some ==> r->0 == hex_digit(c)->0 && r->0 < 16,
{
    if '0' <= c && c <= '9' {
        Some(c as u8 - 0x30)
    } else if 'a' <= c && c <= 'f' {
        Some(c as u8 - 0x57)
    } else if 'A' <= c && c <= 'F' {
        Some(c as u8 - 0x37)
    } else {
        None
    }
}

/// The byte written by at most two hexadecimal characters.
fn parse_hex(h: &[char]) -> (r: Option<u8>)
    ensures
        r == hex_byte(h@),
{
    if h.len() == 1 {
        digit_value(h[0])
    } else if h.len() == 2 && h[0] == '+' {
        digit_value(h[1])
    } else if h.len() == 2 {
        match (digit_value(h[0]), digit_value(h[1])) {
            (Some(hi), Some(lo)) => Some(16 * hi + lo),
            _ => None,
        }
    } else {
        None
    }
}

/// Decode a string that may contain C-style escapes into raw bytes.
/// Supports `\n` `\r` `\t` `\0` `\e` (ESC) `\xHH` `\\`.
pub fn unescape(input: &str) -> (r: Vec<u8>)
    ensures
        r@ == unescaped(input@),
{
    let v = text::chars_of(input);
    let mut out: Vec<u8> = Vec::new();
    let mut i: usize = 0;
    assert(v@.skip(0) =~= v@);
    assert(out@ + unescaped(v@) =~= unescaped(v@));
    while i < v.len()
        invariant
            i <= v@.len(),
            out@ + unescaped(v@.skip(i as int)) == unescaped(v@),
        decreases v.len() - i,
    {
        let ghost before = out@;
        let ghost s = v@.skip(i as int);
        assert(s[0] == v@[i as int]);
        if v[i] != '\\' {
            text::push_utf8(&mut out, v[i]);
            i += 1;
            assert(s.skip(1) =~= v@.skip(i as int));
            assert(out@ + unescaped(v@.skip(i as int)) =~= before + unescaped(s));
        } else if i == v.len() - 1 {
            out.push(0x5c);
            i += 1;
            assert(v@.skip(i as int) =~= Seq::<char>::empty());
            assert(out@ + unescaped(v@.skip(i as int)) =~= before + unescaped(s));
        } else {
            let esc = v[i + 1];
            assert(s[1] == esc);
            if esc == 'x' {
                let end: usize = if v.len() - i < 4 {
                    v.len()
                } else {
                    i + 4
                };
                let h = vstd::slice::slice_subrange(v.as_slice(), i + 2, end);
                assert(h@ =~= s.subrange(2, end - i));
                assert(s.skip(end - i) =~= v@.skip(end as int));
                if let Some(b) = parse_hex(h) {
                    out.push(b);
                }
                i = end;
                assert(out@ + unescaped(v@.skip(i as int)) =~= before + unescaped(s));
            } else {
                if esc == 'n' {
                    out.push(0x0a);
                } else if esc == 'r' {
                    out.push(0x0d);
                } else if esc == 't' {
                    out.push(0x09);
                } else if esc == '0' {
                    out.push(0x00);
                } else if esc == 'e' || esc == 'E' {
                    out.push(0x1b);
                } else if esc == '\\' {
                    out.push(0x5c);
                } else {
                    out.push(0x5c);
                    text::push_utf8(&mut out, esc);
                }
                assert(out@ =~= before + escape_bytes(esc));
                i += 2;
                assert(s.skip(2) =~= v@.skip(i as int));
                assert(out@ + unescaped(v@.skip(i as int)) =~= before + unescaped(s));
            }
        }
    }
    assert(v@.skip(i as int) =~= Seq::<char>::empty());
    assert(out@ + unescaped(v@.skip(i as int)) =~= out@);
    out
}

// ---- Laws -------------------------------------------------------------------

/// The modifier parameter tells which modifiers are held.
pub proof fn param_tells_modifiers_apart(a: Mods, b: Mods)
    requires
        a.param() == b.param(),
    ensures
        a == b,
{
}

/// The order in which modifiers are listed, and how often, does not matter:
/// lists that hold the same words name the same modifiers.
pub proof fn modifier_lists_are_sets(a: Seq<Seq<char>>, b: Seq<Seq<char>>)
    requires
        forall|w: Seq<char>| a.contains(w) <==> b.contains(w),
    ensures
        mods_named(a) == mods_named(b),
{
    lemma_contained_modifiers(a, b);
    lemma_contained_modifiers(b, a);
}

proof fn lemma_contained_modifiers(a: Seq<Seq<char>>, b: Seq<Seq<char>>)
    requires
        forall|w: Seq<char>| a.contains(w) ==> b.contains(w),
    ensures
        mods_named(a).shift ==> mods_named(b).shift,
        mods_named(a).alt ==> mods_named(b).alt,
        mods_named(a).ctrl ==> mods_named(b).ctrl,
{
    if mods_named(a).shift {
        let i = choose|i: int| 0 <= i < a.len() && names_shift(#[trigger] a[i]);
        assert(a.contains(a[i]));
        let j = choose|j: int| 0 <= j < b.len() && b[j] == a[i];
        assert(names_shift(b[j]));
    }
    if mods_named(a).alt {
        let i = choose|i: int| 0 <= i < a.len() && names_alt(#[trigger] a[i]);
        assert(a.contains(a[i]));
        let j = choose|j: int| 0 <= j < b.len() && b[j] == a[i];
        assert(names_alt(b[j]));
    }
    if mods_named(a).ctrl {
        let i = choose|i: int| 0 <= i < a.len() && names_ctrl(#[trigger] a[i]);
        assert(a.contains(a[i]));
        let j = choose|j: int| 0 <= j < b.len() && b[j] == a[i];
        assert(names_ctrl(b[j]));
    }
}

/// A key name of more than one character means the same in every ASCII case.
pub proof fn key_names_ignore_case(a: Seq<char>, b: Seq<char>)
    requires
        text::lower(a) == text::lower(b),
        a.len() != 1,
    ensures
        key_named(a) == key_named(b),
{
    assert(text::lower(a).len() == a.len());
    assert(text::lower(b).len() == b.len());
}

/// While the protocol is off, every key keeps its xterm encoding.
pub proof fn kitty_off_encodes_nothing(key: Option<Key>, m: Mods)
    ensures
        kitty_bytes(key, m, 0) is None,
{
}

/// Arrows, Home, End, the paging, editing and function keys keep their xterm
/// encoding under every flag value.
pub proof fn kitty_leaves_functional_keys(key: Key, m: Mods, flags: u8)
    requires
        key is Tilde || key is Letter || key is Function,
    ensures
        kitty_bytes(Some(key), m, flags) is None,
{
}

/// Plain typing arrives as text: without ctrl and alt no key is encoded, unless
/// the program asked for all keys as escape codes.
pub proof fn kitty_leaves_plain_typing(key: Option<Key>, m: Mods, flags: u8)
    requires
        flags & 8 == 0,
        !m.ctrl,
        !m.alt,
    ensures
        kitty_bytes(key, m, flags) is None,
{
}

/// Whatever the kitty protocol encodes, the xterm encoding knows too.
pub proof fn kitty_keys_have_an_xterm_form(name: Seq<char>, m: Mods, flags: u8)
    requires
        kitty_bytes(key_named(name), m, flags) is Some,
    ensures
        key_named(name) is Some,
{
}

/// Alt puts one ESC before what the character gives without it.
pub proof fn alt_is_an_escape_prefix(c: char, m: Mods)
    requires
        m.alt,
    ensures
        key_bytes(Key::Char(c), m) == seq![0x1bu8] + key_bytes(
            Key::Char(c),
            Mods { alt: false, ..m },
        ),
{
}

/// A text without a backslash stands for its own UTF-8 bytes.
pub proof fn plain_text_is_sent_as_it_stands(s: Seq<char>)
    requires
        !s.contains('\\'),
    ensures
        unescaped(s) == encode_utf8(s),
    decreases s.len(),
{
    if s.len() > 0 {
        assert(s.contains(s[0]));
        let rest = s.skip(1);
        assert(!rest.contains('\\')) by {
            if rest.contains('\\') {
                let i = choose|i: int| 0 <= i < rest.len() && rest[i] == '\\';
                assert(s[i + 1] == '\\');
            }
        }
        plain_text_is_sent_as_it_stands(rest);
        text::encode_utf8_concat(seq![s[0]], rest);
        assert(s =~= seq![s[0]] + rest);
    }
}

/// A text with every backslash doubled.
pub open spec fn backslashes_doubled(s: Seq<char>) -> Seq<char>
    decreases s.len(),
{
    if s.len() == 0 {
        s
    } else if s[0] == '\\' {
        seq!['\\', '\\'] + backslashes_doubled(s.skip(1))
    } else {
        seq![s[0]] + backslashes_doubled(s.skip(1))
    }
}

/// Every text can be sent: with its backslashes doubled it stands for its own
/// UTF-8 bytes.
pub proof fn doubled_backslashes_send_any_text(s: Seq<char>)
    ensures
        unescaped(backslashes_doubled(s)) == encode_utf8(s),
    decreases s.len(),
{
    if s.len() > 0 {
        let rest = s.skip(1);
        doubled_backslashes_send_any_text(rest);
        text::encode_utf8_concat(seq![s[0]], rest);
        assert(s =~= seq![s[0]] + rest);
        let d = backslashes_doubled(s);
        if s[0] == '\\' {
            assert(d.skip(2) =~= backslashes_doubled(rest));
            assert(text::utf8('\\') == seq![0x5cu8]) by {
                lemma_ascii_utf8('\\');
            }
        } else {
            assert(d.skip(1) =~= backslashes_doubled(rest));
        }
    }
}

proof fn lemma_ascii_utf8(c: char)
    requires
        c <= '\u{7f}',
    ensures
        text::utf8(c) == seq![c as u8],
{
    let s = seq![c];
    assert(is_ascii_chars(s));
    is_ascii_chars_encode_utf8(s);
    assert(text::utf8(c) =~= seq![c as u8]);
}

/// A hexadecimal digit of a number below sixteen.
pub open spec fn hex_char(d: nat) -> char {
    if d < 10 {
        ((0x30 + d) as u32) as char
    } else {
        ((0x57 + d) as u32) as char
    }
}

/// The bytes, each written as `\xHH`.
pub open spec fn hex_escaped(bytes: Seq<u8>) -> Seq<char>
    decreases bytes.len(),
{
    if bytes.len() == 0 {
        Seq::empty()
    } else {
        seq![
            '\\',
            'x',
            hex_char((bytes[0] / 16) as nat),
            hex_char((bytes[0] % 16) as nat),
        ] + hex_escaped(bytes.skip(1))
    }
}

/// Every byte string can be sent: written as hexadecimal escapes it stands for
/// itself.
pub proof fn hex_escapes_send_any_bytes(bytes: Seq<u8>)
    ensures
        unescaped(hex_escaped(bytes)) == bytes,
    decreases bytes.len(),
{
    if bytes.len() > 0 {
        let rest = bytes.skip(1);
        hex_escapes_send_any_bytes(rest);
        let b = bytes[0];
        let s = hex_escaped(bytes);
        let h = s.subrange(2, 4);
        assert(h =~= seq![hex_char((b / 16) as nat), hex_char((b % 16) as nat)]);
        assert(hex_byte(h) == Some(b));
        assert(s.skip(4) =~= hex_escaped(rest));
        assert(bytes =~= seq![b] + rest);
    } else {
        assert(unescaped(hex_escaped(bytes)) =~= bytes);
    }
}

/// The digit that says which modifiers are held: 1, and 1 more for shift, 2 for alt, 4 for
/// ctrl.
pub open spec fn modifier_digit(m: Mods) -> u8 {
    (0x31 + (if m.shift { 1int } else { 0 }) + (if m.alt { 2int } else { 0 }) + (if m.ctrl {
        4int
    } else {
        0
    })) as u8
}

proof fn lemma_one_digit(m: Mods)
    ensures
        text::dec_bytes(m.param()) == seq![modifier_digit(m)],
        m.param() <= 8,
{
    assert(text::dec_bytes(m.param()) =~= seq![modifier_digit(m)]);
}

/// Every modifier reaches the program for the cursor, paging, editing and function keys:
/// under two different sets of modifiers such a key sends different bytes.
pub proof fn modifiers_reach_the_program(key: Key, a: Mods, b: Mods)
    requires
        key is Tilde || key is Letter || key is Function,
        a.shift != b.shift || a.alt != b.alt || a.ctrl != b.ctrl,
    ensures
        key_bytes(key, a) != key_bytes(key, b),
{
    lemma_one_digit(a);
    lemma_one_digit(b);
    let x = key_bytes(key, a);
    let y = key_bytes(key, b);
    match key {
        Key::Tilde(n) => {
            let d = text::dec_bytes(n as nat).len() as int;
            if a.some_held() && b.some_held() {
                assert(x[d + 3] == modifier_digit(a));
                assert(y[d + 3] == modifier_digit(b));
            } else {
                assert(x.len() != y.len());
            }
        },
        _ => {
            if a.some_held() && b.some_held() {
                assert(x[4] == modifier_digit(a));
                assert(y[4] == modifier_digit(b));
            } else {
                assert(x.len() != y.len());
            }
        },
    }
}

/// How the modifiers are sent. With any of them held, a key that is a letter behind
/// `ESC [` or `ESC O` is sent as `ESC [ 1 ;`, the digit of the modifiers and its letter; a
/// key that is a number and a tilde has the digit behind a semicolon. With none held the
/// digit is left out.
pub proof fn modifiers_are_sent_as_a_digit(m: Mods, letter: u8, number: u32)
    ensures
        ({
            let digit = (0x31 + (if m.shift { 1int } else { 0 }) + (if m.alt { 2int } else { 0 })
                + (if m.ctrl { 4int } else { 0 })) as u8;
            let held = seq![0x1bu8, 0x5b, 0x31, 0x3b, digit, letter];
            let tilde = seq![0x1bu8, 0x5b] + text::dec_bytes(number as nat);
            if m.shift || m.alt || m.ctrl {
                &&& key_bytes(Key::Letter(letter), m) == held
                &&& key_bytes(Key::Function(letter), m) == held
                &&& key_bytes(Key::Tilde(number), m) == tilde + seq![0x3bu8, digit, 0x7e]
            } else {
                &&& key_bytes(Key::Letter(letter), m) == seq![0x1bu8, 0x5b, letter]
                &&& key_bytes(Key::Function(letter), m) == seq![0x1bu8, 0x4f, letter]
                &&& key_bytes(Key::Tilde(number), m) == tilde + seq![0x7eu8]
            }
        }),
{
    lemma_one_digit(m);
    let digit = modifier_digit(m);
    if m.some_held() {
        assert(key_bytes(Key::Letter(letter), m) =~= seq![0x1bu8, 0x5b, 0x31, 0x3b, digit, letter]);
        assert(key_bytes(Key::Function(letter), m) =~= seq![
            0x1bu8,
            0x5b,
            0x31,
            0x3b,
            digit,
            letter,
        ]);
        assert(key_bytes(Key::Tilde(number), m) =~= seq![0x1bu8, 0x5b] + text::dec_bytes(
            number as nat,
        ) + seq![0x3bu8, digit, 0x7e]);
    }
}

/// Whether a name is one of two, in any ASCII case.
pub open spec fn is_called(name: Seq<char>, a: Seq<char>, b: Seq<char>) -> bool {
    text::lower(name) == a || text::lower(name) == b
}

/// The keys by their names, in any ASCII case: each sends what a terminal sends for it.
/// The cursor keys and Home and End are letters, F1 to F4 too, and the others numbers with
/// a tilde.
pub proof fn keys_have_their_names(name: Seq<char>)
    ensures
        text::lower(name) == "up"@ ==> key_named(name) == Some(Key::Letter(0x41)),
        text::lower(name) == "down"@ ==> key_named(name) == Some(Key::Letter(0x42)),
        text::lower(name) == "right"@ ==> key_named(name) == Some(Key::Letter(0x43)),
        text::lower(name) == "left"@ ==> key_named(name) == Some(Key::Letter(0x44)),
        text::lower(name) == "end"@ ==> key_named(name) == Some(Key::Letter(0x46)),
        text::lower(name) == "home"@ ==> key_named(name) == Some(Key::Letter(0x48)),
        is_called(name, "insert"@, "ins"@) ==> key_named(name) == Some(Key::Tilde(2)),
        is_called(name, "delete"@, "del"@) ==> key_named(name) == Some(Key::Tilde(3)),
        is_called(name, "pageup"@, "pgup"@) ==> key_named(name) == Some(Key::Tilde(5)),
        is_called(name, "pagedown"@, "pgdn"@) ==> key_named(name) == Some(Key::Tilde(6)),
        text::lower(name) == "f1"@ ==> key_named(name) == Some(Key::Function(0x50)),
        text::lower(name) == "f2"@ ==> key_named(name) == Some(Key::Function(0x51)),
        text::lower(name) == "f3"@ ==> key_named(name) == Some(Key::Function(0x52)),
        text::lower(name) == "f4"@ ==> key_named(name) == Some(Key::Function(0x53)),
        text::lower(name) == "f5"@ ==> key_named(name) == Some(Key::Tilde(15)),
        text::lower(name) == "f6"@ ==> key_named(name) == Some(Key::Tilde(17)),
        text::lower(name) == "f7"@ ==> key_named(name) == Some(Key::Tilde(18)),
        text::lower(name) == "f8"@ ==> key_named(name) == Some(Key::Tilde(19)),
        text::lower(name) == "f9"@ ==> key_named(name) == Some(Key::Tilde(20)),
        text::lower(name) == "f10"@ ==> key_named(name) == Some(Key::Tilde(21)),
        text::lower(name) == "f11"@ ==> key_named(name) == Some(Key::Tilde(23)),
        text::lower(name) == "f12"@ ==> key_named(name) == Some(Key::Tilde(24)),
        is_called(name, "enter"@, "return"@) ==> key_named(name) == Some(Key::Enter),
        text::lower(name) == "cr"@ ==> key_named(name) == Some(Key::Enter),
        text::lower(name) == "tab"@ ==> key_named(name) == Some(Key::Tab),
        is_called(name, "escape"@, "esc"@) ==> key_named(name) == Some(Key::Escape),
        is_called(name, "backspace"@, "bs"@) ==> key_named(name) == Some(Key::Backspace),
        text::lower(name) == "space"@ ==> key_named(name) == Some(Key::Space),
{
    lemma_key_names_differ(text::lower(name));
}

proof fn lemma_key_names_differ(n: Seq<char>)
    ensures
        n == "enter"@ ==> n.len() == 5 && n[0] == 'e',
        n == "return"@ ==> n.len() == 6 && n[0] == 'r',
        n == "cr"@ ==> n.len() == 2 && n[0] == 'c',
        n == "tab"@ ==> n.len() == 3 && n[0] == 't',
        n == "escape"@ ==> n.len() == 6 && n[0] == 'e',
        n == "esc"@ ==> n.len() == 3 && n[0] == 'e' && n[1] == 's',
        n == "backspace"@ ==> n.len() == 9,
        n == "bs"@ ==> n.len() == 2 && n[0] == 'b',
        n == "space"@ ==> n.len() == 5 && n[0] == 's',
        n == "delete"@ ==> n.len() == 6 && n[0] == 'd',
        n == "del"@ ==> n.len() == 3 && n[0] == 'd',
        n == "insert"@ ==> n.len() == 6 && n[0] == 'i',
        n == "ins"@ ==> n.len() == 3 && n[0] == 'i',
        n == "home"@ ==> n.len() == 4 && n[0] == 'h',
        n == "end"@ ==> n.len() == 3 && n[0] == 'e' && n[1] == 'n',
        n == "pageup"@ ==> n.len() == 6 && n[0] == 'p',
        n == "pgup"@ ==> n.len() == 4 && n[0] == 'p' && n[2] == 'u',
        n == "pagedown"@ ==> n.len() == 8,
        n == "pgdn"@ ==> n.len() == 4 && n[0] == 'p' && n[2] == 'd',
        n == "up"@ ==> n.len() == 2 && n[0] == 'u',
        n == "down"@ ==> n.len() == 4 && n[0] == 'd',
        n == "right"@ ==> n.len() == 5 && n[0] == 'r',
        n == "left"@ ==> n.len() == 4 && n[0] == 'l',
        n == "f1"@ ==> n.len() == 2 && n[0] == 'f' && n[1] == '1',
        n == "f2"@ ==> n.len() == 2 && n[0] == 'f' && n[1] == '2',
        n == "f3"@ ==> n.len() == 2 && n[0] == 'f' && n[1] == '3',
        n == "f4"@ ==> n.len() == 2 && n[0] == 'f' && n[1] == '4',
        n == "f5"@ ==> n.len() == 2 && n[0] == 'f' && n[1] == '5',
        n == "f6"@ ==> n.len() == 2 && n[0] == 'f' && n[1] == '6',
        n == "f7"@ ==> n.len() == 2 && n[0] == 'f' && n[1] == '7',
        n == "f8"@ ==> n.len() == 2 && n[0] == 'f' && n[1] == '8',
        n == "f9"@ ==> n.len() == 2 && n[0] == 'f' && n[1] == '9',
        n == "f10"@ ==> n.len() == 3 && n[0] == 'f' && n[2] == '0',
        n == "f11"@ ==> n.len() == 3 && n[0] == 'f' && n[2] == '1',
        n == "f12"@ ==> n.len() == 3 && n[0] == 'f' && n[2] == '2',
{
    reveal_strlit("enter");
    reveal_strlit("return");
    reveal_strlit("cr");
    reveal_strlit("tab");
    reveal_strlit("escape");
    reveal_strlit("esc");
    reveal_strlit("backspace");
    reveal_strlit("bs");
    reveal_strlit("space");
    reveal_strlit("delete");
    reveal_strlit("del");
    reveal_strlit("insert");
    reveal_strlit("ins");
    reveal_strlit("home");
    reveal_strlit("end");
    reveal_strlit("pageup");
    reveal_strlit("pgup");
    reveal_strlit("pagedown");
    reveal_strlit("pgdn");
    reveal_strlit("up");
    reveal_strlit("down");
    reveal_strlit("right");
    reveal_strlit("left");
    reveal_strlit("f1");
    reveal_strlit("f2");
    reveal_strlit("f3");
    reveal_strlit("f4");
    reveal_strlit("f5");
    reveal_strlit("f6");
    reveal_strlit("f7");
    reveal_strlit("f8");
    reveal_strlit("f9");
    reveal_strlit("f10");
    reveal_strlit("f11");
    reveal_strlit("f12");
}

/// A single character is a key of its own, in its own case, and a longer name that is no
/// key's stands for nothing.
pub proof fn characters_are_keys(name: Seq<char>)
    ensures
        name.len() == 1 ==> key_named(name) == Some(Key::Char(name[0])),
        name.len() != 1 ==> !(key_named(name) matches Some(Key::Char(_))),
        ({
            let n = text::lower(name);
            key_named(name) is Some <==> {
                ||| name.len() == 1
                ||| n == "enter"@
                ||| n == "return"@
                ||| n == "cr"@
                ||| n == "tab"@
                ||| n == "escape"@
                ||| n == "esc"@
                ||| n == "backspace"@
                ||| n == "bs"@
                ||| n == "space"@
                ||| n == "delete"@
                ||| n == "del"@
                ||| n == "insert"@
                ||| n == "ins"@
                ||| n == "home"@
                ||| n == "end"@
                ||| n == "pageup"@
                ||| n == "pgup"@
                ||| n == "pagedown"@
                ||| n == "pgdn"@
                ||| n == "up"@
                ||| n == "down"@
                ||| n == "right"@
                ||| n == "left"@
                ||| n == "f1"@
                ||| n == "f2"@
                ||| n == "f3"@
                ||| n == "f4"@
                ||| n == "f5"@
                ||| n == "f6"@
                ||| n == "f7"@
                ||| n == "f8"@
                ||| n == "f9"@
                ||| n == "f10"@
                ||| n == "f11"@
                ||| n == "f12"@
            }
        }),
{
    lemma_key_names_differ(text::lower(name));
}

/// The keys that have a byte of their own send it under every modifier, but for two:
/// shift turns Tab into `ESC [ Z`, and alt puts an ESC before a space.
pub proof fn editing_keys_send_their_byte(m: Mods)
    ensures
        key_bytes(Key::Enter, m) == seq![0x0du8],
        key_bytes(Key::Escape, m) == seq![0x1bu8],
        key_bytes(Key::Backspace, m) == seq![0x7fu8],
        !m.shift ==> key_bytes(Key::Tab, m) == seq![0x09u8],
        m.shift ==> key_bytes(Key::Tab, m) == seq![0x1bu8, 0x5b, 0x5a],
        !m.alt ==> key_bytes(Key::Space, m) == seq![0x20u8],
        m.alt ==> key_bytes(Key::Space, m) == seq![0x1bu8, 0x20],
{
    assert(m.alt ==> key_bytes(Key::Space, m) =~= seq![0x1bu8, 0x20]);
}

/// Control keeps the five lowest bits of a letter, in either case, and of the characters
/// from `@` to `_`; every other character is sent as without it. Shift changes nothing.
pub proof fn control_keeps_five_bits(c: char, m: Mods)
    requires
        !m.alt,
    ensures
        !m.ctrl ==> key_bytes(Key::Char(c), m) == encode_utf8(seq![c]),
        m.ctrl && ('@' <= c <= '_' || 'a' <= c <= 'z') ==> key_bytes(Key::Char(c), m) == seq![
            (c as u8) & 0x1f,
        ],
        m.ctrl && !('@' <= c <= '_' || 'a' <= c <= 'z') ==> key_bytes(Key::Char(c), m)
            == encode_utf8(seq![c]),
{
    if m.ctrl && ('@' <= c <= '_' || 'a' <= c <= 'z') {
        let b = c as u8;
        assert((0x40 <= b <= 0x5f ==> b & 0x1f == b - 0x40) && (0x61 <= b <= 0x7a ==> b & 0x1f == b
            - 0x60)) by (bit_vector);
        assert(key_bytes(Key::Char(c), m) =~= seq![b & 0x1f]);
    } else if m.ctrl && c <= '\u{7f}' {
        lemma_ascii_utf8(c);
    }
}

/// Which modifiers a list of words names, in any ASCII case: alt has three names and ctrl
/// two, and no word names two of them.
pub proof fn modifiers_have_their_names(words: Seq<Seq<char>>, i: int)
    requires
        0 <= i < words.len(),
    ensures
        text::lower(words[i]) == "shift"@ ==> mods_named(words).shift,
        text::lower(words[i]) == "alt"@ ==> mods_named(words).alt,
        is_called(words[i], "meta"@, "option"@) ==> mods_named(words).alt,
        is_called(words[i], "ctrl"@, "control"@) ==> mods_named(words).ctrl,
        mods_named(seq![words[i]]) == (Mods {
            shift: text::lower(words[i]) == "shift"@,
            alt: text::lower(words[i]) == "alt"@ || text::lower(words[i]) == "meta"@ || text::lower(
                words[i],
            ) == "option"@,
            ctrl: text::lower(words[i]) == "ctrl"@ || text::lower(words[i]) == "control"@,
        }),
{
    let w = words[i];
    assert(names_shift(w) ==> mods_named(words).shift);
    assert(names_alt(w) ==> mods_named(words).alt);
    assert(names_ctrl(w) ==> mods_named(words).ctrl);
    assert(seq![w] =~= Seq::<Seq<char>>::empty().push(w));
    lemma_mods_push(Seq::empty(), w);
}

/// Two lists in a row hold the modifiers of both, and an empty list none.
pub proof fn modifiers_add_up(a: Seq<Seq<char>>, b: Seq<Seq<char>>)
    ensures
        mods_named(a + b) == (Mods {
            shift: mods_named(a).shift || mods_named(b).shift,
            alt: mods_named(a).alt || mods_named(b).alt,
            ctrl: mods_named(a).ctrl || mods_named(b).ctrl,
        }),
        mods_named(Seq::<Seq<char>>::empty()) == (Mods { shift: false, alt: false, ctrl: false }),
    decreases b.len(),
{
    if b.len() == 0 {
        assert(a + b =~= a);
    } else {
        let init = b.drop_last();
        modifiers_add_up(a, init);
        assert(a + b =~= (a + init).push(b.last()));
        assert(b =~= init.push(b.last()));
        lemma_mods_push(a + init, b.last());
        lemma_mods_push(init, b.last());
    }
}

/// What the kitty protocol encodes, and how: with the protocol on, a character, Enter, Tab,
/// Escape, Backspace and Space are sent as `ESC [`, their code and `u` once the program has
/// asked for all keys (bit 3) or ctrl or alt is held, with the digit of the modifiers
/// behind a semicolon where any is held.
pub proof fn kitty_sends_the_code_of_the_key(key: Key, code: nat, m: Mods, flags: u8)
    requires
        match key {
            Key::Enter => code == 13,
            Key::Tab => code == 9,
            Key::Escape => code == 27,
            Key::Backspace => code == 127,
            Key::Space => code == 32,
            Key::Char(c) => code == text::unicode_lowercase_head(c) as nat,
            _ => false,
        },
        flags != 0,
        flags & 8 != 0 || m.ctrl || m.alt,
    ensures
        ({
            let digit = (0x31 + (if m.shift { 1int } else { 0 }) + (if m.alt { 2int } else { 0 })
                + (if m.ctrl { 4int } else { 0 })) as u8;
            kitty_bytes(Some(key), m, flags) == Some(
                if m.shift || m.alt || m.ctrl {
                    seq![0x1bu8, 0x5b] + text::dec_bytes(code) + seq![0x3bu8, digit, 0x75]
                } else {
                    seq![0x1bu8, 0x5b] + text::dec_bytes(code) + seq![0x75u8]
                },
            )
        }),
{
    lemma_one_digit(m);
    if m.some_held() {
        assert(kitty_escape(code, m) =~= seq![0x1bu8, 0x5b] + text::dec_bytes(code) + seq![
            0x3bu8,
            modifier_digit(m),
            0x75,
        ]);
    }
}

/// What a backslash and one more character stand for, whatever follows: the five usual
/// controls, the backslash itself, and for a character without a meaning both of them. A
/// backslash at the end stands for itself.
pub proof fn escapes_stand_for_their_bytes(c: char, rest: Seq<char>)
    requires
        c != 'x',
    ensures
        unescaped(seq!['\\', c] + rest) == (if c == 'n' {
            seq![10u8]
        } else if c == 'r' {
            seq![13u8]
        } else if c == 't' {
            seq![9u8]
        } else if c == '0' {
            seq![0u8]
        } else if c == 'e' || c == 'E' {
            seq![27u8]
        } else if c == '\\' {
            seq![92u8]
        } else {
            seq![92u8] + encode_utf8(seq![c])
        }) + unescaped(rest),
        unescaped(seq!['\\']) == seq![92u8],
{
    let s = seq!['\\', c] + rest;
    assert(s.skip(2) =~= rest);
}

/// The value of a hexadecimal digit does not depend on its case, and is its place among
/// the sixteen.
pub proof fn hex_digits_have_their_value(d: nat)
    requires
        d < 16,
    ensures
        hex_digit("0123456789abcdef"@[d as int]) == Some(d),
        hex_digit("0123456789ABCDEF"@[d as int]) == Some(d),
{
    reveal_strlit("0123456789abcdef");
    reveal_strlit("0123456789ABCDEF");
}

/// What `\x` takes: two hexadecimal digits are a byte, the first the higher half; two
/// characters that are not are skipped with it. Behind the last character one digit is
/// enough.
pub proof fn hex_escapes_take_two_characters(hi: char, lo: char, rest: Seq<char>)
    requires
        hi != '+',
    ensures
        hex_digit(hi) is Some && hex_digit(lo) is Some ==> unescaped(
            seq!['\\', 'x', hi, lo] + rest,
        ) == seq![(16 * hex_digit(hi)->0 + hex_digit(lo)->0) as u8] + unescaped(rest),
        hex_digit(hi) is None || hex_digit(lo) is None ==> unescaped(
            seq!['\\', 'x', hi, lo] + rest,
        ) == unescaped(rest),
        hex_digit(hi) is Some ==> unescaped(seq!['\\', 'x', hi]) == seq![
            hex_digit(hi)->0 as u8,
        ],
{
    let s = seq!['\\', 'x', hi, lo] + rest;
    assert(s.subrange(2, 4) =~= seq![hi, lo]);
    assert(s.skip(4) =~= rest);
    assert(Seq::<u8>::empty() + unescaped(rest) =~= unescaped(rest));
    let t = seq!['\\', 'x', hi];
    assert(t.subrange(2, 3) =~= seq![hi]);
    assert(t.skip(3) =~= Seq::<char>::empty());
    assert(unescaped(t.skip(3)) =~= Seq::<u8>::empty());
    assert(hex_digit(hi) is Some ==> unescaped(t) =~= seq![hex_digit(hi)->0 as u8]);
}

/// What else `\x` takes: a plus sign may stand in place of the first digit and adds nothing,
/// a single character behind it that is no digit, or none at all, stands for nothing, and
/// digits are those of the two rows of sixteen and no others.
pub proof fn hex_escapes_without_two_digits(c: char, rest: Seq<char>)
    ensures
        hex_digit(c) is Some ==> unescaped(seq!['\\', 'x', '+', c] + rest) == seq![
            hex_digit(c)->0 as u8,
        ] + unescaped(rest),
        hex_digit(c) is None ==> unescaped(seq!['\\', 'x', '+', c] + rest) == unescaped(rest),
        hex_digit(c) is None ==> unescaped(seq!['\\', 'x', c]).len() == 0,
        unescaped(seq!['\\', 'x']).len() == 0,
        hex_digit(c) is Some <==> ('0' <= c <= '9' || 'a' <= c <= 'f' || 'A' <= c <= 'F'),
{
    let s = seq!['\\', 'x', '+', c] + rest;
    assert(s.subrange(2, 4) =~= seq!['+', c]);
    assert(s.skip(4) =~= rest);
    assert(Seq::<u8>::empty() + unescaped(rest) =~= unescaped(rest));
    let none = Seq::<char>::empty();
    assert(unescaped(none) =~= Seq::<u8>::empty());
    let t = seq!['\\', 'x', c];
    assert(t.subrange(2, 3) =~= seq![c]);
    assert(t.skip(3) =~= none);
    let u = seq!['\\', 'x'];
    assert(u.subrange(2, 2) =~= none);
    assert(u.skip(2) =~= none);
}

} // verus!
