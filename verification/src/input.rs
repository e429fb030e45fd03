//! What the input tools send: key presses, typed text, pastes and mouse events,
//! and in which bursts.

use crate::error::SessionKind;
use crate::error::ToolError;
use crate::keys;
use crate::keys::Mods;
use crate::mouse;
use crate::text;
use vstd::prelude::*;
use vstd::utf8::*;

verus! {

// ---- Keys -------------------------------------------------------------------

/// A key combo such as `ctrl+shift+a`: the key's name is what stands behind the
/// last plus sign, the words before it are modifiers. Where nothing stands behind
/// it, or there is none, the whole text is the key's name.
pub open spec fn combo_parts(combo: Seq<char>) -> (Seq<char>, Mods) {
    let parts = text::split(combo, '+');
    if parts.len() <= 1 || parts.last().len() == 0 {
        (combo, Mods { shift: false, alt: false, ctrl: false })
    } else {
        (parts.last(), keys::mods_named(parts.drop_last()))
    }
}

/// Parse a key combo like "ctrl+shift+a" or "enter" into `(key, modifiers)`.
/// The last '+'-separated token is the key, and earlier tokens are modifiers.
pub fn parse_combo(combo: &str) -> (r: (String, Mods))
    ensures
        (r.0@, r.1) == combo_parts(combo@),
{
    let mut parts = text::split_at_char(combo, '+');
    let ghost views = text::views(parts@);
    let n: usize = parts.len();
    assert(views.last() == parts@[n - 1]@);
    let last = text::chars_of(parts[n - 1].as_str());
    // Empty last token means a literal '+' (e.g. "+" or "ctrl+"), so treat the
    // whole string as the key rather than producing an empty key name.
    if n <= 1 || last.len() == 0 {
        return (combo.to_string(), Mods::default());
    }
    match parts.pop() {
        Some(key) => {
            assert(text::views(parts@) =~= views.drop_last());
            let mods = Mods::from_list(parts.as_slice());
            (key, mods)
        },
        None => (combo.to_string(), Mods::default()),
    }
}

/// The bytes of a key press in a session: in the kitty encoding where the
/// program has asked for it and the key has one, else in the xterm encoding.
pub open spec fn session_key_bytes(kind: SessionKind, key: Seq<char>, m: Mods) -> Option<
    Seq<u8>,
> {
    match keys::key_named(key) {
        None => None,
        Some(k) => Some(
            match kind {
                SessionKind::Pty { kitty_flags, paste } => match keys::kitty_bytes(
                    Some(k),
                    m,
                    kitty_flags,
                ) {
                    Some(bytes) => bytes,
                    None => keys::key_bytes(k, m),
                },
                SessionKind::Piped => keys::key_bytes(k, m),
            },
        ),
    }
}

/// Whether a key press in a session is sent in the kitty encoding.
pub open spec fn uses_kitty(kind: SessionKind, key: Seq<char>, m: Mods) -> bool {
    match kind {
        SessionKind::Pty { kitty_flags, paste } => keys::kitty_bytes(
            keys::key_named(key),
            m,
            kitty_flags,
        ) is Some,
        SessionKind::Piped => false,
    }
}

/// The kitty encoding of a key press in a session, if it has one.
fn kitty_form(kind: SessionKind, key: &str, mods: Mods) -> (r: Option<Vec<u8>>)
    ensures
        r is Some <==> uses_kitty(kind, key@, mods),
        r is Some ==> session_key_bytes(kind, key@, mods) == Some(r->0@),
{
    match kind {
        SessionKind::Pty { kitty_flags, paste: _ } => keys::kitty_encode(key, mods, kitty_flags),
        SessionKind::Piped => None,
    }
}

/// Resolve a key + modifiers to bytes for a session, using kitty encoding when
/// the (pty) session has the protocol enabled, else the legacy encoding.
pub fn key_bytes_for(kind: SessionKind, key: &str, mods: Mods) -> (r: Option<Vec<u8>>)
    ensures
        r is Some <==> session_key_bytes(kind, key@, mods) is Some,
        r is Some ==> session_key_bytes(kind, key@, mods) == Some(r->0@),
{
    let legacy = match keys::key_to_bytes(key, mods) {
        Some(legacy) => legacy,
        None => {
            return None;
        },
    };
    match kitty_form(kind, key, mods) {
        Some(bytes) => Some(bytes),
        None => Some(legacy),
    }
}

/// How often something is repeated: at least once.
pub open spec fn used_count(count: Option<u32>) -> u32 {
    match count {
        Some(n) if n > 0 => n,
        _ => 1u32,
    }
}

fn count_or_one(count: Option<u32>) -> (n: u32)
    ensures
        n == used_count(count),
        n >= 1,
{
    match count {
        Some(n) => if n > 0 {
            n
        } else {
            1
        },
        None => 1,
    }
}

/// A key press that is written a number of times, and what the caller is told.
pub struct KeyPress {
    pub bytes: Vec<u8>,
    pub count: u32,
    pub reply: String,
}

/// What the caller of `send_key` is told.
pub open spec fn key_reply(key: Seq<char>, count: u32, kitty: bool) -> Seq<char> {
    "sent key '"@ + key + "' x"@ + text::dec(count as nat) + (if kitty {
        " (kitty)"@
    } else {
        ""@
    })
}

/// Press a named key with modifiers, a number of times. The key's name is looked
/// at before the session: an unknown key is refused even where there is no such
/// session.
pub fn send_key(
    name: &str,
    key: &str,
    modifiers: &[String],
    count: Option<u32>,
    session: Option<SessionKind>,
) -> (r: Result<KeyPress, ToolError>)
    ensures
        r is Ok <==> keys::key_named(key@) is Some && session is Some,
        r matches Ok(press) ==> {
            let mods = keys::mods_named(text::views(modifiers@));
            &&& session_key_bytes(session->0, key@, mods) == Some(press.bytes@)
            &&& press.count == used_count(count)
            &&& press.reply@ == key_reply(key@, press.count, uses_kitty(session->0, key@, mods))
        },
        r matches Err(e) ==> if keys::key_named(key@) is None {
            e matches ToolError::UnknownKey(k) && k@ == key@
        } else {
            e matches ToolError::NoSession(n) && n@ == name@
        },
{
    let mods = Mods::from_list(modifiers);
    // Validate the key name up front for a clean error, using the legacy
    // encoding as the fallback byte sequence.
    let legacy = match keys::key_to_bytes(key, mods) {
        Some(legacy) => legacy,
        None => {
            let unknown = key.to_string();
            return Err(ToolError::UnknownKey(unknown));
        },
    };
    let kind = match session {
        Some(kind) => kind,
        None => {
            let missing = name.to_string();
            return Err(ToolError::NoSession(missing));
        },
    };
    let count = count_or_one(count);
    let (bytes, kitty) = match kitty_form(kind, key, mods) {
        Some(bytes) => (bytes, true),
        None => (legacy, false),
    };
    let mut reply = String::new();
    reply.append("sent key '");
    reply.append(key);
    reply.append("' x");
    text::push_dec(&mut reply, count as u64);
    if kitty {
        reply.append(" (kitty)");
    } else {
        reply.append("");
    }
    assert(reply@ =~= key_reply(key@, count, kitty));
    Ok(KeyPress { bytes, count, reply })
}

/// A list of combos is sound up to `n` when each of the first `n` names a key.
pub open spec fn combos_known(combos: Seq<Seq<char>>, n: nat) -> bool {
    forall|i: int|
        0 <= i < n ==> keys::key_named(combo_parts(#[trigger] combos[i]).0) is Some
}

/// The key presses that a list of combos stands for. The first combo that names
/// no key has the whole list refused, so that a bad key aborts before anything is
/// sent.
pub fn parse_keys(combos: &[String]) -> (r: Result<Vec<(String, Mods)>, ToolError>)
    ensures
        r is Ok <==> combos_known(text::views(combos@), combos@.len()),
        r matches Ok(presses) ==> presses@.len() == combos@.len() && (forall|i: int|
            0 <= i < presses@.len() ==> ((#[trigger] presses@[i]).0@, presses@[i].1)
                == combo_parts(combos@[i]@)),
        r matches Err(e) ==> (exists|i: int|
            0 <= i < combos@.len() && combos_known(text::views(combos@), i as nat)
                && keys::key_named(combo_parts((#[trigger] combos@[i])@).0) is None && (
            e matches ToolError::UnknownKey(k) && k@ == combo_parts(combos@[i]@).0)),
{
    let ghost all = text::views(combos@);
    let mut presses: Vec<(String, Mods)> = Vec::new();
    let mut i: usize = 0;
    while i < combos.len()
        invariant
            i <= combos@.len(),
            all == text::views(combos@),
            presses@.len() == i,
            combos_known(all, i as nat),
            forall|j: int|
                0 <= j < presses@.len() ==> ((#[trigger] presses@[j]).0@, presses@[j].1)
                    == combo_parts(combos@[j]@),
        decreases combos.len() - i,
    {
        let (key, mods) = parse_combo(combos[i].as_str());
        assert(all[i as int] == combos@[i as int]@);
        match keys::find_key(key.as_str()) {
            Some(_) => {
                assert forall|j: int| 0 <= j < i + 1 implies keys::key_named(
                    combo_parts(#[trigger] all[j]).0,
                ) is Some by {
                    if j < i {
                        assert(keys::key_named(combo_parts(all[j]).0) is Some);
                    }
                }
                presses.push((key, mods));
            },
            None => {
                assert(keys::key_named(combo_parts(combos@[i as int]@).0) is None);
                assert(keys::key_named(combo_parts(all[i as int]).0) is None);
                return Err(ToolError::UnknownKey(key));
            },
        }
        i += 1;
    }
    Ok(presses)
}

/// What the first `n` presses write in a session, each its own.
pub open spec fn presses_bytes(kind: SessionKind, presses: Seq<(String, Mods)>, n: nat) -> Seq<
    Seq<u8>,
>
    decreases n,
{
    if n == 0 {
        Seq::empty()
    } else {
        let before = presses_bytes(kind, presses, (n - 1) as nat);
        match session_key_bytes(kind, presses[n - 1].0@, presses[n - 1].1) {
            Some(bytes) => before.push(bytes),
            None => before,
        }
    }
}

/// The bytes of a burst of key presses in a session, one entry for each.
pub fn burst(kind: SessionKind, presses: &[(String, Mods)]) -> (r: Vec<Vec<u8>>)
    ensures
        text::byte_views(r@) == presses_bytes(kind, presses@, presses@.len()),
{
    let mut out: Vec<Vec<u8>> = Vec::new();
    assert(text::byte_views(out@) =~= Seq::<Seq<u8>>::empty());
    let mut i: usize = 0;
    while i < presses.len()
        invariant
            i <= presses@.len(),
            text::byte_views(out@) == presses_bytes(kind, presses@, i as nat),
        decreases presses.len() - i,
    {
        let ghost before = out@;
        let press = &presses[i];
        if let Some(bytes) = key_bytes_for(kind, press.0.as_str(), press.1) {
            out.push(bytes);
            assert(text::byte_views(out@) =~= text::byte_views(before).push(bytes@));
        }
        i += 1;
    }
    out
}

/// What the caller of `send_keys` is told.
pub fn send_keys_reply(combos: &[String]) -> (r: String)
    ensures
        r@ == "sent "@ + text::dec(combos@.len()) + " key(s): "@ + text::joined(
            text::views(combos@),
            " "@,
            combos@.len(),
        ),
{
    let mut out = String::new();
    out.append("sent ");
    text::push_dec(&mut out, combos.len() as u64);
    out.append(" key(s): ");
    out.append(text::join(combos, " ").as_str());
    assert(out@ =~= "sent "@ + text::dec(combos@.len()) + " key(s): "@ + text::joined(
        text::views(combos@),
        " "@,
        combos@.len(),
    ));
    out
}

// ---- Pacing -----------------------------------------------------------------

/// A stretch of items that is written in one go, and the pause behind it.
#[derive(Clone, Copy, Debug, PartialEq, Eq, Structural)]
pub struct Batch {
    pub from: usize,
    pub to: usize,
    pub pause_ms: u64,
}

/// The batch of a round. Without a delay all items go in the first round, so that
/// nothing else can come between them; with one each item has a round of its own
/// and a pause behind it.
pub open spec fn batch_of(total: usize, delay_ms: u64, round: usize) -> Option<Batch> {
    if delay_ms == 0 {
        if round == 0 {
            Some(Batch { from: 0, to: total, pause_ms: 0 })
        } else {
            None
        }
    } else if round < total {
        Some(Batch { from: round, to: (round + 1) as usize, pause_ms: delay_ms })
    } else {
        None
    }
}

/// What is sent next of so many key presses or characters, or `None` when all
/// has been sent.
pub fn next_batch(total: usize, delay_ms: Option<u64>, round: usize) -> (r: Option<Batch>)
    ensures
        r == batch_of(total, delay_ms.unwrap_or(0), round),
{
    let delay = delay_ms.unwrap_or(0);
    if delay == 0 {
        if round == 0 {
            Some(Batch { from: 0, to: total, pause_ms: 0 })
        } else {
            None
        }
    } else if round < total {
        Some(Batch { from: round, to: round + 1, pause_ms: delay })
    } else {
        None
    }
}

/// How many cycles of a mouse action are written in one go, and the pause behind
/// them.
#[derive(Clone, Copy, Debug, PartialEq, Eq, Structural)]
pub struct Cycles {
    pub cycles: u32,
    pub pause_ms: u64,
}

/// The cycles of a round. Without a delay they all go in the first round, which
/// is what a program reads as a double-click; with one each has a round of its
/// own, with a pause between rounds.
pub open spec fn cycles_of(count: u32, delay_ms: u64, round: u32) -> Option<Cycles> {
    if delay_ms == 0 {
        if round == 0 {
            Some(Cycles { cycles: count, pause_ms: 0 })
        } else {
            None
        }
    } else if round < count {
        Some(
            Cycles {
                cycles: 1,
                pause_ms: if round + 1 < count {
                    delay_ms
                } else {
                    0
                },
            },
        )
    } else {
        None
    }
}

/// How many cycles are sent next, or `None` when all have been sent.
pub fn next_cycles(count: u32, delay_ms: Option<u64>, round: u32) -> (r: Option<Cycles>)
    ensures
        r == cycles_of(count, delay_ms.unwrap_or(0), round),
{
    let delay = delay_ms.unwrap_or(0);
    if delay == 0 {
        if round == 0 {
            Some(Cycles { cycles: count, pause_ms: 0 })
        } else {
            None
        }
    } else if round < count {
        Some(
            Cycles {
                cycles: 1,
                pause_ms: if round < count - 1 {
                    delay
                } else {
                    0
                },
            },
        )
    } else {
        None
    }
}

// ---- Text -------------------------------------------------------------------

/// The number of characters of a text.
pub fn char_count(s: &str) -> (n: usize)
    ensures
        n == s@.len(),
{
    text::chars_of(s).len()
}

/// The bytes of the characters from one index up to another.
pub fn typed_bytes(s: &str, from: usize, to: usize) -> (r: Vec<u8>)
    requires
        from <= to <= s@.len(),
    ensures
        r@ == encode_utf8(s@.subrange(from as int, to as int)),
{
    let v = text::chars_of(s);
    let part = text::string_of(&v, from, to);
    text::bytes_of(part.as_str())
}

/// What a paste writes: the text, between the paste markers where the program
/// has enabled bracketed paste.
pub open spec fn paste_bytes(s: Seq<char>, kind: SessionKind) -> Seq<u8> {
    if is_bracketed(kind) {
        encode_utf8("\x1b[200~"@ + s + "\x1b[201~"@)
    } else {
        encode_utf8(s)
    }
}

/// Whether a program has enabled bracketed paste.
pub open spec fn is_bracketed(kind: SessionKind) -> bool {
    match kind {
        SessionKind::Pty { kitty_flags, paste } => paste,
        SessionKind::Piped => false,
    }
}

/// What a paste writes, and what the caller is told.
pub fn paste(s: &str, kind: SessionKind) -> (r: (Vec<u8>, &'static str))
    ensures
        r.0@ == paste_bytes(s@, kind),
        r.1@ == (if is_bracketed(kind) {
            "pasted (bracketed)"@
        } else {
            "pasted (raw, program has not enabled bracketed paste)"@
        }),
{
    let bracketed = match kind {
        SessionKind::Pty { kitty_flags: _, paste } => paste,
        SessionKind::Piped => false,
    };
    if bracketed {
        let framed = text::framed("\x1b[200~", s, "\x1b[201~");
        (text::bytes_of(framed.as_str()), "pasted (bracketed)")
    } else {
        (text::bytes_of(s), "pasted (raw, program has not enabled bracketed paste)")
    }
}

/// What `send_bytes` writes, and what the caller is told.
pub fn send_bytes(data: &str) -> (r: (Vec<u8>, String))
    ensures
        r.0@ == keys::unescaped(data@),
        r.1@ == "sent "@ + text::dec(r.0@.len()) + " bytes"@,
{
    let bytes = keys::unescape(data);
    let mut number = String::new();
    text::push_dec(&mut number, bytes.len() as u64);
    assert(number@ =~= text::dec(bytes@.len()));
    let reply = text::framed("sent ", number.as_str(), " bytes");
    (bytes, reply)
}

// ---- Mouse ------------------------------------------------------------------

/// A mouse action that is written a number of times, and what the caller is told.
pub struct MousePlan {
    /// The reports of one cycle.
    pub reports: Vec<Vec<u8>>,
    pub count: u32,
    pub reply: String,
}

/// The name of the action: a left click where none is given.
pub open spec fn used_action(action: Option<&str>) -> Seq<char> {
    match action {
        Some(name) => name@,
        None => "left"@,
    }
}

/// What the caller of `send_mouse` is told.
pub open spec fn mouse_reply(action: Seq<char>, count: u32, x: u16, y: u16) -> Seq<char> {
    "mouse '"@ + action + "' x"@ + text::dec(count as nat) + " at ("@ + text::dec(x as nat) + ","@
        + text::dec(y as nat) + ")"@
}

/// Simulate a mouse event at 1-based (x, y), a number of times.
pub fn send_mouse(
    x: u16,
    y: u16,
    action: Option<&str>,
    modifiers: &[String],
    count: Option<u32>,
) -> (r: Result<MousePlan, ToolError>)
    ensures
        r is Ok <==> mouse::action_named(used_action(action)) is Some,
        r matches Ok(plan) ==> {
            &&& text::byte_views(plan.reports@) == mouse::action_reports(
                mouse::action_named(used_action(action))->0,
                x as nat,
                y as nat,
                keys::mods_named(text::views(modifiers@)),
            )
            &&& plan.count == used_count(count)
            &&& plan.reply@ == mouse_reply(used_action(action), plan.count, x, y)
        },
        r matches Err(e) ==> (e matches ToolError::UnknownMouseAction(a) && a@ == used_action(
            action,
        )),
{
    let name = match action {
        Some(name) => name,
        None => "left",
    };
    let parsed = match mouse::parse_action(name) {
        Some(parsed) => parsed,
        None => {
            let unknown = name.to_string();
            return Err(ToolError::UnknownMouseAction(unknown));
        },
    };
    let mods = Mods::from_list(modifiers);
    let count = count_or_one(count);
    let reports = mouse::action_to_bytes(parsed, x, y, mods);
    let mut reply = String::new();
    reply.append("mouse '");
    reply.append(name);
    reply.append("' x");
    text::push_dec(&mut reply, count as u64);
    reply.append(" at (");
    text::push_dec(&mut reply, x as u64);
    reply.append(",");
    text::push_dec(&mut reply, y as u64);
    reply.append(")");
    assert(reply@ =~= mouse_reply(used_action(action), count, x, y));
    Ok(MousePlan { reports, count, reply })
}

// ---- Laws -------------------------------------------------------------------

/// What the batches of the rounds before `round` cover.
pub open spec fn batches_cover(total: usize, delay_ms: u64, round: nat) -> nat
    decreases round,
{
    if round == 0 {
        0
    } else {
        match batch_of(total, delay_ms, (round - 1) as usize) {
            Some(b) => b.to as nat,
            None => batches_cover(total, delay_ms, (round - 1) as nat),
        }
    }
}

/// Batches follow each other without a gap and without overlap, and when there is
/// no next one everything has been sent.
pub proof fn batches_send_everything_once(total: usize, delay_ms: u64, round: usize)
    ensures
        batch_of(total, delay_ms, round) matches Some(b) ==> b.from == batches_cover(
            total,
            delay_ms,
            round as nat,
        ) && b.from <= b.to <= total,
        batch_of(total, delay_ms, round) is None ==> batches_cover(total, delay_ms, round as nat)
            == total,
    decreases round,
{
    if round > 0 {
        batches_send_everything_once(total, delay_ms, (round - 1) as usize);
    }
}

/// The cycles sent in the rounds before `round`.
pub open spec fn cycles_sent(count: u32, delay_ms: u64, round: nat) -> nat
    decreases round,
{
    if round == 0 {
        0
    } else {
        cycles_sent(count, delay_ms, (round - 1) as nat) + match cycles_of(
            count,
            delay_ms,
            (round - 1) as u32,
        ) {
            Some(c) => c.cycles as nat,
            None => 0,
        }
    }
}

/// When there is no next round of a mouse action, it has been sent as often as
/// asked for, whatever the delay.
pub proof fn clicks_are_sent_as_often_as_asked(count: u32, delay_ms: u64, round: u32)
    ensures
        cycles_of(count, delay_ms, round) is None ==> cycles_sent(count, delay_ms, round as nat)
            == count,
        delay_ms > 0 && round <= count ==> cycles_sent(count, delay_ms, round as nat) == round,
    decreases round,
{
    if round > 0 {
        clicks_are_sent_as_often_as_asked(count, delay_ms, (round - 1) as u32);
        if delay_ms == 0 {
            lemma_burst_is_all(count, round as nat);
        }
    }
}

proof fn lemma_burst_is_all(count: u32, round: nat)
    requires
        0 < round <= u32::MAX,
    ensures
        cycles_sent(count, 0, round) == count,
    decreases round,
{
    if round > 1 {
        lemma_burst_is_all(count, (round - 1) as nat);
    } else {
        assert(cycles_sent(count, 0, 0) == 0);
    }
}

/// A known key is sent in every session, and in a piped one always in the xterm
/// encoding.
pub proof fn known_keys_are_sent_everywhere(kind: SessionKind, key: Seq<char>, m: Mods)
    ensures
        session_key_bytes(kind, key, m) is Some <==> keys::key_named(key) is Some,
        kind is Piped ==> !uses_kitty(kind, key, m),
        keys::key_named(key) is Some && !uses_kitty(kind, key, m) ==> session_key_bytes(
            kind,
            key,
            m,
        ) == Some(keys::key_bytes(keys::key_named(key)->0, m)),
{
}

/// Once a list of combos has been accepted, every press of it is sent: what goes
/// out in a session is one byte string for each.
pub proof fn accepted_presses_are_all_sent(
    kind: SessionKind,
    presses: Seq<(String, Mods)>,
    n: nat,
)
    requires
        n <= presses.len(),
        forall|i: int|
            0 <= i < n ==> keys::key_named((#[trigger] presses[i]).0@) is Some,
    ensures
        presses_bytes(kind, presses, n).len() == n,
        forall|i: int|
            0 <= i < n ==> session_key_bytes(kind, presses[i].0@, presses[i].1) == Some(
                #[trigger] presses_bytes(kind, presses, n)[i],
            ),
    decreases n,
{
    if n > 0 {
        accepted_presses_are_all_sent(kind, presses, (n - 1) as nat);
        let before = presses_bytes(kind, presses, (n - 1) as nat);
        let now = presses_bytes(kind, presses, n);
        assert(keys::key_named(presses[n - 1].0@) is Some);
        assert forall|i: int| 0 <= i < n implies session_key_bytes(
            kind,
            presses[i].0@,
            presses[i].1,
        ) == Some(#[trigger] now[i]) by {
            if i < n - 1 {
                assert(now[i] == before[i]);
            }
        }
    }
}

/// Pacing changes when key presses are written, not what: two batches in a row
/// write what one batch of both writes.
pub proof fn pacing_does_not_change_the_presses(
    kind: SessionKind,
    first: Seq<(String, Mods)>,
    second: Seq<(String, Mods)>,
    n: nat,
)
    requires
        n <= second.len(),
    ensures
        presses_bytes(kind, first + second, first.len() + n) == presses_bytes(
            kind,
            first,
            first.len(),
        ) + presses_bytes(kind, second, n),
    decreases n,
{
    let all = first + second;
    if n == 0 {
        lemma_presses_prefix(kind, first, second, first.len());
        assert(presses_bytes(kind, first, first.len()) + Seq::<Seq<u8>>::empty()
            =~= presses_bytes(kind, first, first.len()));
    } else {
        pacing_does_not_change_the_presses(kind, first, second, (n - 1) as nat);
        assert(all[first.len() + n - 1] == second[n - 1]);
        assert(presses_bytes(kind, all, first.len() + n) =~= presses_bytes(
            kind,
            first,
            first.len(),
        ) + presses_bytes(kind, second, n));
    }
}

proof fn lemma_presses_prefix(
    kind: SessionKind,
    first: Seq<(String, Mods)>,
    second: Seq<(String, Mods)>,
    n: nat,
)
    requires
        n <= first.len(),
    ensures
        presses_bytes(kind, first + second, n) == presses_bytes(kind, first, n),
    decreases n,
{
    if n > 0 {
        lemma_presses_prefix(kind, first, second, (n - 1) as nat);
        assert((first + second)[n - 1] == first[n - 1]);
    }
}

/// Pacing changes when text is typed, not what: the bytes of two stretches in a
/// row are those of both.
pub proof fn pacing_does_not_change_the_text(s: Seq<char>, from: int, mid: int, to: int)
    requires
        0 <= from <= mid <= to <= s.len(),
    ensures
        encode_utf8(s.subrange(from, mid)) + encode_utf8(s.subrange(mid, to)) == encode_utf8(
            s.subrange(from, to),
        ),
{
    text::encode_utf8_concat(s.subrange(from, mid), s.subrange(mid, to));
    assert(s.subrange(from, mid) + s.subrange(mid, to) =~= s.subrange(from, to));
}

/// Modifiers and a key joined by plus signs are taken apart again: the words
/// before the key name the modifiers, in any number and order.
pub proof fn joined_combos_are_taken_apart(words: Seq<Seq<char>>, key: Seq<char>)
    requires
        words.len() > 0,
        forall|i: int| 0 <= i < words.len() ==> !(#[trigger] words[i]).contains('+'),
        key.len() > 0,
        !key.contains('+'),
    ensures
        combo_parts(text::joined(words.push(key), seq!['+'], words.len() + 1)) == (
            key,
            keys::mods_named(words),
        ),
{
    let all = words.push(key);
    let n = words.len() + 1;
    assert forall|i: int| 0 <= i < all.len() implies !(#[trigger] all[i]).contains('+') by {
        if i < words.len() {
            assert(all[i] == words[i]);
        }
    }
    lemma_split_joined(all, n);
    assert(all.take(n as int) =~= all);
    assert(all.drop_last() =~= words);
}

/// Splitting what was joined gives the parts back, where none holds the separator.
proof fn lemma_split_joined(parts: Seq<Seq<char>>, n: nat)
    requires
        0 < n <= parts.len(),
        forall|i: int| 0 <= i < parts.len() ==> !(#[trigger] parts[i]).contains('+'),
    ensures
        text::split(text::joined(parts, seq!['+'], n), '+') == parts.take(n as int),
    decreases n,
{
    assert(!parts[n - 1].contains('+'));
    if n == 1 {
        lemma_split_tail(Seq::empty(), parts[0]);
        assert(Seq::<char>::empty() + parts[0] =~= parts[0]);
        assert(text::split(Seq::<char>::empty(), '+') == seq![Seq::<char>::empty()]);
        assert(text::split(parts[0], '+') =~= parts.take(1));
    } else {
        lemma_split_joined(parts, (n - 1) as nat);
        let before = text::joined(parts, seq!['+'], (n - 1) as nat);
        let open = before.push('+');
        assert(before + seq!['+'] =~= open);
        assert(open.drop_last() =~= before);
        lemma_split_tail(open, parts[n - 1]);
        assert(text::split(open, '+') == parts.take(n - 1).push(Seq::empty()));
        assert(Seq::<char>::empty() + parts[n - 1] =~= parts[n - 1]);
        assert(parts.take(n - 1).push(Seq::<char>::empty()).drop_last() =~= parts.take(n - 1));
        assert(parts.take(n as int) =~= parts.take(n - 1).push(parts[n - 1]));
    }
}

/// Text without the separator lengthens the last part.
proof fn lemma_split_tail(s: Seq<char>, tail: Seq<char>)
    requires
        !tail.contains('+'),
    ensures
        text::split(s, '+').len() > 0,
        text::split(s + tail, '+') == text::split(s, '+').drop_last().push(
            text::split(s, '+').last() + tail,
        ),
    decreases tail.len(), s.len(),
{
    lemma_split_not_empty(s);
    let base = text::split(s, '+');
    if tail.len() == 0 {
        assert(s + tail =~= s);
        assert(base.last() + tail =~= base.last());
        assert(base.drop_last().push(base.last()) =~= base);
    } else {
        let init = tail.drop_last();
        let c = tail.last();
        assert(tail.contains(c));
        assert(!init.contains('+')) by {
            if init.contains('+') {
                let i = choose|i: int| 0 <= i < init.len() && init[i] == '+';
                assert(tail[i] == '+');
            }
        }
        lemma_split_tail(s, init);
        assert((s + tail).drop_last() =~= s + init);
        assert((s + tail).last() == c);
        let mid = text::split(s + init, '+');
        assert(mid.last() == base.last() + init);
        assert(mid.drop_last() =~= base.drop_last());
        assert((base.last() + init).push(c) =~= base.last() + tail);
    }
}

proof fn lemma_split_not_empty(s: Seq<char>)
    ensures
        text::split(s, '+').len() > 0,
    decreases s.len(),
{
    if s.len() > 0 {
        lemma_split_not_empty(s.drop_last());
    }
}

/// A paste that the program understands is the text between the paste markers;
/// every other one is the text alone.
pub proof fn pastes_are_framed_only_when_asked(s: Seq<char>, kind: SessionKind)
    ensures
        is_bracketed(kind) ==> paste_bytes(s, kind) == encode_utf8("\x1b[200~"@) + encode_utf8(s)
            + encode_utf8("\x1b[201~"@),
        !is_bracketed(kind) ==> paste_bytes(s, kind) == encode_utf8(s),
{
    text::encode_utf8_concat("\x1b[200~"@, s);
    text::encode_utf8_concat("\x1b[200~"@ + s, "\x1b[201~"@);
}

/// A combo without a plus sign, or one that ends in a plus sign, is the name of a key, with
/// no modifier.
pub proof fn combos_without_a_key_are_keys(combo: Seq<char>)
    requires
        !combo.contains('+') || combo.last() == '+',
    ensures
        combo_parts(combo) == (combo, Mods { shift: false, alt: false, ctrl: false }),
{
    if !combo.contains('+') {
        lemma_split_tail(Seq::empty(), combo);
        assert(Seq::<char>::empty() + combo =~= combo);
        assert(text::split(Seq::<char>::empty(), '+') == seq![Seq::<char>::empty()]);
        assert(text::split(combo, '+').len() == 1);
    } else {
        assert(text::split(combo, '+').last().len() == 0);
    }
}

/// Something is done as often as asked for, and once where nothing is asked for, or no times.
pub proof fn counts_are_at_least_one(n: u32)
    ensures
        used_count(None) == 1,
        used_count(Some(0)) == 1,
        n > 0 ==> used_count(Some(n)) == n,
{
}

/// Without a delay all is sent at once, with no pause, and nothing after that. With one
/// each round sends the one item whose turn it is and then pauses as long as asked for,
/// until no item is left.
pub proof fn batches_are_paced_as_asked(total: usize, delay_ms: u64, round: usize)
    ensures
        batch_of(total, 0, 0) == Some(Batch { from: 0, to: total, pause_ms: 0 }),
        round > 0 ==> batch_of(total, 0, round) is None,
        delay_ms > 0 && round < total ==> (batch_of(total, delay_ms, round) matches Some(b)
            && b.from == round && b.to == round + 1 && b.pause_ms == delay_ms),
        delay_ms > 0 && round >= total ==> batch_of(total, delay_ms, round) is None,
{
}

/// Without a delay all cycles are sent at once, and nothing after that. With one each round
/// sends one, as many rounds as cycles were asked for, and there is a pause between rounds
/// but none behind the last.
pub proof fn cycles_are_paced_as_asked(count: u32, delay_ms: u64, round: u32)
    ensures
        cycles_of(count, 0, 0) == Some(Cycles { cycles: count, pause_ms: 0 }),
        round > 0 ==> cycles_of(count, 0, round) is None,
        delay_ms > 0 && round + 1 < count ==> cycles_of(count, delay_ms, round) == Some(
            Cycles { cycles: 1, pause_ms: delay_ms },
        ),
        delay_ms > 0 && round + 1 == count ==> cycles_of(count, delay_ms, round) == Some(
            Cycles { cycles: 1, pause_ms: 0 },
        ),
        delay_ms > 0 && round >= count ==> cycles_of(count, delay_ms, round) is None,
{
}

/// A program under a pseudo terminal gets a key in the kitty encoding wherever its flags give
/// the key one, and else, as every program with pipes, in the xterm encoding. Whether it has
/// enabled bracketed paste does not matter to keys.
pub proof fn the_kitty_encoding_is_preferred(
    key: Seq<char>,
    k: keys::Key,
    m: Mods,
    flags: u8,
    paste: bool,
)
    requires
        keys::key_named(key) == Some(k),
    ensures
        ({
            let kitty = keys::kitty_bytes(Some(k), m, flags);
            let kind = SessionKind::Pty { kitty_flags: flags, paste };
            &&& uses_kitty(kind, key, m) <==> kitty is Some
            &&& kitty is Some ==> session_key_bytes(kind, key, m) == kitty
            &&& kitty is None ==> session_key_bytes(kind, key, m) == Some(keys::key_bytes(k, m))
            &&& session_key_bytes(SessionKind::Piped, key, m) == Some(keys::key_bytes(k, m))
            &&& !uses_kitty(SessionKind::Piped, key, m)
        }),
{
}

/// A paste is framed by `ESC [ 200 ~` and `ESC [ 201 ~` exactly where a program under a
/// pseudo terminal has enabled that, whatever its keyboard flags.
pub proof fn pastes_have_their_markers(s: Seq<char>, flags: u8)
    ensures
        paste_bytes(s, SessionKind::Pty { kitty_flags: flags, paste: true }) == seq![
            0x1bu8,
            0x5b,
            0x32,
            0x30,
            0x30,
            0x7e,
        ] + encode_utf8(s) + seq![0x1bu8, 0x5b, 0x32, 0x30, 0x31, 0x7e],
        paste_bytes(s, SessionKind::Pty { kitty_flags: flags, paste: false }) == encode_utf8(s),
        paste_bytes(s, SessionKind::Piped) == encode_utf8(s),
        is_bracketed(SessionKind::Pty { kitty_flags: flags, paste: true }),
        !is_bracketed(SessionKind::Pty { kitty_flags: flags, paste: false }),
        !is_bracketed(SessionKind::Piped),
{
    pastes_are_framed_only_when_asked(s, SessionKind::Pty { kitty_flags: flags, paste: true });
    reveal_strlit("\x1b[200~");
    reveal_strlit("\x1b[201~");
    is_ascii_chars_encode_utf8("\x1b[200~"@);
    is_ascii_chars_encode_utf8("\x1b[201~"@);
    assert(encode_utf8("\x1b[200~"@) =~= seq![0x1bu8, 0x5b, 0x32, 0x30, 0x30, 0x7e]);
    assert(encode_utf8("\x1b[201~"@) =~= seq![0x1bu8, 0x5b, 0x32, 0x30, 0x31, 0x7e]);
}

/// What a caller is told names the key or the action, how often it was sent and, of a mouse
/// event, the column and the row. An action that is not given is a left click.
pub proof fn replies_tell_what_was_sent(s: Seq<char>, name: &str, count: u32, x: u16, y: u16)
    ensures
        key_reply(s, count, true) == "sent key '"@ + s + "' x"@ + text::dec(count as nat)
            + " (kitty)"@,
        key_reply(s, count, false) == "sent key '"@ + s + "' x"@ + text::dec(count as nat),
        mouse_reply(s, count, x, y) == "mouse '"@ + s + "' x"@ + text::dec(count as nat) + " at ("@
            + text::dec(x as nat) + ","@ + text::dec(y as nat) + ")"@,
        used_action(Some(name)) == name@,
        used_action(None) == seq!['l', 'e', 'f', 't'],
{
    reveal_strlit("");
    reveal_strlit("left");
    assert("left"@ =~= seq!['l', 'e', 'f', 't']);
    assert(key_reply(s, count, false) =~= "sent key '"@ + s + "' x"@ + text::dec(count as nat));
}

} // verus!
