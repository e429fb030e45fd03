//! Detection of terminal input-mode negotiation on a program's output stream:
//! the kitty keyboard protocol, bracketed paste mode and requests for a cursor
//! position report.
//!
//! For the kitty protocol a TUI pushes progressive-enhancement flags with
//! `CSI > flags u`, sets them with `CSI = flags ; mode u`, pops with
//! `CSI < number u`, and queries the current flags with `CSI ? u`. We watch the
//! program's output for these, keep the current flag value, and answer the query
//! so the program learns the protocol is supported. The input side
//! (`keys::kitty_encode`) then encodes key presses accordingly.
//!
//! Bracketed paste is enabled with `CSI ? 2004 h` and disabled with
//! `CSI ? 2004 l`; we track it so pasted text can be wrapped in the paste
//! markers only when the program actually understands them.
//!
//! A cursor position report is requested with `CSI 6 n`. The detector only
//! notes the request: who owns the screen answers it.

use crate::text;
use vstd::prelude::*;

verus! {

/// Current kitty keyboard flags. `0` means disabled (legacy encoding).
pub type KittyFlags = u8;

/// Bracketed-paste-mode state (`true` = the program enabled it).
pub type PasteFlag = bool;

/// Where the scanner stands in the output stream.
#[verifier::ext_equal]
pub enum Scan {
    /// Outside any sequence.
    Ground,
    /// Behind an ESC.
    Escape,
    /// Behind `ESC [` and the given bytes.
    Csi(Seq<u8>),
}

/// What a detector knows after some output.
#[verifier::ext_equal]
pub struct InputModes {
    pub flags: u8,
    pub paste: bool,
    pub cursor_request: bool,
    pub scan: Scan,
}

/// The longest run of bytes behind `ESC [` that is still taken for a sequence.
pub const MAX_CSI: usize = 32;

/// Whether a byte ends a control sequence.
pub open spec fn ends_csi(b: u8) -> bool {
    0x40 <= b <= 0x7e
}

/// The value of a row of decimal digits.
pub open spec fn digits_value(d: Seq<u8>) -> nat
    decreases d.len(),
{
    if d.len() == 0 {
        0
    } else {
        (10 * digits_value(d.drop_last()) + (d.last() - 0x30)) as nat
    }
}

/// Whether every byte is a decimal digit.
pub open spec fn all_digits(d: Seq<u8>) -> bool {
    forall|i: int| 0 <= i < d.len() ==> 0x30 <= #[trigger] d[i] <= 0x39
}

/// The number up to 255 that a parameter writes: digits, with a plus sign
/// before them or without.
pub open spec fn number(b: Seq<u8>) -> Option<u8> {
    let d = if b.len() > 0 && b[0] == 0x2b {
        b.skip(1)
    } else {
        b
    };
    if d.len() > 0 && all_digits(d) && digits_value(d) <= 255 {
        Some(digits_value(d) as u8)
    } else {
        None
    }
}

/// The mode number of bracketed paste, 2004, as it is written.
pub open spec fn paste_mode() -> Seq<u8> {
    seq![0x32u8, 0x30, 0x30, 0x34]
}

/// The answer to a flags query: `CSI ? flags u`.
pub open spec fn flags_report(flags: u8) -> Seq<u8> {
    seq![0x1bu8, 0x5b, 0x3f] + text::dec_bytes(flags as nat) + seq![0x75u8]
}

/// What a complete control sequence changes, and what is answered to it. The
/// body is what stands between `ESC [` and the final byte.
pub open spec fn csi_effect(m: InputModes, body: Seq<u8>, end: u8) -> (InputModes, Seq<u8>) {
    let lead = if body.len() > 0 {
        body[0]
    } else {
        0u8
    };
    if end == 0x68 || end == 0x6c {
        if lead == 0x3f && text::split(body.skip(1), 0x3bu8).contains(paste_mode()) {
            (InputModes { paste: end == 0x68, ..m }, Seq::empty())
        } else {
            (m, Seq::empty())
        }
    } else if end == 0x6e {
        if body == seq![0x36u8] {
            (InputModes { cursor_request: true, ..m }, Seq::empty())
        } else {
            (m, Seq::empty())
        }
    } else if end == 0x75 {
        if lead == 0x3e {
            let n = match number(body.skip(1)) {
                Some(n) => n,
                None => 1u8,
            };
            (InputModes { flags: n, ..m }, Seq::empty())
        } else if lead == 0x3d {
            let n = match number(text::split(body.skip(1), 0x3bu8)[0]) {
                Some(n) => n,
                None => 0u8,
            };
            (InputModes { flags: n, ..m }, Seq::empty())
        } else if lead == 0x3c {
            (InputModes { flags: 0, ..m }, Seq::empty())
        } else if lead == 0x3f {
            (m, flags_report(m.flags))
        } else {
            (m, Seq::empty())
        }
    } else {
        (m, Seq::empty())
    }
}

/// What one byte of output changes, and what is answered to it.
pub open spec fn step(m: InputModes, b: u8) -> (InputModes, Seq<u8>) {
    match m.scan {
        Scan::Ground => {
            if b == 0x1b {
                (InputModes { scan: Scan::Escape, ..m }, Seq::empty())
            } else {
                (m, Seq::empty())
            }
        },
        Scan::Escape => {
            if b == 0x5b {
                (InputModes { scan: Scan::Csi(Seq::empty()), ..m }, Seq::empty())
            } else {
                (InputModes { scan: Scan::Ground, ..m }, Seq::empty())
            }
        },
        Scan::Csi(body) => {
            if ends_csi(b) {
                let (next, answer) = csi_effect(m, body, b);
                (InputModes { scan: Scan::Ground, ..next }, answer)
            } else if body.len() + 1 > MAX_CSI {
                (InputModes { scan: Scan::Ground, ..m }, Seq::empty())
            } else {
                (InputModes { scan: Scan::Csi(body.push(b)), ..m }, Seq::empty())
            }
        },
    }
}

/// What a stretch of output changes, and all that is answered to it.
pub open spec fn run(m: InputModes, data: Seq<u8>) -> (InputModes, Seq<u8>)
    decreases data.len(),
{
    if data.len() == 0 {
        (m, Seq::empty())
    } else {
        let (mid, answers) = run(m, data.drop_last());
        let (next, answer) = step(mid, data.last());
        (next, answers + answer)
    }
}

/// Streaming scanner for terminal input-mode control sequences.
pub struct KittyDetector {
    flags: KittyFlags,
    paste: PasteFlag,
    cursor_request: bool,
    buf: Vec<u8>,
    in_csi: bool,
    saw_esc: bool,
}

impl View for KittyDetector {
    type V = InputModes;

    closed spec fn view(&self) -> InputModes {
        InputModes {
            flags: self.flags,
            paste: self.paste,
            cursor_request: self.cursor_request,
            scan: if self.in_csi {
                Scan::Csi(self.buf@)
            } else if self.saw_esc {
                Scan::Escape
            } else {
                Scan::Ground
            },
        }
    }
}

impl KittyDetector {
    /// The scanner is in one place at a time, and holds no more than a sequence.
    pub closed spec fn wf(&self) -> bool {
        &&& !(self.in_csi && self.saw_esc)
        &&& self.buf@.len() <= MAX_CSI
    }

    pub fn new(flags: KittyFlags, paste: PasteFlag) -> (d: Self)
        ensures
            d.wf(),
            d@ == (InputModes { flags, paste, cursor_request: false, scan: Scan::Ground }),
    {
        KittyDetector {
            flags,
            paste,
            cursor_request: false,
            buf: Vec::new(),
            in_csi: false,
            saw_esc: false,
        }
    }

    /// The current kitty keyboard flags.
    pub fn flags(&self) -> (f: KittyFlags)
        ensures
            f == self@.flags,
    {
        self.flags
    }

    /// Whether the program has enabled bracketed paste.
    pub fn paste(&self) -> (p: PasteFlag)
        ensures
            p == self@.paste,
    {
        self.paste
    }

    /// Whether a cursor position report was requested since the last call.
    pub fn take_cursor_report_request(&mut self) -> (r: bool)
        requires
            old(self).wf(),
        ensures
            final(self).wf(),
            r == old(self)@.cursor_request,
            final(self)@ == (InputModes { cursor_request: false, ..old(self)@ }),
    {
        let r = self.cursor_request;
        self.cursor_request = false;
        r
    }

    /// Feed a chunk of program output. Returns bytes that must be written back
    /// to the program (a response to a flags query), or empty.
    pub fn feed(&mut self, data: &[u8]) -> (reply: Vec<u8>)
        requires
            old(self).wf(),
        ensures
            final(self).wf(),
            (final(self)@, reply@) == run(old(self)@, data@),
    {
        let mut reply: Vec<u8> = Vec::new();
        let ghost start = self@;
        assert(data@.take(0) =~= Seq::<u8>::empty());
        let mut i: usize = 0;
        while i < data.len()
            invariant
                i <= data@.len(),
                self.wf(),
                (self@, reply@) == run(start, data@.take(i as int)),
            decreases data.len() - i,
        {
            let b = data[i];
            let ghost before = self@;
            let ghost answered = reply@;
            assert(data@.take(i + 1).drop_last() =~= data@.take(i as int));
            assert(data@.take(i + 1).last() == b);
            if self.in_csi {
                if 0x40 <= b && b <= 0x7e {
                    self.handle_csi(b, &mut reply);
                    self.in_csi = false;
                    self.buf.clear();
                } else {
                    // Runaway / not a real CSI we care about, so abort.
                    if self.buf.len() + 1 > MAX_CSI {
                        self.in_csi = false;
                        self.buf.clear();
                    } else {
                        self.buf.push(b);
                    }
                }
            } else if self.saw_esc {
                self.saw_esc = false;
                if b == 0x5b {
                    self.in_csi = true;
                    self.buf.clear();
                }
            } else if b == 0x1b {
                self.saw_esc = true;
            }
            proof {
                let (next, answer) = step(before, b);
                assert(self@ =~= next);
                assert(reply@ =~= answered + answer);
            }
            i += 1;
        }
        assert(data@.take(data@.len() as int) =~= data@);
        reply
    }

    fn handle_csi(&mut self, final_b: u8, reply: &mut Vec<u8>)
        requires
            old(self).wf(),
            old(self).in_csi,
        ensures
            final(self).wf(),
            final(self)@ == csi_effect(old(self)@, old(self).buf@, final_b).0,
            final(self).in_csi,
            final(self).buf == old(self).buf,
            final(reply)@ == old(reply)@ + csi_effect(old(self)@, old(self).buf@, final_b).1,
    {
        let ghost answered = reply@;
        assert(answered + Seq::<u8>::empty() =~= answered);
        let lead: u8 = if self.buf.len() > 0 {
            self.buf[0]
        } else {
            0
        };
        // Bracketed paste: CSI ? 2004 h (enable) / CSI ? 2004 l (disable).
        if final_b == 0x68 || final_b == 0x6c {
            if lead == 0x3f {
                let rest = vstd::slice::slice_subrange(self.buf.as_slice(), 1, self.buf.len());
                assert(rest@ =~= self.buf@.skip(1));
                if names_paste(rest) {
                    self.paste = final_b == 0x68;
                }
            }
            return ;
        }
        // Cursor position report request: CSI 6 n.
        if final_b == 0x6e {
            if self.buf.len() == 1 && lead == 0x36 {
                assert(self.buf@ =~= seq![0x36u8]);
                self.cursor_request = true;
            }
            return ;
        }
        // Everything else we care about is the kitty 'u' terminator.
        if final_b != 0x75 {
            return ;
        }
        if lead == 0x3e {
            // Push flags: CSI > flags u  (flags default to 1 if omitted).
            let rest = vstd::slice::slice_subrange(self.buf.as_slice(), 1, self.buf.len());
            assert(rest@ =~= self.buf@.skip(1));
            self.flags = match parse_num(rest) {
                Some(n) => n,
                None => 1,
            };
        } else if lead == 0x3d {
            // Set flags: CSI = flags ; mode u.
            let rest = vstd::slice::slice_subrange(self.buf.as_slice(), 1, self.buf.len());
            assert(rest@ =~= self.buf@.skip(1));
            let parts = text::split_bytes(rest, 0x3b);
            assert(text::byte_views(parts@)[0] == parts@[0]@);
            self.flags = match parse_num(parts[0].as_slice()) {
                Some(n) => n,
                None => 0,
            };
        } else if lead == 0x3c {
            // Pop: CSI < number u, simplified to fully disable.
            self.flags = 0;
        } else if lead == 0x3f {
            // Query: CSI ? u, respond with the current flags.
            reply.push(0x1b);
            reply.push(0x5b);
            reply.push(0x3f);
            text::push_dec_bytes(reply, self.flags as u64);
            reply.push(0x75);
            assert(reply@ =~= answered + flags_report(self.flags));
        }
    }
}

/// Whether bracketed paste is among the modes of a list separated by semicolons.
fn names_paste(modes: &[u8]) -> (r: bool)
    ensures
        r == text::split(modes@, 0x3bu8).contains(paste_mode()),
{
    let parts = text::split_bytes(modes, 0x3b);
    let wanted: [u8; 4] = [0x32, 0x30, 0x30, 0x34];
    assert(wanted@ =~= paste_mode());
    let ghost all = text::byte_views(parts@);
    let mut i: usize = 0;
    while i < parts.len()
        invariant
            i <= parts@.len(),
            all == text::byte_views(parts@),
            all == text::split(modes@, 0x3bu8),
            wanted@ == paste_mode(),
            forall|j: int| 0 <= j < i ==> #[trigger] all[j] != paste_mode(),
        decreases parts.len() - i,
    {
        assert(all[i as int] == parts@[i as int]@);
        if text::bytes_eq(parts[i].as_slice(), &wanted) {
            assert(all[i as int] == paste_mode());
            return true;
        }
        i += 1;
    }
    false
}

fn parse_num(b: &[u8]) -> (r: Option<u8>)
    ensures
        r == number(b@),
{
    let start: usize = if b.len() > 0 && b[0] == 0x2b {
        1
    } else {
        0
    };
    if start == b.len() {
        return None;
    }
    let ghost d = b@.skip(start as int);
    assert(b@.skip(0) =~= b@);
    assert(number(b@) == (if all_digits(d) && digits_value(d) <= 255 {
        Some(digits_value(d) as u8)
    } else {
        None
    }));
    // Capped one above the largest value, so that the sum stays small.
    let mut value: u16 = 0;
    let mut i: usize = start;
    assert(d.take(0) =~= Seq::<u8>::empty());
    while i < b.len()
        invariant
            start <= i <= b@.len(),
            d == b@.skip(start as int),
            !all_digits(d) ==> number(b@) is None,
            all_digits(d.take(i - start)),
            value == (if digits_value(d.take(i - start)) < 256 {
                digits_value(d.take(i - start))
            } else {
                256
            }),
        decreases b.len() - i,
    {
        let c = b[i];
        assert(d[i - start] == c);
        if c < 0x30 || c > 0x39 {
            assert(!all_digits(d));
            return None;
        }
        let ghost upto = d.take(i - start + 1);
        assert(upto.drop_last() =~= d.take(i - start));
        assert(upto.last() == c);
        assert(all_digits(upto)) by {
            assert forall|j: int| 0 <= j < upto.len() implies 0x30 <= #[trigger] upto[j] <= 0x39 by {
                if j < i - start {
                    assert(d.take(i - start)[j] == upto[j]);
                }
            }
        }
        let sum: u16 = 10 * value + (c - 0x30) as u16;
        value = if sum > 256 {
            256
        } else {
            sum
        };
        i += 1;
    }
    assert(d.take(i - start) =~= d);
    if value <= 255 {
        Some(value as u8)
    } else {
        None
    }
}

// ---- Laws -------------------------------------------------------------------

/// How output is cut into chunks does not matter: a sequence split across two
/// chunks acts as if it had come in one.
pub proof fn chunks_do_not_matter(m: InputModes, a: Seq<u8>, b: Seq<u8>)
    ensures
        run(m, a + b).0 == run(run(m, a).0, b).0,
        run(m, a + b).1 == run(m, a).1 + run(run(m, a).0, b).1,
    decreases b.len(),
{
    if b.len() == 0 {
        assert(a + b =~= a);
        assert(run(m, a).1 + Seq::<u8>::empty() =~= run(m, a).1);
    } else {
        assert((a + b).drop_last() =~= a + b.drop_last());
        assert((a + b).last() == b.last());
        chunks_do_not_matter(m, a, b.drop_last());
        let mid = run(m, a).0;
        let (end, _) = run(mid, b.drop_last());
        assert(run(m, a + b).1 =~= run(m, a).1 + (run(mid, b.drop_last()).1 + step(
            end,
            b.last(),
        ).1));
    }
}

/// Output without an ESC changes nothing and is answered with nothing.
pub proof fn plain_output_changes_nothing(m: InputModes, data: Seq<u8>)
    requires
        m.scan is Ground,
        !data.contains(0x1bu8),
    ensures
        run(m, data) == (m, Seq::<u8>::empty()),
    decreases data.len(),
{
    if data.len() > 0 {
        let init = data.drop_last();
        assert(data.contains(data.last()));
        assert forall|b: u8| init.contains(b) implies data.contains(b) by {
            let i = choose|i: int| 0 <= i < init.len() && init[i] == b;
            assert(data[i] == b);
        }
        plain_output_changes_nothing(m, init);
        assert(Seq::<u8>::empty() + Seq::<u8>::empty() =~= Seq::<u8>::empty());
    }
}

/// What the scanner holds of an unfinished sequence is bounded, whatever comes.
pub proof fn scanner_stays_bounded(m: InputModes, data: Seq<u8>)
    requires
        m.scan is Csi ==> m.scan->0.len() <= MAX_CSI,
    ensures
        run(m, data).0.scan is Csi ==> run(m, data).0.scan->0.len() <= MAX_CSI,
    decreases data.len(),
{
    if data.len() > 0 {
        scanner_stays_bounded(m, data.drop_last());
    }
}

/// A control sequence with the given body and final byte.
pub open spec fn csi(body: Seq<u8>, end: u8) -> Seq<u8> {
    seq![0x1bu8, 0x5b] + body + seq![end]
}

/// Whether a body can stand in one sequence: no byte of it ends the sequence,
/// and it is not longer than the scanner follows.
pub open spec fn fits_csi(body: Seq<u8>) -> bool {
    &&& body.len() <= MAX_CSI
    &&& forall|i: int| 0 <= i < body.len() ==> !ends_csi(#[trigger] body[i])
}

/// A complete control sequence has its effect, whatever stands in it, and the
/// scanner is ready for the next one.
pub proof fn complete_sequences_take_effect(m: InputModes, body: Seq<u8>, end: u8)
    requires
        m.scan is Ground,
        fits_csi(body),
        ends_csi(end),
    ensures
        run(m, csi(body, end)) == csi_effect(m, body, end),
{
    let lead = seq![0x1bu8, 0x5b];
    let open = InputModes { scan: Scan::Csi(Seq::empty()), ..m };
    reveal_with_fuel(run, 3);
    assert(lead.drop_last() =~= seq![0x1bu8]);
    assert(seq![0x1bu8].drop_last() =~= Seq::<u8>::empty());
    assert(run(m, lead) == (open, Seq::<u8>::empty())) by {
        assert(run(m, lead).0 =~= open);
        assert(run(m, lead).1 =~= Seq::<u8>::empty());
    }
    lemma_body_is_collected(open, body);
    chunks_do_not_matter(m, lead, body);
    let all = csi(body, end);
    assert(all.drop_last() =~= lead + body);
    assert(all.last() == end);
    let mid = InputModes { scan: Scan::Csi(body), ..m };
    assert(run(m, lead + body).0 =~= mid);
    assert(run(m, lead + body).1 =~= Seq::<u8>::empty());
    lemma_effect_ignores_scan(m, mid, body, end);
    assert(run(m, all).0 =~= csi_effect(m, body, end).0);
    assert(run(m, all).1 =~= csi_effect(m, body, end).1);
}

proof fn lemma_body_is_collected(m: InputModes, body: Seq<u8>)
    requires
        m.scan == Scan::Csi(Seq::empty()),
        fits_csi(body),
    ensures
        run(m, body) == (InputModes { scan: Scan::Csi(body), ..m }, Seq::<u8>::empty()),
    decreases body.len(),
{
    if body.len() == 0 {
        assert(body =~= Seq::empty());
    } else {
        let init = body.drop_last();
        assert(fits_csi(init)) by {
            assert forall|i: int| 0 <= i < init.len() implies !ends_csi(#[trigger] init[i]) by {
                assert(body[i] == init[i]);
            }
        }
        lemma_body_is_collected(m, init);
        assert(!ends_csi(body[body.len() - 1]));
        assert(init.push(body.last()) =~= body);
        assert(run(m, body).1 =~= Seq::<u8>::empty());
    }
}

proof fn lemma_effect_ignores_scan(m: InputModes, n: InputModes, body: Seq<u8>, end: u8)
    requires
        n == (InputModes { scan: n.scan, ..m }),
    ensures
        (InputModes { scan: m.scan, ..csi_effect(n, body, end).0 }) == csi_effect(m, body, end).0,
        csi_effect(n, body, end).1 == csi_effect(m, body, end).1,
{
}

/// A program that does not negotiate is left alone. The flags change only where a
/// sequence starts with `>`, `=` or `<` and ends in `u`; bracketed paste changes only
/// where it starts with `?`, names mode 2004 and ends in `h` or `l`, and is then on
/// for `h` and off for `l`; an answer comes only where it starts with `?` and ends in
/// `u`; a cursor report is noted only for `6 n`.
pub proof fn other_sequences_change_nothing(m: InputModes, body: Seq<u8>, end: u8)
    ensures
        csi_effect(m, body, end).0.flags != m.flags ==> end == 0x75 && body.len() > 0 && (body[0]
            == 0x3e || body[0] == 0x3d || body[0] == 0x3c),
        csi_effect(m, body, end).0.paste != m.paste ==> (end == 0x68 || end == 0x6c)
            && names_paste_mode(body),
        (end == 0x68 || end == 0x6c) && names_paste_mode(body) ==> csi_effect(
            m,
            body,
            end,
        ).0.paste == (end == 0x68),
        csi_effect(m, body, end).1.len() > 0 <==> end == 0x75 && body.len() > 0 && body[0] == 0x3f,
        csi_effect(m, body, end).0.cursor_request != m.cursor_request ==> end == 0x6e && body
            == seq![0x36u8],
        csi_effect(m, body, end).0.scan == m.scan,
{
}

/// Whether the body of a sequence starts with `?` and one of its parameters is
/// exactly `2004`.
pub open spec fn names_paste_mode(body: Seq<u8>) -> bool {
    body.len() > 0 && body[0] == 0x3f && text::split(body.skip(1), 0x3bu8).contains(paste_mode())
}

/// The byte that completes a control sequence, whatever came before it and however it
/// was cut into chunks, changes only what the sequence names: bracketed paste where it
/// starts with `?`, names mode 2004 and ends in `h` (on) or `l` (off), the flags where
/// it starts with `>`, `=` or `<` and ends in `u`. An answer is added only where it
/// starts with `?` and ends in `u`, and what was answered before stays in front of it.
pub proof fn sequences_change_what_they_name(
    m: InputModes,
    data: Seq<u8>,
    body: Seq<u8>,
    end: u8,
)
    requires
        run(m, data).0.scan == Scan::Csi(body),
        ends_csi(end),
    ensures
        ({
            let (before, answered) = run(m, data);
            let (after, answers) = run(m, data.push(end));
            &&& after.paste != before.paste ==> (end == 0x68 || end == 0x6c) && names_paste_mode(
                body,
            )
            &&& (end == 0x68 || end == 0x6c) && names_paste_mode(body) ==> after.paste == (end
                == 0x68)
            &&& after.flags != before.flags ==> end == 0x75 && body.len() > 0 && (body[0] == 0x3e
                || body[0] == 0x3d || body[0] == 0x3c)
            &&& answers.len() > answered.len() ==> end == 0x75 && body.len() > 0 && body[0] == 0x3f
            &&& answered.is_prefix_of(answers)
            &&& after.scan == Scan::Ground
        }),
{
    let (before, answered) = run(m, data);
    assert(data.push(end).drop_last() =~= data);
    other_sequences_change_nothing(before, body, end);
    let answers = run(m, data.push(end)).1;
    assert(answers.subrange(0, answered.len() as int) =~= answered);
}

/// What has been answered stays answered: more output only adds to it.
pub proof fn answers_only_grow(m: InputModes, a: Seq<u8>, b: Seq<u8>)
    ensures
        run(m, a).1.is_prefix_of(run(m, a + b).1),
{
    chunks_do_not_matter(m, a, b);
    let first = run(m, a).1;
    assert(run(m, a + b).1.subrange(0, first.len() as int) =~= first);
}

/// A number below 256 in decimal is read back as itself.
pub proof fn numbers_are_read_back(n: u8)
    ensures
        number(text::dec_bytes(n as nat)) == Some(n),
        fits_csi(seq![0x3eu8] + text::dec_bytes(n as nat)),
{
    lemma_dec_digits(n as nat);
    let d = text::dec_bytes(n as nat);
    assert(0x30 <= d[0] <= 0x39);
    reveal_with_fuel(text::dec_bytes, 3);
    assert(d.len() <= 3);
    let body = seq![0x3eu8] + d;
    assert forall|i: int| 0 <= i < body.len() implies !ends_csi(#[trigger] body[i]) by {
        if i > 0 {
            assert(body[i] == d[i - 1]);
        }
    }
}

proof fn lemma_dec_digits(n: nat)
    ensures
        text::dec_bytes(n).len() > 0,
        all_digits(text::dec_bytes(n)),
        digits_value(text::dec_bytes(n)) == n,
    decreases n,
{
    let d = text::dec_bytes(n);
    if n < 10 {
        assert(d.drop_last() =~= Seq::<u8>::empty());
        assert(digits_value(d.drop_last()) == 0);
    } else {
        lemma_dec_digits(n / 10);
        let init = text::dec_bytes(n / 10);
        assert(d.drop_last() =~= init);
        assert forall|i: int| 0 <= i < d.len() implies 0x30 <= #[trigger] d[i] <= 0x39 by {
            if i < init.len() {
                assert(d[i] == init[i]);
            }
        }
    }
}

/// What a program pushes, it is told when it asks: `CSI > flags u` followed by
/// `CSI ? u` leaves the flags set and answers with them.
pub proof fn pushed_flags_are_reported(m: InputModes, n: u8)
    requires
        m.scan is Ground,
    ensures
        run(m, csi(seq![0x3eu8] + text::dec_bytes(n as nat), 0x75) + csi(seq![0x3fu8], 0x75)) == (
            InputModes { flags: n, ..m },
            flags_report(n),
        ),
{
    numbers_are_read_back(n);
    let push = seq![0x3eu8] + text::dec_bytes(n as nat);
    let ask = seq![0x3fu8];
    complete_sequences_take_effect(m, push, 0x75);
    assert(push.skip(1) =~= text::dec_bytes(n as nat));
    let mid = InputModes { flags: n, ..m };
    assert(run(m, csi(push, 0x75)) == (mid, Seq::<u8>::empty()));
    assert(fits_csi(ask));
    complete_sequences_take_effect(mid, ask, 0x75);
    chunks_do_not_matter(m, csi(push, 0x75), csi(ask, 0x75));
    assert(Seq::<u8>::empty() + flags_report(n) =~= flags_report(n));
}

/// Popping turns the protocol off, whatever number is popped.
pub proof fn pop_turns_the_protocol_off(m: InputModes, count: Seq<u8>)
    requires
        m.scan is Ground,
        fits_csi(seq![0x3cu8] + count),
    ensures
        run(m, csi(seq![0x3cu8] + count, 0x75)) == (
            InputModes { flags: 0, ..m },
            Seq::<u8>::empty(),
        ),
{
    complete_sequences_take_effect(m, seq![0x3cu8] + count, 0x75);
}

/// `CSI ? 2004 h` turns bracketed paste on, `CSI ? 2004 l` turns it off, and
/// neither touches the flags.
pub proof fn paste_mode_follows_the_program(m: InputModes)
    requires
        m.scan is Ground,
    ensures
        run(m, csi(seq![0x3fu8] + paste_mode(), 0x68)) == (
            InputModes { paste: true, ..m },
            Seq::<u8>::empty(),
        ),
        run(m, csi(seq![0x3fu8] + paste_mode(), 0x6c)) == (
            InputModes { paste: false, ..m },
            Seq::<u8>::empty(),
        ),
{
    let body = seq![0x3fu8] + paste_mode();
    assert(fits_csi(body));
    complete_sequences_take_effect(m, body, 0x68);
    complete_sequences_take_effect(m, body, 0x6c);
    assert(body.skip(1) =~= paste_mode());
    lemma_split_without_separator(paste_mode(), 0x3bu8);
    assert(text::split(paste_mode(), 0x3bu8)[0] == paste_mode());
}

proof fn lemma_split_without_separator(s: Seq<u8>, sep: u8)
    requires
        !s.contains(sep),
    ensures
        text::split(s, sep) == seq![s],
    decreases s.len(),
{
    if s.len() > 0 {
        let init = s.drop_last();
        assert(s.contains(s.last()));
        assert forall|b: u8| init.contains(b) implies s.contains(b) by {
            let i = choose|i: int| 0 <= i < init.len() && init[i] == b;
            assert(s[i] == b);
        }
        lemma_split_without_separator(init, sep);
        assert(init.push(s.last()) =~= s);
        assert(text::split(s, sep) =~= seq![s]);
    }
}

/// `CSI 6 n` is noted as a request for a cursor position report.
pub proof fn cursor_requests_are_noted(m: InputModes)
    requires
        m.scan is Ground,
    ensures
        run(m, csi(seq![0x36u8], 0x6e)) == (
            InputModes { cursor_request: true, ..m },
            Seq::<u8>::empty(),
        ),
{
    assert(fits_csi(seq![0x36u8]));
    complete_sequences_take_effect(m, seq![0x36u8], 0x6e);
}

/// What a program says of the flags is what they are: `CSI > n u` and `CSI = n u` set them
/// to n, the latter with a mode behind a semicolon or without, and without a number the
/// first sets 1 and the second 0. Nothing else changes, and nothing is answered.
pub proof fn flags_are_what_the_program_says(m: InputModes, n: u8, mode: Seq<u8>)
    requires
        m.scan is Ground,
        mode.len() <= 27,
        forall|i: int| 0 <= i < mode.len() ==> #[trigger] mode[i] < 0x40,
    ensures
        ({
            let set = (InputModes { flags: n, ..m }, Seq::<u8>::empty());
            let d = text::dec_bytes(n as nat);
            &&& run(m, seq![0x1bu8, 0x5b, 0x3e] + d + seq![0x75u8]) == set
            &&& run(m, seq![0x1bu8, 0x5b, 0x3d] + d + seq![0x75u8]) == set
            &&& run(m, seq![0x1bu8, 0x5b, 0x3d] + d + seq![0x3bu8] + mode + seq![0x75u8]) == set
        }),
        run(m, seq![0x1bu8, 0x5b, 0x3e, 0x75]) == (
            InputModes { flags: 1, ..m },
            Seq::<u8>::empty(),
        ),
        run(m, seq![0x1bu8, 0x5b, 0x3d, 0x75]) == (
            InputModes { flags: 0, ..m },
            Seq::<u8>::empty(),
        ),
{
    let d = text::dec_bytes(n as nat);
    numbers_are_read_back(n);
    lemma_dec_digits(n as nat);
    let push = seq![0x3eu8] + d;
    assert(d.len() <= 3) by {
        reveal_with_fuel(text::dec_bytes, 3);
    }
    complete_sequences_take_effect(m, push, 0x75);
    assert(push.skip(1) =~= d);
    assert(csi(push, 0x75) =~= seq![0x1bu8, 0x5b, 0x3e] + d + seq![0x75u8]);
    let bare = seq![0x3du8] + d;
    assert forall|i: int| 0 <= i < bare.len() implies !ends_csi(#[trigger] bare[i]) by {
        if i > 0 {
            assert(bare[i] == d[i - 1]);
        }
    }
    complete_sequences_take_effect(m, bare, 0x75);
    assert(bare.skip(1) =~= d);
    assert(!d.contains(0x3bu8));
    lemma_split_without_separator(d, 0x3bu8);
    assert(csi(bare, 0x75) =~= seq![0x1bu8, 0x5b, 0x3d] + d + seq![0x75u8]);
    let long = seq![0x3du8] + d + seq![0x3bu8] + mode;
    assert forall|i: int| 0 <= i < long.len() implies !ends_csi(#[trigger] long[i]) by {
        if 0 < i <= d.len() {
            assert(long[i] == d[i - 1]);
        } else if i > d.len() + 1 {
            assert(long[i] == mode[i - d.len() - 2]);
        }
    }
    complete_sequences_take_effect(m, long, 0x75);
    assert(long.skip(1) =~= d + seq![0x3bu8] + mode);
    lemma_first_part(d, mode, 0x3bu8);
    assert(csi(long, 0x75) =~= seq![0x1bu8, 0x5b, 0x3d] + d + seq![0x3bu8] + mode + seq![0x75u8]);
    complete_sequences_take_effect(m, seq![0x3eu8], 0x75);
    assert(seq![0x3eu8].skip(1) =~= Seq::<u8>::empty());
    assert(csi(seq![0x3eu8], 0x75) =~= seq![0x1bu8, 0x5b, 0x3e, 0x75]);
    complete_sequences_take_effect(m, seq![0x3du8], 0x75);
    assert(seq![0x3du8].skip(1) =~= Seq::<u8>::empty());
    lemma_split_without_separator(Seq::<u8>::empty(), 0x3bu8);
    assert(csi(seq![0x3du8], 0x75) =~= seq![0x1bu8, 0x5b, 0x3d, 0x75]);
}

proof fn lemma_first_part(a: Seq<u8>, b: Seq<u8>, sep: u8)
    requires
        !a.contains(sep),
    ensures
        text::split(a + seq![sep] + b, sep)[0] == a,
        text::split(a + seq![sep] + b, sep).len() > 1,
    decreases b.len(),
{
    let s = a + seq![sep] + b;
    if b.len() == 0 {
        assert(s.drop_last() =~= a);
        lemma_split_without_separator(a, sep);
    } else {
        assert(s.drop_last() =~= a + seq![sep] + b.drop_last());
        lemma_first_part(a, b.drop_last(), sep);
    }
}

/// What a number can be: digits whose value is at most 255, a plus sign before them or
/// not. Nothing at all is no number, nor is what has any other byte, nor a larger value.
pub proof fn numbers_are_small_decimals(b: Seq<u8>, i: int, n: nat)
    ensures
        number(Seq::<u8>::empty()) is None,
        0 <= i < b.len() && !(0x30 <= b[i] <= 0x39) && (i > 0 || b[i] != 0x2b) ==> number(b) is None,
        n > 255 ==> number(text::dec_bytes(n)) is None,
        n <= 255 ==> number(seq![0x2bu8] + text::dec_bytes(n)) == Some(n as u8),
{
    if 0 <= i < b.len() && !(0x30 <= b[i] <= 0x39) && (i > 0 || b[i] != 0x2b) {
        if b[0] == 0x2b {
            assert(b.skip(1)[i - 1] == b[i]);
            assert(!all_digits(b.skip(1)));
        } else {
            assert(!all_digits(b));
        }
    }
    lemma_dec_digits(n);
    let d = text::dec_bytes(n);
    assert(0x30 <= d[0] <= 0x39);
    assert((seq![0x2bu8] + d).skip(1) =~= d);
}

/// A program that asks for the flags, `CSI ? u`, is told them: `CSI ? n u`. Asking changes
/// nothing.
pub proof fn flags_are_told(m: InputModes)
    requires
        m.scan is Ground,
    ensures
        run(m, seq![0x1bu8, 0x5b, 0x3f, 0x75]) == (
            m,
            seq![0x1bu8, 0x5b, 0x3f] + text::dec_bytes(m.flags as nat) + seq![0x75u8],
        ),
{
    complete_sequences_take_effect(m, seq![0x3fu8], 0x75);
    assert(csi(seq![0x3fu8], 0x75) =~= seq![0x1bu8, 0x5b, 0x3f, 0x75]);
}

/// Bracketed paste is mode 2004: `CSI ? 2004 h` turns it on and `CSI ? 2004 l` off, alone
/// or among other modes, and no other sequence that ends in `h` or `l` touches it.
pub proof fn paste_is_mode_2004(m: InputModes, modes: Seq<u8>)
    requires
        m.scan is Ground,
        modes.len() <= 31,
        forall|i: int| 0 <= i < modes.len() ==> #[trigger] modes[i] < 0x40,
    ensures
        ({
            let named = text::split(modes, 0x3bu8).contains(seq![0x32u8, 0x30, 0x30, 0x34]);
            let on = run(m, seq![0x1bu8, 0x5b, 0x3f] + modes + seq![0x68u8]);
            let off = run(m, seq![0x1bu8, 0x5b, 0x3f] + modes + seq![0x6cu8]);
            &&& on == (InputModes { paste: named || m.paste, ..m }, Seq::<u8>::empty())
            &&& off == (InputModes { paste: !named && m.paste, ..m }, Seq::<u8>::empty())
        }),
{
    let body = seq![0x3fu8] + modes;
    assert forall|i: int| 0 <= i < body.len() implies !ends_csi(#[trigger] body[i]) by {
        if i > 0 {
            assert(body[i] == modes[i - 1]);
        }
    }
    complete_sequences_take_effect(m, body, 0x68);
    complete_sequences_take_effect(m, body, 0x6c);
    assert(body.skip(1) =~= modes);
    assert(csi(body, 0x68) =~= seq![0x1bu8, 0x5b, 0x3f] + modes + seq![0x68u8]);
    assert(csi(body, 0x6c) =~= seq![0x1bu8, 0x5b, 0x3f] + modes + seq![0x6cu8]);
}

/// What starts a sequence and what ends it. An ESC that is not followed by `[` starts none;
/// one with up to 32 bytes before the one that ends it, which is from `@` to `~`, is over
/// then; and one that has not ended with 33 bytes is given up. Whatever the sequence is,
/// nothing is left of it for what follows.
pub proof fn sequences_start_and_end(m: InputModes, body: Seq<u8>, b: u8)
    requires
        m.scan is Ground,
        forall|i: int| 0 <= i < body.len() ==> #[trigger] body[i] < 0x40 || body[i] == 0x7f
            || body[i] >= 0x80,
    ensures
        b != 0x5b ==> run(m, seq![0x1bu8, b]) == (m, Seq::<u8>::empty()),
        body.len() <= 32 ==> run(m, seq![0x1bu8, 0x5b] + body) == (
            InputModes { scan: Scan::Csi(body), ..m },
            Seq::<u8>::empty(),
        ),
        body.len() <= 32 && 0x40 <= b <= 0x7e ==> run(
            m,
            seq![0x1bu8, 0x5b] + body + seq![b],
        ).0.scan == Scan::Ground,
        body.len() == 33 ==> run(m, seq![0x1bu8, 0x5b] + body) == (m, Seq::<u8>::empty()),
{
    reveal_with_fuel(run, 3);
    let lead = seq![0x1bu8, 0x5b];
    assert(seq![0x1bu8].drop_last() =~= Seq::<u8>::empty());
    assert(lead.drop_last() =~= seq![0x1bu8]);
    assert(seq![0x1bu8, b].drop_last() =~= seq![0x1bu8]);
    if b != 0x5b {
        assert(run(m, seq![0x1bu8, b]).0 =~= m);
        assert(run(m, seq![0x1bu8, b]).1 =~= Seq::<u8>::empty());
    }
    let open = InputModes { scan: Scan::Csi(Seq::empty()), ..m };
    assert(run(m, lead).0 =~= open);
    assert(run(m, lead).1 =~= Seq::<u8>::empty());
    if body.len() <= 32 {
        lemma_body_is_collected(open, body);
        chunks_do_not_matter(m, lead, body);
        assert(run(m, lead + body).1 =~= Seq::<u8>::empty());
        if 0x40 <= b <= 0x7e {
            complete_sequences_take_effect(m, body, b);
        }
    }
    if body.len() == 33 {
        let init = body.drop_last();
        assert forall|i: int| 0 <= i < init.len() implies !ends_csi(#[trigger] init[i]) by {
            assert(init[i] == body[i]);
        }
        lemma_body_is_collected(open, init);
        chunks_do_not_matter(m, lead, init);
        assert((lead + body).drop_last() =~= lead + init);
        assert((lead + body).last() == body[32]);
        let (mid, none) = run(m, lead + init);
        assert(mid == (InputModes { scan: Scan::Csi(init), ..m }));
        assert(run(m, lead + body).0 =~= m);
        assert(run(m, lead + body).1 =~= Seq::<u8>::empty());
    }
}

/// `CSI 6 n` asks for the cursor, and no other sequence that ends in `n` does.
pub proof fn the_cursor_is_asked_for(m: InputModes, body: Seq<u8>)
    requires
        m.scan is Ground,
        body.len() <= 32,
        forall|i: int| 0 <= i < body.len() ==> #[trigger] body[i] < 0x40,
    ensures
        run(m, seq![0x1bu8, 0x5b] + body + seq![0x6eu8]) == (
            InputModes { cursor_request: m.cursor_request || body == seq![0x36u8], ..m },
            Seq::<u8>::empty(),
        ),
        run(m, seq![0x1bu8, 0x5b, 0x36, 0x6e]).0.cursor_request,
{
    complete_sequences_take_effect(m, body, 0x6e);
    let six = seq![0x36u8];
    complete_sequences_take_effect(m, six, 0x6e);
    assert(csi(six, 0x6e) =~= seq![0x1bu8, 0x5b, 0x36, 0x6e]);
}

} // verus!
