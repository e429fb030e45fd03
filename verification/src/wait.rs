//! Screen sampling and reply formatting for the `wait_*` tools.
//!
//! The wait tools poll a session in a loop. Each poll takes one snapshot so the
//! match predicate and the rendering that is returned observe the *same* frame:
//! there is no separate reading after the match that could sample a later,
//! different frame. A poll either resolves the wait with a reply or leaves it
//! open; the caller then sleeps for [`POLL_MS`] and polls again.

use crate::emulator;
use crate::error::ToolError;
use crate::pattern;
use crate::pattern::Needle;
use crate::session;
use crate::session::ScreenDump;
use crate::session::ScreenFormat;
use crate::text;
use vstd::prelude::*;

verus! {

/// The pause between two polls.
pub const POLL_MS: u64 = 50;

pub const DEFAULT_TIMEOUT_MS: u64 = 5000;

pub const DEFAULT_STABLE_MS: u64 = 300;

// ---- Samples ----------------------------------------------------------------

/// How much of the screen a `wait_*` tool returns once it resolves.
#[derive(Clone, Copy, Debug, PartialEq, Eq, Structural)]
pub enum WaitReturn {
    /// Return only the outcome (matched / timed out); no screen payload.
    OutcomeOnly,
    /// Return the screen as plain text.
    Text,
    /// Return the screen with ANSI SGR escapes (colors / attributes).
    Ansi,
}

impl Default for WaitReturn {
    fn default() -> (r: WaitReturn)
        ensures
            r == WaitReturn::Text,
    {
        WaitReturn::Text
    }
}

/// One poll of a pty screen, so the predicate and the returned rendering observe
/// the *same* frame (no match-then-reread race).
pub struct ScreenSample {
    /// Plain-text render; the predicate always runs against this.
    pub base: ScreenDump,
    /// Whether the predicate held on this frame.
    pub matched: bool,
    /// ANSI render of the same frame, only taken when it will actually be
    /// returned (`format=ansi` and this is the sample we resolve on).
    pub ansi: Option<ScreenDump>,
}

/// Poll a screen once and evaluate `pred` against its plain text. `who` names the
/// calling tool for the error on a piped session, which has no screen. When
/// `format` is `Ansi`, an ANSI render of the same frame is captured iff the
/// predicate matched or `force_render` is set (the latter covers the timeout
/// path), never on a poll we won't return from.
pub fn sample_screen<F: FnOnce(&str) -> bool>(
    screen: Option<&vt100::Screen>,
    who: &str,
    format: WaitReturn,
    force_render: bool,
    pred: F,
) -> (r: Result<ScreenSample, ToolError>)
    requires
        forall|s: &str| #[trigger] pred.requires((s,)),
        screen matches Some(s) ==> (format == WaitReturn::Ansi ==> emulator::screen_model(
            *s,
        ).has_ansi()),
    ensures
        r is Ok <==> screen is Some,
        r matches Ok(sample) ==> {
            let m = emulator::screen_model(*screen->0);
            &&& session::shows(sample.base, m, ScreenFormat::Text)
            &&& exists|s: &str|
                s@ == sample.base.text@ && #[trigger] pred.ensures((s,), sample.matched)
            &&& sample.ansi is Some <==> format == WaitReturn::Ansi && (sample.matched
                || force_render)
            &&& sample.ansi matches Some(d) ==> session::shows(d, m, ScreenFormat::Ansi)
        },
        r matches Err(e) ==> (e matches ToolError::NeedsPty(w) && w@ == who@),
{
    match screen {
        Some(screen) => {
            let base = session::dump_screen(screen, ScreenFormat::Text);
            let s: &str = base.text.as_str();
            let matched = pred(s);
            let ghost given = s;
            assert(pred.ensures((given,), matched));
            let ansi = if format == WaitReturn::Ansi && (matched || force_render) {
                Some(session::dump_screen(screen, ScreenFormat::Ansi))
            } else {
                None
            };
            let sample = ScreenSample { base, matched, ansi };
            assert(pred.ensures((given,), sample.matched)) by {
                if matched {
                    assert(pred.ensures((given,), true));
                } else {
                    assert(pred.ensures((given,), false));
                }
            }
            Ok(sample)
        },
        None => {
            let caller = who.to_string();
            Err(ToolError::NeedsPty(caller))
        },
    }
}

/// The frame that a reply shows: the ANSI one where it is there.
pub open spec fn shown_frame(format: WaitReturn, s: ScreenSample) -> ScreenDump {
    if format == WaitReturn::Ansi && s.ansi is Some {
        s.ansi->0
    } else {
        s.base
    }
}

/// The reply of a wait: the outcome, and the screen where it is asked for.
pub open spec fn reply_text(outcome: Seq<char>, format: WaitReturn, s: ScreenSample) -> Seq<char> {
    if format == WaitReturn::OutcomeOnly {
        outcome
    } else {
        outcome + "\n"@ + session::dump_text(shown_frame(format, s))
    }
}

/// An outcome and the screen.
fn outcome_and_screen(outcome: &str, dump: &ScreenDump) -> (r: String)
    ensures
        r@ == outcome@ + "\n"@ + session::dump_text(*dump),
{
    let mut out = String::new();
    out.append(outcome);
    out.append("\n");
    out.append(dump.render().as_str());
    assert(out@ =~= outcome@ + "\n"@ + session::dump_text(*dump));
    out
}

/// Build a `wait_*` reply: the outcome word alone for `OutcomeOnly`, or the outcome
/// followed by the rendered screen for `Text` / `Ansi`.
pub fn wait_reply(outcome: &str, format: WaitReturn, s: &ScreenSample) -> (r: String)
    ensures
        r@ == reply_text(outcome@, format, *s),
{
    match format {
        WaitReturn::OutcomeOnly => outcome.to_string(),
        WaitReturn::Text => outcome_and_screen(outcome, &s.base),
        // Falls back to the text frame if the ANSI render is somehow absent;
        // in practice `sample_screen` guarantees it on any returned sample.
        WaitReturn::Ansi => match &s.ansi {
            Some(dump) => outcome_and_screen(outcome, dump),
            None => outcome_and_screen(outcome, &s.base),
        },
    }
}

// ---- Timeouts ---------------------------------------------------------------

/// Whether a wait has lasted its time.
pub open spec fn timed_out(elapsed_ns: u64, timeout_ms: Option<u64>) -> bool {
    elapsed_ns >= 1000000 * timeout_ms.unwrap_or(DEFAULT_TIMEOUT_MS)
}

fn is_timed_out(elapsed_ns: u64, timeout_ms: Option<u64>) -> (b: bool)
    ensures
        b == timed_out(elapsed_ns, timeout_ms),
{
    elapsed_ns as u128 >= 1000000 * (timeout_ms.unwrap_or(DEFAULT_TIMEOUT_MS) as u128)
}

/// `TIMEOUT after <n>ms: ` and what has not come about.
pub open spec fn timeout_text(timeout_ms: Option<u64>, what: Seq<char>) -> Seq<char> {
    "TIMEOUT after "@ + text::dec(timeout_ms.unwrap_or(DEFAULT_TIMEOUT_MS) as nat) + "ms: "@ + what
}

fn timeout_message(timeout_ms: Option<u64>, what: &str) -> (r: String)
    ensures
        r@ == timeout_text(timeout_ms, what@),
{
    let mut out = String::new();
    out.append("TIMEOUT after ");
    text::push_dec(&mut out, timeout_ms.unwrap_or(DEFAULT_TIMEOUT_MS));
    out.append("ms: ");
    out.append(what);
    assert(out@ =~= timeout_text(timeout_ms, what@));
    out
}

// ---- Polls ------------------------------------------------------------------

/// A poll of `wait_for_text`, given whether the text was found.
pub open spec fn text_poll(
    dump: ScreenDump,
    found: bool,
    absent: bool,
    elapsed_ns: u64,
    timeout_ms: Option<u64>,
) -> Option<Seq<char>> {
    if found != absent {
        Some(
            (if absent {
                "gone"@
            } else {
                "matched"@
            }) + "\n"@ + session::dump_text(dump),
        )
    } else if timed_out(elapsed_ns, timeout_ms) {
        Some(
            timeout_text(
                timeout_ms,
                if absent {
                    "text still present"@
                } else {
                    "text not found"@
                },
            ) + "\n"@ + session::dump_text(dump),
        )
    } else {
        None
    }
}

/// One poll of `wait_for_text`, given whether the text was found: the reply, or
/// `None` while the wait goes on.
pub fn poll_found(
    dump: &ScreenDump,
    found: bool,
    absent: bool,
    elapsed_ns: u64,
    timeout_ms: Option<u64>,
) -> (r: Option<String>)
    ensures
        session::opt_view(r) == text_poll(*dump, found, absent, elapsed_ns, timeout_ms),
{
    if found != absent {
        let what = if absent {
            "gone"
        } else {
            "matched"
        };
        Some(outcome_and_screen(what, dump))
    } else if is_timed_out(elapsed_ns, timeout_ms) {
        let what = if absent {
            "text still present"
        } else {
            "text not found"
        };
        Some(outcome_and_screen(timeout_message(timeout_ms, what).as_str(), dump))
    } else {
        None
    }
}

/// One poll of `wait_for_text`: looks for the text or pattern on the screen, and
/// waits for it to appear, or with `absent` to disappear.
pub fn wait_for_text(
    dump: &ScreenDump,
    needle: &Needle,
    absent: Option<bool>,
    elapsed_ns: u64,
    timeout_ms: Option<u64>,
) -> (r: Option<String>)
    ensures
        session::opt_view(r) == text_poll(
            *dump,
            pattern::found_in(*needle, dump.text@),
            absent.unwrap_or(false),
            elapsed_ns,
            timeout_ms,
        ),
{
    let found = needle.found_in(dump.text.as_str());
    poll_found(dump, found, absent.unwrap_or(false), elapsed_ns, timeout_ms)
}

/// One poll of `wait_for_change`: the reply, or `None` while the screen shows
/// what it showed at first.
pub open spec fn change_poll(
    initial: Seq<char>,
    dump: ScreenDump,
    elapsed_ns: u64,
    timeout_ms: Option<u64>,
) -> Option<Seq<char>> {
    if dump.text@ != initial {
        Some("changed"@ + "\n"@ + session::dump_text(dump))
    } else if timed_out(elapsed_ns, timeout_ms) {
        Some(timeout_text(timeout_ms, "screen unchanged"@))
    } else {
        None
    }
}

pub fn wait_for_change(
    initial: &str,
    dump: &ScreenDump,
    elapsed_ns: u64,
    timeout_ms: Option<u64>,
) -> (r: Option<String>)
    ensures
        session::opt_view(r) == change_poll(initial@, *dump, elapsed_ns, timeout_ms),
{
    if !text::str_eq(dump.text.as_str(), initial) {
        Some(outcome_and_screen("changed", dump))
    } else if is_timed_out(elapsed_ns, timeout_ms) {
        Some(timeout_message(timeout_ms, "screen unchanged"))
    } else {
        None
    }
}

/// One poll of `wait_for_exit`: the reply, or `None` while the program runs.
pub open spec fn exit_poll(
    status: Option<Seq<char>>,
    elapsed_ns: u64,
    timeout_ms: Option<u64>,
) -> Option<Seq<char>> {
    match status {
        Some(s) => Some("exited: "@ + s),
        None => if timed_out(elapsed_ns, timeout_ms) {
            Some(timeout_text(timeout_ms, "still running"@))
        } else {
            None
        },
    }
}

pub fn wait_for_exit(
    status: Option<String>,
    elapsed_ns: u64,
    timeout_ms: Option<u64>,
) -> (r: Option<String>)
    ensures
        session::opt_view(r) == exit_poll(session::opt_view(status), elapsed_ns, timeout_ms),
{
    match status {
        Some(s) => {
            let mut out = String::new();
            out.append("exited: ");
            out.append(s.as_str());
            assert(out@ =~= "exited: "@ + s@);
            Some(out)
        },
        None => if is_timed_out(elapsed_ns, timeout_ms) {
            Some(timeout_message(timeout_ms, "still running"))
        } else {
            None
        },
    }
}

/// One poll of `wait_for_output`, given whether the text was found.
pub open spec fn output_poll(
    buffered: Seq<char>,
    found: bool,
    elapsed_ns: u64,
    timeout_ms: Option<u64>,
) -> Option<Seq<char>> {
    if found {
        Some("matched"@ + "\n"@ + buffered)
    } else if timed_out(elapsed_ns, timeout_ms) {
        Some(timeout_text(timeout_ms, "not found"@) + "\n"@ + buffered)
    } else {
        None
    }
}

/// One poll of `wait_for_output`, given whether the text was found.
pub fn poll_output(
    buffered: &str,
    found: bool,
    elapsed_ns: u64,
    timeout_ms: Option<u64>,
) -> (r: Option<String>)
    ensures
        session::opt_view(r) == output_poll(buffered@, found, elapsed_ns, timeout_ms),
{
    let mut out = String::new();
    if found {
        out.append("matched");
    } else if is_timed_out(elapsed_ns, timeout_ms) {
        out.append(timeout_message(timeout_ms, "not found").as_str());
    } else {
        return None;
    }
    out.append("\n");
    out.append(buffered);
    assert(session::opt_view(Some(out)) =~= output_poll(buffered@, found, elapsed_ns, timeout_ms)) by {
        assert(out@ =~= output_poll(buffered@, found, elapsed_ns, timeout_ms)->0);
    }
    Some(out)
}

/// One poll of `wait_for_output`: looks for the text or pattern in what is
/// buffered of a stream.
pub fn wait_for_output(
    buffered: &str,
    needle: &Needle,
    elapsed_ns: u64,
    timeout_ms: Option<u64>,
) -> (r: Option<String>)
    ensures
        session::opt_view(r) == output_poll(
            buffered@,
            pattern::found_in(*needle, buffered@),
            elapsed_ns,
            timeout_ms,
        ),
{
    let found = needle.found_in(buffered);
    poll_output(buffered, found, elapsed_ns, timeout_ms)
}

// ---- Stability --------------------------------------------------------------

/// What `wait_for_stable` remembers between polls: the screen it saw last, and
/// since when the screen has been that.
pub struct StableWait {
    last: String,
    since_ns: u64,
}

/// How long the screen has been the same.
pub open spec fn unchanged_for(since_ns: u64, now_ns: u64) -> int {
    if since_ns <= now_ns {
        now_ns - since_ns
    } else {
        0
    }
}

/// The reply of a poll of `wait_for_stable`.
pub open spec fn stable_poll(
    last: Seq<char>,
    since_ns: u64,
    dump: ScreenDump,
    now_ns: u64,
    stable_ms: Option<u64>,
    timeout_ms: Option<u64>,
) -> Option<Seq<char>> {
    if dump.text@ == last && unchanged_for(since_ns, now_ns) >= 1000000 * stable_ms.unwrap_or(
        DEFAULT_STABLE_MS,
    ) {
        Some("stable"@ + "\n"@ + session::dump_text(dump))
    } else if timed_out(now_ns, timeout_ms) {
        Some(timeout_text(timeout_ms, "still changing"@) + "\n"@ + session::dump_text(dump))
    } else {
        None
    }
}

impl StableWait {
    /// The screen seen last.
    pub closed spec fn seen(&self) -> Seq<char> {
        self.last@
    }

    /// Since when it has been that, in nanoseconds from the start of the wait.
    pub closed spec fn since(&self) -> u64 {
        self.since_ns
    }

    /// A wait that starts: nothing has been seen.
    pub fn new() -> (w: Self)
        ensures
            w.seen() == Seq::<char>::empty(),
            w.since() == 0,
    {
        let last = String::new();
        assert(last@ =~= Seq::<char>::empty());
        StableWait { last, since_ns: 0 }
    }

    /// One poll at a time counted from the start of the wait: the reply, or `None`
    /// while the screen has not been the same for long enough.
    pub fn wait_for_stable(
        &mut self,
        dump: &ScreenDump,
        now_ns: u64,
        stable_ms: Option<u64>,
        timeout_ms: Option<u64>,
    ) -> (r: Option<String>)
        ensures
            session::opt_view(r) == stable_poll(
                old(self).seen(),
                old(self).since(),
                *dump,
                now_ns,
                stable_ms,
                timeout_ms,
            ),
            final(self).seen() == dump.text@,
            final(self).since() == (if dump.text@ == old(self).seen() {
                old(self).since()
            } else {
                now_ns
            }),
    {
        if !text::str_eq(dump.text.as_str(), self.last.as_str()) {
            self.last = dump.text.clone();
            self.since_ns = now_ns;
        } else {
            let unchanged: u64 = if self.since_ns <= now_ns {
                now_ns - self.since_ns
            } else {
                0
            };
            let wanted: u128 = 1000000 * (stable_ms.unwrap_or(DEFAULT_STABLE_MS) as u128);
            if unchanged as u128 >= wanted {
                return Some(outcome_and_screen("stable", dump));
            }
        }
        if is_timed_out(now_ns, timeout_ms) {
            Some(
                outcome_and_screen(timeout_message(timeout_ms, "still changing").as_str(), dump),
            )
        } else {
            None
        }
    }
}

// ---- Laws -------------------------------------------------------------------

/// A wait for text, a change, the exit or output resolves once its time is over: no
/// poll leaves it open.
pub proof fn waits_end_with_their_time(
    dump: ScreenDump,
    found: bool,
    absent: bool,
    initial: Seq<char>,
    status: Option<Seq<char>>,
    buffered: Seq<char>,
    elapsed_ns: u64,
    timeout_ms: Option<u64>,
)
    requires
        timed_out(elapsed_ns, timeout_ms),
    ensures
        text_poll(dump, found, absent, elapsed_ns, timeout_ms) is Some,
        change_poll(initial, dump, elapsed_ns, timeout_ms) is Some,
        exit_poll(status, elapsed_ns, timeout_ms) is Some,
        output_poll(buffered, found, elapsed_ns, timeout_ms) is Some,
{
}

/// A wait for a stable screen resolves once its time is over.
pub proof fn stable_waits_end_with_their_time(
    last: Seq<char>,
    since_ns: u64,
    dump: ScreenDump,
    now_ns: u64,
    stable_ms: Option<u64>,
    timeout_ms: Option<u64>,
)
    requires
        timed_out(now_ns, timeout_ms),
    ensures
        stable_poll(last, since_ns, dump, now_ns, stable_ms, timeout_ms) is Some,
{
}

/// What a wait for text, a change, the exit or output is for resolves it at once,
/// and in the same way however much time is left or has passed.
pub proof fn outcomes_come_before_timeouts(
    dump: ScreenDump,
    found: bool,
    absent: bool,
    initial: Seq<char>,
    status: Option<Seq<char>>,
    buffered: Seq<char>,
    elapsed_ns: u64,
    timeout_ms: Option<u64>,
)
    ensures
        found != absent ==> text_poll(dump, found, absent, elapsed_ns, timeout_ms) == text_poll(
            dump,
            found,
            absent,
            0,
            None,
        ) && text_poll(dump, found, absent, 0, None) is Some,
        dump.text@ != initial ==> change_poll(initial, dump, elapsed_ns, timeout_ms)
            == change_poll(initial, dump, 0, None) && change_poll(initial, dump, 0, None) is Some,
        status is Some ==> exit_poll(status, elapsed_ns, timeout_ms) == exit_poll(status, 0, None)
            && exit_poll(status, 0, None) is Some,
        found ==> output_poll(buffered, found, elapsed_ns, timeout_ms) == output_poll(
            buffered,
            found,
            0,
            None,
        ) && output_poll(buffered, found, 0, None) is Some,
{
}

/// A screen that has been the same for long enough resolves the wait for it, in the
/// same way whatever the timeout.
pub proof fn stability_comes_before_timeouts(
    last: Seq<char>,
    since_ns: u64,
    dump: ScreenDump,
    now_ns: u64,
    stable_ms: Option<u64>,
    timeout_ms: Option<u64>,
)
    requires
        dump.text@ == last,
        unchanged_for(since_ns, now_ns) >= 1000000 * stable_ms.unwrap_or(DEFAULT_STABLE_MS),
    ensures
        stable_poll(last, since_ns, dump, now_ns, stable_ms, timeout_ms) == Some(
            "stable"@ + "\n"@ + session::dump_text(dump),
        ),
{
}

/// Once a wait's time is over, it stays so.
pub proof fn time_does_not_come_back(earlier_ns: u64, later_ns: u64, timeout_ms: Option<u64>)
    requires
        earlier_ns <= later_ns,
        timed_out(earlier_ns, timeout_ms),
    ensures
        timed_out(later_ns, timeout_ms),
{
}

/// No wait ends before its time without its outcome: as long as fewer milliseconds have
/// passed than were asked for, or than five seconds where no number was, a poll that
/// finds nothing leaves the wait open.
pub proof fn waits_last_as_long_as_asked(
    dump: ScreenDump,
    absent: bool,
    buffered: Seq<char>,
    elapsed_ns: u64,
    timeout_ms: Option<u64>,
)
    requires
        timeout_ms matches Some(ms) ==> elapsed_ns < 1000000 * ms,
        timeout_ms is None ==> elapsed_ns < 5000000000,
    ensures
        text_poll(dump, absent, absent, elapsed_ns, timeout_ms) is None,
        change_poll(dump.text@, dump, elapsed_ns, timeout_ms) is None,
        exit_poll(None, elapsed_ns, timeout_ms) is None,
        output_poll(buffered, false, elapsed_ns, timeout_ms) is None,
{
}

/// When its time has passed, a wait without an outcome says so, and says how long that
/// was: the number of milliseconds asked for, or 5000.
pub proof fn waits_that_fail_tell_their_time(
    dump: ScreenDump,
    absent: bool,
    buffered: Seq<char>,
    elapsed_ns: u64,
    timeout_ms: Option<u64>,
    asked: u64,
)
    requires
        timeout_ms == Some(asked) || (timeout_ms is None && asked == 5000),
        elapsed_ns >= 1000000 * asked,
    ensures
        ({
            let late = "TIMEOUT after "@ + text::dec(asked as nat) + "ms: "@;
            &&& text_poll(dump, absent, absent, elapsed_ns, timeout_ms) == Some(
                late + (if absent {
                    "text still present"@
                } else {
                    "text not found"@
                }) + "\n"@ + session::dump_text(dump),
            )
            &&& change_poll(dump.text@, dump, elapsed_ns, timeout_ms) == Some(
                late + "screen unchanged"@,
            )
            &&& exit_poll(None, elapsed_ns, timeout_ms) == Some(late + "still running"@)
            &&& output_poll(buffered, false, elapsed_ns, timeout_ms) == Some(
                late + "not found"@ + "\n"@ + buffered,
            )
        }),
{
}

/// A wait that has its outcome names it, and shows the screen or the output it was seen
/// in: a text that is there (or with `absent`, one that is not) ends the wait for it.
pub proof fn outcomes_are_named(
    dump: ScreenDump,
    initial: Seq<char>,
    status: Seq<char>,
    buffered: Seq<char>,
    elapsed_ns: u64,
    timeout_ms: Option<u64>,
)
    ensures
        text_poll(dump, true, false, elapsed_ns, timeout_ms) == Some(
            "matched"@ + "\n"@ + session::dump_text(dump),
        ),
        text_poll(dump, false, true, elapsed_ns, timeout_ms) == Some(
            "gone"@ + "\n"@ + session::dump_text(dump),
        ),
        dump.text@ != initial ==> change_poll(initial, dump, elapsed_ns, timeout_ms) == Some(
            "changed"@ + "\n"@ + session::dump_text(dump),
        ),
        exit_poll(Some(status), elapsed_ns, timeout_ms) == Some("exited: "@ + status),
        output_poll(buffered, true, elapsed_ns, timeout_ms) == Some(
            "matched"@ + "\n"@ + buffered,
        ),
{
}

/// A screen is stable only when it has been the same for as many milliseconds as asked
/// for, or for 300: a poll that sees another screen than the last, or the same one for
/// less long, leaves the wait open until its time has passed, and then says that the
/// screen is still changing.
pub proof fn stability_takes_its_time(
    last: Seq<char>,
    since_ns: u64,
    dump: ScreenDump,
    now_ns: u64,
    stable_ms: Option<u64>,
    timeout_ms: Option<u64>,
    asked: u64,
)
    requires
        timeout_ms == Some(asked) || (timeout_ms is None && asked == 5000),
        since_ns <= now_ns,
        dump.text@ != last || (stable_ms matches Some(ms) && now_ns < since_ns + 1000000 * ms) || (
        stable_ms is None && now_ns < since_ns + 300000000),
    ensures
        now_ns < 1000000 * asked ==> stable_poll(
            last,
            since_ns,
            dump,
            now_ns,
            stable_ms,
            timeout_ms,
        ) is None,
        now_ns >= 1000000 * asked ==> stable_poll(
            last,
            since_ns,
            dump,
            now_ns,
            stable_ms,
            timeout_ms,
        ) == Some(
            "TIMEOUT after "@ + text::dec(asked as nat) + "ms: "@ + "still changing"@ + "\n"@
                + session::dump_text(dump),
        ),
{
}

/// A screen that has been the same since some moment is stable once as many milliseconds
/// as asked for, or 300, have passed since.
pub proof fn stable_screens_are_reported(
    since_ns: u64,
    dump: ScreenDump,
    now_ns: u64,
    stable_ms: Option<u64>,
    timeout_ms: Option<u64>,
)
    requires
        since_ns <= now_ns,
        stable_ms matches Some(ms) ==> now_ns >= since_ns + 1000000 * ms,
        stable_ms is None ==> now_ns >= since_ns + 300000000,
    ensures
        stable_poll(dump.text@, since_ns, dump, now_ns, stable_ms, timeout_ms) == Some(
            "stable"@ + "\n"@ + session::dump_text(dump),
        ),
{
}

/// A reply carries as much of the screen as was asked for: nothing but the outcome, the
/// plain frame, or the drawn frame where it was taken; never another frame.
pub proof fn replies_carry_what_was_asked(outcome: Seq<char>, s: ScreenSample)
    ensures
        reply_text(outcome, WaitReturn::OutcomeOnly, s) == outcome,
        reply_text(outcome, WaitReturn::Text, s) == outcome + "\n"@ + session::dump_text(s.base),
        s.ansi matches Some(d) ==> reply_text(outcome, WaitReturn::Ansi, s) == outcome + "\n"@
            + session::dump_text(d),
        s.ansi is None ==> reply_text(outcome, WaitReturn::Ansi, s) == outcome + "\n"@
            + session::dump_text(s.base),
{
}

/// A screen seen for the first time later than now has not been the same for any time, and
/// is stable only where no time is asked for.
pub proof fn no_screen_is_stable_ahead_of_time(
    since_ns: u64,
    dump: ScreenDump,
    now_ns: u64,
    stable_ms: Option<u64>,
    timeout_ms: Option<u64>,
    asked: u64,
)
    requires
        timeout_ms == Some(asked) || (timeout_ms is None && asked == 5000),
        since_ns >= now_ns,
        now_ns < 1000000 * asked,
    ensures
        stable_poll(dump.text@, since_ns, dump, now_ns, stable_ms, timeout_ms) is Some
            <==> stable_ms == Some(0u64),
{
}

} // verus!
