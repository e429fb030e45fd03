//! Which build is answering: the identity of the running image.

use crate::text;
use vstd::prelude::*;

verus! {

/// A point in time: seconds since 1970 in UTC, and nanoseconds into the second.
#[derive(Clone, Copy, Debug, PartialEq, Eq, Structural)]
pub struct UnixTime {
    pub secs: i64,
    pub nanos: u32,
}

impl UnixTime {
    /// The nanoseconds do not make up a second.
    pub open spec fn wf(self) -> bool {
        self.nanos < 1000000000
    }

    /// Nanoseconds since 1970.
    pub open spec fn instant(self) -> int {
        1000000000 * self.secs + self.nanos
    }

    /// Whether the calendar reaches this far: from the year -262143 to the year
    /// 262142.
    pub open spec fn in_calendar(self) -> bool {
        -8334601228800 <= self.secs <= 8210266876799
    }

    /// Whether the calendar reaches this far.
    pub fn is_in_calendar(self) -> (b: bool)
        ensures
            b == self.in_calendar(),
    {
        -8334601228800 <= self.secs && self.secs <= 8210266876799
    }

    /// The time so many seconds and nanoseconds after 1970, or before it.
    pub fn from_epoch(before: bool, secs: u64, nanos: u32) -> (t: Self)
        requires
            secs < i64::MAX,
            nanos < 1000000000,
        ensures
            t.wf(),
            t.instant() == (if before {
                -(1000000000 * secs + nanos)
            } else {
                1000000000 * secs + nanos
            }),
    {
        let secs: i64 = secs as i64;
        if !before {
            UnixTime { secs, nanos }
        } else if nanos == 0 {
            UnixTime { secs: -secs, nanos: 0 }
        } else {
            UnixTime { secs: -secs - 1, nanos: 1000000000 - nanos }
        }
    }
}

/// A time in UTC as the calendar lays it out by a template.
pub uninterp spec fn utc_text(secs: int, nanos: int, layout: Seq<char>) -> Seq<char>;

/// `DateTime::<Utc>::from_timestamp`, `DateTime::format` and `to_string` of the
/// `chrono` crate. The time lies in the calendar, and the template is one that
/// the crate takes; which text comes out is left to the name.
#[verifier::external_body]
fn format_time(secs: i64, nanos: u32, layout: &str) -> (r: String)
    requires
        (UnixTime { secs, nanos }).wf(),
        (UnixTime { secs, nanos }).in_calendar(),
        layout@ == "%Y-%m-%d %H:%M:%S UTC"@,
    ensures
        r@ == utc_text(secs as int, nanos as int, layout@),
{
    let time = chrono::DateTime::<chrono::Utc>::from_timestamp(secs, nanos).unwrap();
    time.format(layout).to_string()
}

/// `2026-09-05 15:04:12 UTC`.
///
/// UTC rather than local time on purpose: this timestamp gets compared against
/// file listings, logs and other machines, and one that silently means
/// something different depending on where it is read is worse than one that
/// always means the same instant.
pub fn format_utc(t: UnixTime) -> (r: String)
    requires
        t.wf(),
        t.in_calendar(),
    ensures
        r@ == utc_text(t.secs as int, t.nanos as int, "%Y-%m-%d %H:%M:%S UTC"@),
{
    format_time(t.secs, t.nanos, "%Y-%m-%d %H:%M:%S UTC")
}

/// Whole seconds from one time to another, none where the other lies before it.
pub open spec fn seconds_between(past: UnixTime, now: UnixTime) -> nat {
    if now.instant() < past.instant() {
        0
    } else {
        ((now.instant() - past.instant()) / 1000000000) as nat
    }
}

/// A number of seconds as `1h02m03s` / `4m12s` / `7s`.
pub open spec fn duration_text(secs: nat) -> Seq<char> {
    let h = secs / 3600;
    let m = secs % 3600 / 60;
    let s = secs % 60;
    if h > 0 {
        text::dec(h) + "h"@ + text::pad_left(text::dec(m), 2, '0') + "m"@ + text::pad_left(
            text::dec(s),
            2,
            '0',
        ) + "s"@
    } else if m > 0 {
        text::dec(m) + "m"@ + text::pad_left(text::dec(s), 2, '0') + "s"@
    } else {
        text::dec(s) + "s"@
    }
}

/// How long ago `past` was, relative to `now`, as `1h02m03s` / `4m12s` / `7s`.
///
/// Shown next to the absolute timestamp because it answers a different
/// question: whether this image predates the last build, without the reader
/// doing arithmetic. A time in the future (clock skew, or a file whose
/// preserved timestamp came from a machine running fast) reads as `0s` rather
/// than failing: being off by seconds does not change that answer.
pub fn age_since(past: UnixTime, now: UnixTime) -> (r: String)
    requires
        past.wf(),
        now.wf(),
    ensures
        r@ == duration_text(seconds_between(past, now)),
{
    let later: i128 = 1000000000 * (now.secs as i128) + now.nanos as i128;
    let earlier: i128 = 1000000000 * (past.secs as i128) + past.nanos as i128;
    let secs: u64 = if later < earlier {
        0
    } else {
        ((later - earlier) as u128 / 1000000000) as u64
    };
    assert(secs == seconds_between(past, now));
    let h: u64 = secs / 3600;
    let m: u64 = secs % 3600 / 60;
    let s: u64 = secs % 60;
    let mut out = String::new();
    if h > 0 {
        text::push_dec(&mut out, h);
        out.append("h");
        text::push_padded(&mut out, m, 2, '0');
        out.append("m");
        text::push_padded(&mut out, s, 2, '0');
    } else if m > 0 {
        text::push_dec(&mut out, m);
        out.append("m");
        text::push_padded(&mut out, s, 2, '0');
    } else {
        text::push_dec(&mut out, s);
    }
    out.append("s");
    assert(out@ =~= duration_text(seconds_between(past, now)));
    out
}

/// A time and how long ago it was.
pub open spec fn stamp_text(t: UnixTime, now: UnixTime) -> Seq<char> {
    utc_text(t.secs as int, t.nanos as int, "%Y-%m-%d %H:%M:%S UTC"@) + " ("@ + duration_text(
        seconds_between(t, now),
    ) + " ago)"@
}

/// A time and how long ago it was, as `2026-09-05 15:04:12 UTC (7s ago)`.
pub fn stamp(t: UnixTime, now: UnixTime) -> (r: String)
    requires
        t.wf(),
        t.in_calendar(),
        now.wf(),
    ensures
        r@ == stamp_text(t, now),
{
    let mut out = format_utc(t);
    out.append(" (");
    out.append(age_since(t, now).as_str());
    out.append(" ago)");
    assert(out@ =~= stamp_text(t, now));
    out
}

/// The names of the features that are on.
pub open spec fn features_on(features: Seq<(&'static str, bool)>, n: nat) -> Seq<Seq<char>>
    decreases n,
{
    if n == 0 {
        Seq::empty()
    } else {
        let before = features_on(features, (n - 1) as nat);
        if features[n - 1].1 {
            before.push(features[n - 1].0@)
        } else {
            before
        }
    }
}

/// The features that are on, or `<none>`.
pub open spec fn features_text(features: Seq<(&'static str, bool)>) -> Seq<char> {
    let on = features_on(features, features.len());
    if on.len() == 0 {
        "<none>"@
    } else {
        text::joined(on, ", "@, on.len())
    }
}

/// The features that are on, as one line.
pub fn features_line(features: &[(&'static str, bool)]) -> (r: String)
    ensures
        r@ == features_text(features@),
{
    let mut on: Vec<String> = Vec::new();
    assert(text::views(on@) =~= Seq::<Seq<char>>::empty());
    let mut i: usize = 0;
    while i < features.len()
        invariant
            i <= features@.len(),
            text::views(on@) == features_on(features@, i as nat),
        decreases features.len() - i,
    {
        let ghost before = on@;
        if features[i].1 {
            on.push(features[i].0.to_string());
            assert(text::views(on@) =~= text::views(before).push(features@[i as int].0@));
        }
        i += 1;
    }
    if on.len() == 0 {
        "<none>".to_string()
    } else {
        text::join(on.as_slice(), ", ")
    }
}

/// What is known of the running image.
pub struct Image {
    /// Name and version of the server.
    pub version: String,
    /// The path of the executable, or why it cannot be had.
    pub path: Result<String, String>,
    /// When the file at that path was last written, where that can be read.
    pub modified: Option<UnixTime>,
    /// When the process was started.
    pub started: UnixTime,
    pub features: Vec<(&'static str, bool)>,
    pub arch: &'static str,
    pub os: &'static str,
    /// The C environment of the target.
    pub env: &'static str,
    pub family: &'static str,
    pub debug_assertions: bool,
    /// The version of the protocol.
    pub protocol: String,
}

/// The report on the running image.
pub open spec fn report_text(image: Image, now: UnixTime) -> Seq<char> {
    image.version@ + "\n  executable:       "@ + (match image.path {
        Ok(p) => p@,
        Err(e) => "<unavailable: "@ + e@ + ">"@,
    }) + "\n  binary mtime:     "@ + (match image.modified {
        Some(t) => stamp_text(t, now),
        None => "<unavailable>"@,
    }) + "\n  started:          "@ + stamp_text(image.started, now) + "\n  features:         "@
        + features_text(image.features@) + "\n  target:           "@ + image.arch@ + " "@ + image.os@
        + " ("@ + image.env@ + ")"@ + "\n  family:           "@ + image.family@
        + "\n  debug_assertions: "@ + (if image.debug_assertions {
        "on"@
    } else {
        "off"@
    }) + "\n  protocol:         MCP "@ + image.protocol@
}

/// Report the identity of the running image, so a caller can tell which build is
/// answering.
///
/// A server over stdio never hot-reloads: a rebuild replaces the file on disk
/// while the client keeps talking to the process it already spawned, so the
/// server answering can be older than the source with nothing in the source to
/// show it. The crate version does not settle it either, since that only moves at
/// release time. The running image does: its path, and the mtime of the file at
/// that path.
pub fn dev_info(image: &Image, now: UnixTime) -> (r: String)
    requires
        now.wf(),
        image.started.wf(),
        image.started.in_calendar(),
        image.modified matches Some(t) ==> t.wf() && t.in_calendar(),
    ensures
        r@ == report_text(*image, now),
{
    let mut out = image.version.clone();
    out.append("\n  executable:       ");
    match &image.path {
        Ok(p) => out.append(p.as_str()),
        Err(e) => out.append(text::framed("<unavailable: ", e.as_str(), ">").as_str()),
    }
    out.append("\n  binary mtime:     ");
    match image.modified {
        Some(t) => out.append(stamp(t, now).as_str()),
        None => out.append("<unavailable>"),
    }
    out.append("\n  started:          ");
    out.append(stamp(image.started, now).as_str());
    out.append("\n  features:         ");
    out.append(features_line(image.features.as_slice()).as_str());
    out.append("\n  target:           ");
    out.append(image.arch);
    out.append(" ");
    out.append(image.os);
    out.append(" (");
    out.append(image.env);
    out.append(")");
    out.append("\n  family:           ");
    out.append(image.family);
    out.append("\n  debug_assertions: ");
    if image.debug_assertions {
        out.append("on");
    } else {
        out.append("off");
    }
    out.append("\n  protocol:         MCP ");
    out.append(image.protocol.as_str());
    assert(out@ =~= report_text(*image, now));
    out
}

// ---- Laws -------------------------------------------------------------------

/// A time in the future reads as no age at all.
pub proof fn the_future_has_no_age(past: UnixTime, now: UnixTime)
    requires
        now.instant() <= past.instant(),
    ensures
        duration_text(seconds_between(past, now)) == text::dec(0) + "s"@,
{
}

/// An age is counted in whole seconds, none before they are over, and is not negative.
pub proof fn ages_are_whole_seconds(past: UnixTime, now: UnixTime)
    ensures
        past.instant() <= now.instant() ==> {
            let age = seconds_between(past, now);
            &&& 1000000000 * age <= now.instant() - past.instant()
            &&& now.instant() - past.instant() < 1000000000 * (age + 1)
        },
        now.instant() <= past.instant() ==> seconds_between(past, now) == 0,
        past.instant() == 1000000000 * past.secs + past.nanos,
{
}

/// Durations are told in hours, minutes and seconds, the largest first and in full, those
/// behind it with two digits each, and none of zero in front.
pub proof fn durations_are_told_in_parts(h: nat, m: nat, s: nat)
    requires
        m < 60,
        s < 60,
    ensures
        duration_text(s) == text::dec(s) + seq!['s'],
        m > 0 ==> duration_text(60 * m + s) == text::dec(m) + seq!['m'] + two_digits(s) + seq!['s'],
        h > 0 ==> duration_text(3600 * h + 60 * m + s) == text::dec(h) + seq!['h'] + two_digits(m)
            + seq!['m'] + two_digits(s) + seq!['s'],
{
    reveal_strlit("h");
    reveal_strlit("m");
    reveal_strlit("s");
    assert("h"@ =~= seq!['h']);
    assert("m"@ =~= seq!['m']);
    assert("s"@ =~= seq!['s']);
    lemma_two_digits(m);
    lemma_two_digits(s);
    let all = 3600 * h + 60 * m + s;
    assert(all / 3600 == h);
    assert(all % 3600 == 60 * m + s);
    assert((60 * m + s) / 60 == m);
    assert(all % 60 == s) by {
        assert(all == 60 * (60 * h + m) + s);
    }
    let less = 60 * m + s;
    assert(less / 3600 == 0);
    assert(less % 3600 == less);
    assert(less % 60 == s);
}

/// The two digits of a number below a hundred.
pub open spec fn two_digits(n: nat) -> Seq<char> {
    seq![(0x30 + n / 10) as char, (0x30 + n % 10) as char]
}

proof fn lemma_two_digits(n: nat)
    requires
        n < 60,
    ensures
        text::pad_left(text::dec(n), 2, '0') == two_digits(n),
{
    reveal_with_fuel(text::dec, 3);
    assert(text::pad_left(text::dec(n), 2, '0') =~= two_digits(n));
}

/// A feature is listed exactly where it is on, and without any the list says `<none>`.
pub proof fn features_are_listed_where_on(
    features: Seq<(&'static str, bool)>,
    n: nat,
    name: Seq<char>,
)
    requires
        n <= features.len(),
    ensures
        features_on(features, n).contains(name) <==> exists|i: int|
            0 <= i < n && (#[trigger] features[i]).1 && features[i].0@ == name,
        features_text(features) == (if features_on(features, features.len()).len() == 0 {
            "<none>"@
        } else {
            text::joined(
                features_on(features, features.len()),
                ", "@,
                features_on(features, features.len()).len(),
            )
        }),
    decreases n,
{
    if n > 0 {
        features_are_listed_where_on(features, (n - 1) as nat, name);
        let before = features_on(features, (n - 1) as nat);
        let now = features_on(features, n);
        if now.contains(name) {
            let i = choose|i: int| 0 <= i < now.len() && now[i] == name;
            if i < before.len() {
                assert(before[i] == name);
            } else {
                assert(features[n - 1].1 && features[n - 1].0@ == name);
            }
        }
        if before.contains(name) {
            let i = choose|i: int| 0 <= i < before.len() && before[i] == name;
            assert(now[i] == name);
        }
        if features[n - 1].1 && features[n - 1].0@ == name {
            assert(now[now.len() - 1] == name);
        }
    }
}

/// A time is told by the calendar and by how long ago it was.
pub proof fn stamps_tell_time_and_age(t: UnixTime, now: UnixTime)
    ensures
        stamp_text(t, now) == utc_text(
            t.secs as int,
            t.nanos as int,
            "%Y-%m-%d %H:%M:%S UTC"@,
        ) + " ("@ + duration_text(seconds_between(t, now)) + " ago)"@,
{
}

/// Each line of the report holds what its heading says.
pub proof fn reports_tell_each_part(image: Image, now: UnixTime)
    ensures
        ({
            let path = match image.path {
                Ok(p) => p@,
                Err(e) => "<unavailable: "@ + e@ + ">"@,
            };
            let mtime = match image.modified {
                Some(t) => stamp_text(t, now),
                None => "<unavailable>"@,
            };
            let checks = if image.debug_assertions {
                seq!['o', 'n']
            } else {
                seq!['o', 'f', 'f']
            };
            report_text(image, now) == image.version@ + "\n  executable:       "@ + path
                + "\n  binary mtime:     "@ + mtime + "\n  started:          "@ + stamp_text(
                image.started,
                now,
            ) + "\n  features:         "@ + features_text(image.features@)
                + "\n  target:           "@ + image.arch@ + " "@ + image.os@ + " ("@ + image.env@
                + ")"@ + "\n  family:           "@ + image.family@ + "\n  debug_assertions: "@
                + checks + "\n  protocol:         MCP "@ + image.protocol@
        }),
{
    reveal_strlit("on");
    reveal_strlit("off");
    assert("on"@ =~= seq!['o', 'n']);
    assert("off"@ =~= seq!['o', 'f', 'f']);
}

} // verus!
