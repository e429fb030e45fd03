//! Best-effort capture of OSC 8 hyperlinks from a terminal output stream.
//!
//! The `vt100` emulator does not model OSC 8 hyperlinks, so their URIs are lost
//! from the rendered screen. This tracker scans the raw byte stream for
//! `ESC ] 8 ; params ; URI ST` (open) and `ESC ] 8 ; ; ST` (close), records the
//! display text written between them, and keeps a bounded log of
//! `(display text, uri)` pairs. Positions are not tracked, so links are matched
//! back to the screen by display text at read time, and an entry is retired once
//! no on-screen occurrence of its text is left unclaimed by a newer entry.

use crate::text;
use vstd::prelude::*;

verus! {

pub const MAX_LINKS: usize = 128;

pub const MAX_TEXT: usize = 256;

pub const MAX_URI: usize = 4096;

pub const MAX_OSC: usize = 4160;

pub const MAX_SHOWN: usize = 32;

/// Bounded log of captured `(display text, uri)` pairs, oldest first.
pub type HyperlinkLog = Vec<(String, String)>;

/// A captured link: display text and URI.
pub type Link = (Seq<char>, Seq<char>);

/// The links of a log.
pub open spec fn link_views(log: Seq<(String, String)>) -> Seq<Link> {
    Seq::new(log.len(), |i: int| (log[i].0@, log[i].1@))
}

// ---- The scanner ------------------------------------------------------------

/// Where the scanner stands in the output stream.
#[derive(Clone, Copy, PartialEq, Eq, Structural)]
pub enum State {
    Normal,
    Esc,
    Csi,
    Osc,
    OscEsc,
}

/// What a tracker knows after some output: where it stands, the command that it
/// is collecting, the link that is open and the text written in it so far, and
/// the links captured before.
#[verifier::ext_equal]
pub struct TrackerModel {
    pub state: State,
    pub osc: Seq<u8>,
    pub uri: Option<Seq<char>>,
    pub display: Seq<u8>,
    pub log: Seq<Link>,
}

/// The log with one more link; the oldest goes when the log is full.
pub open spec fn logged(log: Seq<Link>, link: Link) -> Seq<Link> {
    if log.len() >= MAX_LINKS {
        log.skip(1).push(link)
    } else {
        log.push(link)
    }
}

/// The open link, if any, is closed, and logged where it has a visible text.
pub open spec fn link_closed(t: TrackerModel) -> TrackerModel {
    match t.uri {
        None => t,
        Some(uri) => {
            let shown = text::trimmed(text::utf8_lossy(t.display));
            TrackerModel {
                uri: None,
                display: Seq::empty(),
                log: if shown.len() == 0 {
                    t.log
                } else {
                    logged(t.log, (shown, uri))
                },
                ..t
            }
        },
    }
}

/// The index of the first occurrence of a byte, or the length where it does not
/// occur.
pub open spec fn position(s: Seq<u8>, b: u8) -> nat
    decreases s.len(),
{
    if s.len() == 0 || s[0] == b {
        0
    } else {
        1 + position(s.skip(1), b)
    }
}

/// The URI in an OSC body, where the body is `8 ; params ; URI`.
pub open spec fn osc8_uri(body: Seq<u8>) -> Option<Seq<u8>> {
    if body.len() >= 2 && body[0] == 0x38 && body[1] == 0x3b {
        let rest = body.skip(2);
        let sep = position(rest, 0x3b);
        if sep < rest.len() {
            Some(rest.skip(sep as int + 1))
        } else {
            None
        }
    } else {
        None
    }
}

/// The collected command is carried out: a URI opens a link, an empty one
/// closes it, and a command other than OSC 8 does nothing.
pub open spec fn osc_finished(t: TrackerModel) -> TrackerModel {
    let t0 = TrackerModel { osc: Seq::empty(), ..t };
    match osc8_uri(t.osc) {
        None => t0,
        Some(uri) => {
            if uri.len() == 0 {
                link_closed(t0)
            } else {
                let kept = if uri.len() < MAX_URI {
                    uri
                } else {
                    uri.take(MAX_URI as int)
                };
                TrackerModel {
                    uri: Some(text::utf8_lossy(kept)),
                    display: Seq::empty(),
                    ..link_closed(t0)
                }
            }
        },
    }
}

/// A byte outside any sequence: text of the open link, up to a limit.
pub open spec fn step_normal(t: TrackerModel, b: u8) -> TrackerModel {
    if b == 0x1b {
        TrackerModel { state: State::Esc, ..t }
    } else if t.uri is Some && b >= 0x20 && b != 0x7f && t.display.len() < MAX_TEXT {
        TrackerModel { display: t.display.push(b), ..t }
    } else {
        t
    }
}

/// What one byte of output changes.
pub open spec fn step(t: TrackerModel, b: u8) -> TrackerModel {
    match t.state {
        State::Normal => step_normal(t, b),
        State::Esc => {
            if b == 0x5b {
                TrackerModel { state: State::Csi, ..t }
            } else if b == 0x5d {
                TrackerModel { state: State::Osc, osc: Seq::empty(), ..t }
            } else {
                TrackerModel { state: State::Normal, ..t }
            }
        },
        State::Csi => {
            if 0x40 <= b <= 0x7e {
                TrackerModel { state: State::Normal, ..t }
            } else {
                t
            }
        },
        State::Osc => {
            if b == 0x07 {
                TrackerModel { state: State::Normal, ..osc_finished(t) }
            } else if b == 0x1b {
                TrackerModel { state: State::OscEsc, ..t }
            } else if t.osc.len() < MAX_OSC {
                TrackerModel { osc: t.osc.push(b), ..t }
            } else {
                t
            }
        },
        State::OscEsc => {
            let done = TrackerModel { state: State::Normal, ..osc_finished(t) };
            if b == 0x5c {
                done
            } else {
                step_normal(done, b)
            }
        },
    }
}

/// What a stretch of output changes.
pub open spec fn run(t: TrackerModel, data: Seq<u8>) -> TrackerModel
    decreases data.len(),
{
    if data.len() == 0 {
        t
    } else {
        step(run(t, data.drop_last()), data.last())
    }
}

/// The link that the next byte completes, if any: the open link, where the byte ends
/// a command that closes or replaces it and it has a visible text.
pub open spec fn step_completed(t: TrackerModel, b: u8) -> Seq<Link> {
    let shown = text::trimmed(text::utf8_lossy(t.display));
    let ends = t.state == State::OscEsc || (t.state == State::Osc && b == 0x07);
    if ends && osc8_uri(t.osc) is Some && t.uri is Some && shown.len() > 0 {
        seq![(shown, t.uri->0)]
    } else {
        Seq::empty()
    }
}

/// The links that a stretch of output completes, in order.
pub open spec fn completed(t: TrackerModel, data: Seq<u8>) -> Seq<Link>
    decreases data.len(),
{
    if data.len() == 0 {
        Seq::empty()
    } else {
        completed(t, data.drop_last()) + step_completed(run(t, data.drop_last()), data.last())
    }
}

/// The newest links of a list, as many as the log holds.
pub open spec fn newest(links: Seq<Link>) -> Seq<Link> {
    if links.len() > MAX_LINKS {
        links.skip(links.len() - MAX_LINKS)
    } else {
        links
    }
}

/// Whether the open link, if any, has a URI that is not empty.
pub open spec fn leads_somewhere(t: TrackerModel) -> bool {
    t.uri matches Some(uri) ==> uri.len() > 0
}

/// Whether no link has an empty URI.
pub open spec fn all_lead_somewhere(links: Seq<Link>) -> bool {
    forall|i: int| 0 <= i < links.len() ==> (#[trigger] links[i]).1.len() > 0
}

/// Streaming scanner that records OSC 8 hyperlinks into a [`HyperlinkLog`].
pub struct Osc8Tracker {
    log: HyperlinkLog,
    state: State,
    osc: Vec<u8>,
    current_uri: Option<String>,
    display: Vec<u8>,
}

impl View for Osc8Tracker {
    type V = TrackerModel;

    closed spec fn view(&self) -> TrackerModel {
        TrackerModel {
            state: self.state,
            osc: self.osc@,
            uri: match self.current_uri {
                Some(uri) => Some(uri@),
                None => None,
            },
            display: self.display@,
            log: link_views(self.log@),
        }
    }
}

impl Osc8Tracker {
    pub fn new(log: HyperlinkLog) -> (t: Self)
        ensures
            t@ == (TrackerModel {
                state: State::Normal,
                osc: Seq::empty(),
                uri: None,
                display: Seq::empty(),
                log: link_views(log@),
            }),
    {
        Osc8Tracker {
            log,
            state: State::Normal,
            osc: Vec::new(),
            current_uri: None,
            display: Vec::new(),
        }
    }

    /// The links captured so far.
    pub fn links(&self) -> (r: &HyperlinkLog)
        ensures
            link_views(r@) == self@.log,
    {
        &self.log
    }

    /// The footnote for a screen, see [`visible_footnote`]; links that the screen
    /// no longer shows leave the log.
    pub fn footnote(&mut self, plain_screen: &str) -> (r: Option<String>)
        ensures
            final(self)@ == (TrackerModel { log: visible(plain_screen@, old(self)@.log), ..old(self)@ }),
            r is Some <==> visible(plain_screen@, old(self)@.log).len() > 0,
            r is Some ==> r->0@ == footnote_text(visible(plain_screen@, old(self)@.log)),
    {
        visible_footnote(plain_screen, &mut self.log)
    }

    /// Feed a chunk of program output. No link is opened, or completed, without a
    /// URI.
    pub fn feed(&mut self, data: &[u8])
        ensures
            final(self)@ == run(old(self)@, data@),
            leads_somewhere(old(self)@) ==> leads_somewhere(final(self)@) && all_lead_somewhere(
                completed(old(self)@, data@),
            ),
    {
        let ghost start = self@;
        assert(data@.take(0) =~= Seq::<u8>::empty());
        let mut i: usize = 0;
        while i < data.len()
            invariant
                i <= data@.len(),
                self@ == run(start, data@.take(i as int)),
                leads_somewhere(start) ==> leads_somewhere(self@) && all_lead_somewhere(
                    completed(start, data@.take(i as int)),
                ),
            decreases data.len() - i,
        {
            let b = data[i];
            assert(data@.take(i + 1).drop_last() =~= data@.take(i as int));
            assert(data@.take(i + 1).last() == b);
            match self.state {
                State::Normal => self.on_normal(b),
                State::Esc => self.on_esc(b),
                State::Csi => {
                    if 0x40 <= b && b <= 0x7e {
                        self.state = State::Normal;
                    }
                },
                State::Osc => self.on_osc(b),
                State::OscEsc => {
                    self.finish_osc();
                    self.state = State::Normal;
                    if b != 0x5c {
                        self.on_normal(b);
                    }
                },
            }
            i += 1;
        }
        assert(data@.take(data@.len() as int) =~= data@);
    }

    fn on_normal(&mut self, b: u8)
        ensures
            final(self)@ == step_normal(old(self)@, b),
    {
        if b == 0x1b {
            self.state = State::Esc;
        } else if self.current_uri.is_some() && b >= 0x20 && b != 0x7f && self.display.len()
            < MAX_TEXT {
            self.display.push(b);
        }
    }

    fn on_esc(&mut self, b: u8)
        requires
            old(self)@.state == State::Esc,
        ensures
            final(self)@ == step(old(self)@, b),
    {
        if b == 0x5b {
            self.state = State::Csi;
        } else if b == 0x5d {
            self.state = State::Osc;
            self.osc.clear();
        } else {
            self.state = State::Normal;
        }
    }

    fn on_osc(&mut self, b: u8)
        requires
            old(self)@.state == State::Osc,
        ensures
            final(self)@ == step(old(self)@, b),
            leads_somewhere(old(self)@) ==> leads_somewhere(final(self)@),
    {
        if b == 0x07 {
            self.finish_osc();
            self.state = State::Normal;
        } else if b == 0x1b {
            self.state = State::OscEsc;
        } else if self.osc.len() < MAX_OSC {
            self.osc.push(b);
        }
    }

    fn finish_osc(&mut self)
        ensures
            final(self)@ == osc_finished(old(self)@),
            leads_somewhere(old(self)@) ==> leads_somewhere(final(self)@),
    {
        let mut body: Vec<u8> = Vec::new();
        std::mem::swap(&mut body, &mut self.osc);
        if body.len() < 2 || body[0] != 0x38 || body[1] != 0x3b {
            return ;
        }
        let rest = vstd::slice::slice_subrange(body.as_slice(), 2, body.len());
        assert(rest@ =~= body@.skip(2));
        let sep = find(rest, 0x3b);
        if sep == rest.len() {
            return ;
        }
        let uri = vstd::slice::slice_subrange(rest, sep + 1, rest.len());
        assert(uri@ =~= rest@.skip(sep as int + 1));
        self.close_link();
        if uri.len() > 0 {
            let end: usize = if uri.len() < MAX_URI {
                uri.len()
            } else {
                MAX_URI
            };
            let kept = vstd::slice::slice_subrange(uri, 0, end);
            assert(kept@ =~= (if uri@.len() < MAX_URI {
                uri@
            } else {
                uri@.take(MAX_URI as int)
            }));
            self.current_uri = Some(text::from_utf8_lossy(kept));
            self.display.clear();
        }
    }

    fn close_link(&mut self)
        ensures
            final(self)@ == link_closed(old(self)@),
    {
        let mut open: Option<String> = None;
        std::mem::swap(&mut open, &mut self.current_uri);
        let uri = match open {
            Some(uri) => uri,
            None => {
                return ;
            },
        };
        let raw = text::from_utf8_lossy(self.display.as_slice());
        let shown = text::trim(raw.as_str());
        self.display.clear();
        let chars = text::chars_of(shown.as_str());
        if chars.len() == 0 {
            return ;
        }
        let ghost before = self.log@;
        if self.log.len() >= MAX_LINKS {
            let _ = self.log.remove(0);
            assert(link_views(self.log@) =~= link_views(before).skip(1));
        }
        let ghost room = self.log@;
        self.log.push((shown, uri));
        assert(link_views(self.log@) =~= link_views(room).push((shown@, uri@)));
    }
}

fn find(s: &[u8], b: u8) -> (n: usize)
    ensures
        n == position(s@, b),
        n <= s@.len(),
{
    let mut i: usize = 0;
    assert(s@.skip(0) =~= s@);
    while i < s.len() && s[i] != b
        invariant
            i <= s@.len(),
            position(s@, b) == i + position(s@.skip(i as int), b),
        decreases s.len() - i,
    {
        assert(s@.skip(i as int).skip(1) =~= s@.skip(i + 1));
        i += 1;
    }
    i
}

// ---- The footnote -----------------------------------------------------------

/// How many links have a display text.
pub open spec fn with_text(links: Seq<Link>, t: Seq<char>) -> nat
    decreases links.len(),
{
    if links.len() == 0 {
        0
    } else {
        with_text(links.skip(1), t) + (if links[0].0 == t {
            1nat
        } else {
            0nat
        })
    }
}

/// The links that a screen still shows, oldest first. A link stays while it and
/// the newer links of the same text are no more than the occurrences of that
/// text on the screen.
pub open spec fn visible(screen: Seq<char>, links: Seq<Link>) -> Seq<Link>
    decreases links.len(),
{
    if links.len() == 0 {
        links
    } else if with_text(links, links[0].0) <= text::occurrences(screen, links[0].0) {
        seq![links[0]] + visible(screen, links.skip(1))
    } else {
        visible(screen, links.skip(1))
    }
}

/// One line of the footnote.
pub open spec fn footnote_line(link: Link) -> Seq<char> {
    "  ["@ + link.0 + "] -> "@ + link.1 + "\n"@
}

/// The lines of the first `n` links.
pub open spec fn footnote_lines(links: Seq<Link>, n: nat) -> Seq<char>
    decreases n,
{
    if n == 0 {
        Seq::empty()
    } else {
        footnote_lines(links, (n - 1) as nat) + footnote_line(links[n - 1])
    }
}

/// The footnote on a list of links: a heading, a line for each of the first
/// ones, and a line that counts the others.
pub open spec fn footnote_text(links: Seq<Link>) -> Seq<char> {
    if links.len() <= MAX_SHOWN {
        "Hyperlinks:\n"@ + footnote_lines(links, links.len())
    } else {
        "Hyperlinks:\n"@ + footnote_lines(links, MAX_SHOWN as nat) + "  ... "@ + text::dec(
            (links.len() - MAX_SHOWN) as nat,
        ) + " more not shown\n"@
    }
}

/// The entry of a text in a list of budgets.
fn budget_of(budget: &Vec<(String, usize)>, t: &str) -> (r: Option<usize>)
    ensures
        r matches Some(i) ==> i < budget@.len() && budget@[i as int].0@ == t@,
        r is None ==> forall|i: int| 0 <= i < budget@.len() ==> (#[trigger] budget@[i]).0@ != t@,
{
    let mut i: usize = 0;
    while i < budget.len()
        invariant
            i <= budget@.len(),
            forall|j: int| 0 <= j < i ==> (#[trigger] budget@[j]).0@ != t@,
        decreases budget.len() - i,
    {
        if text::str_eq(budget[i].0.as_str(), t) {
            return Some(i);
        }
        i += 1;
    }
    None
}

/// What is left of a text's budget when `used` of at most `cap` occurrences are
/// claimed.
spec fn budget_left(screen: Seq<char>, t: Seq<char>, cap: nat, used: nat) -> int {
    let occ = text::occurrences(screen, t);
    let all = if occ < cap {
        occ
    } else {
        cap
    };
    if used < all {
        all - used
    } else {
        0
    }
}

spec fn budget_ok(
    budget: Seq<(String, usize)>,
    screen: Seq<char>,
    cap: nat,
    newer: Seq<Link>,
) -> bool {
    &&& forall|i: int|
        0 <= i < budget.len() ==> (#[trigger] budget[i]).1 == budget_left(
            screen,
            budget[i].0@,
            cap,
            with_text(newer, budget[i].0@),
        )
    &&& forall|i: int, j: int|
        0 <= i < j < budget.len() ==> (#[trigger] budget[i]).0@ != (#[trigger] budget[j]).0@
    &&& forall|t: Seq<char>|
        #[trigger] with_text(newer, t) > 0 ==> exists|i: int|
            0 <= i < budget.len() && (#[trigger] budget[i]).0@ == t
}

proof fn lemma_with_text_bounded(links: Seq<Link>, t: Seq<char>)
    ensures
        with_text(links, t) <= links.len(),
    decreases links.len(),
{
    if links.len() > 0 {
        lemma_with_text_bounded(links.skip(1), t);
    }
}

/// Build a footnote listing the logged links whose display text appears in `plain_screen`, at most
/// `MAX_SHOWN` of them; `None` if none are visible.
///
/// As a side effect, `links` is pruned: each display text keeps at most as many entries as it has
/// occurrences on screen, newest first, so a relinked label resolves to the URI drawn last, while
/// a table with one `view` link per row keeps every row. Pruning exists because matching is by
/// substring: a scrolled-away entry would otherwise resurface whenever later plain text repeats
/// its words, reporting a URI that is no longer on screen. Entries past `MAX_SHOWN` stay in the
/// log (still visible); only the listing is capped, and a trailing line says how many it hid.
pub fn visible_footnote(plain_screen: &str, links: &mut Vec<(String, String)>) -> (r: Option<
    String,
>)
    ensures
        link_views(final(links)@) == visible(plain_screen@, link_views(old(links)@)),
        r is Some <==> visible(plain_screen@, link_views(old(links)@)).len() > 0,
        r is Some ==> r->0@ == footnote_text(visible(plain_screen@, link_views(old(links)@))),
{
    prune(plain_screen, links);
    if links.len() == 0 {
        return None;
    }
    let ghost all = link_views(links@);
    let mut footnote = String::new();
    footnote.append("Hyperlinks:\n");
    assert(footnote@ =~= "Hyperlinks:\n"@ + footnote_lines(all, 0));
    let shown: usize = if links.len() < MAX_SHOWN {
        links.len()
    } else {
        MAX_SHOWN
    };
    let mut i: usize = 0;
    while i < shown
        invariant
            i <= shown <= links@.len(),
            all == link_views(links@),
            footnote@ == "Hyperlinks:\n"@ + footnote_lines(all, i as nat),
        decreases shown - i,
    {
        let ghost before = footnote@;
        footnote.append("  [");
        footnote.append(links[i].0.as_str());
        footnote.append("] -> ");
        footnote.append(links[i].1.as_str());
        footnote.append("\n");
        assert(footnote@ =~= before + footnote_line(all[i as int]));
        i += 1;
        assert(footnote@ =~= "Hyperlinks:\n"@ + footnote_lines(all, i as nat));
    }
    if links.len() > MAX_SHOWN {
        let hidden: usize = links.len() - MAX_SHOWN;
        footnote.append("  ... ");
        text::push_dec(&mut footnote, hidden as u64);
        footnote.append(" more not shown\n");
    }
    assert(footnote@ =~= footnote_text(all));
    Some(footnote)
}

/// Drops the links that a screen no longer shows.
fn prune(plain_screen: &str, links: &mut Vec<(String, String)>)
    ensures
        link_views(final(links)@) == visible(plain_screen@, link_views(old(links)@)),
{
    // Walking back to front makes "newest" available, since the log is appended
    // oldest first. The budget is kept per distinct text, so the screen is
    // scanned once per label rather than once per entry.
    let screen = text::chars_of(plain_screen);
    let ghost all = link_views(links@);
    let cap: usize = links.len();
    let mut budget: Vec<(String, usize)> = Vec::new();
    let mut kept: Vec<(String, String)> = Vec::new();
    assert(all.skip(all.len() as int) =~= Seq::<Link>::empty());
    assert(all.take(all.len() as int) =~= all);
    assert(link_views(kept@).reverse() =~= Seq::<Link>::empty());
    while links.len() > 0
        invariant
            screen@ == plain_screen@,
            cap == all.len(),
            links@.len() <= all.len(),
            link_views(links@) == all.take(links@.len() as int),
            link_views(kept@).reverse() == visible(plain_screen@, all.skip(links@.len() as int)),
            budget_ok(
                budget@,
                plain_screen@,
                cap as nat,
                all.skip(links@.len() as int),
            ),
        decreases links@.len(),
    {
        let ghost n = links@.len() as int;
        let ghost newer = all.skip(n);
        let ghost these = all.skip(n - 1);
        let ghost link = all[n - 1];
        let ghost views = link_views(links@);
        let (label, uri) = match links.pop() {
            Some(last) => last,
            None => {
                return ;
            },
        };
        assert(views[n - 1] == (label@, uri@));
        assert(link == (label@, uri@));
        assert(link_views(links@) =~= all.take(n - 1));
        assert(these.skip(1) =~= newer);
        assert(these[0] == link);
        proof {
            lemma_with_text_bounded(newer, label@);
        }
        let ghost claimed = with_text(newer, label@);
        let at: usize = match budget_of(&budget, label.as_str()) {
            Some(at) => at,
            None => {
                let t = text::chars_of(label.as_str());
                let slots = text::count_occurrences(screen.as_slice(), t.as_slice(), cap);
                let ghost before = budget@;
                assert(claimed == 0);
                let at: usize = budget.len();
                budget.push((label.clone(), slots));
                proof {
                    assert forall|u: Seq<char>| #[trigger] with_text(newer, u) > 0 implies exists|
                        i: int,
                    |
                        0 <= i < budget@.len() && (#[trigger] budget@[i]).0@ == u by {
                        let i = choose|i: int|
                            0 <= i < before.len() && (#[trigger] before[i]).0@ == u;
                        assert(budget@[i].0@ == u);
                    }
                }
                at
            },
        };
        let ghost before = budget@;
        assert(budget_ok(before, plain_screen@, cap as nat, newer));
        assert(before[at as int].0@ == label@);
        let slots: usize = budget[at].1;
        assert(slots == budget_left(plain_screen@, label@, cap as nat, claimed));
        let ghost kept_before = link_views(kept@);
        if slots > 0 {
            budget[at].1 = slots - 1;
            kept.push((label, uri));
            assert(link_views(kept@) =~= kept_before.push(link));
            assert(link_views(kept@).reverse() =~= seq![link] + kept_before.reverse());
        }
        proof {
            assert forall|i: int| 0 <= i < budget@.len() implies (#[trigger] budget@[i]).1
                == budget_left(
                plain_screen@,
                budget@[i].0@,
                cap as nat,
                with_text(these, budget@[i].0@),
            ) by {
                assert(before[i].0@ == budget@[i].0@);
                if i != at {
                    assert(before[i].0@ != before[at as int].0@);
                }
            }
            assert forall|i: int, j: int| 0 <= i < j < budget@.len() implies (
            #[trigger] budget@[i]).0@ != (#[trigger] budget@[j]).0@ by {
                assert(before[i].0@ == budget@[i].0@);
                assert(before[j].0@ == budget@[j].0@);
            }
            assert forall|t: Seq<char>| #[trigger] with_text(these, t) > 0 implies exists|i: int|
                0 <= i < budget@.len() && (#[trigger] budget@[i]).0@ == t by {
                if t == label@ {
                    assert(budget@[at as int].0@ == t);
                } else {
                    assert(with_text(newer, t) > 0);
                    let i = choose|i: int| 0 <= i < before.len() && (#[trigger] before[i]).0@ == t;
                    assert(budget@[i].0@ == t);
                }
            }
        }
    }
    let ghost result = link_views(kept@).reverse();
    assert(all.skip(0) =~= all);
    let ghost whole = link_views(kept@);
    assert(link_views(links@) =~= Seq::<Link>::empty());
    assert(whole.skip(kept@.len() as int).reverse() =~= Seq::<Link>::empty());
    while kept.len() > 0
        invariant
            kept@.len() <= whole.len(),
            link_views(kept@) == whole.take(kept@.len() as int),
            link_views(links@) == whole.skip(kept@.len() as int).reverse(),
        decreases kept@.len(),
    {
        let ghost n = kept@.len() as int;
        let ghost views = link_views(kept@);
        let ghost done = link_views(links@);
        let last = match kept.pop() {
            Some(last) => last,
            None => {
                return ;
            },
        };
        assert(views[n - 1] == (last.0@, last.1@));
        assert(link_views(kept@) =~= whole.take(n - 1));
        links.push(last);
        assert(link_views(links@) =~= done.push((last.0@, last.1@)));
        assert(whole.skip(n - 1).reverse() =~= whole.skip(n).reverse().push(whole[n - 1]));
    }
    assert(whole.skip(0) =~= whole);
}

// ---- Laws -------------------------------------------------------------------

/// How output is cut into chunks does not matter.
pub proof fn chunks_do_not_matter(t: TrackerModel, a: Seq<u8>, b: Seq<u8>)
    ensures
        run(t, a + b) == run(run(t, a), b),
    decreases b.len(),
{
    if b.len() == 0 {
        assert(a + b =~= a);
    } else {
        assert((a + b).drop_last() =~= a + b.drop_last());
        chunks_do_not_matter(t, a, b.drop_last());
    }
}

/// Whether a tracker is within all its limits.
pub open spec fn bounded(t: TrackerModel) -> bool {
    &&& t.log.len() <= MAX_LINKS
    &&& t.display.len() <= MAX_TEXT
    &&& t.osc.len() <= MAX_OSC
}

/// A tracker stays within its limits, whatever a program writes.
pub proof fn tracker_stays_bounded(t: TrackerModel, data: Seq<u8>)
    requires
        bounded(t),
    ensures
        bounded(run(t, data)),
    decreases data.len(),
{
    if data.len() > 0 {
        tracker_stays_bounded(t, data.drop_last());
    }
}

/// The log is bounded and loses only its oldest links: after any output it holds the
/// newest of the links that it held before, followed by those that the output
/// completed. Each of these has a visible text, without whitespace around it.
pub proof fn the_log_keeps_the_newest(t: TrackerModel, data: Seq<u8>)
    requires
        t.log.len() <= MAX_LINKS,
    ensures
        run(t, data).log == newest(t.log + completed(t, data)),
        forall|i: int|
            0 <= i < completed(t, data).len() ==> {
                let label = (#[trigger] completed(t, data)[i]).0;
                label.len() > 0 && text::trimmed(label) == label
            },
    decreases data.len(),
{
    let done = completed(t, data);
    if data.len() == 0 {
        assert(t.log + done =~= t.log);
    } else {
        let init = data.drop_last();
        let mid = run(t, init);
        let earlier = completed(t, init);
        let more = step_completed(mid, data.last());
        the_log_keeps_the_newest(t, init);
        assert(t.log + done =~= (t.log + earlier) + more);
        if more.len() == 0 {
            assert(t.log + done =~= t.log + earlier);
            assert(run(t, data).log =~= mid.log);
        } else {
            assert(run(t, data).log == logged(mid.log, more[0]));
            assert(run(t, data).log =~= newest(t.log + done));
            text::trimming_is_idempotent(text::utf8_lossy(mid.display));
        }
        assert forall|i: int| 0 <= i < done.len() implies {
            let label = (#[trigger] done[i]).0;
            label.len() > 0 && text::trimmed(label) == label
        } by {
            if i < earlier.len() {
                assert(done[i] == earlier[i]);
            } else {
                assert(done[i] == more[i - earlier.len()]);
            }
        }
    }
}

/// Bytes that can stand inside an OSC command: none ends it.
pub open spec fn stays_in_osc(s: Seq<u8>) -> bool {
    forall|i: int| 0 <= i < s.len() ==> #[trigger] s[i] != 0x07 && s[i] != 0x1b
}

/// Bytes that are display text: none is a control character.
pub open spec fn is_display(s: Seq<u8>) -> bool {
    forall|i: int| 0 <= i < s.len() ==> #[trigger] s[i] >= 0x20 && s[i] != 0x7f
}

/// The two ways to end an OSC command, BEL and `ESC \`.
pub open spec fn is_terminator(s: Seq<u8>) -> bool {
    s == seq![0x07u8] || s == seq![0x1bu8, 0x5c]
}

/// The command that opens a link, or with an empty URI closes it.
pub open spec fn osc8_command(params: Seq<u8>, uri: Seq<u8>, end: Seq<u8>) -> Seq<u8> {
    seq![0x1bu8, 0x5d] + osc8_body(params, uri) + end
}

/// `8 ; params ; URI`.
pub open spec fn osc8_body(params: Seq<u8>, uri: Seq<u8>) -> Seq<u8> {
    seq![0x38u8, 0x3b] + params + seq![0x3bu8] + uri
}

/// A command is carried out once it is terminated, by BEL or by `ESC \`.
pub proof fn terminated_commands_are_carried_out(t: TrackerModel, body: Seq<u8>, end: Seq<u8>)
    requires
        t.state == State::Normal,
        stays_in_osc(body),
        body.len() <= MAX_OSC,
        is_terminator(end),
    ensures
        run(t, seq![0x1bu8, 0x5d] + body + end) == osc_finished(TrackerModel { osc: body, ..t }),
{
    let lead = seq![0x1bu8, 0x5d];
    let open = TrackerModel { state: State::Osc, osc: Seq::empty(), ..t };
    reveal_with_fuel(run, 3);
    assert(lead.drop_last() =~= seq![0x1bu8]);
    assert(seq![0x1bu8].drop_last() =~= Seq::<u8>::empty());
    assert(run(t, lead) =~= open);
    lemma_osc_is_collected(open, body);
    chunks_do_not_matter(t, lead, body);
    let full = TrackerModel { state: State::Osc, osc: body, ..t };
    assert(run(t, lead + body) =~= full);
    chunks_do_not_matter(t, lead + body, end);
    if end == seq![0x07u8] {
        assert(end.drop_last() =~= Seq::<u8>::empty());
    } else {
        assert(end.drop_last() =~= seq![0x1bu8]);
        assert(run(full, seq![0x1bu8]) == (TrackerModel { state: State::OscEsc, ..full }));
    }
    assert(run(full, end) =~= osc_finished(TrackerModel { osc: body, ..t }));
}

proof fn lemma_osc_is_collected(t: TrackerModel, body: Seq<u8>)
    requires
        t.state == State::Osc,
        t.osc == Seq::<u8>::empty(),
        stays_in_osc(body),
        body.len() <= MAX_OSC,
    ensures
        run(t, body) == (TrackerModel { osc: body, ..t }),
    decreases body.len(),
{
    if body.len() == 0 {
        assert(body =~= Seq::<u8>::empty());
    } else {
        let init = body.drop_last();
        assert(stays_in_osc(init)) by {
            assert forall|i: int| 0 <= i < init.len() implies #[trigger] init[i] != 0x07 && init[i]
                != 0x1b by {
                assert(init[i] == body[i]);
            }
        }
        lemma_osc_is_collected(t, init);
        assert(body[body.len() - 1] != 0x07);
        assert(init.push(body.last()) =~= body);
    }
}

proof fn lemma_display_is_collected(t: TrackerModel, s: Seq<u8>)
    requires
        t.state == State::Normal,
        t.uri is Some,
        is_display(s),
        t.display.len() + s.len() <= MAX_TEXT,
    ensures
        run(t, s) == (TrackerModel { display: t.display + s, ..t }),
    decreases s.len(),
{
    if s.len() == 0 {
        assert(t.display + s =~= t.display);
    } else {
        let init = s.drop_last();
        assert(is_display(init)) by {
            assert forall|i: int| 0 <= i < init.len() implies #[trigger] init[i] >= 0x20 && init[i]
                != 0x7f by {
                assert(init[i] == s[i]);
            }
        }
        lemma_display_is_collected(t, init);
        assert(s[s.len() - 1] >= 0x20);
        assert((t.display + init).push(s.last()) =~= t.display + s);
    }
}

proof fn lemma_position(params: Seq<u8>, rest: Seq<u8>, b: u8)
    requires
        !params.contains(b),
        rest.len() > 0,
        rest[0] == b,
    ensures
        position(params + rest, b) == params.len(),
    decreases params.len(),
{
    let s = params + rest;
    if params.len() == 0 {
        assert(s =~= rest);
    } else {
        let tail = params.skip(1);
        assert(params.contains(params[0]));
        assert(s[0] == params[0]);
        assert forall|c: u8| tail.contains(c) implies params.contains(c) by {
            let i = choose|i: int| 0 <= i < tail.len() && tail[i] == c;
            assert(params[i + 1] == c);
        }
        lemma_position(tail, rest, b);
        assert(s.skip(1) =~= tail + rest);
    }
}

/// The URI of an `8 ; params ; URI` body is what stands behind the parameters.
pub proof fn body_gives_its_uri(params: Seq<u8>, uri: Seq<u8>)
    requires
        !params.contains(0x3bu8),
    ensures
        osc8_uri(osc8_body(params, uri)) == Some(uri),
{
    let body = osc8_body(params, uri);
    let rest = params + (seq![0x3bu8] + uri);
    assert(body.skip(2) =~= rest);
    lemma_position(params, seq![0x3bu8] + uri, 0x3b);
    assert(rest.skip(params.len() as int + 1) =~= uri);
}

/// A program that writes a link, its text and the end of the link leaves that
/// text and that URI as the newest entry of the log.
pub proof fn written_links_are_captured(
    t: TrackerModel,
    params: Seq<u8>,
    uri: Seq<u8>,
    shown: Seq<u8>,
    end: Seq<u8>,
)
    requires
        t.state == State::Normal,
        t.uri is None,
        !params.contains(0x3bu8),
        stays_in_osc(params),
        stays_in_osc(uri),
        0 < uri.len() <= MAX_URI,
        params.len() + uri.len() + 3 <= MAX_OSC,
        is_display(shown),
        shown.len() <= MAX_TEXT,
        is_terminator(end),
        text::trimmed(text::utf8_lossy(shown)).len() > 0,
    ensures
        run(
            t,
            osc8_command(params, uri, end) + shown + osc8_command(Seq::empty(), Seq::empty(), end),
        ) == (TrackerModel {
            osc: Seq::empty(),
            display: Seq::empty(),
            log: logged(
                t.log,
                (text::trimmed(text::utf8_lossy(shown)), text::utf8_lossy(uri)),
            ),
            ..t
        }),
{
    let none = Seq::<u8>::empty();
    let opening = osc8_body(params, uri);
    let closing = osc8_body(none, none);
    assert(stays_in_osc(opening)) by {
        assert forall|i: int| 0 <= i < opening.len() implies #[trigger] opening[i] != 0x07
            && opening[i] != 0x1b by {
            if 2 <= i < 2 + params.len() {
                assert(opening[i] == params[i - 2]);
            } else if i > 2 + params.len() {
                assert(opening[i] == uri[i - 3 - params.len()]);
            }
        }
    }
    body_gives_its_uri(params, uri);
    body_gives_its_uri(none, none);
    terminated_commands_are_carried_out(t, opening, end);
    let t1 = run(t, osc8_command(params, uri, end));
    if uri.len() == MAX_URI {
        assert(uri.take(MAX_URI as int) =~= uri);
    }
    assert(t1 =~= (TrackerModel {
        osc: none,
        uri: Some(text::utf8_lossy(uri)),
        display: none,
        ..t
    }));
    lemma_display_is_collected(t1, shown);
    assert(none + shown =~= shown);
    let t2 = TrackerModel { display: shown, ..t1 };
    chunks_do_not_matter(t, osc8_command(params, uri, end), shown);
    terminated_commands_are_carried_out(t2, closing, end);
    chunks_do_not_matter(
        t,
        osc8_command(params, uri, end) + shown,
        osc8_command(none, none, end),
    );
    assert(osc8_command(none, none, end) == seq![0x1bu8, 0x5d] + closing + end);
}

/// Each text keeps as many links as it has occurrences on the screen, or all of
/// them where it has more occurrences than links.
pub proof fn one_link_per_occurrence(screen: Seq<char>, links: Seq<Link>, t: Seq<char>)
    ensures
        with_text(visible(screen, links), t) == (if with_text(links, t) <= text::occurrences(
            screen,
            t,
        ) {
            with_text(links, t)
        } else {
            text::occurrences(screen, t)
        }),
    decreases links.len(),
{
    if links.len() > 0 {
        let rest = links.skip(1);
        one_link_per_occurrence(screen, rest, t);
        let vis = visible(screen, links);
        if with_text(links, links[0].0) <= text::occurrences(screen, links[0].0) {
            assert(vis.skip(1) =~= visible(screen, rest));
            assert(vis[0] == links[0]);
        }
    }
}

/// Pruning twice for one screen is pruning once.
pub proof fn pruning_is_idempotent(screen: Seq<char>, links: Seq<Link>)
    ensures
        visible(screen, visible(screen, links)) == visible(screen, links),
    decreases links.len(),
{
    if links.len() > 0 {
        let rest = links.skip(1);
        pruning_is_idempotent(screen, rest);
        let vis = visible(screen, links);
        if with_text(links, links[0].0) <= text::occurrences(screen, links[0].0) {
            assert(vis.skip(1) =~= visible(screen, rest));
            assert(vis[0] == links[0]);
            one_link_per_occurrence(screen, links, links[0].0);
        }
    }
}

/// A link whose text is not on the screen is retired, and no later screen brings
/// it back.
pub proof fn retired_links_do_not_resurface(
    screen: Seq<char>,
    later: Seq<char>,
    links: Seq<Link>,
    t: Seq<char>,
)
    requires
        !text::contains_text(screen, t),
    ensures
        with_text(visible(screen, links), t) == 0,
        with_text(visible(later, visible(screen, links)), t) == 0,
{
    text::occurring_is_counted(screen, t);
    one_link_per_occurrence(screen, links, t);
    one_link_per_occurrence(later, visible(screen, links), t);
}

/// Newer links are kept or dropped without regard to older ones, and those kept
/// stay in the order of the log: what survives of a log ends in what survives of
/// its newer part.
pub proof fn newer_links_ignore_older_ones(screen: Seq<char>, older: Seq<Link>, newer: Seq<Link>)
    ensures
        visible(screen, newer).is_suffix_of(visible(screen, older + newer)),
    decreases older.len(),
{
    let all = older + newer;
    if older.len() == 0 {
        assert(all =~= newer);
    } else {
        newer_links_ignore_older_ones(screen, older.skip(1), newer);
        assert(all.skip(1) =~= older.skip(1) + newer);
        let rest = visible(screen, all.skip(1));
        let end = visible(screen, newer);
        let vis = visible(screen, all);
        let from = rest.len() - end.len();
        assert(rest.subrange(from, rest.len() as int) =~= end);
        assert(vis.subrange(vis.len() - end.len(), vis.len() as int) =~= end);
    }
}

/// Where every text has room on the screen, nothing is dropped.
pub proof fn links_with_room_are_all_kept(screen: Seq<char>, links: Seq<Link>)
    requires
        forall|t: Seq<char>| #[trigger] with_text(links, t) <= text::occurrences(screen, t),
    ensures
        visible(screen, links) == links,
    decreases links.len(),
{
    if links.len() > 0 {
        assert forall|t: Seq<char>| #[trigger]
            with_text(links.skip(1), t) <= text::occurrences(screen, t) by {
            assert(with_text(links, t) <= text::occurrences(screen, t));
        }
        links_with_room_are_all_kept(screen, links.skip(1));
        assert(with_text(links, links[0].0) <= text::occurrences(screen, links[0].0));
        assert(seq![links[0]] + links.skip(1) =~= links);
    }
}

/// The limits: 128 links in the log, 32 of them in a footnote, 256 bytes of text and 4096
/// bytes of URI for a link, and 4160 bytes of a command. A full log loses its oldest link
/// to a new one, and one with room loses none.
pub proof fn limits_are_fixed(log: Seq<Link>, link: Link)
    ensures
        MAX_LINKS == 128,
        MAX_SHOWN == 32,
        MAX_TEXT == 256,
        MAX_URI == 4096,
        MAX_OSC == 4160,
        log.len() < 128 ==> logged(log, link) == log.push(link),
        log.len() == 128 ==> logged(log, link) == log.subrange(1, 128).push(link),
        newest(log) == (if log.len() > 128 {
            log.subrange(log.len() - 128, log.len() as int)
        } else {
            log
        }),
{
    if log.len() == 128 {
        assert(log.skip(1) =~= log.subrange(1, 128));
    }
    if log.len() > 128 {
        assert(newest(log) =~= log.subrange(log.len() - 128, log.len() as int));
    }
}

/// Text is collected for an open link up to 256 bytes, and what is longer is cut there.
/// Control characters are no text, and without an open link nothing is collected.
pub proof fn link_text_is_what_was_written(t: TrackerModel, s: Seq<u8>, b: u8)
    requires
        t.state == State::Normal,
        t.display.len() <= 256,
        is_display(s),
    ensures
        t.uri is Some ==> run(t, s) == (TrackerModel {
            display: if t.display.len() + s.len() <= 256 {
                t.display + s
            } else {
                (t.display + s).take(256)
            },
            ..t
        }),
        t.uri is None ==> run(t, s) == t,
        (b < 0x20 && b != 0x1b) || b == 0x7f ==> run(t, seq![b]) == t,
    decreases s.len(),
{
    reveal_with_fuel(run, 2);
    assert(seq![b].drop_last() =~= Seq::<u8>::empty());
    if s.len() == 0 {
        assert(t.display + s =~= t.display);
    } else {
        let init = s.drop_last();
        assert forall|i: int| 0 <= i < init.len() implies #[trigger] init[i] >= 0x20 && init[i]
            != 0x7f by {
            assert(init[i] == s[i]);
        }
        link_text_is_what_was_written(t, init, b);
        assert(s[s.len() - 1] >= 0x20 && s[s.len() - 1] != 0x7f);
        let all = t.display + s;
        if t.uri is Some {
            if all.len() <= 256 {
                assert((t.display + init).push(s.last()) =~= all);
            } else if all.len() == 257 {
                assert((t.display + init) =~= all.take(256));
            } else {
                assert((t.display + init).take(256) =~= all.take(256));
            }
            assert(run(t, s) =~= (TrackerModel {
                display: if all.len() <= 256 {
                    all
                } else {
                    all.take(256)
                },
                ..t
            }));
        }
    }
}

/// Escape sequences that a program writes inside a link, for its color say, are no part of
/// the link's text: after a control sequence, or an ESC with any byte but `[` and `]`,
/// everything is as before.
pub proof fn escape_sequences_are_no_text(t: TrackerModel, body: Seq<u8>, end: u8, b: u8)
    requires
        t.state == State::Normal,
        forall|i: int| 0 <= i < body.len() ==> #[trigger] body[i] < 0x40 || body[i] > 0x7e,
        0x40 <= end <= 0x7e,
        b != 0x5b,
        b != 0x5d,
    ensures
        run(t, seq![0x1bu8, 0x5b] + body + seq![end]) == t,
        run(t, seq![0x1bu8, b]) == t,
{
    reveal_with_fuel(run, 3);
    let lead = seq![0x1bu8, 0x5b];
    assert(seq![0x1bu8].drop_last() =~= Seq::<u8>::empty());
    assert(lead.drop_last() =~= seq![0x1bu8]);
    assert(seq![0x1bu8, b].drop_last() =~= seq![0x1bu8]);
    assert(run(t, seq![0x1bu8, b]) =~= t);
    let inside = TrackerModel { state: State::Csi, ..t };
    assert(run(t, lead) =~= inside);
    lemma_csi_is_skipped(inside, body);
    chunks_do_not_matter(t, lead, body);
    let all = lead + body + seq![end];
    assert(all.drop_last() =~= lead + body);
    assert(run(t, all) =~= t);
}

proof fn lemma_csi_is_skipped(t: TrackerModel, body: Seq<u8>)
    requires
        t.state == State::Csi,
        forall|i: int| 0 <= i < body.len() ==> #[trigger] body[i] < 0x40 || body[i] > 0x7e,
    ensures
        run(t, body) == t,
    decreases body.len(),
{
    if body.len() > 0 {
        let init = body.drop_last();
        assert forall|i: int| 0 <= i < init.len() implies #[trigger] init[i] < 0x40 || init[i]
            > 0x7e by {
            assert(init[i] == body[i]);
        }
        lemma_csi_is_skipped(t, init);
        assert(body[body.len() - 1] < 0x40 || body[body.len() - 1] > 0x7e);
    }
}

/// Which commands speak of links: those that start with `8;` and have another semicolon.
/// The URI is what stands behind it, other semicolons included. Any other command leaves
/// the link and the log.
pub proof fn commands_that_name_no_link(t: TrackerModel, body: Seq<u8>)
    ensures
        osc8_uri(body) is Some <==> body.len() >= 2 && body[0] == 0x38 && body[1] == 0x3b && (
        exists|i: int| 2 <= i < body.len() && #[trigger] body[i] == 0x3b),
        osc8_uri(body) is None ==> osc_finished(TrackerModel { osc: body, ..t }) == (TrackerModel {
            osc: Seq::empty(),
            ..t
        }),
        forall|i: int|
            2 <= i < body.len() && #[trigger] body[i] == 0x3b && osc8_uri(body) is Some && (forall|
                j: int,
            |
                2 <= j < i ==> #[trigger] body[j] != 0x3b) ==> osc8_uri(body) == Some(
                body.subrange(i + 1, body.len() as int),
            ),
{
    if body.len() >= 2 && body[0] == 0x38 && body[1] == 0x3b {
        let rest = body.skip(2);
        lemma_first_place(rest, 0x3b);
        let p = position(rest, 0x3b) as int;
        if p < rest.len() {
            assert(body[p + 2] == rest[p]);
        }
        assert forall|i: int| 2 <= i < body.len() && #[trigger] body[i] == 0x3b implies p
            < rest.len() by {
            assert(rest[i - 2] == body[i]);
        }
        assert forall|i: int|
            2 <= i < body.len() && #[trigger] body[i] == 0x3b && (forall|j: int|
                2 <= j < i ==> #[trigger] body[j] != 0x3b) implies osc8_uri(body) == Some(
            body.subrange(i + 1, body.len() as int),
        ) by {
            assert(rest[i - 2] == body[i]);
            if p < i - 2 {
                assert(body[p + 2] == rest[p]);
            }
            assert(p == i - 2);
            assert(rest.skip(p + 1) =~= body.subrange(i + 1, body.len() as int));
        }
    }
}

proof fn lemma_first_place(s: Seq<u8>, b: u8)
    ensures
        position(s, b) <= s.len(),
        position(s, b) < s.len() ==> s[position(s, b) as int] == b,
        forall|i: int| 0 <= i < position(s, b) ==> #[trigger] s[i] != b,
    decreases s.len(),
{
    if s.len() > 0 && s[0] != b {
        let rest = s.skip(1);
        lemma_first_place(rest, b);
        assert forall|i: int| 0 <= i < position(s, b) implies #[trigger] s[i] != b by {
            if i > 0 {
                assert(rest[i - 1] == s[i]);
            }
        }
    }
}

/// A command with a URI opens a link to it, of which the first 4096 bytes count, and with no
/// text yet; one without a URI leaves none open. A link that was open before is over with
/// either, and logged where a text can be seen of it: that text without the whitespace
/// around it, and its own URI.
pub proof fn commands_open_and_close_links(t: TrackerModel, params: Seq<u8>, uri: Seq<u8>)
    requires
        !params.contains(0x3bu8),
    ensures
        ({
            let after = osc_finished(
                TrackerModel { osc: seq![0x38u8, 0x3b] + params + seq![0x3bu8] + uri, ..t },
            );
            let label = text::trimmed(text::utf8_lossy(t.display));
            &&& uri.len() == 0 ==> after.uri is None
            &&& 0 < uri.len() <= 4096 ==> after.uri == Some(text::utf8_lossy(uri))
            &&& uri.len() > 4096 ==> after.uri == Some(text::utf8_lossy(uri.take(4096)))
            &&& uri.len() > 0 || t.uri is Some ==> after.display.len() == 0
            &&& t.uri is Some && label.len() > 0 ==> after.log == logged(t.log, (label, t.uri->0))
            &&& t.uri is None || label.len() == 0 ==> after.log == t.log
            &&& after.state == t.state
        }),
{
    body_gives_its_uri(params, uri);
    assert(osc8_body(params, uri) == seq![0x38u8, 0x3b] + params + seq![0x3bu8] + uri);
    if uri.len() == 4096 {
        assert(uri.take(4096) =~= uri);
    }
}

/// A command is also over where an ESC is followed by anything else, which then counts as if
/// it stood behind the command.
pub proof fn interrupted_commands_are_carried_out(t: TrackerModel, body: Seq<u8>, b: u8)
    requires
        t.state == State::Normal,
        stays_in_osc(body),
        body.len() <= 4160,
        b != 0x5c,
    ensures
        run(t, seq![0x1bu8, 0x5d] + body + seq![0x1bu8, b]) == run(
            run(t, seq![0x1bu8, 0x5d] + body + seq![0x07u8]),
            seq![b],
        ),
{
    let bel = seq![0x07u8];
    terminated_commands_are_carried_out(t, body, bel);
    let lead = seq![0x1bu8, 0x5d];
    let open = TrackerModel { state: State::Osc, osc: Seq::empty(), ..t };
    reveal_with_fuel(run, 3);
    assert(lead.drop_last() =~= seq![0x1bu8]);
    assert(seq![0x1bu8].drop_last() =~= Seq::<u8>::empty());
    assert(seq![b].drop_last() =~= Seq::<u8>::empty());
    assert(run(t, lead) =~= open);
    lemma_osc_is_collected(open, body);
    chunks_do_not_matter(t, lead, body);
    let full = TrackerModel { state: State::Osc, osc: body, ..t };
    assert(run(t, lead + body) =~= full);
    let end = seq![0x1bu8, b];
    chunks_do_not_matter(t, lead + body, end);
    assert(end.drop_last() =~= seq![0x1bu8]);
    let ended = TrackerModel { state: State::Normal, ..osc_finished(full) };
    assert(run(full, end) == step_normal(ended, b));
    assert(ended =~= osc_finished(TrackerModel { osc: body, ..t }));
}

/// The links with a text are those that a filter by that text leaves.
pub proof fn links_are_counted_by_text(links: Seq<Link>, t: Seq<char>)
    ensures
        with_text(links, t) == links.filter(|l: Link| l.0 == t).len(),
    decreases links.len(),
{
    let wanted = |l: Link| l.0 == t;
    if links.len() == 0 {
        reveal(Seq::filter);
    } else {
        links_are_counted_by_text(links.skip(1), t);
        let one = seq![links[0]];
        assert(links =~= one + links.skip(1));
        Seq::filter_distributes_over_add(one, links.skip(1), wanted);
        assert(one.drop_last() =~= Seq::<Link>::empty());
        assert(one.filter(wanted).len() == (if links[0].0 == t {
            1nat
        } else {
            0nat
        })) by {
            reveal(Seq::filter);
            reveal_with_fuel(Seq::filter, 2);
        }
    }
}

/// A footnote has a heading, then a line for each link with its text in brackets and its
/// URI behind an arrow, oldest first. Of more than 32 links it lists the 32 oldest, and
/// counts the rest in one more line.
pub proof fn footnotes_list_the_links(links: Seq<Link>, link: Link)
    ensures
        footnote_text(Seq::empty()) == "Hyperlinks:\n"@,
        links.len() < 32 ==> footnote_text(links.push(link)) == footnote_text(links) + "  ["@
            + link.0 + "] -> "@ + link.1 + "\n"@,
        links.len() > 32 ==> footnote_text(links) == footnote_text(links.take(32)) + "  ... "@
            + text::dec((links.len() - 32) as nat) + " more not shown\n"@,
{
    let none = Seq::<Link>::empty();
    assert(footnote_text(none) =~= "Hyperlinks:\n"@);
    if links.len() < 32 {
        let more = links.push(link);
        lemma_lines_of_prefix(links, more, links.len());
        assert(footnote_text(more) =~= footnote_text(links) + "  ["@ + link.0 + "] -> "@ + link.1
            + "\n"@);
    }
    if links.len() > 32 {
        lemma_lines_of_prefix(links.take(32), links, 32);
    }
}

proof fn lemma_lines_of_prefix(a: Seq<Link>, b: Seq<Link>, n: nat)
    requires
        n <= a.len() <= b.len(),
        forall|i: int| 0 <= i < n ==> a[i] == b[i],
    ensures
        footnote_lines(a, n) == footnote_lines(b, n),
    decreases n,
{
    if n > 0 {
        lemma_lines_of_prefix(a, b, (n - 1) as nat);
    }
}

/// An entry of a log is a link's text and, second, its URI, and entries keep their places.
pub proof fn entries_are_text_and_uri(log: Seq<(String, String)>, i: int)
    requires
        0 <= i < log.len(),
    ensures
        link_views(log).len() == log.len(),
        link_views(log)[i].0 == log[i].0@,
        link_views(log)[i].1 == log[i].1@,
{
}

} // verus!
