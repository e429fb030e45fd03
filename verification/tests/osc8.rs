use tui_mcp::osc8::{visible_footnote, Osc8Tracker, MAX_LINKS, MAX_SHOWN, MAX_TEXT, MAX_URI};

fn tracker() -> Osc8Tracker {
    Osc8Tracker::new(Vec::new())
}

fn osc8(uri: &str, text: &str) -> Vec<u8> {
    let mut v = Vec::new();
    v.extend_from_slice(b"\x1b]8;;");
    v.extend_from_slice(uri.as_bytes());
    v.extend_from_slice(b"\x1b\\");
    v.extend_from_slice(text.as_bytes());
    v.extend_from_slice(b"\x1b]8;;\x1b\\");
    v
}

#[test]
fn captures_link_with_st_terminator() {
    let mut t = tracker();
    t.feed(&osc8("https://example.com", "EXAMPLE"));
    assert_eq!(
        *t.links(),
        vec![("EXAMPLE".to_string(), "https://example.com".to_string())]
    );
}

#[test]
fn captures_link_with_bel_terminator() {
    let mut t = tracker();
    t.feed(b"\x1b]8;;https://a.test\x07LINK\x1b]8;;\x07");
    assert_eq!(
        *t.links(),
        vec![("LINK".to_string(), "https://a.test".to_string())]
    );
}

#[test]
fn ignores_non_hyperlink_osc() {
    let mut t = tracker();
    t.feed(b"\x1b]0;window title\x1b\\plain");
    assert!(t.links().is_empty());
}

#[test]
fn strips_sgr_inside_link_text() {
    let mut t = tracker();
    t.feed(b"\x1b]8;;https://x.test\x1b\\\x1b[31mRED\x1b[0m\x1b]8;;\x1b\\");
    assert_eq!(
        *t.links(),
        vec![("RED".to_string(), "https://x.test".to_string())]
    );
}

#[test]
fn split_across_feeds() {
    let mut t = tracker();
    t.feed(b"\x1b]8;;https://x.test");
    t.feed(b"\x1b\\HI\x1b]8;;\x1b\\");
    assert_eq!(
        *t.links(),
        vec![("HI".to_string(), "https://x.test".to_string())]
    );
}

fn link(text: &str, uri: &str) -> (String, String) {
    (text.to_string(), uri.to_string())
}

#[test]
fn footnote_only_lists_visible_links() {
    let mut links = vec![
        link("EXAMPLE", "https://example.com"),
        link("GONE", "https://gone.test"),
    ];
    let screen = "here is EXAMPLE on screen";
    let footnote = visible_footnote(screen, &mut links).expect("footnote");
    assert!(footnote.contains("[EXAMPLE] -> https://example.com"));
    assert!(!footnote.contains("GONE"));
}

#[test]
fn footnote_none_when_no_visible_links() {
    let mut links = vec![link("GONE", "https://gone.test")];
    assert!(visible_footnote("nothing here", &mut links).is_none());
}

#[test]
fn scrolled_off_link_is_dropped_from_the_log() {
    let mut links = vec![
        link("EXAMPLE", "https://example.com"),
        link("GONE", "https://gone.test"),
    ];
    visible_footnote("here is EXAMPLE on screen", &mut links);
    assert_eq!(links, vec![link("EXAMPLE", "https://example.com")]);
}

#[test]
fn dropped_link_does_not_resurface_as_plain_text() {
    let mut links = vec![link("GONE", "https://gone.test")];
    // Scrolled away: retired here...
    assert!(visible_footnote("nothing here", &mut links).is_none());
    // ...so a later line that merely mentions the words stays plain text.
    assert!(visible_footnote("a line about GONE things", &mut links).is_none());
    assert!(links.is_empty());
}

#[test]
fn pruning_is_idempotent_for_visible_links() {
    let mut links = vec![link("EXAMPLE", "https://example.com")];
    let screen = "EXAMPLE stays put";
    let first = visible_footnote(screen, &mut links).expect("footnote");
    let second = visible_footnote(screen, &mut links).expect("footnote");
    assert_eq!(first, second);
    assert_eq!(links.len(), 1);
}

#[test]
fn duplicate_entries_collapse() {
    let mut links = vec![
        link("EXAMPLE", "https://example.com"),
        link("EXAMPLE", "https://example.com"),
    ];
    let footnote = visible_footnote("EXAMPLE", &mut links).expect("footnote");
    assert_eq!(
        footnote,
        "Hyperlinks:\n  [EXAMPLE] -> https://example.com\n"
    );
    assert_eq!(links.len(), 1);
}

#[test]
fn relinked_text_resolves_to_the_newest_uri() {
    let mut links = vec![
        link("docs", "https://old.test"),
        link("docs", "https://new.test"),
    ];
    // One occurrence on screen, so only the most recently logged URI can be
    // the live one.
    let footnote = visible_footnote("see docs", &mut links).expect("footnote");
    assert_eq!(footnote, "Hyperlinks:\n  [docs] -> https://new.test\n");
    assert_eq!(links, vec![link("docs", "https://new.test")]);
}

#[test]
fn repeated_text_keeps_one_entry_per_occurrence() {
    let mut links = vec![
        link("view", "https://stale.test"),
        link("view", "https://row1.test"),
        link("view", "https://row2.test"),
    ];
    // Two rows on screen, three logged: the oldest is left over from a
    // previous frame.
    let footnote = visible_footnote("row1 view | row2 view", &mut links).expect("footnote");
    assert!(!footnote.contains("stale"));
    assert_eq!(
        links,
        vec![
            link("view", "https://row1.test"),
            link("view", "https://row2.test")
        ]
    );
}

#[test]
fn budget_larger_than_the_log_keeps_everything() {
    let mut links = vec![link("view", "https://only.test")];
    // The word appears three times but only one of them is a link.
    visible_footnote("view view view", &mut links);
    assert_eq!(links, vec![link("view", "https://only.test")]);
}

#[test]
fn surviving_entries_stay_in_oldest_first_order() {
    let mut links = vec![
        link("A", "https://a.test"),
        link("B", "https://b.test"),
        link("C", "https://c.test"),
    ];
    let footnote = visible_footnote("A B C", &mut links).expect("footnote");
    assert_eq!(
        footnote,
        "Hyperlinks:\n  [A] -> https://a.test\n  [B] -> https://b.test\n  [C] -> https://c.test\n"
    );
}

#[test]
fn links_past_the_display_cap_are_still_kept() {
    let mut links: Vec<_> = (0..MAX_SHOWN + 5)
        .map(|i| link(&format!("L{i:02}"), &format!("https://n{i:02}.test")))
        .collect();
    let screen: String = links
        .iter()
        .map(|(t, _)| t.as_str())
        .collect::<Vec<_>>()
        .join(" ");
    let footnote = visible_footnote(&screen, &mut links).expect("footnote");
    // Header, MAX_SHOWN entries, and the truncation marker.
    assert_eq!(footnote.lines().count(), MAX_SHOWN + 2);
    assert!(footnote.ends_with("  ... 5 more not shown\n"));
    assert_eq!(links.len(), MAX_SHOWN + 5);
}

#[test]
fn no_truncation_marker_when_everything_fits() {
    let mut links: Vec<_> = (0..MAX_SHOWN)
        .map(|i| link(&format!("L{i:02}"), &format!("https://n{i:02}.test")))
        .collect();
    let screen: String = links
        .iter()
        .map(|(t, _)| t.as_str())
        .collect::<Vec<_>>()
        .join(" ");
    let footnote = visible_footnote(&screen, &mut links).expect("footnote");
    assert_eq!(footnote.lines().count(), MAX_SHOWN + 1);
    assert!(!footnote.contains("not shown"));
}

#[test]
fn logged_links_are_bounded() {
    let mut t = tracker();
    for i in 0..MAX_LINKS + 3 {
        t.feed(&osc8(&format!("https://n{i}.test"), &format!("L{i}")));
    }
    assert_eq!(t.links().len(), MAX_LINKS);
    assert_eq!(t.links()[0], link("L3", "https://n3.test"));
    assert_eq!(t.links()[MAX_LINKS - 1], link("L130", "https://n130.test"));
}

#[test]
fn link_text_and_uri_are_bounded() {
    let mut t = tracker();
    let uri = "u".repeat(MAX_URI + 10);
    let text = "t".repeat(MAX_TEXT + 10);
    t.feed(&osc8(&uri, &text));
    assert_eq!(t.links()[0].0.len(), MAX_TEXT);
    assert_eq!(t.links()[0].1.len(), MAX_URI);
}

#[test]
fn blank_link_text_is_not_logged() {
    let mut t = tracker();
    t.feed(&osc8("https://x.test", "  \u{a0} "));
    assert!(t.links().is_empty());
    t.feed(&osc8("https://x.test", "  padded "));
    assert_eq!(*t.links(), vec![link("padded", "https://x.test")]);
}

#[test]
fn a_new_link_closes_the_open_one() {
    let mut t = tracker();
    t.feed(b"\x1b]8;id=1;https://a.test\x07ONE\x1b]8;;https://b.test\x07TWO\x1b]8;;\x07");
    assert_eq!(*t.links(), vec![link("ONE", "https://a.test"), link("TWO", "https://b.test")]);
}

#[test]
fn ill_formed_bytes_are_replaced() {
    let mut t = tracker();
    t.feed(b"\x1b]8;;https://x.test\x07a\xffb\x1b]8;;\x07");
    assert_eq!(*t.links(), vec![link("a\u{fffd}b", "https://x.test")]);
}

#[test]
fn unterminated_command_ends_with_the_next_byte() {
    let mut t = tracker();
    t.feed(b"\x1b]8;;https://x.test\x1bXY\x1b]8;;\x07");
    assert_eq!(*t.links(), vec![link("XY", "https://x.test")]);
}

#[test]
fn any_chunking_captures_the_same() {
    let data = osc8("https://x.test", "split me");
    for cut in 0..=data.len() {
        let mut t = tracker();
        t.feed(&data[..cut]);
        t.feed(&data[cut..]);
        assert_eq!(*t.links(), vec![link("split me", "https://x.test")]);
    }
}

#[test]
fn tracker_footnote_prunes_its_log() {
    let mut t = tracker();
    t.feed(&osc8("https://a.test", "ALPHA"));
    t.feed(&osc8("https://b.test", "BETA"));
    assert_eq!(
        t.footnote("only BETA here"),
        Some("Hyperlinks:\n  [BETA] -> https://b.test\n".to_string())
    );
    assert_eq!(*t.links(), vec![link("BETA", "https://b.test")]);
    assert_eq!(t.footnote("ALPHA"), None);
}

#[test]
fn overlapping_occurrences_count_once() {
    let mut links = vec![link("aa", "https://1.test"), link("aa", "https://2.test")];
    visible_footnote("aaa", &mut links);
    assert_eq!(links, vec![link("aa", "https://2.test")]);
}

#[test]
fn the_log_holds_the_newest_links() {
    let mut t = Osc8Tracker::new(vec![("old".to_string(), "http://old".to_string())]);
    let mut expected = vec![("old".to_string(), "http://old".to_string())];
    for i in 0..MAX_LINKS + 5 {
        t.feed(format!("\x1b]8;;http://{i}\x07 t{i} \x1b]8;;\x07").as_bytes());
        expected.push((format!("t{i}"), format!("http://{i}")));
        // Neither of these is a link.
        t.feed(b"\x1b]8;;http://blank\x07  \x1b]8;;\x07\x1b]8;;\x07plain\x1b]8;;\x07");
        let from = expected.len().saturating_sub(MAX_LINKS);
        assert_eq!(t.links(), &expected[from..].to_vec());
    }
    t.feed(b"\x1b]8;;\xff\x07bad\x1b]8;;\x07");
    assert_eq!(t.links().last().unwrap(), &("bad".to_string(), "\u{fffd}".to_string()));
}
