use tui_mcp::error::ToolError;
use tui_mcp::pattern::Needle;
use tui_mcp::session::ScreenDump;
use tui_mcp::wait::{
    sample_screen, wait_for_change, wait_for_exit, wait_for_output, wait_for_text, wait_reply,
    ScreenSample, StableWait, WaitReturn,
};

const MS: u64 = 1_000_000;

fn dump(text: &str) -> ScreenDump {
    ScreenDump {
        text: text.to_string(),
        cursor_row: 9,
        cursor_col: 0,
        cursor_hidden: false,
        rows: 40,
        cols: 120,
    }
}

#[test]
fn wait_reply_none_is_outcome_only() {
    let s = ScreenSample {
        base: dump("hello world"),
        matched: true,
        ansi: None,
    };
    assert_eq!(wait_reply("matched", WaitReturn::OutcomeOnly, &s), "matched");
}

#[test]
fn wait_reply_text_appends_screen() {
    let s = ScreenSample {
        base: dump("hello"),
        matched: true,
        ansi: None,
    };
    let out = wait_reply("matched", WaitReturn::Text, &s);
    assert_eq!(out, format!("matched\n{}", dump("hello").render()));
    assert!(out.contains("hello"));
}

#[test]
fn wait_reply_ansi_uses_ansi_frame_when_present() {
    let s = ScreenSample {
        base: dump("plain"),
        matched: true,
        ansi: Some(dump("ansi-frame")),
    };
    let out = wait_reply("matched", WaitReturn::Ansi, &s);
    assert!(out.contains("ansi-frame"));
    assert!(!out.contains("plain"));
}

#[test]
fn wait_reply_ansi_falls_back_to_base_frame() {
    // Defensive: if the ANSI render is missing, render the text frame
    // rather than panicking.
    let s = ScreenSample {
        base: dump("plain"),
        matched: true,
        ansi: None,
    };
    let out = wait_reply("matched", WaitReturn::Ansi, &s);
    assert!(out.contains("plain"));
}

#[test]
fn the_default_reply_is_text() {
    assert_eq!(WaitReturn::default(), WaitReturn::Text);
}

#[test]
fn samples_render_ansi_only_where_it_is_returned() {
    let mut p = vt100::Parser::new(4, 20, 0);
    p.process(b"\x1b[32mgo");
    let hit = sample_screen(Some(p.screen()), "w", WaitReturn::Ansi, false, |s: &str| s == "go")
        .ok()
        .unwrap();
    assert!(hit.matched);
    assert!(hit.ansi.unwrap().text.contains("\x1b[32m"));
    assert_eq!(hit.base.text, "go");
    let miss = sample_screen(Some(p.screen()), "w", WaitReturn::Ansi, false, |_: &str| false)
        .ok()
        .unwrap();
    assert!(!miss.matched && miss.ansi.is_none());
    let forced = sample_screen(Some(p.screen()), "w", WaitReturn::Ansi, true, |_: &str| false)
        .ok()
        .unwrap();
    assert!(forced.ansi.is_some());
    let text = sample_screen(Some(p.screen()), "w", WaitReturn::Text, true, |_: &str| true)
        .ok()
        .unwrap();
    assert!(text.ansi.is_none());
}

#[test]
fn samples_need_a_screen() {
    let e = sample_screen(None, "wait_for_text", WaitReturn::Text, false, |_: &str| true)
        .err()
        .unwrap();
    assert_eq!(e, ToolError::NeedsPty("wait_for_text".to_string()));
    assert_eq!(e.message(), "wait_for_text needs a pty session");
}

#[test]
fn waiting_for_text() {
    let needle = Needle::new("hi", false).unwrap();
    let d = dump("say hi");
    let none = dump("still quiet");
    assert_eq!(
        wait_for_text(&d, &needle, None, u64::MAX, None),
        Some(format!("matched\n{}", d.render()))
    );
    assert_eq!(wait_for_text(&none, &needle, None, 4999 * MS, None), None);
    assert_eq!(
        wait_for_text(&none, &needle, None, 5000 * MS, None),
        Some(format!("TIMEOUT after 5000ms: text not found\n{}", none.render()))
    );
    assert_eq!(
        wait_for_text(&none, &needle, Some(true), 0, None),
        Some(format!("gone\n{}", none.render()))
    );
    assert_eq!(
        wait_for_text(&d, &needle, Some(true), 10 * MS, Some(10)),
        Some(format!("TIMEOUT after 10ms: text still present\n{}", d.render()))
    );
    let pattern = Needle::new("h.$", true).unwrap();
    assert!(wait_for_text(&d, &pattern, Some(false), 0, None).is_some());
}

#[test]
fn waiting_for_a_change() {
    let d = dump("same");
    assert_eq!(wait_for_change("same", &d, 0, Some(7)), None);
    assert_eq!(
        wait_for_change("same", &d, 7 * MS, Some(7)),
        Some("TIMEOUT after 7ms: screen unchanged".to_string())
    );
    assert_eq!(
        wait_for_change("other", &d, 7 * MS, Some(7)),
        Some(format!("changed\n{}", d.render()))
    );
}

#[test]
fn waiting_for_the_exit() {
    assert_eq!(wait_for_exit(None, 0, None), None);
    assert_eq!(
        wait_for_exit(None, 5000 * MS, None),
        Some("TIMEOUT after 5000ms: still running".to_string())
    );
    assert_eq!(
        wait_for_exit(Some("exit status: 1".to_string()), 0, None),
        Some("exited: exit status: 1".to_string())
    );
}

#[test]
fn waiting_for_output() {
    let needle = Needle::new("done", false).unwrap();
    assert_eq!(wait_for_output("not yet", &needle, 0, None), None);
    assert_eq!(
        wait_for_output("all done", &needle, 0, None),
        Some("matched\nall done".to_string())
    );
    assert_eq!(
        wait_for_output("not yet", &needle, 3 * MS, Some(3)),
        Some("TIMEOUT after 3ms: not found\nnot yet".to_string())
    );
}

#[test]
fn waiting_for_a_stable_screen() {
    let mut w = StableWait::new();
    let a = dump("a");
    let b = dump("b");
    assert_eq!(w.wait_for_stable(&a, 0, None, None), None);
    assert_eq!(w.wait_for_stable(&a, 200 * MS, None, None), None);
    assert_eq!(w.wait_for_stable(&b, 299 * MS, None, None), None);
    assert_eq!(w.wait_for_stable(&b, 500 * MS, None, None), None);
    assert_eq!(
        w.wait_for_stable(&b, 599 * MS, None, None),
        Some(format!("stable\n{}", b.render()))
    );
    assert_eq!(
        w.wait_for_stable(&a, 600 * MS, None, Some(600)),
        Some(format!("TIMEOUT after 600ms: still changing\n{}", a.render()))
    );
}

#[test]
fn a_blank_screen_is_stable_from_the_start() {
    let mut w = StableWait::new();
    let blank = dump("");
    assert_eq!(
        w.wait_for_stable(&blank, 300 * MS, None, None),
        Some(format!("stable\n{}", blank.render()))
    );
}

#[test]
fn outcomes_win_over_a_timeout_of_nothing() {
    let d = dump("all done");
    let needle = Needle::new("done", false).unwrap();
    assert_eq!(
        wait_for_text(&d, &needle, None, u64::MAX, Some(0)),
        wait_for_text(&d, &needle, None, 0, None)
    );
    assert_eq!(
        wait_for_change("before", &d, u64::MAX, Some(0)),
        Some(format!("changed\n{}", d.render()))
    );
    assert_eq!(
        wait_for_exit(Some("0".to_string()), u64::MAX, Some(0)),
        Some("exited: 0".to_string())
    );
    assert_eq!(
        wait_for_output("all done", &needle, u64::MAX, Some(0)),
        Some("matched\nall done".to_string())
    );
    let mut w = StableWait::new();
    assert_eq!(w.wait_for_stable(&d, 0, Some(5), None), None);
    assert_eq!(
        w.wait_for_stable(&d, 5 * MS, Some(5), Some(0)),
        Some(format!("stable\n{}", d.render()))
    );
}
