use tui_mcp::error::ToolError;
use tui_mcp::registry::{signal_target, SessionFacts, SessionManager};

fn filled(names: &[&str]) -> SessionManager<u32> {
    let mut m: SessionManager<u32> = SessionManager::new();
    for (i, name) in names.iter().enumerate() {
        m.create(name.to_string(), i as u32).unwrap();
    }
    m
}

#[test]
fn names_are_unique() {
    let mut m = filled(&["a"]);
    assert_eq!(m.vacancy("b"), Ok(()));
    let taken = ToolError::NameTaken("a".to_string());
    assert_eq!(taken.message(), "a session named 'a' already exists");
    assert_eq!(m.vacancy("a"), Err(taken));
    assert_eq!(m.create("a".to_string(), 9), Err(ToolError::NameTaken("a".to_string())));
    assert_eq!(*m.with("a").unwrap(), 0);
}

#[test]
fn sessions_are_worked_on_by_name() {
    let mut m = filled(&["b", "a", "c"]);
    *m.with("a").unwrap() += 40;
    assert_eq!(*m.with("a").unwrap(), 41);
    assert_eq!(*m.with("b").unwrap(), 0);
    let e = m.with("zz").unwrap_err();
    assert_eq!(e, ToolError::NoSession("zz".to_string()));
    assert_eq!(e.message(), "no session named 'zz'");
    assert!(!e.is_invalid_params());
}

#[test]
fn stopping_takes_a_session_out() {
    let mut m = filled(&["b", "a"]);
    assert_eq!(m.remove("b"), Ok(0));
    assert_eq!(m.remove("b"), Err(ToolError::NoSession("b".to_string())));
    assert_eq!(m.len(), 1);
    m.create("b".to_string(), 7).unwrap();
    assert_eq!(*m.with("b").unwrap(), 7);
}

#[test]
fn purging_takes_out_the_exited_ones_in_order() {
    let mut m = filled(&["delta", "alpha", "charlie", "bravo"]);
    let flags: Vec<bool> = (0..m.len()).map(|i| *m.at(i) % 2 == 1).collect();
    assert_eq!(flags, vec![true, true, false, false]);
    let gone = m.purge_exited(&flags);
    assert_eq!(gone, vec![("alpha".to_string(), 1), ("bravo".to_string(), 3)]);
    assert_eq!(m.len(), 2);
    assert_eq!(*m.at(0), 2);
    assert_eq!(*m.at(1), 0);
    assert!(m.purge_exited(&[false, false]).is_empty());
}

#[test]
fn listings_are_sorted_by_name() {
    let m = filled(&["b", "B", "a", "ab"]);
    let facts: Vec<SessionFacts> = (0..m.len())
        .map(|i| SessionFacts {
            kind: "pty",
            pid: Some(i as u32),
            cmdline: format!("cmd{i}"),
            cwd: "/".to_string(),
            status: None,
        })
        .collect();
    let list = m.list(facts);
    let names: Vec<&str> = list.iter().map(|i| i.name.as_str()).collect();
    assert_eq!(names, vec!["B", "a", "ab", "b"]);
    assert_eq!(list[2].cmdline, "cmd2");
    assert_eq!(list[3].pid, Some(3));
    assert_eq!(list[0].kind, "pty");
}

#[test]
fn signals_need_a_process_within_range() {
    assert_eq!(signal_target("s", Some(77)), Ok(77));
    assert_eq!(signal_target("s", Some(2147483647)), Ok(i32::MAX));
    let none = signal_target("s", None).unwrap_err();
    assert_eq!(none.message(), "session 's' has no live process");
    let large = signal_target("s", Some(2147483648)).unwrap_err();
    assert_eq!(large, ToolError::PidOutOfRange(2147483648));
    assert_eq!(large.message(), "pid 2147483648 out of range");
}
