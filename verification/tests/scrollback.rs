use tui_mcp::error::ToolError;
use tui_mcp::pattern::{compile, Needle};
use tui_mcp::scrollback::{read_scrollback, search_report, search_scrollback};

fn lines(n: usize) -> Vec<String> {
    (1..=n).map(|i| format!("line {i}")).collect()
}

#[test]
fn the_last_page_comes_by_default() {
    let all = lines(5);
    assert_eq!(
        read_scrollback(&all, Some(2), None),
        "scrollback: 5 lines, page 3/3 (lines 5-5)\n     5 | line 5\n"
    );
    assert_eq!(
        read_scrollback(&all, Some(2), Some(9)),
        read_scrollback(&all, Some(2), None)
    );
    assert_eq!(
        read_scrollback(&all, Some(2), Some(0)),
        "scrollback: 5 lines, page 1/3 (lines 1-2)\n     1 | line 1\n     2 | line 2\n"
    );
}

#[test]
fn page_sizes_have_a_default_and_a_minimum() {
    let all = lines(101);
    assert!(read_scrollback(&all, None, None)
        .starts_with("scrollback: 101 lines, page 2/2 (lines 101-101)\n   101 | line 101\n"));
    assert!(read_scrollback(&all, Some(0), Some(3))
        .starts_with("scrollback: 101 lines, page 4/101 (lines 4-4)\n     4 | line 4\n"));
    assert!(read_scrollback(&all, Some(usize::MAX), None)
        .starts_with("scrollback: 101 lines, page 1/1 (lines 1-101)\n"));
}

#[test]
fn an_empty_history_has_one_empty_page() {
    assert_eq!(
        read_scrollback(&[], None, None),
        "scrollback: 0 lines, page 1/1 (lines 1-0)\n"
    );
}

#[test]
fn the_pages_hold_every_line_once() {
    for total in 0..12 {
        for size in 1..5 {
            let all = lines(total);
            let pages = if total == 0 { 1 } else { (total + size - 1) / size };
            let mut seen = String::new();
            for page in 0..pages {
                let text = read_scrollback(&all, Some(size), Some(page));
                let body = text.split_once('\n').unwrap().1.to_string();
                assert!(body.lines().count() <= size);
                seen.push_str(&body);
            }
            let whole = read_scrollback(&all, Some(100), None);
            assert_eq!(seen, whole.split_once('\n').unwrap().1);
        }
    }
}

#[test]
fn searches_show_matches_with_line_numbers() {
    let all = lines(12);
    let re = compile("LINE 1", true).unwrap();
    assert_eq!(
        search_scrollback(&re, "LINE 1", &all, None, None),
        "4 match(es):\n>     1 | line 1\n>    10 | line 10\n>    11 | line 11\n>    12 | line 12\n"
    );
    let exact = compile("LINE 1", false).unwrap();
    assert_eq!(
        search_scrollback(&exact, "LINE 1", &all, None, None),
        "no matches for /LINE 1/ in 12 lines"
    );
}

#[test]
fn searches_show_context_and_separators() {
    let all = lines(4);
    let re = compile("[24]$", false).unwrap();
    assert_eq!(
        search_scrollback(&re, "[24]$", &all, None, Some(1)),
        "2 match(es):\n      1 | line 1\n>     2 | line 2\n      3 | line 3\n--\n\
         \x20     3 | line 3\n>     4 | line 4\n--\n"
    );
    let wide = search_scrollback(&re, "[24]$", &all, Some(1), Some(usize::MAX));
    assert_eq!(
        wide,
        "1 match(es):\n      1 | line 1\n>     2 | line 2\n      3 | line 3\n      4 | line 4\n\
         --\n... (more than 1 matches, truncated)\n"
    );
}

#[test]
fn searches_stop_at_the_maximum() {
    let all = lines(4);
    let hits = [true, true, true, true];
    assert_eq!(
        search_report("x", &all, &hits, Some(2), None),
        "2 match(es):\n>     1 | line 1\n>     2 | line 2\n... (more than 2 matches, truncated)\n"
    );
    assert_eq!(
        search_report("x", &all, &hits, Some(0), None),
        "1 match(es):\n>     1 | line 1\n... (more than 1 matches, truncated)\n"
    );
    assert_eq!(
        search_report("x", &all, &[false, true, true, false], Some(2), None),
        "2 match(es):\n>     2 | line 2\n>     3 | line 3\n"
    );
}

#[test]
fn bad_patterns_are_refused() {
    let e = compile("(", false).unwrap_err();
    assert!(e.is_invalid_params());
    assert!(e.message().starts_with("bad regex: regex parse error:"));
    assert!(matches!(Needle::new("(", true), Err(ToolError::BadRegex(_))));
    assert!(Needle::new("(", false).is_ok());
}

#[test]
fn needles_are_texts_or_patterns() {
    let literal = Needle::new("a.c", false).unwrap();
    assert!(literal.found_in("xa.cx"));
    assert!(!literal.found_in("abc"));
    let pattern = Needle::new("a.c", true).unwrap();
    assert!(pattern.found_in("abc"));
    assert!(!pattern.found_in("ABC"));
    assert!(Needle::new("", false).unwrap().found_in(""));
}
