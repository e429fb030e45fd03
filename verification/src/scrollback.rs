//! The scrollback history of a terminal, by pages and by search.

use crate::pattern;
use crate::text;
use vstd::prelude::*;

verus! {

/// A line with its number, counted from 1 and right-aligned in six columns.
pub open spec fn numbered(line: Seq<char>, index: nat) -> Seq<char> {
    text::pad_left(text::dec(index + 1), 6, ' ') + " | "@ + line + "\n"@
}

fn push_numbered(out: &mut String, line: &str, index: usize)
    requires
        index < usize::MAX,
    ensures
        final(out)@ == old(out)@ + numbered(line@, index as nat),
{
    text::push_padded(out, index as u64 + 1, 6, ' ');
    out.append(" | ");
    out.append(line);
    out.append("\n");
    assert(out@ =~= old(out)@ + numbered(line@, index as nat));
}

// ---- Pages ------------------------------------------------------------------

pub const DEFAULT_PAGE_SIZE: usize = 100;

/// The page size that is used: at least one line.
pub open spec fn used_page_size(page_size: Option<usize>) -> nat {
    match page_size {
        None => DEFAULT_PAGE_SIZE as nat,
        Some(n) => if n == 0 {
            1
        } else {
            n as nat
        },
    }
}

/// How many pages so many lines fill. An empty history has one, empty page.
pub open spec fn page_count(total: nat, size: nat) -> nat {
    if total == 0 {
        1
    } else {
        (total - 1) as nat / size + 1
    }
}

/// The page that is shown: the one asked for, or the last one where there are
/// not so many or none was asked for.
pub open spec fn used_page(page: Option<usize>, pages: nat) -> nat {
    match page {
        Some(p) if p < pages => p as nat,
        _ => (pages - 1) as nat,
    }
}

/// The first line of a page.
pub open spec fn page_start(page: nat, size: nat) -> nat {
    page * size
}

/// The line behind the last one of a page.
pub open spec fn page_end(page: nat, size: nat, total: nat) -> nat {
    if page_start(page, size) + size <= total {
        page_start(page, size) + size
    } else {
        total
    }
}

/// The lines from one index up to another, each with its number.
pub open spec fn numbered_lines(lines: Seq<Seq<char>>, from: nat, to: nat) -> Seq<char>
    decreases to,
{
    if to <= from {
        Seq::empty()
    } else {
        numbered_lines(lines, from, (to - 1) as nat) + numbered(lines[to - 1], (to - 1) as nat)
    }
}

/// One page of the history: a heading and the lines.
pub open spec fn page_text(
    lines: Seq<Seq<char>>,
    page_size: Option<usize>,
    page: Option<usize>,
) -> Seq<char> {
    let total = lines.len();
    let size = used_page_size(page_size);
    let pages = page_count(total, size);
    let p = used_page(page, pages);
    let start = page_start(p, size);
    let end = page_end(p, size, total);
    "scrollback: "@ + text::dec(total) + " lines, page "@ + text::dec(p + 1) + "/"@ + text::dec(
        pages,
    ) + " (lines "@ + text::dec(start + 1) + "-"@ + text::dec(end) + ")\n"@ + numbered_lines(
        lines,
        start,
        end,
    )
}

/// One page of the scrollback with line numbers; without `page` the most recent
/// one.
pub fn read_scrollback(
    lines: &[String],
    page_size: Option<usize>,
    page: Option<usize>,
) -> (r: String)
    ensures
        r@ == page_text(text::views(lines@), page_size, page),
{
    let ghost all = text::views(lines@);
    let total: usize = lines.len();
    let size: usize = match page_size {
        None => DEFAULT_PAGE_SIZE,
        Some(n) => if n == 0 {
            1
        } else {
            n
        },
    };
    proof {
        lemma_page_bounds(total as nat, size as nat);
    }
    let pages: usize = if total == 0 {
        1
    } else {
        (total - 1) / size + 1
    };
    let p: usize = match page {
        Some(p) => if p < pages {
            p
        } else {
            pages - 1
        },
        None => pages - 1,
    };
    assert(p == used_page(page, pages as nat));
    proof {
        lemma_start_bound(p as nat, total as nat, size as nat);
    }
    let start: usize = p * size;
    let end: usize = if total - start < size {
        total
    } else {
        start + size
    };
    assert(end == page_end(p as nat, size as nat, total as nat));
    let mut out = String::new();
    out.append("scrollback: ");
    text::push_dec(&mut out, total as u64);
    out.append(" lines, page ");
    text::push_dec(&mut out, p as u64 + 1);
    out.append("/");
    text::push_dec(&mut out, pages as u64);
    out.append(" (lines ");
    text::push_dec(&mut out, start as u64 + 1);
    out.append("-");
    text::push_dec(&mut out, end as u64);
    out.append(")\n");
    let ghost head = out@;
    let mut i: usize = start;
    assert(head + numbered_lines(all, start as nat, start as nat) =~= head);
    while i < end
        invariant
            start <= i <= end <= lines@.len(),
            all == text::views(lines@),
            out@ == head + numbered_lines(all, start as nat, i as nat),
        decreases end - i,
    {
        let ghost before = out@;
        push_numbered(&mut out, lines[i].as_str(), i);
        assert(all[i as int] == lines@[i as int]@);
        i += 1;
        assert(out@ =~= head + numbered_lines(all, start as nat, i as nat));
    }
    assert(out@ =~= page_text(all, page_size, page));
    out
}

/// The number of pages is at most that of lines, and at least one.
proof fn lemma_page_bounds(total: nat, size: nat)
    requires
        size > 0,
    ensures
        1 <= page_count(total, size),
        total > 0 ==> page_count(total, size) <= total,
        total > 0 ==> (total - 1) as nat / size == (total - 1) / size as int,
{
    if total > 0 {
        let n = total - 1;
        let s = size as int;
        assert(0 <= n / s <= n) by (nonlinear_arith)
            requires
                n >= 0,
                s >= 1,
        ;
    }
}

/// Every page starts within the history.
proof fn lemma_start_bound(page: nat, total: nat, size: nat)
    requires
        size > 0,
        page < page_count(total, size),
    ensures
        total == 0 ==> page_start(page, size) == 0,
        total > 0 ==> page_start(page, size) < total,
{
    if total == 0 {
        assert(page == 0);
        assert(0nat * size == 0) by (nonlinear_arith);
    } else {
        let n = total - 1;
        let s = size as int;
        let p = page as int;
        assert(p <= n / s);
        assert(p * s <= n) by (nonlinear_arith)
            requires
                s >= 1,
                n >= 0,
                p <= n / s,
        ;
    }
}

// ---- Search -----------------------------------------------------------------

pub const DEFAULT_MAX_RESULTS: usize = 50;

/// How many matches are shown at most.
pub open spec fn used_max(max_results: Option<usize>) -> nat {
    match max_results {
        None => DEFAULT_MAX_RESULTS as nat,
        Some(n) => if n == 0 {
            1
        } else {
            n as nat
        },
    }
}

/// How many of the first `n` lines match.
pub open spec fn hit_count(hits: Seq<bool>, n: nat) -> nat
    decreases n,
{
    if n == 0 {
        0
    } else {
        hit_count(hits, (n - 1) as nat) + (if hits[n - 1] {
            1nat
        } else {
            0nat
        })
    }
}

/// The lines from one index up to another, each with its number, the one at `at`
/// marked.
pub open spec fn marked_lines(lines: Seq<Seq<char>>, at: nat, from: nat, to: nat) -> Seq<char>
    decreases to,
{
    if to <= from {
        Seq::empty()
    } else {
        marked_lines(lines, at, from, (to - 1) as nat) + (if to - 1 == at {
            ">"@
        } else {
            " "@
        }) + numbered(lines[to - 1], (to - 1) as nat)
    }
}

/// The first line of the context of a match.
pub open spec fn context_start(at: nat, context: nat) -> nat {
    if context <= at {
        (at - context) as nat
    } else {
        0
    }
}

/// The line behind the context of a match.
pub open spec fn context_end(at: nat, context: nat, total: nat) -> nat {
    if at + context + 1 <= total {
        at + context + 1
    } else {
        total
    }
}

/// A match with the lines around it, and a separator where there are any.
pub open spec fn match_text(lines: Seq<Seq<char>>, at: nat, context: nat) -> Seq<char> {
    marked_lines(
        lines,
        at,
        context_start(at, context),
        context_end(at, context, lines.len()),
    ) + (if context > 0 {
        "--\n"@
    } else {
        ""@
    })
}

/// What a line adds to the report: the match, or behind the last match that is
/// shown a note that there are more.
pub open spec fn line_report(
    lines: Seq<Seq<char>>,
    hits: Seq<bool>,
    max: nat,
    context: nat,
    at: nat,
) -> Seq<char> {
    if !hits[at as int] || hit_count(hits, at) > max {
        Seq::empty()
    } else if hit_count(hits, at) == max {
        "... (more than "@ + text::dec(max) + " matches, truncated)\n"@
    } else {
        match_text(lines, at, context)
    }
}

/// What the first `n` lines add to the report.
pub open spec fn lines_report(
    lines: Seq<Seq<char>>,
    hits: Seq<bool>,
    max: nat,
    context: nat,
    n: nat,
) -> Seq<char>
    decreases n,
{
    if n == 0 {
        Seq::empty()
    } else {
        lines_report(lines, hits, max, context, (n - 1) as nat) + line_report(
            lines,
            hits,
            max,
            context,
            (n - 1) as nat,
        )
    }
}

/// The report on a search, given which lines match.
pub open spec fn search_text(
    pattern: Seq<char>,
    lines: Seq<Seq<char>>,
    hits: Seq<bool>,
    max_results: Option<usize>,
    context: Option<usize>,
) -> Seq<char> {
    let max = used_max(max_results);
    let ctx = match context {
        Some(n) => n as nat,
        None => 0,
    };
    let count = hit_count(hits, lines.len());
    if count == 0 {
        "no matches for /"@ + pattern + "/ in "@ + text::dec(lines.len()) + " lines"@
    } else {
        text::dec(
            if count < max {
                count
            } else {
                max
            },
        ) + " match(es):\n"@ + lines_report(lines, hits, max, ctx, lines.len())
    }
}

fn push_match(out: &mut String, lines: &[String], at: usize, context: usize)
    requires
        at < lines@.len(),
    ensures
        final(out)@ == old(out)@ + match_text(text::views(lines@), at as nat, context as nat),
{
    let ghost all = text::views(lines@);
    let ghost before = out@;
    let lo: usize = if context <= at {
        at - context
    } else {
        0
    };
    let hi: usize = if lines.len() - at - 1 <= context {
        lines.len()
    } else {
        at + context + 1
    };
    assert(lo == context_start(at as nat, context as nat));
    assert(hi == context_end(at as nat, context as nat, all.len()));
    let mut j: usize = lo;
    assert(before + marked_lines(all, at as nat, lo as nat, lo as nat) =~= before);
    while j < hi
        invariant
            lo <= j <= hi <= lines@.len(),
            all == text::views(lines@),
            out@ == before + marked_lines(all, at as nat, lo as nat, j as nat),
        decreases hi - j,
    {
        if j == at {
            out.append(">");
        } else {
            out.append(" ");
        }
        push_numbered(out, lines[j].as_str(), j);
        assert(all[j as int] == lines@[j as int]@);
        j += 1;
        assert(out@ =~= before + marked_lines(all, at as nat, lo as nat, j as nat));
    }
    if context > 0 {
        out.append("--\n");
    } else {
        out.append("");
    }
    assert(out@ =~= before + match_text(all, at as nat, context as nat));
}

/// The report on a search, given for each line whether it matches.
pub fn search_report(
    pattern: &str,
    lines: &[String],
    hits: &[bool],
    max_results: Option<usize>,
    context: Option<usize>,
) -> (r: String)
    requires
        hits@.len() == lines@.len(),
    ensures
        r@ == search_text(pattern@, text::views(lines@), hits@, max_results, context),
{
    let ghost all = text::views(lines@);
    let max: usize = match max_results {
        None => DEFAULT_MAX_RESULTS,
        Some(n) => if n == 0 {
            1
        } else {
            n
        },
    };
    let ctx: usize = match context {
        Some(n) => n,
        None => 0,
    };
    let mut out = String::new();
    let mut shown: usize = 0;
    let mut truncated = false;
    let mut i: usize = 0;
    assert(out@ =~= Seq::<char>::empty());
    while i < lines.len()
        invariant
            i <= lines@.len(),
            hits@.len() == lines@.len(),
            all == text::views(lines@),
            max > 0,
            shown <= i,
            shown == (if hit_count(hits@, i as nat) < max {
                hit_count(hits@, i as nat)
            } else {
                max as nat
            }),
            truncated == (hit_count(hits@, i as nat) > max),
            out@ == lines_report(all, hits@, max as nat, ctx as nat, i as nat),
        decreases lines.len() - i,
    {
        let ghost before = out@;
        if hits[i] {
            if shown < max {
                push_match(&mut out, lines, i, ctx);
                shown += 1;
            } else if !truncated {
                out.append("... (more than ");
                text::push_dec(&mut out, max as u64);
                out.append(" matches, truncated)\n");
                truncated = true;
            }
        }
        assert(out@ =~= before + line_report(all, hits@, max as nat, ctx as nat, i as nat));
        i += 1;
    }
    let mut report = String::new();
    if shown == 0 {
        report.append("no matches for /");
        report.append(pattern);
        report.append("/ in ");
        text::push_dec(&mut report, lines.len() as u64);
        report.append(" lines");
    } else {
        text::push_dec(&mut report, shown as u64);
        report.append(" match(es):\n");
        report.append(out.as_str());
    }
    assert(report@ =~= search_text(pattern@, all, hits@, max_results, context));
    report
}

/// Which lines an expression matches.
pub open spec fn regex_hits(re: regex::Regex, lines: Seq<Seq<char>>) -> Seq<bool> {
    Seq::new(
        lines.len(),
        |i: int|
            pattern::regex_matches(
                pattern::regex_source(re).0,
                pattern::regex_source(re).1,
                lines[i],
            ),
    )
}

/// Searches the history with a compiled expression. Returns the matching lines
/// with their line numbers and the lines around them.
pub fn search_scrollback(
    re: &regex::Regex,
    pattern: &str,
    lines: &[String],
    max_results: Option<usize>,
    context: Option<usize>,
) -> (r: String)
    ensures
        r@ == search_text(
            pattern@,
            text::views(lines@),
            regex_hits(*re, text::views(lines@)),
            max_results,
            context,
        ),
{
    let ghost all = text::views(lines@);
    let mut hits: Vec<bool> = Vec::new();
    let mut i: usize = 0;
    while i < lines.len()
        invariant
            i <= lines@.len(),
            all == text::views(lines@),
            hits@.len() == i,
            forall|j: int| 0 <= j < i ==> #[trigger] hits@[j] == regex_hits(*re, all)[j],
        decreases lines.len() - i,
    {
        assert(all[i as int] == lines@[i as int]@);
        hits.push(pattern::is_match(re, lines[i].as_str()));
        i += 1;
    }
    assert(hits@ =~= regex_hits(*re, all));
    search_report(pattern, lines, hits.as_slice(), max_results, context)
}

// ---- Laws -------------------------------------------------------------------

/// The pages split the history: every line stands on exactly one page, pages
/// follow each other without a gap, and none is longer than asked for.
pub proof fn pages_split_the_history(total: nat, size: nat, i: nat, page: nat)
    requires
        size > 0,
        i < total,
        page < page_count(total, size),
    ensures
        i / size < page_count(total, size),
        page_start(page, size) <= i < page_end(page, size, total) <==> page == i / size,
        page_end(page, size, total) <= page_start(page, size) + size,
        page + 1 < page_count(total, size) ==> page_end(page, size, total) == page_start(
            page + 1,
            size,
        ),
        page + 1 == page_count(total, size) ==> page_end(page, size, total) == total,
        page_start(0, size) == 0,
{
    let s = size as int;
    let p = page as int;
    let n = total - 1;
    let x = i as int;
    lemma_start_bound(page, total, size);
    assert(x / s <= n / s) by (nonlinear_arith)
        requires
            s >= 1,
            0 <= x <= n,
    ;
    assert(0 * s == 0) by (nonlinear_arith);
    assert((p + 1) * s == p * s + s) by (nonlinear_arith);
    assert(p * s <= x < p * s + s <==> p == x / s) by (nonlinear_arith)
        requires
            s >= 1,
            x >= 0,
            p >= 0,
    ;
    if page + 1 < page_count(total, size) {
        lemma_start_bound(page + 1, total, size);
    } else {
        assert(p == n / s);
        assert(n < p * s + s) by (nonlinear_arith)
            requires
                s >= 1,
                n >= 0,
                p == n / s,
        ;
    }
}

/// Without a page number, and with one past the end, the most recent page is
/// shown: the one that ends with the last line.
pub proof fn the_default_page_is_the_last(total: nat, size: nat, page: usize)
    requires
        size > 0,
        page >= page_count(total, size),
    ensures
        page_end(used_page(None, page_count(total, size)), size, total) == total,
        used_page(Some(page), page_count(total, size)) == used_page(
            None,
            page_count(total, size),
        ),
{
    if total > 0 {
        pages_split_the_history(
            total,
            size,
            (total - 1) as nat,
            (page_count(total, size) - 1) as nat,
        );
    } else {
        lemma_start_bound(0, total, size);
    }
}

/// Behind the note on truncation nothing more is reported.
pub proof fn nothing_follows_the_truncation(
    lines: Seq<Seq<char>>,
    hits: Seq<bool>,
    max: nat,
    context: nat,
    n: nat,
    more: nat,
)
    requires
        n <= more <= lines.len(),
        hits.len() == lines.len(),
        hit_count(hits, n) > max,
    ensures
        lines_report(lines, hits, max, context, more) == lines_report(
            lines,
            hits,
            max,
            context,
            n,
        ),
        hit_count(hits, more) > max,
    decreases more,
{
    if n < more {
        nothing_follows_the_truncation(lines, hits, max, context, n, (more - 1) as nat);
        assert(lines_report(lines, hits, max, context, more) =~= lines_report(
            lines,
            hits,
            max,
            context,
            n,
        ));
    }
}

/// Of the first `n` lines those that are picked, each as one row: what marks it, its number
/// counted from 1 and right-aligned in six columns, a bar and the line.
pub open spec fn rows_of(
    lines: Seq<Seq<char>>,
    picked: spec_fn(int) -> bool,
    mark: spec_fn(int) -> Seq<char>,
    n: nat,
) -> Seq<char>
    decreases n,
{
    if n == 0 {
        Seq::empty()
    } else {
        let j = n - 1;
        let before = rows_of(lines, picked, mark, j as nat);
        if picked(j) {
            before + mark(j) + text::pad_left(text::dec(n), 6, ' ') + " | "@ + lines[j] + "\n"@
        } else {
            before
        }
    }
}

/// The lines shown with a match are exactly those at most so many lines before or behind it
/// as asked for, in order, the match itself marked with `>` and the others with a space;
/// where lines around it are asked for, a line of two dashes follows.
pub proof fn matches_are_shown_with_their_context(lines: Seq<Seq<char>>, at: nat, context: nat)
    requires
        at < lines.len(),
    ensures
        match_text(lines, at, context) == rows_of(
            lines,
            |j: int| at - context <= j <= at + context,
            |j: int|
                if j == at {
                    ">"@
                } else {
                    " "@
                },
            lines.len(),
        ) + (if context > 0 {
            "--\n"@
        } else {
            ""@
        }),
{
    let picked = |j: int| at - context <= j <= at + context;
    let mark = |j: int|
        if j == at {
            ">"@
        } else {
            " "@
        };
    lemma_context_rows(lines, at, context, picked, mark, lines.len());
}

proof fn lemma_context_rows(
    lines: Seq<Seq<char>>,
    at: nat,
    context: nat,
    picked: spec_fn(int) -> bool,
    mark: spec_fn(int) -> Seq<char>,
    n: nat,
)
    requires
        at < lines.len(),
        n <= lines.len(),
        forall|j: int| #[trigger] picked(j) == (at - context <= j <= at + context),
        forall|j: int| #[trigger] mark(j) == (if j == at { ">"@ } else { " "@ }),
    ensures
        rows_of(lines, picked, mark, n) == marked_lines(
            lines,
            at,
            context_start(at, context),
            if n < context_end(at, context, lines.len()) {
                n
            } else {
                context_end(at, context, lines.len())
            },
        ),
    decreases n,
{
    let from = context_start(at, context);
    let to = context_end(at, context, lines.len());
    if n > 0 {
        lemma_context_rows(lines, at, context, picked, mark, (n - 1) as nat);
        let j = n - 1;
        if picked(j) {
            let before = marked_lines(lines, at, from, j as nat);
            assert(rows_of(lines, picked, mark, n) =~= before + mark(j) + numbered(
                lines[j],
                j as nat,
            ));
        }
    }
}

/// A page shows exactly its lines: those whose index, divided by the number of lines of a
/// page, is the number of the page, in order.
pub proof fn pages_show_their_lines(lines: Seq<Seq<char>>, size: nat, page: nat)
    requires
        size > 0,
        page < page_count(lines.len(), size),
    ensures
        numbered_lines(
            lines,
            page_start(page, size),
            page_end(page, size, lines.len()),
        ) == rows_of(
            lines,
            |j: int| j / size as int == page,
            |j: int| Seq::<char>::empty(),
            lines.len(),
        ),
{
    let picked = |j: int| j / size as int == page;
    let mark = |j: int| Seq::<char>::empty();
    lemma_page_rows(lines, size, page, picked, mark, lines.len());
    lemma_start_bound(page, lines.len(), size);
}

proof fn lemma_page_rows(
    lines: Seq<Seq<char>>,
    size: nat,
    page: nat,
    picked: spec_fn(int) -> bool,
    mark: spec_fn(int) -> Seq<char>,
    n: nat,
)
    requires
        size > 0,
        page < page_count(lines.len(), size),
        n <= lines.len(),
        forall|j: int| #[trigger] picked(j) == (j / size as int == page),
        forall|j: int| #[trigger] mark(j) == Seq::<char>::empty(),
    ensures
        rows_of(lines, picked, mark, n) == numbered_lines(
            lines,
            page_start(page, size),
            if n < page_end(page, size, lines.len()) {
                n
            } else {
                page_end(page, size, lines.len())
            },
        ),
    decreases n,
{
    if n > 0 {
        lemma_page_rows(lines, size, page, picked, mark, (n - 1) as nat);
        let j = (n - 1) as nat;
        pages_split_the_history(lines.len(), size, j, page);
        if picked(j as int) {
            let before = numbered_lines(lines, page_start(page, size), j);
            assert(before + mark(j as int) =~= before);
            assert(rows_of(lines, picked, mark, n) =~= before + numbered(lines[j as int], j));
        }
    }
}

/// How a page is chosen: a hundred lines each where no size is asked for, at least one, as
/// many pages as hold all lines and one for an empty history; the page asked for, counted
/// from 0, or the last.
pub proof fn pages_are_chosen_as_asked(
    total: nat,
    page_size: Option<usize>,
    page: Option<usize>,
)
    ensures
        page_size is None ==> used_page_size(page_size) == 100,
        page_size matches Some(n) ==> n > 0 ==> used_page_size(page_size) == n,
        page_size == Some(0usize) ==> used_page_size(page_size) == 1,
        ({
            let size = used_page_size(page_size);
            let pages = page_count(total, size);
            &&& size > 0
            &&& pages > 0
            &&& total <= pages * size
            &&& pages > 1 ==> (pages - 1) * size < total
            &&& page matches Some(p) ==> p < pages ==> used_page(page, pages) == p
            &&& page matches Some(p) ==> p >= pages ==> used_page(page, pages) == pages - 1
            &&& page is None ==> used_page(page, pages) == pages - 1
        }),
{
    let size = used_page_size(page_size);
    let s = size as int;
    if total > 0 {
        let n = total - 1;
        let q = n / s;
        assert(q * s <= n < q * s + s) by (nonlinear_arith)
            requires
                s >= 1,
                n >= 0,
                q == n / s,
        ;
        assert((q + 1) * s == q * s + s) by (nonlinear_arith);
    }
}

/// The heading of a page: how many lines there are, which page of how many it is, and which
/// lines it holds, all counted from 1. The lines of the page follow.
pub proof fn pages_have_a_heading(
    lines: Seq<Seq<char>>,
    page_size: Option<usize>,
    page: Option<usize>,
)
    ensures
        ({
            let size = used_page_size(page_size);
            let pages = page_count(lines.len(), size);
            let p = used_page(page, pages);
            let last = if p + 1 == pages {
                lines.len()
            } else {
                (p + 1) * size
            };
            page_text(lines, page_size, page) == "scrollback: "@ + text::dec(lines.len())
                + " lines, page "@ + text::dec(p + 1) + "/"@ + text::dec(pages) + " (lines "@
                + text::dec(p * size + 1) + "-"@ + text::dec(last) + ")\n"@ + rows_of(
                lines,
                |j: int| j / size as int == p,
                |j: int| Seq::<char>::empty(),
                lines.len(),
            )
        }),
{
    let size = used_page_size(page_size);
    let pages = page_count(lines.len(), size);
    let p = used_page(page, pages);
    pages_are_chosen_as_asked(lines.len(), page_size, page);
    pages_show_their_lines(lines, size, p);
    lemma_start_bound(p, lines.len(), size);
    assert((p + 1) * size == p * size + size) by (nonlinear_arith);
    if lines.len() > 0 {
        pages_split_the_history(lines.len(), size, 0, p);
        assert(page_start(p + 1, size) == (p + 1) * size);
    }
}

/// Of the first `n` lines the matches, each with its context.
pub open spec fn matches_of(
    lines: Seq<Seq<char>>,
    hits: Seq<bool>,
    context: nat,
    n: nat,
) -> Seq<char>
    decreases n,
{
    if n == 0 {
        Seq::empty()
    } else if hits[n - 1] {
        matches_of(lines, hits, context, (n - 1) as nat) + match_text(
            lines,
            (n - 1) as nat,
            context,
        )
    } else {
        matches_of(lines, hits, context, (n - 1) as nat)
    }
}

/// The number of hits is that of the lines that match.
pub proof fn hits_are_counted(hits: Seq<bool>, n: nat)
    requires
        n <= hits.len(),
    ensures
        hit_count(hits, n) == hits.take(n as int).filter(|b: bool| b).len(),
        hit_count(hits, n) <= n,
        hit_count(hits, n) == 0 <==> forall|i: int| 0 <= i < n ==> !#[trigger] hits[i],
    decreases n,
{
    reveal(Seq::filter);
    if n > 0 {
        hits_are_counted(hits, (n - 1) as nat);
        assert(hits.take(n as int).drop_last() =~= hits.take(n - 1));
        assert(hits.take(n as int).last() == hits[n - 1]);
    }
}

/// Every match is shown, in order, up to the number asked for (50 where none is, at least
/// one), and behind them, where there are more, a note with that number. The report starts
/// with how many are shown; where there is none it says so.
pub proof fn searches_show_every_match(
    pattern: Seq<char>,
    lines: Seq<Seq<char>>,
    hits: Seq<bool>,
    max_results: Option<usize>,
    context: Option<usize>,
    max: nat,
    cut: nat,
)
    requires
        hits.len() == lines.len(),
        max_results is None ==> max == 50,
        max_results matches Some(m) ==> max == (if m == 0 {
            1
        } else {
            m as nat
        }),
        cut <= lines.len(),
        hit_count(hits, cut) <= max,
        cut < lines.len() ==> hits[cut as int] && hit_count(hits, cut) == max,
    ensures
        ({
            let around = match context {
                Some(c) => c as nat,
                None => 0,
            };
            let shown = hit_count(hits, cut);
            search_text(pattern, lines, hits, max_results, context) == (if shown == 0 {
                "no matches for /"@ + pattern + "/ in "@ + text::dec(lines.len()) + " lines"@
            } else {
                text::dec(shown) + " match(es):\n"@ + (matches_of(lines, hits, around, cut) + (
                if cut < lines.len() {
                    "... (more than "@ + text::dec(max) + " matches, truncated)\n"@
                } else {
                    Seq::empty()
                }))
            })
        }),
{
    let around = match context {
        Some(c) => c as nat,
        None => 0,
    };
    assert(max > 0);
    lemma_all_shown(lines, hits, max, around, cut);
    let all = lines_report(lines, hits, max, around, lines.len());
    if cut < lines.len() {
        let next = cut + 1;
        nothing_follows_the_truncation(lines, hits, max, around, next, lines.len());
        assert(hit_count(hits, next) == max + 1);
        assert(lines_report(lines, hits, max, around, next) == matches_of(
            lines,
            hits,
            around,
            cut,
        ) + ("... (more than "@ + text::dec(max) + " matches, truncated)\n"@));
    } else {
        assert(matches_of(lines, hits, around, cut) + Seq::<char>::empty() =~= matches_of(
            lines,
            hits,
            around,
            cut,
        ));
    }
}

proof fn lemma_all_shown(
    lines: Seq<Seq<char>>,
    hits: Seq<bool>,
    max: nat,
    context: nat,
    n: nat,
)
    requires
        hits.len() == lines.len(),
        n <= lines.len(),
        hit_count(hits, n) <= max,
    ensures
        lines_report(lines, hits, max, context, n) == matches_of(lines, hits, context, n),
    decreases n,
{
    if n > 0 {
        lemma_all_shown(lines, hits, max, context, (n - 1) as nat);
        if !hits[n - 1] {
            assert(lines_report(lines, hits, max, context, n) =~= lines_report(
                lines,
                hits,
                max,
                context,
                (n - 1) as nat,
            ));
        }
    }
}

/// A line is a hit exactly where the pattern that was compiled, with the case it was
/// compiled for, matches somewhere in it.
pub proof fn hits_are_the_matching_lines(re: regex::Regex, lines: Seq<Seq<char>>, i: int)
    requires
        0 <= i < lines.len(),
    ensures
        regex_hits(re, lines).len() == lines.len(),
        ({
            let (pattern, ignore_case) = pattern::regex_source(re);
            regex_hits(re, lines)[i] == pattern::regex_matches(pattern, ignore_case, lines[i])
        }),
{
}

} // verus!
