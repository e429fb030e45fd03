//! Regular expressions, compiled and matched by the `regex` crate.

use crate::error::ToolError;
use crate::text;
use vstd::prelude::*;

verus! {

/// A compiled regular expression.
#[verifier::external_type_specification]
#[verifier::external_body]
pub struct ExRegex(regex::Regex);

/// What the compiler has to say against a pattern, or `None` where it takes it.
pub uninterp spec fn regex_refusal(pattern: Seq<char>, ignore_case: bool) -> Option<Seq<char>>;

/// The pattern that an expression was compiled from, and whether it ignores case.
pub uninterp spec fn regex_source(re: regex::Regex) -> (Seq<char>, bool);

/// Whether a pattern matches somewhere in a text.
pub uninterp spec fn regex_matches(pattern: Seq<char>, ignore_case: bool, s: Seq<char>) -> bool;

/// `RegexBuilder::new`, `case_insensitive` and `build`: the expression, or the
/// text of the compiler's error.
#[verifier::external_body]
fn build(pattern: &str, ignore_case: bool) -> (r: Result<regex::Regex, String>)
    ensures
        r is Ok <==> regex_refusal(pattern@, ignore_case) is None,
        r matches Ok(re) ==> regex_source(re) == (pattern@, ignore_case),
        r matches Err(e) ==> regex_refusal(pattern@, ignore_case) == Some(e@),
{
    let mut builder = regex::RegexBuilder::new(pattern);
    builder.case_insensitive(ignore_case).build().map_err(|e| e.to_string())
}

/// `Regex::is_match`: whether the expression matches somewhere in the text.
#[verifier::external_body]
pub(crate) fn is_match(re: &regex::Regex, s: &str) -> (b: bool)
    ensures
        b == regex_matches(regex_source(*re).0, regex_source(*re).1, s@),
{
    re.is_match(s)
}

/// Compiles a pattern, or says what is wrong with it.
pub fn compile(pattern: &str, ignore_case: bool) -> (r: Result<regex::Regex, ToolError>)
    ensures
        r is Ok <==> regex_refusal(pattern@, ignore_case) is None,
        r matches Ok(re) ==> regex_source(re) == (pattern@, ignore_case),
        r matches Err(e) ==> (e matches ToolError::BadRegex(s) && regex_refusal(
            pattern@,
            ignore_case,
        ) == Some(s@)),
{
    match build(pattern, ignore_case) {
        Ok(re) => Ok(re),
        Err(e) => Err(ToolError::BadRegex(e)),
    }
}

/// What is looked for in a text.
pub enum Needle {
    /// The text itself.
    Literal(String),
    /// A match of a regular expression.
    Pattern(regex::Regex),
}

/// Whether a text holds what is looked for.
pub open spec fn found_in(needle: Needle, s: Seq<char>) -> bool {
    match needle {
        Needle::Literal(t) => text::contains_text(s, t@),
        Needle::Pattern(re) => regex_matches(regex_source(re).0, regex_source(re).1, s),
    }
}

impl Needle {
    /// What is looked for: a text, or a pattern where `regex` says so.
    pub fn new(s: &str, regex: bool) -> (r: Result<Needle, ToolError>)
        ensures
            r is Ok <==> !regex || regex_refusal(s@, false) is None,
            r matches Ok(needle) ==> if regex {
                needle matches Needle::Pattern(re) && regex_source(re) == (s@, false)
            } else {
                needle matches Needle::Literal(t) && t@ == s@
            },
            r matches Err(e) ==> (e matches ToolError::BadRegex(t) && regex_refusal(s@, false)
                == Some(t@)),
    {
        if regex {
            match compile(s, false) {
                Ok(re) => Ok(Needle::Pattern(re)),
                Err(e) => Err(e),
            }
        } else {
            Ok(Needle::Literal(s.to_string()))
        }
    }

    /// Whether a text holds what is looked for.
    pub fn found_in(&self, s: &str) -> (b: bool)
        ensures
            b == found_in(*self, s@),
    {
        match self {
            Needle::Literal(t) => text::contains(s, t.as_str()),
            Needle::Pattern(re) => is_match(re, s),
        }
    }
}

// ---- Laws -------------------------------------------------------------------

/// What is looked for is found where it stands: a text wherever it is part of the other, with
/// anything before and behind it, and a pattern wherever it matches.
pub proof fn needles_are_found_where_they_stand(
    t: String,
    re: regex::Regex,
    before: Seq<char>,
    after: Seq<char>,
    s: Seq<char>,
)
    ensures
        found_in(Needle::Literal(t), before + t@ + after),
        found_in(Needle::Literal(t), s) <==> exists|i: int|
            0 <= i && i + t@.len() <= s.len() && #[trigger] s.subrange(i, i + t@.len()) == t@,
        found_in(Needle::Pattern(re), s) <==> ({
            let (pattern, ignore_case) = regex_source(re);
            regex_matches(pattern, ignore_case, s)
        }),
{
    let all = before + t@ + after;
    let at = before.len() as int;
    assert(all.subrange(at, at + t@.len()) =~= t@);
    assert(text::stands_at(all, at, t@));
    assert forall|i: int|
        0 <= i && i + t@.len() <= s.len() && #[trigger] s.subrange(i, i + t@.len()) == t@ implies text::contains_text(
        s,
        t@,
    ) by {
        assert(text::stands_at(s, i, t@));
    }
    if text::contains_text(s, t@) {
        let i = choose|i: int| text::stands_at(s, i, t@);
        assert(s.subrange(i, i + t@.len()) == t@);
    }
}

} // verus!
