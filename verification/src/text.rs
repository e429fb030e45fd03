//! Characters, decimal numbers and substrings: what the encoders and the
//! reply builders are made of.
//!
//! Strings are modelled as `Seq<char>`, their bytes as [`encode_utf8`] of that
//! sequence.

use vstd::prelude::*;
use vstd::utf8::*;

verus! {

// ---- Trusted parts of std ---------------------------------------------------

/// `String::push` appends the one character.
pub assume_specification[ String::push ](s: &mut String, c: char)
    ensures
        final(s)@ == old(s)@.push(c),
;

/// Whether a character has the Unicode property White_Space.
pub open spec fn unicode_whitespace(c: char) -> bool {
    ||| '\t' <= c <= '\r'
    ||| c == ' '
    ||| c == '\u{85}'
    ||| c == '\u{a0}'
    ||| c == '\u{1680}'
    ||| '\u{2000}' <= c <= '\u{200a}'
    ||| c == '\u{2028}'
    ||| c == '\u{2029}'
    ||| c == '\u{202f}'
    ||| c == '\u{205f}'
    ||| c == '\u{3000}'
}

/// `char::is_whitespace`: the Unicode property White_Space.
#[verifier::external_body]
pub(crate) fn is_whitespace(c: char) -> (b: bool)
    ensures
        b == unicode_whitespace(c),
{
    c.is_whitespace()
}

/// The first character of a character's Unicode lowercase form.
pub uninterp spec fn unicode_lowercase_head(c: char) -> char;

/// `char::to_lowercase`, of whose characters only the first is taken: an ASCII
/// letter becomes its small form, and every other ASCII character is its own.
#[verifier::external_body]
pub(crate) fn lowercase_head(c: char) -> (r: char)
    ensures
        r == unicode_lowercase_head(c),
        c <= '\u{7f}' ==> r == ascii_lower(c),
{
    c.to_lowercase().next().unwrap_or(c)
}

/// The text that a byte string stands for when every ill-formed part of it is
/// replaced by U+FFFD.
pub uninterp spec fn utf8_lossy(bytes: Seq<u8>) -> Seq<char>;

/// `String::from_utf8_lossy`: well-formed UTF-8 is decoded as it stands, and
/// nothing is left out, so that only an empty byte string gives an empty text. How
/// many replacement characters an ill-formed part gives is left to the name.
#[verifier::external_body]
pub(crate) fn from_utf8_lossy(bytes: &[u8]) -> (s: String)
    ensures
        s@ == utf8_lossy(bytes@),
        valid_utf8(bytes@) ==> s@ == decode_utf8(bytes@),
        s@.len() == 0 <==> bytes@.len() == 0,
{
    String::from_utf8_lossy(bytes).into_owned()
}

// ---- ASCII case -------------------------------------------------------------

pub open spec fn ascii_lower(c: char) -> char {
    if 'A' <= c <= 'Z' {
        ((c as u32 + 32) as u32) as char
    } else {
        c
    }
}

pub open spec fn ascii_upper(c: char) -> char {
    if 'a' <= c <= 'z' {
        ((c as u32 - 32) as u32) as char
    } else {
        c
    }
}

/// The text with its ASCII capitals made small.
pub open spec fn lower(s: Seq<char>) -> Seq<char> {
    Seq::new(s.len(), |i: int| ascii_lower(s[i]))
}

/// The text with its ASCII small letters made capital.
pub open spec fn upper(s: Seq<char>) -> Seq<char> {
    Seq::new(s.len(), |i: int| ascii_upper(s[i]))
}

pub fn to_lower_char(c: char) -> (r: char)
    ensures
        r == ascii_lower(c),
{
    if 'A' <= c && c <= 'Z' {
        (c as u8 + 32) as char
    } else {
        c
    }
}

pub fn to_upper_char(c: char) -> (r: char)
    ensures
        r == ascii_upper(c),
{
    if 'a' <= c && c <= 'z' {
        (c as u8 - 32) as char
    } else {
        c
    }
}

pub fn to_lower(s: &str) -> (r: String)
    ensures
        r@ == lower(s@),
{
    let mut out = String::new();
    for c in it: s.chars()
        invariant
            it.seq() == s@,
            out@ == lower(s@).take(it.index()),
    {
        out.push(to_lower_char(c));
        assert(lower(s@).take(it.index() + 1) =~= lower(s@).take(it.index()).push(ascii_lower(c)));
    }
    assert(lower(s@).take(s@.len() as int) =~= lower(s@));
    out
}

pub fn to_upper(s: &str) -> (r: String)
    ensures
        r@ == upper(s@),
{
    let mut out = String::new();
    for c in it: s.chars()
        invariant
            it.seq() == s@,
            out@ == upper(s@).take(it.index()),
    {
        out.push(to_upper_char(c));
        assert(upper(s@).take(it.index() + 1) =~= upper(s@).take(it.index()).push(ascii_upper(c)));
    }
    assert(upper(s@).take(s@.len() as int) =~= upper(s@));
    out
}

// ---- Characters in a row ----------------------------------------------------

/// The characters of a string, so that they can be indexed.
pub fn chars_of(s: &str) -> (r: Vec<char>)
    ensures
        r@ == s@,
{
    let mut v: Vec<char> = Vec::new();
    for c in it: s.chars()
        invariant
            it.seq() == s@,
            v@ == s@.take(it.index()),
    {
        v.push(c);
        assert(s@.take(it.index() + 1) =~= s@.take(it.index()).push(c));
    }
    assert(s@.take(s@.len() as int) =~= s@);
    v
}

/// The characters from `from` up to but not counting `to`, as a string.
pub fn string_of(v: &[char], from: usize, to: usize) -> (r: String)
    requires
        from <= to <= v@.len(),
    ensures
        r@ == v@.subrange(from as int, to as int),
{
    let mut out = String::new();
    let mut i: usize = from;
    while i < to
        invariant
            from <= i <= to <= v@.len(),
            out@ == v@.subrange(from as int, i as int),
        decreases to - i,
    {
        out.push(v[i]);
        i += 1;
        assert(v@.subrange(from as int, i as int) =~= v@.subrange(from as int, i - 1).push(v@[i - 1]));
    }
    out
}

/// Equality of texts.
pub fn str_eq(a: &str, b: &str) -> (r: bool)
    ensures
        r == (a@ == b@),
{
    let x = chars_of(a);
    let y = chars_of(b);
    assert(x@.subrange(0, x@.len() as int) =~= x@);
    x.len() == y.len() && chars_at(&x, 0, &y)
}

/// Whether `needle` stands in `hay` at position `at`.
pub open spec fn stands_at(hay: Seq<char>, at: int, needle: Seq<char>) -> bool {
    0 <= at && at + needle.len() <= hay.len() && hay.subrange(at, at + needle.len()) == needle
}

pub fn chars_at(hay: &[char], at: usize, needle: &[char]) -> (r: bool)
    ensures
        r == stands_at(hay@, at as int, needle@),
{
    if at > hay.len() || needle.len() > hay.len() - at {
        return false;
    }
    let mut k: usize = 0;
    while k < needle.len()
        invariant
            k <= needle@.len(),
            at + needle@.len() <= hay@.len() <= usize::MAX,
            forall|j: int| 0 <= j < k ==> hay@[at + j] == needle@[j],
        decreases needle.len() - k,
    {
        if hay[at + k] != needle[k] {
            assert(hay@.subrange(at as int, at + needle@.len())[k as int] != needle@[k as int]);
            return false;
        }
        k += 1;
    }
    assert(hay@.subrange(at as int, at + needle@.len()) =~= needle@);
    true
}

/// Whether `needle` stands anywhere in `hay`.
pub open spec fn contains_text(hay: Seq<char>, needle: Seq<char>) -> bool {
    exists|at: int| stands_at(hay, at, needle)
}

/// `str::contains` of a string.
pub fn contains(hay: &str, needle: &str) -> (r: bool)
    ensures
        r == contains_text(hay@, needle@),
{
    let h = chars_of(hay);
    let n = chars_of(needle);
    if n.len() > h.len() {
        return false;
    }
    let last: usize = h.len() - n.len();
    let mut at: usize = 0;
    loop
        invariant
            h@ == hay@,
            n@ == needle@,
            n@.len() <= h@.len(),
            last == h@.len() - n@.len(),
            at <= last,
            forall|j: int| 0 <= j < at ==> !stands_at(hay@, j, needle@),
        decreases last - at,
    {
        if chars_at(&h, at, &n) {
            return true;
        }
        if at == last {
            return false;
        }
        at += 1;
    }
}

/// How often `needle` is found in `hay` when the search goes on behind each
/// occurrence. The empty text is found before every character and at the end.
pub open spec fn occurrences(hay: Seq<char>, needle: Seq<char>) -> nat
    decreases hay.len(),
{
    if needle.len() == 0 {
        hay.len() + 1
    } else if hay.len() < needle.len() {
        0
    } else if stands_at(hay, 0, needle) {
        1 + occurrences(hay.skip(needle.len() as int), needle)
    } else {
        occurrences(hay.skip(1), needle)
    }
}

/// The number of matches that `str::matches` walks over, or `cap` where there
/// are more.
pub fn count_occurrences(hay: &[char], needle: &[char], cap: usize) -> (n: usize)
    ensures
        n == (if occurrences(hay@, needle@) < cap { occurrences(hay@, needle@) } else { cap as nat }),
{
    if needle.len() == 0 {
        return if hay.len() < cap { hay.len() + 1 } else { cap };
    }
    let mut at: usize = 0;
    let mut n: usize = 0;
    assert(hay@.skip(0) =~= hay@);
    while n < cap && at <= hay.len() && needle.len() <= hay.len() - at
        invariant
            needle@.len() > 0,
            n <= cap,
            at <= hay@.len(),
            occurrences(hay@, needle@) == n + occurrences(hay@.skip(at as int), needle@),
        decreases hay.len() - at,
    {
        let ghost rest = hay@.skip(at as int);
        assert(stands_at(rest, 0, needle@) == stands_at(hay@, at as int, needle@)) by {
            assert(rest.subrange(0, needle@.len() as int)
                =~= hay@.subrange(at as int, at + needle@.len()));
        }
        if chars_at(hay, at, needle) {
            assert(rest.skip(needle@.len() as int) =~= hay@.skip(at + needle@.len()));
            n += 1;
            at += needle.len();
        } else {
            assert(rest.skip(1) =~= hay@.skip(at + 1));
            at += 1;
        }
    }
    n
}

/// A text is counted somewhere exactly where it is contained.
pub proof fn occurring_is_counted(hay: Seq<char>, needle: Seq<char>)
    ensures
        occurrences(hay, needle) > 0 <==> contains_text(hay, needle),
    decreases hay.len(),
{
    if needle.len() == 0 {
        assert(hay.subrange(0, 0) =~= needle);
        assert(stands_at(hay, 0, needle));
    } else if hay.len() < needle.len() {
        assert forall|at: int| !stands_at(hay, at, needle) by {}
    } else if !stands_at(hay, 0, needle) {
        let rest = hay.skip(1);
        occurring_is_counted(rest, needle);
        if contains_text(hay, needle) {
            let at = choose|at: int| stands_at(hay, at, needle);
            assert(at > 0);
            assert(rest.subrange(at - 1, at - 1 + needle.len()) =~= hay.subrange(
                at,
                at + needle.len(),
            ));
            assert(stands_at(rest, at - 1, needle));
        }
        if contains_text(rest, needle) {
            let at = choose|at: int| stands_at(rest, at, needle);
            assert(rest.subrange(at, at + needle.len()) =~= hay.subrange(
                at + 1,
                at + 1 + needle.len(),
            ));
            assert(stands_at(hay, at + 1, needle));
        }
    }
}

// ---- Splitting --------------------------------------------------------------

/// The parts of a text between the occurrences of a separator; without one,
/// the text is the only part.
pub open spec fn split<T>(s: Seq<T>, sep: T) -> Seq<Seq<T>>
    decreases s.len(),
{
    if s.len() == 0 {
        seq![s]
    } else {
        let before = split(s.drop_last(), sep);
        if s.last() == sep {
            before.push(Seq::empty())
        } else {
            before.drop_last().push(before.last().push(s.last()))
        }
    }
}

/// The views of a list of strings.
pub open spec fn views(list: Seq<String>) -> Seq<Seq<char>> {
    Seq::new(list.len(), |i: int| list[i]@)
}

/// `str::split` at a character.
pub fn split_at_char(s: &str, sep: char) -> (r: Vec<String>)
    ensures
        views(r@) == split(s@, sep),
        r@.len() >= 1,
{
    let mut parts: Vec<String> = Vec::new();
    let mut cur = String::new();
    assert(s@.take(0) =~= Seq::<char>::empty());
    assert(views(parts@).push(cur@) =~= split(s@.take(0), sep));
    for c in it: s.chars()
        invariant
            it.seq() == s@,
            views(parts@).push(cur@) == split(s@.take(it.index()), sep),
    {
        let ghost before = s@.take(it.index());
        let ghost after = s@.take(it.index() + 1);
        assert(after.drop_last() =~= before);
        assert(after.last() == c);
        let ghost old_parts = parts@;
        let ghost old_cur = cur@;
        if c == sep {
            parts.push(cur);
            cur = String::new();
            assert(views(parts@) =~= views(old_parts).push(old_cur));
            assert(cur@ =~= Seq::<char>::empty());
        } else {
            cur.push(c);
            assert(views(old_parts).push(old_cur).drop_last() =~= views(parts@));
        }
    }
    assert(s@.take(s@.len() as int) =~= s@);
    let ghost old_parts = parts@;
    parts.push(cur);
    assert(views(parts@) =~= views(old_parts).push(cur@));
    parts
}

/// The views of a list of byte strings.
pub open spec fn byte_views(list: Seq<Vec<u8>>) -> Seq<Seq<u8>> {
    Seq::new(list.len(), |i: int| list[i]@)
}

/// `slice::split` at a byte.
pub fn split_bytes(s: &[u8], sep: u8) -> (r: Vec<Vec<u8>>)
    ensures
        byte_views(r@) == split(s@, sep),
        r@.len() >= 1,
{
    let mut parts: Vec<Vec<u8>> = Vec::new();
    let mut cur: Vec<u8> = Vec::new();
    assert(s@.take(0) =~= Seq::<u8>::empty());
    assert(byte_views(parts@).push(cur@) =~= split(s@.take(0), sep));
    let mut i: usize = 0;
    while i < s.len()
        invariant
            i <= s@.len(),
            byte_views(parts@).push(cur@) == split(s@.take(i as int), sep),
        decreases s.len() - i,
    {
        let b = s[i];
        let ghost after = s@.take(i + 1);
        assert(after.drop_last() =~= s@.take(i as int));
        assert(after.last() == b);
        let ghost old_parts = parts@;
        let ghost old_cur = cur@;
        if b == sep {
            parts.push(cur);
            cur = Vec::new();
            assert(byte_views(parts@) =~= byte_views(old_parts).push(old_cur));
            assert(cur@ =~= Seq::<u8>::empty());
        } else {
            cur.push(b);
            assert(byte_views(old_parts).push(old_cur).drop_last() =~= byte_views(parts@));
        }
        i += 1;
    }
    assert(s@.take(s@.len() as int) =~= s@);
    let ghost old_parts = parts@;
    parts.push(cur);
    assert(byte_views(parts@) =~= byte_views(old_parts).push(cur@));
    parts
}

/// Equality of byte strings.
pub fn bytes_eq(a: &[u8], b: &[u8]) -> (r: bool)
    ensures
        r == (a@ == b@),
{
    if a.len() != b.len() {
        return false;
    }
    let mut i: usize = 0;
    while i < a.len()
        invariant
            a@.len() == b@.len(),
            i <= a@.len(),
            forall|j: int| 0 <= j < i ==> a@[j] == b@[j],
        decreases a.len() - i,
    {
        if a[i] != b[i] {
            return false;
        }
        i += 1;
    }
    assert(a@ =~= b@);
    true
}

/// The first `n` of a list of texts, with a separator between them.
pub open spec fn joined(parts: Seq<Seq<char>>, sep: Seq<char>, n: nat) -> Seq<char>
    decreases n,
{
    if n == 0 {
        Seq::empty()
    } else if n == 1 {
        parts[0]
    } else {
        joined(parts, sep, (n - 1) as nat) + sep + parts[n - 1]
    }
}

/// `join` of a list of strings.
pub fn join(parts: &[String], sep: &str) -> (r: String)
    ensures
        r@ == joined(views(parts@), sep@, parts@.len()),
{
    let ghost all = views(parts@);
    let mut out = String::new();
    assert(out@ =~= Seq::<char>::empty());
    let mut i: usize = 0;
    while i < parts.len()
        invariant
            i <= parts@.len(),
            all == views(parts@),
            out@ == joined(all, sep@, i as nat),
        decreases parts.len() - i,
    {
        let ghost before = out@;
        if i > 0 {
            out.append(sep);
        }
        out.append(parts[i].as_str());
        assert(all[i as int] == parts@[i as int]@);
        assert(out@ =~= joined(all, sep@, (i + 1) as nat));
        i += 1;
    }
    out
}

/// A text between two others.
pub fn framed(before: &str, s: &str, after: &str) -> (r: String)
    ensures
        r@ == before@ + s@ + after@,
{
    let mut out = String::new();
    out.append(before);
    out.append(s);
    out.append(after);
    assert(out@ =~= before@ + s@ + after@);
    out
}

/// A text without a prefix, where it has it.
pub open spec fn stripped(s: Seq<char>, prefix: Seq<char>) -> Seq<char> {
    if stands_at(s, 0, prefix) {
        s.skip(prefix.len() as int)
    } else {
        s
    }
}

/// `str::strip_prefix`, or the text where it does not start with the prefix.
pub fn strip(s: &str, prefix: &str) -> (r: String)
    ensures
        r@ == stripped(s@, prefix@),
{
    let v = chars_of(s);
    let p = chars_of(prefix);
    if chars_at(&v, 0, &p) {
        assert(v@.subrange(p@.len() as int, v@.len() as int) =~= v@.skip(p@.len() as int));
        string_of(&v, p.len(), v.len())
    } else {
        s.to_string()
    }
}

// ---- Trimming ---------------------------------------------------------------

/// The text without the whitespace that it starts with.
pub open spec fn trim_start(s: Seq<char>) -> Seq<char>
    decreases s.len(),
{
    if s.len() > 0 && unicode_whitespace(s[0]) {
        trim_start(s.drop_first())
    } else {
        s
    }
}

/// The text without the whitespace that it ends with.
pub open spec fn trim_end(s: Seq<char>) -> Seq<char>
    decreases s.len(),
{
    if s.len() > 0 && unicode_whitespace(s.last()) {
        trim_end(s.drop_last())
    } else {
        s
    }
}

/// The text without the whitespace around it.
pub open spec fn trimmed(s: Seq<char>) -> Seq<char> {
    trim_end(trim_start(s))
}

/// `str::trim`.
pub fn trim(s: &str) -> (r: String)
    ensures
        r@ == trimmed(s@),
{
    let v = chars_of(s);
    let mut from: usize = 0;
    assert(v@.skip(0) =~= v@);
    while from < v.len() && is_whitespace(v[from])
        invariant
            from <= v@.len(),
            trim_start(v@) == trim_start(v@.skip(from as int)),
        decreases v.len() - from,
    {
        assert(v@.skip(from as int).drop_first() =~= v@.skip(from + 1));
        from += 1;
    }
    assert(trim_start(v@) == v@.skip(from as int));
    let mut to: usize = v.len();
    assert(v@.subrange(from as int, to as int) =~= v@.skip(from as int));
    while to > from && is_whitespace(v[to - 1])
        invariant
            from <= to <= v@.len(),
            trim_end(v@.skip(from as int)) == trim_end(v@.subrange(from as int, to as int)),
        decreases to - from,
    {
        assert(v@.subrange(from as int, to as int).drop_last() =~= v@.subrange(from as int, to - 1));
        to -= 1;
    }
    string_of(&v, from, to)
}

/// Whether a text is nothing but whitespace.
pub open spec fn blank(s: Seq<char>) -> bool {
    forall|i: int| 0 <= i < s.len() ==> unicode_whitespace(#[trigger] s[i])
}

/// Whether some character of a text is whitespace.
pub open spec fn has_whitespace(s: Seq<char>) -> bool {
    exists|i: int| 0 <= i < s.len() && unicode_whitespace(#[trigger] s[i])
}

pub fn is_blank(s: &str) -> (r: bool)
    ensures
        r == blank(s@),
{
    let v = chars_of(s);
    let mut i: usize = 0;
    while i < v.len()
        invariant
            i <= v@.len(),
            v@ == s@,
            forall|j: int| 0 <= j < i ==> unicode_whitespace(#[trigger] s@[j]),
        decreases v.len() - i,
    {
        if !is_whitespace(v[i]) {
            assert(!unicode_whitespace(s@[i as int]));
            return false;
        }
        i += 1;
    }
    true
}

/// Whether some character of a text is whitespace.
pub fn any_whitespace(s: &str) -> (r: bool)
    ensures
        r == has_whitespace(s@),
{
    let v = chars_of(s);
    let mut i: usize = 0;
    while i < v.len()
        invariant
            i <= v@.len(),
            v@ == s@,
            forall|j: int| 0 <= j < i ==> !unicode_whitespace(#[trigger] s@[j]),
        decreases v.len() - i,
    {
        if is_whitespace(v[i]) {
            assert(unicode_whitespace(s@[i as int]));
            return true;
        }
        i += 1;
    }
    false
}

/// A text is blank exactly where trimming leaves nothing of it.
pub proof fn blank_trims_to_nothing(s: Seq<char>)
    ensures
        blank(s) <==> trimmed(s).len() == 0,
    decreases s.len(),
{
    if s.len() > 0 {
        if unicode_whitespace(s[0]) {
            blank_trims_to_nothing(s.drop_first());
            assert(blank(s.drop_first()) ==> blank(s)) by {
                if blank(s.drop_first()) {
                    assert forall|i: int| 0 <= i < s.len() implies unicode_whitespace(
                        #[trigger] s[i],
                    ) by {
                        if i > 0 {
                            assert(s.drop_first()[i - 1] == s[i]);
                        }
                    }
                }
            }
            assert(blank(s) ==> blank(s.drop_first())) by {
                if blank(s) {
                    assert forall|i: int| 0 <= i < s.drop_first().len() implies unicode_whitespace(
                        #[trigger] s.drop_first()[i],
                    ) by {
                        assert(s.drop_first()[i] == s[i + 1]);
                    }
                }
            }
        } else {
            lemma_trim_end_keeps_head(s);
        }
    }
}

/// Trimming twice is trimming once.
pub proof fn trimming_is_idempotent(s: Seq<char>)
    ensures
        trimmed(trimmed(s)) == trimmed(s),
{
    let from = trim_start(s);
    lemma_trim_start_head(s);
    lemma_trim_end_last(from);
    if trimmed(s).len() > 0 {
        lemma_trim_end_prefix(from);
        assert(trimmed(s)[0] == from[0]);
    }
}

proof fn lemma_trim_start_head(s: Seq<char>)
    ensures
        trim_start(s).len() > 0 ==> !unicode_whitespace(trim_start(s)[0]),
    decreases s.len(),
{
    if s.len() > 0 && unicode_whitespace(s[0]) {
        lemma_trim_start_head(s.drop_first());
    }
}

proof fn lemma_trim_end_last(s: Seq<char>)
    ensures
        trim_end(s).len() > 0 ==> !unicode_whitespace(trim_end(s).last()),
    decreases s.len(),
{
    if s.len() > 0 && unicode_whitespace(s.last()) {
        lemma_trim_end_last(s.drop_last());
    }
}

proof fn lemma_trim_end_prefix(s: Seq<char>)
    ensures
        trim_end(s).len() <= s.len(),
        trim_end(s).len() > 0 ==> trim_end(s)[0] == s[0],
    decreases s.len(),
{
    if s.len() > 0 && unicode_whitespace(s.last()) {
        lemma_trim_end_prefix(s.drop_last());
    }
}

proof fn lemma_trim_end_keeps_head(s: Seq<char>)
    requires
        s.len() > 0,
        !unicode_whitespace(s[0]),
    ensures
        trim_end(s).len() > 0,
    decreases s.len(),
{
    if unicode_whitespace(s.last()) {
        assert(s.len() > 1);
        assert(s.drop_last()[0] == s[0]);
        lemma_trim_end_keeps_head(s.drop_last());
    }
}

// ---- Decimal numbers --------------------------------------------------------

/// The decimal digit of a number below ten.
pub open spec fn digit(d: nat) -> char {
    ((48 + d) as u32) as char
}

/// A number in decimal.
pub open spec fn dec(n: nat) -> Seq<char>
    decreases n,
{
    if n < 10 {
        seq![digit(n)]
    } else {
        dec(n / 10).push(digit(n % 10))
    }
}

/// A number in decimal, as ASCII bytes.
pub open spec fn dec_bytes(n: nat) -> Seq<u8>
    decreases n,
{
    if n < 10 {
        seq![(48 + n) as u8]
    } else {
        dec_bytes(n / 10).push((48 + n % 10) as u8)
    }
}

pub fn push_dec(out: &mut String, n: u64)
    ensures
        final(out)@ == old(out)@ + dec(n as nat),
    decreases n,
{
    if n < 10 {
        out.push((48 + n as u8) as char);
        assert(out@ =~= old(out)@ + dec(n as nat));
    } else {
        push_dec(out, n / 10);
        let ghost before = out@;
        out.push((48 + (n % 10) as u8) as char);
        assert(out@ =~= old(out)@ + dec(n as nat));
    }
}

pub fn push_dec_bytes(out: &mut Vec<u8>, n: u64)
    ensures
        final(out)@ == old(out)@ + dec_bytes(n as nat),
    decreases n,
{
    if n < 10 {
        out.push(48 + n as u8);
        assert(out@ =~= old(out)@ + dec_bytes(n as nat));
    } else {
        push_dec_bytes(out, n / 10);
        out.push(48 + (n % 10) as u8);
        assert(out@ =~= old(out)@ + dec_bytes(n as nat));
    }
}

/// A text with `fill` put before it until it is `width` characters long.
pub open spec fn pad_left(s: Seq<char>, width: nat, fill: char) -> Seq<char> {
    if s.len() >= width {
        s
    } else {
        Seq::new((width - s.len()) as nat, |i: int| fill) + s
    }
}

/// Appends a number in decimal, right-aligned in `width` columns.
pub fn push_padded(out: &mut String, n: u64, width: usize, fill: char)
    ensures
        final(out)@ == old(out)@ + pad_left(dec(n as nat), width as nat, fill),
{
    let mut digits = String::new();
    push_dec(&mut digits, n);
    assert(digits@ =~= dec(n as nat));
    let v = chars_of(&digits);
    let mut k: usize = v.len();
    while k < width
        invariant
            v@.len() <= k,
            k <= width || k == v@.len(),
            out@ == old(out)@ + Seq::new((k - v@.len()) as nat, |i: int| fill),
        decreases width - k,
    {
        let ghost before = Seq::new((k - v@.len()) as nat, |i: int| fill);
        out.push(fill);
        k += 1;
        assert(Seq::new((k - v@.len()) as nat, |i: int| fill) =~= before.push(fill));
        assert(out@ =~= old(out)@ + Seq::new((k - v@.len()) as nat, |i: int| fill));
    }
    out.append(digits.as_str());
    assert(out@ =~= old(out)@ + pad_left(dec(n as nat), width as nat, fill));
}

// ---- Bytes of text ----------------------------------------------------------

/// The UTF-8 bytes of one character.
pub open spec fn utf8(c: char) -> Seq<u8> {
    encode_utf8(seq![c])
}

/// `char::encode_utf8`, appended to a buffer.
pub fn push_utf8(out: &mut Vec<u8>, c: char)
    ensures
        final(out)@ == old(out)@ + utf8(c),
{
    let mut s = String::new();
    s.push(c);
    assert(s@ =~= seq![c]);
    out.extend_from_slice(s.as_str().as_bytes());
}

/// The bytes of a string.
pub fn bytes_of(s: &str) -> (r: Vec<u8>)
    ensures
        r@ == encode_utf8(s@),
{
    let mut out: Vec<u8> = Vec::new();
    out.extend_from_slice(s.as_bytes());
    assert(out@ =~= encode_utf8(s@));
    out
}

/// The bytes of two texts in a row are the bytes of the one, then of the other.
pub proof fn encode_utf8_concat(a: Seq<char>, b: Seq<char>)
    ensures
        encode_utf8(a + b) == encode_utf8(a) + encode_utf8(b),
    decreases a.len(),
{
    if a.len() == 0 {
        assert(a + b =~= b);
        assert(encode_utf8(a) + encode_utf8(b) =~= encode_utf8(b));
    } else {
        assert((a + b).drop_first() =~= a.drop_first() + b);
        encode_utf8_concat(a.drop_first(), b);
        assert(encode_utf8(a + b) =~= encode_utf8(a) + encode_utf8(b));
    }
}

// ---- Order ------------------------------------------------------------------

/// Whether one text comes before another: at the first character in which they
/// differ it has the smaller one, or it ends where the other goes on.
pub open spec fn text_lt(a: Seq<char>, b: Seq<char>) -> bool
    decreases a.len(),
{
    if b.len() == 0 {
        false
    } else if a.len() == 0 {
        true
    } else if a[0] == b[0] {
        text_lt(a.drop_first(), b.drop_first())
    } else {
        a[0] < b[0]
    }
}

/// Whether `a` comes before `b`, the order of `str`.
pub fn str_lt(a: &str, b: &str) -> (r: bool)
    ensures
        r == text_lt(a@, b@),
{
    let x = chars_of(a);
    let y = chars_of(b);
    let mut i: usize = 0;
    assert(x@.skip(0) =~= x@);
    assert(y@.skip(0) =~= y@);
    while i < x.len() && i < y.len() && x[i] == y[i]
        invariant
            i <= x@.len(),
            i <= y@.len(),
            text_lt(x@, y@) == text_lt(x@.skip(i as int), y@.skip(i as int)),
        decreases x.len() - i,
    {
        assert(x@.skip(i as int).drop_first() =~= x@.skip(i + 1));
        assert(y@.skip(i as int).drop_first() =~= y@.skip(i + 1));
        i += 1;
    }
    if i >= y.len() {
        false
    } else if i >= x.len() {
        true
    } else {
        x[i] < y[i]
    }
}

/// No text comes before itself.
pub proof fn text_lt_irreflexive(a: Seq<char>)
    ensures
        !text_lt(a, a),
    decreases a.len(),
{
    if a.len() > 0 {
        text_lt_irreflexive(a.drop_first());
    }
}

/// A text before a second one that is before a third is before the third.
pub proof fn text_lt_transitive(a: Seq<char>, b: Seq<char>, c: Seq<char>)
    requires
        text_lt(a, b),
        text_lt(b, c),
    ensures
        text_lt(a, c),
    decreases a.len(),
{
    if a.len() > 0 && a[0] == b[0] && b[0] == c[0] {
        text_lt_transitive(a.drop_first(), b.drop_first(), c.drop_first());
    }
}

/// Of two different texts one comes before the other.
pub proof fn text_lt_total(a: Seq<char>, b: Seq<char>)
    ensures
        a == b || text_lt(a, b) || text_lt(b, a),
    decreases a.len(),
{
    if a.len() == 0 {
        if b.len() == 0 {
            assert(a =~= b);
        }
    } else if b.len() > 0 && a[0] == b[0] {
        text_lt_total(a.drop_first(), b.drop_first());
        if a.drop_first() == b.drop_first() {
            assert(a =~= seq![a[0]] + a.drop_first());
            assert(b =~= seq![b[0]] + b.drop_first());
        }
    }
}

// ---- Laws -------------------------------------------------------------------

/// The value of a row of decimal digits.
pub open spec fn decimal_value(s: Seq<char>) -> nat
    decreases s.len(),
{
    if s.len() == 0 {
        0
    } else {
        (10 * decimal_value(s.drop_last()) + (s.last() as int - '0' as int)) as nat
    }
}

/// A number in decimal is a row of digits, not empty, that has the number as its value
/// and no zero in front unless it is the only digit.
pub proof fn decimals_are_read_back(n: nat)
    ensures
        decimal_value(dec(n)) == n,
        dec(n).len() > 0,
        forall|i: int| 0 <= i < dec(n).len() ==> '0' <= #[trigger] dec(n)[i] <= '9',
        dec(n).len() > 1 ==> dec(n)[0] != '0',
    decreases n,
{
    let d = dec(n);
    assert(decimal_value(Seq::empty()) == 0);
    if n < 10 {
        assert(d.drop_last() =~= Seq::<char>::empty());
    } else {
        decimals_are_read_back(n / 10);
        let init = dec(n / 10);
        assert(d.drop_last() =~= init);
        assert forall|i: int| 0 <= i < d.len() implies '0' <= #[trigger] d[i] <= '9' by {
            if i < init.len() {
                assert(d[i] == init[i]);
            }
        }
        assert(d[0] == init[0]);
        if init.len() == 1 {
            assert(init.drop_last() =~= Seq::<char>::empty());
            assert(decimal_value(init) == init[0] as int - '0' as int);
        }
    }
}

/// The bytes of a number in decimal are those of its digits.
pub proof fn decimal_bytes_are_the_digits(n: nat)
    ensures
        dec_bytes(n).len() == dec(n).len(),
        forall|i: int| 0 <= i < dec(n).len() ==> #[trigger] dec_bytes(n)[i] == dec(n)[i] as u8,
    decreases n,
{
    if n >= 10 {
        decimal_bytes_are_the_digits(n / 10);
        assert forall|i: int| 0 <= i < dec(n).len() implies #[trigger] dec_bytes(n)[i] == dec(
            n,
        )[i] as u8 by {
            if i < dec(n / 10).len() {
                assert(dec_bytes(n)[i] == dec_bytes(n / 10)[i]);
                assert(dec(n)[i] == dec(n / 10)[i]);
            }
        }
    }
}

/// Different numbers are written differently.
pub proof fn decimals_tell_numbers_apart(a: nat, b: nat)
    requires
        dec(a) == dec(b) || dec_bytes(a) == dec_bytes(b),
    ensures
        a == b,
{
    decimals_are_read_back(a);
    decimals_are_read_back(b);
    decimal_bytes_are_the_digits(a);
    decimal_bytes_are_the_digits(b);
    if dec_bytes(a) == dec_bytes(b) {
        assert forall|i: int| 0 <= i < dec(a).len() implies dec(a)[i] == dec(b)[i] by {
            assert(dec_bytes(a)[i] == dec(a)[i] as u8);
            assert(dec_bytes(b)[i] == dec(b)[i] as u8);
            assert('0' <= dec(a)[i] <= '9');
            assert('0' <= dec(b)[i] <= '9');
        }
        assert(dec(a) =~= dec(b));
    }
}

/// A padded text ends in the text, has nothing but the filling before it, and is as wide
/// as asked for unless the text is wider.
pub proof fn padding_stands_in_front(s: Seq<char>, width: nat, fill: char)
    ensures
        pad_left(s, width, fill).len() == (if s.len() < width {
            width
        } else {
            s.len()
        }),
        pad_left(s, width, fill).skip(pad_left(s, width, fill).len() - s.len()) == s,
        forall|i: int|
            0 <= i < pad_left(s, width, fill).len() - s.len() ==> #[trigger] pad_left(
                s,
                width,
                fill,
            )[i] == fill,
{
    assert(pad_left(s, width, fill).skip(pad_left(s, width, fill).len() - s.len()) =~= s);
}

/// The two ASCII cases of a text: neither changes its length or anything but ASCII letters,
/// a small text holds no capital and a capital one no small letter, and each can be had
/// from the other.
pub proof fn cases_differ_in_letters_only(s: Seq<char>, i: int)
    requires
        0 <= i < s.len(),
    ensures
        lower(s).len() == s.len(),
        upper(s).len() == s.len(),
        !('A' <= lower(s)[i] <= 'Z'),
        !('a' <= upper(s)[i] <= 'z'),
        !('A' <= s[i] <= 'Z') ==> lower(s)[i] == s[i],
        !('a' <= s[i] <= 'z') ==> upper(s)[i] == s[i],
        'A' <= s[i] <= 'Z' ==> lower(s)[i] as int - 'a' as int == s[i] as int - 'A' as int,
        'a' <= s[i] <= 'z' ==> upper(s)[i] as int - 'A' as int == s[i] as int - 'a' as int,
        lower(upper(s)) == lower(s),
        upper(lower(s)) == upper(s),
{
    assert forall|j: int| 0 <= j < s.len() implies #[trigger] lower(upper(s))[j] == lower(s)[j] by {
        lemma_case_of(s[j]);
    }
    assert forall|j: int| 0 <= j < s.len() implies #[trigger] upper(lower(s))[j] == upper(s)[j] by {
        lemma_case_of(s[j]);
    }
    assert(lower(upper(s)) =~= lower(s));
    assert(upper(lower(s)) =~= upper(s));
    lemma_case_of(s[i]);
}

proof fn lemma_case_of(c: char)
    ensures
        ascii_lower(ascii_upper(c)) == ascii_lower(c),
        ascii_upper(ascii_lower(c)) == ascii_upper(c),
        !('A' <= ascii_lower(c) <= 'Z'),
        !('a' <= ascii_upper(c) <= 'z'),
{
}

/// A text is contained exactly in the texts that are made by putting something before it
/// and behind it.
pub proof fn contained_texts_are_surrounded(hay: Seq<char>, needle: Seq<char>)
    ensures
        contains_text(hay, needle) <==> exists|a: Seq<char>, b: Seq<char>|
            hay == #[trigger] (a + needle + b),
{
    if contains_text(hay, needle) {
        let at = choose|at: int| stands_at(hay, at, needle);
        let a = hay.take(at);
        let b = hay.skip(at + needle.len());
        assert(hay.subrange(at, at + needle.len()) == needle);
        assert(hay =~= a + needle + b);
    }
    if exists|a: Seq<char>, b: Seq<char>| hay == #[trigger] (a + needle + b) {
        let (a, b) = choose|a: Seq<char>, b: Seq<char>| hay == #[trigger] (a + needle + b);
        assert(hay.subrange(a.len() as int, (a.len() + needle.len()) as int) =~= needle);
        assert(stands_at(hay, a.len() as int, needle));
    }
}

/// Occurrences do not overlap: together they are no longer than the text.
pub proof fn occurrences_do_not_overlap(hay: Seq<char>, needle: Seq<char>)
    requires
        needle.len() > 0,
    ensures
        occurrences(hay, needle) * needle.len() <= hay.len(),
    decreases hay.len(),
{
    if hay.len() >= needle.len() {
        if stands_at(hay, 0, needle) {
            let rest = hay.skip(needle.len() as int);
            occurrences_do_not_overlap(rest, needle);
            let k = occurrences(rest, needle) as int;
            let n = needle.len() as int;
            assert((1 + k) * n == n + k * n) by (nonlinear_arith);
        } else {
            occurrences_do_not_overlap(hay.skip(1), needle);
        }
    } else {
        assert(0 * needle.len() == 0) by (nonlinear_arith);
    }
}

/// A text that is written a number of times in a row occurs that often, whatever single
/// other character stands between and around.
pub proof fn repeated_texts_are_counted(needle: Seq<char>, rest: Seq<char>, other: char)
    requires
        needle.len() > 0,
        !needle.contains(other),
    ensures
        occurrences(needle + rest, needle) == 1 + occurrences(rest, needle),
        occurrences(seq![other] + rest, needle) == occurrences(rest, needle),
        occurrences(Seq::empty(), needle) == 0,
{
    let hay = needle + rest;
    assert(hay.subrange(0, needle.len() as int) =~= needle);
    assert(hay.skip(needle.len() as int) =~= rest);
    let led = seq![other] + rest;
    assert(led.skip(1) =~= rest);
    if stands_at(led, 0, needle) {
        assert(led.subrange(0, needle.len() as int)[0] == other);
        assert(needle[0] == other);
        assert(needle.contains(other));
    }
    if led.len() < needle.len() {
        lemma_short_has_none(rest, needle);
    }
}

proof fn lemma_short_has_none(hay: Seq<char>, needle: Seq<char>)
    requires
        hay.len() < needle.len(),
    ensures
        occurrences(hay, needle) == 0,
{
}

/// Parts with a separator between them.
pub open spec fn with_separators<T>(parts: Seq<Seq<T>>, sep: T) -> Seq<T>
    decreases parts.len(),
{
    if parts.len() == 0 {
        Seq::empty()
    } else if parts.len() == 1 {
        parts[0]
    } else {
        with_separators(parts.drop_last(), sep).push(sep) + parts.last()
    }
}

/// Splitting loses nothing and leaves no separator: the parts hold none, there is one at
/// least, and with separators between them they are what was split.
pub proof fn splits_are_joined_again<T>(s: Seq<T>, sep: T)
    ensures
        split(s, sep).len() > 0,
        with_separators(split(s, sep), sep) == s,
        forall|i: int| 0 <= i < split(s, sep).len() ==> !(#[trigger] split(s, sep)[i]).contains(sep),
    decreases s.len(),
{
    let parts = split(s, sep);
    if s.len() == 0 {
        assert(parts[0] =~= Seq::<T>::empty());
    } else {
        let init = s.drop_last();
        let before = split(init, sep);
        splits_are_joined_again(init, sep);
        if s.last() == sep {
            assert(parts.drop_last() =~= before);
            assert(with_separators(parts, sep) =~= s);
        } else {
            let tail = before.last();
            assert(!tail.contains(sep));
            assert(parts.last() == tail.push(s.last()));
            assert(parts.drop_last() =~= before.drop_last());
            assert(with_separators(parts, sep) =~= with_separators(before, sep).push(s.last()));
            assert(with_separators(parts, sep) =~= s);
            assert forall|i: int| 0 <= i < parts.len() implies !(#[trigger] parts[i]).contains(
                sep,
            ) by {
                if i < parts.len() - 1 {
                    assert(parts[i] == before[i]);
                } else if parts[i].contains(sep) {
                    let k = choose|k: int| 0 <= k < parts[i].len() && parts[i][k] == sep;
                    assert(tail[k] == sep);
                }
            }
        }
    }
}

/// Joining puts the separator between neighbours and nowhere else: one text is joined as
/// it stands, and joining one more adds the separator and the text.
pub proof fn joining_separates_neighbours(parts: Seq<Seq<char>>, sep: Seq<char>, n: nat)
    requires
        0 < n < parts.len(),
    ensures
        joined(parts, sep, 0) == Seq::<char>::empty(),
        joined(parts, sep, 1) == parts[0],
        joined(parts, sep, n + 1) == joined(parts, sep, n) + (sep + parts[n as int]),
{
    assert(joined(parts, sep, n + 1) =~= joined(parts, sep, n) + (sep + parts[n as int]));
}

/// Taking off a prefix gives back what it was put before, and a text that does not start
/// with it stays.
pub proof fn prefixes_are_taken_off(prefix: Seq<char>, s: Seq<char>)
    ensures
        stripped(prefix + s, prefix) == s,
        !prefix.is_prefix_of(s) ==> stripped(s, prefix) == s,
{
    let all = prefix + s;
    assert(all.subrange(0, prefix.len() as int) =~= prefix);
    assert(all.skip(prefix.len() as int) =~= s);
}

/// Trimming takes off whitespace only, and all of it at both ends: what is left stands in
/// the text between two blank parts, and neither starts nor ends with whitespace.
pub proof fn trimming_takes_whitespace_only(s: Seq<char>)
    ensures
        exists|a: Seq<char>, b: Seq<char>|
            s == #[trigger] (a + trimmed(s) + b) && blank(a) && blank(b),
        trimmed(s).len() > 0 ==> !unicode_whitespace(trimmed(s)[0]) && !unicode_whitespace(
            trimmed(s).last(),
        ),
{
    let from = trim_start(s);
    let t = trimmed(s);
    lemma_trim_start_head(s);
    lemma_trim_end_last(from);
    lemma_trim_end_prefix(from);
    lemma_trim_start_cut(s);
    lemma_trim_end_cut(from);
    let a = choose|a: Seq<char>| #[trigger] (a + from) == s && blank(a);
    let b = choose|b: Seq<char>| #[trigger] (t + b) == from && blank(b);
    assert(a + t + b =~= a + (t + b));
    assert(s == a + t + b);
}

proof fn lemma_trim_start_cut(s: Seq<char>)
    ensures
        exists|a: Seq<char>| #[trigger] (a + trim_start(s)) == s && blank(a),
    decreases s.len(),
{
    if s.len() > 0 && unicode_whitespace(s[0]) {
        let rest = s.drop_first();
        lemma_trim_start_cut(rest);
        let a = choose|a: Seq<char>| #[trigger] (a + trim_start(rest)) == rest && blank(a);
        let more = seq![s[0]] + a;
        assert(more + trim_start(s) =~= seq![s[0]] + (a + trim_start(rest)));
        assert(more + trim_start(s) =~= s);
        assert(blank(more));
    } else {
        let none = Seq::<char>::empty();
        assert(none + trim_start(s) =~= s);
        assert(blank(none));
    }
}

proof fn lemma_trim_end_cut(s: Seq<char>)
    ensures
        exists|b: Seq<char>| #[trigger] (trim_end(s) + b) == s && blank(b),
    decreases s.len(),
{
    if s.len() > 0 && unicode_whitespace(s.last()) {
        let rest = s.drop_last();
        lemma_trim_end_cut(rest);
        let b = choose|b: Seq<char>| #[trigger] (trim_end(rest) + b) == rest && blank(b);
        let more = b.push(s.last());
        assert(trim_end(s) + more =~= (trim_end(rest) + b).push(s.last()));
        assert(trim_end(s) + more =~= s);
        assert(blank(more));
    } else {
        let none = Seq::<char>::empty();
        assert(trim_end(s) + none =~= s);
        assert(blank(none));
    }
}

/// Whitespace by its code points: twenty-five of them.
pub proof fn whitespace_is_listed(c: char)
    ensures
        unicode_whitespace(c) <==> seq![
            0x09int,
            0x0a,
            0x0b,
            0x0c,
            0x0d,
            0x20,
            0x85,
            0xa0,
            0x1680,
            0x2000,
            0x2001,
            0x2002,
            0x2003,
            0x2004,
            0x2005,
            0x2006,
            0x2007,
            0x2008,
            0x2009,
            0x200a,
            0x2028,
            0x2029,
            0x202f,
            0x205f,
            0x3000,
        ].contains(c as int),
{
    let list = seq![
        0x09int,
        0x0a,
        0x0b,
        0x0c,
        0x0d,
        0x20,
        0x85,
        0xa0,
        0x1680,
        0x2000,
        0x2001,
        0x2002,
        0x2003,
        0x2004,
        0x2005,
        0x2006,
        0x2007,
        0x2008,
        0x2009,
        0x200a,
        0x2028,
        0x2029,
        0x202f,
        0x205f,
        0x3000,
    ];
    let k = c as int;
    if unicode_whitespace(c) {
        let i: int = if k <= 0x0d {
            k - 0x09
        } else if k == 0x20 {
            5
        } else if k == 0x85 {
            6
        } else if k == 0xa0 {
            7
        } else if k == 0x1680 {
            8
        } else if k <= 0x200a {
            k - 0x2000 + 9
        } else if k <= 0x2029 {
            k - 0x2028 + 20
        } else if k == 0x202f {
            22
        } else if k == 0x205f {
            23
        } else {
            24
        };
        assert(list[i] == k);
    }
}

/// The order of texts is that of their first difference; where there is none, the shorter
/// one comes first.
pub proof fn texts_are_ordered_by_their_first_difference(a: Seq<char>, b: Seq<char>)
    ensures
        text_lt(a, b) <==> exists|k: int|
            0 <= k <= a.len() && k < b.len() && #[trigger] a.take(k) == b.take(k) && (k == a.len()
                || a[k] < b[k]),
    decreases a.len(),
{
    if text_lt(a, b) {
        lemma_first_difference(a, b);
    }
    if exists|k: int|
        0 <= k <= a.len() && k < b.len() && #[trigger] a.take(k) == b.take(k) && (k == a.len()
            || a[k] < b[k]) {
        let k = choose|k: int|
            0 <= k <= a.len() && k < b.len() && #[trigger] a.take(k) == b.take(k) && (k == a.len()
                || a[k] < b[k]);
        if k > 0 {
            let x = a.drop_first();
            let y = b.drop_first();
            assert(a.take(k)[0] == b.take(k)[0]);
            assert(x.take(k - 1) =~= a.take(k).drop_first());
            assert(y.take(k - 1) =~= b.take(k).drop_first());
            texts_are_ordered_by_their_first_difference(x, y);
        }
    }
}

proof fn lemma_first_difference(a: Seq<char>, b: Seq<char>)
    requires
        text_lt(a, b),
    ensures
        exists|k: int|
            0 <= k <= a.len() && k < b.len() && #[trigger] a.take(k) == b.take(k) && (k == a.len()
                || a[k] < b[k]),
    decreases a.len(),
{
    if a.len() == 0 || a[0] != b[0] {
        assert(a.take(0) =~= b.take(0));
    } else {
        let x = a.drop_first();
        let y = b.drop_first();
        lemma_first_difference(x, y);
        let k = choose|k: int|
            0 <= k <= x.len() && k < y.len() && #[trigger] x.take(k) == y.take(k) && (k == x.len()
                || x[k] < y[k]);
        assert(a.take(k + 1) =~= seq![a[0]] + x.take(k));
        assert(b.take(k + 1) =~= seq![b[0]] + y.take(k));
        assert(a.take(k + 1) == b.take(k + 1));
    }
}

/// The views of a list are those of its members, at their places.
pub proof fn lists_are_viewed_by_their_members(
    list: Seq<String>,
    bytes: Seq<Vec<u8>>,
    i: int,
)
    ensures
        views(list).len() == list.len(),
        byte_views(bytes).len() == bytes.len(),
        0 <= i < list.len() ==> views(list)[i] == list[i]@,
        0 <= i < bytes.len() ==> byte_views(bytes)[i] == bytes[i]@,
{
}

/// A text is blank exactly where all of it is whitespace, and has whitespace where any of it
/// is; the bytes of a character are those of the text that is the character.
pub proof fn blanks_are_whitespace(s: Seq<char>, c: char)
    ensures
        blank(s) <==> forall|i: int| 0 <= i < s.len() ==> unicode_whitespace(#[trigger] s[i]),
        has_whitespace(s) <==> !(forall|i: int|
            0 <= i < s.len() ==> !unicode_whitespace(#[trigger] s[i])),
        utf8(c) == encode_utf8(seq![c]),
{
}

} // verus!
