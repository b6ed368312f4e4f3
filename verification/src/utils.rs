//! Slugs: the file-system and URL safe names under which documents are
//! tracked and published, and the date line printed under each post.

use crate::text::text_of;
use vstd::prelude::*;
use vstd::utf8::is_ascii_chars;

verus! {

/// The longest slug, in characters, that [`format_safe_text`] returns.
pub const MAX_SLUG_LEN: usize = 100;

/// The characters Unicode lists as white space.
pub open spec fn is_whitespace_char(c: char) -> bool {
    ||| c == ' '
    ||| ('\u{9}' <= c && c <= '\u{d}')
    ||| c == '\u{85}'
    ||| c == '\u{a0}'
    ||| c == '\u{1680}'
    ||| ('\u{2000}' <= c && c <= '\u{200a}')
    ||| c == '\u{2028}'
    ||| c == '\u{2029}'
    ||| c == '\u{202f}'
    ||| c == '\u{205f}'
    ||| c == '\u{3000}'
}

/// Punctuation that must not reach a path or a URL.
pub open spec fn is_unsafe_punctuation(c: char) -> bool {
    c == '/' || c == ':' || c == '?' || c == '!' || c == '.'
}

/// The characters a slug is made of: `a`-`z`, `0`-`9`, `_` and `-`.
pub open spec fn is_slug_char(c: char) -> bool {
    ('a' <= c && c <= 'z') || ('0' <= c && c <= '9') || c == '_' || c == '-'
}

/// White space becomes `_`, unsafe punctuation becomes `-`, the rest stays.
pub open spec fn substitute(c: char) -> char {
    if is_whitespace_char(c) {
        '_'
    } else if is_unsafe_punctuation(c) {
        '-'
    } else {
        c
    }
}

/// True when every character of `text` is a slug character.
pub open spec fn all_slug_chars(text: Seq<char>) -> bool {
    forall|i: int| 0 <= i < text.len() ==> is_slug_char(#[trigger] text[i])
}

/// A text that is its own slug: slug characters only, and not too long.
pub open spec fn is_safe_text(text: Seq<char>) -> bool {
    all_slug_chars(text) && text.len() <= MAX_SLUG_LEN
}

/// The first `limit` characters of `text`, or all of it when it is shorter.
pub open spec fn truncated(text: Seq<char>, limit: nat) -> Seq<char> {
    if text.len() <= limit {
        text
    } else {
        text.take(limit as int)
    }
}

/// The slug of a text that is already in lower case: substitute, drop what
/// is not a slug character, cut to [`MAX_SLUG_LEN`].
pub open spec fn slug_of_lowercase(lowered: Seq<char>) -> Seq<char> {
    truncated(
        lowered.map_values(|c: char| substitute(c)).filter(|c: char| is_slug_char(c)),
        MAX_SLUG_LEN as nat,
    )
}

/// `A`-`Z` to `a`-`z`, every other character unchanged.
pub open spec fn ascii_lowercase_char(c: char) -> char {
    if 'A' <= c && c <= 'Z' {
        ((c as u8 + 32) as u8) as char
    } else {
        c
    }
}

/// What `str::to_lowercase` returns for a text with a character outside
/// ASCII: its lower-case form by the Unicode tables of the standard library.
pub uninterp spec fn unicode_lowercase(text: Seq<char>) -> Seq<char>;

/// The lower-case form of a text.
pub open spec fn lowercase(text: Seq<char>) -> Seq<char> {
    if is_ascii_chars(text) {
        text.map_values(|c: char| ascii_lowercase_char(c))
    } else {
        unicode_lowercase(text)
    }
}

/// The slug of a title.
pub open spec fn slug_of(title: Seq<char>) -> Seq<char> {
    slug_of_lowercase(lowercase(title))
}

/// `str::to_lowercase` of the standard library. Claimed: an ASCII text comes
/// back with `A`-`Z` replaced by `a`-`z` and nothing else changed; any other
/// text comes back as a value that depends on the text alone.
pub assume_specification[ str::to_lowercase ](s: &str) -> (lowered: String)
    ensures
        is_ascii_chars(s@) ==> lowered@ == s@.map_values(|c: char| ascii_lowercase_char(c)),
        !is_ascii_chars(s@) ==> lowered@ == unicode_lowercase(s@),
;

/// The regular expression that matches one character that no slug may hold.
pub open spec fn unsafe_char_pattern() -> Seq<char> {
    "[^a-z0-9_-]"@
}

/// `regex::Regex::new` on `pattern`, then `Regex::replace_all` on `text`
/// with `replacement`. Claimed for the one pattern and the empty replacement
/// admitted here: the pattern is valid, each match is a single character
/// outside `a-z0-9_-`, so what comes back is `text` without those characters.
#[verifier::external_body]
fn replace_matches(pattern: &str, text: &str, replacement: &str) -> (kept: String)
    requires
        pattern@ == unsafe_char_pattern(),
        replacement@.len() == 0,
    ensures
        kept@ == text@.filter(|c: char| is_slug_char(c)),
{
    regex::Regex::new(pattern).unwrap().replace_all(text, replacement).into_owned()
}

fn whitespace_char(c: char) -> (b: bool)
    ensures
        b == is_whitespace_char(c),
{
    c == ' ' || ('\u{9}' <= c && c <= '\u{d}') || c == '\u{85}' || c == '\u{a0}' || c
        == '\u{1680}' || ('\u{2000}' <= c && c <= '\u{200a}') || c == '\u{2028}' || c
        == '\u{2029}' || c == '\u{202f}' || c == '\u{205f}' || c == '\u{3000}'
}

fn substitute_char(c: char) -> (r: char)
    ensures
        r == substitute(c),
{
    if whitespace_char(c) {
        '_'
    } else if c == '/' || c == ':' || c == '?' || c == '!' || c == '.' {
        '-'
    } else {
        c
    }
}

fn substitute_all(text: &str) -> (out: String)
    ensures
        out@ == text@.map_values(|c: char| substitute(c)),
{
    let mut out = String::new();
    for c in it: text.chars()
        invariant
            it.seq() == text@,
            out@ == text@.take(it.index() as int).map_values(|c: char| substitute(c)),
    {
        let r = substitute_char(c);
        out.push(r);
        assert(out@ =~= text@.take(it.index() + 1).map_values(|c: char| substitute(c)));
    }
    assert(text@.take(text@.len() as int) =~= text@);
    out
}

fn truncate_text(text: String, limit: usize) -> (out: String)
    ensures
        out@ == truncated(text@, limit as nat),
{
    let n = text.as_str().unicode_len();
    if n <= limit {
        text
    } else {
        String::from_str(text.as_str().substring_char(0, limit))
    }
}

/// The slug of a text that was already put in lower case.
pub fn slug_from_lowercase(lowered: &str) -> (slug: String)
    ensures
        slug@ == slug_of_lowercase(lowered@),
        is_safe_text(slug@),
{
    let replaced = substitute_all(lowered);
    proof {
        reveal_strlit("");
        lemma_slug_of_lowercase_is_safe(lowered@);
    }
    let kept = replace_matches("[^a-z0-9_-]", replaced.as_str(), "");
    truncate_text(kept, MAX_SLUG_LEN)
}

/// Derives the slug of a title: lower case, white space to `_`, unsafe
/// punctuation to `-`, everything outside `a-z0-9_-` dropped, and the result
/// cut to [`MAX_SLUG_LEN`] characters.
pub fn format_safe_text(title: &str) -> (slug: String)
    ensures
        slug@ == slug_of(title@),
        is_safe_text(slug@),
{
    let lowered = title.to_lowercase();
    slug_from_lowercase(lowered.as_str())
}

/// The safe name of a file: the slug of its name, or nothing when the slug
/// is empty.
pub open spec fn safe_filename_of(name: Seq<char>) -> Option<Seq<char>> {
    if slug_of(name).len() == 0 {
        None
    } else {
        Some(slug_of(name))
    }
}

/// Derives the safe name of a file from its name. `None` when no character
/// of the name can stand in a slug.
pub fn format_safe_filename(name: &str) -> (safe: Option<String>)
    ensures
        text_of(safe) == safe_filename_of(name@),
{
    let slug = format_safe_text(name);
    if slug.as_str().unicode_len() == 0 {
        None
    } else {
        Some(slug)
    }
}

/// The last second of the last day that has a date text.
pub const MAX_DATE_TIMESTAMP: u64 = 8_210_266_876_799;

/// Whether a time, as seen at a distance from UTC, has a date text: the
/// time is none after [`MAX_DATE_TIMESTAMP`] and the distance is less than
/// a day.
pub open spec fn has_date_text(timestamp: u64, utc_offset_seconds: i32) -> bool {
    timestamp <= MAX_DATE_TIMESTAMP && -86_400 < utc_offset_seconds < 86_400
}

/// The date on which a time falls at a given distance from UTC, written as
/// the name of the month, the day of the month and the year.
pub uninterp spec fn date_text(timestamp: int, utc_offset_seconds: int) -> Seq<char>;

/// Writes the date on which `timestamp`, in seconds since the Unix epoch,
/// falls for a clock that stands `utc_offset_seconds` east of UTC.
///
/// `DateTime::from_timestamp`, `FixedOffset::east_opt`,
/// `DateTime::with_timezone` and `DateTime::format` of `chrono`, with the
/// format `%B %e, %Y`. Claimed: a text comes back exactly for the times and
/// distances that `chrono` can hold, and it depends on the two numbers
/// alone.
#[verifier::external_body]
pub fn format_datetime(timestamp: u64, utc_offset_seconds: i32) -> (text: Option<String>)
    ensures
        text is Some <==> has_date_text(timestamp, utc_offset_seconds),
        text matches Some(date) ==> date@ == date_text(
            timestamp as int,
            utc_offset_seconds as int,
        ),
{
    let seconds = i64::try_from(timestamp).ok()?;
    let utc = chrono::DateTime::from_timestamp(seconds, 0)?;
    let zone = chrono::FixedOffset::east_opt(utc_offset_seconds)?;
    Some(utc.with_timezone(&zone).format("%B %e, %Y").to_string())
}

/// Filtering keeps only what the predicate accepts.
proof fn lemma_filter_all_slug_chars(text: Seq<char>)
    ensures
        all_slug_chars(text.filter(|c: char| is_slug_char(c))),
{
    let pred = |c: char| is_slug_char(c);
    assert forall|i: int| 0 <= i < text.filter(pred).len() implies is_slug_char(
        #[trigger] text.filter(pred)[i],
    ) by {
        text.lemma_filter_pred(pred, i);
    }
}

/// Filtering a text of slug characters changes nothing.
proof fn lemma_filter_keeps_slug_text(text: Seq<char>)
    requires
        all_slug_chars(text),
    ensures
        text.filter(|c: char| is_slug_char(c)) == text,
    decreases text.len(),
{
    reveal(Seq::filter);
    if text.len() > 0 {
        lemma_filter_keeps_slug_text(text.drop_last());
        assert(text.drop_last().push(text.last()) =~= text);
    }
}

/// The slug of any lower-case text is a safe text.
pub proof fn lemma_slug_of_lowercase_is_safe(lowered: Seq<char>)
    ensures
        is_safe_text(slug_of_lowercase(lowered)),
{
    lemma_filter_all_slug_chars(lowered.map_values(|c: char| substitute(c)));
}

/// A slug holds slug characters only and at most [`MAX_SLUG_LEN`] of them.
pub proof fn lemma_slug_is_safe(title: Seq<char>)
    ensures
        is_safe_text(slug_of(title)),
{
    lemma_slug_of_lowercase_is_safe(lowercase(title));
}

/// A safe text is its own slug.
pub proof fn lemma_safe_text_is_its_slug(text: Seq<char>)
    requires
        is_safe_text(text),
    ensures
        slug_of(text) == text,
{
    assert(is_ascii_chars(text)) by {
        assert forall|i: int| 0 <= i < text.len() implies '\0' <= #[trigger] text[i]
            <= '\u{7f}' by {
            assert(is_slug_char(text[i]));
        }
    }
    assert(text.map_values(|c: char| ascii_lowercase_char(c)) =~= text) by {
        assert forall|i: int| 0 <= i < text.len() implies ascii_lowercase_char(
            #[trigger] text[i],
        ) == text[i] by {
            assert(is_slug_char(text[i]));
        }
    }
    assert(text.map_values(|c: char| substitute(c)) =~= text) by {
        assert forall|i: int| 0 <= i < text.len() implies substitute(#[trigger] text[i])
            == text[i] by {
            assert(is_slug_char(text[i]));
        }
    }
    lemma_filter_keeps_slug_text(text);
}

/// Deriving the slug of a slug returns it unchanged.
pub proof fn lemma_slug_idempotent(title: Seq<char>)
    ensures
        slug_of(slug_of(title)) == slug_of(title),
{
    lemma_slug_is_safe(title);
    lemma_safe_text_is_its_slug(slug_of(title));
}

} // verus!
