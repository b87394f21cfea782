//! The pattern matcher: link-like substrings of a text, found by one fixed
//! lexical pattern and freed of the quotes around them.

use crate::diagnostic::{Diagnostic, DiagnosticView};
use regex::Regex;
use vstd::prelude::*;

verus! {

/// The pattern that recognises link-like text between quotes: an absolute or
/// protocol-relative reference, a rooted or dotted path, a relative path with
/// a file extension or of some length, or a bare file name with one of a few
/// well-known web extensions.
pub const LINKFINDER_REGEX: &'static str =
    r#"(?:"|')(((?:[a-zA-Z]{1,10}://|//)[^"'/]{1,}\.[a-zA-Z]{2,}[^"']{0,})|((?:/|\.\./|\./)[^"'><,;| *()(%%$^/\\\[\]][^"'><,;|()]{1,})|([a-zA-Z0-9_\-/]{1,}/[a-zA-Z0-9_\-/]{1,}\.(?:[a-zA-Z]{1,4}|action)(?:[\?|#][^"|']{0,}|))|([a-zA-Z0-9_\-/]{1,}/[a-zA-Z0-9_\-/]{3,}(?:[\?|#][^"|']{0,}|))|([a-zA-Z0-9_\-.]{1,}\.(?:php|asp|aspx|jsp|json|action|html|js|txt|xml)(?:[\?|#][^"|']{0,}|)))(?:"|')"#;

/// What a scan of `text` for `pattern` yields: the successive matches, none
/// overlapping another, in the order in which they stand in the text; or, for
/// a pattern that the engine refuses, its complaint.
pub uninterp spec fn pattern_matches(pattern: Seq<char>, text: Seq<char>) -> Result<
    Seq<Seq<char>>,
    Seq<char>,
>;

/// Compiles `pattern` with `regex::Regex::new` and collects what
/// `Regex::find_iter` yields on `text`, each match as the text it covers.
///
/// Trusted: that the outcome depends on the pattern and the text alone. A
/// pattern that does not compile gives the engine's message instead.
#[verifier::external_body]
fn find_matches(pattern: &str, text: &str) -> (found: Result<Vec<String>, String>)
    ensures
        match found {
            Ok(matches) => pattern_matches(pattern@, text@) == Ok::<Seq<Seq<char>>, Seq<char>>(
                matches.deep_view(),
            ),
            Err(reason) => pattern_matches(pattern@, text@) == Err::<Seq<Seq<char>>, Seq<char>>(
                reason@,
            ),
        },
{
    match Regex::new(pattern) {
        Ok(compiled) => Ok(compiled.find_iter(text).map(|m| m.as_str().to_string()).collect()),
        Err(refusal) => Err(refusal.to_string()),
    }
}

/// A single or a double quote.
pub open spec fn is_quote(c: char) -> bool {
    c == '\'' || c == '"'
}

/// `text` without the quotes at its start.
pub open spec fn trim_start_quotes(text: Seq<char>) -> Seq<char>
    decreases text.len(),
{
    if text.len() > 0 && is_quote(text.first()) {
        trim_start_quotes(text.drop_first())
    } else {
        text
    }
}

/// `text` without the quotes at its end.
pub open spec fn trim_end_quotes(text: Seq<char>) -> Seq<char>
    decreases text.len(),
{
    if text.len() > 0 && is_quote(text.last()) {
        trim_end_quotes(text.drop_last())
    } else {
        text
    }
}

/// `text` without the quotes at either end. Quotes inside stay.
pub open spec fn without_quotes(text: Seq<char>) -> Seq<char> {
    trim_end_quotes(trim_start_quotes(text))
}

/// What a scan of `text` for `pattern` yields once every match is freed of
/// the quotes around it; or, should the engine refuse the pattern, its
/// complaint.
pub open spec fn trimmed_matches(pattern: Seq<char>, text: Seq<char>) -> Result<
    Seq<Seq<char>>,
    Seq<char>,
> {
    match pattern_matches(pattern, text) {
        Ok(quoted) => Ok(quoted.map_values(|found: Seq<char>| without_quotes(found))),
        Err(reason) => Err(reason),
    }
}

/// The raw matches of `text`: what the link pattern finds in it, each match
/// without its quotes.
pub open spec fn raw_matches(text: Seq<char>) -> Result<Seq<Seq<char>>, Seq<char>> {
    trimmed_matches(LINKFINDER_REGEX@, text)
}

/// Scans `text` for `pattern` and hands out the matches without the quotes at
/// their ends, in the order in which they stand in the text. A pattern that
/// the engine refuses comes back as a diagnostic.
pub fn find_trimmed_matches(pattern: &str, text: &str) -> (found: Result<Vec<String>, Diagnostic>)
    ensures
        match found {
            Ok(links) => trimmed_matches(pattern@, text@) == Ok::<Seq<Seq<char>>, Seq<char>>(
                links.deep_view(),
            ),
            Err(problem) => trimmed_matches(pattern@, text@) matches Err(reason) && problem@ == (
                DiagnosticView::Pattern { reason }),
        },
{
    match find_matches(pattern, text) {
        Ok(quoted) => {
            let mut links: Vec<String> = Vec::new();
            let mut i: usize = 0;
            while i < quoted.len()
                invariant
                    i <= quoted.len(),
                    links.len() == i,
                    forall|j: int|
                        0 <= j < i ==> (#[trigger] links[j])@ == without_quotes(quoted[j]@),
                decreases quoted.len() - i,
            {
                links.push(trim_quotes(quoted[i].as_str()).to_owned());
                i = i + 1;
            }
            assert(links.deep_view() =~= quoted.deep_view().map_values(
                |found: Seq<char>| without_quotes(found),
            ));
            Ok(links)
        },
        Err(reason) => Err(Diagnostic::Pattern { reason }),
    }
}

/// Scans `text` for link-like substrings between quotes and hands them out
/// without the quotes, in the order in which they stand in the text.
pub fn find_raw_matches(text: &str) -> (found: Result<Vec<String>, Diagnostic>)
    ensures
        match found {
            Ok(links) => raw_matches(text@) == Ok::<Seq<Seq<char>>, Seq<char>>(links.deep_view()),
            Err(problem) => raw_matches(text@) matches Err(reason) && problem@ == (
                DiagnosticView::Pattern { reason }),
        },
{
    find_trimmed_matches(LINKFINDER_REGEX, text)
}

/// Strips every leading and every trailing quote from `raw`.
pub fn trim_quotes(raw: &str) -> (link: &str)
    ensures
        link@ == without_quotes(raw@),
{
    let n = raw.unicode_len();
    // `start` follows the quotes at the front until the first other character
    // is met; from then on `end` stands behind the last such character.
    let mut inside = false;
    let mut start: usize = 0;
    let mut end: usize = 0;
    let mut i: usize = 0;
    for c in letters: raw.chars()
        invariant
            n == raw@.len(),
            letters.seq() == raw@,
            i == letters.index(),
            forall|j: int| 0 <= j < start ==> is_quote(raw@[j]),
            !inside ==> start == i && end == 0,
            inside ==> start < end <= i && !is_quote(raw@[start as int]) && !is_quote(
                raw@[end - 1],
            ),
            forall|j: int| inside && end <= j < i ==> is_quote(raw@[j]),
    {
        if !quote(c) {
            inside = true;
            end = i + 1;
        } else if !inside {
            start = i + 1;
        }
        i = i + 1;
    }
    proof {
        if inside {
            lemma_trimming_leaves_the_core(raw@, start as int, end - 1);
        } else {
            lemma_only_quotes_trim_to_nothing(raw@);
        }
    }
    if inside {
        raw.substring_char(start, end)
    } else {
        raw.substring_char(n, n)
    }
}

fn quote(c: char) -> (yes: bool)
    ensures
        yes == is_quote(c),
{
    c == '\'' || c == '"'
}

proof fn lemma_trim_start(text: Seq<char>, quotes: int)
    requires
        0 <= quotes <= text.len(),
        forall|j: int| 0 <= j < quotes ==> is_quote(text[j]),
        quotes == text.len() || !is_quote(text[quotes]),
    ensures
        trim_start_quotes(text) == text.skip(quotes),
    decreases quotes,
{
    if quotes > 0 {
        let rest = text.drop_first();
        assert forall|j: int| 0 <= j < quotes - 1 implies is_quote(rest[j]) by {
            assert(rest[j] == text[j + 1]);
        }
        lemma_trim_start(rest, quotes - 1);
        assert(rest.skip(quotes - 1) == text.skip(quotes));
    }
}

proof fn lemma_trim_end(text: Seq<char>, kept: int)
    requires
        0 <= kept <= text.len(),
        forall|j: int| kept <= j < text.len() ==> is_quote(text[j]),
        kept == 0 || !is_quote(text[kept - 1]),
    ensures
        trim_end_quotes(text) == text.take(kept),
    decreases text.len() - kept,
{
    if kept < text.len() {
        let rest = text.drop_last();
        lemma_trim_end(rest, kept);
        assert(rest.take(kept) == text.take(kept));
    }
}

/// Trimming leaves the stretch of the text from its first to its last
/// character that is no quote.
pub proof fn lemma_trimming_leaves_the_core(text: Seq<char>, first: int, last: int)
    requires
        0 <= first <= last < text.len(),
        !is_quote(text[first]),
        !is_quote(text[last]),
        forall|j: int| 0 <= j < first ==> is_quote(text[j]),
        forall|j: int| last < j < text.len() ==> is_quote(text[j]),
    ensures
        without_quotes(text) == text.subrange(first, last + 1),
{
    lemma_trim_start(text, first);
    let rest = text.skip(first);
    assert forall|j: int| last + 1 - first <= j < rest.len() implies is_quote(rest[j]) by {
        assert(rest[j] == text[j + first]);
    }
    lemma_trim_end(rest, last + 1 - first);
    assert(rest.take(last + 1 - first) == text.subrange(first, last + 1));
}

/// A text of quotes alone trims to nothing.
pub proof fn lemma_only_quotes_trim_to_nothing(text: Seq<char>)
    requires
        forall|j: int| 0 <= j < text.len() ==> is_quote(text[j]),
    ensures
        without_quotes(text) == Seq::<char>::empty(),
{
    lemma_trim_start(text, text.len() as int);
}

} // verus!
