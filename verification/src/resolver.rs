//! The location resolver: what a raw match is, seen as a location of its own,
//! and what it becomes against the base location.

use crate::expander::{get_sub_paths_from_path, sub_paths};
use url::{ParseError, Url};
use vstd::prelude::*;

verus! {

/// What a raw match turned out to be.
#[derive(Debug, PartialEq, Eq)]
pub enum Resolution {
    /// An absolute location, with the host it names, if any, and its path.
    Absolute { host: Option<String>, path: String },
    /// No location of its own: it lacks a scheme, so the text is a path to
    /// follow from the base.
    Relative { path: String },
    /// Neither: the text cannot be read as a location at all.
    Unparseable { reason: String },
}

/// A `Resolution` as plain text.
pub enum ResolutionView {
    Absolute { host: Option<Seq<char>>, path: Seq<char> },
    Relative { path: Seq<char> },
    Unparseable { reason: Seq<char> },
}

impl View for Resolution {
    type V = ResolutionView;

    open spec fn view(&self) -> ResolutionView {
        match self {
            Resolution::Absolute { host, path } => ResolutionView::Absolute {
                host: host.deep_view(),
                path: path@,
            },
            Resolution::Relative { path } => ResolutionView::Relative { path: path@ },
            Resolution::Unparseable { reason } => ResolutionView::Unparseable { reason: reason@ },
        }
    }
}

/// What the URL parser makes of `text` taken alone, without a base.
pub uninterp spec fn parsed_url(text: Seq<char>) -> ResolutionView;

/// What the URL parser makes of `reference` read against `base`: the
/// resulting location, or the parser's complaint about either of them.
pub uninterp spec fn joined_url(base: Seq<char>, reference: Seq<char>) -> Result<
    Seq<char>,
    Seq<char>,
>;

/// A letter of the ASCII alphabet.
pub open spec fn is_ascii_letter(c: char) -> bool {
    ('a' <= c && c <= 'z') || ('A' <= c && c <= 'Z')
}

/// A character that may stand in a scheme after its first letter.
pub open spec fn is_scheme_char(c: char) -> bool {
    is_ascii_letter(c) || ('0' <= c && c <= '9') || c == '+' || c == '-' || c == '.'
}

/// Whether `text` opens with a scheme and its colon: the mark of an absolute
/// location.
pub open spec fn starts_with_scheme(text: Seq<char>) -> bool {
    exists|colon: int|
        0 < colon < text.len() && #[trigger] text[colon] == ':' && is_ascii_letter(text[0])
            && forall|j: int| 0 < j < colon ==> is_scheme_char(#[trigger] text[j])
}

/// Reads `text` with `url::Url::parse` and reports the outcome: for a parsed
/// location what `Url::host_str` and `Url::path` give; for the error
/// `ParseError::RelativeUrlWithoutBase` the text itself as a relative path;
/// for any other error its message.
///
/// Trusted: that the outcome depends on the text alone, and that a relative
/// outcome carries the text unchanged.
#[verifier::external_body]
fn parse_url(text: &str) -> (outcome: Resolution)
    ensures
        outcome@ == parsed_url(text@),
        outcome@ is Relative ==> outcome@->Relative_path == text@,
{
    match Url::parse(text) {
        Ok(url) => Resolution::Absolute {
            host: url.host_str().map(String::from),
            path: String::from(url.path()),
        },
        Err(ParseError::RelativeUrlWithoutBase) => Resolution::Relative {
            path: String::from(text),
        },
        Err(other) => Resolution::Unparseable { reason: other.to_string() },
    }
}

/// Parses `base` with `url::Url::parse`, resolves `reference` against it with
/// `Url::join`, and gives the text of the resulting location, or the message
/// of the error that either step returned.
///
/// Trusted: that the outcome depends on the two texts alone, and that the
/// text of a location opens with its scheme and a colon.
#[verifier::external_body]
pub(crate) fn join_url(base: &str, reference: &str) -> (joined: Result<String, String>)
    ensures
        match joined {
            Ok(url) => joined_url(base@, reference@) == Ok::<Seq<char>, Seq<char>>(url@)
                && starts_with_scheme(url@),
            Err(reason) => joined_url(base@, reference@) == Err::<Seq<char>, Seq<char>>(reason@),
        },
{
    match Url::parse(base) {
        Ok(location) => match location.join(reference) {
            Ok(url) => Ok(String::from(url)),
            Err(refusal) => Err(refusal.to_string()),
        },
        Err(refusal) => Err(refusal.to_string()),
    }
}

/// The host that `base` names: none if it names none, or is no absolute
/// location.
pub open spec fn host_of(base: Seq<char>) -> Option<Seq<char>> {
    match parsed_url(base) {
        ResolutionView::Absolute { host, path } => host,
        _ => None,
    }
}

/// The paths to follow for a resolved match, seen from a base on
/// `base_host`: every ancestor prefix of a relative match, or of an absolute
/// one on the same host; nothing for a match on another host, or for one that
/// could not be read.
pub open spec fn expansion(candidate: ResolutionView, base_host: Option<Seq<char>>) -> Seq<
    Seq<char>,
> {
    match candidate {
        ResolutionView::Absolute { host, path } => if host == base_host {
            sub_paths(path)
        } else {
            Seq::empty()
        },
        ResolutionView::Relative { path } => sub_paths(path),
        ResolutionView::Unparseable { reason } => Seq::empty(),
    }
}

/// What a link is, seen as a location of its own: what the parser makes of
/// it, where a relative link stands for itself as the path to follow.
pub open spec fn resolution(link: Seq<char>) -> ResolutionView {
    match parsed_url(link) {
        ResolutionView::Relative { path } => ResolutionView::Relative { path: link },
        other => other,
    }
}

/// Classifies a raw match, already freed of its quotes.
pub fn resolve_link(link: &str) -> (candidate: Resolution)
    ensures
        candidate@ == resolution(link@),
{
    parse_url(link)
}

/// The host that the base location names.
pub fn base_host(base: &str) -> (host: Option<String>)
    ensures
        host.deep_view() == host_of(base@),
{
    match parse_url(base) {
        Resolution::Absolute { host, path } => host,
        _ => None,
    }
}

/// Whether two hosts are the same: both absent, or both present and equal.
pub fn same_host(left: &Option<String>, right: &Option<String>) -> (same: bool)
    ensures
        same == (left.deep_view() == right.deep_view()),
{
    match (left, right) {
        (Some(l), Some(r)) => *l == *r,
        (None, None) => true,
        _ => false,
    }
}

/// Decides which paths a resolved match contributes, seen from a base on
/// `base_host`.
pub fn paths_to_expand(candidate: &Resolution, base_host: &Option<String>) -> (paths: Vec<String>)
    ensures
        paths.deep_view() == expansion(candidate@, base_host.deep_view()),
{
    match candidate {
        Resolution::Absolute { host, path } => {
            if same_host(host, base_host) {
                get_sub_paths_from_path(path.as_str())
            } else {
                Vec::new()
            }
        },
        Resolution::Relative { path } => get_sub_paths_from_path(path.as_str()),
        Resolution::Unparseable { reason } => Vec::new(),
    }
}

} // verus!
