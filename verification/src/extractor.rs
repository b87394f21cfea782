//! The extraction itself: from the text of a document and its base location
//! to the set of locations that its links imply.

use crate::diagnostic::{Diagnostic, DiagnosticView};
use crate::expander::{join_segments, lemma_sub_paths_are_not_empty, segments};
use crate::link_set::LinkSet;
use crate::matcher::{find_raw_matches, raw_matches};
use crate::resolver::{
    base_host, expansion, host_of, join_url, joined_url, paths_to_expand, resolution, resolve_link,
    starts_with_scheme, Resolution, ResolutionView,
};
use vstd::prelude::*;

verus! {

/// What one extraction found, and what it had to skip.
pub struct Extraction {
    /// The locations found, each once.
    pub links: LinkSet,
    /// One entry for each match or path that was skipped, in the order in
    /// which they were met.
    pub diagnostics: Vec<Diagnostic>,
}

/// The locations that joining each of `paths` to `base` gives.
pub open spec fn joined_links(base: Seq<char>, paths: Seq<Seq<char>>) -> Set<Seq<char>> {
    Set::new(
        |url: Seq<char>|
            exists|j: int|
                0 <= j < paths.len() && #[trigger] joined_url(base, paths[j]) == Ok::<
                    Seq<char>,
                    Seq<char>,
                >(url),
    )
}

/// The complaint about `path`, if it cannot be joined to `base`.
pub open spec fn join_problem(base: Seq<char>) -> spec_fn(Seq<char>) -> Option<DiagnosticView> {
    |path: Seq<char>|
        match joined_url(base, path) {
            Ok(url) => None,
            Err(reason) => Some(DiagnosticView::Join { path, reason }),
        }
}

/// The complaints about those of `paths` that cannot be joined to `base`, in
/// the order of the paths.
pub open spec fn join_problems(base: Seq<char>, paths: Seq<Seq<char>>) -> Seq<DiagnosticView> {
    paths.filter_map(join_problem(base))
}

/// The paths that one raw match contributes under `base`.
pub open spec fn candidate_paths(base: Seq<char>, link: Seq<char>) -> Seq<Seq<char>> {
    expansion(resolution(link), host_of(base))
}

/// The locations that one raw match contributes under `base`.
pub open spec fn match_links(base: Seq<char>, link: Seq<char>) -> Set<Seq<char>> {
    joined_links(base, candidate_paths(base, link))
}

/// The complaints that one raw match gives rise to under `base`: one about
/// the match itself if it cannot be read, else one for each of its paths that
/// cannot be joined.
pub open spec fn match_problems(base: Seq<char>) -> spec_fn(Seq<char>) -> Seq<DiagnosticView> {
    |link: Seq<char>|
        match resolution(link) {
            ResolutionView::Unparseable { reason } => seq![DiagnosticView::Link { link, reason }],
            _ => join_problems(base, candidate_paths(base, link)),
        }
}

/// The locations that the given raw matches contribute under `base`.
pub open spec fn links_of_matches(base: Seq<char>, matches: Seq<Seq<char>>) -> Set<Seq<char>> {
    Set::new(
        |url: Seq<char>|
            exists|i: int|
                0 <= i < matches.len() && (#[trigger] match_links(base, matches[i])).contains(url),
    )
}

/// The complaints that the given raw matches give rise to under `base`, match
/// by match.
pub open spec fn problems_of_matches(base: Seq<char>, matches: Seq<Seq<char>>) -> Seq<
    DiagnosticView,
> {
    matches.map_values(match_problems(base)).flatten()
}

/// The result set for a document with text `body` fetched from `base`.
pub open spec fn extracted_links(base: Seq<char>, body: Seq<char>) -> Set<Seq<char>> {
    match raw_matches(body) {
        Ok(matches) => links_of_matches(base, matches),
        Err(reason) => Set::empty(),
    }
}

/// The diagnostics for a document with text `body` fetched from `base`.
pub open spec fn extraction_problems(base: Seq<char>, body: Seq<char>) -> Seq<DiagnosticView> {
    match raw_matches(body) {
        Ok(matches) => problems_of_matches(base, matches),
        Err(reason) => seq![DiagnosticView::Pattern { reason }],
    }
}

/// Joins `link` to `base` and adds the resulting location to `links`. A link
/// that cannot be joined leaves the set as it was and comes back as a
/// diagnostic.
pub fn add_link_to_set_of_links(link: &str, base: &str, links: &mut LinkSet) -> (problem: Option<
    Diagnostic,
>)
    ensures
        match joined_url(base@, link@) {
            Ok(url) => final(links)@ == old(links)@.insert(url) && problem is None,
            Err(reason) => final(links)@ == old(links)@ && problem.deep_view() == Some(
                DiagnosticView::Join { path: link@, reason },
            ),
        },
        forall|url: Seq<char>|
            final(links)@.contains(url) && !old(links)@.contains(url) ==> starts_with_scheme(url),
{
    match join_url(base, link) {
        Ok(url) => {
            links.insert(url);
            None
        },
        Err(reason) => Some(Diagnostic::Join { path: link.to_owned(), reason }),
    }
}

/// Resolves one raw match against the base and follows every path that it
/// contributes.
fn follow_match(
    link: &str,
    base: &str,
    host: &Option<String>,
    links: &mut LinkSet,
    diagnostics: &mut Vec<Diagnostic>,
)
    requires
        host.deep_view() == host_of(base@),
    ensures
        final(links)@ == old(links)@.union(match_links(base@, link@)),
        final(diagnostics).deep_view() == old(diagnostics).deep_view() + match_problems(base@)(
            link@,
        ),
        forall|url: Seq<char>|
            final(links)@.contains(url) && !old(links)@.contains(url) ==> starts_with_scheme(url),
{
    let ghost links_before = links@;
    let ghost diagnostics_before = diagnostics.deep_view();
    match resolve_link(link) {
        Resolution::Unparseable { reason } => {
            diagnostics.push(Diagnostic::Link { link: link.to_owned(), reason });
            proof {
                assert(diagnostics.deep_view() =~= diagnostics_before + match_problems(base@)(
                    link@,
                ));
            }
        },
        candidate => {
            let paths = paths_to_expand(&candidate, host);
            let ghost wanted = paths.deep_view();
            let mut j: usize = 0;
            proof {
                assert(diagnostics.deep_view() =~= diagnostics_before + join_problems(
                    base@,
                    wanted.take(0),
                ));
            }
            while j < paths.len()
                invariant
                    j <= paths.len(),
                    wanted == paths.deep_view(),
                    links@ == links_before.union(joined_links(base@, wanted.take(j as int))),
                    diagnostics.deep_view() == diagnostics_before + join_problems(
                        base@,
                        wanted.take(j as int),
                    ),
                    forall|url: Seq<char>|
                        links@.contains(url) && !links_before.contains(url) ==> starts_with_scheme(
                            url,
                        ),
                decreases paths.len() - j,
            {
                let ghost reported = diagnostics.deep_view();
                let problem = add_link_to_set_of_links(paths[j].as_str(), base, links);
                proof {
                    lemma_joined_links_step(base@, wanted, j as int);
                    wanted.lemma_filter_map_take_succ(join_problem(base@), j as int);
                }
                match problem {
                    Some(unjoined) => {
                        diagnostics.push(unjoined);
                        assert(diagnostics.deep_view() =~= reported.push(unjoined@));
                    },
                    None => {},
                }
                j = j + 1;
            }
            assert(wanted.take(j as int) == wanted);
        },
    }
}

/// Given the raw matches of a scan, resolves each against `base` and
/// collects the locations that they imply, with a diagnostic for each match
/// or path that had to be skipped.
pub fn links_from_matches(base: &str, matches: &Vec<String>) -> (found: Extraction)
    ensures
        found.links@ == links_of_matches(base@, matches.deep_view()),
        found.diagnostics.deep_view() == problems_of_matches(base@, matches.deep_view()),
        forall|url: Seq<char>| found.links@.contains(url) ==> starts_with_scheme(url),
{
    let host = base_host(base);
    let mut links = LinkSet::new();
    let mut diagnostics: Vec<Diagnostic> = Vec::new();
    let ghost raw = matches.deep_view();
    let mut i: usize = 0;
    proof {
        assert(raw.take(0).map_values(match_problems(base@)) =~= Seq::<
            Seq<DiagnosticView>,
        >::empty());
    }
    while i < matches.len()
        invariant
            i <= matches.len(),
            raw == matches.deep_view(),
            host.deep_view() == host_of(base@),
            links@ == links_of_matches(base@, raw.take(i as int)),
            diagnostics.deep_view() == problems_of_matches(base@, raw.take(i as int)),
            forall|url: Seq<char>| links@.contains(url) ==> starts_with_scheme(url),
        decreases matches.len() - i,
    {
        follow_match(matches[i].as_str(), base, &host, &mut links, &mut diagnostics);
        proof {
            lemma_links_of_matches_step(base@, raw, i as int);
            lemma_problems_of_matches_step(base@, raw, i as int);
        }
        i = i + 1;
    }
    assert(raw.take(i as int) == raw);
    Extraction { links, diagnostics }
}

/// Extracts from the text of a document fetched from `base` the set of
/// locations that its links imply: every link-like substring of `body` is
/// resolved against `base`, kept if it stays on the base's host, and expanded
/// into all of its ancestor paths, each joined to `base`.
///
/// Nothing stops the extraction: a match or a path that cannot be used is
/// skipped and named among the diagnostics.
pub fn get_links(base: &str, body: &str) -> (found: Extraction)
    ensures
        found.links@ == extracted_links(base@, body@),
        found.diagnostics.deep_view() == extraction_problems(base@, body@),
        forall|url: Seq<char>| found.links@.contains(url) ==> starts_with_scheme(url),
{
    match find_raw_matches(body) {
        Ok(matches) => links_from_matches(base, &matches),
        Err(problem) => {
            let mut diagnostics: Vec<Diagnostic> = Vec::new();
            diagnostics.push(problem);
            Extraction { links: LinkSet::new(), diagnostics }
        },
    }
}

/// Whether a raw match names a location on another host than `base` does.
pub open spec fn is_foreign(base: Seq<char>, link: Seq<char>) -> bool {
    resolution(link) matches ResolutionView::Absolute { host, path } && host != host_of(base)
}

/// A match on another host than the base contributes nothing: no path, no
/// location, no diagnostic.
pub proof fn lemma_foreign_match_contributes_nothing(base: Seq<char>, link: Seq<char>)
    requires
        is_foreign(base, link),
    ensures
        candidate_paths(base, link) == Seq::<Seq<char>>::empty(),
        match_links(base, link) == Set::<Seq<char>>::empty(),
        match_problems(base)(link) == Seq::<DiagnosticView>::empty(),
{
    assert(match_links(base, link) =~= Set::<Seq<char>>::empty());
}

/// A match on another host than the base leaves no trace in the result set:
/// the set is what it would be had the match not been there.
pub proof fn lemma_foreign_match_leaves_no_trace(
    base: Seq<char>,
    matches: Seq<Seq<char>>,
    at: int,
)
    requires
        0 <= at < matches.len(),
        is_foreign(base, matches[at]),
    ensures
        links_of_matches(base, matches) == links_of_matches(base, matches.remove(at)),
{
    let others = matches.remove(at);
    lemma_foreign_match_contributes_nothing(base, matches[at]);
    assert forall|url: Seq<char>|
        links_of_matches(base, matches).contains(url) implies links_of_matches(
        base,
        others,
    ).contains(url) by {
        let i = choose|i: int|
            0 <= i < matches.len() && (#[trigger] match_links(base, matches[i])).contains(url);
        if i < at {
            assert(others[i] == matches[i]);
        } else {
            assert(others[i - 1] == matches[i]);
        }
    }
    assert forall|url: Seq<char>|
        links_of_matches(base, others).contains(url) implies links_of_matches(
        base,
        matches,
    ).contains(url) by {
        let i = choose|i: int|
            0 <= i < others.len() && (#[trigger] match_links(base, others[i])).contains(url);
        if i < at {
            assert(matches[i] == others[i]);
        } else {
            assert(matches[i + 1] == others[i]);
        }
    }
    assert(links_of_matches(base, matches) =~= links_of_matches(base, others));
}

/// Every location that a relative match contributes is the base joined with
/// one of the match's own prefixes: with the first `k` of its segments, for
/// some `k` of at least one.
pub proof fn lemma_relative_match_is_joined_to_base(
    base: Seq<char>,
    link: Seq<char>,
    url: Seq<char>,
)
    requires
        resolution(link) is Relative,
        match_links(base, link).contains(url),
    ensures
        exists|k: int|
            1 <= k <= segments(link).len() && joined_url(
                base,
                join_segments(#[trigger] segments(link).take(k)),
            ) == Ok::<Seq<char>, Seq<char>>(url),
{
    let paths = candidate_paths(base, link);
    let j = choose|j: int|
        0 <= j < paths.len() && #[trigger] joined_url(base, paths[j]) == Ok::<
            Seq<char>,
            Seq<char>,
        >(url);
    let k = segments(link).len() - j;
    assert(paths[j] == join_segments(segments(link).take(k)));
}

/// Every location in the result set comes from joining the base with a path
/// that some match contributes, and no such path is empty.
pub proof fn lemma_every_link_is_joined_to_base(
    base: Seq<char>,
    matches: Seq<Seq<char>>,
    url: Seq<char>,
)
    requires
        links_of_matches(base, matches).contains(url),
    ensures
        exists|i: int, j: int|
            0 <= i < matches.len() && 0 <= j < candidate_paths(base, matches[i]).len()
                && candidate_paths(base, matches[i])[j].len() > 0 && #[trigger] joined_url(
                base,
                candidate_paths(base, matches[i])[j],
            ) == Ok::<Seq<char>, Seq<char>>(url),
{
    let i = choose|i: int|
        0 <= i < matches.len() && (#[trigger] match_links(base, matches[i])).contains(url);
    let paths = candidate_paths(base, matches[i]);
    let j = choose|j: int|
        0 <= j < paths.len() && #[trigger] joined_url(base, paths[j]) == Ok::<
            Seq<char>,
            Seq<char>,
        >(url);
    match resolution(matches[i]) {
        ResolutionView::Absolute { host, path } => {
            lemma_sub_paths_are_not_empty(path);
        },
        ResolutionView::Relative { path } => {
            lemma_sub_paths_are_not_empty(path);
        },
        ResolutionView::Unparseable { reason } => {},
    }
}

/// Extraction is repeatable: whatever two runs on the same document and the
/// same base return, they hold the same locations and the same diagnostics.
pub proof fn lemma_extraction_is_repeatable(
    base: Seq<char>,
    body: Seq<char>,
    first: Extraction,
    second: Extraction,
)
    requires
        first.links@ == extracted_links(base, body),
        first.diagnostics.deep_view() == extraction_problems(base, body),
        second.links@ == extracted_links(base, body),
        second.diagnostics.deep_view() == extraction_problems(base, body),
    ensures
        first.links@ == second.links@,
        first.diagnostics.deep_view() == second.diagnostics.deep_view(),
{
}

/// One more path joins one more location, if it can be joined at all.
proof fn lemma_joined_links_step(base: Seq<char>, paths: Seq<Seq<char>>, j: int)
    requires
        0 <= j < paths.len(),
    ensures
        joined_links(base, paths.take(j + 1)) == match joined_url(base, paths[j]) {
            Ok(url) => joined_links(base, paths.take(j)).insert(url),
            Err(reason) => joined_links(base, paths.take(j)),
        },
{
    let shorter = paths.take(j);
    let longer = paths.take(j + 1);
    let expected = match joined_url(base, paths[j]) {
        Ok(url) => joined_links(base, shorter).insert(url),
        Err(reason) => joined_links(base, shorter),
    };
    assert forall|url: Seq<char>|
        joined_links(base, longer).contains(url) implies expected.contains(url) by {
        let k = choose|k: int|
            0 <= k < longer.len() && #[trigger] joined_url(base, longer[k]) == Ok::<
                Seq<char>,
                Seq<char>,
            >(url);
        if k < j {
            assert(shorter[k] == longer[k]);
        }
    }
    assert forall|url: Seq<char>|
        expected.contains(url) implies joined_links(base, longer).contains(url) by {
        if joined_links(base, shorter).contains(url) {
            let k = choose|k: int|
                0 <= k < shorter.len() && #[trigger] joined_url(base, shorter[k]) == Ok::<
                    Seq<char>,
                    Seq<char>,
                >(url);
            assert(longer[k] == shorter[k]);
        } else {
            assert(longer[j] == paths[j]);
        }
    }
    assert(joined_links(base, longer) =~= expected);
}

/// One more match contributes its own locations and no others.
proof fn lemma_links_of_matches_step(base: Seq<char>, matches: Seq<Seq<char>>, i: int)
    requires
        0 <= i < matches.len(),
    ensures
        links_of_matches(base, matches.take(i + 1)) == links_of_matches(
            base,
            matches.take(i),
        ).union(match_links(base, matches[i])),
{
    let shorter = matches.take(i);
    let longer = matches.take(i + 1);
    let expected = links_of_matches(base, shorter).union(match_links(base, matches[i]));
    assert forall|url: Seq<char>|
        links_of_matches(base, longer).contains(url) implies expected.contains(url) by {
        let k = choose|k: int|
            0 <= k < longer.len() && (#[trigger] match_links(base, longer[k])).contains(url);
        if k < i {
            assert(shorter[k] == longer[k]);
        }
    }
    assert forall|url: Seq<char>|
        expected.contains(url) implies links_of_matches(base, longer).contains(url) by {
        if links_of_matches(base, shorter).contains(url) {
            let k = choose|k: int|
                0 <= k < shorter.len() && (#[trigger] match_links(base, shorter[k])).contains(url);
            assert(longer[k] == shorter[k]);
        } else {
            assert(longer[i] == matches[i]);
        }
    }
    assert(links_of_matches(base, longer) =~= expected);
}

/// One more match adds its own complaints after those of the matches before
/// it.
proof fn lemma_problems_of_matches_step(base: Seq<char>, matches: Seq<Seq<char>>, i: int)
    requires
        0 <= i < matches.len(),
    ensures
        problems_of_matches(base, matches.take(i + 1)) == problems_of_matches(
            base,
            matches.take(i),
        ) + match_problems(base)(matches[i]),
{
    let each = match_problems(base);
    let shorter = matches.take(i).map_values(each);
    assert(matches.take(i + 1).map_values(each) =~= shorter.push(each(matches[i])));
    shorter.lemma_flatten_push(each(matches[i]));
}

} // verus!
