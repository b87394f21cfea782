//! The path expander: from one path to the chain of its ancestor prefixes.

use vstd::prelude::*;

verus! {

/// The pieces of `path` between its `/` characters, empty pieces included:
/// a path with `n` slashes has `n + 1` pieces.
pub open spec fn split_on_slash(path: Seq<char>) -> Seq<Seq<char>>
    decreases path.len(),
{
    if path.len() == 0 {
        seq![Seq::<char>::empty()]
    } else {
        let before = split_on_slash(path.drop_last());
        if path.last() == '/' {
            before.push(Seq::<char>::empty())
        } else {
            before.drop_last().push(before.last().push(path.last()))
        }
    }
}

/// The segments of `path`: its non-empty pieces, in order.
pub open spec fn segments(path: Seq<char>) -> Seq<Seq<char>> {
    split_on_slash(path).filter(|piece: Seq<char>| piece.len() > 0)
}

/// The given segments written as one path, with a `/` between neighbours.
pub open spec fn join_segments(parts: Seq<Seq<char>>) -> Seq<char>
    decreases parts.len(),
{
    if parts.len() == 0 {
        Seq::<char>::empty()
    } else if parts.len() == 1 {
        parts[0]
    } else {
        join_segments(parts.drop_last()) + seq!['/'] + parts.last()
    }
}

/// A well-formed segment: at least one character, none of them a slash.
pub open spec fn is_segment(part: Seq<char>) -> bool {
    part.len() > 0 && forall|j: int| 0 <= j < part.len() ==> part[j] != '/'
}

/// Every ancestor prefix of `path`, the longest first: entry `i` joins all
/// but the last `i` segments.
pub open spec fn sub_paths(path: Seq<char>) -> Seq<Seq<char>> {
    let parts = segments(path);
    Seq::new(parts.len(), |i: int| join_segments(parts.take(parts.len() - i)))
}

/// Splits `path` at its slashes and keeps the non-empty pieces.
pub fn path_segments(path: &str) -> (parts: Vec<&str>)
    ensures
        parts.deep_view() == segments(path@),
{
    let n = path.unicode_len();
    let mut parts: Vec<&str> = Vec::new();
    let mut start: usize = 0;
    let mut i: usize = 0;
    for c in letters: path.chars()
        invariant
            n == path@.len(),
            letters.seq() == path@,
            i == letters.index(),
            start <= i,
            split_on_slash(path@.take(i as int)).last() == path@.subrange(start as int, i as int),
            parts.deep_view() == segments_before_last(path@.take(i as int)),
    {
        proof {
            assert(path@.take(i + 1).drop_last() == path@.take(i as int));
            lemma_segments_before_last_step(path@.take(i + 1));
        }
        if c == '/' {
            if start < i {
                parts.push(path.substring_char(start, i));
            }
            start = i + 1;
        }
        i = i + 1;
    }
    proof {
        assert(path@.take(n as int) == path@);
        lemma_segments_end(path@);
    }
    if start < n {
        parts.push(path.substring_char(start, n));
    }
    parts
}

/// Expands `path` into every prefix made of its first `k` segments, from the
/// whole path down to its first segment alone. Leading, trailing and doubled
/// slashes leave no trace in the result.
pub fn get_sub_paths_from_path(path: &str) -> (paths: Vec<String>)
    ensures
        paths.deep_view() == sub_paths(path@),
{
    let parts = path_segments(path);
    let count = parts.len();
    let ghost segs = segments(path@);

    // Grow the prefix one segment at a time, shortest first.
    let mut growing: Vec<String> = Vec::new();
    let mut prefix = String::new();
    let mut k: usize = 0;
    while k < count
        invariant
            count == parts.len(),
            parts.deep_view() == segs,
            k <= count,
            prefix@ == join_segments(segs.take(k as int)),
            growing.len() == k,
            forall|j: int|
                0 <= j < k ==> (#[trigger] growing[j])@ == join_segments(segs.take(j + 1)),
        decreases count - k,
    {
        proof {
            reveal_strlit("/");
            assert(segs.take(k + 1).drop_last() == segs.take(k as int));
        }
        if k > 0 {
            prefix.append("/");
        }
        prefix.append(parts[k]);
        growing.push(prefix.clone());
        k = k + 1;
    }

    // Hand them out longest first.
    let mut paths: Vec<String> = Vec::new();
    while growing.len() > 0
        invariant
            count == segs.len(),
            growing.len() + paths.len() == count,
            forall|j: int|
                0 <= j < growing.len() ==> (#[trigger] growing[j])@ == join_segments(
                    segs.take(j + 1),
                ),
            forall|i: int|
                0 <= i < paths.len() ==> (#[trigger] paths[i])@ == join_segments(
                    segs.take(count - i),
                ),
        decreases growing.len(),
    {
        match growing.pop() {
            Some(longest) => {
                paths.push(longest);
            },
            None => {},
        }
    }
    paths
}

/// The segments closed by a slash: all but the piece that is still open at
/// the end of `path`.
spec fn segments_before_last(path: Seq<char>) -> Seq<Seq<char>> {
    split_on_slash(path).drop_last().filter(|piece: Seq<char>| piece.len() > 0)
}

/// Splitting never yields an empty list of pieces.
pub proof fn lemma_split_is_never_empty(path: Seq<char>)
    ensures
        split_on_slash(path).len() >= 1,
    decreases path.len(),
{
    if path.len() > 0 {
        lemma_split_is_never_empty(path.drop_last());
    }
}

proof fn lemma_segments_before_last_step(path: Seq<char>)
    requires
        path.len() > 0,
    ensures
        path.last() == '/' ==> segments_before_last(path) == {
            let before = split_on_slash(path.drop_last());
            if before.last().len() > 0 {
                segments_before_last(path.drop_last()).push(before.last())
            } else {
                segments_before_last(path.drop_last())
            }
        },
        path.last() == '/' ==> split_on_slash(path).last() == Seq::<char>::empty(),
        path.last() != '/' ==> segments_before_last(path) == segments_before_last(path.drop_last()),
        path.last() != '/' ==> split_on_slash(path).last() == split_on_slash(
            path.drop_last(),
        ).last().push(path.last()),
{
    let before = split_on_slash(path.drop_last());
    let keep = |piece: Seq<char>| piece.len() > 0;
    lemma_split_is_never_empty(path.drop_last());
    if path.last() == '/' {
        assert(split_on_slash(path).drop_last() == before);
        assert(before == before.drop_last().push(before.last()));
        before.drop_last().lemma_filter_push(before.last(), keep);
    } else {
        assert(split_on_slash(path).drop_last() == before.drop_last());
    }
}

proof fn lemma_segments_end(path: Seq<char>)
    ensures
        segments(path) == {
            let open = split_on_slash(path).last();
            if open.len() > 0 {
                segments_before_last(path).push(open)
            } else {
                segments_before_last(path)
            }
        },
{
    let pieces = split_on_slash(path);
    let keep = |piece: Seq<char>| piece.len() > 0;
    lemma_split_is_never_empty(path);
    assert(pieces == pieces.drop_last().push(pieces.last()));
    pieces.drop_last().lemma_filter_push(pieces.last(), keep);
}

/// Splitting is additive across a slash: the pieces of `left/right` are the
/// pieces of `left` followed by the pieces of `right`.
pub proof fn lemma_split_across_slash(left: Seq<char>, right: Seq<char>)
    ensures
        split_on_slash(left + seq!['/'] + right) == split_on_slash(left) + split_on_slash(right),
    decreases right.len(),
{
    let whole = left + seq!['/'] + right;
    lemma_split_is_never_empty(right);
    if right.len() == 0 {
        assert(whole.drop_last() == left);
    } else {
        assert(whole.drop_last() == left + seq!['/'] + right.drop_last());
        lemma_split_across_slash(left, right.drop_last());
        lemma_split_is_never_empty(right.drop_last());
    }
}

/// A text without a slash is its own single piece.
pub proof fn lemma_split_without_slash(text: Seq<char>)
    requires
        forall|j: int| 0 <= j < text.len() ==> text[j] != '/',
    ensures
        split_on_slash(text) == seq![text],
    decreases text.len(),
{
    if text.len() > 0 {
        let front = text.drop_last();
        lemma_split_without_slash(front);
        assert(front.push(text.last()) == text);
    } else {
        assert(text == Seq::<char>::empty());
    }
}

/// No piece of a split holds a slash.
pub proof fn lemma_pieces_hold_no_slash(path: Seq<char>)
    ensures
        forall|i: int, j: int|
            0 <= i < split_on_slash(path).len() && 0 <= j < split_on_slash(path)[i].len()
                ==> #[trigger] split_on_slash(path)[i][j] != '/',
    decreases path.len(),
{
    if path.len() > 0 {
        lemma_pieces_hold_no_slash(path.drop_last());
        lemma_split_is_never_empty(path.drop_last());
    }
}

/// Every segment of a path is well formed: it is not empty and holds no
/// slash.
pub proof fn lemma_segments_are_well_formed(path: Seq<char>)
    ensures
        forall|i: int| 0 <= i < segments(path).len() ==> is_segment(#[trigger] segments(path)[i]),
{
    let pieces = split_on_slash(path);
    let keep = |piece: Seq<char>| piece.len() > 0;
    lemma_pieces_hold_no_slash(path);
    assert forall|i: int| 0 <= i < segments(path).len() implies is_segment(
        #[trigger] segments(path)[i],
    ) by {
        let part = segments(path)[i];
        pieces.lemma_filter_pred(keep, i);
        pieces.lemma_filter_contains_rev(keep, part);
    }
}

/// Joining and splitting are inverse to each other on well-formed segments:
/// the segments of the joined path are the segments that were joined.
pub proof fn lemma_segments_of_joined(parts: Seq<Seq<char>>)
    requires
        forall|i: int| 0 <= i < parts.len() ==> is_segment(#[trigger] parts[i]),
    ensures
        segments(join_segments(parts)) == parts,
    decreases parts.len(),
{
    let keep = |piece: Seq<char>| piece.len() > 0;
    if parts.len() == 0 {
        let nothing = Seq::<Seq<char>>::empty();
        nothing.lemma_filter_push(Seq::<char>::empty(), keep);
        assert(nothing.filter(keep) == nothing) by {
            reveal(Seq::filter);
        }
    } else {
        let last = parts.last();
        let nothing = Seq::<Seq<char>>::empty();
        lemma_split_without_slash(last);
        nothing.lemma_filter_push(last, keep);
        assert(nothing.filter(keep) == nothing) by {
            reveal(Seq::filter);
        }
        if parts.len() > 1 {
            let front = parts.drop_last();
            lemma_segments_of_joined(front);
            lemma_split_across_slash(join_segments(front), last);
            Seq::filter_distributes_over_add(
                split_on_slash(join_segments(front)),
                split_on_slash(last),
                keep,
            );
        }
    }
}

/// Adding a segment makes the joined path strictly longer.
proof fn lemma_join_grows(parts: Seq<Seq<char>>, shorter: int, longer: int)
    requires
        forall|i: int| 0 <= i < parts.len() ==> is_segment(#[trigger] parts[i]),
        0 <= shorter < longer <= parts.len(),
    ensures
        join_segments(parts.take(shorter)).len() < join_segments(parts.take(longer)).len(),
    decreases longer - shorter,
{
    assert(parts.take(longer).drop_last() == parts.take(longer - 1));
    if shorter < longer - 1 {
        lemma_join_grows(parts, shorter, longer - 1);
    }
}

/// A path with `n` segments expands to exactly `n` prefixes, no two of them
/// equal, and the prefix made of the first `k` segments is among them for
/// every `k` from 1 to `n`.
pub proof fn lemma_sub_paths_are_the_distinct_prefixes(path: Seq<char>)
    ensures
        sub_paths(path).len() == segments(path).len(),
        forall|k: int|
            1 <= k <= segments(path).len() ==> sub_paths(path)[segments(path).len() - k]
                == join_segments(#[trigger] segments(path).take(k)),
        sub_paths(path).no_duplicates(),
{
    let parts = segments(path);
    let n = parts.len() as int;
    lemma_segments_are_well_formed(path);
    assert forall|i: int, j: int| 0 <= i < n && 0 <= j < n && i != j implies sub_paths(path)[i]
        != sub_paths(path)[j] by {
        if i < j {
            lemma_join_grows(parts, n - j, n - i);
        } else {
            lemma_join_grows(parts, n - i, n - j);
        }
    }
}

/// No prefix that a path expands to is empty.
pub proof fn lemma_sub_paths_are_not_empty(path: Seq<char>)
    ensures
        forall|i: int| 0 <= i < sub_paths(path).len() ==> (#[trigger] sub_paths(path)[i]).len() > 0,
{
    let parts = segments(path);
    lemma_segments_are_well_formed(path);
    assert forall|i: int| 0 <= i < sub_paths(path).len() implies (#[trigger] sub_paths(
        path,
    )[i]).len() > 0 by {
        lemma_join_grows(parts, 0, parts.len() - i);
    }
}

/// A path made of slashes alone expands to nothing.
pub proof fn lemma_only_slashes_expand_to_nothing(path: Seq<char>)
    requires
        forall|j: int| 0 <= j < path.len() ==> path[j] == '/',
    ensures
        sub_paths(path) == Seq::<Seq<char>>::empty(),
    decreases path.len(),
{
    let keep = |piece: Seq<char>| piece.len() > 0;
    let nothing = Seq::<Seq<char>>::empty();
    assert(nothing.filter(keep) == nothing) by {
        reveal(Seq::filter);
    }
    if path.len() == 0 {
        nothing.lemma_filter_push(Seq::<char>::empty(), keep);
    } else {
        let front = path.drop_last();
        lemma_only_slashes_expand_to_nothing(front);
        assert(sub_paths(front).len() == segments(front).len());
        split_on_slash(front).lemma_filter_push(Seq::<char>::empty(), keep);
    }
}

/// A single bare segment expands to itself and nothing else.
pub proof fn lemma_bare_segment_expands_to_itself(path: Seq<char>)
    requires
        is_segment(path),
    ensures
        sub_paths(path) == seq![path],
{
    let parts = seq![path];
    lemma_segments_of_joined(parts);
}

} // verus!
