//! Normalization of request paths into root-relative paths that cannot
//! leave the root.

use crate::text::{
    free_of, from_chars, join, join_chars, lemma_join_split, lemma_split_around, lemma_split_join,
    lemma_split_pieces, lemma_split_whole, split, to_chars, views,
};
use vstd::prelude::*;

verus! {

/// The segment `.`, which names the directory it stands in.
pub open spec fn current_dir() -> Seq<char> {
    seq!['.']
}

/// The segment `..`, which names the parent directory.
pub open spec fn parent_dir() -> Seq<char> {
    seq!['.', '.']
}

/// The accepted segments after one more segment was read: an empty segment
/// and `.` change nothing, `..` removes the segment accepted last, if there
/// is one, and any other segment is accepted.
pub open spec fn step(accepted: Seq<Seq<char>>, segment: Seq<char>) -> Seq<Seq<char>> {
    if segment.len() == 0 || segment == current_dir() {
        accepted
    } else if segment == parent_dir() {
        if accepted.len() > 0 {
            accepted.drop_last()
        } else {
            accepted
        }
    } else {
        accepted.push(segment)
    }
}

/// The segments accepted after reading `segments` from left to right.
pub open spec fn resolved(segments: Seq<Seq<char>>) -> Seq<Seq<char>>
    decreases segments.len(),
{
    if segments.len() == 0 {
        Seq::empty()
    } else {
        step(resolved(segments.drop_last()), segments.last())
    }
}

/// The normal form of a path: its segments between `/`, resolved, and
/// joined by `/` again.
pub open spec fn normalized(path: Seq<char>) -> Seq<char> {
    join(resolved(split(path, '/')), '/')
}

/// A segment that a normalized path may hold: not empty, not `.`, not `..`,
/// and without `/`.
pub open spec fn is_plain_segment(segment: Seq<char>) -> bool {
    &&& segment.len() > 0
    &&& segment != current_dir()
    &&& segment != parent_dir()
    &&& forall|j: int| 0 <= j < segment.len() ==> segment[j] != '/'
}

/// Whether every segment is plain.
pub open spec fn all_plain(segments: Seq<Seq<char>>) -> bool {
    forall|i: int| 0 <= i < segments.len() ==> is_plain_segment(#[trigger] segments[i])
}

/// The segments of a root-relative path; the empty path has none.
pub open spec fn segments_of(path: Seq<char>) -> Seq<Seq<char>> {
    if path.len() == 0 {
        Seq::empty()
    } else {
        split(path, '/')
    }
}

/// Whether `path` is in normal form: empty, or plain segments with one `/`
/// between each two.
pub open spec fn is_normalized(path: Seq<char>) -> bool {
    all_plain(segments_of(path))
}

fn is_current_dir(segment: &Vec<char>) -> (r: bool)
    ensures
        r == (segment@ == current_dir()),
{
    let r = segment.len() == 1 && segment[0] == '.';
    assert(r ==> segment@ =~= current_dir());
    r
}

fn is_parent_dir(segment: &Vec<char>) -> (r: bool)
    ensures
        r == (segment@ == parent_dir()),
{
    let r = segment.len() == 2 && segment[0] == '.' && segment[1] == '.';
    assert(r ==> segment@ =~= parent_dir());
    r
}

/// Applies one segment to the segments accepted so far.
fn accept(accepted: &mut Vec<Vec<char>>, segment: Vec<char>)
    ensures
        views(final(accepted)@) == step(views(old(accepted)@), segment@),
{
    if segment.len() == 0 || is_current_dir(&segment) {
    } else if is_parent_dir(&segment) {
        accepted.pop();
        assert(views(accepted@) == step(views(old(accepted)@), segment@));
    } else {
        accepted.push(segment);
        assert(views(accepted@) == views(old(accepted)@).push(segment@));
    }
}

/// Normalizes `path`: splits it at `/`, skips empty segments and `.`, lets
/// `..` remove the segment before it (or nothing, at the root), and joins
/// what is left with `/`. The result names nothing above the root.
pub fn normalize_path(path: String) -> (r: String)
    ensures
        r@ == normalized(path@),
        is_normalized(r@),
{
    let chars = to_chars(path.as_str());
    let mut accepted: Vec<Vec<char>> = Vec::new();
    let mut segment: Vec<char> = Vec::new();
    let mut i: usize = 0;
    while i < chars.len()
        invariant
            i <= chars.len(),
            split(chars@.take(i as int), '/').len() >= 1,
            views(accepted@) == resolved(split(chars@.take(i as int), '/').drop_last()),
            segment@ == split(chars@.take(i as int), '/').last(),
        decreases chars.len() - i,
    {
        let ghost before = split(chars@.take(i as int), '/');
        assert(chars@.take(i + 1).drop_last() == chars@.take(i as int));
        if chars[i] == '/' {
            accept(&mut accepted, segment);
            segment = Vec::new();
            assert(before.push(Seq::empty()).drop_last() == before);
            assert(before == before.drop_last().push(before.last()));
        } else {
            segment.push(chars[i]);
            assert(before.update(before.len() - 1, before.last().push(chars@[i as int])).drop_last()
                == before.drop_last());
        }
        i += 1;
    }
    assert(chars@.take(chars@.len() as int) == chars@);
    accept(&mut accepted, segment);
    proof {
        let pieces = split(path@, '/');
        assert(pieces == pieces.drop_last().push(pieces.last()));
        lemma_normalized_is_normalized(path@);
    }
    from_chars(&join_chars(&accepted, '/'))
}

/// Resolving keeps only plain segments, where no segment holds `/`.
pub proof fn lemma_resolved_plain(segments: Seq<Seq<char>>)
    requires
        free_of(segments, '/'),
    ensures
        all_plain(resolved(segments)),
    decreases segments.len(),
{
    if segments.len() > 0 {
        let front = segments.drop_last();
        let last = segments.last();
        assert(free_of(front, '/')) by {
            assert forall|i: int, j: int|
                0 <= i < front.len() && 0 <= j < front[i].len() implies #[trigger] front[i][j]
                != '/' by {
                assert(segments[i][j] != '/');
            }
        }
        lemma_resolved_plain(front);
        assert forall|j: int| 0 <= j < last.len() implies last[j] != '/' by {
            assert(segments[segments.len() - 1][j] != '/');
        }
    }
}

/// Resolving plain segments changes nothing.
pub proof fn lemma_resolved_of_plain(segments: Seq<Seq<char>>)
    requires
        all_plain(segments),
    ensures
        resolved(segments) == segments,
    decreases segments.len(),
{
    if segments.len() > 0 {
        lemma_resolved_of_plain(segments.drop_last());
        assert(is_plain_segment(segments[segments.len() - 1]));
        assert(segments.drop_last().push(segments.last()) == segments);
    }
}

/// Plain segments joined by `/` split into the same segments again.
pub proof fn lemma_segments_of_join(segments: Seq<Seq<char>>)
    requires
        all_plain(segments),
    ensures
        segments_of(join(segments, '/')) == segments,
{
    if segments.len() > 0 {
        assert(free_of(segments, '/')) by {
            assert forall|i: int, j: int|
                0 <= i < segments.len() && 0 <= j < segments[i].len() implies (
            #[trigger] segments[i][j]) != '/' by {
                assert(is_plain_segment(segments[i]));
            }
        }
        lemma_split_join(segments, '/');
        assert(is_plain_segment(segments[segments.len() - 1]));
    }
}

/// A normalized path is in normal form, and its segments are the resolved
/// segments of the path it came from: none is empty, `.` or `..`.
pub proof fn lemma_normalized_is_normalized(path: Seq<char>)
    ensures
        is_normalized(normalized(path)),
        segments_of(normalized(path)) == resolved(split(path, '/')),
{
    lemma_split_pieces(path, '/');
    lemma_resolved_plain(split(path, '/'));
    lemma_segments_of_join(resolved(split(path, '/')));
}

/// A path in normal form is its own normal form.
pub proof fn lemma_normal_form_is_fixed(path: Seq<char>)
    requires
        is_normalized(path),
    ensures
        normalized(path) == path,
{
    if path.len() == 0 {
        assert(path == Seq::<char>::empty());
        reveal_with_fuel(resolved, 2);
    } else {
        lemma_resolved_of_plain(split(path, '/'));
        lemma_join_split(path, '/');
    }
}

/// Normalizing is idempotent.
pub proof fn lemma_normalize_idempotent(path: Seq<char>)
    ensures
        normalized(normalized(path)) == normalized(path),
{
    lemma_normalized_is_normalized(path);
    lemma_normal_form_is_fixed(normalized(path));
}

/// `../`, `count` times.
pub open spec fn parents(count: nat) -> Seq<char>
    decreases count,
{
    if count == 0 {
        Seq::empty()
    } else {
        parent_dir().push('/') + parents((count - 1) as nat)
    }
}

/// However many `..` lead a path, they are absorbed at the root: the path
/// behind them is normalized as if it stood alone.
pub proof fn lemma_leading_parents_absorbed(count: nat, path: Seq<char>)
    ensures
        normalized(parents(count) + path) == normalized(path),
    decreases count,
{
    if count == 0 {
        assert(parents(count) + path == path);
    } else {
        let rest = parents((count - 1) as nat) + path;
        lemma_leading_parents_absorbed((count - 1) as nat, path);
        assert(parents(count) + path == parent_dir().push('/') + rest);
        lemma_split_whole(parent_dir(), '/');
        lemma_split_around(parent_dir(), rest, '/');
        lemma_resolved_after_parent(split(rest, '/'));
    }
}

proof fn lemma_resolved_after_parent(segments: Seq<Seq<char>>)
    ensures
        resolved(seq![parent_dir()] + segments) == resolved(segments),
    decreases segments.len(),
{
    let led = seq![parent_dir()] + segments;
    if segments.len() == 0 {
        assert(led.drop_last() == Seq::<Seq<char>>::empty());
        reveal_with_fuel(resolved, 2);
    } else {
        lemma_resolved_after_parent(segments.drop_last());
        assert(led.drop_last() == seq![parent_dir()] + segments.drop_last());
    }
}

} // verus!
