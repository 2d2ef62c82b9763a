//! Configuration paths and when two of them name the same place.
//!
//! A path is text with `/` between its segments. Two spellings are the same
//! path when they have the same components: repeated separators, a trailing
//! separator and `.` segments other than a leading one make no difference,
//! while `..` is kept as it stands.

use vstd::prelude::*;
use vstd::utf8::encode_utf8;

verus! {

/// The byte that separates segments.
pub const SEPARATOR: u8 = 0x2F;

/// The byte of which a `.` segment consists.
pub const DOT: u8 = 0x2E;

/// The segments of a path: what stands before, between and after its
/// separators. A path without separators is its own single segment.
pub open spec fn segments(path: Seq<u8>) -> Seq<Seq<u8>>
    decreases path.len(),
{
    if path.len() == 0 {
        seq![Seq::<u8>::empty()]
    } else {
        let before = segments(path.drop_last());
        if path.last() == SEPARATOR {
            before.push(Seq::<u8>::empty())
        } else {
            before.drop_last().push(before.last().push(path.last()))
        }
    }
}

/// Whether a segment names something: it is neither empty nor `.`.
pub open spec fn is_name(segment: Seq<u8>) -> bool {
    segment.len() > 0 && segment != seq![DOT]
}

/// Whether a path starts at the root.
pub open spec fn is_rooted(path: Seq<u8>) -> bool {
    path.len() > 0 && path[0] == SEPARATOR
}

/// Whether a path starts with a `.` segment.
pub open spec fn is_anchored_here(path: Seq<u8>) -> bool {
    path.len() > 0 && path[0] == DOT && (path.len() == 1 || path[1] == SEPARATOR)
}

/// How a path starts: with the root, with `.`, or with neither.
pub open spec fn anchor(path: Seq<u8>) -> Seq<Seq<u8>> {
    if is_rooted(path) {
        seq![seq![SEPARATOR]]
    } else if is_anchored_here(path) {
        seq![seq![DOT]]
    } else {
        Seq::<Seq<u8>>::empty()
    }
}

/// The components of a path: its anchor, then the segments that name
/// something, in order.
pub open spec fn components(path: Seq<u8>) -> Seq<Seq<u8>> {
    anchor(path) + segments(path).filter(|segment: Seq<u8>| is_name(segment))
}

/// Whether two spellings are the same path.
pub open spec fn same_path(a: Seq<u8>, b: Seq<u8>) -> bool {
    components(a) == components(b)
}

/// The contents of a list of byte strings.
pub open spec fn contents(list: Seq<Vec<u8>>) -> Seq<Seq<u8>> {
    Seq::new(list.len(), |i: int| list[i]@)
}

/// A path has at least one segment.
proof fn lemma_segments_nonempty(path: Seq<u8>)
    ensures
        segments(path).len() > 0,
    decreases path.len(),
{
    if path.len() > 0 {
        lemma_segments_nonempty(path.drop_last());
    }
}

/// The segments that name something, with the last segment set apart.
proof fn lemma_names_by_last(list: Seq<Seq<u8>>)
    requires
        list.len() > 0,
    ensures
        list.filter(|segment: Seq<u8>| is_name(segment)) == if is_name(list.last()) {
            list.drop_last().filter(|segment: Seq<u8>| is_name(segment)).push(list.last())
        } else {
            list.drop_last().filter(|segment: Seq<u8>| is_name(segment))
        },
{
    reveal(Seq::filter);
}

/// Being the same path is an equivalence.
pub proof fn lemma_same_path_is_equivalence(a: Seq<u8>, b: Seq<u8>, c: Seq<u8>)
    ensures
        same_path(a, a),
        same_path(a, b) == same_path(b, a),
        same_path(a, b) && same_path(b, c) ==> same_path(a, c),
{
}

/// A separator at the end of a path makes no difference.
pub proof fn lemma_trailing_separator(path: Seq<u8>)
    requires
        path.len() > 0,
    ensures
        same_path(path, path.push(SEPARATOR)),
{
    let longer = path.push(SEPARATOR);
    assert(longer.drop_last() =~= path);
    assert(segments(longer) == segments(path).push(Seq::<u8>::empty()));
    assert(segments(longer).drop_last() =~= segments(path));
    lemma_names_by_last(segments(longer));
    assert(anchor(longer) == anchor(path));
}

/// The segments of two paths joined by a separator are those of the first
/// followed by those of the second.
pub proof fn lemma_segments_of_joined(before: Seq<u8>, after: Seq<u8>)
    ensures
        segments(before.push(SEPARATOR) + after) == segments(before) + segments(after),
    decreases after.len(),
{
    let joined = before.push(SEPARATOR) + after;
    if after.len() == 0 {
        assert(joined =~= before.push(SEPARATOR));
        assert(joined.drop_last() =~= before);
        assert(segments(before).push(Seq::<u8>::empty()) =~= segments(before) + segments(after));
    } else {
        let shorter = after.drop_last();
        assert(joined.drop_last() =~= before.push(SEPARATOR) + shorter);
        assert(joined.last() == after.last());
        lemma_segments_of_joined(before, shorter);
        lemma_segments_nonempty(shorter);
        let so_far = segments(before) + segments(shorter);
        if after.last() == SEPARATOR {
            assert(so_far.push(Seq::<u8>::empty()) =~= segments(before) + segments(after));
        } else {
            assert(so_far.drop_last() =~= segments(before) + segments(shorter).drop_last());
            assert(so_far.last() == segments(shorter).last());
            assert(so_far.drop_last().push(so_far.last().push(after.last())) =~= segments(before)
                + segments(after));
        }
    }
}

/// Where a path has a separator, a second separator or a `.` segment put in
/// behind it makes no difference.
pub proof fn lemma_spelling_makes_no_difference(before: Seq<u8>, after: Seq<u8>)
    ensures
        same_path(before.push(SEPARATOR) + after, before.push(SEPARATOR).push(SEPARATOR) + after),
        same_path(
            before.push(SEPARATOR) + after,
            before.push(SEPARATOR).push(DOT).push(SEPARATOR) + after,
        ),
{
    let named = |segment: Seq<u8>| is_name(segment);
    let plain = before.push(SEPARATOR) + after;
    let doubled = before.push(SEPARATOR).push(SEPARATOR) + after;
    let dotted = before.push(SEPARATOR).push(DOT).push(SEPARATOR) + after;
    let empty = Seq::<u8>::empty();
    let dot = seq![DOT];

    lemma_segments_of_joined(before, after);
    lemma_segments_of_joined(before.push(SEPARATOR), after);
    lemma_segments_of_joined(before.push(SEPARATOR).push(DOT), after);
    lemma_segments_of_joined(before, empty);
    lemma_segments_of_joined(before, dot);
    assert(before.push(SEPARATOR) + empty =~= before.push(SEPARATOR));
    assert(before.push(SEPARATOR) + dot =~= before.push(SEPARATOR).push(DOT));
    assert(segments(dot) =~= seq![dot]) by {
        assert(dot.drop_last() =~= empty);
        assert(segments(empty) =~= seq![empty]);
    }
    assert(segments(empty) =~= seq![empty]);

    Seq::filter_distributes_over_add(segments(before), segments(after), named);
    Seq::filter_distributes_over_add(segments(before) + seq![empty], segments(after), named);
    Seq::filter_distributes_over_add(segments(before), seq![empty], named);
    Seq::filter_distributes_over_add(segments(before) + seq![dot], segments(after), named);
    Seq::filter_distributes_over_add(segments(before), seq![dot], named);
    assert(seq![empty].filter(named) =~= Seq::<Seq<u8>>::empty()) by {
        reveal_with_fuel(Seq::filter, 2);
    }
    assert(seq![dot].filter(named) =~= Seq::<Seq<u8>>::empty()) by {
        reveal_with_fuel(Seq::filter, 2);
    }
    assert(segments(doubled).filter(named) =~= segments(plain).filter(named));
    assert(segments(dotted).filter(named) =~= segments(plain).filter(named));

    assert(anchor(doubled) == anchor(plain)) by {
        if before.len() > 0 {
            assert(doubled[0] == before[0] && plain[0] == before[0]);
        }
        if before.len() > 1 {
            assert(doubled[1] == before[1] && plain[1] == before[1]);
        } else if before.len() == 1 {
            assert(doubled[1] == SEPARATOR && plain[1] == SEPARATOR);
        }
    }
    assert(anchor(dotted) == anchor(plain)) by {
        if before.len() > 0 {
            assert(dotted[0] == before[0] && plain[0] == before[0]);
        }
        if before.len() > 1 {
            assert(dotted[1] == before[1] && plain[1] == before[1]);
        } else if before.len() == 1 {
            assert(dotted[1] == SEPARATOR && plain[1] == SEPARATOR);
        }
    }
}

/// Whether a segment names something.
fn names_something(segment: &Vec<u8>) -> (b: bool)
    ensures
        b == is_name(segment@),
{
    if segment.len() == 0 {
        false
    } else if segment.len() == 1 && segment[0] == DOT {
        assert(segment@ =~= seq![DOT]);
        false
    } else {
        assert(segment@ != seq![DOT]) by {
            if segment@.len() == 1 {
                assert(seq![DOT][0] == DOT);
            } else {
                assert(seq![DOT].len() == 1);
            }
        }
        true
    }
}

/// The byte string that holds one byte.
fn single(byte: u8) -> (bytes: Vec<u8>)
    ensures
        bytes@ == seq![byte],
{
    let mut bytes: Vec<u8> = Vec::new();
    bytes.push(byte);
    assert(bytes@ =~= seq![byte]);
    bytes
}

/// Splits a path into its components.
pub fn components_of(path: &[u8]) -> (list: Vec<Vec<u8>>)
    ensures
        contents(list@) == components(path@),
{
    let mut list: Vec<Vec<u8>> = Vec::new();
    if path.len() > 0 && path[0] == SEPARATOR {
        list.push(single(SEPARATOR));
    } else if path.len() > 0 && path[0] == DOT && (path.len() == 1 || path[1] == SEPARATOR) {
        list.push(single(DOT));
    }
    assert(contents(list@) =~= anchor(path@));
    let mut current: Vec<u8> = Vec::new();
    let mut i: usize = 0;
    proof {
        reveal(Seq::filter);
        assert(path@.take(0) =~= Seq::<u8>::empty());
        assert(segments(path@.take(0)).drop_last() =~= Seq::<Seq<u8>>::empty());
    }
    while i < path.len()
        invariant
            i <= path.len(),
            current@ == segments(path@.take(i as int)).last(),
            contents(list@) == anchor(path@) + segments(path@.take(i as int)).drop_last().filter(
                |segment: Seq<u8>| is_name(segment),
            ),
        decreases path.len() - i,
    {
        let byte = path[i];
        proof {
            let seen = path@.take(i as int);
            let next = path@.take(i + 1);
            assert(next.drop_last() =~= seen);
            assert(next.last() == byte);
            lemma_segments_nonempty(seen);
            if byte == SEPARATOR {
                assert(segments(next).drop_last() =~= segments(seen));
                lemma_names_by_last(segments(seen));
            } else {
                assert(segments(next).drop_last() =~= segments(seen).drop_last());
            }
        }
        if byte == SEPARATOR {
            if names_something(&current) {
                let ghost before = contents(list@);
                list.push(current);
                assert(contents(list@) =~= before.push(current@));
            }
            current = Vec::new();
        } else {
            current.push(byte);
        }
        i += 1;
    }
    proof {
        assert(path@.take(i as int) =~= path@);
        lemma_segments_nonempty(path@);
        lemma_names_by_last(segments(path@));
    }
    if names_something(&current) {
        let ghost before = contents(list@);
        list.push(current);
        assert(contents(list@) =~= before.push(current@));
    }
    list
}

/// Whether two byte strings are equal.
fn same_bytes(a: &Vec<u8>, b: &Vec<u8>) -> (same: bool)
    ensures
        same == (a@ == b@),
{
    if a.len() != b.len() {
        return false;
    }
    let mut i: usize = 0;
    while i < a.len()
        invariant
            i <= a.len(),
            a.len() == b.len(),
            forall|k: int| 0 <= k < i ==> a@[k] == b@[k],
        decreases a.len() - i,
    {
        if a[i] != b[i] {
            return false;
        }
        i += 1;
    }
    assert(a@ =~= b@);
    true
}

/// Whether two lists of components are equal.
pub fn same_components(left: &Vec<Vec<u8>>, right: &Vec<Vec<u8>>) -> (same: bool)
    ensures
        same == (contents(left@) == contents(right@)),
{
    if left.len() != right.len() {
        assert(contents(left@).len() != contents(right@).len());
        return false;
    }
    let mut i: usize = 0;
    while i < left.len()
        invariant
            i <= left.len(),
            left.len() == right.len(),
            forall|k: int| 0 <= k < i ==> contents(left@)[k] == contents(right@)[k],
        decreases left.len() - i,
    {
        if !same_bytes(&left[i], &right[i]) {
            assert(contents(left@)[i as int] != contents(right@)[i as int]);
            return false;
        }
        i += 1;
    }
    assert(contents(left@) =~= contents(right@));
    true
}

/// Whether two spellings are the same path.
pub fn is_same_path(a: &str, b: &str) -> (same: bool)
    ensures
        same == same_path(encode_utf8(a@), encode_utf8(b@)),
{
    let left = components_of(a.as_bytes());
    let right = components_of(b.as_bytes());
    same_components(&left, &right)
}

} // verus!
